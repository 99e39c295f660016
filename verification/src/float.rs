//! Floating-point values as they stand in packets: by their bits, with the
//! order and the roundings that the library needs stated over integers.
use vstd::prelude::*;

use crate::text;

verus! {

/// A single-precision value, by its bits.
#[derive(Clone, Copy, Debug, PartialEq, Eq, Structural)]
pub struct F32 {
    pub bits: u32,
}

/// A double-precision value, by its bits.
#[derive(Clone, Copy, Debug, PartialEq, Eq, Structural)]
pub struct F64 {
    pub bits: u64,
}

/// The sign bit of a single-precision value.
pub const SIGN32: u32 = 0x8000_0000;

/// The bits of the single-precision infinity.
pub const INFINITY32: u32 = 0x7f80_0000;

/// The bits of the double-precision infinity.
pub const INFINITY64: u64 = 0x7ff0_0000_0000_0000;

/// `n / d`, rounded to the nearest integer, ties to the even one.
pub open spec fn round_even(n: int, d: int) -> int {
    let q = n / d;
    let r = n % d;
    if 2 * r > d || (2 * r == d && q % 2 == 1) {
        q + 1
    } else {
        q
    }
}

/// The quotient, rounded to the nearest integer, ties to the even one.
pub fn rounded_quotient(n: u128, d: u128) -> (r: u128)
    requires
        d > 0,
    ensures
        r == round_even(n as int, d as int),
{
    let q: u128 = n / d;
    let rest: u128 = n % d;
    if rest > d - rest || (rest == d - rest && q % 2 == 1) {
        proof {
            vstd::arithmetic::div_mod::lemma_div_is_ordered_by_denominator(n as int, 2, d as int);
        }
        q + 1
    } else {
        q
    }
}

/// Rounding stays within a whole bound of the quotient.
pub proof fn lemma_round_even_bounds(n: int, d: int)
    requires
        0 <= n,
        0 < d,
    ensures
        0 <= n / d <= round_even(n, d) <= n / d + 1,
{
    vstd::arithmetic::div_mod::lemma_div_pos_is_pos(n, d);
}

pub const TWO52: u128 = 0x10_0000_0000_0000;

pub const TWO53: u128 = 0x20_0000_0000_0000;

/// The numerator of `n / d`, doubled until the quotient has 53 bits at least.
pub open spec fn raised(n: int, d: int) -> int
    decreases
            if n < d * TWO52 {
                d * TWO52 - n
            } else {
                0
            },
{
    if n <= 0 || n >= d * TWO52 {
        n
    } else {
        raised(2 * n, d)
    }
}

/// The denominator of `n / d`, doubled until the quotient has 53 bits at most.
pub open spec fn lowered(n: int, d: int) -> int
    decreases
            if n >= d * TWO53 {
                n - d * TWO53 + 1
            } else {
                0
            },
{
    if d <= 0 || n < d * TWO53 {
        d
    } else {
        lowered(n, 2 * d)
    }
}

/// Where the double-precision value nearest to `n / d` lies: above it where this is
/// positive, below it where this is negative.
pub open spec fn double_error(n: int, d: int) -> int {
    round_even(raised(n, d), lowered(n, d)) * lowered(n, d) - raised(n, d)
}

/// On which side of the quotient the double-precision value nearest to it lies.
#[derive(Clone, Copy, Debug, PartialEq, Eq, Structural)]
pub enum Side {
    Below,
    Exact,
    Above,
}

pub fn side_of_double(n: u128, d: u128) -> (r: Side)
    requires
        0 < n <= 0x1000_0000_0000_0000_0000_0000_0000,
        0 < d <= 2_000,
    ensures
        (r == Side::Above) == (double_error(n as int, d as int) > 0),
        (r == Side::Below) == (double_error(n as int, d as int) < 0),
{
    let mut a: u128 = n;
    while a < d * TWO52
        invariant
            0 < d <= 2_000,
            0 < a <= 0x1000_0000_0000_0000_0000_0000_0000,
            raised(a as int, d as int) == raised(n as int, d as int),
        decreases 2 * d * TWO52 - a,
    {
        a = 2 * a;
    }
    let mut b: u128 = d;
    while n >= b * TWO53
        invariant
            0 < n <= 0x1000_0000_0000_0000_0000_0000_0000,
            0 < b <= 0x1_0000_0000_0000_0000,
            lowered(n as int, b as int) == lowered(n as int, d as int),
        decreases 2 * n - b * TWO53,
    {
        b = 2 * b;
    }
    let m: u128 = rounded_quotient(a, b);
    proof {
        lemma_round_even_bounds(a as int, b as int);
        vstd::arithmetic::div_mod::lemma_fundamental_div_mod(a as int, b as int);
        assert(m * b <= (a / b + 1) * b) by (nonlinear_arith)
            requires
                m <= a / b + 1,
                b > 0,
        ;
        assert((a / b + 1) * b == b * (a as int / b as int) + b) by (nonlinear_arith)
            requires
                b > 0,
        ;
        assert(0 <= m * b) by (nonlinear_arith)
            requires
                0 <= m,
                0 < b,
        ;
    }
    let back: u128 = m * b;
    if back > a {
        Side::Above
    } else if back < a {
        Side::Below
    } else {
        Side::Exact
    }
}

impl F32 {
    pub open spec fn spec_exponent(self) -> int {
        ((self.bits % SIGN32) / 0x80_0000) as int
    }

    pub open spec fn spec_significand(self) -> int {
        if self.spec_exponent() == 0 {
            (self.bits % 0x80_0000) as int
        } else {
            (self.bits % 0x80_0000) + 0x80_0000
        }
    }

    /// Neither infinite nor a NaN.
    pub open spec fn finite(self) -> bool {
        self.bits % SIGN32 < INFINITY32
    }

    pub open spec fn is_nan(self) -> bool {
        self.bits % SIGN32 > INFINITY32
    }

    /// Finite and not below zero; negative zero is not below zero.
    pub open spec fn finite_nonnegative(self) -> bool {
        self.bits < INFINITY32 || self.bits == SIGN32
    }

    /// The magnitude of a finite value, in units of the least positive one.
    pub open spec fn units(self) -> int {
        if self.spec_exponent() == 0 {
            self.spec_significand()
        } else {
            self.spec_significand() * vstd::arithmetic::power2::pow2((self.spec_exponent() - 1) as nat)
        }
    }

    /// Not below zero and at most `max`, which is positive.
    pub open spec fn from_zero_to(self, max: F32) -> bool {
        self.bits <= max.bits || self.bits == SIGN32
    }

    /// The value of a finite, nonnegative number in thousandths, rounded to the
    /// nearest, ties to even, and cut off at the largest 64-bit integer.
    pub open spec fn thousandths(self) -> int {
        let m = self.spec_significand() * 1000;
        let e = if self.spec_exponent() == 0 {
            1
        } else {
            self.spec_exponent()
        };
        let exact = if e >= 150 {
            m * vstd::arithmetic::power2::pow2((e - 150) as nat)
        } else {
            round_even(m, vstd::arithmetic::power2::pow2((150 - e) as nat) as int)
        };
        if exact > i64::MAX {
            i64::MAX as int
        } else {
            exact
        }
    }

    pub proof fn thousandths_is_nonnegative(self)
        ensures
            0 <= self.thousandths() <= i64::MAX,
    {
        let m = self.spec_significand() * 1000;
        let e = if self.spec_exponent() == 0 {
            1
        } else {
            self.spec_exponent()
        };
        if e >= 150 {
            vstd::arithmetic::power2::lemma_pow2_pos((e - 150) as nat);
            assert(m * vstd::arithmetic::power2::pow2((e - 150) as nat) >= 0) by (nonlinear_arith)
                requires
                    m >= 0,
                    vstd::arithmetic::power2::pow2((e - 150) as nat) > 0,
            ;
        } else {
            let d = vstd::arithmetic::power2::pow2((150 - e) as nat) as int;
            vstd::arithmetic::power2::lemma_pow2_pos((150 - e) as nat);
            vstd::arithmetic::div_mod::lemma_div_pos_is_pos(m, d);
        }
    }

    /// The magnitude of a finite value in whole units, rounded to the nearest, ties
    /// to even.
    pub open spec fn whole(self) -> int {
        let e = if self.spec_exponent() == 0 {
            1
        } else {
            self.spec_exponent()
        };
        if e >= 150 {
            self.spec_significand() * vstd::arithmetic::power2::pow2((e - 150) as nat)
        } else {
            round_even(
                self.spec_significand(),
                vstd::arithmetic::power2::pow2((150 - e) as nat) as int,
            )
        }
    }

    /// The value as it is printed without decimals.
    pub open spec fn whole_text(self) -> Seq<char> {
        if self.is_nan() {
            "NaN"@
        } else {
            (if self.bits >= SIGN32 {
                "-"@
            } else {
                ""@
            }) + if self.finite() {
                text::dec(self.whole() as nat)
            } else {
                "inf"@
            }
        }
    }

    fn to_whole(self) -> (r: u128)
        requires
            self.finite(),
        ensures
            r == self.whole(),
    {
        let exponent: u32 = (self.bits % SIGN32) / 0x80_0000;
        let fraction: u32 = self.bits % 0x80_0000;
        let m: u128 = if exponent == 0 {
            fraction as u128
        } else {
            (fraction as u128) + 0x80_0000
        };
        let e: u32 = if exponent == 0 { 1 } else { exponent };
        if e >= 150 {
            let k: u32 = e - 150;
            let a: u32 = if k <= 64 { k } else { 64 };
            let p: u128 = power_of_two(a);
            let q: u128 = power_of_two(k - a);
            proof {
                vstd::arithmetic::power2::lemma_pow2_adds(a as nat, (k - a) as nat);
                if k < 104 {
                    vstd::arithmetic::power2::lemma_pow2_strictly_increases(k as nat, 104);
                }
                vstd::arithmetic::power2::lemma_pow2_adds(64, 40);
                vstd::arithmetic::power2::lemma2_to64();
                vstd::arithmetic::power2::lemma2_to64_rest();
                let w = vstd::arithmetic::power2::pow2(k as nat);
                assert(m * w <= 0xff_ffff * 0x100_0000_0000_0000_0000_0000_0000) by (nonlinear_arith)
                    requires
                        m <= 0xff_ffff,
                        w <= 0x100_0000_0000_0000_0000_0000_0000,
                ;
            }
            m * (p * q)
        } else {
            let k: u32 = 150 - e;
            if k > 63 {
                proof {
                    lemma_small_quotient(m as int, k as nat);
                }
                return 0;
            }
            let d: u128 = power_of_two(k);
            proof {
                lemma_pow2_up_to_63(k as nat);
            }
            let q: u128 = m / d;
            let r: u128 = m % d;
            if 2 * r > d || (2 * r == d && q % 2 == 1) {
                q + 1
            } else {
                q
            }
        }
    }

    pub fn to_whole_text(self) -> (out: String)
        ensures
            out@ == self.whole_text(),
    {
        if self.bits % SIGN32 > INFINITY32 {
            return "NaN".to_owned();
        }
        let sign: &'static str = if self.bits >= SIGN32 { "-" } else { "" };
        if self.is_finite() {
            text::concat2(sign, text::long_dec_string(self.to_whole()).as_str())
        } else {
            text::concat2(sign, "inf")
        }
    }

    pub fn is_finite(self) -> (r: bool)
        ensures
            r == self.finite(),
    {
        self.bits % SIGN32 < INFINITY32
    }

    pub fn is_finite_nonnegative(self) -> (r: bool)
        ensures
            r == self.finite_nonnegative(),
    {
        self.bits < INFINITY32 || self.bits == SIGN32
    }

    pub fn is_from_zero_to(self, max: F32) -> (r: bool)
        ensures
            r == self.from_zero_to(max),
    {
        self.bits <= max.bits || self.bits == SIGN32
    }

    /// The value in thousandths.
    pub fn to_thousandths(self) -> (r: i64)
        ensures
            r == self.thousandths(),
    {
        let exponent: u32 = (self.bits % SIGN32) / 0x80_0000;
        let fraction: u32 = self.bits % 0x80_0000;
        let significand: u128 = if exponent == 0 {
            fraction as u128
        } else {
            (fraction as u128) + 0x80_0000
        };
        let e: u32 = if exponent == 0 { 1 } else { exponent };
        let m: u128 = significand * 1000;
        let exact: u128 = if e >= 150 {
            if e > 213 {
                proof {
                    lemma_large_exponent(m as int, (e - 150) as nat);
                }
                return i64::MAX;
            }
            let scale: u128 = power_of_two(e - 150);
            proof {
                lemma_pow2_up_to_63((e - 150) as nat);
                assert(m * scale <= 0x100_0000 * 1000 * 0x8000_0000_0000_0000) by (nonlinear_arith)
                    requires
                        m <= 0x100_0000 * 1000,
                        scale <= 0x8000_0000_0000_0000,
                ;
            }
            m * scale
        } else {
            let k: u32 = 150 - e;
            if k > 63 {
                proof {
                    lemma_small_quotient(m as int, k as nat);
                }
                return 0;
            }
            let d: u128 = power_of_two(k);
            proof {
                lemma_pow2_up_to_63(k as nat);
            }
            let q: u128 = m / d;
            let r: u128 = m % d;
            if 2 * r > d || (2 * r == d && q % 2 == 1) {
                q + 1
            } else {
                q
            }
        };
        if exact > 0x7fff_ffff_ffff_ffff {
            i64::MAX
        } else {
            exact as i64
        }
    }
}

impl F64 {
    /// Finite and not below zero; negative zero is not below zero.
    pub open spec fn finite_nonnegative(self) -> bool {
        self.bits < INFINITY64 || self.bits == 0x8000_0000_0000_0000
    }

    pub fn is_finite_nonnegative(self) -> (r: bool)
        ensures
            r == self.finite_nonnegative(),
    {
        self.bits < INFINITY64 || self.bits == 0x8000_0000_0000_0000
    }
}

proof fn lemma_pow2_up_to_64(k: nat)
    requires
        k <= 64,
    ensures
        0 < vstd::arithmetic::power2::pow2(k) <= 0x1_0000_0000_0000_0000,
{
    vstd::arithmetic::power2::lemma_pow2_pos(k);
    if k < 64 {
        vstd::arithmetic::power2::lemma_pow2_strictly_increases(k, 64);
    }
    vstd::arithmetic::power2::lemma2_to64_rest();
}

proof fn lemma_pow2_up_to_63(k: nat)
    requires
        k <= 63,
    ensures
        0 < vstd::arithmetic::power2::pow2(k) <= 0x8000_0000_0000_0000,
{
    vstd::arithmetic::power2::lemma_pow2_pos(k);
    if k < 63 {
        vstd::arithmetic::power2::lemma_pow2_strictly_increases(k, 63);
    }
    vstd::arithmetic::power2::lemma2_to64_rest();
}

proof fn lemma_large_exponent(m: int, k: nat)
    requires
        m >= 0x80_0000 * 1000,
        k > 63,
    ensures
        m * vstd::arithmetic::power2::pow2(k) > i64::MAX,
{
    vstd::arithmetic::power2::lemma_pow2_strictly_increases(63, k);
    vstd::arithmetic::power2::lemma2_to64_rest();
    assert(m * vstd::arithmetic::power2::pow2(k) >= vstd::arithmetic::power2::pow2(k)) by (nonlinear_arith)
        requires
            m >= 1,
            vstd::arithmetic::power2::pow2(k) >= 0,
    ;
}

proof fn lemma_small_quotient(m: int, k: nat)
    requires
        0 <= m <= 0x100_0000 * 1000,
        k > 63,
    ensures
        round_even(m, vstd::arithmetic::power2::pow2(k) as int) == 0,
{
    vstd::arithmetic::power2::lemma_pow2_strictly_increases(63, k);
    vstd::arithmetic::power2::lemma2_to64_rest();
    vstd::arithmetic::div_mod::lemma_basic_div(m, vstd::arithmetic::power2::pow2(k) as int);
    vstd::arithmetic::div_mod::lemma_small_mod(m as nat, vstd::arithmetic::power2::pow2(k));
}

/// `2` to the power `k`.
pub fn power_of_two(k: u32) -> (r: u128)
    requires
        k <= 64,
    ensures
        r == vstd::arithmetic::power2::pow2(k as nat),
        0 < r <= 0x1_0000_0000_0000_0000,
{
    let mut r: u128 = 1;
    let mut i: u32 = 0;
    proof {
        vstd::arithmetic::power2::lemma2_to64();
    }
    while i < k
        invariant
            i <= k <= 64,
            r == vstd::arithmetic::power2::pow2(i as nat),
        decreases k - i,
    {
        proof {
            lemma_pow2_up_to_64(i as nat);
            vstd::arithmetic::power2::lemma_pow2_unfold((i + 1) as nat);
        }
        r = r * 2;
        i += 1;
    }
    proof {
        lemma_pow2_up_to_64(k as nat);
    }
    r
}

/// Of two finite, positive values the one with the larger bits is the larger one.
pub proof fn order_of_bits_is_order_of_values(a: F32, b: F32)
    requires
        a.bits < INFINITY32,
        b.bits < INFINITY32,
    ensures
        a.bits < b.bits <==> a.units() < b.units(),
{
    if a.bits < b.bits {
        lemma_bits_monotone(a, b);
    } else if b.bits < a.bits {
        lemma_bits_monotone(b, a);
    }
}

proof fn lemma_bits_monotone(a: F32, b: F32)
    requires
        a.bits < b.bits < INFINITY32,
    ensures
        a.units() < b.units(),
{
    let ea = a.spec_exponent();
    let eb = b.spec_exponent();
    let ma = a.spec_significand();
    let mb = b.spec_significand();
    assert(a.bits == ea * 0x80_0000 + a.bits % 0x80_0000);
    assert(b.bits == eb * 0x80_0000 + b.bits % 0x80_0000);
    assert(ea <= eb);
    if ea == eb {
        if ea > 0 {
            vstd::arithmetic::power2::lemma_pow2_pos((ea - 1) as nat);
            assert(ma * vstd::arithmetic::power2::pow2((ea - 1) as nat) < mb * vstd::arithmetic::power2::pow2((ea - 1) as nat)) by (nonlinear_arith)
                requires
                    ma < mb,
                    vstd::arithmetic::power2::pow2((ea - 1) as nat) > 0,
            ;
        }
    } else {
        let pb = vstd::arithmetic::power2::pow2((eb - 1) as nat);
        vstd::arithmetic::power2::lemma_pow2_pos((eb - 1) as nat);
        if ea == 0 {
            assert(mb * pb >= mb) by (nonlinear_arith)
                requires
                    mb >= 0,
                    pb >= 1,
            ;
        } else {
            let pa = vstd::arithmetic::power2::pow2((ea - 1) as nat);
            vstd::arithmetic::power2::lemma_pow2_pos((ea - 1) as nat);
            vstd::arithmetic::power2::lemma_pow2_unfold(ea as nat);
            if ea < eb - 1 {
                vstd::arithmetic::power2::lemma_pow2_strictly_increases(
                    ea as nat,
                    (eb - 1) as nat,
                );
            }
            assert(pb >= 2 * pa);
            assert(ma * pa < mb * pb) by (nonlinear_arith)
                requires
                    ma < 0x100_0000,
                    mb >= 0x80_0000,
                    pa > 0,
                    pb >= 2 * pa,
            ;
        }
    }
}

/// The thousandths of a value are the nearest to it: a thousand times the value lies
/// within a half of them, unless they are held at the end of the range. The value is
/// counted in its smallest unit, of which one holds `2^149`.
#[verifier::spinoff_prover]
pub proof fn thousandths_are_the_nearest(x: F32)
    ensures
        x.thousandths() == i64::MAX || -(vstd::arithmetic::power2::pow2(149) as int) <= 2 * (
        x.thousandths() * vstd::arithmetic::power2::pow2(149) - 1_000 * x.units())
            <= vstd::arithmetic::power2::pow2(149),
{
    let s = x.spec_significand();
    let e = if x.spec_exponent() == 0 {
        1
    } else {
        x.spec_exponent()
    };
    let m = s * 1000;
    let one = vstd::arithmetic::power2::pow2(149) as int;
    vstd::arithmetic::power2::lemma_pow2_pos((e - 1) as nat);
    let step = vstd::arithmetic::power2::pow2((e - 1) as nat) as int;
    assert(vstd::arithmetic::power2::pow2(0) == 1) by {
        vstd::arithmetic::power2::lemma2_to64();
    }
    assert(x.units() == s * step) by (nonlinear_arith)
        requires
            x.spec_exponent() == 0 ==> x.units() == s && step == 1,
            x.spec_exponent() != 0 ==> x.units() == s * step,
    ;
    if e >= 150 {
        let f = vstd::arithmetic::power2::pow2((e - 150) as nat) as int;
        vstd::arithmetic::power2::lemma_pow2_adds((e - 150) as nat, 149);
        assert((e - 150) as nat + 149 == (e - 1) as nat);
        assert(f * one == step);
        assert((m * f) * one == 1_000 * (s * step)) by (nonlinear_arith)
            requires
                f * one == step,
                m == s * 1000,
        ;
        vstd::arithmetic::power2::lemma_pow2_pos(149);
    } else {
        let d = vstd::arithmetic::power2::pow2((150 - e) as nat) as int;
        vstd::arithmetic::power2::lemma_pow2_pos((150 - e) as nat);
        vstd::arithmetic::power2::lemma_pow2_adds((150 - e) as nat, (e - 1) as nat);
        assert((150 - e) as nat + (e - 1) as nat == 149);
        assert(d * step == one);
        let q = m / d;
        let r = m % d;
        vstd::arithmetic::div_mod::lemma_fundamental_div_mod(m, d);
        vstd::arithmetic::div_mod::lemma_mod_bound(m, d);
        let t = round_even(m, d);
        assert(-d <= 2 * (t * d - m) <= d) by {
            assert((q + 1) * d == d * q + d) by (nonlinear_arith);
            assert(q * d == d * q) by (nonlinear_arith);
        }
        assert(t * one - 1_000 * (s * step) == (t * d - m) * step) by (nonlinear_arith)
            requires
                d * step == one,
                m == s * 1000,
        ;
        assert(-(d * step) <= 2 * ((t * d - m) * step) <= d * step) by (nonlinear_arith)
            requires
                -d <= 2 * (t * d - m) <= d,
                step > 0,
        ;
    }
}

/// A value is told by its bits: eight of an exponent `e` and twenty-three of a fraction
/// `f` stand for `2^23 + f` steps, of which each is `2^(e - 1)` of the smallest units;
/// with an exponent of zero the steps are `f` smallest units.
pub proof fn values_follow_their_bits(x: F32, e: int, f: int)
    requires
        x.bits == e * 0x80_0000 + f,
        0 <= f < 0x80_0000,
        0 <= e < 255,
    ensures
        e > 0 ==> x.units() == (0x80_0000 + f) * vstd::arithmetic::power2::pow2((e - 1) as nat),
        e == 0 ==> x.units() == f,
        x.finite() && x.finite_nonnegative() && !x.is_nan(),
{
    assert(x.bits < 0x8000_0000);
    assert(x.bits % 0x8000_0000 == x.bits);
    assert(x.bits / 0x80_0000 == e);
    assert(x.bits % 0x80_0000 == f);
}

} // verus!
