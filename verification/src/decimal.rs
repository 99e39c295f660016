//! Points in time from decimal text.
use vstd::prelude::*;

use crate::text;
use crate::text::Class;

verus! {

/// Stands for a point in time that lies before all others and never comes.
pub const NO_MOMENT: i64 = -9_223_372_036_854_775_808;

/// A decimal number: its sign, its digits, and how many of them stand before the
/// point. The count is negative where zeros follow the point first, and exceeds
/// the digits where zeros precede the point.
#[verifier::ext_equal]
pub struct DecimalView {
    pub negative: bool,
    pub digits: Seq<char>,
    pub point: int,
}

/// The exponent that a text writes: digits, with a sign before them or none.
pub open spec fn exponent(s: Seq<char>) -> Option<int> {
    let signed = s.len() > 0 && (s[0] == '-' || s[0] == '+');
    let digits = if signed {
        s.skip(1)
    } else {
        s
    };
    if digits.len() == 0 || !text::all_digits(digits) {
        None
    } else if signed && s[0] == '-' {
        Some(-text::digits_value(digits))
    } else {
        Some(text::digits_value(digits))
    }
}

/// The number that `s` writes from position `i` on: digits, among which a point
/// may stand, and an exponent behind them or none.
pub open spec fn unsigned_decimal(s: Seq<char>, negative: bool) -> Option<DecimalView> {
    let a = text::skip_class(s, Class::Digit, 0);
    let dotted = a < s.len() && s[a] == '.';
    let b = if dotted {
        text::skip_class(s, Class::Digit, a + 1)
    } else {
        a
    };
    let digits = if dotted {
        s.take(a) + s.subrange(a + 1, b)
    } else {
        s.take(a)
    };
    if digits.len() == 0 {
        None
    } else if b == s.len() {
        Some(DecimalView { negative, digits, point: a })
    } else if s[b] == 'e' || s[b] == 'E' {
        match exponent(s.skip(b + 1)) {
            Some(e) => Some(DecimalView { negative, digits, point: a + e }),
            None => None,
        }
    } else {
        None
    }
}

/// The number that a text writes.
pub open spec fn decimal(s: Seq<char>) -> Option<DecimalView> {
    if s.len() > 0 && (s[0] == '-' || s[0] == '+') {
        unsigned_decimal(s.skip(1), s[0] == '-')
    } else {
        unsigned_decimal(s, false)
    }
}

/// The number that the first `n` digits write, with zeros behind the last one as
/// far as needed.
pub open spec fn leading(digits: Seq<char>, n: int) -> int
    decreases n,
{
    if n <= 0 {
        0
    } else {
        leading(digits, n - 1) * 10 + if n - 1 < digits.len() {
            digits[n - 1] as int - '0' as int
        } else {
            0
        }
    }
}

/// A number of seconds in microseconds, cut off behind the last of them and held
/// within the 64-bit range.
pub open spec fn micros(d: DecimalView) -> int {
    let exact = leading(d.digits, d.point + 6);
    let magnitude = if exact > i64::MAX {
        i64::MAX as int
    } else {
        exact
    };
    if d.negative {
        -magnitude
    } else {
        magnitude
    }
}

/// The text names infinity, in whatever case.
pub open spec fn endless(s: Seq<char>) -> bool {
    text::lower(s) == "inf"@ || text::lower(s) == "infinity"@
}

/// The text names what is no number, in whatever case.
pub open spec fn numberless(s: Seq<char>) -> bool {
    text::lower(s) == "nan"@
}

/// The point in time that a text writes in seconds, in microseconds. Infinity is
/// held at the 64-bit range as well, and so is what is no number: it lies behind all
/// numbers, or, with a minus, before them, and never comes.
pub open spec fn seconds(s: Seq<char>) -> Option<int> {
    let signed = s.len() > 0 && (s[0] == '-' || s[0] == '+');
    let negative = signed && s[0] == '-';
    let rest = if signed {
        s.skip(1)
    } else {
        s
    };
    if endless(rest) {
        Some(
            if negative {
                -i64::MAX as int
            } else {
                i64::MAX as int
            },
        )
    } else if numberless(rest) {
        Some(
            if negative {
                NO_MOMENT as int
            } else {
                i64::MAX as int
            },
        )
    } else {
        match decimal(s) {
            Some(d) => Some(micros(d)),
            None => None,
        }
    }
}

proof fn lemma_skip_digits(s: Seq<char>, i: int)
    requires
        0 <= i <= s.len(),
    ensures
        forall|k: int|
            i <= k < text::skip_class(s, Class::Digit, i) ==> text::is_digit(#[trigger] s[k]),
        i <= text::skip_class(s, Class::Digit, i) <= s.len(),
    decreases s.len() - i,
{
    if i < s.len() && text::is_digit(s[i]) {
        lemma_skip_digits(s, i + 1);
    }
}

proof fn lemma_leading_monotone(digits: Seq<char>, m: int, n: int)
    requires
        m <= n,
        text::all_digits(digits),
    ensures
        0 <= leading(digits, m) <= leading(digits, n),
    decreases n,
{
    if n <= 0 {
    } else if m == n {
        lemma_leading_monotone(digits, n - 1, n - 1);
        if n - 1 < digits.len() {
            assert(text::is_digit(digits[n - 1]));
        }
    } else {
        lemma_leading_monotone(digits, m, n - 1);
        if n - 1 < digits.len() {
            assert(text::is_digit(digits[n - 1]));
        }
    }
}

proof fn lemma_leading_zero(digits: Seq<char>, m: int, n: int)
    requires
        digits.len() <= m <= n,
        leading(digits, m) == 0,
    ensures
        leading(digits, n) == 0,
    decreases n,
{
    if m < n {
        lemma_leading_zero(digits, m, n - 1);
    }
}

/// The first `n` digits as a number, held at the largest 64-bit integer.
fn leading_number(digits: &Vec<char>, n: i128) -> (r: i64)
    requires
        text::all_digits(digits@),
    ensures
        r >= 0,
        leading(digits@, n as int) <= i64::MAX ==> r == leading(digits@, n as int),
        leading(digits@, n as int) > i64::MAX ==> r == i64::MAX,
{
    let mut value: i128 = 0;
    let mut k: i128 = 0;
    while k < n
        invariant
            0 <= k,
            k <= n || n < 0,
            n <= 0 ==> k == 0,
            value == leading(digits@, k as int),
            0 <= value <= i64::MAX,
            text::all_digits(digits@),
        decreases n - k,
    {
        if k >= digits.len() as i128 && value == 0 {
            proof {
                lemma_leading_zero(digits@, k as int, n as int);
            }
            return 0;
        }
        let digit: i128 = if k < digits.len() as i128 {
            let c = digits[k as usize];
            assert(text::is_digit(digits@[k as int]));
            (c as u8 - 48) as i128
        } else {
            0
        };
        value = value * 10 + digit;
        k = k + 1;
        assert(value == leading(digits@, k as int));
        if value > 0x7fff_ffff_ffff_ffff {
            proof {
                lemma_leading_monotone(digits@, k as int, n as int);
            }
            return i64::MAX;
        }
    }
    value as i64
}

/// Beyond this, an exponent shifts every digit of a text out of the 64-bit range.
const FAR: i128 = 0x2_0000_0000_0000_0000;

/// The exponent as far as it matters.
spec fn held(e: int) -> int {
    if e > FAR {
        FAR as int
    } else if e < -FAR {
        -(FAR as int)
    } else {
        e
    }
}

/// The value of the digits, held at `FAR`.
fn held_value(d: &Vec<char>) -> (r: Option<i128>)
    ensures
        match r {
            Some(v) => text::all_digits(d@) && v == held(text::digits_value(d@)) && v >= 0,
            None => !text::all_digits(d@),
        },
{
    let mut value: i128 = 0;
    let mut i: usize = 0;
    while i < d.len()
        invariant
            i <= d.len(),
            text::all_digits(d@.take(i as int)),
            text::digits_value(d@.take(i as int)) >= 0,
            value == held(text::digits_value(d@.take(i as int))),
        decreases d.len() - i,
    {
        let c = d[i];
        if !text::digit_char(c) {
            assert(!text::is_digit(d@[i as int]));
            return None;
        }
        proof {
            let t = d@.take(i + 1);
            assert(t.drop_last() =~= d@.take(i as int));
            assert(t.last() == c);
            assert forall|k: int| 0 <= k < t.len() implies text::is_digit(#[trigger] t[k]) by {
                if k < i {
                    assert(text::is_digit(d@.take(i as int)[k]));
                }
            }
        }
        let next: i128 = value * 10 + ((c as u8 - 48) as i128);
        value = if next > FAR { FAR } else { next };
        i += 1;
    }
    assert(d@.take(i as int) =~= d@);
    Some(value)
}

fn read_exponent(s: &Vec<char>) -> (r: Option<i128>)
    ensures
        match r {
            Some(e) => exponent(s@) is Some && e == held(exponent(s@).unwrap()) && -FAR <= e <= FAR,
            None => exponent(s@) is None,
        },
{
    let from: usize = if s.len() > 0 && (s[0] == '-' || s[0] == '+') { 1 } else { 0 };
    let digits = text::part(s, from, s.len());
    assert(from == 1 ==> digits@ =~= s@.skip(1));
    assert(from == 0 ==> digits@ =~= s@);
    if digits.len() == 0 {
        return None;
    }
    match held_value(&digits) {
        Some(v) => {
            proof {
                text::lemma_digits_value_nonnegative(digits@);
            }
            if from == 1 && s[0] == '-' {
                Some(-v)
            } else {
                Some(v)
            }
        },
        None => None,
    }
}

/// Where the digits leave nothing but zeros behind them, twenty places on they
/// write zero or more than 64 bits hold.
proof fn lemma_far_places(digits: Seq<char>, m: int, n: int)
    requires
        text::all_digits(digits),
        digits.len() + 20 <= m <= n,
    ensures
        leading(digits, m) == leading(digits, n) == 0 || (leading(digits, m) > i64::MAX && leading(
            digits,
            n,
        ) > i64::MAX),
{
    let l = digits.len() as int;
    lemma_leading_monotone(digits, l, l + 20);
    if leading(digits, l) == 0 {
        lemma_leading_zero(digits, l, m);
        lemma_leading_zero(digits, l, n);
    } else {
        lemma_zeros_behind(digits);
        lemma_leading_monotone(digits, l + 20, m);
        lemma_leading_monotone(digits, m, n);
    }
}

proof fn lemma_zeros_behind(digits: Seq<char>)
    requires
        leading(digits, digits.len() as int) > 0,
    ensures
        leading(digits, digits.len() + 20int) > i64::MAX,
{
    let l = digits.len() as int;
    let v = leading(digits, l);
    assert(leading(digits, l + 1) == v * 10);
    assert(leading(digits, l + 2) == v * 100);
    assert(leading(digits, l + 3) == v * 1_000);
    assert(leading(digits, l + 4) == v * 10_000);
    assert(leading(digits, l + 5) == v * 100_000);
    assert(leading(digits, l + 6) == v * 1_000_000);
    assert(leading(digits, l + 7) == v * 10_000_000);
    assert(leading(digits, l + 8) == v * 100_000_000);
    assert(leading(digits, l + 9) == v * 1_000_000_000);
    assert(leading(digits, l + 10) == v * 10_000_000_000);
    assert(leading(digits, l + 11) == v * 100_000_000_000);
    assert(leading(digits, l + 12) == v * 1_000_000_000_000);
    assert(leading(digits, l + 13) == v * 10_000_000_000_000);
    assert(leading(digits, l + 14) == v * 100_000_000_000_000);
    assert(leading(digits, l + 15) == v * 1_000_000_000_000_000);
    assert(leading(digits, l + 16) == v * 10_000_000_000_000_000);
    assert(leading(digits, l + 17) == v * 100_000_000_000_000_000);
    assert(leading(digits, l + 18) == v * 1_000_000_000_000_000_000);
    assert(leading(digits, l + 19) == v * 10_000_000_000_000_000_000);
    assert(leading(digits, l + 20) == v * 100_000_000_000_000_000_000);
}

fn unsigned_micros(s: &Vec<char>, negative: bool) -> (r: Option<i64>)
    ensures
        match r {
            Some(t) => unsigned_decimal(s@, negative) is Some && t == micros(
                unsigned_decimal(s@, negative).unwrap(),
            ),
            None => unsigned_decimal(s@, negative) is None,
        },
{
    let a = text::skip_pos(s, Class::Digit, 0);
    let mut digits = text::part(s, 0, a);
    let mut b: usize = a;
    proof {
        lemma_skip_digits(s@, 0);
    }
    if a < s.len() && s[a] == '.' {
        b = text::skip_pos(s, Class::Digit, a + 1);
        proof {
            lemma_skip_digits(s@, a + 1);
        }
        let mut fraction = text::part(s, a + 1, b);
        digits.append(&mut fraction);
    }
    assert(digits@ =~= if a < s@.len() && s@[a as int] == '.' {
        s@.take(a as int) + s@.subrange(a + 1, b as int)
    } else {
        s@.take(a as int)
    });
    assert(text::all_digits(digits@));
    if digits.len() == 0 {
        return None;
    }
    let mut shift: i128 = 0;
    let ghost mut exact: int = 0;
    if b == s.len() {
    } else if s[b] == 'e' || s[b] == 'E' {
        let rest = text::part(s, b + 1, s.len());
        assert(rest@ =~= s@.skip(b + 1));
        match read_exponent(&rest) {
            Some(e) => {
                shift = e;
                proof {
                    exact = exponent(rest@).unwrap();
                }
            },
            None => {
                return None;
            },
        }
    } else {
        return None;
    }
    proof {
        if exact > FAR {
            lemma_far_places(digits@, a + shift + 6, a + exact + 6);
        }
    }
    let magnitude: i64 = leading_number(&digits, (a as i128) + shift + 6);
    Some(
        if negative {
            -magnitude
        } else {
            magnitude
        },
    )
}

fn is_endless(s: &Vec<char>) -> (r: bool)
    ensures
        r == endless(s@),
{
    let lower = text::to_lower(s);
    text::same(&lower, &text::chars_of("inf")) || text::same(&lower, &text::chars_of("infinity"))
}

fn is_numberless(s: &Vec<char>) -> (r: bool)
    ensures
        r == numberless(s@),
{
    text::same(&text::to_lower(s), &text::chars_of("nan"))
}

/// The point in time that a text writes in seconds.
pub fn parse_seconds(s: &Vec<char>) -> (r: Option<i64>)
    ensures
        match r {
            Some(t) => seconds(s@) == Some(t as int),
            None => seconds(s@) is None,
        },
{
    if s.len() > 0 && (s[0] == '-' || s[0] == '+') {
        let rest = text::part(s, 1, s.len());
        assert(rest@ =~= s@.skip(1));
        if is_endless(&rest) {
            Some(
                if s[0] == '-' {
                    -i64::MAX
                } else {
                    i64::MAX
                },
            )
        } else if is_numberless(&rest) {
            Some(
                if s[0] == '-' {
                    NO_MOMENT
                } else {
                    i64::MAX
                },
            )
        } else {
            unsigned_micros(&rest, s[0] == '-')
        }
    } else if is_endless(s) || is_numberless(s) {
        Some(i64::MAX)
    } else {
        unsigned_micros(s, false)
    }
}

proof fn lemma_all_digits_skipped(s: Seq<char>, i: int)
    requires
        0 <= i <= s.len(),
        forall|k: int| 0 <= k < s.len() ==> text::is_digit(#[trigger] s[k]),
    ensures
        text::skip_class(s, Class::Digit, i) == s.len(),
    decreases s.len() - i,
{
    if i < s.len() {
        lemma_all_digits_skipped(s, i + 1);
    }
}

proof fn lemma_leading_is_value(s: Seq<char>, n: int)
    requires
        0 <= n <= s.len(),
        forall|k: int| 0 <= k < s.len() ==> text::is_digit(#[trigger] s[k]),
    ensures
        leading(s, n) == text::digits_value(s.take(n)),
    decreases n,
{
    if n > 0 {
        lemma_leading_is_value(s, n - 1);
        assert(s.take(n).drop_last() =~= s.take(n - 1));
        assert(s.take(n).last() == s[n - 1]);
    } else {
        assert(s.take(0) =~= Seq::<char>::empty());
    }
}

/// A whole number of seconds is as many millions of microseconds, and with a minus as many
/// before.
pub proof fn whole_seconds_are_millions(n: nat)
    requires
        n <= 9_000_000_000_000,
    ensures
        seconds(text::dec(n)) == Some(1_000_000 * n as int),
        seconds("-"@ + text::dec(n)) == Some(-(1_000_000 * n as int)),
{
    let s = text::dec(n);
    text::decimals_are_digits(n);
    text::decimals_read_back(n);
    lemma_all_digits_skipped(s, 0);
    lemma_leading_is_value(s, s.len() as int);
    assert(s.take(s.len() as int) =~= s);
    let m = s.len() as int;
    reveal_with_fuel(leading, 7);
    assert(leading(s, m + 6) == 1_000_000 * n);
    assert(text::is_digit(s[0]));
    reveal_strlit("inf");
    reveal_strlit("infinity");
    reveal_strlit("nan");
    assert(text::lower(s)[0] == s[0]);
    assert(!endless(s) && !numberless(s));
    reveal_strlit("-");
    let t = "-"@ + s;
    assert(t.skip(1) =~= s);
}

} // verus!
