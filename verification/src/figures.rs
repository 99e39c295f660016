//! Numbers as they are written out: with a fixed count of decimals, or as whole
//! numbers in groups of three digits.
use vstd::prelude::*;

use crate::float;
use crate::float::Side;
use crate::text;

verus! {

/// The integer nearest to a quotient that is not negative; the larger one from
/// the middle.
pub open spec fn nearest(a: int, b: int) -> int {
    (2 * a + b) / (2 * b)
}

pub open spec fn magnitude(v: int) -> int {
    if v < 0 {
        -v
    } else {
        v
    }
}

/// How many `scale`-th parts of one are nearest to `v / unit`. In the middle between
/// two, the double-precision value that stands for the number decides: those on its
/// side, or, where it is the number itself, the even ones.
pub open spec fn parts(v: int, unit: int, scale: int) -> int {
    let q = v * scale / unit;
    let r = v * scale % unit;
    if 2 * r == unit {
        let error = float::double_error(2 * q + 1, 2 * scale);
        if error > 0 || (error == 0 && q % 2 == 1) {
            q + 1
        } else {
            q
        }
    } else if 2 * r > unit {
        q + 1
    } else {
        q
    }
}

/// The number `v / unit` with `places` decimals, of which there are `scale` to
/// one. The sign stands even where only zeros follow.
pub open spec fn fixed(v: int, unit: int, scale: int, places: int) -> Seq<char> {
    let m = parts(magnitude(v), unit, scale);
    (if v < 0 {
        "-"@
    } else {
        ""@
    }) + text::dec((m / scale) as nat) + "."@ + text::zero_pad(
        text::dec((m % scale) as nat),
        places,
    )
}

/// The largest magnitude that is written out.
pub const LIMIT: u128 = 0x1_0000_0000_0000_0000_0000_0000;

fn count_parts(v: u128, unit: u128, scale: u128) -> (r: u128)
    requires
        v <= LIMIT,
        0 < unit <= LIMIT,
        0 < scale <= 1_000,
    ensures
        r == parts(v as int, unit as int, scale as int),
{
    proof {
        assert(0 <= v * scale <= LIMIT * 1_000) by (nonlinear_arith)
            requires
                0 <= v <= LIMIT,
                0 <= scale <= 1_000,
        ;
        vstd::arithmetic::div_mod::lemma_div_is_ordered_by_denominator(
            v * scale,
            1,
            unit as int,
        );
    }
    let all: u128 = v * scale;
    let q: u128 = all / unit;
    let r: u128 = all % unit;
    if 2 * r == unit {
        match float::side_of_double(2 * q + 1, 2 * scale) {
            Side::Above => q + 1,
            Side::Below => q,
            Side::Exact => if q % 2 == 1 {
                q + 1
            } else {
                q
            },
        }
    } else if 2 * r > unit {
        q + 1
    } else {
        q
    }
}

pub fn fixed_string(v: i128, unit: u128, scale: u128, places: usize) -> (out: String)
    requires
        -LIMIT <= v <= LIMIT,
        0 < unit <= LIMIT,
        0 < scale <= 1_000,
    ensures
        out@ == fixed(v as int, unit as int, scale as int, places as int),
{
    proof {
        reveal_strlit("");
    }
    let size: u128 = if v < 0 {
        (-v) as u128
    } else {
        v as u128
    };
    let m: u128 = count_parts(size, unit, scale);
    let mut out = String::new();
    if v < 0 {
        out.append("-");
    }
    out.append(text::long_dec_string(m / scale).as_str());
    out.append(".");
    out.append(text::zero_padded(text::long_dec_string(m % scale).as_str(), places).as_str());
    out
}

/// Digits with a comma before every three of them that end the text or stand
/// before another comma.
pub open spec fn grouped(s: Seq<char>) -> Seq<char>
    decreases s.len(),
{
    if s.len() <= 3 {
        s
    } else {
        grouped(s.take(s.len() - 3)) + ","@ + s.skip(s.len() - 3)
    }
}

fn grouped_head(s: &Vec<char>, n: usize) -> (out: String)
    requires
        n <= s@.len(),
    ensures
        out@ == grouped(s@.take(n as int)),
    decreases n,
{
    if n <= 3 {
        let head = text::part(s, 0, n);
        assert(s@.subrange(0, n as int) =~= s@.take(n as int));
        text::string_of(&head)
    } else {
        let mut out = grouped_head(s, n - 3);
        let tail = text::part(s, n - 3, n);
        assert(s@.take(n as int).take(n - 3) =~= s@.take(n - 3));
        assert(s@.take(n as int).skip(n - 3) =~= s@.subrange(n - 3, n as int));
        out.append(",");
        out.append(text::string_of(&tail).as_str());
        out
    }
}

/// The whole number nearest to `v / unit` without its sign, held within 63 bits.
pub open spec fn whole_units(v: int, unit: int) -> int {
    let m = nearest(magnitude(v), unit);
    if m > i64::MAX {
        i64::MAX as int
    } else {
        m
    }
}

/// The number `v / unit` as a whole number in groups of digits.
pub open spec fn whole_number(v: int, unit: int) -> Seq<char> {
    let m = whole_units(v, unit);
    if v < 0 && m > 0 {
        "-"@ + grouped(text::dec(m as nat))
    } else {
        grouped(text::dec(m as nat))
    }
}

/// Thousandths as a whole number in groups of digits.
pub open spec fn number(v: int) -> Seq<char> {
    whole_number(v, 1_000)
}

pub fn format_number(v: i128) -> (out: String)
    requires
        -LIMIT <= v <= LIMIT,
    ensures
        out@ == number(v as int),
{
    whole_number_string(v, 1_000)
}

pub fn whole_number_string(v: i128, unit: u128) -> (out: String)
    requires
        -LIMIT <= v <= LIMIT,
        0 < unit <= LIMIT,
    ensures
        out@ == whole_number(v as int, unit as int),
{
    let size: u128 = if v < 0 {
        (-v) as u128
    } else {
        v as u128
    };
    proof {
        vstd::arithmetic::div_mod::lemma_div_pos_is_pos(2 * size + unit, 2 * (unit as int));
    }
    let exact: u128 = (2 * size + unit) / (2 * unit);
    let m: u128 = if exact > 0x7fff_ffff_ffff_ffff {
        0x7fff_ffff_ffff_ffff
    } else {
        exact
    };
    let digits = text::chars_of(text::long_dec_string(m).as_str());
    let whole = grouped_head(&digits, digits.len());
    assert(digits@.take(digits@.len() as int) =~= digits@);
    if v < 0 && m > 0 {
        text::concat2("-", whole.as_str())
    } else {
        whole
    }
}

/// How many characters are no comma, and which.
pub open spec fn without_commas(s: Seq<char>) -> Seq<char> {
    s.filter(|c: char| c != ',')
}

/// Grouping adds commas and changes nothing else.
pub proof fn grouping_only_adds_commas(s: Seq<char>)
    requires
        text::all_digits(s),
    ensures
        without_commas(grouped(s)) == s,
    decreases s.len(),
{
    let p = |c: char| c != ',';
    if s.len() <= 3 {
        lemma_filter_keeps_all(s);
    } else {
        let head = s.take(s.len() - 3);
        let tail = s.skip(s.len() - 3);
        reveal_strlit(",");
        assert forall|i: int| 0 <= i < head.len() implies text::is_digit(#[trigger] head[i]) by {
            assert(head[i] == s[i]);
        }
        assert forall|i: int| 0 <= i < tail.len() implies text::is_digit(#[trigger] tail[i]) by {
            assert(tail[i] == s[s.len() - 3 + i]);
        }
        grouping_only_adds_commas(head);
        lemma_filter_keeps_all(tail);
        Seq::filter_distributes_over_add(grouped(head) + ","@, tail, p);
        Seq::filter_distributes_over_add(grouped(head), ","@, p);
        assert(","@.filter(p) =~= Seq::<char>::empty()) by {
            reveal_with_fuel(Seq::filter, 2);
            assert(","@.drop_last() =~= Seq::<char>::empty());
        }
        assert(head + tail =~= s);
        assert(without_commas(grouped(s)) =~= head + Seq::<char>::empty() + tail);
    }
}

proof fn lemma_filter_keeps_all(s: Seq<char>)
    requires
        text::all_digits(s),
    ensures
        without_commas(s) == s,
    decreases s.len(),
{
    reveal(Seq::filter);
    if s.len() > 0 {
        let head = s.drop_last();
        assert forall|i: int| 0 <= i < head.len() implies text::is_digit(#[trigger] head[i]) by {
            assert(head[i] == s[i]);
        }
        lemma_filter_keeps_all(head);
        assert(text::is_digit(s[s.len() - 1]));
        assert(s =~= head.push(s.last()));
    }
}

/// What is shown of a quotient is the nearest number of parts to it.
pub proof fn parts_are_the_nearest(v: int, unit: int, scale: int)
    requires
        0 <= v,
        0 < unit,
        0 < scale,
    ensures
        2 * (parts(v, unit, scale) * unit - v * scale) <= unit,
        2 * (v * scale - parts(v, unit, scale) * unit) <= unit,
{
    let q = v * scale / unit;
    let r = v * scale % unit;
    vstd::arithmetic::div_mod::lemma_fundamental_div_mod(v * scale, unit);
    assert(unit * q == q * unit) by (nonlinear_arith);
    assert((q + 1) * unit == q * unit + unit) by (nonlinear_arith);
}

/// Whole units are the nearest to what is shown, and where two are equally near, the
/// larger.
pub proof fn whole_units_are_the_nearest(v: int, unit: int)
    requires
        0 < unit,
        v < 0 ==> -v <= i64::MAX,
        v <= i64::MAX,
    ensures
        ({
            let size = if v < 0 {
                -v
            } else {
                v
            };
            let m = whole_units(v, unit);
            m <= i64::MAX && 2 * (size - m * unit) < unit && 2 * (m * unit - size) <= unit
        }),
{
    let size = magnitude(v);
    let n = nearest(size, unit);
    vstd::arithmetic::div_mod::lemma_fundamental_div_mod(2 * size + unit, 2 * unit);
    assert((2 * unit) * n == 2 * (n * unit)) by (nonlinear_arith);
    assert(n <= i64::MAX) by (nonlinear_arith)
        requires
            2 * (n * unit) <= 2 * size + unit,
            size <= i64::MAX,
            0 < unit,
    ;
}

/// From the right, every fourth sign of a grouped number is a comma, and no other.
pub proof fn commas_stand_at_every_fourth_place(s: Seq<char>, j: int)
    requires
        text::all_digits(s),
        0 <= j < grouped(s).len(),
    ensures
        grouped(s)[j] == ',' <==> (grouped(s).len() - j) % 4 == 0,
    decreases s.len(),
{
    reveal_strlit(",");
    if s.len() > 3 {
        let head = s.take(s.len() - 3);
        let tail = s.skip(s.len() - 3);
        let g = grouped(head);
        if j < g.len() {
            commas_stand_at_every_fourth_place(head, j);
        } else if j > g.len() {
            assert(grouped(s)[j] == s[s.len() - 3 + (j - g.len() - 1)]);
        }
    }
}

proof fn lemma_zeros_count_nothing(s: Seq<char>, n: nat)
    ensures
        text::digits_value(Seq::new(n, |i: int| '0') + s) == text::digits_value(s),
    decreases s.len(), n,
{
    let zeros = Seq::new(n, |i: int| '0');
    if s.len() > 0 {
        assert((zeros + s).drop_last() =~= zeros + s.drop_last());
        lemma_zeros_count_nothing(s.drop_last(), n);
    } else if n > 0 {
        let fewer = Seq::new((n - 1) as nat, |i: int| '0');
        assert((zeros + s).drop_last() =~= fewer + s);
        lemma_zeros_count_nothing(s, (n - 1) as nat);
    } else {
        assert(zeros + s =~= s);
    }
}

proof fn lemma_few_digits(n: nat, places: int)
    requires
        places == 1 && n < 10 || places == 3 && n < 1_000,
    ensures
        text::dec(n).len() <= places,
{
    reveal_with_fuel(text::dec, 4);
}

/// A number with one or three decimals has a minus where it is below zero, then its whole
/// part, a point, and as many digits; without the point they count the nearest number of
/// parts.
pub proof fn fixed_numbers_have_their_decimals(v: int, unit: int, scale: int, places: int)
    requires
        0 < unit,
        scale == 10 && places == 1 || scale == 1_000 && places == 3,
    ensures
        ({
            let m = parts(magnitude(v), unit, scale);
            exists|whole: Seq<char>, decimals: Seq<char>|
                fixed(v, unit, scale, places) == (if v < 0 {
                    "-"@
                } else {
                    ""@
                }) + whole + "."@ + decimals && decimals.len() == places && scale
                    * #[trigger] text::digits_value(whole) + #[trigger] text::digits_value(decimals)
                    == m
        }),
{
    let m = parts(magnitude(v), unit, scale);
    parts_are_the_nearest(magnitude(v), unit, scale);
    vstd::arithmetic::div_mod::lemma_fundamental_div_mod(magnitude(v) * scale, unit);
    assert(m >= 0) by {
        assert(magnitude(v) * scale >= 0) by (nonlinear_arith)
            requires
                magnitude(v) >= 0,
                scale > 0,
        ;
        vstd::arithmetic::div_mod::lemma_div_pos_is_pos(magnitude(v) * scale, unit);
    }
    let whole = text::dec((m / scale) as nat);
    let rest = text::dec((m % scale) as nat);
    let decimals = text::zero_pad(rest, places);
    lemma_few_digits((m % scale) as nat, places);
    text::decimals_read_back((m / scale) as nat);
    text::decimals_read_back((m % scale) as nat);
    if rest.len() < places {
        lemma_zeros_count_nothing(rest, (places - rest.len()) as nat);
    }
    assert(scale * text::digits_value(whole) + text::digits_value(decimals) == m);
}

} // verus!
