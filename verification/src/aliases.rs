//! The aliases under which a game object is looked up: its identifier, and what
//! remains of it or is made of it by the game's naming habits.
use vstd::prelude::*;

use crate::identifier;
use crate::text;
use crate::text::Class;

verus! {

/// A cleaned identifier in lower case.
pub open spec fn normalize(value: Seq<char>) -> Seq<char> {
    text::lower(identifier::clean(value))
}

pub fn normalize_key(value: &Vec<char>) -> (out: Vec<char>)
    ensures
        out@ == normalize(value@),
{
    text::to_lower(&identifier::clean_identifier(value))
}

/// The alias list with the normalized value, unless that is empty.
pub open spec fn with_alias(list: Seq<Seq<char>>, value: Seq<char>) -> Seq<Seq<char>> {
    if normalize(value).len() == 0 {
        list
    } else {
        list.push(normalize(value))
    }
}

pub open spec fn with_opt_alias(list: Seq<Seq<char>>, value: Option<Seq<char>>) -> Seq<Seq<char>> {
    match value {
        Some(v) => with_alias(list, v),
        None => list,
    }
}

/// The identifier without the suffix of a class, or of an instance of a class.
pub open spec fn strip_class(value: Seq<char>) -> Option<Seq<char>> {
    match text::strip_suffix(value, "_C"@) {
        Some(s) => Some(s),
        None => match identifier::rsplit_once(value, "_C_"@) {
            Some((head, tail)) => if tail.len() >= 3 && text::all_digits(tail) {
                Some(head)
            } else {
                None
            },
            None => None,
        },
    }
}

/// The identifier without a long number at its end.
pub open spec fn strip_instance(value: Seq<char>) -> Option<Seq<char>> {
    match identifier::rsplit_once(value, "_"@) {
        Some((head, tail)) => if tail.len() >= 6 && text::all_digits(tail) {
            Some(head)
        } else {
            None
        },
        None => None,
    }
}

/// `prefix_number_BP`, the number with at least `width` digits.
pub open spec fn blueprint(prefix: Seq<char>, number: int, width: int) -> Seq<char> {
    prefix + "_"@ + text::zero_pad(text::dec(number as nat), width) + "_BP"@
}

/// `BP_Boss_x` is the blueprint of `boss_x`, and so with `BP_Mon_x`.
pub open spec fn remap_bp(value: Seq<char>) -> Option<Seq<char>> {
    let lower = text::lower(value);
    if text::starts_with(lower, "bp_boss_"@) {
        Some("boss_"@ + value.skip(8) + "_BP"@)
    } else if text::starts_with(lower, "bp_mon_"@) {
        Some("mon_"@ + value.skip(7) + "_BP"@)
    } else {
        None
    }
}

/// The digits of a text.
pub open spec fn digits_in(s: Seq<char>) -> Seq<char>
    decreases s.len(),
{
    if s.len() == 0 {
        s
    } else if text::is_digit(s.last()) {
        digits_in(s.drop_last()).push(s.last())
    } else {
        digits_in(s.drop_last())
    }
}

/// A world boss is the boss with its number.
pub open spec fn remap_world_boss(value: Seq<char>) -> Option<Seq<char>> {
    let lower = text::lower(value);
    let number = text::parse_uint(digits_in(value), u32::MAX as int);
    if text::starts_with(lower, "worldboss_"@) && number is Some {
        Some(blueprint("boss"@, number.unwrap(), 2))
    } else if text::starts_with(lower, "boss_"@) && text::ends_with(lower, "_worldboss"@) {
        Some(value.take(value.len() - 10))
    } else {
        None
    }
}

/// A weekly boss is the boss with its number.
pub open spec fn remap_weekly_boss(value: Seq<char>) -> Option<Seq<char>> {
    let lower = text::lower(value);
    if text::starts_with(lower, "weeklyclone_boss"@) {
        let end = text::skip_class(lower, Class::Digit, 16);
        match text::parse_uint(lower.subrange(16, end), u32::MAX as int) {
            Some(n) => Some(blueprint("boss"@, n, 2)),
            None => None,
        }
    } else {
        None
    }
}

/// The word, the number and the rest of `mon_12rest` or `boss_12rest`.
pub open spec fn split_number(value: Seq<char>) -> Option<(Seq<char>, int, Seq<char>)> {
    let lower = text::lower(value);
    if text::starts_with(lower, "mon_"@) {
        split_number_after(value, "mon"@, 4)
    } else if text::starts_with(lower, "boss_"@) {
        split_number_after(value, "boss"@, 5)
    } else {
        None
    }
}

pub open spec fn split_number_after(value: Seq<char>, prefix: Seq<char>, start: int) -> Option<
    (Seq<char>, int, Seq<char>),
> {
    let end = text::skip_class(value, Class::Digit, start);
    if end <= start {
        None
    } else {
        match text::parse_uint(value.subrange(start, end), u32::MAX as int) {
            Some(n) => Some((prefix, n, value.skip(end))),
            None => None,
        }
    }
}

/// The blueprints with the number, written with one, two and three digits at least.
pub open spec fn blueprints(prefix: Seq<char>, number: int) -> Seq<Seq<char>> {
    seq![
        blueprint(prefix, number, 1),
        blueprint(prefix, number, 2),
        blueprint(prefix, number, 3),
    ]
}

/// A monster with a bare number is that of the blueprint.
pub open spec fn remap_bare(value: Seq<char>) -> Seq<Seq<char>> {
    match split_number(value) {
        Some((prefix, number, suffix)) => if suffix.len() == 0 {
            blueprints(prefix, number)
        } else {
            Seq::empty()
        },
        None => Seq::empty(),
    }
}

/// The rest names a phase of a blueprint: `_2_BP`.
pub open spec fn is_phase(suffix: Seq<char>) -> bool {
    let end = text::skip_class(suffix, Class::Digit, 1);
    &&& suffix.len() > 0
    &&& suffix[0] == '_'
    &&& end > 1
    &&& text::starts_with(text::lower(suffix.skip(end)), "_bp"@)
}

/// A phase of a monster is the monster's blueprint.
pub open spec fn remap_phase(value: Seq<char>) -> Seq<Seq<char>> {
    match split_number(value) {
        Some((prefix, number, suffix)) => if is_phase(suffix) {
            blueprints(prefix, number)
        } else {
            Seq::empty()
        },
        None => Seq::empty(),
    }
}

/// The identifier up to the first occurrence of the word, and `keep` characters of
/// it.
pub open spec fn cut_at(value: Seq<char>, word: Seq<char>, keep: int) -> Seq<Seq<char>> {
    match text::find(text::lower(value), word) {
        Some(at) => seq![value.take(at + keep)],
        None => Seq::empty(),
    }
}

/// The identifier without what marks a variant of a monster.
pub open spec fn strip_variants(value: Seq<char>) -> Seq<Seq<char>> {
    cut_at(value, "_bp_"@, 3) + cut_at(value, "_trial"@, 0) + cut_at(value, "_world"@, 0) + cut_at(
        value,
        "_gameplay"@,
        0,
    ) + cut_at(value, "_quest"@, 0) + cut_at(value, "_clone"@, 0) + cut_at(value, "_abyss"@, 0)
        + cut_at(value, "_diyboss"@, 0) + cut_at(value, "_vision"@, 0) + cut_at(
        value,
        "_takeorder"@,
        0,
    ) + cut_at(value, "_weekly"@, 0)
}

/// The identifier with its number written with one, two and three digits at least.
pub open spec fn number_variants(value: Seq<char>) -> Seq<Seq<char>> {
    match split_number(value) {
        Some((prefix, number, suffix)) => seq![
            prefix + "_"@ + text::zero_pad(text::dec(number as nat), 1) + suffix,
            prefix + "_"@ + text::zero_pad(text::dec(number as nat), 2) + suffix,
            prefix + "_"@ + text::zero_pad(text::dec(number as nat), 3) + suffix,
        ],
        None => Seq::empty(),
    }
}

pub open spec fn opt_seq(value: Option<Seq<char>>) -> Seq<Seq<char>> {
    match value {
        Some(v) => seq![v],
        None => Seq::empty(),
    }
}

/// The identifiers that a cleaned identifier leads to.
pub open spec fn derived(c: Seq<char>) -> Seq<Seq<char>> {
    opt_seq(text::strip_prefix(c, "Default__"@)) + opt_seq(remap_bp(c)) + opt_seq(
        remap_world_boss(c),
    ) + opt_seq(remap_weekly_boss(c)) + strip_variants(c) + remap_phase(c) + remap_bare(c)
}

/// The aliases that a cleaned identifier has by itself.
pub open spec fn own_aliases(c: Seq<char>) -> Seq<Seq<char>> {
    let a = with_opt_alias(with_alias(Seq::empty(), c), strip_class(c));
    match strip_instance(c) {
        Some(s) => with_opt_alias(with_alias(a, s), strip_class(s)),
        None => a,
    }
}

pub open spec fn with_all(list: Seq<Seq<char>>, values: Seq<Seq<char>>, n: int) -> Seq<Seq<char>>
    decreases n,
{
    if n <= 0 {
        list
    } else {
        with_alias(with_all(list, values, n - 1), values[n - 1])
    }
}

/// What makes an identifier lead to others of its length or longer: it is a bare
/// number, a phase, or has the prefix of a blueprint.
pub open spec fn bonus(c: Seq<char>) -> int {
    if remap_bare(c).len() > 0 {
        22
    } else if remap_bp(c) is Some {
        2
    } else if remap_phase(c).len() > 0 {
        1
    } else {
        0
    }
}

/// What falls from an identifier to those that it leads to.
pub open spec fn measure(value: Seq<char>) -> int {
    let c = identifier::clean(value);
    if c.len() == 0 {
        0
    } else {
        4 * c.len() + bonus(c)
    }
}

/// The aliases of an identifier, in the order in which they are found.
pub open spec fn aliases_of(value: Seq<char>) -> Seq<Seq<char>>
    decreases measure(value), derived(identifier::clean(value)).len() + 1,
{
    let c = identifier::clean(value);
    if c.len() == 0 {
        Seq::empty()
    } else {
        let next = derived(c);
        with_all(
            own_aliases(c) + aliases_of_all(next, next.len() as int, measure(value)),
            number_variants(c),
            number_variants(c).len() as int,
        )
    }
}

/// The aliases of the first `n` identifiers, all of which measure less than
/// `bound`.
pub open spec fn aliases_of_all(list: Seq<Seq<char>>, n: int, bound: int) -> Seq<Seq<char>>
    decreases bound, n,
{
    if n <= 0 {
        Seq::empty()
    } else if measure(list[n - 1]) < bound && measure(list[n - 1]) >= 0 {
        aliases_of_all(list, n - 1, bound) + aliases_of(list[n - 1])
    } else {
        aliases_of_all(list, n - 1, bound)
    }
}

// ------------------------------------------------------------------ termination

proof fn lemma_prefix_chars(value: Seq<char>, prefix: Seq<char>, k: int)
    requires
        text::starts_with(text::lower(value), prefix),
        0 <= k < prefix.len(),
    ensures
        prefix.len() <= value.len(),
        text::lower_char(value[k]) == prefix[k],
{
    assert(text::lower(value).take(prefix.len() as int)[k] == text::lower(value)[k]);
}

proof fn lemma_not_digit(c: char, l: char)
    requires
        text::lower_char(c) == l,
        'a' <= l && l <= 'z' || l == '_',
    ensures
        !text::is_digit(c),
        identifier::ordinary(c),
{
}

proof fn lemma_dec_len(d: Seq<char>)
    requires
        d.len() > 0,
        text::all_digits(d),
    ensures
        1 <= text::dec(text::digits_value(d) as nat).len() <= d.len(),
        text::digits_value(d) >= 0,
    decreases d.len(),
{
    text::lemma_digits_value_nonnegative(d);
    let v = text::digits_value(d);
    assert(text::is_digit(d[d.len() - 1]));
    if d.len() > 1 {
        assert forall|k: int| 0 <= k < d.drop_last().len() implies text::is_digit(
            #[trigger] d.drop_last()[k],
        ) by {
            assert(text::is_digit(d[k]));
        }
        lemma_dec_len(d.drop_last());
        if v >= 10 {
            assert(v / 10 == text::digits_value(d.drop_last()));
        }
    } else {
        assert(text::digits_value(d.drop_last()) == 0);
        assert(v < 10);
    }
}

proof fn lemma_parse_len(s: Seq<char>)
    requires
        text::parse_uint(s, u32::MAX as int) is Some,
    ensures
        1 <= text::dec(text::parse_uint(s, u32::MAX as int).unwrap() as nat).len() <= s.len(),
        text::parse_uint(s, u32::MAX as int).unwrap() >= 0,
{
    let d = if s.len() > 0 && s[0] == '+' {
        s.skip(1)
    } else {
        s
    };
    lemma_dec_len(d);
}

proof fn lemma_digits_in_len(s: Seq<char>, k: int)
    requires
        0 <= k <= s.len(),
        forall|i: int| 0 <= i < k ==> !text::is_digit(#[trigger] s[i]),
    ensures
        digits_in(s).len() <= s.len() - k,
        text::all_digits(digits_in(s)),
    decreases s.len(),
{
    if s.len() > 0 {
        let t = s.drop_last();
        if k == s.len() {
            assert(!text::is_digit(s[s.len() - 1]));
            assert forall|i: int| 0 <= i < k - 1 implies !text::is_digit(#[trigger] t[i]) by {
                assert(!text::is_digit(s[i]));
            }
            lemma_digits_in_len(t, k - 1);
        } else {
            assert forall|i: int| 0 <= i < k implies !text::is_digit(#[trigger] t[i]) by {
                assert(!text::is_digit(s[i]));
            }
            lemma_digits_in_len(t, k);
        }
        assert forall|i: int| 0 <= i < digits_in(s).len() implies text::is_digit(
            #[trigger] digits_in(s)[i],
        ) by {
            if i < digits_in(t).len() {
                assert(text::is_digit(digits_in(t)[i]));
            }
        }
    }
}

proof fn lemma_skip_class_digits(s: Seq<char>, i: int)
    requires
        0 <= i <= s.len(),
    ensures
        i <= text::skip_class(s, Class::Digit, i) <= s.len(),
        forall|k: int|
            i <= k < text::skip_class(s, Class::Digit, i) ==> text::is_digit(#[trigger] s[k]),
    decreases s.len() - i,
{
    if i < s.len() && text::is_digit(s[i]) {
        lemma_skip_class_digits(s, i + 1);
    }
}

/// What a split tells about the identifier.
proof fn lemma_split(c: Seq<char>)
    requires
        split_number(c) is Some,
    ensures
        ({
            let (prefix, number, suffix) = split_number(c).unwrap();
            let p = if prefix == "mon"@ {
                4int
            } else {
                5int
            };
            let digits = c.len() - suffix.len() - p;
            &&& prefix == "mon"@ || prefix == "boss"@
            &&& prefix.len() + 1 == p
            &&& number >= 0
            &&& digits >= 1
            &&& 1 <= text::dec(number as nat).len() <= digits
            &&& suffix == c.skip(p + digits)
            &&& suffix.len() == 0 ==> text::is_digit(c.last())
        }),
        !(remap_bp(c) is Some),
        c.len() > 0,
{
    reveal_strlit("mon_");
    reveal_strlit("boss_");
    reveal_strlit("mon");
    reveal_strlit("boss");
    reveal_strlit("bp_boss_");
    reveal_strlit("bp_mon_");
    let lower = text::lower(c);
    let start = if text::starts_with(lower, "mon_"@) {
        4int
    } else {
        5int
    };
    assert("mon"@.len() != "boss"@.len());
    if text::starts_with(lower, "mon_"@) {
        lemma_prefix_chars(c, "mon_"@, 1);
    } else {
        lemma_prefix_chars(c, "boss_"@, 1);
    }
    assert(text::lower_char(c[1]) == 'o');
    if text::starts_with(lower, "bp_boss_"@) {
        lemma_prefix_chars(c, "bp_boss_"@, 1);
    }
    if text::starts_with(lower, "bp_mon_"@) {
        lemma_prefix_chars(c, "bp_mon_"@, 1);
    }
    lemma_skip_class_digits(c, start);
    let end = text::skip_class(c, Class::Digit, start);
    let d = c.subrange(start, end);
    lemma_parse_len(d);
    if c.skip(end).len() == 0 {
        assert(text::is_digit(c[end - 1]));
    }
}

/// The blueprint with a number is cleaned already, is not a bare number, has no
/// blueprint prefix and is no phase.
proof fn lemma_blueprint(prefix: Seq<char>, number: int, width: int)
    requires
        prefix == "mon"@ || prefix == "boss"@,
        number >= 0,
        1 <= width <= 3,
    ensures
        ({
            let b = blueprint(prefix, number, width);
            let n = text::dec(number as nat).len();
            &&& identifier::clean(b) == b
            &&& b.len() == prefix.len() + 4 + if n < width {
                width as int
            } else {
                n as int
            }
            &&& remap_bare(b).len() == 0
            &&& remap_bp(b) is None
            &&& remap_phase(b).len() == 0
            &&& measure(b) == 4 * b.len()
        }),
{
    reveal_strlit("mon_");
    reveal_strlit("boss_");
    reveal_strlit("mon");
    reveal_strlit("boss");
    reveal_strlit("_");
    reveal_strlit("_BP");
    reveal_strlit("bp_boss_");
    reveal_strlit("bp_mon_");
    let b = blueprint(prefix, number, width);
    let digits = text::zero_pad(text::dec(number as nat), width);
    lemma_dec_digits(number as nat);
    let p = prefix.len() + 1;
    let end = (p + digits.len()) as int;
    identifier::cleaning_shortens_or_keeps(b);
    assert(b[0] == prefix[0]);
    assert(b[1] == 'o');
    assert(b.last() == 'P');
    if text::starts_with(text::lower(b), "bp_boss_"@) {
        lemma_prefix_chars(b, "bp_boss_"@, 1);
    }
    if text::starts_with(text::lower(b), "bp_mon_"@) {
        lemma_prefix_chars(b, "bp_mon_"@, 1);
    }
    assert forall|k: int| p <= k < end implies text::is_digit(#[trigger] b[k]) by {
        assert(b[k] == digits[k - p]);
    }
    assert(b[end] == '_');
    assert(b[end + 1] == 'B');
    lemma_run(b, p as int, end);
    if split_number(b) is Some {
        lemma_split(b);
        let (q, n, suffix) = split_number(b).unwrap();
        if text::starts_with(text::lower(b), "mon_"@) {
            lemma_prefix_chars(b, "mon_"@, 0);
            assert(prefix == "mon"@);
        } else {
            lemma_prefix_chars(b, "boss_"@, 0);
            assert(prefix == "boss"@);
        }
        assert(suffix == b.skip(end));
        assert(suffix[0] == '_' && suffix[1] == 'B');
        assert(text::skip_class(suffix, Class::Digit, 1) == 1);
    }
}

proof fn lemma_run(s: Seq<char>, from: int, to: int)
    requires
        0 <= from <= to < s.len(),
        forall|k: int| from <= k < to ==> text::is_digit(#[trigger] s[k]),
        !text::is_digit(s[to]),
    ensures
        text::skip_class(s, Class::Digit, from) == to,
    decreases to - from,
{
    if from < to {
        assert(text::is_digit(s[from]));
        lemma_run(s, from + 1, to);
    }
}

/// Decimal numbers are made of digits.
pub proof fn lemma_dec_digits(n: nat)
    ensures
        text::all_digits(text::dec(n)),
        text::dec(n).len() >= 1,
    decreases n,
{
    if n >= 10 {
        lemma_dec_digits(n / 10);
        assert forall|i: int| 0 <= i < text::dec(n).len() implies text::is_digit(
            #[trigger] text::dec(n)[i],
        ) by {
            if i < text::dec(n / 10).len() {
                assert(text::is_digit(text::dec(n / 10)[i]));
            }
        }
    }
}

proof fn lemma_measure_at_most(value: Seq<char>)
    ensures
        0 <= measure(value) <= 4 * value.len() + 22,
        value.len() > 0 && identifier::ordinary(value.last()) && !text::is_digit(value.last())
            ==> measure(value) <= 4 * value.len() + 2,
{
    identifier::cleaning_shortens_or_keeps(value);
    let c = identifier::clean(value);
    if c.len() > 0 && remap_bare(c).len() > 0 {
        lemma_split(c);
    }
}

proof fn lemma_bp_falls(c: Seq<char>)
    requires
        c.len() > 0,
        remap_bp(c) is Some,
    ensures
        measure(remap_bp(c).unwrap()) < 4 * c.len() + bonus(c),
{
    reveal_strlit("bp_boss_");
    reveal_strlit("bp_mon_");
    reveal_strlit("boss_");
    reveal_strlit("mon_");
    reveal_strlit("_BP");
    let n = remap_bp(c).unwrap();
    if split_number(c) is Some {
        lemma_split(c);
    }
    identifier::cleaning_shortens_or_keeps(n);
    assert(n.last() == 'P');
    assert(n[1] == 'o');
    assert(n.len() == c.len());
    assert(identifier::clean(n) == n);
    if remap_bare(n).len() > 0 {
        lemma_split(n);
    }
    if text::starts_with(text::lower(n), "bp_boss_"@) {
        lemma_prefix_chars(n, "bp_boss_"@, 1);
    }
    if text::starts_with(text::lower(n), "bp_mon_"@) {
        lemma_prefix_chars(n, "bp_mon_"@, 1);
    }
}

proof fn lemma_world_falls(c: Seq<char>)
    requires
        c.len() > 0,
        remap_world_boss(c) is Some,
    ensures
        measure(remap_world_boss(c).unwrap()) < 4 * c.len(),
{
    reveal_strlit("worldboss_");
    reveal_strlit("_worldboss");
    reveal_strlit("boss");
    let lower = text::lower(c);
    let number = text::parse_uint(digits_in(c), u32::MAX as int);
    if text::starts_with(lower, "worldboss_"@) && number is Some {
        assert forall|i: int| 0 <= i < 10 implies !text::is_digit(#[trigger] c[i]) by {
            lemma_prefix_chars(c, "worldboss_"@, i);
            lemma_not_digit(c[i], "worldboss_"@[i]);
        }
        lemma_prefix_chars(c, "worldboss_"@, 0);
        lemma_digits_in_len(c, 10);
        lemma_parse_len(digits_in(c));
        lemma_blueprint("boss"@, number.unwrap(), 2);
    } else {
        lemma_measure_at_most(remap_world_boss(c).unwrap());
    }
}

proof fn lemma_weekly_falls(c: Seq<char>)
    requires
        c.len() > 0,
        remap_weekly_boss(c) is Some,
    ensures
        measure(remap_weekly_boss(c).unwrap()) < 4 * c.len(),
{
    reveal_strlit("weeklyclone_boss");
    reveal_strlit("boss");
    let lower = text::lower(c);
    lemma_prefix_chars(c, "weeklyclone_boss"@, 0);
    lemma_skip_class_digits(lower, 16);
    let end = text::skip_class(lower, Class::Digit, 16);
    lemma_parse_len(lower.subrange(16, end));
    lemma_blueprint(
        "boss"@,
        text::parse_uint(lower.subrange(16, end), u32::MAX as int).unwrap(),
        2,
    );
}

proof fn lemma_cut_falls(c: Seq<char>, word: Seq<char>)
    requires
        c.len() > 0,
        word.len() >= 6,
    ensures
        all_below(cut_at(c, word, 0), 4 * c.len() as int),
{
    text::lemma_find_from(text::lower(c), word, 0);
    match text::find(text::lower(c), word) {
        Some(at) => {
            lemma_measure_at_most(c.take(at));
        },
        None => {},
    }
}

proof fn lemma_bp_cut_falls(c: Seq<char>)
    requires
        c.len() > 0,
    ensures
        all_below(cut_at(c, "_bp_"@, 3), 4 * c.len() as int),
{
    reveal_strlit("_bp_");
    let lower = text::lower(c);
    text::lemma_find_from(lower, "_bp_"@, 0);
    match text::find(lower, "_bp_"@) {
        Some(at) => {
            let n = c.take(at + 3);
            assert(lower.subrange(at, at + 4)[2] == lower[at + 2]);
            assert(text::lower_char(c[at + 2]) == 'p');
            lemma_not_digit(c[at + 2], 'p');
            assert(n.last() == c[at + 2]);
            lemma_measure_at_most(n);
        },
        None => {},
    }
}

/// All of the identifiers measure less than the bound.
spec fn all_below(list: Seq<Seq<char>>, bound: int) -> bool {
    forall|i: int| 0 <= i < list.len() ==> measure(#[trigger] list[i]) < bound
}

proof fn lemma_below_both(a: Seq<Seq<char>>, b: Seq<Seq<char>>, bound: int)
    requires
        all_below(a, bound),
        all_below(b, bound),
    ensures
        all_below(a + b, bound),
{
    assert forall|i: int| 0 <= i < (a + b).len() implies measure(#[trigger] (a + b)[i]) < bound by {
        if i < a.len() {
            assert((a + b)[i] == a[i]);
        } else {
            assert((a + b)[i] == b[i - a.len()]);
        }
    }
}

proof fn lemma_variants_fall(c: Seq<char>)
    requires
        c.len() > 0,
    ensures
        all_below(strip_variants(c), 4 * c.len() as int),
{
    reveal_strlit("_trial");
    reveal_strlit("_world");
    reveal_strlit("_gameplay");
    reveal_strlit("_quest");
    reveal_strlit("_clone");
    reveal_strlit("_abyss");
    reveal_strlit("_diyboss");
    reveal_strlit("_vision");
    reveal_strlit("_takeorder");
    reveal_strlit("_weekly");
    let bound = 4 * c.len() as int;
    lemma_bp_cut_falls(c);
    let v0 = cut_at(c, "_bp_"@, 3);
    assert(all_below(v0, bound));
    let v1 = v0 + cut_at(c, "_trial"@, 0);
    lemma_cut_falls(c, "_trial"@);
    lemma_below_both(v0, cut_at(c, "_trial"@, 0), bound);
    let v2 = v1 + cut_at(c, "_world"@, 0);
    lemma_cut_falls(c, "_world"@);
    lemma_below_both(v1, cut_at(c, "_world"@, 0), bound);
    let v3 = v2 + cut_at(c, "_gameplay"@, 0);
    lemma_cut_falls(c, "_gameplay"@);
    lemma_below_both(v2, cut_at(c, "_gameplay"@, 0), bound);
    let v4 = v3 + cut_at(c, "_quest"@, 0);
    lemma_cut_falls(c, "_quest"@);
    lemma_below_both(v3, cut_at(c, "_quest"@, 0), bound);
    let v5 = v4 + cut_at(c, "_clone"@, 0);
    lemma_cut_falls(c, "_clone"@);
    lemma_below_both(v4, cut_at(c, "_clone"@, 0), bound);
    let v6 = v5 + cut_at(c, "_abyss"@, 0);
    lemma_cut_falls(c, "_abyss"@);
    lemma_below_both(v5, cut_at(c, "_abyss"@, 0), bound);
    let v7 = v6 + cut_at(c, "_diyboss"@, 0);
    lemma_cut_falls(c, "_diyboss"@);
    lemma_below_both(v6, cut_at(c, "_diyboss"@, 0), bound);
    let v8 = v7 + cut_at(c, "_vision"@, 0);
    lemma_cut_falls(c, "_vision"@);
    lemma_below_both(v7, cut_at(c, "_vision"@, 0), bound);
    let v9 = v8 + cut_at(c, "_takeorder"@, 0);
    lemma_cut_falls(c, "_takeorder"@);
    lemma_below_both(v8, cut_at(c, "_takeorder"@, 0), bound);
    let v10 = v9 + cut_at(c, "_weekly"@, 0);
    lemma_cut_falls(c, "_weekly"@);
    lemma_below_both(v9, cut_at(c, "_weekly"@, 0), bound);
    assert(strip_variants(c) == v10);
}

proof fn lemma_bare_falls(c: Seq<char>)
    requires
        c.len() > 0,
    ensures
        forall|i: int|
            0 <= i < remap_bare(c).len() ==> measure(#[trigger] remap_bare(c)[i]) < 4 * c.len()
                + bonus(c),
{
    if remap_bare(c).len() > 0 {
        lemma_split(c);
        let (prefix, number, suffix) = split_number(c).unwrap();
        lemma_blueprint(prefix, number, 1);
        lemma_blueprint(prefix, number, 2);
        lemma_blueprint(prefix, number, 3);
    }
}

proof fn lemma_phase_falls(c: Seq<char>)
    requires
        c.len() > 0,
    ensures
        forall|i: int|
            0 <= i < remap_phase(c).len() ==> measure(#[trigger] remap_phase(c)[i]) < 4 * c.len()
                + bonus(c),
{
    if remap_phase(c).len() > 0 {
        reveal_strlit("_bp");
        lemma_split(c);
        let (prefix, number, suffix) = split_number(c).unwrap();
        lemma_blueprint(prefix, number, 1);
        lemma_blueprint(prefix, number, 2);
        lemma_blueprint(prefix, number, 3);
        text::lemma_skip_class_bounds(suffix, Class::Digit, 1);
        assert(suffix.len() >= 5);
    }
}

/// Every identifier that an identifier leads to measures less than it, so looking
/// for aliases comes to an end.
pub proof fn derived_identifiers_measure_less(value: Seq<char>, i: int)
    requires
        identifier::clean(value).len() > 0,
        0 <= i < derived(identifier::clean(value)).len(),
    ensures
        0 <= measure(derived(identifier::clean(value))[i]) < measure(value),
{
    let c = identifier::clean(value);
    let n = derived(c)[i];
    lemma_measure_at_most(n);
    lemma_variants_fall(c);
    lemma_phase_falls(c);
    lemma_bare_falls(c);
    if remap_bp(c) is Some {
        lemma_bp_falls(c);
    }
    if remap_world_boss(c) is Some {
        lemma_world_falls(c);
    }
    if remap_weekly_boss(c) is Some {
        lemma_weekly_falls(c);
    }
    reveal_strlit("Default__");
    let a = opt_seq(text::strip_prefix(c, "Default__"@));
    let b = a + opt_seq(remap_bp(c));
    let d = b + opt_seq(remap_world_boss(c));
    let e = d + opt_seq(remap_weekly_boss(c));
    let f = e + strip_variants(c);
    let g = f + remap_phase(c);
    if i < a.len() {
        assert(n == c.skip(9));
    } else if i < b.len() {
        assert(n == remap_bp(c).unwrap());
    } else if i < d.len() {
        assert(n == remap_world_boss(c).unwrap());
    } else if i < e.len() {
        assert(n == remap_weekly_boss(c).unwrap());
    } else if i < f.len() {
        assert(n == strip_variants(c)[i - e.len()]);
    } else if i < g.len() {
        assert(n == remap_phase(c)[i - f.len()]);
    } else {
        assert(n == remap_bare(c)[i - g.len()]);
    }
}

// ------------------------------------------------------------- looking for aliases

/// A list of identifiers, owned.
pub fn push_alias(list: &mut Vec<Vec<char>>, value: &Vec<char>)
    ensures
        text::views(final(list)@) == with_alias(text::views(old(list)@), value@),
{
    let key = normalize_key(value);
    let ghost before = text::views(list@);
    if key.len() > 0 {
        list.push(key);
        assert(text::views(list@) =~= before.push(key@));
    }
}

fn class_stripped(value: &Vec<char>) -> (r: Option<Vec<char>>)
    ensures
        text::opt_chars(r) == strip_class(value@),
{
    match text::without_suffix(value, "_C") {
        Some(s) => Some(s),
        None => match identifier::split_last(value, "_C_") {
            Some((head, tail)) => if tail.len() >= 3 && identifier::only_digits(&tail) {
                Some(head)
            } else {
                None
            },
            None => None,
        },
    }
}

fn instance_stripped(value: &Vec<char>) -> (r: Option<Vec<char>>)
    ensures
        text::opt_chars(r) == strip_instance(value@),
{
    match identifier::split_last(value, "_") {
        Some((head, tail)) => if tail.len() >= 6 && identifier::only_digits(&tail) {
            Some(head)
        } else {
            None
        },
        None => None,
    }
}

/// `a`, `b` and `c` one behind the other.
fn joined(a: &str, b: &Vec<char>, c: &str) -> (out: Vec<char>)
    ensures
        out@ == a@ + b@ + c@,
{
    let mut out = text::chars_of(a);
    let mut i: usize = 0;
    while i < b.len()
        invariant
            i <= b.len(),
            out@ =~= a@ + b@.take(i as int),
        decreases b.len() - i,
    {
        out.push(b[i]);
        i += 1;
    }
    let mut tail = text::chars_of(c);
    out.append(&mut tail);
    assert(out@ =~= a@ + b@ + c@);
    out
}

fn padded_number(number: u64, width: usize) -> (out: Vec<char>)
    ensures
        out@ == text::zero_pad(text::dec(number as nat), width as int),
{
    text::chars_of(text::zero_padded(text::dec_string(number).as_str(), width).as_str())
}

fn blueprint_of(prefix: &str, number: u64, width: usize) -> (out: Vec<char>)
    ensures
        out@ == blueprint(prefix@, number as int, width as int),
{
    let start = text::concat2(prefix, "_");
    joined(start.as_str(), &padded_number(number, width), "_BP")
}

fn bp_remapped(value: &Vec<char>) -> (r: Option<Vec<char>>)
    ensures
        text::opt_chars(r) == remap_bp(value@),
{
    let lower = text::to_lower(value);
    proof {
        reveal_strlit("bp_boss_");
        reveal_strlit("bp_mon_");
    }
    if text::starts(&lower, "bp_boss_") {
        let rest = text::part(value, 8, value.len());
        assert(rest@ =~= value@.skip(8));
        Some(joined("boss_", &rest, "_BP"))
    } else if text::starts(&lower, "bp_mon_") {
        let rest = text::part(value, 7, value.len());
        assert(rest@ =~= value@.skip(7));
        Some(joined("mon_", &rest, "_BP"))
    } else {
        None
    }
}

fn digits_of(s: &Vec<char>) -> (out: Vec<char>)
    ensures
        out@ == digits_in(s@),
{
    let mut out: Vec<char> = Vec::new();
    let mut i: usize = 0;
    while i < s.len()
        invariant
            i <= s.len(),
            out@ == digits_in(s@.take(i as int)),
        decreases s.len() - i,
    {
        assert(s@.take(i + 1).drop_last() =~= s@.take(i as int));
        assert(s@.take(i + 1).last() == s@[i as int]);
        if text::digit_char(s[i]) {
            out.push(s[i]);
        }
        i += 1;
    }
    assert(s@.take(i as int) =~= s@);
    out
}

fn world_boss_remapped(value: &Vec<char>) -> (r: Option<Vec<char>>)
    ensures
        text::opt_chars(r) == remap_world_boss(value@),
{
    let lower = text::to_lower(value);
    if text::starts(&lower, "worldboss_") {
        match text::parse_number(&digits_of(value), u32::MAX as u64) {
            Some(n) => {
                return Some(blueprint_of("boss", n, 2));
            },
            None => {},
        }
    }
    if text::starts(&lower, "boss_") && text::ends(&lower, "_worldboss") {
        proof {
            reveal_strlit("_worldboss");
        }
        let head = text::part(value, 0, value.len() - 10);
        assert(head@ =~= value@.take(value@.len() - 10));
        return Some(head);
    }
    None
}

fn weekly_boss_remapped(value: &Vec<char>) -> (r: Option<Vec<char>>)
    ensures
        text::opt_chars(r) == remap_weekly_boss(value@),
{
    let lower = text::to_lower(value);
    if text::starts(&lower, "weeklyclone_boss") {
        proof {
            reveal_strlit("weeklyclone_boss");
        }
        let end = text::skip_pos(&lower, Class::Digit, 16);
        let digits = text::part(&lower, 16, end);
        match text::parse_number(&digits, u32::MAX as u64) {
            Some(n) => Some(blueprint_of("boss", n, 2)),
            None => None,
        }
    } else {
        None
    }
}

fn number_split(value: &Vec<char>) -> (r: Option<(&'static str, u64, Vec<char>)>)
    ensures
        match r {
            Some((prefix, number, suffix)) => split_number(value@) == Some(
                (prefix@, number as int, suffix@),
            ),
            None => split_number(value@) is None,
        },
{
    proof {
        reveal_strlit("mon_");
        reveal_strlit("boss_");
    }
    let lower = text::to_lower(value);
    let start: usize;
    let prefix: &'static str;
    if text::starts(&lower, "mon_") {
        start = 4;
        prefix = "mon";
    } else if text::starts(&lower, "boss_") {
        start = 5;
        prefix = "boss";
    } else {
        return None;
    }
    let end = text::skip_pos(value, Class::Digit, start);
    if end <= start {
        return None;
    }
    let digits = text::part(value, start, end);
    match text::parse_number(&digits, u32::MAX as u64) {
        Some(n) => {
            let suffix = text::part(value, end, value.len());
            assert(suffix@ =~= value@.skip(end as int));
            Some((prefix, n, suffix))
        },
        None => None,
    }
}

fn phase_suffix(suffix: &Vec<char>) -> (r: bool)
    ensures
        r == is_phase(suffix@),
{
    if suffix.len() == 0 || suffix[0] != '_' {
        return false;
    }
    let end = text::skip_pos(suffix, Class::Digit, 1);
    if end <= 1 {
        return false;
    }
    let rest = text::part(suffix, end, suffix.len());
    assert(rest@ =~= suffix@.skip(end as int));
    text::starts(&text::to_lower(&rest), "_bp")
}

/// Appends the identifier up to the word, where the word occurs.
fn push_cut(list: &mut Vec<Vec<char>>, value: &Vec<char>, lower: &Vec<char>, word: &str, keep: usize)
    requires
        lower@ == text::lower(value@),
        keep <= word@.len(),
    ensures
        text::views(final(list)@) == text::views(old(list)@) + cut_at(value@, word@, keep as int),
{
    let ghost before = text::views(list@);
    let length: usize = value.len();
    match text::find_pos(lower, &text::chars_of(word), 0) {
        Some(at) => {
            let head = text::part(value, 0, at + keep);
            assert(head@ =~= value@.take(at + keep));
            list.push(head);
            assert(text::views(list@) =~= before + seq![head@]);
        },
        None => {
            assert(before + cut_at(value@, word@, keep as int) =~= before);
        },
    }
}

fn variants_of(value: &Vec<char>) -> (list: Vec<Vec<char>>)
    ensures
        text::views(list@) == strip_variants(value@),
{
    let mut list: Vec<Vec<char>> = Vec::new();
    let lower = text::to_lower(value);
    proof {
        reveal_strlit("_bp_");
    }
    push_cut(&mut list, value, &lower, "_bp_", 3);
    assert(text::views(list@) =~= cut_at(value@, "_bp_"@, 3));
    push_cut(&mut list, value, &lower, "_trial", 0);
    push_cut(&mut list, value, &lower, "_world", 0);
    push_cut(&mut list, value, &lower, "_gameplay", 0);
    push_cut(&mut list, value, &lower, "_quest", 0);
    push_cut(&mut list, value, &lower, "_clone", 0);
    push_cut(&mut list, value, &lower, "_abyss", 0);
    push_cut(&mut list, value, &lower, "_diyboss", 0);
    push_cut(&mut list, value, &lower, "_vision", 0);
    push_cut(&mut list, value, &lower, "_takeorder", 0);
    push_cut(&mut list, value, &lower, "_weekly", 0);
    list
}

fn push_optional(list: &mut Vec<Vec<char>>, value: Option<Vec<char>>)
    ensures
        text::views(final(list)@) == text::views(old(list)@) + opt_seq(text::opt_chars(value)),
{
    let ghost before = text::views(list@);
    match value {
        Some(v) => {
            list.push(v);
            assert(text::views(list@) =~= before + seq![v@]);
        },
        None => {
            assert(before + opt_seq(None) =~= before);
        },
    }
}

fn push_blueprints(list: &mut Vec<Vec<char>>, prefix: &str, number: u64)
    ensures
        text::views(final(list)@) == text::views(old(list)@) + blueprints(prefix@, number as int),
{
    let ghost before = text::views(list@);
    list.push(blueprint_of(prefix, number, 1));
    list.push(blueprint_of(prefix, number, 2));
    list.push(blueprint_of(prefix, number, 3));
    assert(text::views(list@) =~= before + blueprints(prefix@, number as int));
}

fn derived_of(c: &Vec<char>) -> (list: Vec<Vec<char>>)
    ensures
        text::views(list@) == derived(c@),
{
    let mut list: Vec<Vec<char>> = Vec::new();
    assert(text::views(list@) =~= Seq::<Seq<char>>::empty());
    push_optional(&mut list, text::without_prefix(c, "Default__"));
    push_optional(&mut list, bp_remapped(c));
    push_optional(&mut list, world_boss_remapped(c));
    push_optional(&mut list, weekly_boss_remapped(c));
    let ghost before = text::views(list@);
    let mut variants = variants_of(c);
    list.append(&mut variants);
    assert(text::views(list@) =~= before + strip_variants(c@));
    match number_split(c) {
        Some((prefix, number, suffix)) => {
            if phase_suffix(&suffix) {
                push_blueprints(&mut list, prefix, number);
            }
            if suffix.len() == 0 {
                push_blueprints(&mut list, prefix, number);
            }
        },
        None => {},
    }
    assert(text::views(list@) =~= derived(c@));
    list
}

fn own_aliases_of(c: &Vec<char>) -> (list: Vec<Vec<char>>)
    ensures
        text::views(list@) == own_aliases(c@),
{
    let mut list: Vec<Vec<char>> = Vec::new();
    assert(text::views(list@) =~= Seq::<Seq<char>>::empty());
    push_alias(&mut list, c);
    if let Some(s) = class_stripped(c) {
        push_alias(&mut list, &s);
    }
    if let Some(s) = instance_stripped(c) {
        push_alias(&mut list, &s);
        if let Some(t) = class_stripped(&s) {
            push_alias(&mut list, &t);
        }
    }
    list
}

fn number_variants_of(c: &Vec<char>) -> (list: Vec<Vec<char>>)
    ensures
        text::views(list@) == number_variants(c@),
{
    let mut list: Vec<Vec<char>> = Vec::new();
    match number_split(c) {
        Some((prefix, number, suffix)) => {
            let start = text::concat2(prefix, "_");
            let rest = text::string_of(&suffix);
            list.push(joined(start.as_str(), &padded_number(number, 1), rest.as_str()));
            list.push(joined(start.as_str(), &padded_number(number, 2), rest.as_str()));
            list.push(joined(start.as_str(), &padded_number(number, 3), rest.as_str()));
        },
        None => {},
    }
    assert(text::views(list@) =~= number_variants(c@));
    list
}

/// Appends the aliases of an identifier.
pub fn add_identifier_aliases(value: &Vec<char>, list: &mut Vec<Vec<char>>)
    ensures
        text::views(final(list)@) == text::views(old(list)@) + aliases_of(value@),
    decreases measure(value@),
{
    let c = identifier::clean_identifier(value);
    let ghost start = text::views(list@);
    if c.len() == 0 {
        assert(start + aliases_of(value@) =~= start);
        return;
    }
    let mut own = own_aliases_of(&c);
    let next = derived_of(&c);
    let ghost bound = measure(value@);
    let ghost all = text::views(next@);
    let mut i: usize = 0;
    assert(text::views(own@) =~= own_aliases(c@) + aliases_of_all(all, 0, bound));
    while i < next.len()
        invariant
            i <= next.len(),
            c@ == identifier::clean(value@),
            c@.len() > 0,
            all == text::views(next@),
            all == derived(c@),
            bound == measure(value@),
            text::views(own@) == own_aliases(c@) + aliases_of_all(all, i as int, bound),
        decreases next.len() - i,
    {
        proof {
            derived_identifiers_measure_less(value@, i as int);
            assert(all[i as int] == next@[i as int]@);
        }
        add_identifier_aliases(&next[i], &mut own);
        proof {
            assert(text::views(own@) =~= own_aliases(c@) + aliases_of_all(all, i + 1, bound));
        }
        i += 1;
    }
    let variants = number_variants_of(&c);
    let ghost found = text::views(own@);
    let mut j: usize = 0;
    while j < variants.len()
        invariant
            j <= variants.len(),
            text::views(variants@) == number_variants(c@),
            text::views(own@) == with_all(found, number_variants(c@), j as int),
        decreases variants.len() - j,
    {
        assert(number_variants(c@)[j as int] == variants@[j as int]@);
        push_alias(&mut own, &variants[j]);
        j += 1;
    }
    assert(text::views(own@) == aliases_of(value@));
    let ghost tail = own@;
    list.append(&mut own);
    assert(text::views(list@) =~= start + text::views(tail));
}

// ------------------------------------------------------------------ lookup keys

/// The aliases of a path: of all of it, of its last part, and of what stands
/// before and behind the last point of that part.
pub open spec fn path_aliases(path: Seq<char>) -> Seq<Seq<char>> {
    let c = identifier::clean(path);
    let last = text::after_last(c, '/');
    aliases_of(c) + aliases_of(last) + match identifier::rsplit_once(last, "."@) {
        Some((left, right)) => aliases_of(left) + aliases_of(right),
        None => Seq::empty(),
    }
}

/// The first `n` values, each once, without the empty ones.
pub open spec fn distinct(values: Seq<Seq<char>>, n: int) -> Seq<Seq<char>>
    decreases n,
{
    if n <= 0 {
        Seq::empty()
    } else {
        let before = distinct(values, n - 1);
        let v = values[n - 1];
        if v.len() == 0 || before.contains(v) {
            before
        } else {
            before.push(v)
        }
    }
}

pub open spec fn normalized(values: Seq<Seq<char>>) -> Seq<Seq<char>> {
    values.map_values(|v: Seq<char>| normalize(v))
}

/// The keys under which a path is looked up.
#[verifier::opaque]
pub open spec fn lookup_keys(path: Seq<char>) -> Seq<Seq<char>> {
    let all = normalized(path_aliases(path));
    distinct(all, all.len() as int)
}

fn holds(list: &Vec<Vec<char>>, value: &Vec<char>) -> (r: bool)
    ensures
        r == text::views(list@).contains(value@),
{
    let mut i: usize = 0;
    while i < list.len()
        invariant
            i <= list.len(),
            forall|k: int| 0 <= k < i ==> #[trigger] text::views(list@)[k] != value@,
        decreases list.len() - i,
    {
        if text::same(&list[i], value) {
            assert(text::views(list@)[i as int] == value@);
            return true;
        }
        i += 1;
    }
    false
}

fn distinct_of(values: Vec<Vec<char>>) -> (out: Vec<Vec<char>>)
    ensures
        text::views(out@) == distinct(text::views(values@), values@.len() as int),
{
    let ghost all = text::views(values@);
    let ghost values_in = values@;
    let mut out: Vec<Vec<char>> = Vec::new();
    assert(text::views(out@) =~= distinct(all, 0));
    for value in it: values
        invariant
            it.seq() == values_in,
            all == text::views(values_in),
            text::views(out@) == distinct(all, it.index() as int),
    {
        assert(all[it.index() as int] == value@);
        let ghost before = text::views(out@);
        if value.len() > 0 && !holds(&out, &value) {
            out.push(value);
            assert(text::views(out@) =~= before.push(value@));
        }
    }
    out
}

/// The keys under which a path is looked up.
pub fn lookup_keys_for_path(path: &Vec<char>) -> (keys: Vec<Vec<char>>)
    ensures
        text::views(keys@) == lookup_keys(path@),
{
    let c = identifier::clean_identifier(path);
    let mut all: Vec<Vec<char>> = Vec::new();
    assert(text::views(all@) =~= Seq::<Seq<char>>::empty());
    add_identifier_aliases(&c, &mut all);
    let last = text::after_last_char(&c, '/');
    add_identifier_aliases(&last, &mut all);
    match identifier::split_last(&last, ".") {
        Some((left, right)) => {
            add_identifier_aliases(&left, &mut all);
            add_identifier_aliases(&right, &mut all);
        },
        None => {},
    }
    assert(text::views(all@) =~= path_aliases(path@));
    let mut keys: Vec<Vec<char>> = Vec::new();
    let mut i: usize = 0;
    while i < all.len()
        invariant
            i <= all.len(),
            keys@.len() == i,
            forall|k: int| 0 <= k < i ==> (#[trigger] keys@[k])@ == normalize(all@[k]@),
        decreases all.len() - i,
    {
        keys.push(normalize_key(&all[i]));
        i += 1;
    }
    assert(text::views(keys@) =~= normalized(path_aliases(path@)));
    reveal(lookup_keys);
    distinct_of(keys)
}

/// No key is empty, and none occurs twice.
pub proof fn distinct_values_are_distinct(values: Seq<Seq<char>>, n: int)
    requires
        0 <= n <= values.len(),
    ensures
        distinct(values, n).no_duplicates(),
        forall|i: int| 0 <= i < distinct(values, n).len() ==> (#[trigger] distinct(values, n)[i]).len()
            > 0,
    decreases n,
{
    if n > 0 {
        distinct_values_are_distinct(values, n - 1);
        let before = distinct(values, n - 1);
        let all = distinct(values, n);
        assert forall|i: int| 0 <= i < all.len() implies (#[trigger] all[i]).len() > 0 by {
            if i < before.len() {
                assert(all[i] == before[i]);
            }
        }
    }
}

// -------------------------------------------------------- monsters in effect names

/// `list` with the value, unless it is there.
pub open spec fn with_new(list: Seq<Seq<char>>, value: Seq<char>) -> Seq<Seq<char>> {
    if list.contains(value) {
        list
    } else {
        list.push(value)
    }
}

/// The ways in which the monster with the number is written.
pub open spec fn with_monster(list: Seq<Seq<char>>, prefix: Seq<char>, number: int) -> Seq<Seq<char>> {
    let start = prefix + "_"@;
    let n = text::dec(number as nat);
    with_new(
        with_new(
            with_new(
                with_new(
                    with_new(
                        with_new(list, start + text::zero_pad(n, 1)),
                        start + text::zero_pad(n, 2),
                    ),
                    start + text::zero_pad(n, 3),
                ),
                blueprint(prefix, number, 1),
            ),
            blueprint(prefix, number, 2),
        ),
        blueprint(prefix, number, 3),
    )
}

/// `list` with the monsters that the lower-case text names behind the prefix from
/// position `from` on.
pub open spec fn with_monsters(
    list: Seq<Seq<char>>,
    lower: Seq<char>,
    prefix: Seq<char>,
    from: int,
) -> Seq<Seq<char>>
    decreases lower.len() - from,
{
    let marker = prefix + "_"@;
    match text::find_from(lower, marker, from) {
        None => list,
        Some(at) => {
            let start = at + marker.len();
            let end = text::skip_class(lower, Class::Digit, start);
            let found = match text::parse_uint(lower.subrange(start, end), u32::MAX as int) {
                Some(n) => with_monster(list, prefix, n),
                None => list,
            };
            let next = if end > start {
                end
            } else {
                start + 1
            };
            if at < from || next <= from || next >= lower.len() {
                found
            } else {
                with_monsters(found, lower, prefix, next)
            }
        },
    }
}

/// The bosses and monsters that a text names.
pub open spec fn named_monsters(value: Seq<char>) -> Seq<Seq<char>> {
    let lower = text::lower(value);
    with_monsters(with_monsters(Seq::empty(), lower, "boss"@, 0), lower, "mon"@, 0)
}

pub open spec fn lookup_keys_of_all(values: Seq<Seq<char>>, n: int) -> Seq<Seq<char>>
    decreases n,
{
    if n <= 0 {
        Seq::empty()
    } else {
        lookup_keys_of_all(values, n - 1) + lookup_keys(values[n - 1])
    }
}

/// The keys under which a gameplay effect is looked up: its own, and those of the
/// monsters that its name names.
pub open spec fn effect_keys(effect: Seq<char>) -> Seq<Seq<char>> {
    let monsters = named_monsters(effect);
    let all = lookup_keys(effect) + lookup_keys_of_all(monsters, monsters.len() as int);
    distinct(all, all.len() as int)
}

fn push_new(list: &mut Vec<Vec<char>>, value: Vec<char>)
    ensures
        text::views(final(list)@) == with_new(text::views(old(list)@), value@),
{
    let ghost before = text::views(list@);
    if !holds(list, &value) {
        list.push(value);
        assert(text::views(list@) =~= before.push(value@));
    }
}

fn push_monster(list: &mut Vec<Vec<char>>, prefix: &str, number: u64)
    ensures
        text::views(final(list)@) == with_monster(text::views(old(list)@), prefix@, number as int),
{
    let start = text::concat2(prefix, "_");
    let one = joined(start.as_str(), &padded_number(number, 1), "");
    let two = joined(start.as_str(), &padded_number(number, 2), "");
    let three = joined(start.as_str(), &padded_number(number, 3), "");
    proof {
        reveal_strlit("");
        let n = text::dec(number as nat);
        assert(one@ =~= start@ + text::zero_pad(n, 1));
        assert(two@ =~= start@ + text::zero_pad(n, 2));
        assert(three@ =~= start@ + text::zero_pad(n, 3));
    }
    push_new(list, one);
    push_new(list, two);
    push_new(list, three);
    push_new(list, blueprint_of(prefix, number, 1));
    push_new(list, blueprint_of(prefix, number, 2));
    push_new(list, blueprint_of(prefix, number, 3));
}

fn push_monsters(list: &mut Vec<Vec<char>>, lower: &Vec<char>, prefix: &str)
    ensures
        text::views(final(list)@) == with_monsters(text::views(old(list)@), lower@, prefix@, 0),
{
    let marker = text::chars_of(text::concat2(prefix, "_").as_str());
    let ghost start_list = text::views(list@);
    let mut from: usize = 0;
    loop
        invariant
            marker@ == prefix@ + "_"@,
            from <= lower.len(),
            start_list == text::views(old(list)@),
            with_monsters(start_list, lower@, prefix@, 0) == with_monsters(
                text::views(list@),
                lower@,
                prefix@,
                from as int,
            ),
        decreases lower.len() - from,
    {
        let length: usize = lower.len();
        let at = match text::find_pos(lower, &marker, from) {
            Some(at) => at,
            None => {
                return;
            },
        };
        let start: usize = at + marker.len();
        let end = text::skip_pos(lower, Class::Digit, start);
        let digits = text::part(lower, start, end);
        match text::parse_number(&digits, u32::MAX as u64) {
            Some(n) => push_monster(list, prefix, n),
            None => {},
        }
        proof {
            reveal_strlit("_");
        }
        if end >= length {
            return;
        }
        let next: usize = if end > start { end } else { start + 1 };
        if next >= length {
            return;
        }
        from = next;
    }
}

/// The bosses and monsters that a text names.
pub fn monster_namespace_aliases(value: &Vec<char>) -> (list: Vec<Vec<char>>)
    ensures
        text::views(list@) == named_monsters(value@),
{
    let lower = text::to_lower(value);
    let mut list: Vec<Vec<char>> = Vec::new();
    assert(text::views(list@) =~= Seq::<Seq<char>>::empty());
    push_monsters(&mut list, &lower, "boss");
    push_monsters(&mut list, &lower, "mon");
    list
}

/// The keys under which a gameplay effect is looked up.
pub fn lookup_keys_for_gameplay_effect(effect: &Vec<char>) -> (keys: Vec<Vec<char>>)
    ensures
        text::views(keys@) == effect_keys(effect@),
{
    let mut all = lookup_keys_for_path(effect);
    let monsters = monster_namespace_aliases(effect);
    let ghost own = lookup_keys(effect@);
    let ghost named = text::views(monsters@);
    let mut i: usize = 0;
    assert(text::views(all@) =~= own + lookup_keys_of_all(named, 0));
    while i < monsters.len()
        invariant
            i <= monsters.len(),
            named == text::views(monsters@),
            text::views(all@) == own + lookup_keys_of_all(named, i as int),
        decreases monsters.len() - i,
    {
        let ghost before = text::views(all@);
        let mut more = lookup_keys_for_path(&monsters[i]);
        let ghost tail = more@;
        assert(named[i as int] == monsters@[i as int]@);
        all.append(&mut more);
        assert(text::views(all@) =~= before + text::views(tail));
        assert(text::views(all@) =~= own + lookup_keys_of_all(named, i + 1));
        i += 1;
    }
    distinct_of(all)
}

proof fn lemma_all_stay(list: Seq<Seq<char>>, values: Seq<Seq<char>>, n: int)
    requires
        0 <= n <= values.len(),
    ensures
        forall|x: Seq<char>| list.contains(x) ==> #[trigger] with_all(list, values, n).contains(x),
        forall|i: int|
            0 <= i < n && normalize(#[trigger] values[i]).len() > 0 ==> with_all(
                list,
                values,
                n,
            ).contains(normalize(values[i])),
    decreases n,
{
    if n > 0 {
        lemma_all_stay(list, values, n - 1);
        let before = with_all(list, values, n - 1);
        let all = with_all(list, values, n);
        assert forall|x: Seq<char>| before.contains(x) implies #[trigger] all.contains(x) by {
            let w = choose|w: int| 0 <= w < before.len() && before[w] == x;
            assert(all[w] == x);
        }
        if normalize(values[n - 1]).len() > 0 {
            assert(all[before.len() as int] == normalize(values[n - 1]));
        }
        assert forall|i: int|
            0 <= i < n && normalize(#[trigger] values[i]).len() > 0 implies all.contains(
            normalize(values[i]),
        ) by {
            if i < n - 1 {
                assert(before.contains(normalize(values[i])));
            }
        }
    }
}

proof fn lemma_sum_contains(a: Seq<Seq<char>>, b: Seq<Seq<char>>, x: Seq<char>)
    requires
        a.contains(x) || b.contains(x),
    ensures
        (a + b).contains(x),
{
    if a.contains(x) {
        let w = choose|w: int| 0 <= w < a.len() && a[w] == x;
        assert((a + b)[w] == x);
    } else {
        let w = choose|w: int| 0 <= w < b.len() && b[w] == x;
        assert((a + b)[a.len() + w] == x);
    }
}

proof fn lemma_aliases_of_next(list: Seq<Seq<char>>, n: int, bound: int, i: int, x: Seq<char>)
    requires
        0 <= i < n <= list.len(),
        0 <= measure(list[i]) < bound,
        aliases_of(list[i]).contains(x),
    ensures
        aliases_of_all(list, n, bound).contains(x),
    decreases n,
{
    if i == n - 1 {
        lemma_sum_contains(aliases_of_all(list, n - 1, bound), aliases_of(list[i]), x);
    } else {
        lemma_aliases_of_next(list, n - 1, bound, i, x);
        lemma_sum_contains(aliases_of_all(list, n - 1, bound), aliases_of(list[n - 1]), x);
    }
}

/// The other identifiers that an identifier leads to: what its class's default stands for,
/// its blueprint, and what stands before the word for a trial, for another world, for a
/// quest and the like.
pub open spec fn leads_on(c: Seq<char>, next: Seq<char>) -> bool {
    let l = text::lower(c);
    ||| c == "Default__"@ + next
    ||| text::starts_with(l, "bp_boss_"@) && next == "boss_"@ + c.skip(8) + "_BP"@
    ||| text::starts_with(l, "bp_mon_"@) && next == "mon_"@ + c.skip(7) + "_BP"@
    ||| cut_before(c, "_trial"@, next)
    ||| cut_before(c, "_world"@, next)
    ||| cut_before(c, "_gameplay"@, next)
    ||| cut_before(c, "_quest"@, next)
    ||| cut_before(c, "_clone"@, next)
    ||| cut_before(c, "_abyss"@, next)
    ||| cut_before(c, "_diyboss"@, next)
    ||| cut_before(c, "_vision"@, next)
    ||| cut_before(c, "_takeorder"@, next)
    ||| cut_before(c, "_weekly"@, next)
}

/// The text begins with `next`, and the first time that the word stands in it, in whatever
/// case, is behind that.
pub open spec fn cut_before(c: Seq<char>, word: Seq<char>, next: Seq<char>) -> bool {
    text::find(text::lower(c), word) == Some(next.len() as int) && c.take(next.len() as int)
        == next
}

proof fn lemma_cut(c: Seq<char>, word: Seq<char>, next: Seq<char>)
    requires
        cut_before(c, word, next),
    ensures
        cut_at(c, word, 0).contains(next),
{
    assert(cut_at(c, word, 0)[0] == next);
}

proof fn lemma_leads_to_derived(c: Seq<char>, next: Seq<char>)
    requires
        leads_on(c, next),
    ensures
        derived(c).contains(next),
{
    let d0 = opt_seq(text::strip_prefix(c, "Default__"@));
    let d1 = opt_seq(remap_bp(c));
    let d2 = opt_seq(remap_world_boss(c));
    let d3 = opt_seq(remap_weekly_boss(c));
    let d4 = strip_variants(c);
    let d5 = remap_phase(c);
    let d6 = remap_bare(c);
    let a = d0 + d1;
    let b = a + d2;
    let e = b + d3;
    let f = e + d4;
    let g = f + d5;
    assert(derived(c) == g + d6);
    let l = text::lower(c);
    reveal_strlit("Default__");
    reveal_strlit("bp_boss_");
    reveal_strlit("bp_mon_");
    if c == "Default__"@ + next {
        assert(c.take(9) =~= "Default__"@);
        assert(c.skip(9) =~= next);
        assert(d0[0] == next);
        lemma_sum_contains(d0, d1, next);
        lemma_sum_contains(a, d2, next);
        lemma_sum_contains(b, d3, next);
        lemma_sum_contains(e, d4, next);
    } else if (text::starts_with(l, "bp_boss_"@) && next == "boss_"@ + c.skip(8) + "_BP"@) || (
    text::starts_with(l, "bp_mon_"@) && next == "mon_"@ + c.skip(7) + "_BP"@) {
        if text::starts_with(l, "bp_mon_"@) && text::starts_with(l, "bp_boss_"@) {
            assert(l.take(7)[3] == 'm');
            assert(l.take(8)[3] == 'b');
        }
        assert(d1[0] == next);
        lemma_sum_contains(d0, d1, next);
        lemma_sum_contains(a, d2, next);
        lemma_sum_contains(b, d3, next);
        lemma_sum_contains(e, d4, next);
    } else {
        lemma_cut_is_a_variant(c, next);
        lemma_sum_contains(e, d4, next);
    }
    lemma_sum_contains(f, d5, next);
    lemma_sum_contains(g, d6, next);
}

proof fn lemma_cut_is_a_variant(c: Seq<char>, next: Seq<char>)
    requires
        cut_before(c, "_trial"@, next) || cut_before(c, "_world"@, next) || cut_before(
            c,
            "_gameplay"@,
            next,
        ) || cut_before(c, "_quest"@, next) || cut_before(c, "_clone"@, next) || cut_before(
            c,
            "_abyss"@,
            next,
        ) || cut_before(c, "_diyboss"@, next) || cut_before(c, "_vision"@, next) || cut_before(
            c,
            "_takeorder"@,
            next,
        ) || cut_before(c, "_weekly"@, next),
    ensures
        strip_variants(c).contains(next),
{
    let a = cut_at(c, "_bp_"@, 3);
    let b = a + cut_at(c, "_trial"@, 0);
    let d = b + cut_at(c, "_world"@, 0);
    let e = d + cut_at(c, "_gameplay"@, 0);
    let f = e + cut_at(c, "_quest"@, 0);
    let g = f + cut_at(c, "_clone"@, 0);
    let h = g + cut_at(c, "_abyss"@, 0);
    let i = h + cut_at(c, "_diyboss"@, 0);
    let j = i + cut_at(c, "_vision"@, 0);
    let k = j + cut_at(c, "_takeorder"@, 0);
    assert(strip_variants(c) == k + cut_at(c, "_weekly"@, 0));
    if cut_before(c, "_trial"@, next) {
        lemma_cut(c, "_trial"@, next);
        lemma_sum_contains(a, cut_at(c, "_trial"@, 0), next);
    }
    if cut_before(c, "_world"@, next) {
        lemma_cut(c, "_world"@, next);
    }
    if cut_before(c, "_gameplay"@, next) {
        lemma_cut(c, "_gameplay"@, next);
    }
    if cut_before(c, "_quest"@, next) {
        lemma_cut(c, "_quest"@, next);
    }
    if cut_before(c, "_clone"@, next) {
        lemma_cut(c, "_clone"@, next);
    }
    if cut_before(c, "_abyss"@, next) {
        lemma_cut(c, "_abyss"@, next);
    }
    if cut_before(c, "_diyboss"@, next) {
        lemma_cut(c, "_diyboss"@, next);
    }
    if cut_before(c, "_vision"@, next) {
        lemma_cut(c, "_vision"@, next);
    }
    if cut_before(c, "_takeorder"@, next) {
        lemma_cut(c, "_takeorder"@, next);
    }
    if cut_before(c, "_weekly"@, next) {
        lemma_cut(c, "_weekly"@, next);
    }
    if b.contains(next) || cut_at(c, "_world"@, 0).contains(next) {
        lemma_sum_contains(b, cut_at(c, "_world"@, 0), next);
    }
    if d.contains(next) || cut_at(c, "_gameplay"@, 0).contains(next) {
        lemma_sum_contains(d, cut_at(c, "_gameplay"@, 0), next);
    }
    if e.contains(next) || cut_at(c, "_quest"@, 0).contains(next) {
        lemma_sum_contains(e, cut_at(c, "_quest"@, 0), next);
    }
    if f.contains(next) || cut_at(c, "_clone"@, 0).contains(next) {
        lemma_sum_contains(f, cut_at(c, "_clone"@, 0), next);
    }
    if g.contains(next) || cut_at(c, "_abyss"@, 0).contains(next) {
        lemma_sum_contains(g, cut_at(c, "_abyss"@, 0), next);
    }
    if h.contains(next) || cut_at(c, "_diyboss"@, 0).contains(next) {
        lemma_sum_contains(h, cut_at(c, "_diyboss"@, 0), next);
    }
    if i.contains(next) || cut_at(c, "_vision"@, 0).contains(next) {
        lemma_sum_contains(i, cut_at(c, "_vision"@, 0), next);
    }
    if j.contains(next) || cut_at(c, "_takeorder"@, 0).contains(next) {
        lemma_sum_contains(j, cut_at(c, "_takeorder"@, 0), next);
    }
    lemma_sum_contains(k, cut_at(c, "_weekly"@, 0), next);
}

/// An identifier is known by its own text, cleaned and in lower case, and by every name of
/// the identifiers that it leads to.
pub proof fn identifiers_share_the_names_of_what_they_lead_to(
    value: Seq<char>,
    next: Seq<char>,
    name: Seq<char>,
)
    requires
        identifier::clean(value).len() > 0,
    ensures
        normalize(identifier::clean(value)).len() > 0 ==> aliases_of(value).contains(
            normalize(identifier::clean(value)),
        ),
        leads_on(identifier::clean(value), next) && aliases_of(next).contains(name) ==> aliases_of(
            value,
        ).contains(name),
{
    let c = identifier::clean(value);
    let list = derived(c);
    let own = own_aliases(c);
    let others = aliases_of_all(list, list.len() as int, measure(value));
    let numbers = number_variants(c);
    lemma_all_stay(own + others, numbers, numbers.len() as int);
    if normalize(c).len() > 0 {
        let a = with_opt_alias(with_alias(Seq::empty(), c), strip_class(c));
        assert(a[0] == normalize(c));
        assert(own[0] == normalize(c));
        lemma_sum_contains(own, others, normalize(c));
    }
    if leads_on(c, next) && aliases_of(next).contains(name) {
        lemma_leads_to_derived(c, next);
        let i = choose|i: int| 0 <= i < list.len() && list[i] == next;
        derived_identifiers_measure_less(value, i);
        lemma_aliases_of_next(list, list.len() as int, measure(value), i, name);
        lemma_sum_contains(own, others, name);
    }
}

/// An identifier with a number is also known by the number with up to three digits.
pub proof fn numbered_identifiers_are_known_by_other_widths(
    value: Seq<char>,
    digits: Seq<char>,
    suffix: Seq<char>,
    prefix: Seq<char>,
    width: int,
)
    requires
        prefix == "boss"@ || prefix == "mon"@,
        identifier::clean(value) == prefix + "_"@ + digits + suffix,
        digits.len() > 0,
        text::all_digits(digits),
        text::digits_value(digits) <= 0xffff_ffff,
        suffix.len() == 0 || !text::is_digit(suffix[0]),
        1 <= width <= 3,
        normalize(
            prefix + "_"@ + text::zero_pad(
                text::dec(text::digits_value(digits) as nat),
                width,
            ) + suffix,
        ).len() > 0,
    ensures
        aliases_of(value).contains(
            normalize(
                prefix + "_"@ + text::zero_pad(
                    text::dec(text::digits_value(digits) as nat),
                    width,
                ) + suffix,
            ),
        ),
{
    let c = identifier::clean(value);
    let list = derived(c);
    let own = own_aliases(c);
    let others = aliases_of_all(list, list.len() as int, measure(value));
    let numbers = number_variants(c);
    let n = text::digits_value(digits);
    reveal_strlit("boss");
    reveal_strlit("mon");
    reveal_strlit("_");
    reveal_strlit("mon_");
    reveal_strlit("boss_");
    let l = text::lower(c);
    let start = prefix.len() + 1;
    assert(c.len() == start + digits.len() + suffix.len());
    assert forall|k: int| 0 <= k < digits.len() implies c[start + k] == #[trigger] digits[k] by {}
    if prefix == "boss"@ {
        assert(l[0] == 'b');
        assert(l.take(5) =~= "boss_"@) by {
            assert(c[0] == 'b' && c[1] == 'o' && c[2] == 's' && c[3] == 's' && c[4] == '_');
        }
        if text::starts_with(l, "mon_"@) {
            assert(l.take(4)[0] == 'm');
        }
    } else {
        assert(l.take(4) =~= "mon_"@) by {
            assert(c[0] == 'm' && c[1] == 'o' && c[2] == 'n' && c[3] == '_');
        }
    }
    let end = (start + digits.len()) as int;
    lemma_digits_end(c, start as int, end);
    assert(c.subrange(start as int, end) =~= digits);
    assert(c.skip(end) =~= suffix);
    text::lemma_digits_value_nonnegative(digits);
    assert(text::is_digit(digits[0]));
    assert(split_number(c) == Some((prefix, n, suffix)));
    lemma_all_stay(own + others, numbers, numbers.len() as int);
    assert(numbers[width - 1] == prefix + "_"@ + text::zero_pad(text::dec(n as nat), width)
        + suffix);
}

proof fn lemma_digits_end(c: Seq<char>, i: int, end: int)
    requires
        0 <= i <= end <= c.len(),
        forall|k: int| i <= k < end ==> text::is_digit(#[trigger] c[k]),
        end < c.len() ==> !text::is_digit(c[end]),
    ensures
        text::skip_class(c, Class::Digit, i) == end,
    decreases end - i,
{
    if i < end {
        lemma_digits_end(c, i + 1, end);
    }
}

proof fn lemma_distinct_keeps(values: Seq<Seq<char>>, n: int, i: int)
    requires
        0 <= i < n <= values.len(),
        values[i].len() > 0,
    ensures
        distinct(values, n).contains(values[i]),
    decreases n,
{
    let before = distinct(values, n - 1);
    let all = distinct(values, n);
    if i < n - 1 {
        lemma_distinct_keeps(values, n - 1, i);
        let w = choose|w: int| 0 <= w < before.len() && before[w] == values[i];
        assert(all[w] == values[i]);
    } else if before.contains(values[i]) {
        let w = choose|w: int| 0 <= w < before.len() && before[w] == values[i];
        assert(all[w] == values[i]);
    } else {
        assert(all[before.len() as int] == values[i]);
    }
}

/// A path is looked up by every name of the whole of it and of its last part.
pub proof fn paths_are_looked_up_by_their_last_part(path: Seq<char>, name: Seq<char>)
    requires
        aliases_of(identifier::clean(path)).contains(name) || aliases_of(
            text::after_last(identifier::clean(path), '/'),
        ).contains(name),
        normalize(name).len() > 0,
    ensures
        lookup_keys(path).contains(normalize(name)),
{
    let c = identifier::clean(path);
    let last = text::after_last(c, '/');
    let more = match identifier::rsplit_once(last, "."@) {
        Some((left, right)) => aliases_of(left) + aliases_of(right),
        None => Seq::empty(),
    };
    let both = aliases_of(c) + aliases_of(last);
    lemma_sum_contains(aliases_of(c), aliases_of(last), name);
    lemma_sum_contains(both, more, name);
    let names = path_aliases(path);
    assert(names == both + more);
    let w = choose|w: int| 0 <= w < names.len() && names[w] == name;
    let all = normalized(names);
    assert(all[w] == normalize(name));
    lemma_distinct_keeps(all, all.len() as int, w);
    reveal(lookup_keys);
}

} // verus!
