//! Canonical keys of monsters: one key for all the names that a monster has.
use vstd::prelude::*;

use crate::identifier;
use crate::text;
use crate::text::Class;

verus! {

/// The number that follows the marker in `value[from..]`: that of the first
/// occurrence behind which digits stand, unless it is too large. The search goes
/// on `gap` characters behind an occurrence without digits.
pub open spec fn number_behind(value: Seq<char>, marker: Seq<char>, gap: int, from: int) -> Option<
    int,
>
    decreases value.len() - from,
{
    match text::find_from(value, marker, from) {
        None => None,
        Some(at) => {
            let start = at + marker.len();
            let end = text::skip_class(value, Class::Digit, start);
            if end > start {
                text::parse_uint(value.subrange(start, end), u32::MAX as int)
            } else if start + gap <= from || start + gap >= value.len() {
                None
            } else {
                number_behind(value, marker, gap, start + gap)
            }
        },
    }
}

/// The number that follows the marker; the character behind an occurrence without
/// digits is passed over.
pub open spec fn number_after(value: Seq<char>, marker: Seq<char>) -> Option<int> {
    number_behind(value, marker, 1, 0)
}

/// The key of the monster with the number.
pub open spec fn monster_key(prefix: Seq<char>, number: int) -> Seq<char> {
    "monster:"@ + prefix + "_"@ + text::zero_pad(text::dec(number as nat), 2)
}

/// The last part of a lower-case path without the parts that mark default objects
/// and classes.
pub open spec fn bare_basename(lower: Seq<char>) -> Seq<char> {
    text::trim_end_text(
        text::trim_start_text(identifier::basename(lower), "default__"@),
        "_c"@,
    )
}

pub open spec fn or_else(a: Option<int>, b: Option<int>) -> Option<int> {
    match a {
        Some(x) => Some(x),
        None => b,
    }
}

/// The number of the boss or the monster that a cleaned, lower-case path names,
/// with the word for which of them it is.
pub open spec fn target_number(lower: Seq<char>) -> Option<(Seq<char>, int)> {
    let boss = or_else(
        number_after(lower, "worldboss_boss"@),
        or_else(number_after(lower, "weeklyclone_boss"@), number_after(lower, "boss_"@)),
    );
    let base = bare_basename(lower);
    match boss {
        Some(n) => Some(("boss"@, n)),
        None => match number_after(lower, "mon_"@) {
            Some(n) => Some(("mon"@, n)),
            None => match number_after(base, "boss"@) {
                Some(n) => Some(("boss"@, n)),
                None => match number_after(base, "mon"@) {
                    Some(n) => Some(("mon"@, n)),
                    None => None,
                },
            },
        },
    }
}

/// The canonical key of the monster that a path names.
pub open spec fn canonical_key(path: Seq<char>) -> Option<Seq<char>> {
    match target_number(text::lower(identifier::clean(path))) {
        Some((prefix, n)) => Some(monster_key(prefix, n)),
        None => None,
    }
}

/// The canonical key of the monster that the path names, or else of the one that
/// the name names.
pub open spec fn canonical_key_of(name: Seq<char>, path: Seq<char>) -> Option<Seq<char>> {
    match canonical_key(path) {
        Some(key) => Some(key),
        None => canonical_key(name),
    }
}

pub open spec fn is_boss_key(key: Seq<char>) -> bool {
    text::starts_with(text::lower(text::trim(key, Class::Space)), "monster:boss_"@)
}

pub open spec fn is_small_monster_key(key: Seq<char>) -> bool {
    text::starts_with(text::lower(text::trim(key, Class::Space)), "monster:mon_"@)
}

/// The number that follows the marker.
pub fn find_number_behind(value: &Vec<char>, marker: &str, gap: usize) -> (r: Option<u32>)
    requires
        marker@.len() + gap > 0,
    ensures
        match r {
            Some(n) => number_behind(value@, marker@, gap as int, 0) == Some(n as int),
            None => number_behind(value@, marker@, gap as int, 0) is None,
        },
{
    let marker_chars = text::chars_of(marker);
    let length: usize = value.len();
    let mut from: usize = 0;
    loop
        invariant
            marker_chars@ == marker@,
            marker@.len() + gap > 0,
            length == value.len(),
            from <= length,
            number_behind(value@, marker@, gap as int, 0) == number_behind(
                value@,
                marker@,
                gap as int,
                from as int,
            ),
        decreases length - from,
    {
        let at = match text::find_pos(value, &marker_chars, from) {
            Some(at) => at,
            None => {
                return None;
            },
        };
        let start: usize = at + marker_chars.len();
        let end = text::skip_pos(value, Class::Digit, start);
        if end > start {
            let digits = text::part(value, start, end);
            return match text::parse_number(&digits, u32::MAX as u64) {
                Some(n) => Some(n as u32),
                None => None,
            };
        }
        if gap >= length - start {
            return None;
        }
        from = start + gap;
    }
}

fn find_number_after(value: &Vec<char>, marker: &str) -> (r: Option<u32>)
    ensures
        match r {
            Some(n) => number_after(value@, marker@) == Some(n as int),
            None => number_after(value@, marker@) is None,
        },
{
    find_number_behind(value, marker, 1)
}

fn key_text(prefix: &str, number: u32) -> (out: String)
    ensures
        out@ == monster_key(prefix@, number as int),
{
    let mut out = text::concat3("monster:", prefix, "_");
    let digits = text::dec_string(number as u64);
    out.append(text::zero_padded(digits.as_str(), 2).as_str());
    out
}

/// The canonical key of the monster that a path names.
pub fn canonical_target_key_for_path(path: &str) -> (r: Option<String>)
    ensures
        text::opt_text(r) == canonical_key(path@),
{
    canonical_key_for(&text::chars_of(path))
}

fn canonical_key_for(path: &Vec<char>) -> (r: Option<String>)
    ensures
        text::opt_text(r) == canonical_key(path@),
{
    let lower = text::to_lower(&identifier::clean_identifier(path));
    let world = find_number_after(&lower, "worldboss_boss");
    let weekly = find_number_after(&lower, "weeklyclone_boss");
    let boss = find_number_after(&lower, "boss_");
    let found_boss = match world {
        Some(n) => Some(n),
        None => match weekly {
            Some(n) => Some(n),
            None => boss,
        },
    };
    if let Some(n) = found_boss {
        return Some(key_text("boss", n));
    }
    if let Some(n) = find_number_after(&lower, "mon_") {
        return Some(key_text("mon", n));
    }
    let base = text::trimmed_end_text(
        &text::trimmed_start_text(&identifier::basename_of(&lower), "default__"),
        "_c",
    );
    if let Some(n) = find_number_after(&base, "boss") {
        return Some(key_text("boss", n));
    }
    if let Some(n) = find_number_after(&base, "mon") {
        return Some(key_text("mon", n));
    }
    None
}

/// The canonical key of the monster that the path names, or else of the one that
/// the name names.
pub fn canonical_target_key_from_name_and_path(name: &str, path: &str) -> (r: Option<String>)
    ensures
        text::opt_text(r) == canonical_key_of(name@, path@),
{
    match canonical_target_key_for_path(path) {
        Some(key) => Some(key),
        None => canonical_target_key_for_path(name),
    }
}

/// Whether the key is that of a boss.
pub fn is_boss_target_key(key: &str) -> (r: bool)
    ensures
        r == is_boss_key(key@),
{
    text::starts(
        &text::to_lower(&text::trimmed(&text::chars_of(key), Class::Space)),
        "monster:boss_",
    )
}

/// Whether the key is that of a small monster.
pub fn is_small_monster_target_key(key: &str) -> (r: bool)
    ensures
        r == is_small_monster_key(key@),
{
    text::starts(
        &text::to_lower(&text::trimmed(&text::chars_of(key), Class::Space)),
        "monster:mon_",
    )
}

/// No key is both that of a boss and that of a small monster.
pub proof fn boss_and_small_monster_keys_are_disjoint(key: Seq<char>)
    ensures
        !(is_boss_key(key) && is_small_monster_key(key)),
{
    reveal_strlit("monster:boss_");
    reveal_strlit("monster:mon_");
    let s = text::lower(text::trim(key, Class::Space));
    if is_boss_key(key) && is_small_monster_key(key) {
        assert(s.take(13)[8] == 'b');
        assert(s.take(12)[8] == 'm');
        assert(s[8] == 'b' && s[8] == 'm');
    }
}

proof fn lemma_find_without_first(s: Seq<char>, needle: Seq<char>, i: int)
    requires
        needle.len() > 0,
        forall|k: int| 0 <= k < s.len() ==> #[trigger] s[k] != needle[0],
        0 <= i,
    ensures
        text::find_from(s, needle, i) is None,
    decreases s.len() + 1 - i,
{
    if i + needle.len() <= s.len() {
        if text::occurs_at(s, needle, i) {
            assert(s.subrange(i, i + needle.len())[0] == s[i]);
        }
        lemma_find_without_first(s, needle, i + 1);
    }
}

proof fn lemma_digits_run(s: Seq<char>, from: int, to: int)
    requires
        0 <= from <= to <= s.len(),
        forall|k: int| from <= k < to ==> text::is_digit(#[trigger] s[k]),
        to == s.len() || !text::is_digit(s[to]),
    ensures
        text::skip_class(s, Class::Digit, from) == to,
    decreases to - from,
{
    if from < to {
        assert(text::is_digit(s[from]));
        lemma_digits_run(s, from + 1, to);
    }
}

proof fn lemma_number_after_prefix(prefix: Seq<char>, digits: Seq<char>, rest: Seq<char>)
    requires
        digits.len() > 0,
        text::all_digits(digits),
        rest.len() == 0 || !text::is_digit(rest[0]),
        text::digits_value(digits) <= u32::MAX,
    ensures
        number_after(prefix + digits + rest, prefix) == Some(text::digits_value(digits)),
{
    let s = prefix + digits + rest;
    assert(s.subrange(0, prefix.len() as int) =~= prefix);
    assert(text::occurs_at(s, prefix, 0));
    let end = (prefix.len() + digits.len()) as int;
    assert forall|k: int| prefix.len() <= k < end implies text::is_digit(#[trigger] s[k]) by {
        assert(s[k] == digits[k - prefix.len()]);
    }
    lemma_digits_run(s, prefix.len() as int, end);
    assert(s.subrange(prefix.len() as int, end) =~= digits);
    assert(text::is_digit(digits[0]));
}

/// A world boss's alias, its blueprint and the class path of its blueprint have
/// one key, whatever the number.
pub proof fn boss_alias_and_blueprint_have_one_key(digits: Seq<char>)
    requires
        digits.len() > 0,
        text::all_digits(digits),
        text::digits_value(digits) <= u32::MAX,
    ensures
        canonical_key("worldboss_boss"@ + digits) == Some(
            monster_key("boss"@, text::digits_value(digits)),
        ),
        canonical_key("boss_"@ + digits + "_bp"@) == Some(
            monster_key("boss"@, text::digits_value(digits)),
        ),
{
    reveal_strlit("worldboss_boss");
    reveal_strlit("weeklyclone_boss");
    reveal_strlit("boss_");
    reveal_strlit("_bp");
    let alias = "worldboss_boss"@ + digits;
    let blueprint = "boss_"@ + digits + "_bp"@;
    assert forall|k: int| 0 <= k < digits.len() implies text::is_digit(#[trigger] digits[k]) by {}
    assert(text::is_digit(digits[digits.len() - 1]));
    identifier::cleaning_shortens_or_keeps(alias);
    identifier::cleaning_shortens_or_keeps(blueprint);
    assert(identifier::clean(alias) == alias);
    assert(identifier::clean(blueprint) == blueprint);
    assert forall|k: int| 0 <= k < alias.len() implies #[trigger] text::lower(alias)[k]
        == alias[k] by {
        if k >= "worldboss_boss"@.len() {
            assert(alias[k] == digits[k - "worldboss_boss"@.len()]);
        }
    }
    assert(text::lower(alias) =~= alias);
    assert forall|k: int| 0 <= k < blueprint.len() implies #[trigger] text::lower(blueprint)[k]
        == blueprint[k] && blueprint[k] != 'w' by {
        if 5 <= k < 5 + digits.len() {
            assert(blueprint[k] == digits[k - 5]);
            assert(text::is_digit(digits[k - 5]));
        }
    }
    assert(text::lower(blueprint) =~= blueprint);
    lemma_number_after_prefix("worldboss_boss"@, digits, Seq::empty());
    assert("worldboss_boss"@ + digits + Seq::empty() =~= alias);
    lemma_number_after_prefix("boss_"@, digits, "_bp"@);
    lemma_find_without_first(blueprint, "worldboss_boss"@, 0);
    lemma_find_without_first(blueprint, "weeklyclone_boss"@, 0);
}

proof fn lemma_numbers_fit(value: Seq<char>, marker: Seq<char>, gap: int, from: int)
    ensures
        number_behind(value, marker, gap, from) matches Some(n) ==> 0 <= n <= u32::MAX,
    decreases value.len() - from,
{
    match text::find_from(value, marker, from) {
        None => {},
        Some(at) => {
            let start = at + marker.len();
            let end = text::skip_class(value, Class::Digit, start);
            if end > start {
                let digits = value.subrange(start, end);
                let read = if digits.len() > 0 && digits[0] == '+' {
                    digits.skip(1)
                } else {
                    digits
                };
                if text::all_digits(read) {
                    text::lemma_digits_value_nonnegative(read);
                }
            } else if start + gap <= from || start + gap >= value.len() {
            } else {
                lemma_numbers_fit(value, marker, gap, start + gap);
            }
        },
    }
}

proof fn lemma_first_place(s: Seq<char>, needle: Seq<char>, i: int, at: int)
    requires
        0 <= i <= at,
        text::occurs_at(s, needle, at),
        forall|k: int| i <= k < at ==> !text::occurs_at(s, needle, k),
    ensures
        text::find_from(s, needle, i) == Some(at),
    decreases at - i,
{
    if i < at {
        lemma_first_place(s, needle, i + 1, at);
    }
}

/// The digits of a key are those of its number.
proof fn lemma_key_digits(n: nat)
    ensures
        text::all_digits(text::zero_pad(text::dec(n), 2)),
        text::zero_pad(text::dec(n), 2).len() >= 2,
        text::digits_value(text::zero_pad(text::dec(n), 2)) == n,
{
    let d = text::zero_pad(text::dec(n), 2);
    text::decimals_are_digits(n);
    text::decimals_read_back(n);
    if n < 10 {
        let zero = seq!['0'];
        assert(text::dec(n) =~= seq![text::digit(n)]);
        assert(d =~= seq!['0', text::digit(n)]);
        assert(d.drop_last() =~= zero);
        assert(zero.drop_last() =~= Seq::<char>::empty());
        assert(text::digits_value(Seq::<char>::empty()) == 0);
        assert(text::digits_value(zero) == 0);
    } else {
        assert(text::dec(n) =~= text::dec(n / 10).push(text::digit(n % 10)));
        text::decimals_are_digits(n / 10);
        assert(d == text::dec(n));
    }
}

/// What stands in a key behind the given head is read as its number.
proof fn lemma_number_of_key(head: Seq<char>, marker: Seq<char>, digits: Seq<char>)
    requires
        text::ends_with(head, marker),
        0 < marker.len() <= head.len(),
        forall|k: int|
            0 <= k < head.len() - marker.len() ==> !text::occurs_at(head + digits, marker, k),
        text::all_digits(digits),
        digits.len() > 0,
        text::digits_value(digits) <= u32::MAX,
    ensures
        number_after(head + digits, marker) == Some(text::digits_value(digits)),
{
    let s = head + digits;
    let at = head.len() - marker.len();
    assert(s.subrange(at, at + marker.len()) =~= head.skip(at));
    assert(text::occurs_at(s, marker, at));
    lemma_first_place(s, marker, 0, at);
    assert forall|k: int| head.len() <= k < s.len() implies text::is_digit(#[trigger] s[k]) by {
        assert(s[k] == digits[k - head.len()]);
    }
    lemma_digits_run(s, head.len() as int, s.len() as int);
    assert(s.subrange(head.len() as int, s.len() as int) =~= digits);
    assert(text::is_digit(digits[0]));
}

/// A key stays as it is when it is cleaned, trimmed and put into lower case.
proof fn lemma_key_is_plain(head: Seq<char>, digits: Seq<char>)
    requires
        head.len() > 0,
        head[0] == 'm',
        forall|k: int| 0 <= k < head.len() ==> text::lower_char(#[trigger] head[k]) == head[k],
        text::all_digits(digits),
        digits.len() > 0,
    ensures
        identifier::clean(head + digits) == head + digits,
        text::trim(head + digits, Class::Space) == head + digits,
        text::lower(head + digits) == head + digits,
{
    let s = head + digits;
    assert(s[0] == 'm');
    assert(s.last() == digits.last());
    assert(text::is_digit(digits[digits.len() - 1]));
    identifier::cleaning_shortens_or_keeps(s);
    assert(text::skip_class(s, Class::Space, 0) == 0);
    assert(s.skip(0) =~= s);
    assert(text::back_class(s, Class::Space, s.len() as int) == s.len());
    assert(s.take(s.len() as int) =~= s);
    assert forall|k: int| 0 <= k < s.len() implies #[trigger] text::lower(s)[k] == s[k] by {
        if k >= head.len() {
            assert(s[k] == digits[k - head.len()]);
            assert(text::is_digit(digits[k - head.len()]));
        }
    }
    assert(text::lower(s) =~= s);
}

proof fn lemma_boss_key(n: int)
    requires
        0 <= n <= u32::MAX,
    ensures
        canonical_key(monster_key("boss"@, n)) == Some(monster_key("boss"@, n)),
        is_boss_key(monster_key("boss"@, n)),
{
    reveal_strlit("monster:");
    reveal_strlit("boss");
    reveal_strlit("_");
    reveal_strlit("boss_");
    reveal_strlit("worldboss_boss");
    reveal_strlit("weeklyclone_boss");
    reveal_strlit("monster:boss_");
    let digits = text::zero_pad(text::dec(n as nat), 2);
    let head = "monster:boss_"@;
    let s = head + digits;
    lemma_key_digits(n as nat);
    assert(monster_key("boss"@, n) =~= s);
    lemma_key_is_plain(head, digits);
    assert forall|k: int| 0 <= k < s.len() implies #[trigger] s[k] != 'w' by {
        if k >= head.len() {
            assert(s[k] == digits[k - head.len()]);
            assert(text::is_digit(digits[k - head.len()]));
        }
    }
    lemma_find_without_first(s, "worldboss_boss"@, 0);
    lemma_find_without_first(s, "weeklyclone_boss"@, 0);
    assert forall|k: int| 0 <= k < head.len() - 5 implies !text::occurs_at(s, "boss_"@, k) by {
        assert(s.subrange(k, k + 5)[0] == head[k]);
    }
    assert(head.skip(head.len() - 5) =~= "boss_"@);
    lemma_number_of_key(head, "boss_"@, digits);
    assert(s.take(head.len() as int) =~= head);
}

proof fn lemma_small_monster_key(n: int)
    requires
        0 <= n <= u32::MAX,
    ensures
        canonical_key(monster_key("mon"@, n)) == Some(monster_key("mon"@, n)),
        is_small_monster_key(monster_key("mon"@, n)),
{
    reveal_strlit("monster:");
    reveal_strlit("mon");
    reveal_strlit("_");
    reveal_strlit("mon_");
    reveal_strlit("boss_");
    reveal_strlit("worldboss_boss");
    reveal_strlit("weeklyclone_boss");
    reveal_strlit("monster:mon_");
    let digits = text::zero_pad(text::dec(n as nat), 2);
    let head = "monster:mon_"@;
    let s = head + digits;
    lemma_key_digits(n as nat);
    assert(monster_key("mon"@, n) =~= s);
    lemma_key_is_plain(head, digits);
    assert forall|k: int| 0 <= k < s.len() implies #[trigger] s[k] != 'w' && s[k] != 'b' by {
        if k >= head.len() {
            assert(s[k] == digits[k - head.len()]);
            assert(text::is_digit(digits[k - head.len()]));
        }
    }
    lemma_find_without_first(s, "worldboss_boss"@, 0);
    lemma_find_without_first(s, "weeklyclone_boss"@, 0);
    lemma_find_without_first(s, "boss_"@, 0);
    assert forall|k: int| 0 <= k < head.len() - 4 implies !text::occurs_at(s, "mon_"@, k) by {
        assert(s.subrange(k, k + 4)[0] == head[k]);
        assert(s.subrange(k, k + 4)[3] == head[k + 3]);
    }
    assert(head.skip(head.len() - 4) =~= "mon_"@);
    lemma_number_of_key(head, "mon_"@, digits);
    assert(s.take(head.len() as int) =~= head);
}

/// A canonical key has itself as its canonical key, and it is either that of a boss
/// or that of a small monster.
pub proof fn canonical_keys_are_their_own(path: Seq<char>)
    requires
        canonical_key(path) is Some,
    ensures
        canonical_key(canonical_key(path).unwrap()) == canonical_key(path),
        is_boss_key(canonical_key(path).unwrap()) != is_small_monster_key(
            canonical_key(path).unwrap(),
        ),
{
    let lower = text::lower(identifier::clean(path));
    let base = bare_basename(lower);
    lemma_numbers_fit(lower, "worldboss_boss"@, 1, 0);
    lemma_numbers_fit(lower, "weeklyclone_boss"@, 1, 0);
    lemma_numbers_fit(lower, "boss_"@, 1, 0);
    lemma_numbers_fit(lower, "mon_"@, 1, 0);
    lemma_numbers_fit(base, "boss"@, 1, 0);
    lemma_numbers_fit(base, "mon"@, 1, 0);
    let (prefix, n) = target_number(lower).unwrap();
    if prefix == "boss"@ {
        lemma_boss_key(n);
    } else {
        lemma_small_monster_key(n);
    }
    boss_and_small_monster_keys_are_disjoint(canonical_key(path).unwrap());
}

} // verus!
