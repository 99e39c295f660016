//! Names of game objects as they stand in packets and tables.
use vstd::prelude::*;

use crate::text;
use crate::text::Class;

verus! {

/// The identifier without control characters, white space and quotes at its ends.
pub open spec fn clean(value: Seq<char>) -> Seq<char> {
    text::trim(
        text::trim(
            text::trim(
                text::trim(text::trim(value, Class::Control), Class::Space),
                Class::Only('"'),
            ),
            Class::Only('\''),
        ),
        Class::Only('\u{0}'),
    )
}

pub fn clean_identifier(value: &Vec<char>) -> (out: Vec<char>)
    ensures
        out@ == clean(value@),
{
    text::trimmed(
        &text::trimmed(
            &text::trimmed(
                &text::trimmed(&text::trimmed(value, Class::Control), Class::Space),
                Class::Only('"'),
            ),
            Class::Only('\''),
        ),
        Class::Only('\u{0}'),
    )
}

/// The last part of a path: what follows the last slash, and of that what follows
/// the last point.
pub open spec fn basename(path: Seq<char>) -> Seq<char> {
    text::after_last(text::after_last(path, '/'), '.')
}

pub fn basename_of(path: &Vec<char>) -> (out: Vec<char>)
    ensures
        out@ == basename(path@),
{
    text::after_last_char(&text::after_last_char(path, '/'), '.')
}

/// The last position, not after `j`, at which `needle` stands in `s`.
pub open spec fn rfind(s: Seq<char>, needle: Seq<char>, j: int) -> Option<int>
    decreases j + 1,
{
    if j < 0 {
        None
    } else if text::occurs_at(s, needle, j) {
        Some(j)
    } else {
        rfind(s, needle, j - 1)
    }
}

pub fn rfind_pos(s: &Vec<char>, needle: &Vec<char>) -> (r: Option<usize>)
    ensures
        match r {
            Some(p) => rfind(s@, needle@, s@.len() as int) == Some(p as int) && p + needle@.len()
                <= s@.len(),
            None => rfind(s@, needle@, s@.len() as int) is None,
        },
{
    let mut j: usize = s.len();
    loop
        invariant
            j <= s.len(),
            rfind(s@, needle@, s@.len() as int) == rfind(s@, needle@, j as int),
        decreases j,
    {
        if text::is_at(s, needle, j) {
            return Some(j);
        }
        if j == 0 {
            assert(rfind(s@, needle@, -1) is None);
            return None;
        }
        j -= 1;
    }
}

/// What stands before and behind the last occurrence of `sep`.
pub open spec fn rsplit_once(s: Seq<char>, sep: Seq<char>) -> Option<(Seq<char>, Seq<char>)> {
    match rfind(s, sep, s.len() as int) {
        Some(p) => Some((s.take(p), s.skip(p + sep.len()))),
        None => None,
    }
}

pub fn split_last(s: &Vec<char>, sep: &str) -> (r: Option<(Vec<char>, Vec<char>)>)
    ensures
        match r {
            Some((a, b)) => rsplit_once(s@, sep@) == Some((a@, b@)),
            None => rsplit_once(s@, sep@) is None,
        },
{
    let sep_chars = text::chars_of(sep);
    let length: usize = s.len();
    match rfind_pos(s, &sep_chars) {
        Some(p) => {
            let a = text::part(s, 0, p);
            let b = text::part(s, p + sep_chars.len(), length);
            assert(a@ =~= s@.take(p as int));
            assert(b@ =~= s@.skip(p + sep@.len()));
            Some((a, b))
        },
        None => None,
    }
}

pub fn only_digits(s: &Vec<char>) -> (r: bool)
    ensures
        r == text::all_digits(s@),
{
    let mut i: usize = 0;
    while i < s.len()
        invariant
            i <= s.len(),
            forall|k: int| 0 <= k < i ==> text::is_digit(#[trigger] s@[k]),
        decreases s.len() - i,
    {
        if !text::digit_char(s[i]) {
            return false;
        }
        i += 1;
    }
    true
}

/// A character that cleaning leaves at the ends of an identifier.
pub open spec fn ordinary(c: char) -> bool {
    !text::is_control(c) && !text::is_space(c) && c != '"' && c != '\'' && c != '\u{0}'
}

pub proof fn lemma_trim_keeps(s: Seq<char>, class: Class)
    ensures
        text::trim(s, class).len() <= s.len(),
        s.len() > 0 && !class.holds(s[0]) && !class.holds(s.last()) ==> text::trim(s, class) == s,
        s.len() > 0 && !class.holds(s.last()) ==> text::trim(s, class).len() > 0 && text::trim(
            s,
            class,
        ).last() == s.last(),
{
    text::lemma_skip_class_bounds(s, class, 0);
    let a = text::trim_start(s, class);
    text::lemma_back_class_bounds(a, class, a.len() as int);
    if s.len() > 0 && !class.holds(s.last()) {
        lemma_skip_stops_before(s, class, 0, s.len() - 1);
        assert(a.last() == s.last());
        assert(text::trim(s, class) =~= a);
        if !class.holds(s[0]) {
            assert(a =~= s);
        }
    }
}

proof fn lemma_skip_stops_before(s: Seq<char>, class: Class, i: int, k: int)
    requires
        0 <= i <= k < s.len(),
        !class.holds(s[k]),
    ensures
        text::skip_class(s, class, i) <= k,
    decreases k - i,
{
    if i < k && class.holds(s[i]) {
        lemma_skip_stops_before(s, class, i + 1, k);
    }
}

/// Cleaning never lengthens an identifier, and leaves one with ordinary ends as it
/// is.
pub proof fn cleaning_shortens_or_keeps(s: Seq<char>)
    ensures
        clean(s).len() <= s.len(),
        s.len() > 0 && ordinary(s[0]) && ordinary(s.last()) ==> clean(s) == s,
        s.len() > 0 && ordinary(s.last()) ==> clean(s).len() > 0 && clean(s).last() == s.last(),
{
    let a = text::trim(s, Class::Control);
    let b = text::trim(a, Class::Space);
    let c = text::trim(b, Class::Only('"'));
    let d = text::trim(c, Class::Only('\''));
    lemma_trim_keeps(s, Class::Control);
    lemma_trim_keeps(a, Class::Space);
    lemma_trim_keeps(b, Class::Only('"'));
    lemma_trim_keeps(c, Class::Only('\''));
    lemma_trim_keeps(d, Class::Only('\u{0}'));
}

} // verus!
