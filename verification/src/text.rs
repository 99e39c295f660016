//! Character sequences: the searching, trimming, splitting and number
//! formatting that the rest of the library builds on.
//!
//! Text is modelled as `Seq<char>`. Executable code works on `Vec<char>`, so
//! that every position is a character position, and turns strings into
//! characters and back at its edges.
use vstd::prelude::*;

verus! {

/// `String::push`: the string grows by exactly the given character, at its end.
pub assume_specification[ String::push ](s: &mut String, c: char)
    ensures
        final(s)@ == old(s)@.push(c),
;

/// The characters of a string, in order.
pub fn chars_of(s: &str) -> (out: Vec<char>)
    ensures
        out@ == s@,
{
    let mut out: Vec<char> = Vec::new();
    for c in it: s.chars()
        invariant
            out@ == it.seq().take(it.index() as int),
            it.seq() == s@,
    {
        out.push(c);
    }
    out
}

/// The string made of the given characters.
pub fn string_of(chars: &Vec<char>) -> (out: String)
    ensures
        out@ == chars@,
{
    let mut out = String::new();
    let mut i: usize = 0;
    while i < chars.len()
        invariant
            i <= chars.len(),
            out@ == chars@.take(i as int),
        decreases chars.len() - i,
    {
        out.push(chars[i]);
        i += 1;
    }
    out
}

/// The characters of `s` from position `from` up to, not including, `to`.
pub fn part(s: &Vec<char>, from: usize, to: usize) -> (out: Vec<char>)
    requires
        from <= to <= s.len(),
    ensures
        out@ == s@.subrange(from as int, to as int),
{
    let mut out: Vec<char> = Vec::new();
    let mut i: usize = from;
    while i < to
        invariant
            from <= i <= to <= s.len(),
            out@ == s@.subrange(from as int, i as int),
        decreases to - i,
    {
        out.push(s[i]);
        i += 1;
    }
    out
}

/// Whether two character sequences are equal.
pub fn same(a: &Vec<char>, b: &Vec<char>) -> (r: bool)
    ensures
        r == (a@ == b@),
{
    if a.len() != b.len() {
        return false;
    }
    let mut i: usize = 0;
    while i < a.len()
        invariant
            i <= a.len(),
            a.len() == b.len(),
            forall|k: int| 0 <= k < i ==> a@[k] == b@[k],
        decreases a.len() - i,
    {
        if a[i] != b[i] {
            return false;
        }
        i += 1;
    }
    assert(a@ =~= b@);
    true
}

/// Whether two strings hold the same characters.
pub fn same_str(a: &str, b: &str) -> (r: bool)
    ensures
        r == (a@ == b@),
{
    same(&chars_of(a), &chars_of(b))
}

/// The two strings joined.
pub fn concat2(a: &str, b: &str) -> (out: String)
    ensures
        out@ == a@ + b@,
{
    let mut out = a.to_owned();
    out.append(b);
    out
}

/// The three strings joined.
pub fn concat3(a: &str, b: &str, c: &str) -> (out: String)
    ensures
        out@ == a@ + b@ + c@,
{
    let mut out = a.to_owned();
    out.append(b);
    out.append(c);
    out
}

// ---------------------------------------------------------------- letter case

/// An ASCII upper-case letter becomes the lower-case one; any other character
/// stays.
pub open spec fn lower_char(c: char) -> char {
    if 'A' <= c && c <= 'Z' {
        ((c as u32) + 32) as char
    } else {
        c
    }
}

/// `s` with its ASCII letters in lower case.
pub open spec fn lower(s: Seq<char>) -> Seq<char> {
    s.map_values(|c: char| lower_char(c))
}

/// The text with its ASCII letters in upper case.
pub open spec fn upper(s: Seq<char>) -> Seq<char> {
    s.map_values(|c: char| upper_char(c))
}

pub open spec fn upper_char(c: char) -> char {
    if 'a' <= c <= 'z' {
        (c as int - 32) as char
    } else {
        c
    }
}

/// Upper case changes nothing but the case.
pub proof fn lower_case_forgets_upper_case(s: Seq<char>)
    ensures
        lower(upper(s)) == lower(s),
{
    assert forall|i: int| 0 <= i < s.len() implies #[trigger] lower(upper(s))[i] == lower(s)[i] by {
        assert(upper(s)[i] == upper_char(s[i]));
    }
    assert(lower(upper(s)) =~= lower(s));
}

pub fn to_lower_char(c: char) -> (r: char)
    ensures
        r == lower_char(c),
{
    if 'A' <= c && c <= 'Z' {
        ((c as u8) + 32) as char
    } else {
        c
    }
}

pub fn to_lower(s: &Vec<char>) -> (out: Vec<char>)
    ensures
        out@ == lower(s@),
{
    let mut out: Vec<char> = Vec::new();
    let mut i: usize = 0;
    while i < s.len()
        invariant
            i <= s.len(),
            out@ == lower(s@.take(i as int)),
        decreases s.len() - i,
    {
        out.push(to_lower_char(s[i]));
        i += 1;
        assert(out@ =~= lower(s@.take(i as int)));
    }
    assert(s@.take(i as int) =~= s@);
    out
}

/// The characters of `s`, with ASCII letters in lower case.
pub fn lower_of(s: &str) -> (out: Vec<char>)
    ensures
        out@ == lower(s@),
{
    to_lower(&chars_of(s))
}

// ------------------------------------------------------------------ searching

/// `needle` stands in `s` at position `i`.
pub open spec fn occurs_at(s: Seq<char>, needle: Seq<char>, i: int) -> bool {
    0 <= i && i + needle.len() <= s.len() && s.subrange(i, i + needle.len()) == needle
}

/// `needle` stands somewhere in `s`.
pub open spec fn contains(s: Seq<char>, needle: Seq<char>) -> bool {
    exists|i: int| occurs_at(s, needle, i)
}

/// The first position, not before `i`, at which `needle` stands in `s`.
pub open spec fn find_from(s: Seq<char>, needle: Seq<char>, i: int) -> Option<int>
    decreases s.len() + 1 - i,
{
    if i < 0 || i + needle.len() > s.len() {
        None
    } else if occurs_at(s, needle, i) {
        Some(i)
    } else {
        find_from(s, needle, i + 1)
    }
}

/// The first position at which `needle` stands in `s`.
pub open spec fn find(s: Seq<char>, needle: Seq<char>) -> Option<int> {
    find_from(s, needle, 0)
}

/// What `find_from` finds is an occurrence, none stands before it, and there is
/// none at all where it finds nothing.
pub proof fn lemma_find_from(s: Seq<char>, needle: Seq<char>, i: int)
    requires
        0 <= i,
    ensures
        match find_from(s, needle, i) {
            Some(p) => {
                &&& i <= p
                &&& occurs_at(s, needle, p)
                &&& forall|k: int| i <= k < p ==> !occurs_at(s, needle, k)
            },
            None => forall|k: int| i <= k ==> !occurs_at(s, needle, k),
        },
    decreases s.len() + 1 - i,
{
    if i + needle.len() <= s.len() && !occurs_at(s, needle, i) {
        lemma_find_from(s, needle, i + 1);
    }
}

pub proof fn lemma_contains_iff_found(s: Seq<char>, needle: Seq<char>)
    ensures
        contains(s, needle) <==> find(s, needle) is Some,
{
    lemma_find_from(s, needle, 0);
    if contains(s, needle) {
        let k = choose|k: int| occurs_at(s, needle, k);
        assert(occurs_at(s, needle, k));
    }
}

pub fn is_at(s: &Vec<char>, needle: &Vec<char>, i: usize) -> (r: bool)
    ensures
        r == occurs_at(s@, needle@, i as int),
{
    if needle.len() > s.len() || i > s.len() - needle.len() {
        return false;
    }
    let mut k: usize = 0;
    while k < needle.len()
        invariant
            k <= needle.len(),
            i + needle.len() <= s.len(),
            forall|m: int| 0 <= m < k ==> s@[i + m] == needle@[m],
        decreases needle.len() - k,
    {
        if s[i + k] != needle[k] {
            assert(s@.subrange(i as int, i + needle.len())[k as int] == s@[i + k]);
            return false;
        }
        k += 1;
    }
    assert(s@.subrange(i as int, i + needle.len()) =~= needle@);
    true
}

pub fn find_pos(s: &Vec<char>, needle: &Vec<char>, from: usize) -> (r: Option<usize>)
    ensures
        match r {
            Some(p) => find_from(s@, needle@, from as int) == Some(p as int),
            None => find_from(s@, needle@, from as int) is None,
        },
        r matches Some(p) ==> from <= p && p + needle.len() <= s.len(),
{
    let mut i: usize = from;
    while needle.len() <= s.len() && i <= s.len() - needle.len()
        invariant
            from <= i,
            find_from(s@, needle@, from as int) == find_from(s@, needle@, i as int),
        decreases s.len() + 1 - i,
    {
        if is_at(s, needle, i) {
            return Some(i);
        }
        if i == usize::MAX {
            return None;
        }
        i += 1;
    }
    None
}

/// Whether `needle` stands in `s`.
pub fn has(s: &Vec<char>, needle: &str) -> (r: bool)
    ensures
        r == contains(s@, needle@),
{
    let needle_chars = chars_of(needle);
    let found = find_pos(s, &needle_chars, 0);
    proof {
        lemma_contains_iff_found(s@, needle@);
    }
    found.is_some()
}

pub open spec fn starts_with(s: Seq<char>, prefix: Seq<char>) -> bool {
    prefix.len() <= s.len() && s.take(prefix.len() as int) == prefix
}

pub open spec fn ends_with(s: Seq<char>, suffix: Seq<char>) -> bool {
    suffix.len() <= s.len() && s.skip(s.len() - suffix.len()) == suffix
}

pub fn starts(s: &Vec<char>, prefix: &str) -> (r: bool)
    ensures
        r == starts_with(s@, prefix@),
        r ==> prefix@.len() <= s.len(),
{
    let p = chars_of(prefix);
    let r = is_at(s, &p, 0);
    assert(prefix@.len() <= s.len() ==> s@.take(prefix@.len() as int) =~= s@.subrange(
        0,
        prefix@.len() as int,
    ));
    r
}

pub fn ends(s: &Vec<char>, suffix: &str) -> (r: bool)
    ensures
        r == ends_with(s@, suffix@),
{
    let p = chars_of(suffix);
    if p.len() > s.len() {
        return false;
    }
    let r = is_at(s, &p, s.len() - p.len());
    assert(s@.skip(s.len() - p.len()) =~= s@.subrange(
        s.len() - p.len(),
        (s.len() - p.len()) + p.len(),
    ));
    r
}

/// What follows `prefix`, where `s` starts with it.
pub open spec fn strip_prefix(s: Seq<char>, prefix: Seq<char>) -> Option<Seq<char>> {
    if starts_with(s, prefix) {
        Some(s.skip(prefix.len() as int))
    } else {
        None
    }
}

/// What precedes `suffix`, where `s` ends with it.
pub open spec fn strip_suffix(s: Seq<char>, suffix: Seq<char>) -> Option<Seq<char>> {
    if ends_with(s, suffix) {
        Some(s.take(s.len() - suffix.len()))
    } else {
        None
    }
}

/// The view of an optional character vector.
pub open spec fn opt_chars(o: Option<Vec<char>>) -> Option<Seq<char>> {
    match o {
        Some(v) => Some(v@),
        None => None,
    }
}

/// The view of an optional string.
pub open spec fn opt_text(o: Option<String>) -> Option<Seq<char>> {
    match o {
        Some(v) => Some(v@),
        None => None,
    }
}

/// The contents of a text that may be missing.
pub open spec fn opt_str(o: Option<&str>) -> Option<Seq<char>> {
    match o {
        Some(s) => Some(s@),
        None => None,
    }
}

pub fn without_prefix(s: &Vec<char>, prefix: &str) -> (r: Option<Vec<char>>)
    ensures
        opt_chars(r) == strip_prefix(s@, prefix@),
{
    if starts(s, prefix) {
        let n = chars_of(prefix).len();
        Some(part(s, n, s.len()))
    } else {
        None
    }
}

pub fn without_suffix(s: &Vec<char>, suffix: &str) -> (r: Option<Vec<char>>)
    ensures
        opt_chars(r) == strip_suffix(s@, suffix@),
{
    if ends(s, suffix) {
        let n = chars_of(suffix).len();
        Some(part(s, 0, s.len() - n))
    } else {
        None
    }
}

// ------------------------------------------------------------ character classes

/// Sets of characters that text is trimmed of or cut at.
#[derive(Clone, Copy)]
pub enum Class {
    /// Unicode white space.
    Space,
    /// Control characters.
    Control,
    /// White space within ASCII.
    AsciiSpace,
    /// ASCII white space, `:`, `=` and `#`: what may stand between a key and its
    /// value.
    KeyLead,
    /// ASCII white space, `,`, `;`, `|` and the zero character: what ends a value.
    ValueEnd,
    /// Dashes, colons and the space that set a comment apart.
    Dash,
    /// Square brackets.
    Bracket,
    /// ASCII decimal digits.
    Digit,
    /// One given character.
    Only(char),
}

pub open spec fn is_space(c: char) -> bool {
    ||| '\u{9}' <= c && c <= '\u{d}'
    ||| c == ' '
    ||| c == '\u{85}'
    ||| c == '\u{a0}'
    ||| c == '\u{1680}'
    ||| '\u{2000}' <= c && c <= '\u{200a}'
    ||| c == '\u{2028}'
    ||| c == '\u{2029}'
    ||| c == '\u{202f}'
    ||| c == '\u{205f}'
    ||| c == '\u{3000}'
}

pub open spec fn is_control(c: char) -> bool {
    c <= '\u{1f}' || ('\u{7f}' <= c && c <= '\u{9f}')
}

pub open spec fn is_ascii_space(c: char) -> bool {
    c == ' ' || c == '\t' || c == '\n' || c == '\u{c}' || c == '\r'
}

pub open spec fn is_digit(c: char) -> bool {
    '0' <= c && c <= '9'
}

pub open spec fn is_ascii_alnum(c: char) -> bool {
    ('0' <= c && c <= '9') || ('a' <= c && c <= 'z') || ('A' <= c && c <= 'Z')
}

impl Class {
    pub open spec fn holds(self, c: char) -> bool {
        match self {
            Class::Space => is_space(c),
            Class::Control => is_control(c),
            Class::AsciiSpace => is_ascii_space(c),
            Class::KeyLead => is_ascii_space(c) || c == ':' || c == '=' || c == '#',
            Class::ValueEnd => is_ascii_space(c) || c == ',' || c == ';' || c == '|' || c
                == '\u{0}',
            Class::Dash => c == '-' || c == '\u{ff0d}' || c == '\u{2014}' || c == ':' || c
                == '\u{ff1a}' || c == ' ',
            Class::Bracket => c == '[' || c == ']',
            Class::Digit => is_digit(c),
            Class::Only(x) => c == x,
        }
    }

    pub fn has(self, c: char) -> (r: bool)
        ensures
            r == self.holds(c),
    {
        match self {
            Class::Space => space_char(c),
            Class::Control => control_char(c),
            Class::AsciiSpace => ascii_space_char(c),
            Class::KeyLead => ascii_space_char(c) || c == ':' || c == '=' || c == '#',
            Class::ValueEnd => ascii_space_char(c) || c == ',' || c == ';' || c == '|' || c
                == '\u{0}',
            Class::Dash => c == '-' || c == '\u{ff0d}' || c == '\u{2014}' || c == ':' || c
                == '\u{ff1a}' || c == ' ',
            Class::Bracket => c == '[' || c == ']',
            Class::Digit => digit_char(c),
            Class::Only(x) => c == x,
        }
    }
}

fn space_char(c: char) -> (r: bool)
    ensures
        r == is_space(c),
{
    ('\u{9}' <= c && c <= '\u{d}') || c == ' ' || c == '\u{85}' || c == '\u{a0}' || c == '\u{1680}'
        || ('\u{2000}' <= c && c <= '\u{200a}') || c == '\u{2028}' || c == '\u{2029}' || c
        == '\u{202f}' || c == '\u{205f}' || c == '\u{3000}'
}

fn control_char(c: char) -> (r: bool)
    ensures
        r == is_control(c),
{
    c <= '\u{1f}' || ('\u{7f}' <= c && c <= '\u{9f}')
}

fn ascii_space_char(c: char) -> (r: bool)
    ensures
        r == is_ascii_space(c),
{
    c == ' ' || c == '\t' || c == '\n' || c == '\u{c}' || c == '\r'
}

pub fn digit_char(c: char) -> (r: bool)
    ensures
        r == is_digit(c),
{
    '0' <= c && c <= '9'
}

// ------------------------------------------------------------------- trimming

/// The first position, not before `i`, whose character is outside the class;
/// the length where there is none.
pub open spec fn skip_class(s: Seq<char>, class: Class, i: int) -> int
    decreases s.len() - i,
{
    if 0 <= i < s.len() && class.holds(s[i]) {
        skip_class(s, class, i + 1)
    } else {
        i
    }
}

/// The first position, not before `i`, whose character is in the class; the
/// length where there is none.
pub open spec fn seek_class(s: Seq<char>, class: Class, i: int) -> int
    decreases s.len() - i,
{
    if 0 <= i < s.len() && !class.holds(s[i]) {
        seek_class(s, class, i + 1)
    } else {
        i
    }
}

/// The end of `s[..j]` without the characters of the class that stand last in it.
pub open spec fn back_class(s: Seq<char>, class: Class, j: int) -> int
    decreases j,
{
    if 0 < j <= s.len() && class.holds(s[j - 1]) {
        back_class(s, class, j - 1)
    } else {
        j
    }
}

pub proof fn lemma_skip_class_bounds(s: Seq<char>, class: Class, i: int)
    requires
        0 <= i <= s.len(),
    ensures
        i <= skip_class(s, class, i) <= s.len(),
        i <= seek_class(s, class, i) <= s.len(),
    decreases s.len() - i,
{
    if i < s.len() {
        lemma_skip_class_bounds(s, class, i + 1);
    }
}

pub proof fn lemma_back_class_bounds(s: Seq<char>, class: Class, j: int)
    requires
        0 <= j <= s.len(),
    ensures
        0 <= back_class(s, class, j) <= j,
    decreases j,
{
    if 0 < j && class.holds(s[j - 1]) {
        lemma_back_class_bounds(s, class, j - 1);
    }
}

/// `s` without the characters of the class at its start.
pub open spec fn trim_start(s: Seq<char>, class: Class) -> Seq<char> {
    s.skip(skip_class(s, class, 0))
}

/// `s` without the characters of the class at its end.
pub open spec fn trim_end(s: Seq<char>, class: Class) -> Seq<char> {
    s.take(back_class(s, class, s.len() as int))
}

/// `s` without the characters of the class at either end.
pub open spec fn trim(s: Seq<char>, class: Class) -> Seq<char> {
    trim_end(trim_start(s, class), class)
}

/// What precedes the first character of the class.
pub open spec fn until(s: Seq<char>, class: Class) -> Seq<char> {
    s.take(seek_class(s, class, 0))
}

pub fn skip_pos(s: &Vec<char>, class: Class, from: usize) -> (r: usize)
    requires
        from <= s.len(),
    ensures
        r == skip_class(s@, class, from as int),
        from <= r <= s.len(),
{
    let mut i: usize = from;
    while i < s.len() && class.has(s[i])
        invariant
            from <= i <= s.len(),
            skip_class(s@, class, from as int) == skip_class(s@, class, i as int),
        decreases s.len() - i,
    {
        i += 1;
    }
    i
}

pub fn seek_pos(s: &Vec<char>, class: Class, from: usize) -> (r: usize)
    requires
        from <= s.len(),
    ensures
        r == seek_class(s@, class, from as int),
        from <= r <= s.len(),
{
    let mut i: usize = from;
    while i < s.len() && !class.has(s[i])
        invariant
            from <= i <= s.len(),
            seek_class(s@, class, from as int) == seek_class(s@, class, i as int),
        decreases s.len() - i,
    {
        i += 1;
    }
    i
}

pub fn trimmed_start(s: &Vec<char>, class: Class) -> (out: Vec<char>)
    ensures
        out@ == trim_start(s@, class),
{
    let i = skip_pos(s, class, 0);
    part(s, i, s.len())
}

pub fn trimmed_end(s: &Vec<char>, class: Class) -> (out: Vec<char>)
    ensures
        out@ == trim_end(s@, class),
{
    let mut j: usize = s.len();
    while j > 0 && class.has(s[j - 1])
        invariant
            j <= s.len(),
            back_class(s@, class, s@.len() as int) == back_class(s@, class, j as int),
        decreases j,
    {
        j -= 1;
    }
    part(s, 0, j)
}

pub fn trimmed(s: &Vec<char>, class: Class) -> (out: Vec<char>)
    ensures
        out@ == trim(s@, class),
{
    trimmed_end(&trimmed_start(s, class), class)
}

pub fn head_until(s: &Vec<char>, class: Class) -> (out: Vec<char>)
    ensures
        out@ == until(s@, class),
{
    let i = seek_pos(s, class, 0);
    part(s, 0, i)
}

/// Trimming leaves no character of the class at either end.
pub proof fn trim_leaves_clean_ends(s: Seq<char>, class: Class)
    ensures
        trim(s, class).len() > 0 ==> !class.holds(trim(s, class)[0]) && !class.holds(
            trim(s, class).last(),
        ),
{
    let a = trim_start(s, class);
    lemma_skip_class_stops(s, class, 0);
    lemma_skip_class_bounds(s, class, 0);
    lemma_back_class_stops(a, class, a.len() as int);
    lemma_back_class_bounds(a, class, a.len() as int);
}

proof fn lemma_skip_class_stops(s: Seq<char>, class: Class, i: int)
    requires
        0 <= i <= s.len(),
    ensures
        skip_class(s, class, i) < s.len() ==> !class.holds(s[skip_class(s, class, i)]),
    decreases s.len() - i,
{
    if i < s.len() && class.holds(s[i]) {
        lemma_skip_class_stops(s, class, i + 1);
    }
}

proof fn lemma_back_class_stops(s: Seq<char>, class: Class, j: int)
    requires
        0 <= j <= s.len(),
    ensures
        back_class(s, class, j) > 0 ==> !class.holds(s[back_class(s, class, j) - 1]),
    decreases j,
{
    if 0 < j && class.holds(s[j - 1]) {
        lemma_back_class_stops(s, class, j - 1);
    }
}

/// `s` without the repetitions of `suffix` at its end.
pub open spec fn trim_end_text(s: Seq<char>, suffix: Seq<char>) -> Seq<char>
    decreases s.len(),
{
    if suffix.len() > 0 && ends_with(s, suffix) {
        trim_end_text(s.take(s.len() - suffix.len()), suffix)
    } else {
        s
    }
}

/// `s` without the repetitions of `prefix` at its start.
pub open spec fn trim_start_text(s: Seq<char>, prefix: Seq<char>) -> Seq<char>
    decreases s.len(),
{
    if prefix.len() > 0 && starts_with(s, prefix) {
        trim_start_text(s.skip(prefix.len() as int), prefix)
    } else {
        s
    }
}

pub fn trimmed_end_text(s: &Vec<char>, suffix: &str) -> (out: Vec<char>)
    ensures
        out@ == trim_end_text(s@, suffix@),
{
    let n = chars_of(suffix).len();
    let mut out = part(s, 0, s.len());
    assert(out@ =~= s@);
    while n > 0 && ends(&out, suffix)
        invariant
            n == suffix@.len(),
            trim_end_text(s@, suffix@) == trim_end_text(out@, suffix@),
        decreases out.len(),
    {
        let next = part(&out, 0, out.len() - n);
        assert(next@ =~= out@.take(out@.len() - suffix@.len()));
        out = next;
    }
    out
}

pub fn trimmed_start_text(s: &Vec<char>, prefix: &str) -> (out: Vec<char>)
    ensures
        out@ == trim_start_text(s@, prefix@),
{
    let n = chars_of(prefix).len();
    let mut out = part(s, 0, s.len());
    assert(out@ =~= s@);
    while n > 0 && starts(&out, prefix)
        invariant
            n == prefix@.len(),
            trim_start_text(s@, prefix@) == trim_start_text(out@, prefix@),
        decreases out.len(),
    {
        let next = part(&out, n, out.len());
        assert(next@ =~= out@.skip(prefix@.len() as int));
        out = next;
    }
    out
}

// ------------------------------------------------------------------ splitting

/// The last position of `c` in `s[..j]`, if any.
pub open spec fn rfind_char(s: Seq<char>, c: char, j: int) -> Option<int>
    decreases j,
{
    if j <= 0 || j > s.len() {
        None
    } else if s[j - 1] == c {
        Some(j - 1)
    } else {
        rfind_char(s, c, j - 1)
    }
}

pub fn rfind_char_pos(s: &Vec<char>, c: char) -> (r: Option<usize>)
    ensures
        match r {
            Some(p) => rfind_char(s@, c, s@.len() as int) == Some(p as int) && p < s.len() && s@[p as int] == c,
            None => rfind_char(s@, c, s@.len() as int) is None,
        },
{
    let mut j: usize = s.len();
    while j > 0
        invariant
            j <= s.len(),
            rfind_char(s@, c, s@.len() as int) == rfind_char(s@, c, j as int),
        decreases j,
    {
        if s[j - 1] == c {
            return Some(j - 1);
        }
        j -= 1;
    }
    None
}

/// What follows the last `c`; all of `s` where `c` does not occur.
pub open spec fn after_last(s: Seq<char>, c: char) -> Seq<char> {
    match rfind_char(s, c, s.len() as int) {
        Some(p) => s.skip(p + 1),
        None => s,
    }
}

pub fn after_last_char(s: &Vec<char>, c: char) -> (out: Vec<char>)
    ensures
        out@ == after_last(s@, c),
{
    match rfind_char_pos(s, c) {
        Some(p) => part(s, p + 1, s.len()),
        None => {
            let out = part(s, 0, s.len());
            assert(out@ =~= s@);
            out
        },
    }
}

/// The pieces of `s[i..]` between the characters of the class.
pub open spec fn split_from(s: Seq<char>, class: Class, i: int) -> Seq<Seq<char>>
    decreases s.len() + 1 - i,
{
    let e = seek_class(s, class, i);
    if i < 0 || e < i || e >= s.len() {
        seq![s.skip(i)]
    } else {
        seq![s.subrange(i, e)] + split_from(s, class, e + 1)
    }
}

/// The pieces of `s` between the characters of the class.
pub open spec fn split(s: Seq<char>, class: Class) -> Seq<Seq<char>> {
    split_from(s, class, 0)
}

/// The views of the elements.
pub open spec fn views(v: Seq<Vec<char>>) -> Seq<Seq<char>> {
    v.map_values(|x: Vec<char>| x@)
}

/// The views of the strings.
pub open spec fn texts(v: Seq<String>) -> Seq<Seq<char>> {
    v.map_values(|x: String| x@)
}

pub fn split_at_class(s: &Vec<char>, class: Class) -> (out: Vec<Vec<char>>)
    ensures
        views(out@) == split(s@, class),
{
    let mut out: Vec<Vec<char>> = Vec::new();
    let mut i: usize = 0;
    assert(views(out@) + split_from(s@, class, 0) =~= split(s@, class));
    loop
        invariant
            i <= s.len(),
            views(out@) + split_from(s@, class, i as int) == split(s@, class),
        decreases s.len() - i,
    {
        let ghost before = views(out@);
        let e = seek_pos(s, class, i);
        if e >= s.len() {
            out.push(part(s, i, s.len()));
            assert(views(out@) =~= before + split_from(s@, class, i as int));
            return out;
        }
        out.push(part(s, i, e));
        proof {
            assert(views(out@) =~= before + seq![s@.subrange(i as int, e as int)]);
            assert(before + split_from(s@, class, i as int) =~= views(out@) + split_from(
                s@,
                class,
                e + 1,
            ));
        }
        i = e + 1;
    }
}

/// The parts joined, with `sep` between each two.
pub open spec fn join(parts: Seq<Seq<char>>, sep: Seq<char>) -> Seq<char>
    decreases parts.len(),
{
    if parts.len() == 0 {
        Seq::empty()
    } else if parts.len() == 1 {
        parts[0]
    } else {
        join(parts.drop_last(), sep) + sep + parts.last()
    }
}

pub fn join_strings(parts: &Vec<String>, sep: &str) -> (out: String)
    ensures
        out@ == join(texts(parts@), sep@),
{
    let mut out = String::new();
    let mut i: usize = 0;
    while i < parts.len()
        invariant
            i <= parts.len(),
            out@ == join(texts(parts@.take(i as int)), sep@),
        decreases parts.len() - i,
    {
        if i > 0 {
            out.append(sep);
        }
        out.append(parts[i].as_str());
        proof {
            let t = texts(parts@.take(i + 1));
            assert(t.drop_last() =~= texts(parts@.take(i as int)));
            assert(t.last() == parts@[i as int]@);
            if i == 0 {
                assert(Seq::<char>::empty() + parts@[0]@ =~= parts@[0]@);
            }
        }
        i += 1;
    }
    assert(parts@.take(i as int) =~= parts@);
    out
}

// -------------------------------------------------------------------- numbers

pub open spec fn digit(d: nat) -> char {
    if d < 10 {
        (48 + d) as char
    } else {
        (87 + d) as char
    }
}

/// `n` in decimal.
pub open spec fn dec(n: nat) -> Seq<char>
    decreases n,
{
    if n < 10 {
        seq![digit(n)]
    } else {
        dec(n / 10).push(digit(n % 10))
    }
}

/// `n` in lower-case hexadecimal.
pub open spec fn hex(n: nat) -> Seq<char>
    decreases n,
{
    if n < 16 {
        seq![digit(n)]
    } else {
        hex(n / 16).push(digit(n % 16))
    }
}

/// `s` with zeros before it up to the given length.
pub open spec fn zero_pad(s: Seq<char>, width: int) -> Seq<char> {
    if s.len() >= width {
        s
    } else {
        Seq::new((width - s.len()) as nat, |i: int| '0') + s
    }
}

/// `n` in decimal, with a minus sign where it is negative.
pub open spec fn signed_dec(n: int) -> Seq<char> {
    if n < 0 {
        seq!['-'] + dec((-n) as nat)
    } else {
        dec(n as nat)
    }
}

fn digit_of(d: u8) -> (c: char)
    requires
        d < 16,
    ensures
        c == digit(d as nat),
{
    if d < 10 {
        (48 + d) as char
    } else {
        (87 + d) as char
    }
}

pub fn dec_string(n: u64) -> (out: String)
    ensures
        out@ == dec(n as nat),
    decreases n,
{
    if n < 10 {
        let mut out = String::new();
        out.push(digit_of(n as u8));
        out
    } else {
        let mut out = dec_string(n / 10);
        out.push(digit_of((n % 10) as u8));
        out
    }
}

pub fn long_dec_string(n: u128) -> (out: String)
    ensures
        out@ == dec(n as nat),
    decreases n,
{
    if n < 10 {
        let mut out = String::new();
        out.push(digit_of(n as u8));
        out
    } else {
        let mut out = long_dec_string(n / 10);
        out.push(digit_of((n % 10) as u8));
        out
    }
}

pub fn hex_string(n: u64) -> (out: String)
    ensures
        out@ == hex(n as nat),
    decreases n,
{
    if n < 16 {
        let mut out = String::new();
        out.push(digit_of(n as u8));
        out
    } else {
        let mut out = hex_string(n / 16);
        out.push(digit_of((n % 16) as u8));
        out
    }
}

pub fn signed_dec_string(n: i64) -> (out: String)
    ensures
        out@ == signed_dec(n as int),
{
    if n < 0 {
        let magnitude: u64 = if n == i64::MIN { 0x8000_0000_0000_0000u64 } else { (-n) as u64 };
        let digits = dec_string(magnitude);
        let mut out = String::new();
        out.push('-');
        out.append(digits.as_str());
        assert(out@ =~= seq!['-'] + digits@);
        out
    } else {
        dec_string(n as u64)
    }
}

pub fn zero_padded(s: &str, width: usize) -> (out: String)
    ensures
        out@ == zero_pad(s@, width as int),
{
    let n: usize = chars_of(s).len();
    if n >= width {
        return s.to_owned();
    }
    let missing: usize = width - n;
    let mut out = String::new();
    let mut i: usize = 0;
    while i < missing
        invariant
            i <= missing,
            out@ =~= Seq::new(i as nat, |k: int| '0'),
        decreases missing - i,
    {
        out.push('0');
        i += 1;
    }
    out.append(s);
    out
}

/// Every character is an ASCII digit.
pub open spec fn all_digits(s: Seq<char>) -> bool {
    forall|i: int| 0 <= i < s.len() ==> is_digit(#[trigger] s[i])
}

/// The number that a sequence of digits writes.
pub open spec fn digits_value(s: Seq<char>) -> int
    decreases s.len(),
{
    if s.len() == 0 {
        0
    } else {
        digits_value(s.drop_last()) * 10 + (s.last() as int - '0' as int)
    }
}

/// The unsigned number, at most `max`, that `s` writes: digits, with one `+`
/// before them or none.
pub open spec fn parse_uint(s: Seq<char>, max: int) -> Option<int> {
    let d = if s.len() > 0 && s[0] == '+' {
        s.skip(1)
    } else {
        s
    };
    if d.len() > 0 && all_digits(d) && digits_value(d) <= max {
        Some(digits_value(d))
    } else {
        None
    }
}

pub proof fn lemma_digits_value_nonnegative(s: Seq<char>)
    requires
        all_digits(s),
    ensures
        digits_value(s) >= 0,
    decreases s.len(),
{
    if s.len() > 0 {
        assert(all_digits(s.drop_last())) by {
            assert forall|i: int| 0 <= i < s.drop_last().len() implies is_digit(
                #[trigger] s.drop_last()[i],
            ) by {
                assert(is_digit(s[i]));
            }
        }
        assert(is_digit(s[s.len() - 1]));
        lemma_digits_value_nonnegative(s.drop_last());
    }
}

/// The value of the digits, where it is at most `max`.
fn digits_up_to(d: &Vec<char>, max: u64) -> (r: Option<u64>)
    ensures
        match r {
            Some(v) => all_digits(d@) && digits_value(d@) == v && v <= max,
            None => !all_digits(d@) || digits_value(d@) > max,
        },
{
    let mut value: u64 = 0;
    let mut over = false;
    let mut i: usize = 0;
    while i < d.len()
        invariant
            i <= d.len(),
            all_digits(d@.take(i as int)),
            over ==> digits_value(d@.take(i as int)) > max,
            !over ==> digits_value(d@.take(i as int)) == value && value <= max,
        decreases d.len() - i,
    {
        let c = d[i];
        if !digit_char(c) {
            assert(!is_digit(d@[i as int]));
            return None;
        }
        proof {
            let t = d@.take(i + 1);
            assert(t.drop_last() =~= d@.take(i as int));
            assert(t.last() == c);
            assert forall|k: int| 0 <= k < t.len() implies is_digit(#[trigger] t[k]) by {
                if k < i {
                    assert(is_digit(d@.take(i as int)[k]));
                }
            }
            lemma_digits_value_nonnegative(d@.take(i as int));
        }
        if !over {
            let next: u128 = (value as u128) * 10 + ((c as u8 - 48) as u128);
            if next > max as u128 {
                over = true;
            } else {
                value = next as u64;
            }
        }
        i += 1;
    }
    assert(d@.take(i as int) =~= d@);
    if over {
        None
    } else {
        Some(value)
    }
}

pub fn parse_number(s: &Vec<char>, max: u64) -> (r: Option<u64>)
    ensures
        match r {
            Some(v) => parse_uint(s@, max as int) == Some(v as int),
            None => parse_uint(s@, max as int) is None,
        },
        r matches Some(v) ==> v <= max,
{
    let from: usize = if s.len() > 0 && s[0] == '+' { 1 } else { 0 };
    let d = part(s, from, s.len());
    assert(from == 1 ==> d@ =~= s@.skip(1));
    assert(from == 0 ==> d@ =~= s@);
    if d.len() == 0 {
        return None;
    }
    digits_up_to(&d, max)
}

// -------------------------------------------------------------------- ordering

/// `a` comes before `b` in the order of their characters.
pub open spec fn text_lt(a: Seq<char>, b: Seq<char>) -> bool
    decreases a.len(),
{
    if b.len() == 0 {
        false
    } else if a.len() == 0 {
        true
    } else if a[0] != b[0] {
        a[0] < b[0]
    } else {
        text_lt(a.skip(1), b.skip(1))
    }
}

/// Whether `a` comes before `b`.
pub fn comes_before(a: &Vec<char>, b: &Vec<char>) -> (r: bool)
    ensures
        r == text_lt(a@, b@),
{
    let mut i: usize = 0;
    assert(a@.skip(0) =~= a@);
    assert(b@.skip(0) =~= b@);
    loop
        invariant
            i <= a.len(),
            i <= b.len(),
            text_lt(a@, b@) == text_lt(a@.skip(i as int), b@.skip(i as int)),
        decreases a.len() - i,
    {
        if i >= b.len() {
            return false;
        }
        if i >= a.len() {
            return true;
        }
        if a[i] != b[i] {
            return a[i] < b[i];
        }
        assert(a@.skip(i as int).skip(1) =~= a@.skip(i + 1));
        assert(b@.skip(i as int).skip(1) =~= b@.skip(i + 1));
        i += 1;
    }
}

/// The order of texts is total.
pub proof fn text_order_is_total(a: Seq<char>, b: Seq<char>)
    ensures
        a != b ==> text_lt(a, b) || text_lt(b, a),
        !(text_lt(a, b) && text_lt(b, a)),
        !text_lt(a, a),
    decreases a.len(),
{
    if a.len() > 0 && b.len() > 0 && a[0] == b[0] {
        text_order_is_total(a.skip(1), b.skip(1));
        if a.skip(1) == b.skip(1) {
            assert forall|i: int| 0 <= i < a.len() implies a[i] == b[i] by {
                if i > 0 {
                    assert(a.skip(1)[i - 1] == b.skip(1)[i - 1]);
                }
            }
            assert(a =~= b);
        }
    }
    if a.len() > 0 {
        text_order_is_total(a.skip(1), a.skip(1));
    }
    if a.len() == 0 && b.len() == 0 {
        assert(a =~= b);
    }
}

/// The order of texts is transitive.
pub proof fn text_order_is_transitive(a: Seq<char>, b: Seq<char>, c: Seq<char>)
    requires
        text_lt(a, b),
        text_lt(b, c),
    ensures
        text_lt(a, c),
    decreases a.len(),
{
    if a.len() > 0 && a[0] == b[0] && b[0] == c[0] {
        text_order_is_transitive(a.skip(1), b.skip(1), c.skip(1));
    }
}

// ---------------------------------------------------------------- UTF-8 length

/// The number of bytes that a character takes in UTF-8.
pub open spec fn utf8_width(c: char) -> int {
    if c <= '\u{7f}' {
        1
    } else if c <= '\u{7ff}' {
        2
    } else if c <= '\u{ffff}' {
        3
    } else {
        4
    }
}

/// The number of bytes that `s` takes in UTF-8.
pub open spec fn utf8_len(s: Seq<char>) -> int
    decreases s.len(),
{
    if s.len() == 0 {
        0
    } else {
        utf8_len(s.drop_last()) + utf8_width(s.last())
    }
}

/// Whether `s` takes at most `max` bytes in UTF-8.
pub fn fits_utf8(s: &Vec<char>, max: u64) -> (r: bool)
    ensures
        r == (utf8_len(s@) <= max),
{
    let mut total: u64 = 0;
    let mut over = false;
    let mut i: usize = 0;
    while i < s.len()
        invariant
            i <= s.len(),
            over ==> utf8_len(s@.take(i as int)) > max,
            !over ==> utf8_len(s@.take(i as int)) == total && total <= max,
        decreases s.len() - i,
    {
        let c = s[i];
        let width: u64 = if c <= '\u{7f}' {
            1
        } else if c <= '\u{7ff}' {
            2
        } else if c <= '\u{ffff}' {
            3
        } else {
            4
        };
        proof {
            let t = s@.take(i + 1);
            assert(t.drop_last() =~= s@.take(i as int));
            assert(t.last() == c);
        }
        if !over {
            if width > max - total {
                over = true;
            } else {
                total += width;
            }
        }
        i += 1;
    }
    assert(s@.take(i as int) =~= s@);
    !over
}

// --------------------------------------------------------------- numbers as text

/// A number in decimal is made of digits, and of at least one.
pub proof fn decimals_are_digits(n: nat)
    ensures
        dec(n).len() > 0,
        forall|k: int| 0 <= k < dec(n).len() ==> is_digit(#[trigger] dec(n)[k]),
    decreases n,
{
    if n >= 10 {
        decimals_are_digits(n / 10);
    }
}

/// The digits of a number write the number.
pub proof fn decimals_read_back(n: nat)
    ensures
        digits_value(dec(n)) == n,
    decreases n,
{
    if n >= 10 {
        decimals_read_back(n / 10);
        assert(dec(n).drop_last() =~= dec(n / 10));
    } else {
        assert(dec(n).drop_last() =~= Seq::<char>::empty());
        assert(digits_value(Seq::<char>::empty()) == 0);
    }
    assert(dec(n).last() == digit(n % 10));
    assert(digit(n % 10) as int - '0' as int == n % 10);
}

/// Different numbers are written differently.
pub proof fn decimals_tell_numbers(a: nat, b: nat)
    requires
        dec(a) == dec(b),
    ensures
        a == b,
    decreases a,
{
    decimals_are_digits(a / 10);
    decimals_are_digits(b / 10);
    assert(dec(a).last() == dec(b).last());
    assert(dec(a).last() == digit(a % 10));
    assert(dec(b).last() == digit(b % 10));
    assert(a % 10 == b % 10);
    if a >= 10 {
        assert(dec(a).drop_last() =~= dec(a / 10));
        assert(b >= 10) by {
            if b < 10 {
                assert(dec(b).len() == 1);
            }
        }
        assert(dec(b).drop_last() =~= dec(b / 10));
        decimals_tell_numbers(a / 10, b / 10);
    } else {
        assert(b < 10) by {
            if b >= 10 {
                assert(dec(a).len() == 1);
                assert(dec(b).drop_last() =~= dec(b / 10));
            }
        }
    }
}

/// A text, a mark and a number tell both the text and the number.
pub proof fn numbered_texts_are_told_apart(a: Seq<char>, m: nat, b: Seq<char>, n: nat)
    requires
        a + "#"@ + dec(m) == b + "#"@ + dec(n),
    ensures
        a == b,
        m == n,
{
    reveal_strlit("#");
    decimals_are_digits(m);
    decimals_are_digits(n);
    let x = dec(m);
    let y = dec(n);
    let s = a + "#"@ + x;
    let t = b + "#"@ + y;
    assert(s.len() == a.len() + 1 + x.len() && t.len() == b.len() + 1 + y.len());
    if x.len() < y.len() {
        assert(s[a.len() as int] == '#');
        assert(t[a.len() as int] == y[a.len() - b.len() - 1]);
        assert(is_digit(y[a.len() - b.len() - 1]));
    } else if y.len() < x.len() {
        assert(t[b.len() as int] == '#');
        assert(s[b.len() as int] == x[b.len() - a.len() - 1]);
        assert(is_digit(x[b.len() - a.len() - 1]));
    } else {
        assert forall|k: int| 0 <= k < a.len() implies a[k] == b[k] by {
            assert(s[k] == a[k] && t[k] == b[k]);
        }
        assert(a =~= b);
        assert forall|k: int| 0 <= k < x.len() implies x[k] == y[k] by {
            assert(s[a.len() + 1 + k] == x[k] && t[b.len() + 1 + k] == y[k]);
        }
        assert(x =~= y);
        decimals_tell_numbers(m, n);
    }
}

/// Parts that are joined begin with the first, and the others follow.
proof fn lemma_join_begins(parts: Seq<Seq<char>>, sep: Seq<char>)
    requires
        parts.len() > 1,
    ensures
        join(parts, sep) == parts[0] + sep + join(parts.skip(1), sep),
    decreases parts.len(),
{
    let rest = parts.skip(1);
    if parts.len() == 2 {
        assert(parts.drop_last() =~= seq![parts[0]]);
        assert(rest[0] == parts[1]);
        assert(join(parts.drop_last(), sep) == parts[0]);
    } else {
        lemma_join_begins(parts.drop_last(), sep);
        assert(parts.drop_last().skip(1) =~= rest.drop_last());
        assert(join(parts, sep) =~= parts[0] + sep + join(rest, sep));
    }
}

proof fn lemma_seek_ends(s: Seq<char>, c: char, i: int, at: int)
    requires
        0 <= i <= at <= s.len(),
        at < s.len() ==> s[at] == c,
        forall|k: int| i <= k < at ==> #[trigger] s[k] != c,
    ensures
        seek_class(s, Class::Only(c), i) == at,
    decreases at - i,
{
    if i < at {
        lemma_seek_ends(s, c, i + 1, at);
    }
}

proof fn lemma_split_joined(s: Seq<char>, c: char, i: int, parts: Seq<Seq<char>>)
    requires
        0 <= i <= s.len(),
        parts.len() > 0,
        forall|k: int| 0 <= k < parts.len() ==> !(#[trigger] parts[k]).contains(c),
        s.skip(i) == join(parts, seq![c]),
    ensures
        split_from(s, Class::Only(c), i) == parts,
    decreases parts.len(),
{
    let first = parts[0];
    let at = i + first.len();
    if parts.len() == 1 {
        assert(s.skip(i) == first);
        assert(at == s.len());
    } else {
        lemma_join_begins(parts, seq![c]);
        assert(s.skip(i) == first + seq![c] + join(parts.skip(1), seq![c]));
        assert(s[at] == s.skip(i)[first.len() as int]);
    }
    assert forall|k: int| i <= k < at implies #[trigger] s[k] != c by {
        assert(s[k] == s.skip(i)[k - i]);
        assert(s.skip(i)[k - i] == first[k - i]);
        assert(first.contains(first[k - i]));
    }
    lemma_seek_ends(s, c, i, at);
    assert(s.subrange(i, at) =~= first) by {
        assert forall|k: int| 0 <= k < first.len() implies s.subrange(i, at)[k] == first[k] by {
            assert(s[i + k] == s.skip(i)[k]);
        }
    }
    if parts.len() == 1 {
        assert(s.skip(i) =~= first);
        assert(split_from(s, Class::Only(c), i) =~= parts);
    } else {
        let rest = parts.skip(1);
        assert(s.skip(at + 1) =~= join(rest, seq![c])) by {
            assert(s.skip(at + 1) =~= s.skip(i).skip(first.len() as int + 1));
        }
        assert forall|k: int| 0 <= k < rest.len() implies !(#[trigger] rest[k]).contains(c) by {
            assert(rest[k] == parts[k + 1]);
        }
        lemma_split_joined(s, c, at + 1, rest);
        assert(split_from(s, Class::Only(c), i) =~= parts);
    }
}

/// Parts that were joined with a sign are told apart again by it, where none holds it.
pub proof fn joined_parts_split_again(parts: Seq<Seq<char>>, c: char)
    requires
        parts.len() > 0,
        forall|k: int| 0 <= k < parts.len() ==> !(#[trigger] parts[k]).contains(c),
    ensures
        split(join(parts, seq![c]), Class::Only(c)) == parts,
{
    let s = join(parts, seq![c]);
    assert(s.skip(0) =~= s);
    lemma_split_joined(s, c, 0, parts);
}

} // verus!
