//! Hints at the classes of objects that packets name.
use std::collections::VecDeque;
use vstd::prelude::*;

use crate::identifier;
use crate::model;
use crate::object_state;
use crate::parser::PacketDirection;
use crate::resource_index;
use crate::resource_index::ResourceIndex;
use crate::target_resolver::TargetConfidence;
use crate::text;
use crate::text::Class;

verus! {

/// How many hints are kept.
pub const MAX_CLASS_HINTS: usize = 256;

#[derive(Clone, Copy, Debug, PartialEq, Eq, Structural)]
pub enum ClassHintSource {
    PathCandidate,
    GameplayEffect,
    TextMarker,
}

/// A class that a packet named.
#[derive(Debug)]
pub struct ClassHint {
    pub timestamp: i64,
    pub packet_index: usize,
    pub direction: PacketDirection,
    pub raw_class: String,
    pub canonical_class: String,
    pub target_name: Option<String>,
    pub source: ClassHintSource,
    pub confidence: TargetConfidence,
}

#[verifier::ext_equal]
pub struct HintView {
    pub timestamp: i64,
    pub packet_index: usize,
    pub direction: PacketDirection,
    pub raw_class: Seq<char>,
    pub canonical_class: Seq<char>,
    pub target_name: Option<Seq<char>>,
    pub source: ClassHintSource,
    pub confidence: TargetConfidence,
}

impl View for ClassHint {
    type V = HintView;

    open spec fn view(&self) -> HintView {
        HintView {
            timestamp: self.timestamp,
            packet_index: self.packet_index,
            direction: self.direction,
            raw_class: self.raw_class@,
            canonical_class: self.canonical_class@,
            target_name: text::opt_text(self.target_name),
            source: self.source,
            confidence: self.confidence,
        }
    }
}

pub open spec fn hint_views(v: Seq<ClassHint>) -> Seq<HintView> {
    v.map_values(|h: ClassHint| h@)
}

impl ClassHint {
    fn copy(&self) -> (r: ClassHint)
        ensures
            r@ == self@,
    {
        let target_name = match &self.target_name {
            Some(name) => Some(name.as_str().to_owned()),
            None => None,
        };
        let r = ClassHint {
            timestamp: self.timestamp,
            packet_index: self.packet_index,
            direction: self.direction,
            raw_class: self.raw_class.as_str().to_owned(),
            canonical_class: self.canonical_class.as_str().to_owned(),
            target_name,
            source: self.source,
            confidence: self.confidence,
        };
        assert(r@ =~= self@);
        r
    }
}

// -------------------------------------------------------------------- class names

/// The text, in lower case, speaks of a target.
pub open spec fn speaks_of_target(lower: Seq<char>) -> bool {
    text::contains(lower, "mon_"@) || text::contains(lower, "boss_"@) || text::contains(
        lower,
        "worldboss"@,
    ) || text::contains(lower, "/monster/"@) || text::contains(lower, "/boss/"@)
        || text::contains(lower, "enemy"@) || text::contains(lower, "htcharacter"@)
}

/// The text, in lower case, speaks of what belongs to a target but is none.
pub open spec fn speaks_of_else(lower: Seq<char>) -> bool {
    text::contains(lower, "buff"@) || text::contains(lower, "ability"@) || text::contains(
        lower,
        "player"@,
    ) || text::contains(lower, "map_bigworld/_generated_"@) || text::contains(lower, "animation"@)
        || text::contains(lower, "passiveeffect"@) || text::contains(lower, "/ui/"@)
        || text::contains(lower, "effect"@) || text::contains(lower, "drop_"@)
}

/// The text without the separator and the digits behind its last occurrence, where
/// at least `least` digits, and nothing else, follow it.
pub open spec fn without_number(value: Seq<char>, sep: Seq<char>, least: int) -> Seq<char> {
    match identifier::rsplit_once(value, sep) {
        Some((head, tail)) => if tail.len() >= least && text::all_digits(tail) {
            head
        } else {
            value
        },
        None => value,
    }
}

/// The name of the class in a path: its last part, without quotation marks and
/// without what marks a default object, a class or an instance.
pub open spec fn bare_class(path: Seq<char>) -> Seq<char> {
    let a = text::trim(
        text::trim(identifier::basename(path), Class::Only('"')),
        Class::Only('\''),
    );
    let b = match text::strip_prefix(a, "Default__"@) {
        Some(s) => s,
        None => a,
    };
    let c = match text::strip_suffix(b, "_C"@) {
        Some(s) => s,
        None => b,
    };
    without_number(without_number(c, "_C_"@, 0), "_"@, 6)
}

/// The class that a text hints at, where it speaks of a target.
pub open spec fn hinted_class(raw: Seq<char>) -> Option<Seq<char>> {
    let t = text::trim(text::trim(raw, Class::Control), Class::Space);
    let l = text::lower(t);
    if t.len() == 0 || !speaks_of_target(l) || speaks_of_else(l) || bare_class(t).len() == 0 {
        None
    } else {
        Some(bare_class(t))
    }
}

fn is_targetish_class_hint(lower: &Vec<char>) -> (r: bool)
    ensures
        r == speaks_of_target(lower@),
{
    text::has(lower, "mon_") || text::has(lower, "boss_") || text::has(lower, "worldboss")
        || text::has(lower, "/monster/") || text::has(lower, "/boss/") || text::has(lower, "enemy")
        || text::has(lower, "htcharacter")
}

fn is_excluded_class_hint(lower: &Vec<char>) -> (r: bool)
    ensures
        r == speaks_of_else(lower@),
{
    text::has(lower, "buff") || text::has(lower, "ability") || text::has(lower, "player")
        || text::has(lower, "map_bigworld/_generated_") || text::has(lower, "animation")
        || text::has(lower, "passiveeffect") || text::has(lower, "/ui/") || text::has(
        lower,
        "effect",
    ) || text::has(lower, "drop_")
}

fn drop_number(value: Vec<char>, sep: &str, least: usize) -> (out: Vec<char>)
    ensures
        out@ == without_number(value@, sep@, least as int),
{
    match identifier::split_last(&value, sep) {
        Some((head, tail)) => if tail.len() >= least && identifier::only_digits(&tail) {
            head
        } else {
            value
        },
        None => value,
    }
}

/// The class that a text hints at.
pub fn canonicalize_class_hint(raw: &str) -> (r: Option<String>)
    ensures
        text::opt_text(r) == hinted_class(raw@),
{
    let t = text::trimmed(&text::trimmed(&text::chars_of(raw), Class::Control), Class::Space);
    let lower = text::to_lower(&t);
    if t.len() == 0 || !is_targetish_class_hint(&lower) || is_excluded_class_hint(&lower) {
        return None;
    }
    let mut value = text::trimmed(
        &text::trimmed(&identifier::basename_of(&t), Class::Only('"')),
        Class::Only('\''),
    );
    match text::without_prefix(&value, "Default__") {
        Some(s) => {
            value = s;
        },
        None => {},
    }
    match text::without_suffix(&value, "_C") {
        Some(s) => {
            value = s;
        },
        None => {},
    }
    value = drop_number(value, "_C_", 0);
    value = drop_number(value, "_", 6);
    if value.len() == 0 {
        None
    } else {
        Some(text::string_of(&value))
    }
}

// -------------------------------------------------------------------------- store

/// The hints that were seen last.
pub struct ClassHintStore {
    hints: VecDeque<ClassHint>,
}

impl View for ClassHintStore {
    type V = Seq<HintView>;

    closed spec fn view(&self) -> Seq<HintView> {
        hint_views(self.hints@)
    }
}

/// The hint that a path gives.
pub open spec fn hint_of(
    timestamp: i64,
    packet_index: usize,
    direction: PacketDirection,
    path: Seq<char>,
    index: resource_index::IndexView,
) -> Option<HintView> {
    match hinted_class(path) {
        Some(class) => Some(
            HintView {
                timestamp,
                packet_index,
                direction,
                raw_class: path,
                canonical_class: class,
                target_name: object_state::either(
                    resource_index::resolved_name(index, class),
                    resource_index::resolved_name(index, path),
                ),
                source: ClassHintSource::PathCandidate,
                confidence: TargetConfidence::Possible,
            },
        ),
        None => None,
    }
}

/// The hint is not older than `before` nor younger than `after`, seen from the
/// moment.
pub open spec fn near(hint: HintView, timestamp: i64, before: i64, after: i64) -> bool {
    timestamp >= hint.timestamp - after && timestamp - hint.timestamp <= before
}

/// Those of the first `n` hints that are near the moment.
pub open spec fn near_hints(hints: Seq<HintView>, timestamp: i64, before: i64, after: i64, n: int) -> Seq<
    HintView,
>
    decreases n,
{
    if n <= 0 {
        Seq::empty()
    } else if near(hints[n - 1], timestamp, before, after) {
        near_hints(hints, timestamp, before, after, n - 1).push(hints[n - 1])
    } else {
        near_hints(hints, timestamp, before, after, n - 1)
    }
}

pub open spec fn opt_hint(o: Option<ClassHint>) -> Option<HintView> {
    match o {
        Some(h) => Some(h@),
        None => None,
    }
}

impl Default for ClassHintStore {
    fn default() -> (r: ClassHintStore)
        ensures
            r@.len() == 0,
    {
        ClassHintStore { hints: VecDeque::new() }
    }
}

impl ClassHintStore {
    /// A path that a packet named; the hint that it gives, which is kept.
    pub fn observe_path(
        &mut self,
        timestamp: i64,
        packet_index: usize,
        direction: PacketDirection,
        raw_path: &str,
        resources: &ResourceIndex,
    ) -> (r: Option<ClassHint>)
        ensures
            opt_hint(r) == hint_of(timestamp, packet_index, direction, raw_path@, resources@),
            final(self)@ == match hint_of(
                timestamp,
                packet_index,
                direction,
                raw_path@,
                resources@,
            ) {
                Some(hint) => model::newest(old(self)@.push(hint), MAX_CLASS_HINTS as int),
                None => old(self)@,
            },
    {
        let canonical_class = match canonicalize_class_hint(raw_path) {
            Some(class) => class,
            None => {
                return None;
            },
        };
        let target_name = match resources.resolved_name_for_path(canonical_class.as_str()) {
            Some(name) => Some(name),
            None => resources.resolved_name_for_path(raw_path),
        };
        let hint = ClassHint {
            timestamp,
            packet_index,
            direction,
            raw_class: raw_path.to_owned(),
            canonical_class,
            target_name,
            source: ClassHintSource::PathCandidate,
            confidence: TargetConfidence::Possible,
        };
        let ghost all = self@.push(hint@);
        self.hints.push_back(hint.copy());
        assert(hint_views(self.hints@) =~= all);
        assert(all.skip(0) =~= all);
        while self.hints.len() > MAX_CLASS_HINTS
            invariant
                self@.len() <= all.len(),
                self@ == all.skip(all.len() - self@.len()),
                self@.len() >= MAX_CLASS_HINTS || self@ == all,
            decreases self.hints.len(),
        {
            let ghost now = self@;
            let _ = self.hints.pop_front();
            assert(hint_views(self.hints@) =~= now.skip(1));
            assert(now.skip(1) =~= all.skip(all.len() - now.len() + 1));
        }
        assert(self@ =~= model::newest(all, MAX_CLASS_HINTS as int));
        Some(hint)
    }

    /// The hints that are near the moment.
    pub fn hints_near(&self, timestamp: i64, before: i64, after: i64) -> (out: Vec<ClassHint>)
        ensures
            hint_views(out@) == near_hints(
                self@,
                timestamp,
                before,
                after,
                self@.len() as int,
            ),
    {
        let ghost all = self@;
        let mut out: Vec<ClassHint> = Vec::new();
        let mut k: usize = 0;
        assert(hint_views(out@) =~= near_hints(all, timestamp, before, after, 0));
        while k < self.hints.len()
            invariant
                k <= self.hints.len(),
                all == self@,
                hint_views(out@) == near_hints(all, timestamp, before, after, k as int),
            decreases self.hints.len() - k,
        {
            let ghost sofar = hint_views(out@);
            let hint = &self.hints[k];
            assert(all[k as int] == hint@);
            if (timestamp as i128) >= (hint.timestamp as i128) - (after as i128) && (
            timestamp as i128) - (hint.timestamp as i128) <= before as i128 {
                out.push(hint.copy());
                assert(hint_views(out@) =~= sofar.push(hint@));
            }
            k += 1;
        }
        out
    }
}

/// A kept hint is found at its own moment.
pub proof fn a_new_hint_is_near_its_moment(hints: Seq<HintView>, hint: HintView, before: i64, after: i64)
    requires
        0 <= before,
        0 <= after,
    ensures
        ({
            let kept = model::newest(hints.push(hint), MAX_CLASS_HINTS as int);
            near_hints(kept, hint.timestamp, before, after, kept.len() as int).contains(hint)
        }),
{
    let kept = model::newest(hints.push(hint), MAX_CLASS_HINTS as int);
    assert(kept[kept.len() - 1] == hint);
    let r = near_hints(kept, hint.timestamp, before, after, kept.len() as int);
    assert(r.last() == hint);
    assert(r[r.len() - 1] == hint);
}

/// A path hints at a class where it speaks of a monster, a boss, an enemy or a character,
/// and of none of what belongs to abilities, effects, players, maps or screens.
pub proof fn hints_speak_of_targets(raw: Seq<char>)
    ensures
        ({
            let l = text::lower(text::trim(text::trim(raw, Class::Control), Class::Space));
            let target = text::contains(l, "mon_"@) || text::contains(l, "boss_"@)
                || text::contains(l, "worldboss"@) || text::contains(l, "/monster/"@)
                || text::contains(l, "/boss/"@) || text::contains(l, "enemy"@) || text::contains(
                l,
                "htcharacter"@,
            );
            let other = text::contains(l, "buff"@) || text::contains(l, "ability"@)
                || text::contains(l, "player"@) || text::contains(
                l,
                "map_bigworld/_generated_"@,
            ) || text::contains(l, "animation"@) || text::contains(l, "passiveeffect"@)
                || text::contains(l, "/ui/"@) || text::contains(l, "effect"@) || text::contains(
                l,
                "drop_"@,
            );
            &&& hinted_class(raw) is Some ==> target && !other
            &&& hinted_class(raw) matches Some(class) ==> class.len() > 0
            &&& target && !other && l.len() > 0 && bare_class(
                text::trim(text::trim(raw, Class::Control), Class::Space),
            ).len() > 0 ==> hinted_class(raw) is Some
        }),
{
}

/// The hints near a moment are all those that came at most so long before or after it,
/// in their order.
pub proof fn all_hints_near_a_moment_are_found(
    hints: Seq<HintView>,
    timestamp: i64,
    before: i64,
    after: i64,
    n: int,
)
    requires
        0 <= n <= hints.len(),
    ensures
        ({
            let r = near_hints(hints, timestamp, before, after, n);
            &&& forall|i: int|
                0 <= i < r.len() ==> hints.contains(#[trigger] r[i]) && r[i].timestamp + before
                    >= timestamp && timestamp + after >= r[i].timestamp
            &&& forall|k: int|
                0 <= k < n && (#[trigger] hints[k]).timestamp + before >= timestamp && timestamp
                    + after >= hints[k].timestamp ==> r.contains(hints[k])
        }),
    decreases n,
{
    if n > 0 {
        all_hints_near_a_moment_are_found(hints, timestamp, before, after, n - 1);
        let some = near_hints(hints, timestamp, before, after, n - 1);
        let r = near_hints(hints, timestamp, before, after, n);
        assert forall|i: int| 0 <= i < r.len() implies hints.contains(#[trigger] r[i])
            && r[i].timestamp + before >= timestamp && timestamp + after >= r[i].timestamp by {
            if i < some.len() {
                assert(r[i] == some[i]);
            } else {
                assert(r[i] == hints[n - 1]);
            }
        }
        assert forall|k: int|
            0 <= k < n && (#[trigger] hints[k]).timestamp + before >= timestamp && timestamp + after
                >= hints[k].timestamp implies r.contains(hints[k]) by {
            if k < n - 1 {
                let w = choose|w: int| 0 <= w < some.len() && some[w] == hints[k];
                assert(r[w] == hints[k]);
            } else {
                assert(r[r.len() - 1] == hints[k]);
            }
        }
    }
}

proof fn lemma_not_found(s: Seq<char>, needle: Seq<char>, j: int)
    requires
        !text::contains(s, needle),
    ensures
        identifier::rfind(s, needle, j) is None,
    decreases j + 1,
{
    if j >= 0 {
        lemma_not_found(s, needle, j - 1);
    }
}

proof fn lemma_found_last(s: Seq<char>, needle: Seq<char>, j: int)
    ensures
        identifier::rfind(s, needle, j) matches Some(p) ==> text::occurs_at(s, needle, p),
    decreases j + 1,
{
    if j >= 0 && !text::occurs_at(s, needle, j) {
        lemma_found_last(s, needle, j - 1);
    }
}

proof fn lemma_numberless_stays(n: Seq<char>)
    requires
        n.len() > 0,
        !text::is_digit(n.last()),
        !text::contains(n, "_C_"@),
    ensures
        without_number(without_number(n, "_C_"@, 0), "_"@, 6) == n,
{
    lemma_not_found(n, "_C_"@, n.len() as int);
    assert(without_number(n, "_C_"@, 0) == n);
    lemma_found_last(n, "_"@, n.len() as int);
    match identifier::rsplit_once(n, "_"@) {
        Some((head, tail)) => {
            if tail.len() >= 6 {
                assert(tail[tail.len() - 1] == n.last());
                assert(!text::all_digits(tail)) by {
                    assert(!text::is_digit(tail[tail.len() - 1]));
                }
            }
        },
        None => {},
    }
}

/// A class is told without what marks its default and its type: a name that does not end
/// with a number stays what it is.
pub proof fn classes_are_told_by_their_bare_name(name: Seq<char>)
    requires
        name.len() > 0,
        !text::is_digit(name.last()),
        !text::contains(name, "_C_"@),
        !name.contains('/') && !name.contains('.'),
        name[0] != '"' && name[0] != '\'',
    ensures
        bare_class("Default__"@ + name + "_C"@) == name,
{
    reveal_strlit("Default__");
    reveal_strlit("_C");
    let s = "Default__"@ + name + "_C"@;
    assert(s[0] == 'D' && s.last() == 'C');
    assert forall|k: int| 0 <= k < s.len() implies #[trigger] s[k] != '/' && s[k] != '.' by {
        if 9 <= k < 9 + name.len() {
            assert(s[k] == name[k - 9]);
            assert(name.contains(name[k - 9]));
        }
    }
    lemma_sign_is_absent(s, '/', s.len() as int);
    lemma_sign_is_absent(s, '.', s.len() as int);
    lemma_unquoted(s, '"');
    lemma_unquoted(s, '\'');
    assert(s.take(9) =~= "Default__"@);
    let b = name + "_C"@;
    assert(s.skip(9) =~= b);
    assert(b.skip(b.len() - 2) =~= "_C"@);
    assert(b.take(b.len() - 2) =~= name);
    lemma_numberless_stays(name);
}

proof fn lemma_sign_is_absent(s: Seq<char>, c: char, j: int)
    requires
        j <= s.len(),
        forall|k: int| 0 <= k < s.len() ==> #[trigger] s[k] != c,
    ensures
        text::rfind_char(s, c, j) is None,
    decreases j,
{
    if j > 0 {
        lemma_sign_is_absent(s, c, j - 1);
    }
}

proof fn lemma_unquoted(s: Seq<char>, c: char)
    requires
        s.len() > 0,
        s[0] != c,
        s.last() != c,
    ensures
        text::trim(s, Class::Only(c)) == s,
{
    assert(text::skip_class(s, Class::Only(c), 0) == 0);
    assert(s.skip(0) =~= s);
    assert(text::back_class(s, Class::Only(c), s.len() as int) == s.len());
    assert(s.take(s.len() as int) =~= s);
}

} // verus!
