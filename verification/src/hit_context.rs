//! The context of a hit: notes of the form `key=value`, and the aliases of targets
//! that they tell.
use vstd::prelude::*;

use crate::object_state;
use crate::text;
use crate::text::Class;

verus! {

// ------------------------------------------------------------------------ entries

/// Kinds of notes.
#[derive(Clone, Copy)]
pub enum Entry<'a> {
    /// A note that starts with the text.
    Starting(&'a str),
    /// The note itself.
    Exactly(&'a str),
    /// A note that a target could not be told.
    Unresolved,
}

impl<'a> Entry<'a> {
    pub open spec fn holds(self, entry: Seq<char>) -> bool {
        match self {
            Entry::Starting(prefix) => text::starts_with(entry, prefix@),
            Entry::Exactly(value) => entry == value@,
            Entry::Unresolved => entry == "target_unresolved=ambiguous_multi_target"@ || entry
                == "target_suppressed=ambiguous_multi_target"@ || entry
                == "target_unresolved=hp_evidence_without_table_name"@ || entry
                == "target_unresolved=resource_name_missing"@,
        }
    }

    pub fn has(self, entry: &str) -> (r: bool)
        ensures
            r == self.holds(entry@),
    {
        match self {
            Entry::Starting(prefix) => text::starts(&text::chars_of(entry), prefix),
            Entry::Exactly(value) => text::same_str(entry, value),
            Entry::Unresolved => text::same_str(entry, "target_unresolved=ambiguous_multi_target")
                || text::same_str(entry, "target_suppressed=ambiguous_multi_target")
                || text::same_str(entry, "target_unresolved=hp_evidence_without_table_name")
                || text::same_str(entry, "target_unresolved=resource_name_missing"),
        }
    }
}

/// A note of the kind is there.
pub open spec fn has_entry(context: Seq<Seq<char>>, kind: Entry) -> bool {
    exists|k: int| 0 <= k < context.len() && kind.holds(#[trigger] context[k])
}

pub fn any_entry(context: &Vec<String>, kind: Entry) -> (r: bool)
    ensures
        r == has_entry(text::texts(context@), kind),
{
    let ghost all = text::texts(context@);
    let mut k: usize = 0;
    while k < context.len()
        invariant
            k <= context.len(),
            all == text::texts(context@),
            forall|m: int| 0 <= m < k ==> !kind.holds(#[trigger] all[m]),
        decreases context.len() - k,
    {
        assert(all[k as int] == context@[k as int]@);
        if kind.has(context[k].as_str()) {
            return true;
        }
        k += 1;
    }
    false
}

/// The texts with one more, unless it is there.
pub open spec fn with_entry(context: Seq<Seq<char>>, value: Seq<char>) -> Seq<Seq<char>> {
    if context.contains(value) {
        context
    } else {
        context.push(value)
    }
}

pub fn push_unique(context: &mut Vec<String>, value: String)
    ensures
        text::texts(final(context)@) == with_entry(text::texts(old(context)@), value@),
{
    if object_state::holds_string(context, value.as_str()) {
        return;
    }
    let ghost before = text::texts(context@);
    context.push(value);
    assert(text::texts(context@) =~= before.push(value@));
}

/// Those of the first `n` notes that are not of the kind.
pub open spec fn kept(context: Seq<Seq<char>>, kind: Entry, n: int) -> Seq<Seq<char>>
    decreases n,
{
    if n <= 0 {
        Seq::empty()
    } else if kind.holds(context[n - 1]) {
        kept(context, kind, n - 1)
    } else {
        kept(context, kind, n - 1).push(context[n - 1])
    }
}

/// The notes without those of the kind.
pub open spec fn without(context: Seq<Seq<char>>, kind: Entry) -> Seq<Seq<char>> {
    kept(context, kind, context.len() as int)
}

pub fn drop_entries(context: &mut Vec<String>, kind: Entry)
    ensures
        text::texts(final(context)@) == without(text::texts(old(context)@), kind),
{
    let ghost all = text::texts(context@);
    let mut i: usize = 0;
    let ghost mut seen: int = 0;
    assert(kept(all, kind, 0) + all.skip(0) =~= all);
    while i < context.len()
        invariant
            0 <= seen <= all.len(),
            i == kept(all, kind, seen).len(),
            i <= context.len(),
            text::texts(context@) == kept(all, kind, seen) + all.skip(seen),
        decreases all.len() - seen,
    {
        let ghost now = text::texts(context@);
        assert(now[i as int] == context@[i as int]@);
        assert(now[i as int] == all[seen]);
        if kind.has(context[i].as_str()) {
            context.remove(i);
            assert(text::texts(context@) =~= now.remove(i as int));
            assert(now.remove(i as int) =~= kept(all, kind, seen) + all.skip(seen + 1));
        } else {
            i += 1;
            assert(kept(all, kind, seen).push(all[seen]) + all.skip(seen + 1) =~= now);
        }
        proof {
            seen = seen + 1;
        }
    }
    assert(seen == all.len());
    assert(kept(all, kind, seen) + all.skip(seen) =~= kept(all, kind, seen));
}

/// The notes with the value under the key, in place of what was under it.
pub open spec fn replaced(context: Seq<Seq<char>>, key: Seq<char>, value: Seq<char>) -> Seq<Seq<char>> {
    with_entry(without_key(context, key), key + "="@ + value)
}

/// Those of the first `n` notes that are not under the key.
pub open spec fn kept_from_key(context: Seq<Seq<char>>, key: Seq<char>, n: int) -> Seq<Seq<char>>
    decreases n,
{
    if n <= 0 {
        Seq::empty()
    } else if text::starts_with(context[n - 1], key + "="@) {
        kept_from_key(context, key, n - 1)
    } else {
        kept_from_key(context, key, n - 1).push(context[n - 1])
    }
}

/// The notes without those under the key.
pub open spec fn without_key(context: Seq<Seq<char>>, key: Seq<char>) -> Seq<Seq<char>> {
    kept_from_key(context, key, context.len() as int)
}

proof fn lemma_kept_from_key(context: Seq<Seq<char>>, key: Seq<char>, prefix: &str, n: int)
    requires
        prefix@ == key + "="@,
    ensures
        kept(context, Entry::Starting(prefix), n) == kept_from_key(context, key, n),
    decreases n,
{
    if n > 0 {
        lemma_kept_from_key(context, key, prefix, n - 1);
    }
}

pub fn replace_or_push_context(context: &mut Vec<String>, key: &str, value: &str)
    ensures
        text::texts(final(context)@) == replaced(text::texts(old(context)@), key@, value@),
{
    let joined = text::concat2(key, "=");
    let prefix: &str = joined.as_str();
    let ghost all = text::texts(context@);
    proof {
        lemma_kept_from_key(all, key@, prefix, all.len() as int);
    }
    drop_entries(context, Entry::Starting(prefix));
    push_unique(context, text::concat3(key, "=", value));
}

// ------------------------------------------------------------------------- values

/// A value that says something.
pub open spec fn telling(value: Seq<char>) -> Option<Seq<char>> {
    let v = text::trim(value, Class::Space);
    if v.len() == 0 || v == "None"@ {
        None
    } else {
        Some(v)
    }
}

/// From note `i` on, what the first note under the key holds.
pub open spec fn first_under(context: Seq<Seq<char>>, key: Seq<char>, i: int) -> Option<Seq<char>>
    decreases context.len() - i,
{
    if i < 0 || i >= context.len() {
        None
    } else {
        match text::strip_prefix(context[i], key + "="@) {
            Some(v) => Some(v),
            None => first_under(context, key, i + 1),
        }
    }
}

/// The value of the first note under the key, where it says something.
pub open spec fn value_of(context: Seq<Seq<char>>, key: Seq<char>) -> Option<Seq<char>> {
    match first_under(context, key, 0) {
        Some(v) => telling(v),
        None => None,
    }
}

fn telling_value(value: &Vec<char>) -> (r: Option<String>)
    ensures
        text::opt_text(r) == telling(value@),
{
    let v = text::string_of(&text::trimmed(value, Class::Space));
    if text::chars_of(v.as_str()).len() == 0 || text::same_str(v.as_str(), "None") {
        None
    } else {
        Some(v)
    }
}

/// The value of the first note under the key, where it says something.
pub fn target_context_value(context: &Vec<String>, key: &str) -> (r: Option<String>)
    ensures
        text::opt_text(r) == value_of(text::texts(context@), key@),
{
    let ghost all = text::texts(context@);
    let prefix = text::concat2(key, "=");
    let mut k: usize = 0;
    while k < context.len()
        invariant
            k <= context.len(),
            all == text::texts(context@),
            prefix@ == key@ + "="@,
            first_under(all, key@, 0) == first_under(all, key@, k as int),
        decreases context.len() - k,
    {
        assert(all[k as int] == context@[k as int]@);
        match text::without_prefix(&text::chars_of(context[k].as_str()), prefix.as_str()) {
            Some(value) => {
                return telling_value(&value);
            },
            None => {},
        }
        k += 1;
    }
    None
}

// ------------------------------------------------------------------- alias keys

/// An alias of a target's hit points.
pub open spec fn hp_alias(key: Seq<char>) -> bool {
    text::starts_with(key, "AttributeGuid:"@) || text::starts_with(key, "boss_hp_guid:"@)
        || text::starts_with(key, "current_hp_token:"@) || text::starts_with(
        key,
        "NetRefHandleCandidate:currenthp:"@,
    )
}

pub fn is_hp_alias_key(key: &str) -> (r: bool)
    ensures
        r == hp_alias(key@),
{
    let chars = text::chars_of(key);
    text::starts(&chars, "AttributeGuid:") || text::starts(&chars, "boss_hp_guid:")
        || text::starts(&chars, "current_hp_token:") || text::starts(
        &chars,
        "NetRefHandleCandidate:currenthp:",
    )
}

/// The alias up to a bar, its value in lower case and without white space round it.
pub open spec fn normal_key(key: Seq<char>) -> Seq<char> {
    let head = text::until(text::trim(key, Class::Space), Class::Only('|'));
    let at = text::seek_class(head, Class::Only(':'), 0);
    if at >= head.len() {
        head
    } else {
        head.take(at) + ":"@ + text::lower(text::trim(head.skip(at + 1), Class::Space))
    }
}

fn normalize_alias_key(key: &str) -> (out: Vec<char>)
    ensures
        out@ == normal_key(key@),
{
    let trimmed = text::trimmed(&text::chars_of(key), Class::Space);
    let head = text::head_until(&trimmed, Class::Only('|'));
    let at = text::seek_pos(&head, Class::Only(':'), 0);
    if at >= head.len() {
        return head;
    }
    let kind = text::part(&head, 0, at);
    let value = text::part(&head, at + 1, head.len());
    assert(kind@ =~= head@.take(at as int));
    assert(value@ =~= head@.skip(at + 1));
    let low = text::to_lower(&text::trimmed(&value, Class::Space));
    text::chars_of(
        text::concat3(
            text::string_of(&kind).as_str(),
            ":",
            text::string_of(&low).as_str(),
        ).as_str(),
    )
}

/// One name for a kind of alias, and others for it.
pub open spec fn renamed(key: Seq<char>, from: Seq<char>, to: Seq<Seq<char>>) -> Option<Seq<Seq<char>>> {
    match text::strip_prefix(key, from) {
        Some(value) => Some(to.map_values(|t: Seq<char>| t + value)),
        None => None,
    }
}

/// The names of alias kinds that mean the same, in the order in which they are
/// tried.
pub open spec fn synonyms(i: int) -> (Seq<char>, Seq<Seq<char>>) {
    if i == 0 {
        ("AttributeGuid:"@, seq!["boss_hp_guid:"@])
    } else if i == 1 {
        ("boss_hp_guid:"@, seq!["AttributeGuid:"@])
    } else if i == 2 {
        ("NetRefHandleCandidate:currenthp:"@, seq!["current_hp_token:"@])
    } else if i == 3 {
        ("current_hp_token:"@, seq!["NetRefHandleCandidate:currenthp:"@])
    } else if i == 4 {
        ("NetRefHandleCandidate:sdk_target:"@, seq!["sdk_net_target:"@])
    } else if i == 5 {
        ("sdk_net_target:"@, seq!["NetRefHandleCandidate:sdk_target:"@])
    } else if i == 6 {
        ("NetRefHandleCandidate:"@, seq!["iris_ref32:"@])
    } else if i == 7 {
        ("iris_ref32:"@, seq!["NetRefHandleCandidate:"@])
    } else if i == 8 {
        ("NetGuidCandidate:"@, seq!["netguid32:"@, "netguid_packed:"@])
    } else if i == 9 {
        ("netguid32:"@, seq!["NetGuidCandidate:"@, "netguid_packed:"@])
    } else {
        ("netguid_packed:"@, seq!["NetGuidCandidate:"@, "netguid32:"@])
    }
}

/// How many names there are.
pub const SYNONYMS: usize = 11;

/// The other names of an alias, by the first kind from `i` on that it is of.
pub open spec fn other_names(key: Seq<char>, i: int) -> Seq<Seq<char>>
    decreases SYNONYMS - i,
{
    if i >= SYNONYMS {
        Seq::empty()
    } else {
        match renamed(key, synonyms(i).0, synonyms(i).1) {
            Some(keys) => keys,
            None => other_names(key, i + 1),
        }
    }
}

/// The alias in normal form, and its other names.
pub open spec fn equivalent(key: Seq<char>) -> Seq<Seq<char>> {
    seq![normal_key(key)] + other_names(normal_key(key), 0)
}

fn synonym(i: usize) -> (r: (&'static str, &'static str, Option<&'static str>))
    ensures
        r.0@ == synonyms(i as int).0,
        synonyms(i as int).1 == match r.2 {
            Some(second) => seq![r.1@, second@],
            None => seq![r.1@],
        },
{
    if i == 0 {
        ("AttributeGuid:", "boss_hp_guid:", None)
    } else if i == 1 {
        ("boss_hp_guid:", "AttributeGuid:", None)
    } else if i == 2 {
        ("NetRefHandleCandidate:currenthp:", "current_hp_token:", None)
    } else if i == 3 {
        ("current_hp_token:", "NetRefHandleCandidate:currenthp:", None)
    } else if i == 4 {
        ("NetRefHandleCandidate:sdk_target:", "sdk_net_target:", None)
    } else if i == 5 {
        ("sdk_net_target:", "NetRefHandleCandidate:sdk_target:", None)
    } else if i == 6 {
        ("NetRefHandleCandidate:", "iris_ref32:", None)
    } else if i == 7 {
        ("iris_ref32:", "NetRefHandleCandidate:", None)
    } else if i == 8 {
        ("NetGuidCandidate:", "netguid32:", Some("netguid_packed:"))
    } else if i == 9 {
        ("netguid32:", "NetGuidCandidate:", Some("netguid_packed:"))
    } else {
        ("netguid_packed:", "NetGuidCandidate:", Some("netguid32:"))
    }
}

fn equivalent_alias_keys(key: &str) -> (out: Vec<String>)
    ensures
        text::texts(out@) == equivalent(key@),
{
    let normal = normalize_alias_key(key);
    let mut out: Vec<String> = Vec::new();
    out.push(text::string_of(&normal));
    let mut i: usize = 0;
    assert(text::texts(out@) =~= seq![normal@]);
    while i < SYNONYMS
        invariant
            i <= SYNONYMS,
            normal@ == normal_key(key@),
            text::texts(out@) == seq![normal@],
            other_names(normal@, 0) == other_names(normal@, i as int),
        decreases SYNONYMS - i,
    {
        let (from, to, second) = synonym(i);
        match text::without_prefix(&normal, from) {
            Some(value) => {
                let tail = text::string_of(&value);
                out.push(text::concat2(to, tail.as_str()));
                match second {
                    Some(other) => {
                        out.push(text::concat2(other, tail.as_str()));
                    },
                    None => {},
                }
                assert(text::texts(out@) =~= equivalent(key@));
                return out;
            },
            None => {},
        }
        i += 1;
    }
    assert(text::texts(out@) =~= equivalent(key@));
    out
}

/// The list with those of the first `n` texts that are not in it.
pub open spec fn with_entries(list: Seq<Seq<char>>, more: Seq<Seq<char>>, n: int) -> Seq<Seq<char>>
    decreases n,
{
    if n <= 0 {
        list
    } else {
        with_entry(with_entries(list, more, n - 1), more[n - 1])
    }
}

/// The keys with an alias and its other names.
pub open spec fn with_alias_key(keys: Seq<Seq<char>>, key: Seq<char>) -> Seq<Seq<char>> {
    with_entries(keys, equivalent(key), equivalent(key).len() as int)
}

fn extend_alias_keys(keys: &mut Vec<String>, key: &str)
    ensures
        text::texts(final(keys)@) == with_alias_key(text::texts(old(keys)@), key@),
{
    let ghost before = text::texts(keys@);
    let more = equivalent_alias_keys(key);
    let ghost all = text::texts(more@);
    let mut k: usize = 0;
    while k < more.len()
        invariant
            k <= more.len(),
            all == text::texts(more@),
            text::texts(keys@) == with_entries(before, all, k as int),
        decreases more.len() - k,
    {
        assert(all[k as int] == more@[k as int]@);
        push_unique(keys, more[k].as_str().to_owned());
        k += 1;
    }
}

/// Which aliases are taken: all, or those of hit points, or the others.
#[derive(Clone, Copy, PartialEq, Eq, Structural)]
pub enum Wanted {
    Any,
    HitPoints,
    Others,
}

impl Wanted {
    pub open spec fn takes(self, key: Seq<char>) -> bool {
        match self {
            Wanted::Any => true,
            Wanted::HitPoints => hp_alias(key),
            Wanted::Others => !hp_alias(key),
        }
    }

    pub fn has(self, key: &str) -> (r: bool)
        ensures
            r == self.takes(key@),
    {
        match self {
            Wanted::Any => true,
            Wanted::HitPoints => is_hp_alias_key(key),
            Wanted::Others => !is_hp_alias_key(key),
        }
    }
}

/// The value of a note under the key, where it says something.
pub open spec fn entry_value(entry: Seq<char>, key: Seq<char>) -> Option<Seq<char>> {
    match text::strip_prefix(entry, key + "="@) {
        Some(v) => telling(v),
        None => None,
    }
}

/// The keys with the aliases that the first `n` notes tell under the key, each with
/// the text before it.
pub open spec fn with_values(
    keys: Seq<Seq<char>>,
    context: Seq<Seq<char>>,
    key: Seq<char>,
    lead: Seq<char>,
    wanted: Wanted,
    n: int,
) -> Seq<Seq<char>>
    decreases n,
{
    if n <= 0 {
        keys
    } else {
        let before = with_values(keys, context, key, lead, wanted, n - 1);
        match entry_value(context[n - 1], key) {
            Some(v) => if wanted.takes(v) {
                with_alias_key(before, lead + v)
            } else {
                before
            },
            None => before,
        }
    }
}

fn extend_with_values(
    keys: &mut Vec<String>,
    context: &Vec<String>,
    key: &str,
    lead: &str,
    wanted: Wanted,
)
    ensures
        text::texts(final(keys)@) == with_values(
            text::texts(old(keys)@),
            text::texts(context@),
            key@,
            lead@,
            wanted,
            context@.len() as int,
        ),
{
    let ghost before = text::texts(keys@);
    let ghost all = text::texts(context@);
    let prefix = text::concat2(key, "=");
    let mut k: usize = 0;
    while k < context.len()
        invariant
            k <= context.len(),
            all == text::texts(context@),
            prefix@ == key@ + "="@,
            text::texts(keys@) == with_values(before, all, key@, lead@, wanted, k as int),
        decreases context.len() - k,
    {
        assert(all[k as int] == context@[k as int]@);
        match text::without_prefix(&text::chars_of(context[k].as_str()), prefix.as_str()) {
            Some(rest) => {
                match telling_value(&rest) {
                    Some(value) => {
                        if wanted.has(value.as_str()) {
                            extend_alias_keys(keys, text::concat2(lead, value.as_str()).as_str());
                        }
                    },
                    None => {},
                }
            },
            None => {},
        }
        k += 1;
    }
}

/// Those of the first `n` keys that are wanted.
pub open spec fn only_wanted(keys: Seq<Seq<char>>, wanted: Wanted, n: int) -> Seq<Seq<char>>
    decreases n,
{
    if n <= 0 {
        Seq::empty()
    } else if wanted.takes(keys[n - 1]) {
        only_wanted(keys, wanted, n - 1).push(keys[n - 1])
    } else {
        only_wanted(keys, wanted, n - 1)
    }
}

fn keep_wanted(keys: Vec<String>, wanted: Wanted) -> (out: Vec<String>)
    ensures
        text::texts(out@) == only_wanted(text::texts(keys@), wanted, keys@.len() as int),
{
    let ghost list = keys@;
    let ghost all = text::texts(list);
    let mut out: Vec<String> = Vec::new();
    assert(text::texts(out@) =~= only_wanted(all, wanted, 0));
    for key in it: keys
        invariant
            it.seq() == list,
            all == text::texts(list),
            text::texts(out@) == only_wanted(all, wanted, it.index() as int),
    {
        let ghost before = text::texts(out@);
        assert(all[it.index() as int] == key@);
        if wanted.has(key.as_str()) {
            out.push(key);
            assert(text::texts(out@) =~= before.push(key@));
        }
    }
    out
}

/// The keys of the id, where it is wanted.
pub open spec fn id_keys(id: Option<Seq<char>>, wanted: Wanted) -> Seq<Seq<char>> {
    match id {
        Some(id) => if wanted.takes(id) {
            with_alias_key(Seq::empty(), id)
        } else {
            Seq::empty()
        },
        None => Seq::empty(),
    }
}

fn keys_of_id(id: &Option<String>, wanted: Wanted) -> (out: Vec<String>)
    ensures
        text::texts(out@) == id_keys(text::opt_text(*id), wanted),
{
    let mut out: Vec<String> = Vec::new();
    assert(text::texts(out@) =~= Seq::empty());
    match id {
        Some(id) => {
            if wanted.has(id.as_str()) {
                extend_alias_keys(&mut out, id.as_str());
            }
        },
        None => {},
    }
    out
}

/// The keys with the values of all notes under the key.
pub open spec fn with_noted(
    keys: Seq<Seq<char>>,
    context: Seq<Seq<char>>,
    key: Seq<char>,
    lead: Seq<char>,
    wanted: Wanted,
) -> Seq<Seq<char>> {
    with_values(keys, context, key, lead, wanted, context.len() as int)
}

/// The aliases of a target, other than those of its hit points, that its id and the
/// notes tell.
pub open spec fn other_keys(id: Option<Seq<char>>, context: Seq<Seq<char>>) -> Seq<Seq<char>> {
    let a = id_keys(id, Wanted::Others);
    let b = with_noted(a, context, "actor_channel"@, "actor_channel:"@, Wanted::Any);
    let c = with_noted(b, context, "iris_ref32"@, "iris_ref32:"@, Wanted::Any);
    let d = with_noted(c, context, "netguid32"@, "netguid32:"@, Wanted::Any);
    let e = with_noted(d, context, "netguid_packed"@, "netguid_packed:"@, Wanted::Any);
    let f = with_noted(e, context, "sdk_net_target"@, "sdk_net_target:"@, Wanted::Any);
    let g = with_noted(f, context, "target_handle_candidate"@, ""@, Wanted::Others);
    only_wanted(g, Wanted::Others, g.len() as int)
}

/// The aliases of a target's hit points that its id and the notes tell.
pub open spec fn hp_keys(id: Option<Seq<char>>, context: Seq<Seq<char>>) -> Seq<Seq<char>> {
    let a = id_keys(id, Wanted::HitPoints);
    let b = with_noted(a, context, "target_handle_candidate"@, ""@, Wanted::HitPoints);
    let c = with_noted(b, context, "boss_hp_guid"@, "boss_hp_guid:"@, Wanted::Any);
    let d = with_noted(c, context, "current_hp_token"@, "current_hp_token:"@, Wanted::Any);
    only_wanted(d, Wanted::HitPoints, d.len() as int)
}

pub fn non_hp_alias_keys(target_id: &Option<String>, context: &Vec<String>) -> (out: Vec<String>)
    ensures
        text::texts(out@) == other_keys(text::opt_text(*target_id), text::texts(context@)),
{
    let mut keys = keys_of_id(target_id, Wanted::Others);
    extend_with_values(&mut keys, context, "actor_channel", "actor_channel:", Wanted::Any);
    extend_with_values(&mut keys, context, "iris_ref32", "iris_ref32:", Wanted::Any);
    extend_with_values(&mut keys, context, "netguid32", "netguid32:", Wanted::Any);
    extend_with_values(&mut keys, context, "netguid_packed", "netguid_packed:", Wanted::Any);
    extend_with_values(&mut keys, context, "sdk_net_target", "sdk_net_target:", Wanted::Any);
    extend_with_values(&mut keys, context, "target_handle_candidate", "", Wanted::Others);
    keep_wanted(keys, Wanted::Others)
}

pub fn hp_handle_keys(target_id: &Option<String>, context: &Vec<String>) -> (out: Vec<String>)
    ensures
        text::texts(out@) == hp_keys(text::opt_text(*target_id), text::texts(context@)),
{
    let mut keys = keys_of_id(target_id, Wanted::HitPoints);
    extend_with_values(&mut keys, context, "target_handle_candidate", "", Wanted::HitPoints);
    extend_with_values(&mut keys, context, "boss_hp_guid", "boss_hp_guid:", Wanted::Any);
    extend_with_values(&mut keys, context, "current_hp_token", "current_hp_token:", Wanted::Any);
    keep_wanted(keys, Wanted::HitPoints)
}

// -------------------------------------------------------------------------- laws

proof fn lemma_only_wanted(keys: Seq<Seq<char>>, wanted: Wanted, n: int)
    requires
        0 <= n <= keys.len(),
    ensures
        forall|k: int|
            0 <= k < only_wanted(keys, wanted, n).len() ==> wanted.takes(
                #[trigger] only_wanted(keys, wanted, n)[k],
            ),
    decreases n,
{
    if n > 0 {
        lemma_only_wanted(keys, wanted, n - 1);
        let before = only_wanted(keys, wanted, n - 1);
        let r = only_wanted(keys, wanted, n);
        assert forall|k: int| 0 <= k < r.len() implies wanted.takes(#[trigger] r[k]) by {
            if k < before.len() {
                assert(r[k] == before[k]);
            }
        }
    }
}

/// No alias is told both as one of hit points and as another one.
pub proof fn alias_classes_are_disjoint(id: Option<Seq<char>>, context: Seq<Seq<char>>, key: Seq<char>)
    ensures
        !(other_keys(id, context).contains(key) && hp_keys(id, context).contains(key)),
{
    let a = id_keys(id, Wanted::Others);
    let b = with_noted(a, context, "actor_channel"@, "actor_channel:"@, Wanted::Any);
    let c = with_noted(b, context, "iris_ref32"@, "iris_ref32:"@, Wanted::Any);
    let d = with_noted(c, context, "netguid32"@, "netguid32:"@, Wanted::Any);
    let e = with_noted(d, context, "netguid_packed"@, "netguid_packed:"@, Wanted::Any);
    let f = with_noted(e, context, "sdk_net_target"@, "sdk_net_target:"@, Wanted::Any);
    let g = with_noted(f, context, "target_handle_candidate"@, ""@, Wanted::Others);
    lemma_only_wanted(g, Wanted::Others, g.len() as int);
    let p = id_keys(id, Wanted::HitPoints);
    let q = with_noted(p, context, "target_handle_candidate"@, ""@, Wanted::HitPoints);
    let r = with_noted(q, context, "boss_hp_guid"@, "boss_hp_guid:"@, Wanted::Any);
    let s = with_noted(r, context, "current_hp_token"@, "current_hp_token:"@, Wanted::Any);
    lemma_only_wanted(s, Wanted::HitPoints, s.len() as int);
}

proof fn lemma_kept_from_key_clean(context: Seq<Seq<char>>, key: Seq<char>, n: int)
    requires
        0 <= n <= context.len(),
    ensures
        forall|k: int|
            0 <= k < kept_from_key(context, key, n).len() ==> !text::starts_with(
                #[trigger] kept_from_key(context, key, n)[k],
                key + "="@,
            ),
    decreases n,
{
    if n > 0 {
        lemma_kept_from_key_clean(context, key, n - 1);
        let before = kept_from_key(context, key, n - 1);
        let r = kept_from_key(context, key, n);
        assert forall|k: int| 0 <= k < r.len() implies !text::starts_with(
            #[trigger] r[k],
            key + "="@,
        ) by {
            if k < before.len() {
                assert(r[k] == before[k]);
            }
        }
    }
}

proof fn lemma_first_under_absent(context: Seq<Seq<char>>, key: Seq<char>, i: int, n: int)
    requires
        0 <= i <= n <= context.len(),
        forall|k: int|
            i <= k < n ==> !text::starts_with(#[trigger] context[k], key + "="@),
    ensures
        first_under(context, key, i) == first_under(context, key, n),
    decreases n - i,
{
    if i < n {
        assert(!text::starts_with(context[i], key + "="@));
        lemma_first_under_absent(context, key, i + 1, n);
    }
}

/// What was put under a key is found under it.
pub proof fn replaced_value_is_found(context: Seq<Seq<char>>, key: Seq<char>, value: Seq<char>)
    ensures
        value_of(replaced(context, key, value), key) == telling(value),
{
    let rest = without_key(context, key);
    lemma_kept_from_key_clean(context, key, context.len() as int);
    let entry = key + "="@ + value;
    assert(entry.take((key + "="@).len() as int) =~= key + "="@);
    assert(text::starts_with(entry, key + "="@));
    assert(entry.skip((key + "="@).len() as int) =~= value);
    let r = replaced(context, key, value);
    if rest.contains(entry) {
        let w = choose|w: int| 0 <= w < rest.len() && rest[w] == entry;
        assert(!text::starts_with(rest[w], key + "="@));
    }
    assert(r == rest.push(entry));
    assert forall|k: int| 0 <= k < rest.len() implies !text::starts_with(
        #[trigger] r[k],
        key + "="@,
    ) by {
        assert(r[k] == rest[k]);
    }
    lemma_first_under_absent(r, key, 0, rest.len() as int);
}

proof fn lemma_seek_sign(s: Seq<char>, c: char, at: int, i: int)
    requires
        0 <= i <= at <= s.len(),
        at < s.len() ==> s[at] == c,
        forall|k: int| i <= k < at ==> #[trigger] s[k] != c,
    ensures
        text::seek_class(s, Class::Only(c), i) == at,
    decreases at - i,
{
    if i < at {
        lemma_seek_sign(s, c, at, i + 1);
    }
}

proof fn lemma_trimmed_stays(s: Seq<char>)
    requires
        s.len() > 0,
        !text::is_space(s[0]),
        !text::is_space(s.last()),
    ensures
        text::trim(s, Class::Space) == s,
{
    assert(text::skip_class(s, Class::Space, 0) == 0);
    assert(s.skip(0) =~= s);
    assert(text::back_class(s, Class::Space, s.len() as int) == s.len());
    assert(s.take(s.len() as int) =~= s);
}

/// A text that is written in lower case, without space around it and without a bar.
pub open spec fn plain(value: Seq<char>) -> bool {
    &&& value.len() > 0
    &&& !text::is_space(value[0])
    &&& !text::is_space(value.last())
    &&& !value.contains('|')
    &&& text::lower(value) == value
}

proof fn lemma_normal_of_label(label: Seq<char>, t: Seq<char>)
    requires
        label.len() > 0,
        !text::is_space(label[0]),
        !label.contains('|'),
        !label.contains(':'),
        t.len() > 0,
        !text::is_space(t[0]),
        !text::is_space(t.last()),
        !t.contains('|'),
    ensures
        normal_key(label + ":"@ + t) == label + ":"@ + text::lower(t),
{
    reveal_strlit(":");
    let s = label + ":"@ + t;
    assert(s[0] == label[0] && s.last() == t.last());
    lemma_trimmed_stays(s);
    assert forall|k: int| 0 <= k < s.len() implies #[trigger] s[k] != '|' by {
        if k < label.len() {
            assert(s[k] == label[k]);
            assert(label.contains(label[k]));
        } else if k > label.len() {
            assert(s[k] == t[k - label.len() - 1]);
            assert(t.contains(t[k - label.len() - 1]));
        }
    }
    lemma_seek_sign(s, '|', s.len() as int, 0);
    assert(s.take(s.len() as int) =~= s);
    assert(text::until(s, Class::Only('|')) == s);
    assert forall|k: int| 0 <= k < label.len() implies #[trigger] s[k] != ':' by {
        assert(s[k] == label[k]);
        assert(label.contains(label[k]));
    }
    lemma_seek_sign(s, ':', label.len() as int, 0);
    assert(s.take(label.len() as int) =~= label);
    assert(s.skip(label.len() as int + 1) =~= t);
    lemma_trimmed_stays(t);
}

proof fn lemma_entries_stay(list: Seq<Seq<char>>, more: Seq<Seq<char>>, n: int)
    requires
        0 <= n <= more.len(),
    ensures
        forall|x: Seq<char>|
            list.contains(x) ==> #[trigger] with_entries(list, more, n).contains(x),
        forall|i: int|
            0 <= i < n ==> with_entries(list, more, n).contains(#[trigger] more[i]),
    decreases n,
{
    if n > 0 {
        lemma_entries_stay(list, more, n - 1);
        let before = with_entries(list, more, n - 1);
        let all = with_entries(list, more, n);
        assert forall|x: Seq<char>| before.contains(x) implies #[trigger] all.contains(x) by {
            let w = choose|w: int| 0 <= w < before.len() && before[w] == x;
            assert(all[w] == x);
        }
        if !before.contains(more[n - 1]) {
            assert(all[before.len() as int] == more[n - 1]);
        }
        assert forall|i: int| 0 <= i < n implies all.contains(#[trigger] more[i]) by {
            if i < n - 1 {
                assert(before.contains(more[i]));
            }
        }
    }
}

proof fn lemma_values_stay(
    keys: Seq<Seq<char>>,
    context: Seq<Seq<char>>,
    key: Seq<char>,
    lead: Seq<char>,
    wanted: Wanted,
    n: int,
)
    requires
        0 <= n <= context.len(),
    ensures
        forall|x: Seq<char>|
            keys.contains(x) ==> #[trigger] with_values(
                keys,
                context,
                key,
                lead,
                wanted,
                n,
            ).contains(x),
        forall|i: int, v: Seq<char>|
            0 <= i < n && #[trigger] entry_value(context[i], key) == Some(v) && wanted.takes(v)
                ==> with_values(keys, context, key, lead, wanted, n).contains(
                #[trigger] normal_key(lead + v),
            ),
    decreases n,
{
    if n > 0 {
        lemma_values_stay(keys, context, key, lead, wanted, n - 1);
        let before = with_values(keys, context, key, lead, wanted, n - 1);
        let all = with_values(keys, context, key, lead, wanted, n);
        match entry_value(context[n - 1], key) {
            Some(v) => {
                let more = equivalent(lead + v);
                lemma_entries_stay(before, more, more.len() as int);
                assert(more[0] == normal_key(lead + v));
                if wanted.takes(v) {
                    assert(all.contains(more[0]));
                }
            },
            None => {},
        }
        assert forall|i: int, v: Seq<char>|
            0 <= i < n && #[trigger] entry_value(context[i], key) == Some(v) && wanted.takes(
                v,
            ) implies all.contains(#[trigger] normal_key(lead + v)) by {
            if i < n - 1 {
                assert(before.contains(normal_key(lead + v)));
            }
        }
    }
}

proof fn lemma_wanted_stay(keys: Seq<Seq<char>>, wanted: Wanted, n: int, x: Seq<char>)
    requires
        0 <= n <= keys.len(),
        keys.take(n).contains(x),
        wanted.takes(x),
    ensures
        only_wanted(keys, wanted, n).contains(x),
    decreases n,
{
    let w = choose|w: int| 0 <= w < n && keys.take(n)[w] == x;
    let all = only_wanted(keys, wanted, n);
    if w == n - 1 {
        assert(all[all.len() - 1] == x);
    } else {
        assert(keys.take(n - 1)[w] == x);
        lemma_wanted_stay(keys, wanted, n - 1, x);
        let before = only_wanted(keys, wanted, n - 1);
        let v = choose|v: int| 0 <= v < before.len() && before[v] == x;
        assert(all[v] == x);
    }
}

proof fn lemma_entry_tells(label: Seq<char>, v: Seq<char>)
    requires
        text::trim(v, Class::Space).len() > 0,
        text::trim(v, Class::Space) != "None"@,
    ensures
        entry_value(label + "="@ + v, label) == Some(text::trim(v, Class::Space)),
{
    let entry = label + "="@ + v;
    let head = label + "="@;
    assert(entry.take(head.len() as int) =~= head);
    assert(entry.skip(head.len() as int) =~= v);
}

/// The labels of the aliases that are no hit points.
pub open spec fn is_object_label(label: Seq<char>) -> bool {
    label == "actor_channel"@ || label == "iris_ref32"@ || label == "netguid32"@ || label
        == "netguid_packed"@ || label == "sdk_net_target"@
}

/// The labels of the aliases of hit points.
pub open spec fn is_points_label(label: Seq<char>) -> bool {
    label == "boss_hp_guid"@ || label == "current_hp_token"@
}

proof fn lemma_label_signs(label: Seq<char>)
    requires
        is_object_label(label) || is_points_label(label),
    ensures
        label.len() > 0,
        !text::is_space(label[0]),
        !label.contains('|'),
        !label.contains(':'),
        is_object_label(label) ==> label[0] != 'A' && label[0] != 'b' && label[0] != 'c' && label[0]
            != 'N',
        is_points_label(label) ==> label[0] == 'b' || label[0] == 'c',
{
    reveal_strlit("actor_channel");
    reveal_strlit("iris_ref32");
    reveal_strlit("netguid32");
    reveal_strlit("netguid_packed");
    reveal_strlit("sdk_net_target");
    reveal_strlit("boss_hp_guid");
    reveal_strlit("current_hp_token");
}

proof fn lemma_points_keys(label: Seq<char>, t: Seq<char>)
    requires
        is_object_label(label) || is_points_label(label),
    ensures
        hp_alias(label + ":"@ + t) == is_points_label(label),
{
    let key = label + ":"@ + t;
    lemma_label_signs(label);
    reveal_strlit(":");
    reveal_strlit("AttributeGuid:");
    reveal_strlit("boss_hp_guid:");
    reveal_strlit("current_hp_token:");
    reveal_strlit("NetRefHandleCandidate:currenthp:");
    assert(key[0] == label[0]);
    if is_points_label(label) {
        reveal_strlit("boss_hp_guid");
        reveal_strlit("current_hp_token");
        if label == "boss_hp_guid"@ {
            assert(key.take(13) =~= "boss_hp_guid:"@);
        } else {
            assert(key.take(17) =~= "current_hp_token:"@);
        }
    } else {
        if text::starts_with(key, "AttributeGuid:"@) {
            assert(key.take(14)[0] == 'A');
        }
        if text::starts_with(key, "boss_hp_guid:"@) {
            assert(key.take(13)[0] == 'b');
        }
        if text::starts_with(key, "current_hp_token:"@) {
            assert(key.take(17)[0] == 'c');
        }
        if text::starts_with(key, "NetRefHandleCandidate:currenthp:"@) {
            assert(key.take(32)[0] == 'N');
        }
    }
}

/// A note of an alias in a hit's context gives the alias as a key: its label and its
/// value, in lower case and without the space around it. Aliases of hit points come among
/// the keys of hit points, the others among the others.
#[verifier::spinoff_prover]
#[verifier::rlimit(60)]
pub proof fn notes_of_aliases_give_keys(
    id: Option<Seq<char>>,
    context: Seq<Seq<char>>,
    i: int,
    label: Seq<char>,
    v: Seq<char>,
)
    requires
        0 <= i < context.len(),
        context[i] == label + "="@ + v,
        text::trim(v, Class::Space).len() > 0,
        text::trim(v, Class::Space) != "None"@,
        !text::trim(v, Class::Space).contains('|'),
    ensures
        is_object_label(label) ==> other_keys(id, context).contains(
            label + ":"@ + text::lower(text::trim(v, Class::Space)),
        ),
        is_points_label(label) ==> hp_keys(id, context).contains(
            label + ":"@ + text::lower(text::trim(v, Class::Space)),
        ),
{
    let t = text::trim(v, Class::Space);
    let n = context.len() as int;
    if is_object_label(label) || is_points_label(label) {
        text::trim_leaves_clean_ends(v, Class::Space);
        lemma_label_signs(label);
        lemma_entry_tells(label, v);
        lemma_normal_of_label(label, t);
        lemma_points_keys(label, text::lower(t));
        let key = label + ":"@ + text::lower(t);
        assert("actor_channel"@ + ":"@ =~= "actor_channel:"@) by {
            reveal_strlit("actor_channel");
            reveal_strlit("actor_channel:");
            reveal_strlit(":");
        }
        assert("iris_ref32"@ + ":"@ =~= "iris_ref32:"@) by {
            reveal_strlit("iris_ref32");
            reveal_strlit("iris_ref32:");
            reveal_strlit(":");
        }
        assert("netguid32"@ + ":"@ =~= "netguid32:"@) by {
            reveal_strlit("netguid32");
            reveal_strlit("netguid32:");
            reveal_strlit(":");
        }
        assert("netguid_packed"@ + ":"@ =~= "netguid_packed:"@) by {
            reveal_strlit("netguid_packed");
            reveal_strlit("netguid_packed:");
            reveal_strlit(":");
        }
        assert("sdk_net_target"@ + ":"@ =~= "sdk_net_target:"@) by {
            reveal_strlit("sdk_net_target");
            reveal_strlit("sdk_net_target:");
            reveal_strlit(":");
        }
        assert("boss_hp_guid"@ + ":"@ =~= "boss_hp_guid:"@) by {
            reveal_strlit("boss_hp_guid");
            reveal_strlit("boss_hp_guid:");
            reveal_strlit(":");
        }
        assert("current_hp_token"@ + ":"@ =~= "current_hp_token:"@) by {
            reveal_strlit("current_hp_token");
            reveal_strlit("current_hp_token:");
            reveal_strlit(":");
        }
        assert(entry_value(context[i], label) == Some(t));
        if is_object_label(label) {
            let a = id_keys(id, Wanted::Others);
            let b = with_noted(a, context, "actor_channel"@, "actor_channel:"@, Wanted::Any);
            let c = with_noted(b, context, "iris_ref32"@, "iris_ref32:"@, Wanted::Any);
            let d = with_noted(c, context, "netguid32"@, "netguid32:"@, Wanted::Any);
            let e = with_noted(d, context, "netguid_packed"@, "netguid_packed:"@, Wanted::Any);
            let f = with_noted(e, context, "sdk_net_target"@, "sdk_net_target:"@, Wanted::Any);
            let g = with_noted(f, context, "target_handle_candidate"@, ""@, Wanted::Others);
            lemma_values_stay(a, context, "actor_channel"@, "actor_channel:"@, Wanted::Any, n);
            lemma_values_stay(b, context, "iris_ref32"@, "iris_ref32:"@, Wanted::Any, n);
            lemma_values_stay(c, context, "netguid32"@, "netguid32:"@, Wanted::Any, n);
            lemma_values_stay(d, context, "netguid_packed"@, "netguid_packed:"@, Wanted::Any, n);
            lemma_values_stay(e, context, "sdk_net_target"@, "sdk_net_target:"@, Wanted::Any, n);
            lemma_values_stay(f, context, "target_handle_candidate"@, ""@, Wanted::Others, n);
            assert(normal_key(label + ":"@ + t) == key);
            if label == "actor_channel"@ {
                assert(b.contains(normal_key("actor_channel:"@ + t)));
            } else if label == "iris_ref32"@ {
                assert(c.contains(normal_key("iris_ref32:"@ + t)));
            } else if label == "netguid32"@ {
                assert(d.contains(normal_key("netguid32:"@ + t)));
            } else if label == "netguid_packed"@ {
                assert(e.contains(normal_key("netguid_packed:"@ + t)));
            } else {
                assert(f.contains(normal_key("sdk_net_target:"@ + t)));
            }
            assert(g.contains(key));
            assert(g.take(g.len() as int) =~= g);
            lemma_wanted_stay(g, Wanted::Others, g.len() as int, key);
        } else {
            let a = id_keys(id, Wanted::HitPoints);
            let b = with_noted(a, context, "target_handle_candidate"@, ""@, Wanted::HitPoints);
            let c = with_noted(b, context, "boss_hp_guid"@, "boss_hp_guid:"@, Wanted::Any);
            let d = with_noted(c, context, "current_hp_token"@, "current_hp_token:"@, Wanted::Any);
            lemma_values_stay(b, context, "boss_hp_guid"@, "boss_hp_guid:"@, Wanted::Any, n);
            lemma_values_stay(
                c,
                context,
                "current_hp_token"@,
                "current_hp_token:"@,
                Wanted::Any,
                n,
            );
            if label == "boss_hp_guid"@ {
                assert(c.contains(normal_key("boss_hp_guid:"@ + t)));
            } else {
                assert(d.contains(normal_key("current_hp_token:"@ + t)));
            }
            assert(d.contains(key));
            assert(d.take(d.len() as int) =~= d);
            lemma_wanted_stay(d, Wanted::HitPoints, d.len() as int, key);
        }
    }
}

proof fn lemma_other_names(key: Seq<char>, i: int, j: int)
    requires
        0 <= i <= j < 11,
        forall|k: int| i <= k < j ==> !text::starts_with(key, (#[trigger] synonyms(k)).0),
        text::starts_with(key, synonyms(j).0),
    ensures
        other_names(key, i) == synonyms(j).1.map_values(
            |t: Seq<char>| t + key.skip(synonyms(j).0.len() as int),
        ),
    decreases j - i,
{
    if i < j {
        assert(!text::starts_with(key, synonyms(i).0));
        lemma_other_names(key, i + 1, j);
    }
}

/// The alias of a boss's hit points has two names, and either gives the other.
pub proof fn boss_hit_points_have_two_names(value: Seq<char>)
    requires
        plain(value),
    ensures
        equivalent("AttributeGuid"@ + ":"@ + value) == seq![
            "AttributeGuid"@ + ":"@ + value,
            "boss_hp_guid"@ + ":"@ + value,
        ],
        equivalent("boss_hp_guid"@ + ":"@ + value) == seq![
            "boss_hp_guid"@ + ":"@ + value,
            "AttributeGuid"@ + ":"@ + value,
        ],
{
    reveal_strlit(":");
    reveal_strlit("AttributeGuid");
    reveal_strlit("boss_hp_guid");
    reveal_strlit("AttributeGuid:");
    reveal_strlit("boss_hp_guid:");
    let a = "AttributeGuid"@ + ":"@ + value;
    let b = "boss_hp_guid"@ + ":"@ + value;
    lemma_normal_of_label("AttributeGuid"@, value);
    lemma_normal_of_label("boss_hp_guid"@, value);
    assert(a.take(14) =~= "AttributeGuid:"@);
    assert(b.take(13) =~= "boss_hp_guid:"@);
    assert(a.skip(14) =~= value);
    assert(b.skip(13) =~= value);
    if text::starts_with(b, "AttributeGuid:"@) {
        assert(b.take(14)[0] == 'A');
    }
    lemma_other_names(a, 0, 0);
    lemma_other_names(b, 0, 1);
    assert("AttributeGuid:"@ + value =~= a);
    assert("boss_hp_guid:"@ + value =~= b);
    assert(equivalent(a) =~= seq![a, b]);
    assert(equivalent(b) =~= seq![b, a]);
}

/// A value tells something unless it is empty or the word for none; the space around it
/// does not count.
pub proof fn values_tell_something_unless_none(value: Seq<char>)
    ensures
        text::trim(value, Class::Space).len() == 0 ==> telling(value) is None,
        text::trim(value, Class::Space) == "None"@ ==> telling(value) is None,
        text::trim(value, Class::Space).len() > 0 && text::trim(value, Class::Space) != "None"@
            ==> telling(value) == Some(text::trim(value, Class::Space)),
{
}

} // verus!
