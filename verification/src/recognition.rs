//! What the recognition of targets by their instances promises, in terms of hits, of
//! what was seen of the instances, and of the hit points that they have shown.
use vstd::prelude::*;

use crate::model::HitView;
use crate::target_instance;
use crate::target_instance::{
    AliasView, InstanceView, ReadingView, StoreView, TargetAliasKind, RuntimeTargetState,
};
use crate::target_resolver::TargetConfidence;
use crate::text;
use crate::text::Class;

verus! {

/// Two numbers differ by two points or by a five hundredth of `scale` at most.
pub open spec fn near(a: int, b: int, scale: int) -> bool {
    let d = if a >= b {
        a - b
    } else {
        b - a
    };
    let size = if scale >= 0 {
        scale
    } else {
        -scale
    };
    d <= 2_000 || 500 * d <= size
}

/// Two readings, one after the other, show what the hit did: within a second of it, they
/// lie apart by its damage, and have its hit points before and after it.
pub open spec fn show(before: ReadingView, after: ReadingView, hit: HitView) -> bool {
    &&& after.timestamp - hit.timestamp <= 1_000_000
    &&& hit.timestamp - after.timestamp <= 1_000_000
    &&& near(before.current - after.current, hit.damage as int, hit.damage as int)
    &&& near(before.current as int, hit.target_hp_before as int, hit.target_hp_before as int)
    &&& near(after.current as int, hit.target_hp_after as int, hit.target_hp_after as int)
}

/// The instance is active, and its readings show the hit.
pub open spec fn shows(instance: InstanceView, hit: HitView) -> bool {
    instance.state == RuntimeTargetState::Active && exists|k: int|
        0 < k < instance.hp_history.len() && show(
            instance.hp_history[k - 1],
            #[trigger] instance.hp_history[k],
            hit,
        )
}

/// The instance is active, has a name, and was seen in the last ninety seconds.
pub open spec fn lately_seen(instance: InstanceView, timestamp: i64) -> bool {
    &&& instance.state == RuntimeTargetState::Active
    &&& instance.target_name.len() > 0
    &&& timestamp <= instance.last_seen_at + 90_000_000
}

/// The key of an alias: its label, and its value without the space around it and in
/// lower case.
pub open spec fn alias_key(kind: TargetAliasKind, value: Seq<char>) -> Seq<char> {
    kind.label_text() + ":"@ + text::lower(text::trim(value, Class::Space))
}

/// The entry of a hit's context gives an alias by its label, and the alias belongs to
/// the active instance at the place.
pub open spec fn leads_to(v: StoreView, entry: Seq<char>, k: int) -> bool {
    &&& 0 <= k < v.instances.len()
    &&& v.instances[k].state == RuntimeTargetState::Active
    &&& exists|kind: TargetAliasKind, value: Seq<char>|
        entry == #[trigger] (kind.label_text() + "="@ + value) && v.index.contains_key(
            alias_key(kind, value),
        ) && v.index[alias_key(kind, value)] == v.instances[k].instance_id
}

/// The hit is said to be on the instance.
pub open spec fn said_of(
    r: Option<target_instance::ResolutionView>,
    instance: InstanceView,
    confidence: TargetConfidence,
    score: int,
) -> bool {
    r matches Some(r) && r.instance_id == instance.instance_id && r.target_name
        == instance.target_name && r.canonical_path == instance.canonical_path && r.confidence
        == confidence && r.score == score
}

proof fn lemma_labels(kind: TargetAliasKind)
    ensures
        forall|i: int|
            0 <= i < kind.label_text().len() ==> #[trigger] kind.label_text()[i] != '=',
        target_instance::labelled_kind(kind.label_text()) == Some(kind),
{
    reveal_strlit("actor_channel");
    reveal_strlit("iris_ref32");
    reveal_strlit("netguid32");
    reveal_strlit("netguid_packed");
    reveal_strlit("sdk_net_target");
    reveal_strlit("boss_hp_guid");
    reveal_strlit("current_hp_token");
    reveal_strlit("hit_target_token");
    reveal_strlit("hit_target_vector_token");
    assert("netguid32"@.len() == 9);
    assert("iris_ref32"@[0] == 'i');
    assert("actor_channel"@[0] == 'a');
    assert("netguid32"@[0] == 'n');
    assert("netguid_packed"@.len() == 14);
    assert("sdk_net_target"@[0] == 's');
    assert("boss_hp_guid"@[0] == 'b');
    assert("current_hp_token"@[0] == 'c');
    assert("hit_target_token"@[0] == 'h');
    assert("hit_target_token"@.len() == 16);
    assert("hit_target_vector_token"@[0] == 'h');
    assert("hit_target_vector_token"@.len() == 23);
}

proof fn lemma_kind_of_label(label: Seq<char>)
    ensures
        target_instance::labelled_kind(label) matches Some(kind) ==> kind.label_text() == label,
{
}

proof fn lemma_seek(s: Seq<char>, at: int, i: int)
    requires
        0 <= i <= at < s.len(),
        s[at] == '=',
        forall|k: int| i <= k < at ==> #[trigger] s[k] != '=',
    ensures
        text::seek_class(s, Class::Only('='), i) == at,
    decreases at - i,
{
    if i < at {
        lemma_seek(s, at, i + 1);
    }
}

proof fn lemma_seek_bounds(s: Seq<char>, i: int)
    requires
        0 <= i <= s.len(),
    ensures
        i <= text::seek_class(s, Class::Only('='), i) <= s.len(),
        text::seek_class(s, Class::Only('='), i) < s.len() ==> s[text::seek_class(
            s,
            Class::Only('='),
            i,
        )] == '=',
    decreases s.len() - i,
{
    if i < s.len() && s[i] != '=' {
        lemma_seek_bounds(s, i + 1);
    }
}

/// A value stays as it is when it is put in its normal form again.
proof fn lemma_normal_again(value: Seq<char>)
    ensures
        target_instance::normal_value(target_instance::normal_value(value))
            == target_instance::normal_value(value),
{
    let t = text::trim(value, Class::Space);
    let n = text::lower(t);
    text::trim_leaves_clean_ends(value, Class::Space);
    if n.len() > 0 {
        assert(n[0] == text::lower_char(t[0]));
        assert(n.last() == text::lower_char(t.last()));
        assert(text::skip_class(n, Class::Space, 0) == 0);
        assert(n.skip(0) =~= n);
        assert(text::back_class(n, Class::Space, n.len() as int) == n.len());
        assert(n.take(n.len() as int) =~= n);
    } else {
        assert(text::trim(n, Class::Space) =~= n);
    }
    assert(text::lower(n) =~= n) by {
        assert forall|i: int| 0 <= i < n.len() implies #[trigger] text::lower(n)[i] == n[i] by {
            assert(n[i] == text::lower_char(t[i]));
        }
    }
}

/// What an entry with the label of an alias gives is that alias.
pub proof fn entries_give_the_alias_of_their_label(kind: TargetAliasKind, value: Seq<char>)
    ensures
        target_instance::context_alias(kind.label_text() + "="@ + value) matches Some(alias)
            && alias.kind == kind && alias.key() == alias_key(kind, value),
{
    let label = kind.label_text();
    let entry = label + "="@ + value;
    reveal_strlit("=");
    lemma_labels(kind);
    assert forall|k: int| 0 <= k < label.len() implies #[trigger] entry[k] != '=' by {
        assert(entry[k] == label[k]);
    }
    assert(entry[label.len() as int] == '=');
    lemma_seek(entry, label.len() as int, 0);
    assert(entry.take(label.len() as int) =~= label);
    assert(entry.skip(label.len() as int + 1) =~= value);
    lemma_normal_again(value);
}

proof fn lemma_entry_leads(v: StoreView, entry: Seq<char>)
    requires
        target_instance::distinct_ids(v.instances),
    ensures
        match target_instance::context_alias(entry) {
            Some(alias) => {
                let at = target_instance::alias_instance(v, alias.key());
                &&& 0 <= at <= v.instances.len()
                &&& at < v.instances.len() ==> leads_to(v, entry, at)
                &&& forall|k: int| leads_to(v, entry, k) ==> at == k
            },
            None => forall|k: int| !leads_to(v, entry, k),
        },
{
    reveal_strlit("=");
    lemma_seek_bounds(entry, 0);
    let at = text::seek_class(entry, Class::Only('='), 0);
    assert forall|k: int| leads_to(v, entry, k) implies target_instance::context_alias(
        entry,
    ) is Some && target_instance::alias_instance(
        v,
        target_instance::context_alias(entry).unwrap().key(),
    ) == k by {
        let (kind, value) = choose|kind: TargetAliasKind, value: Seq<char>|
            entry == #[trigger] (kind.label_text() + "="@ + value) && v.index.contains_key(
                alias_key(kind, value),
            ) && v.index[alias_key(kind, value)] == v.instances[k].instance_id;
        entries_give_the_alias_of_their_label(kind, value);
        lemma_place(v.instances, k, 0);
    }
    match target_instance::context_alias(entry) {
        Some(alias) => {
            let label = entry.take(at);
            let value = entry.skip(at + 1);
            lemma_kind_of_label(label);
            let kind = target_instance::labelled_kind(label).unwrap();
            assert(entry =~= kind.label_text() + "="@ + value);
            lemma_normal_again(value);
            assert(alias.key() == alias_key(kind, value));
            let found = target_instance::alias_instance(v, alias.key());
            match target_instance::indexed(v.index, alias.key()) {
                Some(id) => {
                    lemma_found(v.instances, id, 0);
                },
                None => {},
            }
            if found < v.instances.len() {
                assert(leads_to(v, entry, found));
            }
        },
        None => {},
    }
}

proof fn lemma_place(s: Seq<InstanceView>, k: int, i: int)
    requires
        target_instance::distinct_ids(s),
        0 <= i <= k < s.len(),
    ensures
        target_instance::instance_at(s, s[k].instance_id, i) == k,
    decreases k - i,
{
    if i < k {
        assert(s[i].instance_id != s[k].instance_id);
        lemma_place(s, k, i + 1);
    }
}

proof fn lemma_found(s: Seq<InstanceView>, id: Seq<char>, i: int)
    requires
        0 <= i <= s.len(),
    ensures
        i <= target_instance::instance_at(s, id, i) <= s.len(),
        target_instance::instance_at(s, id, i) < s.len()
            ==> s[target_instance::instance_at(s, id, i)].instance_id == id,
    decreases s.len() - i,
{
    if i < s.len() && s[i].instance_id != id {
        lemma_found(s, id, i + 1);
    }
}

proof fn lemma_context(v: StoreView, context: Seq<Seq<char>>, i: int)
    requires
        target_instance::distinct_ids(v.instances),
        0 <= i <= context.len(),
    ensures
        match target_instance::context_instance(v, context, i) {
            Some((at, _)) => exists|e: int|
                i <= e < context.len() && leads_to(v, #[trigger] context[e], at) && forall|j: int,
                    k: int|
                    i <= j < e ==> !#[trigger] leads_to(v, context[j], k),
            None => forall|j: int, k: int|
                i <= j < context.len() ==> !#[trigger] leads_to(v, context[j], k),
        },
    decreases context.len() - i,
{
    if i < context.len() {
        lemma_entry_leads(v, context[i]);
        lemma_context(v, context, i + 1);
        match target_instance::context_instance(v, context, i) {
            Some((at, _)) => {
                if leads_to(v, context[i], at) {
                    assert(leads_to(v, context[i], at));
                } else {
                    let e = choose|e: int|
                        i + 1 <= e < context.len() && leads_to(v, #[trigger] context[e], at)
                            && forall|j: int, k: int|
                            i + 1 <= j < e ==> !#[trigger] leads_to(v, context[j], k);
                    assert(leads_to(v, context[e], at));
                    assert forall|j: int, k: int| i <= j < e implies !#[trigger] leads_to(v, context[j], k) by {}
                }
            },
            None => {
                assert forall|j: int, k: int| i <= j < context.len() implies !#[trigger] leads_to(
                    v,
                    context[j],
                    k,
                ) by {}
            },
        }
    }
}

/// A hit whose context has an alias of an active instance is on that instance, and the
/// first such entry decides.
pub proof fn aliases_decide_first(v: StoreView, hit: HitView, e: int, k: int)
    requires
        target_instance::distinct_ids(v.instances),
        0 <= e < hit.target_context.len(),
        leads_to(v, hit.target_context[e], k),
        forall|j: int, other: int|
            0 <= j < e ==> !#[trigger] leads_to(v, hit.target_context[j], other),
    ensures
        said_of(
            target_instance::resolved(v, hit),
            v.instances[k],
            TargetConfidence::Confirmed,
            120,
        ),
{
    lemma_context(v, hit.target_context, 0);
    match target_instance::context_instance(v, hit.target_context, 0) {
        Some((at, _)) => {
            let f = choose|f: int|
                0 <= f < hit.target_context.len() && leads_to(
                    v,
                    #[trigger] hit.target_context[f],
                    at,
                ) && forall|j: int, other: int|
                    0 <= j < f ==> !#[trigger] leads_to(v, hit.target_context[j], other);
            if f < e {
                assert(leads_to(v, hit.target_context[f], at));
            }
            if e < f {
                assert(leads_to(v, hit.target_context[e], k));
            }
            assert(f == e);
            lemma_entry_leads(v, hit.target_context[e]);
        },
        None => {
            assert(leads_to(v, hit.target_context[e], k));
        },
    }
}

proof fn lemma_shows(instance: InstanceView, hit: HitView)
    ensures
        target_instance::timeline_tells(instance, hit) <==> shows(instance, hit),
{
    let h = instance.hp_history;
    assert forall|k: int| 0 < k < h.len() implies target_instance::readings_match(
        h[k - 1],
        #[trigger] h[k],
        hit,
    ) == show(h[k - 1], h[k], hit) by {}
    if shows(instance, hit) {
        let k = choose|k: int| 0 < k < h.len() && show(h[k - 1], #[trigger] h[k], hit);
        assert(target_instance::readings_match(h[k - 1], h[k], hit));
    }
    if target_instance::timeline_tells(instance, hit) {
        let k = choose|k: int|
            0 < k < h.len() && target_instance::readings_match(h[k - 1], #[trigger] h[k], hit);
        assert(show(h[k - 1], h[k], hit));
    }
}

proof fn lemma_picked(s: Seq<InstanceView>, fits: spec_fn(InstanceView) -> bool, n: int)
    requires
        0 <= n <= s.len(),
    ensures
        forall|i: int|
            0 <= i < target_instance::instances_with(s, fits, n).len() ==> 0
                <= #[trigger] target_instance::instances_with(s, fits, n)[i] < n && fits(
                s[target_instance::instances_with(s, fits, n)[i]],
            ),
        forall|i: int, j: int|
            0 <= i < j < target_instance::instances_with(s, fits, n).len()
                ==> #[trigger] target_instance::instances_with(s, fits, n)[i]
                < #[trigger] target_instance::instances_with(s, fits, n)[j],
        forall|k: int|
            0 <= k < n && fits(#[trigger] s[k]) ==> target_instance::instances_with(
                s,
                fits,
                n,
            ).contains(k),
    decreases n,
{
    if n > 0 {
        lemma_picked(s, fits, n - 1);
        let before = target_instance::instances_with(s, fits, n - 1);
        let all = target_instance::instances_with(s, fits, n);
        assert forall|k: int| 0 <= k < n && fits(#[trigger] s[k]) implies all.contains(k) by {
            if k < n - 1 {
                let w = choose|w: int| 0 <= w < before.len() && before[w] == k;
                assert(all[w] == k);
            } else {
                assert(all[all.len() - 1] == k);
            }
        }
    }
}

proof fn lemma_only(s: Seq<InstanceView>, fits: spec_fn(InstanceView) -> bool)
    ensures
        match target_instance::only_instance(s, fits) {
            Some(k) => 0 <= k < s.len() && fits(s[k]) && forall|j: int|
                0 <= j < s.len() && j != k ==> !(fits(#[trigger] s[j])),
            None => (forall|j: int| 0 <= j < s.len() ==> !(fits(#[trigger] s[j]))) || exists|i: int,
                j: int|
                0 <= i < j < s.len() && fits(#[trigger] s[i]) && fits(#[trigger] s[j]),
        },
{
    let all = target_instance::instances_with(s, fits, s.len() as int);
    lemma_picked(s, fits, s.len() as int);
    if all.len() == 1 {
        assert(fits(s[all[0]]));
        assert forall|j: int| 0 <= j < s.len() && j != all[0] implies !(fits(#[trigger] s[j])) by {
            if fits(s[j]) {
                let w = choose|w: int| 0 <= w < all.len() && all[w] == j;
            }
        }
    } else if all.len() > 1 {
        assert(all[0] < all[1]);
        assert(fits(s[all[0]]) && fits(s[all[1]]));
    } else {
        assert forall|j: int| 0 <= j < s.len() implies !(fits(#[trigger] s[j])) by {
            if fits(s[j]) {
                let w = choose|w: int| 0 <= w < all.len() && all[w] == j;
            }
        }
    }
}

/// Where no alias leads, a hit is probably on the only instance whose readings show it;
/// where there is none such, or several, possibly on the only one that has a name and
/// was lately seen; and else on none.
#[verifier::spinoff_prover]
#[verifier::rlimit(60)]
pub proof fn readings_and_sightings_decide_next(v: StoreView, hit: HitView)
    requires
        target_instance::distinct_ids(v.instances),
        forall|j: int, k: int|
            0 <= j < hit.target_context.len() ==> !#[trigger] leads_to(
                v,
                hit.target_context[j],
                k,
            ),
    ensures
        forall|k: int|
            0 <= k < v.instances.len() && shows(#[trigger] v.instances[k], hit) && (forall|j: int|
                0 <= j < v.instances.len() && j != k ==> !shows(#[trigger] v.instances[j], hit))
                ==> said_of(
                target_instance::resolved(v, hit),
                v.instances[k],
                TargetConfidence::Probable,
                90,
            ),
        ((forall|j: int| 0 <= j < v.instances.len() ==> !shows(#[trigger] v.instances[j], hit)) || (
        exists|i: int, j: int|
            0 <= i < j < v.instances.len() && shows(#[trigger] v.instances[i], hit) && shows(
                #[trigger] v.instances[j],
                hit,
            ))) ==> (forall|k: int|
            0 <= k < v.instances.len() && lately_seen(#[trigger] v.instances[k], hit.timestamp) && (
            forall|j: int|
                0 <= j < v.instances.len() && j != k ==> !lately_seen(
                    #[trigger] v.instances[j],
                    hit.timestamp,
                )) ==> said_of(
                target_instance::resolved(v, hit),
                v.instances[k],
                TargetConfidence::Possible,
                45,
            )) && ((forall|j: int|
            0 <= j < v.instances.len() ==> !lately_seen(
                #[trigger] v.instances[j],
                hit.timestamp,
            )) ==> target_instance::resolved(v, hit) is None) && ((exists|i: int, j: int|
            0 <= i < j < v.instances.len() && lately_seen(#[trigger] v.instances[i], hit.timestamp)
                && lately_seen(#[trigger] v.instances[j], hit.timestamp))
            ==> target_instance::resolved(v, hit) is None),
{
    lemma_context(v, hit.target_context, 0);
    match target_instance::context_instance(v, hit.target_context, 0) {
        Some((at, _)) => {
            let f = choose|f: int|
                0 <= f < hit.target_context.len() && leads_to(
                    v,
                    #[trigger] hit.target_context[f],
                    at,
                ) && forall|j: int, other: int|
                    0 <= j < f ==> !#[trigger] leads_to(v, hit.target_context[j], other);
            assert(leads_to(v, hit.target_context[f], at));
        },
        None => {},
    }
    let tells = |i: InstanceView| target_instance::timeline_tells(i, hit);
    let named = |i: InstanceView| target_instance::active_named(i, hit.timestamp);
    assert forall|k: int| 0 <= k < v.instances.len() implies tells(#[trigger] v.instances[k])
        == shows(v.instances[k], hit) && named(v.instances[k]) == lately_seen(
        v.instances[k],
        hit.timestamp,
    ) by {
        lemma_shows(v.instances[k], hit);
    }
    lemma_only(v.instances, tells);
    lemma_only(v.instances, named);
}

/// Hit points of an instance are kept as its last of at most thirty-two readings, with
/// when they were read. It dies with a point or less, and lives with more.
pub proof fn readings_tell_life_and_death(
    instance: InstanceView,
    timestamp: i64,
    hp: i64,
    evidence: Seq<char>,
)
    ensures
        ({
            let after = target_instance::with_points(instance, timestamp, hp, evidence);
            let n = instance.hp_history.len();
            &&& hp <= 1_000 <==> after.state == RuntimeTargetState::Dead
            &&& hp > 1_000 <==> after.state == RuntimeTargetState::Active
            &&& after.last_seen_at == timestamp
            &&& after.hp_current == Some(hp)
            &&& after.hp_history.len() > 0
            &&& after.hp_history.last().timestamp == timestamp
            &&& after.hp_history.last().current == hp
            &&& n < 32 ==> after.hp_history.len() == n + 1 && after.hp_history.drop_last()
                == instance.hp_history
            &&& n == 32 ==> after.hp_history.len() == 32 && after.hp_history.drop_last()
                == instance.hp_history.skip(1)
            &&& after.target_name == instance.target_name
            &&& after.aliases == instance.aliases
        }),
{
    let after = target_instance::with_points(instance, timestamp, hp, evidence);
    if instance.hp_history.len() < 32 {
        assert(after.hp_history.drop_last() =~= instance.hp_history);
    }
    if instance.hp_history.len() == 32 {
        assert(after.hp_history.drop_last() =~= instance.hp_history.skip(1));
    }
}

/// An active instance that was not seen for more than ninety seconds is one no more;
/// nothing else changes with the time.
pub proof fn instances_age(v: StoreView, timestamp: i64, k: int)
    requires
        0 <= k < v.instances.len(),
    ensures
        ({
            let before = v.instances[k];
            let after = target_instance::all_aged(v, timestamp).instances[k];
            &&& before.state == RuntimeTargetState::Active && timestamp > before.last_seen_at
                + 90_000_000 ==> after.state == RuntimeTargetState::Expired
            &&& before.state != RuntimeTargetState::Active || timestamp <= before.last_seen_at
                + 90_000_000 ==> after.state == before.state
            &&& after == (InstanceView { state: after.state, ..before })
        }),
        target_instance::all_aged(v, timestamp).index == v.index,
        target_instance::all_aged(v, timestamp).instances.len() == v.instances.len(),
{
}

/// Hit points without a known alias can only be those of an active instance with a
/// name that was seen in the last minute and has no other alias of the kind. The claim
/// loses two points with each second, and gains twenty with a boss and ten where the
/// instance has an alias already.
pub proof fn only_the_lately_seen_are_pending(
    instance: InstanceView,
    timestamp: i64,
    alias: AliasView,
)
    ensures
        ({
            let score = target_instance::pending_score(instance, timestamp, alias);
            &&& score >= 0 ==> {
                &&& instance.state == RuntimeTargetState::Active
                &&& instance.target_name.len() > 0
                &&& instance.last_seen_at <= timestamp <= instance.last_seen_at + 60_000_000
                &&& forall|k: int|
                    0 <= k < instance.aliases.len() && (#[trigger] instance.aliases[k]).kind
                        == alias.kind ==> instance.aliases[k].value == alias.value
                &&& 180 <= score <= 330
            }
            &&& score >= 0 ==> forall|n: int|
                0 <= n <= 60 && timestamp - instance.last_seen_at == #[trigger] (1_000_000 * n)
                    ==> score == 300 - 2 * n + (if text::contains(
                    instance.canonical_path,
                    "Boss"@,
                ) || text::contains(instance.canonical_path, "boss"@) {
                    20int
                } else {
                    0
                }) + (if instance.aliases.len() > 0 {
                    10int
                } else {
                    0
                })
            &&& instance.state == RuntimeTargetState::Active && instance.target_name.len() > 0
                && !crate::object_state::ignored_path(instance.canonical_path)
                && instance.last_seen_at <= timestamp <= instance.last_seen_at + 60_000_000 && (
            forall|k: int|
                0 <= k < instance.aliases.len() && (#[trigger] instance.aliases[k]).kind
                    == alias.kind ==> instance.aliases[k].value == alias.value) ==> score >= 0
        }),
{
    if target_instance::pending_score(instance, timestamp, alias) >= 0 {
        assert forall|k: int|
            0 <= k < instance.aliases.len() && (#[trigger] instance.aliases[k]).kind
                == alias.kind implies instance.aliases[k].value == alias.value by {}
    }
}

/// Hit points go to the instance that their alias is known to be of. Where it is not
/// known, they go to the one whose claim leads all others by twenty-five, if any.
pub proof fn hit_points_go_to_their_owner(v: StoreView, timestamp: i64, alias: AliasView, k: int)
    requires
        0 <= k < v.instances.len(),
    ensures
        v.index.contains_key(alias.key()) ==> target_instance::alias_owner(v, timestamp, alias)
            == Some(v.index[alias.key()]),
        !v.index.contains_key(alias.key()) && target_instance::pending_score(
            v.instances[k],
            timestamp,
            alias,
        ) >= 0 && (forall|j: int|
            0 <= j < v.instances.len() && j != k ==> target_instance::pending_score(
                #[trigger] v.instances[j],
                timestamp,
                alias,
            ) + 25 <= target_instance::pending_score(v.instances[k], timestamp, alias))
            ==> target_instance::alias_owner(v, timestamp, alias) == Some(
            v.instances[k].instance_id,
        ),
        !v.index.contains_key(alias.key()) && (forall|j: int|
            0 <= j < v.instances.len() ==> target_instance::pending_score(
                #[trigger] v.instances[j],
                timestamp,
                alias,
            ) < 0) ==> target_instance::alias_owner(v, timestamp, alias) is None,
{
    let scores = target_instance::pending_scores(v.instances, timestamp, alias);
    assert forall|j: int| 0 <= j < v.instances.len() implies #[trigger] scores[j]
        == target_instance::pending_score(v.instances[j], timestamp, alias) by {}
    if !v.index.contains_key(alias.key()) && target_instance::pending_score(
        v.instances[k],
        timestamp,
        alias,
    ) >= 0 && (forall|j: int|
        0 <= j < v.instances.len() && j != k ==> target_instance::pending_score(
            #[trigger] v.instances[j],
            timestamp,
            alias,
        ) + 25 <= target_instance::pending_score(v.instances[k], timestamp, alias)) {
        assert(target_instance::leads(scores, k)) by {
            assert forall|j: int| 0 <= j < scores.len() && j != k implies (#[trigger] scores[j]) < 0
                || scores[j] + 25 <= scores[k] by {
                assert(scores[j] == target_instance::pending_score(
                    v.instances[j],
                    timestamp,
                    alias,
                ));
            }
        }
        target_instance::leader_is_alone(scores, k);
    }
    if forall|j: int|
        0 <= j < v.instances.len() ==> target_instance::pending_score(
            #[trigger] v.instances[j],
            timestamp,
            alias,
        ) < 0 {
        assert forall|i: int| !target_instance::leads(scores, i) by {
            if 0 <= i < scores.len() {
                assert(scores[i] == target_instance::pending_score(
                    v.instances[i],
                    timestamp,
                    alias,
                ));
            }
        }
    }
}

proof fn lemma_with_keys(
    index: Map<Seq<char>, Seq<char>>,
    aliases: Seq<AliasView>,
    n: int,
    id: Seq<char>,
)
    requires
        0 <= n <= aliases.len(),
    ensures
        forall|i: int|
            0 <= i < n ==> target_instance::with_keys(index, aliases, n, id).contains_key(
                (#[trigger] aliases[i]).key(),
            ) && target_instance::with_keys(index, aliases, n, id)[aliases[i].key()] == id,
    decreases n,
{
    if n > 0 {
        lemma_with_keys(index, aliases, n - 1, id);
    }
}

proof fn lemma_alias_kept(set: Seq<AliasView>, a: AliasView)
    ensures
        target_instance::with_alias(set, a).contains(a),
        forall|x: AliasView|
            set.contains(x) ==> #[trigger] target_instance::with_alias(set, a).contains(x),
{
    let p = target_instance::alias_place(set, a, 0);
    lemma_alias_place_bounds(set, a, 0);
    let r = target_instance::with_alias(set, a);
    if p < set.len() && set[p] == a {
        assert(r[p] == a);
    } else {
        assert(r[p] == a);
        assert forall|x: AliasView| set.contains(x) implies #[trigger] r.contains(x) by {
            let w = choose|w: int| 0 <= w < set.len() && set[w] == x;
            if w < p {
                assert(r[w] == x);
            } else {
                assert(r[w + 1] == x);
            }
        }
    }
}

proof fn lemma_alias_place_bounds(set: Seq<AliasView>, a: AliasView, i: int)
    requires
        0 <= i <= set.len(),
    ensures
        i <= target_instance::alias_place(set, a, i) <= set.len(),
    decreases set.len() - i,
{
    if i < set.len() {
        lemma_alias_place_bounds(set, a, i + 1);
    }
}

/// The aliases lead to the instance at the place.
pub open spec fn all_lead_to(v: StoreView, aliases: Seq<AliasView>, n: int, k: int) -> bool {
    forall|i: int|
        0 <= i < n ==> v.index.contains_key((#[trigger] aliases[i]).key())
            && v.index[aliases[i].key()] == v.instances[k].instance_id
            && v.instances[k].aliases.contains(aliases[i])
}

proof fn lemma_alias_leads(
    v: StoreView,
    alias: AliasView,
    k: int,
    aliases: Seq<AliasView>,
    n: int,
)
    requires
        target_instance::sound(v),
        0 <= k < v.instances.len(),
        0 <= n <= aliases.len(),
        all_lead_to(v, aliases, n, k),
    ensures
        ({
            let id = v.instances[k].instance_id;
            let (w, then) = target_instance::alias_added(v, id, alias);
            &&& target_instance::sound(w)
            &&& w.instances.len() == v.instances.len()
            &&& w.instances[k].instance_id == then
            &&& w.instances[k].state == v.instances[k].state
            &&& w.index.contains_key(alias.key()) && w.index[alias.key()] == then
            &&& w.instances[k].aliases.contains(alias)
            &&& all_lead_to(w, aliases, n, k)
        }),
{
    let id = v.instances[k].instance_id;
    lemma_place(v.instances, k, 0);
    target_instance::adding_an_alias_keeps_soundness(v, id, alias);
    lemma_alias_kept(v.instances[k].aliases, alias);
    let (w, then) = target_instance::alias_added(v, id, alias);
    let all = target_instance::with_alias(v.instances[k].aliases, alias);
    let index = v.index.insert(alias.key(), id);
    lemma_with_keys(index, all, all.len() as int, then);
    assert(w.instances[k].aliases == all);
    let at = choose|x: int| 0 <= x < all.len() && all[x] == alias;
    assert(all[at].key() == alias.key());
    assert forall|i: int| 0 <= i < n implies w.index.contains_key((#[trigger] aliases[i]).key())
        && w.index[aliases[i].key()] == then && w.instances[k].aliases.contains(aliases[i]) by {
        assert(v.instances[k].aliases.contains(aliases[i]));
        assert(all.contains(aliases[i]));
        let x = choose|x: int| 0 <= x < all.len() && all[x] == aliases[i];
        assert(all[x].key() == aliases[i].key());
    }
}

proof fn lemma_all_aliases_lead(v: StoreView, k: int, aliases: Seq<AliasView>, n: int)
    requires
        target_instance::sound(v),
        0 <= k < v.instances.len(),
        0 <= n <= aliases.len(),
    ensures
        ({
            let id = v.instances[k].instance_id;
            let (w, then) = target_instance::aliases_added(v, id, aliases, n);
            &&& target_instance::sound(w)
            &&& w.instances.len() == v.instances.len()
            &&& w.instances[k].instance_id == then
            &&& w.instances[k].state == v.instances[k].state
            &&& all_lead_to(w, aliases, n, k)
        }),
    decreases n,
{
    if n > 0 {
        let id = v.instances[k].instance_id;
        lemma_all_aliases_lead(v, k, aliases, n - 1);
        let (w, then) = target_instance::aliases_added(v, id, aliases, n - 1);
        lemma_alias_leads(w, aliases[n - 1], k, aliases, n - 1);
    }
}

proof fn lemma_known(index: Map<Seq<char>, Seq<char>>, aliases: Seq<AliasView>, i: int)
    requires
        0 <= i <= aliases.len(),
    ensures
        match target_instance::first_known(index, aliases, i) {
            Some(id) => exists|j: int|
                i <= j < aliases.len() && index.contains_key((#[trigger] aliases[j]).key())
                    && index[aliases[j].key()] == id,
            None => forall|j: int|
                i <= j < aliases.len() ==> !index.contains_key((#[trigger] aliases[j]).key()),
        },
    decreases aliases.len() - i,
{
    if i < aliases.len() {
        lemma_known(index, aliases, i + 1);
        if index.contains_key(aliases[i].key()) {
            assert(index[aliases[i].key()] == index[aliases[i].key()]);
        }
    }
}

proof fn lemma_unaliased(s: Seq<InstanceView>, path: Seq<char>, timestamp: i64, n: int)
    requires
        0 <= n <= s.len(),
    ensures
        ({
            let at = target_instance::latest_unaliased(s, path, timestamp, n);
            &&& -1 <= at < n
            &&& at >= 0 ==> s[at].canonical_path == path && s[at].aliases.len() == 0 && timestamp
                <= s[at].last_seen_at + 1_000_000
            &&& forall|k: int|
                0 <= k < n && (#[trigger] s[k]).canonical_path == path && s[k].aliases.len() == 0
                    && timestamp <= s[k].last_seen_at + 1_000_000 ==> at >= 0 && s[k].last_seen_at
                    <= s[at].last_seen_at
        }),
    decreases n,
{
    if n > 0 {
        lemma_unaliased(s, path, timestamp, n - 1);
    }
}

/// A target that was seen is in the store under the id that is told, with its path, its
/// name and when it was seen, and all its aliases lead to it.
#[verifier::spinoff_prover]
#[verifier::rlimit(60)]
pub proof fn sighted_targets_are_known_by_their_aliases(
    v: StoreView,
    timestamp: i64,
    path: Seq<char>,
    name: Seq<char>,
    aliases: Seq<AliasView>,
)
    requires
        target_instance::sound(v),
        forall|j: int|
            0 <= j < aliases.len() && v.index.contains_key((#[trigger] aliases[j]).key())
                ==> exists|k: int|
                0 <= k < v.instances.len() && (#[trigger] v.instances[k]).instance_id
                    == v.index[aliases[j].key()],
    ensures
        ({
            let (w, id) = target_instance::actor_observed(v, timestamp, path, name, aliases);
            exists|k: int|
                0 <= k < w.instances.len() && (#[trigger] w.instances[k]).instance_id == id
                    && w.instances[k].canonical_path == path && w.instances[k].target_name == name
                    && w.instances[k].last_seen_at == timestamp && w.instances[k].state
                    != RuntimeTargetState::Expired && all_lead_to(
                    w,
                    aliases,
                    aliases.len() as int,
                    k,
                )
        }),
{
    let first = target_instance::sighted_instance(v, timestamp, path, name, aliases);
    let n = aliases.len() as int;
    lemma_known(v.index, aliases, 0);
    lemma_unaliased(v.instances, path, timestamp, v.instances.len() as int);
    let at = target_instance::latest_unaliased(
        v.instances,
        path,
        timestamp,
        v.instances.len() as int,
    );
    let number = target_instance::next_number(v.spawned, path);
    let new_id = target_instance::preferred_id(path, number, aliases);
    lemma_found(v.instances, new_id, 0);
    let k = match target_instance::first_known(v.index, aliases, 0) {
        Some(id) => {
            let j = choose|j: int|
                0 <= j < aliases.len() && v.index.contains_key((#[trigger] aliases[j]).key())
                    && v.index[aliases[j].key()] == id;
            choose|k: int|
                0 <= k < v.instances.len() && (#[trigger] v.instances[k]).instance_id == id
        },
        None => if at >= 0 {
            at
        } else {
            target_instance::instance_at(v.instances, new_id, 0)
        },
    };
    match target_instance::first_known(v.index, aliases, 0) {
        Some(id) => {
            let j = choose|j: int|
                0 <= j < aliases.len() && v.index.contains_key((#[trigger] aliases[j]).key())
                    && v.index[aliases[j].key()] == id;
            assert(exists|k: int|
                0 <= k < v.instances.len() && (#[trigger] v.instances[k]).instance_id
                    == v.index[aliases[j].key()]);
        },
        None => {
            if at < 0 {
                lemma_created_is_sound(v, timestamp, path, name, aliases);
            }
        },
    }
    assert(0 <= k < first.0.instances.len());
    assert(first.0.instances[k].instance_id == first.1);
    assert(target_instance::sound(first.0));
    lemma_all_aliases_lead(first.0, k, aliases, n);
    let then = target_instance::aliases_added(first.0, first.1, aliases, n);
    lemma_place(then.0.instances, k, 0);
    let (w, id) = target_instance::actor_observed(v, timestamp, path, name, aliases);
    assert(w.instances[k].instance_id == id);
    assert(all_lead_to(w, aliases, n, k)) by {
        assert forall|i: int| 0 <= i < n implies w.index.contains_key(
            (#[trigger] aliases[i]).key(),
        ) && w.index[aliases[i].key()] == w.instances[k].instance_id
            && w.instances[k].aliases.contains(aliases[i]) by {
            assert(then.0.instances[k].aliases.contains(aliases[i]));
        }
    }
}

proof fn lemma_created_is_sound(
    v: StoreView,
    timestamp: i64,
    path: Seq<char>,
    name: Seq<char>,
    aliases: Seq<AliasView>,
)
    requires
        target_instance::sound(v),
    ensures
        target_instance::sound(
            target_instance::created(v, timestamp, path, name, aliases).0,
        ),
{
    let number = target_instance::next_number(v.spawned, path);
    let id = target_instance::preferred_id(path, number, aliases);
    lemma_found(v.instances, id, 0);
    lemma_not_before(v.instances, id, 0);
    let at = target_instance::instance_at(v.instances, id, 0);
    let r = target_instance::created(v, timestamp, path, name, aliases).0.instances;
    assert forall|k: int| 0 <= k < r.len() implies target_instance::sound_instance(
        #[trigger] r[k],
    ) by {
        if k != at {
            assert(r[k] == v.instances[k]);
        }
    }
    assert forall|i: int, j: int| 0 <= i < j < r.len() implies (#[trigger] r[i]).instance_id != (
    #[trigger] r[j]).instance_id by {
        if i != at {
            assert(r[i] == v.instances[i]);
        }
        if j != at {
            assert(r[j] == v.instances[j]);
        }
        if i < v.instances.len() && j < v.instances.len() {
            assert(v.instances[i].instance_id != v.instances[j].instance_id);
        }
    }
}

proof fn lemma_not_before(s: Seq<InstanceView>, id: Seq<char>, i: int)
    requires
        0 <= i <= s.len(),
    ensures
        forall|k: int|
            i <= k < target_instance::instance_at(s, id, i) ==> (#[trigger] s[k]).instance_id
                != id,
    decreases s.len() - i,
{
    if i < s.len() && s[i].instance_id != id {
        lemma_not_before(s, id, i + 1);
    }
}

/// A target that was seen a second ago, and has no alias yet, is the same one when its
/// path is seen again without an alias; the one that was seen last counts.
pub proof fn targets_without_alias_are_the_same_within_a_second(
    v: StoreView,
    timestamp: i64,
    path: Seq<char>,
    name: Seq<char>,
    k: int,
)
    requires
        0 <= k < v.instances.len(),
        v.instances[k].canonical_path == path,
        v.instances[k].aliases.len() == 0,
        timestamp <= v.instances[k].last_seen_at + 1_000_000,
        forall|j: int|
            0 <= j < v.instances.len() && j != k ==> (#[trigger] v.instances[j]).last_seen_at
                < v.instances[k].last_seen_at,
    ensures
        target_instance::sighted_instance(v, timestamp, path, name, Seq::empty()) == (
            v,
            v.instances[k].instance_id,
        ),
{
    lemma_unaliased(v.instances, path, timestamp, v.instances.len() as int);
}

/// A closed alias leads nowhere. Its instance stays, without it, and is one no more where
/// that is asked for.
pub proof fn closed_aliases_lead_nowhere(
    v: StoreView,
    timestamp: i64,
    alias: AliasView,
    expire: bool,
    k: int,
)
    requires
        target_instance::sound(v),
        0 <= k < v.instances.len(),
        v.index.contains_key(alias.key()),
        v.index[alias.key()] == v.instances[k].instance_id,
    ensures
        ({
            let (w, id) = target_instance::alias_closed(v, timestamp, alias, expire);
            &&& id == Some(v.instances[k].instance_id)
            &&& !w.index.contains_key(alias.key())
            &&& forall|key: Seq<char>|
                key != alias.key() ==> (#[trigger] w.index.contains_key(key)
                    == v.index.contains_key(key)) && w.index[key] == v.index[key]
            &&& w.instances.len() == v.instances.len()
            &&& !w.instances[k].aliases.contains(alias)
            &&& w.instances[k].target_name == v.instances[k].target_name
            &&& w.instances[k].last_seen_at == timestamp
            &&& expire ==> w.instances[k].state == RuntimeTargetState::Expired
            &&& !expire ==> w.instances[k].state == v.instances[k].state
        }),
{
    lemma_place(v.instances, k, 0);
    target_instance::removing_keeps_aliases_in_order(v.instances[k].aliases, alias);
}

/// An instance is rather named by the reference of its object than by its number, by this
/// than by its channel, and by these than by what is read beside its hit points or its
/// hits.
pub proof fn objects_name_instances_before_hits_do(kind: TargetAliasKind)
    ensures
        kind != TargetAliasKind::IrisRef32 ==> kind.priority()
            < TargetAliasKind::IrisRef32.priority(),
        TargetAliasKind::NetGuid32.priority() > TargetAliasKind::NetGuidPacked.priority(),
        TargetAliasKind::NetGuidPacked.priority() > TargetAliasKind::ActorChannel.priority(),
        TargetAliasKind::ActorChannel.priority() > TargetAliasKind::SdkNetTarget.priority(),
        TargetAliasKind::SdkNetTarget.priority() == TargetAliasKind::BossHpGuid.priority(),
        TargetAliasKind::BossHpGuid.priority() > TargetAliasKind::CurrentHpToken.priority(),
        TargetAliasKind::CurrentHpToken.priority() > TargetAliasKind::HitTargetToken.priority(),
        TargetAliasKind::HitTargetToken.priority() > TargetAliasKind::HitVectorToken.priority(),
{
}

} // verus!
