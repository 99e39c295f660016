//! What the attribution of hits to tracks promises, in terms of the hits and of the
//! hit points that the tracks have shown.
use vstd::prelude::*;

use crate::hit_context;
use crate::hit_context::{Entry, Wanted};
use crate::model::HitView;
use crate::target_fact;
use crate::target_resolver::{SummaryView, TargetConfidence};
use crate::target_track;
use crate::target_track::{
    ContextView, Outcome, PointView, TargetLabelState, TargetLifecycle, TrackIdentitySource,
    TrackView, TracksView,
};
use crate::text;

verus! {

// --------------------------------------------------- hits that fit what a track showed

/// The target is not known to be dead, and it was seen in the last three and a half
/// seconds.
pub open spec fn about(track: TrackView, timestamp: i64) -> bool {
    &&& track.lifecycle == TargetLifecycle::Provisional || track.lifecycle
        == TargetLifecycle::Active || track.lifecycle == TargetLifecycle::Dying
    &&& track.last_seen_at <= timestamp <= track.last_seen_at + 3_500_000
}

/// The hit points that a point of a timeline shows at most.
pub open spec fn top(point: PointView) -> int {
    if point.hp_before >= point.hp_after {
        point.hp_before as int
    } else {
        point.hp_after as int
    }
}

/// The point is one of the last three and a half seconds.
pub open spec fn late(point: PointView, timestamp: i64) -> bool {
    point.timestamp <= timestamp <= point.timestamp + 3_500_000
}

/// Hit points of `hp` are no more than those of `shown`, but for two points or a five
/// hundredth of `scale`.
pub open spec fn no_more(hp: int, shown: int, scale: int) -> bool {
    hp <= shown + 2_000 || 500 * hp <= 500 * shown + scale
}

/// The larger of two numbers.
pub open spec fn larger(a: int, b: int) -> int {
    if a >= b {
        a
    } else {
        b
    }
}

/// The hit can be one on the track's target: it leaves no more hit points than the
/// target has shown of late, and it does not add any.
pub open spec fn explains(track: TrackView, hit: HitView) -> bool {
    &&& about(track, hit.timestamp)
    &&& 0 <= hit.target_hp_after <= hit.target_hp_before
    &&& exists|p: int|
        0 <= p < track.hp_timeline.len() && late(#[trigger] track.hp_timeline[p], hit.timestamp)
            && no_more(
            hit.target_hp_after as int,
            top(track.hp_timeline[p]),
            larger(top(track.hp_timeline[p]), hit.target_hp_before as int),
        )
}

/// The hit can be the last one on the track's target: it leaves at most a point, and it
/// meets no more hit points than the hit before it did.
pub open spec fn finishes(track: TrackView, hit: HitView) -> bool {
    &&& about(track, hit.timestamp)
    &&& hit.target_hp_after <= 1_000
    &&& track.hp_timeline.len() > 0
    &&& late(track.hp_timeline.last(), hit.timestamp)
    &&& no_more(
        hit.target_hp_before as int,
        track.hp_timeline.last().hp_before as int,
        larger(
            larger(track.hp_timeline.last().hp_before as int, hit.target_hp_before as int),
            -larger(track.hp_timeline.last().hp_before as int, hit.target_hp_before as int),
        ),
    )
}

proof fn lemma_peak(points: Seq<PointView>, timestamp: i64, n: int)
    requires
        0 <= n <= points.len(),
    ensures
        match target_track::recent_peak(points, timestamp, n) {
            Some(peak) => (exists|p: int|
                0 <= p < n && late(#[trigger] points[p], timestamp) && top(points[p]) == peak)
                && forall|p: int|
                0 <= p < n && late(#[trigger] points[p], timestamp) ==> top(points[p]) <= peak,
            None => forall|p: int| 0 <= p < n ==> !late(#[trigger] points[p], timestamp),
        },
    decreases n,
{
    if n > 0 {
        lemma_peak(points, timestamp, n - 1);
        let before = target_track::recent_peak(points, timestamp, n - 1);
        if before is Some {
            let p = choose|p: int|
                0 <= p < n - 1 && late(#[trigger] points[p], timestamp) && top(points[p])
                    == before.unwrap();
            assert(late(points[p], timestamp) && top(points[p]) == before.unwrap());
        }
        if late(points[n - 1], timestamp) {
            assert(top(points[n - 1]) <= target_track::recent_peak(points, timestamp, n).unwrap());
        }
    }
}

proof fn lemma_explains(track: TrackView, hit: HitView)
    ensures
        target_track::stream_fits(track, target_fact::fact_of(hit)) <==> explains(track, hit),
{
    let points = track.hp_timeline;
    let n = points.len() as int;
    lemma_peak(points, hit.timestamp, n);
    match target_track::recent_peak(points, hit.timestamp, n) {
        Some(peak) => {
            let p = choose|p: int|
                0 <= p < n && late(#[trigger] points[p], hit.timestamp) && top(points[p]) == peak;
            assert(late(points[p], hit.timestamp) && top(points[p]) == peak);
            if explains(track, hit) {
                let q = choose|q: int|
                    0 <= q < n && late(#[trigger] points[q], hit.timestamp) && no_more(
                        hit.target_hp_after as int,
                        top(points[q]),
                        larger(top(points[q]), hit.target_hp_before as int),
                    );
                assert(top(points[q]) <= peak);
            }
        },
        None => {},
    }
}

proof fn lemma_finishes(track: TrackView, hit: HitView)
    ensures
        target_track::last_blow_fits(track, target_fact::fact_of(hit)) <==> finishes(track, hit),
{
}

// ----------------------------------------------------------------- tracks picked out

proof fn lemma_picked(s: Seq<TrackView>, fits: spec_fn(TrackView) -> bool, n: int)
    requires
        0 <= n <= s.len(),
    ensures
        forall|i: int|
            0 <= i < target_track::tracks_with(s, fits, n).len() ==> 0
                <= #[trigger] target_track::tracks_with(s, fits, n)[i] < n && fits(
                s[target_track::tracks_with(s, fits, n)[i]],
            ),
        forall|i: int, j: int|
            0 <= i < j < target_track::tracks_with(s, fits, n).len()
                ==> #[trigger] target_track::tracks_with(s, fits, n)[i]
                < #[trigger] target_track::tracks_with(s, fits, n)[j],
        forall|k: int|
            0 <= k < n && fits(#[trigger] s[k]) ==> target_track::tracks_with(s, fits, n).contains(k),
    decreases n,
{
    if n > 0 {
        lemma_picked(s, fits, n - 1);
        let before = target_track::tracks_with(s, fits, n - 1);
        let all = target_track::tracks_with(s, fits, n);
        assert forall|k: int| 0 <= k < n && fits(#[trigger] s[k]) implies all.contains(k) by {
            if k < n - 1 {
                let w = choose|w: int| 0 <= w < before.len() && before[w] == k;
                assert(all[w] == k);
            } else {
                assert(all[all.len() - 1] == k);
            }
        }
    }
}

proof fn lemma_one_picked(s: Seq<TrackView>, fits: spec_fn(TrackView) -> bool, k: int)
    requires
        0 <= k < s.len(),
        fits(s[k]),
        forall|j: int| 0 <= j < s.len() && j != k ==> !fits(#[trigger] s[j]),
    ensures
        target_track::tracks_with(s, fits, s.len() as int) == seq![k],
{
    let all = target_track::tracks_with(s, fits, s.len() as int);
    lemma_picked(s, fits, s.len() as int);
    let w = choose|w: int| 0 <= w < all.len() && all[w] == k;
    if all.len() > 1 {
        let other = if w == 0 {
            1int
        } else {
            0int
        };
        assert(fits(s[all[other]]));
        assert(all[0] < all[1]);
        assert(all[other] == k);
    }
    assert(all =~= seq![k]);
}

proof fn lemma_none_picked(s: Seq<TrackView>, fits: spec_fn(TrackView) -> bool)
    requires
        forall|j: int| 0 <= j < s.len() ==> !fits(#[trigger] s[j]),
    ensures
        target_track::tracks_with(s, fits, s.len() as int).len() == 0,
{
    let all = target_track::tracks_with(s, fits, s.len() as int);
    lemma_picked(s, fits, s.len() as int);
    if all.len() > 0 {
        assert(fits(s[all[0]]));
    }
}

proof fn lemma_two_picked(s: Seq<TrackView>, fits: spec_fn(TrackView) -> bool, i: int, j: int)
    requires
        0 <= i < j < s.len(),
        fits(s[i]),
        fits(s[j]),
    ensures
        target_track::tracks_with(s, fits, s.len() as int).len() > 1,
{
    let all = target_track::tracks_with(s, fits, s.len() as int);
    lemma_picked(s, fits, s.len() as int);
    let a = choose|a: int| 0 <= a < all.len() && all[a] == i;
    let b = choose|b: int| 0 <= b < all.len() && all[b] == j;
    assert(a != b);
}

proof fn lemma_place(v: TracksView, k: int)
    requires
        distinct(v),
        0 <= k < v.tracks.len(),
    ensures
        target_track::track_at(v.tracks, v.tracks[k].track_id, 0) == k,
{
    lemma_place_from(v, k, 0);
}

proof fn lemma_place_from(v: TracksView, k: int, i: int)
    requires
        distinct(v),
        0 <= i <= k < v.tracks.len(),
    ensures
        target_track::track_at(v.tracks, v.tracks[k].track_id, i) == k,
    decreases k - i,
{
    if i < k {
        assert(v.tracks[i].track_id != v.tracks[k].track_id);
        lemma_place_from(v, k, i + 1);
    }
}

/// No two tracks have one id.
pub open spec fn distinct(v: TracksView) -> bool {
    forall|i: int, j: int|
        0 <= i < j < v.tracks.len() ==> (#[trigger] v.tracks[i]).track_id != (
        #[trigger] v.tracks[j]).track_id
}

// ---------------------------------------------------------- hits that nothing leads

/// The entry is not of those that lead to a track, object to one, or name one.
pub open spec fn says_nothing(entry: Seq<char>) -> bool {
    &&& !text::starts_with(entry, "actor_channel="@)
    &&& !text::starts_with(entry, "iris_ref32="@)
    &&& !text::starts_with(entry, "netguid32="@)
    &&& !text::starts_with(entry, "netguid_packed="@)
    &&& !text::starts_with(entry, "sdk_net_target="@)
    &&& !text::starts_with(entry, "target_handle_candidate="@)
    &&& !text::starts_with(entry, "boss_hp_guid="@)
    &&& !text::starts_with(entry, "current_hp_token="@)
    &&& !text::starts_with(entry, "target_conflict="@)
    &&& entry != "reason=recent_death_suppressed_stale_target"@
    &&& entry != "target_lifecycle=dead_or_expired"@
}

/// The hit goes out to a target that it says nothing of but its hit points.
pub open spec fn unled(hit: HitView) -> bool {
    &&& hit.direction != "incoming"@
    &&& hit.target_id is None
    &&& hit.target_name is None
    &&& forall|k: int|
        0 <= k < hit.target_context.len() ==> says_nothing(#[trigger] hit.target_context[k])
}

proof fn lemma_no_values(
    keys: Seq<Seq<char>>,
    context: Seq<Seq<char>>,
    key: Seq<char>,
    lead: Seq<char>,
    wanted: Wanted,
    n: int,
)
    requires
        0 <= n <= context.len(),
        forall|k: int|
            0 <= k < context.len() ==> !text::starts_with(#[trigger] context[k], key + "="@),
    ensures
        hit_context::with_values(keys, context, key, lead, wanted, n) == keys,
    decreases n,
{
    if n > 0 {
        lemma_no_values(keys, context, key, lead, wanted, n - 1);
        assert(!text::starts_with(context[n - 1], key + "="@));
    }
}

proof fn lemma_no_keys(hit: HitView)
    requires
        unled(hit),
    ensures
        hit_context::other_keys(hit.target_id, hit.target_context).len() == 0,
        hit_context::hp_keys(hit.target_id, hit.target_context).len() == 0,
        target_track::nameable(hit),
{
    let c = hit.target_context;
    let n = c.len() as int;
    let none = Seq::<Seq<char>>::empty();
    reveal_strlit("=");
    reveal_strlit("actor_channel");
    reveal_strlit("actor_channel=");
    reveal_strlit("iris_ref32");
    reveal_strlit("iris_ref32=");
    reveal_strlit("netguid32");
    reveal_strlit("netguid32=");
    reveal_strlit("netguid_packed");
    reveal_strlit("netguid_packed=");
    reveal_strlit("sdk_net_target");
    reveal_strlit("sdk_net_target=");
    reveal_strlit("target_handle_candidate");
    reveal_strlit("target_handle_candidate=");
    reveal_strlit("boss_hp_guid");
    reveal_strlit("boss_hp_guid=");
    reveal_strlit("current_hp_token");
    reveal_strlit("current_hp_token=");
    assert("actor_channel"@ + "="@ =~= "actor_channel="@);
    assert("iris_ref32"@ + "="@ =~= "iris_ref32="@);
    assert("netguid32"@ + "="@ =~= "netguid32="@);
    assert("netguid_packed"@ + "="@ =~= "netguid_packed="@);
    assert("sdk_net_target"@ + "="@ =~= "sdk_net_target="@);
    assert("target_handle_candidate"@ + "="@ =~= "target_handle_candidate="@);
    assert("boss_hp_guid"@ + "="@ =~= "boss_hp_guid="@);
    assert("current_hp_token"@ + "="@ =~= "current_hp_token="@);
    lemma_no_values(none, c, "actor_channel"@, "actor_channel:"@, Wanted::Any, n);
    lemma_no_values(none, c, "iris_ref32"@, "iris_ref32:"@, Wanted::Any, n);
    lemma_no_values(none, c, "netguid32"@, "netguid32:"@, Wanted::Any, n);
    lemma_no_values(none, c, "netguid_packed"@, "netguid_packed:"@, Wanted::Any, n);
    lemma_no_values(none, c, "sdk_net_target"@, "sdk_net_target:"@, Wanted::Any, n);
    lemma_no_values(none, c, "target_handle_candidate"@, ""@, Wanted::Others, n);
    lemma_no_values(none, c, "target_handle_candidate"@, ""@, Wanted::HitPoints, n);
    lemma_no_values(none, c, "boss_hp_guid"@, "boss_hp_guid:"@, Wanted::Any, n);
    lemma_no_values(none, c, "current_hp_token"@, "current_hp_token:"@, Wanted::Any, n);
    assert forall|k: int| 0 <= k < c.len() implies !Entry::Starting("target_conflict=").holds(
        #[trigger] c[k],
    ) && !Entry::Exactly("reason=recent_death_suppressed_stale_target").holds(c[k])
        && !Entry::Exactly("target_lifecycle=dead_or_expired").holds(c[k]) by {
        assert(says_nothing(c[k]));
    }
}

/// The packet does not tell the hit's target: it tells of none, or of several, or a
/// target is already about.
pub open spec fn untold(v: TracksView, hit: HitView, context: ContextView) -> bool {
    ||| context.multiple
    ||| context.paths.len() == 0
    ||| context.names.len() == 0
    ||| exists|k: int| 0 <= k < v.tracks.len() && about(#[trigger] v.tracks[k], hit.timestamp)
}

proof fn lemma_untold(v: TracksView, hit: HitView, context: ContextView)
    requires
        untold(v, hit, context),
    ensures
        target_track::told_target(v, hit, target_fact::fact_of(hit), context) is None,
{
    let fits = |t: TrackView| target_track::active(t, hit.timestamp);
    if exists|k: int| 0 <= k < v.tracks.len() && about(#[trigger] v.tracks[k], hit.timestamp) {
        let k = choose|k: int| 0 <= k < v.tracks.len() && about(#[trigger] v.tracks[k], hit.timestamp);
        lemma_picked(v.tracks, fits, v.tracks.len() as int);
        assert(fits(v.tracks[k]));
        let all = target_track::tracks_with(v.tracks, fits, v.tracks.len() as int);
        let w = choose|w: int| 0 <= w < all.len() && all[w] == k;
        assert(all.len() > 0);
    }
}

/// The track has the hit in its timeline, as the last point of at most sixteen, and was
/// seen with it.
pub open spec fn took(before: TrackView, after: TrackView, hit: HitView) -> bool {
    &&& after.hp_timeline.len() > 0
    &&& after.hp_timeline.len() == if before.hp_timeline.len() < 16 {
        before.hp_timeline.len() + 1
    } else {
        16
    }
    &&& after.hp_timeline.last().timestamp == hit.timestamp
    &&& after.hp_timeline.last().hp_before == hit.target_hp_before
    &&& after.hp_timeline.last().hp_after == hit.target_hp_after
    &&& after.last_seen_at == hit.timestamp
    &&& after.last_damage_at == Some(hit.timestamp)
    &&& after.track_id == before.track_id
    &&& after.target_name == before.target_name
    &&& after.canonical_target_key == before.canonical_target_key
}

/// The hit was counted on the track at the place: it has the track's id, it went into
/// the track's timeline, and it got the track's name where the track has one for sure.
pub open spec fn counted_on(v: TracksView, o: Outcome, hit: HitView, k: int) -> bool {
    let track = v.tracks[k];
    &&& o.result.target_track_id == Some(track.track_id)
    &&& !o.result.ambiguous
    &&& o.store.tracks.len() == v.tracks.len()
    &&& forall|j: int|
        0 <= j < v.tracks.len() && j != k ==> o.store.tracks[j] == #[trigger] v.tracks[j]
    &&& took(track, o.store.tracks[k], hit)
    &&& track.label_state == TargetLabelState::Locked && track.target_name is Some
        ==> o.result.projected && o.hit.target_name == track.target_name && o.hit.target_id == Some(
        track.track_id,
    )
    &&& !o.result.projected ==> o.hit.target_name == hit.target_name && o.hit.target_id
        == hit.target_id
}

/// Nothing was decided of the hit.
pub open spec fn left_open(v: TracksView, o: Outcome, hit: HitView) -> bool {
    &&& o.store == v
    &&& o.hit.target_name == hit.target_name
    &&& o.hit.target_id == hit.target_id
    &&& !o.result.projected
    &&& o.result.target_track_id is None
}

/// A hit that nothing leads, on a target that survives it, is counted on the only track
/// whose hit points explain it; where several do, or none does, it is left open.
#[verifier::spinoff_prover]
#[verifier::rlimit(60)]
pub proof fn hits_go_to_the_track_that_explains_them(
    v: TracksView,
    hit: HitView,
    summary: SummaryView,
    context: ContextView,
)
    requires
        distinct(v),
        unled(hit),
        hit.target_hp_after > 1_000,
    ensures
        forall|k: int|
            0 <= k < v.tracks.len() && explains(#[trigger] v.tracks[k], hit) && (forall|j: int|
                0 <= j < v.tracks.len() && j != k ==> !explains(#[trigger] v.tracks[j], hit))
                ==> counted_on(v, target_track::attributed(v, hit, summary, context), hit, k),
        (exists|i: int, j: int|
            0 <= i < j < v.tracks.len() && explains(#[trigger] v.tracks[i], hit) && explains(
                #[trigger] v.tracks[j],
                hit,
            )) ==> left_open(v, target_track::attributed(v, hit, summary, context), hit) && target_track::attributed(
            v,
            hit,
            summary,
            context,
        ).result.ambiguous,
        untold(v, hit, context) && (forall|j: int|
            0 <= j < v.tracks.len() ==> !explains(#[trigger] v.tracks[j], hit)) ==> left_open(
            v,
            target_track::attributed(v, hit, summary, context),
            hit,
        ) && target_track::attributed(v, hit, summary, context).hit.target_context.contains(
            if context.multiple {
                "track_reject_reason=no_matching_track_multiple_canonical_targets"@
            } else {
                "track_reject_reason=hp_stream_mismatch"@
            },
        ),
{
    let fact = target_fact::fact_of(hit);
    let o = target_track::attributed(v, hit, summary, context);
    lemma_no_keys(hit);
    lemma_unled_outcome(v, hit, summary, context);
    let fits = |t: TrackView| target_track::stream_fits(t, fact);
    assert forall|k: int| 0 <= k < v.tracks.len() implies fits(#[trigger] v.tracks[k]) == explains(
        v.tracks[k],
        hit,
    ) by {
        lemma_explains(v.tracks[k], hit);
    }
    assert forall|k: int|
        0 <= k < v.tracks.len() && explains(#[trigger] v.tracks[k], hit) && (forall|j: int|
            0 <= j < v.tracks.len() && j != k ==> !explains(
                #[trigger] v.tracks[j],
                hit,
            )) implies counted_on(v, o, hit, k) by {
        assert(fits(v.tracks[k]));
        lemma_one_picked(v.tracks, fits, k);
        assert(target_track::fitting(v, fact) == seq![k]);
        lemma_place(v, k);
    }
    if exists|i: int, j: int|
        0 <= i < j < v.tracks.len() && explains(#[trigger] v.tracks[i], hit) && explains(
            #[trigger] v.tracks[j],
            hit,
        ) {
        let (i, j) = choose|i: int, j: int|
            0 <= i < j < v.tracks.len() && explains(#[trigger] v.tracks[i], hit) && explains(
                #[trigger] v.tracks[j],
                hit,
            );
        assert(fits(v.tracks[i]) && fits(v.tracks[j]));
        lemma_two_picked(v.tracks, fits, i, j);
    }
    if untold(v, hit, context) && (forall|j: int|
        0 <= j < v.tracks.len() ==> !explains(#[trigger] v.tracks[j], hit)) {
        assert forall|j: int| 0 <= j < v.tracks.len() implies !fits(#[trigger] v.tracks[j]) by {}
        lemma_none_picked(v.tracks, fits);
        lemma_untold(v, hit, context);
        reveal_strlit("track_reject_reason");
        reveal_strlit("=");
        reveal_strlit("hp_stream_mismatch");
        reveal_strlit("no_matching_track_multiple_canonical_targets");
        reveal_strlit("track_reject_reason=hp_stream_mismatch");
        reveal_strlit("track_reject_reason=no_matching_track_multiple_canonical_targets");
        let reason = if context.multiple {
            "no_matching_track_multiple_canonical_targets"@
        } else {
            "hp_stream_mismatch"@
        };
        assert("track_reject_reason"@ + "="@ + "hp_stream_mismatch"@
            =~= "track_reject_reason=hp_stream_mismatch"@);
        assert("track_reject_reason"@ + "="@ + "no_matching_track_multiple_canonical_targets"@
            =~= "track_reject_reason=no_matching_track_multiple_canonical_targets"@);
        lemma_entry_is_there(
            hit_context::without_key(
                hit_context::replaced(
                    target_track::count_notes(
                        target_track::count_notes(
                            hit.target_context,
                            target_track::active_count(v, fact.timestamp),
                            0,
                        ),
                        target_track::active_count(v, fact.timestamp),
                        0,
                    ),
                    "track_decision"@,
                    "not_projected"@,
                ),
                "track_reject_reason"@,
            ),
            "track_reject_reason"@ + "="@ + reason,
        );
    }
}

proof fn lemma_entry_is_there(context: Seq<Seq<char>>, entry: Seq<char>)
    ensures
        hit_context::with_entry(context, entry).contains(entry),
{
    let all = hit_context::with_entry(context, entry);
    if !context.contains(entry) {
        assert(all[all.len() - 1] == entry);
    }
}

/// Nothing but the hit points decides about a hit that nothing leads.
#[verifier::spinoff_prover]
#[verifier::rlimit(60)]
proof fn lemma_unled_outcome(v: TracksView, hit: HitView, summary: SummaryView, context: ContextView)
    requires
        unled(hit),
        hit.target_hp_after > 1_000,
    ensures
        target_track::attributed(v, hit, summary, context).store == target_track::unled_hit(
            v,
            hit,
            summary,
            target_fact::fact_of(hit),
            context,
        ).store,
        target_track::attributed(v, hit, summary, context).hit == target_track::unled_hit(
            v,
            hit,
            summary,
            target_fact::fact_of(hit),
            context,
        ).hit,
        ({
            let u = target_track::unled_hit(
                v,
                hit,
                summary,
                target_fact::fact_of(hit),
                context,
            ).result;
            let r = target_track::attributed(v, hit, summary, context).result;
            r == u || (u.target_track_id is None && !u.ambiguous && r == target_track::nothing())
        }),
{
    lemma_no_keys(hit);
    let fact = target_fact::fact_of(hit);
    let aliases = hit_context::other_keys(hit.target_id, hit.target_context);
    let handles = hit_context::hp_keys(hit.target_id, hit.target_context);
    assert(target_track::usable_tracks(v, aliases, fact.timestamp, false, aliases.len() as int).len()
        == 0);
    assert(target_track::usable_tracks(v, handles, fact.timestamp, true, handles.len() as int).len()
        == 0);
    assert(!target_track::teaches(hit, summary));
    let a = target_track::after_name(v, hit, summary, fact);
    assert(a == target_track::unchanged(v, hit, summary));
    let u = target_track::unnamed_hit(v, hit, summary, fact, context);
    assert(u == target_track::unled_hit(v, hit, summary, fact, context));
    let b = target_track::after_projection(a, fact, context);
    assert(b.hit.target_hp_after == hit.target_hp_after);
}

/// The track at the place is dead since the hit, and its handles rest.
pub open spec fn died(o: Outcome, hit: HitView, k: int) -> bool {
    &&& o.store.tracks[k].lifecycle == TargetLifecycle::Dead
    &&& o.store.tracks[k].quarantined_at == Some(hit.timestamp)
}

#[verifier::spinoff_prover]
#[verifier::rlimit(60)]
proof fn lemma_unled_deadly(v: TracksView, hit: HitView, summary: SummaryView, context: ContextView)
    requires
        unled(hit),
        hit.target_hp_after <= 1_000,
    ensures
        ({
            let fact = target_fact::fact_of(hit);
            let u = target_track::unled_hit(v, hit, summary, fact, context);
            let b = if u.result.target_track_id is Some || u.result.ambiguous {
                u
            } else {
                Outcome { result: target_track::nothing(), ..u }
            };
            target_track::attributed(v, hit, summary, context) == target_track::after_death(b, fact)
        }),
        target_track::unled_hit(
            v,
            hit,
            summary,
            target_fact::fact_of(hit),
            context,
        ).hit.target_hp_after == hit.target_hp_after,
        target_track::unled_hit(
            v,
            hit,
            summary,
            target_fact::fact_of(hit),
            context,
        ).hit.timestamp == hit.timestamp,
{
    lemma_no_keys(hit);
    let fact = target_fact::fact_of(hit);
    let aliases = hit_context::other_keys(hit.target_id, hit.target_context);
    let handles = hit_context::hp_keys(hit.target_id, hit.target_context);
    assert(target_track::usable_tracks(v, aliases, fact.timestamp, false, aliases.len() as int).len()
        == 0);
    assert(target_track::usable_tracks(v, handles, fact.timestamp, true, handles.len() as int).len()
        == 0);
    assert(!target_track::teaches(hit, summary));
    let a = target_track::after_name(v, hit, summary, fact);
    assert(a == target_track::unchanged(v, hit, summary));
    let u = target_track::unnamed_hit(v, hit, summary, fact, context);
    assert(u == target_track::unled_hit(v, hit, summary, fact, context));
}

/// A hit that nothing leads and that kills its target goes to the only track whose hit
/// points explain it, and where none does, to the only one that it can be the last hit
/// on; that track is then dead. Where there is no such track, or several, it is left
/// open.
#[verifier::spinoff_prover]
#[verifier::rlimit(80)]
pub proof fn deadly_hits_end_the_track_that_they_go_to(
    v: TracksView,
    hit: HitView,
    summary: SummaryView,
    context: ContextView,
)
    requires
        distinct(v),
        unled(hit),
        hit.target_hp_after <= 1_000,
        untold(v, hit, context),
    ensures
        forall|k: int|
            0 <= k < v.tracks.len() && explains(#[trigger] v.tracks[k], hit) && (forall|j: int|
                0 <= j < v.tracks.len() && j != k ==> !explains(#[trigger] v.tracks[j], hit))
                ==> target_track::attributed(v, hit, summary, context).result.target_track_id
                == Some(v.tracks[k].track_id) && died(
                target_track::attributed(v, hit, summary, context),
                hit,
                k,
            ),
        (forall|j: int| 0 <= j < v.tracks.len() ==> !explains(#[trigger] v.tracks[j], hit))
            ==> forall|k: int|
            0 <= k < v.tracks.len() && finishes(#[trigger] v.tracks[k], hit) && (forall|j: int|
                0 <= j < v.tracks.len() && j != k ==> !finishes(#[trigger] v.tracks[j], hit))
                ==> target_track::attributed(v, hit, summary, context).result.target_track_id
                == Some(v.tracks[k].track_id) && died(
                target_track::attributed(v, hit, summary, context),
                hit,
                k,
            ),
        (forall|j: int|
            0 <= j < v.tracks.len() ==> !explains(#[trigger] v.tracks[j], hit) && !finishes(
                v.tracks[j],
                hit,
            )) ==> left_open(v, target_track::attributed(v, hit, summary, context), hit),
{
    let fact = target_fact::fact_of(hit);
    let o = target_track::attributed(v, hit, summary, context);
    lemma_unled_deadly(v, hit, summary, context);
    lemma_untold(v, hit, context);
    let fits = |t: TrackView| target_track::stream_fits(t, fact);
    let ends = |t: TrackView| target_track::last_blow_fits(t, fact);
    assert forall|k: int| 0 <= k < v.tracks.len() implies fits(#[trigger] v.tracks[k]) == explains(
        v.tracks[k],
        hit,
    ) && ends(v.tracks[k]) == finishes(v.tracks[k], hit) by {
        lemma_explains(v.tracks[k], hit);
        lemma_finishes(v.tracks[k], hit);
    }
    let u = target_track::unled_hit(v, hit, summary, fact, context);
    assert forall|k: int|
        0 <= k < v.tracks.len() && explains(#[trigger] v.tracks[k], hit) && (forall|j: int|
            0 <= j < v.tracks.len() && j != k ==> !explains(
                #[trigger] v.tracks[j],
                hit,
            )) implies o.result.target_track_id == Some(v.tracks[k].track_id) && died(o, hit, k) by {
        assert(fits(v.tracks[k]));
        lemma_one_picked(v.tracks, fits, k);
        assert(target_track::fitting(v, fact) == seq![k]);
        lemma_place(v, k);
        assert(u.result.target_track_id == Some(v.tracks[k].track_id));
        lemma_same_place(v, u.store, k);
    }
    if forall|j: int| 0 <= j < v.tracks.len() ==> !explains(#[trigger] v.tracks[j], hit) {
        assert forall|j: int| 0 <= j < v.tracks.len() implies !(fits(#[trigger] v.tracks[j])) by {}
        lemma_none_picked(v.tracks, fits);
        assert(target_track::fitting(v, fact).len() == 0);
        assert(u.store == v && u.result == target_track::nothing());
        assert forall|k: int|
            0 <= k < v.tracks.len() && finishes(#[trigger] v.tracks[k], hit) && (forall|j: int|
                0 <= j < v.tracks.len() && j != k ==> !finishes(
                    #[trigger] v.tracks[j],
                    hit,
                )) implies o.result.target_track_id == Some(v.tracks[k].track_id) && died(
            o,
            hit,
            k,
        ) by {
            assert(ends(v.tracks[k]));
            lemma_one_picked(v.tracks, ends, k);
            lemma_place(v, k);
            let b = Outcome { result: target_track::nothing(), ..u };
            let t = target_track::last_blow(v, u.hit, u.summary, fact);
            assert(t.result.target_track_id == Some(v.tracks[k].track_id));
            lemma_same_place(v, t.store, k);
        }
        if forall|j: int| 0 <= j < v.tracks.len() ==> !finishes(#[trigger] v.tracks[j], hit) {
            assert forall|j: int| 0 <= j < v.tracks.len() implies !(ends(#[trigger] v.tracks[j])) by {}
            lemma_none_picked(v.tracks, ends);
        }
    }
}

proof fn lemma_same_place(v: TracksView, w: TracksView, k: int)
    requires
        distinct(v),
        0 <= k < v.tracks.len(),
        w.tracks.len() == v.tracks.len(),
        w.tracks[k].track_id == v.tracks[k].track_id,
        forall|j: int|
            0 <= j < v.tracks.len() && j != k ==> #[trigger] w.tracks[j] == v.tracks[j],
    ensures
        target_track::track_at(w.tracks, v.tracks[k].track_id, 0) == k,
{
    assert(distinct(w)) by {
        assert forall|i: int, j: int| 0 <= i < j < w.tracks.len() implies (
        #[trigger] w.tracks[i]).track_id != (#[trigger] w.tracks[j]).track_id by {
            assert(v.tracks[i].track_id != v.tracks[j].track_id);
        }
    }
    lemma_place(w, k);
}

// ------------------------------------------------------------- hits that are led

/// The hit goes out to a target that it does not name, and nothing objects to naming
/// it.
pub open spec fn unnamed(hit: HitView) -> bool {
    &&& hit.direction != "incoming"@
    &&& hit.target_name is None
    &&& forall|k: int|
        0 <= k < hit.target_context.len() ==> !text::starts_with(
            #[trigger] hit.target_context[k],
            "target_conflict="@,
        ) && hit.target_context[k] != "reason=recent_death_suppressed_stale_target"@
            && hit.target_context[k] != "target_lifecycle=dead_or_expired"@
}

/// The keys that are known lead to the track at the place, and one of them is known.
pub open spec fn all_lead_to(
    index: Map<Seq<char>, Seq<char>>,
    keys: Seq<Seq<char>>,
    id: Seq<char>,
) -> bool {
    &&& exists|i: int| 0 <= i < keys.len() && index.contains_key(#[trigger] keys[i])
    &&& forall|i: int|
        0 <= i < keys.len() && index.contains_key(#[trigger] keys[i]) ==> index[keys[i]] == id
}

/// None of the keys is known.
pub open spec fn none_leads(index: Map<Seq<char>, Seq<char>>, keys: Seq<Seq<char>>) -> bool {
    forall|i: int| 0 <= i < keys.len() ==> !index.contains_key(#[trigger] keys[i])
}

/// The target is not known to be dead, and it was last seen before the time.
pub open spec fn can_take(track: TrackView, timestamp: i64) -> bool {
    &&& track.lifecycle == TargetLifecycle::Provisional || track.lifecycle
        == TargetLifecycle::Active || track.lifecycle == TargetLifecycle::Dying
    &&& track.last_seen_at <= timestamp
}

/// The track's handles rest: its target died in the last eight seconds.
pub open spec fn rests(track: TrackView, timestamp: i64) -> bool {
    track.quarantined_at matches Some(at) && at <= timestamp <= at + 8_000_000
}

proof fn lemma_led(
    v: TracksView,
    keys: Seq<Seq<char>>,
    timestamp: i64,
    hp_handle: bool,
    k: int,
    n: int,
)
    requires
        distinct(v),
        0 <= k < v.tracks.len(),
        0 <= n <= keys.len(),
        forall|i: int|
            0 <= i < keys.len() && v.index(hp_handle).contains_key(#[trigger] keys[i])
                ==> v.index(hp_handle)[keys[i]] == v.tracks[k].track_id,
    ensures
        ({
            let r = target_track::usable_tracks(v, keys, timestamp, hp_handle, n);
            let taken = can_take(v.tracks[k], timestamp) && (!hp_handle || !rests(
                v.tracks[k],
                timestamp,
            ));
            &&& taken && (exists|i: int|
                0 <= i < n && v.index(hp_handle).contains_key(#[trigger] keys[i])) ==> r == seq![
                v.tracks[k].track_id,
            ]
            &&& !taken || (forall|i: int|
                0 <= i < n ==> !v.index(hp_handle).contains_key(#[trigger] keys[i])) ==> r
                == Seq::<Seq<char>>::empty()
        }),
    decreases n,
{
    let id = v.tracks[k].track_id;
    if n > 0 {
        lemma_led(v, keys, timestamp, hp_handle, k, n - 1);
        lemma_place(v, k);
        let before = target_track::usable_tracks(v, keys, timestamp, hp_handle, n - 1);
        let r = target_track::usable_tracks(v, keys, timestamp, hp_handle, n);
        let taken = can_take(v.tracks[k], timestamp) && (!hp_handle || !rests(
            v.tracks[k],
            timestamp,
        ));
        assert(target_track::usable(v.tracks[k], timestamp) == can_take(v.tracks[k], timestamp));
        assert(target_track::quarantined(v.tracks[k], timestamp) == rests(v.tracks[k], timestamp));
        if v.index(hp_handle).contains_key(keys[n - 1]) {
            assert(target_track::led_to(v, keys[n - 1], hp_handle) == k);
            if taken {
                if exists|i: int|
                    0 <= i < n - 1 && v.index(hp_handle).contains_key(#[trigger] keys[i]) {
                    assert(before == seq![id]);
                    assert(before[0] == id);
                    assert(before.contains(id));
                    assert(r == before);
                } else {
                    assert(before == Seq::<Seq<char>>::empty());
                    assert(r =~= seq![id]);
                }
            }
        } else {
            assert(r == before);
            if exists|i: int| 0 <= i < n && v.index(hp_handle).contains_key(#[trigger] keys[i]) {
                let i = choose|i: int|
                    0 <= i < n && v.index(hp_handle).contains_key(#[trigger] keys[i]);
                assert(i < n - 1);
            }
        }
    }
}

proof fn lemma_unnamed_is_nameable(hit: HitView)
    requires
        unnamed(hit),
    ensures
        target_track::nameable(hit),
{
    let c = hit.target_context;
    assert forall|k: int| 0 <= k < c.len() implies !Entry::Starting("target_conflict=").holds(
        #[trigger] c[k],
    ) && !Entry::Exactly("reason=recent_death_suppressed_stale_target").holds(c[k])
        && !Entry::Exactly("target_lifecycle=dead_or_expired").holds(c[k]) by {}
}

/// A hit that does not name its target, on one that survives it, is counted on the
/// track that all its known identities lead to; and where it has none, on the track
/// that all its known handles of hit points lead to, unless these rest.
#[verifier::spinoff_prover]
#[verifier::rlimit(80)]
pub proof fn hits_go_where_their_identities_lead(
    v: TracksView,
    hit: HitView,
    summary: SummaryView,
    context: ContextView,
    k: int,
)
    requires
        distinct(v),
        unnamed(hit),
        hit.target_hp_after > 1_000,
        0 <= k < v.tracks.len(),
        can_take(v.tracks[k], hit.timestamp),
    ensures
        all_lead_to(
            v.aliases,
            hit_context::other_keys(hit.target_id, hit.target_context),
            v.tracks[k].track_id,
        ) ==> counted_on(v, target_track::attributed(v, hit, summary, context), hit, k),
        none_leads(v.aliases, hit_context::other_keys(hit.target_id, hit.target_context))
            && all_lead_to(
            v.handles,
            hit_context::hp_keys(hit.target_id, hit.target_context),
            v.tracks[k].track_id,
        ) && !rests(v.tracks[k], hit.timestamp) ==> counted_on(
            v,
            target_track::attributed(v, hit, summary, context),
            hit,
            k,
        ),
{
    let fact = target_fact::fact_of(hit);
    let aliases = hit_context::other_keys(hit.target_id, hit.target_context);
    let handles = hit_context::hp_keys(hit.target_id, hit.target_context);
    let id = v.tracks[k].track_id;
    lemma_unnamed_is_nameable(hit);
    assert(!target_track::teaches(hit, summary));
    let a = target_track::after_name(v, hit, summary, fact);
    assert(a == target_track::unchanged(v, hit, summary));
    let u = target_track::unnamed_hit(v, hit, summary, fact, context);
    lemma_place(v, k);
    if all_lead_to(v.aliases, aliases, id) {
        lemma_led(v, aliases, hit.timestamp, false, k, aliases.len() as int);
        assert(u == target_track::projected_on(
            v,
            id,
            hit,
            summary,
            fact,
            "unique_non_hp_alias"@,
        ));
    }
    if none_leads(v.aliases, aliases) && all_lead_to(v.handles, handles, id) && !rests(
        v.tracks[k],
        hit.timestamp,
    ) {
        lemma_led(v, aliases, hit.timestamp, false, k, aliases.len() as int);
        lemma_led(v, handles, hit.timestamp, true, k, handles.len() as int);
        assert(u == target_track::projected_on(
            v,
            id,
            hit,
            summary,
            fact,
            "unique_locked_hp_handle"@,
        ));
    }
}

// ------------------------------------------------------------- hits that name

/// What a hit that names its target has taught: its track has its name for sure, takes
/// the hit, and is what its identities and handles lead to from now on.
pub open spec fn taught(o: Outcome, hit: HitView, name: Seq<char>, id: Seq<char>) -> bool {
    let aliases = hit_context::other_keys(hit.target_id, hit.target_context);
    let handles = hit_context::hp_keys(hit.target_id, hit.target_context);
    &&& exists|k: int|
        0 <= k < o.store.tracks.len() && {
            let t = #[trigger] o.store.tracks[k];
            &&& t.track_id == id
            &&& t.target_name == Some(name)
            &&& t.label_state == TargetLabelState::Locked
            &&& t.lifecycle == TargetLifecycle::Active
            &&& t.last_seen_at == hit.timestamp
            &&& t.hp_timeline.len() > 0
            &&& t.hp_timeline.last().timestamp == hit.timestamp
            &&& t.hp_timeline.last().hp_before == hit.target_hp_before
            &&& t.hp_timeline.last().hp_after == hit.target_hp_after
        }
    &&& forall|i: int|
        0 <= i < aliases.len() ==> o.store.aliases.contains_key(#[trigger] aliases[i])
            && o.store.aliases[aliases[i]] == id
    &&& forall|i: int|
        0 <= i < handles.len() ==> o.store.handles.contains_key(#[trigger] handles[i])
            && o.store.handles[handles[i]] == id
    &&& o.hit.target_name == Some(name)
    &&& o.hit.target_id == Some(id)
    &&& !o.result.ambiguous
}

proof fn lemma_leading(
    index: Map<Seq<char>, Seq<char>>,
    keys: Seq<Seq<char>>,
    id: Seq<char>,
    n: int,
)
    requires
        0 <= n <= keys.len(),
    ensures
        forall|i: int|
            0 <= i < n ==> target_track::leading(index, keys, id, n).contains_key(
                #[trigger] keys[i],
            ) && target_track::leading(index, keys, id, n)[keys[i]] == id,
    decreases n,
{
    if n > 0 {
        lemma_leading(index, keys, id, n - 1);
    }
}

/// A hit that names its target, and is taken to be on a track, teaches that track: the
/// result says which. It is the name without the space around it that is learned.
#[verifier::spinoff_prover]
#[verifier::rlimit(100)]
pub proof fn named_hits_teach_their_track(
    v: TracksView,
    hit: HitView,
    summary: SummaryView,
    context: ContextView,
)
    requires
        hit.direction != "incoming"@,
        hit.target_hp_after > 1_000,
        target_track::teaches(hit, summary),
        target_track::after_name(
            v,
            hit,
            summary,
            target_fact::fact_of(hit),
        ).result.target_track_id is Some,
    ensures
        target_track::attributed(v, hit, summary, context).result.target_track_id is Some,
        !target_track::attributed(v, hit, summary, context).result.projected,
        taught(
            target_track::attributed(v, hit, summary, context),
            hit,
            text::trim(hit.target_name.unwrap(), text::Class::Space),
            target_track::attributed(v, hit, summary, context).result.target_track_id.unwrap(),
        ),
{
    let fact = target_fact::fact_of(hit);
    let a = target_track::after_name(v, hit, summary, fact);
    let name = target_track::clean_name(hit).unwrap();
    assert(name == text::trim(hit.target_name.unwrap(), text::Class::Space));
    let source = target_track::identity_source(hit, summary).unwrap();
    assert(target_track::target_path(hit) is Some);
    let path = target_track::target_path(hit).unwrap();
    let key = target_track::key_of_target(name, path);
    assert(target_track::named_objection(v, hit, key, name) is None);
    let aliases = hit_context::other_keys(hit.target_id, hit.target_context);
    let handles = hit_context::hp_keys(hit.target_id, hit.target_context);
    let found = target_track::track_for(v, aliases, handles, key, path, fact.timestamp);
    let w = found.0;
    let id = found.1;
    assert(a == target_track::named_on(w, id, hit, summary, fact, source, name, path, key));
    let at = target_track::track_at(w.tracks, id, 0);
    lemma_found(w.tracks, id, 0);
    assert(0 <= at < w.tracks.len());
    let track = w.tracks[at];
    assert(track.canonical_target_key == key);
    let named = target_track::named_track(track, name, path, source, fact, aliases, handles);
    assert(track.track_id == id);
    assert(a.store.tracks[at] == named);
    lemma_leading(w.aliases, aliases, id, aliases.len() as int);
    lemma_leading(w.handles, handles, id, handles.len() as int);
    assert(a.hit == target_track::hit_on_track(named, hit, false, "track_named_hit"@));
    assert(!target_track::nameable(a.hit));
    let b = target_track::after_projection(a, fact, context);
    assert(b.store == a.store && b.result == a.result);
    assert(b.hit.target_name == a.hit.target_name && b.hit.target_id == a.hit.target_id);
    assert(b.hit.target_hp_after == hit.target_hp_after);
}

proof fn lemma_found(s: Seq<TrackView>, id: Seq<char>, i: int)
    requires
        0 <= i <= s.len(),
    ensures
        i <= target_track::track_at(s, id, i) <= s.len(),
        target_track::track_at(s, id, i) < s.len() ==> s[target_track::track_at(s, id, i)].track_id
            == id,
    decreases s.len() - i,
{
    if i < s.len() && s[i].track_id != id {
        lemma_found(s, id, i + 1);
    }
}

proof fn lemma_no_objection(
    v: TracksView,
    keys: Seq<Seq<char>>,
    key: Seq<char>,
    name: Seq<char>,
    hp_handle: bool,
    timestamp: i64,
    i: int,
)
    requires
        none_leads(v.index(hp_handle), keys),
        0 <= i <= keys.len(),
    ensures
        target_track::first_objection(v, keys, key, name, hp_handle, timestamp, i) is None,
        target_track::first_led(v.index(hp_handle), keys, i) is None,
    decreases keys.len() - i,
{
    if i < keys.len() {
        lemma_no_objection(v, keys, key, name, hp_handle, timestamp, i + 1);
    }
}

proof fn lemma_no_handled(v: TracksView, handles: Seq<Seq<char>>, key: Seq<char>, n: int)
    requires
        none_leads(v.handles, handles),
        0 <= n <= handles.len(),
    ensures
        target_track::handled_tracks(v, handles, key, n).len() == 0,
    decreases n,
{
    if n > 0 {
        lemma_no_handled(v, handles, key, n - 1);
    }
}

/// A hit that names a target of which nothing is known yet, neither by its identities
/// nor by its handles nor by a track that is about, starts a track: the next one of the
/// target's canonical key.
#[verifier::spinoff_prover]
#[verifier::rlimit(100)]
pub proof fn unknown_targets_get_a_track(
    v: TracksView,
    hit: HitView,
    summary: SummaryView,
    path: Seq<char>,
)
    requires
        target_track::sound(v),
        target_track::has_room(v),
        target_track::teaches(hit, summary),
        target_track::target_path(hit) == Some(path),
        none_leads(v.aliases, hit_context::other_keys(hit.target_id, hit.target_context)),
        none_leads(v.handles, hit_context::hp_keys(hit.target_id, hit.target_context)),
        forall|k: int|
            0 <= k < v.tracks.len() ==> !(about(#[trigger] v.tracks[k], hit.timestamp)
                && v.tracks[k].canonical_target_key == target_track::key_of_target(
                text::trim(hit.target_name.unwrap(), text::Class::Space),
                path,
            )),
    ensures
        ({
            let key = target_track::key_of_target(
                text::trim(hit.target_name.unwrap(), text::Class::Space),
                path,
            );
            let o = target_track::after_name(v, hit, summary, target_fact::fact_of(hit));
            let n = if v.generations.contains_key(key) {
                v.generations[key] + 1
            } else {
                1
            };
            &&& o.result.target_track_id == Some(key + "#"@ + text::dec(n as nat))
            &&& o.store.tracks.len() == v.tracks.len() + 1
            &&& o.store.tracks.last().canonical_target_key == key
            &&& o.store.tracks.last().first_seen_at == hit.timestamp
            &&& forall|k: int| 0 <= k < v.tracks.len() ==> #[trigger] o.store.tracks[k] == v.tracks[k]
            &&& o.store.generations.contains_key(key) && o.store.generations[key] == n
        }),
{
    let fact = target_fact::fact_of(hit);
    let name = target_track::clean_name(hit).unwrap();
    let source = target_track::identity_source(hit, summary).unwrap();
    let key = target_track::key_of_target(name, path);
    let aliases = hit_context::other_keys(hit.target_id, hit.target_context);
    let handles = hit_context::hp_keys(hit.target_id, hit.target_context);
    assert(v.index(false) == v.aliases && v.index(true) == v.handles);
    lemma_no_objection(v, aliases, key, name, false, hit.timestamp, 0);
    lemma_no_objection(v, handles, key, name, true, hit.timestamp, 0);
    lemma_no_handled(v, handles, key, handles.len() as int);
    let here = |t: TrackView| target_track::active_of_key(t, key, hit.timestamp);
    assert forall|j: int| 0 <= j < v.tracks.len() implies !(here(#[trigger] v.tracks[j])) by {}
    lemma_none_picked(v.tracks, here);
    target_track::new_tracks_are_new(v, key, path, hit.timestamp);
    let made = target_track::track_created(v, key, path, hit.timestamp);
    assert(target_track::track_for(v, aliases, handles, key, path, hit.timestamp) == made);
    let o = target_track::after_name(v, hit, summary, fact);
    assert(o == target_track::named_on(made.0, made.1, hit, summary, fact, source, name, path, key));
}

/// A hit whose identity leads to a track of another target is not taken to be on that
/// track: nothing is learned from it, and it is noted to be in conflict.
#[verifier::spinoff_prover]
#[verifier::rlimit(60)]
pub proof fn identities_of_other_targets_object(
    v: TracksView,
    hit: HitView,
    summary: SummaryView,
    path: Seq<char>,
    i: int,
)
    requires
        target_track::teaches(hit, summary),
        target_track::target_path(hit) == Some(path),
        0 <= i < hit_context::other_keys(hit.target_id, hit.target_context).len(),
        ({
            let key = hit_context::other_keys(hit.target_id, hit.target_context)[i];
            let at = target_track::track_at(v.tracks, v.aliases[key], 0);
            &&& v.aliases.contains_key(key)
            &&& at < v.tracks.len()
            &&& v.tracks[at].canonical_target_key != target_track::key_of_target(
                text::trim(hit.target_name.unwrap(), text::Class::Space),
                path,
            )
        }),
    ensures
        ({
            let o = target_track::after_name(v, hit, summary, target_fact::fact_of(hit));
            &&& o.store == v
            &&& o.result.ambiguous
            &&& o.result.target_track_id is None
            &&& o.hit.target_name == hit.target_name
            &&& o.hit.target_id == hit.target_id
        }),
{
    let name = target_track::clean_name(hit).unwrap();
    let key = target_track::key_of_target(name, path);
    let aliases = hit_context::other_keys(hit.target_id, hit.target_context);
    lemma_objection_from(v, aliases, key, name, hit.timestamp, 0, i);
}

proof fn lemma_objection_from(
    v: TracksView,
    keys: Seq<Seq<char>>,
    key: Seq<char>,
    name: Seq<char>,
    timestamp: i64,
    from: int,
    i: int,
)
    requires
        0 <= from <= i < keys.len(),
        v.aliases.contains_key(keys[i]),
        target_track::track_at(v.tracks, v.aliases[keys[i]], 0) < v.tracks.len(),
        v.tracks[target_track::track_at(v.tracks, v.aliases[keys[i]], 0)].canonical_target_key != key,
    ensures
        target_track::first_objection(v, keys, key, name, false, timestamp, from) is Some,
    decreases i - from,
{
    if from < i {
        lemma_objection_from(v, keys, key, name, timestamp, from + 1, i);
    }
}

/// A hit that is counted on a track becomes the newest of its at most sixteen points,
/// and is remembered with when it came.
pub proof fn counted_hits_are_the_newest_points(track: TrackView, fact: target_fact::FactView)
    requires
        track.hp_timeline.len() <= 16,
    ensures
        ({
            let after = target_track::with_damage(track, fact);
            let n = track.hp_timeline.len();
            &&& after.last_seen_at == fact.timestamp
            &&& after.last_damage_at == Some(fact.timestamp)
            &&& after.assigned_hit_uids.contains(fact.hit_uid)
            &&& after.hp_timeline.len() > 0
            &&& after.hp_timeline.last().timestamp == fact.timestamp
            &&& after.hp_timeline.last().hp_before == fact.hp_before
            &&& after.hp_timeline.last().hp_after == fact.hp_after
            &&& after.hp_timeline.last().reported_max_hp_observation == Some(fact.hp_reported_max)
            &&& after.hp_timeline.last().hit_uid == Some(fact.hit_uid)
            &&& n < 16 ==> after.hp_timeline.drop_last() == track.hp_timeline
            &&& n == 16 ==> after.hp_timeline.drop_last() == track.hp_timeline.skip(1)
            &&& after.track_id == track.track_id && after.target_name == track.target_name
        }),
{
    let after = target_track::with_damage(track, fact);
    if track.assigned_hit_uids.contains(fact.hit_uid) {
    } else {
        assert(after.assigned_hit_uids[track.assigned_hit_uids.len() as int] == fact.hit_uid);
    }
    if track.hp_timeline.len() < 16 {
        assert(after.hp_timeline.drop_last() =~= track.hp_timeline);
    } else {
        assert(after.hp_timeline.drop_last() =~= track.hp_timeline.skip(1));
    }
}

/// Two maxima of hit points are different where both are known and they lie apart by more
/// than two points and by more than a five hundredth of the larger.
pub proof fn maxima_differ_beyond_tolerance(previous: i64, current: i64)
    ensures
        ({
            let d = if previous >= current {
                previous - current
            } else {
                current - previous
            };
            let larger = if previous >= current {
                previous as int
            } else {
                current as int
            };
            target_track::max_changed(previous, current) <==> previous > 0 && current > 0 && d
                > 2_000 && 500 * d > larger
        }),
{
}

/// What is said of a hit on a track is what was said, but at least probable, and scores
/// at least a hundred, or eighty-five where the hit was only projected.
pub proof fn hits_on_tracks_are_at_least_probable(
    summary: SummaryView,
    hit: HitView,
    projected: bool,
)
    ensures
        ({
            let after = target_track::summary_on_track(summary, hit, projected);
            &&& after.target_id == hit.target_id && after.target_name == hit.target_name
            &&& after.confidence == TargetConfidence::Probable || after.confidence
                == TargetConfidence::Confirmed
            &&& summary.confidence == TargetConfidence::Confirmed ==> after.confidence
                == TargetConfidence::Confirmed
            &&& summary.confidence != TargetConfidence::Confirmed ==> after.confidence
                == TargetConfidence::Probable
            &&& after.score >= 85 && after.score >= summary.score
            &&& !projected ==> after.score >= 100
            &&& after.score == summary.score || after.score == if projected {
                85int
            } else {
                100
            }
        }),
{
}

/// A hit's context has the note.
pub open spec fn noted(hit: HitView, note: Seq<char>) -> bool {
    hit.target_context.contains(note)
}

/// A hit's context has a note that begins so.
pub open spec fn noted_with(hit: HitView, head: Seq<char>) -> bool {
    exists|k: int|
        0 <= k < hit.target_context.len() && text::starts_with(
            #[trigger] hit.target_context[k],
            head,
        )
}

/// Where a name comes from is told by the notes of the hit: a mapping counts before an
/// alias, an alias before readings of hit points, and readings before differences.
pub proof fn notes_tell_where_a_name_comes_from(hit: HitView, summary: SummaryView)
    ensures
        ({
            let source = target_track::identity_source(hit, summary);
            let mapped = noted(hit, "target_name_resolution=runtime_mapping"@);
            let aliased = noted_with(hit, "reason=runtime_alias:"@);
            let known = hit_context::other_keys(hit.target_id, hit.target_context).len() > 0;
            let read = noted_with(hit, "reason=hp_guid_timeline_match"@) || noted_with(
                hit,
                "reason=net_target_hp_timeline_match"@,
            ) || noted_with(hit, "reason=hp_timeline_match"@) || noted(
                hit,
                "reason=runtime_hp_timeline_unique"@,
            );
            let differs = noted_with(hit, "reason=boss_hp_delta_match"@) || noted_with(
                hit,
                "reason=net_target_hp_delta_match"@,
            ) || noted_with(hit, "reason=hp_delta_match"@);
            &&& mapped ==> source == Some(TrackIdentitySource::RuntimeMapping)
            &&& !mapped && aliased ==> source == Some(TrackIdentitySource::RuntimeAlias)
            &&& !mapped && !aliased && known ==> source == Some(TrackIdentitySource::NonHpAlias)
            &&& !mapped && !aliased && !known && read ==> source == Some(
                TrackIdentitySource::DirectHpTimeline,
            )
            &&& !mapped && !aliased && !known && !read && differs ==> source == Some(
                TrackIdentitySource::DirectHpDelta,
            )
            &&& !mapped && !aliased && !known && !read && !differs && !summary.direct_hp_evidence
                ==> source is None
        }),
{
    lemma_exact_note(hit, "target_name_resolution=runtime_mapping");
    lemma_exact_note(hit, "reason=runtime_hp_timeline_unique");
    lemma_starting_note(hit, "reason=runtime_alias:");
    lemma_starting_note(hit, "reason=hp_guid_timeline_match");
    lemma_starting_note(hit, "reason=net_target_hp_timeline_match");
    lemma_starting_note(hit, "reason=hp_timeline_match");
    lemma_starting_note(hit, "reason=boss_hp_delta_match");
    lemma_starting_note(hit, "reason=net_target_hp_delta_match");
    lemma_starting_note(hit, "reason=hp_delta_match");
}

proof fn lemma_exact_note(hit: HitView, note: &'static str)
    ensures
        hit_context::has_entry(hit.target_context, Entry::Exactly(note)) == noted(hit, note@),
{
    let c = hit.target_context;
    if noted(hit, note@) {
        let k = choose|k: int| 0 <= k < c.len() && c[k] == note@;
        assert(Entry::Exactly(note).holds(c[k]));
    }
    if hit_context::has_entry(c, Entry::Exactly(note)) {
        let k = choose|k: int| 0 <= k < c.len() && Entry::Exactly(note).holds(#[trigger] c[k]);
        assert(c[k] == note@);
    }
}

proof fn lemma_starting_note(hit: HitView, head: &'static str)
    ensures
        hit_context::has_entry(hit.target_context, Entry::Starting(head)) == noted_with(
            hit,
            head@,
        ),
{
    let c = hit.target_context;
    if noted_with(hit, head@) {
        let k = choose|k: int| 0 <= k < c.len() && text::starts_with(#[trigger] c[k], head@);
        assert(Entry::Starting(head).holds(c[k]));
    }
    if hit_context::has_entry(c, Entry::Starting(head)) {
        let k = choose|k: int| 0 <= k < c.len() && Entry::Starting(head).holds(#[trigger] c[k]);
        assert(text::starts_with(c[k], head@));
    }
}

/// A surer source takes the place of a less sure one, and never the other way round.
pub proof fn sources_only_get_surer(
    current: Option<TrackIdentitySource>,
    next: TrackIdentitySource,
)
    ensures
        current is None ==> target_track::surer(current, next) == next,
        current matches Some(c) ==> target_track::surer(current, next).spec_rank()
            >= c.spec_rank() && target_track::surer(current, next).spec_rank()
            >= next.spec_rank() && (target_track::surer(current, next) == c
            || target_track::surer(current, next) == next),
        TrackIdentitySource::RuntimeMapping.spec_rank()
            > TrackIdentitySource::RuntimeAlias.spec_rank(),
        TrackIdentitySource::RuntimeAlias.spec_rank()
            > TrackIdentitySource::NonHpAlias.spec_rank(),
        TrackIdentitySource::NonHpAlias.spec_rank()
            > TrackIdentitySource::DirectHpTimeline.spec_rank(),
        TrackIdentitySource::DirectHpTimeline.spec_rank()
            > TrackIdentitySource::DirectHpDelta.spec_rank(),
{
}

proof fn lemma_apart(a: Seq<char>, value: Seq<char>, b: Seq<char>, i: int)
    requires
        0 <= i < (a + "="@).len(),
        i < (b + "="@).len(),
        (a + "="@)[i] != (b + "="@)[i],
    ensures
        !text::starts_with(a + "="@ + value, b + "="@),
{
    let s = a + "="@ + value;
    let head = b + "="@;
    if text::starts_with(s, head) {
        assert(s.take(head.len() as int)[i] == head[i]);
        assert(s[i] == (a + "="@)[i]);
    }
}

proof fn lemma_others_stay(context: Seq<Seq<char>>, key: Seq<char>, n: int, e: Seq<char>)
    requires
        0 <= n <= context.len(),
        context.take(n).contains(e),
        !text::starts_with(e, key + "="@),
    ensures
        hit_context::kept_from_key(context, key, n).contains(e),
    decreases n,
{
    let w = choose|w: int| 0 <= w < n && context.take(n)[w] == e;
    let all = hit_context::kept_from_key(context, key, n);
    if w == n - 1 {
        assert(all[all.len() - 1] == e);
    } else {
        assert(context.take(n - 1)[w] == e);
        lemma_others_stay(context, key, n - 1, e);
        let before = hit_context::kept_from_key(context, key, n - 1);
        let v = choose|v: int| 0 <= v < before.len() && before[v] == e;
        assert(all[v] == e);
    }
}

proof fn lemma_note_stays(context: Seq<Seq<char>>, note: Seq<char>, e: Seq<char>)
    ensures
        hit_context::with_entry(context, note).contains(note),
        context.contains(e) ==> hit_context::with_entry(context, note).contains(e),
{
    let all = hit_context::with_entry(context, note);
    if !context.contains(note) {
        assert(all[context.len() as int] == note);
    }
    if context.contains(e) {
        let w = choose|w: int| 0 <= w < context.len() && context[w] == e;
        assert(all[w] == e);
    }
}

/// The note of the key is in the context.
pub open spec fn says(context: Seq<Seq<char>>, key: Seq<char>, value: Seq<char>) -> bool {
    context.contains(key + "="@ + value)
}

proof fn lemma_said(context: Seq<Seq<char>>, key: Seq<char>, value: Seq<char>)
    ensures
        says(hit_context::replaced(context, key, value), key, value),
{
    lemma_note_stays(
        hit_context::without_key(context, key),
        key + "="@ + value,
        key + "="@ + value,
    );
}

proof fn lemma_still_said(
    context: Seq<Seq<char>>,
    key: Seq<char>,
    value: Seq<char>,
    a: Seq<char>,
    v: Seq<char>,
    i: int,
)
    requires
        says(context, a, v),
        0 <= i < (a + "="@).len(),
        i < (key + "="@).len(),
        (a + "="@)[i] != (key + "="@)[i],
    ensures
        says(hit_context::replaced(context, key, value), a, v),
{
    let e = a + "="@ + v;
    lemma_apart(a, v, key, i);
    assert(context.take(context.len() as int) =~= context);
    lemma_others_stay(context, key, context.len() as int, e);
    lemma_note_stays(hit_context::without_key(context, key), key + "="@ + value, e);
}

proof fn lemma_resolved_stays(context: Seq<Seq<char>>, n: int, e: Seq<char>)
    requires
        0 <= n <= context.len(),
        context.take(n).contains(e),
        !Entry::Unresolved.holds(e),
    ensures
        hit_context::kept(context, Entry::Unresolved, n).contains(e),
    decreases n,
{
    let w = choose|w: int| 0 <= w < n && context.take(n)[w] == e;
    let all = hit_context::kept(context, Entry::Unresolved, n);
    if w == n - 1 {
        assert(all[all.len() - 1] == e);
    } else {
        assert(context.take(n - 1)[w] == e);
        lemma_resolved_stays(context, n - 1, e);
        let before = hit_context::kept(context, Entry::Unresolved, n - 1);
        let v = choose|v: int| 0 <= v < before.len() && before[v] == e;
        assert(all[v] == e);
    }
}

proof fn lemma_is_resolved(a: Seq<char>, v: Seq<char>)
    requires
        a.len() > 7,
        a[7] != 'u' && a[7] != 's',
    ensures
        !Entry::Unresolved.holds(a + "="@ + v),
{
    let e = a + "="@ + v;
    assert(e[7] == a[7]);
    reveal_strlit("target_unresolved=ambiguous_multi_target");
    reveal_strlit("target_suppressed=ambiguous_multi_target");
    reveal_strlit("target_unresolved=hp_evidence_without_table_name");
    reveal_strlit("target_unresolved=resource_name_missing");
}

proof fn lemma_said_without_unresolved(context: Seq<Seq<char>>, a: Seq<char>, v: Seq<char>)
    requires
        says(context, a, v),
        a.len() > 7,
        a[7] != 'u' && a[7] != 's',
    ensures
        says(hit_context::without(context, Entry::Unresolved), a, v),
{
    lemma_is_resolved(a, v);
    assert(context.take(context.len() as int) =~= context);
    lemma_resolved_stays(context, context.len() as int, a + "="@ + v);
}

proof fn lemma_paths_keep(context: Seq<Seq<char>>, paths: Seq<Seq<char>>, n: int, e: Seq<char>)
    requires
        context.contains(e),
    ensures
        target_track::path_notes(context, paths, n).contains(e),
    decreases n,
{
    if n > 0 {
        lemma_paths_keep(context, paths, n - 1, e);
        lemma_note_stays(
            target_track::path_notes(context, paths, n - 1),
            "observed_target_path="@ + paths[n - 1],
            e,
        );
    }
}

proof fn lemma_maxima_keep(context: Seq<Seq<char>>, track: TrackView, hit: HitView, e: Seq<char>)
    requires
        context.contains(e),
    ensures
        target_track::max_notes(context, track, hit).contains(e),
{
    match target_track::previous_max(track.hp_timeline, hit, track.hp_timeline.len() as int) {
        Some(previous) => {
            let changed = "target_hp_max_changed="@ + text::signed_dec(
                crate::object_state::whole_points(previous),
            ) + "->"@ + text::signed_dec(crate::object_state::whole_points(hit.target_max_hp));
            lemma_note_stays(context, changed, e);
            lemma_note_stays(
                hit_context::with_entry(context, changed),
                "target_hp_max_unstable=true"@,
                e,
            );
        },
        None => {},
    }
}

proof fn lemma_last_notes_keep(
    context: Seq<Seq<char>>,
    track: TrackView,
    hit: HitView,
    reason: Seq<char>,
    e: Seq<char>,
)
    requires
        context.contains(e),
    ensures
        ({
            let c = target_track::path_notes(
                context,
                track.observed_paths,
                track.observed_paths.len() as int,
            );
            hit_context::with_entry(
                target_track::max_notes(c, track, hit),
                "reason="@ + reason,
            ).contains(e)
        }),
{
    let c = target_track::path_notes(
        context,
        track.observed_paths,
        track.observed_paths.len() as int,
    );
    lemma_paths_keep(context, track.observed_paths, track.observed_paths.len() as int, e);
    lemma_maxima_keep(c, track, hit, e);
    lemma_note_stays(target_track::max_notes(c, track, hit), "reason="@ + reason, e);
}

/// A hit that is counted on a track has the track as its target, and its notes say which
/// one, by its key and its number, and why. Where the track is only continued, they say
/// so.
#[verifier::spinoff_prover]
#[verifier::rlimit(80)]
pub proof fn hits_on_tracks_say_which_and_why(
    track: TrackView,
    hit: HitView,
    projected: bool,
    reason: Seq<char>,
)
    ensures
        ({
            let after = target_track::hit_on_track(track, hit, projected, reason);
            let c = after.target_context;
            &&& after.target_id == Some(track.track_id)
            &&& track.target_name is Some ==> after.target_name == track.target_name
            &&& track.target_name is None ==> after.target_name == hit.target_name
            &&& after.damage == hit.damage && after.char_id == hit.char_id
            &&& track.target_name matches Some(name) ==> says(c, "target_name"@, name)
            &&& track.display_target_path matches Some(path) ==> says(c, "target_path"@, path)
            &&& says(c, "canonical_target_key"@, track.canonical_target_key)
            &&& says(c, "target_track_id"@, track.track_id)
            &&& says(c, "target_generation"@, text::dec(track.generation as nat))
            &&& says(c, "reason"@, reason)
            &&& projected ==> says(c, "track_decision"@, "projected"@) && says(
                c,
                "track_reason"@,
                reason,
            )
            &&& projected && reason == "single_active_track_dot"@ ==> says(
                c,
                "target_name_resolution"@,
                "track_dot_projection"@,
            )
            &&& projected && reason != "single_active_track_dot"@ ==> says(
                c,
                "target_name_resolution"@,
                "track_continuity_projected"@,
            )
        }),
{
    reveal_strlit("=");
    reveal_strlit("target_name");
    reveal_strlit("target_path");
    reveal_strlit("canonical_target_key");
    reveal_strlit("target_track_id");
    reveal_strlit("target_generation");
    reveal_strlit("target_name_resolution");
    reveal_strlit("track_decision");
    reveal_strlit("track_reason");
    let a = if target_track::tells_same_target(hit.target_context, track) {
        hit_context::without(
            hit.target_context,
            Entry::Exactly("target_conflict=locked_path_mismatch"),
        )
    } else {
        hit.target_context
    };
    let b = match track.target_name {
        Some(name) => hit_context::replaced(a, "target_name"@, name),
        None => a,
    };
    let c = match track.display_target_path {
        Some(path) => hit_context::replaced(b, "target_path"@, path),
        None => b,
    };
    let d = hit_context::replaced(c, "canonical_target_key"@, track.canonical_target_key);
    let e = hit_context::replaced(d, "target_track_id"@, track.track_id);
    let generation = text::dec(track.generation as nat);
    let f = hit_context::replaced(e, "target_generation"@, generation);
    assert(f == target_track::identity_notes(hit.target_context, track));
    let g = hit_context::without(f, Entry::Unresolved);
    let how = if reason == "single_active_track_dot"@ {
        "track_dot_projection"@
    } else {
        "track_continuity_projected"@
    };
    let h = hit_context::replaced(g, "target_name_resolution"@, how);
    let i = hit_context::replaced(h, "track_decision"@, "projected"@);
    let j = hit_context::replaced(i, "track_reason"@, reason);
    assert(j == target_track::decision_notes(f, reason));
    let last = if projected {
        j
    } else {
        f
    };
    match track.target_name {
        Some(name) => {
        lemma_said(a, "target_name"@, name);
        match track.display_target_path {
            Some(path) => {
                lemma_still_said(b, "target_path"@, path, "target_name"@, name, 7);
            },
            None => {},
        }
        lemma_still_said(c, "canonical_target_key"@, track.canonical_target_key, "target_name"@, name, 0);
        lemma_still_said(d, "target_track_id"@, track.track_id, "target_name"@, name, 7);
        lemma_still_said(e, "target_generation"@, generation, "target_name"@, name, 7);
        lemma_said_without_unresolved(f, "target_name"@, name);
        lemma_still_said(g, "target_name_resolution"@, how, "target_name"@, name, 11);
        lemma_still_said(h, "track_decision"@, "projected"@, "target_name"@, name, 1);
        lemma_still_said(i, "track_reason"@, reason, "target_name"@, name, 1);
        lemma_last_notes_keep(last, track, hit, reason, "target_name"@ + "="@ + name);
        },
        None => {},
    }
    match track.display_target_path {
        Some(path) => {
        lemma_said(b, "target_path"@, path);
        lemma_still_said(c, "canonical_target_key"@, track.canonical_target_key, "target_path"@, path, 0);
        lemma_still_said(d, "target_track_id"@, track.track_id, "target_path"@, path, 7);
        lemma_still_said(e, "target_generation"@, generation, "target_path"@, path, 7);
        lemma_said_without_unresolved(f, "target_path"@, path);
        lemma_still_said(g, "target_name_resolution"@, how, "target_path"@, path, 7);
        lemma_still_said(h, "track_decision"@, "projected"@, "target_path"@, path, 1);
        lemma_still_said(i, "track_reason"@, reason, "target_path"@, path, 1);
        lemma_last_notes_keep(last, track, hit, reason, "target_path"@ + "="@ + path);
        },
        None => {},
    }
    lemma_said(c, "canonical_target_key"@, track.canonical_target_key);
    lemma_still_said(d, "target_track_id"@, track.track_id, "canonical_target_key"@, track.canonical_target_key, 0);
    lemma_still_said(e, "target_generation"@, generation, "canonical_target_key"@, track.canonical_target_key, 0);
    lemma_said_without_unresolved(f, "canonical_target_key"@, track.canonical_target_key);
    lemma_still_said(g, "target_name_resolution"@, how, "canonical_target_key"@, track.canonical_target_key, 0);
    lemma_still_said(h, "track_decision"@, "projected"@, "canonical_target_key"@, track.canonical_target_key, 0);
    lemma_still_said(i, "track_reason"@, reason, "canonical_target_key"@, track.canonical_target_key, 0);
    lemma_last_notes_keep(last, track, hit, reason, "canonical_target_key"@ + "="@ + track.canonical_target_key);
    lemma_said(d, "target_track_id"@, track.track_id);
    lemma_still_said(e, "target_generation"@, generation, "target_track_id"@, track.track_id, 7);
    lemma_said_without_unresolved(f, "target_track_id"@, track.track_id);
    lemma_still_said(g, "target_name_resolution"@, how, "target_track_id"@, track.track_id, 7);
    lemma_still_said(h, "track_decision"@, "projected"@, "target_track_id"@, track.track_id, 1);
    lemma_still_said(i, "track_reason"@, reason, "target_track_id"@, track.track_id, 1);
    lemma_last_notes_keep(last, track, hit, reason, "target_track_id"@ + "="@ + track.track_id);
    lemma_said(e, "target_generation"@, generation);
    lemma_said_without_unresolved(f, "target_generation"@, generation);
    lemma_still_said(g, "target_name_resolution"@, how, "target_generation"@, generation, 7);
    lemma_still_said(h, "track_decision"@, "projected"@, "target_generation"@, generation, 1);
    lemma_still_said(i, "track_reason"@, reason, "target_generation"@, generation, 1);
    lemma_last_notes_keep(last, track, hit, reason, "target_generation"@ + "="@ + generation);
    if projected {
        lemma_said(g, "target_name_resolution"@, how);
        lemma_still_said(h, "track_decision"@, "projected"@, "target_name_resolution"@, how, 1);
        lemma_still_said(i, "track_reason"@, reason, "target_name_resolution"@, how, 1);
        lemma_last_notes_keep(last, track, hit, reason, "target_name_resolution"@ + "="@ + how);
        lemma_said(h, "track_decision"@, "projected"@);
        lemma_still_said(i, "track_reason"@, reason, "track_decision"@, "projected"@, 6);
        lemma_last_notes_keep(last, track, hit, reason, "track_decision"@ + "="@ + "projected"@);
        lemma_said(i, "track_reason"@, reason);
        lemma_last_notes_keep(last, track, hit, reason, "track_reason"@ + "="@ + reason);
    }
    let paths = target_track::path_notes(
        last,
        track.observed_paths,
        track.observed_paths.len() as int,
    );
    lemma_note_stays(
        target_track::max_notes(paths, track, hit),
        "reason="@ + reason,
        "reason="@ + reason,
    );
    reveal_strlit("reason");
    reveal_strlit("reason=");
    assert("reason"@ + "="@ =~= "reason="@);
}

/// Damage that goes on by itself is told by the words for bleeding, lasting and following
/// in the names of the hit's damage, attack or effect, in whatever case.
pub proof fn lasting_damage_is_told_by_its_words(hit: HitView)
    ensures
        ({
            let t = target_track::damage_text(hit);
            target_track::lingering(hit) <==> text::contains(t, "流血"@) || text::contains(
                t,
                "持续"@,
            ) || text::contains(t, "dot"@) || text::contains(t, "bleed"@) || text::contains(
                t,
                "follow"@,
            )
        }),
        hit.damage_name is None && hit.attack_type is None ==> (hit.gameplay_effect_name matches Some(
            name,
        ) ==> target_track::damage_text(hit) == text::lower(name)),
        hit.damage_name is None && hit.gameplay_effect_name is None ==> (
        hit.attack_type matches Some(name) ==> target_track::damage_text(hit) == text::lower(name)),
        hit.attack_type is None && hit.gameplay_effect_name is None ==> (
        hit.damage_name matches Some(name) ==> target_track::damage_text(hit) == text::lower(name)),
{
    reveal_with_fuel(text::join, 2);
}

proof fn lemma_first_led(
    index: Map<Seq<char>, Seq<char>>,
    keys: Seq<Seq<char>>,
    i: int,
    from: int,
)
    requires
        0 <= from <= i < keys.len(),
        index.contains_key(keys[i]),
        forall|j: int| 0 <= j < i ==> !index.contains_key(#[trigger] keys[j]),
    ensures
        target_track::first_led(index, keys, from) == Some(index[keys[i]]),
    decreases i - from,
{
    if from < i {
        assert(!index.contains_key(keys[from]));
        lemma_first_led(index, keys, i, from + 1);
    }
}

proof fn lemma_none_led(index: Map<Seq<char>, Seq<char>>, keys: Seq<Seq<char>>, from: int)
    requires
        0 <= from <= keys.len(),
        forall|j: int| 0 <= j < keys.len() ==> !index.contains_key(#[trigger] keys[j]),
    ensures
        target_track::first_led(index, keys, from) is None,
    decreases keys.len() - from,
{
    if from < keys.len() {
        assert(!index.contains_key(keys[from]));
        lemma_none_led(index, keys, from + 1);
    }
}

proof fn lemma_alone(s: Seq<TrackView>, fits: spec_fn(TrackView) -> bool, k: int, n: int)
    requires
        0 <= k < s.len(),
        0 <= n <= s.len(),
        fits(s[k]),
        forall|j: int| 0 <= j < s.len() && j != k ==> !(fits(#[trigger] s[j])),
    ensures
        n <= k ==> target_track::tracks_with(s, fits, n).len() == 0,
        n > k ==> target_track::tracks_with(s, fits, n) == seq![k],
    decreases n,
{
    if n > 0 {
        lemma_alone(s, fits, k, n - 1);
        if n - 1 == k {
            assert(target_track::tracks_with(s, fits, n) =~= seq![k]);
        }
    }
}

/// A target that is named is on the track that the first of its known identities leads to;
/// without one, on the only track of its key that is about.
pub proof fn named_targets_are_found_by_their_identities(
    v: TracksView,
    aliases: Seq<Seq<char>>,
    handles: Seq<Seq<char>>,
    key: Seq<char>,
    path: Seq<char>,
    timestamp: i64,
)
    ensures
        forall|i: int|
            0 <= i < aliases.len() && v.aliases.contains_key(#[trigger] aliases[i]) && (forall|
                j: int,
            |
                0 <= j < i ==> !v.aliases.contains_key(#[trigger] aliases[j]))
                ==> target_track::track_for(v, aliases, handles, key, path, timestamp) == (
                v,
                v.aliases[aliases[i]],
            ),
        (forall|j: int| 0 <= j < aliases.len() ==> !v.aliases.contains_key(#[trigger] aliases[j]))
            ==> forall|k: int|
            0 <= k < v.tracks.len() && about(#[trigger] v.tracks[k], timestamp)
                && v.tracks[k].canonical_target_key == key && (forall|j: int|
                0 <= j < v.tracks.len() && j != k && (
                #[trigger] v.tracks[j]).canonical_target_key == key ==> !about(
                    v.tracks[j],
                    timestamp,
                )) ==> target_track::track_for(v, aliases, handles, key, path, timestamp) == (
                v,
                v.tracks[k].track_id,
            ),
{
    assert forall|i: int|
        0 <= i < aliases.len() && v.aliases.contains_key(#[trigger] aliases[i]) && (forall|j: int|
            0 <= j < i ==> !v.aliases.contains_key(#[trigger] aliases[j])) implies
        target_track::track_for(v, aliases, handles, key, path, timestamp) == (
        v,
        v.aliases[aliases[i]],
    ) by {
        lemma_first_led(v.aliases, aliases, i, 0);
    }
    if forall|j: int| 0 <= j < aliases.len() ==> !v.aliases.contains_key(#[trigger] aliases[j]) {
        lemma_none_led(v.aliases, aliases, 0);
        assert forall|k: int|
            0 <= k < v.tracks.len() && about(#[trigger] v.tracks[k], timestamp)
                && v.tracks[k].canonical_target_key == key && (forall|j: int|
                0 <= j < v.tracks.len() && j != k && (
                #[trigger] v.tracks[j]).canonical_target_key == key ==> !about(
                    v.tracks[j],
                    timestamp,
                )) implies target_track::track_for(v, aliases, handles, key, path, timestamp) == (
            v,
            v.tracks[k].track_id,
        ) by {
            let fits = |t: TrackView| target_track::active_of_key(t, key, timestamp);
            assert forall|j: int| 0 <= j < v.tracks.len() && j != k implies !(fits(
                #[trigger] v.tracks[j],
            )) by {
                if v.tracks[j].canonical_target_key == key {
                    assert(!about(v.tracks[j], timestamp));
                }
            }
            assert(about(v.tracks[k], timestamp));
            lemma_alone(v.tracks, fits, k, v.tracks.len() as int);
        }
    }
}

} // verus!
