//! Tracks of targets: the stretch of a fight in which one target is hit. A hit
//! whose target is named starts or refreshes a track; a hit without a name gets it
//! from the only track that it fits.
use std::collections::VecDeque;
use vstd::hash_map::StringHashMap;
use vstd::prelude::*;

use crate::hit_context;
use crate::hit_context::Entry;
use crate::model::Hit;
use crate::model::HitView;
use crate::object_state;
use crate::target_fact;
use crate::target_fact::DamageHitFact;
use crate::target_fact::FactView;
use crate::target_identity;
use crate::target_resolver::SummaryView;
use crate::target_resolver::TargetConfidence;
use crate::target_resolver::TargetResolutionSummary;
use crate::text;
use crate::text::Class;

verus! {

pub const ACTIVE_TRACK_WINDOW: i64 = 3_500_000;

pub const HP_CONTINUITY_WINDOW: i64 = 3_500_000;

pub const HANDLE_QUARANTINE: i64 = 8_000_000;

pub const HP_MATCH_TOLERANCE: i64 = 2_000;

pub const MAX_HP_TIMELINE_PER_TRACK: usize = 16;

/// A target with no more than this is dead.
pub const DEAD_POINTS: i64 = 1_000;

#[derive(Clone, Debug, PartialEq, Eq, Hash)]
pub struct TargetTrackId(pub String);

#[derive(Clone, Copy, Debug, PartialEq, Eq, Structural)]
pub enum TargetLifecycle {
    Provisional,
    Active,
    Dying,
    Dead,
    Quarantined,
    Expired,
}

#[derive(Clone, Copy, Debug, PartialEq, Eq, Structural)]
pub enum TargetLabelState {
    Unlabeled,
    Provisional,
    Locked,
    Conflicted,
}

#[derive(Clone, Copy, Debug, PartialEq, Eq, Structural)]
pub enum TrackIdentitySource {
    RuntimeMapping,
    RuntimeAlias,
    NonHpAlias,
    DirectHpTimeline,
    DirectHpDelta,
}

impl TrackIdentitySource {
    /// The surer, the higher.
    pub open spec fn spec_rank(self) -> u8 {
        match self {
            TrackIdentitySource::RuntimeMapping => 5,
            TrackIdentitySource::RuntimeAlias => 4,
            TrackIdentitySource::NonHpAlias => 3,
            TrackIdentitySource::DirectHpTimeline => 2,
            TrackIdentitySource::DirectHpDelta => 1,
        }
    }

    fn rank(self) -> (r: u8)
        ensures
            r == self.spec_rank(),
    {
        match self {
            TrackIdentitySource::RuntimeMapping => 5,
            TrackIdentitySource::RuntimeAlias => 4,
            TrackIdentitySource::NonHpAlias => 3,
            TrackIdentitySource::DirectHpTimeline => 2,
            TrackIdentitySource::DirectHpDelta => 1,
        }
    }
}

/// The surer one of two sources, the former one where they are equally sure.
pub open spec fn surer(current: Option<TrackIdentitySource>, next: TrackIdentitySource) -> TrackIdentitySource {
    match current {
        Some(source) => if source.spec_rank() >= next.spec_rank() {
            source
        } else {
            next
        },
        None => next,
    }
}

fn stronger_source(current: Option<TrackIdentitySource>, next: TrackIdentitySource) -> (r: TrackIdentitySource)
    ensures
        r == surer(current, next),
{
    match current {
        Some(source) => if source.rank() >= next.rank() {
            source
        } else {
            next
        },
        None => next,
    }
}

// ------------------------------------------------------------------------- tracks

/// What one hit did to the hit points of a track's target.
#[derive(Clone, Debug)]
pub struct HpTimelinePoint {
    pub timestamp: i64,
    pub hp_before: i64,
    pub hp_after: i64,
    pub reported_max_hp_observation: Option<i64>,
    pub hit_uid: Option<String>,
}

#[verifier::ext_equal]
pub struct PointView {
    pub timestamp: i64,
    pub hp_before: i64,
    pub hp_after: i64,
    pub reported_max_hp_observation: Option<i64>,
    pub hit_uid: Option<Seq<char>>,
}

impl View for HpTimelinePoint {
    type V = PointView;

    open spec fn view(&self) -> PointView {
        PointView {
            timestamp: self.timestamp,
            hp_before: self.hp_before,
            hp_after: self.hp_after,
            reported_max_hp_observation: self.reported_max_hp_observation,
            hit_uid: text::opt_text(self.hit_uid),
        }
    }
}

pub open spec fn point_views(v: Seq<HpTimelinePoint>) -> Seq<PointView> {
    v.map_values(|p: HpTimelinePoint| p@)
}

/// A track.
#[derive(Debug)]
pub struct TargetTrack {
    pub track_id: TargetTrackId,
    pub generation: u32,
    pub canonical_target_key: String,
    pub target_name: Option<String>,
    pub display_target_path: Option<String>,
    pub observed_paths: Vec<String>,
    pub label_state: TargetLabelState,
    pub lifecycle: TargetLifecycle,
    pub first_seen_at: i64,
    pub last_seen_at: i64,
    pub last_damage_at: Option<i64>,
    pub hp_timeline: VecDeque<HpTimelinePoint>,
    pub non_hp_aliases: Vec<String>,
    pub hp_handles: Vec<String>,
    pub assigned_hit_uids: Vec<String>,
    pub conflict_flags: Vec<String>,
    pub source: Option<TrackIdentitySource>,
    pub quarantined_at: Option<i64>,
}

#[verifier::ext_equal]
pub struct TrackView {
    pub track_id: Seq<char>,
    pub generation: u32,
    pub canonical_target_key: Seq<char>,
    pub target_name: Option<Seq<char>>,
    pub display_target_path: Option<Seq<char>>,
    pub observed_paths: Seq<Seq<char>>,
    pub label_state: TargetLabelState,
    pub lifecycle: TargetLifecycle,
    pub first_seen_at: i64,
    pub last_seen_at: i64,
    pub last_damage_at: Option<i64>,
    pub hp_timeline: Seq<PointView>,
    pub non_hp_aliases: Seq<Seq<char>>,
    pub hp_handles: Seq<Seq<char>>,
    pub assigned_hit_uids: Seq<Seq<char>>,
    pub conflict_flags: Seq<Seq<char>>,
    pub source: Option<TrackIdentitySource>,
    pub quarantined_at: Option<i64>,
}

impl View for TargetTrack {
    type V = TrackView;

    open spec fn view(&self) -> TrackView {
        TrackView {
            track_id: self.track_id.0@,
            generation: self.generation,
            canonical_target_key: self.canonical_target_key@,
            target_name: text::opt_text(self.target_name),
            display_target_path: text::opt_text(self.display_target_path),
            observed_paths: text::texts(self.observed_paths@),
            label_state: self.label_state,
            lifecycle: self.lifecycle,
            first_seen_at: self.first_seen_at,
            last_seen_at: self.last_seen_at,
            last_damage_at: self.last_damage_at,
            hp_timeline: point_views(self.hp_timeline@),
            non_hp_aliases: text::texts(self.non_hp_aliases@),
            hp_handles: text::texts(self.hp_handles@),
            assigned_hit_uids: text::texts(self.assigned_hit_uids@),
            conflict_flags: text::texts(self.conflict_flags@),
            source: self.source,
            quarantined_at: self.quarantined_at,
        }
    }
}

pub open spec fn track_views(v: Seq<TargetTrack>) -> Seq<TrackView> {
    v.map_values(|t: TargetTrack| t@)
}

/// What a hit's packet told besides.
#[derive(Clone, Debug)]
pub struct TrackPacketContext {
    pub canonical_target_paths: Vec<String>,
    pub canonical_target_names: Vec<String>,
    pub hp_handle_keys: Vec<String>,
    pub has_multiple_canonical_targets: bool,
}

impl Default for TrackPacketContext {
    fn default() -> (r: TrackPacketContext)
        ensures
            r.canonical_target_paths@.len() == 0,
            r.canonical_target_names@.len() == 0,
            r.hp_handle_keys@.len() == 0,
            !r.has_multiple_canonical_targets,
    {
        TrackPacketContext {
            canonical_target_paths: Vec::new(),
            canonical_target_names: Vec::new(),
            hp_handle_keys: Vec::new(),
            has_multiple_canonical_targets: false,
        }
    }
}

/// The only one of the texts, where there is one and all are the same.
pub open spec fn the_only(list: Seq<Seq<char>>) -> Option<Seq<char>> {
    if list.len() > 0 && forall|k: int| 0 <= k < list.len() ==> #[trigger] list[k] == list[0] {
        Some(list[0])
    } else {
        None
    }
}

fn only_one(list: &Vec<String>) -> (r: Option<String>)
    ensures
        text::opt_text(r) == the_only(text::texts(list@)),
{
    let ghost all = text::texts(list@);
    if list.len() == 0 {
        return None;
    }
    assert(all[0] == list@[0]@);
    let mut k: usize = 1;
    while k < list.len()
        invariant
            1 <= k <= list.len(),
            all == text::texts(list@),
            all[0] == list@[0]@,
            forall|m: int| 0 <= m < k ==> #[trigger] all[m] == all[0],
        decreases list.len() - k,
    {
        assert(all[k as int] == list@[k as int]@);
        if !text::same_str(list[k].as_str(), list[0].as_str()) {
            assert(all[k as int] != all[0]);
            return None;
        }
        k += 1;
    }
    Some(list[0].as_str().to_owned())
}

/// What came of a hit.
#[derive(Clone, Debug)]
pub struct AttributionResult {
    pub target_track_id: Option<TargetTrackId>,
    pub generation: Option<u32>,
    pub target_name: Option<String>,
    pub target_path: Option<String>,
    pub projected: bool,
    pub ambiguous: bool,
    pub reason: Option<String>,
}

#[verifier::ext_equal]
pub struct ResultView {
    pub target_track_id: Option<Seq<char>>,
    pub generation: Option<u32>,
    pub target_name: Option<Seq<char>>,
    pub target_path: Option<Seq<char>>,
    pub projected: bool,
    pub ambiguous: bool,
    pub reason: Option<Seq<char>>,
}

pub open spec fn opt_id(o: Option<TargetTrackId>) -> Option<Seq<char>> {
    match o {
        Some(id) => Some(id.0@),
        None => None,
    }
}

impl View for AttributionResult {
    type V = ResultView;

    open spec fn view(&self) -> ResultView {
        ResultView {
            target_track_id: opt_id(self.target_track_id),
            generation: self.generation,
            target_name: text::opt_text(self.target_name),
            target_path: text::opt_text(self.target_path),
            projected: self.projected,
            ambiguous: self.ambiguous,
            reason: text::opt_text(self.reason),
        }
    }
}

/// Nothing came of it.
pub open spec fn nothing() -> ResultView {
    ResultView {
        target_track_id: None,
        generation: None,
        target_name: None,
        target_path: None,
        projected: false,
        ambiguous: false,
        reason: None,
    }
}

/// It could not be decided.
pub open spec fn undecided(reason: Seq<char>) -> ResultView {
    ResultView { ambiguous: true, reason: Some(reason), ..nothing() }
}

impl Default for AttributionResult {
    fn default() -> (r: AttributionResult)
        ensures
            r@ == nothing(),
    {
        AttributionResult {
            target_track_id: None,
            generation: None,
            target_name: None,
            target_path: None,
            projected: false,
            ambiguous: false,
            reason: None,
        }
    }
}

fn undecided_result(reason: &str) -> (r: AttributionResult)
    ensures
        r@ == undecided(reason@),
{
    AttributionResult {
        target_track_id: None,
        generation: None,
        target_name: None,
        target_path: None,
        projected: false,
        ambiguous: true,
        reason: Some(reason.to_owned()),
    }
}

fn copy_opt(o: &Option<String>) -> (r: Option<String>)
    ensures
        text::opt_text(r) == text::opt_text(*o),
{
    match o {
        Some(s) => Some(s.as_str().to_owned()),
        None => None,
    }
}

fn copy_texts(list: &Vec<String>) -> (out: Vec<String>)
    ensures
        text::texts(out@) == text::texts(list@),
{
    let mut out: Vec<String> = Vec::new();
    let mut k: usize = 0;
    while k < list.len()
        invariant
            k <= list.len(),
            out@.len() == k,
            forall|m: int| 0 <= m < k ==> (#[trigger] out@[m])@ == list@[m]@,
        decreases list.len() - k,
    {
        out.push(list[k].as_str().to_owned());
        k += 1;
    }
    assert(text::texts(out@) =~= text::texts(list@));
    out
}

// --------------------------------------------------------------- what a track fits

/// The difference is within the tolerance for values of the scale: two points, or
/// two thousandths of the scale.
pub open spec fn tolerable(d: int, scale: int) -> bool {
    d <= HP_MATCH_TOLERANCE || 500 * d <= (if scale < 0 {
        -scale
    } else {
        scale
    })
}

fn is_tolerable(d: i128, scale: i64) -> (r: bool)
    requires
        -0x1_0000_0000_0000_0000 <= d <= 0x1_0000_0000_0000_0000,
    ensures
        r == tolerable(d as int, scale as int),
{
    let size: i128 = if scale < 0 { -(scale as i128) } else { scale as i128 };
    d <= HP_MATCH_TOLERANCE as i128 || 500 * d <= size
}

pub open spec fn higher(a: i64, b: i64) -> i64 {
    if a >= b {
        a
    } else {
        b
    }
}

fn max64(a: i64, b: i64) -> (r: i64)
    ensures
        r == higher(a, b),
{
    if a >= b {
        a
    } else {
        b
    }
}

/// The track is open.
pub open spec fn living(lifecycle: TargetLifecycle) -> bool {
    lifecycle == TargetLifecycle::Provisional || lifecycle == TargetLifecycle::Active || lifecycle
        == TargetLifecycle::Dying
}

/// The track is open, and was seen a short time ago.
pub open spec fn active(track: TrackView, timestamp: i64) -> bool {
    living(track.lifecycle) && 0 <= timestamp - track.last_seen_at <= ACTIVE_TRACK_WINDOW
}

fn is_living(lifecycle: TargetLifecycle) -> (r: bool)
    ensures
        r == living(lifecycle),
{
    match lifecycle {
        TargetLifecycle::Provisional => true,
        TargetLifecycle::Active => true,
        TargetLifecycle::Dying => true,
        _ => false,
    }
}

fn track_is_active(track: &TargetTrack, timestamp: i64) -> (r: bool)
    ensures
        r == active(track@, timestamp),
{
    let age: i128 = (timestamp as i128) - (track.last_seen_at as i128);
    is_living(track.lifecycle) && 0 <= age && age <= ACTIVE_TRACK_WINDOW as i128
}

/// The point is not younger than the moment, and not much older.
pub open spec fn recent(point: PointView, timestamp: i64) -> bool {
    0 <= timestamp - point.timestamp <= HP_CONTINUITY_WINDOW
}

/// The most hit points in the recent ones of the first `n` points; `None` where
/// none is recent.
pub open spec fn recent_peak(points: Seq<PointView>, timestamp: i64, n: int) -> Option<i64>
    decreases n,
{
    if n <= 0 {
        None
    } else {
        let before = recent_peak(points, timestamp, n - 1);
        if recent(points[n - 1], timestamp) {
            let p = higher(points[n - 1].hp_before, points[n - 1].hp_after);
            match before {
                Some(b) => Some(higher(b, p)),
                None => Some(p),
            }
        } else {
            before
        }
    }
}

/// The hit fits the hit points of the track: it takes some away, and leaves no more
/// than the recent hits have shown.
pub open spec fn stream_fits(track: TrackView, fact: FactView) -> bool {
    active(track, fact.timestamp) && match recent_peak(
        track.hp_timeline,
        fact.timestamp,
        track.hp_timeline.len() as int,
    ) {
        Some(peak) => fact.hp_after >= 0 && fact.hp_before >= fact.hp_after && tolerable(
            fact.hp_after - peak,
            higher(peak, fact.hp_before) as int,
        ),
        None => false,
    }
}

fn track_can_explain_hit(track: &TargetTrack, fact: &DamageHitFact) -> (r: bool)
    ensures
        r == stream_fits(track@, fact@),
{
    if !track_is_active(track, fact.timestamp) {
        return false;
    }
    let ghost all = track@.hp_timeline;
    let mut peak: Option<i64> = None;
    let mut k: usize = 0;
    while k < track.hp_timeline.len()
        invariant
            k <= track.hp_timeline.len(),
            all == track@.hp_timeline,
            peak == recent_peak(all, fact.timestamp, k as int),
        decreases track.hp_timeline.len() - k,
    {
        let point = &track.hp_timeline[k];
        assert(all[k as int] == point@);
        let age: i128 = (fact.timestamp as i128) - (point.timestamp as i128);
        if 0 <= age && age <= HP_CONTINUITY_WINDOW as i128 {
            let p = max64(point.hp_before, point.hp_after);
            peak = match peak {
                Some(b) => Some(max64(b, p)),
                None => Some(p),
            };
        }
        k += 1;
    }
    match peak {
        Some(peak) => fact.hp_after >= 0 && fact.hp_before >= fact.hp_after && is_tolerable(
            (fact.hp_after as i128) - (peak as i128),
            max64(peak, fact.hp_before),
        ),
        None => false,
    }
}

/// The hit may be the track's last one: it leaves nothing, and took no more than
/// the last hit had left.
pub open spec fn last_blow_fits(track: TrackView, fact: FactView) -> bool {
    &&& fact.hp_after <= DEAD_POINTS
    &&& active(track, fact.timestamp)
    &&& track.hp_timeline.len() > 0
    &&& recent(track.hp_timeline.last(), fact.timestamp)
    &&& tolerable(
        fact.hp_before - track.hp_timeline.last().hp_before,
        higher(track.hp_timeline.last().hp_before, fact.hp_before) as int,
    )
}

fn terminal_hit_matches_track(track: &TargetTrack, fact: &DamageHitFact) -> (r: bool)
    ensures
        r == last_blow_fits(track@, fact@),
{
    if fact.hp_after > DEAD_POINTS || !track_is_active(track, fact.timestamp)
        || track.hp_timeline.len() == 0 {
        return false;
    }
    let last = &track.hp_timeline[track.hp_timeline.len() - 1];
    assert(track@.hp_timeline.last() == last@);
    let age: i128 = (fact.timestamp as i128) - (last.timestamp as i128);
    0 <= age && age <= HP_CONTINUITY_WINDOW as i128 && is_tolerable(
        (fact.hp_before as i128) - (last.hp_before as i128),
        max64(last.hp_before, fact.hp_before),
    )
}

/// An alias may still lead to the track.
pub open spec fn usable(track: TrackView, timestamp: i64) -> bool {
    timestamp >= track.last_seen_at && living(track.lifecycle)
}

/// The track died so short a time ago that its handles are not to be trusted.
pub open spec fn quarantined(track: TrackView, timestamp: i64) -> bool {
    match track.quarantined_at {
        Some(at) => 0 <= timestamp - at <= HANDLE_QUARANTINE,
        None => false,
    }
}

fn hp_handle_quarantined(track: &TargetTrack, timestamp: i64) -> (r: bool)
    ensures
        r == quarantined(track@, timestamp),
{
    match track.quarantined_at {
        Some(at) => {
            let age: i128 = (timestamp as i128) - (at as i128);
            0 <= age && age <= HANDLE_QUARANTINE as i128
        },
        None => false,
    }
}

fn track_usable_for_exact_alias(track: &TargetTrack, timestamp: i64) -> (r: bool)
    ensures
        r == usable(track@, timestamp),
{
    timestamp >= track.last_seen_at && is_living(track.lifecycle)
}

/// From before position `n` back, the last reported maximum of a point other than
/// the hit's own.
pub open spec fn previous_max(points: Seq<PointView>, hit: HitView, n: int) -> Option<i64>
    decreases n,
{
    if n <= 0 {
        None
    } else {
        let p = points[n - 1];
        let own = p.timestamp == hit.timestamp && p.hp_before == hit.target_hp_before && p.hp_after
            == hit.target_hp_after;
        if !own && p.reported_max_hp_observation is Some {
            p.reported_max_hp_observation
        } else {
            previous_max(points, hit, n - 1)
        }
    }
}

fn previous_reported_max_observation(track: &TargetTrack, hit: &Hit) -> (r: Option<i64>)
    ensures
        r == previous_max(track@.hp_timeline, hit@, track@.hp_timeline.len() as int),
{
    let ghost all = track@.hp_timeline;
    let mut k: usize = track.hp_timeline.len();
    while k > 0
        invariant
            k <= track.hp_timeline.len(),
            all == track@.hp_timeline,
            previous_max(all, hit@, all.len() as int) == previous_max(all, hit@, k as int),
        decreases k,
    {
        let point = &track.hp_timeline[k - 1];
        assert(all[k - 1] == point@);
        let own = point.timestamp == hit.timestamp && point.hp_before == hit.target_hp_before
            && point.hp_after == hit.target_hp_after;
        if !own && point.reported_max_hp_observation.is_some() {
            return point.reported_max_hp_observation;
        }
        k -= 1;
    }
    None
}

/// The reported maximum is another one.
pub open spec fn max_changed(previous: i64, current: i64) -> bool {
    previous > 0 && current > 0 && !tolerable(
        if previous >= current {
            previous - current
        } else {
            current - previous
        },
        higher(previous, current) as int,
    )
}

fn reported_max_changed(previous: i64, current: i64) -> (r: bool)
    ensures
        r == max_changed(previous, current),
{
    if previous <= 0 || current <= 0 {
        return false;
    }
    let d: i128 = if previous >= current {
        (previous as i128) - (current as i128)
    } else {
        (current as i128) - (previous as i128)
    };
    !is_tolerable(d, max64(previous, current))
}

/// The texts of a hit's names, joined and in lower case.
pub open spec fn damage_text(hit: HitView) -> Seq<char> {
    let a = match hit.damage_name {
        Some(n) => seq![n],
        None => Seq::empty(),
    };
    let b = match hit.attack_type {
        Some(n) => a.push(n),
        None => a,
    };
    let c = match hit.gameplay_effect_name {
        Some(n) => b.push(n),
        None => b,
    };
    text::lower(text::join(c, " "@))
}

/// Damage over time, or a follow-up.
pub open spec fn lingering(hit: HitView) -> bool {
    let t = damage_text(hit);
    text::contains(t, "流血"@) || text::contains(t, "持续"@) || text::contains(t, "dot"@)
        || text::contains(t, "bleed"@) || text::contains(t, "follow"@)
}

fn push_opt(list: &mut Vec<String>, value: &Option<String>)
    ensures
        text::texts(final(list)@) == match text::opt_text(*value) {
            Some(v) => text::texts(old(list)@).push(v),
            None => text::texts(old(list)@),
        },
{
    match value {
        Some(v) => {
            let ghost before = text::texts(list@);
            list.push(v.as_str().to_owned());
            assert(text::texts(list@) =~= before.push(v@));
        },
        None => {},
    }
}

fn is_dot_or_followup_damage(hit: &Hit) -> (r: bool)
    ensures
        r == lingering(hit@),
{
    let mut names: Vec<String> = Vec::new();
    assert(text::texts(names@) =~= Seq::empty());
    push_opt(&mut names, &hit.damage_name);
    assert(text::texts(names@) =~= match hit@.damage_name {
        Some(n) => seq![n],
        None => Seq::empty(),
    });
    push_opt(&mut names, &hit.attack_type);
    push_opt(&mut names, &hit.gameplay_effect_name);
    let t = text::lower_of(text::join_strings(&names, " ").as_str());
    text::has(&t, "流血") || text::has(&t, "持续") || text::has(&t, "dot") || text::has(&t, "bleed")
        || text::has(&t, "follow")
}

// ------------------------------------------------------------- a hit on a track

/// The timeline with one more point; the oldest gives way where there are too many.
pub open spec fn with_point(points: Seq<PointView>, point: PointView) -> Seq<PointView> {
    let all = points.push(point);
    if all.len() > MAX_HP_TIMELINE_PER_TRACK {
        all.skip(all.len() - MAX_HP_TIMELINE_PER_TRACK)
    } else {
        all
    }
}

/// The track with a hit.
pub open spec fn with_damage(track: TrackView, fact: FactView) -> TrackView {
    TrackView {
        last_seen_at: fact.timestamp,
        last_damage_at: Some(fact.timestamp),
        assigned_hit_uids: hit_context::with_entry(track.assigned_hit_uids, fact.hit_uid),
        hp_timeline: with_point(
            track.hp_timeline,
            PointView {
                timestamp: fact.timestamp,
                hp_before: fact.hp_before,
                hp_after: fact.hp_after,
                reported_max_hp_observation: Some(fact.hp_reported_max),
                hit_uid: Some(fact.hit_uid),
            },
        ),
        ..track
    }
}

fn update_track_damage(track: &mut TargetTrack, fact: &DamageHitFact)
    ensures
        final(track)@ == with_damage(old(track)@, fact@),
{
    let ghost before = track@;
    track.last_seen_at = fact.timestamp;
    track.last_damage_at = Some(fact.timestamp);
    hit_context::push_unique(
        &mut track.assigned_hit_uids,
        fact.hit_uid.as_str().to_owned(),
    );
    let point = HpTimelinePoint {
        timestamp: fact.timestamp,
        hp_before: fact.hp_before,
        hp_after: fact.hp_after,
        reported_max_hp_observation: Some(fact.hp_reported_max),
        hit_uid: Some(fact.hit_uid.as_str().to_owned()),
    };
    let ghost all = before.hp_timeline.push(point@);
    track.hp_timeline.push_back(point);
    assert(point_views(track.hp_timeline@) =~= all);
    let ghost kept = track@;
    assert(all.skip(0) =~= all);
    while track.hp_timeline.len() > MAX_HP_TIMELINE_PER_TRACK
        invariant
            track@ == (TrackView { hp_timeline: track@.hp_timeline, ..kept }),
            track@.hp_timeline.len() <= all.len(),
            track@.hp_timeline == all.skip(all.len() - track@.hp_timeline.len()),
            track@.hp_timeline.len() >= MAX_HP_TIMELINE_PER_TRACK || track@.hp_timeline == all,
        decreases track.hp_timeline.len(),
    {
        let ghost now = track@.hp_timeline;
        let _ = track.hp_timeline.pop_front();
        assert(point_views(track.hp_timeline@) =~= now.skip(1));
        assert(now.skip(1) =~= all.skip(all.len() - now.len() + 1));
    }
    assert(track@ =~= with_damage(before, fact@));
}

/// The path that the notes tell is one of the track's target.
pub open spec fn tells_same_target(context: Seq<Seq<char>>, track: TrackView) -> bool {
    match hit_context::value_of(context, "target_path"@) {
        Some(path) => target_identity::canonical_key(path) == Some(track.canonical_target_key),
        None => false,
    }
}

/// The notes of who the target is.
pub open spec fn identity_notes(context: Seq<Seq<char>>, track: TrackView) -> Seq<Seq<char>> {
    let a = if tells_same_target(context, track) {
        hit_context::without(context, Entry::Exactly("target_conflict=locked_path_mismatch"))
    } else {
        context
    };
    let b = match track.target_name {
        Some(name) => hit_context::replaced(a, "target_name"@, name),
        None => a,
    };
    let c = match track.display_target_path {
        Some(path) => hit_context::replaced(b, "target_path"@, path),
        None => b,
    };
    let d = hit_context::replaced(c, "canonical_target_key"@, track.canonical_target_key);
    let e = hit_context::replaced(d, "target_track_id"@, track.track_id);
    hit_context::replaced(e, "target_generation"@, text::dec(track.generation as nat))
}

/// The notes of how a projection was decided.
pub open spec fn decision_notes(context: Seq<Seq<char>>, reason: Seq<char>) -> Seq<Seq<char>> {
    let a = hit_context::without(context, Entry::Unresolved);
    let b = hit_context::replaced(
        a,
        "target_name_resolution"@,
        if reason == "single_active_track_dot"@ {
            "track_dot_projection"@
        } else {
            "track_continuity_projected"@
        },
    );
    let c = hit_context::replaced(b, "track_decision"@, "projected"@);
    hit_context::replaced(c, "track_reason"@, reason)
}

/// The notes with the first `n` paths under which the target was seen.
pub open spec fn path_notes(context: Seq<Seq<char>>, paths: Seq<Seq<char>>, n: int) -> Seq<Seq<char>>
    decreases n,
{
    if n <= 0 {
        context
    } else {
        hit_context::with_entry(
            path_notes(context, paths, n - 1),
            "observed_target_path="@ + paths[n - 1],
        )
    }
}

/// The notes of a changed maximum.
pub open spec fn max_notes(context: Seq<Seq<char>>, track: TrackView, hit: HitView) -> Seq<Seq<char>> {
    match previous_max(track.hp_timeline, hit, track.hp_timeline.len() as int) {
        Some(previous) => if max_changed(previous, hit.target_max_hp) {
            hit_context::with_entry(
                hit_context::with_entry(
                    context,
                    "target_hp_max_changed="@ + text::signed_dec(
                        object_state::whole_points(previous),
                    ) + "->"@ + text::signed_dec(object_state::whole_points(hit.target_max_hp)),
                ),
                "target_hp_max_unstable=true"@,
            )
        } else {
            context
        },
        None => context,
    }
}

/// The notes of a hit on the track.
pub open spec fn track_notes(
    track: TrackView,
    hit: HitView,
    projected: bool,
    reason: Seq<char>,
) -> Seq<Seq<char>> {
    let a = identity_notes(hit.target_context, track);
    let b = if projected {
        decision_notes(a, reason)
    } else {
        a
    };
    let c = path_notes(b, track.observed_paths, track.observed_paths.len() as int);
    hit_context::with_entry(max_notes(c, track, hit), "reason="@ + reason)
}

/// The hit on the track.
pub open spec fn hit_on_track(track: TrackView, hit: HitView, projected: bool, reason: Seq<char>) -> HitView {
    HitView {
        target_id: Some(track.track_id),
        target_name: match track.target_name {
            Some(name) => Some(name),
            None => hit.target_name,
        },
        target_context: track_notes(track, hit, projected, reason),
        ..hit
    }
}

/// The summary of a hit on a track.
pub open spec fn summary_on_track(summary: SummaryView, hit: HitView, projected: bool) -> SummaryView {
    let least: i32 = if projected {
        85
    } else {
        100
    };
    SummaryView {
        target_id: hit.target_id,
        target_name: hit.target_name,
        target_context: hit.target_context,
        score: if summary.score >= least {
            summary.score
        } else {
            least
        },
        confidence: if summary.confidence.spec_rank() < TargetConfidence::Probable.spec_rank() {
            TargetConfidence::Probable
        } else {
            summary.confidence
        },
        ..summary
    }
}

fn note_identity(context: &mut Vec<String>, track: &TargetTrack)
    ensures
        text::texts(final(context)@) == identity_notes(text::texts(old(context)@), track@),
{
    let same = match hit_context::target_context_value(context, "target_path") {
        Some(path) => match target_identity::canonical_target_key_for_path(path.as_str()) {
            Some(key) => text::same_str(key.as_str(), track.canonical_target_key.as_str()),
            None => false,
        },
        None => false,
    };
    if same {
        hit_context::drop_entries(
            context,
            Entry::Exactly("target_conflict=locked_path_mismatch"),
        );
    }
    match &track.target_name {
        Some(name) => {
            hit_context::replace_or_push_context(context, "target_name", name.as_str());
        },
        None => {},
    }
    match &track.display_target_path {
        Some(path) => {
            hit_context::replace_or_push_context(context, "target_path", path.as_str());
        },
        None => {},
    }
    hit_context::replace_or_push_context(
        context,
        "canonical_target_key",
        track.canonical_target_key.as_str(),
    );
    hit_context::replace_or_push_context(context, "target_track_id", track.track_id.0.as_str());
    hit_context::replace_or_push_context(
        context,
        "target_generation",
        text::dec_string(track.generation as u64).as_str(),
    );
}

fn note_decision(context: &mut Vec<String>, reason: &str)
    ensures
        text::texts(final(context)@) == decision_notes(text::texts(old(context)@), reason@),
{
    hit_context::drop_entries(context, Entry::Unresolved);
    let resolution: &'static str = if text::same_str(reason, "single_active_track_dot") {
        "track_dot_projection"
    } else {
        "track_continuity_projected"
    };
    hit_context::replace_or_push_context(context, "target_name_resolution", resolution);
    hit_context::replace_or_push_context(context, "track_decision", "projected");
    hit_context::replace_or_push_context(context, "track_reason", reason);
}

fn note_paths(context: &mut Vec<String>, paths: &Vec<String>)
    ensures
        text::texts(final(context)@) == path_notes(
            text::texts(old(context)@),
            text::texts(paths@),
            paths@.len() as int,
        ),
{
    let ghost before = text::texts(context@);
    let ghost all = text::texts(paths@);
    let mut k: usize = 0;
    while k < paths.len()
        invariant
            k <= paths.len(),
            all == text::texts(paths@),
            text::texts(context@) == path_notes(before, all, k as int),
        decreases paths.len() - k,
    {
        assert(all[k as int] == paths@[k as int]@);
        hit_context::push_unique(
            context,
            text::concat2("observed_target_path=", paths[k].as_str()),
        );
        k += 1;
    }
}

fn note_max(context: &mut Vec<String>, track: &TargetTrack, hit: &Hit)
    ensures
        text::texts(final(context)@) == max_notes(text::texts(old(context)@), track@, hit@),
{
    match previous_reported_max_observation(track, hit) {
        Some(previous) => {
            if reported_max_changed(previous, hit.target_max_hp) {
                let mut note = text::concat3(
                    "target_hp_max_changed=",
                    object_state::whole_points_text(previous).as_str(),
                    "->",
                );
                note.append(object_state::whole_points_text(hit.target_max_hp).as_str());
                hit_context::push_unique(context, note);
                hit_context::push_unique(context, "target_hp_max_unstable=true".to_owned());
            }
        },
        None => {},
    }
}

fn project_track_to_hit(
    track: &TargetTrack,
    hit: &mut Hit,
    summary: &mut TargetResolutionSummary,
    projected: bool,
    reason: &str,
)
    ensures
        final(hit)@ == hit_on_track(track@, old(hit)@, projected, reason@),
        final(summary)@ == summary_on_track(
            old(summary)@,
            hit_on_track(track@, old(hit)@, projected, reason@),
            projected,
        ),
{
    let ghost before = hit@;
    let ghost rated = summary@;
    let mut context = copy_texts(&hit.target_context);
    note_identity(&mut context, track);
    if projected {
        note_decision(&mut context, reason);
    }
    note_paths(&mut context, &track.observed_paths);
    note_max(&mut context, track, hit);
    hit_context::push_unique(&mut context, text::concat2("reason=", reason));
    hit.target_id = Some(track.track_id.0.as_str().to_owned());
    match &track.target_name {
        Some(name) => {
            hit.target_name = Some(name.as_str().to_owned());
        },
        None => {},
    }
    hit.target_context = context;
    assert(hit@ =~= hit_on_track(track@, before, projected, reason@));
    summary.target_id = copy_opt(&hit.target_id);
    summary.target_name = copy_opt(&hit.target_name);
    summary.target_context = copy_texts(&hit.target_context);
    let least: i32 = if projected { 85 } else { 100 };
    if summary.score < least {
        summary.score = least;
    }
    if summary.confidence.rank() < TargetConfidence::Probable.rank() {
        summary.confidence = TargetConfidence::Probable;
    }
    assert(summary@ =~= summary_on_track(rated, hit@, projected));
}

// -------------------------------------------------------------------------- store

/// The tracks, and what leads to each of them.
pub struct TargetTrackStore {
    tracks: Vec<TargetTrack>,
    non_hp_alias_index: StringHashMap<String>,
    hp_handle_index: StringHashMap<String>,
    generation_by_canonical_key: StringHashMap<u32>,
}

#[verifier::ext_equal]
pub struct TracksView {
    pub tracks: Seq<TrackView>,
    pub aliases: Map<Seq<char>, Seq<char>>,
    pub handles: Map<Seq<char>, Seq<char>>,
    pub generations: Map<Seq<char>, u32>,
}

impl View for TargetTrackStore {
    type V = TracksView;

    closed spec fn view(&self) -> TracksView {
        TracksView {
            tracks: track_views(self.tracks@),
            aliases: self.non_hp_alias_index@.map_values(|id: String| id@),
            handles: self.hp_handle_index@.map_values(|id: String| id@),
            generations: self.generation_by_canonical_key@,
        }
    }
}

impl TracksView {
    /// What leads to tracks: the aliases, or the handles of hit points.
    pub open spec fn index(self, hp_handle: bool) -> Map<Seq<char>, Seq<char>> {
        if hp_handle {
            self.handles
        } else {
            self.aliases
        }
    }
}

/// The position of the track with the id, not before `i`; the length where there is
/// none.
pub open spec fn track_at(s: Seq<TrackView>, id: Seq<char>, i: int) -> int
    decreases s.len() - i,
{
    if i >= s.len() {
        s.len() as int
    } else if s[i].track_id == id {
        i
    } else {
        track_at(s, id, i + 1)
    }
}

/// The position of the track that a key leads to; the number of tracks where it
/// leads to none.
pub open spec fn led_to(v: TracksView, key: Seq<char>, hp_handle: bool) -> int {
    if v.index(hp_handle).contains_key(key) {
        track_at(v.tracks, v.index(hp_handle)[key], 0)
    } else {
        v.tracks.len() as int
    }
}

proof fn lemma_track_at(s: Seq<TrackView>, id: Seq<char>, i: int)
    requires
        0 <= i <= s.len(),
    ensures
        i <= track_at(s, id, i) <= s.len(),
        track_at(s, id, i) < s.len() ==> s[track_at(s, id, i)].track_id == id,
        forall|k: int| i <= k < track_at(s, id, i) ==> (#[trigger] s[k]).track_id != id,
    decreases s.len() - i,
{
    if i < s.len() && s[i].track_id != id {
        lemma_track_at(s, id, i + 1);
    }
}

fn find_track(list: &Vec<TargetTrack>, id: &str) -> (r: usize)
    ensures
        r == track_at(track_views(list@), id@, 0),
        r <= list.len(),
{
    let mut i: usize = 0;
    while i < list.len()
        invariant
            i <= list.len(),
            track_at(track_views(list@), id@, 0) == track_at(track_views(list@), id@, i as int),
        decreases list.len() - i,
    {
        assert(track_views(list@)[i as int] == list@[i as int]@);
        if text::same_str(list[i].track_id.0.as_str(), id) {
            return i;
        }
        i += 1;
    }
    i
}

/// The positions of the first `n` tracks of which `has` holds.
pub open spec fn tracks_with(s: Seq<TrackView>, has: spec_fn(TrackView) -> bool, n: int) -> Seq<int>
    decreases n,
{
    if n <= 0 {
        Seq::empty()
    } else if has(s[n - 1]) {
        tracks_with(s, has, n - 1).push(n - 1)
    } else {
        tracks_with(s, has, n - 1)
    }
}

/// How many tracks are active.
pub open spec fn active_count(v: TracksView, timestamp: i64) -> int {
    tracks_with(
        v.tracks,
        |t: TrackView| active(t, timestamp),
        v.tracks.len() as int,
    ).len() as int
}

/// The id of the only track of which `has` holds.
pub open spec fn only_track(s: Seq<TrackView>, has: spec_fn(TrackView) -> bool) -> Option<Seq<char>> {
    let found = tracks_with(s, has, s.len() as int);
    if found.len() == 1 {
        Some(s[found[0]].track_id)
    } else {
        None
    }
}

/// An active track of the canonical key.
pub open spec fn active_of_key(track: TrackView, key: Seq<char>, timestamp: i64) -> bool {
    active(track, timestamp) && track.canonical_target_key == key
}

/// From key `i` on, where the first key leads that leads anywhere.
pub open spec fn first_led(index: Map<Seq<char>, Seq<char>>, keys: Seq<Seq<char>>, i: int) -> Option<
    Seq<char>,
>
    decreases keys.len() - i,
{
    if i < 0 || i >= keys.len() {
        None
    } else if index.contains_key(keys[i]) {
        Some(index[keys[i]])
    } else {
        first_led(index, keys, i + 1)
    }
}

/// The tracks of the canonical key that the first `n` handles lead to, each once.
pub open spec fn handled_tracks(v: TracksView, handles: Seq<Seq<char>>, key: Seq<char>, n: int) -> Seq<
    Seq<char>,
>
    decreases n,
{
    if n <= 0 {
        Seq::empty()
    } else {
        let before = handled_tracks(v, handles, key, n - 1);
        let at = led_to(v, handles[n - 1], true);
        if at < v.tracks.len() && v.tracks[at].canonical_target_key == key {
            hit_context::with_entry(before, v.tracks[at].track_id)
        } else {
            before
        }
    }
}

/// The usable tracks that the first `n` keys lead to, each once.
pub open spec fn usable_tracks(
    v: TracksView,
    keys: Seq<Seq<char>>,
    timestamp: i64,
    hp_handle: bool,
    n: int,
) -> Seq<Seq<char>>
    decreases n,
{
    if n <= 0 {
        Seq::empty()
    } else {
        let before = usable_tracks(v, keys, timestamp, hp_handle, n - 1);
        let at = led_to(v, keys[n - 1], hp_handle);
        if at < v.tracks.len() && usable(v.tracks[at], timestamp) && (!hp_handle || !quarantined(
            v.tracks[at],
            timestamp,
        )) {
            hit_context::with_entry(before, v.tracks[at].track_id)
        } else {
            before
        }
    }
}

/// The only element of a list of one.
pub open spec fn sole(list: Seq<Seq<char>>) -> Option<Seq<char>> {
    if list.len() == 1 {
        Some(list[0])
    } else {
        None
    }
}

fn sole_text(list: &Vec<String>) -> (r: Option<String>)
    ensures
        text::opt_text(r) == sole(text::texts(list@)),
{
    if list.len() == 1 {
        assert(text::texts(list@)[0] == list@[0]@);
        Some(list[0].as_str().to_owned())
    } else {
        None
    }
}

/// What speaks against taking the track for the target of the key and name; `None`
/// where nothing does.
pub open spec fn objection(
    track: TrackView,
    key: Seq<char>,
    name: Seq<char>,
    hp_handle: bool,
    timestamp: i64,
) -> Option<Seq<char>> {
    if track.canonical_target_key == key && track.target_name == Some(name) {
        None
    } else if hp_handle && quarantined(track, timestamp) {
        Some("target_conflict=hp_handle_reused_without_lifecycle_reset"@)
    } else if track.canonical_target_key != key {
        Some("target_conflict=locked_path_mismatch"@)
    } else {
        Some("target_conflict=locked_name_mismatch"@)
    }
}

/// From key `i` on, the first thing that speaks against it.
pub open spec fn first_objection(
    v: TracksView,
    keys: Seq<Seq<char>>,
    key: Seq<char>,
    name: Seq<char>,
    hp_handle: bool,
    timestamp: i64,
    i: int,
) -> Option<Seq<char>>
    decreases keys.len() - i,
{
    if i < 0 || i >= keys.len() {
        None
    } else {
        let at = led_to(v, keys[i], hp_handle);
        let here = if at < v.tracks.len() {
            objection(v.tracks[at], key, name, hp_handle, timestamp)
        } else {
            None
        };
        match here {
            Some(o) => Some(o),
            None => first_objection(v, keys, key, name, hp_handle, timestamp, i + 1),
        }
    }
}

/// The generation of the next track of the key.
pub open spec fn next_generation(generations: Map<Seq<char>, u32>, key: Seq<char>) -> u32 {
    if generations.contains_key(key) {
        if generations[key] == u32::MAX {
            u32::MAX
        } else {
            (generations[key] + 1) as u32
        }
    } else {
        1
    }
}

/// The id of a track: its key and its generation.
pub open spec fn numbered(key: Seq<char>, generation: u32) -> Seq<char> {
    key + "#"@ + text::dec(generation as nat)
}

/// A new track.
pub open spec fn new_track(key: Seq<char>, generation: u32, path: Seq<char>, timestamp: i64) -> TrackView {
    TrackView {
        track_id: numbered(key, generation),
        generation,
        canonical_target_key: key,
        target_name: None,
        display_target_path: Some(path),
        observed_paths: seq![path],
        label_state: TargetLabelState::Provisional,
        lifecycle: TargetLifecycle::Provisional,
        first_seen_at: timestamp,
        last_seen_at: timestamp,
        last_damage_at: None,
        hp_timeline: Seq::empty(),
        non_hp_aliases: Seq::empty(),
        hp_handles: Seq::empty(),
        assigned_hit_uids: Seq::empty(),
        conflict_flags: Seq::empty(),
        source: None,
        quarantined_at: None,
    }
}

/// The tracks with one more, in the place of one that has its id.
pub open spec fn with_track(s: Seq<TrackView>, track: TrackView) -> Seq<TrackView> {
    let at = track_at(s, track.track_id, 0);
    if at < s.len() {
        s.update(at, track)
    } else {
        s.push(track)
    }
}

/// The store with a new track, and the track's id.
pub open spec fn track_created(v: TracksView, key: Seq<char>, path: Seq<char>, timestamp: i64) -> (
    TracksView,
    Seq<char>,
) {
    let generation = next_generation(v.generations, key);
    (
        TracksView {
            tracks: with_track(v.tracks, new_track(key, generation, path, timestamp)),
            generations: v.generations.insert(key, generation),
            ..v
        },
        numbered(key, generation),
    )
}

/// The store with the track at the position replaced.
pub open spec fn with_track_at(v: TracksView, at: int, track: TrackView) -> TracksView {
    TracksView { tracks: v.tracks.update(at, track), ..v }
}

/// The index with the first `n` keys leading to the track.
pub open spec fn leading(
    index: Map<Seq<char>, Seq<char>>,
    keys: Seq<Seq<char>>,
    id: Seq<char>,
    n: int,
) -> Map<Seq<char>, Seq<char>>
    decreases n,
{
    if n <= 0 {
        index
    } else {
        leading(index, keys, id, n - 1).insert(keys[n - 1], id)
    }
}

impl Default for TargetTrackStore {
    fn default() -> (r: TargetTrackStore)
        ensures
            r@.tracks.len() == 0,
            r@.aliases == Map::<Seq<char>, Seq<char>>::empty(),
            r@.handles == Map::<Seq<char>, Seq<char>>::empty(),
            r@.generations == Map::<Seq<char>, u32>::empty(),
    {
        TargetTrackStore::new()
    }
}

impl TargetTrackStore {
    pub fn new() -> (r: TargetTrackStore)
        ensures
            r@.tracks.len() == 0,
            r@.aliases == Map::<Seq<char>, Seq<char>>::empty(),
            r@.handles == Map::<Seq<char>, Seq<char>>::empty(),
            r@.generations == Map::<Seq<char>, u32>::empty(),
    {
        let r = TargetTrackStore {
            tracks: Vec::new(),
            non_hp_alias_index: StringHashMap::new(),
            hp_handle_index: StringHashMap::new(),
            generation_by_canonical_key: StringHashMap::new(),
        };
        assert(r@.aliases =~= Map::<Seq<char>, Seq<char>>::empty());
        assert(r@.handles =~= Map::<Seq<char>, Seq<char>>::empty());
        r
    }

    /// The track with the id.
    pub fn track(&self, track_id: &TargetTrackId) -> (r: Option<&TargetTrack>)
        ensures
            match r {
                Some(t) => track_at(self@.tracks, track_id.0@, 0) < self@.tracks.len() && t@
                    == self@.tracks[track_at(self@.tracks, track_id.0@, 0)],
                None => track_at(self@.tracks, track_id.0@, 0) >= self@.tracks.len(),
            },
    {
        let at = find_track(&self.tracks, track_id.0.as_str());
        if at < self.tracks.len() {
            assert(self@.tracks[at as int] == self.tracks@[at as int]@);
            Some(&self.tracks[at])
        } else {
            None
        }
    }

    /// Where an alias or, if that is asked for, a handle of hit points leads.
    pub fn track_id_for_key(&self, key: &str, hp_handle: bool) -> (r: Option<String>)
        ensures
            text::opt_text(r) == if self@.index(hp_handle).contains_key(key@) {
                Some(self@.index(hp_handle)[key@])
            } else {
                None
            },
    {
        let found = if hp_handle {
            self.hp_handle_index.get(key)
        } else {
            self.non_hp_alias_index.get(key)
        };
        match found {
            Some(id) => Some(id.as_str().to_owned()),
            None => None,
        }
    }

    fn position_for_key(&self, key: &str, hp_handle: bool) -> (r: usize)
        ensures
            r == led_to(self@, key@, hp_handle),
            r <= self.tracks.len(),
    {
        match self.track_id_for_key(key, hp_handle) {
            Some(id) => find_track(&self.tracks, id.as_str()),
            None => self.tracks.len(),
        }
    }

    /// How many tracks are active.
    pub fn active_track_count(&self, timestamp: i64) -> (r: usize)
        ensures
            r == active_count(self@, timestamp),
    {
        let ghost all = self@.tracks;
        let ghost has = |t: TrackView| active(t, timestamp);
        let mut count: usize = 0;
        let mut k: usize = 0;
        while k < self.tracks.len()
            invariant
                k <= self.tracks.len(),
                all == self@.tracks,
                has == (|t: TrackView| active(t, timestamp)),
                count <= k,
                count == tracks_with(all, has, k as int).len(),
            decreases self.tracks.len() - k,
        {
            assert(all[k as int] == self.tracks@[k as int]@);
            if track_is_active(&self.tracks[k], timestamp) {
                count += 1;
            }
            k += 1;
        }
        count
    }

    /// The positions of the tracks that the hit fits.
    fn matching_tracks(&self, fact: &DamageHitFact) -> (r: (usize, usize))
        ensures
            r.0 == tracks_with(
                self@.tracks,
                |t: TrackView| stream_fits(t, fact@),
                self@.tracks.len() as int,
            ).len(),
            r.0 == 1 ==> r.1 < self.tracks.len() && r.1 == tracks_with(
                self@.tracks,
                |t: TrackView| stream_fits(t, fact@),
                self@.tracks.len() as int,
            )[0],
    {
        let ghost all = self@.tracks;
        let ghost has = |t: TrackView| stream_fits(t, fact@);
        let mut found: usize = 0;
        let mut count: usize = 0;
        let mut k: usize = 0;
        while k < self.tracks.len()
            invariant
                k <= self.tracks.len(),
                all == self@.tracks,
                has == (|t: TrackView| stream_fits(t, fact@)),
                count <= k,
                count == tracks_with(all, has, k as int).len(),
                count > 0 ==> found < k && tracks_with(all, has, k as int).last() == found,
            decreases self.tracks.len() - k,
        {
            assert(all[k as int] == self.tracks@[k as int]@);
            if track_can_explain_hit(&self.tracks[k], fact) {
                found = k;
                count += 1;
            }
            k += 1;
        }
        (count, found)
    }

    fn last_blow_tracks(&self, fact: &DamageHitFact) -> (r: (usize, usize))
        ensures
            r.0 == tracks_with(
                self@.tracks,
                |t: TrackView| last_blow_fits(t, fact@),
                self@.tracks.len() as int,
            ).len(),
            r.0 == 1 ==> r.1 < self.tracks.len() && r.1 == tracks_with(
                self@.tracks,
                |t: TrackView| last_blow_fits(t, fact@),
                self@.tracks.len() as int,
            )[0],
    {
        let ghost all = self@.tracks;
        let ghost has = |t: TrackView| last_blow_fits(t, fact@);
        let mut found: usize = 0;
        let mut count: usize = 0;
        let mut k: usize = 0;
        while k < self.tracks.len()
            invariant
                k <= self.tracks.len(),
                all == self@.tracks,
                has == (|t: TrackView| last_blow_fits(t, fact@)),
                count <= k,
                count == tracks_with(all, has, k as int).len(),
                count > 0 ==> found < k && tracks_with(all, has, k as int).last() == found,
            decreases self.tracks.len() - k,
        {
            assert(all[k as int] == self.tracks@[k as int]@);
            if terminal_hit_matches_track(&self.tracks[k], fact) {
                found = k;
                count += 1;
            }
            k += 1;
        }
        (count, found)
    }

    fn single_active_same_canonical_key_track(&self, canonical_key: &str, timestamp: i64) -> (r: Option<
        String,
    >)
        ensures
            text::opt_text(r) == only_track(
                self@.tracks,
                |t: TrackView| active_of_key(t, canonical_key@, timestamp),
            ),
    {
        let ghost all = self@.tracks;
        let ghost has = |t: TrackView| active_of_key(t, canonical_key@, timestamp);
        let mut found: usize = 0;
        let mut count: usize = 0;
        let mut k: usize = 0;
        while k < self.tracks.len()
            invariant
                k <= self.tracks.len(),
                all == self@.tracks,
                has == (|t: TrackView| active_of_key(t, canonical_key@, timestamp)),
                count <= k,
                count == tracks_with(all, has, k as int).len(),
                count > 0 ==> found < k && tracks_with(all, has, k as int).last() == found,
            decreases self.tracks.len() - k,
        {
            assert(all[k as int] == self.tracks@[k as int]@);
            if track_is_active(&self.tracks[k], timestamp) && text::same_str(
                self.tracks[k].canonical_target_key.as_str(),
                canonical_key,
            ) {
                found = k;
                count += 1;
            }
            k += 1;
        }
        if count == 1 {
            assert(all[found as int] == self.tracks@[found as int]@);
            Some(self.tracks[found].track_id.0.as_str().to_owned())
        } else {
            None
        }
    }

    fn track_for_non_hp_aliases(&self, aliases: &Vec<String>) -> (r: Option<String>)
        ensures
            text::opt_text(r) == first_led(self@.aliases, text::texts(aliases@), 0),
    {
        let ghost all = text::texts(aliases@);
        let mut k: usize = 0;
        while k < aliases.len()
            invariant
                k <= aliases.len(),
                all == text::texts(aliases@),
                first_led(self@.aliases, all, 0) == first_led(self@.aliases, all, k as int),
            decreases aliases.len() - k,
        {
            assert(all[k as int] == aliases@[k as int]@);
            match self.track_id_for_key(aliases[k].as_str(), false) {
                Some(id) => {
                    return Some(id);
                },
                None => {},
            }
            k += 1;
        }
        None
    }

    fn track_for_hp_handle_same_canonical_key(&self, hp_handles: &Vec<String>, canonical_key: &str) -> (r:
        Option<String>)
        ensures
            text::opt_text(r) == sole(
                handled_tracks(
                    self@,
                    text::texts(hp_handles@),
                    canonical_key@,
                    hp_handles@.len() as int,
                ),
            ),
    {
        let ghost all = text::texts(hp_handles@);
        let mut found: Vec<String> = Vec::new();
        let mut k: usize = 0;
        assert(text::texts(found@) =~= handled_tracks(self@, all, canonical_key@, 0));
        while k < hp_handles.len()
            invariant
                k <= hp_handles.len(),
                all == text::texts(hp_handles@),
                text::texts(found@) == handled_tracks(self@, all, canonical_key@, k as int),
            decreases hp_handles.len() - k,
        {
            assert(all[k as int] == hp_handles@[k as int]@);
            let at = self.position_for_key(hp_handles[k].as_str(), true);
            if at < self.tracks.len() {
                assert(self@.tracks[at as int] == self.tracks@[at as int]@);
                if text::same_str(self.tracks[at].canonical_target_key.as_str(), canonical_key) {
                    hit_context::push_unique(
                        &mut found,
                        self.tracks[at].track_id.0.as_str().to_owned(),
                    );
                }
            }
            k += 1;
        }
        sole_text(&found)
    }

    fn unique_active_track_for_aliases(&self, aliases: &Vec<String>, timestamp: i64, hp_handle: bool) -> (r:
        Option<String>)
        ensures
            text::opt_text(r) == sole(
                usable_tracks(
                    self@,
                    text::texts(aliases@),
                    timestamp,
                    hp_handle,
                    aliases@.len() as int,
                ),
            ),
    {
        let ghost all = text::texts(aliases@);
        let mut found: Vec<String> = Vec::new();
        let mut k: usize = 0;
        assert(text::texts(found@) =~= usable_tracks(self@, all, timestamp, hp_handle, 0));
        while k < aliases.len()
            invariant
                k <= aliases.len(),
                all == text::texts(aliases@),
                text::texts(found@) == usable_tracks(self@, all, timestamp, hp_handle, k as int),
            decreases aliases.len() - k,
        {
            assert(all[k as int] == aliases@[k as int]@);
            let at = self.position_for_key(aliases[k].as_str(), hp_handle);
            if at < self.tracks.len() {
                assert(self@.tracks[at as int] == self.tracks@[at as int]@);
                if track_usable_for_exact_alias(&self.tracks[at], timestamp) && (!hp_handle
                    || !hp_handle_quarantined(&self.tracks[at], timestamp)) {
                    hit_context::push_unique(
                        &mut found,
                        self.tracks[at].track_id.0.as_str().to_owned(),
                    );
                }
            }
            k += 1;
        }
        sole_text(&found)
    }

    fn alias_objection(
        &self,
        keys: &Vec<String>,
        canonical_key: &str,
        name: &str,
        hp_handle: bool,
        timestamp: i64,
    ) -> (r: Option<String>)
        ensures
            text::opt_text(r) == first_objection(
                self@,
                text::texts(keys@),
                canonical_key@,
                name@,
                hp_handle,
                timestamp,
                0,
            ),
    {
        let ghost all = text::texts(keys@);
        let mut k: usize = 0;
        while k < keys.len()
            invariant
                k <= keys.len(),
                all == text::texts(keys@),
                first_objection(
                    self@,
                    all,
                    canonical_key@,
                    name@,
                    hp_handle,
                    timestamp,
                    0,
                ) == first_objection(
                    self@,
                    all,
                    canonical_key@,
                    name@,
                    hp_handle,
                    timestamp,
                    k as int,
                ),
            decreases keys.len() - k,
        {
            assert(all[k as int] == keys@[k as int]@);
            let at = self.position_for_key(keys[k].as_str(), hp_handle);
            if at < self.tracks.len() {
                let track = &self.tracks[at];
                assert(self@.tracks[at as int] == track@);
                let same_key = text::same_str(track.canonical_target_key.as_str(), canonical_key);
                let same_name = match &track.target_name {
                    Some(known) => text::same_str(known.as_str(), name),
                    None => false,
                };
                if !(same_key && same_name) {
                    if hp_handle && hp_handle_quarantined(track, timestamp) {
                        return Some(
                            "target_conflict=hp_handle_reused_without_lifecycle_reset".to_owned(),
                        );
                    } else if !same_key {
                        return Some("target_conflict=locked_path_mismatch".to_owned());
                    } else {
                        return Some("target_conflict=locked_name_mismatch".to_owned());
                    }
                }
            }
            k += 1;
        }
        None
    }

    fn create_track(&mut self, canonical_key: &str, display_path: &str, timestamp: i64) -> (out: String)
        ensures
            (final(self)@, out@) == track_created(
                old(self)@,
                canonical_key@,
                display_path@,
                timestamp,
            ),
    {
        let ghost v = self@;
        let generation: u32 = match self.generation_by_canonical_key.get(canonical_key) {
            Some(n) => if *n == u32::MAX { u32::MAX } else { *n + 1 },
            None => 1,
        };
        let id = text::concat3(canonical_key, "#", text::dec_string(generation as u64).as_str());
        self.generation_by_canonical_key.insert(canonical_key.to_owned(), generation);
        let mut paths: Vec<String> = Vec::new();
        paths.push(display_path.to_owned());
        let track = TargetTrack {
            track_id: TargetTrackId(id.as_str().to_owned()),
            generation,
            canonical_target_key: canonical_key.to_owned(),
            target_name: None,
            display_target_path: Some(display_path.to_owned()),
            observed_paths: paths,
            label_state: TargetLabelState::Provisional,
            lifecycle: TargetLifecycle::Provisional,
            first_seen_at: timestamp,
            last_seen_at: timestamp,
            last_damage_at: None,
            hp_timeline: VecDeque::new(),
            non_hp_aliases: Vec::new(),
            hp_handles: Vec::new(),
            assigned_hit_uids: Vec::new(),
            conflict_flags: Vec::new(),
            source: None,
            quarantined_at: None,
        };
        let ghost wanted = new_track(canonical_key@, generation, display_path@, timestamp);
        assert(track@.observed_paths =~= wanted.observed_paths);
        assert(track@.hp_timeline =~= wanted.hp_timeline);
        assert(track@ =~= wanted);
        let at = find_track(&self.tracks, id.as_str());
        if at < self.tracks.len() {
            self.tracks[at] = track;
            assert(self@.tracks =~= v.tracks.update(at as int, wanted));
        } else {
            self.tracks.push(track);
            assert(self@.tracks =~= v.tracks.push(wanted));
        }
        assert(self@.aliases == v.aliases && self@.handles == v.handles);
        id
    }

    fn lead(&mut self, keys: &Vec<String>, id: &str, hp_handle: bool)
        ensures
            final(self).tracks@ == old(self).tracks@,
            final(self)@.tracks == old(self)@.tracks,
            final(self)@.generations == old(self)@.generations,
            final(self)@.index(hp_handle) == leading(
                old(self)@.index(hp_handle),
                text::texts(keys@),
                id@,
                keys@.len() as int,
            ),
            final(self)@.index(!hp_handle) == old(self)@.index(!hp_handle),
    {
        let ghost v = self@;
        let ghost list = self.tracks@;
        let ghost all = text::texts(keys@);
        let mut k: usize = 0;
        while k < keys.len()
            invariant
                k <= keys.len(),
                all == text::texts(keys@),
                self.tracks@ == list,
                self@.tracks == v.tracks,
                self@.generations == v.generations,
                self@.index(hp_handle) == leading(v.index(hp_handle), all, id@, k as int),
                self@.index(!hp_handle) == v.index(!hp_handle),
            decreases keys.len() - k,
        {
            assert(all[k as int] == keys@[k as int]@);
            let ghost now = self@;
            let key = keys[k].as_str().to_owned();
            if hp_handle {
                self.hp_handle_index.insert(key, id.to_owned());
                assert(self@.handles =~= now.handles.insert(all[k as int], id@));
                assert(self@.aliases == now.aliases);
            } else {
                self.non_hp_alias_index.insert(key, id.to_owned());
                assert(self@.aliases =~= now.aliases.insert(all[k as int], id@));
                assert(self@.handles == now.handles);
            }
            k += 1;
        }
    }
}

// --------------------------------------------------------------------- attribution

/// Everything that a hit has changed, and what came of it.
#[verifier::ext_equal]
pub struct Outcome {
    pub store: TracksView,
    pub hit: HitView,
    pub summary: SummaryView,
    pub result: ResultView,
}

/// Nothing has changed.
pub open spec fn unchanged(store: TracksView, hit: HitView, summary: SummaryView) -> Outcome {
    Outcome { store, hit, summary, result: nothing() }
}

/// The hit gets the notes, and so does the summary.
pub open spec fn only_noted(
    store: TracksView,
    hit: HitView,
    summary: SummaryView,
    context: Seq<Seq<char>>,
    result: ResultView,
) -> Outcome {
    Outcome {
        store,
        hit: HitView { target_context: context, ..hit },
        summary: SummaryView { target_context: context, ..summary },
        result,
    }
}

/// A note that the target is in doubt.
pub open spec fn in_conflict(context: Seq<Seq<char>>) -> bool {
    hit_context::has_entry(context, Entry::Starting("target_conflict=")) || hit_context::has_entry(
        context,
        Entry::Exactly("reason=recent_death_suppressed_stale_target"),
    )
}

/// From where the name of the hit's target is known.
pub open spec fn identity_source(hit: HitView, summary: SummaryView) -> Option<TrackIdentitySource> {
    let c = hit.target_context;
    if hit_context::has_entry(c, Entry::Exactly("target_name_resolution=runtime_mapping")) {
        Some(TrackIdentitySource::RuntimeMapping)
    } else if hit_context::has_entry(c, Entry::Starting("reason=runtime_alias:")) {
        Some(TrackIdentitySource::RuntimeAlias)
    } else if hit_context::other_keys(hit.target_id, c).len() > 0 {
        Some(TrackIdentitySource::NonHpAlias)
    } else if hit_context::has_entry(c, Entry::Starting("reason=hp_guid_timeline_match"))
        || hit_context::has_entry(c, Entry::Starting("reason=net_target_hp_timeline_match"))
        || hit_context::has_entry(c, Entry::Starting("reason=hp_timeline_match"))
        || hit_context::has_entry(c, Entry::Exactly("reason=runtime_hp_timeline_unique")) {
        Some(TrackIdentitySource::DirectHpTimeline)
    } else if hit_context::has_entry(c, Entry::Starting("reason=boss_hp_delta_match"))
        || hit_context::has_entry(c, Entry::Starting("reason=net_target_hp_delta_match"))
        || hit_context::has_entry(c, Entry::Starting("reason=hp_delta_match")) {
        Some(TrackIdentitySource::DirectHpDelta)
    } else if summary.direct_hp_evidence && hit_context::value_of(c, "target_name_resolution"@)
        == Some("table_resolved"@) {
        Some(TrackIdentitySource::DirectHpTimeline)
    } else {
        None
    }
}

/// The name of the hit's target, without white space round it.
pub open spec fn clean_name(hit: HitView) -> Option<Seq<char>> {
    match hit.target_name {
        Some(name) => {
            let n = text::trim(name, Class::Space);
            if n.len() > 0 {
                Some(n)
            } else {
                None
            }
        },
        None => None,
    }
}

/// The hit tells the name of its target surely enough to learn from it.
pub open spec fn teaches(hit: HitView, summary: SummaryView) -> bool {
    &&& clean_name(hit) is Some
    &&& !in_conflict(hit.target_context)
    &&& !hit_context::has_entry(
        hit.target_context,
        Entry::Exactly("target_suppressed=ambiguous_multi_target"),
    )
    &&& identity_source(hit, summary) is Some
}

/// The hit has no name, and may get one.
pub open spec fn nameable(hit: HitView) -> bool {
    &&& hit.target_name is None
    &&& !in_conflict(hit.target_context)
    &&& !hit_context::has_entry(
        hit.target_context,
        Entry::Exactly("target_lifecycle=dead_or_expired"),
    )
}

/// The path of the hit's target, unless it is one that is no target.
pub open spec fn target_path(hit: HitView) -> Option<Seq<char>> {
    match hit_context::value_of(hit.target_context, "target_path"@) {
        Some(path) => if object_state::ignored_path(path) {
            None
        } else {
            Some(path)
        },
        None => None,
    }
}

/// The canonical key of a target.
pub open spec fn key_of_target(name: Seq<char>, path: Seq<char>) -> Seq<char> {
    match target_identity::canonical_key_of(name, path) {
        Some(key) => key,
        None => "path:"@ + text::lower(text::trim(path, Class::Space)),
    }
}

/// The track that a named hit belongs to: the one that an alias leads to, the only
/// active one of its key, the one that a handle leads to, or a new one.
pub open spec fn track_for(
    v: TracksView,
    aliases: Seq<Seq<char>>,
    handles: Seq<Seq<char>>,
    key: Seq<char>,
    path: Seq<char>,
    timestamp: i64,
) -> (TracksView, Seq<char>) {
    match first_led(v.aliases, aliases, 0) {
        Some(id) => (v, id),
        None => match only_track(v.tracks, |t: TrackView| active_of_key(t, key, timestamp)) {
            Some(id) => (v, id),
            None => match sole(handled_tracks(v, handles, key, handles.len() as int)) {
                Some(id) => (v, id),
                None => track_created(v, key, path, timestamp),
            },
        },
    }
}

/// The track with a mark that something did not fit.
pub open spec fn flagged(track: TrackView, flag: Seq<char>) -> TrackView {
    TrackView { conflict_flags: hit_context::with_entry(track.conflict_flags, flag), ..track }
}

/// The track, named by a hit.
pub open spec fn named_track(
    track: TrackView,
    name: Seq<char>,
    path: Seq<char>,
    source: TrackIdentitySource,
    fact: FactView,
    aliases: Seq<Seq<char>>,
    handles: Seq<Seq<char>>,
) -> TrackView {
    let damaged = with_damage(
        TrackView {
            target_name: Some(name),
            display_target_path: Some(path),
            observed_paths: hit_context::with_entry(track.observed_paths, path),
            label_state: TargetLabelState::Locked,
            lifecycle: if fact.hp_after <= DEAD_POINTS {
                TargetLifecycle::Dying
            } else {
                TargetLifecycle::Active
            },
            source: Some(surer(track.source, source)),
            ..track
        },
        fact,
    );
    TrackView {
        non_hp_aliases: hit_context::with_entries(
            damaged.non_hp_aliases,
            aliases,
            aliases.len() as int,
        ),
        hp_handles: hit_context::with_entries(damaged.hp_handles, handles, handles.len() as int),
        ..damaged
    }
}

/// The hit belongs to the track.
pub open spec fn on_track(track: TrackView, projected: bool, reason: Seq<char>) -> ResultView {
    ResultView {
        target_track_id: Some(track.track_id),
        generation: Some(track.generation),
        target_name: track.target_name,
        target_path: track.display_target_path,
        projected,
        ambiguous: false,
        reason: Some(reason),
    }
}

/// A hit whose target is named, on the track that was found for it.
pub open spec fn named_on(
    v: TracksView,
    id: Seq<char>,
    hit: HitView,
    summary: SummaryView,
    fact: FactView,
    source: TrackIdentitySource,
    name: Seq<char>,
    path: Seq<char>,
    key: Seq<char>,
) -> Outcome {
    let aliases = hit_context::other_keys(hit.target_id, hit.target_context);
    let handles = hit_context::hp_keys(hit.target_id, hit.target_context);
    let at = track_at(v.tracks, id, 0);
    if at >= v.tracks.len() {
        unchanged(v, hit, summary)
    } else {
        let track = v.tracks[at];
        if track.canonical_target_key != key {
            only_noted(
                with_track_at(v, at, flagged(track, "locked_path_mismatch"@)),
                hit,
                summary,
                hit_context::with_entry(
                    hit.target_context,
                    "target_conflict=locked_path_mismatch"@,
                ),
                undecided("locked_path_mismatch"@),
            )
        } else if track.target_name is Some && track.target_name != Some(name) {
            only_noted(
                with_track_at(v, at, flagged(track, "locked_name_mismatch"@)),
                hit,
                summary,
                hit_context::with_entry(
                    hit.target_context,
                    "target_conflict=locked_name_mismatch"@,
                ),
                undecided("locked_name_mismatch"@),
            )
        } else {
            let named = named_track(track, name, path, source, fact, aliases, handles);
            let after = hit_on_track(named, hit, false, "track_named_hit"@);
            Outcome {
                store: TracksView {
                    aliases: leading(v.aliases, aliases, id, aliases.len() as int),
                    handles: leading(v.handles, handles, id, handles.len() as int),
                    ..with_track_at(v, at, named)
                },
                hit: after,
                summary: summary_on_track(summary, after, false),
                result: on_track(named, false, "track_named_hit"@),
            }
        }
    }
}

/// What speaks against a named hit, from its aliases or its handles.
pub open spec fn named_objection(
    v: TracksView,
    hit: HitView,
    key: Seq<char>,
    name: Seq<char>,
) -> Option<Seq<char>> {
    let aliases = hit_context::other_keys(hit.target_id, hit.target_context);
    let handles = hit_context::hp_keys(hit.target_id, hit.target_context);
    match first_objection(v, aliases, key, name, false, hit.timestamp, 0) {
        Some(o) => Some(o),
        None => first_objection(v, handles, key, name, true, hit.timestamp, 0),
    }
}

/// A hit whose target is named.
pub open spec fn named_hit(v: TracksView, hit: HitView, summary: SummaryView, fact: FactView) -> Outcome {
    match (identity_source(hit, summary), clean_name(hit), target_path(hit)) {
        (Some(source), Some(name), Some(path)) => {
            let key = key_of_target(name, path);
            match named_objection(v, hit, key, name) {
                Some(note) => only_noted(
                    v,
                    hit,
                    summary,
                    hit_context::with_entry(hit.target_context, note),
                    undecided("alias_conflict"@),
                ),
                None => {
                    let found = track_for(
                        v,
                        hit_context::other_keys(hit.target_id, hit.target_context),
                        hit_context::hp_keys(hit.target_id, hit.target_context),
                        key,
                        path,
                        fact.timestamp,
                    );
                    named_on(found.0, found.1, hit, summary, fact, source, name, path, key)
                },
            }
        },
        _ => unchanged(v, hit, summary),
    }
}

/// A hit without a name gets that of the track.
pub open spec fn projected_on(
    v: TracksView,
    id: Seq<char>,
    hit: HitView,
    summary: SummaryView,
    fact: FactView,
    reason: Seq<char>,
) -> Outcome {
    let at = track_at(v.tracks, id, 0);
    if at >= v.tracks.len() {
        unchanged(v, hit, summary)
    } else {
        let track = with_damage(v.tracks[at], fact);
        let store = with_track_at(v, at, track);
        if track.label_state != TargetLabelState::Locked || track.target_name is None {
            Outcome {
                store,
                hit,
                summary,
                result: ResultView {
                    target_track_id: Some(track.track_id),
                    generation: Some(track.generation),
                    reason: Some(reason),
                    ..nothing()
                },
            }
        } else {
            let after = hit_on_track(track, hit, true, reason);
            Outcome {
                store,
                hit: after,
                summary: summary_on_track(summary, after, true),
                result: on_track(track, true, reason),
            }
        }
    }
}

/// The notes of how many tracks there are, and how many fit.
pub open spec fn count_notes(context: Seq<Seq<char>>, active: int, fitting: int) -> Seq<Seq<char>> {
    hit_context::replaced(
        hit_context::replaced(context, "track_active_count"@, text::dec(active as nat)),
        "track_matching_count"@,
        text::dec(fitting as nat),
    )
}

/// The notes of why a hit got no name.
pub open spec fn refusal_notes(context: Seq<Seq<char>>, reason: Seq<char>) -> Seq<Seq<char>> {
    hit_context::replaced(
        hit_context::replaced(context, "track_decision"@, "not_projected"@),
        "track_reject_reason"@,
        reason,
    )
}

/// The notes that there is more than one target.
pub open spec fn ambiguity_notes(context: Seq<Seq<char>>) -> Seq<Seq<char>> {
    hit_context::with_entry(
        hit_context::with_entry(context, "target_unresolved=ambiguous_multi_target"@),
        "target_suppressed=ambiguous_multi_target"@,
    )
}

/// The contents of a packet's context.
#[verifier::ext_equal]
pub struct ContextView {
    pub paths: Seq<Seq<char>>,
    pub names: Seq<Seq<char>>,
    pub hp_handles: Seq<Seq<char>>,
    pub multiple: bool,
}

impl View for TrackPacketContext {
    type V = ContextView;

    open spec fn view(&self) -> ContextView {
        ContextView {
            paths: text::texts(self.canonical_target_paths@),
            names: text::texts(self.canonical_target_names@),
            hp_handles: text::texts(self.hp_handle_keys@),
            multiple: self.has_multiple_canonical_targets,
        }
    }
}

/// The only target that the packet tells, where the hit is one of lingering damage
/// and no track is active.
pub open spec fn told_target(v: TracksView, hit: HitView, fact: FactView, context: ContextView) -> Option<
    (Seq<char>, Seq<char>),
> {
    if active_count(v, fact.timestamp) == 0 && lingering(hit) && !context.multiple {
        match (the_only(context.paths), the_only(context.names)) {
            (Some(path), Some(name)) => Some((path, name)),
            _ => None,
        }
    } else {
        None
    }
}

/// The track of the target that the packet tells.
pub open spec fn told_track(
    v: TracksView,
    path: Seq<char>,
    name: Seq<char>,
    timestamp: i64,
) -> (TracksView, Seq<char>) {
    let made = track_created(v, key_of_target(name, path), path, timestamp);
    let at = track_at(made.0.tracks, made.1, 0);
    if at < made.0.tracks.len() {
        let track = made.0.tracks[at];
        (
            with_track_at(
                made.0,
                at,
                TrackView {
                    target_name: Some(name),
                    display_target_path: Some(path),
                    observed_paths: hit_context::with_entry(track.observed_paths, path),
                    label_state: TargetLabelState::Locked,
                    lifecycle: TargetLifecycle::Active,
                    source: Some(TrackIdentitySource::DirectHpTimeline),
                    ..track
                },
            ),
            made.1,
        )
    } else {
        made
    }
}

/// The positions of the tracks that a hit fits.
pub open spec fn fitting(v: TracksView, fact: FactView) -> Seq<int> {
    tracks_with(v.tracks, |t: TrackView| stream_fits(t, fact), v.tracks.len() as int)
}

/// A hit without a name that no alias leads to a track.
pub open spec fn unled_hit(
    v: TracksView,
    hit: HitView,
    summary: SummaryView,
    fact: FactView,
    context: ContextView,
) -> Outcome {
    let found = fitting(v, fact);
    let count = active_count(v, fact.timestamp);
    let noted = HitView {
        target_context: count_notes(hit.target_context, count, found.len() as int),
        ..hit
    };
    if found.len() == 1 {
        projected_on(
            v,
            v.tracks[found[0]].track_id,
            noted,
            summary,
            fact,
            if lingering(hit) {
                "single_active_track_dot"@
            } else {
                "single_active_track_projection"@
            },
        )
    } else if found.len() > 1 {
        only_noted(
            v,
            hit,
            summary,
            refusal_notes(
                ambiguity_notes(noted.target_context),
                "multiple_matching_tracks"@,
            ),
            undecided("multiple_matching_tracks"@),
        )
    } else {
        match told_target(v, hit, fact, context) {
            Some((path, name)) => {
                let made = told_track(v, path, name, fact.timestamp);
                projected_on(made.0, made.1, noted, summary, fact, "single_active_track_dot"@)
            },
            None => only_noted(
                v,
                hit,
                summary,
                refusal_notes(
                    count_notes(noted.target_context, count, 0),
                    if context.multiple {
                        "no_matching_track_multiple_canonical_targets"@
                    } else {
                        "hp_stream_mismatch"@
                    },
                ),
                nothing(),
            ),
        }
    }
}

/// A hit without a name.
pub open spec fn unnamed_hit(
    v: TracksView,
    hit: HitView,
    summary: SummaryView,
    fact: FactView,
    context: ContextView,
) -> Outcome {
    let aliases = hit_context::other_keys(hit.target_id, hit.target_context);
    let handles = hit_context::hp_keys(hit.target_id, hit.target_context);
    if !nameable(hit) {
        only_noted(
            v,
            hit,
            summary,
            refusal_notes(
                count_notes(hit.target_context, active_count(v, fact.timestamp), 0),
                "hard_conflict"@,
            ),
            nothing(),
        )
    } else {
        match sole(usable_tracks(v, aliases, fact.timestamp, false, aliases.len() as int)) {
            Some(id) => projected_on(v, id, hit, summary, fact, "unique_non_hp_alias"@),
            None => match sole(
                usable_tracks(v, handles, fact.timestamp, true, handles.len() as int),
            ) {
                Some(id) => projected_on(v, id, hit, summary, fact, "unique_locked_hp_handle"@),
                None => unled_hit(v, hit, summary, fact, context),
            },
        }
    }
}

/// A hit that leaves nothing of its target.
pub open spec fn last_blow(v: TracksView, hit: HitView, summary: SummaryView, fact: FactView) -> Outcome {
    let found = tracks_with(
        v.tracks,
        |t: TrackView| last_blow_fits(t, fact),
        v.tracks.len() as int,
    );
    if found.len() == 1 {
        projected_on(
            v,
            v.tracks[found[0]].track_id,
            hit,
            summary,
            fact,
            "terminal_hit_active_track"@,
        )
    } else if found.len() > 1 {
        only_noted(v, hit, summary, ambiguity_notes(hit.target_context), nothing())
    } else {
        unchanged(v, hit, summary)
    }
}

/// The track is dead.
pub open spec fn killed(v: TracksView, id: Seq<char>, timestamp: i64, uid: Seq<char>) -> TracksView {
    let at = track_at(v.tracks, id, 0);
    if at < v.tracks.len() {
        let track = v.tracks[at];
        with_track_at(
            v,
            at,
            TrackView {
                lifecycle: TargetLifecycle::Dead,
                last_seen_at: timestamp,
                last_damage_at: Some(timestamp),
                assigned_hit_uids: hit_context::with_entry(track.assigned_hit_uids, uid),
                quarantined_at: Some(timestamp),
                ..track
            },
        )
    } else {
        v
    }
}

/// A hit, first as one whose target is named.
pub open spec fn after_name(v: TracksView, hit: HitView, summary: SummaryView, fact: FactView) -> Outcome {
    if teaches(hit, summary) {
        named_hit(v, hit, summary, fact)
    } else {
        unchanged(v, hit, summary)
    }
}

/// The hit has a name and a track.
pub open spec fn settled(hit: HitView) -> bool {
    hit.target_name is Some && hit_context::value_of(hit.target_context, "target_track_id"@) is Some
}

/// Then, unless that has settled it, as one without a name.
pub open spec fn after_projection(o: Outcome, fact: FactView, context: ContextView) -> Outcome {
    if settled(o.hit) {
        o
    } else {
        let u = unnamed_hit(o.store, o.hit, o.summary, fact, context);
        if u.result.target_track_id is Some || u.result.ambiguous {
            u
        } else {
            Outcome { result: o.result, ..u }
        }
    }
}

/// Then, where it leaves nothing of its target, as the last blow.
pub open spec fn after_death(o: Outcome, fact: FactView) -> Outcome {
    if o.hit.target_hp_after <= DEAD_POINTS {
        let t = if o.result.target_track_id is None {
            last_blow(o.store, o.hit, o.summary, fact)
        } else {
            o
        };
        match t.result.target_track_id {
            Some(id) => Outcome {
                store: killed(t.store, id, t.hit.timestamp, fact.hit_uid),
                ..t
            },
            None => t,
        }
    } else {
        o
    }
}

/// What a hit changes, and what comes of it.
pub open spec fn attributed(
    v: TracksView,
    hit: HitView,
    summary: SummaryView,
    context: ContextView,
) -> Outcome {
    if hit.direction == "incoming"@ {
        unchanged(v, hit, summary)
    } else {
        let fact = target_fact::fact_of(hit);
        after_death(after_projection(after_name(v, hit, summary, fact), fact, context), fact)
    }
}

// ------------------------------------------------------------- attribution in steps

fn is_in_conflict(context: &Vec<String>) -> (r: bool)
    ensures
        r == in_conflict(text::texts(context@)),
{
    hit_context::any_entry(context, Entry::Starting("target_conflict=")) || hit_context::any_entry(
        context,
        Entry::Exactly("reason=recent_death_suppressed_stale_target"),
    )
}

fn identity_source_from_hit(hit: &Hit, summary: &TargetResolutionSummary) -> (r: Option<
    TrackIdentitySource,
>)
    ensures
        r == identity_source(hit@, summary@),
{
    let c = &hit.target_context;
    if hit_context::any_entry(c, Entry::Exactly("target_name_resolution=runtime_mapping")) {
        return Some(TrackIdentitySource::RuntimeMapping);
    }
    if hit_context::any_entry(c, Entry::Starting("reason=runtime_alias:")) {
        return Some(TrackIdentitySource::RuntimeAlias);
    }
    let keys = hit_context::non_hp_alias_keys(&hit.target_id, c);
    assert(keys.len() == hit_context::other_keys(hit@.target_id, hit@.target_context).len());
    if keys.len() > 0 {
        return Some(TrackIdentitySource::NonHpAlias);
    }
    if hit_context::any_entry(c, Entry::Starting("reason=hp_guid_timeline_match"))
        || hit_context::any_entry(c, Entry::Starting("reason=net_target_hp_timeline_match"))
        || hit_context::any_entry(c, Entry::Starting("reason=hp_timeline_match"))
        || hit_context::any_entry(c, Entry::Exactly("reason=runtime_hp_timeline_unique")) {
        return Some(TrackIdentitySource::DirectHpTimeline);
    }
    if hit_context::any_entry(c, Entry::Starting("reason=boss_hp_delta_match"))
        || hit_context::any_entry(c, Entry::Starting("reason=net_target_hp_delta_match"))
        || hit_context::any_entry(c, Entry::Starting("reason=hp_delta_match")) {
        return Some(TrackIdentitySource::DirectHpDelta);
    }
    if summary.direct_hp_evidence {
        match hit_context::target_context_value(c, "target_name_resolution") {
            Some(value) => {
                if text::same_str(value.as_str(), "table_resolved") {
                    return Some(TrackIdentitySource::DirectHpTimeline);
                }
            },
            None => {},
        }
    }
    None
}

fn cleaned_name(hit: &Hit) -> (r: Option<String>)
    ensures
        text::opt_text(r) == clean_name(hit@),
{
    match &hit.target_name {
        Some(name) => {
            let n = text::trimmed(&text::chars_of(name.as_str()), Class::Space);
            if n.len() > 0 {
                Some(text::string_of(&n))
            } else {
                None
            }
        },
        None => None,
    }
}

fn can_learn_named_hit(hit: &Hit, summary: &TargetResolutionSummary) -> (r: bool)
    ensures
        r == teaches(hit@, summary@),
{
    let name = cleaned_name(hit);
    name.is_some() && !is_in_conflict(&hit.target_context) && !hit_context::any_entry(
        &hit.target_context,
        Entry::Exactly("target_suppressed=ambiguous_multi_target"),
    ) && identity_source_from_hit(hit, summary).is_some()
}

fn can_attribute_unknown(hit: &Hit) -> (r: bool)
    ensures
        r == nameable(hit@),
{
    hit.target_name.is_none() && !is_in_conflict(&hit.target_context) && !hit_context::any_entry(
        &hit.target_context,
        Entry::Exactly("target_lifecycle=dead_or_expired"),
    )
}

fn told_path(hit: &Hit) -> (r: Option<String>)
    ensures
        text::opt_text(r) == target_path(hit@),
{
    match hit_context::target_context_value(&hit.target_context, "target_path") {
        Some(path) => if object_state::is_ignored_non_target_path(path.as_str()) {
            None
        } else {
            Some(path)
        },
        None => None,
    }
}

fn canonical_key_for_target(name: &str, path: &str) -> (out: String)
    ensures
        out@ == key_of_target(name@, path@),
{
    match target_identity::canonical_target_key_from_name_and_path(name, path) {
        Some(key) => key,
        None => {
            let p = text::to_lower(&text::trimmed(&text::chars_of(path), Class::Space));
            text::concat2("path:", text::string_of(&p).as_str())
        },
    }
}

/// Sets the notes of the hit, and those of the summary to the same.
fn set_notes(hit: &mut Hit, summary: &mut TargetResolutionSummary, context: Vec<String>)
    ensures
        final(hit)@ == (HitView { target_context: text::texts(context@), ..old(hit)@ }),
        final(summary)@ == (SummaryView {
            target_context: text::texts(context@),
            ..old(summary)@
        }),
{
    summary.target_context = copy_texts(&context);
    hit.target_context = context;
}

fn note_counts(context: &mut Vec<String>, active: usize, fitting: usize)
    ensures
        text::texts(final(context)@) == count_notes(
            text::texts(old(context)@),
            active as int,
            fitting as int,
        ),
{
    hit_context::replace_or_push_context(
        context,
        "track_active_count",
        text::dec_string(active as u64).as_str(),
    );
    hit_context::replace_or_push_context(
        context,
        "track_matching_count",
        text::dec_string(fitting as u64).as_str(),
    );
}

fn note_refusal(context: &mut Vec<String>, reason: &str)
    ensures
        text::texts(final(context)@) == refusal_notes(text::texts(old(context)@), reason@),
{
    hit_context::replace_or_push_context(context, "track_decision", "not_projected");
    hit_context::replace_or_push_context(context, "track_reject_reason", reason);
}

fn note_ambiguity(context: &mut Vec<String>)
    ensures
        text::texts(final(context)@) == ambiguity_notes(text::texts(old(context)@)),
{
    hit_context::push_unique(context, "target_unresolved=ambiguous_multi_target".to_owned());
    hit_context::push_unique(context, "target_suppressed=ambiguous_multi_target".to_owned());
}

fn insert_keys(set: &mut Vec<String>, keys: &Vec<String>)
    ensures
        text::texts(final(set)@) == hit_context::with_entries(
            text::texts(old(set)@),
            text::texts(keys@),
            keys@.len() as int,
        ),
{
    let ghost before = text::texts(set@);
    let ghost all = text::texts(keys@);
    let mut k: usize = 0;
    while k < keys.len()
        invariant
            k <= keys.len(),
            all == text::texts(keys@),
            text::texts(set@) == hit_context::with_entries(before, all, k as int),
        decreases keys.len() - k,
    {
        assert(all[k as int] == keys@[k as int]@);
        hit_context::push_unique(set, keys[k].as_str().to_owned());
        k += 1;
    }
}

fn result_on_track(track: &TargetTrack, projected: bool, reason: &str) -> (r: AttributionResult)
    ensures
        r@ == on_track(track@, projected, reason@),
{
    AttributionResult {
        target_track_id: Some(TargetTrackId(track.track_id.0.as_str().to_owned())),
        generation: Some(track.generation),
        target_name: copy_opt(&track.target_name),
        target_path: copy_opt(&track.display_target_path),
        projected,
        ambiguous: false,
        reason: Some(reason.to_owned()),
    }
}

fn name_track(
    track: &mut TargetTrack,
    name: &str,
    path: &str,
    source: TrackIdentitySource,
    fact: &DamageHitFact,
    aliases: &Vec<String>,
    handles: &Vec<String>,
)
    ensures
        final(track)@ == named_track(
            old(track)@,
            name@,
            path@,
            source,
            fact@,
            text::texts(aliases@),
            text::texts(handles@),
        ),
{
    let ghost before = track@;
    track.target_name = Some(name.to_owned());
    track.display_target_path = Some(path.to_owned());
    hit_context::push_unique(&mut track.observed_paths, path.to_owned());
    track.label_state = TargetLabelState::Locked;
    track.lifecycle = if fact.hp_after <= DEAD_POINTS {
        TargetLifecycle::Dying
    } else {
        TargetLifecycle::Active
    };
    track.source = Some(stronger_source(track.source, source));
    let ghost labelled = track@;
    assert(labelled =~= TrackView {
        target_name: Some(name@),
        display_target_path: Some(path@),
        observed_paths: hit_context::with_entry(before.observed_paths, path@),
        label_state: TargetLabelState::Locked,
        lifecycle: if fact@.hp_after <= DEAD_POINTS {
            TargetLifecycle::Dying
        } else {
            TargetLifecycle::Active
        },
        source: Some(surer(before.source, source)),
        ..before
    });
    update_track_damage(track, fact);
    insert_keys(&mut track.non_hp_aliases, aliases);
    insert_keys(&mut track.hp_handles, handles);
    assert(track@ =~= named_track(
        before,
        name@,
        path@,
        source,
        fact@,
        text::texts(aliases@),
        text::texts(handles@),
    ));
}

impl TargetTrackStore {
    fn find_or_create_track(
        &mut self,
        aliases: &Vec<String>,
        handles: &Vec<String>,
        key: &str,
        path: &str,
        timestamp: i64,
    ) -> (out: String)
        ensures
            (final(self)@, out@) == track_for(
                old(self)@,
                text::texts(aliases@),
                text::texts(handles@),
                key@,
                path@,
                timestamp,
            ),
    {
        match self.track_for_non_hp_aliases(aliases) {
            Some(id) => {
                return id;
            },
            None => {},
        }
        match self.single_active_same_canonical_key_track(key, timestamp) {
            Some(id) => {
                return id;
            },
            None => {},
        }
        match self.track_for_hp_handle_same_canonical_key(handles, key) {
            Some(id) => id,
            None => self.create_track(key, path, timestamp),
        }
    }

    fn flag_track(&mut self, at: usize, flag: &str)
        requires
            at < old(self)@.tracks.len(),
        ensures
            final(self)@ == with_track_at(
                old(self)@,
                at as int,
                flagged(old(self)@.tracks[at as int], flag@),
            ),
    {
        let ghost v = self@;
        assert(v.tracks[at as int] == self.tracks@[at as int]@);
        hit_context::push_unique(&mut self.tracks[at].conflict_flags, flag.to_owned());
        let ghost wanted = flagged(v.tracks[at as int], flag@);
        assert(self.tracks@[at as int]@ =~= wanted);
        assert(self@.tracks =~= v.tracks.update(at as int, wanted));
        assert(self@ =~= with_track_at(v, at as int, wanted));
    }

    fn observe_on_track(
        &mut self,
        id: &str,
        hit: &mut Hit,
        summary: &mut TargetResolutionSummary,
        fact: &DamageHitFact,
        source: TrackIdentitySource,
        name: &str,
        path: &str,
        key: &str,
    ) -> (r: AttributionResult)
        ensures
            (Outcome {
                store: final(self)@,
                hit: final(hit)@,
                summary: final(summary)@,
                result: r@,
            }) == named_on(
                old(self)@,
                id@,
                old(hit)@,
                old(summary)@,
                fact@,
                source,
                name@,
                path@,
                key@,
            ),
    {
        let ghost v = self@;
        let aliases = hit_context::non_hp_alias_keys(&hit.target_id, &hit.target_context);
        let handles = hit_context::hp_handle_keys(&hit.target_id, &hit.target_context);
        let at = find_track(&self.tracks, id);
        if at >= self.tracks.len() {
            return AttributionResult::default();
        }
        assert(v.tracks[at as int] == self.tracks@[at as int]@);
        if !text::same_str(self.tracks[at].canonical_target_key.as_str(), key) {
            let mut context = copy_texts(&hit.target_context);
            hit_context::push_unique(
                &mut context,
                "target_conflict=locked_path_mismatch".to_owned(),
            );
            self.flag_track(at, "locked_path_mismatch");
            set_notes(hit, summary, context);
            return undecided_result("locked_path_mismatch");
        }
        let other_name = match &self.tracks[at].target_name {
            Some(existing) => !text::same_str(existing.as_str(), name),
            None => false,
        };
        if other_name {
            let mut context = copy_texts(&hit.target_context);
            hit_context::push_unique(
                &mut context,
                "target_conflict=locked_name_mismatch".to_owned(),
            );
            self.flag_track(at, "locked_name_mismatch");
            set_notes(hit, summary, context);
            return undecided_result("locked_name_mismatch");
        }
        name_track(&mut self.tracks[at], name, path, source, fact, &aliases, &handles);
        let ghost named = named_track(
            v.tracks[at as int],
            name@,
            path@,
            source,
            fact@,
            text::texts(aliases@),
            text::texts(handles@),
        );
        assert(self@.tracks =~= v.tracks.update(at as int, named));
        assert(self@.aliases == v.aliases && self@.handles == v.handles);
        self.lead(&aliases, id, false);
        self.lead(&handles, id, true);
        assert(self.tracks@[at as int]@ == named);
        project_track_to_hit(&self.tracks[at], hit, summary, false, "track_named_hit");
        let r = result_on_track(&self.tracks[at], false, "track_named_hit");
        let ghost wanted = named_on(
            v,
            id@,
            old(hit)@,
            old(summary)@,
            fact@,
            source,
            name@,
            path@,
            key@,
        );
        assert(self@ =~= wanted.store);
        r
    }

    #[verifier::spinoff_prover]
    #[verifier::rlimit(40)]
    fn observe_named_hit(
        &mut self,
        hit: &mut Hit,
        summary: &mut TargetResolutionSummary,
        fact: &DamageHitFact,
    ) -> (r: AttributionResult)
        ensures
            (Outcome {
                store: final(self)@,
                hit: final(hit)@,
                summary: final(summary)@,
                result: r@,
            }) == named_hit(old(self)@, old(hit)@, old(summary)@, fact@),
    {
        let source = match identity_source_from_hit(hit, summary) {
            Some(source) => source,
            None => {
                return AttributionResult::default();
            },
        };
        let name = match cleaned_name(hit) {
            Some(name) => name,
            None => {
                return AttributionResult::default();
            },
        };
        let path = match told_path(hit) {
            Some(path) => path,
            None => {
                return AttributionResult::default();
            },
        };
        let key = canonical_key_for_target(name.as_str(), path.as_str());
        let aliases = hit_context::non_hp_alias_keys(&hit.target_id, &hit.target_context);
        let handles = hit_context::hp_handle_keys(&hit.target_id, &hit.target_context);
        let objection = match self.alias_objection(
            &aliases,
            key.as_str(),
            name.as_str(),
            false,
            hit.timestamp,
        ) {
            Some(note) => Some(note),
            None => self.alias_objection(
                &handles,
                key.as_str(),
                name.as_str(),
                true,
                hit.timestamp,
            ),
        };
        match objection {
            Some(note) => {
                let mut context = copy_texts(&hit.target_context);
                hit_context::push_unique(&mut context, note);
                set_notes(hit, summary, context);
                return undecided_result("alias_conflict");
            },
            None => {},
        }
        let id = self.find_or_create_track(
            &aliases,
            &handles,
            key.as_str(),
            path.as_str(),
            fact.timestamp,
        );
        self.observe_on_track(
            id.as_str(),
            hit,
            summary,
            fact,
            source,
            name.as_str(),
            path.as_str(),
            key.as_str(),
        )
    }

    fn project_track_key_to_hit(
        &mut self,
        track_key: &str,
        hit: &mut Hit,
        summary: &mut TargetResolutionSummary,
        fact: &DamageHitFact,
        reason: &str,
    ) -> (r: AttributionResult)
        ensures
            (Outcome {
                store: final(self)@,
                hit: final(hit)@,
                summary: final(summary)@,
                result: r@,
            }) == projected_on(
                old(self)@,
                track_key@,
                old(hit)@,
                old(summary)@,
                fact@,
                reason@,
            ),
    {
        let ghost v = self@;
        let at = find_track(&self.tracks, track_key);
        if at >= self.tracks.len() {
            return AttributionResult::default();
        }
        assert(v.tracks[at as int] == self.tracks@[at as int]@);
        update_track_damage(&mut self.tracks[at], fact);
        let ghost track = with_damage(v.tracks[at as int], fact@);
        assert(self@.tracks =~= v.tracks.update(at as int, track));
        assert(self@ =~= with_track_at(v, at as int, track));
        let locked = match self.tracks[at].label_state {
            TargetLabelState::Locked => true,
            _ => false,
        };
        if !locked || self.tracks[at].target_name.is_none() {
            return AttributionResult {
                target_track_id: Some(
                    TargetTrackId(self.tracks[at].track_id.0.as_str().to_owned()),
                ),
                generation: Some(self.tracks[at].generation),
                target_name: None,
                target_path: None,
                projected: false,
                ambiguous: false,
                reason: Some(reason.to_owned()),
            };
        }
        project_track_to_hit(&self.tracks[at], hit, summary, true, reason);
        result_on_track(&self.tracks[at], true, reason)
    }

    fn create_told_track(&mut self, path: &str, name: &str, timestamp: i64) -> (out: String)
        ensures
            (final(self)@, out@) == told_track(old(self)@, path@, name@, timestamp),
    {
        let ghost v = self@;
        let key = canonical_key_for_target(name, path);
        let id = self.create_track(key.as_str(), path, timestamp);
        let ghost made = self@;
        let at = find_track(&self.tracks, id.as_str());
        if at < self.tracks.len() {
            assert(made.tracks[at as int] == self.tracks@[at as int]@);
            self.tracks[at].target_name = Some(name.to_owned());
            self.tracks[at].display_target_path = Some(path.to_owned());
            hit_context::push_unique(&mut self.tracks[at].observed_paths, path.to_owned());
            self.tracks[at].label_state = TargetLabelState::Locked;
            self.tracks[at].lifecycle = TargetLifecycle::Active;
            self.tracks[at].source = Some(TrackIdentitySource::DirectHpTimeline);
            let ghost wanted = told_track(v, path@, name@, timestamp).0;
            assert(self.tracks@[at as int]@ =~= wanted.tracks[at as int]);
            assert(self@.tracks =~= wanted.tracks);
            assert(self@ =~= wanted);
        }
        id
    }

    fn attribute_unled_hit(
        &mut self,
        hit: &mut Hit,
        summary: &mut TargetResolutionSummary,
        fact: &DamageHitFact,
        context: &TrackPacketContext,
    ) -> (r: AttributionResult)
        ensures
            (Outcome {
                store: final(self)@,
                hit: final(hit)@,
                summary: final(summary)@,
                result: r@,
            }) == unled_hit(old(self)@, old(hit)@, old(summary)@, fact@, context@),
    {
        let ghost v = self@;
        let ghost start = hit@;
        let (matching, found) = self.matching_tracks(fact);
        let active = self.active_track_count(fact.timestamp);
        let dot = is_dot_or_followup_damage(hit);
        let mut notes = copy_texts(&hit.target_context);
        note_counts(&mut notes, active, matching);
        if matching == 1 {
            let reason: &'static str = if dot {
                "single_active_track_dot"
            } else {
                "single_active_track_projection"
            };
            hit.target_context = notes;
            assert(v.tracks[found as int] == self.tracks@[found as int]@);
            let id = self.tracks[found].track_id.0.as_str().to_owned();
            return self.project_track_key_to_hit(id.as_str(), hit, summary, fact, reason);
        }
        if matching > 1 {
            note_ambiguity(&mut notes);
            note_refusal(&mut notes, "multiple_matching_tracks");
            set_notes(hit, summary, notes);
            return undecided_result("multiple_matching_tracks");
        }
        if active == 0 && dot && !context.has_multiple_canonical_targets {
            match (
                only_one(&context.canonical_target_paths),
                only_one(&context.canonical_target_names),
            ) {
                (Some(path), Some(name)) => {
                    hit.target_context = notes;
                    let id = self.create_told_track(path.as_str(), name.as_str(), fact.timestamp);
                    return self.project_track_key_to_hit(
                        id.as_str(),
                        hit,
                        summary,
                        fact,
                        "single_active_track_dot",
                    );
                },
                _ => {},
            }
        }
        note_counts(&mut notes, active, matching);
        let reason: &'static str = if context.has_multiple_canonical_targets {
            "no_matching_track_multiple_canonical_targets"
        } else {
            "hp_stream_mismatch"
        };
        note_refusal(&mut notes, reason);
        set_notes(hit, summary, notes);
        AttributionResult::default()
    }

    #[verifier::spinoff_prover]
    #[verifier::rlimit(40)]
    fn attribute_unnamed_hit(
        &mut self,
        hit: &mut Hit,
        summary: &mut TargetResolutionSummary,
        fact: &DamageHitFact,
        context: &TrackPacketContext,
    ) -> (r: AttributionResult)
        ensures
            (Outcome {
                store: final(self)@,
                hit: final(hit)@,
                summary: final(summary)@,
                result: r@,
            }) == unnamed_hit(old(self)@, old(hit)@, old(summary)@, fact@, context@),
    {
        if !can_attribute_unknown(hit) {
            let mut notes = copy_texts(&hit.target_context);
            let active = self.active_track_count(fact.timestamp);
            note_counts(&mut notes, active, 0);
            note_refusal(&mut notes, "hard_conflict");
            set_notes(hit, summary, notes);
            return AttributionResult::default();
        }
        let aliases = hit_context::non_hp_alias_keys(&hit.target_id, &hit.target_context);
        let handles = hit_context::hp_handle_keys(&hit.target_id, &hit.target_context);
        match self.unique_active_track_for_aliases(&aliases, fact.timestamp, false) {
            Some(id) => {
                return self.project_track_key_to_hit(
                    id.as_str(),
                    hit,
                    summary,
                    fact,
                    "unique_non_hp_alias",
                );
            },
            None => {},
        }
        match self.unique_active_track_for_aliases(&handles, fact.timestamp, true) {
            Some(id) => {
                return self.project_track_key_to_hit(
                    id.as_str(),
                    hit,
                    summary,
                    fact,
                    "unique_locked_hp_handle",
                );
            },
            None => {},
        }
        self.attribute_unled_hit(hit, summary, fact, context)
    }

    #[verifier::spinoff_prover]
    #[verifier::rlimit(40)]
    fn attribute_terminal_hit(
        &mut self,
        hit: &mut Hit,
        summary: &mut TargetResolutionSummary,
        fact: &DamageHitFact,
    ) -> (r: AttributionResult)
        ensures
            (Outcome {
                store: final(self)@,
                hit: final(hit)@,
                summary: final(summary)@,
                result: r@,
            }) == last_blow(old(self)@, old(hit)@, old(summary)@, fact@),
    {
        let ghost v = self@;
        let (count, found) = self.last_blow_tracks(fact);
        if count == 1 {
            assert(v.tracks[found as int] == self.tracks@[found as int]@);
            let id = self.tracks[found].track_id.0.as_str().to_owned();
            return self.project_track_key_to_hit(
                id.as_str(),
                hit,
                summary,
                fact,
                "terminal_hit_active_track",
            );
        }
        if count > 1 {
            let mut notes = copy_texts(&hit.target_context);
            note_ambiguity(&mut notes);
            set_notes(hit, summary, notes);
        }
        AttributionResult::default()
    }

    fn mark_track_dead(&mut self, track_id: &str, timestamp: i64, hit_uid: &str)
        ensures
            final(self)@ == killed(old(self)@, track_id@, timestamp, hit_uid@),
    {
        let ghost v = self@;
        let at = find_track(&self.tracks, track_id);
        if at < self.tracks.len() {
            assert(v.tracks[at as int] == self.tracks@[at as int]@);
            self.tracks[at].lifecycle = TargetLifecycle::Dead;
            self.tracks[at].last_seen_at = timestamp;
            self.tracks[at].last_damage_at = Some(timestamp);
            hit_context::push_unique(
                &mut self.tracks[at].assigned_hit_uids,
                hit_uid.to_owned(),
            );
            self.tracks[at].quarantined_at = Some(timestamp);
            let ghost wanted = killed(v, track_id@, timestamp, hit_uid@);
            assert(self.tracks@[at as int]@ =~= wanted.tracks[at as int]);
            assert(self@.tracks =~= wanted.tracks);
            assert(self@ =~= wanted);
        }
    }

    /// Attributes a hit to a track, and names its target where that can be told.
    #[verifier::spinoff_prover]
    #[verifier::rlimit(40)]
    pub fn attribute_damage_hit(
        &mut self,
        hit: &mut Hit,
        summary: &mut TargetResolutionSummary,
        context: TrackPacketContext,
    ) -> (r: AttributionResult)
        ensures
            (Outcome {
                store: final(self)@,
                hit: final(hit)@,
                summary: final(summary)@,
                result: r@,
            }) == attributed(old(self)@, old(hit)@, old(summary)@, context@),
    {
        if text::same_str(hit.direction.as_str(), "incoming") {
            return AttributionResult::default();
        }
        let fact = DamageHitFact::from(hit);
        let mut result = AttributionResult::default();
        if can_learn_named_hit(hit, summary) {
            result = self.observe_named_hit(hit, summary, &fact);
        }
        let has_track = hit_context::target_context_value(
            &hit.target_context,
            "target_track_id",
        ).is_some();
        if hit.target_name.is_none() || !has_track {
            let track_result = self.attribute_unnamed_hit(hit, summary, &fact, &context);
            if track_result.target_track_id.is_some() || track_result.ambiguous {
                result = track_result;
            }
        }
        if hit.target_hp_after <= DEAD_POINTS {
            if result.target_track_id.is_none() {
                result = self.attribute_terminal_hit(hit, summary, &fact);
            }
            match &result.target_track_id {
                Some(id) => {
                    self.mark_track_dead(id.0.as_str(), hit.timestamp, fact.hit_uid.as_str());
                },
                None => {},
            }
        }
        result
    }
}

/// Two active tracks of one name are of different generations.
pub open spec fn several_of_a_name(v: TracksView, timestamp: i64) -> bool {
    exists|i: int, j: int|
        0 <= i < v.tracks.len() && 0 <= j < v.tracks.len() && namesakes(
            #[trigger] v.tracks[i],
            #[trigger] v.tracks[j],
            timestamp,
        )
}

pub open spec fn namesakes(a: TrackView, b: TrackView, timestamp: i64) -> bool {
    active(a, timestamp) && active(b, timestamp) && a.target_name is Some && a.target_name
        == b.target_name && a.generation != b.generation
}

fn are_namesakes(a: &TargetTrack, b: &TargetTrack, timestamp: i64) -> (r: bool)
    ensures
        r == namesakes(a@, b@, timestamp),
{
    if a.generation == b.generation || !track_is_active(a, timestamp) || !track_is_active(
        b,
        timestamp,
    ) {
        return false;
    }
    match (&a.target_name, &b.target_name) {
        (Some(x), Some(y)) => text::same_str(x.as_str(), y.as_str()),
        _ => false,
    }
}

impl TargetTrackStore {
    /// Whether several targets of one name are active.
    pub fn same_name_multi_instance_active(&self, timestamp: i64) -> (r: bool)
        ensures
            r == several_of_a_name(self@, timestamp),
    {
        let ghost all = self@.tracks;
        let mut i: usize = 0;
        while i < self.tracks.len()
            invariant
                i <= self.tracks.len(),
                all == self@.tracks,
                forall|x: int, y: int|
                    0 <= x < i && 0 <= y < all.len() ==> !namesakes(
                        #[trigger] all[x],
                        #[trigger] all[y],
                        timestamp,
                    ),
            decreases self.tracks.len() - i,
        {
            let mut j: usize = 0;
            while j < self.tracks.len()
                invariant
                    i < self.tracks.len(),
                    j <= self.tracks.len(),
                    all == self@.tracks,
                    forall|y: int|
                        0 <= y < j ==> !namesakes(all[i as int], #[trigger] all[y], timestamp),
                decreases self.tracks.len() - j,
            {
                assert(all[i as int] == self.tracks@[i as int]@);
                assert(all[j as int] == self.tracks@[j as int]@);
                if are_namesakes(&self.tracks[i], &self.tracks[j], timestamp) {
                    return true;
                }
                j += 1;
            }
            i += 1;
        }
        false
    }
}

// ------------------------------------------------------------------------- laws

/// Hits on oneself are none of a target's: nothing changes.
#[verifier::spinoff_prover]
#[verifier::rlimit(40)]
pub proof fn incoming_hits_change_nothing(
    v: TracksView,
    hit: HitView,
    summary: SummaryView,
    context: ContextView,
)
    requires
        hit.direction == "incoming"@,
    ensures
        attributed(v, hit, summary, context) == unchanged(v, hit, summary),
{
}

/// Only what a hit says about its target differs.
pub open spec fn same_but_target(a: HitView, b: HitView) -> bool {
    b == (HitView {
        target_id: b.target_id,
        target_name: b.target_name,
        target_context: b.target_context,
        ..a
    })
}

/// Of a hit nothing changes but what it says about its target.
#[verifier::spinoff_prover]
#[verifier::rlimit(40)]
pub proof fn only_the_target_changes(
    v: TracksView,
    hit: HitView,
    summary: SummaryView,
    context: ContextView,
)
    ensures
        same_but_target(hit, attributed(v, hit, summary, context).hit),
{
    let fact = target_fact::fact_of(hit);
    let a = after_name(v, hit, summary, fact);
    assert(same_but_target(hit, a.hit));
    let b = after_projection(a, fact, context);
    assert(same_but_target(a.hit, b.hit));
    let c = after_death(b, fact);
    assert(same_but_target(b.hit, c.hit));
}

/// The summary is at least as sure.
pub open spec fn no_less_sure(a: SummaryView, b: SummaryView) -> bool {
    b.score >= a.score && b.confidence.spec_rank() >= a.confidence.spec_rank()
        && b.direct_hp_evidence == a.direct_hp_evidence
}

/// Attribution never makes a hit's target less sure.
#[verifier::spinoff_prover]
#[verifier::rlimit(40)]
pub proof fn attribution_never_lowers_confidence(
    v: TracksView,
    hit: HitView,
    summary: SummaryView,
    context: ContextView,
)
    ensures
        no_less_sure(summary, attributed(v, hit, summary, context).summary),
{
    let fact = target_fact::fact_of(hit);
    let a = after_name(v, hit, summary, fact);
    assert(no_less_sure(summary, a.summary));
    let b = after_projection(a, fact, context);
    assert(no_less_sure(a.summary, b.summary));
    let c = after_death(b, fact);
    assert(no_less_sure(b.summary, c.summary));
}

/// A hit that could not be decided keeps the name it had, or its absence.
#[verifier::spinoff_prover]
#[verifier::rlimit(40)]
pub proof fn undecided_hits_keep_their_names(
    v: TracksView,
    hit: HitView,
    summary: SummaryView,
    context: ContextView,
)
    requires
        attributed(v, hit, summary, context).result.ambiguous,
    ensures
        attributed(v, hit, summary, context).hit.target_name == hit.target_name,
{
    let fact = target_fact::fact_of(hit);
    let a = after_name(v, hit, summary, fact);
    let b = after_projection(a, fact, context);
    let c = after_death(b, fact);
    assert(c.result.ambiguous);
    assert(b.result.ambiguous && c.hit == b.hit);
    if a.result.ambiguous {
        assert(a.hit.target_name == hit.target_name);
    }
}

/// A hit whose target is named is given no other name, as long as it leaves
/// something of its target.
#[verifier::spinoff_prover]
#[verifier::rlimit(40)]
pub proof fn names_are_not_replaced(
    v: TracksView,
    hit: HitView,
    summary: SummaryView,
    context: ContextView,
)
    requires
        hit.target_name is Some,
        hit.target_hp_after > DEAD_POINTS,
    ensures
        attributed(v, hit, summary, context).hit.target_name == hit.target_name || attributed(
            v,
            hit,
            summary,
            context,
        ).hit.target_name == clean_name(hit),
{
    let fact = target_fact::fact_of(hit);
    let a = after_name(v, hit, summary, fact);
    assert(a.hit.target_name == hit.target_name || a.hit.target_name == clean_name(hit));
    assert(a.hit.target_name is Some);
    let b = after_projection(a, fact, context);
    assert(b.hit.target_name == a.hit.target_name);
}

/// Every track has its own id, made of its key and generation, which is none to
/// come, and not too long a timeline.
pub open spec fn sound(v: TracksView) -> bool {
    &&& forall|i: int, j: int|
        0 <= i < j < v.tracks.len() ==> (#[trigger] v.tracks[i]).track_id != (
        #[trigger] v.tracks[j]).track_id
    &&& forall|k: int| 0 <= k < v.tracks.len() ==> sound_track(v, #[trigger] v.tracks[k])
}

pub open spec fn sound_track(v: TracksView, t: TrackView) -> bool {
    &&& t.track_id == numbered(t.canonical_target_key, t.generation)
    &&& v.generations.contains_key(t.canonical_target_key)
    &&& t.generation <= v.generations[t.canonical_target_key]
    &&& t.hp_timeline.len() <= MAX_HP_TIMELINE_PER_TRACK
}

/// There can be another generation of every key.
pub open spec fn has_room(v: TracksView) -> bool {
    forall|key: Seq<char>| #[trigger]
        v.generations.contains_key(key) ==> v.generations[key] < u32::MAX
}

/// The later store has all tracks of the former one, each in its place, with its id
/// and with the name that it had.
pub open spec fn keeps_tracks(a: TracksView, b: TracksView) -> bool {
    &&& a.tracks.len() <= b.tracks.len()
    &&& forall|k: int|
        0 <= k < a.tracks.len() ==> keeps_name(#[trigger] a.tracks[k], #[trigger] b.tracks[k])
}

pub open spec fn keeps_name(a: TrackView, b: TrackView) -> bool {
    &&& a.track_id == b.track_id
    &&& a.canonical_target_key == b.canonical_target_key
    &&& a.generation == b.generation
    &&& a.target_name is Some ==> b.target_name == a.target_name
}

#[verifier::spinoff_prover]
#[verifier::rlimit(40)]
proof fn lemma_keeps_transitive(a: TracksView, b: TracksView, c: TracksView)
    requires
        keeps_tracks(a, b),
        keeps_tracks(b, c),
    ensures
        keeps_tracks(a, c),
{
    assert forall|k: int| 0 <= k < a.tracks.len() implies keeps_name(
        #[trigger] a.tracks[k],
        #[trigger] c.tracks[k],
    ) by {
        assert(keeps_name(a.tracks[k], b.tracks[k]));
        assert(keeps_name(b.tracks[k], c.tracks[k]));
    }
}

#[verifier::spinoff_prover]
#[verifier::rlimit(40)]
proof fn lemma_replaced(v: TracksView, at: int, t: TrackView)
    requires
        sound(v),
        0 <= at < v.tracks.len(),
        keeps_name(v.tracks[at], t),
        t.hp_timeline.len() <= MAX_HP_TIMELINE_PER_TRACK,
    ensures
        sound(with_track_at(v, at, t)),
        keeps_tracks(v, with_track_at(v, at, t)),
{
    let r = with_track_at(v, at, t);
    assert(sound_track(v, v.tracks[at]));
    assert forall|k: int| 0 <= k < r.tracks.len() implies sound_track(r, #[trigger] r.tracks[k]) by {
        assert(sound_track(v, v.tracks[k]));
    }
    assert forall|i: int, j: int| 0 <= i < j < r.tracks.len() implies (
    #[trigger] r.tracks[i]).track_id != (#[trigger] r.tracks[j]).track_id by {
        assert(v.tracks[i].track_id != v.tracks[j].track_id);
    }
    assert forall|k: int| 0 <= k < v.tracks.len() implies keeps_name(
        #[trigger] v.tracks[k],
        #[trigger] r.tracks[k],
    ) by {}
}

/// A new track has an id that no other has, and stands behind all others.
#[verifier::spinoff_prover]
#[verifier::rlimit(40)]
pub proof fn new_tracks_are_new(v: TracksView, key: Seq<char>, path: Seq<char>, timestamp: i64)
    requires
        sound(v),
        has_room(v),
    ensures
        sound(track_created(v, key, path, timestamp).0),
        keeps_tracks(v, track_created(v, key, path, timestamp).0),
        track_created(v, key, path, timestamp).0.tracks == v.tracks.push(
            new_track(key, next_generation(v.generations, key), path, timestamp),
        ),
        track_at(
            track_created(v, key, path, timestamp).0.tracks,
            track_created(v, key, path, timestamp).1,
            0,
        ) == v.tracks.len(),
{
    let generation = next_generation(v.generations, key);
    let id = numbered(key, generation);
    let t = new_track(key, generation, path, timestamp);
    let r = track_created(v, key, path, timestamp).0;
    assert forall|k: int| 0 <= k < v.tracks.len() implies (#[trigger] v.tracks[k]).track_id != id by {
        assert(sound_track(v, v.tracks[k]));
        if v.tracks[k].track_id == id {
            text::numbered_texts_are_told_apart(
                v.tracks[k].canonical_target_key,
                v.tracks[k].generation as nat,
                key,
                generation as nat,
            );
        }
    }
    lemma_track_at(v.tracks, id, 0);
    let at = track_at(v.tracks, id, 0);
    if at < v.tracks.len() {
        assert(v.tracks[at].track_id == id);
    }
    assert(r.tracks == v.tracks.push(t));
    lemma_track_at(r.tracks, id, 0);
    assert(r.tracks[v.tracks.len() as int].track_id == id);
    let now = track_at(r.tracks, id, 0);
    if now < v.tracks.len() {
        assert(r.tracks[now] == v.tracks[now]);
    }
    assert forall|k: int| 0 <= k < r.tracks.len() implies sound_track(r, #[trigger] r.tracks[k]) by {
        if k < v.tracks.len() {
            assert(r.tracks[k] == v.tracks[k]);
            assert(sound_track(v, v.tracks[k]));
        }
    }
    assert forall|i: int, j: int| 0 <= i < j < r.tracks.len() implies (
    #[trigger] r.tracks[i]).track_id != (#[trigger] r.tracks[j]).track_id by {
        assert(r.tracks[i] == v.tracks[i]);
        if j < v.tracks.len() {
            assert(r.tracks[j] == v.tracks[j]);
        }
    }
    assert forall|k: int| 0 <= k < v.tracks.len() implies keeps_name(
        #[trigger] v.tracks[k],
        #[trigger] r.tracks[k],
    ) by {
        assert(r.tracks[k] == v.tracks[k]);
    }
}

#[verifier::spinoff_prover]
#[verifier::rlimit(40)]
proof fn lemma_keeps_itself(v: TracksView)
    ensures
        keeps_tracks(v, v),
{
}

#[verifier::spinoff_prover]
#[verifier::rlimit(40)]
proof fn lemma_index_free(v: TracksView, w: TracksView)
    requires
        sound(v),
        w.tracks == v.tracks,
        w.generations == v.generations,
    ensures
        sound(w),
        keeps_tracks(v, w),
{
    assert forall|k: int| 0 <= k < w.tracks.len() implies sound_track(w, #[trigger] w.tracks[k]) by {
        assert(sound_track(v, v.tracks[k]));
    }
}

#[verifier::spinoff_prover]
#[verifier::rlimit(40)]
proof fn lemma_named(v: TracksView, hit: HitView, summary: SummaryView, fact: FactView)
    requires
        sound(v),
        has_room(v),
    ensures
        sound(named_hit(v, hit, summary, fact).store),
        keeps_tracks(v, named_hit(v, hit, summary, fact).store),
{
    lemma_keeps_itself(v);
    match (identity_source(hit, summary), clean_name(hit), target_path(hit)) {
        (Some(source), Some(name), Some(path)) => {
            let key = key_of_target(name, path);
            if named_objection(v, hit, key, name) is None {
                let aliases = hit_context::other_keys(hit.target_id, hit.target_context);
                let handles = hit_context::hp_keys(hit.target_id, hit.target_context);
                new_tracks_are_new(v, key, path, fact.timestamp);
                let found = track_for(v, aliases, handles, key, path, fact.timestamp);
                let w = found.0;
                assert(sound(w) && keeps_tracks(v, w));
                let at = track_at(w.tracks, found.1, 0);
                lemma_track_at(w.tracks, found.1, 0);
                let r = named_on(w, found.1, hit, summary, fact, source, name, path, key);
                if at < w.tracks.len() {
                    let t = w.tracks[at];
                    assert(sound_track(w, t));
                    let u = if t.canonical_target_key != key {
                        flagged(t, "locked_path_mismatch"@)
                    } else if t.target_name is Some && t.target_name != Some(name) {
                        flagged(t, "locked_name_mismatch"@)
                    } else {
                        named_track(t, name, path, source, fact, aliases, handles)
                    };
                    lemma_replaced(w, at, u);
                    lemma_index_free(with_track_at(w, at, u), r.store);
                    lemma_keeps_transitive(w, with_track_at(w, at, u), r.store);
                    lemma_keeps_transitive(v, w, r.store);
                }
            }
        },
        _ => {},
    }
}

#[verifier::spinoff_prover]
#[verifier::rlimit(40)]
proof fn lemma_projected(
    v: TracksView,
    id: Seq<char>,
    hit: HitView,
    summary: SummaryView,
    fact: FactView,
    reason: Seq<char>,
)
    requires
        sound(v),
    ensures
        sound(projected_on(v, id, hit, summary, fact, reason).store),
        keeps_tracks(v, projected_on(v, id, hit, summary, fact, reason).store),
{
    lemma_keeps_itself(v);
    let at = track_at(v.tracks, id, 0);
    lemma_track_at(v.tracks, id, 0);
    if at < v.tracks.len() {
        assert(sound_track(v, v.tracks[at]));
        lemma_replaced(v, at, with_damage(v.tracks[at], fact));
    }
}

#[verifier::spinoff_prover]
#[verifier::rlimit(40)]
proof fn lemma_unled(
    v: TracksView,
    hit: HitView,
    summary: SummaryView,
    fact: FactView,
    context: ContextView,
)
    requires
        sound(v),
        has_room(v),
    ensures
        sound(unled_hit(v, hit, summary, fact, context).store),
        keeps_tracks(v, unled_hit(v, hit, summary, fact, context).store),
{
    lemma_keeps_itself(v);
    let found = fitting(v, fact);
    let noted = HitView {
        target_context: count_notes(
            hit.target_context,
            active_count(v, fact.timestamp),
            found.len() as int,
        ),
        ..hit
    };
    if found.len() == 1 {
        let reason = if lingering(hit) {
            "single_active_track_dot"@
        } else {
            "single_active_track_projection"@
        };
        lemma_projected(v, v.tracks[found[0]].track_id, noted, summary, fact, reason);
    } else if found.len() == 0 {
        match told_target(v, hit, fact, context) {
            Some((path, name)) => {
                let key = key_of_target(name, path);
                new_tracks_are_new(v, key, path, fact.timestamp);
                let made = track_created(v, key, path, fact.timestamp);
                let at = v.tracks.len() as int;
                let told = told_track(v, path, name, fact.timestamp);
                assert(sound_track(made.0, made.0.tracks[at]));
                assert(made.0.tracks[at].target_name is None);
                lemma_replaced(made.0, at, told.0.tracks[at]);
                lemma_keeps_transitive(v, made.0, told.0);
                lemma_projected(
                    told.0,
                    told.1,
                    noted,
                    summary,
                    fact,
                    "single_active_track_dot"@,
                );
                lemma_keeps_transitive(
                    v,
                    told.0,
                    projected_on(
                        told.0,
                        told.1,
                        noted,
                        summary,
                        fact,
                        "single_active_track_dot"@,
                    ).store,
                );
            },
            None => {},
        }
    }
}

#[verifier::spinoff_prover]
#[verifier::rlimit(40)]
proof fn lemma_unnamed(
    v: TracksView,
    hit: HitView,
    summary: SummaryView,
    fact: FactView,
    context: ContextView,
)
    requires
        sound(v),
        has_room(v),
    ensures
        sound(unnamed_hit(v, hit, summary, fact, context).store),
        keeps_tracks(v, unnamed_hit(v, hit, summary, fact, context).store),
{
    lemma_keeps_itself(v);
    let aliases = hit_context::other_keys(hit.target_id, hit.target_context);
    let handles = hit_context::hp_keys(hit.target_id, hit.target_context);
    if nameable(hit) {
        match sole(usable_tracks(v, aliases, fact.timestamp, false, aliases.len() as int)) {
            Some(id) => {
                lemma_projected(v, id, hit, summary, fact, "unique_non_hp_alias"@);
            },
            None => {
                match sole(
                    usable_tracks(v, handles, fact.timestamp, true, handles.len() as int),
                ) {
                    Some(id) => {
                        lemma_projected(v, id, hit, summary, fact, "unique_locked_hp_handle"@);
                    },
                    None => {
                        lemma_unled(v, hit, summary, fact, context);
                    },
                }
            },
        }
    }
}

#[verifier::spinoff_prover]
#[verifier::rlimit(40)]
proof fn lemma_death(o: Outcome, fact: FactView)
    requires
        sound(o.store),
    ensures
        sound(after_death(o, fact).store),
        keeps_tracks(o.store, after_death(o, fact).store),
{
    lemma_keeps_itself(o.store);
    if o.hit.target_hp_after <= DEAD_POINTS {
        let v = o.store;
        let t = if o.result.target_track_id is None {
            last_blow(v, o.hit, o.summary, fact)
        } else {
            o
        };
        if o.result.target_track_id is None {
            let found = tracks_with(
                v.tracks,
                |t: TrackView| last_blow_fits(t, fact),
                v.tracks.len() as int,
            );
            if found.len() == 1 {
                lemma_projected(
                    v,
                    v.tracks[found[0]].track_id,
                    o.hit,
                    o.summary,
                    fact,
                    "terminal_hit_active_track"@,
                );
            }
        }
        assert(sound(t.store) && keeps_tracks(v, t.store));
        match t.result.target_track_id {
            Some(id) => {
                let w = t.store;
                let at = track_at(w.tracks, id, 0);
                lemma_track_at(w.tracks, id, 0);
                lemma_keeps_itself(w);
                if at < w.tracks.len() {
                    assert(sound_track(w, w.tracks[at]));
                    lemma_replaced(
                        w,
                        at,
                        killed(w, id, t.hit.timestamp, fact.hit_uid).tracks[at],
                    );
                }
                lemma_keeps_transitive(v, w, killed(w, id, t.hit.timestamp, fact.hit_uid));
            },
            None => {},
        }
    }
}

#[verifier::spinoff_prover]
#[verifier::rlimit(40)]
proof fn lemma_room_after_name(v: TracksView, hit: HitView, summary: SummaryView, fact: FactView, key: Seq<char>)
    requires
        has_room(v),
        room_for_two(v),
    ensures
        after_name(v, hit, summary, fact).store.generations.contains_key(key) ==> after_name(
            v,
            hit,
            summary,
            fact,
        ).store.generations[key] < u32::MAX,
{
}

/// There can be two more generations of every key.
pub open spec fn room_for_two(v: TracksView) -> bool {
    forall|key: Seq<char>| #[trigger]
        v.generations.contains_key(key) ==> v.generations[key] < u32::MAX - 1
}

/// A hit leaves the store sound, and every track keeps its id and the name that it
/// once had.
#[verifier::spinoff_prover]
#[verifier::rlimit(40)]
pub proof fn tracks_keep_their_names(
    v: TracksView,
    hit: HitView,
    summary: SummaryView,
    context: ContextView,
)
    requires
        sound(v),
        room_for_two(v),
    ensures
        sound(attributed(v, hit, summary, context).store),
        keeps_tracks(v, attributed(v, hit, summary, context).store),
{
    lemma_keeps_itself(v);
    if hit.direction != "incoming"@ {
        let fact = target_fact::fact_of(hit);
        assert(has_room(v));
        let a = after_name(v, hit, summary, fact);
        if teaches(hit, summary) {
            lemma_named(v, hit, summary, fact);
        }
        assert(has_room(a.store)) by {
            assert forall|key: Seq<char>| #[trigger]
                a.store.generations.contains_key(key) implies a.store.generations[key]
                < u32::MAX by {
                lemma_room_after_name(v, hit, summary, fact, key);
            }
        }
        let b = after_projection(a, fact, context);
        lemma_keeps_itself(a.store);
        if !settled(a.hit) {
            lemma_unnamed(a.store, a.hit, a.summary, fact, context);
        }
        lemma_keeps_transitive(v, a.store, b.store);
        lemma_death(b, fact);
        lemma_keeps_transitive(v, b.store, after_death(b, fact).store);
    }
}

/// A dead track takes no more hits without a name.
#[verifier::spinoff_prover]
#[verifier::rlimit(40)]
pub proof fn dead_tracks_take_no_hits(track: TrackView, fact: FactView)
    requires
        track.lifecycle == TargetLifecycle::Dead,
    ensures
        !stream_fits(track, fact),
        !last_blow_fits(track, fact),
        !usable(track, fact.timestamp),
{
}

} // verus!
