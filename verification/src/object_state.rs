//! The objects that packets speak of: their paths, their handles, their hit
//! points, and how these are linked.
use std::collections::VecDeque;
use vstd::prelude::*;

use crate::bits::PathCandidate;
use crate::float;
use crate::hexadecimal;
use crate::identifier;
use crate::resource_index;
use crate::resource_index::ResourceIndex;
use crate::target_identity;
use crate::text;
use crate::text::Class;

verus! {

/// How many objects are kept.
pub const MAX_OBJECTS: usize = 512;

/// How many pieces of evidence an object keeps.
pub const MAX_EVIDENCE_PER_OBJECT: usize = 8;

/// How many observations of its hit points an object keeps.
pub const MAX_HP_HISTORY_PER_OBJECT: usize = 32;

/// How long an object is kept, in microseconds.
pub const OBJECT_TTL: i64 = 20_000_000;

/// How far in time a path and hit points are linked.
pub const PATH_LINK_WINDOW: i64 = 6_000_000;

/// How far in time a gameplay effect and hit points are linked.
pub const GAMEPLAY_EFFECT_PATH_LINK_WINDOW: i64 = 10_000_000;

/// How long after its last sign a named target can still be hit.
pub const NAMED_TARGET_DAMAGE_WINDOW: i64 = 10_000_000;

/// How far in time a path that names a target exactly can be hit.
pub const PATH_ONLY_DAMAGE_WINDOW: i64 = 6_000_000;

/// How far in time other objects, and observed hit points, can be hit.
pub const DAMAGE_WINDOW: i64 = 1_000_000;

/// How long a dead object can still be hit.
pub const DEAD_OBJECT_DAMAGE_GRACE: i64 = 250_000;

/// One hit point, in thousandths.
pub const ONE_HP: i64 = 1_000;

// Confidences are counted in parts of 5100, of which a score of 255 gives 20 each.

/// What a path candidate is trusted at least and at most by its score alone.
pub const PATH_CONFIDENCE_MIN: u32 = 510;

pub const PATH_CONFIDENCE_MAX: u32 = 2_295;

/// What a path candidate that is named, or is one of a target, is trusted.
pub const TARGET_PATH_CONFIDENCE: u32 = 3_825;

/// What makes a path strong by itself.
pub const STRONG_CONFIDENCE: u32 = 3_570;

/// What a handle beside a path is trusted at least and at most.
pub const HANDLE_CONFIDENCE_MIN: u32 = 1_275;

pub const HANDLE_CONFIDENCE_MAX: u32 = 2_805;

/// What a boss with hit points is trusted at first, and once observed.
pub const BOSS_INITIAL_CONFIDENCE: u32 = 3_315;

pub const BOSS_OBSERVED_CONFIDENCE: u32 = 3_570;

/// What a target with hit points is trusted at first, and once observed.
pub const NET_TARGET_INITIAL_CONFIDENCE: u32 = 2_295;

pub const NET_TARGET_OBSERVED_CONFIDENCE: u32 = 3_060;

/// What a linked object is trusted at least.
pub const LINKED_CONFIDENCE: u32 = 4_080;

/// What an object without identity is trusted at most.
pub const CLEARED_CONFIDENCE: u32 = 1_785;

// ------------------------------------------------------------------------ paths

/// The last part of a lower-case path without the marks of a class and of a
/// default object.
pub open spec fn object_basename(lower: Seq<char>) -> Seq<char> {
    let b = text::trim_end_text(identifier::basename(lower), "_c"@);
    match text::strip_prefix(b, "default__"@) {
        Some(rest) => rest,
        None => b,
    }
}

fn object_basename_of(lower: &Vec<char>) -> (out: Vec<char>)
    ensures
        out@ == object_basename(lower@),
{
    let b = text::trimmed_end_text(&identifier::basename_of(lower), "_c");
    match text::without_prefix(&b, "default__") {
        Some(rest) => rest,
        None => b,
    }
}

/// The path is one of things that are no targets: effects, abilities, drops.
pub open spec fn ignored_path(path: Seq<char>) -> bool {
    let lower = text::lower(path);
    let base = object_basename(lower);
    ||| text::starts_with(base, "buff_"@)
    ||| text::starts_with(base, "ge_"@)
    ||| text::starts_with(base, "ga_"@)
    ||| text::contains(base, "steal_montage"@)
    ||| text::ends_with(base, "_montage"@)
    ||| text::starts_with(base, "drop"@)
    ||| text::contains(lower, "drop_mon_"@)
    ||| text::contains(lower, "/drop/"@)
    ||| text::contains(lower, "/dropbox/"@)
    ||| text::contains(base, "lockhp"@)
    ||| text::contains(lower, "/monsterbase/"@)
    ||| text::contains(lower, "/abilities/"@)
    ||| text::contains(lower, "/ability/"@)
    ||| text::contains(lower, "/buff/"@)
    ||| text::contains(lower, "/effect/"@)
    ||| text::contains(lower, "/cooldown/"@)
    ||| text::contains(lower, "/passiveeffect/"@)
}

/// The path is one of things that are no targets.
pub fn is_ignored_non_target_path(value: &str) -> (r: bool)
    ensures
        r == ignored_path(value@),
{
    let lower = text::lower_of(value);
    let base = object_basename_of(&lower);
    text::starts(&base, "buff_") || text::starts(&base, "ge_") || text::starts(&base, "ga_")
        || text::has(&base, "steal_montage") || text::ends(&base, "_montage") || text::starts(
        &base,
        "drop",
    ) || text::has(&lower, "drop_mon_") || text::has(&lower, "/drop/") || text::has(
        &lower,
        "/dropbox/",
    ) || text::has(&base, "lockhp") || text::has(&lower, "/monsterbase/") || text::has(
        &lower,
        "/abilities/",
    ) || text::has(&lower, "/ability/") || text::has(&lower, "/buff/") || text::has(
        &lower,
        "/effect/",
    ) || text::has(&lower, "/cooldown/") || text::has(&lower, "/passiveeffect/")
}

pub open spec fn world_boss_path(path: Seq<char>) -> bool {
    text::contains(text::lower(path), "worldboss"@)
}

fn is_world_boss_path(value: &str) -> (r: bool)
    ensures
        r == world_boss_path(value@),
{
    text::has(&text::lower_of(value), "worldboss")
}

/// The number at the start of what follows the prefix.
pub open spec fn number_after_prefix(value: Seq<char>, prefix: Seq<char>) -> Option<int> {
    match text::strip_prefix(value, prefix) {
        Some(rest) => text::parse_uint(
            rest.take(text::skip_class(rest, Class::Digit, 0)),
            u32::MAX as int,
        ),
        None => None,
    }
}

fn find_number_after_prefix(value: &Vec<char>, prefix: &str) -> (r: Option<u32>)
    ensures
        match r {
            Some(n) => number_after_prefix(value@, prefix@) == Some(n as int),
            None => number_after_prefix(value@, prefix@) is None,
        },
{
    match text::without_prefix(value, prefix) {
        Some(rest) => {
            let end = text::skip_pos(&rest, Class::Digit, 0);
            let digits = text::part(&rest, 0, end);
            assert(digits@ =~= rest@.take(end as int));
            match text::parse_number(&digits, u32::MAX as u64) {
                Some(n) => Some(n as u32),
                None => None,
            }
        },
        None => None,
    }
}

pub open spec fn number_key(prefix: Seq<char>, number: int) -> Seq<char> {
    prefix + "_"@ + text::dec(number as nat)
}

/// The number of the boss or the monster that a path names.
pub open spec fn group_number(lower: Seq<char>) -> Option<(Seq<char>, int)> {
    let base = object_basename(lower);
    match target_identity::number_behind(lower, "worldboss_boss"@, 0, 0) {
        Some(n) => Some(("boss"@, n)),
        None => match target_identity::number_behind(lower, "worldboss_"@, 0, 0) {
            Some(n) => Some(("boss"@, n)),
            None => match target_identity::number_behind(lower, "weeklyclone_boss"@, 0, 0) {
                Some(n) => Some(("boss"@, n)),
                None => match target_identity::number_behind(lower, "boss_"@, 0, 0) {
                    Some(n) => Some(("boss"@, n)),
                    None => match target_identity::number_behind(lower, "mon_"@, 0, 0) {
                        Some(n) => Some(("mon"@, n)),
                        None => match number_after_prefix(base, "boss"@) {
                            Some(n) => Some(("boss"@, n)),
                            None => match number_after_prefix(base, "mon"@) {
                                Some(n) => Some(("mon"@, n)),
                                None => None,
                            },
                        },
                    },
                },
            },
        },
    }
}

/// The key under which the paths of one boss or monster are taken together.
pub open spec fn group_key(path: Seq<char>) -> Option<Seq<char>> {
    match group_number(text::lower(path)) {
        Some((prefix, n)) => Some(number_key(prefix, n)),
        None => None,
    }
}

fn find_group_number(lower: &Vec<char>) -> (r: Option<(&'static str, u32)>)
    ensures
        match r {
            Some((prefix, n)) => group_number(lower@) == Some((prefix@, n as int)),
            None => group_number(lower@) is None,
        },
{
    proof {
        reveal_strlit("worldboss_boss");
        reveal_strlit("worldboss_");
        reveal_strlit("weeklyclone_boss");
        reveal_strlit("boss_");
        reveal_strlit("mon_");
    }
    if let Some(n) = target_identity::find_number_behind(lower, "worldboss_boss", 0) {
        return Some(("boss", n));
    }
    if let Some(n) = target_identity::find_number_behind(lower, "worldboss_", 0) {
        return Some(("boss", n));
    }
    if let Some(n) = target_identity::find_number_behind(lower, "weeklyclone_boss", 0) {
        return Some(("boss", n));
    }
    if let Some(n) = target_identity::find_number_behind(lower, "boss_", 0) {
        return Some(("boss", n));
    }
    if let Some(n) = target_identity::find_number_behind(lower, "mon_", 0) {
        return Some(("mon", n));
    }
    let base = object_basename_of(lower);
    if let Some(n) = find_number_after_prefix(&base, "boss") {
        return Some(("boss", n));
    }
    if let Some(n) = find_number_after_prefix(&base, "mon") {
        return Some(("mon", n));
    }
    None
}

fn target_group_key(path: &str) -> (r: Option<String>)
    ensures
        text::opt_text(r) == group_key(path@),
{
    match find_group_number(&text::lower_of(path)) {
        Some((prefix, n)) => Some(
            text::concat3(prefix, "_", text::dec_string(n as u64).as_str()),
        ),
        None => None,
    }
}

/// The path names one boss or monster, and not by a world boss's name.
pub open spec fn precise_path(path: Seq<char>) -> bool {
    !ignored_path(path) && !world_boss_path(path) && group_key(path) is Some
}

/// The path is one of a target.
pub open spec fn targetish_path(path: Seq<char>) -> bool {
    let lower = text::lower(path);
    !ignored_path(path) && (precise_path(path) || world_boss_path(path) || text::contains(
        lower,
        "enemy"@,
    ) || text::contains(lower, "npc"@) || text::contains(lower, "htcharacter"@))
}

/// The path names one boss or monster.
pub fn is_precise_target_path(value: &str) -> (r: bool)
    ensures
        r == precise_path(value@),
{
    if is_ignored_non_target_path(value) || is_world_boss_path(value) {
        return false;
    }
    target_group_key(value).is_some()
}

/// The path is one of a target.
pub fn is_targetish_path(value: &str) -> (r: bool)
    ensures
        r == targetish_path(value@),
{
    if is_ignored_non_target_path(value) {
        return false;
    }
    if is_precise_target_path(value) || is_world_boss_path(value) {
        return true;
    }
    let lower = text::lower_of(value);
    text::has(&lower, "enemy") || text::has(&lower, "npc") || text::has(&lower, "htcharacter")
}

/// What is ignored is never taken for a target, and what names a target exactly
/// always is.
pub proof fn path_classes_fit_together(path: Seq<char>)
    ensures
        ignored_path(path) ==> !targetish_path(path) && !precise_path(path),
        precise_path(path) ==> targetish_path(path),
{
}

/// How well a path stands for a target: the more, the better.
pub open spec fn representative_rank(path: Seq<char>) -> int {
    let lower = text::lower(path);
    (if text::starts_with(lower, "worldboss_boss"@) {
        40int
    } else {
        0
    }) + (if text::contains(lower, "/monster/"@) {
        30int
    } else {
        0
    }) + (if text::contains(lower, "_bp"@) {
        20int
    } else {
        0
    }) + (if text::contains(lower, "worldboss"@) {
        20int
    } else {
        0
    }) - (if text::contains(lower, "entrance"@) {
        15int
    } else {
        0
    }) - (if text::contains(lower, "exit"@) {
        15int
    } else {
        0
    }) - (if text::contains(lower, "summon"@) {
        15int
    } else {
        0
    }) - (if text::contains(lower, "spawn"@) {
        15int
    } else {
        0
    }) - (if text::contains(lower, "drop"@) {
        15int
    } else {
        0
    })
}

fn target_path_representative_rank(path: &str) -> (rank: i32)
    ensures
        rank == representative_rank(path@),
{
    let lower = text::lower_of(path);
    let mut rank: i32 = 0;
    if text::starts(&lower, "worldboss_boss") {
        rank = rank + 40;
    }
    if text::has(&lower, "/monster/") {
        rank = rank + 30;
    }
    if text::has(&lower, "_bp") {
        rank = rank + 20;
    }
    if text::has(&lower, "worldboss") {
        rank = rank + 20;
    }
    if text::has(&lower, "entrance") {
        rank = rank - 15;
    }
    if text::has(&lower, "exit") {
        rank = rank - 15;
    }
    if text::has(&lower, "summon") {
        rank = rank - 15;
    }
    if text::has(&lower, "spawn") {
        rank = rank - 15;
    }
    if text::has(&lower, "drop") {
        rank = rank - 15;
    }
    rank
}

// ---------------------------------------------------------------------- objects

/// What an object is known by.
#[derive(Clone, Copy, Debug, PartialEq, Eq, Structural)]
pub enum ObjectHandleKind {
    RuntimeInstance,
    NetGuidCandidate,
    NetRefHandleCandidate,
    AttributeGuid,
    PathOnly,
    Unknown,
}

impl ObjectHandleKind {
    pub open spec fn label_text(self) -> Seq<char> {
        match self {
            ObjectHandleKind::RuntimeInstance => "RuntimeInstance"@,
            ObjectHandleKind::NetGuidCandidate => "NetGuidCandidate"@,
            ObjectHandleKind::NetRefHandleCandidate => "NetRefHandleCandidate"@,
            ObjectHandleKind::AttributeGuid => "AttributeGuid"@,
            ObjectHandleKind::PathOnly => "PathOnly"@,
            ObjectHandleKind::Unknown => "Unknown"@,
        }
    }

    pub fn label(&self) -> (r: &'static str)
        ensures
            r@ == self.label_text(),
    {
        match self {
            ObjectHandleKind::RuntimeInstance => "RuntimeInstance",
            ObjectHandleKind::NetGuidCandidate => "NetGuidCandidate",
            ObjectHandleKind::NetRefHandleCandidate => "NetRefHandleCandidate",
            ObjectHandleKind::AttributeGuid => "AttributeGuid",
            ObjectHandleKind::PathOnly => "PathOnly",
            ObjectHandleKind::Unknown => "Unknown",
        }
    }
}

/// The key of an object.
pub open spec fn key_of(kind: ObjectHandleKind, handle: Seq<char>) -> Seq<char> {
    kind.label_text() + ":"@ + handle
}

pub fn object_key(kind: ObjectHandleKind, handle: &str) -> (out: String)
    ensures
        out@ == key_of(kind, handle@),
{
    text::concat3(kind.label(), ":", handle)
}

/// An observation of hit points.
#[derive(Debug)]
pub struct HpObservation {
    pub timestamp: i64,
    pub current: i64,
    pub max: Option<i64>,
    pub evidence: String,
}

#[verifier::ext_equal]
pub struct HpView {
    pub timestamp: i64,
    pub current: i64,
    pub max: Option<i64>,
    pub evidence: Seq<char>,
}

impl View for HpObservation {
    type V = HpView;

    open spec fn view(&self) -> HpView {
        HpView {
            timestamp: self.timestamp,
            current: self.current,
            max: self.max,
            evidence: self.evidence@,
        }
    }
}

pub open spec fn hp_views(v: Seq<HpObservation>) -> Seq<HpView> {
    v.map_values(|x: HpObservation| x@)
}

/// What is known of an object.
#[derive(Debug)]
pub struct ObjectDescriptor {
    pub handle_kind: ObjectHandleKind,
    pub handle: String,
    pub class_path: Option<String>,
    pub object_path: Option<String>,
    pub display_name: Option<String>,
    pub table_resolved_name: bool,
    pub owner_handle: Option<String>,
    pub actor_handle: Option<String>,
    pub component_handle: Option<String>,
    pub hp_current: Option<i64>,
    pub hp_max: Option<i64>,
    pub dead_at: Option<i64>,
    pub first_seen_at: i64,
    pub last_seen_at: i64,
    pub evidence: Vec<String>,
    pub confidence: u32,
    pub hp_history: VecDeque<HpObservation>,
}

#[verifier::ext_equal]
pub struct ObjectView {
    pub handle_kind: ObjectHandleKind,
    pub handle: Seq<char>,
    pub class_path: Option<Seq<char>>,
    pub object_path: Option<Seq<char>>,
    pub display_name: Option<Seq<char>>,
    pub table_resolved_name: bool,
    pub owner_handle: Option<Seq<char>>,
    pub actor_handle: Option<Seq<char>>,
    pub component_handle: Option<Seq<char>>,
    pub hp_current: Option<i64>,
    pub hp_max: Option<i64>,
    pub dead_at: Option<i64>,
    pub first_seen_at: i64,
    pub last_seen_at: i64,
    pub evidence: Seq<Seq<char>>,
    pub confidence: u32,
    pub hp_history: Seq<HpView>,
}

impl View for ObjectDescriptor {
    type V = ObjectView;

    open spec fn view(&self) -> ObjectView {
        ObjectView {
            handle_kind: self.handle_kind,
            handle: self.handle@,
            class_path: text::opt_text(self.class_path),
            object_path: text::opt_text(self.object_path),
            display_name: text::opt_text(self.display_name),
            table_resolved_name: self.table_resolved_name,
            owner_handle: text::opt_text(self.owner_handle),
            actor_handle: text::opt_text(self.actor_handle),
            component_handle: text::opt_text(self.component_handle),
            hp_current: self.hp_current,
            hp_max: self.hp_max,
            dead_at: self.dead_at,
            first_seen_at: self.first_seen_at,
            last_seen_at: self.last_seen_at,
            evidence: text::texts(self.evidence@),
            confidence: self.confidence,
            hp_history: hp_views(self.hp_history@),
        }
    }
}

pub open spec fn object_views(v: Seq<ObjectDescriptor>) -> Seq<ObjectView> {
    v.map_values(|x: ObjectDescriptor| x@)
}

impl ObjectView {
    /// The path that the object is known by.
    pub open spec fn known_path(self) -> Option<Seq<char>> {
        match self.object_path {
            Some(p) => Some(p),
            None => self.class_path,
        }
    }

    /// No more is kept than may be, and nothing twice.
    pub open spec fn bounded(self) -> bool {
        &&& self.evidence.len() <= MAX_EVIDENCE_PER_OBJECT
        &&& self.evidence.no_duplicates()
        &&& self.hp_history.len() <= MAX_HP_HISTORY_PER_OBJECT
    }
}

/// An object of which only the handle is known.
pub open spec fn new_object(
    kind: ObjectHandleKind,
    handle: Seq<char>,
    timestamp: i64,
    confidence: u32,
) -> ObjectView {
    ObjectView {
        handle_kind: kind,
        handle,
        class_path: None,
        object_path: None,
        display_name: None,
        table_resolved_name: false,
        owner_handle: None,
        actor_handle: None,
        component_handle: None,
        hp_current: None,
        hp_max: None,
        dead_at: None,
        first_seen_at: timestamp,
        last_seen_at: timestamp,
        evidence: Seq::empty(),
        confidence,
        hp_history: Seq::empty(),
    }
}

fn blank_object(kind: ObjectHandleKind, handle: String, timestamp: i64, confidence: u32) -> (r:
    ObjectDescriptor)
    ensures
        r@ == new_object(kind, handle@, timestamp, confidence),
{
    let r = ObjectDescriptor {
        handle_kind: kind,
        handle,
        class_path: None,
        object_path: None,
        display_name: None,
        table_resolved_name: false,
        owner_handle: None,
        actor_handle: None,
        component_handle: None,
        hp_current: None,
        hp_max: None,
        dead_at: None,
        first_seen_at: timestamp,
        last_seen_at: timestamp,
        evidence: Vec::new(),
        confidence,
        hp_history: VecDeque::new(),
    };
    assert(r@ =~= new_object(kind, handle@, timestamp, confidence));
    r
}

/// The evidence with one more piece, unless it is there; the oldest piece gives
/// way where there are too many.
pub open spec fn with_evidence(evidence: Seq<Seq<char>>, value: Seq<char>) -> Seq<Seq<char>> {
    if evidence.contains(value) {
        evidence
    } else if evidence.len() >= MAX_EVIDENCE_PER_OBJECT {
        evidence.push(value).skip(1)
    } else {
        evidence.push(value)
    }
}

/// Whether the text is among the strings.
pub fn holds_string(list: &Vec<String>, value: &str) -> (r: bool)
    ensures
        r == text::texts(list@).contains(value@),
{
    let mut i: usize = 0;
    while i < list.len()
        invariant
            i <= list.len(),
            forall|k: int| 0 <= k < i ==> #[trigger] text::texts(list@)[k] != value@,
        decreases list.len() - i,
    {
        if text::same_str(list[i].as_str(), value) {
            assert(text::texts(list@)[i as int] == value@);
            return true;
        }
        i += 1;
    }
    false
}

fn push_unique_evidence(evidence: &mut Vec<String>, value: String)
    ensures
        text::texts(final(evidence)@) == with_evidence(text::texts(old(evidence)@), value@),
{
    if holds_string(evidence, value.as_str()) {
        return;
    }
    let ghost before = text::texts(evidence@);
    evidence.push(value);
    assert(text::texts(evidence@) =~= before.push(value@));
    if evidence.len() > MAX_EVIDENCE_PER_OBJECT {
        evidence.remove(0);
        assert(text::texts(evidence@) =~= before.push(value@).skip(1));
    }
}

/// Evidence stays bounded and free of repetitions, and the newest piece is in it.
pub proof fn evidence_stays_bounded_and_distinct(evidence: Seq<Seq<char>>, value: Seq<char>)
    requires
        evidence.len() <= MAX_EVIDENCE_PER_OBJECT,
        evidence.no_duplicates(),
    ensures
        with_evidence(evidence, value).len() <= MAX_EVIDENCE_PER_OBJECT,
        with_evidence(evidence, value).no_duplicates(),
        with_evidence(evidence, value).contains(value),
{
    let r = with_evidence(evidence, value);
    if !evidence.contains(value) {
        assert(r[r.len() - 1] == value);
    }
}

/// The distance of two points in time.
pub open spec fn apart(a: i64, b: i64) -> int {
    if a >= b {
        a - b
    } else {
        b - a
    }
}

fn within(a: i64, b: i64, window: i64) -> (r: bool)
    ensures
        r == (apart(a, b) <= window),
{
    let d: i128 = (a as i128) - (b as i128);
    if d >= 0 {
        d <= window as i128
    } else {
        -d <= window as i128
    }
}

// ------------------------------------------------------------------ observations

/// Hit points in whole points.
pub open spec fn whole_points(hp: i64) -> int {
    float::round_even(hp as int, 1000)
}

pub fn whole_points_text(hp: i64) -> (out: String)
    ensures
        out@ == text::signed_dec(whole_points(hp)),
{
    let n: i128 = hp as i128;
    let mut q: i128 = n / 1000;
    let mut r: i128 = n % 1000;
    if r < 0 {
        q = q - 1;
        r = r + 1000;
    }
    proof {
        assert(n == q * 1000 + r && 0 <= r < 1000);
        assert(q == (hp as int) / 1000 && r == (hp as int) % 1000);
    }
    let odd = q % 2 != 0;
    let rounded: i128 = if 2 * r > 1000 || (2 * r == 1000 && odd) { q + 1 } else { q };
    text::signed_dec_string(rounded as i64)
}

/// The hit points tell of a new fight: the object was dead and lives, or, two
/// seconds on, it has many more and over three times as many.
pub open spec fn new_encounter(object: ObjectView, timestamp: i64, current_hp: i64) -> bool {
    match object.hp_current {
        None => false,
        Some(previous) => {
            ||| previous <= ONE_HP && current_hp > ONE_HP
            ||| object.dead_at is Some && current_hp > ONE_HP
            ||| {
                &&& timestamp - object.last_seen_at >= 2_000_000
                &&& current_hp - previous > 500_000_000
                &&& current_hp > previous * 3
            }
        },
    }
}

fn is_new_hp_encounter(object: &ObjectDescriptor, timestamp: i64, current_hp: i64) -> (r: bool)
    ensures
        r == new_encounter(object@, timestamp, current_hp),
{
    let previous: i64 = match object.hp_current {
        Some(hp) => hp,
        None => {
            return false;
        },
    };
    if previous <= ONE_HP && current_hp > ONE_HP {
        return true;
    }
    if object.dead_at.is_some() && current_hp > ONE_HP {
        return true;
    }
    if (timestamp as i128) - (object.last_seen_at as i128) < 2_000_000 {
        return false;
    }
    (current_hp as i128) - (previous as i128) > 500_000_000 && (current_hp as i128) > (
    previous as i128) * 3
}

pub open spec fn larger(a: u32, b: u32) -> u32 {
    if a > b {
        a
    } else {
        b
    }
}

fn max_of(a: u32, b: u32) -> (r: u32)
    ensures
        r == larger(a, b),
{
    if a > b {
        a
    } else {
        b
    }
}

/// The last observations of hit points.
pub open spec fn with_observation(history: Seq<HpView>, observation: HpView) -> Seq<HpView> {
    crate::model::newest(history.push(observation), MAX_HP_HISTORY_PER_OBJECT as int)
}

/// The object forgets what it knew before a new fight.
pub open spec fn reset_object(
    object: ObjectView,
    timestamp: i64,
    current_hp: i64,
    max_hp: Option<i64>,
    initial: u32,
) -> ObjectView {
    ObjectView {
        class_path: None,
        object_path: None,
        display_name: None,
        table_resolved_name: false,
        hp_max: max_hp,
        dead_at: None,
        first_seen_at: timestamp,
        confidence: initial,
        hp_history: Seq::empty(),
        evidence: seq!["hp_encounter_reset:"@ + text::signed_dec(whole_points(current_hp))],
        ..object
    }
}

/// The object with an observation of its hit points.
pub open spec fn with_hp(
    object: ObjectView,
    timestamp: i64,
    current_hp: i64,
    max_hp: Option<i64>,
    evidence: Seq<char>,
    initial: u32,
    observed: u32,
) -> ObjectView {
    let known = if new_encounter(object, timestamp, current_hp) {
        reset_object(object, timestamp, current_hp, max_hp, initial)
    } else {
        object
    };
    ObjectView {
        last_seen_at: timestamp,
        hp_current: Some(current_hp),
        hp_max: match known.hp_max {
            Some(m) => Some(m),
            None => max_hp,
        },
        confidence: larger(known.confidence, observed),
        hp_history: with_observation(
            known.hp_history,
            HpView { timestamp, current: current_hp, max: max_hp, evidence },
        ),
        evidence: with_evidence(known.evidence, evidence),
        dead_at: if current_hp <= ONE_HP {
            Some(timestamp)
        } else {
            None
        },
        ..known
    }
}

fn push_observation(history: &mut VecDeque<HpObservation>, observation: HpObservation)
    ensures
        hp_views(final(history)@) == with_observation(hp_views(old(history)@), observation@),
{
    let ghost start = hp_views(history@);
    history.push_back(observation);
    let ghost all = hp_views(history@);
    assert(all =~= start.push(observation@));
    assert(all.skip(0) =~= all);
    while history.len() > MAX_HP_HISTORY_PER_OBJECT
        invariant
            all.len() == start.len() + 1,
            history@.len() <= all.len(),
            hp_views(history@) == all.skip(all.len() - history@.len()),
            all.len() > MAX_HP_HISTORY_PER_OBJECT ==> history@.len() >= MAX_HP_HISTORY_PER_OBJECT,
            all.len() <= MAX_HP_HISTORY_PER_OBJECT ==> history@.len() == all.len(),
        decreases history@.len(),
    {
        let ghost before = hp_views(history@);
        history.pop_front();
        assert(hp_views(history@) =~= before.skip(1));
        assert(before.skip(1) =~= all.skip(all.len() - history@.len()));
    }
    assert(hp_views(history@) =~= crate::model::newest(all, MAX_HP_HISTORY_PER_OBJECT as int));
}

fn observed_hp(
    object: ObjectDescriptor,
    timestamp: i64,
    current_hp: i64,
    max_hp: Option<i64>,
    evidence: String,
    initial: u32,
    observed: u32,
) -> (r: ObjectDescriptor)
    ensures
        r@ == with_hp(object@, timestamp, current_hp, max_hp, evidence@, initial, observed),
{
    let mut o = object;
    if is_new_hp_encounter(&o, timestamp, current_hp) {
        o.class_path = None;
        o.object_path = None;
        o.display_name = None;
        o.table_resolved_name = false;
        o.hp_max = max_hp;
        o.dead_at = None;
        o.first_seen_at = timestamp;
        o.confidence = initial;
        o.hp_history = VecDeque::new();
        let mut fresh: Vec<String> = Vec::new();
        fresh.push(
            text::concat2("hp_encounter_reset:", whole_points_text(current_hp).as_str()),
        );
        o.evidence = fresh;
        assert(o@ =~= reset_object(object@, timestamp, current_hp, max_hp, initial));
    }
    let ghost known = o@;
    o.last_seen_at = timestamp;
    o.hp_current = Some(current_hp);
    if o.hp_max.is_none() {
        o.hp_max = max_hp;
    }
    o.confidence = max_of(o.confidence, observed);
    let observation = HpObservation {
        timestamp,
        current: current_hp,
        max: max_hp,
        evidence: evidence.clone(),
    };
    push_observation(&mut o.hp_history, observation);
    push_unique_evidence(&mut o.evidence, evidence);
    o.dead_at = if current_hp <= ONE_HP {
        Some(timestamp)
    } else {
        None
    };
    o
}

// ------------------------------------------------------------------------- links

/// The object linked to the path. A link is never replaced unless that is allowed:
/// another path is only noted.
pub open spec fn linked(
    object: ObjectView,
    path: Seq<char>,
    display_name: Option<Seq<char>>,
    resolved: bool,
    allow_override: bool,
) -> ObjectView {
    let conflict = object.object_path is Some && object.object_path != Some(path);
    let noted = if conflict {
        with_evidence(object.evidence, "conflicting_path_link:"@ + path)
    } else {
        object.evidence
    };
    if conflict && !allow_override {
        ObjectView { evidence: noted, ..object }
    } else {
        ObjectView {
            object_path: Some(path),
            table_resolved_name: object.table_resolved_name || resolved,
            class_path: if text::contains(path, "/Game/"@) {
                Some(path)
            } else {
                object.class_path
            },
            display_name: if allow_override {
                match display_name {
                    Some(n) => Some(n),
                    None => object.display_name,
                }
            } else {
                match object.display_name {
                    Some(n) => Some(n),
                    None => display_name,
                }
            },
            confidence: larger(object.confidence, LINKED_CONFIDENCE),
            evidence: with_evidence(noted, "linked_path:"@ + path),
            ..object
        }
    }
}

/// A linked path stays: another path changes nothing but the evidence.
pub proof fn links_are_never_overridden(
    object: ObjectView,
    path: Seq<char>,
    display_name: Option<Seq<char>>,
    resolved: bool,
)
    requires
        object.object_path is Some,
        object.object_path != Some(path),
    ensures
        linked(object, path, display_name, resolved, false).object_path == object.object_path,
        linked(object, path, display_name, resolved, false).display_name == object.display_name,
        linked(object, path, display_name, resolved, false) == (ObjectView {
            evidence: with_evidence(object.evidence, "conflicting_path_link:"@ + path),
            ..object
        }),
{
}

fn clone_opt(value: &Option<String>) -> (r: Option<String>)
    ensures
        text::opt_text(r) == text::opt_text(*value),
{
    match value {
        Some(s) => Some(s.clone()),
        None => None,
    }
}

fn same_path(a: &Option<String>, path: &str) -> (r: bool)
    ensures
        r == (text::opt_text(*a) == Some(path@)),
{
    match a {
        Some(s) => text::same_str(s.as_str(), path),
        None => false,
    }
}

fn apply_path_link(
    object: ObjectDescriptor,
    path: &str,
    display_name: Option<String>,
    resolved: bool,
    allow_override: bool,
) -> (r: ObjectDescriptor)
    ensures
        r@ == linked(object@, path@, text::opt_text(display_name), resolved, allow_override),
{
    let mut o = object;
    if o.object_path.is_some() && !same_path(&o.object_path, path) {
        push_unique_evidence(&mut o.evidence, text::concat2("conflicting_path_link:", path));
        if !allow_override {
            return o;
        }
    }
    o.object_path = Some(path.to_owned());
    o.table_resolved_name = o.table_resolved_name || resolved;
    if text::has(&text::chars_of(path), "/Game/") {
        o.class_path = Some(path.to_owned());
    }
    if allow_override {
        if display_name.is_some() {
            o.display_name = display_name;
        }
    } else {
        if o.display_name.is_none() {
            o.display_name = display_name;
        }
    }
    o.confidence = max_of(o.confidence, LINKED_CONFIDENCE);
    push_unique_evidence(&mut o.evidence, text::concat2("linked_path:", path));
    o
}

pub open spec fn with_ambiguous_paths(evidence: Seq<Seq<char>>, paths: Seq<Seq<char>>, n: int) -> Seq<
    Seq<char>,
>
    decreases n,
{
    if n <= 0 {
        evidence
    } else {
        with_evidence(
            with_ambiguous_paths(evidence, paths, n - 1),
            "ambiguous_path:"@ + paths[n - 1],
        )
    }
}

/// The object with the note that several paths could be its own. What is not
/// linked gets no name.
pub open spec fn ambiguous(object: ObjectView, paths: Seq<Seq<char>>) -> ObjectView {
    let base = if object.object_path is None {
        ObjectView { class_path: None, display_name: None, table_resolved_name: false, ..object }
    } else {
        object
    };
    ObjectView {
        evidence: with_ambiguous_paths(
            with_evidence(base.evidence, "ambiguous_path_link:"@ + text::dec(paths.len())),
            paths,
            if paths.len() < 3 {
                paths.len() as int
            } else {
                3
            },
        ),
        ..base
    }
}

/// Several possible paths never give an object a path or a name.
pub proof fn ambiguity_gives_no_name(object: ObjectView, paths: Seq<Seq<char>>)
    ensures
        ambiguous(object, paths).object_path == object.object_path,
        object.object_path is None ==> ambiguous(object, paths).display_name is None,
        object.object_path is Some ==> ambiguous(object, paths).display_name
            == object.display_name,
{
}

fn mark_ambiguous_path_link(object: ObjectDescriptor, paths: &Vec<String>) -> (r: ObjectDescriptor)
    ensures
        r@ == ambiguous(object@, text::texts(paths@)),
{
    let mut o = object;
    if o.object_path.is_none() {
        o.class_path = None;
        o.display_name = None;
        o.table_resolved_name = false;
    }
    push_unique_evidence(
        &mut o.evidence,
        text::concat2(
            "ambiguous_path_link:",
            text::dec_string(paths.len() as u64).as_str(),
        ),
    );
    let ghost base = text::texts(o.evidence@);
    let ghost all = text::texts(paths@);
    let ghost others = o@;
    let n: usize = if paths.len() < 3 { paths.len() } else { 3 };
    let mut evidence = o.evidence;
    let mut i: usize = 0;
    while i < n
        invariant
            i <= n <= paths.len(),
            all == text::texts(paths@),
            text::texts(evidence@) == with_ambiguous_paths(base, all, i as int),
        decreases n - i,
    {
        assert(all[i as int] == paths@[i as int]@);
        push_unique_evidence(
            &mut evidence,
            text::concat2("ambiguous_path:", paths[i].as_str()),
        );
        i += 1;
    }
    o.evidence = evidence;
    assert(o@ =~= ambiguous(object@, all));
    o
}

// ---------------------------------------------------------------- dominant paths

/// The path can link hit points: it is that of a target, and is a full path, names
/// a world boss, or is trusted.
pub open spec fn strong(object: ObjectView, path: Seq<char>) -> bool {
    targetish_path(path) && (text::starts_with(path, "/Game/"@) || world_boss_path(path)
        || object.confidence >= STRONG_CONFIDENCE)
}

/// The object tells of a strong path near the point in time.
pub open spec fn strong_object(object: ObjectView, timestamp: i64, window: i64) -> bool {
    &&& object.handle_kind == ObjectHandleKind::PathOnly
    &&& apart(timestamp, object.last_seen_at) <= window
    &&& object.object_path is Some
    &&& strong(object, object.object_path.unwrap())
}

/// How many of the first `n` pieces of evidence are sightings of the path.
pub open spec fn sightings(evidence: Seq<Seq<char>>, n: int) -> int
    decreases n,
{
    if n <= 0 {
        0
    } else {
        sightings(evidence, n - 1) + if text::starts_with(evidence[n - 1], "path_candidate:"@) {
            1int
        } else {
            0
        }
    }
}

/// How much the object's sightings of its path weigh.
pub open spec fn observation_weight(object: ObjectView) -> int {
    let n = sightings(object.evidence, object.evidence.len() as int);
    if n > 1 {
        n
    } else {
        1
    }
}

/// The paths of one boss or monster taken together.
#[verifier::ext_equal]
pub struct GroupView {
    pub key: Seq<char>,
    pub path: Seq<char>,
    pub weight: int,
    pub rank: int,
    pub last_seen_at: i64,
}

pub open spec fn group_key_or_path(path: Seq<char>) -> Seq<char> {
    match group_key(path) {
        Some(key) => key,
        None => text::lower(path),
    }
}

/// The position of the group with the key, from position `i` on; the number of
/// groups where there is none.
pub open spec fn find_group(groups: Seq<GroupView>, key: Seq<char>, i: int) -> int
    decreases groups.len() - i,
{
    if i < 0 || i >= groups.len() || groups[i].key == key {
        i
    } else {
        find_group(groups, key, i + 1)
    }
}

/// The groups with one more object: its group grows, and is represented by the
/// better path, or by the later one of two that are as good.
pub open spec fn with_grouped(groups: Seq<GroupView>, object: ObjectView) -> Seq<GroupView> {
    let path = object.object_path.unwrap();
    let key = group_key_or_path(path);
    let weight = observation_weight(object);
    let rank = representative_rank(path);
    let at = find_group(groups, key, 0);
    if at < groups.len() {
        let g = groups[at];
        let better = rank > g.rank || (rank == g.rank && object.last_seen_at > g.last_seen_at);
        groups.update(
            at,
            if better {
                GroupView {
                    key,
                    path,
                    weight: g.weight + weight,
                    rank,
                    last_seen_at: object.last_seen_at,
                }
            } else {
                GroupView { weight: g.weight + weight, ..g }
            },
        )
    } else {
        groups.push(GroupView { key, path, weight, rank, last_seen_at: object.last_seen_at })
    }
}

/// The groups of the strong paths of the first `n` objects.
pub open spec fn grouped(s: Seq<ObjectView>, timestamp: i64, window: i64, n: int) -> Seq<GroupView>
    decreases n,
{
    if n <= 0 {
        Seq::empty()
    } else {
        let before = grouped(s, timestamp, window, n - 1);
        if strong_object(s[n - 1], timestamp, window) {
            with_grouped(before, s[n - 1])
        } else {
            before
        }
    }
}

/// The first of the first `n` groups than which none is heavier.
pub open spec fn heaviest(groups: Seq<GroupView>, n: int) -> int
    decreases n,
{
    if n <= 1 {
        0
    } else {
        let m = heaviest(groups, n - 1);
        if groups[n - 1].weight > groups[m].weight {
            n - 1
        } else {
            m
        }
    }
}

/// No other group weighs as much.
pub open spec fn outweighs(groups: Seq<GroupView>, m: int) -> bool {
    forall|i: int| 0 <= i < groups.len() && i != m ==> (#[trigger] groups[i]).weight
        < groups[m].weight
}

/// Where the text goes in a list in order.
pub open spec fn text_place(list: Seq<Seq<char>>, value: Seq<char>, i: int) -> int
    decreases list.len() - i,
{
    if 0 <= i < list.len() && text::text_lt(list[i], value) {
        text_place(list, value, i + 1)
    } else {
        i
    }
}

/// The paths of the first `n` groups in order, each once.
pub open spec fn ordered_paths(groups: Seq<GroupView>, n: int) -> Seq<Seq<char>>
    decreases n,
{
    if n <= 0 {
        Seq::empty()
    } else {
        let before = ordered_paths(groups, n - 1);
        let path = groups[n - 1].path;
        if before.contains(path) {
            before
        } else {
            before.insert(text_place(before, path, 0), path)
        }
    }
}

/// The paths that stand for the targets near the point in time: the one of a group
/// that outweighs all others and was seen twice, or the paths of all groups.
pub open spec fn strong_paths(s: Seq<ObjectView>, timestamp: i64, window: i64) -> Seq<Seq<char>> {
    let groups = grouped(s, timestamp, window, s.len() as int);
    let m = heaviest(groups, groups.len() as int);
    if groups.len() == 0 {
        Seq::empty()
    } else if groups.len() == 1 {
        seq![groups[0].path]
    } else if groups[m].weight >= 2 && outweighs(groups, m) {
        seq![groups[m].path]
    } else {
        ordered_paths(groups, groups.len() as int)
    }
}

struct TargetPathGroup {
    key: String,
    path: String,
    weight: u128,
    rank: i32,
    last_seen_at: i64,
}

impl View for TargetPathGroup {
    type V = GroupView;

    closed spec fn view(&self) -> GroupView {
        GroupView {
            key: self.key@,
            path: self.path@,
            weight: self.weight as int,
            rank: self.rank as int,
            last_seen_at: self.last_seen_at,
        }
    }
}

spec fn group_views(v: Seq<TargetPathGroup>) -> Seq<GroupView> {
    v.map_values(|x: TargetPathGroup| x@)
}

fn is_strong(object: &ObjectDescriptor, path: &str) -> (r: bool)
    ensures
        r == strong(object@, path@),
{
    is_targetish_path(path) && (text::starts(&text::chars_of(path), "/Game/")
        || is_world_boss_path(path) || object.confidence >= STRONG_CONFIDENCE)
}

fn path_observation_weight(object: &ObjectDescriptor) -> (r: u128)
    ensures
        r == observation_weight(object@),
        r <= 0xffff_ffff_ffff_ffff,
{
    let ghost all = text::texts(object.evidence@);
    let mut n: usize = 0;
    let mut i: usize = 0;
    while i < object.evidence.len()
        invariant
            i <= object.evidence.len(),
            n <= i,
            all == text::texts(object.evidence@),
            n == sightings(all, i as int),
        decreases object.evidence.len() - i,
    {
        assert(all[i as int] == object.evidence@[i as int]@);
        if text::starts(&text::chars_of(object.evidence[i].as_str()), "path_candidate:") {
            n += 1;
        }
        i += 1;
    }
    if n > 1 {
        n as u128
    } else {
        1
    }
}

fn group_object(groups: &mut Vec<TargetPathGroup>, object: &ObjectDescriptor, path: &str, Ghost(count): Ghost<int>)
    requires
        object.object_path is Some,
        object@.object_path == Some(path@),
        0 <= count <= 0xffff_ffff_ffff_ffff,
        forall|i: int|
            0 <= i < old(groups)@.len() ==> (#[trigger] old(groups)@[i]).weight <= count
                * 0x1_0000_0000_0000_0000,
    ensures
        group_views(final(groups)@) == with_grouped(group_views(old(groups)@), object@),
        forall|i: int|
            0 <= i < final(groups)@.len() ==> (#[trigger] final(groups)@[i]).weight <= (count + 1)
                * 0x1_0000_0000_0000_0000,
{
    let ghost start = group_views(groups@);
    let key = match target_group_key(path) {
        Some(key) => key,
        None => text::string_of(&text::lower_of(path)),
    };
    let weight: u128 = path_observation_weight(object);
    let rank: i32 = target_path_representative_rank(path);
    let mut at: usize = 0;
    while at < groups.len() && !text::same_str(groups[at].key.as_str(), key.as_str())
        invariant
            at <= groups.len(),
            group_views(groups@) == start,
            find_group(start, key@, 0) == find_group(start, key@, at as int),
            groups@ == old(groups)@,
        decreases groups.len() - at,
    {
        at += 1;
    }
    if at < groups.len() {
        let g = groups.remove(at);
        assert(g@ == start[at as int]);
        assert(g == old(groups)@[at as int]);
        let better = rank > g.rank || (rank == g.rank && object.last_seen_at > g.last_seen_at);
        let grown = if better {
            TargetPathGroup {
                key: g.key,
                path: path.to_owned(),
                weight: g.weight + weight,
                rank,
                last_seen_at: object.last_seen_at,
            }
        } else {
            TargetPathGroup {
                key: g.key,
                path: g.path,
                weight: g.weight + weight,
                rank: g.rank,
                last_seen_at: g.last_seen_at,
            }
        };
        groups.insert(at, grown);
        assert(group_views(groups@) =~= start.update(at as int, grown@));
    } else {
        let fresh = TargetPathGroup {
            key,
            path: path.to_owned(),
            weight,
            rank,
            last_seen_at: object.last_seen_at,
        };
        groups.push(fresh);
        assert(group_views(groups@) =~= start.push(fresh@));
    }
}

fn insert_ordered(list: &mut Vec<Vec<char>>, path: Vec<char>)
    ensures
        text::views(final(list)@) == if text::views(old(list)@).contains(path@) {
            text::views(old(list)@)
        } else {
            text::views(old(list)@).insert(text_place(text::views(old(list)@), path@, 0), path@)
        },
{
    let ghost start = text::views(list@);
    let mut known = false;
    let mut i: usize = 0;
    while i < list.len()
        invariant
            i <= list.len(),
            start == text::views(list@),
            known == (exists|k: int| 0 <= k < i && #[trigger] start[k] == path@),
            list@ == old(list)@,
        decreases list.len() - i,
    {
        if text::same(&list[i], &path) {
            assert(start[i as int] == path@);
            known = true;
        }
        i += 1;
    }
    if known {
        assert(start.contains(path@));
        return;
    }
    assert(!start.contains(path@));
    let mut at: usize = 0;
    while at < list.len() && text::comes_before(&list[at], &path)
        invariant
            at <= list.len(),
            start == text::views(list@),
            list@ == old(list)@,
            text_place(start, path@, 0) == text_place(start, path@, at as int),
        decreases list.len() - at,
    {
        at += 1;
    }
    list.insert(at, path);
    assert(text::views(list@) =~= start.insert(at as int, path@));
}

fn heaviest_group(groups: &Vec<TargetPathGroup>) -> (m: usize)
    requires
        groups@.len() > 0,
    ensures
        m == heaviest(group_views(groups@), groups@.len() as int),
        m < groups@.len(),
{
    let ghost all = group_views(groups@);
    let mut m: usize = 0;
    let mut n: usize = 1;
    while n < groups.len()
        invariant
            1 <= n <= groups.len(),
            m < n,
            all == group_views(groups@),
            m == heaviest(all, n as int),
        decreases groups.len() - n,
    {
        if groups[n].weight > groups[m].weight {
            m = n;
        }
        n += 1;
    }
    m
}

fn group_outweighs(groups: &Vec<TargetPathGroup>, m: usize) -> (r: bool)
    requires
        m < groups@.len(),
    ensures
        r == outweighs(group_views(groups@), m as int),
{
    let ghost all = group_views(groups@);
    let mut i: usize = 0;
    while i < groups.len()
        invariant
            i <= groups.len(),
            m < groups@.len(),
            all == group_views(groups@),
            forall|k: int| 0 <= k < i && k != m ==> (#[trigger] all[k]).weight < all[m as int].weight,
        decreases groups.len() - i,
    {
        if i != m && groups[i].weight >= groups[m].weight {
            assert(all[i as int].weight >= all[m as int].weight);
            return false;
        }
        i += 1;
    }
    true
}

fn dominant_targetish_paths(objects: &Vec<ObjectDescriptor>, timestamp: i64, window: i64) -> (paths:
    Vec<String>)
    ensures
        text::texts(paths@) == strong_paths(object_views(objects@), timestamp, window),
{
    let ghost all = object_views(objects@);
    let mut groups: Vec<TargetPathGroup> = Vec::new();
    let mut i: usize = 0;
    assert(group_views(groups@) =~= grouped(all, timestamp, window, 0));
    while i < objects.len()
        invariant
            i <= objects.len(),
            all == object_views(objects@),
            group_views(groups@) == grouped(all, timestamp, window, i as int),
            forall|k: int|
                0 <= k < groups@.len() ==> (#[trigger] groups@[k]).weight <= i
                    * 0x1_0000_0000_0000_0000,
        decreases objects.len() - i,
    {
        let object = &objects[i];
        assert(all[i as int] == object@);
        if object.handle_kind == ObjectHandleKind::PathOnly && within(
            timestamp,
            object.last_seen_at,
            window,
        ) {
            if let Some(path) = &object.object_path {
                if is_strong(object, path.as_str()) {
                    group_object(&mut groups, object, path.as_str(), Ghost(i as int));
                }
            }
        }
        i += 1;
    }
    let ghost found = group_views(groups@);
    let mut paths: Vec<String> = Vec::new();
    if groups.len() == 0 {
        assert(text::texts(paths@) =~= Seq::<Seq<char>>::empty());
        return paths;
    }
    if groups.len() == 1 {
        paths.push(groups[0].path.clone());
        assert(text::texts(paths@) =~= seq![found[0].path]);
        return paths;
    }
    let m = heaviest_group(&groups);
    if groups[m].weight >= 2 && group_outweighs(&groups, m) {
        paths.push(groups[m].path.clone());
        assert(text::texts(paths@) =~= seq![found[m as int].path]);
        return paths;
    }
    let mut ordered: Vec<Vec<char>> = Vec::new();
    let mut n: usize = 0;
    assert(text::views(ordered@) =~= ordered_paths(found, 0));
    while n < groups.len()
        invariant
            n <= groups.len(),
            found == group_views(groups@),
            text::views(ordered@) == ordered_paths(found, n as int),
        decreases groups.len() - n,
    {
        assert(found[n as int].path == groups@[n as int].path@);
        insert_ordered(&mut ordered, text::chars_of(groups[n].path.as_str()));
        n += 1;
    }
    let mut k: usize = 0;
    while k < ordered.len()
        invariant
            k <= ordered.len(),
            paths@.len() == k,
            forall|j: int| 0 <= j < k ==> (#[trigger] paths@[j])@ == ordered@[j]@,
        decreases ordered.len() - k,
    {
        paths.push(text::string_of(&ordered[k]));
        k += 1;
    }
    assert(text::texts(paths@) =~= text::views(ordered@));
    paths
}

// ------------------------------------------------------------------- the store

/// The position of the object with the handle, from position `i` on; the number of
/// objects where there is none.
pub open spec fn find_object(
    s: Seq<ObjectView>,
    kind: ObjectHandleKind,
    handle: Seq<char>,
    i: int,
) -> int
    decreases s.len() - i,
{
    if i < 0 || i >= s.len() || (s[i].handle_kind == kind && s[i].handle == handle) {
        i
    } else {
        find_object(s, kind, handle, i + 1)
    }
}

/// No two objects have one handle.
pub open spec fn distinct_handles(s: Seq<ObjectView>) -> bool {
    forall|i: int, j: int|
        0 <= i < j < s.len() ==> !((#[trigger] s[i]).handle_kind == (#[trigger] s[j]).handle_kind
            && s[i].handle == s[j].handle)
}

/// The positions below `n` of the objects that have the property.
pub open spec fn positions(s: Seq<ObjectView>, has: spec_fn(ObjectView) -> bool, n: int) -> Seq<int>
    decreases n,
{
    if n <= 0 {
        Seq::empty()
    } else if has(s[n - 1]) {
        positions(s, has, n - 1).push(n - 1)
    } else {
        positions(s, has, n - 1)
    }
}

/// The first `n` objects without those that lack the property.
pub open spec fn kept(s: Seq<ObjectView>, has: spec_fn(ObjectView) -> bool, n: int) -> Seq<ObjectView>
    decreases n,
{
    if n <= 0 {
        Seq::empty()
    } else if has(s[n - 1]) {
        kept(s, has, n - 1).push(s[n - 1])
    } else {
        kept(s, has, n - 1)
    }
}

/// The object has been seen within the time that objects are kept.
pub open spec fn fresh(object: ObjectView, timestamp: i64) -> bool {
    timestamp - object.last_seen_at <= OBJECT_TTL
}

/// The first of the first `n` objects than which none was seen earlier.
pub open spec fn oldest(s: Seq<ObjectView>, n: int) -> int
    decreases n,
{
    if n <= 1 {
        0
    } else {
        let m = oldest(s, n - 1);
        if s[n - 1].last_seen_at < s[m].last_seen_at {
            n - 1
        } else {
            m
        }
    }
}

/// The objects without the oldest ones, as far as there are too many.
pub open spec fn trimmed_store(s: Seq<ObjectView>) -> Seq<ObjectView>
    decreases s.len(),
{
    if s.len() > MAX_OBJECTS {
        let m = oldest(s, s.len() as int);
        if 0 <= m < s.len() {
            trimmed_store(s.remove(m))
        } else {
            s
        }
    } else {
        s
    }
}

/// The objects after those not seen for long, and the oldest of too many, are gone.
pub open spec fn cleaned(s: Seq<ObjectView>, timestamp: i64) -> Seq<ObjectView> {
    trimmed_store(kept(s, |o: ObjectView| fresh(o, timestamp), s.len() as int))
}

/// Two texts that differ in the case of ASCII letters at most.
pub open spec fn same_but_case(a: Seq<char>, b: Seq<char>) -> bool {
    text::lower(a) == text::lower(b)
}

/// The object is only a path, and not the given one.
pub open spec fn not_this_path(object: ObjectView, path: Seq<char>) -> bool {
    !(object.handle_kind == ObjectHandleKind::PathOnly && object.object_path is Some
        && same_but_case(object.object_path.unwrap(), path))
}

/// The objects without those that are only the path.
pub open spec fn without_path(s: Seq<ObjectView>, path: Seq<char>) -> Seq<ObjectView> {
    kept(s, |o: ObjectView| not_this_path(o, path), s.len() as int)
}

pub open spec fn linkable_kind(kind: ObjectHandleKind) -> bool {
    kind == ObjectHandleKind::AttributeGuid || kind == ObjectHandleKind::NetRefHandleCandidate
}

/// The object has hit points that can be linked to a path.
pub open spec fn linkable(object: ObjectView, timestamp: i64) -> bool {
    linkable_kind(object.handle_kind) && apart(timestamp, object.last_seen_at) <= PATH_LINK_WINDOW
}

/// The objects after a path has been seen: the one object with hit points nearby is
/// linked to the one strong path, or all such objects are marked where several
/// paths are strong.
pub open spec fn linked_to_single(
    s: Seq<ObjectView>,
    timestamp: i64,
    path: Seq<char>,
    index: resource_index::IndexView,
) -> Seq<ObjectView> {
    let paths = strong_paths(s, timestamp, PATH_LINK_WINDOW);
    let at = positions(s, |o: ObjectView| linkable(o, timestamp), s.len() as int);
    if !targetish_path(path) || paths.len() == 0 {
        s
    } else if paths.len() > 1 {
        s.map_values(
            |o: ObjectView|
                if linkable(o, timestamp) {
                    ambiguous(o, paths)
                } else {
                    o
                },
        )
    } else if at.len() == 1 {
        s.update(
            at[0],
            linked(
                s[at[0]],
                paths[0],
                resource_index::display_name(index, paths[0]),
                resource_index::resolved_name(index, paths[0]) is Some,
                false,
            ),
        )
    } else {
        s
    }
}

/// The first object, from position `i` on, with the path.
pub open spec fn with_object_path(s: Seq<ObjectView>, path: Seq<char>, i: int) -> Option<ObjectView>
    decreases s.len() - i,
{
    if i < 0 || i >= s.len() {
        None
    } else if s[i].object_path == Some(path) {
        Some(s[i])
    } else {
        with_object_path(s, path, i + 1)
    }
}

/// The objects after hit points have been seen: the object is linked to the one
/// strong path nearby, if no other object of its kind is nearby, or marked where
/// several paths are strong.
pub open spec fn linked_to_best(
    s: Seq<ObjectView>,
    kind: ObjectHandleKind,
    handle: Seq<char>,
    timestamp: i64,
) -> Seq<ObjectView> {
    let paths = strong_paths(s, timestamp, PATH_LINK_WINDOW);
    let me = find_object(s, kind, handle, 0);
    let at = positions(
        s,
        |o: ObjectView|
            o.handle_kind == kind && apart(timestamp, o.last_seen_at) <= PATH_LINK_WINDOW,
        s.len() as int,
    );
    if paths.len() == 0 || me >= s.len() {
        s
    } else if paths.len() > 1 {
        s.update(me, ambiguous(s[me], paths))
    } else if at.len() == 1 && at[0] == me {
        let named = with_object_path(s, paths[0], 0);
        s.update(
            me,
            linked(
                s[me],
                paths[0],
                match named {
                    Some(o) => o.display_name,
                    None => None,
                },
                match named {
                    Some(o) => o.table_resolved_name,
                    None => false,
                },
                false,
            ),
        )
    } else {
        s
    }
}

/// The objects after hit points of an object have been seen.
pub open spec fn hp_observed(
    s: Seq<ObjectView>,
    kind: ObjectHandleKind,
    handle: Seq<char>,
    timestamp: i64,
    current_hp: i64,
    max_hp: Option<i64>,
    evidence: Seq<char>,
    initial: u32,
    observed: u32,
) -> Seq<ObjectView> {
    let me = find_object(s, kind, handle, 0);
    let before = if me < s.len() {
        s[me]
    } else {
        ObjectView { hp_max: max_hp, ..new_object(kind, handle, timestamp, initial) }
    };
    let after = with_hp(before, timestamp, current_hp, max_hp, evidence, initial, observed);
    let entered = if me < s.len() {
        s.update(me, after)
    } else {
        s.push(after)
    };
    let cleared = if current_hp <= ONE_HP && after.object_path is Some {
        without_path(entered, after.object_path.unwrap())
    } else {
        entered
    };
    let joined = if linkable_kind(kind) && !new_encounter(before, timestamp, current_hp)
        && current_hp > ONE_HP {
        linked_to_best(cleared, kind, handle, timestamp)
    } else {
        cleared
    };
    cleaned(joined, timestamp)
}

/// The objects that were seen.
#[derive(Debug)]
pub struct ObjectStateStore {
    objects: Vec<ObjectDescriptor>,
}

impl View for ObjectStateStore {
    type V = Seq<ObjectView>;

    closed spec fn view(&self) -> Seq<ObjectView> {
        object_views(self.objects@)
    }
}

fn lower_equal(a: &str, b: &str) -> (r: bool)
    ensures
        r == same_but_case(a@, b@),
{
    text::same(&text::lower_of(a), &text::lower_of(b))
}

fn is_linkable(object: &ObjectDescriptor, timestamp: i64) -> (r: bool)
    ensures
        r == linkable(object@, timestamp),
{
    (object.handle_kind == ObjectHandleKind::AttributeGuid || object.handle_kind
        == ObjectHandleKind::NetRefHandleCandidate) && within(
        timestamp,
        object.last_seen_at,
        PATH_LINK_WINDOW,
    )
}

impl ObjectStateStore {
    pub fn new() -> (r: ObjectStateStore)
        ensures
            r@ == Seq::<ObjectView>::empty(),
    {
        let r = ObjectStateStore { objects: Vec::new() };
        assert(r@ =~= Seq::<ObjectView>::empty());
        r
    }

    /// How many objects there are.
    pub fn len(&self) -> (r: usize)
        ensures
            r == self@.len(),
    {
        self.objects.len()
    }

    fn position(&self, kind: ObjectHandleKind, handle: &str) -> (r: usize)
        ensures
            r == find_object(self@, kind, handle@, 0),
            r <= self@.len(),
    {
        let mut i: usize = 0;
        while i < self.objects.len() && !(self.objects[i].handle_kind == kind && text::same_str(
            self.objects[i].handle.as_str(),
            handle,
        ))
            invariant
                i <= self.objects.len(),
                find_object(self@, kind, handle@, 0) == find_object(self@, kind, handle@, i as int),
            decreases self.objects.len() - i,
        {
            assert(self@[i as int] == self.objects@[i as int]@);
            i += 1;
        }
        if i < self.objects.len() {
            assert(self@[i as int] == self.objects@[i as int]@);
        }
        i
    }

    fn take_out(&mut self, at: usize) -> (object: ObjectDescriptor)
        requires
            at < old(self)@.len(),
        ensures
            object@ == old(self)@[at as int],
            final(self)@ == old(self)@.remove(at as int),
    {
        let ghost before = self@;
        let object = self.objects.remove(at);
        assert(self@ =~= before.remove(at as int));
        object
    }

    fn put_in(&mut self, at: usize, object: ObjectDescriptor)
        requires
            at <= old(self)@.len(),
        ensures
            final(self)@ == old(self)@.insert(at as int, object@),
    {
        let ghost before = self@;
        self.objects.insert(at, object);
        assert(self@ =~= before.insert(at as int, object@));
    }

    fn keep_fresh(&mut self, timestamp: i64)
        ensures
            final(self)@ == kept(
                old(self)@,
                |o: ObjectView| fresh(o, timestamp),
                old(self)@.len() as int,
            ),
    {
        let ghost all = self@;
        let mut out: Vec<ObjectDescriptor> = Vec::new();
        let mut source: Vec<ObjectDescriptor> = Vec::new();
        std::mem::swap(&mut source, &mut self.objects);
        let ghost objects = source@;
        assert(object_views(out@) =~= kept(all, |o: ObjectView| fresh(o, timestamp), 0));
        for object in it: source
            invariant
                it.seq() == objects,
                all == object_views(objects),
                object_views(out@) == kept(
                    all,
                    |o: ObjectView| fresh(o, timestamp),
                    it.index() as int,
                ),
        {
            let ghost before = object_views(out@);
            assert(all[it.index() as int] == object@);
            if (timestamp as i128) - (object.last_seen_at as i128) <= OBJECT_TTL as i128 {
                out.push(object);
                assert(object_views(out@) =~= before.push(object@));
            }
        }
        self.objects = out;
    }

    fn remove_path_only_objects_for_path(&mut self, path: &str)
        ensures
            final(self)@ == without_path(old(self)@, path@),
    {
        let ghost all = self@;
        let mut out: Vec<ObjectDescriptor> = Vec::new();
        let mut source: Vec<ObjectDescriptor> = Vec::new();
        std::mem::swap(&mut source, &mut self.objects);
        let ghost objects = source@;
        assert(object_views(out@) =~= kept(all, |o: ObjectView| not_this_path(o, path@), 0));
        for object in it: source
            invariant
                it.seq() == objects,
                all == object_views(objects),
                object_views(out@) == kept(
                    all,
                    |o: ObjectView| not_this_path(o, path@),
                    it.index() as int,
                ),
        {
            let ghost before = object_views(out@);
            assert(all[it.index() as int] == object@);
            let this = object.handle_kind == ObjectHandleKind::PathOnly && match &object.object_path {
                Some(p) => lower_equal(p.as_str(), path),
                None => false,
            };
            if !this {
                out.push(object);
                assert(object_views(out@) =~= before.push(object@));
            }
        }
        self.objects = out;
    }

    fn oldest_position(&self) -> (m: usize)
        requires
            self@.len() > 0,
        ensures
            m == oldest(self@, self@.len() as int),
            m < self@.len(),
    {
        let mut m: usize = 0;
        let mut n: usize = 1;
        while n < self.objects.len()
            invariant
                1 <= n <= self.objects.len(),
                m < n,
                m == oldest(self@, n as int),
            decreases self.objects.len() - n,
        {
            assert(self@[n as int] == self.objects@[n as int]@);
            assert(self@[m as int] == self.objects@[m as int]@);
            if self.objects[n].last_seen_at < self.objects[m].last_seen_at {
                m = n;
            }
            n += 1;
        }
        m
    }

    /// Removes what has not been seen for long, and the oldest of too many objects.
    pub fn cleanup(&mut self, timestamp: i64)
        ensures
            final(self)@ == cleaned(old(self)@, timestamp),
            final(self)@.len() <= MAX_OBJECTS,
    {
        self.keep_fresh(timestamp);
        let ghost start = self@;
        while self.objects.len() > MAX_OBJECTS
            invariant
                trimmed_store(start) == trimmed_store(self@),
            decreases self.objects.len(),
        {
            let ghost before = self@;
            let m = self.oldest_position();
            self.objects.remove(m);
            assert(self@ =~= before.remove(m as int));
        }
    }

    fn strong_targetish_paths_near(&self, timestamp: i64) -> (paths: Vec<String>)
        ensures
            text::texts(paths@) == strong_paths(self@, timestamp, PATH_LINK_WINDOW),
    {
        dominant_targetish_paths(&self.objects, timestamp, PATH_LINK_WINDOW)
    }

    fn linkable_positions(&self, timestamp: i64) -> (out: Vec<usize>)
        ensures
            out@.len() == positions(
                self@,
                |o: ObjectView| linkable(o, timestamp),
                self@.len() as int,
            ).len(),
            forall|k: int|
                0 <= k < out@.len() ==> (#[trigger] out@[k]) < self@.len() && out@[k] == positions(
                    self@,
                    |o: ObjectView| linkable(o, timestamp),
                    self@.len() as int,
                )[k],
    {
        let mut out: Vec<usize> = Vec::new();
        let mut i: usize = 0;
        while i < self.objects.len()
            invariant
                i <= self.objects.len(),
                out@.len() == positions(
                    self@,
                    |o: ObjectView| linkable(o, timestamp),
                    i as int,
                ).len(),
                forall|k: int|
                    0 <= k < out@.len() ==> (#[trigger] out@[k]) < i && out@[k] == positions(
                        self@,
                        |o: ObjectView| linkable(o, timestamp),
                        i as int,
                    )[k],
            decreases self.objects.len() - i,
        {
            assert(self@[i as int] == self.objects@[i as int]@);
            if is_linkable(&self.objects[i], timestamp) {
                out.push(i);
            }
            i += 1;
        }
        out
    }

    fn mark_all_ambiguous(&mut self, timestamp: i64, paths: &Vec<String>)
        ensures
            final(self)@ == old(self)@.map_values(
                |o: ObjectView|
                    if linkable(o, timestamp) {
                        ambiguous(o, text::texts(paths@))
                    } else {
                        o
                    },
            ),
    {
        let ghost all = self@;
        let mut out: Vec<ObjectDescriptor> = Vec::new();
        let mut source: Vec<ObjectDescriptor> = Vec::new();
        std::mem::swap(&mut source, &mut self.objects);
        let ghost objects = source@;
        for object in it: source
            invariant
                it.seq() == objects,
                all == object_views(objects),
                out@.len() == it.index(),
                forall|k: int|
                    0 <= k < it.index() ==> (#[trigger] out@[k])@ == if linkable(
                        all[k],
                        timestamp,
                    ) {
                        ambiguous(all[k], text::texts(paths@))
                    } else {
                        all[k]
                    },
        {
            assert(all[it.index() as int] == object@);
            if is_linkable(&object, timestamp) {
                out.push(mark_ambiguous_path_link(object, paths));
            } else {
                out.push(object);
            }
        }
        self.objects = out;
        assert(self@ =~= all.map_values(
            |o: ObjectView|
                if linkable(o, timestamp) {
                    ambiguous(o, text::texts(paths@))
                } else {
                    o
                },
        ));
    }

    fn link_path_to_single_hp_handle(
        &mut self,
        timestamp: i64,
        path: &str,
        resources: &ResourceIndex,
    )
        ensures
            final(self)@ == linked_to_single(old(self)@, timestamp, path@, resources@),
    {
        if !is_targetish_path(path) {
            return;
        }
        let ghost before = self@;
        let paths = self.strong_targetish_paths_near(timestamp);
        let ghost found = text::texts(paths@);
        assert(found.len() == paths@.len());
        if paths.len() == 0 {
            return;
        }
        if paths.len() > 1 {
            self.mark_all_ambiguous(timestamp, &paths);
            return;
        }
        let at = self.linkable_positions(timestamp);
        if at.len() != 1 {
            return;
        }
        let me: usize = at[0];
        let path = paths[0].as_str();
        assert(found[0] == path@);
        let display_name = resources.display_name_for_path(path);
        let resolved = resources.resolved_name_for_path(path).is_some();
        let object = self.take_out(me);
        let joined = apply_path_link(object, path, display_name, resolved, false);
        self.put_in(me, joined);
        assert(before.remove(me as int).insert(me as int, joined@) =~= before.update(
            me as int,
            joined@,
        ));
    }

    fn only_of_kind(&self, kind: ObjectHandleKind, timestamp: i64, me: usize) -> (r: bool)
        requires
            me < self@.len(),
        ensures
            r == ({
                let at = positions(
                    self@,
                    |o: ObjectView|
                        o.handle_kind == kind && apart(timestamp, o.last_seen_at)
                            <= PATH_LINK_WINDOW,
                    self@.len() as int,
                );
                at.len() == 1 && at[0] == me
            }),
    {
        let mut count: usize = 0;
        let mut last: usize = 0;
        let mut i: usize = 0;
        while i < self.objects.len()
            invariant
                i <= self.objects.len(),
                count <= i,
                count == positions(
                    self@,
                    |o: ObjectView|
                        o.handle_kind == kind && apart(timestamp, o.last_seen_at)
                            <= PATH_LINK_WINDOW,
                    i as int,
                ).len(),
                count > 0 ==> last == positions(
                    self@,
                    |o: ObjectView|
                        o.handle_kind == kind && apart(timestamp, o.last_seen_at)
                            <= PATH_LINK_WINDOW,
                    i as int,
                ).last(),
            decreases self.objects.len() - i,
        {
            assert(self@[i as int] == self.objects@[i as int]@);
            if self.objects[i].handle_kind == kind && within(
                timestamp,
                self.objects[i].last_seen_at,
                PATH_LINK_WINDOW,
            ) {
                count += 1;
                last = i;
            }
            i += 1;
        }
        count == 1 && last == me
    }

    fn name_of_path(&self, path: &str) -> (r: (Option<String>, bool))
        ensures
            match with_object_path(self@, path@, 0) {
                Some(o) => text::opt_text(r.0) == o.display_name && r.1 == o.table_resolved_name,
                None => r.0 is None && !r.1,
            },
    {
        let mut i: usize = 0;
        while i < self.objects.len()
            invariant
                i <= self.objects.len(),
                with_object_path(self@, path@, 0) == with_object_path(self@, path@, i as int),
            decreases self.objects.len() - i,
        {
            assert(self@[i as int] == self.objects@[i as int]@);
            if same_path(&self.objects[i].object_path, path) {
                return (
                    clone_opt(&self.objects[i].display_name),
                    self.objects[i].table_resolved_name,
                );
            }
            i += 1;
        }
        (None, false)
    }

    fn link_hp_handle_to_best_path(
        &mut self,
        kind: ObjectHandleKind,
        handle: &str,
        timestamp: i64,
    )
        ensures
            final(self)@ == linked_to_best(old(self)@, kind, handle@, timestamp),
    {
        let ghost before = self@;
        let paths = self.strong_targetish_paths_near(timestamp);
        let ghost found = text::texts(paths@);
        assert(found.len() == paths@.len());
        let me: usize = self.position(kind, handle);
        if paths.len() == 0 || me >= self.objects.len() {
            return;
        }
        if paths.len() > 1 {
            let object = self.take_out(me);
            let marked = mark_ambiguous_path_link(object, &paths);
            self.put_in(me, marked);
            assert(before.remove(me as int).insert(me as int, marked@) =~= before.update(
                me as int,
                marked@,
            ));
            return;
        }
        if !self.only_of_kind(kind, timestamp, me) {
            return;
        }
        let path = paths[0].as_str();
        assert(found[0] == path@);
        let (display_name, resolved) = self.name_of_path(path);
        let object = self.take_out(me);
        let joined = apply_path_link(object, path, display_name, resolved, false);
        self.put_in(me, joined);
        assert(before.remove(me as int).insert(me as int, joined@) =~= before.update(
            me as int,
            joined@,
        ));
    }

    fn observe_hp_update(
        &mut self,
        timestamp: i64,
        kind: ObjectHandleKind,
        handle: String,
        current_hp: i64,
        max_hp: Option<i64>,
        evidence: String,
        initial: u32,
        observed: u32,
    ) -> (key: String)
        ensures
            key@ == key_of(kind, handle@),
            final(self)@ == hp_observed(
                old(self)@,
                kind,
                handle@,
                timestamp,
                current_hp,
                max_hp,
                evidence@,
                initial,
                observed,
            ),
            final(self)@.len() <= MAX_OBJECTS,
    {
        let ghost s = self@;
        let key = object_key(kind, handle.as_str());
        let me: usize = self.position(kind, handle.as_str());
        let known = me < self.objects.len();
        let object = if known {
            self.take_out(me)
        } else {
            let mut fresh_object = blank_object(kind, handle.clone(), timestamp, initial);
            fresh_object.hp_max = max_hp;
            fresh_object
        };
        let ghost before = object@;
        assert(!known ==> before =~= (ObjectView {
            hp_max: max_hp,
            ..new_object(kind, handle@, timestamp, initial)
        }));
        let reset = is_new_hp_encounter(&object, timestamp, current_hp);
        let after = observed_hp(
            object,
            timestamp,
            current_hp,
            max_hp,
            evidence,
            initial,
            observed,
        );
        let ghost after_view = after@;
        let dead_path = if current_hp <= ONE_HP {
            clone_opt(&after.object_path)
        } else {
            None
        };
        self.put_in(me, after);
        let ghost entered = self@;
        assert(entered =~= if known {
            s.update(me as int, after_view)
        } else {
            s.push(after_view)
        });
        match dead_path {
            Some(path) => self.remove_path_only_objects_for_path(path.as_str()),
            None => {},
        }
        if (kind == ObjectHandleKind::AttributeGuid || kind
            == ObjectHandleKind::NetRefHandleCandidate) && !reset && current_hp > ONE_HP {
            self.link_hp_handle_to_best_path(kind, handle.as_str(), timestamp);
        }
        self.cleanup(timestamp);
        key
    }

    /// Takes in the hit points of the boss with the id.
    pub fn observe_hp_guid_update(
        &mut self,
        timestamp: i64,
        guid: &[u8],
        current_hp: i64,
        max_hp: Option<i64>,
        evidence: String,
    ) -> (key: String)
        ensures
            key@ == key_of(ObjectHandleKind::AttributeGuid, hexadecimal::hex_text(guid@)),
            final(self)@ == hp_observed(
                old(self)@,
                ObjectHandleKind::AttributeGuid,
                hexadecimal::hex_text(guid@),
                timestamp,
                current_hp,
                max_hp,
                evidence@,
                BOSS_INITIAL_CONFIDENCE,
                BOSS_OBSERVED_CONFIDENCE,
            ),
            final(self)@.len() <= MAX_OBJECTS,
    {
        let handle = hexadecimal::encode(guid);
        self.observe_hp_update(
            timestamp,
            ObjectHandleKind::AttributeGuid,
            handle,
            current_hp,
            max_hp,
            evidence,
            BOSS_INITIAL_CONFIDENCE,
            BOSS_OBSERVED_CONFIDENCE,
        )
    }

    /// Takes in the hit points of the target with the token.
    pub fn observe_net_target_hp_update(
        &mut self,
        timestamp: i64,
        source: &str,
        token: &[u8],
        current_hp: i64,
        max_hp: Option<i64>,
        evidence: String,
    ) -> (key: String)
        ensures
            key@ == key_of(
                ObjectHandleKind::NetRefHandleCandidate,
                source@ + ":"@ + hexadecimal::hex_text(token@),
            ),
            final(self)@ == hp_observed(
                old(self)@,
                ObjectHandleKind::NetRefHandleCandidate,
                source@ + ":"@ + hexadecimal::hex_text(token@),
                timestamp,
                current_hp,
                max_hp,
                evidence@,
                NET_TARGET_INITIAL_CONFIDENCE,
                NET_TARGET_OBSERVED_CONFIDENCE,
            ),
            final(self)@.len() <= MAX_OBJECTS,
    {
        let handle = text::concat3(source, ":", hexadecimal::encode(token).as_str());
        self.observe_hp_update(
            timestamp,
            ObjectHandleKind::NetRefHandleCandidate,
            handle,
            current_hp,
            max_hp,
            evidence,
            NET_TARGET_INITIAL_CONFIDENCE,
            NET_TARGET_OBSERVED_CONFIDENCE,
        )
    }
}

// --------------------------------------------------------------- paths and handles

/// How much a path candidate is trusted: by its score, within limits, and at least
/// three quarters where it is named or is one of a target.
pub open spec fn candidate_confidence(score: u16, path: Seq<char>, resolved: bool) -> u32 {
    let scaled = score as int * 20;
    if resolved || targetish_path(path) {
        TARGET_PATH_CONFIDENCE
    } else if scaled < PATH_CONFIDENCE_MIN {
        PATH_CONFIDENCE_MIN
    } else if scaled > PATH_CONFIDENCE_MAX {
        PATH_CONFIDENCE_MAX
    } else {
        scaled as u32
    }
}

fn path_candidate_confidence(score: u16, path: &str, resolved: bool) -> (r: u32)
    ensures
        r == candidate_confidence(score, path@, resolved),
{
    if resolved || is_targetish_path(path) {
        return TARGET_PATH_CONFIDENCE;
    }
    let scaled: u32 = (score as u32) * 20;
    if scaled < PATH_CONFIDENCE_MIN {
        PATH_CONFIDENCE_MIN
    } else if scaled > PATH_CONFIDENCE_MAX {
        PATH_CONFIDENCE_MAX
    } else {
        scaled
    }
}

/// What the tables make of a path that was seen: the path that is meant, whether
/// it has a name, and the name under which it is shown.
#[verifier::ext_equal]
pub struct Sighting {
    pub path: Seq<char>,
    pub resolved: bool,
    pub display_name: Option<Seq<char>>,
}

/// The path itself is meant where it is no ignored one and has a name, and else
/// what the tables say it means.
pub open spec fn sighting(value: Seq<char>, index: resource_index::IndexView) -> Sighting {
    let ignored = ignored_path(value);
    let raw_resolved = !ignored && resource_index::resolved_name(index, value) is Some;
    let path = if raw_resolved {
        value
    } else {
        match resource_index::first_target(index, crate::aliases::lookup_keys(value), 0) {
            Some(t) => t,
            None => value,
        }
    };
    let alias = path != value && !ignored_path(path) && resource_index::resolved_name(
        index,
        path,
    ) is Some;
    Sighting {
        path,
        resolved: !ignored_path(path) && (!ignored || alias) && (resource_index::resolved_name(
            index,
            path,
        ) is Some || raw_resolved),
        display_name: match resource_index::display_name(index, path) {
            Some(n) => Some(n),
            None => resource_index::display_name(index, value),
        },
    }
}

/// The path of a class, where it is one.
pub open spec fn class_path_of(path: Seq<char>, known: Option<Seq<char>>) -> Option<Seq<char>> {
    if text::contains(path, "/Game/"@) {
        Some(path)
    } else {
        known
    }
}

pub open spec fn either(a: Option<Seq<char>>, b: Option<Seq<char>>) -> Option<Seq<char>> {
    match a {
        Some(x) => Some(x),
        None => b,
    }
}

/// The path's object with one more sighting.
pub open spec fn with_sighting(
    object: ObjectView,
    timestamp: i64,
    seen: Sighting,
    confidence: u32,
    evidence: Seq<char>,
) -> ObjectView {
    ObjectView {
        last_seen_at: timestamp,
        confidence: larger(object.confidence, confidence),
        object_path: Some(seen.path),
        table_resolved_name: object.table_resolved_name || seen.resolved,
        class_path: class_path_of(seen.path, object.class_path),
        display_name: either(object.display_name, seen.display_name),
        evidence: with_evidence(object.evidence, evidence),
        ..object
    }
}

/// The evidence of a sighting.
pub open spec fn sighting_evidence(candidate: PathCandidate) -> Seq<char> {
    "path_candidate:"@ + candidate.value@ + "@"@ + text::dec(candidate.byte_offset as nat) + ":"@
        + text::dec(candidate.bit_shift as nat)
}

/// The objects with `object` in place of the one with its handle, or as a new one.
pub open spec fn entered(s: Seq<ObjectView>, at: int, object: ObjectView) -> Seq<ObjectView> {
    if at < s.len() {
        s.update(at, object)
    } else {
        s.push(object)
    }
}

pub open spec fn object_or_new(
    s: Seq<ObjectView>,
    at: int,
    kind: ObjectHandleKind,
    handle: Seq<char>,
    timestamp: i64,
    confidence: u32,
) -> ObjectView {
    if at < s.len() {
        s[at]
    } else {
        new_object(kind, handle, timestamp, confidence)
    }
}

/// The objects after a path has been seen.
pub open spec fn path_observed(
    s: Seq<ObjectView>,
    timestamp: i64,
    candidate: PathCandidate,
    index: resource_index::IndexView,
) -> Seq<ObjectView> {
    let value = candidate.value@;
    let seen = sighting(value, index);
    let confidence = candidate_confidence(candidate.score, seen.path, seen.resolved);
    let at = find_object(s, ObjectHandleKind::PathOnly, value, 0);
    let object = with_sighting(
        object_or_new(s, at, ObjectHandleKind::PathOnly, value, timestamp, confidence),
        timestamp,
        seen,
        confidence,
        sighting_evidence(candidate),
    );
    cleaned(linked_to_single(entered(s, at, object), timestamp, seen.path, index), timestamp)
}

/// How much a handle beside a path is trusted.
pub open spec fn handle_confidence(score: u16) -> u32 {
    let scaled = score as int * 20;
    if scaled < HANDLE_CONFIDENCE_MIN {
        HANDLE_CONFIDENCE_MIN
    } else if scaled > HANDLE_CONFIDENCE_MAX {
        HANDLE_CONFIDENCE_MAX
    } else {
        scaled as u32
    }
}

/// The handle's object with the path that stands beside the handle. Another path
/// than the known one is only noted.
pub open spec fn with_anchor(
    object: ObjectView,
    timestamp: i64,
    path: Seq<char>,
    index: resource_index::IndexView,
    evidence: Seq<char>,
    confidence: u32,
) -> ObjectView {
    let seen = ObjectView {
        last_seen_at: timestamp,
        confidence: larger(object.confidence, confidence),
        ..object
    };
    let anchored = if object.object_path is Some && object.object_path != Some(path) {
        ObjectView {
            evidence: with_evidence(object.evidence, "conflicting_path_anchor:"@ + path),
            ..seen
        }
    } else {
        ObjectView {
            object_path: Some(path),
            class_path: class_path_of(path, object.class_path),
            display_name: either(object.display_name, resource_index::display_name(index, path)),
            table_resolved_name: object.table_resolved_name || resource_index::resolved_name(
                index,
                path,
            ) is Some,
            ..seen
        }
    };
    ObjectView { evidence: with_evidence(anchored.evidence, evidence), ..anchored }
}

/// The boss can be linked by a gameplay effect: it lives and was seen nearby.
pub open spec fn active_boss(object: ObjectView, timestamp: i64) -> bool {
    &&& object.handle_kind == ObjectHandleKind::AttributeGuid
    &&& object.hp_current is Some
    &&& object.hp_current.unwrap() > ONE_HP
    &&& object.dead_at is None
    &&& apart(timestamp, object.last_seen_at) <= GAMEPLAY_EFFECT_PATH_LINK_WINDOW
}

pub open spec fn active_bosses(s: Seq<ObjectView>, timestamp: i64) -> Seq<int> {
    positions(s, |o: ObjectView| active_boss(o, timestamp), s.len() as int)
}

/// The path can link a boss.
pub open spec fn links_boss(path: Seq<char>, index: resource_index::IndexView) -> bool {
    !ignored_path(path) && resource_index::resolved_name(index, path) is Some
}

/// The only living boss nearby, linked to the path.
pub open spec fn linked_boss(
    object: ObjectView,
    path: Seq<char>,
    index: resource_index::IndexView,
    evidence: Seq<char>,
) -> ObjectView {
    linked(
        ObjectView { evidence: with_evidence(object.evidence, evidence), ..object },
        path,
        resource_index::display_name(index, path),
        true,
        false,
    )
}

/// The object without what it was taken for.
pub open spec fn identity_cleared(object: ObjectView, timestamp: i64, evidence: Seq<char>) -> ObjectView {
    ObjectView {
        class_path: None,
        object_path: None,
        display_name: None,
        table_resolved_name: false,
        confidence: if object.confidence < CLEARED_CONFIDENCE {
            object.confidence
        } else {
            CLEARED_CONFIDENCE
        },
        dead_at: None,
        last_seen_at: timestamp,
        evidence: with_evidence(object.evidence, evidence),
        ..object
    }
}

fn sighting_of(candidate: &PathCandidate, resources: &ResourceIndex) -> (r: (
    String,
    bool,
    Option<String>,
))
    ensures
        (Sighting { path: r.0@, resolved: r.1, display_name: text::opt_text(r.2) }) == sighting(
            candidate.value@,
            resources@,
        ),
{
    let value = candidate.value.as_str();
    let ignored = is_ignored_non_target_path(value);
    let raw_resolved = !ignored && resources.resolved_name_for_path(value).is_some();
    let path = if raw_resolved {
        candidate.value.clone()
    } else {
        match resources.canonical_target_path_for_path(value) {
            Some(t) => t,
            None => candidate.value.clone(),
        }
    };
    let path_ignored = is_ignored_non_target_path(path.as_str());
    let path_resolved = resources.resolved_name_for_path(path.as_str()).is_some();
    let alias = !text::same_str(path.as_str(), value) && !path_ignored && path_resolved;
    let resolved = !path_ignored && (!ignored || alias) && (path_resolved || raw_resolved);
    let display_name = match resources.display_name_for_path(path.as_str()) {
        Some(n) => Some(n),
        None => resources.display_name_for_path(value),
    };
    (path, resolved, display_name)
}

fn evidence_of_sighting(candidate: &PathCandidate) -> (out: String)
    ensures
        out@ == sighting_evidence(*candidate),
{
    let mut out = text::concat3("path_candidate:", candidate.value.as_str(), "@");
    out.append(text::dec_string(candidate.byte_offset as u64).as_str());
    out.append(":");
    out.append(text::dec_string(candidate.bit_shift as u64).as_str());
    out
}

fn is_active_boss(object: &ObjectDescriptor, timestamp: i64) -> (r: bool)
    ensures
        r == active_boss(object@, timestamp),
{
    object.handle_kind == ObjectHandleKind::AttributeGuid && match object.hp_current {
        Some(hp) => hp > ONE_HP,
        None => false,
    } && object.dead_at.is_none() && within(
        timestamp,
        object.last_seen_at,
        GAMEPLAY_EFFECT_PATH_LINK_WINDOW,
    )
}

fn same_option(a: &Option<String>, b: &Option<String>) -> (r: bool)
    ensures
        r == (text::opt_text(*a) == text::opt_text(*b)),
{
    match (a, b) {
        (Some(x), Some(y)) => text::same_str(x.as_str(), y.as_str()),
        (None, None) => true,
        _ => false,
    }
}

impl ObjectStateStore {
    fn take_or_new(
        &mut self,
        at: usize,
        kind: ObjectHandleKind,
        handle: &str,
        timestamp: i64,
        confidence: u32,
    ) -> (object: ObjectDescriptor)
        requires
            at <= old(self)@.len(),
        ensures
            object@ == object_or_new(
                old(self)@,
                at as int,
                kind,
                handle@,
                timestamp,
                confidence,
            ),
            final(self)@ == if at < old(self)@.len() {
                old(self)@.remove(at as int)
            } else {
                old(self)@
            },
    {
        if at < self.objects.len() {
            self.take_out(at)
        } else {
            blank_object(kind, handle.to_owned(), timestamp, confidence)
        }
    }

    /// Takes in a path that was seen.
    pub fn observe_path_candidate(
        &mut self,
        timestamp: i64,
        candidate: &PathCandidate,
        resources: &ResourceIndex,
    ) -> (key: String)
        ensures
            key@ == key_of(ObjectHandleKind::PathOnly, candidate.value@),
            final(self)@ == path_observed(old(self)@, timestamp, *candidate, resources@),
            final(self)@.len() <= MAX_OBJECTS,
    {
        let ghost s = self@;
        let value = candidate.value.as_str();
        let key = object_key(ObjectHandleKind::PathOnly, value);
        let (path, resolved, display_name) = sighting_of(candidate, resources);
        let ghost seen = sighting(value@, resources@);
        let confidence: u32 = path_candidate_confidence(candidate.score, path.as_str(), resolved);
        let at: usize = self.position(ObjectHandleKind::PathOnly, value);
        let mut object = self.take_or_new(
            at,
            ObjectHandleKind::PathOnly,
            value,
            timestamp,
            confidence,
        );
        let ghost before = object@;
        object.last_seen_at = timestamp;
        object.confidence = max_of(object.confidence, confidence);
        object.object_path = Some(path.clone());
        object.table_resolved_name = object.table_resolved_name || resolved;
        if text::has(&text::chars_of(path.as_str()), "/Game/") {
            object.class_path = Some(path.clone());
        }
        if object.display_name.is_none() {
            object.display_name = display_name;
        }
        push_unique_evidence(&mut object.evidence, evidence_of_sighting(candidate));
        assert(object@ =~= with_sighting(
            before,
            timestamp,
            seen,
            confidence,
            sighting_evidence(*candidate),
        ));
        let ghost object_view = object@;
        self.put_in(at, object);
        assert(self@ =~= entered(s, at as int, object_view));
        self.link_path_to_single_hp_handle(timestamp, path.as_str(), resources);
        self.cleanup(timestamp);
        key
    }

    /// Takes in a handle that was seen.
    pub fn observe_possible_handle(
        &mut self,
        timestamp: i64,
        handle_kind: ObjectHandleKind,
        handle: String,
        evidence: String,
    ) -> (key: String)
        ensures
            key@ == key_of(handle_kind, handle@),
            final(self)@ == ({
                let s = old(self)@;
                let at = find_object(s, handle_kind, handle@, 0);
                let o = object_or_new(s, at, handle_kind, handle@, timestamp, HANDLE_CONFIDENCE_MIN);
                cleaned(
                    entered(
                        s,
                        at,
                        ObjectView {
                            last_seen_at: timestamp,
                            evidence: with_evidence(o.evidence, evidence@),
                            ..o
                        },
                    ),
                    timestamp,
                )
            }),
            final(self)@.len() <= MAX_OBJECTS,
    {
        let ghost s = self@;
        let key = object_key(handle_kind, handle.as_str());
        let at: usize = self.position(handle_kind, handle.as_str());
        let mut object = self.take_or_new(at, handle_kind, handle.as_str(), timestamp, HANDLE_CONFIDENCE_MIN);
        object.last_seen_at = timestamp;
        push_unique_evidence(&mut object.evidence, evidence);
        let ghost object_view = object@;
        self.put_in(at, object);
        assert(self@ =~= entered(s, at as int, object_view));
        self.cleanup(timestamp);
        key
    }

    /// Takes in a handle that was seen beside a path.
    pub fn observe_path_handle_candidate(
        &mut self,
        timestamp: i64,
        handle_kind: ObjectHandleKind,
        handle: String,
        path: &str,
        resources: &ResourceIndex,
        evidence: String,
        score: u16,
    ) -> (key: String)
        ensures
            key@ == key_of(handle_kind, handle@),
            final(self)@ == ({
                let s = old(self)@;
                let at = find_object(s, handle_kind, handle@, 0);
                let confidence = handle_confidence(score);
                let o = object_or_new(s, at, handle_kind, handle@, timestamp, confidence);
                cleaned(
                    entered(
                        s,
                        at,
                        with_anchor(o, timestamp, path@, resources@, evidence@, confidence),
                    ),
                    timestamp,
                )
            }),
            final(self)@.len() <= MAX_OBJECTS,
    {
        let ghost s = self@;
        let key = object_key(handle_kind, handle.as_str());
        let scaled: u32 = (score as u32) * 20;
        let confidence: u32 = if scaled < HANDLE_CONFIDENCE_MIN {
            HANDLE_CONFIDENCE_MIN
        } else if scaled > HANDLE_CONFIDENCE_MAX {
            HANDLE_CONFIDENCE_MAX
        } else {
            scaled
        };
        let resolved = resources.resolved_name_for_path(path).is_some();
        let display_name = resources.display_name_for_path(path);
        let at: usize = self.position(handle_kind, handle.as_str());
        let mut object = self.take_or_new(at, handle_kind, handle.as_str(), timestamp, confidence);
        let ghost before = object@;
        object.last_seen_at = timestamp;
        object.confidence = max_of(object.confidence, confidence);
        if object.object_path.is_some() && !same_path(&object.object_path, path) {
            push_unique_evidence(
                &mut object.evidence,
                text::concat2("conflicting_path_anchor:", path),
            );
        } else {
            object.object_path = Some(path.to_owned());
            if text::has(&text::chars_of(path), "/Game/") {
                object.class_path = Some(path.to_owned());
            }
            if object.display_name.is_none() {
                object.display_name = display_name;
            }
            object.table_resolved_name = object.table_resolved_name || resolved;
        }
        push_unique_evidence(&mut object.evidence, evidence);
        assert(object@ =~= with_anchor(
            before,
            timestamp,
            path@,
            resources@,
            evidence@,
            confidence,
        ));
        let ghost object_view = object@;
        self.put_in(at, object);
        assert(self@ =~= entered(s, at as int, object_view));
        self.cleanup(timestamp);
        key
    }

    fn single_active_boss(&self, timestamp: i64) -> (r: Option<usize>)
        ensures
            match r {
                Some(me) => active_bosses(self@, timestamp) == seq![me as int] && me < self@.len(),
                None => active_bosses(self@, timestamp).len() != 1,
            },
    {
        let mut count: usize = 0;
        let mut last: usize = 0;
        let mut i: usize = 0;
        while i < self.objects.len()
            invariant
                i <= self.objects.len(),
                count <= i,
                count == positions(
                    self@,
                    |o: ObjectView| active_boss(o, timestamp),
                    i as int,
                ).len(),
                count > 0 ==> last < i && last == positions(
                    self@,
                    |o: ObjectView| active_boss(o, timestamp),
                    i as int,
                ).last(),
            decreases self.objects.len() - i,
        {
            assert(self@[i as int] == self.objects@[i as int]@);
            if is_active_boss(&self.objects[i], timestamp) {
                count += 1;
                last = i;
            }
            i += 1;
        }
        if count == 1 {
            assert(active_bosses(self@, timestamp) =~= seq![last as int]);
            Some(last)
        } else {
            None
        }
    }

    /// Links the only living boss nearby to the path, and tells whether that changed
    /// the boss's path or name.
    pub fn link_unique_active_boss_hp_handle_to_path(
        &mut self,
        timestamp: i64,
        path: &str,
        resources: &ResourceIndex,
        evidence: String,
    ) -> (changed: bool)
        ensures
            links_boss(path@, resources@) && active_bosses(old(self)@, timestamp).len() == 1 ==> {
                let me = active_bosses(old(self)@, timestamp)[0];
                let before = old(self)@[me];
                let after = linked_boss(before, path@, resources@, evidence@);
                &&& final(self)@ == old(self)@.update(me, after)
                &&& changed == (after.object_path != before.object_path || after.display_name
                    != before.display_name)
            },
            !(links_boss(path@, resources@) && active_bosses(old(self)@, timestamp).len() == 1)
                ==> !changed && final(self)@ == old(self)@,
    {
        let ghost s = self@;
        if is_ignored_non_target_path(path) || resources.resolved_name_for_path(path).is_none() {
            return false;
        }
        let me: usize = match self.single_active_boss(timestamp) {
            Some(me) => me,
            None => {
                return false;
            },
        };
        let display_name = resources.display_name_for_path(path);
        let mut object = self.take_out(me);
        let before_path = clone_opt(&object.object_path);
        let before_name = clone_opt(&object.display_name);
        push_unique_evidence(&mut object.evidence, evidence);
        assert(object@ =~= (ObjectView {
            evidence: with_evidence(s[me as int].evidence, evidence@),
            ..s[me as int]
        }));
        let joined = apply_path_link(object, path, display_name, true, false);
        let changed = !same_option(&joined.object_path, &before_path) || !same_option(
            &joined.display_name,
            &before_name,
        );
        let ghost joined_view = joined@;
        self.put_in(me, joined);
        assert(s.remove(me as int).insert(me as int, joined_view) =~= s.update(
            me as int,
            joined_view,
        ));
        changed
    }

    /// Forgets what the object with the handle was taken for, and tells whether
    /// there is one.
    pub fn clear_handle_identity(
        &mut self,
        timestamp: i64,
        handle_kind: ObjectHandleKind,
        handle: &str,
        evidence: String,
    ) -> (found: bool)
        ensures
            found == (find_object(old(self)@, handle_kind, handle@, 0) < old(self)@.len()),
            !found ==> final(self)@ == old(self)@,
            found ==> {
                let me = find_object(old(self)@, handle_kind, handle@, 0);
                let before = old(self)@[me];
                let changed = old(self)@.update(me, identity_cleared(before, timestamp, evidence@));
                final(self)@ == match before.object_path {
                    Some(path) => without_path(changed, path),
                    None => changed,
                }
            },
    {
        let ghost s = self@;
        let me: usize = self.position(handle_kind, handle);
        if me >= self.objects.len() {
            return false;
        }
        let mut object = self.take_out(me);
        let old_path = object.object_path;
        object.class_path = None;
        object.object_path = None;
        object.display_name = None;
        object.table_resolved_name = false;
        if object.confidence > CLEARED_CONFIDENCE {
            object.confidence = CLEARED_CONFIDENCE;
        }
        object.dead_at = None;
        object.last_seen_at = timestamp;
        push_unique_evidence(&mut object.evidence, evidence);
        assert(object@ =~= identity_cleared(s[me as int], timestamp, evidence@));
        let ghost object_view = object@;
        self.put_in(me, object);
        assert(s.remove(me as int).insert(me as int, object_view) =~= s.update(
            me as int,
            object_view,
        ));
        match old_path {
            Some(path) => self.remove_path_only_objects_for_path(path.as_str()),
            None => {},
        }
        true
    }
}

// ----------------------------------------------------------------------- queries

/// The contents of references to objects.
pub open spec fn ref_views(v: Seq<&ObjectDescriptor>) -> Seq<ObjectView> {
    v.map_values(|x: &ObjectDescriptor| x@)
}

/// The object is near the point in time.
pub open spec fn near(object: ObjectView, timestamp: i64, window: i64) -> bool {
    apart(timestamp, object.last_seen_at) <= window
}

/// Some observation within the window has the property.
pub open spec fn observed_near(history: Seq<HpView>, timestamp: i64, window: i64, dead_only: bool) -> bool {
    exists|i: int|
        0 <= i < history.len() && (dead_only ==> (#[trigger] history[i]).current <= ONE_HP)
            && apart(timestamp, history[i].timestamp) <= window
}

/// The object died within the window.
pub open spec fn recently_died(object: ObjectView, timestamp: i64, window: i64) -> bool {
    ||| object.dead_at is Some && apart(timestamp, object.dead_at.unwrap()) <= window
    ||| observed_near(object.hp_history, timestamp, window, true)
}

/// An object with the path, other than the path alone, died within the window.
pub open spec fn path_died(object: ObjectView, path: Seq<char>, timestamp: i64, window: i64) -> bool {
    &&& object.handle_kind != ObjectHandleKind::PathOnly
    &&& object.known_path() is Some
    &&& same_but_case(object.known_path().unwrap(), path)
    &&& recently_died(object, timestamp, window)
}

/// How far in time the object can be hit.
pub open spec fn damage_window(object: ObjectView) -> int {
    if object.hp_current is None && (object.table_resolved_name || (object.known_path() is Some
        && precise_path(object.known_path().unwrap()))) {
        PATH_ONLY_DAMAGE_WINDOW as int
    } else {
        DAMAGE_WINDOW as int
    }
}

/// The object has hit points, a path and a name from the tables.
pub open spec fn named_hp_target(object: ObjectView) -> bool {
    object.hp_current is Some && object.display_name is Some && object.table_resolved_name
        && object.known_path() is Some
}

/// The object died too long ago to be hit.
pub open spec fn too_long_dead(object: ObjectView, timestamp: i64) -> bool {
    object.dead_at is Some && timestamp > object.dead_at.unwrap() + DEAD_OBJECT_DAMAGE_GRACE
}

/// The object can be hit at the point in time.
pub open spec fn near_damage(object: ObjectView, timestamp: i64) -> bool {
    &&& !too_long_dead(object, timestamp)
    &&& {
        ||| apart(timestamp, object.last_seen_at) <= damage_window(object)
        ||| named_hp_target(object) && timestamp + DAMAGE_WINDOW >= object.first_seen_at
            && timestamp <= object.last_seen_at + NAMED_TARGET_DAMAGE_WINDOW
        ||| observed_near(object.hp_history, timestamp, DAMAGE_WINDOW, false)
    }
}

/// The object is a candidate for damage at the point in time.
pub open spec fn damage_candidate(object: ObjectView, timestamp: i64) -> bool {
    &&& near_damage(object, timestamp)
    &&& {
        ||| object.hp_current is Some
        ||| object.known_path() is Some && {
            let path = object.known_path().unwrap();
            (object.table_resolved_name && !ignored_path(path)) || targetish_path(path)
        }
    }
}

/// What died is no candidate for damage once its time of grace is over.
pub proof fn the_dead_are_no_candidates(object: ObjectView, timestamp: i64)
    requires
        object.dead_at is Some,
        timestamp > object.dead_at.unwrap() + DEAD_OBJECT_DAMAGE_GRACE,
    ensures
        !damage_candidate(object, timestamp),
{
}

fn path_of(object: &ObjectDescriptor) -> (r: Option<&String>)
    ensures
        match r {
            Some(p) => object@.known_path() == Some(p@),
            None => object@.known_path() is None,
        },
{
    match &object.object_path {
        Some(p) => Some(p),
        None => match &object.class_path {
            Some(p) => Some(p),
            None => None,
        },
    }
}

fn has_observation_near(
    history: &VecDeque<HpObservation>,
    timestamp: i64,
    window: i64,
    dead_only: bool,
) -> (r: bool)
    ensures
        r == observed_near(hp_views(history@), timestamp, window, dead_only),
{
    let ghost all = hp_views(history@);
    let mut i: usize = 0;
    while i < history.len()
        invariant
            i <= history@.len(),
            all == hp_views(history@),
            forall|k: int|
                0 <= k < i ==> !((dead_only ==> (#[trigger] all[k]).current <= ONE_HP) && apart(
                    timestamp,
                    all[k].timestamp,
                ) <= window),
        decreases history@.len() - i,
    {
        assert(all[i as int] == history@[i as int]@);
        if (!dead_only || history[i].current <= ONE_HP) && within(
            timestamp,
            history[i].timestamp,
            window,
        ) {
            assert(dead_only ==> all[i as int].current <= ONE_HP);
            return true;
        }
        i += 1;
    }
    false
}

fn object_recently_died(object: &ObjectDescriptor, timestamp: i64, window: i64) -> (r: bool)
    ensures
        r == recently_died(object@, timestamp, window),
{
    let marked = match object.dead_at {
        Some(at) => within(timestamp, at, window),
        None => false,
    };
    marked || has_observation_near(&object.hp_history, timestamp, window, true)
}

fn object_is_near_damage(object: &ObjectDescriptor, timestamp: i64) -> (r: bool)
    ensures
        r == near_damage(object@, timestamp),
{
    if let Some(at) = object.dead_at {
        if (timestamp as i128) > (at as i128) + (DEAD_OBJECT_DAMAGE_GRACE as i128) {
            return false;
        }
    }
    let path = path_of(object);
    let precise = match path {
        Some(p) => is_precise_target_path(p.as_str()),
        None => false,
    };
    let window: i64 = if object.hp_current.is_none() && (object.table_resolved_name || precise) {
        PATH_ONLY_DAMAGE_WINDOW
    } else {
        DAMAGE_WINDOW
    };
    if within(timestamp, object.last_seen_at, window) {
        return true;
    }
    if object.hp_current.is_some() && object.display_name.is_some() && object.table_resolved_name
        && path.is_some() && (timestamp as i128) + (DAMAGE_WINDOW as i128) >= (
    object.first_seen_at as i128) && (timestamp as i128) <= (object.last_seen_at as i128) + (
    NAMED_TARGET_DAMAGE_WINDOW as i128) {
        return true;
    }
    has_observation_near(&object.hp_history, timestamp, DAMAGE_WINDOW, false)
}

fn is_damage_candidate(object: &ObjectDescriptor, timestamp: i64) -> (r: bool)
    ensures
        r == damage_candidate(object@, timestamp),
{
    if !object_is_near_damage(object, timestamp) {
        return false;
    }
    if object.hp_current.is_some() {
        return true;
    }
    match path_of(object) {
        Some(p) => (object.table_resolved_name && !is_ignored_non_target_path(p.as_str()))
            || is_targetish_path(p.as_str()),
        None => false,
    }
}

impl ObjectStateStore {
    /// The objects near the point in time.
    pub fn objects_near_time(&self, timestamp: i64, window: i64) -> (out: Vec<&ObjectDescriptor>)
        ensures
            ref_views(out@) == kept(
                self@,
                |o: ObjectView| near(o, timestamp, window),
                self@.len() as int,
            ),
    {
        let mut out: Vec<&ObjectDescriptor> = Vec::new();
        let mut i: usize = 0;
        assert(ref_views(out@) =~= kept(self@, |o: ObjectView| near(o, timestamp, window), 0));
        while i < self.objects.len()
            invariant
                i <= self.objects.len(),
                ref_views(out@) == kept(
                    self@,
                    |o: ObjectView| near(o, timestamp, window),
                    i as int,
                ),
            decreases self.objects.len() - i,
        {
            let object = &self.objects[i];
            assert(self@[i as int] == object@);
            let ghost before = ref_views(out@);
            if within(timestamp, object.last_seen_at, window) {
                out.push(object);
                assert(ref_views(out@) =~= before.push(object@));
            }
            i += 1;
        }
        out
    }

    /// Whether an object with the path died near the point in time.
    pub fn path_recently_died(&self, path: &str, timestamp: i64, window: i64) -> (r: bool)
        ensures
            r == (exists|i: int|
                0 <= i < self@.len() && #[trigger] path_died(self@[i], path@, timestamp, window)),
    {
        let mut i: usize = 0;
        while i < self.objects.len()
            invariant
                i <= self.objects.len(),
                forall|k: int|
                    0 <= k < i ==> !#[trigger] path_died(self@[k], path@, timestamp, window),
            decreases self.objects.len() - i,
        {
            let object = &self.objects[i];
            assert(self@[i as int] == object@);
            if object.handle_kind != ObjectHandleKind::PathOnly {
                if let Some(p) = path_of(object) {
                    if lower_equal(p.as_str(), path) && object_recently_died(
                        object,
                        timestamp,
                        window,
                    ) {
                        assert(path_died(self@[i as int], path@, timestamp, window));
                        return true;
                    }
                }
            }
            assert(!path_died(self@[i as int], path@, timestamp, window));
            i += 1;
        }
        false
    }

    /// The candidates for damage at the point in time.
    pub fn candidates_for_damage(&self, timestamp: i64) -> (out: Vec<&ObjectDescriptor>)
        ensures
            ref_views(out@) == kept(
                self@,
                |o: ObjectView| damage_candidate(o, timestamp),
                self@.len() as int,
            ),
    {
        let mut out: Vec<&ObjectDescriptor> = Vec::new();
        let mut i: usize = 0;
        assert(ref_views(out@) =~= kept(self@, |o: ObjectView| damage_candidate(o, timestamp), 0));
        while i < self.objects.len()
            invariant
                i <= self.objects.len(),
                ref_views(out@) == kept(
                    self@,
                    |o: ObjectView| damage_candidate(o, timestamp),
                    i as int,
                ),
            decreases self.objects.len() - i,
        {
            let object = &self.objects[i];
            assert(self@[i as int] == object@);
            let ghost before = ref_views(out@);
            if is_damage_candidate(object, timestamp) {
                out.push(object);
                assert(ref_views(out@) =~= before.push(object@));
            }
            i += 1;
        }
        out
    }
}

// -------------------------------------------------------------------------- laws

/// The store is in order: no two objects have one handle, and no object keeps more
/// than it may.
pub open spec fn in_order(s: Seq<ObjectView>) -> bool {
    distinct_handles(s) && forall|i: int| 0 <= i < s.len() ==> (#[trigger] s[i]).bounded()
}

/// The object keeps its handle, and no more than it may.
pub open spec fn same_handle(a: ObjectView, b: ObjectView) -> bool {
    a.handle_kind == b.handle_kind && a.handle == b.handle && b.bounded()
}

proof fn lemma_linked_keeps(
    o: ObjectView,
    path: Seq<char>,
    name: Option<Seq<char>>,
    resolved: bool,
    allow: bool,
)
    requires
        o.bounded(),
    ensures
        same_handle(o, linked(o, path, name, resolved, allow)),
{
    let note = "conflicting_path_link:"@ + path;
    evidence_stays_bounded_and_distinct(o.evidence, note);
    evidence_stays_bounded_and_distinct(o.evidence, "linked_path:"@ + path);
    evidence_stays_bounded_and_distinct(with_evidence(o.evidence, note), "linked_path:"@ + path);
}

proof fn lemma_ambiguous_evidence(evidence: Seq<Seq<char>>, paths: Seq<Seq<char>>, n: int)
    requires
        evidence.len() <= MAX_EVIDENCE_PER_OBJECT,
        evidence.no_duplicates(),
    ensures
        with_ambiguous_paths(evidence, paths, n).len() <= MAX_EVIDENCE_PER_OBJECT,
        with_ambiguous_paths(evidence, paths, n).no_duplicates(),
    decreases n,
{
    if n > 0 {
        lemma_ambiguous_evidence(evidence, paths, n - 1);
        evidence_stays_bounded_and_distinct(
            with_ambiguous_paths(evidence, paths, n - 1),
            "ambiguous_path:"@ + paths[n - 1],
        );
    }
}

proof fn lemma_ambiguous_keeps(o: ObjectView, paths: Seq<Seq<char>>)
    requires
        o.bounded(),
    ensures
        same_handle(o, ambiguous(o, paths)),
{
    let note = "ambiguous_path_link:"@ + text::dec(paths.len());
    evidence_stays_bounded_and_distinct(o.evidence, note);
    lemma_ambiguous_evidence(
        with_evidence(o.evidence, note),
        paths,
        if paths.len() < 3 {
            paths.len() as int
        } else {
            3
        },
    );
}

proof fn lemma_hp_keeps(
    o: ObjectView,
    timestamp: i64,
    current_hp: i64,
    max_hp: Option<i64>,
    evidence: Seq<char>,
    initial: u32,
    observed: u32,
)
    requires
        o.bounded(),
    ensures
        same_handle(o, with_hp(o, timestamp, current_hp, max_hp, evidence, initial, observed)),
{
    let known = if new_encounter(o, timestamp, current_hp) {
        reset_object(o, timestamp, current_hp, max_hp, initial)
    } else {
        o
    };
    evidence_stays_bounded_and_distinct(known.evidence, evidence);
}

proof fn lemma_update_keeps_order(s: Seq<ObjectView>, at: int, o: ObjectView)
    requires
        in_order(s),
        0 <= at < s.len(),
        same_handle(s[at], o),
    ensures
        in_order(s.update(at, o)),
{
    let t = s.update(at, o);
    assert forall|i: int, j: int| 0 <= i < j < t.len() implies !((#[trigger] t[i]).handle_kind == (
    #[trigger] t[j]).handle_kind && t[i].handle == t[j].handle) by {
        assert(s[i].handle_kind == t[i].handle_kind && s[i].handle == t[i].handle);
        assert(s[j].handle_kind == t[j].handle_kind && s[j].handle == t[j].handle);
    }
}

proof fn lemma_find_object(s: Seq<ObjectView>, kind: ObjectHandleKind, handle: Seq<char>, i: int)
    requires
        0 <= i <= s.len(),
    ensures
        i <= find_object(s, kind, handle, i) <= s.len(),
        find_object(s, kind, handle, i) < s.len() ==> {
            let o = s[find_object(s, kind, handle, i)];
            o.handle_kind == kind && o.handle == handle
        },
        forall|k: int|
            i <= k < find_object(s, kind, handle, i) ==> !((#[trigger] s[k]).handle_kind == kind
                && s[k].handle == handle),
    decreases s.len() - i,
{
    if i < s.len() && !(s[i].handle_kind == kind && s[i].handle == handle) {
        lemma_find_object(s, kind, handle, i + 1);
    }
}

proof fn lemma_entered_keeps_order(
    s: Seq<ObjectView>,
    kind: ObjectHandleKind,
    handle: Seq<char>,
    o: ObjectView,
)
    requires
        in_order(s),
        o.handle_kind == kind,
        o.handle == handle,
        o.bounded(),
    ensures
        in_order(entered(s, find_object(s, kind, handle, 0), o)),
{
    lemma_find_object(s, kind, handle, 0);
    let at = find_object(s, kind, handle, 0);
    if at < s.len() {
        lemma_update_keeps_order(s, at, o);
    } else {
        let t = s.push(o);
        assert forall|i: int, j: int| 0 <= i < j < t.len() implies !((#[trigger] t[i]).handle_kind
            == (#[trigger] t[j]).handle_kind && t[i].handle == t[j].handle) by {
            assert(t[i] == s[i]);
            if j < s.len() {
                assert(t[j] == s[j]);
            }
        }
    }
}

/// Every object left by `kept` comes from a position of its own.
proof fn lemma_kept_keeps_order(s: Seq<ObjectView>, has: spec_fn(ObjectView) -> bool, n: int)
    requires
        in_order(s),
        0 <= n <= s.len(),
    ensures
        in_order(kept(s, has, n)),
        forall|i: int|
            0 <= i < kept(s, has, n).len() ==> exists|k: int|
                0 <= k < n && s[k] == #[trigger] kept(s, has, n)[i],
    decreases n,
{
    if n > 0 {
        lemma_kept_keeps_order(s, has, n - 1);
        let before = kept(s, has, n - 1);
        let all = kept(s, has, n);
        assert forall|i: int| 0 <= i < all.len() implies exists|k: int|
            0 <= k < n && s[k] == #[trigger] all[i] by {
            if i < before.len() {
                assert(all[i] == before[i]);
                let k = choose|k: int| 0 <= k < n - 1 && s[k] == before[i];
                assert(s[k] == all[i]);
            } else {
                assert(s[n - 1] == all[i]);
            }
        }
        assert forall|i: int, j: int| 0 <= i < j < all.len() implies !((
        #[trigger] all[i]).handle_kind == (#[trigger] all[j]).handle_kind && all[i].handle
            == all[j].handle) by {
            assert(all[i] == before[i]);
            if j < before.len() {
                assert(all[j] == before[j]);
            } else {
                let k = choose|k: int| 0 <= k < n - 1 && s[k] == before[i];
                assert(s[k] == all[i]);
                assert(s[n - 1] == all[j]);
            }
        }
    }
}

proof fn lemma_oldest_bounds(s: Seq<ObjectView>, n: int)
    requires
        0 < n <= s.len(),
    ensures
        0 <= oldest(s, n) < n,
        forall|i: int| 0 <= i < n ==> s[oldest(s, n)].last_seen_at <= (#[trigger] s[i]).last_seen_at,
    decreases n,
{
    if n > 1 {
        lemma_oldest_bounds(s, n - 1);
    }
}

proof fn lemma_trimmed_keeps_order(s: Seq<ObjectView>)
    requires
        in_order(s),
    ensures
        in_order(trimmed_store(s)),
        trimmed_store(s).len() <= MAX_OBJECTS,
    decreases s.len(),
{
    if s.len() > MAX_OBJECTS {
        lemma_oldest_bounds(s, s.len() as int);
        let m = oldest(s, s.len() as int);
        let t = s.remove(m);
        assert forall|i: int, j: int| 0 <= i < j < t.len() implies !((#[trigger] t[i]).handle_kind
            == (#[trigger] t[j]).handle_kind && t[i].handle == t[j].handle) by {
            let a = if i < m {
                i
            } else {
                i + 1
            };
            let b = if j < m {
                j
            } else {
                j + 1
            };
            assert(t[i] == s[a] && t[j] == s[b]);
        }
        assert forall|i: int| 0 <= i < t.len() implies (#[trigger] t[i]).bounded() by {
            let a = if i < m {
                i
            } else {
                i + 1
            };
            assert(t[i] == s[a]);
        }
        lemma_trimmed_keeps_order(t);
    }
}

/// Cleaning up keeps the store in order, and leaves no more objects than are kept.
pub proof fn cleanup_keeps_order(s: Seq<ObjectView>, timestamp: i64)
    requires
        in_order(s),
    ensures
        in_order(cleaned(s, timestamp)),
        cleaned(s, timestamp).len() <= MAX_OBJECTS,
{
    let f = |o: ObjectView| fresh(o, timestamp);
    lemma_kept_keeps_order(s, f, s.len() as int);
    lemma_trimmed_keeps_order(kept(s, f, s.len() as int));
}

proof fn lemma_positions_bounds(s: Seq<ObjectView>, has: spec_fn(ObjectView) -> bool, n: int)
    requires
        0 <= n <= s.len(),
    ensures
        forall|i: int|
            0 <= i < positions(s, has, n).len() ==> 0 <= #[trigger] positions(s, has, n)[i] < n,
    decreases n,
{
    if n > 0 {
        lemma_positions_bounds(s, has, n - 1);
        let before = positions(s, has, n - 1);
        let all = positions(s, has, n);
        assert forall|i: int| 0 <= i < all.len() implies 0 <= #[trigger] all[i] < n by {
            if i < before.len() {
                assert(all[i] == before[i]);
            }
        }
    }
}

proof fn lemma_linked_to_best_keeps(
    s: Seq<ObjectView>,
    kind: ObjectHandleKind,
    handle: Seq<char>,
    timestamp: i64,
)
    requires
        in_order(s),
    ensures
        in_order(linked_to_best(s, kind, handle, timestamp)),
{
    let paths = strong_paths(s, timestamp, PATH_LINK_WINDOW);
    lemma_find_object(s, kind, handle, 0);
    let me = find_object(s, kind, handle, 0);
    if me < s.len() && paths.len() > 0 {
        lemma_ambiguous_keeps(s[me], paths);
        lemma_update_keeps_order(s, me, ambiguous(s[me], paths));
        let named = with_object_path(s, paths[0], 0);
        let name = match named {
            Some(o) => o.display_name,
            None => None,
        };
        let resolved = match named {
            Some(o) => o.table_resolved_name,
            None => false,
        };
        lemma_linked_keeps(s[me], paths[0], name, resolved, false);
        lemma_update_keeps_order(s, me, linked(s[me], paths[0], name, resolved, false));
    }
}

/// Hit points that are taken in keep the store in order.
pub proof fn hit_points_keep_order(
    s: Seq<ObjectView>,
    kind: ObjectHandleKind,
    handle: Seq<char>,
    timestamp: i64,
    current_hp: i64,
    max_hp: Option<i64>,
    evidence: Seq<char>,
    initial: u32,
    observed: u32,
)
    requires
        in_order(s),
    ensures
        in_order(
            hp_observed(
                s,
                kind,
                handle,
                timestamp,
                current_hp,
                max_hp,
                evidence,
                initial,
                observed,
            ),
        ),
{
    lemma_find_object(s, kind, handle, 0);
    let me = find_object(s, kind, handle, 0);
    let before = if me < s.len() {
        s[me]
    } else {
        ObjectView { hp_max: max_hp, ..new_object(kind, handle, timestamp, initial) }
    };
    assert(before.bounded());
    let after = with_hp(before, timestamp, current_hp, max_hp, evidence, initial, observed);
    lemma_hp_keeps(before, timestamp, current_hp, max_hp, evidence, initial, observed);
    lemma_entered_keeps_order(s, kind, handle, after);
    let t = entered(s, me, after);
    let cleared = if current_hp <= ONE_HP && after.object_path is Some {
        let path = after.object_path.unwrap();
        lemma_kept_keeps_order(t, |o: ObjectView| not_this_path(o, path), t.len() as int);
        without_path(t, path)
    } else {
        t
    };
    lemma_linked_to_best_keeps(cleared, kind, handle, timestamp);
    cleanup_keeps_order(linked_to_best(cleared, kind, handle, timestamp), timestamp);
    cleanup_keeps_order(cleared, timestamp);
}

/// A path that is taken in keeps the store in order.
pub proof fn sightings_keep_order(
    s: Seq<ObjectView>,
    timestamp: i64,
    candidate: PathCandidate,
    index: resource_index::IndexView,
)
    requires
        in_order(s),
    ensures
        in_order(path_observed(s, timestamp, candidate, index)),
{
    let value = candidate.value@;
    let kind = ObjectHandleKind::PathOnly;
    let seen = sighting(value, index);
    let confidence = candidate_confidence(candidate.score, seen.path, seen.resolved);
    lemma_find_object(s, kind, value, 0);
    let at = find_object(s, kind, value, 0);
    let before = object_or_new(s, at, kind, value, timestamp, confidence);
    evidence_stays_bounded_and_distinct(before.evidence, sighting_evidence(candidate));
    let object = with_sighting(before, timestamp, seen, confidence, sighting_evidence(candidate));
    lemma_entered_keeps_order(s, kind, value, object);
    let t = entered(s, at, object);
    let paths = strong_paths(t, timestamp, PATH_LINK_WINDOW);
    let f = |o: ObjectView| linkable(o, timestamp);
    let found = positions(t, f, t.len() as int);
    lemma_positions_bounds(t, f, t.len() as int);
    let joined = linked_to_single(t, timestamp, seen.path, index);
    if targetish_path(seen.path) && paths.len() > 1 {
        assert forall|i: int| 0 <= i < t.len() implies same_handle(
            t[i],
            #[trigger] joined[i],
        ) by {
            lemma_ambiguous_keeps(t[i], paths);
        }
        assert forall|i: int, j: int| 0 <= i < j < joined.len() implies !((
        #[trigger] joined[i]).handle_kind == (#[trigger] joined[j]).handle_kind && joined[i].handle
            == joined[j].handle) by {
            assert(same_handle(t[i], joined[i]) && same_handle(t[j], joined[j]));
            assert(!(t[i].handle_kind == t[j].handle_kind && t[i].handle == t[j].handle));
        }
        assert forall|i: int| 0 <= i < joined.len() implies (#[trigger] joined[i]).bounded() by {
            assert(same_handle(t[i], joined[i]));
        }
    } else if targetish_path(seen.path) && paths.len() == 1 && found.len() == 1 {
        let name = resource_index::display_name(index, paths[0]);
        let resolved = resource_index::resolved_name(index, paths[0]) is Some;
        lemma_linked_keeps(t[found[0]], paths[0], name, resolved, false);
        lemma_update_keeps_order(
            t,
            found[0],
            linked(t[found[0]], paths[0], name, resolved, false),
        );
    }
    cleanup_keeps_order(joined, timestamp);
}

proof fn lemma_kept_are_those(s: Seq<ObjectView>, has: spec_fn(ObjectView) -> bool, n: int)
    requires
        0 <= n <= s.len(),
    ensures
        forall|i: int|
            0 <= i < kept(s, has, n).len() ==> has(#[trigger] kept(s, has, n)[i]) && s.contains(
                kept(s, has, n)[i],
            ),
        forall|k: int|
            0 <= k < n && has(#[trigger] s[k]) ==> kept(s, has, n).contains(s[k]),
    decreases n,
{
    if n > 0 {
        lemma_kept_are_those(s, has, n - 1);
        let before = kept(s, has, n - 1);
        let all = kept(s, has, n);
        assert forall|i: int| 0 <= i < all.len() implies has(#[trigger] all[i]) && s.contains(
            all[i],
        ) by {
            if i < before.len() {
                assert(all[i] == before[i]);
            } else {
                assert(all[i] == s[n - 1]);
            }
        }
        assert forall|k: int| 0 <= k < n && has(#[trigger] s[k]) implies all.contains(s[k]) by {
            if k < n - 1 {
                let w = choose|w: int| 0 <= w < before.len() && before[w] == s[k];
                assert(all[w] == s[k]);
            } else {
                assert(all[all.len() - 1] == s[k]);
            }
        }
    }
}

proof fn lemma_the_oldest_go(s: Seq<ObjectView>)
    ensures
        forall|i: int|
            0 <= i < trimmed_store(s).len() ==> s.contains(#[trigger] trimmed_store(s)[i]),
        s.len() <= 512 ==> trimmed_store(s) == s,
        s.len() > 512 ==> trimmed_store(s).len() == 512,
        forall|k: int, i: int|
            0 <= k < s.len() && 0 <= i < trimmed_store(s).len() && !trimmed_store(s).contains(
                s[k],
            ) ==> (#[trigger] s[k]).last_seen_at <= (#[trigger] trimmed_store(s)[i]).last_seen_at,
    decreases s.len(),
{
    if s.len() > MAX_OBJECTS {
        let m = oldest(s, s.len() as int);
        lemma_oldest_bounds(s, s.len() as int);
        let rest = s.remove(m);
        lemma_the_oldest_go(rest);
        let t = trimmed_store(s);
        assert(t == trimmed_store(rest));
        assert forall|i: int| 0 <= i < t.len() implies s.contains(#[trigger] t[i]) by {
            let w = choose|w: int| 0 <= w < rest.len() && rest[w] == t[i];
            assert(s[if w < m {
                w
            } else {
                w + 1
            }] == t[i]);
        }
        assert forall|k: int, i: int|
            0 <= k < s.len() && 0 <= i < t.len() && !t.contains(s[k]) implies (
        #[trigger] s[k]).last_seen_at <= (#[trigger] t[i]).last_seen_at by {
            if k == m {
                assert(s.contains(t[i]));
                let w = choose|w: int| 0 <= w < s.len() && s[w] == t[i];
                assert(s[m].last_seen_at <= s[w].last_seen_at);
            } else {
                let w = if k < m {
                    k
                } else {
                    k - 1
                };
                assert(rest[w] == s[k]);
            }
        }
    }
}

/// An object stays for twenty seconds after it was seen last, and no longer; only where
/// there are more than five hundred and twelve, those that were seen first go earlier.
pub proof fn objects_stay_for_twenty_seconds(s: Seq<ObjectView>, timestamp: i64, k: int)
    requires
        0 <= k < s.len(),
    ensures
        forall|i: int|
            0 <= i < cleaned(s, timestamp).len() ==> s.contains(
                #[trigger] cleaned(s, timestamp)[i],
            ) && timestamp <= cleaned(s, timestamp)[i].last_seen_at + 20_000_000,
        timestamp <= s[k].last_seen_at + 20_000_000 ==> cleaned(s, timestamp).contains(s[k]) || (
        cleaned(s, timestamp).len() == 512 && forall|i: int|
            0 <= i < 512 ==> s[k].last_seen_at <= (
            #[trigger] cleaned(s, timestamp)[i]).last_seen_at),
{
    let f = |o: ObjectView| fresh(o, timestamp);
    let fresh_ones = kept(s, f, s.len() as int);
    lemma_kept_are_those(s, f, s.len() as int);
    lemma_the_oldest_go(fresh_ones);
    let t = cleaned(s, timestamp);
    assert forall|i: int| 0 <= i < t.len() implies s.contains(#[trigger] t[i]) && timestamp
        <= t[i].last_seen_at + 20_000_000 by {
        let w = choose|w: int| 0 <= w < fresh_ones.len() && fresh_ones[w] == t[i];
        assert(f(fresh_ones[w]));
        assert(s.contains(fresh_ones[w]));
    }
    if timestamp <= s[k].last_seen_at + 20_000_000 {
        assert(f(s[k]));
        let w = choose|w: int| 0 <= w < fresh_ones.len() && fresh_ones[w] == s[k];
        if !t.contains(s[k]) {
            assert(fresh_ones[w] == s[k]);
            if fresh_ones.len() <= 512 {
                assert(t[w] == s[k]);
            }
            assert forall|i: int| 0 <= i < 512 implies s[k].last_seen_at <= (
            #[trigger] t[i]).last_seen_at by {
                assert(fresh_ones[w].last_seen_at <= t[i].last_seen_at);
            }
        }
    }
}

/// What shows that an object is another one than before: it has come back from the dead,
/// or its hit points have more than tripled, by more than half a million, after two
/// seconds of silence.
pub open spec fn begins_anew(object: ObjectView, timestamp: i64, current_hp: i64) -> bool {
    object.hp_current matches Some(previous) && (current_hp > 1_000 && (previous <= 1_000
        || object.dead_at is Some) || (timestamp >= object.last_seen_at + 2_000_000 && current_hp
        > previous + 500_000_000 && current_hp > 3 * previous))
}

/// Hit points are kept as the last of at most thirty-two readings. An object dies with a
/// point or less. One that begins anew loses its path, its name and its readings, and
/// any other keeps them.
pub proof fn hit_points_tell_the_object(
    object: ObjectView,
    timestamp: i64,
    current_hp: i64,
    max_hp: Option<i64>,
    evidence: Seq<char>,
    initial: u32,
    observed: u32,
)
    requires
        object.hp_history.len() <= 32,
    ensures
        ({
            let after = with_hp(
                object,
                timestamp,
                current_hp,
                max_hp,
                evidence,
                initial,
                observed,
            );
            let n = object.hp_history.len();
            &&& after.hp_current == Some(current_hp)
            &&& after.last_seen_at == timestamp
            &&& current_hp <= 1_000 ==> after.dead_at == Some(timestamp)
            &&& current_hp > 1_000 ==> after.dead_at is None
            &&& after.hp_history.len() > 0
            &&& after.hp_history.last().timestamp == timestamp
            &&& after.hp_history.last().current == current_hp
            &&& after.hp_history.last().max == max_hp
            &&& begins_anew(object, timestamp, current_hp) ==> {
                &&& after.object_path is None && after.class_path is None
                &&& after.display_name is None && !after.table_resolved_name
                &&& after.first_seen_at == timestamp
                &&& after.hp_max == max_hp
                &&& after.hp_history.len() == 1
            }
            &&& !begins_anew(object, timestamp, current_hp) ==> {
                &&& after.object_path == object.object_path && after.class_path
                    == object.class_path
                &&& after.display_name == object.display_name && after.table_resolved_name
                    == object.table_resolved_name
                &&& after.first_seen_at == object.first_seen_at
                &&& n < 32 ==> after.hp_history.drop_last() == object.hp_history
                &&& n == 32 ==> after.hp_history.drop_last() == object.hp_history.skip(1)
                &&& object.hp_max is Some ==> after.hp_max == object.hp_max
                &&& object.hp_max is None ==> after.hp_max == max_hp
            }
            &&& after.confidence >= observed
        }),
{
    let after = with_hp(object, timestamp, current_hp, max_hp, evidence, initial, observed);
    if !begins_anew(object, timestamp, current_hp) {
        assert(!new_encounter(object, timestamp, current_hp));
        if object.hp_history.len() < 32 {
            assert(after.hp_history.drop_last() =~= object.hp_history);
        } else {
            assert(after.hp_history.drop_last() =~= object.hp_history.skip(1));
        }
    } else {
        assert(new_encounter(object, timestamp, current_hp));
    }
}

/// Two moments lie no further apart than said.
pub open spec fn close_by(a: i64, b: i64, most: int) -> bool {
    a <= b + most && b <= a + most
}

/// Damage can be to an object that was seen, or whose hit points were read, within a
/// second of it; without hit points but with a known path, within six seconds; and with
/// hit points and a known name, up to ten seconds later. It cannot be to one that has
/// been dead for more than a quarter of a second.
pub proof fn damage_is_to_what_is_near(object: ObjectView, timestamp: i64)
    ensures
        ({
            let path = if object.object_path is Some {
                object.object_path
            } else {
                object.class_path
            };
            let seen = close_by(timestamp, object.last_seen_at, 1_000_000);
            let read = exists|i: int|
                0 <= i < object.hp_history.len() && close_by(
                    timestamp,
                    (#[trigger] object.hp_history[i]).timestamp,
                    1_000_000,
                );
            let known = object.hp_current is None && (object.table_resolved_name || (path is Some
                && precise_path(path.unwrap()))) && close_by(
                timestamp,
                object.last_seen_at,
                6_000_000,
            );
            let named = object.hp_current is Some && object.display_name is Some
                && object.table_resolved_name && path is Some && object.first_seen_at <= timestamp
                + 1_000_000 && timestamp <= object.last_seen_at + 10_000_000;
            let dead = object.dead_at matches Some(t) && timestamp > t + 250_000;
            near_damage(object, timestamp) <==> !dead && (seen || read || known || named)
        }),
{
    if near_damage(object, timestamp) && observed_near(
        object.hp_history,
        timestamp,
        DAMAGE_WINDOW,
        false,
    ) {
        let i = choose|i: int|
            0 <= i < object.hp_history.len() && (false ==> (
            #[trigger] object.hp_history[i]).current <= ONE_HP) && apart(
                timestamp,
                object.hp_history[i].timestamp,
            ) <= DAMAGE_WINDOW;
        assert(close_by(timestamp, object.hp_history[i].timestamp, 1_000_000));
    }
    if exists|i: int|
        0 <= i < object.hp_history.len() && close_by(
            timestamp,
            (#[trigger] object.hp_history[i]).timestamp,
            1_000_000,
        ) {
        let i = choose|i: int|
            0 <= i < object.hp_history.len() && close_by(
                timestamp,
                (#[trigger] object.hp_history[i]).timestamp,
                1_000_000,
            );
        assert(apart(timestamp, object.hp_history[i].timestamp) <= DAMAGE_WINDOW);
    }
}

/// A boss is in the fight while it has more than a point left, is not dead, and was seen
/// within ten seconds.
pub proof fn bosses_fight_while_they_live(object: ObjectView, timestamp: i64)
    ensures
        active_boss(object, timestamp) <==> object.handle_kind == ObjectHandleKind::AttributeGuid && (
        object.hp_current matches Some(hp) && hp > 1_000) && object.dead_at is None && close_by(
            timestamp,
            object.last_seen_at,
            10_000_000,
        ),
        linkable(object, timestamp) <==> (object.handle_kind == ObjectHandleKind::AttributeGuid
            || object.handle_kind == ObjectHandleKind::NetRefHandleCandidate) && close_by(
            timestamp,
            object.last_seen_at,
            6_000_000,
        ),
{
}

/// With an object that dies, the sightings of its path are forgotten.
pub proof fn paths_go_with_what_dies(s: Seq<ObjectView>, path: Seq<char>)
    ensures
        forall|i: int|
            0 <= i < without_path(s, path).len() ==> {
                let o = #[trigger] without_path(s, path)[i];
                s.contains(o) && !(o.handle_kind == ObjectHandleKind::PathOnly && (
                o.object_path matches Some(p) && text::lower(p) == text::lower(path)))
            },
        forall|k: int|
            0 <= k < s.len() && !((#[trigger] s[k]).handle_kind == ObjectHandleKind::PathOnly && (
            s[k].object_path matches Some(p) && text::lower(p) == text::lower(path)))
                ==> without_path(s, path).contains(s[k]),
{
    let f = |o: ObjectView| not_this_path(o, path);
    lemma_kept_are_those(s, f, s.len() as int);
    assert forall|i: int| 0 <= i < without_path(s, path).len() implies {
        let o = #[trigger] without_path(s, path)[i];
        s.contains(o) && !(o.handle_kind == ObjectHandleKind::PathOnly && (
        o.object_path matches Some(p) && text::lower(p) == text::lower(path)))
    } by {
        assert(f(kept(s, f, s.len() as int)[i]));
    }
    assert forall|k: int|
        0 <= k < s.len() && !((#[trigger] s[k]).handle_kind == ObjectHandleKind::PathOnly && (
        s[k].object_path matches Some(p) && text::lower(p) == text::lower(
            path,
        ))) implies without_path(s, path).contains(s[k]) by {
        assert(f(s[k]));
    }
}

/// A path that looks like that of a target counts the same whatever its score; any other
/// counts by its score, within bounds, and so does a handle.
pub proof fn scores_count_within_bounds(score: u16, path: Seq<char>, resolved: bool)
    ensures
        resolved || targetish_path(path) ==> candidate_confidence(score, path, resolved) == 3_825,
        !resolved && !targetish_path(path) ==> 510 <= candidate_confidence(score, path, resolved)
            <= 2_295,
        !resolved && !targetish_path(path) && 510 <= 20 * score <= 2_295 ==> candidate_confidence(
            score,
            path,
            resolved,
        ) == 20 * score,
        1_275 <= handle_confidence(score) <= 2_805,
        1_275 <= 20 * score <= 2_805 ==> handle_confidence(score) == 20 * score,
{
}

/// The only object of its kind that was seen within six seconds gets the only path that
/// was seen for sure; with several such paths, nothing gets one.
pub proof fn the_only_path_goes_to_the_only_object(
    s: Seq<ObjectView>,
    kind: ObjectHandleKind,
    handle: Seq<char>,
    timestamp: i64,
    me: int,
    path: Seq<char>,
)
    requires
        distinct_handles(s),
        0 <= me < s.len(),
        s[me].handle_kind == kind,
        s[me].handle == handle,
        close_by(timestamp, s[me].last_seen_at, 6_000_000),
        s[me].object_path is None,
    ensures
        strong_paths(s, timestamp, 6_000_000) == seq![path] && (forall|k: int|
            0 <= k < s.len() && k != me && (#[trigger] s[k]).handle_kind == kind ==> !close_by(
                timestamp,
                s[k].last_seen_at,
                6_000_000,
            )) ==> linked_to_best(s, kind, handle, timestamp)[me].object_path == Some(path),
        strong_paths(s, timestamp, 6_000_000).len() != 1 ==> linked_to_best(
            s,
            kind,
            handle,
            timestamp,
        )[me].object_path is None,
{
    lemma_find_object(s, kind, handle, 0);
    let found = find_object(s, kind, handle, 0);
    assert(found == me) by {
        if found > me {
            assert(!(s[me].handle_kind == kind && s[me].handle == handle));
        }
    }
    let has = |o: ObjectView|
        o.handle_kind == kind && apart(timestamp, o.last_seen_at) <= PATH_LINK_WINDOW;
    if forall|k: int|
        0 <= k < s.len() && k != me && (#[trigger] s[k]).handle_kind == kind ==> !close_by(
            timestamp,
            s[k].last_seen_at,
            6_000_000,
        ) {
        lemma_only_position(s, has, me, s.len() as int);
    }
}

proof fn lemma_only_position(
    s: Seq<ObjectView>,
    has: spec_fn(ObjectView) -> bool,
    me: int,
    n: int,
)
    requires
        0 <= me < s.len(),
        0 <= n <= s.len(),
        has(s[me]),
        forall|k: int| 0 <= k < s.len() && k != me ==> !(has(#[trigger] s[k])),
    ensures
        n <= me ==> positions(s, has, n).len() == 0,
        n > me ==> positions(s, has, n) == seq![me],
    decreases n,
{
    if n > 0 {
        lemma_only_position(s, has, me, n - 1);
        if n - 1 == me {
            assert(positions(s, has, n) =~= seq![me]);
        }
    }
}

/// A path is none of a target where its name or where it lies says that it is an effect,
/// an ability, an animation, something dropped, or a part of the monsters' common base.
pub proof fn paths_of_other_things_are_ignored(path: Seq<char>)
    ensures
        ({
            let l = text::lower(path);
            text::contains(l, "drop_mon_"@) || text::contains(l, "/drop/"@) || text::contains(
                l,
                "/dropbox/"@,
            ) || text::contains(l, "/monsterbase/"@) || text::contains(l, "/abilities/"@)
                || text::contains(l, "/ability/"@) || text::contains(l, "/buff/"@)
                || text::contains(l, "/effect/"@) || text::contains(l, "/cooldown/"@)
                || text::contains(l, "/passiveeffect/"@) ==> ignored_path(path)
        }),
        ({
            let b = object_basename(text::lower(path));
            text::starts_with(b, "buff_"@) || text::starts_with(b, "ge_"@) || text::starts_with(
                b,
                "ga_"@,
            ) || text::starts_with(b, "drop"@) || text::contains(b, "steal_montage"@)
                || text::ends_with(b, "_montage"@) || text::contains(b, "lockhp"@)
                ==> ignored_path(path)
        }),
        ignored_path(path) ==> !targetish_path(path),
        !ignored_path(path) && text::contains(text::lower(path), "worldboss"@) ==> targetish_path(
            path,
        ) && !precise_path(path),
        !ignored_path(path) && (text::contains(text::lower(path), "enemy"@) || text::contains(
            text::lower(path),
            "npc"@,
        ) || text::contains(text::lower(path), "htcharacter"@)) ==> targetish_path(path),
{
}

/// The sighting of a path that was made for sure: of a target, near in time, and either of
/// an asset or a world boss, or with a confidence of seven tenths.
pub open spec fn surely_seen(object: ObjectView, timestamp: i64, window: i64) -> bool {
    &&& object.handle_kind == ObjectHandleKind::PathOnly
    &&& close_by(timestamp, object.last_seen_at, window as int)
    &&& object.object_path matches Some(path) && targetish_path(path) && (text::starts_with(
        path,
        "/Game/"@,
    ) || text::contains(text::lower(path), "worldboss"@) || object.confidence >= 3_570)
}

proof fn lemma_one_group(s: Seq<ObjectView>, timestamp: i64, window: i64, k: int, n: int)
    requires
        0 <= k < s.len(),
        0 <= n <= s.len(),
        surely_seen(s[k], timestamp, window),
        forall|j: int|
            0 <= j < s.len() && j != k ==> !surely_seen(#[trigger] s[j], timestamp, window),
    ensures
        n <= k ==> grouped(s, timestamp, window, n).len() == 0,
        n > k ==> grouped(s, timestamp, window, n).len() == 1 && grouped(
            s,
            timestamp,
            window,
            n,
        )[0].path == s[k].object_path.unwrap(),
    decreases n,
{
    if n > 0 {
        lemma_one_group(s, timestamp, window, k, n - 1);
        assert(strong_object(s[n - 1], timestamp, window) == surely_seen(
            s[n - 1],
            timestamp,
            window,
        ));
    }
}

/// Where only one path was seen for sure, it is the one that counts; where none was, none
/// does.
pub proof fn the_only_sure_path_counts(s: Seq<ObjectView>, timestamp: i64, window: i64, k: int)
    requires
        0 <= k < s.len(),
        surely_seen(s[k], timestamp, window),
        forall|j: int|
            0 <= j < s.len() && j != k ==> !surely_seen(#[trigger] s[j], timestamp, window),
    ensures
        strong_paths(s, timestamp, window) == seq![s[k].object_path.unwrap()],
{
    lemma_one_group(s, timestamp, window, k, s.len() as int);
    assert(strong_paths(s, timestamp, window) =~= seq![s[k].object_path.unwrap()]);
}

/// Without a path that was seen for sure, none counts.
pub proof fn no_path_counts_without_a_sure_one(
    s: Seq<ObjectView>,
    timestamp: i64,
    window: i64,
    n: int,
)
    requires
        0 <= n <= s.len(),
        forall|j: int| 0 <= j < s.len() ==> !surely_seen(#[trigger] s[j], timestamp, window),
    ensures
        grouped(s, timestamp, window, n).len() == 0,
        n == s.len() ==> strong_paths(s, timestamp, window).len() == 0,
    decreases n,
{
    if n > 0 {
        no_path_counts_without_a_sure_one(s, timestamp, window, n - 1);
        assert(strong_object(s[n - 1], timestamp, window) == surely_seen(
            s[n - 1],
            timestamp,
            window,
        ));
    }
}

/// What is linked gets the path and what is known of it, and counts eight tenths at least;
/// what has another path keeps it.
pub proof fn links_give_path_and_name(
    object: ObjectView,
    path: Seq<char>,
    display_name: Option<Seq<char>>,
    resolved: bool,
)
    ensures
        ({
            let after = linked(object, path, display_name, resolved, false);
            &&& object.object_path is None || object.object_path == Some(path) ==> {
                &&& after.object_path == Some(path)
                &&& after.confidence >= 4_080 && after.confidence >= object.confidence
                &&& object.display_name is Some ==> after.display_name == object.display_name
                &&& object.display_name is None ==> after.display_name == display_name
                &&& after.table_resolved_name == (object.table_resolved_name || resolved)
            }
            &&& object.object_path is Some && object.object_path != Some(path) ==> {
                &&& after.object_path == object.object_path
                &&& after.display_name == object.display_name
                &&& after.confidence == object.confidence
            }
            &&& after.hp_current == object.hp_current && after.hp_history == object.hp_history
        }),
{
}

/// An object whose identity is cleared has no path and no name, and counts no more than
/// three and a half tenths.
pub proof fn cleared_objects_are_unknown(object: ObjectView, timestamp: i64, evidence: Seq<char>)
    ensures
        ({
            let after = identity_cleared(object, timestamp, evidence);
            &&& after.object_path is None && after.class_path is None && after.display_name is None
            &&& !after.table_resolved_name && after.dead_at is None
            &&& after.confidence <= 1_785 && after.confidence <= object.confidence
            &&& after.last_seen_at == timestamp && after.hp_current == object.hp_current
        }),
{
}

proof fn lemma_position_is_there(
    s: Seq<ObjectView>,
    has: spec_fn(ObjectView) -> bool,
    k: int,
    n: int,
)
    requires
        0 <= k < n <= s.len(),
        has(s[k]),
    ensures
        positions(s, has, n).contains(k),
    decreases n,
{
    let all = positions(s, has, n);
    if k == n - 1 {
        assert(all[all.len() - 1] == k);
    } else {
        lemma_position_is_there(s, has, k, n - 1);
        let before = positions(s, has, n - 1);
        let w = choose|w: int| 0 <= w < before.len() && before[w] == k;
        assert(all[w] == k);
    }
}

/// A path that is seen is given to the only object with hit points that was seen within
/// six seconds; where there are two, nothing gets it.
pub proof fn paths_go_to_a_lone_object(
    s: Seq<ObjectView>,
    timestamp: i64,
    path: Seq<char>,
    index: resource_index::IndexView,
    m: int,
    k: int,
)
    requires
        targetish_path(path),
        strong_paths(s, timestamp, 6_000_000).len() == 1,
        0 <= m < s.len(),
        0 <= k < s.len(),
        linkable(s[m], timestamp),
    ensures
        m != k && linkable(s[k], timestamp) ==> linked_to_single(s, timestamp, path, index) == s,
        s[m].object_path is None && (forall|j: int|
            0 <= j < s.len() && j != m ==> !linkable(#[trigger] s[j], timestamp))
            ==> linked_to_single(s, timestamp, path, index)[m].object_path == Some(
            strong_paths(s, timestamp, 6_000_000)[0],
        ),
{
    let has = |o: ObjectView| linkable(o, timestamp);
    let at = positions(s, has, s.len() as int);
    if m != k && linkable(s[k], timestamp) {
        lemma_position_is_there(s, has, m, s.len() as int);
        lemma_position_is_there(s, has, k, s.len() as int);
        if at.len() == 1 {
            assert(at[0] == m && at[0] == k);
        }
    }
    if forall|j: int| 0 <= j < s.len() && j != m ==> !linkable(#[trigger] s[j], timestamp) {
        lemma_only_position(s, has, m, s.len() as int);
    }
}

} // verus!
