//! What the engine reports: hits, packets, and the statistics over them.
//!
//! Points in time are microseconds since the epoch. Damage and hit points are
//! thousandths of a point, a share of hit points is thousandths of a percent.
use std::collections::{HashMap, VecDeque};
use vstd::prelude::*;

use crate::float;
use crate::text;

verus! {

broadcast use vstd::std_specs::hash::group_hash_axioms;

/// How many hits are kept.
pub const MAX_HITS: usize = 50_000;

/// How many packets are kept.
pub const MAX_PACKETS: usize = 10_000;

/// A millisecond: the shortest combat that counts.
pub const MIN_DURATION: i64 = 1_000;

/// A second, in microseconds.
pub const SECOND: i64 = 1_000_000;

/// No rate is larger: all damage that can be counted, within a millisecond.
pub const MAX_RATE: i128 = 0x200_0000_0000_0000_0000;

/// A row of the character table.
#[derive(Clone, Debug)]
pub struct CharacterInfo {
    pub name_zh: String,
    pub name_en: String,
    pub color: Option<String>,
    pub avatar: Option<String>,
    pub attribute: Option<String>,
}

/// One damage record with what is known about who dealt it and who took it.
#[derive(Clone, Debug)]
pub struct Hit {
    pub timestamp: i64,
    pub char_id: u32,
    pub char_name: String,
    pub char_known: bool,
    pub damage: i64,
    pub byte_offset: usize,
    pub bit_shift: u8,
    pub char_source: String,
    pub direction: String,
    pub target_hp_before: i64,
    pub target_hp_after: i64,
    pub target_max_hp: i64,
    pub target_hp_percent: i64,
    pub target_id: Option<String>,
    pub target_name: Option<String>,
    pub target_context: Vec<String>,
    pub gameplay_effect_index: Option<u32>,
    pub gameplay_effect_name: Option<String>,
    pub ability_name: Option<String>,
    pub damage_name: Option<String>,
    pub attack_type: Option<String>,
}

/// The contents of a hit.
#[verifier::ext_equal]
pub struct HitView {
    pub timestamp: i64,
    pub char_id: u32,
    pub char_name: Seq<char>,
    pub char_known: bool,
    pub damage: i64,
    pub byte_offset: usize,
    pub bit_shift: u8,
    pub char_source: Seq<char>,
    pub direction: Seq<char>,
    pub target_hp_before: i64,
    pub target_hp_after: i64,
    pub target_max_hp: i64,
    pub target_hp_percent: i64,
    pub target_id: Option<Seq<char>>,
    pub target_name: Option<Seq<char>>,
    pub target_context: Seq<Seq<char>>,
    pub gameplay_effect_index: Option<u32>,
    pub gameplay_effect_name: Option<Seq<char>>,
    pub ability_name: Option<Seq<char>>,
    pub damage_name: Option<Seq<char>>,
    pub attack_type: Option<Seq<char>>,
}

impl View for Hit {
    type V = HitView;

    open spec fn view(&self) -> HitView {
        HitView {
            timestamp: self.timestamp,
            char_id: self.char_id,
            char_name: self.char_name@,
            char_known: self.char_known,
            damage: self.damage,
            byte_offset: self.byte_offset,
            bit_shift: self.bit_shift,
            char_source: self.char_source@,
            direction: self.direction@,
            target_hp_before: self.target_hp_before,
            target_hp_after: self.target_hp_after,
            target_max_hp: self.target_max_hp,
            target_hp_percent: self.target_hp_percent,
            target_id: text::opt_text(self.target_id),
            target_name: text::opt_text(self.target_name),
            target_context: text::texts(self.target_context@),
            gameplay_effect_index: self.gameplay_effect_index,
            gameplay_effect_name: text::opt_text(self.gameplay_effect_name),
            ability_name: text::opt_text(self.ability_name),
            damage_name: text::opt_text(self.damage_name),
            attack_type: text::opt_text(self.attack_type),
        }
    }
}

/// A hit's own name: when and where it was read, who dealt it, and how much.
pub open spec fn hit_uid(hit: HitView) -> Seq<char> {
    text::signed_dec(hit.timestamp as int) + ":"@ + text::dec(hit.char_id as nat) + ":"@ + text::dec(
        hit.byte_offset as nat,
    ) + ":"@ + text::dec(hit.bit_shift as nat) + ":"@ + text::signed_dec(hit.damage as int)
}

pub fn stable_hit_uid(hit: &Hit) -> (out: String)
    ensures
        out@ == hit_uid(hit@),
{
    let mut out = text::concat3(
        text::signed_dec_string(hit.timestamp).as_str(),
        ":",
        text::dec_string(hit.char_id as u64).as_str(),
    );
    out.append(":");
    out.append(text::dec_string(hit.byte_offset as u64).as_str());
    out.append(":");
    out.append(text::dec_string(hit.bit_shift as u64).as_str());
    out.append(":");
    out.append(text::signed_dec_string(hit.damage).as_str());
    out
}

/// The contents of a sequence of hits.
pub open spec fn hit_views(hits: Seq<Hit>) -> Seq<HitView> {
    hits.map_values(|h: Hit| h@)
}

/// A UDP packet as it is listed for inspection.
#[derive(Clone, Debug)]
pub struct PacketDebug {
    pub timestamp: i64,
    pub source: String,
    pub destination: String,
    pub direction: String,
    pub payload_len: usize,
    pub declared_ids: Vec<u32>,
    pub parsed_hits: usize,
    pub note: String,
    pub payload_preview: String,
    pub payload_hex: String,
    pub decoded_text: String,
}

/// The contents of a listed packet.
#[verifier::ext_equal]
pub struct PacketView {
    pub timestamp: i64,
    pub source: Seq<char>,
    pub destination: Seq<char>,
    pub direction: Seq<char>,
    pub payload_len: usize,
    pub declared_ids: Seq<u32>,
    pub parsed_hits: usize,
    pub note: Seq<char>,
    pub payload_preview: Seq<char>,
    pub payload_hex: Seq<char>,
    pub decoded_text: Seq<char>,
}

impl View for PacketDebug {
    type V = PacketView;

    open spec fn view(&self) -> PacketView {
        PacketView {
            timestamp: self.timestamp,
            source: self.source@,
            destination: self.destination@,
            direction: self.direction@,
            payload_len: self.payload_len,
            declared_ids: self.declared_ids@,
            parsed_hits: self.parsed_hits,
            note: self.note@,
            payload_preview: self.payload_preview@,
            payload_hex: self.payload_hex@,
            decoded_text: self.decoded_text@,
        }
    }
}

/// Which half of an abyss floor is fought.
#[derive(Clone, Copy, Debug, PartialEq, Eq, Structural)]
pub enum AbyssHalf {
    First,
    Second,
}

/// What a packet tells about the course of an abyss run.
#[derive(Clone, Copy, Debug, PartialEq, Eq, Structural)]
pub enum AbyssEvent {
    Stage { timestamp: i64, floor: Option<u32>, half: AbyssHalf },
    RestartDetected { timestamp: i64 },
    Success { timestamp: i64 },
    Exit { timestamp: i64 },
}

/// What the engine hands to its listener.
#[derive(Clone, Debug)]
pub enum EngineEvent {
    Hit(Hit),
    Packet(PacketDebug),
    Abyss(AbyssEvent),
    Status(String),
    Error(String),
    CaptureStopped,
}

/// The contents of an engine event.
#[verifier::ext_equal]
pub enum EventView {
    Hit(HitView),
    Packet(PacketView),
    Abyss(AbyssEvent),
    Status(Seq<char>),
    Error(Seq<char>),
    CaptureStopped,
}

impl View for EngineEvent {
    type V = EventView;

    open spec fn view(&self) -> EventView {
        match self {
            EngineEvent::Hit(h) => EventView::Hit(h@),
            EngineEvent::Packet(p) => EventView::Packet(p@),
            EngineEvent::Abyss(a) => EventView::Abyss(*a),
            EngineEvent::Status(s) => EventView::Status(s@),
            EngineEvent::Error(s) => EventView::Error(s@),
            EngineEvent::CaptureStopped => EventView::CaptureStopped,
        }
    }
}

/// The contents of a sequence of events.
pub open spec fn event_views(events: Seq<EngineEvent>) -> Seq<EventView> {
    events.map_values(|e: EngineEvent| e@)
}

/// What one character has dealt.
#[derive(Clone, Debug)]
pub struct CharacterStats {
    pub char_id: u32,
    pub name: String,
    pub hits: u64,
    pub damage: i64,
    pub first_hit: i64,
    pub last_hit: i64,
}

/// The contents of a character's statistics.
#[verifier::ext_equal]
pub struct StatsView {
    pub char_id: u32,
    pub name: Seq<char>,
    pub hits: u64,
    pub damage: i64,
    pub first_hit: i64,
    pub last_hit: i64,
}

impl View for CharacterStats {
    type V = StatsView;

    open spec fn view(&self) -> StatsView {
        StatsView {
            char_id: self.char_id,
            name: self.name@,
            hits: self.hits,
            damage: self.damage,
            first_hit: self.first_hit,
            last_hit: self.last_hit,
        }
    }
}

/// The sum, held at the ends of the 64-bit range.
pub open spec fn sat_add(a: i64, b: i64) -> i64 {
    if a + b > i64::MAX {
        i64::MAX
    } else if a + b < i64::MIN {
        i64::MIN
    } else {
        (a + b) as i64
    }
}

pub fn saturating_sum(a: i64, b: i64) -> (r: i64)
    ensures
        r == sat_add(a, b),
{
    let sum: i128 = (a as i128) + (b as i128);
    if sum > 0x7fff_ffff_ffff_ffff {
        i64::MAX
    } else if sum < -0x8000_0000_0000_0000 {
        i64::MIN
    } else {
        sum as i64
    }
}

/// The time from `first` to `last`, at least a millisecond.
pub open spec fn span(first: i64, last: i64) -> int {
    if last - first > MIN_DURATION {
        last - first
    } else {
        MIN_DURATION as int
    }
}

/// Damage per second: thousandths of a point over microseconds, to the nearest
/// thousandth.
pub open spec fn rate(damage: i64, duration: int) -> int {
    if damage >= 0 {
        float::round_even(damage * SECOND, duration)
    } else {
        -float::round_even((-damage) * SECOND, duration)
    }
}

fn per_second(damage: i64, duration: i128) -> (r: i128)
    requires
        0 < duration <= 0x1_0000_0000_0000_0000,
    ensures
        r == rate(damage, duration as int),
        duration >= MIN_DURATION ==> -MAX_RATE <= r <= MAX_RATE,
{
    let magnitude: i128 = if damage >= 0 {
        damage as i128
    } else {
        -(damage as i128)
    };
    let quotient: i128 = float::rounded_quotient(
        (magnitude * 1_000_000) as u128,
        duration as u128,
    ) as i128;
    proof {
        float::lemma_round_even_bounds((magnitude * 1_000_000) as int, duration as int);
        vstd::arithmetic::div_mod::lemma_div_is_ordered_by_denominator(
            (magnitude * 1_000_000) as int,
            1,
            duration as int,
        );
        if duration >= MIN_DURATION {
            vstd::arithmetic::div_mod::lemma_div_is_ordered_by_denominator(
                (magnitude * 1_000_000) as int,
                1_000,
                duration as int,
            );
        }
    }
    if damage >= 0 {
        quotient
    } else {
        -quotient
    }
}

impl CharacterStats {
    /// The time between the character's first and last hit; none for a single hit.
    pub open spec fn spec_duration(self) -> int {
        if self.hits > 1 {
            span(self.first_hit, self.last_hit)
        } else {
            0
        }
    }

    pub fn duration(&self) -> (r: i128)
        ensures
            r == self.spec_duration(),
    {
        if self.hits > 1 {
            let d: i128 = (self.last_hit as i128) - (self.first_hit as i128);
            if d > MIN_DURATION as i128 {
                d
            } else {
                MIN_DURATION as i128
            }
        } else {
            0
        }
    }

    /// The character's own active time, which counts as a second at least.
    pub open spec fn spec_active_time(self) -> int {
        if self.spec_duration() > SECOND {
            self.spec_duration()
        } else {
            SECOND as int
        }
    }

    pub fn active_time(&self) -> (r: i128)
        ensures
            r == self.spec_active_time(),
            SECOND <= r <= 0x1_0000_0000_0000_0000,
    {
        let d: i128 = self.duration();
        if d > SECOND as i128 {
            d
        } else {
            SECOND as i128
        }
    }

    /// Damage per second over the character's own active time.
    pub open spec fn spec_dps(self) -> int {
        rate(self.damage, self.spec_active_time())
    }

    pub fn dps(&self) -> (r: i128)
        ensures
            r == self.spec_dps(),
            -MAX_RATE <= r <= MAX_RATE,
    {
        per_second(self.damage, self.active_time())
    }
}

/// The running state of a fight.
pub struct CombatState {
    pub hits: VecDeque<Hit>,
    pub packets: VecDeque<PacketDebug>,
    pub stats: HashMap<u32, CharacterStats>,
    pub started_at: Option<i64>,
    pub ended_at: Option<i64>,
    pub total_damage: i64,
}

/// The last `max` elements.
pub open spec fn newest<A>(s: Seq<A>, max: int) -> Seq<A> {
    if s.len() > max {
        s.skip(s.len() - max)
    } else {
        s
    }
}

/// The statistics of the hit's character with the hit counted in.
pub open spec fn stats_with(old_row: Option<StatsView>, hit: HitView) -> StatsView {
    match old_row {
        None => StatsView {
            char_id: hit.char_id,
            name: hit.char_name,
            hits: 1,
            damage: hit.damage,
            first_hit: hit.timestamp,
            last_hit: hit.timestamp,
        },
        Some(row) => StatsView {
            char_id: row.char_id,
            name: hit.char_name,
            hits: if row.hits == u64::MAX {
                u64::MAX
            } else {
                (row.hits + 1) as u64
            },
            damage: sat_add(row.damage, hit.damage),
            first_hit: if hit.timestamp < row.first_hit {
                hit.timestamp
            } else {
                row.first_hit
            },
            last_hit: if hit.timestamp > row.last_hit {
                hit.timestamp
            } else {
                row.last_hit
            },
        },
    }
}

/// The contents of a fight's state.
#[verifier::ext_equal]
pub struct FightView {
    pub hits: Seq<HitView>,
    pub packets: Seq<PacketView>,
    pub rows: Map<u32, StatsView>,
    pub started_at: Option<i64>,
    pub ended_at: Option<i64>,
    pub total_damage: i64,
}

/// The contents of a sequence of packets.
pub open spec fn packet_views(packets: Seq<PacketDebug>) -> Seq<PacketView> {
    packets.map_values(|p: PacketDebug| p@)
}

/// Where a fight starts.
pub open spec fn no_fight() -> FightView {
    FightView {
        hits: Seq::empty(),
        packets: Seq::empty(),
        rows: Map::empty(),
        started_at: None,
        ended_at: None,
        total_damage: 0,
    }
}

/// The fight with a hit counted in.
pub open spec fn counted_in(fight: FightView, hit: HitView) -> FightView {
    FightView {
        hits: newest(fight.hits.push(hit), MAX_HITS as int),
        rows: fight.rows.insert(
            hit.char_id,
            stats_with(
                if fight.rows.contains_key(hit.char_id) {
                    Some(fight.rows[hit.char_id])
                } else {
                    None
                },
                hit,
            ),
        ),
        started_at: Some(
            match fight.started_at {
                Some(t) => if hit.timestamp < t {
                    hit.timestamp
                } else {
                    t
                },
                None => hit.timestamp,
            },
        ),
        ended_at: Some(
            match fight.ended_at {
                Some(t) => if hit.timestamp > t {
                    hit.timestamp
                } else {
                    t
                },
                None => hit.timestamp,
            },
        ),
        total_damage: sat_add(fight.total_damage, hit.damage),
        ..fight
    }
}

/// The fight with a packet listed.
pub open spec fn listed_in(fight: FightView, packet: PacketView) -> FightView {
    FightView { packets: newest(fight.packets.push(packet), MAX_PACKETS as int), ..fight }
}

/// The fight after a sequence of hits.
pub open spec fn fight_after(hits: Seq<HitView>) -> FightView
    decreases hits.len(),
{
    if hits.len() == 0 {
        no_fight()
    } else {
        counted_in(fight_after(hits.drop_last()), hits.last())
    }
}

impl View for CombatState {
    type V = FightView;

    open spec fn view(&self) -> FightView {
        FightView {
            hits: hit_views(self.hits@),
            packets: packet_views(self.packets@),
            rows: rows_of(*self),
            started_at: self.started_at,
            ended_at: self.ended_at,
            total_damage: self.total_damage,
        }
    }
}

impl Default for CombatState {
    fn default() -> (r: CombatState)
        ensures
            r.is_cleared(),
    {
        CombatState::new()
    }
}

impl CombatState {
    /// The statistics of a character, where there are any.
    pub open spec fn row(self, id: u32) -> Option<StatsView> {
        if self.stats@.contains_key(id) {
            Some(self.stats@[id]@)
        } else {
            None
        }
    }

    pub open spec fn is_cleared(self) -> bool {
        &&& self.hits@.len() == 0
        &&& self.packets@.len() == 0
        &&& self.stats@.len() == 0
        &&& self.stats@ == Map::<u32, CharacterStats>::empty()
        &&& self.started_at is None
        &&& self.ended_at is None
        &&& self.total_damage == 0
    }

    /// No more hits and packets than are kept.
    pub open spec fn bounded(self) -> bool {
        self.hits@.len() <= MAX_HITS && self.packets@.len() <= MAX_PACKETS
    }

    pub fn new() -> (r: CombatState)
        ensures
            r.is_cleared(),
            r.bounded(),
            r@ == no_fight(),
    {
        let r =
        CombatState {
            hits: VecDeque::new(),
            packets: VecDeque::new(),
            stats: HashMap::new(),
            started_at: None,
            ended_at: None,
            total_damage: 0,
        };
        assert(r@ =~= no_fight());
        r
    }

    /// Counts a hit in.
    pub fn push_hit(&mut self, hit: Hit)
        ensures
            final(self).hits@ == newest(old(self).hits@.push(hit), MAX_HITS as int),
            final(self).packets@ == old(self).packets@,
            final(self).started_at == Some(
                match old(self).started_at {
                    Some(t) => if hit.timestamp < t {
                        hit.timestamp
                    } else {
                        t
                    },
                    None => hit.timestamp,
                },
            ),
            final(self).ended_at == Some(
                match old(self).ended_at {
                    Some(t) => if hit.timestamp > t {
                        hit.timestamp
                    } else {
                        t
                    },
                    None => hit.timestamp,
                },
            ),
            final(self).total_damage == sat_add(old(self).total_damage, hit.damage),
            final(self).row(hit.char_id) == Some(stats_with(old(self).row(hit.char_id), hit@)),
            forall|id: u32| id != hit.char_id ==> #[trigger] final(self).row(id) == old(self).row(id),
            final(self)@ == counted_in(old(self)@, hit@),
    {
        let ghost before = *self;
        self.started_at = Some(
            match self.started_at {
                Some(t) => if hit.timestamp < t {
                    hit.timestamp
                } else {
                    t
                },
                None => hit.timestamp,
            },
        );
        self.ended_at = Some(
            match self.ended_at {
                Some(t) => if hit.timestamp > t {
                    hit.timestamp
                } else {
                    t
                },
                None => hit.timestamp,
            },
        );
        self.total_damage = saturating_sum(self.total_damage, hit.damage);
        let known = self.stats.remove(&hit.char_id);
        let row = match known {
            None => CharacterStats {
                char_id: hit.char_id,
                name: hit.char_name.clone(),
                hits: 1,
                damage: hit.damage,
                first_hit: hit.timestamp,
                last_hit: hit.timestamp,
            },
            Some(row) => CharacterStats {
                char_id: row.char_id,
                name: hit.char_name.clone(),
                hits: if row.hits == u64::MAX {
                    u64::MAX
                } else {
                    row.hits + 1
                },
                damage: saturating_sum(row.damage, hit.damage),
                first_hit: if hit.timestamp < row.first_hit {
                    hit.timestamp
                } else {
                    row.first_hit
                },
                last_hit: if hit.timestamp > row.last_hit {
                    hit.timestamp
                } else {
                    row.last_hit
                },
            },
        };
        self.stats.insert(hit.char_id, row);
        self.hits.push_back(hit);
        let ghost all = self.hits@;
        let ghost packets = self.packets@;
        let ghost stats = self.stats@;
        let ghost scalars = (self.started_at, self.ended_at, self.total_damage);
        assert(all.skip(0) =~= all);
        while self.hits.len() > MAX_HITS
            invariant
                self.hits@.len() <= all.len(),
                self.hits@ == all.skip(all.len() - self.hits@.len()),
                all.len() > MAX_HITS ==> self.hits@.len() >= MAX_HITS,
                all.len() <= MAX_HITS ==> self.hits@.len() == all.len(),
                self.packets@ == packets,
                self.stats@ == stats,
                scalars == (self.started_at, self.ended_at, self.total_damage),
            decreases self.hits@.len(),
        {
            let ghost before = self.hits@;
            self.hits.pop_front();
            assert(self.hits@ =~= before.skip(1));
            assert(before.skip(1) =~= all.skip(all.len() - self.hits@.len()));
        }
        assert(self.hits@ =~= newest(all, MAX_HITS as int));
        proof {
            lemma_counted_in(before, *self, hit);
        }
    }

    /// Lists a packet.
    pub fn push_packet(&mut self, packet: PacketDebug)
        ensures
            final(self).packets@ == newest(old(self).packets@.push(packet), MAX_PACKETS as int),
            final(self).hits@ == old(self).hits@,
            final(self).stats@ == old(self).stats@,
            final(self).started_at == old(self).started_at,
            final(self).ended_at == old(self).ended_at,
            final(self).total_damage == old(self).total_damage,
            final(self)@ == listed_in(old(self)@, packet@),
    {
        let ghost before = self@;
        self.packets.push_back(packet);
        let ghost all = self.packets@;
        let ghost hits = self.hits@;
        let ghost stats = self.stats@;
        let ghost scalars = (self.started_at, self.ended_at, self.total_damage);
        assert(all.skip(0) =~= all);
        while self.packets.len() > MAX_PACKETS
            invariant
                self.packets@.len() <= all.len(),
                self.packets@ == all.skip(all.len() - self.packets@.len()),
                all.len() > MAX_PACKETS ==> self.packets@.len() >= MAX_PACKETS,
                all.len() <= MAX_PACKETS ==> self.packets@.len() == all.len(),
                self.hits@ == hits,
                self.stats@ == stats,
                scalars == (self.started_at, self.ended_at, self.total_damage),
            decreases self.packets@.len(),
        {
            let ghost before = self.packets@;
            self.packets.pop_front();
            assert(self.packets@ =~= before.skip(1));
            assert(before.skip(1) =~= all.skip(all.len() - self.packets@.len()));
        }
        assert(self.packets@ =~= newest(all, MAX_PACKETS as int));
        proof {
            assert(packet_views(all) =~= before.packets.push(packet@));
            assert(packet_views(self.packets@) =~= newest(
                before.packets.push(packet@),
                MAX_PACKETS as int,
            ));
            assert(self@ =~= listed_in(before, packet@));
        }
    }

    /// The time from the first hit to the last one.
    pub open spec fn spec_duration(self) -> int {
        match (self.started_at, self.ended_at) {
            (Some(start), Some(end)) => span(start, end),
            _ => 0,
        }
    }

    pub fn duration(&self) -> (r: i128)
        ensures
            r == self.spec_duration(),
    {
        match (self.started_at, self.ended_at) {
            (Some(start), Some(end)) => {
                let d: i128 = (end as i128) - (start as i128);
                if d > MIN_DURATION as i128 {
                    d
                } else {
                    MIN_DURATION as i128
                }
            },
            _ => 0,
        }
    }

    /// Damage per second over the whole fight; zero before the first hit.
    pub open spec fn spec_dps(self) -> int {
        if self.spec_duration() > 0 {
            rate(self.total_damage, self.spec_duration())
        } else {
            0
        }
    }

    pub fn dps(&self) -> (r: i128)
        ensures
            r == self.spec_dps(),
            -MAX_RATE <= r <= MAX_RATE,
    {
        let d: i128 = self.duration();
        if d > 0 {
            per_second(self.total_damage, d)
        } else {
            0
        }
    }

    /// Forgets everything.
    pub fn clear(&mut self)
        ensures
            final(self).is_cleared(),
            final(self)@ == no_fight(),
    {
        *self = CombatState::new();
    }
}

/// Keeping the newest elements never leaves more than are kept, and the last one
/// is among them.
pub proof fn newest_is_bounded_and_ends_with_the_last<A>(s: Seq<A>, x: A, max: int)
    requires
        max > 0,
    ensures
        newest(s.push(x), max).len() <= max,
        newest(s.push(x), max).last() == x,
        s.len() < max ==> newest(s.push(x), max) == s.push(x),
{
}

/// As long as no sum leaves the 64-bit range, a hit raises the total and its
/// character's row by the same amount.
pub proof fn total_and_row_grow_alike(total: i64, row: StatsView, hit: HitView)
    requires
        i64::MIN <= total + hit.damage <= i64::MAX,
        i64::MIN <= row.damage + hit.damage <= i64::MAX,
    ensures
        sat_add(total, hit.damage) - total == stats_with(Some(row), hit).damage - row.damage,
        stats_with(Some(row), hit).first_hit <= hit.timestamp <= stats_with(Some(row), hit).last_hit,
{
}

/// The damage of all rows together.
pub open spec fn row_sum(rows: Map<u32, StatsView>) -> int
    decreases rows.dom().len(),
    when rows.dom().finite()
{
    if rows.dom().len() == 0 {
        0
    } else {
        let id = rows.dom().choose();
        rows[id].damage + row_sum(rows.remove(id))
    }
}

proof fn lemma_row_sum_without(rows: Map<u32, StatsView>, id: u32)
    requires
        rows.dom().finite(),
        rows.contains_key(id),
    ensures
        row_sum(rows) == rows[id].damage + row_sum(rows.remove(id)),
    decreases rows.dom().len(),
{
    let first = rows.dom().choose();
    assert(rows.dom().contains(id));
    assert(rows.dom().len() > 0);
    assert(rows.dom().contains(first));
    if first != id {
        let rest = rows.remove(first);
        assert(rest.dom() =~= rows.dom().remove(first));
        lemma_row_sum_without(rest, id);
        let other = rows.remove(id);
        assert(other.dom() =~= rows.dom().remove(id));
        lemma_row_sum_without(other, first);
        assert(rest.remove(id) =~= other.remove(first));
    }
}

/// The rows of all characters, by their contents.
pub open spec fn rows_of(state: CombatState) -> Map<u32, StatsView> {
    Map::new(|id: u32| state.stats@.contains_key(id), |id: u32| state.stats@[id]@)
}

/// The total is the sum of the rows, and a hit keeps it so as long as no sum leaves
/// the 64-bit range.
pub proof fn the_total_is_the_sum_of_the_rows(before: CombatState, after: CombatState, hit: Hit)
    requires
        before.stats@.dom().finite(),
        before.total_damage == row_sum(rows_of(before)),
        after.total_damage == sat_add(before.total_damage, hit.damage),
        after.row(hit.char_id) == Some(stats_with(before.row(hit.char_id), hit@)),
        forall|id: u32| id != hit.char_id ==> #[trigger] after.row(id) == before.row(id),
        i64::MIN <= before.total_damage + hit.damage <= i64::MAX,
        before.row(hit.char_id) matches Some(row) ==> i64::MIN <= row.damage + hit.damage
            <= i64::MAX,
    ensures
        after.total_damage == row_sum(rows_of(after)),
{
    let a = rows_of(before);
    let b = rows_of(after);
    let id = hit.char_id;
    assert(a.dom() =~= before.stats@.dom());
    assert(b =~= a.insert(id, stats_with(before.row(id), hit@))) by {
        assert forall|k: u32| b.contains_key(k) == a.insert(
            id,
            stats_with(before.row(id), hit@),
        ).contains_key(k) by {
            if k != id {
                assert(after.row(k) == before.row(k));
            } else {
                assert(after.row(k) is Some);
            }
        }
        assert forall|k: u32| #[trigger] b.contains_key(k) implies b[k] == a.insert(
            id,
            stats_with(before.row(id), hit@),
        )[k] by {
            assert(after.row(k) is Some);
            if k != id {
                assert(after.row(k) == before.row(k));
            }
        }
    }
    assert(b.dom() =~= a.dom().insert(id));
    lemma_row_sum_without(b, id);
    assert(b.remove(id) =~= a.remove(id));
    if a.contains_key(id) {
        lemma_row_sum_without(a, id);
    } else {
        assert(a.remove(id) =~= a);
    }
}

proof fn lemma_counted_in(before: CombatState, after: CombatState, hit: Hit)
    requires
        after.hits@ == newest(before.hits@.push(hit), MAX_HITS as int),
        after.packets@ == before.packets@,
        after.started_at == counted_in(before@, hit@).started_at,
        after.ended_at == counted_in(before@, hit@).ended_at,
        after.total_damage == sat_add(before.total_damage, hit.damage),
        after.row(hit.char_id) == Some(stats_with(before.row(hit.char_id), hit@)),
        forall|id: u32| id != hit.char_id ==> #[trigger] after.row(id) == before.row(id),
    ensures
        after@ == counted_in(before@, hit@),
{
    let wanted = counted_in(before@, hit@);
    assert(hit_views(before.hits@.push(hit)) =~= before@.hits.push(hit@));
    assert(after@.hits =~= wanted.hits);
    assert forall|k: u32| #[trigger] after@.rows.contains_key(k) == wanted.rows.contains_key(k) by {
        if k != hit.char_id {
            assert(after.row(k) == before.row(k));
        } else {
            assert(after.row(k) is Some);
        }
    }
    assert forall|k: u32| #[trigger] after@.rows.contains_key(k) implies after@.rows[k]
        == wanted.rows[k] by {
        assert(after.row(k) is Some);
        if k != hit.char_id {
            assert(after.row(k) == before.row(k));
        }
    }
    assert(after@.rows =~= wanted.rows);
    assert(after@ =~= wanted);
}

/// Hits that the character dealt.
pub open spec fn of_character(id: u32) -> spec_fn(HitView) -> bool {
    |h: HitView| h.char_id == id
}

/// All hits.
pub open spec fn any_hit() -> spec_fn(HitView) -> bool {
    |h: HitView| true
}

/// How many of the hits a character dealt.
pub open spec fn hits_dealt(hits: Seq<HitView>, id: u32) -> nat {
    hits.filter(of_character(id)).len()
}

/// The damage of hits that satisfy a condition, added up.
pub open spec fn damage_dealt(hits: Seq<HitView>, counts: spec_fn(HitView) -> bool) -> int
    decreases hits.len(),
{
    if hits.len() == 0 {
        0
    } else {
        damage_dealt(hits.drop_last(), counts) + if counts(hits.last()) {
            hits.last().damage as int
        } else {
            0
        }
    }
}

/// The time is that of one of the hits that satisfy a condition, and no other of them
/// came before it.
pub open spec fn is_first_of(t: i64, hits: Seq<HitView>, counts: spec_fn(HitView) -> bool) -> bool {
    &&& exists|k: int| 0 <= k < hits.len() && counts(#[trigger] hits[k]) && hits[k].timestamp == t
    &&& forall|k: int| 0 <= k < hits.len() && counts(#[trigger] hits[k]) ==> t <= hits[k].timestamp
}

/// The time is that of one of the hits that satisfy a condition, and no other of them
/// came after it.
pub open spec fn is_last_of(t: i64, hits: Seq<HitView>, counts: spec_fn(HitView) -> bool) -> bool {
    &&& exists|k: int| 0 <= k < hits.len() && counts(#[trigger] hits[k]) && hits[k].timestamp == t
    &&& forall|k: int| 0 <= k < hits.len() && counts(#[trigger] hits[k]) ==> hits[k].timestamp <= t
}

proof fn lemma_first_and_last_grow(
    hits: Seq<HitView>,
    counts: spec_fn(HitView) -> bool,
    first: i64,
    last: i64,
)
    requires
        hits.len() > 0,
        counts(hits.last()),
        is_first_of(first, hits.drop_last(), counts),
        is_last_of(last, hits.drop_last(), counts),
    ensures
        is_first_of(
            if hits.last().timestamp < first {
                hits.last().timestamp
            } else {
                first
            },
            hits,
            counts,
        ),
        is_last_of(
            if hits.last().timestamp > last {
                hits.last().timestamp
            } else {
                last
            },
            hits,
            counts,
        ),
{
    let before = hits.drop_last();
    let n = before.len() as int;
    assert(hits[n] == hits.last());
    let a = choose|k: int|
        0 <= k < before.len() && counts(#[trigger] before[k]) && before[k].timestamp == first;
    let b = choose|k: int|
        0 <= k < before.len() && counts(#[trigger] before[k]) && before[k].timestamp == last;
    assert(hits[a] == before[a] && hits[b] == before[b]);
    assert forall|k: int| 0 <= k < hits.len() && counts(#[trigger] hits[k]) implies k == n || first
        <= hits[k].timestamp <= last by {
        if k < n {
            assert(hits[k] == before[k]);
        }
    }
}

proof fn lemma_first_and_last_stay(
    hits: Seq<HitView>,
    counts: spec_fn(HitView) -> bool,
    first: i64,
    last: i64,
)
    requires
        hits.len() > 0,
        !counts(hits.last()),
        is_first_of(first, hits.drop_last(), counts),
        is_last_of(last, hits.drop_last(), counts),
    ensures
        is_first_of(first, hits, counts),
        is_last_of(last, hits, counts),
{
    let before = hits.drop_last();
    let n = before.len() as int;
    assert(hits[n] == hits.last());
    let a = choose|k: int|
        0 <= k < before.len() && counts(#[trigger] before[k]) && before[k].timestamp == first;
    let b = choose|k: int|
        0 <= k < before.len() && counts(#[trigger] before[k]) && before[k].timestamp == last;
    assert(hits[a] == before[a] && hits[b] == before[b]);
    assert forall|k: int| 0 <= k < hits.len() && counts(#[trigger] hits[k]) implies first
        <= hits[k].timestamp <= last by {
        assert(hits[k] == before[k]);
    }
}

/// A character has a row as soon as one hit is theirs, and the row counts exactly the
/// hits that are.
pub proof fn rows_count_the_hits_of_their_character(hits: Seq<HitView>, id: u32)
    requires
        hits.len() <= u64::MAX,
    ensures
        fight_after(hits).rows.contains_key(id) <==> hits_dealt(hits, id) > 0,
        fight_after(hits).rows.contains_key(id) ==> fight_after(hits).rows[id].hits == hits_dealt(
            hits,
            id,
        ) && fight_after(hits).rows[id].char_id == id,
    decreases hits.len(),
{
    let counts = of_character(id);
    reveal(Seq::filter);
    if hits.len() > 0 {
        let before = hits.drop_last();
        rows_count_the_hits_of_their_character(before, id);
        before.lemma_filter_len(counts);
    }
}

/// A row's damage is that of its character's hits, from the first of which its time
/// runs to the last, as long as no sum of them leaves the 64-bit range.
pub proof fn rows_add_up_the_hits_of_their_character(hits: Seq<HitView>, id: u32)
    requires
        forall|n: int|
            0 <= n <= hits.len() ==> i64::MIN <= damage_dealt(
                #[trigger] hits.take(n),
                of_character(id),
            ) <= i64::MAX,
    ensures
        fight_after(hits).rows.contains_key(id) ==> {
            let row = fight_after(hits).rows[id];
            &&& row.damage == damage_dealt(hits, of_character(id))
            &&& is_first_of(row.first_hit, hits, of_character(id))
            &&& is_last_of(row.last_hit, hits, of_character(id))
        },
        !fight_after(hits).rows.contains_key(id) ==> damage_dealt(
            hits,
            of_character(id),
        ) == 0 && forall|k: int| 0 <= k < hits.len() ==> (#[trigger] hits[k]).char_id != id,
    decreases hits.len(),
{
    let counts = of_character(id);
    if hits.len() > 0 {
        let before = hits.drop_last();
        let n = before.len() as int;
        assert forall|m: int| 0 <= m <= before.len() implies i64::MIN <= damage_dealt(
                #[trigger] before.take(m),
            counts,
        ) <= i64::MAX by {
            assert(before.take(m) =~= hits.take(m));
        }
        rows_add_up_the_hits_of_their_character(before, id);
        assert(hits.take(n + 1) =~= hits);
        assert(before.take(n) =~= before);
        assert(hits.take(n) =~= before);
        let old_rows = fight_after(before).rows;
        assert(hits[n] == hits.last());
        if old_rows.contains_key(id) {
            if hits.last().char_id == id {
                lemma_first_and_last_grow(hits, counts, old_rows[id].first_hit, old_rows[id].last_hit);
            } else {
                lemma_first_and_last_stay(hits, counts, old_rows[id].first_hit, old_rows[id].last_hit);
            }
        } else {
            assert forall|k: int| 0 <= k < n implies (#[trigger] hits[k]).char_id != id by {
                assert(hits[k] == before[k]);
            }
        }
    }
}

/// The total is the damage of all hits, from the first of which the fight runs to the
/// last, as long as no sum of them leaves the 64-bit range.
pub proof fn the_total_adds_up_all_hits(hits: Seq<HitView>)
    requires
        forall|n: int|
            0 <= n <= hits.len() ==> i64::MIN <= damage_dealt(
                #[trigger] hits.take(n),
                any_hit(),
            ) <= i64::MAX,
    ensures
        fight_after(hits).total_damage == damage_dealt(hits, any_hit()),
        fight_after(hits).started_at is Some <==> hits.len() > 0,
        fight_after(hits).ended_at is Some <==> hits.len() > 0,
        fight_after(hits).started_at matches Some(t) ==> is_first_of(t, hits, any_hit()),
        fight_after(hits).ended_at matches Some(t) ==> is_last_of(t, hits, any_hit()),
    decreases hits.len(),
{
    let counts = any_hit();
    if hits.len() > 0 {
        let before = hits.drop_last();
        let n = before.len() as int;
        assert forall|m: int| 0 <= m <= before.len() implies i64::MIN <= damage_dealt(
                #[trigger] before.take(m),
            counts,
        ) <= i64::MAX by {
            assert(before.take(m) =~= hits.take(m));
        }
        the_total_adds_up_all_hits(before);
        assert(hits.take(n + 1) =~= hits);
        assert(hits[n] == hits.last());
        if n > 0 {
            lemma_first_and_last_grow(
                hits,
                counts,
                fight_after(before).started_at.unwrap(),
                fight_after(before).ended_at.unwrap(),
            );
        }
    }
}

/// The last fifty thousand hits are kept, in the order in which they came.
pub proof fn the_newest_hits_are_kept(hits: Seq<HitView>)
    ensures
        hits.len() <= 50_000 ==> fight_after(hits).hits == hits,
        hits.len() > 50_000 ==> fight_after(hits).hits == hits.subrange(
            hits.len() - 50_000,
            hits.len() as int,
        ),
    decreases hits.len(),
{
    if hits.len() > 0 {
        let before = hits.drop_last();
        the_newest_hits_are_kept(before);
        if hits.len() <= 50_000 {
            assert(before.push(hits.last()) =~= hits);
        } else if before.len() <= 50_000 {
            assert(before.push(hits.last()) =~= hits);
            assert(fight_after(hits).hits =~= hits.subrange(
                hits.len() - 50_000,
                hits.len() as int,
            ));
        } else {
            assert(fight_after(hits).hits =~= hits.subrange(
                hits.len() - 50_000,
                hits.len() as int,
            ));
        }
    } else {
        assert(fight_after(hits).hits =~= hits);
    }
}

/// A listed packet is the last one, up to ten thousand are kept in the order in which
/// they came, and nothing else changes.
pub proof fn the_newest_packets_are_kept(fight: FightView, packet: PacketView)
    requires
        fight.packets.len() <= 10_000,
    ensures
        fight.packets.len() < 10_000 ==> listed_in(fight, packet).packets == fight.packets.push(
            packet,
        ),
        fight.packets.len() == 10_000 ==> listed_in(fight, packet).packets == fight.packets.subrange(
            1,
            10_000,
        ).push(packet),
        listed_in(fight, packet) == (FightView {
            packets: listed_in(fight, packet).packets,
            ..fight
        }),
{
    if fight.packets.len() == 10_000 {
        assert(listed_in(fight, packet).packets =~= fight.packets.subrange(1, 10_000).push(packet));
    }
}

/// The rate is damage over seconds: what it makes of the time is the damage, to half
/// a thousandth of a point per second.
pub proof fn rates_times_time_are_damage(damage: i64, duration: int)
    requires
        duration > 0,
    ensures
        -duration <= 2 * (rate(damage, duration) * duration - damage * 1_000_000) <= duration,
{
    let a = if damage >= 0 {
        damage * 1_000_000
    } else {
        (-damage) * 1_000_000
    };
    let q = a / duration;
    let r = a % duration;
    vstd::arithmetic::div_mod::lemma_fundamental_div_mod(a, duration);
    vstd::arithmetic::div_mod::lemma_mod_bound(a, duration);
    let m = float::round_even(a, duration);
    assert(m == q || m == q + 1);
    assert(duration * q == q * duration) by (nonlinear_arith);
    assert((q + 1) * duration == q * duration + duration) by (nonlinear_arith);
    assert((-m) * duration == -(m * duration)) by (nonlinear_arith);
}

/// A fight lasts from its first hit to its last, a character's own time likewise, at
/// least a millisecond; a character's rate is over a second at least, and a fight or a
/// character without a span of time has none.
pub proof fn times_run_from_first_to_last(state: CombatState, row: CharacterStats)
    ensures
        state.started_at is Some && state.ended_at is Some ==> state.spec_duration() >= 1_000
            && state.spec_duration() >= state.ended_at.unwrap() - state.started_at.unwrap() && (
        state.spec_duration() > 1_000 ==> state.spec_duration() == state.ended_at.unwrap()
            - state.started_at.unwrap()),
        state.started_at is None || state.ended_at is None ==> state.spec_duration() == 0
            && state.spec_dps() == 0,
        state.spec_duration() > 0 ==> state.spec_dps() == rate(
            state.total_damage,
            state.spec_duration(),
        ),
        row.hits <= 1 ==> row.spec_duration() == 0,
        row.hits > 1 ==> row.spec_duration() >= 1_000 && row.spec_duration() >= row.last_hit
            - row.first_hit && (row.spec_duration() > 1_000 ==> row.spec_duration() == row.last_hit
            - row.first_hit),
        row.spec_duration() <= 1_000_000 ==> row.spec_dps() == rate(row.damage, 1_000_000),
        row.spec_duration() > 1_000_000 ==> row.spec_dps() == rate(
            row.damage,
            row.spec_duration(),
        ),
{
}

/// A row takes the name of its character's last hit.
pub proof fn rows_take_the_last_name(fight: FightView, hit: HitView)
    ensures
        counted_in(fight, hit).rows.contains_key(hit.char_id),
        counted_in(fight, hit).rows[hit.char_id].name == hit.char_name,
        forall|id: u32|
            id != hit.char_id ==> (#[trigger] counted_in(fight, hit).rows.contains_key(id)
                == fight.rows.contains_key(id)) && (fight.rows.contains_key(id) ==> counted_in(
                fight,
                hit,
            ).rows[id] == fight.rows[id]),
        counted_in(fight, hit).packets == fight.packets,
{
}

proof fn lemma_signed(n: int)
    ensures
        text::signed_dec(n).len() > 0,
        n < 0 <==> text::signed_dec(n)[0] == '-',
        n < 0 ==> text::signed_dec(n).skip(1) == text::dec((-n) as nat),
        forall|k: int|
            0 <= k < text::signed_dec(n).len() ==> text::is_digit(#[trigger] text::signed_dec(n)[k])
                || text::signed_dec(n)[k] == '-',
{
    if n < 0 {
        text::decimals_are_digits((-n) as nat);
        assert(text::signed_dec(n).skip(1) =~= text::dec((-n) as nat));
        assert forall|k: int| 0 <= k < text::signed_dec(n).len() implies text::is_digit(
            #[trigger] text::signed_dec(n)[k],
        ) || text::signed_dec(n)[k] == '-' by {
            if k > 0 {
                assert(text::signed_dec(n)[k] == text::dec((-n) as nat)[k - 1]);
            }
        }
    } else {
        text::decimals_are_digits(n as nat);
    }
}

proof fn lemma_signed_are_told_apart(a: int, b: int)
    requires
        text::signed_dec(a) == text::signed_dec(b),
    ensures
        a == b,
{
    lemma_signed(a);
    lemma_signed(b);
    if a < 0 {
        text::decimals_tell_numbers((-a) as nat, (-b) as nat);
    } else {
        text::decimals_tell_numbers(a as nat, b as nat);
    }
}

spec fn uid_parts(hit: HitView) -> Seq<Seq<char>> {
    seq![
        text::signed_dec(hit.timestamp as int),
        text::dec(hit.char_id as nat),
        text::dec(hit.byte_offset as nat),
        text::dec(hit.bit_shift as nat),
        text::signed_dec(hit.damage as int),
    ]
}

proof fn lemma_uid_is_joined(hit: HitView)
    ensures
        hit_uid(hit) == text::join(uid_parts(hit), seq![':']),
        forall|k: int| 0 <= k < 5 ==> !(#[trigger] uid_parts(hit)[k]).contains(':'),
{
    reveal_strlit(":");
    assert(":"@ =~= seq![':']);
    let p = uid_parts(hit);
    let p4 = p.drop_last();
    let p3 = p4.drop_last();
    let p2 = p3.drop_last();
    let p1 = p2.drop_last();
    reveal_with_fuel(text::join, 2);
    assert(text::join(p1, seq![':']) == p[0]);
    assert(text::join(p2, seq![':']) == p[0] + seq![':'] + p[1]);
    assert(text::join(p3, seq![':']) == p[0] + seq![':'] + p[1] + seq![':'] + p[2]);
    assert(text::join(p4, seq![':']) == p[0] + seq![':'] + p[1] + seq![':'] + p[2] + seq![':']
        + p[3]);
    lemma_signed(hit.timestamp as int);
    lemma_signed(hit.damage as int);
    text::decimals_are_digits(hit.char_id as nat);
    text::decimals_are_digits(hit.byte_offset as nat);
    text::decimals_are_digits(hit.bit_shift as nat);
    assert forall|k: int| 0 <= k < 5 implies !(#[trigger] p[k]).contains(':') by {
        if p[k].contains(':') {
            let w = choose|w: int| 0 <= w < p[k].len() && p[k][w] == ':';
            assert(text::is_digit(p[k][w]) || p[k][w] == '-');
        }
    }
}

/// Hits with one name came at the same time, from the same character, out of the same
/// place of a packet, and did the same damage.
pub proof fn hits_are_told_apart_by_their_names(a: HitView, b: HitView)
    requires
        hit_uid(a) == hit_uid(b),
    ensures
        a.timestamp == b.timestamp,
        a.char_id == b.char_id,
        a.byte_offset == b.byte_offset,
        a.bit_shift == b.bit_shift,
        a.damage == b.damage,
{
    lemma_uid_is_joined(a);
    lemma_uid_is_joined(b);
    let p = uid_parts(a);
    let q = uid_parts(b);
    text::joined_parts_split_again(p, ':');
    text::joined_parts_split_again(q, ':');
    assert(p == q);
    assert(p[0] == q[0] && p[1] == q[1] && p[2] == q[2] && p[3] == q[3] && p[4] == q[4]);
    lemma_signed_are_told_apart(a.timestamp as int, b.timestamp as int);
    lemma_signed_are_told_apart(a.damage as int, b.damage as int);
    text::decimals_tell_numbers(a.char_id as nat, b.char_id as nat);
    text::decimals_tell_numbers(a.byte_offset as nat, b.byte_offset as nat);
    text::decimals_tell_numbers(a.bit_shift as nat, b.bit_shift as nat);
}

} // verus!
