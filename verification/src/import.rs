//! Captures that are read back: exported documents and packet files.
use vstd::prelude::*;

use crate::abyss;
use crate::capture;
use crate::hexadecimal;
use crate::json;
use crate::json::Json;
use crate::model;
use crate::model::{AbyssEvent, EngineEvent, Hit, PacketDebug};
use crate::sorting;
use crate::text;
use crate::text::Class;

verus! {

/// The longest pause between two hits of a replay, in microseconds.
pub const MAX_REPLAY_DELAY: i64 = 250_000;

/// A hit of an exported document.
#[derive(Debug)]
pub struct ExportHit {
    pub timestamp: i64,
    pub char_id: u32,
    pub char_name: String,
    pub damage: i64,
    pub direction: String,
    pub target_hp_before: i64,
    pub target_hp_after: i64,
    pub target_max_hp: i64,
    pub target_hp_percent: i64,
    pub target_id: Option<String>,
    pub target_name: Option<String>,
    pub target_context: Vec<String>,
}

/// A packet of an exported document.
#[derive(Debug)]
pub struct ExportPacket {
    pub timestamp: i64,
    pub source: String,
    pub destination: String,
    pub direction: String,
    pub payload_len: usize,
    pub declared_ids: Json,
    pub parsed_hits: usize,
    pub note: String,
    pub payload_preview: String,
    pub payload_hex: String,
    pub decoded_text: String,
}

// --------------------------------------------------------------- exported text

/// A line that holds a payload and lacks the comma behind it.
pub open spec fn lacks_comma(line: Seq<char>) -> bool {
    text::starts_with(text::trim_start(line, Class::Space), "\"payload_hex\":"@)
        && !text::ends_with(line, ","@)
}

/// The line with the comma that it lacks.
pub open spec fn repaired_line(line: Seq<char>) -> Seq<char> {
    if lacks_comma(line) {
        line + ","@
    } else {
        line
    }
}

/// The text of an exported document with the commas that older exports left out
/// behind payloads.
pub open spec fn repaired(s: Seq<char>) -> Seq<char> {
    text::join(
        Seq::new(abyss::lines(s).len(), |i: int| repaired_line(abyss::lines(s)[i])),
        "\n"@,
    )
}

/// The text of an exported document with the commas that it lacks.
pub fn repair_export_text(s: &str) -> (out: String)
    ensures
        out@ == repaired(s@),
{
    let lines = abyss::lines_of(&text::chars_of(s));
    let ghost all = abyss::lines(s@);
    let mut out: Vec<String> = Vec::new();
    let mut i: usize = 0;
    while i < lines.len()
        invariant
            i <= lines.len(),
            all == text::views(lines@),
            out@.len() == i,
            forall|k: int| 0 <= k < i ==> (#[trigger] out@[k])@ == repaired_line(all[k]),
        decreases lines.len() - i,
    {
        let mut line = text::string_of(&lines[i]);
        if text::starts(&text::trimmed_start(&lines[i], Class::Space), "\"payload_hex\":")
            && !text::ends(&lines[i], ",") {
            line.append(",");
        }
        assert(line@ == repaired_line(all[i as int]));
        out.push(line);
        i += 1;
    }
    assert(text::texts(out@) =~= Seq::new(all.len(), |i: int| repaired_line(all[i])));
    text::join_strings(&out, "\n")
}

/// A repaired line lacks no comma.
pub proof fn repairing_a_line_is_enough(line: Seq<char>)
    ensures
        !lacks_comma(repaired_line(line)),
        repaired_line(repaired_line(line)) == repaired_line(line),
{
    let r = repaired_line(line);
    if lacks_comma(line) {
        reveal_strlit(",");
        assert(r.skip(r.len() - ","@.len()) =~= ","@);
    }
}

// ------------------------------------------------------------ declared characters

/// The characters that a list of numbers or a text of numbers between commas
/// names. Numbers are cut to 32 bits; what is no number is passed over.
pub open spec fn export_ids(value: json::JsonView) -> Seq<u32> {
    match value {
        json::JsonView::List(items) => listed_ids(items, items.len() as int),
        json::JsonView::Text(s) => {
            let parts = text::split(text::trim(s, Class::Bracket), Class::Only(','));
            written_ids(parts, parts.len() as int)
        },
        _ => Seq::empty(),
    }
}

/// The unsigned number that a value is.
pub open spec fn unsigned(value: json::JsonView) -> Option<int> {
    match value {
        json::JsonView::Number(s) => if s.len() > 0 && text::is_digit(s[0]) {
            text::parse_uint(s, u64::MAX as int)
        } else {
            None
        },
        _ => None,
    }
}

pub open spec fn listed_ids(items: Seq<json::JsonView>, n: int) -> Seq<u32>
    decreases n,
{
    if n <= 0 {
        Seq::empty()
    } else {
        let before = listed_ids(items, n - 1);
        match unsigned(items[n - 1]) {
            Some(v) => before.push((v % 0x1_0000_0000) as u32),
            None => before,
        }
    }
}

pub open spec fn written_ids(parts: Seq<Seq<char>>, n: int) -> Seq<u32>
    decreases n,
{
    if n <= 0 {
        Seq::empty()
    } else {
        let before = written_ids(parts, n - 1);
        match text::parse_uint(text::trim(parts[n - 1], Class::Space), u32::MAX as int) {
            Some(v) => before.push(v as u32),
            None => before,
        }
    }
}

fn read_unsigned(value: &Json) -> (r: Option<u64>)
    ensures
        match r {
            Some(v) => unsigned(value@) == Some(v as int),
            None => unsigned(value@) is None,
        },
{
    match value {
        Json::Number(s) => {
            let chars = text::chars_of(s.as_str());
            if chars.len() > 0 && text::digit_char(chars[0]) {
                text::parse_number(&chars, u64::MAX)
            } else {
                None
            }
        },
        _ => None,
    }
}

/// The characters that an exported packet declares.
pub fn parse_export_ids(value: &Json) -> (ids: Vec<u32>)
    ensures
        ids@ == export_ids(value@),
{
    let mut ids: Vec<u32> = Vec::new();
    proof {
        value.lemma_contents();
    }
    match value {
        Json::List(items) => {
            let ghost all = json::list_contents(items@);
            let mut i: usize = 0;
            while i < items.len()
                invariant
                    i <= items.len(),
                    all == json::list_contents(items@),
                    ids@ == listed_ids(all, i as int),
                decreases items.len() - i,
            {
                match read_unsigned(&items[i]) {
                    Some(v) => ids.push((v % 0x1_0000_0000) as u32),
                    None => {},
                }
                i += 1;
            }
        },
        Json::Text(s) => {
            let trimmed = text::trimmed(&text::chars_of(s.as_str()), Class::Bracket);
            let parts = text::split_at_class(&trimmed, Class::Only(','));
            let ghost all = text::views(parts@);
            let mut i: usize = 0;
            while i < parts.len()
                invariant
                    i <= parts.len(),
                    all == text::views(parts@),
                    ids@ == written_ids(all, i as int),
                decreases parts.len() - i,
            {
                match text::parse_number(&text::trimmed(&parts[i], Class::Space), u32::MAX as u64) {
                    Some(v) => ids.push(v as u32),
                    None => {},
                }
                i += 1;
            }
        },
        _ => {},
    }
    ids
}

// ------------------------------------------------------------------ the events

/// The payload of an exported packet; empty where it is not hexadecimal.
pub open spec fn export_payload(packet: ExportPacket) -> Seq<u8> {
    if hexadecimal::is_hex(packet.payload_hex@) {
        hexadecimal::hex_bytes(packet.payload_hex@)
    } else {
        Seq::empty()
    }
}

/// The text of an exported packet: that of its payload, or the exported one where
/// there is no payload.
pub open spec fn export_text(packet: ExportPacket) -> Seq<char> {
    if export_payload(packet).len() == 0 {
        packet.decoded_text@
    } else {
        capture::payload_text(export_payload(packet))
    }
}

/// The exported packet is listed.
pub open spec fn export_kept(packet: ExportPacket) -> bool {
    capture::worth_listing(
        export_payload(packet),
        export_ids(packet.declared_ids@),
        packet.parsed_hits as int,
        export_text(packet),
    )
}

/// The exported packet as it is listed.
pub open spec fn export_packet_view(packet: ExportPacket) -> model::PacketView {
    model::PacketView {
        timestamp: packet.timestamp,
        source: packet.source@,
        destination: packet.destination@,
        direction: packet.direction@,
        payload_len: packet.payload_len,
        declared_ids: export_ids(packet.declared_ids@),
        parsed_hits: packet.parsed_hits,
        note: packet.note@,
        payload_preview: packet.payload_preview@,
        payload_hex: packet.payload_hex@,
        decoded_text: export_text(packet),
    }
}

/// The exported hit.
pub open spec fn export_hit_view(hit: ExportHit) -> model::HitView {
    model::HitView {
        timestamp: hit.timestamp,
        char_id: hit.char_id,
        char_name: hit.char_name@,
        char_known: true,
        damage: hit.damage,
        byte_offset: 0,
        bit_shift: 0,
        char_source: "export_json"@,
        direction: hit.direction@,
        target_hp_before: hit.target_hp_before,
        target_hp_after: hit.target_hp_after,
        target_max_hp: hit.target_max_hp,
        target_hp_percent: hit.target_hp_percent,
        target_id: text::opt_text(hit.target_id),
        target_name: text::opt_text(hit.target_name),
        target_context: text::texts(hit.target_context@),
        gameplay_effect_index: None,
        gameplay_effect_name: None,
        ability_name: None,
        damage_name: None,
        attack_type: None,
    }
}

/// The key by which events are put in order: by time, and at one time what a
/// packet tells about the abyss first, then packets, then hits.
pub open spec fn event_key(timestamp: i64, kind: int) -> u128 {
    ((timestamp - i64::MIN) * 4 + kind) as u128
}

/// The events of the first `n` packets, with their keys.
pub open spec fn packet_list(packets: Seq<ExportPacket>, n: int) -> Seq<(u128, model::EventView)>
    decreases n,
{
    if n <= 0 {
        Seq::empty()
    } else {
        let before = packet_list(packets, n - 1);
        let packet = packets[n - 1];
        if export_kept(packet) {
            let told = abyss::told_events(packet.timestamp, export_text(packet));
            before + told.map_values(
                |e: AbyssEvent| (event_key(packet.timestamp, 0), model::EventView::Abyss(e)),
            ) + seq![
                (
                    event_key(packet.timestamp, 1),
                    model::EventView::Packet(export_packet_view(packet)),
                ),
            ]
        } else {
            before
        }
    }
}

/// How many of the first `n` packets are listed.
pub open spec fn kept_count(packets: Seq<ExportPacket>, n: int) -> int
    decreases n,
{
    if n <= 0 {
        0
    } else {
        kept_count(packets, n - 1) + if export_kept(packets[n - 1]) {
            1int
        } else {
            0
        }
    }
}

/// The events of the hits, with their keys.
pub open spec fn hit_list(hits: Seq<ExportHit>) -> Seq<(u128, model::EventView)> {
    hits.map_values(
        |h: ExportHit| (event_key(h.timestamp, 2), model::EventView::Hit(export_hit_view(h))),
    )
}

/// The events of an exported document, in the order of their times.
pub open spec fn document_events(packets: Seq<ExportPacket>, hits: Seq<ExportHit>) -> Seq<
    model::EventView,
> {
    sorting::values(
        sorting::sorted(packet_list(packets, packets.len() as int) + hit_list(hits)),
    )
}

pub open spec fn keyed_views(v: Seq<(u128, EngineEvent)>) -> Seq<(u128, model::EventView)> {
    v.map_values(|x: (u128, EngineEvent)| (x.0, x.1@))
}

fn key_of(timestamp: i64, kind: u8) -> (r: u128)
    requires
        kind < 4,
    ensures
        r == event_key(timestamp, kind as int),
{
    (((timestamp as i128) + 0x8000_0000_0000_0000) * 4 + (kind as i128)) as u128
}

fn decoded_payload(packet: &ExportPacket) -> (payload: Vec<u8>)
    ensures
        payload@ == export_payload(*packet),
{
    match hexadecimal::decode(packet.payload_hex.as_str()) {
        Some(payload) => payload,
        None => Vec::new(),
    }
}

fn push_packet_events(events: &mut Vec<(u128, EngineEvent)>, packet: ExportPacket) -> (kept: bool)
    ensures
        kept == export_kept(packet),
        keyed_views(final(events)@) == if kept {
            let told = abyss::told_events(packet.timestamp, export_text(packet));
            keyed_views(old(events)@) + told.map_values(
                |e: AbyssEvent| (event_key(packet.timestamp, 0), model::EventView::Abyss(e)),
            ) + seq![
                (
                    event_key(packet.timestamp, 1),
                    model::EventView::Packet(export_packet_view(packet)),
                ),
            ]
        } else {
            keyed_views(old(events)@)
        },
{
    let declared_ids = parse_export_ids(&packet.declared_ids);
    let payload = decoded_payload(&packet);
    let decoded_text = if payload.len() == 0 {
        packet.decoded_text.clone()
    } else {
        capture::decode_payload_text(payload.as_slice())
    };
    if !capture::should_keep_debug_packet(
        payload.as_slice(),
        declared_ids.as_slice(),
        packet.parsed_hits,
        decoded_text.as_str(),
    ) {
        return false;
    }
    let ghost start = keyed_views(events@);
    let ghost told_wanted = abyss::told_events(packet.timestamp, export_text(packet)).map_values(
        |e: AbyssEvent| (event_key(packet.timestamp, 0), model::EventView::Abyss(e)),
    );
    let timestamp: i64 = packet.timestamp;
    let told = abyss::abyss_events_from_text(timestamp, decoded_text.as_str());
    let mut i: usize = 0;
    assert(keyed_views(events@) =~= start + told_wanted.take(0));
    while i < told.len()
        invariant
            i <= told.len(),
            told_wanted.len() == told.len(),
            forall|k: int|
                0 <= k < told_wanted.len() ==> #[trigger] told_wanted[k] == (
                    event_key(timestamp, 0),
                    model::EventView::Abyss(told@[k]),
                ),
            keyed_views(events@) == start + told_wanted.take(i as int),
        decreases told.len() - i,
    {
        let ghost before = keyed_views(events@);
        events.push((key_of(timestamp, 0), EngineEvent::Abyss(told[i])));
        assert(keyed_views(events@) =~= before.push(told_wanted[i as int]));
        assert(before.push(told_wanted[i as int]) =~= start + told_wanted.take(i + 1));
        i += 1;
    }
    let ghost before = keyed_views(events@);
    assert(told_wanted.take(i as int) =~= told_wanted);
    let listed = PacketDebug {
        timestamp,
        source: packet.source,
        destination: packet.destination,
        direction: packet.direction,
        payload_len: packet.payload_len,
        declared_ids,
        parsed_hits: packet.parsed_hits,
        note: packet.note,
        payload_preview: packet.payload_preview,
        payload_hex: packet.payload_hex,
        decoded_text,
    };
    assert(listed@ =~= export_packet_view(packet));
    events.push((key_of(timestamp, 1), EngineEvent::Packet(listed)));
    assert(keyed_views(events@) =~= before.push(
        (event_key(timestamp, 1), model::EventView::Packet(export_packet_view(packet))),
    ));
    assert(keyed_views(events@) =~= start + told_wanted + seq![
        (event_key(timestamp, 1), model::EventView::Packet(export_packet_view(packet))),
    ]);
    true
}

fn hit_from_export(hit: ExportHit) -> (r: Hit)
    ensures
        r@ == export_hit_view(hit),
{
    Hit {
        timestamp: hit.timestamp,
        char_id: hit.char_id,
        char_name: hit.char_name,
        char_known: true,
        damage: hit.damage,
        byte_offset: 0,
        bit_shift: 0,
        char_source: "export_json".to_owned(),
        direction: hit.direction,
        target_hp_before: hit.target_hp_before,
        target_hp_after: hit.target_hp_after,
        target_max_hp: hit.target_max_hp,
        target_hp_percent: hit.target_hp_percent,
        target_id: hit.target_id,
        target_name: hit.target_name,
        target_context: hit.target_context,
        gameplay_effect_index: None,
        gameplay_effect_name: None,
        ability_name: None,
        damage_name: None,
        attack_type: None,
    }
}

/// The events of an exported document, in the order of their times, and how many
/// of its packets are listed.
pub fn import_events(packets: Vec<ExportPacket>, hits: Vec<ExportHit>) -> (r: (
    Vec<EngineEvent>,
    usize,
))
    ensures
        model::event_views(r.0@) == document_events(packets@, hits@),
        r.1 == kept_count(packets@, packets@.len() as int),
{
    let ghost packets_in = packets@;
    let ghost hits_in = hits@;
    let total: usize = packets.len();
    let mut events: Vec<(u128, EngineEvent)> = Vec::new();
    let mut packet_count: usize = 0;
    assert(keyed_views(events@) =~= packet_list(packets_in, 0));
    for packet in it: packets
        invariant
            it.seq() == packets_in,
            packets_in.len() == total,
            packet_count <= it.index(),
            packet_count == kept_count(packets_in, it.index() as int),
            keyed_views(events@) == packet_list(packets_in, it.index() as int),
    {
        assert(packet == packets_in[it.index() as int]);
        let kept = push_packet_events(&mut events, packet);
        if kept {
            packet_count += 1;
        }
    }
    let ghost start = keyed_views(events@);
    assert(keyed_views(events@) =~= start + hit_list(hits_in).take(0));
    for hit in it: hits
        invariant
            it.seq() == hits_in,
            keyed_views(events@) == start + hit_list(hits_in).take(it.index() as int),
    {
        assert(hit == hits_in[it.index() as int]);
        let ghost before = keyed_views(events@);
        let timestamp: i64 = hit.timestamp;
        events.push((key_of(timestamp, 2), EngineEvent::Hit(hit_from_export(hit))));
        assert(keyed_views(events@) =~= before.push(hit_list(hits_in)[it.index() as int]));
        assert(before.push(hit_list(hits_in)[it.index() as int]) =~= start + hit_list(hits_in).take(
            it.index() + 1,
        ));
    }
    assert(hit_list(hits_in).take(hits_in.len() as int) =~= hit_list(hits_in));
    let ghost unsorted = events@;
    let sorted = sorting::sort_by_key(events);
    let ghost sorted_in = sorted@;
    proof {
        let view = |e: EngineEvent| e@;
        assert(sorting::mapped(unsorted, view) =~= keyed_views(unsorted));
        sorting::sorted_commutes_with_mapping(unsorted, view);
        assert(sorting::mapped(sorted_in, view) =~= keyed_views(sorted_in));
    }
    let mut out: Vec<EngineEvent> = Vec::new();
    for item in it: sorted
        invariant
            it.seq() == sorted_in,
            out@.len() == it.index(),
            forall|k: int| 0 <= k < it.index() ==> #[trigger] out@[k] == sorted_in[k].1,
    {
        out.push(item.1);
    }
    assert(model::event_views(out@) =~= sorting::values(keyed_views(sorted_in)));
    (out, packet_count)
}

/// Events come in the order of their times, and at one time what is told about
/// the abyss comes before packets, and packets before hits.
pub proof fn event_keys_order_by_time_and_kind(t1: i64, k1: int, t2: i64, k2: int)
    requires
        0 <= k1 < 4,
        0 <= k2 < 4,
    ensures
        event_key(t1, k1) < event_key(t2, k2) <==> t1 < t2 || (t1 == t2 && k1 < k2),
{
}

/// What is reported when an exported document has been read.
pub fn import_status(packet_count: usize, hit_count: usize) -> (out: String)
    ensures
        out@ == "JSON 导入完成："@ + text::dec(packet_count as nat) + " 个封包，"@ + text::dec(
            hit_count as nat,
        ) + " 条伤害"@,
{
    let mut out = text::concat3(
        "JSON 导入完成：",
        text::dec_string(packet_count as u64).as_str(),
        " 个封包，",
    );
    out.append(text::dec_string(hit_count as u64).as_str());
    out.append(" 条伤害");
    out
}

// ----------------------------------------------------------------- packet files

/// How many packets a packet file held, and how many of them were of Ethernet.
pub struct PacketFileCount {
    pub packets: usize,
    pub supported: usize,
}

impl PacketFileCount {
    /// No more packets are supported than there are.
    pub open spec fn consistent(self) -> bool {
        self.supported <= self.packets
    }

    pub fn new() -> (r: PacketFileCount)
        ensures
            r.packets == 0,
            r.supported == 0,
            r.consistent(),
    {
        PacketFileCount { packets: 0, supported: 0 }
    }

    /// Counts a packet, with whether its interface is one of Ethernet where the
    /// file describes the interface, and tells whether the packet is decoded. The
    /// counts stop at the largest number.
    pub fn note_packet(&mut self, ethernet: Option<bool>) -> (decode: bool)
        requires
            old(self).consistent(),
        ensures
            final(self).consistent(),
            decode == (ethernet == Some(true)),
            final(self).packets == if old(self).packets == usize::MAX {
                usize::MAX
            } else {
                (old(self).packets + 1) as usize
            },
            final(self).supported == if decode && old(self).supported < usize::MAX {
                (old(self).supported + 1) as usize
            } else {
                old(self).supported
            },
    {
        if self.packets < usize::MAX {
            self.packets += 1;
        }
        match ethernet {
            Some(true) => {
                if self.supported < usize::MAX {
                    self.supported += 1;
                }
                true
            },
            _ => false,
        }
    }

    /// What is reported when the file has been read: a file with packets of which
    /// none is supported is an error.
    pub fn outcome(&self) -> (r: Result<String, String>)
        ensures
            match r {
                Ok(s) => !(self.packets > 0 && self.supported == 0) && s@
                    == "pcapng 导入完成：读取 "@ + text::dec(self.packets as nat)
                    + " 包，解析 "@ + text::dec(self.supported as nat) + " 个 Ethernet 包"@,
                Err(s) => self.packets > 0 && self.supported == 0 && s@
                    == "pcapng 中没有受支持的 Ethernet 数据包"@,
            },
    {
        if self.packets > 0 && self.supported == 0 {
            return Err("pcapng 中没有受支持的 Ethernet 数据包".to_owned());
        }
        let mut out = text::concat3(
            "pcapng 导入完成：读取 ",
            text::dec_string(self.packets as u64).as_str(),
            " 包，解析 ",
        );
        out.append(text::dec_string(self.supported as u64).as_str());
        out.append(" 个 Ethernet 包");
        Ok(out)
    }
}

/// What is reported when a line of a log cannot be read. Lines count from one.
pub open spec fn line_failure(index: int, error: Seq<char>) -> Seq<char> {
    "第 "@ + text::dec((index + 1) as nat) + " 行解析失败: "@ + error
}

pub fn replay_line_failure(index: usize, error: &str) -> (out: String)
    ensures
        out@ == line_failure(index as int, error@),
{
    let number = text::long_dec_string((index as u128) + 1);
    let mut out = text::concat3("第 ", number.as_str(), " 行解析失败: ");
    out.append(error);
    out
}

/// How long a replay waits before a hit: as long as the fight did, up to a limit,
/// and not at all before the first hit.
pub fn replay_delay(previous: Option<i64>, timestamp: i64) -> (delay: i64)
    ensures
        0 <= delay <= 250_000,
        previous matches Some(p) ==> (0 <= timestamp - p <= 250_000 ==> delay == timestamp - p),
        match previous {
            None => delay == 0,
            Some(p) => delay == if timestamp - p < 0 {
                0
            } else if timestamp - p > MAX_REPLAY_DELAY {
                MAX_REPLAY_DELAY as int
            } else {
                timestamp - p
            },
        },
{
    match previous {
        None => 0,
        Some(p) => {
            let d: i128 = (timestamp as i128) - (p as i128);
            if d < 0 {
                0
            } else if d > MAX_REPLAY_DELAY as i128 {
                MAX_REPLAY_DELAY
            } else {
                d as i64
            }
        },
    }
}

/// When an event was.
pub open spec fn moment_of(e: model::EventView) -> Option<i64> {
    match e {
        model::EventView::Hit(hit) => Some(hit.timestamp),
        model::EventView::Packet(packet) => Some(packet.timestamp),
        model::EventView::Abyss(AbyssEvent::Stage { timestamp, .. }) => Some(timestamp),
        model::EventView::Abyss(AbyssEvent::RestartDetected { timestamp }) => Some(timestamp),
        model::EventView::Abyss(AbyssEvent::Success { timestamp }) => Some(timestamp),
        model::EventView::Abyss(AbyssEvent::Exit { timestamp }) => Some(timestamp),
        _ => None,
    }
}

proof fn lemma_packet_list(packets: Seq<ExportPacket>, n: int)
    requires
        0 <= n <= packets.len(),
    ensures
        forall|i: int|
            0 <= i < packet_list(packets, n).len() ==> keyed_by_moment(
                #[trigger] packet_list(packets, n)[i],
            ) && !(packet_list(packets, n)[i].1 is Hit),
        forall|k: int|
            0 <= k < n && export_kept(#[trigger] packets[k]) ==> packet_list(packets, n).contains(
                (
                    event_key(packets[k].timestamp, 1),
                    model::EventView::Packet(export_packet_view(packets[k])),
                ),
            ),
    decreases n,
{
    if n > 0 {
        lemma_packet_list(packets, n - 1);
        let before = packet_list(packets, n - 1);
        let all = packet_list(packets, n);
        let packet = packets[n - 1];
        let t = packet.timestamp;
        let told = abyss::told_events(t, export_text(packet));
        if export_kept(packet) {
            let notes = told.map_values(
                |e: AbyssEvent| (event_key(t, 0), model::EventView::Abyss(e)),
            );
            let own = (event_key(t, 1), model::EventView::Packet(export_packet_view(packet)));
            assert(all == before + notes + seq![own]);
            assert forall|i: int| 0 <= i < all.len() implies keyed_by_moment(#[trigger] all[i])
                && !(all[i].1 is Hit) by {
                if i < before.len() {
                    assert(all[i] == before[i]);
                } else if i < before.len() + notes.len() {
                    let e = told[i - before.len()];
                    assert(all[i] == notes[i - before.len()]);
                    lemma_told_moment(t, export_text(packet), i - before.len());
                } else {
                    assert(all[i] == own);
                }
            }
            assert(all[all.len() - 1] == own);
        }
        assert forall|k: int| 0 <= k < n && export_kept(#[trigger] packets[k]) implies all.contains(
            (
                event_key(packets[k].timestamp, 1),
                model::EventView::Packet(export_packet_view(packets[k])),
            ),
        ) by {
            let own = (
                event_key(packets[k].timestamp, 1),
                model::EventView::Packet(export_packet_view(packets[k])),
            );
            if k < n - 1 {
                assert(before.contains(own));
                let w = choose|w: int| 0 <= w < before.len() && before[w] == own;
                assert(all[w] == own);
            } else {
                assert(all[all.len() - 1] == own);
            }
        }
    }
}

proof fn lemma_told_moment(timestamp: i64, s: Seq<char>, i: int)
    requires
        0 <= i < abyss::told_events(timestamp, s).len(),
    ensures
        moment_of(model::EventView::Abyss(abyss::told_events(timestamp, s)[i])) == Some(timestamp),
{
}

/// The key orders by the event's moment, and at one moment by its kind.
pub open spec fn keyed_by_moment(x: (u128, model::EventView)) -> bool {
    moment_of(x.1) is Some && x.0 == event_key(moment_of(x.1).unwrap(), kind_of(x.1))
}

/// What is told about the abyss comes before packets, and packets before hits.
pub open spec fn kind_of(e: model::EventView) -> int {
    match e {
        model::EventView::Abyss(_) => 0,
        model::EventView::Packet(_) => 1,
        _ => 2,
    }
}

/// The events of a document come in the order of their moments, and at one moment what
/// is told about the abyss comes first, then packets, then hits.
pub proof fn imported_events_come_in_order(
    packets: Seq<ExportPacket>,
    hits: Seq<ExportHit>,
    i: int,
    j: int,
)
    requires
        0 <= i < j < document_events(packets, hits).len(),
    ensures
        ({
            let a = document_events(packets, hits)[i];
            let b = document_events(packets, hits)[j];
            &&& moment_of(a) is Some && moment_of(b) is Some
            &&& moment_of(a).unwrap() <= moment_of(b).unwrap()
            &&& moment_of(a).unwrap() == moment_of(b).unwrap() ==> kind_of(a) <= kind_of(b)
        }),
{
    let n = packets.len() as int;
    let list = packet_list(packets, n) + hit_list(hits);
    let s = sorting::sorted(list);
    lemma_packet_list(packets, n);
    sorting::sorted_is_ordered(list);
    sorting::sorted_elements_are_elements(list, i);
    sorting::sorted_elements_are_elements(list, j);
    let a = choose|a: int| 0 <= a < list.len() && list[a] == s[i];
    let b = choose|b: int| 0 <= b < list.len() && list[b] == s[j];
    lemma_list_keys(packets, hits, a);
    lemma_list_keys(packets, hits, b);
    assert(s[i].0 <= s[j].0);
    event_keys_order_by_time_and_kind(
        moment_of(s[j].1).unwrap(),
        kind_of(s[j].1),
        moment_of(s[i].1).unwrap(),
        kind_of(s[i].1),
    );
}

proof fn lemma_list_keys(packets: Seq<ExportPacket>, hits: Seq<ExportHit>, a: int)
    requires
        0 <= a < packet_list(packets, packets.len() as int).len() + hits.len(),
    ensures
        keyed_by_moment((packet_list(packets, packets.len() as int) + hit_list(hits))[a]),
{
    let n = packets.len() as int;
    let first = packet_list(packets, n);
    lemma_packet_list(packets, n);
    if a >= first.len() {
        let h = hits[a - first.len()];
        assert((first + hit_list(hits))[a] == hit_list(hits)[a - first.len()]);
        assert(hit_list(hits)[a - first.len()] == (
            event_key(h.timestamp, 2),
            model::EventView::Hit(export_hit_view(h)),
        ));
    } else {
        assert((first + hit_list(hits))[a] == first[a]);
    }
}

/// Every hit of a document leads to a hit with what the document says of it, and every
/// packet that is of interest to a packet.
pub proof fn imported_hits_and_packets_are_all_there(
    packets: Seq<ExportPacket>,
    hits: Seq<ExportHit>,
    h: int,
    p: int,
)
    ensures
        0 <= h < hits.len() ==> exists|k: int|
            0 <= k < document_events(packets, hits).len() && (#[trigger] document_events(
                packets,
                hits,
            )[k] matches model::EventView::Hit(hit) && {
                &&& hit.timestamp == hits[h].timestamp
                &&& hit.char_id == hits[h].char_id
                &&& hit.char_name == hits[h].char_name@
                &&& hit.damage == hits[h].damage
                &&& hit.direction == hits[h].direction@
                &&& hit.target_hp_before == hits[h].target_hp_before
                &&& hit.target_hp_after == hits[h].target_hp_after
                &&& hit.target_max_hp == hits[h].target_max_hp
                &&& hit.target_name == text::opt_text(hits[h].target_name)
            }),
        0 <= p < packets.len() && export_kept(packets[p]) ==> exists|k: int|
            0 <= k < document_events(packets, hits).len() && (#[trigger] document_events(
                packets,
                hits,
            )[k] matches model::EventView::Packet(packet) && {
                &&& packet.timestamp == packets[p].timestamp
                &&& packet.source == packets[p].source@
                &&& packet.destination == packets[p].destination@
                &&& packet.direction == packets[p].direction@
                &&& packet.payload_hex == packets[p].payload_hex@
                &&& packet.parsed_hits == packets[p].parsed_hits
            }),
{
    let n = packets.len() as int;
    let first = packet_list(packets, n);
    let list = first + hit_list(hits);
    let s = sorting::sorted(list);
    lemma_packet_list(packets, n);
    if 0 <= h < hits.len() {
        let own = (
            event_key(hits[h].timestamp, 2),
            model::EventView::Hit(export_hit_view(hits[h])),
        );
        assert(hit_list(hits)[h] == own);
        assert(list[first.len() + h] == own);
        sorting::elements_stay_when_sorted(list, first.len() + h);
        let k = choose|k: int| 0 <= k < s.len() && s[k] == own;
        assert(document_events(packets, hits)[k] == own.1);
    }
    if 0 <= p < packets.len() && export_kept(packets[p]) {
        let own = (
            event_key(packets[p].timestamp, 1),
            model::EventView::Packet(export_packet_view(packets[p])),
        );
        assert(first.contains(own));
        let w = choose|w: int| 0 <= w < first.len() && first[w] == own;
        assert(list[w] == own);
        sorting::elements_stay_when_sorted(list, w);
        let k = choose|k: int| 0 <= k < s.len() && s[k] == own;
        assert(document_events(packets, hits)[k] == own.1);
    }
}

/// A line of a document that lacks the comma behind the bytes of a packet gets it, and no
/// line gets anything else; a line that was mended needs nothing more.
pub proof fn mended_lines_stay_mended(line: Seq<char>)
    ensures
        repaired_line(line) == line || repaired_line(line) == line + ","@,
        text::starts_with(text::trim_start(line, Class::Space), "\"payload_hex\":"@)
            ==> text::ends_with(repaired_line(line), ","@),
        !text::starts_with(text::trim_start(line, Class::Space), "\"payload_hex\":"@)
            ==> repaired_line(line) == line,
        repaired_line(repaired_line(line)) == repaired_line(line),
{
    reveal_strlit(",");
    let s = line + ","@;
    assert(s.skip(s.len() - 1) =~= ","@);
    assert(text::ends_with(s, ","@));
}

} // verus!
