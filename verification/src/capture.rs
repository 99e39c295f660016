//! From Ethernet frames to engine events: UDP payloads, the text in them, the
//! course of an abyss run, and the hits.
use std::collections::{HashMap, HashSet};
use vstd::prelude::*;
use vstd::slice::slice_subrange;

use crate::bits;
use crate::hexadecimal;
use crate::model;
use crate::model::{AbyssEvent, CharacterInfo, EngineEvent, Hit, PacketDebug};
use crate::parser;
use crate::runs;
use crate::sorting;
use crate::text;
use crate::text::Class;

verus! {

broadcast use vstd::std_specs::hash::group_hash_axioms;

/// A packet of this length or less is of no interest where nothing was found in
/// it.
pub const MAX_IGNORABLE_BINARY_PACKET_LEN: usize = 96;

/// How many bytes of a payload its preview shows.
pub const PREVIEW_BYTES: usize = 96;

/// What is shown in place of a payload's text where it has none.
pub const UNREADABLE_PROTOCOL_TEXT: &'static str = "未解析到可读协议文本";

/// An IPv4 address.
#[derive(Clone, Copy, Debug, PartialEq, Eq, Structural)]
pub struct Ipv4 {
    pub a: u8,
    pub b: u8,
    pub c: u8,
    pub d: u8,
}

impl Ipv4 {
    /// The address as one number.
    pub open spec fn number(self) -> int {
        0x100_0000 * self.a + 0x1_0000 * self.b + 0x100 * self.c + self.d
    }

    /// The address as it is written.
    pub open spec fn shown(self) -> Seq<char> {
        text::dec(self.a as nat) + "."@ + text::dec(self.b as nat) + "."@ + text::dec(
            self.c as nat,
        ) + "."@ + text::dec(self.d as nat)
    }

    pub fn to_number(self) -> (r: u32)
        ensures
            r == self.number(),
    {
        0x100_0000 * (self.a as u32) + 0x1_0000 * (self.b as u32) + 0x100 * (self.c as u32) + (
        self.d as u32)
    }

    pub fn show(self) -> (out: String)
        ensures
            out@ == self.shown(),
    {
        let mut out = text::dec_string(self.a as u64);
        out.append(".");
        out.append(text::dec_string(self.b as u64).as_str());
        out.append(".");
        out.append(text::dec_string(self.c as u64).as_str());
        out.append(".");
        out.append(text::dec_string(self.d as u64).as_str());
        out
    }
}

/// The number that two bytes write, the most significant one first.
pub open spec fn be16(b: Seq<u8>, at: int) -> u16 {
    (0x100 * b[at] + b[at + 1]) as u16
}

fn read_be16(b: &[u8], at: usize) -> (r: u16)
    requires
        at + 2 <= b@.len(),
    ensures
        r == be16(b@, at as int),
{
    0x100 * (b[at] as u16) + (b[at + 1] as u16)
}

pub open spec fn address_at(b: Seq<u8>, at: int) -> Ipv4 {
    Ipv4 { a: b[at], b: b[at + 1], c: b[at + 2], d: b[at + 3] }
}

fn read_address(b: &[u8], at: usize) -> (r: Ipv4)
    requires
        at + 4 <= b@.len(),
    ensures
        r == address_at(b@, at as int),
{
    Ipv4 { a: b[at], b: b[at + 1], c: b[at + 2], d: b[at + 3] }
}

/// The frame carries a VLAN tag.
pub open spec fn tagged(p: Seq<u8>) -> bool {
    be16(p, 12) == 0x8100 && p.len() >= 18
}

/// Where the IP header of a frame starts.
pub open spec fn ip_start(p: Seq<u8>) -> int {
    if tagged(p) {
        18
    } else {
        14
    }
}

/// Where the UDP header of a frame starts.
pub open spec fn udp_start(p: Seq<u8>) -> int {
    ip_start(p) + 4 * (p[ip_start(p)] % 16)
}

/// The length of the UDP datagram: what its header says, as far as the frame
/// goes.
pub open spec fn udp_length(p: Seq<u8>) -> int {
    let said = be16(p, udp_start(p) + 4) as int;
    if said < p.len() - udp_start(p) {
        said
    } else {
        p.len() - udp_start(p)
    }
}

/// The frame holds a UDP datagram over IPv4.
pub open spec fn is_udp_ipv4(p: Seq<u8>) -> bool {
    &&& p.len() >= 14
    &&& be16(p, ip_start(p) - 2) == 0x0800
    &&& p.len() >= ip_start(p) + 20
    &&& p[ip_start(p)] / 16 == 4
    &&& 4 * (p[ip_start(p)] % 16) >= 20
    &&& p.len() >= udp_start(p) + 8
    &&& p[ip_start(p) + 9] == 17
    &&& udp_length(p) >= 8
}

/// Source and destination of a UDP datagram over IPv4, and its payload; nothing
/// for any other frame.
pub fn parse_udp_ipv4(packet: &[u8]) -> (r: Option<(Ipv4, u16, Ipv4, u16, &[u8])>)
    ensures
        match r {
            Some((source, source_port, destination, destination_port, payload)) => {
                &&& is_udp_ipv4(packet@)
                &&& source == address_at(packet@, ip_start(packet@) + 12)
                &&& source_port == be16(packet@, udp_start(packet@))
                &&& destination == address_at(packet@, ip_start(packet@) + 16)
                &&& destination_port == be16(packet@, udp_start(packet@) + 2)
                &&& payload@ == packet@.subrange(
                    udp_start(packet@) + 8,
                    udp_start(packet@) + udp_length(packet@),
                )
            },
            None => !is_udp_ipv4(packet@),
        },
{
    if packet.len() < 14 {
        return None;
    }
    let mut ip: usize = 14;
    let mut ether_type: u16 = read_be16(packet, 12);
    if ether_type == 0x8100 && packet.len() >= 18 {
        ether_type = read_be16(packet, 16);
        ip = 18;
    }
    if ether_type != 0x0800 || packet.len() < ip + 20 {
        return None;
    }
    let header_length: usize = 4 * ((packet[ip] % 16) as usize);
    if packet[ip] / 16 != 4 || header_length < 20 || packet.len() - ip < header_length + 8
        || packet[ip + 9] != 17 {
        return None;
    }
    let udp: usize = ip + header_length;
    let said: usize = read_be16(packet, udp + 4) as usize;
    let length: usize = if said < packet.len() - udp { said } else { packet.len() - udp };
    if length < 8 {
        return None;
    }
    Some(
        (
            read_address(packet, ip + 12),
            read_be16(packet, udp),
            read_address(packet, ip + 16),
            read_be16(packet, udp + 2),
            slice_subrange(packet, udp + 8, udp + length),
        ),
    )
}

// --------------------------------------------------------------- protocol text

/// How many characters of `s` are in the set.
pub open spec fn count(s: Seq<char>, set: spec_fn(char) -> bool) -> int
    decreases s.len(),
{
    if s.len() == 0 {
        0
    } else {
        count(s.drop_last(), set) + if set(s.last()) {
            1int
        } else {
            0
        }
    }
}

pub open spec fn is_letter(c: char) -> bool {
    ('a' <= c && c <= 'z') || ('A' <= c && c <= 'Z')
}

pub open spec fn is_upper(c: char) -> bool {
    'A' <= c && c <= 'Z'
}

/// A character that identifiers are made of.
pub open spec fn is_identifier(c: char) -> bool {
    text::is_ascii_alnum(c) || c == '_' || c == '.' || c == ':' || c == '/' || c == '-'
}

/// The text holds a word that the game's protocol is known for.
pub open spec fn has_protocol_marker(s: Seq<char>) -> bool {
    ||| text::contains(s, "Abyss"@)
    ||| text::contains(s, "Ability."@)
    ||| text::contains(s, "AbilitySystem"@)
    ||| text::contains(s, "AppearMelee"@)
    ||| text::contains(s, "BackEvade"@)
    ||| text::contains(s, "Boss"@)
    ||| text::contains(s, "CharacterForNet"@)
    ||| text::contains(s, "CityEvent"@)
    ||| text::contains(s, "CityLive"@)
    ||| text::contains(s, "CoolDown."@)
    ||| text::contains(s, "CurrentGameplayID"@)
    ||| text::contains(s, "DataLayer"@)
    ||| text::contains(s, "DissolveMontage"@)
    ||| text::contains(s, "DropBox"@)
    ||| text::contains(s, "Event."@)
    ||| text::contains(s, "FrontEvade"@)
    ||| text::contains(s, "Game/"@)
    ||| text::contains(s, "GameplayCue."@)
    ||| text::contains(s, "HTClient"@)
    ||| text::contains(s, "HTRoom"@)
    ||| text::contains(s, "Monster"@)
    ||| text::contains(s, "PrivateSpawn"@)
    ||| text::contains(s, "Record"@)
    ||| text::contains(s, "SilentCheckComponent"@)
    ||| text::contains(s, "SkeletalMesh"@)
    ||| text::contains(s, "Stamina"@)
    ||| text::contains(s, "State."@)
    ||| text::contains(s, "Teleport"@)
    ||| text::contains(s, "UnbalCurrent"@)
    ||| text::contains(s, "WorldBoss"@)
    ||| text::contains(s, "FirstHalf"@)
    ||| text::contains(s, "SecondHalf"@)
    ||| text::contains(s, "Phase"@)
    ||| text::contains(s, "Wave"@)
    ||| text::contains(s, "MaxHP"@)
}

fn holds_protocol_marker(s: &Vec<char>) -> (r: bool)
    ensures
        r == has_protocol_marker(s@),
{
    text::has(s, "Abyss") || text::has(s, "Ability.") || text::has(s, "AbilitySystem") || text::has(
        s,
        "AppearMelee",
    ) || text::has(s, "BackEvade") || text::has(s, "Boss") || text::has(s, "CharacterForNet")
        || text::has(s, "CityEvent") || text::has(s, "CityLive") || text::has(s, "CoolDown.")
        || text::has(s, "CurrentGameplayID") || text::has(s, "DataLayer") || text::has(
        s,
        "DissolveMontage",
    ) || text::has(s, "DropBox") || text::has(s, "Event.") || text::has(s, "FrontEvade")
        || text::has(s, "Game/") || text::has(s, "GameplayCue.") || text::has(s, "HTClient")
        || text::has(s, "HTRoom") || text::has(s, "Monster") || text::has(s, "PrivateSpawn")
        || text::has(s, "Record") || text::has(s, "SilentCheckComponent") || text::has(
        s,
        "SkeletalMesh",
    ) || text::has(s, "Stamina") || text::has(s, "State.") || text::has(s, "Teleport")
        || text::has(s, "UnbalCurrent") || text::has(s, "WorldBoss") || text::has(s, "FirstHalf")
        || text::has(s, "SecondHalf") || text::has(s, "Phase") || text::has(s, "Wave")
        || text::has(s, "MaxHP")
}

/// The text starts like the name of an Unreal type: a type letter, then an upper
/// case letter, with lower-case letters somewhere.
pub open spec fn is_unreal_type_name(s: Seq<char>) -> bool {
    &&& s.len() >= 2
    &&& s[0] == 'A' || s[0] == 'E' || s[0] == 'F' || s[0] == 'U'
    &&& is_upper(s[1])
    &&& exists|i: int| 0 <= i < s.len() && 'a' <= #[trigger] s[i] && s[i] <= 'z'
}

/// The text is an identifier of the kind that the protocol uses.
pub open spec fn is_structured_identifier(s: Seq<char>) -> bool {
    let length = text::utf8_len(s);
    let letters = count(s, |c: char| is_letter(c));
    let digits = count(s, |c: char| text::is_digit(c));
    let spaces = count(s, |c: char| c == ' ');
    &&& length >= 8
    &&& forall|i: int| 0 <= i < s.len() ==> is_identifier(#[trigger] s[i])
    &&& (text::contains(s, "_"@) || text::contains(s, "."@) || text::contains(s, "::"@)
        || is_unreal_type_name(s))
    &&& letters >= 5
    &&& (length - letters - digits - spaces) * 4 <= length
}

pub open spec fn at_most(n: int, max: int) -> int {
    if n < max {
        n
    } else {
        max
    }
}

/// How much a text looks like one of the game's protocol; zero where it does not.
pub open spec fn protocol_score(s: Seq<char>) -> int {
    let length = text::utf8_len(s);
    if length < runs::MIN_READABLE_TEXT_LEN {
        0
    } else if has_protocol_marker(s) {
        100 + at_most(length, 100)
    } else if text::starts_with(s, "/Game/"@) {
        200 + at_most(length, 100)
    } else if is_structured_identifier(s) {
        20 + at_most(length, 50)
    } else {
        0
    }
}

/// A count of what a text is made of.
struct Composition {
    length: u128,
    letters: u128,
    digits: u128,
    spaces: u128,
    identifier: bool,
    has_lower: bool,
}

fn composition(s: &Vec<char>) -> (r: Composition)
    ensures
        r.length == text::utf8_len(s@),
        r.letters == count(s@, |c: char| is_letter(c)),
        r.digits == count(s@, |c: char| text::is_digit(c)),
        r.spaces == count(s@, |c: char| c == ' '),
        r.letters + r.digits + r.spaces <= r.length <= 4 * s@.len(),
        r.identifier == (forall|i: int| 0 <= i < s@.len() ==> is_identifier(#[trigger] s@[i])),
        r.has_lower == (exists|i: int|
            0 <= i < s@.len() && 'a' <= #[trigger] s@[i] && s@[i] <= 'z'),
{
    let mut r = Composition {
        length: 0,
        letters: 0,
        digits: 0,
        spaces: 0,
        identifier: true,
        has_lower: false,
    };
    let mut i: usize = 0;
    while i < s.len()
        invariant
            i <= s.len(),
            r.length == text::utf8_len(s@.take(i as int)),
            r.letters == count(s@.take(i as int), |c: char| is_letter(c)),
            r.digits == count(s@.take(i as int), |c: char| text::is_digit(c)),
            r.spaces == count(s@.take(i as int), |c: char| c == ' '),
            r.letters + r.digits + r.spaces <= r.length <= 4 * i,
            r.identifier == (forall|k: int| 0 <= k < i ==> is_identifier(#[trigger] s@[k])),
            r.has_lower == (exists|k: int| 0 <= k < i && 'a' <= #[trigger] s@[k] && s@[k] <= 'z'),
        decreases s.len() - i,
    {
        let c = s[i];
        proof {
            let t = s@.take(i + 1);
            assert(t.drop_last() =~= s@.take(i as int));
            assert(t.last() == c);
        }
        let width: u128 = if c <= '\u{7f}' {
            1
        } else if c <= '\u{7ff}' {
            2
        } else if c <= '\u{ffff}' {
            3
        } else {
            4
        };
        r.length = r.length + width;
        let lower = 'a' <= c && c <= 'z';
        let upper = 'A' <= c && c <= 'Z';
        let digit = text::digit_char(c);
        if lower || upper {
            r.letters = r.letters + 1;
        } else if digit {
            r.digits = r.digits + 1;
        } else if c == ' ' {
            r.spaces = r.spaces + 1;
        }
        if lower {
            r.has_lower = true;
        }
        if !(lower || upper || digit || c == '_' || c == '.' || c == ':' || c == '/' || c == '-') {
            r.identifier = false;
        }
        i += 1;
    }
    assert(s@.take(i as int) =~= s@);
    r
}

/// How much a text looks like one of the game's protocol; zero where it does not.
pub fn protocol_text_score(value: &str) -> (score: usize)
    ensures
        score == protocol_score(value@),
{
    text_score(&text::chars_of(value))
}

fn text_score(s: &Vec<char>) -> (score: usize)
    ensures
        score == protocol_score(s@),
{
    let made_of = composition(s);
    let length: u128 = made_of.length;
    if length < 4 {
        return 0;
    }
    if holds_protocol_marker(s) {
        return if length < 100 { 100 + length as usize } else { 200 };
    }
    if text::starts(s, "/Game/") {
        return if length < 100 { 200 + length as usize } else { 300 };
    }
    if length < 8 || !made_of.identifier || made_of.letters < 5 {
        return 0;
    }
    let unreal_name = s.len() >= 2 && (s[0] == 'A' || s[0] == 'E' || s[0] == 'F' || s[0] == 'U')
        && 'A' <= s[1] && s[1] <= 'Z' && made_of.has_lower;
    let structured = text::has(s, "_") || text::has(s, ".") || text::has(s, "::") || unreal_name;
    let punctuation: u128 = length - made_of.letters - made_of.digits - made_of.spaces;
    if structured && punctuation * 4 <= length {
        return if length < 50 { 20 + length as usize } else { 70 };
    }
    0
}

/// A text with its score.
pub open spec fn scored_views(v: Seq<(usize, Vec<char>)>) -> Seq<(int, Seq<char>)> {
    v.map_values(|x: (usize, Vec<char>)| (x.0 as int, x.1@))
}

/// Some element holds the text.
pub open spec fn holds_text(found: Seq<(int, Seq<char>)>, value: Seq<char>) -> bool {
    exists|i: int| 0 <= i < found.len() && (#[trigger] found[i]).1 == value
}

/// `found` with the protocol texts among the first `n` runs, each once.
pub open spec fn with_runs(
    found: Seq<(int, Seq<char>)>,
    new: Seq<(int, Seq<char>)>,
    n: int,
) -> Seq<(int, Seq<char>)>
    decreases n,
{
    if n <= 0 {
        found
    } else {
        let before = with_runs(found, new, n - 1);
        let value = text::trim(new[n - 1].1, Class::Space);
        let score = protocol_score(value);
        if score == 0 || holds_text(before, value) {
            before
        } else {
            before.push((score, value))
        }
    }
}

/// The protocol texts of the data at all bit shifts below `k`, in the order in
/// which they are found.
pub open spec fn protocol_texts(data: Seq<u8>, k: int) -> Seq<(int, Seq<char>)>
    decreases k,
{
    if k <= 0 {
        Seq::empty()
    } else {
        let new = runs::runs(bits::shifted(data, k - 1));
        with_runs(protocol_texts(data, k - 1), new, new.len() as int)
    }
}

/// Keys that put higher scores first.
pub open spec fn by_score(found: Seq<(int, Seq<char>)>) -> Seq<(u128, Seq<char>)> {
    found.map_values(|x: (int, Seq<char>)| ((1000 - x.0) as u128, x.1))
}

/// The readable protocol text of a payload: the texts found at any bit shift, a
/// line each, those with the higher score first.
pub open spec fn payload_text(data: Seq<u8>) -> Seq<char> {
    let found = protocol_texts(data, 8);
    if found.len() == 0 {
        UNREADABLE_PROTOCOL_TEXT@
    } else {
        text::join(sorting::values(sorting::sorted(by_score(found))), "\n"@)
    }
}

proof fn lemma_score_bound(s: Seq<char>)
    ensures
        0 <= protocol_score(s) <= 300,
{
    lemma_utf8_len_nonnegative(s);
}

proof fn lemma_utf8_len_nonnegative(s: Seq<char>)
    ensures
        text::utf8_len(s) >= 0,
    decreases s.len(),
{
    if s.len() > 0 {
        lemma_utf8_len_nonnegative(s.drop_last());
    }
}

fn has_text(found: &Vec<(usize, Vec<char>)>, value: &Vec<char>) -> (r: bool)
    ensures
        r == holds_text(scored_views(found@), value@),
{
    let mut i: usize = 0;
    while i < found.len()
        invariant
            i <= found.len(),
            forall|k: int| 0 <= k < i ==> (#[trigger] scored_views(found@)[k]).1 != value@,
        decreases found.len() - i,
    {
        if text::same(&found[i].1, value) {
            assert(scored_views(found@)[i as int].1 == value@);
            return true;
        }
        i += 1;
    }
    false
}

fn collect_protocol_texts(data: &[u8]) -> (found: Vec<(usize, Vec<char>)>)
    ensures
        scored_views(found@) == protocol_texts(data@, 8),
        forall|i: int| 0 <= i < found@.len() ==> (#[trigger] found@[i]).0 <= 300,
{
    let mut found: Vec<(usize, Vec<char>)> = Vec::new();
    let mut bit_shift: u8 = 0;
    assert(scored_views(found@) =~= protocol_texts(data@, 0));
    while bit_shift < 8
        invariant
            bit_shift <= 8,
            scored_views(found@) == protocol_texts(data@, bit_shift as int),
            forall|i: int| 0 <= i < found@.len() ==> (#[trigger] found@[i]).0 <= 300,
        decreases 8 - bit_shift,
    {
        let d = bits::decode_shifted_payload(data, bit_shift);
        let new = runs::readable_runs(&d);
        let ghost start = scored_views(found@);
        let ghost new_views = runs::run_views(new@);
        let mut n: usize = 0;
        while n < new.len()
            invariant
                n <= new.len(),
                new_views == runs::run_views(new@),
                scored_views(found@) == with_runs(start, new_views, n as int),
                forall|i: int| 0 <= i < found@.len() ==> (#[trigger] found@[i]).0 <= 300,
            decreases new.len() - n,
        {
            let value = text::trimmed(&new[n].1, Class::Space);
            let score = text_score(&value);
            proof {
                lemma_score_bound(value@);
            }
            let ghost before = scored_views(found@);
            if score != 0 && !has_text(&found, &value) {
                found.push((score, value));
                assert(scored_views(found@) =~= before.push((score as int, value@)));
            }
            n += 1;
        }
        bit_shift += 1;
    }
    found
}

/// The readable protocol text of a payload.
pub fn decode_payload_text(data: &[u8]) -> (out: String)
    ensures
        out@ == payload_text(data@),
{
    let found = collect_protocol_texts(data);
    if found.len() == 0 {
        return UNREADABLE_PROTOCOL_TEXT.to_owned();
    }
    let ghost wanted = by_score(scored_views(found@));
    let mut keyed: Vec<(u128, String)> = Vec::new();
    let mut i: usize = 0;
    while i < found.len()
        invariant
            i <= found.len(),
            wanted == by_score(scored_views(found@)),
            forall|k: int| 0 <= k < found@.len() ==> (#[trigger] found@[k]).0 <= 300,
            keyed@.len() == i,
            forall|k: int|
                0 <= k < i ==> (#[trigger] keyed@[k]).0 == wanted[k].0 && keyed@[k].1@
                    == wanted[k].1,
        decreases found.len() - i,
    {
        let key: u128 = (1000 - found[i].0) as u128;
        assert(found@[i as int].0 <= 300);
        keyed.push((key, text::string_of(&found[i].1)));
        i += 1;
    }
    let ghost before = keyed@;
    let sorted = sorting::sort_by_key(keyed);
    proof {
        let view = |x: String| x@;
        assert(sorting::mapped(before, view) =~= wanted);
        sorting::sorted_commutes_with_mapping(before, view);
    }
    let mut lines: Vec<String> = Vec::new();
    let mut rest = sorted;
    let mut j: usize = 0;
    while j < rest.len()
        invariant
            j <= rest.len(),
            lines@.len() == j,
            forall|k: int| 0 <= k < j ==> (#[trigger] lines@[k])@ == rest@[k].1@,
        decreases rest.len() - j,
    {
        lines.push(rest[j].1.clone());
        j += 1;
    }
    assert(text::texts(lines@) =~= sorting::values(sorting::sorted(wanted)));
    text::join_strings(&lines, "\n")
}

/// All bytes are alike.
pub open spec fn is_padding(d: Seq<u8>) -> bool {
    forall|i: int| 0 <= i < d.len() ==> #[trigger] d[i] == d[0]
}

fn is_padding_payload(d: &[u8]) -> (r: bool)
    ensures
        r == is_padding(d@),
{
    let mut i: usize = 0;
    while i < d.len()
        invariant
            i <= d@.len(),
            forall|k: int| 0 <= k < i ==> #[trigger] d@[k] == d@[0],
        decreases d@.len() - i,
    {
        if d[i] != d[0] {
            return false;
        }
        i += 1;
    }
    true
}

/// A packet is worth listing: something was found in it, or it is long and more
/// than padding.
pub open spec fn worth_listing(
    payload: Seq<u8>,
    declared_ids: Seq<u32>,
    parsed_hits: int,
    decoded_text: Seq<char>,
) -> bool {
    ||| parsed_hits > 0
    ||| declared_ids.len() > 0
    ||| decoded_text != UNREADABLE_PROTOCOL_TEXT@
    ||| !is_padding(payload) && payload.len() > MAX_IGNORABLE_BINARY_PACKET_LEN
}

/// Whether a packet is worth listing.
pub fn should_keep_debug_packet(
    payload: &[u8],
    declared_ids: &[u32],
    parsed_hits: usize,
    decoded_text: &str,
) -> (r: bool)
    ensures
        r == worth_listing(payload@, declared_ids@, parsed_hits as int, decoded_text@),
{
    if parsed_hits > 0 || declared_ids.len() > 0 || !text::same_str(
        decoded_text,
        UNREADABLE_PROTOCOL_TEXT,
    ) {
        return true;
    }
    !is_padding_payload(payload) && payload.len() > MAX_IGNORABLE_BINARY_PACKET_LEN
}

// -------------------------------------------------------------------- decoding

/// One number for the two ends of a connection.
pub open spec fn session_key(source: Ipv4, source_port: u16, destination: Ipv4, destination_port: u16) -> int {
    ((source.number() * 0x1_0000 + source_port) * 0x1_0000_0000 + destination.number()) * 0x1_0000
        + destination_port
}

/// One number for an end of a connection.
pub open spec fn endpoint_key(address: Ipv4, port: u16) -> int {
    address.number() * 0x1_0000 + port
}

/// Connections with different ends have different numbers.
pub proof fn session_keys_are_distinct(
    s1: Ipv4,
    p1: u16,
    d1: Ipv4,
    q1: u16,
    s2: Ipv4,
    p2: u16,
    d2: Ipv4,
    q2: u16,
)
    ensures
        session_key(s1, p1, d1, q1) == session_key(s2, p2, d2, q2) ==> s1 == s2 && p1 == p2 && d1
            == d2 && q1 == q2,
        endpoint_key(s1, p1) == endpoint_key(s2, p2) ==> s1 == s2 && p1 == p2,
{
    lemma_address_number(s1, s2);
    lemma_address_number(d1, d2);
    if session_key(s1, p1, d1, q1) == session_key(s2, p2, d2, q2) {
        lemma_digits(
            (s1.number() * 0x1_0000 + p1) * 0x1_0000_0000 + d1.number(),
            q1 as int,
            (s2.number() * 0x1_0000 + p2) * 0x1_0000_0000 + d2.number(),
            q2 as int,
            0x1_0000,
        );
        lemma_digits(
            s1.number() * 0x1_0000 + p1,
            d1.number(),
            s2.number() * 0x1_0000 + p2,
            d2.number(),
            0x1_0000_0000,
        );
        lemma_digits(s1.number(), p1 as int, s2.number(), p2 as int, 0x1_0000);
    }
    if endpoint_key(s1, p1) == endpoint_key(s2, p2) {
        lemma_digits(s1.number(), p1 as int, s2.number(), p2 as int, 0x1_0000);
    }
}

proof fn lemma_digits(a: int, b: int, c: int, d: int, base: int)
    requires
        0 <= b < base,
        0 <= d < base,
        a * base + b == c * base + d,
    ensures
        a == c,
        b == d,
{
    if a != c {
        assert((a - c) * base == d - b) by (nonlinear_arith)
            requires
                a * base + b == c * base + d,
        ;
        assert((a - c) * base >= base || (a - c) * base <= -base) by (nonlinear_arith)
            requires
                a != c,
                base > 0,
        ;
    }
}

proof fn lemma_address_number(x: Ipv4, y: Ipv4)
    ensures
        0 <= x.number() < 0x1_0000_0000,
        x.number() == y.number() ==> x == y,
{
    if x.number() == y.number() {
        lemma_digits(
            0x1_0000 * x.a + 0x100 * x.b + x.c,
            x.d as int,
            0x1_0000 * y.a + 0x100 * y.b + y.c,
            y.d as int,
            0x100,
        );
        lemma_digits(0x100 * x.a + x.b, x.c as int, 0x100 * y.a + y.b, y.c as int, 0x100);
        lemma_digits(x.a as int, x.b as int, y.a as int, y.b as int, 0x100);
    }
}

fn session_number(
    source: Ipv4,
    source_port: u16,
    destination: Ipv4,
    destination_port: u16,
) -> (r: u128)
    ensures
        r == session_key(source, source_port, destination, destination_port),
{
    (((source.to_number() as u128) * 0x1_0000 + (source_port as u128)) * 0x1_0000_0000 + (
    destination.to_number() as u128)) * 0x1_0000 + (destination_port as u128)
}

fn endpoint_number(address: Ipv4, port: u16) -> (r: u64)
    ensures
        r == endpoint_key(address, port),
{
    (address.to_number() as u64) * 0x1_0000 + (port as u64)
}

/// What the decoder remembers: the last character that each connection declared,
/// and the ends that have declared one.
pub struct PacketDecoder {
    pub session_characters: HashMap<u128, u32>,
    pub client_endpoints: HashSet<u64>,
}

/// The contents of a decoder.
#[verifier::ext_equal]
pub struct DecoderView {
    pub session_characters: Map<u128, u32>,
    pub client_endpoints: Set<u64>,
}

impl View for PacketDecoder {
    type V = DecoderView;

    open spec fn view(&self) -> DecoderView {
        DecoderView {
            session_characters: self.session_characters@,
            client_endpoints: self.client_endpoints@,
        }
    }
}

/// What is to be done with the frames of a capture.
#[derive(Clone, Copy, Debug)]
pub struct FrameOptions {
    /// The machine's own address, where only its traffic counts.
    pub local_ip: Option<Ipv4>,
    /// Whether damage that characters take is reported.
    pub include_incoming: bool,
}

/// A hit is reported.
pub open spec fn reported(hit: model::HitView, include_incoming: bool) -> bool {
    include_incoming || hit.direction != "incoming"@
}

/// How many of the first `n` hits are reported.
pub open spec fn reported_count(hits: Seq<model::HitView>, include_incoming: bool, n: int) -> int
    decreases n,
{
    if n <= 0 {
        0
    } else {
        reported_count(hits, include_incoming, n - 1) + if reported(hits[n - 1], include_incoming) {
            1int
        } else {
            0
        }
    }
}

/// The events for the first `n` hits.
pub open spec fn hit_events(hits: Seq<model::HitView>, include_incoming: bool, n: int) -> Seq<
    model::EventView,
>
    decreases n,
{
    if n <= 0 {
        Seq::empty()
    } else {
        let before = hit_events(hits, include_incoming, n - 1);
        if reported(hits[n - 1], include_incoming) {
            before.push(model::EventView::Hit(hits[n - 1]))
        } else {
            before
        }
    }
}

/// The events for a listed packet: what its text tells about the abyss run, then
/// the packet.
pub open spec fn packet_events(packet: model::PacketView) -> Seq<model::EventView> {
    crate::abyss::told_events(packet.timestamp, packet.decoded_text).map_values(
        |e: AbyssEvent| model::EventView::Abyss(e),
    ).push(model::EventView::Packet(packet))
}

/// A UDP datagram.
#[verifier::ext_equal]
pub struct Datagram {
    pub source: Ipv4,
    pub source_port: u16,
    pub destination: Ipv4,
    pub destination_port: u16,
    pub payload: Seq<u8>,
}

/// The datagram that a frame holds.
pub open spec fn datagram(p: Seq<u8>) -> Datagram {
    Datagram {
        source: address_at(p, ip_start(p) + 12),
        source_port: be16(p, udp_start(p)),
        destination: address_at(p, ip_start(p) + 16),
        destination_port: be16(p, udp_start(p) + 2),
        payload: p.subrange(udp_start(p) + 8, udp_start(p) + udp_length(p)),
    }
}

/// The datagram is between other machines.
pub open spec fn foreign(d: Datagram, local_ip: Option<Ipv4>) -> bool {
    match local_ip {
        Some(ip) => d.source != ip && d.destination != ip,
        None => false,
    }
}

/// The characters that the datagram declares.
pub open spec fn datagram_ids(d: Datagram) -> Seq<u32> {
    let evidence = parser::declared(d.payload);
    parser::distinct_ids(evidence, evidence.len() as int)
}

/// The datagram goes to the server: it comes from this machine, or, where that is
/// not known, it declares a character or comes from an end that has declared
/// some before.
pub open spec fn is_outgoing(before: DecoderView, d: Datagram, local_ip: Option<Ipv4>) -> bool {
    match local_ip {
        Some(ip) => d.source == ip,
        None => datagram_ids(d).len() > 0
            || before.client_endpoints.contains(endpoint_key(d.source, d.source_port) as u64),
    }
}

/// The character that the datagram speaks for.
pub open spec fn packet_character(d: Datagram) -> Option<u32> {
    if datagram_ids(d).len() == 1 {
        Some(datagram_ids(d)[0])
    } else {
        None
    }
}

/// What the decoder remembers after the datagram.
pub open spec fn remembered(before: DecoderView, d: Datagram, local_ip: Option<Ipv4>) -> DecoderView {
    let key = session_key(d.source, d.source_port, d.destination, d.destination_port) as u128;
    DecoderView {
        session_characters: match packet_character(d) {
            Some(id) => if is_outgoing(before, d, local_ip) {
                before.session_characters.insert(key, id)
            } else {
                before.session_characters
            },
            None => before.session_characters,
        },
        client_endpoints: if datagram_ids(d).len() > 0 {
            before.client_endpoints.insert(endpoint_key(d.source, d.source_port) as u64)
        } else {
            before.client_endpoints
        },
    }
}

/// The character that the connection has last declared.
pub open spec fn session_character(state: DecoderView, d: Datagram) -> Option<u32> {
    let key = session_key(d.source, d.source_port, d.destination, d.destination_port) as u128;
    if state.session_characters.contains_key(key) {
        Some(state.session_characters[key])
    } else {
        None
    }
}

/// The hits of the datagram; only what goes to the server reports hits.
pub open spec fn datagram_hits(
    before: DecoderView,
    d: Datagram,
    timestamp: i64,
    local_ip: Option<Ipv4>,
    characters: Map<u32, CharacterInfo>,
) -> Seq<model::HitView> {
    if is_outgoing(before, d, local_ip) {
        parser::records_up_to(d.payload, 8 * d.payload.len() as int).map_values(
            |r: parser::ParsedDamageRecord|
                parser::hit_of(
                    d.payload,
                    r,
                    timestamp,
                    packet_character(d),
                    session_character(remembered(before, d, local_ip), d),
                    characters,
                    parser::declared(d.payload),
                ),
        )
    } else {
        Seq::empty()
    }
}

/// The packet as it is listed.
pub open spec fn listed_packet(
    d: Datagram,
    timestamp: i64,
    outgoing: bool,
    found: int,
    accepted: int,
) -> model::PacketView {
    let hex = hexadecimal::hex_text(d.payload);
    model::PacketView {
        timestamp,
        source: d.source.shown() + ":"@ + text::dec(d.source_port as nat),
        destination: d.destination.shown() + ":"@ + text::dec(d.destination_port as nat),
        direction: if outgoing {
            "C2S"@
        } else {
            "S2C"@
        },
        payload_len: d.payload.len() as usize,
        declared_ids: datagram_ids(d),
        parsed_hits: accepted as usize,
        note: if found != accepted {
            "过滤 "@ + text::dec((found - accepted) as nat) + " 条 incoming 记录"@
        } else {
            Seq::empty()
        },
        payload_preview: hex.take(2 * at_most(d.payload.len() as int, PREVIEW_BYTES as int)),
        payload_hex: hex,
        decoded_text: payload_text(d.payload),
    }
}

/// The events that a frame gives.
pub open spec fn frame_events(
    before: DecoderView,
    frame: Seq<u8>,
    timestamp: i64,
    options: FrameOptions,
    characters: Map<u32, CharacterInfo>,
) -> Seq<model::EventView> {
    let d = datagram(frame);
    if !is_udp_ipv4(frame) || foreign(d, options.local_ip) {
        Seq::empty()
    } else {
        let outgoing = is_outgoing(before, d, options.local_ip);
        let hits = datagram_hits(before, d, timestamp, options.local_ip, characters);
        let found = hits.len() as int;
        let accepted = reported_count(hits, options.include_incoming, found);
        if worth_listing(d.payload, datagram_ids(d), accepted, payload_text(d.payload)) {
            packet_events(listed_packet(d, timestamp, outgoing, found, accepted)) + hit_events(
                hits,
                options.include_incoming,
                found,
            )
        } else {
            Seq::empty()
        }
    }
}

/// What the decoder remembers after a frame.
pub open spec fn frame_memory(before: DecoderView, frame: Seq<u8>, options: FrameOptions) -> DecoderView {
    let d = datagram(frame);
    if !is_udp_ipv4(frame) || foreign(d, options.local_ip) {
        before
    } else {
        remembered(before, d, options.local_ip)
    }
}

fn direction_is_incoming(hit: &Hit) -> (r: bool)
    ensures
        r == (hit.direction@ == "incoming"@),
{
    text::same_str(hit.direction.as_str(), "incoming")
}

fn count_reported(hits: &Vec<Hit>, include_incoming: bool) -> (r: usize)
    ensures
        r == reported_count(model::hit_views(hits@), include_incoming, hits@.len() as int),
        r <= hits@.len(),
{
    let mut accepted: usize = 0;
    let mut i: usize = 0;
    while i < hits.len()
        invariant
            i <= hits.len(),
            accepted <= i,
            accepted == reported_count(model::hit_views(hits@), include_incoming, i as int),
        decreases hits.len() - i,
    {
        if include_incoming || !direction_is_incoming(&hits[i]) {
            accepted += 1;
        }
        i += 1;
    }
    accepted
}

/// The events for a listed packet.
pub fn events_of_packet(packet: PacketDebug) -> (events: Vec<EngineEvent>)
    ensures
        model::event_views(events@) == packet_events(packet@),
{
    let told = crate::abyss::abyss_events_from_text(packet.timestamp, packet.decoded_text.as_str());
    let mut events: Vec<EngineEvent> = Vec::new();
    let mut i: usize = 0;
    while i < told.len()
        invariant
            i <= told.len(),
            events@.len() == i,
            forall|k: int| 0 <= k < i ==> (#[trigger] events@[k])@ == model::EventView::Abyss(told@[k]),
        decreases told.len() - i,
    {
        events.push(EngineEvent::Abyss(told[i]));
        i += 1;
    }
    events.push(EngineEvent::Packet(packet));
    assert(model::event_views(events@) =~= packet_events(packet@));
    events
}

fn push_hit_events(events: &mut Vec<EngineEvent>, hits: Vec<Hit>, include_incoming: bool)
    ensures
        model::event_views(final(events)@) == model::event_views(old(events)@) + hit_events(
            model::hit_views(hits@),
            include_incoming,
            hits@.len() as int,
        ),
{
    let ghost views = model::hit_views(hits@);
    let ghost start = model::event_views(events@);
    let n: usize = hits.len();
    let mut i: usize = 0;
    let mut source = hits;
    let mut reversed: Vec<Hit> = Vec::new();
    while source.len() > 0
        invariant
            views.len() == n,
            source@.len() + reversed@.len() == n,
            forall|k: int| 0 <= k < source@.len() ==> (#[trigger] source@[k])@ == views[k],
            forall|k: int| 0 <= k < reversed@.len() ==> (#[trigger] reversed@[k])@ == views[n - 1 - k],
        decreases source.len(),
    {
        match source.pop() {
            Some(hit) => {
                reversed.push(hit);
            },
            None => {},
        }
    }
    assert(model::event_views(events@) =~= start + hit_events(views, include_incoming, 0));
    while i < n
        invariant
            i <= n,
            views.len() == n,
            reversed@.len() == n - i,
            forall|k: int| 0 <= k < reversed@.len() ==> (#[trigger] reversed@[k])@ == views[n - 1 - k],
            model::event_views(events@) == start + hit_events(views, include_incoming, i as int),
        decreases n - i,
    {
        let ghost before = model::event_views(events@);
        match reversed.pop() {
            Some(hit) => {
                assert(hit@ == views[i as int]);
                if include_incoming || !direction_is_incoming(&hit) {
                    events.push(EngineEvent::Hit(hit));
                    assert(model::event_views(events@) =~= before.push(
                        model::EventView::Hit(views[i as int]),
                    ));
                    assert(before.push(model::EventView::Hit(views[i as int])) =~= start
                        + hit_events(views, include_incoming, i + 1));
                }
            },
            None => {},
        }
        i += 1;
    }
}

impl PacketDecoder {
    pub fn new() -> (r: PacketDecoder)
        ensures
            r@.session_characters == Map::<u128, u32>::empty(),
            r@.client_endpoints == Set::<u64>::empty(),
    {
        PacketDecoder { session_characters: HashMap::new(), client_endpoints: HashSet::new() }
    }

    /// Takes in a frame and gives the events that it leads to.
    pub fn process_ethernet_frame(
        &mut self,
        packet: &[u8],
        timestamp: i64,
        options: FrameOptions,
        characters: &HashMap<u32, CharacterInfo>,
    ) -> (events: Vec<EngineEvent>)
        ensures
            final(self)@ == frame_memory(old(self)@, packet@, options),
            model::event_views(events@) == frame_events(
                old(self)@,
                packet@,
                timestamp,
                options,
                characters@,
            ),
    {
        let mut events: Vec<EngineEvent> = Vec::new();
        assert(model::event_views(events@) =~= Seq::<model::EventView>::empty());
        let (source, source_port, destination, destination_port, payload) = match parse_udp_ipv4(
            packet,
        ) {
            Some(parts) => parts,
            None => {
                return events;
            },
        };
        let ghost d = datagram(packet@);
        let ghost before = self@;
        assert(payload@ == d.payload);
        match options.local_ip {
            Some(ip) => {
                if source != ip && destination != ip {
                    return events;
                }
            },
            None => {},
        }
        let evidence = parser::find_declared_character_evidence(payload);
        let ids = parser::declared_character_ids_from_evidence(evidence.as_slice());
        assert(ids@ == datagram_ids(d));
        let client: u64 = endpoint_number(source, source_port);
        if ids.len() > 0 {
            self.client_endpoints.insert(client);
        }
        let outgoing = match options.local_ip {
            Some(ip) => source == ip,
            None => ids.len() == 1 || self.client_endpoints.contains(&client),
        };
        assert(outgoing == is_outgoing(before, d, options.local_ip));
        let hits = if outgoing {
            let packet_char_id: Option<u32> = if ids.len() == 1 { Some(ids[0]) } else { None };
            let key: u128 = session_number(source, source_port, destination, destination_port);
            match packet_char_id {
                Some(id) => {
                    self.session_characters.insert(key, id);
                },
                None => {},
            }
            let fallback: Option<u32> = match self.session_characters.get(&key) {
                Some(id) => Some(*id),
                None => None,
            };
            assert(packet_char_id == packet_character(d));
            assert(self@ =~= remembered(before, d, options.local_ip));
            assert(fallback == session_character(self@, d));
            parser::parse_damage_payload(
                payload,
                timestamp,
                packet_char_id,
                fallback,
                characters,
                evidence.as_slice(),
            )
        } else {
            let none: Vec<Hit> = Vec::new();
            assert(model::hit_views(none@) =~= Seq::<model::HitView>::empty());
            none
        };
        assert(self@ =~= remembered(before, d, options.local_ip));
        let ghost hit_contents = datagram_hits(before, d, timestamp, options.local_ip, characters@);
        assert(model::hit_views(hits@) =~= hit_contents);
        let accepted: usize = count_reported(&hits, options.include_incoming);
        let found: usize = hits.len();
        let decoded_text = decode_payload_text(payload);
        if !should_keep_debug_packet(payload, ids.as_slice(), accepted, decoded_text.as_str()) {
            return events;
        }
        let payload_hex = hexadecimal::encode(payload);
        let preview_len: usize = if payload.len() < PREVIEW_BYTES {
            payload.len()
        } else {
            PREVIEW_BYTES
        };
        let hex_chars = text::chars_of(payload_hex.as_str());
        let preview = text::part(&hex_chars, 0, preview_len * 2);
        assert(preview@ =~= hexadecimal::hex_text(d.payload).take(
            2 * at_most(d.payload.len() as int, PREVIEW_BYTES as int),
        ));
        let note = if found != accepted {
            text::concat3(
                "过滤 ",
                text::dec_string((found - accepted) as u64).as_str(),
                " 条 incoming 记录",
            )
        } else {
            String::new()
        };
        let listed = PacketDebug {
            timestamp,
            source: text::concat3(
                source.show().as_str(),
                ":",
                text::dec_string(source_port as u64).as_str(),
            ),
            destination: text::concat3(
                destination.show().as_str(),
                ":",
                text::dec_string(destination_port as u64).as_str(),
            ),
            direction: if outgoing {
                "C2S".to_owned()
            } else {
                "S2C".to_owned()
            },
            payload_len: payload.len(),
            declared_ids: ids,
            parsed_hits: accepted,
            note,
            payload_preview: text::string_of(&preview),
            payload_hex,
            decoded_text,
        };
        assert(listed@ =~= listed_packet(d, timestamp, outgoing, found as int, accepted as int));
        events = events_of_packet(listed);
        push_hit_events(&mut events, hits, options.include_incoming);
        events
    }
}

// ------------------------------------------------------------------ live capture

/// What follows from asking the capture library for a packet.
#[derive(Clone, Copy, Debug, PartialEq, Eq, Structural)]
pub enum CaptureStep {
    /// There is nothing yet.
    Again,
    /// The capture has failed.
    Failed,
    /// There is a packet.
    Decode,
}

/// The step after a reply: a negative number is a failure, zero is none yet, and a
/// packet without bytes is passed over.
pub open spec fn step_after(reply: i32, has_data: bool, length: u32) -> CaptureStep {
    if reply < 0 {
        CaptureStep::Failed
    } else if reply == 0 || !has_data || length == 0 {
        CaptureStep::Again
    } else {
        CaptureStep::Decode
    }
}

pub fn capture_step(reply: i32, has_data: bool, length: u32) -> (r: CaptureStep)
    ensures
        r == step_after(reply, has_data, length),
{
    if reply < 0 {
        CaptureStep::Failed
    } else if reply == 0 || !has_data || length == 0 {
        CaptureStep::Again
    } else {
        CaptureStep::Decode
    }
}

/// When a packet came, from the seconds and the microseconds within them.
pub fn packet_time(seconds: i32, microseconds: i32) -> (r: i64)
    ensures
        r == seconds * 1_000_000 + microseconds,
{
    (seconds as i64) * 1_000_000 + (microseconds as i64)
}

/// What is reported when a capture has begun.
pub open spec fn capture_report(description: Seq<char>, local_ip: Option<Ipv4>) -> Seq<char> {
    "正在抓包: "@ + description + " ("@ + (match local_ip {
        Some(ip) => ip.shown(),
        None => "不过滤本机 IP"@,
    }) + ")"@
}

pub fn capture_status(description: &str, local_ip: Option<Ipv4>) -> (out: String)
    ensures
        out@ == capture_report(description@, local_ip),
{
    let mut out = text::concat3("正在抓包: ", description, " (");
    match local_ip {
        Some(ip) => {
            out.append(ip.show().as_str());
        },
        None => {
            out.append("不过滤本机 IP");
        },
    }
    out.append(")");
    out
}

/// Nothing that comes from other machines, and nothing that is no UDP over IPv4,
/// leads to an event or is remembered.
pub proof fn unrelated_frames_change_nothing(
    before: DecoderView,
    frame: Seq<u8>,
    timestamp: i64,
    options: FrameOptions,
    characters: Map<u32, CharacterInfo>,
)
    requires
        !is_udp_ipv4(frame) || foreign(datagram(frame), options.local_ip),
    ensures
        frame_memory(before, frame, options) == before,
        frame_events(before, frame, timestamp, options, characters).len() == 0,
{
}

/// A hit on a character is never reported unless it is asked for.
pub proof fn incoming_hits_are_filtered(hits: Seq<model::HitView>, n: int)
    requires
        0 <= n <= hits.len(),
    ensures
        hit_events(hits, false, n).len() == reported_count(hits, false, n),
        forall|i: int|
            0 <= i < hit_events(hits, false, n).len() ==> {
                let e = #[trigger] hit_events(hits, false, n)[i];
                e is Hit && e->Hit_0.direction != "incoming"@
            },
    decreases n,
{
    if n > 0 {
        incoming_hits_are_filtered(hits, n - 1);
        let before = hit_events(hits, false, n - 1);
        let all = hit_events(hits, false, n);
        assert forall|i: int| 0 <= i < all.len() implies {
            let e = #[trigger] all[i];
            e is Hit && e->Hit_0.direction != "incoming"@
        } by {
            if i < before.len() {
                assert(all[i] == before[i]);
            }
        }
    }
}

// ------------------------------------------------------------ what frames lead to

/// What a decoder knows before its first frame.
pub open spec fn no_memory() -> DecoderView {
    DecoderView { session_characters: Map::empty(), client_endpoints: Set::empty() }
}

/// What a decoder remembers after a sequence of frames.
pub open spec fn memory_after(frames: Seq<Seq<u8>>, options: FrameOptions) -> DecoderView
    decreases frames.len(),
{
    if frames.len() == 0 {
        no_memory()
    } else {
        frame_memory(memory_after(frames.drop_last(), options), frames.last(), options)
    }
}

/// The frame holds a datagram that is from or to the machine, where one is given.
pub open spec fn concerns(frame: Seq<u8>, local_ip: Option<Ipv4>) -> bool {
    is_udp_ipv4(frame) && (local_ip matches Some(ip) ==> datagram(frame).source == ip || datagram(
        frame,
    ).destination == ip)
}

/// The payload declares a character.
pub open spec fn declares_any(payload: Seq<u8>) -> bool {
    exists|pos: int, id: u32| parser::declares(payload, pos, id)
}

/// The payload declares the character and no other one.
pub open spec fn declares_only(payload: Seq<u8>, id: u32) -> bool {
    &&& exists|pos: int| parser::declares(payload, pos, id)
    &&& forall|pos: int, other: u32| parser::declares(payload, pos, other) ==> other == id
}

/// One of the frames came from the end of a connection and declared a character.
pub open spec fn has_declared(
    frames: Seq<Seq<u8>>,
    local_ip: Option<Ipv4>,
    address: Ipv4,
    port: u16,
) -> bool {
    exists|i: int|
        0 <= i < frames.len() && concerns(#[trigger] frames[i], local_ip) && datagram(
            frames[i],
        ).source == address && datagram(frames[i]).source_port == port && declares_any(
            datagram(frames[i]).payload,
        )
}

/// The datagrams have the same ends.
pub open spec fn same_ends(a: Datagram, b: Datagram) -> bool {
    a.source == b.source && a.source_port == b.source_port && a.destination == b.destination
        && a.destination_port == b.destination_port
}

/// The datagram goes out from the machine: it has the machine's address, where one is
/// given, and else it comes from an end that declares a character now or has before.
pub open spec fn goes_out(frames: Seq<Seq<u8>>, d: Datagram, local_ip: Option<Ipv4>) -> bool {
    match local_ip {
        Some(ip) => d.source == ip,
        None => declares_any(d.payload) || has_declared(frames, local_ip, d.source, d.source_port),
    }
}

/// The character that the datagram's connection has declared last, as the only one of
/// a payload that went out.
pub open spec fn last_declared(frames: Seq<Seq<u8>>, d: Datagram, local_ip: Option<Ipv4>) -> Option<
    u32,
>
    decreases frames.len(),
{
    if frames.len() == 0 {
        None
    } else {
        let f = datagram(frames.last());
        if concerns(frames.last(), local_ip) && same_ends(f, d) && (local_ip matches Some(ip)
            ==> f.source == ip) && exists|id: u32| declares_only(f.payload, id) {
            Some(choose|id: u32| declares_only(f.payload, id))
        } else {
            last_declared(frames.drop_last(), d, local_ip)
        }
    }
}

/// No payload is longer than a machine can address.
pub open spec fn addressable(frames: Seq<Seq<u8>>) -> bool {
    forall|i: int|
        0 <= i < frames.len() ==> datagram(#[trigger] frames[i]).payload.len() <= usize::MAX
}

proof fn lemma_ids(d: Datagram)
    requires
        d.payload.len() <= usize::MAX,
    ensures
        datagram_ids(d).len() > 0 <==> declares_any(d.payload),
        forall|id: u32| packet_character(d) == Some(id) <==> #[trigger] declares_only(d.payload, id),
{
    let ids = datagram_ids(d);
    assert forall|id: u32| ids.contains(id) <==> exists|pos: int|
        parser::declares(d.payload, pos, id) by {
        parser::declared_characters_are_those_of_the_payload(d.payload, id);
    }
    parser::declared_characters_are_those_of_the_payload(d.payload, 0);
    if ids.len() > 0 {
        assert(ids.contains(ids[0]));
    }
    if declares_any(d.payload) {
        let (pos, id) = choose|pos: int, id: u32| parser::declares(d.payload, pos, id);
        assert(ids.contains(id));
    }
    assert forall|id: u32| packet_character(d) == Some(id) <==> #[trigger] declares_only(
        d.payload,
        id,
    ) by {
        if packet_character(d) == Some(id) {
            assert(ids.contains(id));
            assert forall|pos: int, other: u32| parser::declares(d.payload, pos, other) implies other
                == id by {
                assert(ids.contains(other));
            }
        }
        if declares_only(d.payload, id) {
            assert(ids.contains(id));
            let k = choose|k: int| 0 <= k < ids.len() && ids[k] == id;
            if ids.len() > 1 {
                let other = if k == 0 {
                    1int
                } else {
                    0int
                };
                assert(ids.contains(ids[other]));
                assert(ids[other] == id);
                assert(ids[other] != ids[k]);
            }
        }
    }
}

proof fn lemma_keys(a: Datagram, b: Datagram)
    ensures
        endpoint_key(a.source, a.source_port) as u64 == endpoint_key(b.source, b.source_port) as u64
            <==> a.source == b.source && a.source_port == b.source_port,
        session_key(a.source, a.source_port, a.destination, a.destination_port) as u128
            == session_key(b.source, b.source_port, b.destination, b.destination_port) as u128
            <==> same_ends(a, b),
{
    session_keys_are_distinct(
        a.source,
        a.source_port,
        a.destination,
        a.destination_port,
        b.source,
        b.source_port,
        b.destination,
        b.destination_port,
    );
    assert(0 <= a.source.number() < 0x1_0000_0000);
    assert(0 <= b.source.number() < 0x1_0000_0000);
    assert(0 <= a.destination.number() < 0x1_0000_0000);
    assert(0 <= b.destination.number() < 0x1_0000_0000);
}

/// What a decoder remembers tells which ends have declared a character, and which
/// character each connection has declared last.
pub proof fn memory_tells_who_has_declared(
    frames: Seq<Seq<u8>>,
    options: FrameOptions,
    d: Datagram,
)
    requires
        addressable(frames),
    ensures
        memory_after(frames, options).client_endpoints.contains(
            endpoint_key(d.source, d.source_port) as u64,
        ) <==> has_declared(frames, options.local_ip, d.source, d.source_port),
        session_character(memory_after(frames, options), d) == last_declared(
            frames,
            d,
            options.local_ip,
        ),
    decreases frames.len(),
{
    if frames.len() > 0 {
        let rest = frames.drop_last();
        let frame = frames.last();
        let n = rest.len() as int;
        let f = datagram(frame);
        assert(frames[n] == frame);
        assert forall|i: int| 0 <= i < rest.len() implies datagram(
            #[trigger] rest[i],
        ).payload.len() <= usize::MAX by {
            assert(rest[i] == frames[i]);
        }
        memory_tells_who_has_declared(rest, options, d);
        lemma_ids(f);
        lemma_keys(f, d);
        if has_declared(rest, options.local_ip, d.source, d.source_port) {
            let i = choose|i: int|
                0 <= i < rest.len() && concerns(#[trigger] rest[i], options.local_ip) && datagram(
                    rest[i],
                ).source == d.source && datagram(rest[i]).source_port == d.source_port
                    && declares_any(datagram(rest[i]).payload);
            assert(frames[i] == rest[i]);
        }
        if has_declared(frames, options.local_ip, d.source, d.source_port) {
            let i = choose|i: int|
                0 <= i < frames.len() && concerns(#[trigger] frames[i], options.local_ip)
                    && datagram(frames[i]).source == d.source && datagram(frames[i]).source_port
                    == d.source_port && declares_any(datagram(frames[i]).payload);
            if i < n {
                assert(rest[i] == frames[i]);
            }
        }
        if exists|id: u32| declares_only(f.payload, id) {
            let id = choose|id: u32| declares_only(f.payload, id);
            assert(packet_character(f) == Some(id));
        } else if packet_character(f) is Some {
            assert(declares_only(f.payload, packet_character(f).unwrap()));
        }
    }
}

/// Whether a datagram goes out is told by the machine's address, or by what its end
/// has declared.
pub proof fn directions_follow_declarations(
    frames: Seq<Seq<u8>>,
    options: FrameOptions,
    d: Datagram,
)
    requires
        addressable(frames),
        d.payload.len() <= usize::MAX,
    ensures
        is_outgoing(memory_after(frames, options), d, options.local_ip) <==> goes_out(
            frames,
            d,
            options.local_ip,
        ),
{
    memory_tells_who_has_declared(frames, options, d);
    lemma_ids(d);
}

proof fn lemma_hit_event(hits: Seq<model::HitView>, include_incoming: bool, n: int, k: int)
    requires
        0 <= k < n <= hits.len(),
        include_incoming || hits[k].direction != "incoming"@,
    ensures
        hit_events(hits, include_incoming, n).contains(model::EventView::Hit(hits[k])),
        reported_count(hits, include_incoming, n) > 0,
        reported_count(hits, include_incoming, n) == hit_events(hits, include_incoming, n).len(),
    decreases n,
{
    lemma_count_events(hits, include_incoming, n);
    let all = hit_events(hits, include_incoming, n);
    let e = model::EventView::Hit(hits[k]);
    if k == n - 1 {
        assert(all.last() == e);
        assert(all[all.len() - 1] == e);
    } else {
        lemma_hit_event(hits, include_incoming, n - 1, k);
        let before = hit_events(hits, include_incoming, n - 1);
        let w = choose|w: int| 0 <= w < before.len() && before[w] == e;
        assert(all[w] == e);
    }
}

proof fn lemma_count_events(hits: Seq<model::HitView>, include_incoming: bool, n: int)
    requires
        0 <= n <= hits.len(),
    ensures
        reported_count(hits, include_incoming, n) == hit_events(hits, include_incoming, n).len(),
        0 <= reported_count(hits, include_incoming, n) <= n,
    decreases n,
{
    if n > 0 {
        lemma_count_events(hits, include_incoming, n - 1);
    }
}

/// A damage record of a payload that goes out leads to a hit, dealt by the character
/// that the payload declares as the only one, or else by the one that its connection
/// has declared last. The one exception are hits on characters, where they are not
/// asked for: their target has at most half a million hit points, and the payload
/// declares its character among the same bits.
#[verifier::spinoff_prover]
#[verifier::rlimit(60)]
pub proof fn damage_that_goes_out_is_reported(
    frames: Seq<Seq<u8>>,
    frame: Seq<u8>,
    timestamp: i64,
    options: FrameOptions,
    characters: Map<u32, CharacterInfo>,
    r: parser::ParsedDamageRecord,
)
    requires
        addressable(frames),
        concerns(frame, options.local_ip),
        datagram(frame).payload.len() <= usize::MAX,
        goes_out(frames, datagram(frame), options.local_ip),
        parser::records_up_to(
            datagram(frame).payload,
            8 * datagram(frame).payload.len() as int,
        ).contains(r),
        options.include_incoming || r.target_max_hp.bits > 0x48f4_2400 || forall|id: u32, at: usize|
            !(declares_only(datagram(frame).payload, id) && #[trigger] parser::declares(
                datagram(frame).payload,
                8 * at + r.bit_shift,
                id,
            )),
    ensures
        ({
            let events = frame_events(
                memory_after(frames, options),
                frame,
                timestamp,
                options,
                characters,
            );
            let payload = datagram(frame).payload;
            &&& exists|k: int|
                0 <= k < events.len() && (#[trigger] events[k] matches model::EventView::Hit(hit)
                    && {
                    &&& hit.timestamp == timestamp
                    &&& hit.damage == r.damage.thousandths() as i64
                    &&& hit.byte_offset == r.byte_offset
                    &&& hit.bit_shift == r.bit_shift
                    &&& forall|id: u32|
                        #[trigger] declares_only(payload, id) ==> hit.char_id == id
                            && hit.char_source == "packet"@
                    &&& (forall|id: u32| !#[trigger] declares_only(payload, id)) ==> match last_declared(
                        frames,
                        datagram(frame),
                        options.local_ip,
                    ) {
                        Some(id) => hit.char_id == id && hit.char_source == "session"@,
                        None => hit.char_id == 0 && hit.char_source == "unknown"@,
                    }
                })
            &&& exists|k: int|
                0 <= k < events.len() && (#[trigger] events[k] matches model::EventView::Packet(
                    packet,
                ) && packet.direction == "C2S"@ && packet.parsed_hits > 0)
        }),
{
    let memory = memory_after(frames, options);
    let d = datagram(frame);
    let payload = d.payload;
    let records = parser::records_up_to(payload, 8 * payload.len() as int);
    let evidence = parser::declared(payload);
    directions_follow_declarations(frames, options, d);
    memory_tells_who_has_declared(frames, options, d);
    lemma_ids(d);
    let hits = datagram_hits(memory, d, timestamp, options.local_ip, characters);
    let j = choose|j: int| 0 <= j < records.len() && records[j] == r;
    let hit = hits[j];
    let fallback = session_character(remembered(memory, d, options.local_ip), d);
    assert(hit == parser::hit_of(
        payload,
        r,
        timestamp,
        packet_character(d),
        fallback,
        characters,
        evidence,
    ));
    parser::only_characters_are_hit_from_outside(
        payload,
        r,
        timestamp,
        packet_character(d),
        fallback,
        characters,
        evidence,
    );
    parser::hits_are_credited_to_declared_characters(
        payload,
        r,
        timestamp,
        packet_character(d),
        fallback,
        characters,
        evidence,
    );
    if !options.include_incoming {
        assert(hit.direction != "incoming"@) by {
            if hit.direction == "incoming"@ {
                let id = packet_character(d).unwrap();
                assert(declares_only(payload, id));
                let i = choose|i: int|
                    0 <= i < evidence.len() && (#[trigger] evidence[i]).0 == id && evidence[i].1
                        == r.bit_shift;
                assert(evidence.contains(evidence[i]));
                parser::declarations_are_found_at_every_bit(
                    payload,
                    evidence[i].0,
                    evidence[i].1,
                    evidence[i].2,
                );
                assert(parser::declares(payload, 8 * evidence[i].2 + r.bit_shift, id));
            }
        }
    }
    let found = hits.len() as int;
    lemma_hit_event(hits, options.include_incoming, found, j);
    let accepted = reported_count(hits, options.include_incoming, found);
    let listed = listed_packet(d, timestamp, true, found, accepted);
    let first = packet_events(listed);
    let then = hit_events(hits, options.include_incoming, found);
    let events = frame_events(memory, frame, timestamp, options, characters);
    assert(events == first + then);
    assert(first.last() == model::EventView::Packet(listed));
    assert(events[first.len() - 1] == model::EventView::Packet(listed));
    lemma_records_fit(payload, 8 * payload.len() as int);
    lemma_count_events(hits, options.include_incoming, found);
    let w = choose|w: int| 0 <= w < then.len() && then[w] == model::EventView::Hit(hit);
    assert(events[first.len() + w] == model::EventView::Hit(hit));
    if packet_character(d) is Some {
        assert(declares_only(payload, packet_character(d).unwrap()));
    }
    assert(session_character(memory, d) == last_declared(frames, d, options.local_ip));
}

/// There is less than one record for every bit; a record takes more than a byte.
proof fn lemma_records_fit(data: Seq<u8>, n: int)
    requires
        0 <= n <= 8 * data.len(),
        data.len() <= usize::MAX,
    ensures
        parser::records_up_to(data, n).len() <= n,
    decreases n,
{
    if n > 0 {
        lemma_records_fit(data, n - 1);
    }
}

/// From a frame that does not go out no damage is read; it is listed as one that came
/// in, if at all.
pub proof fn nothing_that_comes_in_is_a_hit(
    frames: Seq<Seq<u8>>,
    frame: Seq<u8>,
    timestamp: i64,
    options: FrameOptions,
    characters: Map<u32, CharacterInfo>,
    k: int,
)
    requires
        addressable(frames),
        datagram(frame).payload.len() <= usize::MAX,
        !goes_out(frames, datagram(frame), options.local_ip),
        0 <= k < frame_events(
            memory_after(frames, options),
            frame,
            timestamp,
            options,
            characters,
        ).len(),
    ensures
        ({
            let event = frame_events(
                memory_after(frames, options),
                frame,
                timestamp,
                options,
                characters,
            )[k];
            &&& !(event is Hit)
            &&& event matches model::EventView::Packet(packet) ==> packet.direction == "S2C"@
                && packet.parsed_hits == 0
        }),
{
    directions_follow_declarations(frames, options, datagram(frame));
}

/// Every hit that a frame leads to comes from a damage record of its payload, and a
/// hit on a character is among them only where those are asked for.
pub proof fn hits_come_from_records(
    before: DecoderView,
    frame: Seq<u8>,
    timestamp: i64,
    options: FrameOptions,
    characters: Map<u32, CharacterInfo>,
    k: int,
)
    requires
        0 <= k < frame_events(before, frame, timestamp, options, characters).len(),
        frame_events(before, frame, timestamp, options, characters)[k] is Hit,
    ensures
        ({
            let hit = frame_events(before, frame, timestamp, options, characters)[k]->Hit_0;
            let payload = datagram(frame).payload;
            let records = parser::records_up_to(payload, 8 * payload.len() as int);
            &&& options.include_incoming || hit.direction != "incoming"@
            &&& exists|j: int|
                0 <= j < records.len() && (#[trigger] records[j]).byte_offset == hit.byte_offset
                    && records[j].bit_shift == hit.bit_shift && hit.damage
                    == records[j].damage.thousandths() as i64
        }),
{
    let d = datagram(frame);
    let hits = datagram_hits(before, d, timestamp, options.local_ip, characters);
    let found = hits.len() as int;
    let accepted = reported_count(hits, options.include_incoming, found);
    let first = packet_events(
        listed_packet(
            d,
            timestamp,
            is_outgoing(before, d, options.local_ip),
            found,
            accepted,
        ),
    );
    let then = hit_events(hits, options.include_incoming, found);
    let events = frame_events(before, frame, timestamp, options, characters);
    assert(events == first + then);
    if k < first.len() {
        assert(events[k] == first[k]);
    } else {
        assert(events[k] == then[k - first.len()]);
        lemma_event_of_hit(hits, options.include_incoming, found, k - first.len());
        let j = choose|j: int|
            0 <= j < found && then[k - first.len()] == model::EventView::Hit(#[trigger] hits[j])
                && (options.include_incoming || hits[j].direction != "incoming"@);
        let records = parser::records_up_to(d.payload, 8 * d.payload.len() as int);
        assert(hits.len() == records.len());
        assert(records[j].byte_offset == hits[j].byte_offset);
    }
}

proof fn lemma_event_of_hit(hits: Seq<model::HitView>, include_incoming: bool, n: int, w: int)
    requires
        0 <= n <= hits.len(),
        0 <= w < hit_events(hits, include_incoming, n).len(),
    ensures
        exists|j: int|
            0 <= j < n && hit_events(hits, include_incoming, n)[w] == model::EventView::Hit(
                #[trigger] hits[j],
            ) && (include_incoming || hits[j].direction != "incoming"@),
    decreases n,
{
    if n > 0 {
        let before = hit_events(hits, include_incoming, n - 1);
        if w < before.len() {
            lemma_event_of_hit(hits, include_incoming, n - 1, w);
            let j = choose|j: int|
                0 <= j < n - 1 && before[w] == model::EventView::Hit(#[trigger] hits[j]) && (
                include_incoming || hits[j].direction != "incoming"@);
            assert(hit_events(hits, include_incoming, n)[w] == model::EventView::Hit(hits[j]));
        } else {
            assert(hit_events(hits, include_incoming, n)[w] == model::EventView::Hit(hits[n - 1]));
        }
    }
}

/// Two bytes, the more significant one first.
pub open spec fn pair_at(frame: Seq<u8>, at: int) -> int {
    0x100 * frame[at] + frame[at + 1]
}

/// An Ethernet frame with a header of an IPv4 packet at the given place, of as many
/// words as it says, that holds a datagram of UDP.
pub open spec fn carries_udp(frame: Seq<u8>, ip: int, words: int) -> bool {
    &&& 5 <= words <= 15
    &&& frame.len() >= ip + 4 * words + 8
    &&& pair_at(frame, ip - 2) == 0x0800
    &&& frame[ip] == 0x40 + words
    &&& frame[ip + 9] == 17
    &&& pair_at(frame, ip + 4 * words + 4) >= 8
}

/// A frame is read by the layout of Ethernet, with a tag or without one, of IPv4 and
/// of UDP: addresses, ports, and a payload that ends where the datagram says, or with
/// the frame.
pub proof fn frames_are_read_by_their_layout(frame: Seq<u8>, tagged_frame: bool, words: int)
    requires
        tagged_frame <==> frame.len() >= 18 && pair_at(frame, 12) == 0x8100,
        carries_udp(
            frame,
            if tagged_frame {
                18
            } else {
                14
            },
            words,
        ),
    ensures
        is_udp_ipv4(frame),
        ({
            let ip = if tagged_frame {
                18int
            } else {
                14int
            };
            let udp = ip + 4 * words;
            let end = udp + pair_at(frame, udp + 4);
            datagram(frame) == (Datagram {
                source: Ipv4 {
                    a: frame[ip + 12],
                    b: frame[ip + 13],
                    c: frame[ip + 14],
                    d: frame[ip + 15],
                },
                source_port: pair_at(frame, udp) as u16,
                destination: Ipv4 {
                    a: frame[ip + 16],
                    b: frame[ip + 17],
                    c: frame[ip + 18],
                    d: frame[ip + 19],
                },
                destination_port: pair_at(frame, udp + 2) as u16,
                payload: frame.subrange(
                    udp + 8,
                    if end < frame.len() {
                        end
                    } else {
                        frame.len() as int
                    },
                ),
            })
        }),
{
}

/// A frame that does not carry a datagram of UDP is passed over.
pub proof fn other_frames_are_passed_over(frame: Seq<u8>)
    requires
        is_udp_ipv4(frame),
    ensures
        ({
            let ip = if frame.len() >= 18 && pair_at(frame, 12) == 0x8100 {
                18int
            } else {
                14int
            };
            carries_udp(frame, ip, (frame[ip] % 16) as int)
        }),
{
}

/// A packet is listed where it has hits, declares characters or holds readable text;
/// any other one where it is longer than ninety-six bytes and they are not all the
/// same.
pub proof fn packets_of_interest_are_listed(
    before: DecoderView,
    frame: Seq<u8>,
    timestamp: i64,
    options: FrameOptions,
    characters: Map<u32, CharacterInfo>,
)
    requires
        concerns(frame, options.local_ip),
        datagram(frame).payload.len() <= usize::MAX,
    ensures
        ({
            let d = datagram(frame);
            let events = frame_events(before, frame, timestamp, options, characters);
            let uniform = forall|i: int|
                0 <= i < d.payload.len() ==> #[trigger] d.payload[i] == d.payload[0];
            &&& declares_any(d.payload) || payload_text(d.payload) != "未解析到可读协议文本"@ || (
            !uniform && d.payload.len() > 96) ==> exists|k: int|
                0 <= k < events.len() && (#[trigger] events[k] matches model::EventView::Packet(p)
                    && p.timestamp == timestamp && p.payload_len == d.payload.len()
                    && p.payload_hex == hexadecimal::hex_text(d.payload))
            &&& (exists|k: int| 0 <= k < events.len() && #[trigger] events[k] is Packet) ==> (exists|k: int|
                0 <= k < events.len() && #[trigger] events[k] is Hit) || declares_any(d.payload)
                || payload_text(d.payload) != "未解析到可读协议文本"@ || (!uniform && d.payload.len()
                > 96)
        }),
{
    let d = datagram(frame);
    let events = frame_events(before, frame, timestamp, options, characters);
    lemma_ids(d);
    let outgoing = is_outgoing(before, d, options.local_ip);
    let hits = datagram_hits(before, d, timestamp, options.local_ip, characters);
    let found = hits.len() as int;
    let accepted = reported_count(hits, options.include_incoming, found);
    lemma_count_events(hits, options.include_incoming, found);
    if worth_listing(d.payload, datagram_ids(d), accepted, payload_text(d.payload)) {
        let listed = listed_packet(d, timestamp, outgoing, found, accepted);
        let first = packet_events(listed);
        let then = hit_events(hits, options.include_incoming, found);
        assert(events == first + then);
        assert(events[first.len() - 1] == model::EventView::Packet(listed));
        if accepted > 0 {
            lemma_event_of_hit(hits, options.include_incoming, found, 0);
            assert(events[first.len() as int] == then[0]);
            assert(then[0] is Hit);
        }
    }
}

/// A text of the protocol that has one of its known words counts more than a hundred,
/// and by its length.
pub open spec fn counts_as_marked(s: Seq<char>, word: Seq<char>) -> bool {
    text::contains(s, word) && text::utf8_len(s) >= 4 ==> protocol_score(s) == 100 + (
    if text::utf8_len(s) < 100 {
        text::utf8_len(s)
    } else {
        100
    })
}

/// Every word that the game's protocol is known for marks the texts that it stands in.
pub proof fn known_words_mark_protocol_texts(s: Seq<char>)
    ensures
        counts_as_marked(s, "Abyss"@),
        counts_as_marked(s, "Ability."@),
        counts_as_marked(s, "AbilitySystem"@),
        counts_as_marked(s, "AppearMelee"@),
        counts_as_marked(s, "BackEvade"@),
        counts_as_marked(s, "Boss"@),
        counts_as_marked(s, "CharacterForNet"@),
        counts_as_marked(s, "CityEvent"@),
        counts_as_marked(s, "CityLive"@),
        counts_as_marked(s, "CoolDown."@),
        counts_as_marked(s, "CurrentGameplayID"@),
        counts_as_marked(s, "DataLayer"@),
        counts_as_marked(s, "DissolveMontage"@),
        counts_as_marked(s, "DropBox"@),
        counts_as_marked(s, "Event."@),
        counts_as_marked(s, "FrontEvade"@),
        counts_as_marked(s, "Game/"@),
        counts_as_marked(s, "GameplayCue."@),
        counts_as_marked(s, "HTClient"@),
        counts_as_marked(s, "HTRoom"@),
        counts_as_marked(s, "Monster"@),
        counts_as_marked(s, "PrivateSpawn"@),
        counts_as_marked(s, "Record"@),
        counts_as_marked(s, "SilentCheckComponent"@),
        counts_as_marked(s, "SkeletalMesh"@),
        counts_as_marked(s, "Stamina"@),
        counts_as_marked(s, "State."@),
        counts_as_marked(s, "Teleport"@),
        counts_as_marked(s, "UnbalCurrent"@),
        counts_as_marked(s, "WorldBoss"@),
        counts_as_marked(s, "FirstHalf"@),
        counts_as_marked(s, "SecondHalf"@),
        counts_as_marked(s, "Phase"@),
        counts_as_marked(s, "Wave"@),
        counts_as_marked(s, "MaxHP"@),
{
}

/// A text without a known word counts only as the path of an asset, or as an identifier:
/// eight bytes or more of letters, digits and signs that join them, with five letters
/// and no more than a quarter of other signs.
pub proof fn other_texts_count_as_identifiers(s: Seq<char>)
    requires
        !has_protocol_marker(s),
    ensures
        text::utf8_len(s) < 4 ==> protocol_score(s) == 0,
        protocol_score(s) > 0 && !text::starts_with(s, "/Game/"@) ==> {
            &&& text::utf8_len(s) >= 8
            &&& 28 <= protocol_score(s) <= 70
            &&& forall|i: int|
                0 <= i < s.len() ==> ('a' <= #[trigger] s[i] && s[i] <= 'z') || ('A' <= s[i] && s[i]
                    <= 'Z') || ('0' <= s[i] && s[i] <= '9') || s[i] == '_' || s[i] == '.' || s[i]
                    == ':' || s[i] == '/' || s[i] == '-'
            &&& count(s, |c: char| is_letter(c)) >= 5
        },
{
    if protocol_score(s) > 0 && !text::starts_with(s, "/Game/"@) {
        assert(is_structured_identifier(s));
        assert forall|i: int| 0 <= i < s.len() implies ('a' <= #[trigger] s[i] && s[i] <= 'z') || (
        'A' <= s[i] && s[i] <= 'Z') || ('0' <= s[i] && s[i] <= '9') || s[i] == '_' || s[i] == '.'
            || s[i] == ':' || s[i] == '/' || s[i] == '-' by {
            assert(is_identifier(s[i]));
        }
    }
}

proof fn lemma_runs_are_told(
    found: Seq<(int, Seq<char>)>,
    new: Seq<(int, Seq<char>)>,
    n: int,
    value: Seq<char>,
)
    requires
        0 <= n <= new.len(),
    ensures
        holds_text(found, value) ==> holds_text(with_runs(found, new, n), value),
        forall|r: int|
            0 <= r < n && text::trim((#[trigger] new[r]).1, Class::Space) == value
                && protocol_score(value) > 0 ==> holds_text(with_runs(found, new, n), value),
    decreases n,
{
    if n > 0 {
        lemma_runs_are_told(found, new, n - 1, value);
        let before = with_runs(found, new, n - 1);
        let all = with_runs(found, new, n);
        if holds_text(before, value) {
            let w = choose|w: int| 0 <= w < before.len() && (#[trigger] before[w]).1 == value;
            assert(all[w].1 == value);
        } else if text::trim(new[n - 1].1, Class::Space) == value && protocol_score(value) > 0 {
            assert(all[all.len() - 1].1 == value);
        }
    }
}

proof fn lemma_texts_are_told(data: Seq<u8>, shift: int, r: int, k: int)
    requires
        0 <= shift < k,
        0 <= r < runs::runs(bits::shifted(data, shift)).len(),
        protocol_score(text::trim(runs::runs(bits::shifted(data, shift))[r].1, Class::Space)) > 0,
    ensures
        holds_text(
            protocol_texts(data, k),
            text::trim(runs::runs(bits::shifted(data, shift))[r].1, Class::Space),
        ),
    decreases k,
{
    let value = text::trim(runs::runs(bits::shifted(data, shift))[r].1, Class::Space);
    let new = runs::runs(bits::shifted(data, k - 1));
    lemma_runs_are_told(protocol_texts(data, k - 1), new, new.len() as int, value);
    if shift == k - 1 {
        assert(text::trim(new[r].1, Class::Space) == value);
    } else {
        lemma_texts_are_told(data, shift, r, k - 1);
    }
}

proof fn lemma_joined_texts_are_there(parts: Seq<Seq<char>>, sep: Seq<char>, i: int)
    requires
        0 <= i < parts.len(),
    ensures
        text::contains(text::join(parts, sep), parts[i]),
    decreases parts.len(),
{
    let whole = text::join(parts, sep);
    let x = parts[i];
    if parts.len() == 1 {
        assert(whole.subrange(0, x.len() as int) =~= x);
        assert(text::occurs_at(whole, x, 0));
    } else {
        let before = text::join(parts.drop_last(), sep);
        if i == parts.len() - 1 {
            let p = (before.len() + sep.len()) as int;
            assert(whole.subrange(p, p + x.len()) =~= x);
            assert(text::occurs_at(whole, x, p));
        } else {
            lemma_joined_texts_are_there(parts.drop_last(), sep, i);
            assert(parts.drop_last()[i] == x);
            let p = choose|p: int| text::occurs_at(before, x, p);
            assert(whole.subrange(p, p + x.len()) =~= before.subrange(p, p + x.len()));
            assert(text::occurs_at(whole, x, p));
        }
    }
}

/// Every text of the protocol that can be read in a payload, at whatever bit shift, is
/// told in its text; where there is none, that is said.
pub proof fn every_protocol_text_is_told(data: Seq<u8>, shift: int, r: int)
    requires
        0 <= shift < 8,
        0 <= r < runs::runs(bits::shifted(data, shift)).len(),
        protocol_score(text::trim(runs::runs(bits::shifted(data, shift))[r].1, Class::Space)) > 0,
    ensures
        text::contains(
            payload_text(data),
            text::trim(runs::runs(bits::shifted(data, shift))[r].1, Class::Space),
        ),
{
    let value = text::trim(runs::runs(bits::shifted(data, shift))[r].1, Class::Space);
    lemma_texts_are_told(data, shift, r, 8);
    let found = protocol_texts(data, 8);
    let w = choose|w: int| 0 <= w < found.len() && (#[trigger] found[w]).1 == value;
    let keyed = by_score(found);
    sorting::elements_stay_when_sorted(keyed, w);
    let sorted = sorting::sorted(keyed);
    let v = choose|v: int| 0 <= v < sorted.len() && sorted[v] == keyed[w];
    let lines = sorting::values(sorted);
    assert(lines[v] == value);
    lemma_joined_texts_are_there(lines, "\n"@, v);
}

proof fn lemma_told_once(
    found: Seq<(int, Seq<char>)>,
    new: Seq<(int, Seq<char>)>,
    n: int,
)
    requires
        0 <= n <= new.len(),
        forall|i: int| 0 <= i < found.len() ==> (#[trigger] found[i]).0 == protocol_score(
            found[i].1,
        ) && found[i].0 > 0,
        forall|i: int, j: int|
            0 <= i < j < found.len() ==> (#[trigger] found[i]).1 != (#[trigger] found[j]).1,
    ensures
        ({
            let all = with_runs(found, new, n);
            &&& forall|i: int| 0 <= i < all.len() ==> (#[trigger] all[i]).0 == protocol_score(
                all[i].1,
            ) && all[i].0 > 0
            &&& forall|i: int, j: int|
                0 <= i < j < all.len() ==> (#[trigger] all[i]).1 != (#[trigger] all[j]).1
        }),
    decreases n,
{
    if n > 0 {
        lemma_told_once(found, new, n - 1);
        let value = text::trim(new[n - 1].1, Class::Space);
        lemma_score_bound(value);
        let before = with_runs(found, new, n - 1);
        let all = with_runs(found, new, n);
        assert forall|i: int, j: int| 0 <= i < j < all.len() implies (#[trigger] all[i]).1 != (
        #[trigger] all[j]).1 by {
            assert(all[i] == before[i]);
            if j < before.len() {
                assert(all[j] == before[j]);
            } else {
                assert(!holds_text(before, value));
                assert(before[i].1 != value);
            }
        }
        assert forall|i: int| 0 <= i < all.len() implies (#[trigger] all[i]).0 == protocol_score(
            all[i].1,
        ) && all[i].0 > 0 by {
            if i < before.len() {
                assert(all[i] == before[i]);
            }
        }
    }
}

proof fn lemma_all_told_once(data: Seq<u8>, k: int)
    ensures
        ({
            let all = protocol_texts(data, k);
            &&& forall|i: int| 0 <= i < all.len() ==> (#[trigger] all[i]).0 == protocol_score(
                all[i].1,
            ) && all[i].0 > 0
            &&& forall|i: int, j: int|
                0 <= i < j < all.len() ==> (#[trigger] all[i]).1 != (#[trigger] all[j]).1
        }),
    decreases k,
{
    if k > 0 {
        lemma_all_told_once(data, k - 1);
        let new = runs::runs(bits::shifted(data, k - 1));
        lemma_told_once(protocol_texts(data, k - 1), new, new.len() as int);
    }
}

/// The texts of a payload come by falling score, each once.
pub proof fn protocol_texts_come_by_score(data: Seq<u8>, i: int, j: int)
    requires
        0 <= i < j < protocol_texts(data, 8).len(),
    ensures
        ({
            let lines = sorting::values(sorting::sorted(by_score(protocol_texts(data, 8))));
            &&& lines.len() == protocol_texts(data, 8).len()
            &&& protocol_score(lines[i]) >= protocol_score(lines[j]) > 0
        }),
        protocol_texts(data, 8)[i].1 != protocol_texts(data, 8)[j].1,
{
    let found = protocol_texts(data, 8);
    lemma_all_told_once(data, 8);
    let keyed = by_score(found);
    let sorted = sorting::sorted(keyed);
    sorting::sorted_is_ordered(keyed);
    sorting::sorted_elements_are_elements(keyed, i);
    sorting::sorted_elements_are_elements(keyed, j);
    let a = choose|a: int| 0 <= a < keyed.len() && keyed[a] == sorted[i];
    let b = choose|b: int| 0 <= b < keyed.len() && keyed[b] == sorted[j];
    lemma_score_bound(found[a].1);
    lemma_score_bound(found[b].1);
    assert(found[a].0 == protocol_score(found[a].1));
    assert(found[b].0 == protocol_score(found[b].1));
    assert(keyed[a] == ((1000 - found[a].0) as u128, found[a].1));
    assert(keyed[b] == ((1000 - found[b].0) as u128, found[b].1));
}

} // verus!
