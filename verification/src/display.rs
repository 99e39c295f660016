//! What a fight looks like on the screen: labels, colours, and which packets and
//! hits are listed.
use std::collections::HashMap;
use vstd::prelude::*;

use crate::export;
use crate::figures;
use crate::hexadecimal;
use crate::model;
use crate::model::{CharacterInfo, CharacterStats, CombatState, Hit, PacketDebug};
use crate::text;

verus! {

broadcast use vstd::std_specs::hash::group_hash_axioms;

// ------------------------------------------------------------ labels

/// How many characters of a target's name are shown.
pub const TARGET_LABEL: usize = 18;

/// A text of at most `max` characters: longer ones are cut and end in an ellipsis.
pub open spec fn compact(s: Seq<char>, max: int) -> Seq<char> {
    if s.len() <= max {
        s
    } else if max > 0 {
        s.take(max - 1) + "…"@
    } else {
        "…"@
    }
}

pub fn compact_label(value: &str, max_chars: usize) -> (out: String)
    ensures
        out@ == compact(value@, max_chars as int),
{
    let chars = text::chars_of(value);
    if chars.len() <= max_chars {
        return value.to_owned();
    }
    let kept: usize = if max_chars > 0 {
        max_chars - 1
    } else {
        0
    };
    let head = text::part(&chars, 0, kept);
    assert(chars@.subrange(0, kept as int) =~= chars@.take(kept as int));
    assert(chars@.take(0) + "…"@ =~= "…"@);
    text::concat2(text::string_of(&head).as_str(), "…")
}

/// The label of a hit's target: its name, or else its identifier.
pub open spec fn label(hit: model::HitView) -> Seq<char> {
    match (hit.target_name, hit.target_id) {
        (Some(name), _) => compact(name, TARGET_LABEL as int),
        (None, Some(id)) => compact(id, TARGET_LABEL as int),
        (None, None) => Seq::empty(),
    }
}

pub fn target_label(hit: &Hit) -> (out: String)
    ensures
        out@ == label(hit@),
{
    match (&hit.target_name, &hit.target_id) {
        (Some(name), _) => compact_label(name.as_str(), TARGET_LABEL),
        (None, Some(id)) => compact_label(id.as_str(), TARGET_LABEL),
        (None, None) => String::new(),
    }
}

/// The lines that tell more about a hit's target.
pub open spec fn detail_lines(hit: model::HitView) -> Seq<Seq<char>> {
    (match hit.target_id {
        Some(id) => seq!["目标 ID: "@ + id],
        None => Seq::empty(),
    }) + (match hit.target_name {
        Some(name) => seq!["目标名称: "@ + name],
        None => Seq::empty(),
    }) + (if hit.target_context.len() > 0 {
        seq!["封包上下文: "@ + text::join(hit.target_context, " | "@)]
    } else {
        Seq::empty()
    })
}

/// What is told about a hit's target, or nothing where nothing is known.
pub fn target_details(hit: &Hit) -> (out: Option<String>)
    ensures
        match out {
            Some(s) => detail_lines(hit@).len() > 0 && s@ == text::join(
                detail_lines(hit@),
                "\n"@,
            ),
            None => detail_lines(hit@).len() == 0,
        },
{
    let mut lines: Vec<String> = Vec::new();
    if let Some(id) = &hit.target_id {
        lines.push(text::concat2("目标 ID: ", id.as_str()));
    }
    if let Some(name) = &hit.target_name {
        lines.push(text::concat2("目标名称: ", name.as_str()));
    }
    if hit.target_context.len() > 0 {
        let context = text::join_strings(&hit.target_context, " | ");
        lines.push(text::concat2("封包上下文: ", context.as_str()));
    }
    assert(text::texts(lines@) =~= detail_lines(hit@));
    if lines.len() > 0 {
        Some(text::join_strings(&lines, "\n"))
    } else {
        None
    }
}

/// The hit points of a target after a hit.
pub open spec fn hit_points(hit: model::HitView) -> Seq<char> {
    figures::number(hit.target_hp_after as int) + " / "@ + figures::number(
        hit.target_max_hp as int,
    ) + "  "@ + figures::fixed(hit.target_hp_percent as int, 1_000, 10, 1) + "%"@
}

pub fn hit_points_label(hit: &Hit) -> (out: String)
    ensures
        out@ == hit_points(hit@),
{
    let mut out = figures::format_number(hit.target_hp_after as i128);
    out.append(" / ");
    out.append(figures::format_number(hit.target_max_hp as i128).as_str());
    out.append("  ");
    out.append(figures::fixed_string(hit.target_hp_percent as i128, 1_000, 10, 1).as_str());
    out.append("%");
    out
}

/// Microseconds as seconds with one decimal.
pub open spec fn seconds(v: int) -> Seq<char> {
    figures::fixed(v, 1_000_000, 10, 1) + "s"@
}

pub fn seconds_label(v: i128) -> (out: String)
    requires
        -figures::LIMIT <= v <= figures::LIMIT,
    ensures
        out@ == seconds(v as int),
{
    text::concat2(figures::fixed_string(v, 1_000_000, 10, 1).as_str(), "s")
}

/// How often and how long a character has hit.
pub open spec fn activity(row: CharacterStats) -> Seq<char> {
    text::dec(row.hits as nat) + "次 · "@ + seconds(row.spec_duration())
}

pub fn activity_label(row: &CharacterStats) -> (out: String)
    ensures
        out@ == activity(*row),
{
    text::concat3(
        text::dec_string(row.hits).as_str(),
        "次 · ",
        seconds_label(row.duration()).as_str(),
    )
}

/// What a character has dealt, and which part of the whole that is.
pub open spec fn contribution(row: CharacterStats, total: i64) -> Seq<char> {
    figures::number(row.damage as int) + " · "@ + export::share(
        row.damage as int,
        total as int,
        10,
        1,
    ) + "%"@
}

pub fn contribution_label(row: &CharacterStats, total: i64) -> (out: String)
    ensures
        out@ == contribution(*row, total),
{
    let mut out = text::concat3(
        figures::format_number(row.damage as i128).as_str(),
        " · ",
        export::share_string(row.damage, total, 10, 1).as_str(),
    );
    out.append("%");
    out
}

/// A character's damage per second in whole points.
pub open spec fn character_rate(row: CharacterStats) -> Seq<char> {
    figures::whole_number(row.damage * model::SECOND, row.spec_active_time() * 1_000)
}

pub fn character_rate_label(row: &CharacterStats) -> (out: String)
    ensures
        out@ == character_rate(*row),
{
    figures::whole_number_string(
        (row.damage as i128) * 1_000_000,
        (row.active_time() as u128) * 1_000,
    )
}

/// The damage per second of the whole fight in whole points.
pub open spec fn fight_rate(state: CombatState) -> Seq<char> {
    if state.spec_duration() > 0 {
        figures::whole_number(state.total_damage * model::SECOND, state.spec_duration() * 1_000)
    } else {
        figures::number(0)
    }
}

pub fn fight_rate_label(state: &CombatState) -> (out: String)
    ensures
        out@ == fight_rate(*state),
{
    let duration: i128 = state.duration();
    if duration > 0 {
        figures::whole_number_string(
            (state.total_damage as i128) * 1_000_000,
            (duration as u128) * 1_000,
        )
    } else {
        figures::format_number(0)
    }
}

/// The line that stands for a packet in the list.
pub open spec fn packet_title(packet: model::PacketView, time: Seq<char>) -> Seq<char> {
    time + "  "@ + packet.direction + "  "@ + packet.source + " -> "@ + packet.destination + "  "@
        + text::dec(packet.payload_len as nat) + " B  ids="@ + export::id_list(packet.declared_ids)
        + "  hits="@ + text::dec(packet.parsed_hits as nat)
}

pub fn packet_title_label(packet: &PacketDebug, time: &str) -> (out: String)
    ensures
        out@ == packet_title(packet@, time@),
{
    let mut out = text::concat3(time, "  ", packet.direction.as_str());
    out.append("  ");
    out.append(packet.source.as_str());
    out.append(" -> ");
    out.append(packet.destination.as_str());
    out.append("  ");
    out.append(text::dec_string(packet.payload_len as u64).as_str());
    out.append(" B  ids=");
    out.append(export::id_list_string(&packet.declared_ids).as_str());
    out.append("  hits=");
    out.append(text::dec_string(packet.parsed_hits as u64).as_str());
    out
}

/// The word for what the engine does.
pub open spec fn state_word(recording: bool, status: Seq<char>) -> Seq<char> {
    if recording {
        "记录中"@
    } else if text::contains(status, "Debug"@) {
        "未就绪"@
    } else {
        status
    }
}

pub fn short_status(recording: bool, status: &str) -> (out: String)
    ensures
        out@ == state_word(recording, status@),
{
    if recording {
        return "记录中".to_owned();
    }
    if text::has(&text::chars_of(status), "Debug") {
        "未就绪".to_owned()
    } else {
        status.to_owned()
    }
}

// ------------------------------------------------------------ colours

/// A colour by its parts.
#[derive(Clone, Copy, Debug, PartialEq, Eq, Structural)]
pub struct Rgb {
    pub red: u8,
    pub green: u8,
    pub blue: u8,
}

fn hex_of(c: char) -> (r: Option<u8>)
    ensures
        match r {
            Some(v) => hexadecimal::hex_value(c) == Some(v as int) && v < 16,
            None => hexadecimal::hex_value(c) is None,
        },
{
    let code: u32 = c as u32;
    if '0' <= c && c <= '9' {
        Some((code - 48) as u8)
    } else if 'a' <= c && c <= 'f' {
        Some((code - 87) as u8)
    } else if 'A' <= c && c <= 'F' {
        Some((code - 55) as u8)
    } else {
        None
    }
}

/// The part of a colour that two characters write: two hexadecimal digits, or one
/// behind a plus sign.
pub open spec fn colour_part(a: char, b: char) -> Option<int> {
    if a == '+' {
        hexadecimal::hex_value(b)
    } else {
        match (hexadecimal::hex_value(a), hexadecimal::hex_value(b)) {
            (Some(x), Some(y)) => Some(16 * x + y),
            _ => None,
        }
    }
}

fn read_part(a: char, b: char) -> (r: Option<u8>)
    ensures
        match r {
            Some(v) => colour_part(a, b) == Some(v as int),
            None => colour_part(a, b) is None,
        },
{
    if a == '+' {
        return hex_of(b);
    }
    match (hex_of(a), hex_of(b)) {
        (Some(x), Some(y)) => Some(16 * x + y),
        _ => None,
    }
}

/// The colour that six characters write, with `#` before them or none.
pub open spec fn colour(s: Seq<char>) -> Option<Rgb> {
    let d = if s.len() > 0 && s[0] == '#' {
        s.skip(1)
    } else {
        s
    };
    if d.len() != 6 {
        None
    } else {
        match (colour_part(d[0], d[1]), colour_part(d[2], d[3]), colour_part(d[4], d[5])) {
            (Some(r), Some(g), Some(b)) => Some(
                (Rgb { red: r as u8, green: g as u8, blue: b as u8 }),
            ),
            _ => None,
        }
    }
}

pub fn parse_hex_color(value: &str) -> (r: Option<Rgb>)
    ensures
        r == colour(value@),
{
    let chars = text::chars_of(value);
    let from: usize = if chars.len() > 0 && chars[0] == '#' {
        1
    } else {
        0
    };
    if chars.len() - from != 6 {
        return None;
    }
    match (
        read_part(chars[from], chars[from + 1]),
        read_part(chars[from + 2], chars[from + 3]),
        read_part(chars[from + 4], chars[from + 5]),
    ) {
        (Some(red), Some(green), Some(blue)) => Some(Rgb { red, green, blue }),
        _ => None,
    }
}

/// The colours of characters that have none of their own.
pub open spec fn palette(i: int) -> Rgb {
    if i == 0 {
        (Rgb { red: 193, green: 74, blue: 105 })
    } else if i == 1 {
        (Rgb { red: 112, green: 91, blue: 179 })
    } else if i == 2 {
        (Rgb { red: 70, green: 164, blue: 126 })
    } else if i == 3 {
        (Rgb { red: 210, green: 145, blue: 62 })
    } else if i == 4 {
        (Rgb { red: 72, green: 137, blue: 195 })
    } else {
        (Rgb { red: 171, green: 89, blue: 178 })
    }
}

/// The colour of a character: its own where the table gives a readable one.
pub open spec fn colour_of(
    id: u32,
    characters: Map<u32, CharacterInfo>,
    fallback_index: int,
) -> Rgb {
    let own = if characters.contains_key(id) {
        match characters[id].color {
            Some(s) => colour(s@),
            None => None,
        }
    } else {
        None
    };
    match own {
        Some(c) => c,
        None => palette((id + fallback_index) % 6),
    }
}

pub fn character_color(
    char_id: u32,
    characters: &HashMap<u32, CharacterInfo>,
    fallback_index: usize,
) -> (r: Rgb)
    ensures
        r == colour_of(char_id, characters@, fallback_index as int),
{
    if let Some(row) = characters.get(&char_id) {
        if let Some(value) = &row.color {
            if let Some(own) = parse_hex_color(value.as_str()) {
                return own;
            }
        }
    }
    let i: u128 = ((char_id as u128) + (fallback_index as u128)) % 6;
    if i == 0 {
        Rgb { red: 193, green: 74, blue: 105 }
    } else if i == 1 {
        Rgb { red: 112, green: 91, blue: 179 }
    } else if i == 2 {
        Rgb { red: 70, green: 164, blue: 126 }
    } else if i == 3 {
        Rgb { red: 210, green: 145, blue: 62 }
    } else if i == 4 {
        Rgb { red: 72, green: 137, blue: 195 }
    } else {
        Rgb { red: 171, green: 89, blue: 178 }
    }
}

// ------------------------------------------------------------ lists

/// How many packets are looked through.
pub const LISTED_PACKETS: usize = 500;

/// A text in lower case, by the tables of Unicode.
pub uninterp spec fn lowercased(s: Seq<char>) -> Seq<char>;

/// Calls `str::to_lowercase` of the standard library. Which characters stand for
/// which is left to its tables: the result is only given a name.
#[verifier::external_body]
fn lowercase(s: &str) -> (out: String)
    ensures
        out@ == lowercased(s@),
{
    s.to_lowercase()
}

/// The text in which packets are searched.
pub open spec fn searchable(packet: model::PacketView) -> Seq<char> {
    packet.source + " "@ + packet.destination + " "@ + packet.direction + " "@ + export::id_list(
        packet.declared_ids,
    ) + " "@ + packet.decoded_text
}

pub fn searchable_text(packet: &PacketDebug) -> (out: String)
    ensures
        out@ == searchable(packet@),
{
    let mut out = text::concat3(packet.source.as_str(), " ", packet.destination.as_str());
    out.append(" ");
    out.append(packet.direction.as_str());
    out.append(" ");
    out.append(export::id_list_string(&packet.declared_ids).as_str());
    out.append(" ");
    out.append(packet.decoded_text.as_str());
    out
}

/// Whether a packet is shown, by what it and the search look like in lower case.
/// An empty search finds everything.
pub open spec fn is_shown(
    parsed_hits: usize,
    only_hits: bool,
    lower_text: Seq<char>,
    lower_search: Seq<char>,
) -> bool {
    (only_hits ==> parsed_hits > 0) && text::contains(lower_text, lower_search)
}

pub fn packet_is_found(
    parsed_hits: usize,
    only_hits: bool,
    lower_text: &str,
    lower_search: &str,
) -> (r: bool)
    ensures
        r == is_shown(parsed_hits, only_hits, lower_text@, lower_search@),
{
    if only_hits && parsed_hits == 0 {
        return false;
    }
    text::has(&text::chars_of(lower_text), lower_search)
}

/// Whether a packet is shown.
pub open spec fn shown(packet: model::PacketView, only_hits: bool, search: Seq<char>) -> bool {
    (only_hits ==> packet.parsed_hits > 0) && (search.len() == 0 || is_shown(
        packet.parsed_hits,
        only_hits,
        lowercased(searchable(packet)),
        lowercased(search),
    ))
}

pub fn packet_is_shown(packet: &PacketDebug, only_hits: bool, search: &str) -> (r: bool)
    ensures
        r == shown(packet@, only_hits, search@),
{
    if only_hits && packet.parsed_hits == 0 {
        return false;
    }
    if text::chars_of(search).len() == 0 {
        return true;
    }
    let lower_text = lowercase(searchable_text(packet).as_str());
    let lower_search = lowercase(search);
    packet_is_found(packet.parsed_hits, only_hits, lower_text.as_str(), lower_search.as_str())
}

/// The positions from `from` on, before `n`, at which packets are shown.
pub open spec fn shown_positions(
    packets: Seq<PacketDebug>,
    only_hits: bool,
    search: Seq<char>,
    from: int,
    n: int,
) -> Seq<usize>
    decreases n - from,
{
    if n <= from {
        Seq::empty()
    } else {
        let before = shown_positions(packets, only_hits, search, from, n - 1);
        if shown(packets[n - 1]@, only_hits, search) {
            before.push((n - 1) as usize)
        } else {
            before
        }
    }
}

/// Where the list of packets begins.
pub open spec fn list_start(count: int) -> int {
    if count > LISTED_PACKETS {
        count - LISTED_PACKETS
    } else {
        0
    }
}

/// Where the packets stand that are listed: those of the newest ones that are
/// shown.
pub fn listed_packets(state: &CombatState, only_hits: bool, search: &str) -> (out: Vec<usize>)
    ensures
        out@ == shown_positions(
            state.packets@,
            only_hits,
            search@,
            list_start(state.packets@.len() as int),
            state.packets@.len() as int,
        ),
{
    let count: usize = state.packets.len();
    let from: usize = if count > LISTED_PACKETS {
        count - LISTED_PACKETS
    } else {
        0
    };
    let mut out: Vec<usize> = Vec::new();
    let mut i: usize = from;
    while i < count
        invariant
            from <= i <= count == state.packets@.len(),
            out@ == shown_positions(state.packets@, only_hits, search@, from as int, i as int),
        decreases count - i,
    {
        if packet_is_shown(&state.packets[i], only_hits, search) {
            out.push(i);
        }
        i += 1;
    }
    out
}

/// The positions before `n` at which hits of a character stand.
pub open spec fn positions_of(hits: Seq<Hit>, id: u32, n: int) -> Seq<usize>
    decreases n,
{
    if n <= 0 {
        Seq::empty()
    } else {
        let before = positions_of(hits, id, n - 1);
        if hits[n - 1].char_id == id {
            before.push((n - 1) as usize)
        } else {
            before
        }
    }
}

/// The part of a list that is in sight.
pub open spec fn window(s: Seq<usize>, start: int, count: int) -> Seq<usize> {
    let from = if start < s.len() {
        start
    } else {
        s.len() as int
    };
    let to = if from + count < s.len() {
        from + count
    } else {
        s.len() as int
    };
    s.subrange(from, to)
}

/// Where the hits of a character stand that are in sight.
pub fn character_hits(state: &CombatState, char_id: u32, start: usize, count: usize) -> (out: Vec<
    usize,
>)
    ensures
        out@ == window(
            positions_of(state.hits@, char_id, state.hits@.len() as int),
            start as int,
            count as int,
        ),
{
    let mut all: Vec<usize> = Vec::new();
    let mut i: usize = 0;
    while i < state.hits.len()
        invariant
            i <= state.hits@.len(),
            all@ == positions_of(state.hits@, char_id, i as int),
        decreases state.hits.len() - i,
    {
        if state.hits[i].char_id == char_id {
            all.push(i);
        }
        i += 1;
    }
    let from: usize = if start < all.len() {
        start
    } else {
        all.len()
    };
    let to: usize = if count < all.len() - from {
        from + count
    } else {
        all.len()
    };
    let mut out: Vec<usize> = Vec::new();
    let mut k: usize = from;
    while k < to
        invariant
            from <= k <= to <= all@.len(),
            out@ == all@.subrange(from as int, k as int),
        decreases to - k,
    {
        out.push(all[k]);
        assert(all@.subrange(from as int, k + 1) =~= all@.subrange(from as int, k as int).push(
            all@[k as int],
        ));
        k += 1;
    }
    out
}

/// Whether a file is a log of hits, by its name.
pub open spec fn is_hit_log(name: Seq<char>) -> bool {
    text::starts_with(name, "nte_hits_"@) && text::ends_with(name, ".jsonl"@)
}

/// Where the log of hits stands that comes last by name.
pub fn latest_hit_log(names: &Vec<String>) -> (r: Option<usize>)
    ensures
        match r {
            Some(at) => {
                &&& at < names@.len()
                &&& is_hit_log(names@[at as int]@)
                &&& forall|k: int|
                    0 <= k < names@.len() && is_hit_log(#[trigger] names@[k]@) ==> !text::text_lt(
                        names@[at as int]@,
                        names@[k]@,
                    )
            },
            None => forall|k: int| 0 <= k < names@.len() ==> !is_hit_log(#[trigger] names@[k]@),
        },
{
    let mut best: Option<usize> = None;
    let mut i: usize = 0;
    while i < names.len()
        invariant
            i <= names@.len(),
            match best {
                Some(at) => {
                    &&& at < i
                    &&& is_hit_log(names@[at as int]@)
                    &&& forall|k: int|
                        0 <= k < i && is_hit_log(#[trigger] names@[k]@) ==> !text::text_lt(
                            names@[at as int]@,
                            names@[k]@,
                        )
                },
                None => forall|k: int| 0 <= k < i ==> !is_hit_log(#[trigger] names@[k]@),
            },
        decreases names.len() - i,
    {
        let name = text::chars_of(names[i].as_str());
        if text::starts(&name, "nte_hits_") && text::ends(&name, ".jsonl") {
            match best {
                None => {
                    best = Some(i);
                    proof {
                        text::text_order_is_total(name@, name@);
                    }
                },
                Some(at) => {
                    let known = text::chars_of(names[at].as_str());
                    if text::comes_before(&known, &name) {
                        proof {
                            lemma_nothing_after(names@, at as int, i as int);
                        }
                        best = Some(i);
                    }
                },
            }
        }
        i += 1;
    }
    best
}

proof fn lemma_nothing_after(names: Seq<String>, at: int, i: int)
    requires
        0 <= at < i < names.len(),
        text::text_lt(names[at]@, names[i]@),
        forall|k: int|
            0 <= k < i && is_hit_log(#[trigger] names[k]@) ==> !text::text_lt(
                names[at]@,
                names[k]@,
            ),
    ensures
        forall|k: int|
            0 <= k < i + 1 && is_hit_log(#[trigger] names[k]@) ==> !text::text_lt(
                names[i]@,
                names[k]@,
            ),
{
    text::text_order_is_total(names[i]@, names[i]@);
    assert forall|k: int| 0 <= k < i + 1 && is_hit_log(#[trigger] names[k]@) implies !text::text_lt(
        names[i]@,
        names[k]@,
    ) by {
        if k < i && text::text_lt(names[i]@, names[k]@) {
            text::text_order_is_transitive(names[at]@, names[i]@, names[k]@);
        }
    }
}

/// A shortened label is no longer than asked for: it is the text itself where that fits,
/// and else what it begins with and one mark.
pub proof fn shortened_labels_fit(s: Seq<char>, max: int)
    requires
        0 < max,
    ensures
        compact(s, max).len() <= max,
        s.len() <= max ==> compact(s, max) == s,
        s.len() > max ==> compact(s, max).len() == max && compact(s, max).take(max - 1) == s.take(
            max - 1,
        ) && compact(s, max).last() == '…',
{
    reveal_strlit("…");
    if s.len() > max {
        assert(compact(s, max).take(max - 1) =~= s.take(max - 1));
    }
}

/// A target is labelled by its name, and without one by what it is known as, in at most
/// eighteen signs.
pub proof fn targets_are_labelled_by_name(hit: model::HitView)
    ensures
        label(hit).len() <= 18,
        hit.target_name matches Some(name) ==> (name.len() <= 18 ==> label(hit) == name) && (
        name.len() > 18 ==> label(hit).take(17) == name.take(17)),
        hit.target_name is None ==> (hit.target_id matches Some(id) ==> (id.len() <= 18 ==> label(
            hit,
        ) == id) && (id.len() > 18 ==> label(hit).take(17) == id.take(17))),
        hit.target_name is None && hit.target_id is None ==> label(hit).len() == 0,
{
    match (hit.target_name, hit.target_id) {
        (Some(name), _) => {
            shortened_labels_fit(name, 18);
        },
        (None, Some(id)) => {
            shortened_labels_fit(id, 18);
        },
        (None, None) => {},
    }
}

proof fn lemma_shown_positions(
    packets: Seq<PacketDebug>,
    only_hits: bool,
    search: Seq<char>,
    from: int,
    n: int,
)
    requires
        0 <= from <= n <= packets.len() <= usize::MAX,
    ensures
        ({
            let s = shown_positions(packets, only_hits, search, from, n);
            &&& forall|i: int|
                0 <= i < s.len() ==> from <= #[trigger] s[i] < n && shown(
                    packets[s[i] as int]@,
                    only_hits,
                    search,
                )
            &&& forall|i: int, j: int| 0 <= i < j < s.len() ==> #[trigger] s[i] < #[trigger] s[j]
            &&& forall|k: int|
                from <= k < n && shown(#[trigger] packets[k]@, only_hits, search) ==> s.contains(
                    k as usize,
                )
        }),
    decreases n - from,
{
    if from < n {
        lemma_shown_positions(packets, only_hits, search, from, n - 1);
        let before = shown_positions(packets, only_hits, search, from, n - 1);
        let s = shown_positions(packets, only_hits, search, from, n);
        assert forall|k: int|
            from <= k < n && shown(#[trigger] packets[k]@, only_hits, search) implies s.contains(
            k as usize,
        ) by {
            if k < n - 1 {
                let w = choose|w: int| 0 <= w < before.len() && before[w] == k as usize;
                assert(s[w] == k as usize);
            } else {
                assert(s[s.len() - 1] == k as usize);
            }
        }
    }
}

/// The list shows packets of the last five hundred, in their order; with the mark set,
/// only those with hits; and without a search, all of these.
pub proof fn the_newest_packets_are_shown(
    packets: Seq<PacketDebug>,
    only_hits: bool,
    search: Seq<char>,
)
    requires
        packets.len() <= usize::MAX,
    ensures
        ({
            let n = packets.len() as int;
            let s = shown_positions(packets, only_hits, search, list_start(n), n);
            &&& forall|i: int| 0 <= i < s.len() ==> n - 500 <= #[trigger] s[i] < n
            &&& forall|i: int, j: int| 0 <= i < j < s.len() ==> #[trigger] s[i] < #[trigger] s[j]
            &&& only_hits ==> forall|i: int|
                0 <= i < s.len() ==> packets[#[trigger] s[i] as int].parsed_hits > 0
            &&& search.len() == 0 ==> forall|k: int|
                0 <= k < n && n - 500 <= k && (only_hits ==> packets[k].parsed_hits > 0)
                    ==> #[trigger] s.contains(k as usize)
        }),
{
    let n = packets.len() as int;
    lemma_shown_positions(packets, only_hits, search, list_start(n), n);
    let s = shown_positions(packets, only_hits, search, list_start(n), n);
    assert forall|i: int| 0 <= i < s.len() implies n - 500 <= #[trigger] s[i] < n by {}
    if only_hits {
        assert forall|i: int| 0 <= i < s.len() implies packets[#[trigger] s[i] as int].parsed_hits
            > 0 by {
            assert(shown(packets[s[i] as int]@, only_hits, search));
        }
    }
    if search.len() == 0 {
        assert forall|k: int|
            0 <= k < n && n - 500 <= k && (only_hits ==> packets[k].parsed_hits
                > 0) implies #[trigger] s.contains(k as usize) by {
            assert(shown(packets[k]@, only_hits, search));
        }
    }
}

/// The hits of a character are all listed, in their order, and no others.
pub proof fn all_hits_of_the_character_are_listed(hits: Seq<Hit>, id: u32, n: int)
    requires
        0 <= n <= hits.len() <= usize::MAX,
    ensures
        ({
            let s = positions_of(hits, id, n);
            &&& forall|i: int|
                0 <= i < s.len() ==> #[trigger] s[i] < n && hits[s[i] as int].char_id == id
            &&& forall|i: int, j: int| 0 <= i < j < s.len() ==> #[trigger] s[i] < #[trigger] s[j]
            &&& forall|k: int|
                0 <= k < n && (#[trigger] hits[k]).char_id == id ==> s.contains(k as usize)
        }),
    decreases n,
{
    if n > 0 {
        all_hits_of_the_character_are_listed(hits, id, n - 1);
        let before = positions_of(hits, id, n - 1);
        let s = positions_of(hits, id, n);
        assert forall|k: int| 0 <= k < n && (#[trigger] hits[k]).char_id == id implies s.contains(
            k as usize,
        ) by {
            if k < n - 1 {
                let w = choose|w: int| 0 <= w < before.len() && before[w] == k as usize;
                assert(s[w] == k as usize);
            } else {
                assert(s[s.len() - 1] == k as usize);
            }
        }
    }
}

/// A window holds what stands at its places, as many as there are.
pub proof fn windows_hold_their_places(s: Seq<usize>, start: int, count: int)
    requires
        0 <= start,
        0 <= count,
    ensures
        ({
            let w = window(s, start, count);
            &&& w.len() <= count
            &&& start + w.len() < s.len() ==> w.len() == count
            &&& start < s.len() && w.len() < count ==> start + w.len() == s.len()
            &&& start >= s.len() ==> w.len() == 0
            &&& forall|i: int| 0 <= i < w.len() ==> #[trigger] w[i] == s[start + i]
        }),
{
}

/// A colour is read as red, green and blue, two digits each, after a mark that may be
/// missing.
pub proof fn colours_are_red_green_and_blue(s: Seq<char>, h: Seq<int>)
    requires
        s.len() == 6,
        h.len() == 6,
        forall|i: int|
            0 <= i < 6 ==> hexadecimal::hex_value(#[trigger] s[i]) == Some(h[i]) && 0 <= h[i] < 16,
        s[0] != '#' && s[0] != '+' && s[2] != '+' && s[4] != '+',
    ensures
        colour(s) matches Some(c) && c.red == 16 * h[0] + h[1] && c.green == 16 * h[2] + h[3]
            && c.blue == 16 * h[4] + h[5],
        colour("#"@ + s) == colour(s),
{
    reveal_strlit("#");
    assert(("#"@ + s).skip(1) =~= s);
    assert(s[0] == s[0] && s[1] == s[1] && s[2] == s[2] && s[3] == s[3] && s[4] == s[4] && s[5]
        == s[5]);
}

} // verus!
