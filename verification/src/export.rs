//! A recorded fight as a JSON document.
//!
//! Times of day depend on the time zone of the machine, so the caller hands them
//! in as texts; everything else is written here.
use vstd::prelude::*;

use crate::figures;
use crate::hexadecimal;
use crate::model;
use crate::model::{CharacterStats, CombatState, Hit, PacketDebug};
use crate::network::GameNetwork;
use crate::sorting;
use crate::text;
use crate::text::Class;

verus! {

broadcast use vstd::std_specs::hash::group_hash_axioms;

// ------------------------------------------------------------ texts

/// A character as it stands inside a quoted text.
pub open spec fn escaped_char(c: char) -> Seq<char> {
    if c == '"' {
        seq!['\\', '"']
    } else if c == '\\' {
        seq!['\\', '\\']
    } else if c == '\n' {
        seq!['\\', 'n']
    } else if c == '\r' {
        seq!['\\', 'r']
    } else if c == '\t' {
        seq!['\\', 't']
    } else if c == '\u{8}' {
        seq!['\\', 'b']
    } else if c == '\u{c}' {
        seq!['\\', 'f']
    } else if text::is_control(c) {
        seq!['\\', 'u'] + text::zero_pad(text::hex(c as nat), 4)
    } else {
        seq![c]
    }
}

/// A text as it stands between quotation marks.
pub open spec fn escaped(s: Seq<char>) -> Seq<char>
    decreases s.len(),
{
    if s.len() == 0 {
        Seq::empty()
    } else {
        escaped(s.drop_last()) + escaped_char(s.last())
    }
}

/// A text in quotation marks.
pub open spec fn quoted(s: Seq<char>) -> Seq<char> {
    seq!['"'] + escaped(s) + seq!['"']
}

fn push_escaped(out: &mut String, c: char)
    ensures
        final(out)@ == old(out)@ + escaped_char(c),
{
    let ghost before = out@;
    if c == '"' || c == '\\' {
        out.push('\\');
        out.push(c);
        assert(out@ =~= before + seq!['\\', c]);
    } else if c == '\n' {
        out.push('\\');
        out.push('n');
        assert(out@ =~= before + seq!['\\', 'n']);
    } else if c == '\r' {
        out.push('\\');
        out.push('r');
        assert(out@ =~= before + seq!['\\', 'r']);
    } else if c == '\t' {
        out.push('\\');
        out.push('t');
        assert(out@ =~= before + seq!['\\', 't']);
    } else if c == '\u{8}' {
        out.push('\\');
        out.push('b');
        assert(out@ =~= before + seq!['\\', 'b']);
    } else if c == '\u{c}' {
        out.push('\\');
        out.push('f');
        assert(out@ =~= before + seq!['\\', 'f']);
    } else if Class::Control.has(c) {
        out.push('\\');
        out.push('u');
        let code = text::hex_string((c as u32) as u64);
        out.append(text::zero_padded(code.as_str(), 4).as_str());
        assert(out@ =~= before + escaped_char(c));
    } else {
        out.push(c);
        assert(out@ =~= before + seq![c]);
    }
}

/// Writes a text in quotation marks.
pub fn json_string(value: &str) -> (out: String)
    ensures
        out@ == quoted(value@),
{
    let chars = text::chars_of(value);
    let mut out = String::new();
    out.push('"');
    let mut i: usize = 0;
    assert(out@ =~= seq!['"'] + escaped(chars@.take(0)));
    while i < chars.len()
        invariant
            i <= chars@.len(),
            out@ == seq!['"'] + escaped(chars@.take(i as int)),
        decreases chars.len() - i,
    {
        push_escaped(&mut out, chars[i]);
        assert(chars@.take(i + 1).drop_last() =~= chars@.take(i as int));
        assert(out@ =~= seq!['"'] + escaped(chars@.take(i + 1)));
        i += 1;
    }
    assert(chars@.take(chars@.len() as int) =~= chars@);
    out.push('"');
    assert(out@ =~= quoted(value@));
    out
}

/// A text in quotation marks, or the word for none.
pub open spec fn quoted_or_null(s: Option<Seq<char>>) -> Seq<char> {
    match s {
        Some(s) => quoted(s),
        None => "null"@,
    }
}

fn json_option_string(value: &Option<String>) -> (out: String)
    ensures
        out@ == quoted_or_null(text::opt_text(*value)),
{
    match value {
        Some(s) => json_string(s.as_str()),
        None => "null".to_owned(),
    }
}

// ------------------------------------------------------------ numbers

/// Thousandths as a number with three decimals.
pub open spec fn amount(v: int) -> Seq<char> {
    figures::fixed(v, 1_000, 1_000, 3)
}

pub fn json_amount(v: i64) -> (out: String)
    ensures
        out@ == amount(v as int),
{
    figures::fixed_string(v as i128, 1_000, 1_000, 3)
}

/// Microseconds as seconds with three decimals.
pub open spec fn moment(v: int) -> Seq<char> {
    figures::fixed(v, 1_000_000, 1_000, 3)
}

pub fn json_moment(v: i64) -> (out: String)
    ensures
        out@ == moment(v as int),
{
    figures::fixed_string(v as i128, 1_000_000, 1_000, 3)
}

pub open spec fn moment_or_null(v: Option<i64>) -> Seq<char> {
    match v {
        Some(v) => moment(v as int),
        None => "null"@,
    }
}

fn json_option_moment(v: Option<i64>) -> (out: String)
    ensures
        out@ == moment_or_null(v),
{
    match v {
        Some(v) => json_moment(v),
        None => "null".to_owned(),
    }
}

/// Which part of the whole damage a character dealt, in percent; none of it while
/// the whole is not positive.
pub open spec fn share(damage: int, total: int, scale: int, places: int) -> Seq<char> {
    if total > 0 {
        figures::fixed(damage * 100, total, scale, places)
    } else {
        figures::fixed(0, 1, scale, places)
    }
}

pub fn share_string(damage: i64, total: i64, scale: u128, places: usize) -> (out: String)
    requires
        0 < scale <= 1_000,
    ensures
        out@ == share(damage as int, total as int, scale as int, places as int),
{
    if total > 0 {
        figures::fixed_string((damage as i128) * 100, total as u128, scale, places)
    } else {
        figures::fixed_string(0, 1, scale, places)
    }
}

// ------------------------------------------------------------ identifiers

/// Numbers in square brackets, with a comma and a space between them.
pub open spec fn id_list(ids: Seq<u32>) -> Seq<char> {
    "["@ + text::join(id_texts(ids), ", "@) + "]"@
}

pub open spec fn id_texts(ids: Seq<u32>) -> Seq<Seq<char>> {
    ids.map_values(|id: u32| text::dec(id as nat))
}

pub fn id_list_string(ids: &Vec<u32>) -> (out: String)
    ensures
        out@ == id_list(ids@),
{
    let mut parts: Vec<String> = Vec::new();
    let mut i: usize = 0;
    while i < ids.len()
        invariant
            i <= ids@.len(),
            text::texts(parts@) =~= id_texts(ids@.take(i as int)),
        decreases ids.len() - i,
    {
        let ghost before = parts@;
        parts.push(text::dec_string(ids[i] as u64));
        assert(text::texts(parts@) =~= text::texts(before).push(text::dec(ids@[i as int] as nat)));
        assert(id_texts(ids@.take(i + 1)) =~= id_texts(ids@.take(i as int)).push(
            text::dec(ids@[i as int] as nat),
        ));
        i += 1;
    }
    assert(ids@.take(ids@.len() as int) =~= ids@);
    let inner = text::join_strings(&parts, ", ");
    text::concat3("[", inner.as_str(), "]")
}

// ------------------------------------------------------------ the party

/// Whether a character stands before another one in the party: the one who dealt
/// more damage, and the one with the smaller number where they dealt the same.
pub open spec fn ranks_before(stats: Map<u32, CharacterStats>, a: u32, b: u32) -> bool {
    stats[a].damage > stats[b].damage || (stats[a].damage == stats[b].damage && a < b)
}

/// All characters in their order.
pub open spec fn is_party(stats: Map<u32, CharacterStats>, ids: Seq<u32>) -> bool {
    &&& forall|i: int| 0 <= i < ids.len() ==> stats.contains_key(#[trigger] ids[i])
    &&& forall|id: u32| #[trigger] stats.contains_key(id) ==> ids.contains(id)
    &&& forall|i: int, j: int|
        0 <= i < j < ids.len() ==> #[trigger] ranks_before(stats, ids[i], ids[j])
}

/// The key that orders the party.
pub open spec fn party_key(damage: i64, id: u32) -> u128 {
    ((i64::MAX - damage) * 0x1_0000_0000 + id) as u128
}

/// There is only one such order.
pub proof fn the_party_has_one_order(stats: Map<u32, CharacterStats>, a: Seq<u32>, b: Seq<u32>)
    requires
        is_party(stats, a),
        is_party(stats, b),
    ensures
        a == b,
    decreases a.len(),
{
    if a.len() == 0 {
        if b.len() > 0 {
            assert(stats.contains_key(b[0]));
            assert(a.contains(b[0]));
        }
        assert(a =~= b);
    } else {
        assert(stats.contains_key(a[0]));
        assert(b.contains(a[0]));
        let at = choose|k: int| 0 <= k < b.len() && b[k] == a[0];
        assert(stats.contains_key(b[0]));
        assert(a.contains(b[0]));
        let back = choose|k: int| 0 <= k < a.len() && a[k] == b[0];
        if at > 0 {
            assert(ranks_before(stats, b[0], b[at]));
            if back > 0 {
                assert(ranks_before(stats, a[0], a[back]));
            }
        }
        let first = a[0];
        assert(first == b[0]);
        let rest = stats.remove(first);
        assert(is_party(rest, a.skip(1))) by {
            lemma_party_without_first(stats, a);
        }
        assert(is_party(rest, b.skip(1))) by {
            lemma_party_without_first(stats, b);
        }
        the_party_has_one_order(rest, a.skip(1), b.skip(1));
        assert(a =~= seq![first] + a.skip(1));
        assert(b =~= seq![first] + b.skip(1));
    }
}

proof fn lemma_party_without_first(stats: Map<u32, CharacterStats>, ids: Seq<u32>)
    requires
        is_party(stats, ids),
        ids.len() > 0,
    ensures
        is_party(stats.remove(ids[0]), ids.skip(1)),
{
    let rest = stats.remove(ids[0]);
    let tail = ids.skip(1);
    assert forall|i: int| 0 <= i < tail.len() implies rest.contains_key(#[trigger] tail[i]) by {
        assert(tail[i] == ids[i + 1]);
        assert(ranks_before(stats, ids[0], ids[i + 1]));
    }
    assert forall|id: u32| #[trigger] rest.contains_key(id) implies tail.contains(id) by {
        assert(stats.contains_key(id));
        let k = choose|k: int| 0 <= k < ids.len() && ids[k] == id;
        assert(tail[k - 1] == id);
    }
    assert forall|i: int, j: int| 0 <= i < j < tail.len() implies #[trigger] ranks_before(
        rest,
        tail[i],
        tail[j],
    ) by {
        assert(tail[i] == ids[i + 1] && tail[j] == ids[j + 1]);
        assert(ranks_before(stats, ids[i + 1], ids[j + 1]));
        assert(rest.contains_key(tail[i]) && rest.contains_key(tail[j]));
    }
}

fn key_of(damage: i64, id: u32) -> (key: u128)
    ensures
        key == party_key(damage, id),
{
    let less: i128 = 0x7fff_ffff_ffff_ffff - (damage as i128);
    (less as u128) * 0x1_0000_0000 + (id as u128)
}

/// Each character with the key that orders the party.
spec fn keyed(stats: Map<u32, CharacterStats>, ids: Seq<u32>) -> Seq<(u128, u32)> {
    ids.map_values(|id: u32| (party_key(stats[id].damage, id), id))
}

proof fn lemma_sorted_keys_are_a_party(stats: Map<u32, CharacterStats>, ids: Seq<u32>)
    requires
        ids.no_duplicates(),
        forall|i: int| 0 <= i < ids.len() ==> stats.contains_key(#[trigger] ids[i]),
        forall|id: u32| #[trigger] stats.contains_key(id) ==> ids.contains(id),
    ensures
        is_party(stats, sorting::values(sorting::sorted(keyed(stats, ids)))),
{
    let items = keyed(stats, ids);
    let s = sorting::sorted(items);
    let out = sorting::values(s);
    sorting::sorted_is_ordered(items);
    sorting::sorted_is_a_permutation(items);
    items.to_multiset_ensures();
    s.to_multiset_ensures();
    assert(items.no_duplicates()) by {
        assert forall|i: int, j: int| 0 <= i < items.len() && 0 <= j < items.len() && i
            != j implies items[i] != items[j] by {
            assert(ids[i] != ids[j]);
        }
    }
    items.lemma_multiset_has_no_duplicates();
    assert(s.no_duplicates()) by {
        assert forall|x: (u128, u32)| #[trigger]
            s.to_multiset().contains(x) implies s.to_multiset().count(x) == 1 by {
            assert(items.to_multiset().contains(x));
        }
        s.lemma_multiset_has_no_duplicates_conv();
    }
    assert forall|i: int| 0 <= i < s.len() implies items.contains(#[trigger] s[i]) by {
        assert(s.to_multiset().count(s[i]) > 0) by {
            assert(s.contains(s[i]));
        }
        assert(items.to_multiset().count(s[i]) > 0);
    }
    assert forall|i: int| 0 <= i < out.len() implies stats.contains_key(#[trigger] out[i]) by {
        assert(items.contains(s[i]));
        let k = choose|k: int| 0 <= k < items.len() && items[k] == s[i];
        assert(out[i] == ids[k]);
    }
    assert forall|id: u32| #[trigger] stats.contains_key(id) implies out.contains(id) by {
        assert(ids.contains(id));
        let k = choose|k: int| 0 <= k < ids.len() && ids[k] == id;
        assert(items.contains(items[k]));
        assert(items.to_multiset().count(items[k]) > 0);
        assert(s.contains(items[k]));
        let j = choose|j: int| 0 <= j < s.len() && s[j] == items[k];
        assert(out[j] == id);
    }
    assert forall|i: int, j: int| 0 <= i < j < out.len() implies #[trigger] ranks_before(
        stats,
        out[i],
        out[j],
    ) by {
        assert(items.contains(s[i]) && items.contains(s[j]));
        assert(s[i] != s[j]);
        assert(s[i].0 <= s[j].0);
    }
}

/// The characters, by the damage they dealt.
pub fn party_order(state: &CombatState) -> (ids: Vec<u32>)
    ensures
        is_party(state.stats@, ids@),
{
    let mut items: Vec<(u128, u32)> = Vec::new();
    let ghost mut ids: Seq<u32> = Seq::empty();
    for id in it: state.stats.keys()
        invariant
            it.seq().unref().to_set() == state.stats@.dom(),
            it.seq().no_duplicates(),
            ids == it.seq().unref().take(it.index() as int),
            items@ == keyed(state.stats@, ids),
            it.index() == it.seq().len() ==> (forall|id: u32| #[trigger]
                state.stats@.contains_key(id) ==> ids.contains(id)),
    {
        proof {
            let all = it.seq().unref();
            assert(all[it.index() as int] == *id);
            assert(all.contains(*id));
            assert(all.to_set().contains(*id));
        }
        match state.stats.get(id) {
            Some(row) => {
                items.push((key_of(row.damage, *id), *id));
                proof {
                    ids = ids.push(*id);
                    assert(items@ =~= keyed(state.stats@, ids));
                }
                assert(ids =~= it.seq().unref().take(it.index() + 1));
                assert(it.index() + 1 == it.seq().len() ==> ids =~= it.seq().unref());
                assert forall|id: u32| it.index() + 1 == it.seq().len() && #[trigger]
                    state.stats@.contains_key(id) implies ids.contains(id) by {
                    assert(it.seq().unref().to_set().contains(id));
                }
            },
            None => {},
        }
    }
    let sorted = sorting::sort_by_key(items);
    proof {
        lemma_sorted_keys_are_a_party(state.stats@, ids);
    }
    let mut out: Vec<u32> = Vec::new();
    let mut i: usize = 0;
    while i < sorted.len()
        invariant
            i <= sorted@.len(),
            out@ =~= sorting::values(sorted@).take(i as int),
        decreases sorted.len() - i,
    {
        out.push(sorted[i].1);
        i += 1;
    }
    assert(out@ =~= sorting::values(sorted@));
    out
}

// ------------------------------------------------------------ records

/// A line with a name and its value.
pub open spec fn field(indent: Seq<char>, name: Seq<char>, value: Seq<char>, last: bool) -> Seq<char> {
    indent + "\""@ + name + "\": "@ + value + line_end(last)
}

/// What ends a line: a comma stands before the end where more follows.
pub open spec fn line_end(last: bool) -> Seq<char> {
    if last {
        "\n"@
    } else {
        ",\n"@
    }
}

fn push_line_end(out: &mut String, last: bool)
    ensures
        final(out)@ == old(out)@ + line_end(last),
{
    if last {
        out.append("\n");
    } else {
        out.append(",\n");
    }
}

fn push_field(out: &mut String, indent: &str, name: &str, value: &str, last: bool)
    ensures
        final(out)@ == old(out)@ + field(indent@, name@, value@, last),
{
    let ghost before = out@;
    out.append(indent);
    out.append("\"");
    out.append(name);
    out.append("\": ");
    out.append(value);
    push_line_end(out, last);
    assert(out@ =~= before + field(indent@, name@, value@, last));
}

fn json_rate(v: i128) -> (out: String)
    requires
        -figures::LIMIT <= v <= figures::LIMIT,
    ensures
        out@ == amount(v as int),
{
    figures::fixed_string(v, 1_000, 1_000, 3)
}

fn json_span(v: i128) -> (out: String)
    requires
        -figures::LIMIT <= v <= figures::LIMIT,
    ensures
        out@ == moment(v as int),
{
    figures::fixed_string(v, 1_000_000, 1_000, 3)
}

/// The values of a list, one on each line.
pub open spec fn listed_texts(values: Seq<Seq<char>>, n: int) -> Seq<char>
    decreases n,
{
    if n <= 0 {
        Seq::empty()
    } else {
        listed_texts(values, n - 1) + "        "@ + quoted(values[n - 1]) + line_end(
            n == values.len(),
        )
    }
}

/// The record of a hit, without the line that closes it.
#[verifier::opaque]
pub open spec fn hit_record(hit: model::HitView, time: Seq<char>) -> Seq<char> {
    "    {\n"@
        + field("      "@, "timestamp_unix"@, moment(hit.timestamp as int), false)
        + field("      "@, "time_local"@, quoted(time), false)
        + field("      "@, "char_id"@, text::dec(hit.char_id as nat), false)
        + field("      "@, "char_name"@, quoted(hit.char_name), false)
        + field("      "@, "damage"@, amount(hit.damage as int), false)
        + field("      "@, "target_hp_before"@, amount(hit.target_hp_before as int), false)
        + field("      "@, "target_hp_after"@, amount(hit.target_hp_after as int), false)
        + field("      "@, "target_max_hp"@, amount(hit.target_max_hp as int), false)
        + field("      "@, "target_hp_percent"@, amount(hit.target_hp_percent as int), false)
        + field("      "@, "target_id"@, quoted_or_null(hit.target_id), false)
        + field("      "@, "target_name"@, quoted_or_null(hit.target_name), false)
        + "      \"target_context\": [\n"@ + listed_texts(
        hit.target_context,
        hit.target_context.len() as int,
    ) + "      ]\n"@
}

fn hit_record_string(hit: &Hit, time: &str) -> (out: String)
    ensures
        out@ == hit_record(hit@, time@),
{
    proof {
        reveal(hit_record);
    }
    let mut out = "    {\n".to_owned();
    push_field(&mut out, "      ", "timestamp_unix", json_moment(hit.timestamp).as_str(), false);
    push_field(&mut out, "      ", "time_local", json_string(time).as_str(), false);
    push_field(&mut out, "      ", "char_id", text::dec_string(hit.char_id as u64).as_str(), false);
    push_field(
        &mut out,
        "      ",
        "char_name",
        json_string(hit.char_name.as_str()).as_str(),
        false,
    );
    push_field(&mut out, "      ", "damage", json_amount(hit.damage).as_str(), false);
    push_field(
        &mut out,
        "      ",
        "target_hp_before",
        json_amount(hit.target_hp_before).as_str(),
        false,
    );
    push_field(
        &mut out,
        "      ",
        "target_hp_after",
        json_amount(hit.target_hp_after).as_str(),
        false,
    );
    push_field(&mut out, "      ", "target_max_hp", json_amount(hit.target_max_hp).as_str(), false);
    push_field(
        &mut out,
        "      ",
        "target_hp_percent",
        json_amount(hit.target_hp_percent).as_str(),
        false,
    );
    push_field(&mut out, "      ", "target_id", json_option_string(&hit.target_id).as_str(), false);
    push_field(
        &mut out,
        "      ",
        "target_name",
        json_option_string(&hit.target_name).as_str(),
        false,
    );
    out.append("      \"target_context\": [\n");
    let ghost head = out@;
    let mut list = String::new();
    let mut i: usize = 0;
    while i < hit.target_context.len()
        invariant
            i <= hit.target_context@.len(),
            list@ == listed_texts(hit@.target_context, i as int),
        decreases hit.target_context.len() - i,
    {
        list.append("        ");
        list.append(json_string(hit.target_context[i].as_str()).as_str());
        push_line_end(&mut list, i + 1 == hit.target_context.len());
        i += 1;
    }
    out.append(list.as_str());
    out.append("      ]\n");
    out
}

/// The record of a packet, without the line that closes it.
#[verifier::opaque]
pub open spec fn packet_record(packet: model::PacketView, time: Seq<char>) -> Seq<char> {
    "    {\n"@
        + field("      "@, "timestamp_unix"@, moment(packet.timestamp as int), false)
        + field("      "@, "time_local"@, quoted(time), false)
        + field("      "@, "source"@, quoted(packet.source), false)
        + field("      "@, "destination"@, quoted(packet.destination), false)
        + field("      "@, "direction"@, quoted(packet.direction), false)
        + field("      "@, "payload_len"@, text::dec(packet.payload_len as nat), false)
        + field("      "@, "declared_ids"@, quoted(id_list(packet.declared_ids)), false)
        + field("      "@, "parsed_hits"@, text::dec(packet.parsed_hits as nat), false)
        + field("      "@, "note"@, quoted(packet.note), false)
        + field("      "@, "payload_preview"@, quoted(packet.payload_preview), false)
        + field("      "@, "payload_hex"@, quoted(packet.payload_hex), false)
        + field("      "@, "decoded_text"@, quoted(packet.decoded_text), true)
}

fn packet_record_string(packet: &PacketDebug, time: &str) -> (out: String)
    ensures
        out@ == packet_record(packet@, time@),
{
    proof {
        reveal(packet_record);
    }
    let mut out = "    {\n".to_owned();
    push_field(&mut out, "      ", "timestamp_unix", json_moment(packet.timestamp).as_str(), false);
    push_field(&mut out, "      ", "time_local", json_string(time).as_str(), false);
    push_field(&mut out, "      ", "source", json_string(packet.source.as_str()).as_str(), false);
    push_field(
        &mut out,
        "      ",
        "destination",
        json_string(packet.destination.as_str()).as_str(),
        false,
    );
    push_field(
        &mut out,
        "      ",
        "direction",
        json_string(packet.direction.as_str()).as_str(),
        false,
    );
    push_field(
        &mut out,
        "      ",
        "payload_len",
        text::dec_string(packet.payload_len as u64).as_str(),
        false,
    );
    push_field(
        &mut out,
        "      ",
        "declared_ids",
        json_string(id_list_string(&packet.declared_ids).as_str()).as_str(),
        false,
    );
    push_field(
        &mut out,
        "      ",
        "parsed_hits",
        text::dec_string(packet.parsed_hits as u64).as_str(),
        false,
    );
    push_field(&mut out, "      ", "note", json_string(packet.note.as_str()).as_str(), false);
    push_field(
        &mut out,
        "      ",
        "payload_preview",
        json_string(packet.payload_preview.as_str()).as_str(),
        false,
    );
    push_field(
        &mut out,
        "      ",
        "payload_hex",
        json_string(packet.payload_hex.as_str()).as_str(),
        false,
    );
    push_field(
        &mut out,
        "      ",
        "decoded_text",
        json_string(packet.decoded_text.as_str()).as_str(),
        true,
    );
    out
}

/// The record of a character, without the line that closes it.
#[verifier::opaque]
pub open spec fn row_record(row: CharacterStats, total: i64) -> Seq<char> {
    "    {\n"@
        + field("      "@, "char_id"@, text::dec(row.char_id as nat), false)
        + field("      "@, "name"@, quoted(row.name@), false)
        + field("      "@, "hits"@, text::dec(row.hits as nat), false)
        + field("      "@, "damage"@, amount(row.damage as int), false)
        + field("      "@, "dps"@, amount(row.spec_dps()), false)
        + field("      "@, "duration_seconds"@, moment(row.spec_duration()), false)
        + field("      "@, "share_percent"@, share(row.damage as int, total as int, 1_000, 3), true)
}

fn row_record_string(row: &CharacterStats, total: i64) -> (out: String)
    ensures
        out@ == row_record(*row, total),
{
    proof {
        reveal(row_record);
    }
    let mut out = "    {\n".to_owned();
    push_field(&mut out, "      ", "char_id", text::dec_string(row.char_id as u64).as_str(), false);
    push_field(&mut out, "      ", "name", json_string(row.name.as_str()).as_str(), false);
    push_field(&mut out, "      ", "hits", text::dec_string(row.hits).as_str(), false);
    push_field(&mut out, "      ", "damage", json_amount(row.damage).as_str(), false);
    push_field(&mut out, "      ", "dps", json_rate(row.dps()).as_str(), false);
    push_field(&mut out, "      ", "duration_seconds", json_span(row.duration()).as_str(), false);
    push_field(
        &mut out,
        "      ",
        "share_percent",
        share_string(row.damage, total, 1_000, 3).as_str(),
        true,
    );
    out
}

/// What closes a record.
pub open spec fn closing(last: bool) -> Seq<char> {
    "    }"@ + line_end(last)
}

pub open spec fn hit_records(hits: Seq<Hit>, times: Seq<String>, n: int) -> Seq<char>
    decreases n,
{
    if n <= 0 {
        Seq::empty()
    } else {
        hit_records(hits, times, n - 1) + hit_record(hits[n - 1]@, times[n - 1]@) + closing(
            n == hits.len(),
        )
    }
}

pub open spec fn packet_records(packets: Seq<PacketDebug>, times: Seq<String>, n: int) -> Seq<char>
    decreases n,
{
    if n <= 0 {
        Seq::empty()
    } else {
        packet_records(packets, times, n - 1) + packet_record(
            packets[n - 1]@,
            times[n - 1]@,
        ) + closing(n == packets.len())
    }
}

pub open spec fn row_records(
    stats: Map<u32, CharacterStats>,
    ids: Seq<u32>,
    total: i64,
    n: int,
) -> Seq<char>
    decreases n,
{
    if n <= 0 {
        Seq::empty()
    } else {
        row_records(stats, ids, total, n - 1) + row_record(stats[ids[n - 1]], total) + closing(
            n == ids.len(),
        )
    }
}

// ------------------------------------------------------------ the document

/// How the fight was recorded.
#[derive(Clone, Debug)]
pub struct ExportSettings {
    pub filter: String,
    pub include_incoming: bool,
    pub game_network: Option<GameNetwork>,
}

/// The points in time of a document as times of day.
#[derive(Clone, Debug)]
pub struct LocalTimes {
    pub exported_at: String,
    pub started_at: Option<String>,
    pub ended_at: Option<String>,
    pub hits: Vec<String>,
    pub packets: Vec<String>,
}

/// The latest of the given moments.
pub open spec fn latest(times: Seq<i64>) -> Option<i64>
    decreases times.len(),
{
    if times.len() == 0 {
        None
    } else {
        match latest(times.drop_last()) {
            Some(t) => if times.last() > t {
                Some(times.last())
            } else {
                Some(t)
            },
            None => Some(times.last()),
        }
    }
}

/// When hits and packets were seen.
pub open spec fn moments(state: CombatState) -> Seq<i64> {
    state.hits@.map_values(|h: Hit| h.timestamp) + state.packets@.map_values(
        |p: PacketDebug| p.timestamp,
    )
}

fn later(known: Option<i64>, t: i64) -> (r: Option<i64>)
    ensures
        r == match known {
            Some(k) => if t > k {
                Some(t)
            } else {
                Some(k)
            },
            None => Some(t),
        },
{
    match known {
        Some(k) => if t > k {
            Some(t)
        } else {
            Some(k)
        },
        None => Some(t),
    }
}

/// When the last hit or packet was seen.
pub fn last_moment(state: &CombatState) -> (r: Option<i64>)
    ensures
        r == latest(moments(*state)),
{
    let ghost all = moments(*state);
    let mut r: Option<i64> = None;
    let mut i: usize = 0;
    while i < state.hits.len()
        invariant
            i <= state.hits@.len(),
            all == moments(*state),
            r == latest(all.take(i as int)),
        decreases state.hits.len() - i,
    {
        r = later(r, state.hits[i].timestamp);
        assert(all.take(i + 1).drop_last() =~= all.take(i as int));
        assert(all[i as int] == state.hits@[i as int].timestamp);
        i += 1;
    }
    let mut j: usize = 0;
    while j < state.packets.len()
        invariant
            j <= state.packets@.len(),
            all == moments(*state),
            r == latest(all.take(state.hits@.len() + j)),
        decreases state.packets.len() - j,
    {
        r = later(r, state.packets[j].timestamp);
        let ghost at = state.hits@.len() + j;
        assert(all.take(at + 1).drop_last() =~= all.take(at));
        assert(all[at] == state.packets@[j as int].timestamp);
        j += 1;
    }
    assert(all.take(all.len() as int) =~= all);
    r
}

/// No document gives a shorter duration than a millisecond.
pub open spec fn shown_duration(state: CombatState) -> int {
    if state.spec_duration() > model::MIN_DURATION {
        state.spec_duration()
    } else {
        model::MIN_DURATION as int
    }
}

/// The entry on the game's connection.
pub open spec fn network_entry(network: Option<GameNetwork>) -> Seq<char> {
    match network {
        Some(network) => {
            "  \"game_network\": {\n"@
                + field("    "@, "pid"@, text::dec(network.pid as nat), false)
                + field("    "@, "local_ip"@, quoted(network.local_ip.shown()), false)
                + field("    "@, "remote_ip"@, quoted(network.remote_ip.shown()), false)
                + field("    "@, "remote_port"@, text::dec(network.remote_port as nat), true)
                + "  },\n"@
        },
        None => "  \"game_network\": null,\n"@,
    }
}

fn network_entry_string(network: &Option<GameNetwork>) -> (out: String)
    ensures
        out@ == network_entry(*network),
{
    match network {
        Some(network) => {
            let mut out = "  \"game_network\": {\n".to_owned();
            push_field(
                &mut out,
                "    ",
                "pid",
                text::dec_string(network.pid as u64).as_str(),
                false,
            );
            push_field(
                &mut out,
                "    ",
                "local_ip",
                json_string(network.local_ip.show().as_str()).as_str(),
                false,
            );
            push_field(
                &mut out,
                "    ",
                "remote_ip",
                json_string(network.remote_ip.show().as_str()).as_str(),
                false,
            );
            push_field(
                &mut out,
                "    ",
                "remote_port",
                text::dec_string(network.remote_port as u64).as_str(),
                true,
            );
            out.append("  },\n");
            out
        },
        None => "  \"game_network\": null,\n".to_owned(),
    }
}

/// The entry on the fight as a whole.
pub open spec fn summary_entry(state: &CombatState, times: &LocalTimes) -> Seq<char> {
    "  \"summary\": {\n"@
        + field("    "@, "hits"@, text::dec(state.hits@.len()), false)
        + field("    "@, "packets"@, text::dec(state.packets@.len()), false)
        + field("    "@, "total_damage"@, amount(state.total_damage as int), false)
        + field("    "@, "dps"@, amount(state.spec_dps()), false)
        + field("    "@, "duration_seconds"@, moment(shown_duration(*state)), false)
        + field("    "@, "started_at_unix"@, moment_or_null(state.started_at), false)
        + field("    "@, "started_at_local"@, quoted_or_null(text::opt_text(times.started_at)), false)
        + field("    "@, "ended_at_unix"@, moment_or_null(latest(moments(*state))), false)
        + field("    "@, "ended_at_local"@, quoted_or_null(text::opt_text(times.ended_at)), true)
        + "  },\n"@
}

fn summary_entry_string(state: &CombatState, times: &LocalTimes) -> (out: String)
    ensures
        out@ == summary_entry(state, times),
{
    let duration: i128 = state.duration();
    let shown: i128 = if duration > model::MIN_DURATION as i128 {
        duration
    } else {
        model::MIN_DURATION as i128
    };
    let mut out = "  \"summary\": {\n".to_owned();
    push_field(&mut out, "    ", "hits", text::dec_string(state.hits.len() as u64).as_str(), false);
    push_field(
        &mut out,
        "    ",
        "packets",
        text::dec_string(state.packets.len() as u64).as_str(),
        false,
    );
    push_field(&mut out, "    ", "total_damage", json_amount(state.total_damage).as_str(), false);
    push_field(&mut out, "    ", "dps", json_rate(state.dps()).as_str(), false);
    push_field(&mut out, "    ", "duration_seconds", json_span(shown).as_str(), false);
    push_field(
        &mut out,
        "    ",
        "started_at_unix",
        json_option_moment(state.started_at).as_str(),
        false,
    );
    push_field(
        &mut out,
        "    ",
        "started_at_local",
        json_option_string(&times.started_at).as_str(),
        false,
    );
    push_field(
        &mut out,
        "    ",
        "ended_at_unix",
        json_option_moment(last_moment(state)).as_str(),
        false,
    );
    push_field(
        &mut out,
        "    ",
        "ended_at_local",
        json_option_string(&times.ended_at).as_str(),
        true,
    );
    out.append("  },\n");
    out
}

pub open spec fn truth(b: bool) -> Seq<char> {
    if b {
        "true"@
    } else {
        "false"@
    }
}

/// The document over a fight whose characters stand in the given order.
pub open spec fn document(
    state: &CombatState,
    ids: Seq<u32>,
    settings: &ExportSettings,
    times: &LocalTimes,
) -> Seq<char> {
    "{\n"@ + field("  "@, "exported_at"@, quoted(times.exported_at@), false) + field(
        "  "@,
        "filter"@,
        quoted(settings.filter@),
        false,
    ) + field("  "@, "include_incoming"@, truth(settings.include_incoming), false) + network_entry(
        settings.game_network,
    ) + summary_entry(state, times) + "  \"party\": [\n"@ + row_records(
        state.stats@,
        ids,
        state.total_damage,
        ids.len() as int,
    ) + "  ],\n"@ + "  \"hits\": [\n"@ + hit_records(
        state.hits@,
        times.hits@,
        state.hits@.len() as int,
    ) + "  ],\n"@ + "  \"packets\": [\n"@ + packet_records(
        state.packets@,
        times.packets@,
        state.packets@.len() as int,
    ) + "  ]\n"@ + "}\n"@
}

fn row_records_string(state: &CombatState, ids: &Vec<u32>) -> (out: String)
    requires
        is_party(state.stats@, ids@),
    ensures
        out@ == row_records(state.stats@, ids@, state.total_damage, ids@.len() as int),
{
    let mut out = String::new();
    let mut i: usize = 0;
    while i < ids.len()
        invariant
            i <= ids@.len(),
            is_party(state.stats@, ids@),
            out@ == row_records(state.stats@, ids@, state.total_damage, i as int),
        decreases ids.len() - i,
    {
        let ghost before = out@;
        assert(state.stats@.contains_key(ids@[i as int]));
        match state.stats.get(&ids[i]) {
            Some(row) => {
                out.append(row_record_string(row, state.total_damage).as_str());
            },
            None => {},
        }
        out.append("    }");
        push_line_end(&mut out, i + 1 == ids.len());
        assert(out@ =~= row_records(state.stats@, ids@, state.total_damage, i + 1));
        i += 1;
    }
    out
}

fn hit_records_string(state: &CombatState, times: &Vec<String>) -> (out: String)
    requires
        times@.len() == state.hits@.len(),
    ensures
        out@ == hit_records(state.hits@, times@, state.hits@.len() as int),
{
    let mut out = String::new();
    let mut i: usize = 0;
    while i < state.hits.len()
        invariant
            i <= state.hits@.len() == times@.len(),
            out@ == hit_records(state.hits@, times@, i as int),
        decreases state.hits.len() - i,
    {
        out.append(hit_record_string(&state.hits[i], times[i].as_str()).as_str());
        out.append("    }");
        push_line_end(&mut out, i + 1 == state.hits.len());
        assert(out@ =~= hit_records(state.hits@, times@, i + 1));
        i += 1;
    }
    out
}

fn packet_records_string(state: &CombatState, times: &Vec<String>) -> (out: String)
    requires
        times@.len() == state.packets@.len(),
    ensures
        out@ == packet_records(state.packets@, times@, state.packets@.len() as int),
{
    let mut out = String::new();
    let mut i: usize = 0;
    while i < state.packets.len()
        invariant
            i <= state.packets@.len() == times@.len(),
            out@ == packet_records(state.packets@, times@, i as int),
        decreases state.packets.len() - i,
    {
        out.append(packet_record_string(&state.packets[i], times[i].as_str()).as_str());
        out.append("    }");
        push_line_end(&mut out, i + 1 == state.packets.len());
        assert(out@ =~= packet_records(state.packets@, times@, i + 1));
        i += 1;
    }
    out
}

/// Writes a recorded fight out. There is one time of day for each hit and each
/// packet.
pub fn capture_export_json(
    state: &CombatState,
    settings: &ExportSettings,
    times: &LocalTimes,
) -> (out: String)
    requires
        times.hits@.len() == state.hits@.len(),
        times.packets@.len() == state.packets@.len(),
    ensures
        exists|ids: Seq<u32>|
            is_party(state.stats@, ids) && out@ == #[trigger] document(state, ids, settings, times),
{
    let ids = party_order(state);
    let mut out = "{\n".to_owned();
    push_field(
        &mut out,
        "  ",
        "exported_at",
        json_string(times.exported_at.as_str()).as_str(),
        false,
    );
    push_field(&mut out, "  ", "filter", json_string(settings.filter.as_str()).as_str(), false);
    push_field(
        &mut out,
        "  ",
        "include_incoming",
        if settings.include_incoming {
            "true"
        } else {
            "false"
        },
        false,
    );
    out.append(network_entry_string(&settings.game_network).as_str());
    out.append(summary_entry_string(state, times).as_str());
    out.append("  \"party\": [\n");
    out.append(row_records_string(state, &ids).as_str());
    out.append("  ],\n");
    out.append("  \"hits\": [\n");
    out.append(hit_records_string(state, &times.hits).as_str());
    out.append("  ],\n");
    out.append("  \"packets\": [\n");
    out.append(packet_records_string(state, &times.packets).as_str());
    out.append("  ]\n");
    out.append("}\n");
    assert(out@ == document(state, ids@, settings, times));
    out
}

// ------------------------------------------------------------ reading back

proof fn lemma_control_code(c: char)
    requires
        text::is_control(c),
    ensures
        text::zero_pad(text::hex(c as nat), 4) == seq![
            '0',
            '0',
            text::digit((c as nat) / 16),
            text::digit((c as nat) % 16),
        ],
{
    let n = c as nat;
    reveal_with_fuel(text::hex, 3);
    if n < 16 {
        assert(text::zero_pad(text::hex(n), 4) =~= seq!['0', '0', text::digit(n / 16), text::digit(n % 16)]);
    } else {
        assert(text::hex(n) =~= seq![text::digit(n / 16), text::digit(n % 16)]);
        assert(text::zero_pad(text::hex(n), 4) =~= seq!['0', '0', text::digit(n / 16), text::digit(n % 16)]);
    }
}

proof fn lemma_escaped_from_the_front(s: Seq<char>)
    requires
        s.len() > 0,
    ensures
        escaped(s) == escaped_char(s[0]) + escaped(s.skip(1)),
    decreases s.len(),
{
    if s.len() == 1 {
        assert(s.drop_last() =~= Seq::<char>::empty());
        assert(s.skip(1) =~= Seq::<char>::empty());
        assert(escaped(s) =~= escaped_char(s[0]) + escaped(s.skip(1)));
    } else {
        lemma_escaped_from_the_front(s.drop_last());
        assert(s.drop_last().skip(1) =~= s.skip(1).drop_last());
        assert(escaped(s) =~= escaped_char(s[0]) + escaped(s.skip(1)));
    }
}

/// The character with the code that four hexadecimal digits write.
pub open spec fn coded_char(s: Seq<char>) -> Option<char> {
    match (
        hexadecimal::hex_value(s[0]),
        hexadecimal::hex_value(s[1]),
        hexadecimal::hex_value(s[2]),
        hexadecimal::hex_value(s[3]),
    ) {
        (Some(a), Some(b), Some(c), Some(d)) => {
            let code = a * 0x1000 + b * 0x100 + c * 0x10 + d;
            if 0xd800 <= code < 0xe000 {
                None
            } else {
                Some(code as char)
            }
        },
        _ => None,
    }
}

/// The character that the front of a text between quotation marks writes, and the
/// length of what writes it. Codes that come in pairs are passed over: no character
/// is written that way.
pub open spec fn front_char(s: Seq<char>) -> Option<(char, int)> {
    if s.len() == 0 || s[0] == '"' || 32 > s[0] as int {
        None
    } else if s[0] != '\\' {
        Some((s[0], 1))
    } else if s.len() == 1 {
        None
    } else if s[1] == '"' || s[1] == '\\' || s[1] == '/' {
        Some((s[1], 2))
    } else if s[1] == 'n' {
        Some(('\n', 2))
    } else if s[1] == 'r' {
        Some(('\r', 2))
    } else if s[1] == 't' {
        Some(('\t', 2))
    } else if s[1] == 'b' {
        Some(('\u{8}', 2))
    } else if s[1] == 'f' {
        Some(('\u{c}', 2))
    } else if s[1] == 'u' && s.len() >= 6 {
        match coded_char(s.subrange(2, 6)) {
            Some(c) => Some((c, 6)),
            None => None,
        }
    } else {
        None
    }
}

/// The text that stands between quotation marks, read by the rules of JSON.
pub open spec fn unescaped(s: Seq<char>) -> Option<Seq<char>>
    decreases s.len(),
{
    if s.len() == 0 {
        Some(Seq::empty())
    } else {
        match front_char(s) {
            Some((c, n)) => match unescaped(s.skip(n)) {
                Some(rest) => Some(seq![c] + rest),
                None => None,
            },
            None => None,
        }
    }
}

/// The text that a quoted text writes, read by the rules of JSON.
pub open spec fn unquoted(s: Seq<char>) -> Option<Seq<char>> {
    if s.len() >= 2 && s[0] == '"' && s.last() == '"' {
        unescaped(s.subrange(1, s.len() - 1))
    } else {
        None
    }
}

proof fn lemma_front_read_back(c: char, rest: Seq<char>)
    ensures
        front_char(escaped_char(c) + rest) == Some((c, escaped_char(c).len() as int)),
{
    let e = escaped_char(c);
    let s = e + rest;
    assert(s[0] == e[0]);
    if e.len() > 2 {
        lemma_control_code(c);
        let n = c as nat;
        assert(e =~= seq!['\\', 'u', '0', '0', text::digit(n / 16), text::digit(n % 16)]);
        assert(s.subrange(2, 6) =~= seq!['0', '0', text::digit(n / 16), text::digit(n % 16)]);
        assert(s[1] == 'u');
        assert(hexadecimal::hex_value(text::digit(n / 16)) == Some((n / 16) as int));
        assert(hexadecimal::hex_value(text::digit(n % 16)) == Some((n % 16) as int));
    } else if e.len() == 2 {
        assert(s[1] == e[1]);
    } else {
        assert(e =~= seq![c]);
    }
}

proof fn lemma_escaped_read_back(s: Seq<char>)
    ensures
        unescaped(escaped(s)) == Some(s),
    decreases s.len(),
{
    if s.len() == 0 {
        assert(unescaped(escaped(s)).unwrap() =~= s);
    } else {
        let e = escaped_char(s[0]);
        let rest = escaped(s.skip(1));
        lemma_escaped_from_the_front(s);
        lemma_front_read_back(s[0], rest);
        lemma_escaped_read_back(s.skip(1));
        assert(e.len() > 0);
        assert((e + rest).skip(e.len() as int) =~= rest);
        assert(seq![s[0]] + s.skip(1) =~= s);
    }
}

/// A quoted text is read back as it was.
pub proof fn quoted_texts_read_back(s: Seq<char>)
    ensures
        unquoted(quoted(s)) == Some(s),
{
    assert(quoted(s).subrange(1, quoted(s).len() - 1) =~= escaped(s));
    lemma_escaped_read_back(s);
}

/// Different texts are quoted differently.
pub proof fn quoted_texts_are_told_apart(a: Seq<char>, b: Seq<char>)
    requires
        quoted(a) == quoted(b),
    ensures
        a == b,
{
    quoted_texts_read_back(a);
    quoted_texts_read_back(b);
}

/// No control character stands in a quoted text: it is a single line.
pub proof fn quoted_texts_hold_no_control_characters(s: Seq<char>)
    ensures
        forall|i: int| 0 <= i < quoted(s).len() ==> !text::is_control(#[trigger] quoted(s)[i]),
{
    lemma_escaped_holds_no_control_characters(s);
    assert forall|i: int| 0 <= i < quoted(s).len() implies !text::is_control(
        #[trigger] quoted(s)[i],
    ) by {
        if 1 <= i < quoted(s).len() - 1 {
            assert(quoted(s)[i] == escaped(s)[i - 1]);
        }
    }
}

proof fn lemma_escape_holds_no_control_characters(c: char)
    ensures
        forall|i: int|
            0 <= i < escaped_char(c).len() ==> !text::is_control(#[trigger] escaped_char(c)[i]),
{
    let e = escaped_char(c);
    if e.len() > 2 {
        lemma_control_code(c);
        let n = c as nat;
        assert(e =~= seq!['\\', 'u', '0', '0', text::digit(n / 16), text::digit(n % 16)]);
        assert(!text::is_control(text::digit(n / 16)));
        assert(!text::is_control(text::digit(n % 16)));
    } else if e.len() == 2 {
        assert(e[0] == '\\');
        assert(e[1] == '"' || e[1] == '\\' || e[1] == 'n' || e[1] == 'r' || e[1] == 't' || e[1]
            == 'b' || e[1] == 'f');
    }
}

proof fn lemma_escaped_holds_no_control_characters(s: Seq<char>)
    ensures
        forall|i: int| 0 <= i < escaped(s).len() ==> !text::is_control(#[trigger] escaped(s)[i]),
    decreases s.len(),
{
    if s.len() > 0 {
        let head = escaped(s.drop_last());
        let tail = escaped_char(s.last());
        lemma_escaped_holds_no_control_characters(s.drop_last());
        lemma_escape_holds_no_control_characters(s.last());
        assert forall|i: int| 0 <= i < escaped(s).len() implies !text::is_control(
            #[trigger] escaped(s)[i],
        ) by {
            if i < head.len() {
                assert(escaped(s)[i] == head[i]);
            } else {
                assert(escaped(s)[i] == tail[i - head.len()]);
            }
        }
    }
}

/// A number in decimal is read back as it was.
pub proof fn written_numbers_read_back(n: nat, max: int)
    requires
        n <= max,
    ensures
        text::parse_uint(text::dec(n), max) == Some(n as int),
{
    text::decimals_are_digits(n);
    text::decimals_read_back(n);
    assert(text::is_digit(text::dec(n)[0]));
}

proof fn lemma_join_from_the_front(parts: Seq<Seq<char>>, sep: Seq<char>)
    requires
        parts.len() >= 2,
    ensures
        text::join(parts, sep) == parts[0] + sep + text::join(parts.skip(1), sep),
    decreases parts.len(),
{
    if parts.len() == 2 {
        assert(parts.drop_last() =~= seq![parts[0]]);
        assert(parts.skip(1) =~= seq![parts[1]]);
        assert(text::join(seq![parts[0]], sep) == parts[0]);
        assert(text::join(parts.skip(1), sep) == parts[1]);
    } else {
        lemma_join_from_the_front(parts.drop_last(), sep);
        assert(parts.drop_last().skip(1) =~= parts.skip(1).drop_last());
        assert(text::join(parts, sep) =~= parts[0] + sep + text::join(parts.skip(1), sep));
    }
}

proof fn lemma_seek_stops(s: Seq<char>, c: char, i: int, e: int)
    requires
        0 <= i <= e <= s.len(),
        forall|k: int| i <= k < e ==> #[trigger] s[k] != c,
        e < s.len() ==> s[e] == c,
    ensures
        text::seek_class(s, Class::Only(c), i) == e,
    decreases e - i,
{
    if i < e {
        assert(s[i] != c);
        lemma_seek_stops(s, c, i + 1, e);
    }
}

/// What stands between the commas: each number, with a space before it unless it
/// is the first one.
spec fn pieces(ids: Seq<u32>, lead: Seq<char>) -> Seq<Seq<char>> {
    Seq::new(
        ids.len(),
        |k: int|
            (if k == 0 {
                lead
            } else {
                seq![' ']
            }) + text::dec(ids[k] as nat),
    )
}

proof fn lemma_no_comma_before(s: Seq<char>, i: int, lead: Seq<char>, n: nat, after: Seq<char>)
    requires
        0 <= i <= s.len(),
        lead == Seq::<char>::empty() || lead == seq![' '],
        s.skip(i) == lead + text::dec(n) + after,
        after.len() > 0 ==> after[0] == ',',
    ensures
        text::seek_class(s, Class::Only(','), i) == i + lead.len() + text::dec(n).len(),
        s.subrange(i, i + lead.len() + text::dec(n).len()) == lead + text::dec(n),
        i + lead.len() + text::dec(n).len() + after.len() == s.len(),
{
    let first = text::dec(n);
    let rest = s.skip(i);
    let e = i + lead.len() + first.len();
    text::decimals_are_digits(n);
    assert(rest.len() == s.len() - i);
    assert forall|k: int| i <= k < e implies #[trigger] s[k] != ',' by {
        assert(s[k] == rest[k - i]);
        if k - i >= lead.len() {
            assert(rest[k - i] == first[k - i - lead.len()]);
            assert(text::is_digit(first[k - i - lead.len()]));
        }
    }
    if e < s.len() {
        assert(s[e] == rest[e - i]);
        assert(rest[e - i] == after[0]);
    }
    lemma_seek_stops(s, ',', i, e);
    assert(s.subrange(i, e) =~= rest.take(e - i));
    assert(s.subrange(i, e) =~= lead + first);
}

proof fn lemma_split_of_ids(s: Seq<char>, i: int, ids: Seq<u32>, lead: Seq<char>)
    requires
        0 <= i <= s.len(),
        ids.len() > 0,
        lead == Seq::<char>::empty() || lead == seq![' '],
        s.skip(i) == lead + text::join(id_texts(ids), ", "@),
    ensures
        text::split_from(s, Class::Only(','), i) == pieces(ids, lead),
    decreases ids.len(),
{
    reveal_strlit(", ");
    let parts = id_texts(ids);
    let n = ids[0] as nat;
    let first = text::dec(n);
    let e = i + lead.len() + first.len();
    assert(parts[0] == first);
    if ids.len() == 1 {
        assert(text::join(parts, ", "@) == first);
        assert(s.skip(i) =~= lead + first + Seq::<char>::empty());
        lemma_no_comma_before(s, i, lead, n, Seq::empty());
        assert(text::split_from(s, Class::Only(','), i) == seq![s.skip(i)]);
        assert(s.skip(i) =~= lead + first);
        assert(pieces(ids, lead) =~= seq![lead + first]);
    } else {
        lemma_join_from_the_front(parts, ", "@);
        let tail = text::join(parts.skip(1), ", "@);
        assert(s.skip(i) =~= lead + first + (", "@ + tail));
        lemma_no_comma_before(s, i, lead, n, ", "@ + tail);
        let ids1 = ids.skip(1);
        assert(id_texts(ids1) =~= parts.skip(1));
        assert(s.skip(e + 1) =~= s.skip(i).skip(e + 1 - i));
        assert(s.skip(e + 1) =~= seq![' '] + tail);
        lemma_split_of_ids(s, e + 1, ids1, seq![' ']);
        lemma_pieces_from_the_front(ids, lead);
    }
}

proof fn lemma_pieces_from_the_front(ids: Seq<u32>, lead: Seq<char>)
    requires
        ids.len() > 0,
    ensures
        pieces(ids, lead) == seq![lead + text::dec(ids[0] as nat)] + pieces(ids.skip(1), seq![' ']),
{
    let all = pieces(ids, lead);
    let made = seq![lead + text::dec(ids[0] as nat)] + pieces(ids.skip(1), seq![' ']);
    assert forall|k: int| 0 <= k < all.len() implies made[k] == #[trigger] all[k] by {
        if k > 0 {
            assert(ids.skip(1)[k - 1] == ids[k]);
        }
    }
    assert(all =~= made);
}

proof fn lemma_trimmed_piece(lead: Seq<char>, n: nat)
    requires
        lead == Seq::<char>::empty() || lead == seq![' '],
    ensures
        text::trim(lead + text::dec(n), Class::Space) == text::dec(n),
{
    let d = text::dec(n);
    let s = lead + d;
    text::decimals_are_digits(n);
    assert(text::is_digit(d[0]));
    assert(text::is_digit(d[d.len() - 1]));
    if lead.len() == 0 {
        assert(s =~= d);
        assert(text::skip_class(s, Class::Space, 0) == 0);
    } else {
        assert(s[0] == ' ');
        assert(s[1] == d[0]);
        assert(text::skip_class(s, Class::Space, 1) == 1);
        assert(text::skip_class(s, Class::Space, 0) == 1);
    }
    assert(text::trim_start(s, Class::Space) =~= d);
    assert(text::back_class(d, Class::Space, d.len() as int) == d.len());
    assert(d.take(d.len() as int) =~= d);
}

proof fn lemma_pieces_read_back(ids: Seq<u32>, n: int)
    requires
        0 <= n <= ids.len(),
    ensures
        crate::import::written_ids(pieces(ids, Seq::empty()), n) == ids.take(n),
    decreases n,
{
    if n > 0 {
        lemma_pieces_read_back(ids, n - 1);
        let lead = if n == 1 {
            Seq::<char>::empty()
        } else {
            seq![' ']
        };
        let id = ids[n - 1];
        assert(pieces(ids, Seq::empty())[n - 1] == lead + text::dec(id as nat));
        lemma_trimmed_piece(lead, id as nat);
        written_numbers_read_back(id as nat, u32::MAX as int);
        assert(ids.take(n) =~= ids.take(n - 1).push(id));
    } else {
        assert(ids.take(0) =~= Seq::<u32>::empty());
    }
}

proof fn lemma_brackets_come_off(inner: Seq<char>)
    requires
        forall|k: int| 0 <= k < inner.len() ==> !Class::Bracket.holds(#[trigger] inner[k]),
    ensures
        text::trim("["@ + inner + "]"@, Class::Bracket) == inner,
{
    reveal_strlit("[");
    reveal_strlit("]");
    let s = "["@ + inner + "]"@;
    let n = inner.len() as int;
    assert(s[0] == '[');
    assert(s[n + 1] == ']');
    if n == 0 {
        assert(text::skip_class(s, Class::Bracket, 2) == 2);
        assert(text::skip_class(s, Class::Bracket, 1) == 2);
        assert(text::skip_class(s, Class::Bracket, 0) == 2);
        let t = text::trim_start(s, Class::Bracket);
        assert(t =~= Seq::<char>::empty());
        assert(text::trim(s, Class::Bracket) =~= inner);
    } else {
        assert(s[1] == inner[0]);
        assert(text::skip_class(s, Class::Bracket, 1) == 1);
        assert(text::skip_class(s, Class::Bracket, 0) == 1);
        let t = text::trim_start(s, Class::Bracket);
        assert(t =~= inner + "]"@);
        assert(t[n] == ']');
        assert(t[n - 1] == inner[n - 1]);
        assert(text::back_class(t, Class::Bracket, n) == n);
        assert(text::back_class(t, Class::Bracket, n + 1) == n);
        assert(t.take(n) =~= inner);
    }
}

proof fn lemma_joined_ids_have_no_brackets(ids: Seq<u32>)
    ensures
        forall|k: int|
            0 <= k < text::join(id_texts(ids), ", "@).len() ==> !Class::Bracket.holds(
                #[trigger] text::join(id_texts(ids), ", "@)[k],
            ),
    decreases ids.len(),
{
    reveal_strlit(", ");
    let parts = id_texts(ids);
    let all = text::join(parts, ", "@);
    if ids.len() > 0 {
        let last = text::dec(ids.last() as nat);
        text::decimals_are_digits(ids.last() as nat);
        assert(parts.last() == last);
        if ids.len() == 1 {
            assert(all == parts[0]);
            assert forall|k: int| 0 <= k < all.len() implies !Class::Bracket.holds(
                #[trigger] all[k],
            ) by {
                assert(text::is_digit(last[k]));
            }
        } else {
            let head = text::join(parts.drop_last(), ", "@);
            assert(parts.drop_last() =~= id_texts(ids.drop_last()));
            lemma_joined_ids_have_no_brackets(ids.drop_last());
            assert(all == head + ", "@ + last);
            assert forall|k: int| 0 <= k < all.len() implies !Class::Bracket.holds(
                #[trigger] all[k],
            ) by {
                if k < head.len() {
                    assert(all[k] == head[k]);
                } else if k < head.len() + 2 {
                    assert(all[k] == ", "@[k - head.len()]);
                } else {
                    assert(all[k] == last[k - head.len() - 2]);
                    assert(text::is_digit(last[k - head.len() - 2]));
                }
            }
        }
    }
}

/// The characters that a packet declares are read back from a document as they
/// were written.
pub proof fn declared_characters_read_back(ids: Seq<u32>)
    ensures
        crate::import::export_ids(crate::json::JsonView::Text(id_list(ids))) == ids,
{
    let inner = text::join(id_texts(ids), ", "@);
    lemma_joined_ids_have_no_brackets(ids);
    lemma_brackets_come_off(inner);
    if ids.len() == 0 {
        assert(inner =~= Seq::<char>::empty());
        let parts = text::split(inner, Class::Only(','));
        assert(parts =~= seq![inner.skip(0)]);
        assert(text::trim(parts[0], Class::Space) =~= Seq::<char>::empty());
        assert(text::parse_uint(Seq::<char>::empty(), u32::MAX as int) is None);
        assert(crate::import::written_ids(parts, 0) =~= ids);
        assert(crate::import::written_ids(parts, 1) =~= ids);
    } else {
        assert(inner.skip(0) =~= Seq::<char>::empty() + inner);
        lemma_split_of_ids(inner, 0, ids, Seq::empty());
        lemma_pieces_read_back(ids, ids.len() as int);
        assert(ids.take(ids.len() as int) =~= ids);
    }
}

proof fn lemma_leading_digits(digits: Seq<char>, n: int)
    requires
        0 <= n <= digits.len(),
    ensures
        crate::decimal::leading(digits, n) == text::digits_value(digits.take(n)),
    decreases n,
{
    if n > 0 {
        lemma_leading_digits(digits, n - 1);
        assert(digits.take(n).drop_last() =~= digits.take(n - 1));
    } else {
        assert(digits.take(0) =~= Seq::<char>::empty());
    }
}

proof fn lemma_three_decimals(f: nat)
    requires
        f < 1_000,
    ensures
        text::zero_pad(text::dec(f), 3) == seq![
            text::digit(f / 100),
            text::digit(f / 10 % 10),
            text::digit(f % 10),
        ],
{
    reveal_with_fuel(text::dec, 4);
    if f < 10 {
        assert(text::dec(f) =~= seq![text::digit(f)]);
    } else if f < 100 {
        assert(text::dec(f) =~= seq![text::digit(f / 10), text::digit(f % 10)]);
    } else {
        assert(text::dec(f) =~= seq![text::digit(f / 100), text::digit(f / 10 % 10), text::digit(f % 10)]);
    }
    assert(text::zero_pad(text::dec(f), 3) =~= seq![
        text::digit(f / 100),
        text::digit(f / 10 % 10),
        text::digit(f % 10),
    ]);
}

/// A moment is read back from a document to the nearest millisecond.
pub proof fn written_moments_read_back(v: int)
    requires
        -(i64::MAX - 500) <= v <= i64::MAX - 500,
    ensures
        crate::decimal::seconds(moment(v)) == Some(
            if v < 0 {
                -(figures::parts(-v, 1_000_000, 1_000) * 1_000)
            } else {
                figures::parts(v, 1_000_000, 1_000) * 1_000
            },
        ),
        -500 <= figures::parts(figures::magnitude(v), 1_000_000, 1_000) * 1_000
            - figures::magnitude(v) <= 500,
{
    reveal_strlit("-");
    reveal_strlit(".");
    reveal_strlit("");
    let size = figures::magnitude(v);
    let m = figures::parts(size, 1_000_000, 1_000);
    let w = (m / 1_000) as nat;
    let f = (m % 1_000) as nat;
    let whole = text::dec(w);
    let frac = text::zero_pad(text::dec(f), 3);
    lemma_three_decimals(f);
    text::decimals_are_digits(w);
    let s = whole + "."@ + frac;
    let written = moment(v);
    assert(whole[0] != '-' && whole[0] != '+') by {
        assert(text::is_digit(whole[0]));
    }
    assert(!crate::decimal::endless(s) && !crate::decimal::numberless(s)) by {
        reveal_strlit("inf");
        reveal_strlit("infinity");
        reveal_strlit("nan");
        assert(text::is_digit(whole[0]));
        assert(text::lower(s)[0] == whole[0]);
    }
    if v < 0 {
        assert(written =~= "-"@ + s);
        assert(written[0] == '-');
        assert(written.skip(1) =~= s);
    } else {
        assert(written =~= s);
        assert(written[0] == whole[0]);
    }
    let a = whole.len() as int;
    lemma_skip_run(s, 0, a);
    assert(s[a] == '.');
    assert(s.len() == a + 4);
    assert forall|k: int| a + 1 <= k < a + 4 implies text::is_digit(#[trigger] s[k]) by {
        assert(s[k] == frac[k - a - 1]);
    }
    lemma_skip_run(s, a + 1, a + 4);
    let digits = s.take(a) + s.subrange(a + 1, a + 4);
    assert(digits =~= whole + frac);
    let d = crate::decimal::DecimalView { negative: v < 0, digits, point: a };
    assert(crate::decimal::unsigned_decimal(s, v < 0) == Some(d));
    assert(crate::decimal::decimal(written) == Some(d));
    lemma_moment_value(w, f);
    assert(crate::decimal::leading(digits, a + 6) == m * 1_000);
}

proof fn lemma_moment_value(w: nat, f: nat)
    requires
        f < 1_000,
    ensures
        crate::decimal::leading(
            text::dec(w) + text::zero_pad(text::dec(f), 3),
            text::dec(w).len() + 6int,
        ) == (w * 1_000 + f) * 1_000,
{
    let whole = text::dec(w);
    let digits = whole + text::zero_pad(text::dec(f), 3);
    let a = whole.len() as int;
    lemma_three_decimals(f);
    lemma_leading_digits(digits, a);
    assert(digits.take(a) =~= whole);
    text::decimals_read_back(w);
    assert(digits[a] == text::digit(f / 100));
    assert(digits[a + 1] == text::digit(f / 10 % 10));
    assert(digits[a + 2] == text::digit(f % 10));
    assert(crate::decimal::leading(digits, a) == w);
    assert(crate::decimal::leading(digits, a + 1) == w * 10 + f / 100);
    assert(crate::decimal::leading(digits, a + 2) == (w * 10 + f / 100) * 10 + f / 10 % 10);
    assert(crate::decimal::leading(digits, a + 3) == w * 1_000 + f);
    assert(crate::decimal::leading(digits, a + 4) == (w * 1_000 + f) * 10);
    assert(crate::decimal::leading(digits, a + 5) == (w * 1_000 + f) * 100);
    assert(crate::decimal::leading(digits, a + 6) == (w * 1_000 + f) * 1_000);
}

proof fn lemma_skip_run(s: Seq<char>, i: int, e: int)
    requires
        0 <= i <= e <= s.len(),
        forall|k: int| i <= k < e ==> text::is_digit(#[trigger] s[k]),
        e < s.len() ==> !text::is_digit(s[e]),
    ensures
        text::skip_class(s, Class::Digit, i) == e,
    decreases e - i,
{
    if i < e {
        assert(text::is_digit(s[i]));
        lemma_skip_run(s, i + 1, e);
    }
}

/// A packet whose entry stands in a document is listed again as it was: with the
/// characters it declared, and with the text of its payload.
pub proof fn exported_packets_read_back(
    packet: crate::import::ExportPacket,
    payload: Seq<u8>,
    ids: Seq<u32>,
)
    requires
        payload.len() > 0,
        packet.payload_hex@ == hexadecimal::hex_text(payload),
        packet.declared_ids@ == crate::json::JsonView::Text(id_list(ids)),
    ensures
        crate::import::export_payload(packet) == payload,
        crate::import::export_packet_view(packet).declared_ids == ids,
        crate::import::export_packet_view(packet).decoded_text == crate::capture::payload_text(
            payload,
        ),
        crate::import::export_kept(packet) == crate::capture::worth_listing(
            payload,
            ids,
            packet.parsed_hits as int,
            crate::capture::payload_text(payload),
        ),
{
    hexadecimal::decode_undoes_encode(payload);
    declared_characters_read_back(ids);
}

/// The text holds an entry with the name and the value.
pub open spec fn says(record: Seq<char>, name: Seq<char>, value: Seq<char>) -> bool {
    text::contains(record, "\""@ + name + "\": "@ + value)
}

proof fn lemma_holds_part(a: Seq<char>, m: Seq<char>, b: Seq<char>)
    ensures
        text::contains(a + m + b, m),
{
    assert((a + m + b).subrange(a.len() as int, (a.len() + m.len()) as int) =~= m);
    assert(text::occurs_at(a + m + b, m, a.len() as int));
}

proof fn lemma_holds_still(a: Seq<char>, b: Seq<char>, x: Seq<char>)
    requires
        text::contains(a, x),
    ensures
        text::contains(a + b, x),
{
    let p = choose|p: int| text::occurs_at(a, x, p);
    assert((a + b).subrange(p, p + x.len()) =~= a.subrange(p, p + x.len()));
    assert(text::occurs_at(a + b, x, p));
}

proof fn lemma_says_still(a: Seq<char>, b: Seq<char>)
    ensures
        forall|name: Seq<char>, value: Seq<char>|
            says(a, name, value) ==> #[trigger] says(a + b, name, value),
{
    assert forall|name: Seq<char>, value: Seq<char>| says(a, name, value) implies #[trigger] says(
        a + b,
        name,
        value,
    ) by {
        lemma_holds_still(a, b, "\""@ + name + "\": "@ + value);
    }
}

proof fn lemma_says_last(
    a: Seq<char>,
    indent: Seq<char>,
    name: Seq<char>,
    value: Seq<char>,
    last: bool,
)
    ensures
        says(a + field(indent, name, value, last), name, value),
{
    let m = "\""@ + name + "\": "@ + value;
    lemma_holds_part(a + indent, m, line_end(last));
    assert(a + field(indent, name, value, last) =~= a + indent + m + line_end(last));
}

/// The record of a hit has each of its values under its name.
pub proof fn hits_are_written_with_all_they_say(hit: model::HitView, time: Seq<char>)
    ensures
        says(hit_record(hit, time), "timestamp_unix"@, moment(hit.timestamp as int)),
        says(hit_record(hit, time), "time_local"@, quoted(time)),
        says(hit_record(hit, time), "char_id"@, text::dec(hit.char_id as nat)),
        says(hit_record(hit, time), "char_name"@, quoted(hit.char_name)),
        says(hit_record(hit, time), "damage"@, amount(hit.damage as int)),
        says(hit_record(hit, time), "target_hp_before"@, amount(hit.target_hp_before as int)),
        says(hit_record(hit, time), "target_hp_after"@, amount(hit.target_hp_after as int)),
        says(hit_record(hit, time), "target_max_hp"@, amount(hit.target_max_hp as int)),
        says(hit_record(hit, time), "target_hp_percent"@, amount(hit.target_hp_percent as int)),
        says(hit_record(hit, time), "target_id"@, quoted_or_null(hit.target_id)),
        says(hit_record(hit, time), "target_name"@, quoted_or_null(hit.target_name)),
{
    reveal(hit_record);
    let r0 = "    {\n"@;
    lemma_says_last(r0, "      "@, "timestamp_unix"@, moment(hit.timestamp as int), false);
    let r1 = r0 + field("      "@, "timestamp_unix"@, moment(hit.timestamp as int), false);
    lemma_says_last(r1, "      "@, "time_local"@, quoted(time), false);
    let r2 = r1 + field("      "@, "time_local"@, quoted(time), false);
    lemma_says_still(r1, field("      "@, "time_local"@, quoted(time), false));
    lemma_says_last(r2, "      "@, "char_id"@, text::dec(hit.char_id as nat), false);
    let r3 = r2 + field("      "@, "char_id"@, text::dec(hit.char_id as nat), false);
    lemma_says_still(r2, field("      "@, "char_id"@, text::dec(hit.char_id as nat), false));
    lemma_says_last(r3, "      "@, "char_name"@, quoted(hit.char_name), false);
    let r4 = r3 + field("      "@, "char_name"@, quoted(hit.char_name), false);
    lemma_says_still(r3, field("      "@, "char_name"@, quoted(hit.char_name), false));
    lemma_says_last(r4, "      "@, "damage"@, amount(hit.damage as int), false);
    let r5 = r4 + field("      "@, "damage"@, amount(hit.damage as int), false);
    lemma_says_still(r4, field("      "@, "damage"@, amount(hit.damage as int), false));
    lemma_says_last(r5, "      "@, "target_hp_before"@, amount(hit.target_hp_before as int), false);
    let r6 = r5 + field("      "@, "target_hp_before"@, amount(hit.target_hp_before as int), false);
    lemma_says_still(r5, field("      "@, "target_hp_before"@, amount(hit.target_hp_before as int), false));
    lemma_says_last(r6, "      "@, "target_hp_after"@, amount(hit.target_hp_after as int), false);
    let r7 = r6 + field("      "@, "target_hp_after"@, amount(hit.target_hp_after as int), false);
    lemma_says_still(r6, field("      "@, "target_hp_after"@, amount(hit.target_hp_after as int), false));
    lemma_says_last(r7, "      "@, "target_max_hp"@, amount(hit.target_max_hp as int), false);
    let r8 = r7 + field("      "@, "target_max_hp"@, amount(hit.target_max_hp as int), false);
    lemma_says_still(r7, field("      "@, "target_max_hp"@, amount(hit.target_max_hp as int), false));
    lemma_says_last(r8, "      "@, "target_hp_percent"@, amount(hit.target_hp_percent as int), false);
    let r9 = r8 + field("      "@, "target_hp_percent"@, amount(hit.target_hp_percent as int), false);
    lemma_says_still(r8, field("      "@, "target_hp_percent"@, amount(hit.target_hp_percent as int), false));
    lemma_says_last(r9, "      "@, "target_id"@, quoted_or_null(hit.target_id), false);
    let r10 = r9 + field("      "@, "target_id"@, quoted_or_null(hit.target_id), false);
    lemma_says_still(r9, field("      "@, "target_id"@, quoted_or_null(hit.target_id), false));
    lemma_says_last(r10, "      "@, "target_name"@, quoted_or_null(hit.target_name), false);
    let r11 = r10 + field("      "@, "target_name"@, quoted_or_null(hit.target_name), false);
    lemma_says_still(r10, field("      "@, "target_name"@, quoted_or_null(hit.target_name), false));
    lemma_says_still(r11, "      \"target_context\": [\n"@);
    let tr11 = r11 + "      \"target_context\": [\n"@;
    lemma_says_still(tr11, listed_texts(hit.target_context, hit.target_context.len() as int));
    let ttr11 = tr11 + listed_texts(hit.target_context, hit.target_context.len() as int);
    lemma_says_still(ttr11, "      ]\n"@);
    let tttr11 = ttr11 + "      ]\n"@;
    assert(tttr11 == hit_record(hit, time));
}

/// The record of a packet has each of its values under its name.
pub proof fn packets_are_written_with_all_they_say(packet: model::PacketView, time: Seq<char>)
    ensures
        says(packet_record(packet, time), "timestamp_unix"@, moment(packet.timestamp as int)),
        says(packet_record(packet, time), "time_local"@, quoted(time)),
        says(packet_record(packet, time), "source"@, quoted(packet.source)),
        says(packet_record(packet, time), "destination"@, quoted(packet.destination)),
        says(packet_record(packet, time), "direction"@, quoted(packet.direction)),
        says(packet_record(packet, time), "payload_len"@, text::dec(packet.payload_len as nat)),
        says(packet_record(packet, time), "declared_ids"@, quoted(id_list(packet.declared_ids))),
        says(packet_record(packet, time), "parsed_hits"@, text::dec(packet.parsed_hits as nat)),
        says(packet_record(packet, time), "note"@, quoted(packet.note)),
        says(packet_record(packet, time), "payload_preview"@, quoted(packet.payload_preview)),
        says(packet_record(packet, time), "payload_hex"@, quoted(packet.payload_hex)),
        says(packet_record(packet, time), "decoded_text"@, quoted(packet.decoded_text)),
{
    reveal(packet_record);
    let r0 = "    {\n"@;
    lemma_says_last(r0, "      "@, "timestamp_unix"@, moment(packet.timestamp as int), false);
    let r1 = r0 + field("      "@, "timestamp_unix"@, moment(packet.timestamp as int), false);
    lemma_says_last(r1, "      "@, "time_local"@, quoted(time), false);
    let r2 = r1 + field("      "@, "time_local"@, quoted(time), false);
    lemma_says_still(r1, field("      "@, "time_local"@, quoted(time), false));
    lemma_says_last(r2, "      "@, "source"@, quoted(packet.source), false);
    let r3 = r2 + field("      "@, "source"@, quoted(packet.source), false);
    lemma_says_still(r2, field("      "@, "source"@, quoted(packet.source), false));
    lemma_says_last(r3, "      "@, "destination"@, quoted(packet.destination), false);
    let r4 = r3 + field("      "@, "destination"@, quoted(packet.destination), false);
    lemma_says_still(r3, field("      "@, "destination"@, quoted(packet.destination), false));
    lemma_says_last(r4, "      "@, "direction"@, quoted(packet.direction), false);
    let r5 = r4 + field("      "@, "direction"@, quoted(packet.direction), false);
    lemma_says_still(r4, field("      "@, "direction"@, quoted(packet.direction), false));
    lemma_says_last(r5, "      "@, "payload_len"@, text::dec(packet.payload_len as nat), false);
    let r6 = r5 + field("      "@, "payload_len"@, text::dec(packet.payload_len as nat), false);
    lemma_says_still(r5, field("      "@, "payload_len"@, text::dec(packet.payload_len as nat), false));
    lemma_says_last(r6, "      "@, "declared_ids"@, quoted(id_list(packet.declared_ids)), false);
    let r7 = r6 + field("      "@, "declared_ids"@, quoted(id_list(packet.declared_ids)), false);
    lemma_says_still(r6, field("      "@, "declared_ids"@, quoted(id_list(packet.declared_ids)), false));
    lemma_says_last(r7, "      "@, "parsed_hits"@, text::dec(packet.parsed_hits as nat), false);
    let r8 = r7 + field("      "@, "parsed_hits"@, text::dec(packet.parsed_hits as nat), false);
    lemma_says_still(r7, field("      "@, "parsed_hits"@, text::dec(packet.parsed_hits as nat), false));
    lemma_says_last(r8, "      "@, "note"@, quoted(packet.note), false);
    let r9 = r8 + field("      "@, "note"@, quoted(packet.note), false);
    lemma_says_still(r8, field("      "@, "note"@, quoted(packet.note), false));
    lemma_says_last(r9, "      "@, "payload_preview"@, quoted(packet.payload_preview), false);
    let r10 = r9 + field("      "@, "payload_preview"@, quoted(packet.payload_preview), false);
    lemma_says_still(r9, field("      "@, "payload_preview"@, quoted(packet.payload_preview), false));
    lemma_says_last(r10, "      "@, "payload_hex"@, quoted(packet.payload_hex), false);
    let r11 = r10 + field("      "@, "payload_hex"@, quoted(packet.payload_hex), false);
    lemma_says_still(r10, field("      "@, "payload_hex"@, quoted(packet.payload_hex), false));
    lemma_says_last(r11, "      "@, "decoded_text"@, quoted(packet.decoded_text), true);
    let r12 = r11 + field("      "@, "decoded_text"@, quoted(packet.decoded_text), true);
    lemma_says_still(r11, field("      "@, "decoded_text"@, quoted(packet.decoded_text), true));
    assert(r12 == packet_record(packet, time));
}

/// The record of a character has each of its figures under its name.
pub proof fn rows_are_written_with_all_they_say(row: CharacterStats, total: i64)
    ensures
        says(row_record(row, total), "char_id"@, text::dec(row.char_id as nat)),
        says(row_record(row, total), "name"@, quoted(row.name@)),
        says(row_record(row, total), "hits"@, text::dec(row.hits as nat)),
        says(row_record(row, total), "damage"@, amount(row.damage as int)),
        says(row_record(row, total), "dps"@, amount(row.spec_dps())),
        says(row_record(row, total), "duration_seconds"@, moment(row.spec_duration())),
        says(row_record(row, total), "share_percent"@, share(row.damage as int, total as int, 1_000, 3)),
{
    reveal(row_record);
    let r0 = "    {\n"@;
    lemma_says_last(r0, "      "@, "char_id"@, text::dec(row.char_id as nat), false);
    let r1 = r0 + field("      "@, "char_id"@, text::dec(row.char_id as nat), false);
    lemma_says_last(r1, "      "@, "name"@, quoted(row.name@), false);
    let r2 = r1 + field("      "@, "name"@, quoted(row.name@), false);
    lemma_says_still(r1, field("      "@, "name"@, quoted(row.name@), false));
    lemma_says_last(r2, "      "@, "hits"@, text::dec(row.hits as nat), false);
    let r3 = r2 + field("      "@, "hits"@, text::dec(row.hits as nat), false);
    lemma_says_still(r2, field("      "@, "hits"@, text::dec(row.hits as nat), false));
    lemma_says_last(r3, "      "@, "damage"@, amount(row.damage as int), false);
    let r4 = r3 + field("      "@, "damage"@, amount(row.damage as int), false);
    lemma_says_still(r3, field("      "@, "damage"@, amount(row.damage as int), false));
    lemma_says_last(r4, "      "@, "dps"@, amount(row.spec_dps()), false);
    let r5 = r4 + field("      "@, "dps"@, amount(row.spec_dps()), false);
    lemma_says_still(r4, field("      "@, "dps"@, amount(row.spec_dps()), false));
    lemma_says_last(r5, "      "@, "duration_seconds"@, moment(row.spec_duration()), false);
    let r6 = r5 + field("      "@, "duration_seconds"@, moment(row.spec_duration()), false);
    lemma_says_still(r5, field("      "@, "duration_seconds"@, moment(row.spec_duration()), false));
    lemma_says_last(r6, "      "@, "share_percent"@, share(row.damage as int, total as int, 1_000, 3), true);
    let r7 = r6 + field("      "@, "share_percent"@, share(row.damage as int, total as int, 1_000, 3), true);
    lemma_says_still(r6, field("      "@, "share_percent"@, share(row.damage as int, total as int, 1_000, 3), true));
    assert(r7 == row_record(row, total));
}

/// The summary has each figure of the fight under its name.
pub proof fn the_summary_says_all_of_the_fight(state: &CombatState, times: &LocalTimes)
    ensures
        says(summary_entry(state, times), "hits"@, text::dec(state.hits@.len())),
        says(summary_entry(state, times), "packets"@, text::dec(state.packets@.len())),
        says(summary_entry(state, times), "total_damage"@, amount(state.total_damage as int)),
        says(summary_entry(state, times), "dps"@, amount(state.spec_dps())),
        says(summary_entry(state, times), "duration_seconds"@, moment(shown_duration(*state))),
        says(summary_entry(state, times), "started_at_unix"@, moment_or_null(state.started_at)),
        says(summary_entry(state, times), "started_at_local"@, quoted_or_null(text::opt_text(times.started_at))),
        says(summary_entry(state, times), "ended_at_unix"@, moment_or_null(latest(moments(*state)))),
        says(summary_entry(state, times), "ended_at_local"@, quoted_or_null(text::opt_text(times.ended_at))),
{
    let r0 = "  \"summary\": {\n"@;
    lemma_says_last(r0, "    "@, "hits"@, text::dec(state.hits@.len()), false);
    let r1 = r0 + field("    "@, "hits"@, text::dec(state.hits@.len()), false);
    lemma_says_last(r1, "    "@, "packets"@, text::dec(state.packets@.len()), false);
    let r2 = r1 + field("    "@, "packets"@, text::dec(state.packets@.len()), false);
    lemma_says_still(r1, field("    "@, "packets"@, text::dec(state.packets@.len()), false));
    lemma_says_last(r2, "    "@, "total_damage"@, amount(state.total_damage as int), false);
    let r3 = r2 + field("    "@, "total_damage"@, amount(state.total_damage as int), false);
    lemma_says_still(r2, field("    "@, "total_damage"@, amount(state.total_damage as int), false));
    lemma_says_last(r3, "    "@, "dps"@, amount(state.spec_dps()), false);
    let r4 = r3 + field("    "@, "dps"@, amount(state.spec_dps()), false);
    lemma_says_still(r3, field("    "@, "dps"@, amount(state.spec_dps()), false));
    lemma_says_last(r4, "    "@, "duration_seconds"@, moment(shown_duration(*state)), false);
    let r5 = r4 + field("    "@, "duration_seconds"@, moment(shown_duration(*state)), false);
    lemma_says_still(r4, field("    "@, "duration_seconds"@, moment(shown_duration(*state)), false));
    lemma_says_last(r5, "    "@, "started_at_unix"@, moment_or_null(state.started_at), false);
    let r6 = r5 + field("    "@, "started_at_unix"@, moment_or_null(state.started_at), false);
    lemma_says_still(r5, field("    "@, "started_at_unix"@, moment_or_null(state.started_at), false));
    lemma_says_last(r6, "    "@, "started_at_local"@, quoted_or_null(text::opt_text(times.started_at)), false);
    let r7 = r6 + field("    "@, "started_at_local"@, quoted_or_null(text::opt_text(times.started_at)), false);
    lemma_says_still(r6, field("    "@, "started_at_local"@, quoted_or_null(text::opt_text(times.started_at)), false));
    lemma_says_last(r7, "    "@, "ended_at_unix"@, moment_or_null(latest(moments(*state))), false);
    let r8 = r7 + field("    "@, "ended_at_unix"@, moment_or_null(latest(moments(*state))), false);
    lemma_says_still(r7, field("    "@, "ended_at_unix"@, moment_or_null(latest(moments(*state))), false));
    lemma_says_last(r8, "    "@, "ended_at_local"@, quoted_or_null(text::opt_text(times.ended_at)), true);
    let r9 = r8 + field("    "@, "ended_at_local"@, quoted_or_null(text::opt_text(times.ended_at)), true);
    lemma_says_still(r8, field("    "@, "ended_at_local"@, quoted_or_null(text::opt_text(times.ended_at)), true));
    lemma_says_still(r9, "  },\n"@);
    let tr9 = r9 + "  },\n"@;
    assert(tr9 == summary_entry(state, times));
}

proof fn lemma_hit_is_written(hits: Seq<Hit>, times: Seq<String>, i: int, n: int)
    requires
        0 <= i < n,
    ensures
        text::contains(hit_records(hits, times, n), hit_record(hits[i]@, times[i]@)),
    decreases n,
{
    let before = hit_records(hits, times, n - 1);
    let r = hit_record(hits[n - 1]@, times[n - 1]@);
    if i == n - 1 {
        lemma_holds_part(before, r, closing(n == hits.len()));
    } else {
        lemma_hit_is_written(hits, times, i, n - 1);
        let x = hit_record(hits[i]@, times[i]@);
        lemma_holds_still(before, r, x);
        lemma_holds_still(before + r, closing(n == hits.len()), x);
    }
}

proof fn lemma_packet_is_written(packets: Seq<PacketDebug>, times: Seq<String>, i: int, n: int)
    requires
        0 <= i < n,
    ensures
        text::contains(packet_records(packets, times, n), packet_record(packets[i]@, times[i]@)),
    decreases n,
{
    let before = packet_records(packets, times, n - 1);
    let r = packet_record(packets[n - 1]@, times[n - 1]@);
    if i == n - 1 {
        lemma_holds_part(before, r, closing(n == packets.len()));
    } else {
        lemma_packet_is_written(packets, times, i, n - 1);
        let x = packet_record(packets[i]@, times[i]@);
        lemma_holds_still(before, r, x);
        lemma_holds_still(before + r, closing(n == packets.len()), x);
    }
}

proof fn lemma_row_is_written(
    stats: Map<u32, CharacterStats>,
    ids: Seq<u32>,
    total: i64,
    i: int,
    n: int,
)
    requires
        0 <= i < n,
    ensures
        text::contains(row_records(stats, ids, total, n), row_record(stats[ids[i]], total)),
    decreases n,
{
    let before = row_records(stats, ids, total, n - 1);
    let r = row_record(stats[ids[n - 1]], total);
    if i == n - 1 {
        lemma_holds_part(before, r, closing(n == ids.len()));
    } else {
        lemma_row_is_written(stats, ids, total, i, n - 1);
        let x = row_record(stats[ids[i]], total);
        lemma_holds_still(before, r, x);
        lemma_holds_still(before + r, closing(n == ids.len()), x);
    }
}

proof fn lemma_part_of_a_part(a: Seq<char>, m: Seq<char>, b: Seq<char>, x: Seq<char>)
    requires
        text::contains(m, x),
    ensures
        text::contains(a + m + b, x),
{
    let p = choose|p: int| text::occurs_at(m, x, p);
    assert((a + m + b).subrange(a.len() + p, a.len() + p + x.len()) =~= m.subrange(
        p,
        p + x.len(),
    ));
    assert(text::occurs_at(a + m + b, x, a.len() + p));
}

proof fn lemma_layout(
    head: Seq<char>,
    rows: Seq<char>,
    a: Seq<char>,
    b: Seq<char>,
    hits: Seq<char>,
    c: Seq<char>,
    d: Seq<char>,
    packets: Seq<char>,
    e: Seq<char>,
    f: Seq<char>,
)
    ensures
        head + rows + a + b + hits + c + d + packets + e + f == head + rows + (a + b + hits + c + d
            + packets + e + f),
        head + rows + a + b + hits + c + d + packets + e + f == (head + rows + a + b) + hits + (c
            + d + packets + e + f),
        head + rows + a + b + hits + c + d + packets + e + f == (head + rows + a + b + hits + c
            + d) + packets + (e + f),
{
    let whole = head + rows + a + b + hits + c + d + packets + e + f;
    assert(whole =~= head + rows + (a + b + hits + c + d + packets + e + f));
    assert(whole =~= (head + rows + a + b) + hits + (c + d + packets + e + f));
    assert(whole =~= (head + rows + a + b + hits + c + d) + packets + (e + f));
}

/// A document has the record of every character, of every hit and of every packet.
#[verifier::spinoff_prover]
#[verifier::rlimit(60)]
pub proof fn documents_hold_every_record(
    state: &CombatState,
    ids: Seq<u32>,
    settings: &ExportSettings,
    times: &LocalTimes,
    i: int,
)
    ensures
        0 <= i < ids.len() ==> text::contains(
            document(state, ids, settings, times),
            row_record(state.stats@[ids[i]], state.total_damage),
        ),
        0 <= i < state.hits@.len() ==> text::contains(
            document(state, ids, settings, times),
            hit_record(state.hits@[i]@, times.hits@[i]@),
        ),
        0 <= i < state.packets@.len() ==> text::contains(
            document(state, ids, settings, times),
            packet_record(state.packets@[i]@, times.packets@[i]@),
        ),
{
    let head = "{\n"@ + field("  "@, "exported_at"@, quoted(times.exported_at@), false) + field(
        "  "@,
        "filter"@,
        quoted(settings.filter@),
        false,
    ) + field("  "@, "include_incoming"@, truth(settings.include_incoming), false) + network_entry(
        settings.game_network,
    ) + summary_entry(state, times) + "  \"party\": [\n"@;
    let rows = row_records(state.stats@, ids, state.total_damage, ids.len() as int);
    let a = "  ],\n"@;
    let b = "  \"hits\": [\n"@;
    let hits = hit_records(state.hits@, times.hits@, state.hits@.len() as int);
    let d = "  \"packets\": [\n"@;
    let packets = packet_records(state.packets@, times.packets@, state.packets@.len() as int);
    let e = "  ]\n"@;
    let f = "}\n"@;
    lemma_layout(head, rows, a, b, hits, a, d, packets, e, f);
    if 0 <= i < ids.len() {
        let x = row_record(state.stats@[ids[i]], state.total_damage);
        lemma_row_is_written(state.stats@, ids, state.total_damage, i, ids.len() as int);
        lemma_part_of_a_part(head, rows, a + b + hits + a + d + packets + e + f, x);
    }
    if 0 <= i < state.hits@.len() {
        let x = hit_record(state.hits@[i]@, times.hits@[i]@);
        lemma_hit_is_written(state.hits@, times.hits@, i, state.hits@.len() as int);
        lemma_part_of_a_part(head + rows + a + b, hits, a + d + packets + e + f, x);
    }
    if 0 <= i < state.packets@.len() {
        let x = packet_record(state.packets@[i]@, times.packets@[i]@);
        lemma_packet_is_written(state.packets@, times.packets@, i, state.packets@.len() as int);
        lemma_part_of_a_part(head + rows + a + b + hits + a + d, packets, e + f, x);
    }
}

/// The party is listed by falling damage, everybody once; of two with the same damage the
/// lower number comes first.
pub proof fn the_party_is_listed_by_damage(
    stats: Map<u32, CharacterStats>,
    ids: Seq<u32>,
    i: int,
    j: int,
)
    requires
        is_party(stats, ids),
        0 <= i < j < ids.len(),
    ensures
        stats[ids[i]].damage >= stats[ids[j]].damage,
        stats[ids[i]].damage == stats[ids[j]].damage ==> ids[i] < ids[j],
        forall|id: u32| #[trigger] stats.contains_key(id) <==> ids.contains(id),
{
    assert(ranks_before(stats, ids[i], ids[j]));
    assert forall|id: u32| #[trigger] stats.contains_key(id) <==> ids.contains(id) by {
        if ids.contains(id) {
            let w = choose|w: int| 0 <= w < ids.len() && ids[w] == id;
            assert(stats.contains_key(ids[w]));
        }
    }
}

} // verus!
