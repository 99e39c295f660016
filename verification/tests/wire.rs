use std::collections::HashMap;

use nte_dps::bits::{decode_shifted_bytes, decode_shifted_payload};
use nte_dps::capture::{FrameOptions, Ipv4, PacketDecoder};
use nte_dps::float::{F32, F64};
use nte_dps::model::{CharacterInfo, EngineEvent};
use nte_dps::parser::{
    declared_character_ids, declared_character_ids_from_evidence,
    find_declared_character_evidence, parse_boss_hp_updates, parse_current_hp_updates,
    parse_damage_payload, parse_damage_records, parse_sdk_target_hp_updates,
};

fn field(out: &mut Vec<u8>, kind: u8, raw: &[u8]) {
    out.push(kind);
    out.extend((raw.len() as u32).to_le_bytes());
    out.extend(raw);
}

fn record(damage: f32, before: f32, max: f32, repeated: f32) -> Vec<u8> {
    let mut out = Vec::new();
    field(&mut out, 12, &damage.to_le_bytes());
    field(&mut out, 12, &before.to_le_bytes());
    field(&mut out, 12, &max.to_le_bytes());
    field(&mut out, 13, &12.5_f64.to_le_bytes());
    field(&mut out, 12, &3.5_f32.to_le_bytes());
    field(&mut out, 12, &repeated.to_le_bytes());
    for flag in [1_i32, -2, 3] {
        field(&mut out, 6, &flag.to_le_bytes());
    }
    field(&mut out, 12, &0.25_f32.to_le_bytes());
    out
}

/// The bytes with every bit moved up by `shift` places.
fn shifted(source: &[u8], shift: u32) -> Vec<u8> {
    let mut out = vec![0_u8; source.len() + 1];
    for (index, byte) in source.iter().enumerate() {
        let wide = (*byte as u16) << shift;
        out[index] |= wide as u8;
        out[index + 1] |= (wide >> 8) as u8;
    }
    out
}

fn bits32(value: f32) -> F32 {
    F32 { bits: value.to_bits() }
}

fn characters() -> HashMap<u32, CharacterInfo> {
    let info = |zh: &str, en: &str| CharacterInfo {
        name_zh: zh.to_owned(),
        name_en: en.to_owned(),
        color: None,
        avatar: None,
        attribute: None,
    };
    HashMap::from([(1010, info("娜娜莉", "Nanally")), (1003, info("", "Sagiri"))])
}

#[test]
fn bytes_are_read_at_any_bit() {
    let data = [0b1010_0101, 0b1100_0011];
    assert_eq!(decode_shifted_bytes(&data, 0, 4, 0, 1), Some(vec![0b0011_1010]));
    assert_eq!(decode_shifted_bytes(&data, 0, 0, 4, 1), Some(vec![0b0011_1010]));
    assert_eq!(decode_shifted_bytes(&data, 0, 0, 0, 2), Some(data.to_vec()));
    assert_eq!(decode_shifted_bytes(&data, 0, 1, 0, 2), None);
    assert_eq!(decode_shifted_bytes(&data, 2, 0, 0, 1), None);
    for shift in 0..8 {
        let moved = shifted(b"protocol", shift);
        assert!(decode_shifted_payload(&moved, shift as u8).starts_with(b"protocol"));
    }
}

#[test]
fn damage_records_are_found_at_every_shift() {
    for shift in 0..8_u32 {
        let mut data = vec![0xff; 3];
        data.extend(shifted(&record(1234.5, 8000.0, 10_000.0, 1234.5), shift));
        data.push(0);
        let records = parse_damage_records(&data);
        assert_eq!(records.len(), 1, "shift {shift}");
        let found = &records[0];
        assert_eq!(found.damage, bits32(1234.5));
        assert_eq!(found.target_hp_before, bits32(8000.0));
        assert_eq!(found.target_max_hp, bits32(10_000.0));
        assert_eq!(found.damage_time, F64 { bits: 12.5_f64.to_bits() });
        assert_eq!(found.world_time, bits32(3.5));
        assert_eq!(found.repeated_damage, bits32(1234.5));
        assert_eq!(found.state_flags, (1, -2, 3));
        assert_eq!(found.trailing_value, bits32(0.25));
        assert_eq!(found.byte_offset, 8);
        assert_eq!(found.bit_shift, shift as u8);
    }
}

#[test]
fn implausible_records_are_passed_over() {
    for data in [
        record(1.5, 8000.0, 10_000.0, 1.5),
        record(2e9, 8000.0, 10_000.0, 2e9),
        record(100.0, -1.0, 10_000.0, 100.0),
        record(100.0, 8000.0, 0.0, 100.0),
        record(100.0, f32::NAN, 10_000.0, 100.0),
        record(100.0, 8000.0, f32::INFINITY, 100.0),
        record(100.0, 8000.0, 10_000.0, 100.5),
    ] {
        assert!(parse_damage_records(&data).is_empty());
    }
    assert_eq!(
        parse_damage_records(&record(2.0, 0.0, 1.0, 2.009)).len(),
        1
    );
    let whole = record(100.0, 8000.0, 10_000.0, 100.0);
    assert!(parse_damage_records(&whole[..whole.len() - 1]).is_empty());
    assert!(parse_damage_records(&[]).is_empty());
}

#[test]
fn hit_points_are_found() {
    let mut current = vec![0x77, 0, 0, 0xe0, 0x4f, 0x33, 0x33, 0x11, 0x0f, 0x22, 0x33];
    current.extend([0, 0, 0, 0, 0x24]);
    current.extend(4321.0_f32.to_le_bytes());
    let updates = parse_current_hp_updates(&current);
    assert_eq!(updates.len(), 1);
    assert_eq!(updates[0].current_hp, bits32(4321.0));
    assert_eq!(updates[0].byte_offset, 16);
    assert_eq!(updates[0].bit_shift, 0);

    let mut boss = vec![0x06, 0, 0, 0, 0, 0x20, 0, 0];
    boss.extend([9_u8; 16]);
    boss.extend([0_u8; 12]);
    boss.extend(500_001.0_f32.to_le_bytes());
    let updates = parse_boss_hp_updates(&boss);
    assert_eq!(updates.len(), 1);
    assert_eq!(updates[0].current_hp, bits32(500_001.0));
    assert_eq!(updates[0].byte_offset, 36);
    let mut anonymous = boss.clone();
    anonymous[8..24].fill(0);
    assert!(parse_boss_hp_updates(&anonymous).is_empty());

    assert!(parse_sdk_target_hp_updates(&[0; 47]).is_empty());
}

#[test]
fn characters_are_declared_by_four_digits() {
    let mut data = vec![5, 0, 0, 0];
    data.extend(b"1010\0");
    data.extend([5, 0, 0, 0]);
    data.extend(b"0999\0");
    data.extend([5, 0, 0, 0]);
    data.extend(b"1010\0");
    let evidence = find_declared_character_evidence(&data);
    assert_eq!(evidence, vec![(1010, 0, 0), (1010, 0, 18)]);
    assert_eq!(declared_character_ids_from_evidence(&evidence), vec![1010]);
    assert_eq!(declared_character_ids(&data), vec![1010]);
    assert_eq!(
        declared_character_ids_from_evidence(&[(7, 1, 2), (8, 0, 0), (7, 0, 0)]),
        vec![7, 8]
    );
    assert!(declared_character_ids(&[]).is_empty());
}

#[test]
fn damage_is_credited_to_the_declared_character() {
    let data = record(1234.5, 1000.0, 10_000.0, 1234.5);
    let table = characters();
    let hits = parse_damage_payload(&data, 5_000_000, Some(1010), None, &table, &[(1010, 3, 0)]);
    assert_eq!(hits.len(), 1);
    assert_eq!(hits[0].char_name, "娜娜莉");
    assert!(hits[0].char_known);
    assert_eq!(hits[0].damage, 1_234_500);
    assert_eq!(hits[0].target_hp_before, 1_000_000);
    assert_eq!(hits[0].target_hp_after, 0);
    assert_eq!(hits[0].target_max_hp, 10_000_000);
    assert_eq!(hits[0].target_hp_percent, 0);
    assert_eq!(hits[0].direction, "outgoing");
    assert_eq!(hits[0].char_source, "packet");
    assert_eq!(hits[0].byte_offset, 5);

    let taken = parse_damage_payload(&data, 0, Some(1010), None, &table, &[(1010, 0, 0)]);
    assert_eq!(taken[0].direction, "incoming");
    let remembered = parse_damage_payload(&data, 0, None, Some(1003), &table, &[]);
    assert_eq!(remembered[0].char_name, "Sagiri");
    assert_eq!(remembered[0].direction, "unknown");
    assert_eq!(remembered[0].char_source, "session");
    let stranger = parse_damage_payload(&data, 0, Some(77), None, &table, &[]);
    assert_eq!(stranger[0].char_name, "未知角色(77)");
    assert!(!stranger[0].char_known);
    let nobody = parse_damage_payload(&data, 0, None, None, &table, &[]);
    assert_eq!(nobody[0].char_name, "未知角色");
    assert_eq!(nobody[0].char_source, "unknown");
}

#[test]
fn targets_are_named_by_text_beside_the_record() {
    let mut data = b"TargetId: 99 \0TargetName=Golem;x\0".to_vec();
    data.extend(record(100.0, 5000.0, 10_000.0, 100.0));
    let hits = parse_damage_payload(&data, 0, None, None, &characters(), &[]);
    assert_eq!(hits.len(), 1);
    assert_eq!(hits[0].target_id.as_deref(), Some("99"));
    assert_eq!(hits[0].target_name.as_deref(), Some("Golem"));
    assert_eq!(hits[0].target_context, vec!["TargetId: 99", "TargetName=Golem;x"]);
    assert_eq!(hits[0].target_hp_after, 4_900_000);
    assert_eq!(hits[0].target_hp_percent, 49_000);
}

fn frame(source: Ipv4, destination: Ipv4, payload: &[u8]) -> Vec<u8> {
    let mut frame = vec![0_u8; 14 + 20 + 8 + payload.len()];
    frame[12..14].copy_from_slice(&0x0800_u16.to_be_bytes());
    frame[14] = 0x45;
    frame[16..18].copy_from_slice(&((28 + payload.len()) as u16).to_be_bytes());
    frame[23] = 17;
    frame[26..30].copy_from_slice(&[source.a, source.b, source.c, source.d]);
    frame[30..34].copy_from_slice(&[destination.a, destination.b, destination.c, destination.d]);
    frame[34..36].copy_from_slice(&1000_u16.to_be_bytes());
    frame[36..38].copy_from_slice(&2000_u16.to_be_bytes());
    frame[38..40].copy_from_slice(&((8 + payload.len()) as u16).to_be_bytes());
    frame[42..].copy_from_slice(payload);
    frame
}

#[test]
fn frames_become_packets_and_hits() {
    let client = Ipv4 { a: 10, b: 0, c: 0, d: 1 };
    let server = Ipv4 { a: 10, b: 0, c: 0, d: 2 };
    let options = FrameOptions { local_ip: Some(client), include_incoming: false };
    let mut decoder = PacketDecoder::new();
    let mut declaration = vec![5, 0, 0, 0];
    declaration.extend(b"1010\0");
    let first = decoder.process_ethernet_frame(
        &frame(client, server, &declaration),
        1_000_000,
        options,
        &characters(),
    );
    assert_eq!(first.len(), 1);
    assert!(matches!(&first[0], EngineEvent::Packet(packet) if packet.declared_ids == vec![1010]
        && packet.direction == "C2S" && packet.source == "10.0.0.1:1000"
        && packet.destination == "10.0.0.2:2000" && packet.payload_hex == "050000003130313000"
        && packet.payload_preview == packet.payload_hex));

    let damage = record(100.0, 5000.0, 600_000.0, 100.0);
    let second = decoder.process_ethernet_frame(
        &frame(client, server, &damage),
        2_000_000,
        options,
        &characters(),
    );
    assert_eq!(second.len(), 2);
    assert!(matches!(&second[0], EngineEvent::Packet(packet) if packet.parsed_hits == 1
        && packet.note.is_empty()));
    assert!(matches!(&second[1], EngineEvent::Hit(hit) if hit.char_id == 1010
        && hit.char_source == "session" && hit.timestamp == 2_000_000));

    let mut taken = declaration.clone();
    taken.extend(record(100.0, 5000.0, 10_000.0, 100.0));
    let third = decoder.process_ethernet_frame(
        &frame(client, server, &taken),
        3_000_000,
        options,
        &characters(),
    );
    assert_eq!(third.len(), 1);
    assert!(matches!(&third[0], EngineEvent::Packet(packet) if packet.parsed_hits == 0
        && packet.note == "过滤 1 条 incoming 记录"));

    let other = Ipv4 { a: 10, b: 0, c: 0, d: 3 };
    let foreign = frame(other, server, &declaration);
    assert!(decoder
        .process_ethernet_frame(&foreign, 4_000_000, options, &characters())
        .is_empty());
    let incoming = decoder.process_ethernet_frame(
        &frame(server, client, &damage),
        5_000_000,
        options,
        &characters(),
    );
    assert!(incoming.is_empty());
}
