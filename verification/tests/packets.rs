use nte_dps::abyss::abyss_events_from_text;
use nte_dps::capture::{
    decode_payload_text, parse_udp_ipv4, protocol_text_score, should_keep_debug_packet, Ipv4,
    UNREADABLE_PROTOCOL_TEXT,
};
use nte_dps::import::{parse_export_ids, repair_export_text};
use nte_dps::json::parse_json;
use nte_dps::model::{AbyssEvent, AbyssHalf};

fn udp_ipv4_frame(source: Ipv4, destination: Ipv4, payload: &[u8]) -> Vec<u8> {
    let mut frame = vec![0_u8; 14 + 20 + 8 + payload.len()];
    frame[12..14].copy_from_slice(&0x0800_u16.to_be_bytes());
    let ip = &mut frame[14..];
    ip[0] = 0x45;
    ip[2..4].copy_from_slice(&((20 + 8 + payload.len()) as u16).to_be_bytes());
    ip[9] = 17;
    ip[12..16].copy_from_slice(&[source.a, source.b, source.c, source.d]);
    ip[16..20].copy_from_slice(&[destination.a, destination.b, destination.c, destination.d]);
    let udp = &mut ip[20..];
    udp[0..2].copy_from_slice(&64592_u16.to_be_bytes());
    udp[2..4].copy_from_slice(&30216_u16.to_be_bytes());
    udp[4..6].copy_from_slice(&((8 + payload.len()) as u16).to_be_bytes());
    udp[8..].copy_from_slice(payload);
    frame
}

#[test]
fn rejects_empty_and_truncated_packets() {
    assert!(parse_udp_ipv4(&[]).is_none());
    assert!(parse_udp_ipv4(&[0_u8; 13]).is_none());
    assert!(parse_udp_ipv4(&[0_u8; 42]).is_none());
}

#[test]
fn imports_exported_capture_json_and_repairs_legacy_comma() {
    let text = r#"{
  "hits": [{
    "timestamp_unix": 1.25,
    "char_id": 1010,
    "char_name": "娜娜莉",
    "damage": 1234,
    "target_hp_after": 8000,
    "target_max_hp": 10000,
    "target_hp_percent": 80
  }],
  "packets": [{
    "timestamp_unix": 1.25,
    "source": "127.0.0.1:1",
    "destination": "127.0.0.1:2",
    "direction": "C2S",
    "payload_len": 2,
    "declared_ids": "[1010]",
    "parsed_hits": 1,
    "note": "",
    "payload_preview": "abcd",
    "payload_hex": "abcd"
    "decoded_text": "Abyss_2_12_0"
  }]
}"#;
    assert!(parse_json(text).is_err());
    let document = parse_json(&repair_export_text(text)).unwrap();
    let hits = document.field("hits").unwrap().list().unwrap();
    let packets = document.field("packets").unwrap().list().unwrap();
    assert_eq!(hits.len(), 1);
    assert_eq!(packets.len(), 1);
    assert_eq!(
        parse_export_ids(packets[0].field("declared_ids").unwrap()),
        vec![1010]
    );
}

#[test]
fn preserves_complete_udp_payload() {
    let payload: Vec<u8> = (0..=255).cycle().take(900).collect();
    let frame = udp_ipv4_frame(
        Ipv4 { a: 192, b: 168, c: 31, d: 61 },
        Ipv4 { a: 49, b: 232, c: 46, d: 87 },
        &payload,
    );
    let (_, _, _, _, parsed_payload) = parse_udp_ipv4(&frame).expect("valid UDP frame");

    assert_eq!(parsed_payload, payload);
    assert_eq!(hex::encode(parsed_payload).len(), payload.len() * 2);
}

#[test]
fn reads_addresses_and_ports() {
    let source = Ipv4 { a: 192, b: 168, c: 31, d: 61 };
    let destination = Ipv4 { a: 49, b: 232, c: 46, d: 87 };
    let frame = udp_ipv4_frame(source, destination, b"abc");
    let (from, from_port, to, to_port, payload) = parse_udp_ipv4(&frame).unwrap();
    assert_eq!(from, source);
    assert_eq!(from_port, 64592);
    assert_eq!(to, destination);
    assert_eq!(to_port, 30216);
    assert_eq!(payload, b"abc");
    assert_eq!(from.show(), "192.168.31.61");
}

#[test]
fn extracts_shifted_protocol_text() {
    let source = b"FAbyssGamePlayData\0Abyss_2_12_0\0EAbyssFightStage::FirstHalf";
    let mut shifted = Vec::with_capacity(source.len() + 1);
    shifted.push(source[0] << 4);
    for pair in source.windows(2) {
        shifted.push((pair[0] >> 4) | (pair[1] << 4));
    }
    shifted.push(source[source.len() - 1] >> 4);

    let decoded = decode_payload_text(&shifted);
    assert!(decoded.contains("FAbyssGamePlayData"));
    assert!(decoded.contains("Abyss_2_12_0"));
    assert!(decoded.contains("EAbyssFightStage::FirstHalf"));
}

#[test]
fn rejects_shifted_garbage_text() {
    for value in [
        "Zbjdrpp\\`hl```Xddjfpd\\bnd```",
        ":xB\"xB\"xB",
        "bjrjhjjnrj",
        "AAhw?*vF",
        "ZKccsQJss",
    ] {
        assert_eq!(protocol_text_score(value), 0, "{value}");
    }
}

#[test]
fn keeps_scene_and_unreal_protocol_identifiers() {
    for value in [
        "CurrentGameplayID",
        "WorldBoss_Boss13",
        "TeleportWithCar",
        "CityLive",
        "FHTClientActiveGE",
        "FCharacterForNet",
        "/Game/Maps/Map_bigworld/XL_map_bigworld_test",
    ] {
        assert!(protocol_text_score(value) > 0, "{value}");
    }
}

#[test]
fn filters_only_short_unparsed_debug_packets() {
    let long_binary: Vec<u8> = (0..128).map(|value| value as u8).collect();
    assert!(!should_keep_debug_packet(
        &[0xff; 30],
        &[],
        0,
        UNREADABLE_PROTOCOL_TEXT,
    ));
    assert!(!should_keep_debug_packet(
        &[0x10; 48],
        &[],
        0,
        UNREADABLE_PROTOCOL_TEXT,
    ));
    assert!(should_keep_debug_packet(
        &long_binary,
        &[],
        0,
        UNREADABLE_PROTOCOL_TEXT,
    ));
    assert!(should_keep_debug_packet(
        &[0x10; 11],
        &[],
        1,
        UNREADABLE_PROTOCOL_TEXT,
    ));
    assert!(should_keep_debug_packet(&[0x10; 11], &[], 0, "CityLive"));
}

#[test]
fn recognizes_reliable_abyss_stage_events() {
    let first = abyss_events_from_text(
        1_000_000,
        "EAbyssFightStage::FirstHalf\nFAbyssGamePlayData\nAbyss_2_12_0",
    );
    let second = abyss_events_from_text(
        2_000_000,
        "EAbyssFightStage::SecondHalf\nFAbyssGamePlayData\nAbyss_2_12_1",
    );
    let clone_data = abyss_events_from_text(
        3_000_000,
        "EAbyssFightStage::FirstHalf\nEAbyssFightStage::SecondHalf\nAbyssCloneCharacterData",
    );
    let success = abyss_events_from_text(
        4_000_000,
        "EAbyssFightStage::SecondHalf\nFAbyssGamePlayData\nConditionState_Success",
    );
    let restart = abyss_events_from_text(5_000_000, "Abyss_Battle_Born\nXL_map_bigworld_test");

    assert!(matches!(
        first.as_slice(),
        [AbyssEvent::Stage {
            floor: Some(12),
            half: AbyssHalf::First,
            ..
        }]
    ));
    assert!(matches!(
        second.as_slice(),
        [AbyssEvent::Stage {
            floor: Some(12),
            half: AbyssHalf::Second,
            ..
        }]
    ));
    assert!(clone_data.is_empty());
    assert!(matches!(success.as_slice(), [AbyssEvent::Success { .. }]));
    assert!(matches!(
        restart.as_slice(),
        [AbyssEvent::RestartDetected { .. }]
    ));
}
