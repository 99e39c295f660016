use nte_dps::capture::Ipv4;
use nte_dps::decimal::{parse_seconds, NO_MOMENT};
use nte_dps::export::{
    capture_export_json, id_list_string, json_amount, json_moment, json_string, last_moment,
    party_order, share_string, ExportSettings, LocalTimes,
};
use nte_dps::figures::{fixed_string, format_number};
use nte_dps::import::{import_events, parse_export_ids, ExportHit, ExportPacket};
use nte_dps::json::{parse_json, Json};
use nte_dps::model::{CombatState, EngineEvent, Hit, PacketDebug};
use nte_dps::network::GameNetwork;
use nte_dps::text::chars_of;

fn hit(timestamp: i64, char_id: u32, name: &str, damage: i64) -> Hit {
    Hit {
        timestamp,
        char_id,
        char_name: name.to_owned(),
        char_known: true,
        damage,
        byte_offset: 7,
        bit_shift: 1,
        char_source: "test".to_owned(),
        direction: "outgoing".to_owned(),
        target_hp_before: 10_000_000,
        target_hp_after: 10_000_000 - damage,
        target_max_hp: 20_000_000,
        target_hp_percent: 49_500,
        target_id: None,
        target_name: Some("无首\"铁驭\"".to_owned()),
        target_context: vec!["a=1".to_owned(), "b=2".to_owned()],
        gameplay_effect_index: None,
        gameplay_effect_name: None,
        ability_name: None,
        damage_name: None,
        attack_type: None,
    }
}

fn packet(timestamp: i64) -> PacketDebug {
    PacketDebug {
        timestamp,
        source: "10.0.0.1:1".to_owned(),
        destination: "10.0.0.2:2".to_owned(),
        direction: "C2S".to_owned(),
        payload_len: 2,
        declared_ids: vec![1010, 7],
        parsed_hits: 1,
        note: String::new(),
        payload_preview: "abcd".to_owned(),
        payload_hex: "abcd".to_owned(),
        decoded_text: "CityLive\n".to_owned(),
    }
}

fn settings() -> ExportSettings {
    ExportSettings {
        filter: "udp".to_owned(),
        include_incoming: false,
        game_network: Some(GameNetwork {
            pid: 42,
            local_ip: Ipv4 { a: 10, b: 0, c: 0, d: 1 },
            remote_ip: Ipv4 { a: 10, b: 0, c: 0, d: 2 },
            remote_port: 30031,
        }),
    }
}

#[test]
fn a_fight_is_written_out_whole() {
    let mut state = CombatState::new();
    state.push_hit(hit(1_250_000, 1010, "娜娜莉", 100_500));
    state.push_hit(hit(3_250_000, 1003, "Sagiri", 301_500));
    state.push_packet(packet(4_000_400));
    let times = LocalTimes {
        exported_at: "2024-06-10 12:00:00".to_owned(),
        started_at: Some("08:00:01.250".to_owned()),
        ended_at: Some("08:00:04.000".to_owned()),
        hits: vec!["08:00:01.250".to_owned(), "08:00:03.250".to_owned()],
        packets: vec!["08:00:04.000".to_owned()],
    };
    let expected = r#"{
  "exported_at": "2024-06-10 12:00:00",
  "filter": "udp",
  "include_incoming": false,
  "game_network": {
    "pid": 42,
    "local_ip": "10.0.0.1",
    "remote_ip": "10.0.0.2",
    "remote_port": 30031
  },
  "summary": {
    "hits": 2,
    "packets": 1,
    "total_damage": 402.000,
    "dps": 201.000,
    "duration_seconds": 2.000,
    "started_at_unix": 1.250,
    "started_at_local": "08:00:01.250",
    "ended_at_unix": 4.000,
    "ended_at_local": "08:00:04.000"
  },
  "party": [
    {
      "char_id": 1003,
      "name": "Sagiri",
      "hits": 1,
      "damage": 301.500,
      "dps": 301.500,
      "duration_seconds": 0.000,
      "share_percent": 75.000
    },
    {
      "char_id": 1010,
      "name": "娜娜莉",
      "hits": 1,
      "damage": 100.500,
      "dps": 100.500,
      "duration_seconds": 0.000,
      "share_percent": 25.000
    }
  ],
  "hits": [
    {
      "timestamp_unix": 1.250,
      "time_local": "08:00:01.250",
      "char_id": 1010,
      "char_name": "娜娜莉",
      "damage": 100.500,
      "target_hp_before": 10000.000,
      "target_hp_after": 9899.500,
      "target_max_hp": 20000.000,
      "target_hp_percent": 49.500,
      "target_id": null,
      "target_name": "无首\"铁驭\"",
      "target_context": [
        "a=1",
        "b=2"
      ]
    },
    {
      "timestamp_unix": 3.250,
      "time_local": "08:00:03.250",
      "char_id": 1003,
      "char_name": "Sagiri",
      "damage": 301.500,
      "target_hp_before": 10000.000,
      "target_hp_after": 9698.500,
      "target_max_hp": 20000.000,
      "target_hp_percent": 49.500,
      "target_id": null,
      "target_name": "无首\"铁驭\"",
      "target_context": [
        "a=1",
        "b=2"
      ]
    }
  ],
  "packets": [
    {
      "timestamp_unix": 4.000,
      "time_local": "08:00:04.000",
      "source": "10.0.0.1:1",
      "destination": "10.0.0.2:2",
      "direction": "C2S",
      "payload_len": 2,
      "declared_ids": "[1010, 7]",
      "parsed_hits": 1,
      "note": "",
      "payload_preview": "abcd",
      "payload_hex": "abcd",
      "decoded_text": "CityLive\n"
    }
  ]
}
"#;
    let text = capture_export_json(&state, &settings(), &times);
    assert_eq!(text, expected);

    let document = parse_json(&text).unwrap();
    let hits = document.field("hits").unwrap().list().unwrap();
    assert_eq!(hits.len(), 2);
    assert_eq!(
        hits[0].field("target_name").unwrap().text().unwrap(),
        "无首\"铁驭\""
    );
    let packets = document.field("packets").unwrap().list().unwrap();
    assert_eq!(
        parse_export_ids(packets[0].field("declared_ids").unwrap()),
        vec![1010, 7]
    );
    assert_eq!(
        packets[0].field("decoded_text").unwrap().text().unwrap(),
        "CityLive\n"
    );
}

#[test]
fn an_empty_fight_is_written_out() {
    let times = LocalTimes {
        exported_at: "now".to_owned(),
        started_at: None,
        ended_at: None,
        hits: Vec::new(),
        packets: Vec::new(),
    };
    let settings = ExportSettings {
        filter: String::new(),
        include_incoming: true,
        game_network: None,
    };
    let text = capture_export_json(&CombatState::new(), &settings, &times);
    assert!(text.contains("  \"include_incoming\": true,\n  \"game_network\": null,\n"));
    assert!(text.contains("    \"duration_seconds\": 0.001,\n    \"started_at_unix\": null,\n"));
    assert!(text.ends_with("  \"party\": [\n  ],\n  \"hits\": [\n  ],\n  \"packets\": [\n  ]\n}\n"));
    assert!(parse_json(&text).is_ok());
}

#[test]
fn texts_are_quoted_and_escaped() {
    assert_eq!(json_string("a\"b\\c"), "\"a\\\"b\\\\c\"");
    assert_eq!(json_string("\n\r\t\u{8}\u{c}"), "\"\\n\\r\\t\\b\\f\"");
    assert_eq!(json_string("\u{1}\u{1f}\u{7f}\u{9f}"), "\"\\u0001\\u001f\\u007f\\u009f\"");
    assert_eq!(json_string("深渊"), "\"深渊\"");
    assert_ne!(json_string("\\n"), json_string("\n"));
    for value in ["", "a\"b", "\\u0001", "\u{1}", "线\n行\\"] {
        let read = parse_json(&json_string(value)).unwrap();
        assert_eq!(read.text().unwrap(), value);
        assert!(!json_string(value).chars().any(|c| c.is_control()));
    }
}

#[test]
fn numbers_are_written_with_three_decimals() {
    assert_eq!(json_amount(0), "0.000");
    assert_eq!(json_amount(1_234_567), "1234.567");
    assert_eq!(json_amount(-5), "-0.005");
    assert_eq!(json_moment(1_781_881_303_978_000), "1781881303.978");
    assert_eq!(json_moment(1_499), "0.001");
    assert_eq!(json_moment(1_500), "0.002");
    assert_eq!(json_moment(-1_500), "-0.002");
    assert_eq!(json_moment(2_500), "0.003");
    assert_eq!(json_moment(1_062_500), "1.062");
    assert_eq!(json_moment(1_187_500), "1.188");
    assert_eq!(share_string(1_000, 3_000, 1_000, 3), "33.333");
    assert_eq!(share_string(2_000, 3_000, 10, 1), "66.7");
    assert_eq!(share_string(5, 0, 1_000, 3), "0.000");
    assert_eq!(fixed_string(-40, 1_000, 10, 1), "-0.0");
}

#[test]
fn numbers_in_the_middle_follow_their_double() {
    let mut middle: i64 = 50_000;
    while middle < 2_000_000_000 {
        let seconds = middle as f64 / 1_000_000.0;
        assert_eq!(fixed_string(middle as i128, 1_000_000, 10, 1), format!("{seconds:.1}"));
        middle += 7_900_000;
    }
    let mut middle: i64 = 1_781_881_303_000_500;
    for _ in 0..2_000 {
        let seconds = middle as f64 / 1_000_000.0;
        assert_eq!(json_moment(middle), format!("{seconds:.3}"));
        middle += 37_000;
    }
    for middle in (500..2_000_000).step_by(1_000) {
        let seconds = middle as f64 / 1_000_000.0;
        assert_eq!(json_moment(middle), format!("{seconds:.3}"));
        assert_eq!(json_moment(-middle), format!("{:.3}", -seconds));
    }
}

#[test]
fn written_moments_are_read_back_to_the_millisecond() {
    for moment in [0, 1_000, 1_250_000, 1_781_881_303_978_000, -2_500_000] {
        assert_eq!(parse_seconds(&chars_of(&json_moment(moment))), Some(moment));
    }
    assert_eq!(parse_seconds(&chars_of(&json_moment(1_600))), Some(2_000));
}

#[test]
fn far_exponents_and_infinity_are_held() {
    for (written, moment) in [
        ("1e-10000", Some(0)),
        ("-25E-99999999999999999999999", Some(0)),
        ("0e99999999999999999999999", Some(0)),
        ("1e10000", Some(i64::MAX)),
        ("-1e+99999999999999999999999", Some(-i64::MAX)),
        ("inf", Some(i64::MAX)),
        ("-Infinity", Some(-i64::MAX)),
        ("+INF", Some(i64::MAX)),
        ("1.5e3", Some(1_500_000_000)),
        ("15e-1", Some(1_500_000)),
        ("1e", None),
        ("1e-", None),
        ("1e--1", None),
        ("infinite", None),
        ("nan", Some(i64::MAX)),
        ("+NaN", Some(i64::MAX)),
        ("-nan", Some(NO_MOMENT)),
        ("nano", None),
        ("--inf", None),
    ] {
        assert_eq!(parse_seconds(&chars_of(written)), moment, "{written}");
    }
}

#[test]
fn written_ids_are_read_back() {
    for ids in [vec![], vec![0], vec![1010], vec![1, 22, 4_294_967_295]] {
        let text = id_list_string(&ids);
        assert_eq!(text, format!("{:?}", ids));
        assert_eq!(parse_export_ids(&Json::Text(text)), ids);
    }
    assert_eq!(
        parse_export_ids(&Json::List(vec![
            Json::Number("4294967297".to_owned()),
            Json::Text("3".to_owned()),
            Json::Number("2".to_owned()),
        ])),
        vec![1, 2]
    );
    assert_eq!(parse_export_ids(&Json::Null), Vec::<u32>::new());
}

#[test]
fn whole_numbers_are_grouped() {
    assert_eq!(format_number(0), "0");
    assert_eq!(format_number(999_499), "999");
    assert_eq!(format_number(999_500), "1,000");
    assert_eq!(format_number(1_234_567_000), "1,234,567");
    assert_eq!(format_number(-1_234_000), "-1,234");
    assert_eq!(format_number(-400), "0");
    assert_eq!(format_number(i64::MAX as i128 * 1_001), "9,223,372,036,854,775,807");
}

#[test]
fn the_party_is_ordered_by_damage() {
    let mut state = CombatState::new();
    state.push_hit(hit(1, 5, "a", 10));
    state.push_hit(hit(2, 9, "b", 30));
    state.push_hit(hit(3, 2, "c", 10));
    state.push_hit(hit(4, 7, "d", -1));
    assert_eq!(party_order(&state), vec![9, 2, 5, 7]);
    assert_eq!(party_order(&CombatState::new()), Vec::<u32>::new());
}

#[test]
fn the_last_moment_counts_hits_and_packets() {
    let mut state = CombatState::new();
    assert_eq!(last_moment(&state), None);
    state.push_hit(hit(5, 1, "a", 1));
    assert_eq!(last_moment(&state), Some(5));
    state.push_packet(packet(9));
    state.push_packet(packet(3));
    assert_eq!(last_moment(&state), Some(9));
}

#[test]
fn imported_events_come_by_time_and_kind() {
    let packet = ExportPacket {
        timestamp: 2_000_000,
        source: "a".to_owned(),
        destination: "b".to_owned(),
        direction: "C2S".to_owned(),
        payload_len: 2,
        declared_ids: Json::Text("[1010]".to_owned()),
        parsed_hits: 1,
        note: String::new(),
        payload_preview: String::new(),
        payload_hex: "zz".to_owned(),
        decoded_text: "EAbyssFightStage::FirstHalf\nFAbyssGamePlayData\nAbyss_2_12_0".to_owned(),
    };
    let export_hit = |timestamp: i64| ExportHit {
        timestamp,
        char_id: 1010,
        char_name: "娜娜莉".to_owned(),
        damage: 5_000,
        direction: "outgoing".to_owned(),
        target_hp_before: 0,
        target_hp_after: 0,
        target_max_hp: 0,
        target_hp_percent: 0,
        target_id: None,
        target_name: None,
        target_context: Vec::new(),
    };
    let (events, listed) = import_events(
        vec![packet],
        vec![export_hit(2_000_000), export_hit(1_000_000)],
    );
    assert_eq!(listed, 1);
    assert_eq!(events.len(), 4);
    assert!(matches!(&events[0], EngineEvent::Hit(hit) if hit.timestamp == 1_000_000));
    assert!(matches!(&events[1], EngineEvent::Abyss(_)));
    assert!(matches!(&events[2], EngineEvent::Packet(packet) if packet.declared_ids == vec![1010]));
    assert!(
        matches!(&events[3], EngineEvent::Hit(hit) if hit.timestamp == 2_000_000
            && hit.char_source == "export_json" && hit.char_known)
    );
}
