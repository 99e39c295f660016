use std::collections::HashMap;

use nte_dps::characters::load_characters;
use nte_dps::display::{
    activity_label, character_color, character_hits, character_rate_label, compact_label,
    contribution_label, fight_rate_label, hit_points_label, latest_hit_log, listed_packets, packet_is_found, packet_is_shown,
    packet_title_label, parse_hex_color, searchable_text, seconds_label, short_status,
    target_details, target_label, Rgb,
};
use nte_dps::model::{CharacterInfo, CharacterStats, CombatState, Hit, PacketDebug};

fn hit(char_id: u32) -> Hit {
    Hit {
        timestamp: 1_000_000,
        char_id,
        char_name: "tester".to_owned(),
        char_known: true,
        damage: 1_000,
        byte_offset: 0,
        bit_shift: 0,
        char_source: "test".to_owned(),
        direction: "outgoing".to_owned(),
        target_hp_before: 2_000_000,
        target_hp_after: 1_234_567,
        target_max_hp: 2_000_000,
        target_hp_percent: 61_728,
        target_id: None,
        target_name: None,
        target_context: Vec::new(),
        gameplay_effect_index: None,
        gameplay_effect_name: None,
        ability_name: None,
        damage_name: None,
        attack_type: None,
    }
}

fn packet(parsed_hits: usize, text: &str) -> PacketDebug {
    PacketDebug {
        timestamp: 0,
        source: "10.0.0.1:1".to_owned(),
        destination: "10.0.0.2:2".to_owned(),
        direction: "C2S".to_owned(),
        payload_len: 12,
        declared_ids: vec![1010],
        parsed_hits,
        note: String::new(),
        payload_preview: String::new(),
        payload_hex: String::new(),
        decoded_text: text.to_owned(),
    }
}

fn info(color: Option<&str>) -> CharacterInfo {
    CharacterInfo {
        name_zh: "测试".to_owned(),
        name_en: "Test".to_owned(),
        color: color.map(str::to_owned),
        avatar: None,
        attribute: None,
    }
}

#[test]
fn labels_are_cut_with_an_ellipsis() {
    assert_eq!(compact_label("无首铁驭", 4), "无首铁驭");
    assert_eq!(compact_label("无首铁驭", 3), "无首…");
    assert_eq!(compact_label("abc", 1), "…");
    assert_eq!(compact_label("abc", 0), "…");
    assert_eq!(compact_label("", 0), "");
}

#[test]
fn targets_are_labelled_by_name_or_identifier() {
    let mut shown = hit(1);
    assert_eq!(target_label(&shown), "");
    assert_eq!(target_details(&shown), None);
    shown.target_id = Some("monster:boss_13#1".to_owned());
    assert_eq!(target_label(&shown), "monster:boss_13#1");
    shown.target_name = Some("一二三四五六七八九十一二三四五六七八九".to_owned());
    assert_eq!(target_label(&shown), "一二三四五六七八九十一二三四五六七…");
    shown.target_context = vec!["a=1".to_owned(), "b=2".to_owned()];
    shown.target_name = Some("A".to_owned());
    assert_eq!(
        target_details(&shown).as_deref(),
        Some("目标 ID: monster:boss_13#1\n目标名称: A\n封包上下文: a=1 | b=2")
    );
}

#[test]
fn amounts_are_labelled() {
    assert_eq!(hit_points_label(&hit(1)), "1,235 / 2,000  61.7%");
    assert_eq!(seconds_label(12_340_000), "12.3s");
    assert_eq!(seconds_label(12_350_000), "12.3s");
    assert_eq!(seconds_label(12_450_000), "12.4s");
    assert_eq!(seconds_label(12_550_000), "12.6s");
    assert_eq!(seconds_label(12_250_000), "12.2s");
    let row = CharacterStats {
        char_id: 1,
        name: "a".to_owned(),
        hits: 3,
        damage: 1_500_000,
        first_hit: 0,
        last_hit: 2_500_000,
    };
    assert_eq!(activity_label(&row), "3次 · 2.5s");
    assert_eq!(contribution_label(&row, 3_000_000), "1,500 · 50.0%");
    assert_eq!(contribution_label(&row, 0), "1,500 · 0.0%");
    assert_eq!(character_rate_label(&row), "600");
}

#[test]
fn rates_are_rounded_once() {
    let mut row = CharacterStats {
        char_id: 1,
        name: "a".to_owned(),
        hits: 2,
        damage: 2_000_000,
        first_hit: 0,
        last_hit: 3_000_000,
    };
    assert_eq!(row.dps(), 666_667);
    assert_eq!(character_rate_label(&row), "667");
    row.damage = 1_499;
    assert_eq!(row.dps(), 500);
    assert_eq!(character_rate_label(&row), "0");
    row.damage = -2_000_000;
    assert_eq!(row.dps(), -666_667);
    assert_eq!(character_rate_label(&row), "-667");

    let mut state = CombatState::default();
    assert_eq!(fight_rate_label(&state), "0");
    state.push_hit(hit(1));
    state.push_hit(Hit { timestamp: 4_000_000, damage: 5_000_000_000, ..hit(1) });
    assert_eq!(state.dps(), 1_666_667_000);
    assert_eq!(fight_rate_label(&state), "1,666,667");
}

#[test]
fn colours_are_read_from_six_digits() {
    let red = Rgb { red: 255, green: 0, blue: 16 };
    assert_eq!(parse_hex_color("#ff0010"), Some(red));
    assert_eq!(parse_hex_color("FF0010"), Some(red));
    assert_eq!(parse_hex_color("#+f0010"), Some(Rgb { red: 15, green: 0, blue: 16 }));
    assert_eq!(parse_hex_color("#ff001"), None);
    assert_eq!(parse_hex_color("#ff00100"), None);
    assert_eq!(parse_hex_color("#gg0010"), None);
    assert_eq!(parse_hex_color(""), None);
}

#[test]
fn characters_without_a_colour_get_one_of_the_palette() {
    let characters = HashMap::from([(1, info(Some("#010203"))), (2, info(Some("nonsense")))]);
    assert_eq!(
        character_color(1, &characters, 0),
        Rgb { red: 1, green: 2, blue: 3 }
    );
    assert_eq!(
        character_color(2, &characters, 0),
        Rgb { red: 70, green: 164, blue: 126 }
    );
    assert_eq!(
        character_color(6, &characters, 0),
        Rgb { red: 193, green: 74, blue: 105 }
    );
    assert_eq!(
        character_color(6, &characters, 5),
        Rgb { red: 171, green: 89, blue: 178 }
    );
}

#[test]
fn packets_are_searched_without_regard_to_case() {
    let listed = packet(0, "ÄTNA CityLive");
    assert_eq!(
        searchable_text(&listed),
        "10.0.0.1:1 10.0.0.2:2 C2S [1010] ÄTNA CityLive"
    );
    assert!(packet_is_shown(&listed, false, ""));
    assert!(!packet_is_shown(&listed, true, ""));
    assert!(packet_is_shown(&listed, false, "citylive"));
    assert!(packet_is_shown(&listed, false, "ätna"));
    assert!(packet_is_shown(&listed, false, "[1010]"));
    assert!(!packet_is_shown(&listed, false, "1011"));
    assert!(packet_is_found(1, true, "some text", "me t"));
    assert!(!packet_is_found(0, true, "some text", "me t"));
    assert_eq!(
        packet_title_label(&listed, "08:00:00.000"),
        "08:00:00.000  C2S  10.0.0.1:1 -> 10.0.0.2:2  12 B  ids=[1010]  hits=0"
    );
}

#[test]
fn only_the_newest_packets_are_listed() {
    let mut state = CombatState::new();
    for index in 0..502 {
        state.push_packet(packet(index % 2, "CityLive"));
    }
    let listed = listed_packets(&state, false, "");
    assert_eq!(listed.len(), 500);
    assert_eq!(listed[0], 2);
    let with_hits = listed_packets(&state, true, "");
    assert_eq!(with_hits.len(), 250);
    assert_eq!(with_hits[0], 3);
    assert!(listed_packets(&state, false, "nowhere").is_empty());
}

#[test]
fn hits_of_a_character_are_listed_by_window() {
    let mut state = CombatState::new();
    for id in [1, 2, 1, 1, 2, 1] {
        state.push_hit(hit(id));
    }
    assert_eq!(character_hits(&state, 1, 0, 10), vec![0, 2, 3, 5]);
    assert_eq!(character_hits(&state, 1, 1, 2), vec![2, 3]);
    assert_eq!(character_hits(&state, 2, 1, usize::MAX), vec![4]);
    assert!(character_hits(&state, 1, 9, 3).is_empty());
    assert!(character_hits(&state, 3, 0, 3).is_empty());
}

#[test]
fn the_latest_log_is_found_by_name() {
    let names: Vec<String> = [
        "nte_hits_20240101.jsonl",
        "nte_hits_20240301.jsonl",
        "nte_hits_20250101.json",
        "zzz.jsonl",
        "nte_hits_20240201.jsonl",
    ]
    .iter()
    .map(|name| (*name).to_owned())
    .collect();
    assert_eq!(latest_hit_log(&names), Some(1));
    assert_eq!(latest_hit_log(&names[2..4].to_vec()), None);
}

#[test]
fn the_status_is_shortened() {
    assert_eq!(short_status(true, "任意"), "记录中");
    assert_eq!(short_status(false, "未检测到游戏，请查看 Debug"), "未就绪");
    assert_eq!(short_status(false, "已停止"), "已停止");
}

#[test]
fn characters_are_kept_by_number() {
    let rows = vec![
        ("1003".to_owned(), info(Some("first"))),
        ("x".to_owned(), info(None)),
        ("4294967296".to_owned(), info(None)),
        ("+1003".to_owned(), info(Some("second"))),
        ("7".to_owned(), info(None)),
    ];
    let table = load_characters(rows);
    assert_eq!(table.len(), 2);
    assert_eq!(table[&1003].color.as_deref(), Some("second"));
    assert!(table.contains_key(&7));
}
