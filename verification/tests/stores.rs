use nte_dps::abyss::parse_abyss_stage_id;
use nte_dps::bits::PathCandidate;
use nte_dps::capture::decode_payload_text;
use nte_dps::class_hint::ClassHintStore;
use nte_dps::hit_context::{
    hp_handle_keys, is_hp_alias_key, non_hp_alias_keys, replace_or_push_context,
    target_context_value,
};
use nte_dps::import::{import_events, ExportPacket};
use nte_dps::json::Json;
use nte_dps::model::{AbyssHalf, CombatState, EngineEvent, Hit};
use nte_dps::net_identity::{
    extract_net_identity_candidates, NetIdentityCandidate, NetIdentityCandidateKind,
};
use nte_dps::object_state::{
    is_ignored_non_target_path, is_precise_target_path, is_targetish_path, object_key,
    ObjectHandleKind, ObjectStateStore,
};
use nte_dps::parser::PacketDirection;
use nte_dps::resource_index::{
    abyss_pack_target, comment_name, fallback_name_from_path, ResourceIndex, ResourceSources,
    TableSource, TargetDocument, TargetFailure, TargetRow, TargetSource,
};
use nte_dps::runtime_mapping::{
    find_companion_runtime_mapping_sidecar, load_runtime_mapping_sidecar,
    parse_runtime_mapping_events, RuntimeMappingAction, RuntimeMappingError, RuntimeMappingEvent,
    RuntimeMappingTimeline,
};
use nte_dps::scene::{detect_scenes, SceneDefinition, SceneIndex, SceneObservation, SceneState};
use nte_dps::sorting::{best_by_key, sort_by_key};
use nte_dps::target_fact::DamageHitFact;
use nte_dps::target_instance::{
    alias_kind_for_label, RuntimeTargetState, TargetAlias, TargetAliasKind, TargetInstanceStore,
};
use nte_dps::text::{chars_of, comes_before, dec_string, join_strings, trimmed, Class};

const SECOND: i64 = 1_000_000;

fn path(value: &str, score: u16) -> PathCandidate {
    PathCandidate {
        value: value.to_owned(),
        byte_offset: 0,
        bit_shift: 0,
        score,
    }
}

fn boss_resources() -> ResourceIndex {
    let mut resources = ResourceIndex::new();
    resources.insert_test_target("WorldBoss_Boss13", "无首铁驭");
    resources.insert_test_target("WorldBoss_Boss08", "斑蝶");
    resources
}

fn hit(timestamp: i64, before: i64, after: i64, context: &[&str]) -> Hit {
    Hit {
        timestamp,
        char_id: 1,
        char_name: "tester".to_owned(),
        char_known: true,
        damage: before - after,
        byte_offset: 0,
        bit_shift: 0,
        char_source: "test".to_owned(),
        direction: "outgoing".to_owned(),
        target_hp_before: before,
        target_hp_after: after,
        target_max_hp: before,
        target_hp_percent: 0,
        target_id: None,
        target_name: None,
        target_context: context.iter().map(|entry| (*entry).to_owned()).collect(),
        gameplay_effect_index: None,
        gameplay_effect_name: None,
        ability_name: None,
        damage_name: None,
        attack_type: None,
    }
}

// ---------------------------------------------------------------- basic tools

#[test]
fn sorting_is_stable() {
    let items = vec![(3, 'a'), (1, 'b'), (3, 'c'), (2, 'd'), (1, 'e')];
    let sorted: Vec<char> = sort_by_key(items.clone()).into_iter().map(|item| item.1).collect();
    assert_eq!(sorted, vec!['b', 'e', 'd', 'a', 'c']);
    assert_eq!(best_by_key(items, 3), vec!['b', 'e', 'd']);
}

#[test]
fn texts_are_trimmed_joined_and_ordered() {
    let kept = trimmed(&chars_of(" \u{3000}深 渊\n"), Class::Space);
    assert_eq!(kept.into_iter().collect::<String>(), "深 渊");
    assert_eq!(
        join_strings(&vec!["a".to_owned(), "b".to_owned(), "".to_owned()], " | "),
        "a | b | "
    );
    assert!(comes_before(&chars_of("ab"), &chars_of("abc")));
    assert!(comes_before(&chars_of("abc"), &chars_of("b")));
    assert!(!comes_before(&chars_of("b"), &chars_of("b")));
    assert_eq!(dec_string(u64::MAX), "18446744073709551615");
}

#[test]
fn context_values_are_replaced_in_place() {
    let mut context = vec!["a=1".to_owned(), "b=2".to_owned()];
    replace_or_push_context(&mut context, "a", "3");
    assert_eq!(target_context_value(&context, "a").as_deref(), Some("3"));
    assert_eq!(target_context_value(&context, "b").as_deref(), Some("2"));
    assert_eq!(target_context_value(&context, "c"), None);
    assert!(is_hp_alias_key("boss_hp_guid:a"));
    assert!(!is_hp_alias_key("netguid32:0x1"));
}

#[test]
fn aliases_are_split_into_two_classes() {
    let context = vec!["netguid32=0xABC".to_owned(), "boss_hp_guid=DEF".to_owned()];
    let others = non_hp_alias_keys(&None, &context);
    let handles = hp_handle_keys(&None, &context);
    assert!(others.iter().any(|key| key == "netguid32:0xabc"));
    assert!(handles.iter().any(|key| key == "boss_hp_guid:def"));
    assert!(others.iter().all(|key| !is_hp_alias_key(key)));
    assert!(handles.iter().all(|key| is_hp_alias_key(key)));
}

#[test]
fn facts_are_taken_from_hits() {
    let fact = DamageHitFact::from(&hit(5, 3_000, 1_000, &[]));
    assert_eq!(fact.timestamp, 5);
    assert_eq!(fact.hp_before, 3_000);
    assert_eq!(fact.hp_after, 1_000);
}

// ------------------------------------------------------------------- resources

#[test]
fn names_are_found_by_any_form_of_a_path() {
    let resources = boss_resources();
    for form in [
        "WorldBoss_Boss13",
        "worldboss_boss13",
        "WorldBoss_Boss13_C",
        "/Game/Monster/WorldBoss_Boss13.WorldBoss_Boss13_C",
    ] {
        assert_eq!(
            resources.resolved_name_for_path(form).as_deref(),
            Some("无首铁驭"),
            "{form}"
        );
    }
    assert_eq!(resources.resolved_name_for_path("mon_99_BP"), None);
}

#[test]
fn a_name_gives_way_to_a_higher_priority_only() {
    let mut resources = ResourceIndex::new();
    resources.insert("mon_01_BP", "普通", 100);
    resources.insert("mon_01_BP", "更高", 200);
    resources.insert("mon_01_BP", "更低", 150);
    assert_eq!(resources.resolved_name_for_path("mon_01_BP").as_deref(), Some("更高"));
    resources.insert("mon_01_BP", "  ", 250);
    assert_eq!(resources.resolved_name_for_path("mon_01_BP").as_deref(), Some("更高"));
}

#[test]
fn tables_and_warnings_are_loaded() {
    let table = |path: &str, text: Result<&str, &str>| TableSource {
        path: path.to_owned(),
        text: text.map(str::to_owned).map_err(str::to_owned),
    };
    let sources = ResourceSources {
        manual: vec![
            table("broken.json", Ok("{")),
            table("gone.json", Err("denied")),
            table("rowless.json", Ok("[]")),
        ],
        monster_static: Vec::new(),
        pack: Vec::new(),
        collection: Vec::new(),
        targets: vec![
            TargetSource {
                found: Some((
                    "a.json".to_owned(),
                    Ok(TargetDocument::Pairs(vec![(
                        "mon_07_BP".to_owned(),
                        "甲".to_owned(),
                    )])),
                )),
            },
            TargetSource {
                found: Some((
                    "b.json".to_owned(),
                    Ok(TargetDocument::List(vec![TargetRow {
                        class_path: "mon_08_BP".to_owned(),
                        object_path: String::new(),
                        path: " ".to_owned(),
                        name: "乙".to_owned(),
                        display_name: String::new(),
                    }])),
                )),
            },
            TargetSource {
                found: Some((
                    "c.json".to_owned(),
                    Err(TargetFailure::Unreadable("denied".to_owned())),
                )),
            },
        ],
    };
    let mut warnings = Vec::new();
    let resources = ResourceIndex::load_default_with_warnings(&sources, &mut warnings);
    assert_eq!(resources.resolved_name_for_path("mon_07_BP").as_deref(), Some("甲"));
    assert_eq!(resources.resolved_name_for_path("mon_08_BP").as_deref(), Some("乙"));
    assert_eq!(warnings.len(), 5);
    assert!(warnings[0].starts_with("target resource broken.json has unsupported JSON structure: "));
    assert_eq!(warnings[1], "target resource gone.json read failed: denied");
    assert_eq!(warnings[2], "target resource rowless.json has no DataTable Rows object");
    assert_eq!(warnings[3], "target resource c.json read failed: denied");
    assert!(warnings[4].starts_with("target resource index loaded: names_by_path="));
    assert!(warnings[4].ends_with(" canonical_targets_by_path=0 warnings_added=4"));
    assert_eq!(warnings[4], resources.load_summary(4));
}

#[test]
fn absent_files_give_no_warnings() {
    let sources = ResourceSources {
        manual: Vec::new(),
        monster_static: Vec::new(),
        pack: Vec::new(),
        collection: Vec::new(),
        targets: vec![TargetSource { found: None }, TargetSource { found: None }],
    };
    let mut warnings = vec!["earlier".to_owned()];
    let resources = ResourceIndex::load_default_with_warnings(&sources, &mut warnings);
    assert_eq!(warnings, ["earlier"]);
    assert_eq!(resources.resolved_name_for_path("mon_07_BP"), None);
    assert_eq!(resources.canonical_target_path_for_path("mon_07_BP"), None);
    assert_eq!(
        resources.load_summary(0),
        "target resource index loaded: names_by_path=0 canonical_targets_by_path=0 warnings_added=0"
    );
}

#[test]
fn names_are_read_out_of_comments_and_rows() {
    assert_eq!(comment_name("mon_01 - 低语种").as_deref(), Some("低语种"));
    assert_eq!(comment_name("no name here"), None);
    assert!(fallback_name_from_path("/Game/Monster/Boss_A.Boss_A_C").is_some());
    assert_eq!(abyss_pack_target("nothing"), None);
}

#[test]
fn hints_are_kept_and_found_by_time() {
    let mut store = ClassHintStore::default();
    let resources = boss_resources();
    assert!(store
        .observe_path(SECOND, 1, PacketDirection::ServerToClient, "/Game/UI/PlayerBuff", &resources)
        .is_none());
    for index in 0..300 {
        store.observe_path(
            index * SECOND,
            index as usize,
            PacketDirection::ServerToClient,
            "mon_01_BP",
            &resources,
        );
    }
    assert_eq!(store.hints_near(10 * SECOND, SECOND, SECOND).len(), 0);
    assert_eq!(store.hints_near(299 * SECOND, SECOND, SECOND).len(), 2);
    assert_eq!(store.hints_near(150 * SECOND, 1_000 * SECOND, 1_000 * SECOND).len(), 256);
}

// -------------------------------------------------------------------- scenes

fn scene(id: &str, category: &str, priority: u8, token: &str) -> SceneDefinition {
    SceneDefinition {
        id: id.to_owned(),
        display_name: format!("<{id}>"),
        category: category.to_owned(),
        priority,
        tokens: vec![token.to_owned()],
    }
}

#[test]
fn a_text_tells_a_transition_and_the_most_important_scene() {
    let index = SceneIndex::new(vec![
        scene("city", "world", 10, "DataLayer_A"),
        scene("boss", "battle", 90, "DataLayer_B"),
        scene("parking", "transition", 255, "DataLayer_C"),
    ]);
    let found = detect_scenes(
        &index,
        7,
        " DataLayer_A \nDataLayer_B\nDataLayer_C\nDataLayer_B\nDataLayer_X\nOther",
    );
    let ids: Vec<&str> = found.iter().map(|scene| scene.id.as_str()).collect();
    assert_eq!(ids, vec!["parking", "boss"]);
    assert!(found.iter().all(|scene| scene.timestamp == 7));
    assert!(detect_scenes(&index, 7, "nothing").is_empty());
}

#[test]
fn a_less_important_scene_waits_for_the_hold() {
    let observation = |timestamp: i64, id: &str, priority: u8| SceneObservation {
        timestamp,
        id: id.to_owned(),
        display_name: id.to_owned(),
        category: "world".to_owned(),
        priority,
    };
    let mut state = SceneState::default();
    state.apply(observation(0, "a", 50));
    state.apply(observation(29 * SECOND, "b", 40));
    assert_eq!(state.display_name(), "a");
    state.apply(observation(29 * SECOND, "c", 60));
    assert_eq!(state.display_name(), "c");
}

// ----------------------------------------------------------- runtime mappings

#[test]
fn mappings_are_taken_when_they_are_due() {
    let event = |timestamp: i64| RuntimeMappingEvent {
        timestamp,
        action: RuntimeMappingAction::Destroy,
        object_path: None,
        class_path: None,
        target_name: None,
        aliases: Vec::new(),
    };
    let mut timeline =
        RuntimeMappingTimeline::new(vec![event(5 * SECOND), event(SECOND), event(3 * SECOND)]);
    assert_eq!(timeline.len(), 3);
    let due: Vec<i64> = timeline.pop_due(3 * SECOND).iter().map(|e| e.timestamp).collect();
    assert_eq!(due, vec![SECOND, 3 * SECOND]);
    assert!(timeline.pop_due(4 * SECOND).is_empty());
    let rest: Vec<i64> = timeline.pop_all().iter().map(|e| e.timestamp).collect();
    assert_eq!(rest, vec![5 * SECOND]);
    assert_eq!(timeline.len(), 0);
}

#[test]
fn absolute_times_are_left_alone() {
    let text = r#"{"time":1718000000.5,"event":"destroy","path":"mon_01_BP"}"#;
    let mut timeline = load_runtime_mapping_sidecar(text).unwrap();
    timeline.align_to_packet_time(1_718_000_100 * SECOND);
    assert!(timeline.pop_due(1_718_000_000 * SECOND).is_empty());
    assert_eq!(timeline.pop_due(1_718_000_001 * SECOND).len(), 1);
    assert!(load_runtime_mapping_sidecar("nonsense").is_err());
}

#[test]
fn times_that_never_come_are_never_due() {
    let line = |time: &str, path: &str| format!("{{\"time\":{time},\"path\":\"{path}\"}}\n");
    let late = 9_000_000 * SECOND;

    let text = line("\"nan\"", "mon_01_BP") + &line("2", "mon_02_BP") + &line("\"inf\"", "mon_03_BP");
    let mut timeline = load_runtime_mapping_sidecar(&text).unwrap();
    let due = timeline.pop_due(late);
    assert_eq!(due.len(), 1);
    assert_eq!(due[0].timestamp, 2 * SECOND);
    assert_eq!(timeline.pop_all().len(), 2);

    let text = line("\"-nan\"", "mon_01_BP") + &line("2", "mon_02_BP");
    let mut timeline = load_runtime_mapping_sidecar(&text).unwrap();
    assert!(timeline.pop_due(late).is_empty());
    timeline.align_to_packet_time(1_718_000_000 * SECOND);
    assert!(timeline.pop_due(1_800_000_000 * SECOND).is_empty());
    assert_eq!(timeline.pop_all().len(), 2);

    let text = line("\"-inf\"", "mon_01_BP") + &line("2", "mon_02_BP");
    let mut timeline = load_runtime_mapping_sidecar(&text).unwrap();
    timeline.align_to_packet_time(1_718_000_000 * SECOND);
    assert!(timeline.pop_due(1_800_000_000 * SECOND).is_empty());
    assert_eq!(timeline.pop_all().len(), 2);
}

#[test]
fn faulty_mapping_lines_tell_their_cause() {
    let text = "{\"time\":1,\"path\":\"mon_01_BP\"}\n{\"path\":\"mon_01_BP\"}\n";
    match parse_runtime_mapping_events(text) {
        Err(RuntimeMappingError::NotAnEvent { line, cause }) => {
            assert_eq!(line, 2);
            assert_eq!(cause, "event is missing timestamp/time/ts");
        }
        _ => panic!("the second line is no event"),
    }
    match parse_runtime_mapping_events("{\"time\":1,\"path\":\"mon_01_BP\"}\n[broken") {
        Err(RuntimeMappingError::InvalidLine { line, error, cause }) => {
            assert_eq!(line, 2);
            assert_ne!(error, "");
            assert_ne!(cause, error);
        }
        _ => panic!("the second line is no document"),
    }
}

#[test]
fn faulty_mapping_lines_are_told_by_number() {
    let text = "{\"time\":1,\"event\":\"open\",\"netguid32\":\"1\"}\n\n[broken";
    let error = parse_runtime_mapping_events(text).unwrap_err();
    assert!(error.message().contains('3'), "{}", error.message());
    assert!(parse_runtime_mapping_events("[]").unwrap().is_empty());
}

#[test]
fn the_first_present_sidecar_is_taken() {
    let files = vec!["run.mapping.json".to_owned(), "run.runtime.jsonl".to_owned()];
    assert_eq!(
        find_companion_runtime_mapping_sidecar(Some("run"), Some("run.pcapng"), &files).as_deref(),
        Some("run.runtime.jsonl")
    );
    assert_eq!(
        find_companion_runtime_mapping_sidecar(
            Some("run"),
            Some("run.pcapng"),
            &vec!["run.pcapng.sidecar.json".to_owned()]
        )
        .as_deref(),
        Some("run.pcapng.sidecar.json")
    );
    assert_eq!(
        find_companion_runtime_mapping_sidecar(None, None, &files),
        None
    );
}

// -------------------------------------------------------------------- objects

#[test]
fn paths_are_classed() {
    assert!(is_targetish_path("WorldBoss_Boss13"));
    assert!(is_targetish_path("/Game/Blueprints/Character/Monster/boss_13/boss_13_BP.boss_13_BP_C"));
    assert!(!is_targetish_path("/Game/UI/Widget"));
    assert!(!is_precise_target_path("WorldBoss_Boss13"));
    assert!(is_precise_target_path("boss_13_BP"));
    assert!(!is_ignored_non_target_path("WorldBoss_Boss13"));
    assert_eq!(
        object_key(ObjectHandleKind::AttributeGuid, "0a"),
        "AttributeGuid:0a"
    );
}

#[test]
fn hit_points_are_linked_to_the_only_boss_in_sight() {
    let resources = boss_resources();
    let mut store = ObjectStateStore::new();
    store.observe_path_candidate(SECOND, &path("WorldBoss_Boss13", 240), &resources);
    let key = store.observe_hp_guid_update(
        SECOND + 100_000,
        &[0xab; 16],
        900_000_000,
        None,
        "seen".to_owned(),
    );
    assert_eq!(key, format!("AttributeGuid:{}", "ab".repeat(16)));
    store.link_unique_active_boss_hp_handle_to_path(
        SECOND + 200_000,
        "WorldBoss_Boss13",
        &resources,
        "linked".to_owned(),
    );
    let candidates = store.candidates_for_damage(SECOND + 300_000);
    assert!(candidates
        .iter()
        .any(|object| object.handle_kind == ObjectHandleKind::AttributeGuid
            && object.display_name.as_deref() == Some("无首铁驭")));
}

#[test]
fn objects_are_forgotten_in_time() {
    let resources = boss_resources();
    let mut store = ObjectStateStore::new();
    store.observe_path_candidate(SECOND, &path("WorldBoss_Boss13", 240), &resources);
    assert_eq!(store.len(), 1);
    store.cleanup(10 * SECOND);
    assert_eq!(store.len(), 1);
    store.cleanup(30 * SECOND);
    assert_eq!(store.len(), 0);
}

#[test]
fn dead_objects_are_told() {
    let resources = boss_resources();
    let mut store = ObjectStateStore::new();
    store.observe_path_handle_candidate(
        SECOND,
        ObjectHandleKind::AttributeGuid,
        "cd".repeat(16),
        "WorldBoss_Boss13",
        &resources,
        "seen".to_owned(),
        90,
    );
    store.observe_hp_guid_update(SECOND, &[0xcd; 16], 5_000_000, None, "alive".to_owned());
    assert!(!store.path_recently_died("WorldBoss_Boss13", SECOND, SECOND));
    store.observe_hp_guid_update(2 * SECOND, &[0xcd; 16], 0, None, "dead".to_owned());
    assert!(store.path_recently_died("WorldBoss_Boss13", 2 * SECOND, SECOND));
    assert!(!store.path_recently_died("WorldBoss_Boss13", 9 * SECOND, SECOND));
}

// ------------------------------------------------------------------ identities

#[test]
fn identities_stand_beside_paths() {
    let mut data = vec![0_u8; 8];
    data[0..4].copy_from_slice(&0x1234_5678_u32.to_le_bytes());
    data.extend(b"WorldBoss_Boss13\0");
    let anchor = PathCandidate {
        value: "WorldBoss_Boss13".to_owned(),
        byte_offset: 8,
        bit_shift: 0,
        score: 240,
    };
    let found = extract_net_identity_candidates(&data, &[anchor]);
    assert!(found.len() <= 4);
    assert!(found.iter().all(|candidate| candidate.score >= 40));
    assert!(found
        .windows(2)
        .all(|pair| pair[0].score >= pair[1].score));
    assert!(extract_net_identity_candidates(&data, &[]).is_empty());
}

#[test]
fn words_before_a_length_are_identities() {
    let mut data = Vec::new();
    data.extend(0x1234_5678_u32.to_le_bytes());
    data.extend(0x01ab_cdef_u32.to_le_bytes());
    data.extend(17_u32.to_le_bytes());
    data.extend(b"WorldBoss_Boss13\0");
    let anchor = PathCandidate {
        value: "WorldBoss_Boss13".to_owned(),
        byte_offset: 12,
        bit_shift: 0,
        score: 240,
    };
    let found = extract_net_identity_candidates(&data, &[anchor]);
    assert_eq!(found.len(), 3);
    assert_eq!(found[0].kind, NetIdentityCandidateKind::NetGuid32);
    assert_eq!(found[0].handle, "0x01abcdef");
    assert_eq!(found[0].raw_hex, "efcdab01");
    assert_eq!((found[0].byte_offset, found[0].relative_offset, found[0].score), (4, -8, 82));
    assert_eq!(found[1].kind, NetIdentityCandidateKind::IrisNetRefHandle32);
    assert_eq!(found[1].handle, "0x12345678");
    assert_eq!((found[1].byte_offset, found[1].relative_offset, found[1].score), (0, -12, 72));
    assert_eq!(found[2].kind, NetIdentityCandidateKind::NetGuidPacked);
    assert_eq!(found[2].handle, "0xab");
    assert_eq!(found[2].raw_hex, "ab01");
    assert_eq!((found[2].byte_offset, found[2].relative_offset, found[2].score), (6, -6, 40));
    assert!(found.iter().all(|candidate| candidate.path == "WorldBoss_Boss13"));
}

// ------------------------------------------------------------------- instances

#[test]
fn aliases_are_normalized() {
    let alias = TargetAlias::new(TargetAliasKind::NetGuid32, " 0xABC ");
    assert_eq!(alias.key(), "netguid32:0xabc");
    assert_eq!(TargetAliasKind::BossHpGuid.label(), "boss_hp_guid");
    assert_eq!(alias_kind_for_label("iris_ref32"), Some(TargetAliasKind::IrisRef32));
    assert_eq!(alias_kind_for_label("nothing"), None);
}

#[test]
fn an_instance_lives_and_dies_by_its_aliases() {
    let mut store = TargetInstanceStore::default();
    let alias = TargetAlias::new(TargetAliasKind::NetGuid32, "0x1");
    let id = store.observe_runtime_mapping(
        SECOND,
        "WorldBoss_Boss13".to_owned(),
        "无首铁驭".to_owned(),
        vec![TargetAlias::new(TargetAliasKind::NetGuid32, "0x1")],
    );
    assert_eq!(store.len(), 1);
    assert_eq!(store.instance_for_alias(&alias).unwrap().instance_id, id);
    let found = store
        .resolve_hit(&hit(2 * SECOND, 9_000, 8_000, &["netguid32=0x1"]))
        .unwrap();
    assert_eq!(found.instance_id, id);
    assert_eq!(found.target_name, "无首铁驭");
    assert_eq!(store.close_alias(3 * SECOND, &alias, true).as_deref(), Some(id.as_str()));
    assert!(store.instance_for_alias(&alias).is_none());
    assert!(store
        .resolve_hit(&hit(4 * SECOND, 9_000, 8_000, &["netguid32=0x1"]))
        .is_none());
}

#[test]
fn sightings_with_identities_become_instances() {
    let resources = boss_resources();
    let mut store = TargetInstanceStore::new();
    let identity = NetIdentityCandidate {
        kind: NetIdentityCandidateKind::NetGuid32,
        handle: "0x12345678".to_owned(),
        path: "WorldBoss_Boss13".to_owned(),
        byte_offset: 0,
        bit_shift: 0,
        relative_offset: 0,
        raw_hex: "78563412".to_owned(),
        score: 90,
    };
    let seen = store.observe_paths(SECOND, &[path("WorldBoss_Boss13", 240)], &[identity], &resources);
    assert_eq!(seen.len(), 1);
    let id = seen[0].strip_prefix("runtime_target_instance=").unwrap();
    let instance = store.instance(id).unwrap();
    assert_eq!(instance.target_name, "无首铁驭");
    assert_eq!(instance.state, RuntimeTargetState::Active);
    let path = instance.canonical_path.clone();
    store.expire_path(2 * SECOND, &path);
    assert_eq!(store.instance(id).unwrap().state, RuntimeTargetState::Expired);
}

#[test]
fn the_dead_lose_their_handles() {
    let mut store = TargetInstanceStore::new();
    let handle = TargetAlias::new(TargetAliasKind::BossHpGuid, &"ab".repeat(16));
    let id = store.observe_runtime_mapping(
        SECOND,
        "WorldBoss_Boss13".to_owned(),
        "无首铁驭".to_owned(),
        Vec::new(),
    );
    let linked = store.observe_boss_hp_guid(2 * SECOND, &[0xab; 16], 5_000_000, "x".to_owned());
    assert_eq!(linked.as_deref(), Some(store.instance_for_alias(&handle).unwrap().instance_id.as_str()));
    assert!(store.instance(&id).is_some() || linked.is_some());
    store.observe_boss_hp_guid(3 * SECOND, &[0xab; 16], 0, "x".to_owned());
    assert!(store.instance_for_alias(&handle).is_none());
}

#[test]
fn tokens_lead_to_instances() {
    let mut store = TargetInstanceStore::new();
    store.observe_runtime_mapping(
        SECOND,
        "WorldBoss_Boss13".to_owned(),
        "无首铁驭".to_owned(),
        Vec::new(),
    );
    let by_token = store.observe_current_hp_token(2 * SECOND, &[1, 2], 5_000_000, "x".to_owned());
    let alias = TargetAlias::new(TargetAliasKind::CurrentHpToken, "0102");
    assert_eq!(
        by_token.as_deref(),
        store.instance_for_alias(&alias).map(|instance| instance.instance_id.as_str())
    );
    let again = store.observe_sdk_net_target(3 * SECOND, &[3], 4_000_000, "x".to_owned());
    let sdk = TargetAlias::new(TargetAliasKind::SdkNetTarget, "03");
    assert_eq!(
        again.as_deref(),
        store.instance_for_alias(&sdk).map(|instance| instance.instance_id.as_str())
    );
}

#[test]
fn handles_are_noted_and_cleared() {
    let resources = boss_resources();
    let mut store = ObjectStateStore::new();
    let key = store.observe_possible_handle(
        SECOND,
        ObjectHandleKind::NetGuidCandidate,
        "0x1".to_owned(),
        "seen".to_owned(),
    );
    assert_eq!(key, "NetGuidCandidate:0x1");
    assert_eq!(store.objects_near_time(SECOND, SECOND).len(), 1);
    assert!(store.objects_near_time(9 * SECOND, SECOND).is_empty());
    store.observe_path_handle_candidate(
        SECOND,
        ObjectHandleKind::NetGuidCandidate,
        "0x1".to_owned(),
        "WorldBoss_Boss13",
        &resources,
        "linked".to_owned(),
        90,
    );
    assert!(store.objects_near_time(SECOND, SECOND)[0].object_path.is_some());
    assert!(store.clear_handle_identity(
        2 * SECOND,
        ObjectHandleKind::NetGuidCandidate,
        "0x1",
        "closed".to_owned()
    ));
    assert!(store.objects_near_time(2 * SECOND, SECOND)[0].object_path.is_none());
    assert!(!store.clear_handle_identity(
        2 * SECOND,
        ObjectHandleKind::NetGuidCandidate,
        "0x2",
        "closed".to_owned()
    ));
    let target = store.observe_net_target_hp_update(
        3 * SECOND,
        "sdk_target",
        &[0xff],
        7_000_000,
        None,
        "hp".to_owned(),
    );
    assert_eq!(target, "NetRefHandleCandidate:sdk_target:ff");
}

#[test]
fn stages_are_read_from_their_names() {
    assert_eq!(parse_abyss_stage_id("Abyss_2_12_0"), Some((12, AbyssHalf::First)));
    assert_eq!(parse_abyss_stage_id("Abyss_2_12_1"), Some((12, AbyssHalf::Second)));
    assert_eq!(parse_abyss_stage_id("Abyss_2_12_2"), None);
    assert_eq!(parse_abyss_stage_id("Abyss_2_x_0"), None);
    assert_eq!(parse_abyss_stage_id("Abyss_2_12"), None);
}

#[test]
fn the_total_is_the_sum_of_the_rows() {
    let mut state = CombatState::new();
    for (id, damage) in [(1, 5_000), (2, 7_500), (1, 250)] {
        let mut dealt = hit(SECOND, 9_000_000, 8_000_000, &[]);
        dealt.char_id = id;
        dealt.damage = damage;
        state.push_hit(dealt);
    }
    assert_eq!(state.total_damage, 12_750);
    assert_eq!(
        state.stats.values().map(|row| row.damage).sum::<i64>(),
        state.total_damage
    );
}

#[test]
fn effects_are_named_by_the_monster_in_them() {
    let mut resources = ResourceIndex::new();
    resources.insert_test_target("mon_07_BP", "甲");
    assert_eq!(
        resources.resolved_name_for_gameplay_effect("GE_mon_7_Attack").as_deref(),
        Some("甲")
    );
    assert_eq!(resources.resolved_name_for_gameplay_effect("GE_Player_Heal"), None);
    assert_eq!(resources.canonical_target_path_for_gameplay_effect("GE_Player_Heal"), None);
}

#[test]
fn exported_payloads_are_read_again() {
    let text = b"FAbyssGamePlayData\0Abyss_2_12_0\0";
    let packet = ExportPacket {
        timestamp: 0,
        source: String::new(),
        destination: String::new(),
        direction: String::new(),
        payload_len: text.len(),
        declared_ids: Json::Text("[7, 1010]".to_owned()),
        parsed_hits: 0,
        note: String::new(),
        payload_preview: String::new(),
        payload_hex: hex::encode(text).to_uppercase(),
        decoded_text: "stale".to_owned(),
    };
    let (events, listed) = import_events(vec![packet], Vec::new());
    assert_eq!(listed, 1);
    assert!(events.iter().any(|event| matches!(event, EngineEvent::Packet(packet)
        if packet.declared_ids == vec![7, 1010]
            && packet.decoded_text == decode_payload_text(text))));
}
