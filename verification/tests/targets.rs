use nte_dps::advvision_index::AdvVisionIndex;
use nte_dps::bits::PathCandidate;
use nte_dps::class_hint::{canonicalize_class_hint, ClassHintStore};
use nte_dps::float::F32;
use nte_dps::model::{CombatState, Hit};
use nte_dps::net_event::{
    extract_net_runtime_events, markers_for_text, NetRuntimeAction, NetRuntimeEventKind,
    NetRuntimeScanOptions,
};
use nte_dps::net_identity::{NetIdentityCandidate, NetIdentityCandidateKind};
use nte_dps::parser::PacketDirection;
use nte_dps::resource_index::ResourceIndex;
use nte_dps::runtime_mapping::{
    parse_runtime_mapping_events, RuntimeMappingAction, RuntimeMappingEvent,
    RuntimeMappingTimeline,
};
use nte_dps::scene::{detect_scene, SceneDefinition, SceneIndex, SceneObservation, SceneState};
use nte_dps::target_identity::{
    canonical_target_key_for_path, is_boss_target_key, is_small_monster_target_key,
};
use nte_dps::target_instance::TargetAliasKind;

#[test]
fn advvision_mammon_resolves_target_description_name() {
    let resources = ResourceIndex::new();
    let tables = vec![r#"[{"Rows": {"AdvVision_Mammon": {
        "VisionName": {"LocalizedString": "玛门"},
        "SceneDataIds": [{"Key": "3", "Value": "AdvVision_Mammon_3"}],
        "TargetDescriptions": [{"Key": "3", "Value": {"LocalizedString": "击败「玛门」"}}]
    }}}]"#
        .to_owned()];
    let mut index = AdvVisionIndex::load_default(&resources, &tables);
    index.insert_monster_name_path_for_test("玛门", "Boss_017_BP_Abyss");

    let target = index
        .resolve_scene("AdvVision_Mammon", "3")
        .expect("mammon stage 3");

    assert_eq!(target.advvision_id, "AdvVision_Mammon");
    assert_eq!(target.scene_id, "AdvVision_Mammon_3");
    assert_eq!(target.target_name, "玛门");
    assert_eq!(target.target_path.as_deref(), Some("Boss_017_BP_Abyss"));
}

#[test]
fn class_hint_normalizes_monster_variants() {
    assert_eq!(
        canonicalize_class_hint("mon_35_BP_Blue_Abyss_C_2146429087").as_deref(),
        Some("mon_35_BP_Blue_Abyss")
    );
    assert_eq!(
        canonicalize_class_hint("/Game/Monster/Boss_017_BP_Abyss.Boss_017_BP_Abyss_C").as_deref(),
        Some("Boss_017_BP_Abyss")
    );
    assert_eq!(
        canonicalize_class_hint("/Game/UI/PlayerBuff").as_deref(),
        None
    );
}

#[test]
fn class_hint_resolves_target_name_from_data_table() {
    let mut resources = ResourceIndex::new();
    resources.insert_test_target("mon_01_BP", "低语种");
    let mut store = ClassHintStore::default();
    let hint = store
        .observe_path(
            1_000_000,
            1,
            PacketDirection::ServerToClient,
            "mon_01_BP",
            &resources,
        )
        .expect("hint");

    assert_eq!(hint.canonical_class, "mon_01_BP");
    assert_eq!(hint.target_name.as_deref(), Some("低语种"));
}

fn model_hit(timestamp: i64, before: i64, damage: i64, max_hp: i64) -> Hit {
    Hit {
        timestamp,
        char_id: 1,
        char_name: "测试角色".to_owned(),
        char_known: true,
        damage,
        byte_offset: 0,
        bit_shift: 0,
        char_source: "test".to_owned(),
        direction: "outgoing".to_owned(),
        target_hp_before: before,
        target_hp_after: before - damage,
        target_max_hp: max_hp,
        target_hp_percent: (before - damage) * 100_000 / max_hp,
        target_id: None,
        target_name: None,
        target_context: Vec::new(),
        gameplay_effect_index: None,
        gameplay_effect_name: None,
        ability_name: None,
        damage_name: None,
        attack_type: None,
    }
}

#[test]
fn leaves_target_empty_without_explicit_packet_identity() {
    let mut state = CombatState::default();
    state.push_hit(model_hit(1_000_000, 1_000_000, 200_000, 1_000_000));

    assert!(state.hits[0].target_id.is_none());
    assert!(state.hits[0].target_name.is_none());
}

#[test]
fn calculates_character_dps_from_its_own_active_window() {
    let mut state = CombatState::default();
    state.push_hit(model_hit(10_000_000, 1_000_000, 100_000, 1_000_000));
    state.push_hit(model_hit(12_000_000, 900_000, 100_000, 1_000_000));

    let stats = &state.stats[&1];
    assert_eq!(stats.duration(), 2_000_000);
    assert_eq!(stats.dps(), 100_000);
}

#[test]
fn markers_are_found_in_any_case_and_any_part() {
    let told = |text: &str| -> Vec<(NetRuntimeEventKind, NetRuntimeAction, String, usize, u8, u16)> {
        markers_for_text(text, 7, 3)
            .into_iter()
            .map(|m| (m.kind, m.action, m.text, m.byte_offset, m.bit_shift, m.score))
            .collect()
    };
    let destroyed = (
        NetRuntimeEventKind::ObjectLifecycle,
        NetRuntimeAction::Destroy,
        "Destroyed".to_owned(),
        7,
        3,
        82,
    );
    let destroy = (
        NetRuntimeEventKind::ObjectLifecycle,
        NetRuntimeAction::Destroy,
        "Destroy".to_owned(),
        7,
        3,
        74,
    );
    assert_eq!(told("a destroyed thing"), [destroyed.clone(), destroy.clone()]);
    assert_eq!(told("A DESTROYED THING"), [destroyed, destroy.clone()]);
    assert_eq!(told("destroy"), [destroy]);
    let texts: Vec<String> = markers_for_text("xNETGUIDx", 0, 0).into_iter().map(|m| m.text).collect();
    assert_eq!(texts, ["NetGUID", "NetGuid"]);
    assert!(markers_for_text("nothing", 0, 0).is_empty());
}

fn path(value: &str, byte_offset: usize, bit_shift: u8) -> PathCandidate {
    PathCandidate {
        value: value.to_owned(),
        byte_offset,
        bit_shift,
        score: 240,
    }
}

fn identity(kind: NetIdentityCandidateKind, path: &str, handle: &str) -> NetIdentityCandidate {
    NetIdentityCandidate {
        kind,
        handle: handle.to_owned(),
        path: path.to_owned(),
        byte_offset: 12,
        bit_shift: 0,
        relative_offset: -8,
        raw_hex: "78563412".to_owned(),
        score: 90,
    }
}

#[test]
fn builds_package_map_events_from_net_identities() {
    let events = extract_net_runtime_events(
        &[],
        &[],
        &[identity(
            NetIdentityCandidateKind::NetGuid32,
            "WorldBoss_Boss33",
            "0x12345678",
        )],
        None,
        None,
        NetRuntimeScanOptions::default(),
    );

    assert_eq!(events.len(), 1);
    assert_eq!(events[0].kind, NetRuntimeEventKind::PackageMapExport);
    assert_eq!(events[0].aliases[0].kind, TargetAliasKind::NetGuid32);
}

#[test]
fn detects_lifecycle_text_near_target_path() {
    let payload = b"SpawnActor WorldBoss_Boss33";
    let events = extract_net_runtime_events(
        payload,
        &[path("WorldBoss_Boss33", 11, 0)],
        &[],
        None,
        None,
        NetRuntimeScanOptions {
            include_text_markers: true,
            include_sdk_target_data: false,
        },
    );

    assert!(events.iter().any(|event| {
        event.kind == NetRuntimeEventKind::ObjectLifecycle
            && event.action == NetRuntimeAction::Spawn
            && event.path.as_deref() == Some("WorldBoss_Boss33")
    }));
}

#[test]
fn detects_sdk_target_hp_data() {
    let mut token = [0_u8; 0x28];
    for (index, byte) in token.iter_mut().enumerate() {
        *byte = (index as u8).wrapping_add(1);
    }
    let mut payload = Vec::new();
    payload.extend(token);
    payload.extend(1234.0_f32.to_le_bytes());
    payload.extend(0_i32.to_le_bytes());

    let events = extract_net_runtime_events(
        &payload,
        &[],
        &[],
        None,
        None,
        NetRuntimeScanOptions {
            include_text_markers: false,
            include_sdk_target_data: true,
        },
    );

    assert!(events.iter().any(|event| {
        event.kind == NetRuntimeEventKind::SdkTargetData
            && event.current_hp == Some(F32 { bits: 1234.0_f32.to_bits() })
            && event.aliases[0].kind == TargetAliasKind::SdkNetTarget
    }));
}

#[test]
fn parses_jsonl_runtime_mapping_events() {
    let text = r#"{"time":1.0,"event":"actor_channel_open","connection":"GameNetDriver","channel":42,"netguid32":"0x40A54CD0","iris_ref32":748166873,"path":"WorldBoss_Boss33","target_name":"测试目标"}
{"time":2.0,"event":"actor_channel_close","connection":"GameNetDriver","channel":42}"#;

    let events = parse_runtime_mapping_events(text).unwrap();

    assert_eq!(events.len(), 2);
    assert_eq!(events[0].action, RuntimeMappingAction::Mapping);
    assert_eq!(events[1].action, RuntimeMappingAction::Close);
    assert!(events[0]
        .aliases
        .iter()
        .any(|alias| alias.key() == "netguid32:0x40a54cd0"));
    assert!(events[0]
        .aliases
        .iter()
        .any(|alias| alias.key() == "iris_ref32:0x2c981ed9"));
    assert!(events[0]
        .aliases
        .iter()
        .any(|alias| alias.key() == "actor_channel:gamenetdriver:42"));
}

#[test]
fn aligns_relative_sidecar_time_to_first_packet_time() {
    let event = RuntimeMappingEvent {
        timestamp: 1_000_000,
        action: RuntimeMappingAction::Mapping,
        object_path: Some("mon_01_BP".to_owned()),
        class_path: None,
        target_name: Some("低语种".to_owned()),
        aliases: Vec::new(),
    };
    let mut timeline = RuntimeMappingTimeline::new(vec![event]);

    timeline.align_to_packet_time(1_718_000_000_000_000);
    assert!(timeline.pop_due(1_718_000_000_000_000).len() == 1);
}

fn scene_index() -> SceneIndex {
    SceneIndex::new(vec![SceneDefinition {
        id: "Abyss".to_owned(),
        display_name: "深渊".to_owned(),
        category: "battle".to_owned(),
        priority: 100,
        tokens: vec!["DataLayer_9FBCFE1E49B3D2C6196E538050975D52".to_owned()],
    }])
}

#[test]
fn detects_data_layer() {
    let scene = detect_scene(
        &scene_index(),
        1_000_000,
        "DataLayer_9FBCFE1E49B3D2C6196E538050975D52",
    )
    .expect("abyss layer should be known");
    assert_eq!(scene.display_name, "深渊");
    assert_eq!(scene.id, "Abyss");
}

#[test]
fn ignores_generated_cell_from_full_path() {
    assert!(detect_scene(
        &scene_index(),
        1_000_000,
        "/Game/Maps/Map_bigworld/XL_map_bigworld_test/_Generated_/1CXIHESV8420RGID5HW15E9GO",
    )
    .is_none());
}

fn observation(timestamp: i64, id: &str, name: &str, category: &str, priority: u8) -> SceneObservation {
    SceneObservation {
        timestamp,
        id: id.to_owned(),
        display_name: name.to_owned(),
        category: category.to_owned(),
        priority,
    }
}

#[test]
fn lower_priority_scene_does_not_immediately_replace_combat_scene() {
    let mut state = SceneState::default();
    state.apply(observation(1_000_000, "battle", "战斗", "battle", 100));
    state.apply(observation(2_000_000, "activity", "活动", "anomaly", 80));
    assert_eq!(state.display_name(), "战斗");

    state.apply(observation(32_000_000, "activity", "活动", "anomaly", 80));
    assert_eq!(state.display_name(), "活动");
}

#[test]
fn transition_layer_clears_previous_scene() {
    let mut state = SceneState::default();
    state.apply(observation(1_000_000, "battle", "战斗", "battle", 100));
    state.apply(observation(2_000_000, "parking", "场景切换中", "transition", 255));
    assert_eq!(state.display_name(), "战斗");
    state.apply(observation(2_100_000, "activity", "活动", "anomaly", 80));
    assert_eq!(state.display_name(), "活动");
}

#[test]
fn canonical_keys_have_themselves_as_keys() {
    for path in ["WorldBoss_Boss13", "mon_7", "boss_4294967295", "Default__mon023_C", "WeeklyClone_Boss0"] {
        let key = canonical_target_key_for_path(path).unwrap();
        assert_eq!(canonical_target_key_for_path(&key).unwrap(), key);
        assert_ne!(is_boss_target_key(&key), is_small_monster_target_key(&key));
    }
    assert_eq!(canonical_target_key_for_path("mon_7").unwrap(), "monster:mon_07");
}

#[test]
fn worldboss_alias_and_ue_class_path_same_canonical_key() {
    let worldboss = canonical_target_key_for_path("WorldBoss_Boss13");
    let class_path = canonical_target_key_for_path(
        "/Game/Blueprints/Character/Monster/boss_13/boss_13_BP.boss_13_BP_C",
    );
    let instance_path = canonical_target_key_for_path(
        "/Game/Blueprints/Character/Monster/boss_13/boss_13_BP.boss_13_BP_C_2147482486",
    );
    assert_eq!(worldboss.as_deref(), Some("monster:boss_13"));
    assert_eq!(worldboss, class_path);
    assert_eq!(worldboss, instance_path);
    assert_eq!(
        canonical_target_key_for_path("WorldBoss_Boss08").as_deref(),
        Some("monster:boss_08")
    );
    assert_eq!(
        canonical_target_key_for_path("boss_08_BP").as_deref(),
        Some("monster:boss_08")
    );
    assert!(is_boss_target_key("monster:boss_08"));
    assert!(!is_small_monster_target_key("monster:boss_08"));
    assert!(is_small_monster_target_key("monster:mon_01"));
    assert!(!is_boss_target_key("monster:mon_01"));
}
