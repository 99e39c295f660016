use nte_dps::hit_context::target_context_value;
use nte_dps::model::Hit;
use nte_dps::target_resolver::{TargetConfidence, TargetResolutionSummary};
use nte_dps::target_track::{TargetLifecycle, TargetTrackId, TargetTrackStore, TrackPacketContext};

fn micros(seconds: f64) -> i64 {
    (seconds * 1_000_000.0).round() as i64
}

fn points(value: f64) -> i64 {
    (value * 1_000.0).round() as i64
}

fn hit(timestamp: f64, before: f64, after: f64, max: f64) -> Hit {
    Hit {
        timestamp: micros(timestamp),
        char_id: 1,
        char_name: "tester".to_owned(),
        char_known: true,
        damage: points((before - after).abs().max(1.0)),
        byte_offset: timestamp as usize,
        bit_shift: 0,
        char_source: "test".to_owned(),
        direction: "outgoing".to_owned(),
        target_hp_before: points(before),
        target_hp_after: points(after),
        target_max_hp: points(max),
        target_hp_percent: points(after / max.max(1.0) * 100.0),
        target_id: None,
        target_name: None,
        target_context: Vec::new(),
        gameplay_effect_index: None,
        gameplay_effect_name: None,
        ability_name: None,
        damage_name: None,
        attack_type: None,
    }
}

fn named_hit(
    timestamp: f64,
    before: f64,
    after: f64,
    name: &str,
    path: &str,
    hp_handle: &str,
) -> (Hit, TargetResolutionSummary) {
    let mut hit = hit(timestamp, before, after, before.max(after).max(1.0));
    hit.target_name = Some(name.to_owned());
    hit.target_context = vec![
        format!("target_path={path}"),
        format!("target_name={name}"),
        "target_name_resolution=table_resolved".to_owned(),
        "reason=hp_guid_timeline_match:test".to_owned(),
        format!("boss_hp_guid={hp_handle}"),
    ];
    let summary = TargetResolutionSummary {
        target_id: hit.target_id.clone(),
        target_name: hit.target_name.clone(),
        target_context: hit.target_context.clone(),
        score: 120,
        confidence: TargetConfidence::Confirmed,
        direct_hp_evidence: true,
    };
    (hit, summary)
}

#[test]
fn death_terminal_hit_keeps_target_name_before_track_closes() {
    let mut store = TargetTrackStore::default();
    let (mut first, mut first_summary) = named_hit(
        1.0,
        1000.0,
        100.0,
        "斑蝶",
        "/Game/Monster/Boss_Butterfly.Boss_Butterfly_C",
        "aaa",
    );
    store.attribute_damage_hit(
        &mut first,
        &mut first_summary,
        TrackPacketContext::default(),
    );

    let mut death = hit(1.5, 100.0, 0.0, 1000.0);
    let mut death_summary = TargetResolutionSummary::default();
    let result = store.attribute_damage_hit(
        &mut death,
        &mut death_summary,
        TrackPacketContext::default(),
    );

    assert_eq!(death.target_name.as_deref(), Some("斑蝶"));
    assert!(result.target_track_id.is_some());
    assert_eq!(
        store
            .track(result.target_track_id.as_ref().expect("track"))
            .expect("stored track")
            .lifecycle,
        TargetLifecycle::Dead
    );
}

#[test]
fn single_boss_hp_stream_inherits_after_first_safe_identification() {
    let mut store = TargetTrackStore::default();
    let (mut first, mut first_summary) = named_hit(
        1.0,
        1_374_729.0,
        1_368_969.0,
        "无首铁驭",
        "/Game/Monster/Boss_Headless.Boss_Headless_C",
        "aaa",
    );
    store.attribute_damage_hit(
        &mut first,
        &mut first_summary,
        TrackPacketContext::default(),
    );

    for (timestamp, before, after, max) in [
        (1.2, 1_368_969.0, 1_368_056.0, 1_685_262.0),
        (1.8, 1_346_337.0, 1_341_619.0, 1_676_678.0),
        (2.4, 1_331_566.0, 1_323_571.0, 1_667_752.0),
    ] {
        let mut unknown = hit(timestamp, before, after, max);
        let mut summary = TargetResolutionSummary::default();
        let result = store.attribute_damage_hit(
            &mut unknown,
            &mut summary,
            TrackPacketContext::default(),
        );
        assert!(result.projected);
        assert_eq!(unknown.target_name.as_deref(), Some("无首铁驭"));
        assert!(
            unknown
                .target_context
                .iter()
                .any(|entry| { entry == "target_name_resolution=track_continuity_projected" })
        );
    }
}

#[test]
fn multi_target_ambiguous_hit_remains_unknown() {
    let mut store = TargetTrackStore::default();
    let (mut first, mut first_summary) = named_hit(
        1.0,
        1000.0,
        900.0,
        "A",
        "/Game/Monster/Boss_A.Boss_A_C",
        "a",
    );
    let (mut second, mut second_summary) = named_hit(
        1.1,
        1000.0,
        920.0,
        "B",
        "/Game/Monster/Boss_B.Boss_B_C",
        "b",
    );
    store.attribute_damage_hit(
        &mut first,
        &mut first_summary,
        TrackPacketContext::default(),
    );
    store.attribute_damage_hit(
        &mut second,
        &mut second_summary,
        TrackPacketContext::default(),
    );

    let mut unknown = hit(1.2, 900.0, 850.0, 1000.0);
    let mut summary = TargetResolutionSummary::default();
    let result =
        store.attribute_damage_hit(&mut unknown, &mut summary, TrackPacketContext::default());
    assert!(result.ambiguous);
    assert_eq!(unknown.target_name, None);
    assert!(
        unknown
            .target_context
            .iter()
            .any(|entry| entry == "target_unresolved=ambiguous_multi_target")
    );
}

#[test]
fn hp_handle_reuse_after_death_does_not_rename_old_or_new_track() {
    let mut store = TargetTrackStore::default();
    let (mut first, mut first_summary) = named_hit(
        1.0,
        1000.0,
        0.0,
        "A",
        "/Game/Monster/Boss_A.Boss_A_C",
        "reuse",
    );
    store.attribute_damage_hit(
        &mut first,
        &mut first_summary,
        TrackPacketContext::default(),
    );

    let (mut second, mut second_summary) = named_hit(
        2.0,
        2000.0,
        1900.0,
        "B",
        "/Game/Monster/Boss_B.Boss_B_C",
        "reuse",
    );
    let result = store.attribute_damage_hit(
        &mut second,
        &mut second_summary,
        TrackPacketContext::default(),
    );

    assert!(result.ambiguous);
    assert_eq!(second.target_name.as_deref(), Some("B"));
    assert!(
        second.target_context.iter().any(|entry| {
            entry == "target_conflict=hp_handle_reused_without_lifecycle_reset"
        })
    );
}

#[test]
fn same_name_multi_instance_uses_different_generation() {
    let mut store = TargetTrackStore::default();
    let (mut first, mut first_summary) = named_hit(
        1.0,
        1000.0,
        0.0,
        "同名怪",
        "/Game/Monster/Mon_Same.Mon_Same_C",
        "a",
    );
    let first_result = store.attribute_damage_hit(
        &mut first,
        &mut first_summary,
        TrackPacketContext::default(),
    );
    let (mut second, mut second_summary) = named_hit(
        10.0,
        1000.0,
        900.0,
        "同名怪",
        "/Game/Monster/Mon_Same.Mon_Same_C",
        "b",
    );
    let second_result = store.attribute_damage_hit(
        &mut second,
        &mut second_summary,
        TrackPacketContext::default(),
    );

    assert_ne!(first_result.generation, second_result.generation);
    assert_ne!(first_result.target_track_id, second_result.target_track_id);
}

#[test]
fn weak_last_hp_close_cannot_build_confirmed_track() {
    let mut store = TargetTrackStore::default();
    let mut weak = hit(1.0, 1000.0, 900.0, 1000.0);
    weak.target_name = Some("A".to_owned());
    weak.target_context = vec![
        "target_path=/Game/Monster/Boss_A.Boss_A_C".to_owned(),
        "target_name=A".to_owned(),
        "reason=last_hp_close_to_hit_after".to_owned(),
    ];
    let mut summary = TargetResolutionSummary {
        target_name: weak.target_name.clone(),
        target_context: weak.target_context.clone(),
        confidence: TargetConfidence::Probable,
        score: 80,
        direct_hp_evidence: false,
        ..Default::default()
    };
    let result =
        store.attribute_damage_hit(&mut weak, &mut summary, TrackPacketContext::default());
    assert_eq!(result.target_track_id, None);
    assert_eq!(store.active_track_count(micros(1.0)), 0);
}

#[test]
fn target_max_hp_change_does_not_break_single_track_continuity() {
    let mut store = TargetTrackStore::default();
    let (mut first, mut first_summary) = named_hit(
        1.0,
        1000.0,
        900.0,
        "A",
        "/Game/Monster/Boss_A.Boss_A_C",
        "a",
    );
    store.attribute_damage_hit(
        &mut first,
        &mut first_summary,
        TrackPacketContext::default(),
    );
    let mut unknown = hit(1.5, 850.0, 800.0, 1200.0);
    let mut summary = TargetResolutionSummary::default();
    let result =
        store.attribute_damage_hit(&mut unknown, &mut summary, TrackPacketContext::default());
    assert!(result.projected);
    assert_eq!(unknown.target_name.as_deref(), Some("A"));
}

#[test]
fn max_hp_change_does_not_break_track_continuity() {
    let mut store = TargetTrackStore::default();
    let (mut first, mut first_summary) = named_hit(
        1.0,
        1_460_091.0,
        1_458_526.0,
        "无首铁驭",
        "WorldBoss_Boss13",
        "a",
    );
    first.target_max_hp = points(1_460_091.0);
    store.attribute_damage_hit(
        &mut first,
        &mut first_summary,
        TrackPacketContext::default(),
    );
    let first_track = target_context_value(&first.target_context, "target_track_id")
        .expect("first track");
    for (timestamp, before, after, max) in [
        (1.2, 1_459_670.0, 1_438_552.0, 1_459_249.0),
        (1.5, 1_430_648.0, 1_427_852.0, 1_455_875.0),
    ] {
        let mut hit = hit(timestamp, before, after, max);
        let mut summary = TargetResolutionSummary::default();
        let result =
            store.attribute_damage_hit(&mut hit, &mut summary, TrackPacketContext::default());
        assert!(result.projected);
        assert_eq!(hit.target_name.as_deref(), Some("无首铁驭"));
        assert_eq!(
            target_context_value(&hit.target_context, "target_track_id").as_deref(),
            Some(first_track.as_str())
        );
        assert_eq!(
            target_context_value(&hit.target_context, "target_generation").as_deref(),
            Some("1")
        );
    }
}

#[test]
fn max_hp_large_change_records_context_but_keeps_track() {
    let mut store = TargetTrackStore::default();
    let (mut first, mut first_summary) = named_hit(
        1.0,
        1_460_091.0,
        1_458_526.0,
        "无首铁驭",
        "WorldBoss_Boss13",
        "a",
    );
    first.target_max_hp = points(1_460_091.0);
    store.attribute_damage_hit(
        &mut first,
        &mut first_summary,
        TrackPacketContext::default(),
    );

    let mut second = hit(1.2, 1_458_526.0, 1_355_219.0, 1_355_219.0);
    second.target_context.push("boss_hp_guid=a".to_owned());
    let mut second_summary = TargetResolutionSummary::default();
    let result = store.attribute_damage_hit(
        &mut second,
        &mut second_summary,
        TrackPacketContext::default(),
    );
    assert!(result.projected);
    assert_eq!(second.target_name.as_deref(), Some("无首铁驭"));
    assert_eq!(second.target_id.as_deref(), Some("monster:boss_13#1"));
    assert!(
        second
            .target_context
            .iter()
            .any(|entry| entry.starts_with("target_hp_max_changed="))
    );
    assert!(
        second
            .target_context
            .iter()
            .any(|entry| entry == "target_hp_max_unstable=true")
    );
    assert!(
        !second
            .target_context
            .iter()
            .any(|entry| entry.starts_with("target_unresolved="))
    );
    assert_eq!(
        target_context_value(&second.target_context, "target_generation").as_deref(),
        Some("1")
    );
}

#[test]
fn max_hp_same_but_different_alias_does_not_merge() {
    let mut store = TargetTrackStore::default();
    let (mut first, mut first_summary) =
        named_hit(1.0, 1000.0, 900.0, "A", "WorldBoss_Boss13", "a");
    first.target_context.push("netguid32=aaa".to_owned());
    first.target_max_hp = points(1000.0);
    store.attribute_damage_hit(
        &mut first,
        &mut first_summary,
        TrackPacketContext::default(),
    );
    let (mut second, mut second_summary) =
        named_hit(1.1, 1000.0, 900.0, "B", "WorldBoss_Boss08", "b");
    second.target_context.push("netguid32=bbb".to_owned());
    second.target_max_hp = points(1000.0);
    store.attribute_damage_hit(
        &mut second,
        &mut second_summary,
        TrackPacketContext::default(),
    );

    assert_eq!(first.target_id.as_deref(), Some("monster:boss_13#1"));
    assert_eq!(second.target_id.as_deref(), Some("monster:boss_08#1"));
}

#[test]
fn target_max_hp_only_weak_does_not_veto_direct_hp_named_hit() {
    let mut store = TargetTrackStore::default();
    let (mut first, mut first_summary) = named_hit(
        1.0,
        1_460_091.0,
        1_458_526.0,
        "无首铁驭",
        "WorldBoss_Boss13",
        "a",
    );
    first
        .target_context
        .push("reason=target_max_hp_only_weak".to_owned());
    first
        .target_context
        .push("reason=hp_guid_timeline_match:test".to_owned());
    first_summary.target_context = first.target_context.clone();
    first_summary.direct_hp_evidence = true;
    let result = store.attribute_damage_hit(
        &mut first,
        &mut first_summary,
        TrackPacketContext::default(),
    );
    assert_eq!(
        result.target_track_id.as_ref().map(|id| id.0.as_str()),
        Some("monster:boss_13#1")
    );

    let mut second = hit(1.2, 1_458_526.0, 1_450_000.0, 1_355_219.0);
    let mut second_summary = TargetResolutionSummary::default();
    let projected = store.attribute_damage_hit(
        &mut second,
        &mut second_summary,
        TrackPacketContext::default(),
    );
    assert!(projected.projected);
    assert_eq!(second.target_name.as_deref(), Some("无首铁驭"));
}

#[test]
fn named_attribute_guid_hit_refreshes_existing_track() {
    let mut store = TargetTrackStore::default();
    let (mut first, mut first_summary) = named_hit(
        1781881298.939,
        1_000_000.0,
        990_000.0,
        "无首铁驭",
        "WorldBoss_Boss13",
        "94b599e5291b934a8bef735771caa138",
    );
    store.attribute_damage_hit(
        &mut first,
        &mut first_summary,
        TrackPacketContext::default(),
    );

    let (mut named, mut named_summary) = named_hit(
        1781881302.831,
        980_000.0,
        970_610.0,
        "无首铁驭",
        "WorldBoss_Boss13",
        "94b599e5291b934a8bef735771caa138",
    );
    named.target_id =
        Some("AttributeGuid:94b599e5291b934a8bef735771caa138|path=WorldBoss_Boss13".to_owned());
    named
        .target_context
        .push("reason=boss_hp_delta_match:9390".to_owned());
    named
        .target_context
        .push("reason=target_max_hp_only_weak".to_owned());
    named_summary.target_context = named.target_context.clone();
    named_summary.direct_hp_evidence = true;

    store.attribute_damage_hit(
        &mut named,
        &mut named_summary,
        TrackPacketContext::default(),
    );
    assert_eq!(named.target_id.as_deref(), Some("monster:boss_13#1"));
    let track = store
        .track(&TargetTrackId("monster:boss_13#1".to_owned()))
        .expect("track refreshed");
    assert_eq!(track.last_seen_at, micros(1781881302.831));
    assert_eq!(
        store
            .track_id_for_key("boss_hp_guid:94b599e5291b934a8bef735771caa138", true)
            .as_deref(),
        Some("monster:boss_13#1")
    );
}

#[test]
fn exact_boss_hp_guid_projects_even_when_continuity_window_expired() {
    let mut store = TargetTrackStore::default();
    let (mut first, mut first_summary) = named_hit(
        1.0,
        1000.0,
        900.0,
        "无首铁驭",
        "WorldBoss_Boss13",
        "94b599e5291b934a8bef735771caa138",
    );
    store.attribute_damage_hit(
        &mut first,
        &mut first_summary,
        TrackPacketContext::default(),
    );

    let mut late = hit(10.0, 850.0, 830.0, 1000.0);
    late.target_context
        .push("boss_hp_guid=94b599e5291b934a8bef735771caa138".to_owned());
    let mut late_summary = TargetResolutionSummary::default();
    let result =
        store.attribute_damage_hit(&mut late, &mut late_summary, TrackPacketContext::default());
    assert!(result.projected);
    assert_eq!(late.target_name.as_deref(), Some("无首铁驭"));
    assert_eq!(late.target_id.as_deref(), Some("monster:boss_13#1"));
    assert!(
        late.target_context
            .iter()
            .any(|entry| entry == "reason=unique_locked_hp_handle")
    );
    assert!(
        !late
            .target_context
            .iter()
            .any(|entry| entry == "track_reject_reason=hp_stream_mismatch")
    );
}

#[test]
fn regression_timestamp_1781881303_978() {
    let mut store = TargetTrackStore::default();
    let (mut projected, mut projected_summary) = named_hit(
        1781881298.939,
        1_000_000.0,
        990_000.0,
        "无首铁驭",
        "WorldBoss_Boss13",
        "94b599e5291b934a8bef735771caa138",
    );
    store.attribute_damage_hit(
        &mut projected,
        &mut projected_summary,
        TrackPacketContext::default(),
    );
    let (mut named, mut named_summary) = named_hit(
        1781881302.831,
        980_000.0,
        970_610.0,
        "无首铁驭",
        "WorldBoss_Boss13",
        "94b599e5291b934a8bef735771caa138",
    );
    named.target_id =
        Some("AttributeGuid:94b599e5291b934a8bef735771caa138|path=WorldBoss_Boss13".to_owned());
    named
        .target_context
        .push("reason=boss_hp_delta_match:9390".to_owned());
    named_summary.target_context = named.target_context.clone();
    named_summary.direct_hp_evidence = true;
    store.attribute_damage_hit(
        &mut named,
        &mut named_summary,
        TrackPacketContext::default(),
    );

    let mut unknown = hit(1781881303.978, 970_610.0, 960_000.0, 980_000.0);
    unknown
        .target_context
        .push("boss_hp_guid=94b599e5291b934a8bef735771caa138".to_owned());
    unknown
        .target_context
        .push("reason=near_object_path:WorldBoss_Boss13".to_owned());
    unknown
        .target_context
        .push("reason=resolved_target_name_table".to_owned());
    let mut unknown_summary = TargetResolutionSummary::default();
    let result = store.attribute_damage_hit(
        &mut unknown,
        &mut unknown_summary,
        TrackPacketContext::default(),
    );
    assert!(result.projected);
    assert_eq!(unknown.target_name.as_deref(), Some("无首铁驭"));
    assert_eq!(unknown.target_id.as_deref(), Some("monster:boss_13#1"));
    assert!(
        unknown
            .target_context
            .iter()
            .any(|entry| entry == "track_decision=projected")
    );
    assert!(
        !unknown
            .target_context
            .iter()
            .any(|entry| entry.starts_with("track_reject_reason="))
    );
}

#[test]
fn old_hits_are_never_rewritten_to_different_track_name() {
    let mut store = TargetTrackStore::default();
    let (mut first, mut first_summary) = named_hit(
        1.0,
        1000.0,
        900.0,
        "A",
        "/Game/Monster/Boss_A.Boss_A_C",
        "a",
    );
    store.attribute_damage_hit(
        &mut first,
        &mut first_summary,
        TrackPacketContext::default(),
    );
    let old_name = first.target_name.clone();
    let old_track =
        target_context_value(&first.target_context, "target_track_id");
    let (mut conflict, mut conflict_summary) =
        named_hit(1.2, 900.0, 800.0, "B", "/Game/Monster/Boss_B.Boss_B_C", "a");
    store.attribute_damage_hit(
        &mut conflict,
        &mut conflict_summary,
        TrackPacketContext::default(),
    );

    assert_eq!(first.target_name, old_name);
    assert_eq!(
        target_context_value(&first.target_context, "target_track_id"),
        old_track
    );
    assert!(
        conflict
            .target_context
            .iter()
            .any(|entry| entry == "target_conflict=locked_path_mismatch")
    );
}

#[test]
fn old_resolver_ambiguous_does_not_block_single_track_projection() {
    let mut store = TargetTrackStore::default();
    let (mut first, mut first_summary) = named_hit(
        1.0,
        1500.0,
        1450.0,
        "无首铁驭",
        "/Game/Monster/Boss_Headless.Boss_Headless_C",
        "a",
    );
    store.attribute_damage_hit(
        &mut first,
        &mut first_summary,
        TrackPacketContext::default(),
    );

    let mut unknown = hit(1.2, 1450.0, 1440.0, 1500.0);
    unknown
        .target_context
        .push("target_unresolved=ambiguous_multi_target".to_owned());
    unknown
        .target_context
        .push("target_suppressed=ambiguous_multi_target".to_owned());
    let mut summary = TargetResolutionSummary::default();
    let result =
        store.attribute_damage_hit(&mut unknown, &mut summary, TrackPacketContext::default());

    assert!(result.projected);
    assert_eq!(unknown.target_name.as_deref(), Some("无首铁驭"));
    assert!(
        !unknown
            .target_context
            .iter()
            .any(|entry| entry == "target_unresolved=ambiguous_multi_target")
    );
    assert!(
        unknown
            .target_context
            .iter()
            .any(|entry| { entry == "target_name_resolution=track_continuity_projected" })
    );
}

#[test]
fn raw_multiple_path_candidates_same_target_do_not_block_projection() {
    let mut store = TargetTrackStore::default();
    let (mut first, mut first_summary) = named_hit(
        1.0,
        1000.0,
        900.0,
        "A",
        "/Game/Monster/Boss_A.Boss_A_C",
        "a",
    );
    store.attribute_damage_hit(
        &mut first,
        &mut first_summary,
        TrackPacketContext::default(),
    );
    let context = TrackPacketContext {
        canonical_target_paths: vec!["/Game/Monster/Boss_A.Boss_A_C".to_owned()],
        canonical_target_names: vec!["A".to_owned()],
        hp_handle_keys: Vec::new(),
        has_multiple_canonical_targets: false,
    };
    let mut unknown = hit(1.2, 900.0, 850.0, 1000.0);
    let mut summary = TargetResolutionSummary::default();
    let result = store.attribute_damage_hit(&mut unknown, &mut summary, context);
    assert!(result.projected);
    assert_eq!(unknown.target_name.as_deref(), Some("A"));
}

#[test]
fn multiple_hp_updates_same_track_do_not_block_projection() {
    let mut store = TargetTrackStore::default();
    let (mut first, mut first_summary) = named_hit(
        1.0,
        1000.0,
        900.0,
        "A",
        "/Game/Monster/Boss_A.Boss_A_C",
        "a",
    );
    first.target_context.push("current_hp_token=b".to_owned());
    store.attribute_damage_hit(
        &mut first,
        &mut first_summary,
        TrackPacketContext::default(),
    );
    let context = TrackPacketContext {
        hp_handle_keys: vec![
            "boss_hp_guid:a".to_owned(),
            "current_hp_token:b".to_owned(),
        ],
        ..Default::default()
    };
    let mut unknown = hit(1.2, 900.0, 850.0, 1000.0);
    let mut summary = TargetResolutionSummary::default();
    let result = store.attribute_damage_hit(&mut unknown, &mut summary, context);
    assert!(result.projected);
    assert_eq!(unknown.target_name.as_deref(), Some("A"));
}

#[test]
fn dot_damage_single_active_track_projects() {
    let mut store = TargetTrackStore::default();
    let (mut first, mut first_summary) = named_hit(
        1.0,
        1_460_091.0,
        1_458_526.0,
        "无首铁驭",
        "/Game/Monster/Boss_Headless.Boss_Headless_C",
        "a",
    );
    store.attribute_damage_hit(
        &mut first,
        &mut first_summary,
        TrackPacketContext::default(),
    );
    let mut dot = hit(1.1, 1_459_670.0, 1_459_249.0, 1_460_091.0);
    dot.damage_name = Some("安魂曲流血伤害L".to_owned());
    let mut summary = TargetResolutionSummary::default();
    let result =
        store.attribute_damage_hit(&mut dot, &mut summary, TrackPacketContext::default());
    assert!(result.projected);
    assert_eq!(dot.target_name.as_deref(), Some("无首铁驭"));
    assert!(
        dot.target_context
            .iter()
            .any(|entry| entry == "target_name_resolution=track_dot_projection")
    );
}

#[test]
fn dot_damage_multi_target_remains_unknown() {
    let mut store = TargetTrackStore::default();
    let (mut first, mut first_summary) = named_hit(
        1.0,
        1000.0,
        900.0,
        "A",
        "/Game/Monster/Boss_A.Boss_A_C",
        "a",
    );
    let (mut second, mut second_summary) = named_hit(
        1.0,
        1000.0,
        910.0,
        "B",
        "/Game/Monster/Boss_B.Boss_B_C",
        "b",
    );
    store.attribute_damage_hit(
        &mut first,
        &mut first_summary,
        TrackPacketContext::default(),
    );
    store.attribute_damage_hit(
        &mut second,
        &mut second_summary,
        TrackPacketContext::default(),
    );
    let mut dot = hit(1.1, 910.0, 880.0, 1000.0);
    dot.damage_name = Some("安魂曲流血伤害L".to_owned());
    let mut summary = TargetResolutionSummary::default();
    let result =
        store.attribute_damage_hit(&mut dot, &mut summary, TrackPacketContext::default());
    assert!(result.ambiguous);
    assert_eq!(dot.target_name, None);
    assert!(
        dot.target_context
            .iter()
            .any(|entry| entry == "target_unresolved=ambiguous_multi_target")
    );
}

#[test]
fn attribute_guid_and_class_path_merge_into_one_track() {
    let mut store = TargetTrackStore::default();
    let (mut hit1, mut summary1) = named_hit(
        1.0,
        1000.0,
        900.0,
        "无首铁驭",
        "WorldBoss_Boss13",
        "94b599e5291b934a8bef735771caa138",
    );
    hit1.target_id =
        Some("AttributeGuid:94b599e5291b934a8bef735771caa138|path=WorldBoss_Boss13".to_owned());
    store.attribute_damage_hit(&mut hit1, &mut summary1, TrackPacketContext::default());

    let (mut hit2, mut summary2) = named_hit(
        1.5,
        900.0,
        850.0,
        "无首铁驭",
        "/Game/Blueprints/Character/Monster/boss_13/boss_13_BP.boss_13_BP_C",
        "94b599e5291b934a8bef735771caa138",
    );
    store.attribute_damage_hit(&mut hit2, &mut summary2, TrackPacketContext::default());

    assert_eq!(hit1.target_id.as_deref(), Some("monster:boss_13#1"));
    assert_eq!(hit2.target_id.as_deref(), Some("monster:boss_13#1"));
    assert_eq!(
        target_context_value(&hit1.target_context, "target_track_id"),
        target_context_value(&hit2.target_context, "target_track_id")
    );
    assert!(
        !hit2
            .target_context
            .iter()
            .any(|entry| entry == "target_conflict=locked_path_mismatch")
    );
    let track = store
        .track(&TargetTrackId("monster:boss_13#1".to_owned()))
        .expect("merged track");
    assert_eq!(track.canonical_target_key, "monster:boss_13");
    assert!(track.observed_paths.iter().any(|path| path == "WorldBoss_Boss13"));
    assert!(
        track.observed_paths.iter().any(|path| path == "/Game/Blueprints/Character/Monster/boss_13/boss_13_BP.boss_13_BP_C")
    );
}

#[test]
fn no_duplicate_generation_for_same_monster_alias_switch() {
    let mut store = TargetTrackStore::default();
    for (timestamp, path) in [
        (1.0, "WorldBoss_Boss13"),
        (
            1.4,
            "/Game/Blueprints/Character/Monster/boss_13/boss_13_BP.boss_13_BP_C",
        ),
        (1.8, "WorldBoss_Boss13"),
    ] {
        let (mut hit, mut summary) = named_hit(
            timestamp,
            1000.0 - timestamp * 10.0,
            990.0 - timestamp * 10.0,
            "无首铁驭",
            path,
            "94b599e5291b934a8bef735771caa138",
        );
        store.attribute_damage_hit(&mut hit, &mut summary, TrackPacketContext::default());
        assert_eq!(hit.target_id.as_deref(), Some("monster:boss_13#1"));
        assert!(
            !hit.target_context
                .iter()
                .any(|entry| entry == "target_conflict=locked_path_mismatch")
        );
    }
    let track = store
        .track(&TargetTrackId("monster:boss_13#1".to_owned()))
        .expect("merged track");
    assert_eq!(track.observed_paths.len(), 2);
}

#[test]
fn screenshot_sequence_regression_projects_dot_rows() {
    let mut store = TargetTrackStore::default();
    let sequence = [
        (1.0, true, 1_460_091.0, 1_458_526.0),
        (1.1, false, 1_460_091.0, 1_459_670.0),
        (2.0, true, 1_459_249.0, 1_441_960.0),
        (2.1, false, 1_459_249.0, 1_438_552.0),
        (3.0, true, 1_455_875.0, 1_430_648.0),
        (3.1, false, 1_455_875.0, 1_427_852.0),
    ];
    for (timestamp, named, before, after) in sequence {
        if named {
            let (mut hit, mut summary) = named_hit(
                timestamp,
                before,
                after,
                "无首铁驭",
                "/Game/Monster/Boss_Headless.Boss_Headless_C",
                "a",
            );
            store.attribute_damage_hit(&mut hit, &mut summary, TrackPacketContext::default());
        } else {
            let mut hit = hit(timestamp, before, after, before);
            hit.damage_name = Some("安魂曲流血伤害L".to_owned());
            let mut summary = TargetResolutionSummary::default();
            let result = store.attribute_damage_hit(
                &mut hit,
                &mut summary,
                TrackPacketContext::default(),
            );
            assert!(result.projected, "DOT row at {timestamp} should project");
            assert_eq!(hit.target_name.as_deref(), Some("无首铁驭"));
        }
    }
}

#[test]
fn incoming_hits_are_left_alone() {
    let mut store = TargetTrackStore::default();
    let (mut first, mut summary) =
        named_hit(1.0, 1000.0, 900.0, "A", "WorldBoss_Boss13", "a");
    first.direction = "incoming".to_owned();
    let before = format!("{first:?}");
    let result = store.attribute_damage_hit(&mut first, &mut summary, TrackPacketContext::default());
    assert_eq!(result.target_track_id, None);
    assert_eq!(format!("{first:?}"), before);
    assert_eq!(store.active_track_count(micros(1.0)), 0);
}

#[test]
fn two_generations_of_one_name_are_told() {
    let mut store = TargetTrackStore::default();
    for (timestamp, handle) in [(1.0, "a"), (1.5, "b")] {
        let (mut named, mut summary) =
            named_hit(timestamp, 1000.0, 900.0, "A", "WorldBoss_Boss13", handle);
        store.attribute_damage_hit(&mut named, &mut summary, TrackPacketContext::default());
    }
    assert_eq!(store.active_track_count(micros(1.6)), 1);
    assert!(!store.same_name_multi_instance_active(micros(1.6)));
}

#[test]
fn a_dead_track_takes_no_hits() {
    let mut store = TargetTrackStore::default();
    let (mut last, mut summary) = named_hit(1.0, 1000.0, 0.0, "A", "WorldBoss_Boss13", "a");
    store.attribute_damage_hit(&mut last, &mut summary, TrackPacketContext::default());
    let mut unknown = hit(1.2, 900.0, 850.0, 1000.0);
    let mut unknown_summary = TargetResolutionSummary::default();
    let result = store.attribute_damage_hit(
        &mut unknown,
        &mut unknown_summary,
        TrackPacketContext::default(),
    );
    assert!(!result.projected);
    assert_eq!(unknown.target_name, None);
}
