use nte_dps::capture::{capture_status, capture_step, packet_time, CaptureStep, Ipv4};
use nte_dps::hotkey::{
    registration_failure, HotkeyEvent, HotkeyKeys, KEY_F12, KEY_HOME, MESSAGE_KEY_DOWN,
    MESSAGE_KEY_UP, MESSAGE_SYSTEM_KEY_DOWN,
};
use nte_dps::import::{import_status, replay_delay, replay_line_failure, PacketFileCount};
use nte_dps::model::{AbyssEvent, EngineEvent, Hit, PacketDebug};
use nte_dps::network::{detect_game_device, CaptureDevice, GameNetwork, NetworkFault};
use nte_dps::session::{repaint_interval, ImportKind, Playback, Readiness, Session};

fn hit(timestamp: i64, damage: i64) -> Hit {
    Hit {
        timestamp,
        char_id: 1,
        char_name: "tester".to_owned(),
        char_known: true,
        damage,
        byte_offset: 0,
        bit_shift: 0,
        char_source: "test".to_owned(),
        direction: "outgoing".to_owned(),
        target_hp_before: 0,
        target_hp_after: 0,
        target_max_hp: 0,
        target_hp_percent: 0,
        target_id: None,
        target_name: None,
        target_context: Vec::new(),
        gameplay_effect_index: None,
        gameplay_effect_name: None,
        ability_name: None,
        damage_name: None,
        attack_type: None,
    }
}

fn packet() -> PacketDebug {
    PacketDebug {
        timestamp: 0,
        source: String::new(),
        destination: String::new(),
        direction: String::new(),
        payload_len: 0,
        declared_ids: Vec::new(),
        parsed_hits: 0,
        note: String::new(),
        payload_preview: String::new(),
        payload_hex: String::new(),
        decoded_text: String::new(),
    }
}

#[test]
fn a_session_starts_by_how_ready_it_is() {
    let ready = Session::new(Readiness::Ready);
    assert_eq!(ready.status, "已就绪");
    assert_eq!(ready.diagnostic, None);
    assert!(ready.always_on_top);
    let blind = Session::new(Readiness::NoCapture("no library".to_owned()));
    assert_eq!(blind.status, "采集环境不可用，请查看 Debug");
    assert_eq!(blind.diagnostic.as_deref(), Some("no library"));
    let alone = Session::new(Readiness::NoGame("no game".to_owned()));
    assert_eq!(alone.status, "未检测到游戏，请查看 Debug");
    assert_eq!(alone.diagnostic.as_deref(), Some("no game"));
}

#[test]
fn events_change_the_fight_and_the_reports() {
    let mut session = Session::new(Readiness::Ready);
    assert!(!session.apply(EngineEvent::Hit(hit(1, 5_000))));
    assert!(!session.apply(EngineEvent::Packet(packet())));
    assert_eq!(session.state.hits.len(), 1);
    assert_eq!(session.state.packets.len(), 1);
    assert_eq!(session.state.total_damage, 5_000);
    assert!(!session.apply(EngineEvent::Abyss(AbyssEvent::Exit { timestamp: 1 })));
    assert_eq!(session.status, "已就绪");
    assert!(!session.apply(EngineEvent::Status("忙".to_owned())));
    assert_eq!(session.status, "忙");
    assert!(!session.apply(EngineEvent::Error("坏".to_owned())));
    assert_eq!(session.status, "运行失败");
    assert_eq!(session.last_error.as_deref(), Some("坏"));
    assert!(session.apply(EngineEvent::CaptureStopped));
    assert_eq!(session.status, "已停止");
    session.hit_detail_char_id = Some(1);
    session.begin_playback(Playback::Pcapng);
    assert_eq!(session.status, "正在导入并解析 pcapng...");
    assert!(session.state.hits.is_empty());
    assert!(session.state.stats.is_empty());
    assert_eq!(session.hit_detail_char_id, None);
    session.begin_playback(Playback::HitLog);
    assert_eq!(session.status, "正在回放命中日志...");
    session.begin_playback(Playback::CaptureJson);
    assert_eq!(session.status, "正在导入抓包 JSON...");
}

#[test]
fn switches_are_reported_and_undone_by_switching_again() {
    let mut session = Session::new(Readiness::Ready);
    assert!(session.apply_hotkey(HotkeyEvent::TogglePassthrough));
    assert!(session.mouse_passthrough);
    assert_eq!(session.status, "鼠标穿透已开启");
    assert!(session.apply_hotkey(HotkeyEvent::TogglePassthrough));
    assert!(!session.mouse_passthrough);
    assert_eq!(session.status, "鼠标穿透已关闭");
    session.toggle_always_on_top();
    assert!(!session.always_on_top);
    assert_eq!(session.status, "窗口置顶已关闭");
    assert!(session.take_reapply());
    assert!(session.take_reapply());
    assert!(!session.take_reapply());
    assert!(!session.apply_hotkey(HotkeyEvent::ToggleDebug));
    assert!(session.debug_open);
    assert!(!session.apply_hotkey(HotkeyEvent::RegistrationFailed("Home".to_owned())));
    assert_eq!(
        session.diagnostic.as_deref(),
        Some("无法注册全局快捷键 Home，可能已被其他程序占用")
    );
    session.network_checked(None);
    assert_eq!(session.diagnostic, None);
    assert_eq!(session.status, "已检测到游戏，准备就绪");
    session.network_checked(Some("x".to_owned()));
    assert_eq!(session.diagnostic.as_deref(), Some("x"));
}

#[test]
fn exporting_needs_something_and_a_stopped_engine() {
    let mut session = Session::new(Readiness::Ready);
    assert!(!session.can_export(false));
    assert!(!session.begin_export(true));
    assert_eq!(session.last_error.as_deref(), Some("当前没有可导出的抓包信息"));
    session.apply(EngineEvent::Packet(packet()));
    assert!(!session.begin_export(true));
    assert_eq!(
        session.last_error.as_deref(),
        Some("请先停止抓包或回放，再导出本次抓包信息")
    );
    assert!(session.begin_export(false));
    session.end_export("/tmp/x.json", None);
    assert_eq!(session.status, "已导出抓包信息：/tmp/x.json");
    assert_eq!(session.last_error, None);
    session.end_export("/tmp/x.json", Some("full".to_owned()));
    assert_eq!(session.last_error.as_deref(), Some("导出抓包信息失败：full"));
}

#[test]
fn dialogs_wait_a_frame() {
    let mut session = Session::new(Readiness::Ready);
    assert_eq!(session.next_import(), None);
    session.request_import(ImportKind::CaptureJson);
    assert_eq!(session.next_import(), None);
    assert_eq!(session.next_import(), Some(ImportKind::CaptureJson));
    assert_eq!(session.next_import(), None);
    assert_eq!(repaint_interval(true), 100);
    assert_eq!(repaint_interval(false), 500);
}

#[test]
fn a_held_key_counts_once() {
    let mut keys = HotkeyKeys::new();
    let home = |event: Option<HotkeyEvent>| matches!(event, Some(HotkeyEvent::TogglePassthrough));
    assert!(home(keys.on_message(KEY_HOME, MESSAGE_KEY_DOWN, false)));
    assert!(keys.on_message(KEY_HOME, MESSAGE_KEY_DOWN, false).is_none());
    assert!(matches!(
        keys.on_message(KEY_F12, MESSAGE_SYSTEM_KEY_DOWN, false),
        Some(HotkeyEvent::ToggleDebug)
    ));
    assert!(keys.on_message(KEY_HOME, MESSAGE_SYSTEM_KEY_DOWN, false).is_none());
    assert!(keys.on_message(KEY_HOME, MESSAGE_KEY_UP, true).is_none());
    assert!(keys.on_message(KEY_HOME, MESSAGE_KEY_DOWN, false).is_none());
    assert!(keys.on_message(KEY_HOME, MESSAGE_KEY_UP, false).is_none());
    assert!(home(keys.on_message(KEY_HOME, MESSAGE_KEY_DOWN, false)));
    assert!(keys.on_message(65, MESSAGE_KEY_DOWN, false).is_none());
    assert!(matches!(
        registration_failure(5),
        HotkeyEvent::RegistrationFailed(text) if text == "Home / F12 注册失败，GetLastError=5"
    ));
}

#[test]
fn the_games_own_port_is_preferred() {
    let ip = |d: u8| Ipv4 { a: 10, b: 0, c: 0, d };
    let connection = |local: u8, remote_port: u16| GameNetwork {
        pid: 1,
        local_ip: ip(local),
        remote_ip: ip(99),
        remote_port,
    };
    let device = |name: &str, d: u8| CaptureDevice {
        name: name.to_owned(),
        description: String::new(),
        ipv4: vec![ip(200), ip(d)],
    };
    let devices = vec![device("a", 1), device("b", 2)];
    assert_eq!(
        detect_game_device(&devices, &vec![connection(1, 443), connection(2, 30031)]),
        Ok((1, connection(2, 30031)))
    );
    assert_eq!(
        detect_game_device(&devices, &vec![connection(1, 443)]),
        Ok((0, connection(1, 443)))
    );
    assert_eq!(
        detect_game_device(&devices, &Vec::new()),
        Err(NetworkFault::NoConnection)
    );
    assert_eq!(
        detect_game_device(&devices, &vec![connection(3, 30031)]),
        Err(NetworkFault::NoDevice)
    );
    assert_eq!(NetworkFault::NoDevice.message(), "没有与游戏连接匹配的网卡");
}

#[test]
fn replies_of_the_capture_library_are_sorted_out() {
    assert_eq!(capture_step(-1, true, 5), CaptureStep::Failed);
    assert_eq!(capture_step(0, true, 5), CaptureStep::Again);
    assert_eq!(capture_step(1, false, 5), CaptureStep::Again);
    assert_eq!(capture_step(1, true, 0), CaptureStep::Again);
    assert_eq!(capture_step(1, true, 5), CaptureStep::Decode);
    assert_eq!(packet_time(2, 7), 2_000_007);
    assert_eq!(
        capture_status("eth", Some(Ipv4 { a: 1, b: 2, c: 3, d: 4 })),
        "正在抓包: eth (1.2.3.4)"
    );
    assert_eq!(capture_status("eth", None), "正在抓包: eth (不过滤本机 IP)");
}

#[test]
fn packet_files_are_counted() {
    let mut count = PacketFileCount::new();
    assert_eq!(
        count.outcome().unwrap(),
        "pcapng 导入完成：读取 0 包，解析 0 个 Ethernet 包"
    );
    assert!(!count.note_packet(None));
    assert!(!count.note_packet(Some(false)));
    assert_eq!(
        count.outcome().unwrap_err(),
        "pcapng 中没有受支持的 Ethernet 数据包"
    );
    assert!(count.note_packet(Some(true)));
    assert_eq!(
        count.outcome().unwrap(),
        "pcapng 导入完成：读取 3 包，解析 1 个 Ethernet 包"
    );
    assert_eq!(import_status(3, 2), "JSON 导入完成：3 个封包，2 条伤害");
}

#[test]
fn replays_wait_within_limits() {
    assert_eq!(replay_delay(None, 5_000_000), 0);
    assert_eq!(replay_delay(Some(5_000_000), 5_100_000), 100_000);
    assert_eq!(replay_delay(Some(5_000_000), 9_000_000), 250_000);
    assert_eq!(replay_delay(Some(5_000_000), 1_000_000), 0);
    assert_eq!(replay_line_failure(0, "bad"), "第 1 行解析失败: bad");
}
