//! A sitting with the program: the fight, what is reported about it, and what the
//! user has switched on.
use vstd::prelude::*;

use crate::hotkey::HotkeyEvent;
use crate::model;
use crate::model::{CombatState, EngineEvent};
use crate::text;

verus! {

/// How often the window's look is applied again after a change.
pub const REAPPLY_FRAMES: u8 = 2;

/// How many frames pass before a dialog opens.
pub const DIALOG_DELAY: u8 = 1;

/// How capturing stands when the program starts.
#[derive(Clone, Debug)]
pub enum Readiness {
    Ready,
    NoCapture(String),
    NoGame(String),
}

/// What is played back.
#[derive(Clone, Copy, Debug, PartialEq, Eq, Structural)]
pub enum Playback {
    HitLog,
    Pcapng,
    CaptureJson,
}

/// What kind of file a dialog asks for.
#[derive(Clone, Copy, Debug, PartialEq, Eq, Structural)]
pub enum ImportKind {
    Pcapng,
    CaptureJson,
}

/// A sitting.
pub struct Session {
    pub state: CombatState,
    pub status: String,
    pub diagnostic: Option<String>,
    pub last_error: Option<String>,
    pub hit_detail_char_id: Option<u32>,
    pub paused: bool,
    pub debug_open: bool,
    pub always_on_top: bool,
    pub mouse_passthrough: bool,
    pub reapply_frames: u8,
    pub pending_import: Option<(ImportKind, u8)>,
}

/// What is reported when playing back begins.
pub open spec fn playback_status(kind: Playback) -> Seq<char> {
    match kind {
        Playback::HitLog => "正在回放命中日志..."@,
        Playback::Pcapng => "正在导入并解析 pcapng..."@,
        Playback::CaptureJson => "正在导入抓包 JSON..."@,
    }
}

impl Session {
    /// Everything but the fight and what is reported about it.
    pub open spec fn same_settings(self, other: Session) -> bool {
        &&& self.hit_detail_char_id == other.hit_detail_char_id
        &&& self.paused == other.paused
        &&& self.debug_open == other.debug_open
        &&& self.always_on_top == other.always_on_top
        &&& self.mouse_passthrough == other.mouse_passthrough
        &&& self.reapply_frames == other.reapply_frames
        &&& self.pending_import == other.pending_import
    }

    pub open spec fn same_reports(self, other: Session) -> bool {
        &&& self.status == other.status
        &&& self.diagnostic == other.diagnostic
        &&& self.last_error == other.last_error
    }

    pub fn new(readiness: Readiness) -> (r: Session)
        ensures
            r.state.is_cleared(),
            match readiness {
                Readiness::Ready => r.status@ == "已就绪"@ && r.diagnostic is None,
                Readiness::NoCapture(e) => r.status@ == "采集环境不可用，请查看 Debug"@
                    && r.diagnostic == Some(e),
                Readiness::NoGame(e) => r.status@ == "未检测到游戏，请查看 Debug"@
                    && r.diagnostic == Some(e),
            },
            r.last_error is None,
            r.hit_detail_char_id is None,
            !r.paused && !r.debug_open && r.always_on_top && !r.mouse_passthrough,
            r.reapply_frames == 0,
            r.pending_import is None,
    {
        let (status, diagnostic) = match readiness {
            Readiness::Ready => ("已就绪".to_owned(), None),
            Readiness::NoCapture(e) => ("采集环境不可用，请查看 Debug".to_owned(), Some(e)),
            Readiness::NoGame(e) => ("未检测到游戏，请查看 Debug".to_owned(), Some(e)),
        };
        Session {
            state: CombatState::new(),
            status,
            diagnostic,
            last_error: None,
            hit_detail_char_id: None,
            paused: false,
            debug_open: false,
            always_on_top: true,
            mouse_passthrough: false,
            reapply_frames: 0,
            pending_import: None,
        }
    }

    /// Takes what the engine reports. The engine is to be let go where it says that
    /// it has stopped.
    pub fn apply(&mut self, event: EngineEvent) -> (stopped: bool)
        ensures
            stopped == (event is CaptureStopped),
            final(self).same_settings(*old(self)),
            match event {
                EngineEvent::Hit(hit) => {
                    &&& final(self).same_reports(*old(self))
                    &&& counts_hit(old(self).state, final(self).state, hit)
                },
                EngineEvent::Packet(packet) => {
                    &&& final(self).same_reports(*old(self))
                    &&& lists_packet(old(self).state, final(self).state, packet)
                },
                EngineEvent::Abyss(_) => {
                    &&& final(self).same_reports(*old(self))
                    &&& final(self).state == old(self).state
                },
                EngineEvent::Status(status) => {
                    &&& final(self).status == status
                    &&& final(self).diagnostic == old(self).diagnostic
                    &&& final(self).last_error == old(self).last_error
                    &&& final(self).state == old(self).state
                },
                EngineEvent::Error(error) => {
                    &&& final(self).status@ == "运行失败"@
                    &&& final(self).diagnostic == old(self).diagnostic
                    &&& final(self).last_error == Some(error)
                    &&& final(self).state == old(self).state
                },
                EngineEvent::CaptureStopped => {
                    &&& final(self).status@ == "已停止"@
                    &&& final(self).diagnostic == old(self).diagnostic
                    &&& final(self).last_error == old(self).last_error
                    &&& final(self).state == old(self).state
                },
            },
    {
        match event {
            EngineEvent::Hit(hit) => {
                self.state.push_hit(hit);
                false
            },
            EngineEvent::Packet(packet) => {
                self.state.push_packet(packet);
                false
            },
            EngineEvent::Abyss(_) => false,
            EngineEvent::Status(status) => {
                self.status = status;
                false
            },
            EngineEvent::Error(error) => {
                self.status = "运行失败".to_owned();
                self.last_error = Some(error);
                false
            },
            EngineEvent::CaptureStopped => {
                self.status = "已停止".to_owned();
                true
            },
        }
    }

    /// Takes what a key asks for. Whether the mouse passes through the window has
    /// changed where the result says so.
    pub fn apply_hotkey(&mut self, event: HotkeyEvent) -> (passthrough_changed: bool)
        ensures
            passthrough_changed == (event is TogglePassthrough),
            match event {
                HotkeyEvent::TogglePassthrough => final(self).passthrough_toggled(*old(self)),
                HotkeyEvent::ToggleDebug => *final(self) == (Session {
                    debug_open: !old(self).debug_open,
                    ..*old(self)
                }),
                HotkeyEvent::RegistrationFailed(shortcut) => {
                    &&& *final(self) == (Session {
                        diagnostic: final(self).diagnostic,
                        ..*old(self)
                    })
                    &&& final(self).diagnostic matches Some(s) && s@ == "无法注册全局快捷键 "@
                        + shortcut@ + "，可能已被其他程序占用"@
                },
            },
    {
        match event {
            HotkeyEvent::TogglePassthrough => {
                self.toggle_mouse_passthrough();
                true
            },
            HotkeyEvent::ToggleDebug => {
                self.debug_open = !self.debug_open;
                false
            },
            HotkeyEvent::RegistrationFailed(shortcut) => {
                self.diagnostic = Some(
                    text::concat3(
                        "无法注册全局快捷键 ",
                        shortcut.as_str(),
                        "，可能已被其他程序占用",
                    ),
                );
                false
            },
        }
    }

    pub open spec fn passthrough_toggled(self, before: Session) -> bool {
        &&& self == (Session {
            mouse_passthrough: !before.mouse_passthrough,
            reapply_frames: REAPPLY_FRAMES,
            status: self.status,
            ..before
        })
        &&& self.status@ == if before.mouse_passthrough {
            "鼠标穿透已关闭"@
        } else {
            "鼠标穿透已开启"@
        }
    }

    pub fn toggle_mouse_passthrough(&mut self)
        ensures
            final(self).passthrough_toggled(*old(self)),
    {
        self.mouse_passthrough = !self.mouse_passthrough;
        self.reapply_frames = REAPPLY_FRAMES;
        self.status = if self.mouse_passthrough {
            "鼠标穿透已开启".to_owned()
        } else {
            "鼠标穿透已关闭".to_owned()
        };
    }

    pub fn toggle_always_on_top(&mut self)
        ensures
            *final(self) == (Session {
                always_on_top: !old(self).always_on_top,
                reapply_frames: REAPPLY_FRAMES,
                status: final(self).status,
                ..*old(self)
            }),
            final(self).status@ == if old(self).always_on_top {
                "窗口置顶已关闭"@
            } else {
                "窗口置顶已开启"@
            },
    {
        self.always_on_top = !self.always_on_top;
        self.reapply_frames = REAPPLY_FRAMES;
        self.status = if self.always_on_top {
            "窗口置顶已开启".to_owned()
        } else {
            "窗口置顶已关闭".to_owned()
        };
    }

    /// Forgets the fight.
    pub fn reset(&mut self)
        ensures
            final(self).state.is_cleared(),
            *final(self) == (Session {
                state: final(self).state,
                hit_detail_char_id: None,
                ..*old(self)
            }),
    {
        self.state.clear();
        self.hit_detail_char_id = None;
    }

    /// Makes ready for playing something back.
    pub fn begin_playback(&mut self, kind: Playback)
        ensures
            final(self).state.is_cleared(),
            final(self).status@ == playback_status(kind),
            *final(self) == (Session {
                state: final(self).state,
                status: final(self).status,
                hit_detail_char_id: None,
                ..*old(self)
            }),
    {
        self.reset();
        self.status = match kind {
            Playback::HitLog => "正在回放命中日志...".to_owned(),
            Playback::Pcapng => "正在导入并解析 pcapng...".to_owned(),
            Playback::CaptureJson => "正在导入抓包 JSON...".to_owned(),
        };
    }

    /// Notes that the game's connection was looked for.
    pub fn network_checked(&mut self, error: Option<String>)
        ensures
            match error {
                None => {
                    &&& final(self).status@ == "已检测到游戏，准备就绪"@
                    &&& *final(self) == (Session {
                        status: final(self).status,
                        diagnostic: None,
                        ..*old(self)
                    })
                },
                Some(e) => *final(self) == (Session { diagnostic: Some(e), ..*old(self) }),
            },
    {
        match error {
            None => {
                self.status = "已检测到游戏，准备就绪".to_owned();
                self.diagnostic = None;
            },
            Some(e) => {
                self.diagnostic = Some(e);
            },
        }
    }

    /// Whether there is anything to write out, and nothing running that adds to it.
    pub open spec fn exportable(self, running: bool) -> bool {
        !running && (self.state.hits@.len() > 0 || self.state.packets@.len() > 0)
    }

    pub fn can_export(&self, running: bool) -> (r: bool)
        ensures
            r == self.exportable(running),
    {
        !running && (self.state.hits.len() > 0 || self.state.packets.len() > 0)
    }

    /// Begins to write the fight out, or reports why that cannot be.
    pub fn begin_export(&mut self, running: bool) -> (allowed: bool)
        ensures
            allowed == old(self).exportable(running),
            allowed ==> *final(self) == *old(self),
            !allowed ==> *final(self) == (Session {
                last_error: final(self).last_error,
                ..*old(self)
            }),
            !allowed ==> (final(self).last_error matches Some(e) && e@ == if old(
                self,
            ).state.hits@.len() == 0 && old(self).state.packets@.len() == 0 {
                "当前没有可导出的抓包信息"@
            } else {
                "请先停止抓包或回放，再导出本次抓包信息"@
            }),
    {
        if self.state.hits.len() == 0 && self.state.packets.len() == 0 {
            self.last_error = Some("当前没有可导出的抓包信息".to_owned());
            return false;
        }
        if running {
            self.last_error = Some("请先停止抓包或回放，再导出本次抓包信息".to_owned());
            return false;
        }
        true
    }

    /// Reports how writing the fight out to a file went.
    pub fn end_export(&mut self, path: &str, error: Option<String>)
        ensures
            match error {
                None => {
                    &&& final(self).status@ == "已导出抓包信息："@ + path@
                    &&& *final(self) == (Session {
                        status: final(self).status,
                        last_error: None,
                        ..*old(self)
                    })
                },
                Some(e) => {
                    &&& final(self).last_error matches Some(s) && s@ == "导出抓包信息失败："@ + e@
                    &&& *final(self) == (Session {
                        last_error: final(self).last_error,
                        ..*old(self)
                    })
                },
            },
    {
        match error {
            None => {
                self.status = text::concat2("已导出抓包信息：", path);
                self.last_error = None;
            },
            Some(e) => {
                self.last_error = Some(text::concat2("导出抓包信息失败：", e.as_str()));
            },
        }
    }

    /// Asks for a file. The dialog opens once the windows have had a frame to get
    /// out of its way.
    pub fn request_import(&mut self, kind: ImportKind)
        ensures
            *final(self) == (Session {
                pending_import: Some((kind, DIALOG_DELAY)),
                ..*old(self)
            }),
    {
        self.pending_import = Some((kind, DIALOG_DELAY));
    }

    /// Whether the dialog is to open in this frame.
    pub fn next_import(&mut self) -> (due: Option<ImportKind>)
        ensures
            match old(self).pending_import {
                None => due is None && *final(self) == *old(self),
                Some((kind, delay)) => if delay > 0 {
                    &&& due is None
                    &&& *final(self) == (Session {
                        pending_import: Some((kind, (delay - 1) as u8)),
                        ..*old(self)
                    })
                } else {
                    &&& due == Some(kind)
                    &&& *final(self) == (Session { pending_import: None, ..*old(self) })
                },
            },
    {
        match self.pending_import {
            None => None,
            Some((kind, delay)) => {
                if delay > 0 {
                    self.pending_import = Some((kind, delay - 1));
                    None
                } else {
                    self.pending_import = None;
                    Some(kind)
                }
            },
        }
    }

    /// Whether the window's look is to be applied again in this frame.
    pub fn take_reapply(&mut self) -> (due: bool)
        ensures
            due == (old(self).reapply_frames > 0),
            *final(self) == (Session {
                reapply_frames: if due {
                    (old(self).reapply_frames - 1) as u8
                } else {
                    0
                },
                ..*old(self)
            }),
    {
        if self.reapply_frames > 0 {
            self.reapply_frames = self.reapply_frames - 1;
            true
        } else {
            false
        }
    }
}

/// The fight with a hit counted in.
pub open spec fn counts_hit(before: CombatState, after: CombatState, hit: model::Hit) -> bool {
    &&& after.hits@ == model::newest(before.hits@.push(hit), model::MAX_HITS as int)
    &&& after.packets@ == before.packets@
    &&& after.started_at == Some(
        match before.started_at {
            Some(t) => if hit.timestamp < t {
                hit.timestamp
            } else {
                t
            },
            None => hit.timestamp,
        },
    )
    &&& after.ended_at == Some(
        match before.ended_at {
            Some(t) => if hit.timestamp > t {
                hit.timestamp
            } else {
                t
            },
            None => hit.timestamp,
        },
    )
    &&& after.total_damage == model::sat_add(before.total_damage, hit.damage)
    &&& after.row(hit.char_id) == Some(model::stats_with(before.row(hit.char_id), hit@))
    &&& forall|id: u32| id != hit.char_id ==> #[trigger] after.row(id) == before.row(id)
}

/// The fight with a packet listed.
pub open spec fn lists_packet(
    before: CombatState,
    after: CombatState,
    packet: model::PacketDebug,
) -> bool {
    &&& after.packets@ == model::newest(before.packets@.push(packet), model::MAX_PACKETS as int)
    &&& after.hits@ == before.hits@
    &&& after.stats@ == before.stats@
    &&& after.started_at == before.started_at
    &&& after.ended_at == before.ended_at
    &&& after.total_damage == before.total_damage
}

/// How long the window may wait before it is drawn again, in milliseconds.
pub fn repaint_interval(running: bool) -> (ms: u64)
    ensures
        ms == if running {
            100
        } else {
            500u64
        },
{
    if running {
        100
    } else {
        500
    }
}

/// Switching twice changes nothing but what is reported and the look that is to be
/// applied again.
pub proof fn switching_twice_changes_nothing(a: Session, b: Session, c: Session)
    requires
        b.passthrough_toggled(a),
        c.passthrough_toggled(b),
    ensures
        c == (Session { status: c.status, reapply_frames: c.reapply_frames, ..a }),
{
}

} // verus!
