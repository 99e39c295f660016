//! The keys that work while another program has the focus.
use vstd::prelude::*;

use crate::text;

verus! {

/// The Home key.
pub const KEY_HOME: u32 = 0x24;

/// The F12 key.
pub const KEY_F12: u32 = 0x7b;

/// A key went down.
pub const MESSAGE_KEY_DOWN: u32 = 0x100;

/// A key went up.
pub const MESSAGE_KEY_UP: u32 = 0x101;

/// A key went down while Alt was held.
pub const MESSAGE_SYSTEM_KEY_DOWN: u32 = 0x104;

/// A key went up while Alt was held.
pub const MESSAGE_SYSTEM_KEY_UP: u32 = 0x105;

/// What a key asks for.
#[derive(Clone, Debug)]
pub enum HotkeyEvent {
    TogglePassthrough,
    ToggleDebug,
    RegistrationFailed(String),
}

/// What happens to a key.
#[derive(Clone, Copy, Debug, PartialEq, Eq, Structural)]
pub enum KeyMove {
    Down,
    Up,
    Other,
}

/// What a keyboard message says.
pub open spec fn move_of(message: u32) -> KeyMove {
    if message == MESSAGE_KEY_DOWN || message == MESSAGE_SYSTEM_KEY_DOWN {
        KeyMove::Down
    } else if message == MESSAGE_KEY_UP || message == MESSAGE_SYSTEM_KEY_UP {
        KeyMove::Up
    } else {
        KeyMove::Other
    }
}

fn read_move(message: u32) -> (r: KeyMove)
    ensures
        r == move_of(message),
{
    if message == MESSAGE_KEY_DOWN || message == MESSAGE_SYSTEM_KEY_DOWN {
        KeyMove::Down
    } else if message == MESSAGE_KEY_UP || message == MESSAGE_SYSTEM_KEY_UP {
        KeyMove::Up
    } else {
        KeyMove::Other
    }
}

/// Which of the keys are held. A held key repeats its message; it counts once.
#[derive(Clone, Copy, Debug, PartialEq, Eq, Structural)]
pub struct HotkeyKeys {
    pub home_down: bool,
    pub f12_down: bool,
}

/// Whether a key is held after a message.
pub open spec fn held(before: bool, m: KeyMove) -> bool {
    match m {
        KeyMove::Down => true,
        KeyMove::Up => false,
        KeyMove::Other => before,
    }
}

/// The keys after a message. Messages that go to the program's own windows are
/// passed over.
pub open spec fn keys_after(keys: HotkeyKeys, key: u32, m: KeyMove, own_window: bool) -> HotkeyKeys {
    if own_window {
        keys
    } else if key == KEY_HOME {
        (HotkeyKeys { home_down: held(keys.home_down, m), f12_down: keys.f12_down })
    } else if key == KEY_F12 {
        (HotkeyKeys { home_down: keys.home_down, f12_down: held(keys.f12_down, m) })
    } else {
        keys
    }
}

/// What a message asks for: a key that goes down and was not held.
pub open spec fn asks_for(keys: HotkeyKeys, key: u32, m: KeyMove, own_window: bool) -> Option<
    HotkeyEvent,
> {
    if own_window || m != KeyMove::Down {
        None
    } else if key == KEY_HOME && !keys.home_down {
        Some(HotkeyEvent::TogglePassthrough)
    } else if key == KEY_F12 && !keys.f12_down {
        Some(HotkeyEvent::ToggleDebug)
    } else {
        None
    }
}

impl HotkeyKeys {
    pub fn new() -> (r: HotkeyKeys)
        ensures
            !r.home_down && !r.f12_down,
    {
        HotkeyKeys { home_down: false, f12_down: false }
    }

    /// Takes a keyboard message.
    pub fn on_message(&mut self, key: u32, message: u32, own_window: bool) -> (event: Option<
        HotkeyEvent,
    >)
        ensures
            *final(self) == keys_after(*old(self), key, move_of(message), own_window),
            event == asks_for(*old(self), key, move_of(message), own_window),
    {
        if own_window {
            return None;
        }
        let m = read_move(message);
        if key == KEY_HOME {
            let fresh = !self.home_down;
            match m {
                KeyMove::Down => {
                    self.home_down = true;
                    if fresh {
                        return Some(HotkeyEvent::TogglePassthrough);
                    }
                },
                KeyMove::Up => {
                    self.home_down = false;
                },
                KeyMove::Other => {},
            }
        } else if key == KEY_F12 {
            let fresh = !self.f12_down;
            match m {
                KeyMove::Down => {
                    self.f12_down = true;
                    if fresh {
                        return Some(HotkeyEvent::ToggleDebug);
                    }
                },
                KeyMove::Up => {
                    self.f12_down = false;
                },
                KeyMove::Other => {},
            }
        }
        None
    }
}

/// The keys after messages, the oldest first.
pub open spec fn keys_after_all(keys: HotkeyKeys, messages: Seq<(u32, KeyMove, bool)>) -> HotkeyKeys
    decreases messages.len(),
{
    if messages.len() == 0 {
        keys
    } else {
        let (key, m, own_window) = messages.last();
        keys_after(keys_after_all(keys, messages.drop_last()), key, m, own_window)
    }
}

/// A held key asks once: after a message that asked for something, the key asks
/// for nothing until it has gone up, whatever other messages come.
pub proof fn a_held_key_asks_once(
    keys: HotkeyKeys,
    key: u32,
    messages: Seq<(u32, KeyMove, bool)>,
    m: KeyMove,
    own_window: bool,
)
    requires
        asks_for(keys, key, KeyMove::Down, false) is Some,
        forall|i: int|
            0 <= i < messages.len() ==> !((#[trigger] messages[i]).0 == key && messages[i].1
                == KeyMove::Up),
    ensures
        asks_for(
            keys_after_all(keys_after(keys, key, KeyMove::Down, false), messages),
            key,
            m,
            own_window,
        ) is None,
{
    lemma_stays_held(keys_after(keys, key, KeyMove::Down, false), key, messages);
}

spec fn is_held(keys: HotkeyKeys, key: u32) -> bool {
    &&& key == KEY_HOME ==> keys.home_down
    &&& key == KEY_F12 ==> keys.f12_down
}

proof fn lemma_stays_held(keys: HotkeyKeys, key: u32, messages: Seq<(u32, KeyMove, bool)>)
    requires
        is_held(keys, key),
        forall|i: int|
            0 <= i < messages.len() ==> !((#[trigger] messages[i]).0 == key && messages[i].1
                == KeyMove::Up),
    ensures
        is_held(keys_after_all(keys, messages), key),
    decreases messages.len(),
{
    if messages.len() > 0 {
        let head = messages.drop_last();
        assert forall|i: int| 0 <= i < head.len() implies !((#[trigger] head[i]).0 == key
            && head[i].1 == KeyMove::Up) by {
            assert(head[i] == messages[i]);
        }
        lemma_stays_held(keys, key, head);
        let last = messages[messages.len() - 1];
        assert(!(last.0 == key && last.1 == KeyMove::Up));
    }
}

/// What is reported where the keys cannot be listened to.
pub open spec fn failure_text(error: u32) -> Seq<char> {
    "Home / F12 注册失败，GetLastError="@ + text::dec(error as nat)
}

pub fn registration_failure(error: u32) -> (out: HotkeyEvent)
    ensures
        out matches HotkeyEvent::RegistrationFailed(s) && s@ == failure_text(error),
{
    HotkeyEvent::RegistrationFailed(
        text::concat2(
            "Home / F12 注册失败，GetLastError=",
            text::dec_string(error as u64).as_str(),
        ),
    )
}

/// A key goes down with two of the messages and up with two, and Home and F12 each ask
/// for what is theirs when they go down and were up, but not in the own window.
pub proof fn home_and_f12_ask_when_they_go_down(keys: HotkeyKeys, message: u32, key: u32)
    ensures
        message == 256 || message == 260 <==> move_of(message) == KeyMove::Down,
        message == 257 || message == 261 <==> move_of(message) == KeyMove::Up,
        asks_for(keys, key, move_of(message), true) is None,
        asks_for(keys, key, move_of(message), false) is Some ==> (message == 256 || message == 260)
            && (key == 36 || key == 123),
        (message == 256 || message == 260) && !keys.home_down ==> asks_for(
            keys,
            36,
            move_of(message),
            false,
        ) == Some(HotkeyEvent::TogglePassthrough),
        (message == 256 || message == 260) && !keys.f12_down ==> asks_for(
            keys,
            123,
            move_of(message),
            false,
        ) == Some(HotkeyEvent::ToggleDebug),
{
}

/// A key that goes up asks again when it goes down the next time.
pub proof fn keys_that_go_up_ask_again(keys: HotkeyKeys, key: u32)
    requires
        key == 36 || key == 123,
    ensures
        asks_for(keys_after(keys, key, move_of(257), false), key, move_of(256), false) is Some,
        asks_for(keys_after(keys, key, move_of(256), false), key, move_of(256), false) is None,
        keys_after(keys, key, move_of(256), true) == keys,
{
}

} // verus!
