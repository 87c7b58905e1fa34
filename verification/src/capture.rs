//! The key-capture policy: the decision the low-level keyboard hook makes
//! for every event, as a pure state machine over the shared flags. The
//! hook installation and the OS callback plumbing stay outside; they feed
//! events in and obey the decision that comes back.

use vstd::prelude::*;
use crate::session::EnglishInputState;

verus! {

pub const VK_SHIFT: u32 = 16;

pub const VK_CAPITAL: u32 = 20;

pub const VK_CONTROL: u32 = 17;

pub const VK_MENU: u32 = 18;

pub const VK_F4: u32 = 115;

/// What the hook does with one event: hand it to the host application,
/// swallow it, or swallow it and forward it to the session.
#[derive(Clone, Copy, PartialEq, Eq, Structural, Debug)]
pub enum CaptureDecision {
    PassThrough,
    Swallow,
    Forward,
}

/// The flags the hook consults and toggles. They mirror the session's
/// `AppState`; the glue keeps the two in step.
#[derive(Clone, Copy, PartialEq, Eq, Structural, Debug)]
pub struct HookState {
    pub active: bool,
    pub input_buffer_empty: bool,
    pub injecting_text: bool,
    pub english_input_state: EnglishInputState,
}

/// A letter key.
pub open spec fn is_letter_vk(vk: u32) -> bool {
    0x41 <= vk && vk <= 0x5A
}

/// A digit key `1`–`9`.
pub open spec fn is_digit_vk(vk: u32) -> bool {
    0x31 <= vk && vk <= 0x39
}

/// A punctuation key the session commits on.
pub open spec fn is_capture_punct_vk(vk: u32) -> bool {
    vk == 0xDB || vk == 0xDD || vk == 0xDC || vk == 0xBA || vk == 0xBC || vk == 0xBE
}

/// The English state after a Shift toggle: Yi and lower case alternate.
pub open spec fn shift_toggle(e: EnglishInputState) -> EnglishInputState {
    match e {
        EnglishInputState::Yi => EnglishInputState::LowerCase,
        EnglishInputState::LowerCase => EnglishInputState::Yi,
        EnglishInputState::UpperCase => EnglishInputState::Yi,
    }
}

/// The English state after a CapsLock toggle: Yi and upper case
/// alternate.
pub open spec fn caps_toggle(e: EnglishInputState) -> EnglishInputState {
    match e {
        EnglishInputState::Yi => EnglishInputState::UpperCase,
        EnglishInputState::LowerCase => EnglishInputState::Yi,
        EnglishInputState::UpperCase => EnglishInputState::Yi,
    }
}

/// The hook's state after one event and its decision, as `process_key`
/// computes them.
pub open spec fn spec_process_key(
    s: HookState,
    vk: u32,
    is_down: bool,
    ctrl: bool,
    alt: bool,
    shift: bool,
) -> (HookState, CaptureDecision) {
    if s.injecting_text {
        (s, CaptureDecision::PassThrough)
    } else if vk == VK_F4 && is_down {
        let active2 = !s.active;
        let english2 = if active2 {
            EnglishInputState::Yi
        } else {
            s.english_input_state
        };
        (
            HookState { active: active2, english_input_state: english2, ..s },
            CaptureDecision::Swallow,
        )
    } else if !s.active {
        (s, CaptureDecision::PassThrough)
    } else if s.input_buffer_empty && is_down && vk == VK_SHIFT {
        (
            HookState { english_input_state: shift_toggle(s.english_input_state), ..s },
            CaptureDecision::PassThrough,
        )
    } else if s.input_buffer_empty && is_down && vk == VK_CAPITAL {
        (
            HookState { english_input_state: caps_toggle(s.english_input_state), ..s },
            CaptureDecision::PassThrough,
        )
    } else if s.input_buffer_empty {
        if s.english_input_state == EnglishInputState::Yi && is_letter_vk(vk) && !ctrl && !alt
            && !shift {
            (s, CaptureDecision::Forward)
        } else {
            (s, CaptureDecision::PassThrough)
        }
    } else if is_letter_vk(vk) && !ctrl && !alt {
        (s, CaptureDecision::Forward)
    } else if is_digit_vk(vk) && !ctrl && !alt {
        (s, CaptureDecision::Forward)
    } else if (vk == crate::session::VK_BACK || vk == crate::session::VK_SPACE || vk
        == crate::session::VK_ESCAPE) && !ctrl && !alt {
        (s, CaptureDecision::Forward)
    } else if is_capture_punct_vk(vk) {
        (s, CaptureDecision::Forward)
    } else {
        (s, CaptureDecision::PassThrough)
    }
}

impl HookState {
    /// The hook state at startup: inactive, buffer empty, not injecting,
    /// Yi letters.
    pub fn new() -> (r: Self)
        ensures
            !r.active,
            r.input_buffer_empty,
            !r.injecting_text,
            r.english_input_state == EnglishInputState::Yi,
    {
        HookState {
            active: false,
            input_buffer_empty: true,
            injecting_text: false,
            english_input_state: EnglishInputState::Yi,
        }
    }

    /// Marks whether the committer is injecting synthesized keys; while it
    /// is, the hook passes everything through.
    pub fn set_injecting_text(&mut self, injecting: bool)
        ensures
            *final(self) == (HookState { injecting_text: injecting, ..*old(self) }),
    {
        self.injecting_text = injecting;
    }

    /// Mirrors the composition buffer's emptiness.
    pub fn set_input_buffer_empty(&mut self, empty: bool)
        ensures
            *final(self) == (HookState { input_buffer_empty: empty, ..*old(self) }),
    {
        self.input_buffer_empty = empty;
    }

    /// Sets the English-input state.
    pub fn set_english_input_state(&mut self, state: EnglishInputState)
        ensures
            *final(self) == (HookState { english_input_state: state, ..*old(self) }),
    {
        self.english_input_state = state;
    }

    /// The English-input state.
    pub fn get_english_input_state(&self) -> (r: EnglishInputState)
        ensures
            r == self.english_input_state,
    {
        self.english_input_state
    }

    /// Decides one key event, as `spec_process_key` states. While
    /// injecting, everything passes through. F4 key-down toggles the
    /// engine and is swallowed; activation resets the English state.
    /// Inactive, everything passes through. With an empty buffer, Shift
    /// and CapsLock key-downs toggle the English state and pass through,
    /// and bare letters are forwarded only in the Yi state. With a
    /// non-empty buffer, letters, digits, Backspace, Space, Escape
    /// (without Ctrl or Alt) and the commit punctuation are forwarded;
    /// everything else passes through.
    pub fn process_key(&mut self, vk: u32, is_down: bool, ctrl: bool, alt: bool, shift: bool) -> (r:
        CaptureDecision)
        ensures
            (*final(self), r) == spec_process_key(*old(self), vk, is_down, ctrl, alt, shift),
    {
        if self.injecting_text {
            return CaptureDecision::PassThrough;
        }
        if vk == VK_F4 && is_down {
            self.active = !self.active;
            if self.active {
                self.english_input_state = EnglishInputState::Yi;
            }
            return CaptureDecision::Swallow;
        }
        if !self.active {
            return CaptureDecision::PassThrough;
        }
        if self.input_buffer_empty && is_down && vk == VK_SHIFT {
            self.english_input_state = match self.english_input_state {
                EnglishInputState::Yi => EnglishInputState::LowerCase,
                EnglishInputState::LowerCase => EnglishInputState::Yi,
                EnglishInputState::UpperCase => EnglishInputState::Yi,
            };
            return CaptureDecision::PassThrough;
        }
        if self.input_buffer_empty && is_down && vk == VK_CAPITAL {
            self.english_input_state = match self.english_input_state {
                EnglishInputState::Yi => EnglishInputState::UpperCase,
                EnglishInputState::LowerCase => EnglishInputState::Yi,
                EnglishInputState::UpperCase => EnglishInputState::Yi,
            };
            return CaptureDecision::PassThrough;
        }
        if self.input_buffer_empty {
            let is_letter: bool = 0x41 <= vk && vk <= 0x5A;
            if matches!(self.english_input_state, EnglishInputState::Yi) && is_letter && !ctrl
                && !alt && !shift {
                return CaptureDecision::Forward;
            }
            return CaptureDecision::PassThrough;
        }
        let is_letter: bool = 0x41 <= vk && vk <= 0x5A;
        let is_digit: bool = 0x31 <= vk && vk <= 0x39;
        if is_letter && !ctrl && !alt {
            return CaptureDecision::Forward;
        }
        if is_digit && !ctrl && !alt {
            return CaptureDecision::Forward;
        }
        if (vk == crate::session::VK_BACK || vk == crate::session::VK_SPACE || vk
            == crate::session::VK_ESCAPE) && !ctrl && !alt {
            return CaptureDecision::Forward;
        }
        if vk == 0xDB || vk == 0xDD || vk == 0xDC || vk == 0xBA || vk == 0xBC || vk == 0xBE {
            return CaptureDecision::Forward;
        }
        CaptureDecision::PassThrough
    }
}

/// English pass-through: with the engine active, the buffer empty and the
/// English state toggled away from Yi, letter keys reach the host
/// application unchanged and the hook state does not move.
pub proof fn lemma_english_passthrough(s: HookState, vk: u32, ctrl: bool, alt: bool, shift: bool)
    requires
        !s.injecting_text,
        s.active,
        s.input_buffer_empty,
        s.english_input_state == EnglishInputState::LowerCase || s.english_input_state
            == EnglishInputState::UpperCase,
        is_letter_vk(vk),
    ensures
        spec_process_key(s, vk, true, ctrl, alt, shift) == (s, CaptureDecision::PassThrough),
{
}

} // verus!
