//! Verified core of an input method for the Yi (Nuosu) script.
//!
//! A user types Latin letters (Yi pinyin); the engine segments the stream
//! into valid Yi syllables, builds a ranked candidate list, and formats the
//! chosen candidate for commit. The dictionary, segmenter, candidate
//! builder, session state machine and key-capture policy live here, each
//! with a contract; the host-specific glue (window drawing, key hooks,
//! text injection) stays outside.

pub mod candidates;
pub mod capture;
pub mod conversion;
pub mod dict;
pub mod inject;
mod jsonio;
pub mod queries;
pub mod segmentation;
pub mod session;
pub mod strutil;

use vstd::prelude::*;

verus! {

/// A key event as delivered by the platform key hook.
pub struct KeyEvent {
    pub vk_code: u32,
    pub scan_code: u32,
    pub flags: u32,
    pub is_key_down: bool,
}

} // verus!
