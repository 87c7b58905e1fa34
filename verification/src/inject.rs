//! The text-injector's decision logic: the primary text-services channel
//! is tried when its one-time initialization succeeded, and any failure
//! of a single insert falls back to the clipboard simulation for that
//! call alone. The platform calls themselves (the service bridge, the
//! clipboard, the synthesized keys) live outside; they report their
//! integer status codes and this machine decides.

use vstd::prelude::*;

verus! {

/// The errors an insert can report, mapped from the service bridge's
/// status codes.
#[derive(Clone, Copy, PartialEq, Eq, Structural, Debug)]
pub enum InjectorError {
    NotInitialized,
    EncodingFailed,
    InsertFailed,
    NoFocusContext,
    OutOfMemory,
    Unknown,
}

/// The service bridge's insert status, decoded: zero is success, each
/// negative code its own error, anything else unknown.
pub open spec fn spec_insert_status(code: i32) -> Result<(), InjectorError> {
    if code == 0 {
        Ok(())
    } else if code == -1 {
        Err(InjectorError::NotInitialized)
    } else if code == -2 {
        Err(InjectorError::EncodingFailed)
    } else if code == -3 {
        Err(InjectorError::InsertFailed)
    } else if code == -4 {
        Err(InjectorError::NoFocusContext)
    } else if code == -5 {
        Err(InjectorError::OutOfMemory)
    } else {
        Err(InjectorError::Unknown)
    }
}

/// Decodes an insert status code.
pub fn insert_status(code: i32) -> (r: Result<(), InjectorError>)
    ensures
        r == spec_insert_status(code),
{
    if code == 0 {
        Ok(())
    } else if code == -1 {
        Err(InjectorError::NotInitialized)
    } else if code == -2 {
        Err(InjectorError::EncodingFailed)
    } else if code == -3 {
        Err(InjectorError::InsertFailed)
    } else if code == -4 {
        Err(InjectorError::NoFocusContext)
    } else if code == -5 {
        Err(InjectorError::OutOfMemory)
    } else {
        Err(InjectorError::Unknown)
    }
}

/// The injector: holds whether the primary text-services channel came up.
/// Initialization failure is permanent; insert failures are per-call.
pub struct TextInjector {
    pub tsf_enabled: bool,
}

impl TextInjector {
    /// An injector given the one-time initialization status: zero enables
    /// the primary channel, anything else disables it for good.
    pub fn new(init_code: i32) -> (r: Self)
        ensures
            r.tsf_enabled == (init_code == 0),
    {
        TextInjector { tsf_enabled: init_code == 0 }
    }

    /// Whether the primary text-services channel is up.
    pub fn is_tsf_enabled(&self) -> (r: bool)
        ensures
            r == self.tsf_enabled,
    {
        self.tsf_enabled
    }

    /// Whether an insert should go to the clipboard fallback: always when
    /// the primary channel is down, and for this call when the primary
    /// insert reported anything but success.
    pub fn should_fall_back(&self, primary_result: Option<i32>) -> (r: bool)
        ensures
            r == (!self.tsf_enabled || (primary_result matches Some(code) && code != 0)),
    {
        if !self.tsf_enabled {
            return true;
        }
        match primary_result {
            Some(code) => code != 0,
            None => false,
        }
    }

    /// A short description of the active channel.
    pub fn get_mode_description(&self) -> (r: String)
        ensures
            self.tsf_enabled ==> r@ == "text services"@,
            !self.tsf_enabled ==> r@ == "clipboard fallback"@,
    {
        if self.tsf_enabled {
            "text services".to_owned()
        } else {
            "clipboard fallback".to_owned()
        }
    }
}

} // verus!
