//! The progress and log payloads the patcher reports through its caller's
//! event channel: the pipeline state, a (total, current) counter, and
//! levelled log messages.

use vstd::prelude::*;
use vstd::string::*;

verus! {

/// The phase a patch attempt is in, as reported to the caller.
#[derive(Clone, Copy, Debug, PartialEq, Eq, Structural)]
pub enum State {
    Checking,
    Downloading,
    Patching,
    Done,
    Error,
}

/// One progress report: how many files the phase covers and how many are
/// done so far.
#[derive(Clone, Copy, Debug, PartialEq, Eq, Structural)]
pub struct PatcherEvent {
    pub total: usize,
    pub current: usize,
    pub state: State,
}

impl PatcherEvent {
    /// A progress event for the given phase and counters.
    pub fn new(total: usize, current: usize, state: State) -> (r: PatcherEvent)
        ensures
            r.total == total && r.current == current && r.state == state,
    {
        PatcherEvent { total, current, state }
    }
}

/// A levelled log message for the caller's log channel.
#[derive(Clone, Debug)]
pub struct LogPayload {
    pub level: String,
    pub message: String,
}

impl LogPayload {
    /// An error-level message.
    pub fn error(message: &str) -> (r: LogPayload)
        ensures
            r.level@ == "error"@,
            r.message@ == message@,
    {
        LogPayload { level: "error".to_owned(), message: message.to_owned() }
    }

    /// A warning-level message.
    pub fn warning(message: &str) -> (r: LogPayload)
        ensures
            r.level@ == "warning"@,
            r.message@ == message@,
    {
        LogPayload { level: "warning".to_owned(), message: message.to_owned() }
    }
}

} // verus!
