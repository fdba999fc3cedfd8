//! Supervisor library for a long-running game server: it parses the server's
//! save-protocol file lists, drives the hold/query/resume save cycle as a
//! state machine, plans timestamp-named snapshot directories, and enforces a
//! retention policy over previous snapshots.
use vstd::prelude::*;

pub mod backup;
pub mod chars;
pub mod clock;
pub mod file_list;
pub mod record_name;
pub mod coordinator;
pub mod retention;

verus! {

/// Failure taxonomy of the supervisor.
#[derive(Clone, Copy, Debug, PartialEq, Eq, Structural)]
pub enum BackupError {
    /// Malformed or missing expected response from the subprocess.
    ProtocolViolation,
    /// Copy, truncate, create-directory, or delete failure.
    FilesystemError,
    /// Invalid paths at startup.
    ConfigurationError,
}

} // verus!
