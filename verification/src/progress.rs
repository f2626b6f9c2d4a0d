//! Progress reporting, logging and cancellation for long-running operations.

use vstd::prelude::*;
use crate::errors::{IoError, IoErrorKind};

verus! {

/// A stage of a long-running operation.
#[derive(Clone, Copy, Debug, PartialEq, Eq, Structural)]
pub enum Phase {
    /// Reading archive metadata.
    Opening,
    /// Walking the source tree. `done` counts entries found; `total` is 0.
    Scanning,
    /// Hashing and analyzing source files. Counted in bytes.
    Hashing,
    /// Reading, compressing and writing new data. Counted in uncompressed bytes.
    Packing,
    /// Re-hashing archive bytes on disk. Counted in bytes.
    Verifying,
    /// Decompressing blobs and checking their content hashes. Counted in bytes.
    VerifyingContent,
    /// Writing restored files. Counted in bytes.
    Extracting,
}

/// Progress through the file currently being processed.
#[derive(Clone, Copy, Debug)]
pub struct Item<'a> {
    pub path: &'a str,
    pub done: u64,
    pub total: u64,
}

#[derive(Clone, Copy, Debug)]
pub struct Progress<'a> {
    pub phase: Phase,
    pub done: u64,
    /// 0 when the total is not known in advance.
    pub total: u64,
    pub item: Option<Item<'a>>,
}

impl Phase {
    /// The label a progress display shows for the phase.
    pub open spec fn spec_label(self) -> Seq<char> {
        match self {
            Phase::Opening => "Opening archive"@,
            Phase::Scanning => "Scanning"@,
            Phase::Hashing => "Checking contents"@,
            Phase::Packing => "Compressing & writing"@,
            Phase::Verifying => "Verifying"@,
            Phase::VerifyingContent => "Checking file contents"@,
            Phase::Extracting => "Restoring"@,
        }
    }
}

/// The label a progress display shows for `phase`.
pub fn phase_name(phase: Phase) -> (s: &'static str)
    ensures
        s@ == phase.spec_label(),
{
    match phase {
        Phase::Opening => "Opening archive",
        Phase::Scanning => "Scanning",
        Phase::Hashing => "Checking contents",
        Phase::Packing => "Compressing & writing",
        Phase::Verifying => "Verifying",
        Phase::VerifyingContent => "Checking file contents",
        Phase::Extracting => "Restoring",
    }
}

/// The error `Monitor::checkpoint` returns after cancellation.
pub fn cancelled() -> (e: IoError)
    ensures
        e.kind == IoErrorKind::Interrupted,
        e.message@ == "operation cancelled"@,
{
    IoError::new(IoErrorKind::Interrupted, "operation cancelled")
}

/// Observes a long-running operation. Methods may be called very often, so
/// implementations should be cheap or throttle.
pub trait Monitor {
    fn progress(&self, progress: Progress<'_>) {
    }

    /// A human-readable milestone, e.g. "Found 1,204 files".
    fn log(&self, message: &str) {
    }

    /// Whether cancellation has been requested; never, unless an
    /// implementation says otherwise.
    fn is_cancelled(&self) -> (r: bool)
        default_ensures
            !r,
    {
        false
    }

    /// Returns an `Interrupted` error once cancellation has been requested:
    /// it fails exactly when asking `is_cancelled` answers `true`.
    fn checkpoint(&self) -> (r: Result<(), IoError>)
        ensures
            r matches Err(e) ==> e.kind == IoErrorKind::Interrupted && e.message@
                == "operation cancelled"@,
            r is Err ==> call_ensures(Self::is_cancelled, (self,), true),
            r is Ok ==> call_ensures(Self::is_cancelled, (self,), false),
    {
        if self.is_cancelled() {
            Err(cancelled())
        } else {
            Ok(())
        }
    }
}

/// Ignores all progress and never cancels.
pub struct NoMonitor;

impl Monitor for NoMonitor {
}

} // verus!
