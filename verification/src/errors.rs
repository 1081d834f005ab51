//! The error taxonomy surfaced to callers of the store.

use vstd::prelude::*;

verus! {

/// Every way an operation on the store can fail.
///
/// The engine itself reports `KeyNotFound` (removing an absent key) and
/// `ReadFromLog` (a pointer that does not resolve to a decodable command).
/// The remaining variants are reserved for the front end that owns the
/// actual files: failures to open, append to, or otherwise touch them.
#[derive(Debug, Clone, Copy, PartialEq, Eq, Structural)]
pub enum KvsError {
    /// A segment file or the store directory could not be opened or created.
    OpenFile,
    /// A command could not be written to the active segment.
    AppendToLog,
    /// The bytes at a log pointer do not decode to a command.
    ReadFromLog,
    /// `remove` was asked for a key that has no live mapping.
    KeyNotFound,
    /// Any other input/output failure.
    Io,
}

} // verus!
