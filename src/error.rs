//! The errors that parsing subtitle text can report.
use vstd::prelude::*;

verus! {

/// Why a subtitle buffer or timestamp was rejected.
#[derive(Debug, Clone, Copy, PartialEq, Eq, Structural)]
pub enum SubError {
    /// No candidate text encoding accepted the bytes.
    UndecodableFile,
    /// A timestamp is outside the `HH:MM:SS,mmm` grammar or its ranges.
    MalformedTimestamp,
    /// The cue block at `position` (counted from 1) is structurally invalid.
    MalformedCue { position: usize },
}

} // verus!
