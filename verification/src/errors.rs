//! Error kinds surfaced by the recording library.

use vstd::prelude::*;

verus! {

/// The failures a caller can observe.
///
/// - `InvalidName`: a recording name failed validation (path traversal or a
///   missing `.csv` extension) on delete or upload.
/// - `NotFound`: the named recording vanished between listing and access.
/// - `Archive`: writing a ZIP entry failed, or a member's content could not
///   be retrieved while bundling; the whole bundle is aborted.
/// - `Io`: an underlying filesystem or network fault.
#[derive(Clone, Copy, PartialEq, Eq, Structural, Debug)]
pub enum RecorderError {
    InvalidName,
    NotFound,
    Archive,
    Io,
}

impl RecorderError {
    /// A short human-readable description of the error kind.
    pub fn describe(&self) -> (r: &'static str)
        ensures
            r@.len() > 0,
    {
        proof {
            reveal_strlit("invalid recording name");
            reveal_strlit("recording not found");
            reveal_strlit("archive write failed");
            reveal_strlit("i/o fault");
        }
        match self {
            RecorderError::InvalidName => "invalid recording name",
            RecorderError::NotFound => "recording not found",
            RecorderError::Archive => "archive write failed",
            RecorderError::Io => "i/o fault",
        }
    }
}

} // verus!
