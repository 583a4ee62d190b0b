//! Classification of foreign-stream events.
//!
//! The codec reads from and writes to an opaque, call-based stream object
//! that lives outside the library.  The caller performs the boundary call and
//! reports what came back as a plain [`ReadEvent`]; the decisions — which
//! outcomes are data, which are a stream in the wrong mode, which are I/O
//! failures, and whether the object had the required capability at all — are
//! made here, under contract.

use vstd::prelude::*;

use crate::error::CsvError;

verus! {

/// What a single boundary-crossing `read` call produced, as reported by the
/// caller that performed it.
pub enum ReadEvent {
    /// The stream returned a byte sequence (possibly empty, meaning EOF).
    Bytes(Vec<u8>),
    /// The stream returned decoded text: it was opened in text mode.
    Text(String),
    /// The stream's own call failed.
    Failed,
}

/// Classifies the outcome of one foreign `read` call.
///
/// Bytes pass through unchanged.  Decoded text is the distinct
/// "not open in binary mode" failure, so a caller can always tell a wrong
/// mode apart from a wrong object shape and from a read that itself failed,
/// which is surfaced as an I/O failure.
pub fn classify_read_event(event: ReadEvent) -> (r: Result<Vec<u8>, CsvError>)
    ensures
        match event {
            ReadEvent::Bytes(b) => r is Ok && r->Ok_0@ == b@,
            ReadEvent::Text(_) => r == Err::<Vec<u8>, CsvError>(CsvError::Mode),
            ReadEvent::Failed => r == Err::<Vec<u8>, CsvError>(CsvError::Io),
        },
{
    match event {
        ReadEvent::Bytes(b) => Ok(b),
        ReadEvent::Text(_) => Err(CsvError::Mode),
        ReadEvent::Failed => Err(CsvError::Io),
    }
}

/// Decides whether a source object may be adapted at all.
///
/// The caller probes the object once, at construction, for the capability the
/// adapter needs (`read` for a reader, `write` for a writer) and reports
/// whether it was present; absence is the capability error, fatal to that
/// construction attempt.
pub fn require_capability(present: bool) -> (r: Result<(), CsvError>)
    ensures
        present <==> r is Ok,
        !present ==> r == Err::<(), CsvError>(CsvError::Capability),
{
    if present {
        Ok(())
    } else {
        Err(CsvError::Capability)
    }
}

} // verus!
