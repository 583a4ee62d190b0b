//! The error taxonomy of the codec.
//!
//! Every failure surfaced by the library is one of a closed set of kinds, so
//! that a caller can always tell a configuration mistake from a stream in the
//! wrong mode, a stream whose own call failed, a field that is not valid
//! UTF-8, or a row with an unexpected number of fields.  Errors that have a
//! meaningful location carry a [`Position`].

use vstd::prelude::*;

verus! {

/// Location of a parse failure: the byte offset of the start of the record in
/// which it occurred, the 1-based line at that offset (lines are counted by
/// newline bytes), and the 0-based index of the record.
#[derive(Clone, Copy, Debug, PartialEq, Eq, Structural)]
pub struct Position {
    pub byte_offset: u64,
    pub line: u64,
    pub record_index: u64,
}

/// Builds a [`Position`] from its three coordinates.
pub fn make_error_position(byte_offset: u64, line: u64, record_index: u64) -> (p: Position)
    ensures
        p == (Position { byte_offset, line, record_index }),
{
    Position { byte_offset, line, record_index }
}

/// One failure kind of the codec.
///
/// - `Config`: a delimiter, terminator or escape value that is not exactly one
///   byte, or an unknown quote-style name; raised at construction.
/// - `Capability`: the supplied source object exposes neither a path nor the
///   required read or write capability.
/// - `Mode`: the foreign stream returned decoded text instead of bytes (it was
///   not opened in binary mode).
/// - `Io`: the foreign stream's own call failed, or a local file could not be
///   opened.
/// - `Decode`: a field's bytes are not valid UTF-8.
/// - `Structure`: a record's field count disagrees with the count established
///   by the first record while flexible row lengths are disabled.
/// - `Value`: a malformed value not covered above, such as a record whose
///   quoting never terminates, or a field that the `Never` quoting style
///   cannot emit unambiguously.
#[derive(Clone, Copy, Debug, PartialEq, Eq, Structural)]
pub enum CsvError {
    Config,
    Capability,
    Mode,
    Io,
    Decode { position: Position },
    Structure { position: Position, expected: usize, got: usize },
    Value,
}

} // verus!
