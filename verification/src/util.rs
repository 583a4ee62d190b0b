//! Validation of single-byte configuration values.
//!
//! The delimiter, terminator and escape settings of the codec must each be
//! exactly one byte.  A value of zero bytes or of two or more bytes is a
//! configuration error, never silently truncated or defaulted.

use vstd::prelude::*;

use crate::error::CsvError;

verus! {

/// Extracts the single byte from `bytes`.
///
/// Succeeds exactly when `bytes` holds one byte; anything shorter or longer
/// is rejected with a configuration error.
pub fn get_single_byte(bytes: &[u8]) -> (r: Result<u8, CsvError>)
    ensures
        bytes@.len() == 1 ==> r == Ok::<u8, CsvError>(bytes@[0]),
        bytes@.len() != 1 ==> r == Err::<u8, CsvError>(CsvError::Config),
{
    if bytes.len() == 1 {
        Ok(bytes[0])
    } else {
        Err(CsvError::Config)
    }
}

/// Extracts the single byte from `bytes`, or falls back to `default` when no
/// value was supplied at all.
///
/// A supplied value must be exactly one byte; only absence selects the
/// default.
pub fn get_optional_single_byte(bytes: Option<&[u8]>, default: u8) -> (r: Result<u8, CsvError>)
    ensures
        match bytes {
            Some(b) => {
                &&& b@.len() == 1 ==> r == Ok::<u8, CsvError>(b@[0])
                &&& b@.len() != 1 ==> r == Err::<u8, CsvError>(CsvError::Config)
            },
            None => r == Ok::<u8, CsvError>(default),
        },
{
    match bytes {
        Some(b) => get_single_byte(b),
        None => Ok(default),
    }
}

} // verus!
