//! A streaming CSV codec: a byte-level tokenizer, a lazy record iterator and a
//! quoting-aware writer, all specified and verified down to the byte sequences
//! they consume and produce.
//!
//! The library itself never performs I/O.  A caller (for example a binding to a
//! host language's file objects) feeds raw byte chunks into [`CSVReader`] and
//! sends the bytes accumulated by [`CSVWriter`] wherever they must go; the
//! decisions about configuration, tokenization, error classification and
//! quoting all live here, with contracts.

pub mod error;
pub mod reader;
pub mod record;
pub mod roundtrip;
pub mod scan;
pub mod stream;
pub mod text;
pub mod util;
pub mod writer;

pub use error::{CsvError, Position};
pub use reader::{CSVReader, ReadStep, ReaderConfig};
pub use record::Record;
pub use writer::{CSVWriter, QuoteStyle, WriterConfig};

use vstd::prelude::*;

verus! {

} // verus!
