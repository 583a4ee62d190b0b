//! Configuration validation: single-byte settings and quote-style names.

use rustcsv::error::CsvError;
use rustcsv::reader::ReaderConfig;
use rustcsv::util::{get_optional_single_byte, get_single_byte};
use rustcsv::writer::{parse_quote_style, QuoteStyle, WriterConfig};

#[test]
fn single_byte_accepts_exactly_one() {
    assert_eq!(get_single_byte(&[b';']), Ok(b';'));
    assert_eq!(get_single_byte(&[]), Err(CsvError::Config));
    assert_eq!(get_single_byte(&[b',', b';']), Err(CsvError::Config));
    assert_eq!(get_single_byte(&[1, 2, 3]), Err(CsvError::Config));
}

#[test]
fn optional_single_byte_defaults_only_on_absence() {
    assert_eq!(get_optional_single_byte(None, b','), Ok(b','));
    assert_eq!(get_optional_single_byte(Some(&[b'\t']), b','), Ok(b'\t'));
    assert_eq!(get_optional_single_byte(Some(&[]), b','), Err(CsvError::Config));
    assert_eq!(
        get_optional_single_byte(Some(&[b'a', b'b']), b','),
        Err(CsvError::Config)
    );
}

#[test]
fn reader_config_rejects_zero_and_two_byte_values() {
    assert!(matches!(
        ReaderConfig::new(Some(&[]), None, false),
        Err(CsvError::Config)
    ));
    assert!(matches!(
        ReaderConfig::new(Some(&[b',', b',']), None, false),
        Err(CsvError::Config)
    ));
    assert!(matches!(
        ReaderConfig::new(None, Some(&[]), false),
        Err(CsvError::Config)
    ));
    assert!(matches!(
        ReaderConfig::new(None, Some(&[b'\r', b'\n']), false),
        Err(CsvError::Config)
    ));
}

#[test]
fn reader_config_defaults() {
    let c = ReaderConfig::new(None, None, true).unwrap();
    assert_eq!(c.delimiter, b',');
    assert_eq!(c.terminator, b'\n');
    assert!(c.flexible_row_lengths);
    let c = ReaderConfig::new(Some(&[b';']), Some(&[b'\x1e']), false).unwrap();
    assert_eq!(c.delimiter, b';');
    assert_eq!(c.terminator, b'\x1e');
    assert!(!c.flexible_row_lengths);
}

#[test]
fn writer_config_rejects_zero_and_two_byte_values() {
    assert!(matches!(
        WriterConfig::new(Some(&[]), None, None, None),
        Err(CsvError::Config)
    ));
    assert!(matches!(
        WriterConfig::new(Some(&[b'\r', b'\n']), None, None, None),
        Err(CsvError::Config)
    ));
    assert!(matches!(
        WriterConfig::new(None, Some(&[]), None, None),
        Err(CsvError::Config)
    ));
    assert!(matches!(
        WriterConfig::new(None, Some(&[b'\\', b'\\']), None, None),
        Err(CsvError::Config)
    ));
}

#[test]
fn writer_config_defaults() {
    let c = WriterConfig::new(None, None, None, None).unwrap();
    assert_eq!(c.delimiter, b',');
    assert_eq!(c.terminator, b'\n');
    assert_eq!(c.escape, b'\\');
    assert!(c.double_quote);
    assert_eq!(c.quote_style, QuoteStyle::Necessary);
    assert_eq!(c, WriterConfig::default());
}

#[test]
fn quote_style_names() {
    assert_eq!(parse_quote_style("necessary"), Ok(QuoteStyle::Necessary));
    assert_eq!(parse_quote_style("always"), Ok(QuoteStyle::Always));
    assert_eq!(parse_quote_style("never"), Ok(QuoteStyle::Never));
    assert_eq!(parse_quote_style("non_numeric"), Ok(QuoteStyle::NonNumeric));
    assert_eq!(parse_quote_style("sometimes"), Err(CsvError::Config));
    assert_eq!(parse_quote_style(""), Err(CsvError::Config));
}
