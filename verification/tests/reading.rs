//! The record iterator: structure enforcement, error resumability,
//! idempotent termination, quoting, and streaming input.

use rustcsv::error::{CsvError, Position};
use rustcsv::reader::{make_records_iterator, CSVReader, ReadStep, ReaderConfig};
use rustcsv::record::Record;

fn reader(delimiter: u8, terminator: u8, flexible: bool) -> CSVReader {
    CSVReader::new(ReaderConfig {
        delimiter,
        terminator,
        flexible_row_lengths: flexible,
    })
}

fn feed_all(r: &mut CSVReader, input: &[u8]) {
    r.push_bytes(input);
    r.finish();
}

fn expect_row(r: &mut CSVReader, want: &[&str]) {
    match r.next() {
        ReadStep::Row(rec) => {
            assert_eq!(rec.len(), want.len());
            for (i, w) in want.iter().enumerate() {
                assert_eq!(rec.get(i).as_str(), *w);
            }
        }
        _ => panic!("expected a record"),
    }
}

#[test]
fn strict_row_lengths_report_structure_error() {
    // first row establishes two fields; the second has one
    let mut r = reader(b',', b'\n', false);
    feed_all(&mut r, b"a,b\nc\n");
    expect_row(&mut r, &["a", "b"]);
    match r.next() {
        ReadStep::Fail(CsvError::Structure {
            position,
            expected,
            got,
        }) => {
            assert_eq!(expected, 2);
            assert_eq!(got, 1);
            assert_eq!(
                position,
                Position {
                    byte_offset: 4,
                    line: 2,
                    record_index: 1
                }
            );
        }
        _ => panic!("expected a structure error"),
    }
    assert!(matches!(r.next(), ReadStep::Done));
}

#[test]
fn flexible_row_lengths_accept_uneven_rows() {
    let mut r = reader(b',', b'\n', true);
    feed_all(&mut r, b"a,b\nc\n");
    expect_row(&mut r, &["a", "b"]);
    expect_row(&mut r, &["c"]);
    assert!(matches!(r.next(), ReadStep::Done));
}

#[test]
fn malformed_utf8_row_is_skippable() {
    // row 2 holds an invalid UTF-8 byte; rows 1 and 3 still come through
    let mut r = reader(b',', b'\n', false);
    feed_all(&mut r, b"a\n\xff\nb\n");
    expect_row(&mut r, &["a"]);
    match r.next() {
        ReadStep::Fail(CsvError::Decode { position }) => {
            assert_eq!(
                position,
                Position {
                    byte_offset: 2,
                    line: 2,
                    record_index: 1
                }
            );
        }
        _ => panic!("expected a decode error"),
    }
    expect_row(&mut r, &["b"]);
    assert!(matches!(r.next(), ReadStep::Done));
}

#[test]
fn termination_is_idempotent() {
    let mut r = reader(b',', b'\n', false);
    feed_all(&mut r, b"x\n");
    expect_row(&mut r, &["x"]);
    assert!(matches!(r.next(), ReadStep::Done));
    assert!(matches!(r.next(), ReadStep::Done));
    assert!(matches!(r.next(), ReadStep::Done));
}

#[test]
fn empty_input_is_immediately_terminal() {
    let mut r = reader(b',', b'\n', false);
    r.finish();
    assert!(matches!(r.next(), ReadStep::Done));
    assert!(matches!(r.next(), ReadStep::Done));
}

#[test]
fn last_record_without_terminator() {
    let mut r = reader(b',', b'\n', false);
    feed_all(&mut r, b"a,b");
    expect_row(&mut r, &["a", "b"]);
    assert!(matches!(r.next(), ReadStep::Done));
}

#[test]
fn quoted_fields_hide_delimiters_and_terminators() {
    let mut r = reader(b',', b'\n', true);
    feed_all(&mut r, b"\"a,b\",c\n\"x\ny\"\n");
    expect_row(&mut r, &["a,b", "c"]);
    expect_row(&mut r, &["x\ny"]);
    assert!(matches!(r.next(), ReadStep::Done));
}

#[test]
fn doubled_quotes_are_literal_quotes() {
    let mut r = reader(b',', b'\n', true);
    feed_all(&mut r, b"\"a\"\"b\"\n");
    expect_row(&mut r, &["a\"b"]);
    assert!(matches!(r.next(), ReadStep::Done));
}

#[test]
fn unterminated_quote_is_an_error_at_end_of_stream() {
    let mut r = reader(b',', b'\n', true);
    r.push_bytes(b"\"abc");
    // before the end is announced the record may still complete
    assert!(matches!(r.next(), ReadStep::NeedInput));
    r.finish();
    assert!(matches!(r.next(), ReadStep::Fail(CsvError::Value)));
    assert!(matches!(r.next(), ReadStep::Done));
}

#[test]
fn records_arrive_as_chunks_complete_them() {
    let mut r = reader(b',', b'\n', false);
    assert!(matches!(r.next(), ReadStep::NeedInput));
    r.push_bytes(b"a,");
    assert!(matches!(r.next(), ReadStep::NeedInput));
    r.push_bytes(b"b\nc,");
    expect_row(&mut r, &["a", "b"]);
    assert!(matches!(r.next(), ReadStep::NeedInput));
    r.push_bytes(b"d\n");
    expect_row(&mut r, &["c", "d"]);
    r.finish();
    assert!(matches!(r.next(), ReadStep::Done));
}

#[test]
fn exotic_single_byte_separators() {
    // a control byte as record separator, semicolon as delimiter
    let mut r = reader(b';', b'\x1e', false);
    feed_all(&mut r, b"a;b\x1ec;d\x1e");
    expect_row(&mut r, &["a", "b"]);
    expect_row(&mut r, &["c", "d"]);
    assert!(matches!(r.next(), ReadStep::Done));
}

#[test]
fn empty_line_is_one_empty_field() {
    let mut r = reader(b',', b'\n', true);
    feed_all(&mut r, b"\na\n");
    expect_row(&mut r, &[""]);
    expect_row(&mut r, &["a"]);
    assert!(matches!(r.next(), ReadStep::Done));
}

#[test]
fn make_records_iterator_is_strict_by_default() {
    let mut r = make_records_iterator(b',', b'\n');
    feed_all(&mut r, b"a,b\nc\n");
    expect_row(&mut r, &["a", "b"]);
    assert!(matches!(r.next(), ReadStep::Fail(CsvError::Structure { .. })));
}

#[test]
fn record_exposes_fields_in_column_order() {
    let rec = Record::new(vec!["one".to_string(), "two".to_string()]);
    assert_eq!(rec.len(), 2);
    assert_eq!(rec.get(0).as_str(), "one");
    assert_eq!(rec.get(1).as_str(), "two");
    assert_eq!(
        rec.fields(),
        &vec!["one".to_string(), "two".to_string()]
    );
}
