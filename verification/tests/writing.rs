//! The writer: quoting styles, escaping, rejection of ambiguous output,
//! and the encode-then-decode round trip.

use rustcsv::error::CsvError;
use rustcsv::reader::{CSVReader, ReadStep, ReaderConfig};
use rustcsv::record::Record;
use rustcsv::writer::{CSVWriter, QuoteStyle, WriterConfig};

fn writer(quote_style: QuoteStyle) -> CSVWriter {
    CSVWriter::new(WriterConfig {
        quote_style,
        ..WriterConfig::default()
    })
}

fn rec(fields: &[&str]) -> Record {
    Record::new(fields.iter().map(|f| f.to_string()).collect())
}

#[test]
fn necessary_quotes_only_special_fields() {
    let mut w = writer(QuoteStyle::Necessary);
    w.writerow(&rec(&["a,b"])).unwrap();
    assert_eq!(w.take_output(), b"\"a,b\"\n");
    w.writerow(&rec(&["plain", "x y"])).unwrap();
    assert_eq!(w.take_output(), b"plain,x y\n");
    w.writerow(&rec(&["with\nnewline", "q\"q"])).unwrap();
    assert_eq!(w.take_output(), b"\"with\nnewline\",\"q\"\"q\"\n");
}

#[test]
fn never_style_rejects_ambiguous_fields() {
    let mut w = writer(QuoteStyle::Never);
    assert_eq!(w.writerow(&rec(&["a,b"])), Err(CsvError::Value));
    assert_eq!(w.take_output(), b"");
    assert_eq!(w.writerow(&rec(&["a\nb"])), Err(CsvError::Value));
    assert_eq!(w.writerow(&rec(&["a\"b"])), Err(CsvError::Value));
    w.writerow(&rec(&["plain", "text"])).unwrap();
    assert_eq!(w.take_output(), b"plain,text\n");
}

#[test]
fn always_style_quotes_everything() {
    let mut w = writer(QuoteStyle::Always);
    w.writerow(&rec(&["a", "1"])).unwrap();
    assert_eq!(w.take_output(), b"\"a\",\"1\"\n");
}

#[test]
fn non_numeric_style_leaves_numbers_bare() {
    let mut w = writer(QuoteStyle::NonNumeric);
    w.writerow(&rec(&["12.5", "-3", "+7", "abc", "1.2.3", ""]))
        .unwrap();
    assert_eq!(
        w.take_output(),
        b"12.5,-3,+7,\"abc\",\"1.2.3\",\"\"\n"
    );
}

#[test]
fn escape_byte_replaces_doubling_when_asked() {
    let mut w = CSVWriter::new(WriterConfig {
        double_quote: false,
        ..WriterConfig::default()
    });
    w.writerow(&rec(&["a\"b"])).unwrap();
    assert_eq!(w.take_output(), b"\"a\\\"b\"\n");
}

#[test]
fn custom_terminator_ends_each_row() {
    let mut w = CSVWriter::new(WriterConfig {
        terminator: b';',
        ..WriterConfig::default()
    });
    w.writerow(&rec(&["a", "b"])).unwrap();
    w.writerow(&rec(&["c"])).unwrap();
    assert_eq!(w.take_output(), b"a,b;c;");
}

#[test]
fn empty_record_is_just_a_terminator() {
    let mut w = writer(QuoteStyle::Necessary);
    w.writerow(&rec(&[])).unwrap();
    assert_eq!(w.take_output(), b"\n");
}

#[test]
fn take_output_drains_the_buffer() {
    let mut w = writer(QuoteStyle::Necessary);
    w.writerow(&rec(&["a"])).unwrap();
    assert_eq!(w.take_output(), b"a\n");
    assert_eq!(w.take_output(), b"");
}

#[test]
fn encode_then_decode_returns_the_records() {
    let rows: Vec<Vec<&str>> = vec![
        vec!["plain", "with,comma", "with\"quote"],
        vec!["newline\ninside", "", "tail"],
        vec!["ünïcødé", "末尾", "a\"\"b"],
    ];
    let mut w = writer(QuoteStyle::Necessary);
    for row in &rows {
        w.writerow(&rec(row)).unwrap();
    }
    let bytes = w.take_output();

    let mut r = CSVReader::new(ReaderConfig {
        delimiter: b',',
        terminator: b'\n',
        flexible_row_lengths: true,
    });
    r.push_bytes(&bytes);
    r.finish();
    for row in &rows {
        match r.next() {
            ReadStep::Row(parsed) => {
                assert_eq!(parsed.len(), row.len());
                for (i, f) in row.iter().enumerate() {
                    assert_eq!(parsed.get(i).as_str(), *f);
                }
            }
            _ => panic!("expected a record"),
        }
    }
    assert!(matches!(r.next(), ReadStep::Done));
}

#[test]
fn non_numeric_rows_also_round_trip() {
    let rows: Vec<Vec<&str>> = vec![vec!["12.5", "label"], vec!["-3", "x,y"]];
    let mut w = writer(QuoteStyle::NonNumeric);
    for row in &rows {
        w.writerow(&rec(row)).unwrap();
    }
    let bytes = w.take_output();
    let mut r = CSVReader::new(ReaderConfig {
        delimiter: b',',
        terminator: b'\n',
        flexible_row_lengths: false,
    });
    r.push_bytes(&bytes);
    r.finish();
    for row in &rows {
        match r.next() {
            ReadStep::Row(parsed) => {
                for (i, f) in row.iter().enumerate() {
                    assert_eq!(parsed.get(i).as_str(), *f);
                }
            }
            _ => panic!("expected a record"),
        }
    }
    assert!(matches!(r.next(), ReadStep::Done));
}

#[test]
fn unambiguous_never_rows_round_trip() {
    let rows: Vec<Vec<&str>> = vec![vec!["plain", "text"], vec!["x", "y"]];
    let mut w = writer(QuoteStyle::Never);
    for row in &rows {
        w.writerow(&rec(row)).unwrap();
    }
    let bytes = w.take_output();
    let mut r = CSVReader::new(ReaderConfig {
        delimiter: b',',
        terminator: b'\n',
        flexible_row_lengths: false,
    });
    r.push_bytes(&bytes);
    r.finish();
    for row in &rows {
        match r.next() {
            ReadStep::Row(parsed) => {
                for (i, f) in row.iter().enumerate() {
                    assert_eq!(parsed.get(i).as_str(), *f);
                }
            }
            _ => panic!("expected a record"),
        }
    }
    assert!(matches!(r.next(), ReadStep::Done));
}
