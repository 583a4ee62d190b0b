//! Classification of foreign-stream events and capability probing.

use rustcsv::error::{make_error_position, CsvError, Position};
use rustcsv::stream::{classify_read_event, require_capability, ReadEvent};

#[test]
fn bytes_pass_through() {
    let out = classify_read_event(ReadEvent::Bytes(vec![1, 2, 3])).unwrap();
    assert_eq!(out, vec![1, 2, 3]);
    let eof = classify_read_event(ReadEvent::Bytes(vec![])).unwrap();
    assert_eq!(eof, Vec::<u8>::new());
}

#[test]
fn text_means_wrong_mode_not_io() {
    // a stream opened in text mode fails distinctly on the first read
    let r = classify_read_event(ReadEvent::Text("decoded".to_string()));
    assert_eq!(r, Err(CsvError::Mode));
    assert_ne!(r, Err(CsvError::Io));
    assert_ne!(r, Err(CsvError::Capability));
}

#[test]
fn failed_call_is_io() {
    assert_eq!(classify_read_event(ReadEvent::Failed), Err(CsvError::Io));
}

#[test]
fn missing_capability_is_fatal_at_construction() {
    assert_eq!(require_capability(true), Ok(()));
    assert_eq!(require_capability(false), Err(CsvError::Capability));
}

#[test]
fn error_position_carries_its_coordinates() {
    let p = make_error_position(17, 3, 2);
    assert_eq!(
        p,
        Position {
            byte_offset: 17,
            line: 3,
            record_index: 2
        }
    );
}
