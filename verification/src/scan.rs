//! The byte-level grammar of the format, as specification functions.
//!
//! A stream is a sequence of records separated by a single terminator byte;
//! a record is a sequence of fields separated by a single delimiter byte.
//! A field is quoted when its first byte is `"`; inside quotes a doubled
//! `""` stands for one literal quote, and any other byte — the delimiter and
//! terminator included — is content.  Bytes after a closing quote are taken
//! verbatim until the next delimiter or terminator.  A quote still open when
//! the input ends is a malformed record, never silently closed.
//!
//! These functions scan from an index `i` into the full byte sequence `s`
//! and say, for the executable tokenizer, exactly which bytes form the next
//! field or record, where scanning stopped, and why.

use vstd::prelude::*;

verus! {

/// The quote byte, `"`.
pub const QUOTE: u8 = 34;

/// Why a field ended.
pub enum FieldEnd {
    /// At a delimiter byte: more fields follow in this record.
    Delim,
    /// At a terminator byte: the record is complete.
    Term,
    /// The input ran out.
    Input,
}

/// Result of scanning one field: its content bytes, the index just past the
/// byte that ended it, why it ended, and whether it was well formed (`ok` is
/// false exactly for a quote left open at the end of the input).
pub struct FieldScan {
    pub content: Seq<u8>,
    pub next: int,
    pub end: FieldEnd,
    pub ok: bool,
}

/// Scans an unquoted stretch: content runs until the delimiter `d`, the
/// terminator `t`, or the end of input.
pub open spec fn scan_unquoted(s: Seq<u8>, i: int, d: u8, t: u8) -> FieldScan
    decreases s.len() - i,
{
    if i < 0 || i >= s.len() {
        FieldScan { content: seq![], next: s.len() as int, end: FieldEnd::Input, ok: true }
    } else if s[i] == d {
        FieldScan { content: seq![], next: i + 1, end: FieldEnd::Delim, ok: true }
    } else if s[i] == t {
        FieldScan { content: seq![], next: i + 1, end: FieldEnd::Term, ok: true }
    } else {
        let r = scan_unquoted(s, i + 1, d, t);
        FieldScan { content: seq![s[i]] + r.content, next: r.next, end: r.end, ok: r.ok }
    }
}

/// Scans the inside of a quoted field, starting just past the opening quote.
/// `""` is one literal quote; a lone quote closes the field, after which any
/// trailing bytes up to the delimiter or terminator are taken verbatim.
pub open spec fn scan_quoted(s: Seq<u8>, i: int, d: u8, t: u8) -> FieldScan
    decreases s.len() - i,
{
    if i < 0 || i >= s.len() {
        FieldScan { content: seq![], next: s.len() as int, end: FieldEnd::Input, ok: false }
    } else if s[i] == QUOTE {
        if i + 1 < s.len() && s[i + 1] == QUOTE {
            let r = scan_quoted(s, i + 2, d, t);
            FieldScan { content: seq![QUOTE] + r.content, next: r.next, end: r.end, ok: r.ok }
        } else {
            scan_unquoted(s, i + 1, d, t)
        }
    } else {
        let r = scan_quoted(s, i + 1, d, t);
        FieldScan { content: seq![s[i]] + r.content, next: r.next, end: r.end, ok: r.ok }
    }
}

/// Scans one field beginning at `i`: quoted when the first byte is a quote,
/// unquoted otherwise.
pub open spec fn scan_field(s: Seq<u8>, i: int, d: u8, t: u8) -> FieldScan {
    if 0 <= i < s.len() && s[i] == QUOTE {
        scan_quoted(s, i + 1, d, t)
    } else {
        scan_unquoted(s, i, d, t)
    }
}

pub proof fn lemma_scan_unquoted_bounds(s: Seq<u8>, i: int, d: u8, t: u8)
    requires
        0 <= i <= s.len(),
    ensures
        i <= scan_unquoted(s, i, d, t).next <= s.len(),
        !(scan_unquoted(s, i, d, t).end is Input) ==> scan_unquoted(s, i, d, t).next > i,
        scan_unquoted(s, i, d, t).end is Input ==> scan_unquoted(s, i, d, t).next == s.len(),
        scan_unquoted(s, i, d, t).ok,
    decreases s.len() - i,
{
    if i < s.len() && s[i] != d && s[i] != t {
        lemma_scan_unquoted_bounds(s, i + 1, d, t);
    }
}

pub proof fn lemma_scan_quoted_bounds(s: Seq<u8>, i: int, d: u8, t: u8)
    requires
        0 <= i <= s.len(),
    ensures
        i <= scan_quoted(s, i, d, t).next <= s.len(),
        !(scan_quoted(s, i, d, t).end is Input) ==> scan_quoted(s, i, d, t).next > i,
        scan_quoted(s, i, d, t).end is Input ==> scan_quoted(s, i, d, t).next == s.len(),
        !scan_quoted(s, i, d, t).ok ==> scan_quoted(s, i, d, t).end is Input,
    decreases s.len() - i,
{
    if i < s.len() {
        if s[i] == QUOTE {
            if i + 1 < s.len() && s[i + 1] == QUOTE {
                lemma_scan_quoted_bounds(s, i + 2, d, t);
            } else {
                lemma_scan_unquoted_bounds(s, i + 1, d, t);
            }
        } else {
            lemma_scan_quoted_bounds(s, i + 1, d, t);
        }
    }
}

pub proof fn lemma_scan_field_bounds(s: Seq<u8>, i: int, d: u8, t: u8)
    requires
        0 <= i <= s.len(),
    ensures
        i <= scan_field(s, i, d, t).next <= s.len(),
        !(scan_field(s, i, d, t).end is Input) ==> scan_field(s, i, d, t).next > i,
        scan_field(s, i, d, t).end is Input ==> scan_field(s, i, d, t).next == s.len(),
        !scan_field(s, i, d, t).ok ==> scan_field(s, i, d, t).end is Input,
{
    if 0 <= i < s.len() && s[i] == QUOTE {
        lemma_scan_quoted_bounds(s, i + 1, d, t);
    } else {
        lemma_scan_unquoted_bounds(s, i, d, t);
    }
}

/// Result of scanning one record: its raw fields, the index just past the
/// byte that ended it, whether it ended at a terminator byte (as opposed to
/// the end of input), and whether it was well formed.
pub struct RecordScan {
    pub fields: Seq<Seq<u8>>,
    pub next: int,
    pub term: bool,
    pub ok: bool,
}

/// Scans one record beginning at `i`: fields separated by the delimiter,
/// ended by the terminator or the end of input.  A record always has at
/// least one field, which may be empty.
pub open spec fn scan_record(s: Seq<u8>, i: int, d: u8, t: u8) -> RecordScan
    decreases s.len() - i,
    via scan_record_decreases
{
    let f = scan_field(s, i, d, t);
    if !f.ok {
        RecordScan { fields: seq![], next: f.next, term: false, ok: false }
    } else if f.end is Delim {
        let r = scan_record(s, f.next, d, t);
        RecordScan { fields: seq![f.content] + r.fields, next: r.next, term: r.term, ok: r.ok }
    } else {
        RecordScan { fields: seq![f.content], next: f.next, term: f.end is Term, ok: true }
    }
}

#[via_fn]
proof fn scan_record_decreases(s: Seq<u8>, i: int, d: u8, t: u8) {
    let f = scan_field(s, i, d, t);
    if f.ok && f.end is Delim {
        if i < 0 {
            assert(scan_unquoted(s, i, d, t).end is Input);
        } else if i > s.len() {
            assert(scan_unquoted(s, i, d, t).end is Input);
        } else {
            lemma_scan_field_bounds(s, i, d, t);
        }
    }
}

pub proof fn lemma_scan_record_bounds(s: Seq<u8>, i: int, d: u8, t: u8)
    requires
        0 <= i <= s.len(),
    ensures
        i <= scan_record(s, i, d, t).next <= s.len(),
        i < s.len() ==> scan_record(s, i, d, t).next > i,
        !scan_record(s, i, d, t).term ==> scan_record(s, i, d, t).next == s.len(),
        scan_record(s, i, d, t).ok ==> scan_record(s, i, d, t).fields.len() >= 1,
        !scan_record(s, i, d, t).ok ==> !scan_record(s, i, d, t).term,
    decreases s.len() - i,
{
    let f = scan_field(s, i, d, t);
    lemma_scan_field_bounds(s, i, d, t);
    if f.ok && f.end is Delim {
        lemma_scan_record_bounds(s, f.next, d, t);
    }
}

} // verus!
