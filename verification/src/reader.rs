//! The lazy record iterator: a push-based, position-tracking CSV reader.
//!
//! The caller feeds raw byte chunks in with [`CSVReader::push_bytes`] and
//! marks the end of the stream with [`CSVReader::finish`]; each call to
//! [`CSVReader::next`] either yields the next record, classifies exactly why
//! the next record is malformed, asks for more input, or reports the
//! permanent end of the stream.  A malformed record never stops the
//! iterator: the cursor always moves past it, so the caller may keep
//! calling [`CSVReader::next`] and resume with the following record.

use vstd::prelude::*;
use vstd::utf8::{decode_utf8, valid_utf8};

use crate::error::{CsvError, Position};
use crate::record::Record;
use crate::scan::{
    lemma_scan_field_bounds, lemma_scan_record_bounds, scan_field, scan_quoted, scan_record,
    scan_unquoted, FieldEnd, QUOTE,
};
use crate::text::decode_field;
use crate::util::get_optional_single_byte;

verus! {

/// Number of newline bytes in `s`; parse positions report 1 + this count as
/// the line number.
pub open spec fn count_newlines(s: Seq<u8>) -> int
    decreases s.len(),
{
    if s.len() == 0 {
        0
    } else {
        count_newlines(s.drop_last()) + if s.last() == 10 { 1int } else { 0int }
    }
}

/// The position reported for a record that starts at byte offset `off`,
/// when `idx` records came before it.
pub open spec fn position_at(s: Seq<u8>, off: int, idx: int) -> Position {
    Position {
        byte_offset: off as u64,
        line: (1 + count_newlines(s.take(off))) as u64,
        record_index: idx as u64,
    }
}

/// The value of an optional single-byte setting, given its default.
pub open spec fn spec_opt_byte(bytes: Option<&[u8]>, default: u8) -> u8 {
    match bytes {
        Some(b) => b@[0],
        None => default,
    }
}

/// True when an optional single-byte setting is acceptable: either absent or
/// exactly one byte long.
pub open spec fn spec_opt_byte_ok(bytes: Option<&[u8]>) -> bool {
    match bytes {
        Some(b) => b@.len() == 1,
        None => true,
    }
}

/// Configuration of a reader: the field delimiter, the record terminator
/// (each exactly one byte), and whether records may vary in field count.
#[derive(Clone, Copy, Debug, PartialEq, Eq, Structural)]
pub struct ReaderConfig {
    pub delimiter: u8,
    pub terminator: u8,
    pub flexible_row_lengths: bool,
}

impl ReaderConfig {
    /// Validates raw option values into a configuration.
    ///
    /// The delimiter defaults to `,` and the terminator to newline; a
    /// supplied value of zero or several bytes is a configuration error,
    /// never truncated or defaulted.
    pub fn new(
        delimiter: Option<&[u8]>,
        terminator: Option<&[u8]>,
        flexible_row_lengths: bool,
    ) -> (r: Result<ReaderConfig, CsvError>)
        ensures
            r is Ok <==> spec_opt_byte_ok(delimiter) && spec_opt_byte_ok(terminator),
            r is Ok ==> r->Ok_0 == (ReaderConfig {
                delimiter: spec_opt_byte(delimiter, 44),
                terminator: spec_opt_byte(terminator, 10),
                flexible_row_lengths,
            }),
            r is Err ==> r->Err_0 == CsvError::Config,
    {
        let d = get_optional_single_byte(delimiter, 44)?;
        let t = get_optional_single_byte(terminator, 10)?;
        Ok(ReaderConfig { delimiter: d, terminator: t, flexible_row_lengths })
    }
}

/// One outcome of [`CSVReader::next`].
pub enum ReadStep {
    /// The next record, parsed and decoded.
    Row(Record),
    /// The next record was malformed; parsing resumes after it.
    Fail(CsvError),
    /// No complete record is buffered and the end of the stream has not been
    /// announced: feed more bytes (or call [`CSVReader::finish`]).
    NeedInput,
    /// Permanent end of the stream.  Every later call reports it again.
    Done,
}

/// The reader: configuration, the bytes received so far, a cursor marking
/// how much of them has been consumed, and the bookkeeping that error
/// positions are computed from.
pub struct CSVReader {
    pub delimiter: u8,
    pub terminator: u8,
    pub flexible_row_lengths: bool,
    /// All bytes received so far.
    pub buf: Vec<u8>,
    /// Everything before this offset has been consumed.
    pub cursor: usize,
    /// Whether the caller announced the end of the stream.
    pub eof: bool,
    /// Whether the iterator reported [`ReadStep::Done`]; never leaves.
    pub done: bool,
    /// Field count established by the first record, if any.
    pub expected: Option<usize>,
    /// How many records have been attempted (parsed or failed) so far.
    pub records_seen: u64,
}

impl CSVReader {
    /// Well-formedness: the cursor stays inside the buffer, the counters
    /// stay in step with it, and a finished iterator has consumed a
    /// completed stream.
    pub open spec fn wf(self) -> bool {
        &&& self.cursor <= self.buf@.len()
        &&& self.buf@.len() < u64::MAX
        &&& self.records_seen <= self.cursor as u64
        &&& (self.done ==> self.eof && self.cursor == self.buf@.len())
    }

    /// The configuration and input-side state that [`CSVReader::next`] never
    /// touches.
    pub open spec fn same_input(self, other: CSVReader) -> bool {
        &&& self.delimiter == other.delimiter
        &&& self.terminator == other.terminator
        &&& self.flexible_row_lengths == other.flexible_row_lengths
        &&& self.buf == other.buf
        &&& self.eof == other.eof
    }

    /// A fresh reader for the given configuration; no bytes received yet.
    pub fn new(config: ReaderConfig) -> (r: CSVReader)
        ensures
            r.wf(),
            r.delimiter == config.delimiter,
            r.terminator == config.terminator,
            r.flexible_row_lengths == config.flexible_row_lengths,
            r.buf@ == Seq::<u8>::empty(),
            r.cursor == 0,
            !r.eof,
            !r.done,
            r.expected is None,
            r.records_seen == 0,
    {
        CSVReader {
            delimiter: config.delimiter,
            terminator: config.terminator,
            flexible_row_lengths: config.flexible_row_lengths,
            buf: Vec::new(),
            cursor: 0,
            eof: false,
            done: false,
            expected: None,
            records_seen: 0,
        }
    }

    /// Appends a chunk of raw input.  Chunks may be of any size, including
    /// empty; only [`CSVReader::finish`] signals the end of the stream.
    pub fn push_bytes(&mut self, chunk: &[u8])
        requires
            old(self).wf(),
            !old(self).eof,
            old(self).buf@.len() + chunk@.len() < u64::MAX,
        ensures
            final(self).wf(),
            final(self).buf@ == old(self).buf@ + chunk@,
            final(self).delimiter == old(self).delimiter,
            final(self).terminator == old(self).terminator,
            final(self).flexible_row_lengths == old(self).flexible_row_lengths,
            final(self).cursor == old(self).cursor,
            final(self).eof == old(self).eof,
            final(self).done == old(self).done,
            final(self).expected == old(self).expected,
            final(self).records_seen == old(self).records_seen,
    {
        let mut k: usize = 0;
        while k < chunk.len()
            invariant
                k <= chunk@.len(),
                self.buf@ == old(self).buf@ + chunk@.take(k as int),
                self.delimiter == old(self).delimiter,
                self.terminator == old(self).terminator,
                self.flexible_row_lengths == old(self).flexible_row_lengths,
                self.cursor == old(self).cursor,
                self.eof == old(self).eof,
                self.done == old(self).done,
                self.expected == old(self).expected,
                self.records_seen == old(self).records_seen,
                old(self).buf@.len() + chunk@.len() < u64::MAX,
            decreases chunk@.len() - k,
        {
            self.buf.push(chunk[k]);
            k = k + 1;
            proof {
                assert(self.buf@ =~= old(self).buf@ + chunk@.take(k as int));
            }
        }
        proof {
            assert(chunk@.take(chunk@.len() as int) =~= chunk@);
        }
    }

    /// Announces the end of the stream: no more bytes will arrive.
    pub fn finish(&mut self)
        requires
            old(self).wf(),
        ensures
            final(self).wf(),
            final(self).eof,
            final(self).delimiter == old(self).delimiter,
            final(self).terminator == old(self).terminator,
            final(self).flexible_row_lengths == old(self).flexible_row_lengths,
            final(self).buf == old(self).buf,
            final(self).cursor == old(self).cursor,
            final(self).done == old(self).done,
            final(self).expected == old(self).expected,
            final(self).records_seen == old(self).records_seen,
    {
        self.eof = true;
    }

    /// The position of the record starting at the current cursor.
    fn position_here(&self) -> (p: Position)
        requires
            self.wf(),
        ensures
            p == position_at(self.buf@, self.cursor as int, self.records_seen as int),
    {
        let ghost s = self.buf@;
        let mut count: u64 = 0;
        let mut j: usize = 0;
        proof {
            assert(s.take(0) =~= Seq::<u8>::empty());
        }
        while j < self.cursor
            invariant
                self.wf(),
                j <= self.cursor,
                s == self.buf@,
                count == count_newlines(s.take(j as int)),
                count <= j,
            decreases self.cursor - j,
        {
            proof {
                assert(s.take(j + 1).drop_last() =~= s.take(j as int));
                assert(s.take(j + 1).last() == s[j as int]);
            }
            if self.buf[j] == 10 {
                count = count + 1;
            }
            j = j + 1;
        }
        Position {
            byte_offset: self.cursor as u64,
            line: 1 + count,
            record_index: self.records_seen,
        }
    }

    /// Scans one field of the buffered input, starting at `start`.
    fn scan_field_from(&self, start: usize) -> (res: (Vec<u8>, usize, FieldEnd, bool))
        requires
            start <= self.buf@.len(),
        ensures
            ({
                let f = scan_field(self.buf@, start as int, self.delimiter, self.terminator);
                &&& res.0@ == f.content
                &&& res.1 as int == f.next
                &&& res.2 == f.end
                &&& res.3 == f.ok
            }),
    {
        let ghost s = self.buf@;
        let ghost f0 = scan_field(s, start as int, self.delimiter, self.terminator);
        let d = self.delimiter;
        let t = self.terminator;
        let mut acc: Vec<u8> = Vec::new();
        let mut i: usize = start;
        let mut quoted = false;
        if i < self.buf.len() && self.buf[i] == QUOTE {
            quoted = true;
            i = i + 1;
        }
        proof {
            if quoted {
                assert(f0 == scan_quoted(s, i as int, d, t));
                assert(acc@ + scan_quoted(s, i as int, d, t).content =~= f0.content);
            } else {
                assert(f0 == scan_unquoted(s, i as int, d, t));
                assert(acc@ + scan_unquoted(s, i as int, d, t).content =~= f0.content);
            }
        }
        loop
            invariant
                start <= i <= s.len(),
                s == self.buf@,
                d == self.delimiter,
                t == self.terminator,
                f0 == scan_field(s, start as int, d, t),
                quoted ==> {
                    let f = scan_quoted(s, i as int, d, t);
                    &&& f0.content == acc@ + f.content
                    &&& f0.next == f.next
                    &&& f0.end == f.end
                    &&& f0.ok == f.ok
                },
                !quoted ==> {
                    let f = scan_unquoted(s, i as int, d, t);
                    &&& f0.content == acc@ + f.content
                    &&& f0.next == f.next
                    &&& f0.end == f.end
                    &&& f0.ok == f.ok
                },
            decreases s.len() - i + if quoted { 1int } else { 0int },
        {
            if quoted {
                if i >= self.buf.len() {
                    proof {
                        assert(f0.content =~= acc@);
                    }
                    return (acc, self.buf.len(), FieldEnd::Input, false);
                }
                let b = self.buf[i];
                if b == QUOTE {
                    if i + 1 < self.buf.len() && self.buf[i + 1] == QUOTE {
                        let ghost fr = scan_quoted(s, i + 2, d, t);
                        acc.push(QUOTE);
                        i = i + 2;
                        proof {
                            assert(acc@ + fr.content =~= f0.content);
                        }
                    } else {
                        quoted = false;
                        i = i + 1;
                    }
                } else {
                    let ghost fr = scan_quoted(s, i + 1, d, t);
                    acc.push(b);
                    i = i + 1;
                    proof {
                        assert(acc@ + fr.content =~= f0.content);
                    }
                }
            } else {
                if i >= self.buf.len() {
                    proof {
                        assert(f0.content =~= acc@);
                    }
                    return (acc, self.buf.len(), FieldEnd::Input, true);
                }
                let b = self.buf[i];
                if b == d {
                    proof {
                        assert(f0.content =~= acc@);
                    }
                    return (acc, i + 1, FieldEnd::Delim, true);
                } else if b == t {
                    proof {
                        assert(f0.content =~= acc@);
                    }
                    return (acc, i + 1, FieldEnd::Term, true);
                } else {
                    let ghost fr = scan_unquoted(s, i + 1, d, t);
                    acc.push(b);
                    i = i + 1;
                    proof {
                        assert(acc@ + fr.content =~= f0.content);
                    }
                }
            }
        }
    }

    /// Scans one whole record of the buffered input, starting at the cursor.
    fn scan_record_here(&self) -> (res: (Vec<Vec<u8>>, usize, bool, bool))
        requires
            self.cursor <= self.buf@.len(),
        ensures
            ({
                let rc = scan_record(self.buf@, self.cursor as int, self.delimiter, self.terminator);
                &&& res.0.deep_view() == rc.fields
                &&& res.1 as int == rc.next
                &&& res.2 == rc.term
                &&& res.3 == rc.ok
            }),
    {
        let ghost s = self.buf@;
        let ghost d = self.delimiter;
        let ghost t = self.terminator;
        let ghost rc0 = scan_record(s, self.cursor as int, d, t);
        let mut fields: Vec<Vec<u8>> = Vec::new();
        let mut i: usize = self.cursor;
        proof {
            assert(fields.deep_view() =~~= Seq::<Seq<u8>>::empty());
            assert(fields.deep_view() + rc0.fields =~~= rc0.fields);
        }
        loop
            invariant
                self.cursor <= i <= s.len(),
                s == self.buf@,
                d == self.delimiter,
                t == self.terminator,
                rc0 == scan_record(s, self.cursor as int, d, t),
                ({
                    let rc = scan_record(s, i as int, d, t);
                    &&& rc0.fields == fields.deep_view() + rc.fields
                    &&& rc0.next == rc.next
                    &&& rc0.term == rc.term
                    &&& rc0.ok == rc.ok
                }),
            decreases s.len() - i,
        {
            let ghost rc = scan_record(s, i as int, d, t);
            let (content, next, end, ok) = self.scan_field_from(i);
            proof {
                lemma_scan_field_bounds(s, i as int, d, t);
            }
            if !ok {
                proof {
                    assert(rc0.fields =~~= fields.deep_view());
                }
                return (fields, next, false, false);
            }
            let ghost before = fields.deep_view();
            match end {
                FieldEnd::Delim => {
                    let ghost rcn = scan_record(s, next as int, d, t);
                    fields.push(content);
                    proof {
                        assert(fields.deep_view() =~~= before.push(content@));
                        assert(rc.fields =~~= seq![content@] + rcn.fields);
                        assert(before.push(content@) + rcn.fields =~~= before + rc.fields);
                    }
                    i = next;
                },
                FieldEnd::Term => {
                    fields.push(content);
                    proof {
                        assert(fields.deep_view() =~~= before.push(content@));
                        assert(rc0.fields =~~= before.push(content@));
                    }
                    return (fields, next, true, true);
                },
                FieldEnd::Input => {
                    fields.push(content);
                    proof {
                        assert(fields.deep_view() =~~= before.push(content@));
                        assert(rc0.fields =~~= before.push(content@));
                    }
                    return (fields, next, false, true);
                },
            }
        }
    }

    /// Advances to the next record.
    ///
    /// - Once terminal, always terminal: after the first [`ReadStep::Done`],
    ///   every call returns [`ReadStep::Done`] and changes nothing.
    /// - The stream is terminal when all received bytes are consumed and the
    ///   end of the stream was announced.
    /// - When the buffered input holds no complete record and the end was
    ///   not announced, the call asks for more input and changes nothing.
    /// - Otherwise one record is consumed, and the cursor moves exactly past
    ///   it — also when it is malformed, so parsing can resume.  A record
    ///   whose quoting never terminates is a generic value error; a record
    ///   whose field count disagrees with the established count (while
    ///   flexible row lengths are off) is a structure error carrying its
    ///   position and both counts; a record with a field that is not valid
    ///   UTF-8 is a decode error carrying its position; any other record is
    ///   yielded with its fields decoded, in order.
    #[verifier::loop_isolation(false)]
    pub fn next(&mut self) -> (step: ReadStep)
        requires
            old(self).wf(),
        ensures
            final(self).wf(),
            final(self).same_input(*old(self)),
            ({
                let s = old(self).buf@;
                let i = old(self).cursor as int;
                let d = old(self).delimiter;
                let t = old(self).terminator;
                let sc = scan_record(s, i, d, t);
                let pos = position_at(s, i, old(self).records_seen as int);
                if old(self).done {
                    step is Done && *final(self) == *old(self)
                } else if i == s.len() && old(self).eof {
                    &&& step is Done
                    &&& final(self).done
                    &&& final(self).cursor == old(self).cursor
                    &&& final(self).expected == old(self).expected
                    &&& final(self).records_seen == old(self).records_seen
                } else if !old(self).eof && !sc.term {
                    step is NeedInput && *final(self) == *old(self)
                } else {
                    &&& final(self).cursor as int == sc.next
                    &&& final(self).records_seen == old(self).records_seen + 1
                    &&& !final(self).done
                    &&& if !sc.ok {
                        &&& step == ReadStep::Fail(CsvError::Value)
                        &&& final(self).expected == old(self).expected
                    } else {
                        let n = sc.fields.len() as int;
                        &&& final(self).expected == (if old(self).expected is None {
                            Some(n as usize)
                        } else {
                            old(self).expected
                        })
                        &&& if !old(self).flexible_row_lengths && old(self).expected is Some
                                && n != old(self).expected->0 {
                            step == ReadStep::Fail(CsvError::Structure {
                                position: pos,
                                expected: old(self).expected->0,
                                got: n as usize,
                            })
                        } else if exists|j: int| 0 <= j < n && !valid_utf8(sc.fields[j]) {
                            step == ReadStep::Fail(CsvError::Decode { position: pos })
                        } else {
                            match step {
                                ReadStep::Row(rec) => {
                                    &&& rec@.len() == n
                                    &&& forall|j: int|
                                        0 <= j < n ==> rec@[j] == decode_utf8(sc.fields[j])
                                },
                                _ => false,
                            }
                        }
                    }
                }
            }),
    {
        if self.done {
            return ReadStep::Done;
        }
        if self.cursor == self.buf.len() {
            if self.eof {
                self.done = true;
                return ReadStep::Done;
            } else {
                proof {
                    lemma_scan_record_bounds(self.buf@, self.cursor as int, self.delimiter, self.terminator);
                }
                return ReadStep::NeedInput;
            }
        }
        let ghost s = self.buf@;
        let ghost i0 = self.cursor as int;
        let ghost sc = scan_record(s, i0, self.delimiter, self.terminator);
        let (mut raw, next, term, ok) = self.scan_record_here();
        if !term && !self.eof {
            return ReadStep::NeedInput;
        }
        proof {
            lemma_scan_record_bounds(s, i0, self.delimiter, self.terminator);
        }
        let pos = self.position_here();
        self.cursor = next;
        self.records_seen = self.records_seen + 1;
        if !ok {
            return ReadStep::Fail(CsvError::Value);
        }
        let n = raw.len();
        proof {
            assert(raw.deep_view().len() == raw@.len());
        }
        let established = self.expected;
        if established.is_none() {
            self.expected = Some(n);
        }
        if !self.flexible_row_lengths {
            match established {
                Some(exp) => {
                    if n != exp {
                        return ReadStep::Fail(CsvError::Structure {
                            position: pos,
                            expected: exp,
                            got: n,
                        });
                    }
                },
                None => {},
            }
        }
        let ghost raws = raw.deep_view();
        proof {
            assert(raws =~~= raws.take(n as int));
        }
        let mut rev: Vec<String> = Vec::new();
        while raw.len() > 0
            invariant
                raw@.len() <= n,
                raw.deep_view() =~~= raws.take(raw@.len() as int),
                raws == sc.fields,
                n == sc.fields.len(),
                rev.deep_view().len() + raw@.len() == n,
                forall|i: int|
                    0 <= i < rev.deep_view().len() ==> valid_utf8(
                        #[trigger] raws[n - 1 - i],
                    ) && rev.deep_view()[i] == decode_utf8(raws[n - 1 - i]),
            decreases raw@.len(),
        {
            let ghost raw_before = raw.deep_view();
            let ghost rev_before = rev.deep_view();
            let f = raw.pop().unwrap();
            let ghost m = raw@.len() as int;
            proof {
                assert(f@ =~= raw_before.last());
                assert(raw_before.last() == raws[m]);
                assert(raw.deep_view() =~~= raws.take(m));
            }
            match decode_field(f) {
                Some(text) => {
                    rev.push(text);
                    proof {
                        assert(rev.deep_view() =~~= rev_before.push(text@));
                    }
                },
                None => {
                    proof {
                        assert(!valid_utf8(sc.fields[m]));
                    }
                    return ReadStep::Fail(CsvError::Decode { position: pos });
                },
            }
        }
        let mut fields: Vec<String> = Vec::new();
        let ghost revs = rev.deep_view();
        proof {
            assert(revs =~~= revs.take(n as int));
        }
        while rev.len() > 0
            invariant
                rev@.len() <= n,
                rev.deep_view() =~~= revs.take(rev@.len() as int),
                revs.len() == n,
                n == sc.fields.len(),
                forall|i: int|
                    0 <= i < n ==> valid_utf8(#[trigger] sc.fields[n - 1 - i]) && revs[i]
                        == decode_utf8(sc.fields[n - 1 - i]),
                fields.deep_view().len() + rev@.len() == n,
                forall|i: int|
                    0 <= i < fields.deep_view().len() ==> #[trigger] fields.deep_view()[i]
                        == decode_utf8(sc.fields[i]),
            decreases rev@.len(),
        {
            let ghost rev_before = rev.deep_view();
            let ghost fields_before = fields.deep_view();
            let text = rev.pop().unwrap();
            let ghost m = rev@.len() as int;
            proof {
                assert(text@ =~= rev_before.last());
                assert(rev_before.last() == revs[m]);
                assert(rev.deep_view() =~~= revs.take(m));
                assert(revs[m] == decode_utf8(sc.fields[n - 1 - m]));
            }
            fields.push(text);
            proof {
                assert(fields.deep_view() =~~= fields_before.push(text@));
                assert(n - 1 - m == fields_before.len());
            }
        }
        proof {
            assert forall|j: int| 0 <= j < n implies valid_utf8(#[trigger] sc.fields[j]) by {
                assert(valid_utf8(sc.fields[n - 1 - (n - 1 - j)]));
            }
        }
        let rec = Record::new(fields);
        ReadStep::Row(rec)
    }
}

/// Builds a fresh reader for the given delimiter and terminator bytes, with
/// strict (non-flexible) row lengths, ready to be fed input.
pub fn make_records_iterator(delimiter: u8, terminator: u8) -> (r: CSVReader)
    ensures
        r.wf(),
        r.delimiter == delimiter,
        r.terminator == terminator,
        !r.flexible_row_lengths,
        r.buf@ == Seq::<u8>::empty(),
        r.cursor == 0,
        !r.eof,
        !r.done,
        r.expected is None,
        r.records_seen == 0,
{
    CSVReader::new(ReaderConfig { delimiter, terminator, flexible_row_lengths: false })
}

} // verus!
