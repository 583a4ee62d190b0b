//! Round-trip law: what the writer encodes, the reader parses back.
//!
//! [`lemma_round_trip`] states it over the same specification functions the
//! executable contracts use: encoding a sequence of records under a writer
//! configuration and then scanning and decoding the resulting bytes under
//! the matching reader settings yields the original records, every one
//! parsed successfully.

use vstd::prelude::*;
use vstd::utf8::{
    decode_utf8, encode_utf8, encode_utf8_decode_utf8, encode_utf8_valid_utf8, valid_utf8,
};

use crate::scan::{
    lemma_scan_record_bounds, scan_field, scan_quoted, scan_record, scan_unquoted, FieldEnd, QUOTE,
};
use crate::writer::{
    contains_byte, escape_quotes, needs_quotes, raw_fields, spec_encode_field, spec_encode_fields,
    spec_encode_row, unquoted_ambiguous, QuoteStyle, WriterConfig,
};

verus! {

/// The encoding of a whole sequence of records: each row's text fields as
/// UTF-8 bytes, quoted and joined as the configuration directs, one row
/// after the other.
pub open spec fn spec_encode_rows(rows: Seq<Seq<Seq<char>>>, cfg: WriterConfig) -> Seq<u8>
    decreases rows.len(),
{
    if rows.len() == 0 {
        seq![]
    } else {
        spec_encode_row(raw_fields(rows[0]), cfg) + spec_encode_rows(rows.drop_first(), cfg)
    }
}

/// The raw records scanned from a complete input, one record after another
/// from index `i` to the end; nothing when some record's quoting never
/// terminates.
pub open spec fn spec_raw_rows(s: Seq<u8>, i: int, d: u8, t: u8) -> Option<Seq<Seq<Seq<u8>>>>
    decreases s.len() - i,
    via spec_raw_rows_decreases
{
    if i < 0 || i >= s.len() {
        Some(seq![])
    } else {
        let rc = scan_record(s, i, d, t);
        if !rc.ok {
            None
        } else {
            match spec_raw_rows(s, rc.next, d, t) {
                None => None,
                Some(rest) => Some(seq![rc.fields] + rest),
            }
        }
    }
}

#[via_fn]
proof fn spec_raw_rows_decreases(s: Seq<u8>, i: int, d: u8, t: u8) {
    if 0 <= i < s.len() {
        lemma_scan_record_bounds(s, i, d, t);
    }
}

/// The decoding of one raw record: all of its fields as text, or nothing
/// when some field is not valid UTF-8.
pub open spec fn decode_raw_row(raw: Seq<Seq<u8>>) -> Option<Seq<Seq<char>>> {
    if forall|j: int| 0 <= j < raw.len() ==> valid_utf8(#[trigger] raw[j]) {
        Some(raw.map_values(|f: Seq<u8>| decode_utf8(f)))
    } else {
        None
    }
}

/// The decoding of a sequence of raw records, or nothing when any record
/// has a field that is not valid UTF-8.
pub open spec fn decode_raw_rows(raws: Seq<Seq<Seq<u8>>>) -> Option<Seq<Seq<Seq<char>>>> {
    if forall|i: int| 0 <= i < raws.len() ==> (#[trigger] decode_raw_row(raws[i])) is Some {
        Some(Seq::new(raws.len(), |i: int| decode_raw_row(raws[i])->0))
    } else {
        None
    }
}

/// A complete read of the input `s`: every record scanned and decoded, or
/// nothing at the first malformed record or field.
pub open spec fn spec_read_rows(s: Seq<u8>, d: u8, t: u8) -> Option<Seq<Seq<Seq<char>>>> {
    match spec_raw_rows(s, 0, d, t) {
        None => None,
        Some(raws) => decode_raw_rows(raws),
    }
}

/// True when the bytes `f` occur in `s` starting at index `i`.
pub open spec fn seg(s: Seq<u8>, i: int, f: Seq<u8>) -> bool {
    &&& 0 <= i
    &&& i + f.len() <= s.len()
    &&& s.subrange(i, i + f.len()) == f
}

pub proof fn lemma_seg_split(s: Seq<u8>, i: int, a: Seq<u8>, b: Seq<u8>)
    requires
        seg(s, i, a + b),
    ensures
        seg(s, i, a),
        seg(s, i + a.len(), b),
{
    assert forall|k: int| #![trigger s[k]] i <= k < i + (a + b).len() implies s[k] == (a + b)[k
        - i] by {
        assert((a + b)[k - i] == s.subrange(i, i + (a + b).len())[k - i]);
    }
    assert(s.subrange(i, i + a.len()) =~= a);
    assert(s.subrange(i + a.len(), i + a.len() + b.len()) =~= b);
}

pub proof fn lemma_seg_byte(s: Seq<u8>, i: int, f: Seq<u8>)
    requires
        seg(s, i, f),
        f.len() > 0,
    ensures
        s[i] == f[0],
        seg(s, i + 1, f.drop_first()),
{
    assert(f =~= seq![f[0]] + f.drop_first());
    lemma_seg_split(s, i, seq![f[0]], f.drop_first());
    assert(s[i] == s.subrange(i, i + 1)[0]);
}

/// The configuration constraints under which encoding is invertible: the
/// delimiter, the terminator and the quote are three distinct bytes, and
/// literal quotes are doubled (the reader always reads `""` as one quote).
pub open spec fn invertible(cfg: WriterConfig) -> bool {
    &&& cfg.delimiter != cfg.terminator
    &&& cfg.delimiter != QUOTE
    &&& cfg.terminator != QUOTE
    &&& cfg.double_quote
}

/// A field the configuration encodes invertibly: it is either wrapped in
/// quotes, or holds none of the structural bytes.  This holds of every
/// field under the `Necessary` and `Always` quoting styles
/// ([`lemma_quoting_styles_protect`]); under `Never` it is exactly the
/// condition for [`crate::writer::CSVWriter::writerow`] to succeed, and
/// under `NonNumeric` it can fail only when the delimiter or terminator is
/// itself a digit, sign or decimal-point byte.
pub open spec fn field_invertible(f: Seq<u8>, cfg: WriterConfig) -> bool {
    needs_quotes(f, cfg) || !unquoted_ambiguous(f, cfg)
}

/// The `Necessary` and `Always` quoting styles quote every field that
/// holds a structural byte, so every field is encoded invertibly.
pub proof fn lemma_quoting_styles_protect(f: Seq<u8>, cfg: WriterConfig)
    requires
        cfg.quote_style is Necessary || cfg.quote_style is Always,
    ensures
        field_invertible(f, cfg),
{
}

/// Scanning an unquoted field encoding: content free of the delimiter and
/// terminator runs to the byte that follows it.
proof fn lemma_scan_unquoted_enc(s: Seq<u8>, i: int, f: Seq<u8>, d: u8, t: u8)
    requires
        seg(s, i, f),
        !contains_byte(f, d),
        !contains_byte(f, t),
        ({
            let j = i + f.len();
            j == s.len() || s[j] == d || s[j] == t
        }),
    ensures
        ({
            let j = i + f.len();
            let r = scan_unquoted(s, i, d, t);
            &&& r.content == f
            &&& r.ok
            &&& (j == s.len() ==> r.next == s.len() && r.end is Input)
            &&& (j < s.len() && s[j] == d ==> r.next == j + 1 && r.end is Delim)
            &&& (j < s.len() && s[j] == t && d != t ==> r.next == j + 1 && r.end is Term)
        }),
    decreases f.len(),
{
    let j = i + f.len();
    if f.len() == 0 {
        assert(scan_unquoted(s, i, d, t).content =~= f);
    } else {
        lemma_seg_byte(s, i, f);
        assert(f[0] != d && f[0] != t) by {
            assert(!(exists|k: int| 0 <= k < f.len() && f[k] == d));
            assert(!(exists|k: int| 0 <= k < f.len() && f[k] == t));
        }
        assert(!contains_byte(f.drop_first(), d)) by {
            if contains_byte(f.drop_first(), d) {
                let k = choose|k: int|
                    0 <= k < f.drop_first().len() && f.drop_first()[k] == d;
                assert(f[k + 1] == d);
            }
        }
        assert(!contains_byte(f.drop_first(), t)) by {
            if contains_byte(f.drop_first(), t) {
                let k = choose|k: int|
                    0 <= k < f.drop_first().len() && f.drop_first()[k] == t;
                assert(f[k + 1] == t);
            }
        }
        lemma_scan_unquoted_enc(s, i + 1, f.drop_first(), d, t);
        assert(scan_unquoted(s, i, d, t).content =~= seq![f[0]] + scan_unquoted(
            s,
            i + 1,
            d,
            t,
        ).content);
        assert(seq![f[0]] + f.drop_first() =~= f);
    }
}

/// Scanning a quoted field encoding: the escaped body followed by the
/// closing quote reproduces the field's bytes exactly, and scanning resumes
/// at the byte after the closing quote.
proof fn lemma_scan_quoted_enc(s: Seq<u8>, i: int, f: Seq<u8>, cfg: WriterConfig)
    requires
        invertible(cfg),
        seg(s, i, escape_quotes(f, cfg) + seq![QUOTE]),
        ({
            let j = i + escape_quotes(f, cfg).len() + 1;
            j == s.len() || s[j] == cfg.delimiter || s[j] == cfg.terminator
        }),
    ensures
        ({
            let j = i + escape_quotes(f, cfg).len() + 1;
            let d = cfg.delimiter;
            let t = cfg.terminator;
            let r = scan_quoted(s, i, d, t);
            &&& r.content == f
            &&& r.ok
            &&& (j == s.len() ==> r.next == s.len() && r.end is Input)
            &&& (j < s.len() && s[j] == d ==> r.next == j + 1 && r.end is Delim)
            &&& (j < s.len() && s[j] == t ==> r.next == j + 1 && r.end is Term)
        }),
    decreases f.len(),
{
    let d = cfg.delimiter;
    let t = cfg.terminator;
    let eq = escape_quotes(f, cfg);
    let j = i + eq.len() + 1;
    if f.len() == 0 {
        assert(eq =~= Seq::<u8>::empty());
        lemma_seg_byte(s, i, eq + seq![QUOTE]);
        assert(s[i] == QUOTE);
        // the byte after the closing quote is never another quote
        assert(!(i + 1 < s.len() && s[i + 1] == QUOTE));
        assert(scan_quoted(s, i, d, t) == scan_unquoted(s, i + 1, d, t));
        assert(s.subrange(i + 1, i + 1) =~= Seq::<u8>::empty());
        lemma_scan_unquoted_enc(s, i + 1, Seq::<u8>::empty(), d, t);
        assert(scan_unquoted(s, i + 1, d, t).content =~= f);
    } else {
        let b = f[0];
        let rest = f.drop_first();
        let head: Seq<u8> = if b == QUOTE {
            seq![QUOTE, QUOTE]
        } else {
            seq![b]
        };
        assert(eq == head + escape_quotes(rest, cfg));
        assert((eq + seq![QUOTE]) =~= head + (escape_quotes(rest, cfg) + seq![QUOTE]));
        lemma_seg_split(s, i, head, escape_quotes(rest, cfg) + seq![QUOTE]);
        if b == QUOTE {
            lemma_seg_byte(s, i, head);
            lemma_seg_byte(s, i + 1, head.drop_first());
            assert(s[i] == QUOTE && s[i + 1] == QUOTE);
            assert(i + 1 < s.len());
            lemma_scan_quoted_enc(s, i + 2, rest, cfg);
            assert(scan_quoted(s, i, d, t).content =~= seq![QUOTE] + scan_quoted(
                s,
                i + 2,
                d,
                t,
            ).content);
            assert(seq![QUOTE] + rest =~= f);
        } else {
            lemma_seg_byte(s, i, head);
            assert(s[i] == b && b != QUOTE);
            lemma_scan_quoted_enc(s, i + 1, rest, cfg);
            assert(scan_quoted(s, i, d, t).content =~= seq![b] + scan_quoted(
                s,
                i + 1,
                d,
                t,
            ).content);
            assert(seq![b] + rest =~= f);
        }
    }
}

/// Scanning one encoded field: quoted or not, its content comes back
/// unchanged and scanning stops exactly at the byte that follows the
/// encoding.
proof fn lemma_scan_field_enc(s: Seq<u8>, i: int, f: Seq<u8>, cfg: WriterConfig)
    requires
        invertible(cfg),
        field_invertible(f, cfg),
        seg(s, i, spec_encode_field(f, cfg)),
        ({
            let j = i + spec_encode_field(f, cfg).len();
            j == s.len() || s[j] == cfg.delimiter || s[j] == cfg.terminator
        }),
    ensures
        ({
            let j = i + spec_encode_field(f, cfg).len();
            let d = cfg.delimiter;
            let t = cfg.terminator;
            let r = scan_field(s, i, d, t);
            &&& r.content == f
            &&& r.ok
            &&& (j == s.len() ==> r.next == s.len() && r.end is Input)
            &&& (j < s.len() && s[j] == d ==> r.next == j + 1 && r.end is Delim)
            &&& (j < s.len() && s[j] == t ==> r.next == j + 1 && r.end is Term)
        }),
{
    let d = cfg.delimiter;
    let t = cfg.terminator;
    let ef = spec_encode_field(f, cfg);
    let j = i + ef.len();
    if needs_quotes(f, cfg) {
        assert(ef == seq![QUOTE] + (escape_quotes(f, cfg) + seq![QUOTE])) by {
            assert(seq![QUOTE] + (escape_quotes(f, cfg) + seq![QUOTE]) =~= seq![QUOTE]
                + escape_quotes(f, cfg) + seq![QUOTE]);
        }
        lemma_seg_split(s, i, seq![QUOTE], escape_quotes(f, cfg) + seq![QUOTE]);
        lemma_seg_byte(s, i, seq![QUOTE]);
        assert(s[i] == QUOTE);
        assert(scan_field(s, i, d, t) == scan_quoted(s, i + 1, d, t));
        lemma_scan_quoted_enc(s, i + 1, f, cfg);
    } else {
        assert(!unquoted_ambiguous(f, cfg));
        assert(!contains_byte(f, d) && !contains_byte(f, t) && !contains_byte(f, QUOTE));
        assert(ef == f);
        if i < s.len() && s[i] == QUOTE {
            // impossible: the field is unquoted, so its first byte is not a
            // quote, and an empty field is followed by the delimiter, the
            // terminator or the end of input
            if f.len() > 0 {
                lemma_seg_byte(s, i, f);
                assert(f[0] == QUOTE);
                assert(contains_byte(f, QUOTE));
            }
            assert(false);
        }
        lemma_scan_unquoted_enc(s, i, f, d, t);
    }
}

/// Scanning one encoded record: its fields come back unchanged, and the
/// record ends at its terminator byte.
proof fn lemma_scan_record_enc(s: Seq<u8>, i: int, fields: Seq<Seq<u8>>, cfg: WriterConfig)
    requires
        invertible(cfg),
        fields.len() >= 1,
        forall|j: int| 0 <= j < fields.len() ==> field_invertible(#[trigger] fields[j], cfg),
        seg(s, i, spec_encode_row(fields, cfg)),
    ensures
        ({
            let r = scan_record(s, i, cfg.delimiter, cfg.terminator);
            &&& r.fields == fields
            &&& r.next == i + spec_encode_row(fields, cfg).len()
            &&& r.term
            &&& r.ok
        }),
    decreases fields.len(),
{
    let d = cfg.delimiter;
    let t = cfg.terminator;
    let f0 = fields[0];
    let ef = spec_encode_field(f0, cfg);
    if fields.len() == 1 {
        assert(spec_encode_fields(fields, cfg) == ef);
        assert(spec_encode_row(fields, cfg) == ef + seq![t]);
        lemma_seg_split(s, i, ef, seq![t]);
        lemma_seg_byte(s, i + ef.len(), seq![t]);
        assert(s[i + ef.len()] == t);
        lemma_scan_field_enc(s, i, f0, cfg);
        let r = scan_field(s, i, d, t);
        assert(r.end is Term);
        assert(scan_record(s, i, d, t).fields =~~= fields);
    } else {
        let rest = fields.drop_first();
        assert(spec_encode_fields(fields, cfg) == ef + seq![d] + spec_encode_fields(rest, cfg));
        assert(spec_encode_row(fields, cfg) =~= ef + (seq![d] + spec_encode_row(rest, cfg)));
        lemma_seg_split(s, i, ef, seq![d] + spec_encode_row(rest, cfg));
        lemma_seg_split(s, i + ef.len(), seq![d], spec_encode_row(rest, cfg));
        lemma_seg_byte(s, i + ef.len(), seq![d]);
        assert(s[i + ef.len()] == d);
        lemma_scan_field_enc(s, i, f0, cfg);
        let r = scan_field(s, i, d, t);
        assert(r.end is Delim && r.next == i + ef.len() + 1);
        assert forall|j: int| 0 <= j < rest.len() implies field_invertible(
            #[trigger] rest[j],
            cfg,
        ) by {
            assert(rest[j] == fields[j + 1]);
        }
        lemma_scan_record_enc(s, i + ef.len() + 1, rest, cfg);
        assert(scan_record(s, i, d, t).fields =~~= seq![f0] + scan_record(
            s,
            i + ef.len() + 1,
            d,
            t,
        ).fields);
        assert(seq![f0] + rest =~~= fields);
        assert(spec_encode_row(fields, cfg).len() == ef.len() + 1 + spec_encode_row(
            rest,
            cfg,
        ).len());
    }
}

/// Scanning an encoded sequence of records from `i` to the end of input:
/// every record comes back, in order.
proof fn lemma_raw_rows_enc(s: Seq<u8>, i: int, rows: Seq<Seq<Seq<char>>>, cfg: WriterConfig)
    requires
        invertible(cfg),
        forall|r: int| 0 <= r < rows.len() ==> #[trigger] rows[r].len() >= 1,
        forall|r: int, j: int|
            0 <= r < rows.len() && 0 <= j < rows[r].len() ==> field_invertible(
                #[trigger] raw_fields(rows[r])[j],
                cfg,
            ),
        0 <= i <= s.len(),
        s.subrange(i, s.len() as int) == spec_encode_rows(rows, cfg),
    ensures
        spec_raw_rows(s, i, cfg.delimiter, cfg.terminator) == Some(
            rows.map_values(|rec: Seq<Seq<char>>| raw_fields(rec)),
        ),
    decreases rows.len(),
{
    let d = cfg.delimiter;
    let t = cfg.terminator;
    let mapped = rows.map_values(|rec: Seq<Seq<char>>| raw_fields(rec));
    if rows.len() == 0 {
        assert(i == s.len());
        assert(mapped =~~= Seq::<Seq<Seq<u8>>>::empty());
    } else {
        let raw0 = raw_fields(rows[0]);
        let er = spec_encode_row(raw0, cfg);
        assert(raw0.len() == rows[0].len());
        assert(spec_encode_rows(rows, cfg) == er + spec_encode_rows(rows.drop_first(), cfg));
        assert(seg(s, i, er + spec_encode_rows(rows.drop_first(), cfg))) by {
            assert(i + (er + spec_encode_rows(rows.drop_first(), cfg)).len() == s.len());
        }
        lemma_seg_split(s, i, er, spec_encode_rows(rows.drop_first(), cfg));
        assert(er.len() >= 1);
        assert(i < s.len());
        assert forall|j: int| 0 <= j < raw0.len() implies field_invertible(
            #[trigger] raw0[j],
            cfg,
        ) by {
            assert(field_invertible(raw_fields(rows[0])[j], cfg));
        }
        lemma_scan_record_enc(s, i, raw0, cfg);
        let rc = scan_record(s, i, d, t);
        assert(rc.ok && rc.fields == raw0 && rc.next == i + er.len());
        assert(s.subrange(i + er.len(), s.len() as int) =~= spec_encode_rows(
            rows.drop_first(),
            cfg,
        )) by {
            assert(seg(s, i + er.len(), spec_encode_rows(rows.drop_first(), cfg)));
        }
        assert forall|r: int, j: int|
            0 <= r < rows.drop_first().len() && 0 <= j < rows.drop_first()[r].len()
                implies field_invertible(
            #[trigger] raw_fields(rows.drop_first()[r])[j],
            cfg,
        ) by {
            assert(rows.drop_first()[r] == rows[r + 1]);
            assert(field_invertible(raw_fields(rows[r + 1])[j], cfg));
        }
        lemma_raw_rows_enc(s, i + er.len(), rows.drop_first(), cfg);
        let rest_mapped = rows.drop_first().map_values(|rec: Seq<Seq<char>>| raw_fields(rec));
        assert(spec_raw_rows(s, i, d, t) == Some(seq![raw0] + rest_mapped));
        assert(seq![raw0] + rest_mapped =~~= mapped);
    }
}

/// True when the character is not a control character.
pub open spec fn no_control(c: char) -> bool {
    !((c as u32) < 32 || (c as u32) == 127)
}

/// Round trip for every quoting style: encoding records whose every field
/// is encoded invertibly, then reading the bytes back under the matching
/// settings, yields exactly the original records.
///
/// Under the `Never` style the per-field condition is exactly the condition
/// under which [`crate::writer::CSVWriter::writerow`] accepts the record at
/// all; under `NonNumeric` it rules out a delimiter or terminator that is
/// itself a digit, sign or decimal-point byte sitting inside an unquoted
/// numeric field.  Every record must have at least one field: a record of
/// none would read back as one empty field.
pub proof fn lemma_round_trip_protected(rows: Seq<Seq<Seq<char>>>, cfg: WriterConfig)
    requires
        invertible(cfg),
        forall|r: int| 0 <= r < rows.len() ==> #[trigger] rows[r].len() >= 1,
        forall|r: int, j: int|
            0 <= r < rows.len() && 0 <= j < rows[r].len() ==> field_invertible(
                #[trigger] raw_fields(rows[r])[j],
                cfg,
            ),
    ensures
        spec_read_rows(spec_encode_rows(rows, cfg), cfg.delimiter, cfg.terminator) == Some(rows),
{
    let s = spec_encode_rows(rows, cfg);
    let d = cfg.delimiter;
    let t = cfg.terminator;
    assert(s.subrange(0, s.len() as int) =~= s);
    lemma_raw_rows_enc(s, 0, rows, cfg);
    let mapped = rows.map_values(|rec: Seq<Seq<char>>| raw_fields(rec));
    assert(spec_raw_rows(s, 0, d, t) == Some(mapped));
    assert forall|r: int| 0 <= r < mapped.len() implies (#[trigger] decode_raw_row(
        mapped[r],
    )) is Some && decode_raw_row(mapped[r])->0 =~~= rows[r] by {
        let raw = mapped[r];
        assert(raw == raw_fields(rows[r]));
        assert forall|j: int| 0 <= j < raw.len() implies valid_utf8(#[trigger] raw[j]) by {
            assert(raw[j] == encode_utf8(rows[r][j]));
            encode_utf8_valid_utf8(rows[r][j]);
        }
        assert forall|j: int|
            0 <= j < raw.len() implies #[trigger] decode_utf8(raw[j]) == rows[r][j] by {
            assert(raw[j] == encode_utf8(rows[r][j]));
            encode_utf8_decode_utf8(rows[r][j]);
        }
        assert(decode_raw_row(raw)->0 =~~= rows[r]);
    }
    assert(decode_raw_rows(mapped) is Some);
    assert(decode_raw_rows(mapped)->0 =~~= rows);
}

/// Round trip: for all record sequences whose text fields hold no control
/// characters, encoding under the `Necessary` or `Always` quoting style and
/// reading the bytes back under the matching settings yields exactly the
/// original records.
///
/// The settings must be invertible: the delimiter, the terminator and the
/// quote must be three distinct bytes, and quotes must be doubled (the
/// reader reads `""` as a literal quote, so the escape-byte convention does
/// not round-trip).  Every record must have at least one field: a record of
/// none would read back as one empty field.
pub proof fn lemma_round_trip(rows: Seq<Seq<Seq<char>>>, cfg: WriterConfig)
    requires
        invertible(cfg),
        cfg.quote_style is Necessary || cfg.quote_style is Always,
        forall|r: int| 0 <= r < rows.len() ==> #[trigger] rows[r].len() >= 1,
        forall|r: int, j: int, k: int|
            0 <= r < rows.len() && 0 <= j < rows[r].len() && 0 <= k < rows[r][j].len()
                ==> no_control(#[trigger] rows[r][j][k]),
    ensures
        spec_read_rows(spec_encode_rows(rows, cfg), cfg.delimiter, cfg.terminator) == Some(rows),
{
    assert forall|r: int, j: int|
        0 <= r < rows.len() && 0 <= j < rows[r].len() implies field_invertible(
        #[trigger] raw_fields(rows[r])[j],
        cfg,
    ) by {
        lemma_quoting_styles_protect(raw_fields(rows[r])[j], cfg);
    }
    lemma_round_trip_protected(rows, cfg);
}

} // verus!
