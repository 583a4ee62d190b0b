//! The writer: serializes records back into delimited bytes under a
//! quoting-style policy.
//!
//! Encoded bytes accumulate in an internal buffer; the caller drains them
//! with [`CSVWriter::take_output`] and sends them wherever the stream goes.
//! The byte-level meaning of every encoding decision is given by the spec
//! functions here, so that what the writer emits is exactly what the
//! scanner reads back.

use vstd::prelude::*;
use vstd::utf8::encode_utf8;

use crate::error::CsvError;
use crate::record::Record;
use crate::scan::QUOTE;
use crate::text::str_eq;
use crate::reader::{spec_opt_byte, spec_opt_byte_ok};
use crate::util::get_optional_single_byte;

verus! {

/// When the writer wraps a field in quotes.
#[derive(Clone, Copy, Debug, PartialEq, Eq, Structural)]
pub enum QuoteStyle {
    /// Quote only fields that contain the delimiter, terminator, quote or
    /// escape byte.
    Necessary,
    /// Quote every field.
    Always,
    /// Quote nothing; a field that would be ambiguous unquoted is rejected.
    Never,
    /// Quote every field that is not a pure numeric literal.
    NonNumeric,
}

/// Parses a quote-style name.  The accepted names are `necessary`, `always`,
/// `never` and `non_numeric`; anything else is a configuration error.
pub fn parse_quote_style(quote_style: &str) -> (r: Result<QuoteStyle, CsvError>)
    ensures
        quote_style@ == "necessary"@ ==> r == Ok::<QuoteStyle, CsvError>(QuoteStyle::Necessary),
        quote_style@ == "always"@ ==> r == Ok::<QuoteStyle, CsvError>(QuoteStyle::Always),
        quote_style@ == "never"@ ==> r == Ok::<QuoteStyle, CsvError>(QuoteStyle::Never),
        quote_style@ == "non_numeric"@ ==> r == Ok::<QuoteStyle, CsvError>(QuoteStyle::NonNumeric),
        (quote_style@ != "necessary"@ && quote_style@ != "always"@ && quote_style@ != "never"@
            && quote_style@ != "non_numeric"@) ==> r == Err::<QuoteStyle, CsvError>(
            CsvError::Config,
        ),
{
    proof {
        reveal_strlit("necessary");
        reveal_strlit("always");
        reveal_strlit("never");
        reveal_strlit("non_numeric");
        assert("necessary"@.len() == 9);
        assert("always"@.len() == 6);
        assert("never"@.len() == 5);
        assert("non_numeric"@.len() == 11);
    }
    if str_eq(quote_style, "necessary") {
        Ok(QuoteStyle::Necessary)
    } else if str_eq(quote_style, "always") {
        Ok(QuoteStyle::Always)
    } else if str_eq(quote_style, "never") {
        Ok(QuoteStyle::Never)
    } else if str_eq(quote_style, "non_numeric") {
        Ok(QuoteStyle::NonNumeric)
    } else {
        Err(CsvError::Config)
    }
}

/// Configuration of a writer: the delimiter and terminator placed between
/// fields and after records, the escape byte and quote-doubling flag that
/// govern literal quotes inside quoted fields, and the quoting style.
#[derive(Clone, Copy, Debug, PartialEq, Eq, Structural)]
pub struct WriterConfig {
    pub delimiter: u8,
    pub terminator: u8,
    pub escape: u8,
    pub double_quote: bool,
    pub quote_style: QuoteStyle,
}

impl Default for WriterConfig {
    /// The defaults: comma-delimited, newline-terminated, backslash escape,
    /// doubled quotes, quoting only where necessary.
    fn default() -> (c: WriterConfig)
        ensures
            c == (WriterConfig {
                delimiter: 44u8,
                terminator: 10u8,
                escape: 92u8,
                double_quote: true,
                quote_style: QuoteStyle::Necessary,
            }),
    {
        WriterConfig {
            delimiter: 44,
            terminator: 10,
            escape: 92,
            double_quote: true,
            quote_style: QuoteStyle::Necessary,
        }
    }
}

impl WriterConfig {
    /// Validates raw option values into a configuration.  The terminator
    /// defaults to newline and the escape to backslash; a supplied value of
    /// zero or several bytes is a configuration error.  Quote doubling
    /// defaults to on, and the quoting style to `necessary`.
    pub fn new(
        terminator: Option<&[u8]>,
        escape: Option<&[u8]>,
        double_quote: Option<bool>,
        quote_style: Option<QuoteStyle>,
    ) -> (r: Result<WriterConfig, CsvError>)
        ensures
            r is Ok <==> spec_opt_byte_ok(terminator) && spec_opt_byte_ok(escape),
            r is Ok ==> r->Ok_0 == (WriterConfig {
                delimiter: 44u8,
                terminator: spec_opt_byte(terminator, 10),
                escape: spec_opt_byte(escape, 92),
                double_quote: match double_quote {
                    Some(v) => v,
                    None => true,
                },
                quote_style: match quote_style {
                    Some(q) => q,
                    None => QuoteStyle::Necessary,
                },
            }),
            r is Err ==> r->Err_0 == CsvError::Config,
    {
        let t = get_optional_single_byte(terminator, 10)?;
        let e = get_optional_single_byte(escape, 92)?;
        Ok(WriterConfig {
            delimiter: 44,
            terminator: t,
            escape: e,
            double_quote: match double_quote {
                Some(v) => v,
                None => true,
            },
            quote_style: match quote_style {
                Some(q) => q,
                None => QuoteStyle::Necessary,
            },
        })
    }
}

/// True when `f` holds the byte `b` anywhere.
pub open spec fn contains_byte(f: Seq<u8>, b: u8) -> bool {
    exists|k: int| 0 <= k < f.len() && f[k] == b
}

/// True for an ASCII digit byte.
pub open spec fn is_digit(b: u8) -> bool {
    48 <= b <= 57
}

/// `f` without its optional leading sign byte.
pub open spec fn strip_sign(f: Seq<u8>) -> Seq<u8> {
    if f.len() > 0 && (f[0] == 43 || f[0] == 45) {
        f.drop_first()
    } else {
        f
    }
}

/// True when `g` (a field with any sign already removed) is digits with at
/// most one decimal point among them.
pub open spec fn numeric_body(g: Seq<u8>) -> bool {
    &&& g.len() > 0
    &&& forall|k: int| 0 <= k < g.len() ==> is_digit(#[trigger] g[k]) || g[k] == 46
    &&& exists|k: int| 0 <= k < g.len() && is_digit(g[k])
    &&& dot_count(g) <= 1
}

/// True when `f` spells a pure numeric literal: an optional leading sign,
/// then digits with at most one decimal point among them.
pub open spec fn spec_numeric(f: Seq<u8>) -> bool {
    numeric_body(strip_sign(f))
}

/// Number of decimal-point bytes in `f`.
pub open spec fn dot_count(f: Seq<u8>) -> int
    decreases f.len(),
{
    if f.len() == 0 {
        0
    } else {
        dot_count(f.drop_last()) + if f.last() == 46 { 1int } else { 0int }
    }
}

/// True when the quoting style wraps the field `f` in quotes.
pub open spec fn needs_quotes(f: Seq<u8>, cfg: WriterConfig) -> bool {
    match cfg.quote_style {
        QuoteStyle::Always => true,
        QuoteStyle::Never => false,
        QuoteStyle::Necessary => contains_byte(f, cfg.delimiter) || contains_byte(
            f,
            cfg.terminator,
        ) || contains_byte(f, QUOTE) || contains_byte(f, cfg.escape),
        QuoteStyle::NonNumeric => !spec_numeric(f),
    }
}

/// True when a field cannot be written unquoted without changing what a
/// reader would parse back: it holds the delimiter, the terminator, or a
/// quote.
pub open spec fn unquoted_ambiguous(f: Seq<u8>, cfg: WriterConfig) -> bool {
    contains_byte(f, cfg.delimiter) || contains_byte(f, cfg.terminator) || contains_byte(f, QUOTE)
}

/// The body of a quoted field: each literal quote becomes `""` under quote
/// doubling, or the escape byte followed by a quote otherwise; every other
/// byte stands for itself.
pub open spec fn escape_quotes(f: Seq<u8>, cfg: WriterConfig) -> Seq<u8>
    decreases f.len(),
{
    if f.len() == 0 {
        seq![]
    } else {
        let head = if f[0] == QUOTE {
            if cfg.double_quote {
                seq![QUOTE, QUOTE]
            } else {
                seq![cfg.escape, QUOTE]
            }
        } else {
            seq![f[0]]
        };
        head + escape_quotes(f.drop_first(), cfg)
    }
}

/// The encoding of one field: its bytes verbatim, or wrapped in quotes with
/// literal quotes escaped, as the quoting style decides.
pub open spec fn spec_encode_field(f: Seq<u8>, cfg: WriterConfig) -> Seq<u8> {
    if needs_quotes(f, cfg) {
        seq![QUOTE] + escape_quotes(f, cfg) + seq![QUOTE]
    } else {
        f
    }
}

/// The encoding of a record's fields, joined by the delimiter (and without
/// the final terminator).
pub open spec fn spec_encode_fields(fields: Seq<Seq<u8>>, cfg: WriterConfig) -> Seq<u8>
    decreases fields.len(),
{
    if fields.len() == 0 {
        seq![]
    } else if fields.len() == 1 {
        spec_encode_field(fields[0], cfg)
    } else {
        spec_encode_field(fields[0], cfg) + seq![cfg.delimiter] + spec_encode_fields(
            fields.drop_first(),
            cfg,
        )
    }
}

/// The encoding of one whole record: its fields joined by the delimiter,
/// then the terminator.
pub open spec fn spec_encode_row(fields: Seq<Seq<u8>>, cfg: WriterConfig) -> Seq<u8> {
    spec_encode_fields(fields, cfg) + seq![cfg.terminator]
}

/// The raw byte fields of a record: the UTF-8 encoding of each text field.
pub open spec fn raw_fields(rec: Seq<Seq<char>>) -> Seq<Seq<u8>> {
    rec.map_values(|f: Seq<char>| encode_utf8(f))
}

pub proof fn lemma_encode_fields_push(fields: Seq<Seq<u8>>, f: Seq<u8>, cfg: WriterConfig)
    ensures
        spec_encode_fields(fields.push(f), cfg) == if fields.len() == 0 {
            spec_encode_field(f, cfg)
        } else {
            spec_encode_fields(fields, cfg) + seq![cfg.delimiter] + spec_encode_field(f, cfg)
        },
    decreases fields.len(),
{
    if fields.len() == 0 {
        assert(fields.push(f) =~~= seq![f]);
        assert(spec_encode_fields(seq![f], cfg) == spec_encode_field(f, cfg));
    } else {
        lemma_encode_fields_push(fields.drop_first(), f, cfg);
        assert(fields.push(f).drop_first() =~~= fields.drop_first().push(f));
        if fields.len() == 1 {
            assert(fields =~~= seq![fields[0]]);
            assert(spec_encode_fields(fields, cfg) == spec_encode_field(fields[0], cfg));
            assert(spec_encode_fields(fields.push(f), cfg) =~= spec_encode_field(fields[0], cfg)
                + seq![cfg.delimiter] + spec_encode_field(f, cfg));
        } else {
            assert(spec_encode_fields(fields.push(f), cfg) =~= spec_encode_fields(fields, cfg)
                + seq![cfg.delimiter] + spec_encode_field(f, cfg));
        }
    }
}

pub proof fn lemma_escape_quotes_push(f: Seq<u8>, b: u8, cfg: WriterConfig)
    ensures
        escape_quotes(f.push(b), cfg) == escape_quotes(f, cfg) + (if b == QUOTE {
            if cfg.double_quote {
                seq![QUOTE, QUOTE]
            } else {
                seq![cfg.escape, QUOTE]
            }
        } else {
            seq![b]
        }),
    decreases f.len(),
{
    if f.len() == 0 {
        assert(f.push(b) =~= seq![b]);
        assert(seq![b].drop_first() =~= Seq::<u8>::empty());
        assert(escape_quotes(Seq::<u8>::empty(), cfg) == Seq::<u8>::empty());
        assert(escape_quotes(f.push(b), cfg) =~= escape_quotes(f, cfg) + (if b == QUOTE {
            if cfg.double_quote {
                seq![QUOTE, QUOTE]
            } else {
                seq![cfg.escape, QUOTE]
            }
        } else {
            seq![b]
        }));
    } else {
        lemma_escape_quotes_push(f.drop_first(), b, cfg);
        assert(f.push(b).drop_first() =~= f.drop_first().push(b));
        assert(f.push(b)[0] == f[0]);
        assert(escape_quotes(f.push(b), cfg) =~= escape_quotes(f, cfg) + (if b == QUOTE {
            if cfg.double_quote {
                seq![QUOTE, QUOTE]
            } else {
                seq![cfg.escape, QUOTE]
            }
        } else {
            seq![b]
        }));
    }
}

/// The writer: a validated configuration and the bytes encoded so far.
pub struct CSVWriter {
    pub config: WriterConfig,
    /// Bytes encoded and not yet taken by the caller.
    pub out: Vec<u8>,
}

impl CSVWriter {
    /// A fresh writer with the given configuration and an empty output
    /// buffer.
    pub fn new(config: WriterConfig) -> (w: CSVWriter)
        ensures
            w.config == config,
            w.out@ == Seq::<u8>::empty(),
    {
        CSVWriter { config, out: Vec::new() }
    }

    /// Tests whether `f` spells a pure numeric literal.
    #[verifier::loop_isolation(false)]
    fn check_numeric(f: &[u8]) -> (r: bool)
        ensures
            r == spec_numeric(f@),
    {
        let n = f.len();
        let start: usize = if n > 0 && (f[0] == 43 || f[0] == 45) {
            1
        } else {
            0
        };
        let ghost g = strip_sign(f@);
        proof {
            assert(g =~= f@.subrange(start as int, n as int));
        }
        if start == n {
            return false;
        }
        let mut dots: usize = 0;
        let mut saw_digit = false;
        let mut k: usize = start;
        while k < n
            invariant
                start <= k <= n,
                n == f@.len(),
                start + g.len() == n,
                g =~= f@.subrange(start as int, n as int),
                dots <= k,
                dots == dot_count(g.take(k - start)),
                saw_digit == exists|j: int| 0 <= j < k - start && is_digit(g[j]),
                forall|j: int| 0 <= j < k - start ==> is_digit(#[trigger] g[j]) || g[j] == 46,
            decreases n - k,
        {
            let b = f[k];
            proof {
                assert(g[k - start] == f@[k as int]);
                assert(g.take(k - start + 1).drop_last() =~= g.take(k - start));
                assert(g.take(k - start + 1).last() == g[k - start]);
            }
            if b == 46 {
                dots = dots + 1;
            } else if 48 <= b && b <= 57 {
                saw_digit = true;
            } else {
                proof {
                    assert(!(is_digit(g[k - start]) || g[k - start] == 46));
                    assert(!numeric_body(g));
                }
                return false;
            }
            k = k + 1;
        }
        proof {
            assert(g.take(k - start) =~= g);
            assert(dot_count(g) == dots);
            assert(numeric_body(g) == (dots <= 1 && saw_digit));
        }
        dots <= 1 && saw_digit
    }

    /// Tests whether `f` holds the byte `b` anywhere.
    fn check_contains(f: &[u8], b: u8) -> (r: bool)
        ensures
            r == contains_byte(f@, b),
    {
        let mut k: usize = 0;
        while k < f.len()
            invariant
                k <= f@.len(),
                forall|j: int| 0 <= j < k ==> f@[j] != b,
            decreases f@.len() - k,
        {
            if f[k] == b {
                return true;
            }
            k = k + 1;
        }
        false
    }

    /// Decides whether the quoting style wraps the field in quotes.
    fn check_needs_quotes(&self, f: &[u8]) -> (r: bool)
        ensures
            r == needs_quotes(f@, self.config),
    {
        match self.config.quote_style {
            QuoteStyle::Always => true,
            QuoteStyle::Never => false,
            QuoteStyle::Necessary => {
                Self::check_contains(f, self.config.delimiter) || Self::check_contains(
                    f,
                    self.config.terminator,
                ) || Self::check_contains(f, QUOTE) || Self::check_contains(f, self.config.escape)
            },
            QuoteStyle::NonNumeric => !Self::check_numeric(f),
        }
    }

    /// Appends the encoding of one field to the output buffer.
    #[verifier::loop_isolation(false)]
    fn emit_field(&mut self, f: &[u8])
        ensures
            final(self).config == old(self).config,
            final(self).out@ == old(self).out@ + spec_encode_field(f@, old(self).config),
    {
        let ghost cfg = self.config;
        if self.check_needs_quotes(f) {
            self.out.push(QUOTE);
            let ghost base = self.out@;
            let mut k: usize = 0;
            proof {
                assert(escape_quotes(f@.take(0), cfg) =~= Seq::<u8>::empty());
                assert(base + escape_quotes(f@.take(0), cfg) =~= base);
            }
            while k < f.len()
                invariant
                    k <= f@.len(),
                    self.config == cfg,
                    self.out@ == base + escape_quotes(f@.take(k as int), cfg),
                decreases f@.len() - k,
            {
                proof {
                    assert(f@.take(k + 1) =~= f@.take(k as int).push(f@[k as int]));
                    lemma_escape_quotes_push(f@.take(k as int), f@[k as int], cfg);
                }
                let b = f[k];
                if b == QUOTE {
                    if self.config.double_quote {
                        self.out.push(QUOTE);
                        self.out.push(QUOTE);
                    } else {
                        let e = self.config.escape;
                        self.out.push(e);
                        self.out.push(QUOTE);
                    }
                } else {
                    self.out.push(b);
                }
                k = k + 1;
                proof {
                    assert(self.out@ =~= base + escape_quotes(f@.take(k as int), cfg));
                }
            }
            proof {
                assert(f@.take(f@.len() as int) =~= f@);
            }
            self.out.push(QUOTE);
            proof {
                assert(self.out@ =~= old(self).out@ + spec_encode_field(f@, cfg));
            }
        } else {
            let ghost base = self.out@;
            let mut k: usize = 0;
            while k < f.len()
                invariant
                    k <= f@.len(),
                    self.config == cfg,
                    self.out@ == base + f@.take(k as int),
                decreases f@.len() - k,
            {
                self.out.push(f[k]);
                k = k + 1;
                proof {
                    assert(self.out@ =~= base + f@.take(k as int));
                }
            }
            proof {
                assert(f@.take(f@.len() as int) =~= f@);
                assert(self.out@ =~= old(self).out@ + spec_encode_field(f@, cfg));
            }
        }
    }

    /// Encodes one record and appends its bytes to the output buffer.
    ///
    /// Under the `Never` quoting style a field holding the delimiter, the
    /// terminator or a quote cannot be written faithfully without quotes;
    /// the record is rejected as a value error and the output buffer is
    /// left untouched.  Every other record — under every style — is encoded
    /// as its fields joined by the delimiter, followed by the terminator.
    #[verifier::loop_isolation(false)]
    pub fn writerow(&mut self, record: &Record) -> (r: Result<(), CsvError>)
        ensures
            final(self).config == old(self).config,
            r is Ok <==> !(old(self).config.quote_style is Never && exists|j: int|
                0 <= j < record@.len() && unquoted_ambiguous(
                    raw_fields(record@)[j],
                    old(self).config,
                )),
            r is Ok ==> final(self).out@ == old(self).out@ + spec_encode_row(
                raw_fields(record@),
                old(self).config,
            ),
            r is Err ==> r == Err::<(), CsvError>(CsvError::Value) && final(self).out@ == old(
                self,
            ).out@,
    {
        let ghost cfg = self.config;
        let ghost raws = raw_fields(record@);
        let n = record.len();
        proof {
            assert(raws.len() == record@.len());
        }
        match self.config.quote_style {
            QuoteStyle::Never => {
                let mut k: usize = 0;
                while k < n
                    invariant
                        k <= n,
                        forall|j: int| 0 <= j < k ==> !unquoted_ambiguous(#[trigger] raws[j], cfg),
                    decreases n - k,
                {
                    let f = record.get(k).as_str().as_bytes();
                    proof {
                        assert(f@ == raws[k as int]);
                    }
                    if Self::check_contains(f, self.config.delimiter) || Self::check_contains(
                        f,
                        self.config.terminator,
                    ) || Self::check_contains(f, QUOTE) {
                        return Err(CsvError::Value);
                    }
                    k = k + 1;
                }
            },
            _ => {},
        }
        let ghost base = self.out@;
        let mut k: usize = 0;
        proof {
            assert(raws.take(0) =~~= Seq::<Seq<u8>>::empty());
            assert(base + spec_encode_fields(raws.take(0), cfg) =~= base);
        }
        while k < n
            invariant
                k <= n,
                self.out@ == base + spec_encode_fields(raws.take(k as int), cfg),
                self.config == cfg,
            decreases n - k,
        {
            if k > 0 {
                let d = self.config.delimiter;
                self.out.push(d);
            }
            let f = record.get(k).as_str().as_bytes();
            proof {
                assert(f@ == raws[k as int]);
            }
            self.emit_field(f);
            proof {
                assert(raws.take(k + 1) =~~= raws.take(k as int).push(raws[k as int]));
                lemma_encode_fields_push(raws.take(k as int), raws[k as int], cfg);
                assert(self.out@ =~= base + spec_encode_fields(raws.take(k + 1), cfg));
            }
            k = k + 1;
        }
        let t = self.config.terminator;
        self.out.push(t);
        proof {
            assert(raws.take(n as int) =~~= raws);
            assert(self.out@ =~= base + spec_encode_row(raws, cfg));
        }
        Ok(())
    }

    /// Hands the encoded bytes to the caller and empties the buffer.
    pub fn take_output(&mut self) -> (bytes: Vec<u8>)
        ensures
            final(self).config == old(self).config,
            final(self).out@ == Seq::<u8>::empty(),
            bytes@ == old(self).out@,
    {
        let mut taken: Vec<u8> = Vec::new();
        core::mem::swap(&mut taken, &mut self.out);
        taken
    }
}

} // verus!
