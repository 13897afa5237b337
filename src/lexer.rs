//! The scanner driver: runs the classifier from the start of the input to its
//! end and collects tokens, or stops at the first lexical error.

use std::ops::Range;
use vstd::prelude::*;
use vstd::string::StringSliceAdditionalSpecFns;
use vstd::utf8::*;
use crate::rules::{classify, lemma_emit_ends_ascii, lemma_step_bounds, step_at, Outcome};
use crate::token::{LexicalError, Token};

verus! {

/// How serious a diagnostic is.
#[derive(Debug, Clone, Copy, PartialEq, Eq, Structural)]
pub enum Severity {
    Error,
    Warning,
}

/// A lexical error anchored to a byte range of the source.
#[derive(Debug, PartialEq, Eq)]
pub struct Diagnostic {
    pub error: LexicalError,
    pub message: String,
    pub label: String,
    pub severity: Severity,
    pub span: Range<usize>,
}

/// One scanned token: its category, its byte span, and the source text that
/// the span addresses.
pub type Lexed<'a> = (Token, Range<usize>, &'a str);

/// The outcome of scanning, over byte offsets.
pub enum Scanned {
    /// Every significant token, in source order, as `(token, start, end)`.
    Tokens(Seq<(Token, int, int)>),
    /// The first lexical error and the span it covers.
    Failed(LexicalError, int, int),
}

/// Puts tokens `ts` in front of a scan's outcome; an error stays as it is.
pub open spec fn prepend(ts: Seq<(Token, int, int)>, r: Scanned) -> Scanned {
    match r {
        Scanned::Tokens(rest) => Scanned::Tokens(ts + rest),
        Scanned::Failed(e, a, b) => Scanned::Failed(e, a, b),
    }
}

/// Scanning from byte offset `p` to the end of `s`.
pub open spec fn scan_from(s: Seq<u8>, p: int) -> Scanned
    decreases s.len() - p,
{
    if p < 0 || p >= s.len() {
        Scanned::Tokens(seq![])
    } else {
        let n = step_at(s, p).1;
        if n < 1 || p + n > s.len() {
            Scanned::Tokens(seq![])
        } else {
            match step_at(s, p).0 {
                Outcome::Skip => scan_from(s, p + n),
                Outcome::Emit(Token::UnclosedString) => Scanned::Failed(
                    LexicalError::UnclosedStringLiteral,
                    p,
                    p + n,
                ),
                Outcome::Emit(t) => prepend(seq![(t, p, p + n)], scan_from(s, p + n)),
                Outcome::Unrecognized => Scanned::Failed(LexicalError::UnrecognizedToken, p, p + n),
            }
        }
    }
}

/// Scanning a whole source.
pub open spec fn scan(s: Seq<u8>) -> Scanned {
    scan_from(s, 0)
}

/// The message of a diagnostic for `e`.
pub open spec fn message_of(e: LexicalError) -> Seq<char> {
    match e {
        LexicalError::UnrecognizedToken => "unrecognized token"@,
        LexicalError::UnclosedStringLiteral => "unclosed string literal"@,
    }
}

/// The label under the span of a diagnostic for `e`.
pub open spec fn label_of(e: LexicalError) -> Seq<char> {
    match e {
        LexicalError::UnrecognizedToken => "unexpected token"@,
        LexicalError::UnclosedStringLiteral => "string literal starts here"@,
    }
}

/// `d` reports error `e` over `[start, end)` with severity `v`.
pub open spec fn reports_as(d: Diagnostic, e: LexicalError, start: int, end: int, v: Severity) -> bool {
    &&& d.error == e
    &&& d.message@ == message_of(e)
    &&& d.label@ == label_of(e)
    &&& d.severity == v
    &&& d.span.start == start
    &&& d.span.end == end
}

/// `d` reports error `e` over `[start, end)` as fatal.
pub open spec fn reports(d: Diagnostic, e: LexicalError, start: int, end: int) -> bool {
    reports_as(d, e, start, end, Severity::Error)
}

/// `out` lists the tokens `ts` of `input`, each with its span and the source
/// text that the span addresses.
pub open spec fn lists<'a>(
    input: &'a str,
    out: Seq<Lexed<'a>>,
    ts: Seq<(Token, int, int)>,
) -> bool {
    &&& out.len() == ts.len()
    &&& forall|i: int| #![trigger out[i]] 0 <= i < out.len() ==> {
        &&& out[i].0 == ts[i].0
        &&& out[i].1.start == ts[i].1
        &&& out[i].1.end == ts[i].2
        &&& out[i].2.spec_bytes() == input.spec_bytes().subrange(ts[i].1, ts[i].2)
    }
}

/// What scanning `input` yields.
pub open spec fn lexes_to<'a>(input: &'a str, r: Result<Vec<Lexed<'a>>, Diagnostic>) -> bool {
    match scan(input.spec_bytes()) {
        Scanned::Tokens(ts) => r matches Ok(out) && lists(input, out@, ts),
        Scanned::Failed(e, a, b) => r matches Err(d) && reports(d, e, a, b),
    }
}

/// A byte below 0x80 in valid UTF-8 has a character boundary on each side.
proof fn lemma_ascii_boundaries(s: Seq<u8>, i: int)
    requires
        valid_utf8(s),
        0 <= i < s.len(),
        s[i] < 0x80,
    ensures
        is_char_boundary(s, i),
        is_char_boundary(s, i + 1),
{
    is_char_boundary_iff_not_is_continuation_byte(s, i);
    if i + 1 == s.len() {
        is_char_boundary_start_end_of_seq(s);
    } else {
        valid_utf8_split(s, i);
        let t = s.subrange(i, s.len() as int);
        assert(valid_first_scalar(t));
        assert(length_of_first_scalar(t) == 1);
        let u = pop_first_scalar(t);
        assert(valid_utf8(u));
        assert(u.len() > 0);
        assert(valid_first_scalar(u));
        assert(u[0] == s[i + 1]);
        is_char_boundary_iff_not_is_continuation_byte(s, i + 1);
    }
}

/// A boundary of `s` before `e` is a boundary of the first `e` bytes of `s`.
proof fn lemma_prefix_boundary(s: Seq<u8>, p: int, e: int)
    requires
        valid_utf8(s),
        0 <= p <= e <= s.len(),
        is_char_boundary(s, p),
        is_char_boundary(s, e),
    ensures
        valid_utf8(s.subrange(0, e)),
        is_char_boundary(s.subrange(0, e), p),
{
    valid_utf8_split(s, e);
    let t = s.subrange(0, e);
    if p == e {
        is_char_boundary_start_end_of_seq(t);
    } else {
        is_char_boundary_iff_not_is_continuation_byte(s, p);
        is_char_boundary_iff_not_is_continuation_byte(t, p);
    }
}

/// The text of `input` between two character boundaries.
fn text_between<'a>(input: &'a str, p: usize, e: usize) -> (r: &'a str)
    requires
        p <= e <= input.spec_bytes().len(),
        is_char_boundary(input.spec_bytes(), p as int),
        is_char_boundary(input.spec_bytes(), e as int),
    ensures
        r.spec_bytes() == input.spec_bytes().subrange(p as int, e as int),
{
    proof {
        encode_utf8_valid_utf8(input@);
        lemma_prefix_boundary(input.spec_bytes(), p as int, e as int);
    }
    let head = input.split_at(e).0;
    let r = head.split_at(p).1;
    assert(r.spec_bytes() =~= input.spec_bytes().subrange(p as int, e as int));
    r
}

/// `[a, b)` of `s` is consumed by skipped content alone: whitespace and comments.
pub open spec fn skipped(s: Seq<u8>, a: int, b: int) -> bool
    decreases b - a,
{
    if a == b {
        true
    } else if 0 <= a < b <= s.len() {
        let n = step_at(s, a).1;
        &&& step_at(s, a).0 is Skip
        &&& 1 <= n <= b - a
        &&& skipped(s, a + n, b)
    } else {
        false
    }
}

/// The spans `ts`, together with skipped regions between them, tile `[p, s.len())`.
pub open spec fn tiles_from(s: Seq<u8>, p: int, ts: Seq<(Token, int, int)>) -> bool {
    if ts.len() == 0 {
        skipped(s, p, s.len() as int)
    } else {
        &&& skipped(s, p, ts[0].1)
        &&& forall|i: int| 0 <= i < ts.len() ==> #[trigger] ts[i].1 < ts[i].2
        &&& forall|i: int| 0 <= i < ts.len() - 1 ==> skipped(s, #[trigger] ts[i].2, ts[i + 1].1)
        &&& skipped(s, ts.last().2, s.len() as int)
    }
}

proof fn lemma_tiles_from(s: Seq<u8>, p: int)
    requires
        0 <= p <= s.len(),
        scan_from(s, p) is Tokens,
    ensures
        tiles_from(s, p, scan_from(s, p)->Tokens_0),
    decreases s.len() - p,
{
    if p < s.len() {
        lemma_step_bounds(s, p);
        let n = step_at(s, p).1;
        lemma_tiles_from(s, p + n);
        let rest = scan_from(s, p + n)->Tokens_0;
        match step_at(s, p).0 {
            Outcome::Skip => {
                if rest.len() == 0 {
                    assert(skipped(s, p, s.len() as int));
                } else {
                    assert(skipped(s, p, rest[0].1));
                }
            },
            Outcome::Emit(t) => {
                assert(t != Token::UnclosedString);
                let ts = seq![(t, p, p + n)] + rest;
                assert(ts[0].1 == p);
                assert forall|i: int| 0 <= i < ts.len() implies #[trigger] ts[i].1 < ts[i].2 by {
                    if i > 0 {
                        assert(ts[i] == rest[i - 1]);
                    }
                }
                assert forall|i: int| 0 <= i < ts.len() - 1 implies skipped(
                    s,
                    #[trigger] ts[i].2,
                    ts[i + 1].1,
                ) by {
                    if i > 0 {
                        assert(ts[i] == rest[i - 1]);
                        assert(ts[i + 1] == rest[i]);
                    }
                }
            },
            Outcome::Unrecognized => {},
        }
    }
}

/// When a scan succeeds, its token spans and the skipped whitespace and
/// comments between them tile the whole source: no gaps, no overlaps, and
/// every token span is non-empty.
pub proof fn lemma_spans_tile_source(s: Seq<u8>)
    requires
        scan(s) is Tokens,
    ensures
        tiles_from(s, 0, scan(s)->Tokens_0),
{
    lemma_tiles_from(s, 0);
}

/// Two results carry the same tokens, spans and lexemes, or the same diagnostic.
pub open spec fn same_output<'a>(
    r1: Result<Vec<Lexed<'a>>, Diagnostic>,
    r2: Result<Vec<Lexed<'a>>, Diagnostic>,
) -> bool {
    match (r1, r2) {
        (Ok(a), Ok(b)) => {
            &&& a@.len() == b@.len()
            &&& forall|i: int| #![trigger a@[i], b@[i]] 0 <= i < a@.len() ==> {
                &&& a@[i].0 == b@[i].0
                &&& a@[i].1 == b@[i].1
                &&& a@[i].2.spec_bytes() == b@[i].2.spec_bytes()
            }
        },
        (Err(d1), Err(d2)) => {
            &&& d1.error == d2.error
            &&& d1.message@ == d2.message@
            &&& d1.label@ == d2.label@
            &&& d1.severity == d2.severity
            &&& d1.span == d2.span
        },
        _ => false,
    }
}

/// Scanning the same source twice gives the same output: nothing but the
/// source decides what `lex` returns.
pub proof fn lemma_lex_deterministic<'a>(
    input: &'a str,
    r1: Result<Vec<Lexed<'a>>, Diagnostic>,
    r2: Result<Vec<Lexed<'a>>, Diagnostic>,
)
    requires
        lexes_to(input, r1),
        lexes_to(input, r2),
    ensures
        same_output(r1, r2),
{
    match scan(input.spec_bytes()) {
        Scanned::Tokens(ts) => {
            let a = r1->Ok_0;
            let b = r2->Ok_0;
            assert forall|i: int| #![trigger a@[i], b@[i]] 0 <= i < a@.len() implies {
                &&& a@[i].0 == b@[i].0
                &&& a@[i].1 == b@[i].1
                &&& a@[i].2.spec_bytes() == b@[i].2.spec_bytes()
            } by {
                assert(a@[i].1.start == b@[i].1.start);
                assert(a@[i].1.end == b@[i].1.end);
            }
        },
        Scanned::Failed(..) => {},
    }
}

/// The outcome of a permissive scan, over byte offsets.
pub enum Lenient {
    /// The tokens, and the spans of the unrecognized characters that were skipped.
    Done(Seq<(Token, int, int)>, Seq<(int, int)>),
    /// An unclosed string literal over this span.
    Unclosed(int, int),
}

/// Puts tokens `ts` and skipped spans `ws` in front of a permissive scan's outcome.
pub open spec fn prepend_lenient(ts: Seq<(Token, int, int)>, ws: Seq<(int, int)>, r: Lenient) -> Lenient {
    match r {
        Lenient::Done(a, b) => Lenient::Done(ts + a, ws + b),
        Lenient::Unclosed(a, b) => Lenient::Unclosed(a, b),
    }
}

/// Permissive scanning from byte offset `p`: an unrecognized character is
/// skipped and recorded; an unclosed string literal still stops the scan.
pub open spec fn scan_lenient_from(s: Seq<u8>, p: int) -> Lenient
    decreases s.len() - p,
{
    if p < 0 || p >= s.len() {
        Lenient::Done(seq![], seq![])
    } else {
        let n = step_at(s, p).1;
        if n < 1 || p + n > s.len() {
            Lenient::Done(seq![], seq![])
        } else {
            match step_at(s, p).0 {
                Outcome::Skip => scan_lenient_from(s, p + n),
                Outcome::Emit(Token::UnclosedString) => Lenient::Unclosed(p, p + n),
                Outcome::Emit(t) => prepend_lenient(seq![(t, p, p + n)], seq![], scan_lenient_from(s, p + n)),
                Outcome::Unrecognized => {
                    prepend_lenient(seq![], seq![(p, p + n)], scan_lenient_from(s, p + n))
                },
            }
        }
    }
}

/// `ws` are warnings of unrecognized input over the spans `spans`.
pub open spec fn warns(ws: Seq<Diagnostic>, spans: Seq<(int, int)>) -> bool {
    &&& ws.len() == spans.len()
    &&& forall|i: int| #![trigger ws[i]] 0 <= i < ws.len() ==> reports_as(
        ws[i],
        LexicalError::UnrecognizedToken,
        spans[i].0,
        spans[i].1,
        Severity::Warning,
    )
}

/// What scanning `input` permissively yields.
pub open spec fn lexes_leniently_to<'a>(
    input: &'a str,
    r: Result<(Vec<Lexed<'a>>, Vec<Diagnostic>), Diagnostic>,
) -> bool {
    match scan_lenient_from(input.spec_bytes(), 0) {
        Lenient::Done(ts, spans) => r matches Ok(out) && lists(input, out.0@, ts) && warns(out.1@, spans),
        Lenient::Unclosed(a, b) => r matches Err(d) && reports(d, LexicalError::UnclosedStringLiteral, a, b),
    }
}

proof fn lemma_strict_then_lenient(s: Seq<u8>, p: int)
    requires
        0 <= p <= s.len(),
        scan_from(s, p) is Tokens,
    ensures
        scan_lenient_from(s, p) == Lenient::Done(scan_from(s, p)->Tokens_0, seq![]),
    decreases s.len() - p,
{
    if p < s.len() {
        lemma_step_bounds(s, p);
        let n = step_at(s, p).1;
        lemma_strict_then_lenient(s, p + n);
        let rest = scan_from(s, p + n)->Tokens_0;
        assert(seq![] + rest =~= rest);
        assert(Seq::<(int, int)>::empty() + seq![] =~= Seq::<(int, int)>::empty());
    }
}

/// Where the strict scan succeeds, the permissive scan finds the same tokens
/// and warns of nothing.
pub proof fn lemma_lenient_agrees_with_strict(s: Seq<u8>)
    requires
        scan(s) is Tokens,
    ensures
        scan_lenient_from(s, 0) == Lenient::Done(scan(s)->Tokens_0, seq![]),
{
    lemma_strict_then_lenient(s, 0);
}

/// The diagnostic for error `e` over `[start, end)` with severity `severity`.
fn diagnostic(e: LexicalError, start: usize, end: usize, severity: Severity) -> (d: Diagnostic)
    ensures
        reports_as(d, e, start as int, end as int, severity),
{
    let (message, label) = match e {
        LexicalError::UnrecognizedToken => ("unrecognized token".to_owned(), "unexpected token".to_owned()),
        LexicalError::UnclosedStringLiteral => (
            "unclosed string literal".to_owned(),
            "string literal starts here".to_owned(),
        ),
    };
    Diagnostic { error: e, message, label, severity, span: start..end }
}

/// Scans `input` into its tokens, each with its byte span and the text that
/// the span addresses, or reports the first lexical error.
///
/// Whitespace (space, tab, line feed, form feed) and comments from `-#-` to
/// the end of the line are skipped. Errors are fatal: the scan stops at an
/// unclosed string literal, and also at a character that no rule matches,
/// with no partial token list.
pub fn lex<'a>(input: &'a str) -> (r: Result<Vec<Lexed<'a>>, Diagnostic>)
    ensures
        lexes_to(input, r),
{
    let bytes = input.as_bytes();
    let ghost s = input.spec_bytes();
    proof {
        encode_utf8_valid_utf8(input@);
    }
    let mut out: Vec<Lexed<'a>> = Vec::new();
    let ghost mut ts: Seq<(Token, int, int)> = seq![];
    let mut pos: usize = 0;
    while pos < bytes.len()
        invariant
            bytes@ == s,
            s == input.spec_bytes(),
            valid_utf8(s),
            pos <= s.len(),
            lists(input, out@, ts),
            scan(s) == prepend(ts, scan_from(s, pos as int)),
        decreases s.len() - pos,
    {
        let (o, n) = classify(bytes, pos);
        let end = pos + n;
        match o {
            Outcome::Skip => {},
            Outcome::Emit(Token::UnclosedString) => {
                return Err(diagnostic(LexicalError::UnclosedStringLiteral, pos, end, Severity::Error));
            },
            Outcome::Emit(t) => {
                proof {
                    lemma_emit_ends_ascii(s, pos as int);
                    lemma_ascii_boundaries(s, pos as int);
                    lemma_ascii_boundaries(s, end - 1);
                }
                let text = text_between(input, pos, end);
                out.push((t, pos..end, text));
                proof {
                    let x = (t, pos as int, end as int);
                    match scan_from(s, end as int) {
                        Scanned::Tokens(rest) => {
                            assert(ts + (seq![x] + rest) =~= ts.push(x) + rest);
                        },
                        Scanned::Failed(..) => {},
                    }
                    ts = ts.push(x);
                }
            },
            Outcome::Unrecognized => {
                return Err(diagnostic(LexicalError::UnrecognizedToken, pos, end, Severity::Error));
            },
        }
        pos = end;
    }
    assert(ts + seq![] =~= ts);
    Ok(out)
}

/// Scans `input` like `lex`, but skips each character that no rule matches
/// and returns a warning for it beside the tokens. An unclosed string
/// literal still stops the scan with an error.
pub fn lex_permissive<'a>(input: &'a str) -> (r: Result<(Vec<Lexed<'a>>, Vec<Diagnostic>), Diagnostic>)
    ensures
        lexes_leniently_to(input, r),
{
    let bytes = input.as_bytes();
    let ghost s = input.spec_bytes();
    proof {
        encode_utf8_valid_utf8(input@);
    }
    let mut out: Vec<Lexed<'a>> = Vec::new();
    let mut warnings: Vec<Diagnostic> = Vec::new();
    let ghost mut ts: Seq<(Token, int, int)> = seq![];
    let ghost mut spans: Seq<(int, int)> = seq![];
    let mut pos: usize = 0;
    while pos < bytes.len()
        invariant
            bytes@ == s,
            s == input.spec_bytes(),
            valid_utf8(s),
            pos <= s.len(),
            lists(input, out@, ts),
            warns(warnings@, spans),
            scan_lenient_from(s, 0) == prepend_lenient(ts, spans, scan_lenient_from(s, pos as int)),
        decreases s.len() - pos,
    {
        let (o, n) = classify(bytes, pos);
        let end = pos + n;
        match o {
            Outcome::Skip => {},
            Outcome::Emit(Token::UnclosedString) => {
                return Err(diagnostic(LexicalError::UnclosedStringLiteral, pos, end, Severity::Error));
            },
            Outcome::Emit(t) => {
                proof {
                    lemma_emit_ends_ascii(s, pos as int);
                    lemma_ascii_boundaries(s, pos as int);
                    lemma_ascii_boundaries(s, end - 1);
                }
                let text = text_between(input, pos, end);
                out.push((t, pos..end, text));
                proof {
                    let x = (t, pos as int, end as int);
                    match scan_lenient_from(s, end as int) {
                        Lenient::Done(rest, more) => {
                            assert(ts + (seq![x] + rest) =~= ts.push(x) + rest);
                            assert(spans + (seq![] + more) =~= spans + more);
                        },
                        Lenient::Unclosed(..) => {},
                    }
                    ts = ts.push(x);
                }
            },
            Outcome::Unrecognized => {
                warnings.push(diagnostic(LexicalError::UnrecognizedToken, pos, end, Severity::Warning));
                proof {
                    let w = (pos as int, end as int);
                    match scan_lenient_from(s, end as int) {
                        Lenient::Done(rest, more) => {
                            assert(ts + (seq![] + rest) =~= ts + rest);
                            assert(spans + (seq![w] + more) =~= spans.push(w) + more);
                        },
                        Lenient::Unclosed(..) => {},
                    }
                    spans = spans.push(w);
                }
            },
        }
        pos = end;
    }
    assert(ts + seq![] =~= ts);
    assert(spans + seq![] =~= spans);
    Ok((out, warnings))
}

} // verus!
