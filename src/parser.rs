//! The parsing engine: outcomes, the recoverable/fatal error discipline,
//! and the lexical primitives that every grammar production is built from.

use vstd::prelude::*;
use vstd::string::*;
use vstd::utf8::*;

use crate::error::{ErrorTypeView, ParseError, ParseErrorType};
use crate::location::Span;
use crate::source::SourceContext;
use crate::text::{blen, char_len, char_width, lemma_blen_concat, lemma_blen_ascii, lemma_blen_ge_len, lemma_blen_take_le, lemma_blen_take_succ, split_chars, split_first};

verus! {

broadcast use vstd::seq::group_seq_axioms;

/// How a parse step failed.
#[derive(Clone, Debug)]
pub enum ErrorKind<E> {
    /// The alternative does not apply here; another may be tried.
    Error(E),
    /// The production was committed to and is malformed; parsing stops.
    Failure(E),
}

/// What a parse step returns: the remaining input with the value and its
/// span, or a classified error.
pub type ParseResult<'i, T> = Result<(&'i str, (T, Span)), ErrorKind<ParseError>>;

/// The mathematical outcome of a parse step on the remaining characters
/// `rest`, when the step started at a given byte offset.
pub enum Outcome<T> {
    Done { value: T, span: Span, rest: Seq<char> },
    Failed { fatal: bool, span: Span, ty: ErrorTypeView },
}

/// The span `[a, b)`.
pub open spec fn sp(a: int, b: int) -> Span {
    Span { start: a as usize, end: b as usize }
}

/// Offsets from `off` to the end of `s` fit in `usize`.
pub open spec fn fits(s: Seq<char>, off: int) -> bool {
    0 <= off && off + blen(s) < usize::MAX
}

/// `rest` is what remains of `s` after a prefix whose bytes run from `off`
/// to `end`: that prefix followed by `rest` is `s` again.
pub open spec fn consumed(s: Seq<char>, off: int, rest: Seq<char>, end: int) -> bool {
    &&& rest.len() <= s.len()
    &&& s == s.take(s.len() - rest.len()) + rest
    &&& end == off + blen(s.take(s.len() - rest.len()))
}

/// A successful outcome spans exactly the prefix of `s` that it consumed;
/// a failure spans a part of `s`.
pub open spec fn advances<T>(o: Outcome<T>, s: Seq<char>, off: int) -> bool {
    match o {
        Outcome::Done { span, rest, .. } => span.start == off && consumed(
            s,
            off,
            rest,
            span.end as int,
        ),
        Outcome::Failed { span, .. } => off <= span.start <= span.end <= off + blen(s),
    }
}

/// The same failure, for a step with another kind of value.
pub open spec fn fail_as<A, B>(o: Outcome<A>) -> Outcome<B> {
    match o {
        Outcome::Failed { fatal, span, ty } => Outcome::Failed { fatal, span, ty },
        Outcome::Done { span, .. } => Outcome::Failed {
            fatal: true,
            span,
            ty: ErrorTypeView::RawUnexpectedEof,
        },
    }
}

/// The outcome once the production is committed to: every failure is fatal.
pub open spec fn committed<T>(o: Outcome<T>) -> Outcome<T> {
    match o {
        Outcome::Failed { span, ty, .. } => Outcome::Failed { fatal: true, span, ty },
        _ => o,
    }
}

/// The outcome of an error.
pub open spec fn err_outcome<T>(e: ErrorKind<ParseError>) -> Outcome<T> {
    match e {
        ErrorKind::Error(e) => Outcome::Failed { fatal: false, span: e.span, ty: e.ty@ },
        ErrorKind::Failure(e) => Outcome::Failed { fatal: true, span: e.span, ty: e.ty@ },
    }
}

/// The outcome of a result.
pub open spec fn outcome<'i, T: View>(r: ParseResult<'i, T>) -> Outcome<T::V> {
    match r {
        Ok((rest, (v, span))) => Outcome::Done { value: v@, span, rest: rest@ },
        Err(e) => err_outcome(e),
    }
}

/// The outcome of a result that carries no value.
pub open spec fn outcome_unit<'i>(r: ParseResult<'i, ()>) -> Outcome<()> {
    match r {
        Ok((rest, (_, span))) => Outcome::Done { value: (), span, rest: rest@ },
        Err(e) => err_outcome(e),
    }
}

/// The outcome of a result that carries a list of values with their spans.
pub open spec fn outcome_many<'i, T: View>(r: ParseResult<'i, Vec<(T, Span)>>) -> Outcome<
    Seq<(T::V, Span)>,
> {
    match r {
        Ok((rest, (v, span))) => Outcome::Done {
            value: v@.map_values(|e: (T, Span)| (e.0@, e.1)),
            span,
            rest: rest@,
        },
        Err(e) => err_outcome(e),
    }
}

/// Matching the literal `t`: too short an input is a fatal end-of-file;
/// otherwise as many characters as `t` has are compared, and a mismatch is
/// recoverable.
pub open spec fn spec_tag(t: Seq<char>, s: Seq<char>, off: int) -> Outcome<Seq<char>> {
    let k = if t.len() <= s.len() {
        t.len() as int
    } else {
        s.len() as int
    };
    if blen(t) > blen(s) {
        Outcome::Failed {
            fatal: true,
            span: sp(off, off + blen(s)),
            ty: ErrorTypeView::UnexpectedEof { expected: t },
        }
    } else if s.take(k) == t {
        Outcome::Done { value: t, span: sp(off, off + blen(t)), rest: s.skip(k) }
    } else {
        Outcome::Failed {
            fatal: false,
            span: sp(off, off + blen(s.take(k))),
            ty: ErrorTypeView::UnexpectedToken { expected: t, found: s.take(k) },
        }
    }
}

/// The length of the longest prefix of `s` whose characters all satisfy `p`.
pub open spec fn run(p: spec_fn(char) -> bool, s: Seq<char>) -> nat
    decreases s.len(),
{
    if s.len() > 0 && p(s[0]) {
        1 + run(p, s.drop_first())
    } else {
        0
    }
}

/// Taking the longest prefix whose characters satisfy `p`; never fails.
pub open spec fn spec_take_while(p: spec_fn(char) -> bool, s: Seq<char>, off: int) -> Outcome<
    Seq<char>,
> {
    let n = run(p, s) as int;
    Outcome::Done { value: s.take(n), span: sp(off, off + blen(s.take(n))), rest: s.skip(n) }
}

/// Relies on `unicode_xid::UnicodeXID::is_xid_start` for `char`: whether a
/// character has the XID_Start property.
pub uninterp spec fn xid_start_of(c: char) -> bool;

/// Relies on `unicode_xid::UnicodeXID::is_xid_continue` for `char`: whether a
/// character has the XID_Continue property.
pub uninterp spec fn xid_continue_of(c: char) -> bool;

/// An ASCII letter.
pub open spec fn is_ascii_letter(c: char) -> bool {
    ('a' <= c <= 'z') || ('A' <= c <= 'Z')
}

/// An identifier-start character: on ASCII the letters, beyond it the
/// XID_Start property.
pub open spec fn id_start(c: char) -> bool {
    if c <= '\x7f' {
        is_ascii_letter(c)
    } else {
        xid_start_of(c)
    }
}

/// An identifier-continue character: on ASCII letters, digits and `_`,
/// beyond it the XID_Continue property.
pub open spec fn id_continue(c: char) -> bool {
    if c <= '\x7f' {
        is_ascii_letter(c) || ('0' <= c <= '9') || c == '_'
    } else {
        xid_continue_of(c)
    }
}

/// Relies on `UnicodeXID::is_xid_start`; on ASCII it accepts the letters.
#[verifier::external_body]
fn is_xid_start(c: char) -> (r: bool)
    ensures
        r == xid_start_of(c),
        r == id_start(c),
{
    unicode_xid::UnicodeXID::is_xid_start(c)
}

/// Relies on `UnicodeXID::is_xid_continue`; on ASCII it accepts letters,
/// digits and `_`.
#[verifier::external_body]
fn is_xid_continue(c: char) -> (r: bool)
    ensures
        r == xid_continue_of(c),
        r == id_continue(c),
{
    unicode_xid::UnicodeXID::is_xid_continue(c)
}

/// The identifier-continue property as a predicate.
pub open spec fn xid_continue_pred() -> spec_fn(char) -> bool {
    |c: char| id_continue(c)
}

/// Scanning an identifier: one XID_Start character, then the longest run of
/// XID_Continue characters. Empty input is fatal, a bad first character
/// recoverable.
pub open spec fn spec_identifier(s: Seq<char>, off: int) -> Outcome<Seq<char>> {
    if s.len() == 0 {
        Outcome::Failed {
            fatal: true,
            span: sp(off, off),
            ty: ErrorTypeView::ExpectedIdentifier { found: "end-of-file"@ },
        }
    } else if !id_start(s[0]) {
        Outcome::Failed {
            fatal: false,
            span: sp(off, off + char_width(s[0])),
            ty: ErrorTypeView::ExpectedIdentifier { found: s.take(1) },
        }
    } else {
        let n = 1 + run(xid_continue_pred(), s.drop_first()) as int;
        Outcome::Done { value: s.take(n), span: sp(off, off + blen(s.take(n))), rest: s.skip(n) }
    }
}

/// Position `k` of `s` holds a `(` or `)` that no backslash escapes.
pub open spec fn delimiter_at(s: Seq<char>, k: int) -> bool {
    (s[k] == '(' || s[k] == ')') && (k == 0 || s[k - 1] != '\\')
}

/// The first position at or after `k` that holds an unescaped delimiter, or
/// the length of `s`.
pub open spec fn text_end(s: Seq<char>, k: int) -> int
    decreases s.len() - k,
{
    if k >= s.len() || k < 0 {
        s.len() as int
    } else if delimiter_at(s, k) {
        k
    } else {
        text_end(s, k + 1)
    }
}

/// Scanning free text up to the first unescaped delimiter. Empty input is
/// fatal; otherwise it succeeds, possibly with no characters.
pub open spec fn spec_text(s: Seq<char>, off: int) -> Outcome<Seq<char>> {
    if s.len() == 0 {
        Outcome::Failed {
            fatal: true,
            span: sp(off, off),
            ty: ErrorTypeView::UnexpectedToken { expected: "TEXT"@, found: "end-of-file"@ },
        }
    } else {
        let n = text_end(s, 0);
        Outcome::Done { value: s.take(n), span: sp(off, off + blen(s.take(n))), rest: s.skip(n) }
    }
}

/// Whitespace as `char::is_ascii_whitespace` has it.
pub open spec fn is_ws(c: char) -> bool {
    c == ' ' || c == '\t' || c == '\n' || c == '\x0C' || c == '\r'
}

/// The whitespace predicate.
pub open spec fn ws_pred() -> spec_fn(char) -> bool {
    |c: char| is_ws(c)
}

/// The predicate of characters other than a newline.
pub open spec fn not_newline_pred() -> spec_fn(char) -> bool {
    |c: char| c != '\n'
}

/// The predicate of characters other than `]`.
pub open spec fn not_rbracket_pred() -> spec_fn(char) -> bool {
    |c: char| c != ']'
}

/// Whitespace test, as `char::is_ascii_whitespace`.
fn whitespace(c: char) -> (r: bool)
    ensures
        r == is_ws(c),
{
    c == ' ' || c == '\t' || c == '\n' || c == '\x0C' || c == '\r'
}

/// Anything but a newline.
fn not_newline(c: char) -> (r: bool)
    ensures
        r == (c != '\n'),
{
    c != '\n'
}

/// Anything but a closing bracket.
pub(crate) fn not_rbracket(c: char) -> (r: bool)
    ensures
        r == (c != ']'),
{
    c != ']'
}


/// The values of a list of results, each with its span.
pub open spec fn views<T: View>(v: Seq<(T, Span)>) -> Seq<(T::V, Span)> {
    v.map_values(|e: (T, Span)| (e.0@, e.1))
}

/// The outcome of a result that carries an optional value.
pub open spec fn outcome_opt<'i, T: View>(r: ParseResult<'i, Option<T>>) -> Outcome<Option<T::V>> {
    match r {
        Ok((rest, (v, span))) => Outcome::Done {
            value: match v {
                Some(x) => Some(x@),
                None => None,
            },
            span,
            rest: rest@,
        },
        Err(e) => err_outcome(e),
    }
}

/// The value of a successful outcome.
pub open spec fn done_value<T>(o: Outcome<T>) -> T {
    match o {
        Outcome::Done { value, .. } => value,
        Outcome::Failed { .. } => arbitrary(),
    }
}

/// The span of an outcome.
pub open spec fn span_of<T>(o: Outcome<T>) -> Span {
    match o {
        Outcome::Done { span, .. } => span,
        Outcome::Failed { span, .. } => span,
    }
}

/// The remaining input of a successful outcome.
pub open spec fn done_rest<T>(o: Outcome<T>) -> Seq<char> {
    match o {
        Outcome::Done { rest, .. } => rest,
        Outcome::Failed { .. } => arbitrary(),
    }
}

/// Applying `p` as long as it succeeds and consumes input, collecting its
/// values with their spans; the span runs from `off` to the end of the last
/// success. Any failure ends the repetition, which itself never fails.
pub open spec fn spec_repeat<V>(
    p: spec_fn(Seq<char>, int) -> Outcome<V>,
    s: Seq<char>,
    off: int,
) -> Outcome<Seq<(V, Span)>>
    decreases s.len(),
{
    match p(s, off) {
        Outcome::Done { value, span, rest } => if rest.len() < s.len() {
            let tail = spec_repeat(p, rest, span.end as int);
            Outcome::Done {
                value: seq![(value, span)] + done_value(tail),
                span: sp(off, span_of(tail).end as int),
                rest: done_rest(tail),
            }
        } else {
            Outcome::Done { value: seq![], span: sp(off, off), rest: s }
        },
        Outcome::Failed { .. } => Outcome::Done { value: seq![], span: sp(off, off), rest: s },
    }
}

/// The number of consecutive successes of `p` that consume input, starting
/// with `s` at `off`.
pub open spec fn successes<V>(p: spec_fn(Seq<char>, int) -> Outcome<V>, s: Seq<char>, off: int) -> nat
    decreases s.len(),
{
    match p(s, off) {
        Outcome::Done { span, rest, .. } => if rest.len() < s.len() {
            1 + successes(p, rest, span.end as int)
        } else {
            0
        },
        Outcome::Failed { .. } => 0,
    }
}

/// Applying `p` once; any failure gives an absent value with an empty span.
pub open spec fn spec_optional<V>(p: spec_fn(Seq<char>, int) -> Outcome<V>, s: Seq<char>, off: int) -> Outcome<Option<V>> {
    match p(s, off) {
        Outcome::Done { value, span, rest } => Outcome::Done { value: Some(value), span, rest },
        Outcome::Failed { .. } => Outcome::Done { value: None, span: sp(off, off), rest: s },
    }
}

/// A comment with its leading whitespace: at least one whitespace character
/// (else a recoverable error), then, if `;;` follows, the rest of the line
/// up to its newline. The value is the text consumed.
pub open spec fn spec_comment(s: Seq<char>, off: int) -> Outcome<Seq<char>> {
    let w = run(ws_pred(), s) as int;
    if w == 0 {
        Outcome::Failed { fatal: false, span: sp(off, off), ty: ErrorTypeView::RawUnexpectedEof }
    } else {
        let s1 = s.skip(w);
        let o1 = off + blen(s.take(w));
        match spec_tag(seq![';', ';'], s1, o1) {
            Outcome::Done { span, rest, .. } => {
                let n = run(not_newline_pred(), rest) as int;
                let r = rest.skip(n);
                Outcome::Done {
                    value: s.take(s.len() - r.len()),
                    span: sp(off, span.end + blen(rest.take(n))),
                    rest: r,
                }
            },
            Outcome::Failed { .. } => Outcome::Done { value: s.take(w), span: sp(off, o1), rest: s1 },
        }
    }
}

/// The comment step as a parser.
pub open spec fn comment_parser() -> spec_fn(Seq<char>, int) -> Outcome<Seq<char>> {
    |s: Seq<char>, off: int| spec_comment(s, off)
}

/// Skipping any whitespace and line comments; never fails.
pub open spec fn spec_ws(s: Seq<char>, off: int) -> Outcome<()> {
    let r = spec_repeat(comment_parser(), s, off);
    Outcome::Done { value: (), span: span_of(r), rest: done_rest(r) }
}

/// Consuming the first `n` characters of `s` from `off`.
pub proof fn lemma_consumed_take(s: Seq<char>, off: int, n: int)
    requires
        0 <= n <= s.len(),
    ensures
        consumed(s, off, s.skip(n), off + blen(s.take(n))),
{
    assert(s.len() - s.skip(n).len() == n);
    assert(s =~= s.take(n) + s.skip(n));
}

/// Consumption composes.
pub proof fn lemma_chain(s: Seq<char>, off: int, s1: Seq<char>, e1: int, s2: Seq<char>, e2: int)
    requires
        consumed(s, off, s1, e1),
        consumed(s1, e1, s2, e2),
    ensures
        consumed(s, off, s2, e2),
        blen(s) == blen(s2) + (e2 - off),
        off <= e2,
{
    lemma_consumed_shrinks(s, off, s1, e1);
    lemma_consumed_shrinks(s1, e1, s2, e2);
    let k1 = s.len() - s1.len();
    let k2 = s1.len() - s2.len();
    assert(s1 =~= s.skip(k1));
    assert(s.take(k1 + k2) =~= s.take(k1) + s1.take(k2));
    lemma_blen_concat(s.take(k1), s1.take(k2));
    assert(s =~= s.take(k1 + k2) + s2);
}

/// Consumed input shrinks in bytes exactly when it shrinks in characters.
pub proof fn lemma_consumed_shrinks(s: Seq<char>, off: int, rest: Seq<char>, end: int)
    requires
        consumed(s, off, rest, end),
    ensures
        blen(s) == blen(rest) + (end - off),
        (rest.len() < s.len()) == (end > off),
{
    let k = s.len() - rest.len();
    lemma_blen_concat(s.take(k), rest);
    lemma_blen_ge_len(s.take(k));
    if k == 0 {
        assert(s.take(k) =~= Seq::<char>::empty());
        assert(encode_utf8(s.take(k)) =~= Seq::<u8>::empty());
    }
}

/// Taking a run never fails and consumes what it returns.
pub proof fn lemma_take_while_advances(p: spec_fn(char) -> bool, s: Seq<char>, off: int)
    requires
        fits(s, off),
    ensures
        advances(spec_take_while(p, s, off), s, off),
        run(p, s) <= s.len(),
        forall|i: int| 0 <= i < run(p, s) ==> p(#[trigger] s[i]),
        run(p, s) < s.len() ==> !p(s[run(p, s) as int]),
    decreases s.len(),
{
    if s.len() > 0 {
        lemma_blen_take_le(s, 1);
        assert(s.skip(1) =~= s.drop_first());
        lemma_take_while_advances(p, s.drop_first(), off);
    }
    lemma_consumed_take(s, off, run(p, s) as int);
    lemma_blen_take_le(s, run(p, s) as int);
    assert forall|i: int| 0 <= i < run(p, s) implies p(#[trigger] s[i]) by {
        if i > 0 {
            assert(s[i] == s.drop_first()[i - 1]);
        }
    }
    if run(p, s) < s.len() && run(p, s) > 0 {
        assert(s[run(p, s) as int] == s.drop_first()[run(p, s) - 1]);
    }
}

/// A matched tag consumes it.
pub proof fn lemma_tag_advances(t: Seq<char>, s: Seq<char>, off: int)
    requires
        fits(s, off),
    ensures
        advances(spec_tag(t, s, off), s, off),
        spec_tag(t, s, off) is Done ==> done_rest(spec_tag(t, s, off)) == s.skip(t.len() as int) && t.len() <= s.len(),
{
    let k = if t.len() <= s.len() { t.len() as int } else { s.len() as int };
    lemma_blen_take_le(s, k);
    if spec_tag(t, s, off) is Done {
        assert(s.take(k).len() == k);
        lemma_consumed_take(s, off, k);
    }
}

/// A comment consumes what it spans, and at least one character.
pub proof fn lemma_comment_advances(s: Seq<char>, off: int)
    requires
        fits(s, off),
    ensures
        advances(spec_comment(s, off), s, off),
        spec_comment(s, off) is Done ==> done_rest(spec_comment(s, off)).len() < s.len(),
{
    lemma_take_while_advances(ws_pred(), s, off);
    let w = run(ws_pred(), s) as int;
    if w > 0 {
        let s1 = s.skip(w);
        let o1 = off + blen(s.take(w));
        lemma_consumed_take(s, off, w);
        lemma_consumed_shrinks(s, off, s1, o1);
        lemma_tag_advances(seq![';', ';'], s1, o1);
        if spec_tag(seq![';', ';'], s1, o1) is Done {
            let t = spec_tag(seq![';', ';'], s1, o1);
            let rest = done_rest(t);
            lemma_consumed_shrinks(s1, o1, rest, span_of(t).end as int);
            lemma_take_while_advances(not_newline_pred(), rest, span_of(t).end as int);
            let n = run(not_newline_pred(), rest) as int;
            lemma_consumed_take(rest, span_of(t).end as int, n);
            lemma_chain(s, off, s1, o1, rest, span_of(t).end as int);
            lemma_chain(s, off, rest, span_of(t).end as int, rest.skip(n), span_of(t).end + blen(rest.take(n)));
        }
    }
}

/// Repetition of any parser `p` never fails, and the list it returns holds
/// exactly the consecutive successes of `p` that consume input.
pub proof fn lemma_repeat_counts<V>(p: spec_fn(Seq<char>, int) -> Outcome<V>, s: Seq<char>, off: int)
    ensures
        spec_repeat(p, s, off) is Done,
        done_value(spec_repeat(p, s, off)).len() == successes(p, s, off),
    decreases s.len(),
{
    let o = p(s, off);
    if o is Done && done_rest(o).len() < s.len() {
        lemma_repeat_counts(p, done_rest(o), span_of(o).end as int);
    }
}

/// Repetition of a parser that consumes what it spans consumes what it
/// spans too, from where it was applied.
pub proof fn lemma_repeat<V>(p: spec_fn(Seq<char>, int) -> Outcome<V>, s: Seq<char>, off: int)
    requires
        forall|s2: Seq<char>, o2: int| fits(s2, o2) ==> advances(#[trigger] p(s2, o2), s2, o2),
        fits(s, off),
    ensures
        spec_repeat(p, s, off) is Done,
        advances(spec_repeat(p, s, off), s, off),
    decreases s.len(),
{
    lemma_repeat_counts(p, s, off);
    let o = p(s, off);
    if o is Done && done_rest(o).len() < s.len() {
        let e = span_of(o).end as int;
        lemma_consumed_shrinks(s, off, done_rest(o), e);
        lemma_repeat(p, done_rest(o), e);
        lemma_chain(s, off, done_rest(o), e, done_rest(spec_repeat(p, done_rest(o), e)), span_of(spec_repeat(p, done_rest(o), e)).end as int);
    } else {
        lemma_consumed_take(s, off, 0);
        assert(s.skip(0) =~= s);
        assert(s.take(0) =~= Seq::<char>::empty());
        assert(encode_utf8(s.take(0)) =~= Seq::<u8>::empty());
    }
}

/// Skipping whitespace and comments never fails and consumes what it spans.
pub proof fn lemma_ws_advances(s: Seq<char>, off: int)
    requires
        fits(s, off),
    ensures
        advances(spec_ws(s, off), s, off),
        fits(done_rest(spec_ws(s, off)), span_of(spec_ws(s, off)).end as int),
{
    assert forall|s2: Seq<char>, o2: int| fits(s2, o2) implies advances(#[trigger] comment_parser()(s2, o2), s2, o2) by {
        lemma_comment_advances(s2, o2);
    }
    lemma_repeat(comment_parser(), s, off);
    let r = spec_repeat(comment_parser(), s, off);
    lemma_consumed_shrinks(s, off, done_rest(r), span_of(r).end as int);
}

/// `e` carries the source context `ctx` and no notes yet.
pub open spec fn fresh(e: ParseError, ctx: SourceContext) -> bool {
    &&& (*e.source).spec_name() == ctx.spec_name()
    &&& (*e.source).text() == ctx.text()
    &&& (*e.source).line_table() == ctx.line_table()
    &&& e.context@.len() == 0
}

/// The notes that `e` holds.
pub open spec fn notes_of(e: ParseError) -> Seq<Seq<char>> {
    e.context@.map_values(|n: String| n@)
}

/// `e` carries the source context `ctx` and exactly the notes `notes`.
pub open spec fn noted(e: ParseError, ctx: SourceContext, notes: Seq<Seq<char>>) -> bool {
    &&& (*e.source).spec_name() == ctx.spec_name()
    &&& (*e.source).text() == ctx.text()
    &&& (*e.source).line_table() == ctx.line_table()
    &&& notes_of(e) == notes
}

/// The error that an error kind holds.
pub open spec fn error_of(k: ErrorKind<ParseError>) -> ParseError {
    match k {
        ErrorKind::Error(e) => e,
        ErrorKind::Failure(e) => e,
    }
}

/// Every error that `r` holds carries the source context `ctx` and the
/// notes `notes`.
pub open spec fn errors_noted<'i, T>(r: ParseResult<'i, T>, ctx: SourceContext, notes: Seq<Seq<char>>) -> bool {
    r matches Err(k) ==> noted(error_of(k), ctx, notes)
}

/// Every error that `r` holds carries the source context `ctx`.
pub open spec fn from_source<'i, T>(r: ParseResult<'i, T>, ctx: SourceContext) -> bool {
    r matches Err(k) ==> match k {
        ErrorKind::Error(e) => fresh(e, ctx),
        ErrorKind::Failure(e) => fresh(e, ctx),
    }
}

/// Wrapper around all the information needed for parsing
pub struct Parser {
    file: SourceContext,
}

impl Parser {
    /// The source context is well formed.
    pub open spec fn wf(&self) -> bool {
        self.context().wf()
    }

    /// The source context of this parser.
    pub closed spec fn context(&self) -> SourceContext {
        self.file
    }

    /// Make a new [`Parser`]
    pub fn new(file: SourceContext) -> (r: Parser)
        requires
            file.wf(),
        ensures
            r.wf(),
            r.context() == file,
    {
        Parser { file }
    }

    /// The source text.
    pub fn source(&self) -> (r: &str)
        requires
            self.wf(),
        ensures
            r@ == self.context().text(),
            fits(r@, 0),
    {
        self.file.source()
    }

    pub(crate) fn make_error(&self, span: Span, ty: ParseErrorType) -> (e: ParseError)
        ensures
            e.span == span,
            e.ty == ty,
            fresh(e, self.context()),
    {
        ParseError::new(self.file.duplicate(), span, ty)
    }

    /// Match an exact tag
    pub fn tag<'i>(&self, tag: &str, input: &'i str, start: usize) -> (r: ParseResult<'i, &'i str>)
        requires
            fits(input@, start as int),
            blen(tag@) < usize::MAX,
        ensures
            outcome(r) == spec_tag(tag@, input@, start as int),
            from_source(r, self.context()),
    {
        proof {
            lemma_blen_ge_len(input@);
        }
        let tag_len = tag.len();
        let input_len = input.len();
        if tag_len > input_len {
            let e = self.make_error(
                Span::new(start, start + input_len),
                ParseErrorType::UnexpectedEof { expected: tag.to_owned() },
            );
            return Err(ErrorKind::Failure(e));
        }
        let mut t = tag;
        let mut i = input;
        let mut k: usize = 0;
        let mut nbytes: usize = 0;
        let mut same = true;
        proof {
            assert(input@.take(0) =~= tag@.take(0));
            assert(input@.skip(0) =~= input@);
            assert(tag@.skip(0) =~= tag@);
        }
        while !t.is_empty() && !i.is_empty()
            invariant
                fits(input@, start as int),
                input@.len() < usize::MAX,
                0 <= k <= tag@.len(),
                k <= input@.len(),
                t@ == tag@.skip(k as int),
                i@ == input@.skip(k as int),
                nbytes == blen(input@.take(k as int)),
                same == (input@.take(k as int) == tag@.take(k as int)),
            decreases i@.len(),
        {
            let (a, t2) = split_first(t);
            let (b, i2) = split_first(i);
            proof {
                lemma_blen_take_succ(input@, k as int);
                lemma_blen_take_le(input@, k as int + 1);
                assert(input@.take(k + 1) =~= input@.take(k as int).push(b));
                assert(tag@.take(k + 1) =~= tag@.take(k as int).push(a));
                if same && a == b {
                    assert(input@.take(k + 1) == tag@.take(k + 1));
                }
                if input@.take(k + 1) == tag@.take(k + 1) {
                    assert(input@.take(k + 1)[k as int] == tag@.take(k + 1)[k as int]);
                    assert(input@.take(k as int) =~= input@.take(k + 1).take(k as int));
                    assert(tag@.take(k as int) =~= tag@.take(k + 1).take(k as int));
                }
                assert(t2@ =~= tag@.skip(k + 1));
                assert(i2@ =~= input@.skip(k + 1));
            }
            same = same && a == b;
            nbytes = nbytes + char_len(b);
            k = k + 1;
            t = t2;
            i = i2;
        }
        proof {
            assert(k == tag@.len() || k == input@.len());
            if k == input@.len() && k < tag@.len() {
                assert(input@.take(k as int) =~= input@);
            }
        }
        let (taken, rest) = split_chars(input, nbytes, Ghost(k as int));
        proof {
            lemma_blen_take_le(input@, k as int);
        }
        if same && t.is_empty() {
            proof {
                assert(tag@.take(k as int) =~= tag@);
                assert(k == tag@.len());
            }
            let r: ParseResult<'i, &'i str> = Ok((rest, (taken, Span::new(start, start + nbytes))));
            assert(outcome(r) == spec_tag(tag@, input@, start as int));
            r
        } else {
            proof {
                lemma_blen_take_le(input@, k as int);
                if input@.take(k as int) == tag@ {
                    assert(tag@.take(k as int) =~= tag@);
                }
            }
            let e = self.make_error(
                Span::new(start, start + nbytes),
                ParseErrorType::UnexpectedToken {
                    expected: tag.to_owned(),
                    found: taken.to_owned(),
                },
            );
            Err(ErrorKind::Error(e))
        }
    }
    /// Returns the longest input slice whose characters satisfy `pred`
    /// (which computes `p`); never fails.
    pub fn take_while<'i, F: Fn(char) -> bool>(
        &self,
        pred: F,
        p: Ghost<spec_fn(char) -> bool>,
        input: &'i str,
        start: usize,
    ) -> (r: ParseResult<'i, &'i str>)
        requires
            fits(input@, start as int),
            forall|c: char| pred.requires((c,)),
            forall|c: char, b: bool| pred.ensures((c,), b) ==> b == p@(c),
        ensures
            outcome(r) == spec_take_while(p@, input@, start as int),
            r is Ok,
    {
        proof {
            lemma_blen_ge_len(input@);
        }
        let mut i = input;
        let mut k: usize = 0;
        let mut nbytes: usize = 0;
        let mut stop = false;
        while !stop && !i.is_empty()
            invariant
                fits(input@, start as int),
                input@.len() < usize::MAX,
                forall|c: char| pred.requires((c,)),
                forall|c: char, b: bool| pred.ensures((c,), b) ==> b == p@(c),
                0 <= k <= input@.len(),
                i@ == input@.skip(k as int),
                nbytes == blen(input@.take(k as int)),
                run(p@, input@) == k + run(p@, i@),
                stop ==> run(p@, i@) == 0,
            decreases i@.len() + (if stop { 0int } else { 1int }),
        {
            let (c, i2) = split_first(i);
            if pred(c) {
                proof {
                    lemma_blen_take_succ(input@, k as int);
                    lemma_blen_take_le(input@, k + 1);
                    assert(i2@ =~= input@.skip(k + 1));
                }
                nbytes = nbytes + char_len(c);
                k = k + 1;
                i = i2;
            } else {
                stop = true;
            }
        }
        let (taken, rest) = split_chars(input, nbytes, Ghost(k as int));
        proof {
            lemma_blen_take_le(input@, k as int);
        }
        Ok((rest, (taken, Span::new(start, start + nbytes))))
    }

    /// Returns the longest input slice that matches the requirements for an
    /// identifier
    pub fn take_identifier<'i>(&self, input: &'i str, start: usize) -> (r: ParseResult<'i, &'i str>)
        requires
            fits(input@, start as int),
        ensures
            outcome(r) == spec_identifier(input@, start as int),
            from_source(r, self.context()),
            input@.len() == 0 ==> (r matches Err(e) && e is Failure),
    {
        if input.is_empty() {
            let e = self.make_error(
                Span::new(start, start),
                ParseErrorType::ExpectedIdentifier { found: String::from_str("end-of-file") },
            );
            return Err(ErrorKind::Failure(e));
        }
        let (c, rest) = split_first(input);
        let w = char_len(c);
        proof {
            assert(input@.take(1) =~= seq![c]);
            assert(input@.take(0) =~= Seq::<char>::empty());
            lemma_blen_take_succ(input@, 0);
            lemma_blen_take_le(input@, 1);
            assert(encode_utf8(input@.take(0)) =~= Seq::<u8>::empty());
        }
        if !is_xid_start(c) {
            let (first, _) = split_chars(input, w, Ghost(1));
            let e = self.make_error(
                Span::new(start, start + w),
                ParseErrorType::ExpectedIdentifier { found: first.to_owned() },
            );
            return Err(ErrorKind::Error(e));
        }
        let r2 = self.take_while(is_xid_continue, Ghost(xid_continue_pred()), rest, start + w);
        proof {
            lemma_take_while_advances(xid_continue_pred(), rest@, start + w);
        }
        match r2 {
            Ok((rest2, (_, s2))) => {
                let ghost n = 1 + run(xid_continue_pred(), rest@) as int;
                proof {
                    assert(input@.take(n) =~= seq![c] + rest@.take(n - 1));
                    lemma_blen_concat(seq![c], rest@.take(n - 1));
                    assert(rest2@ =~= input@.skip(n));
                }
                let (taken, _) = split_chars(input, s2.end - start, Ghost(n));
                Ok((rest2, (taken, Span::new(start, s2.end))))
            },
            Err(e) => Err(e),
        }
    }

    /// Keep taking text until the first unescaped '(' or ')'
    pub fn take_text<'i>(&self, input: &'i str, start: usize) -> (r: ParseResult<'i, &'i str>)
        requires
            fits(input@, start as int),
        ensures
            outcome(r) == spec_text(input@, start as int),
            from_source(r, self.context()),
            r is Ok <==> input@.len() > 0,
            r matches Err(e) ==> e is Failure,
    {
        if input.is_empty() {
            let e = self.make_error(
                Span::new(start, start),
                ParseErrorType::UnexpectedToken {
                    expected: String::from_str("TEXT"),
                    found: String::from_str("end-of-file"),
                },
            );
            return Err(ErrorKind::Failure(e));
        }
        proof {
            lemma_blen_ge_len(input@);
        }
        let mut i = input;
        let mut k: usize = 0;
        let mut nbytes: usize = 0;
        let mut prev: char = ' ';
        let mut stop = false;
        while !stop && !i.is_empty()
            invariant
                fits(input@, start as int),
                input@.len() < usize::MAX,
                0 <= k <= input@.len(),
                i@ == input@.skip(k as int),
                nbytes == blen(input@.take(k as int)),
                k > 0 ==> prev == input@[k - 1],
                !stop ==> text_end(input@, 0) == text_end(input@, k as int),
                stop ==> text_end(input@, 0) == k,
            decreases i@.len() + (if stop { 0int } else { 1int }),
        {
            let (c, i2) = split_first(i);
            if (c == '(' || c == ')') && (k == 0 || prev != '\\') {
                stop = true;
            } else {
                proof {
                    lemma_blen_take_succ(input@, k as int);
                    lemma_blen_take_le(input@, k + 1);
                    assert(i2@ =~= input@.skip(k + 1));
                }
                prev = c;
                nbytes = nbytes + char_len(c);
                k = k + 1;
                i = i2;
            }
        }
        let (text, rest) = split_chars(input, nbytes, Ghost(k as int));
        proof {
            lemma_blen_take_le(input@, k as int);
        }
        Ok((rest, (text, Span::new(start, start + nbytes))))
    }

    /// Take a comment along with its leading whitespace
    pub fn take_comment<'i>(&self, input: &'i str, start: usize) -> (r: ParseResult<'i, &'i str>)
        requires
            fits(input@, start as int),
        ensures
            outcome(r) == spec_comment(input@, start as int),
            from_source(r, self.context()),
    {
        proof {
            lemma_comment_advances(input@, start as int);
            lemma_take_while_advances(ws_pred(), input@, start as int);
        }
        let r1 = self.take_while(whitespace, Ghost(ws_pred()), input, start);
        let (rest1, (_, s1)) = match r1 {
            Ok(v) => v,
            Err(e) => return Err(e),
        };
        if s1.end - s1.start < 1 {
            proof {
                let w = run(ws_pred(), input@) as int;
                if w > 0 {
                    lemma_consumed_take(input@, start as int, w);
                    lemma_consumed_shrinks(input@, start as int, input@.skip(w), start + blen(input@.take(w)));
                }
            }
            let e = self.make_error(s1, ParseErrorType::RawUnexpectedEof);
            return Err(ErrorKind::Error(e));
        }
        let ghost w = run(ws_pred(), input@) as int;
        proof {
            lemma_consumed_shrinks(input@, start as int, rest1@, s1.end as int);
            reveal_strlit(";;");
            assert(";;"@ =~= seq![';', ';']);
            lemma_blen_ascii(";;"@);
        }
        let r2 = self.tag(";;", rest1, s1.end);
        match r2 {
            Ok((rest2, (_, s2))) => {
                proof {
                    lemma_tag_advances(seq![';', ';'], rest1@, s1.end as int);
                    lemma_consumed_shrinks(rest1@, s1.end as int, rest2@, s2.end as int);
                    lemma_chain(input@, start as int, rest1@, s1.end as int, rest2@, s2.end as int);
                }
                let r3 = self.take_while(not_newline, Ghost(not_newline_pred()), rest2, s2.end);
                let (rest3, (_, s3)) = match r3 {
                    Ok(v) => v,
                    Err(e) => return Err(e),
                };
                proof {
                    lemma_take_while_advances(not_newline_pred(), rest2@, s2.end as int);
                    lemma_chain(input@, start as int, rest2@, s2.end as int, rest3@, s3.end as int);
                }
                let (taken, _) = split_chars(input, s3.end - start, Ghost(input@.len() - rest3@.len()));
                Ok((rest3, (taken, Span::new(start, s3.end))))
            },
            Err(_) => {
                let (taken, _) = split_chars(input, s1.end - start, Ghost(w));
                Ok((rest1, (taken, Span::new(start, s1.end))))
            },
        }
    }

    /// Keep applying a parser as long as it succeeds and consumes input;
    /// never fails.
    pub fn repeat<'i, O: View, F: Fn(&'i str, usize) -> ParseResult<'i, O>>(
        &self,
        p: F,
        sp_fn: Ghost<spec_fn(Seq<char>, int) -> Outcome<O::V>>,
        input: &'i str,
        start: usize,
    ) -> (r: ParseResult<'i, Vec<(O, Span)>>)
        requires
            fits(input@, start as int),
            forall|i: &'i str, s: usize| fits(i@, s as int) ==> p.requires((i, s)),
            forall|i: &'i str, s: usize, res: ParseResult<'i, O>|
                p.ensures((i, s), res) ==> outcome(res) == sp_fn@(i@, s as int),
            forall|s: Seq<char>, off: int|
                fits(s, off) ==> advances(#[trigger] sp_fn@(s, off), s, off),
        ensures
            outcome_many(r) == spec_repeat(sp_fn@, input@, start as int),
            r is Ok,
            r matches Ok((_, (v, _))) ==> v@.len() == successes(sp_fn@, input@, start as int),
    {
        let mut values: Vec<(O, Span)> = Vec::new();
        let mut i = input;
        let mut end = start;
        proof {
            lemma_repeat(sp_fn@, input@, start as int);
            lemma_repeat_counts(sp_fn@, input@, start as int);
        }
        loop
            invariant
                fits(i@, end as int),
                start <= end,
                forall|i: &'i str, s: usize| fits(i@, s as int) ==> p.requires((i, s)),
                forall|i: &'i str, s: usize, res: ParseResult<'i, O>|
                    p.ensures((i, s), res) ==> outcome(res) == sp_fn@(i@, s as int),
                forall|s: Seq<char>, off: int|
                    fits(s, off) ==> advances(#[trigger] sp_fn@(s, off), s, off),
                spec_repeat(sp_fn@, i@, end as int) is Done,
                done_value(spec_repeat(sp_fn@, input@, start as int)).len() == successes(
                    sp_fn@,
                    input@,
                    start as int,
                ),
                spec_repeat(sp_fn@, input@, start as int) == (Outcome::Done {
                    value: views(values@) + done_value(spec_repeat(sp_fn@, i@, end as int)),
                    span: sp(start as int, span_of(spec_repeat(sp_fn@, i@, end as int)).end as int),
                    rest: done_rest(spec_repeat(sp_fn@, i@, end as int)),
                }),
            decreases i@.len(),
        {
            proof {
                lemma_repeat(sp_fn@, i@, end as int);
            }
            let res = p(i, end);
            match res {
                Ok((rest, (o, o_span))) => {
                    proof {
                        lemma_consumed_shrinks(i@, end as int, rest@, o_span.end as int);
                    }
                    if rest.len() < i.len() {
                        proof {
                            lemma_repeat(sp_fn@, rest@, o_span.end as int);
                            let ghost old_values = views(values@);
                            let ghost tail = spec_repeat(sp_fn@, rest@, o_span.end as int);
                            assert(views(values@.push((o, o_span))) =~= old_values + seq![(o@, o_span)]);
                            assert(old_values + (seq![(o@, o_span)] + done_value(tail)) =~= (old_values + seq![(o@, o_span)]) + done_value(tail));
                        }
                        values.push((o, o_span));
                        i = rest;
                        end = o_span.end;
                    } else {
                        proof {
                            assert(views(values@) + Seq::<(O::V, Span)>::empty() =~= views(values@));
                            assert(views(values@).len() == values@.len());
                        }
                        return Ok((i, (values, Span::new(start, end))));
                    }
                },
                Err(_) => {
                    proof {
                        assert(views(values@) + Seq::<(O::V, Span)>::empty() =~= views(values@));
                        assert(views(values@).len() == values@.len());
                    }
                    return Ok((i, (values, Span::new(start, end))));
                },
            }
        }
    }

    /// Attempts to apply a parser, giving [`None`] on failure
    pub fn optional<'i, O: View, F: Fn(&'i str, usize) -> ParseResult<'i, O>>(
        &self,
        p: F,
        sp_fn: Ghost<spec_fn(Seq<char>, int) -> Outcome<O::V>>,
        input: &'i str,
        start: usize,
    ) -> (r: ParseResult<'i, Option<O>>)
        requires
            p.requires((input, start)),
            forall|res: ParseResult<'i, O>|
                p.ensures((input, start), res) ==> outcome(res) == sp_fn@(input@, start as int),
        ensures
            outcome_opt(r) == spec_optional(sp_fn@, input@, start as int),
            r is Ok,
    {
        let res = p(input, start);
        match res {
            Ok((rest, (o, span))) => {
                assert(sp_fn@(input@, start as int) == outcome(res));
                Ok((rest, (Some(o), span)))
            },
            Err(_) => {
                assert(sp_fn@(input@, start as int) is Failed);
                Ok((input, (None, Span::new(start, start))))
            },
        }
    }

    /// Helper function that consumes all leading whitespace and/or comments
    pub fn take_non_parseable<'i>(&self, input: &'i str, start: usize) -> (r: ParseResult<'i, ()>)
        requires
            fits(input@, start as int),
        ensures
            outcome_unit(r) == spec_ws(input@, start as int),
            r is Ok,
    {
        let comment = |i: &'i str, s: usize| -> (r: ParseResult<'i, &'i str>)
            requires
                fits(i@, s as int),
            ensures
                outcome(r) == spec_comment(i@, s as int),
            { self.take_comment(i, s) };
        proof {
            assert forall|s2: Seq<char>, o2: int| fits(s2, o2) implies advances(
                #[trigger] comment_parser()(s2, o2),
                s2,
                o2,
            ) by {
                lemma_comment_advances(s2, o2);
            }
        }
        let r = self.repeat(comment, Ghost(comment_parser()), input, start);
        match r {
            Ok((rest, (_, span))) => Ok((rest, ((), span))),
            Err(e) => Err(e),
        }
    }
}

impl Parser {
    /// Adds `note` to the error of `r`, naming the production that failed.
    pub(crate) fn with_note<'i, T: View>(&self, r: ParseResult<'i, T>, note: &str) -> (o: ParseResult<'i, T>)
        ensures
            outcome(o) == outcome(r),
            from_source(r, self.context()) ==> errors_noted(o, self.context(), seq![note@]),
    {
        match r {
            Ok(v) => Ok(v),
            Err(ErrorKind::Error(e)) => {
                let f = e.add_context(note.to_owned());
                proof {
                    if from_source(r, self.context()) {
                        assert(notes_of(f) =~= seq![note@]);
                    }
                }
                Err(ErrorKind::Error(f))
            },
            Err(ErrorKind::Failure(e)) => {
                let f = e.add_context(note.to_owned());
                proof {
                    if from_source(r, self.context()) {
                        assert(notes_of(f) =~= seq![note@]);
                    }
                }
                Err(ErrorKind::Failure(f))
            },
        }
    }
}

/// Once a production is committed to, a recoverable error becomes fatal.
pub fn commit<'i, T>(r: ParseResult<'i, T>) -> (o: ParseResult<'i, T>)
    ensures
        o == (match r {
            Err(ErrorKind::Error(e)) => Err(ErrorKind::Failure(e)),
            _ => r,
        }),
{
    match r {
        Err(ErrorKind::Error(e)) => Err(ErrorKind::Failure(e)),
        _ => r,
    }
}

} // verus!
