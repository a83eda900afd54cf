//! The grammar: page, attribute, document node and nestable node, as
//! mathematical parsers on characters and as the executable parsers that
//! compute them.
//!
//! ```text
//! page          = ws attribute* ws doc_node
//! attribute     = ws "[" ws identifier ws text_until("]") ws "]"
//! doc_node      = ws "(" ws "doc" ws attribute* ws node* ws ")"
//! node          = ws (regular_node | text_run)
//! regular_node  = "(" ws identifier ws attribute* ws node* ws ")"
//! ```
//!
//! Once an opening delimiter is consumed, every failure is fatal.

use vstd::prelude::*;
use vstd::string::*;
use vstd::utf8::*;

use crate::ast::{
    attributes_view, node_view, nodes_view, Attribute, AttributeView, Doc, DocNode, DocView,
    Identifier, LBracket, LParen, Node, NodeKind, NodeView, Page, PageView, RBracket, RParen,
    Sec, Text, TextView, Title, P, lemma_nodes_view_push,
};
use crate::error::{ErrorTypeView, ParseError, ParseErrorType};
use crate::location::Span;
use crate::parser::{
    advances, commit, committed, not_rbracket, fresh, from_source, errors_noted, noted, consumed, delimiter_at, text_end, done_rest, done_value, fail_as, fits, lemma_chain,
    lemma_consumed_shrinks, lemma_consumed_take, lemma_repeat, lemma_tag_advances,
    lemma_take_while_advances, lemma_ws_advances, not_rbracket_pred, outcome,
    run, sp, span_of, spec_identifier, spec_repeat, spec_tag, spec_take_while, spec_text, spec_ws,
    views, xid_continue_pred, ErrorKind, Outcome, ParseResult, Parser,
};
use crate::text::{
    blen, char_len, lemma_blen_ascii, lemma_blen_take_le, lemma_blen_take_succ, split_chars,
    split_first,
};

verus! {

broadcast use vstd::seq::group_seq_axioms;

/// The first components of a list of pairs.
pub open spec fn firsts<V>(v: Seq<(V, Span)>) -> Seq<V> {
    v.map_values(|e: (V, Span)| e.0)
}

/// An attribute after its `[`: the name, the value up to `]`, and the `]`.
pub open spec fn spec_attribute_body(s: Seq<char>, off: int, start: int, lb: Span) -> Outcome<
    AttributeView,
> {
    let w1 = spec_ws(s, off);
    let s1 = done_rest(w1);
    let o1 = span_of(w1).end as int;
    let id = spec_identifier(s1, o1);
    match id {
        Outcome::Failed { .. } => fail_as(id),
        Outcome::Done { value: name, span: ns, rest: s2 } => {
            let w2 = spec_ws(s2, ns.end as int);
            let v = spec_take_while(not_rbracket_pred(), done_rest(w2), span_of(w2).end as int);
            let vs = span_of(v);
            let w3 = spec_ws(done_rest(v), vs.end as int);
            let rb = spec_tag(seq![']'], done_rest(w3), span_of(w3).end as int);
            match rb {
                Outcome::Failed { .. } => fail_as(rb),
                Outcome::Done { span: rbs, rest, .. } => Outcome::Done {
                    value: AttributeView {
                        lbracket: lb,
                        name: TextView { text: name, span: ns },
                        value: TextView { text: done_value(v), span: vs },
                        rbracket: rbs,
                        span: sp(start, rbs.end as int),
                    },
                    span: sp(start, rbs.end as int),
                    rest,
                },
            }
        },
    }
}

/// An attribute `[name value]`, after any whitespace and comments.
pub open spec fn spec_attribute(s: Seq<char>, off: int) -> Outcome<AttributeView> {
    let w = spec_ws(s, off);
    let lb = spec_tag(seq!['['], done_rest(w), span_of(w).end as int);
    match lb {
        Outcome::Failed { .. } => fail_as(lb),
        Outcome::Done { span, rest, .. } => committed(
            spec_attribute_body(rest, span.end as int, off, span),
        ),
    }
}

/// The attribute step as a parser.
pub open spec fn attribute_parser() -> spec_fn(Seq<char>, int) -> Outcome<AttributeView> {
    |s: Seq<char>, off: int| spec_attribute(s, off)
}

/// The attributes that start `s` at `off`.
pub open spec fn spec_attributes(s: Seq<char>, off: int) -> Outcome<Seq<(AttributeView, Span)>> {
    spec_repeat(attribute_parser(), s, off)
}

/// The kind of regular node that a keyword names.
pub open spec fn kind_of(name: Seq<char>) -> Option<NodeKind> {
    if name == seq!['s', 'e', 'c'] {
        Some(NodeKind::Sec)
    } else if name == seq!['t', 'i', 't', 'l', 'e'] {
        Some(NodeKind::Title)
    } else if name == seq!['p'] {
        Some(NodeKind::P)
    } else {
        None
    }
}

/// A text run: at least one character up to the first unescaped delimiter.
pub open spec fn spec_text_node(s: Seq<char>, off: int, start: int) -> Outcome<NodeView> {
    let t = spec_text(s, off);
    match t {
        Outcome::Failed { .. } => fail_as(t),
        Outcome::Done { value, span, rest } => if value.len() == 0 {
            Outcome::Failed {
                fatal: false,
                span: sp(off, off + blen(s.take(1))),
                ty: ErrorTypeView::UnexpectedToken { expected: "TEXT"@, found: s.take(1) },
            }
        } else {
            Outcome::Done {
                value: NodeView::Text(TextView { text: value, span }),
                span: sp(start, span.end as int),
                rest,
            }
        },
    }
}

/// A nestable node, after any whitespace and comments.
pub open spec fn spec_node(s: Seq<char>, off: int) -> Outcome<NodeView>
    decreases s.len(), 0nat,
{
    let w = spec_ws(s, off);
    let s1 = done_rest(w);
    let o1 = span_of(w).end as int;
    let lp = spec_tag(seq!['('], s1, o1);
    match lp {
        Outcome::Done { span, rest, .. } => if rest.len() < s.len() {
            spec_regular(rest, span.end as int, off, span)
        } else {
            Outcome::Failed { fatal: true, span: sp(off, off), ty: ErrorTypeView::RawUnexpectedEof }
        },
        Outcome::Failed { .. } => spec_text_node(s1, o1, off),
    }
}

/// The nodes that start `s` at `off`: as many as parse and consume input.
pub open spec fn spec_nodes(s: Seq<char>, off: int) -> Outcome<Seq<NodeView>>
    decreases s.len(), 1nat,
{
    match spec_node(s, off) {
        Outcome::Done { value, span, rest } => if rest.len() < s.len() {
            let tail = spec_nodes(rest, span.end as int);
            Outcome::Done {
                value: seq![value] + done_value(tail),
                span: sp(off, span_of(tail).end as int),
                rest: done_rest(tail),
            }
        } else {
            Outcome::Done { value: seq![], span: sp(off, off), rest: s }
        },
        Outcome::Failed { .. } => Outcome::Done { value: seq![], span: sp(off, off), rest: s },
    }
}

/// A regular node after its `(`: keyword, attributes, nodes and `)`. The
/// `(` commits to the production: every failure is fatal, a keyword that
/// names no node kind among them.
pub open spec fn spec_regular(s: Seq<char>, off: int, start: int, lp: Span) -> Outcome<NodeView>
    decreases s.len(), 2nat,
{
    let w1 = spec_ws(s, off);
    let id = spec_identifier(done_rest(w1), span_of(w1).end as int);
    match id {
        Outcome::Failed { .. } => committed(fail_as(id)),
        Outcome::Done { value: name, span: ns, rest: s2 } => match kind_of(name) {
            None => Outcome::Failed {
                fatal: true,
                span: ns,
                ty: ErrorTypeView::UnknownNodeKind { found: name },
            },
            Some(kind) => {
                let w2 = spec_ws(s2, ns.end as int);
                let at = spec_attributes(done_rest(w2), span_of(w2).end as int);
                let w3 = spec_ws(done_rest(at), span_of(at).end as int);
                let s5 = done_rest(w3);
                if s5.len() <= s.len() {
                    let ns2 = spec_nodes(s5, span_of(w3).end as int);
                    let w4 = spec_ws(done_rest(ns2), span_of(ns2).end as int);
                    let rp = spec_tag(seq![')'], done_rest(w4), span_of(w4).end as int);
                    match rp {
                        Outcome::Failed { .. } => committed(fail_as(rp)),
                        Outcome::Done { span: rps, rest, .. } => Outcome::Done {
                            value: NodeView::Regular {
                                kind,
                                lparen: lp,
                                keyword: ns,
                                attributes: firsts(done_value(at)),
                                inner: done_value(ns2),
                                rparen: rps,
                                span: sp(start, rps.end as int),
                            },
                            span: sp(start, rps.end as int),
                            rest,
                        },
                    }
                } else {
                    Outcome::Failed { fatal: true, span: sp(off, off), ty: ErrorTypeView::RawUnexpectedEof }
                }
            },
        },
    }
}

/// A document node after its `(`: the `doc` keyword, attributes, nodes and
/// `)`.
pub open spec fn spec_doc_body(s: Seq<char>, off: int, start: int, lp: Span) -> Outcome<DocView> {
    let w1 = spec_ws(s, off);
    let kw = spec_tag(seq!['d', 'o', 'c'], done_rest(w1), span_of(w1).end as int);
    match kw {
        Outcome::Failed { .. } => fail_as(kw),
        Outcome::Done { span: ks, rest: s2, .. } => {
            let w2 = spec_ws(s2, ks.end as int);
            let at = spec_attributes(done_rest(w2), span_of(w2).end as int);
            let w3 = spec_ws(done_rest(at), span_of(at).end as int);
            let ns = spec_nodes(done_rest(w3), span_of(w3).end as int);
            let w4 = spec_ws(done_rest(ns), span_of(ns).end as int);
            let rp = spec_tag(seq![')'], done_rest(w4), span_of(w4).end as int);
            match rp {
                Outcome::Failed { .. } => fail_as(rp),
                Outcome::Done { span: rps, rest, .. } => Outcome::Done {
                    value: DocView {
                        lparen: lp,
                        keyword: ks,
                        attributes: firsts(done_value(at)),
                        nodes: done_value(ns),
                        rparen: rps,
                        span: sp(start, rps.end as int),
                    },
                    span: sp(start, rps.end as int),
                    rest,
                },
            }
        },
    }
}

/// A document node `(doc ...)`, after any whitespace and comments.
pub open spec fn spec_doc(s: Seq<char>, off: int) -> Outcome<DocView> {
    let w = spec_ws(s, off);
    let lp = spec_tag(seq!['('], done_rest(w), span_of(w).end as int);
    match lp {
        Outcome::Failed { .. } => fail_as(lp),
        Outcome::Done { span, rest, .. } => committed(spec_doc_body(rest, span.end as int, off, span)),
    }
}

/// The note on an error inside an attribute.
pub open spec fn attribute_note() -> Seq<char> {
    "while parsing an attribute"@
}

/// The note on an error inside a regular node.
pub open spec fn node_note() -> Seq<char> {
    "while parsing a node"@
}

/// The note on an error inside the document node.
pub open spec fn doc_note() -> Seq<char> {
    "while parsing the document node"@
}

/// After whitespace, `s` at `off` opens with `c`.
pub open spec fn opens_with(c: char, s: Seq<char>, off: int) -> bool {
    let w = spec_ws(s, off);
    spec_tag(seq![c], done_rest(w), span_of(w).end as int) is Done
}

/// After its attributes, the page opens its document node.
pub open spec fn page_opens_doc(s: Seq<char>) -> bool {
    let w = spec_ws(s, 0);
    let at = spec_attributes(done_rest(w), span_of(w).end as int);
    opens_with('(', done_rest(at), span_of(at).end as int)
}

/// A page: its attributes, then its one document node. What follows the
/// document node is left as remaining input.
#[verifier::opaque]
pub open spec fn spec_page(s: Seq<char>) -> Outcome<PageView> {
    let w = spec_ws(s, 0);
    let at = spec_attributes(done_rest(w), span_of(w).end as int);
    let d = spec_doc(done_rest(at), span_of(at).end as int);
    match d {
        Outcome::Failed { .. } => fail_as(d),
        Outcome::Done { value, span, rest } => Outcome::Done {
            value: PageView {
                attributes: firsts(done_value(at)),
                doc: value,
                span: sp(span_of(w).start as int, span.end as int),
            },
            span: sp(span_of(w).start as int, span.end as int),
            rest,
        },
    }
}


/// One successful step keeps offsets in range and consumes what it spans.
pub proof fn lemma_step<A>(o: Outcome<A>, s: Seq<char>, off: int)
    requires
        fits(s, off),
        advances(o, s, off),
        o is Done,
    ensures
        fits(done_rest(o), span_of(o).end as int),
        consumed(s, off, done_rest(o), span_of(o).end as int),
        span_of(o).end >= off,
        done_rest(o).len() <= s.len(),
        blen(s) == blen(done_rest(o)) + (span_of(o).end - off),
{
    lemma_consumed_shrinks(s, off, done_rest(o), span_of(o).end as int);
}

/// An identifier consumes what it spans.
pub proof fn lemma_identifier_advances(s: Seq<char>, off: int)
    requires
        fits(s, off),
    ensures
        advances(spec_identifier(s, off), s, off),
{
    if s.len() > 0 && spec_identifier(s, off) is Done {
        lemma_blen_take_le(s, 1);
        assert(s.skip(1) =~= s.drop_first());
        lemma_take_while_advances(xid_continue_pred(), s.drop_first(), off);
        let n = 1 + run(xid_continue_pred(), s.drop_first()) as int;
        lemma_consumed_take(s, off, n);
        lemma_blen_take_le(s, n);
    }
}

/// Free text ends within the input.
proof fn lemma_text_end(s: Seq<char>, k: int)
    requires
        0 <= k <= s.len(),
    ensures
        k <= text_end(s, k) <= s.len(),
    decreases s.len() - k,
{
    if k < s.len() && !delimiter_at(s, k) {
        lemma_text_end(s, k + 1);
    }
}

/// Free text consumes what it spans.
pub proof fn lemma_text_advances(s: Seq<char>, off: int)
    requires
        fits(s, off),
    ensures
        advances(spec_text(s, off), s, off),
{
    if s.len() > 0 {
        lemma_text_end(s, 0);
        let n = text_end(s, 0);
        lemma_consumed_take(s, off, n);
        lemma_blen_take_le(s, n);
    }
}

/// An attribute consumes what it spans, and at least its brackets.
pub proof fn lemma_attribute_advances(s: Seq<char>, off: int)
    requires
        fits(s, off),
    ensures
        advances(spec_attribute(s, off), s, off),
        spec_attribute(s, off) is Done ==> done_rest(spec_attribute(s, off)).len() < s.len(),
{
    let w = spec_ws(s, off);
    lemma_ws_advances(s, off);
    lemma_step(w, s, off);
    let s1 = done_rest(w);
    let o1 = span_of(w).end as int;
    let lb = spec_tag(seq!['['], s1, o1);
    lemma_tag_advances(seq!['['], s1, o1);
    if lb is Done {
        lemma_step(lb, s1, o1);
        lemma_chain(s, off, s1, o1, done_rest(lb), span_of(lb).end as int);
        let s2 = done_rest(lb);
        let o2 = span_of(lb).end as int;
        let w1 = spec_ws(s2, o2);
        lemma_ws_advances(s2, o2);
        lemma_step(w1, s2, o2);
        lemma_chain(s, off, s2, o2, done_rest(w1), span_of(w1).end as int);
        let s3 = done_rest(w1);
        let o3 = span_of(w1).end as int;
        let id = spec_identifier(s3, o3);
        lemma_identifier_advances(s3, o3);
        if id is Done {
            lemma_step(id, s3, o3);
            lemma_chain(s, off, s3, o3, done_rest(id), span_of(id).end as int);
            let s4 = done_rest(id);
            let o4 = span_of(id).end as int;
            let w2 = spec_ws(s4, o4);
            lemma_ws_advances(s4, o4);
            lemma_step(w2, s4, o4);
            lemma_chain(s, off, s4, o4, done_rest(w2), span_of(w2).end as int);
            let s5 = done_rest(w2);
            let o5 = span_of(w2).end as int;
            let v = spec_take_while(not_rbracket_pred(), s5, o5);
            lemma_take_while_advances(not_rbracket_pred(), s5, o5);
            lemma_step(v, s5, o5);
            lemma_chain(s, off, s5, o5, done_rest(v), span_of(v).end as int);
            let s6 = done_rest(v);
            let o6 = span_of(v).end as int;
            let w3 = spec_ws(s6, o6);
            lemma_ws_advances(s6, o6);
            lemma_step(w3, s6, o6);
            lemma_chain(s, off, s6, o6, done_rest(w3), span_of(w3).end as int);
            let s7 = done_rest(w3);
            let o7 = span_of(w3).end as int;
            let rb = spec_tag(seq![']'], s7, o7);
            lemma_tag_advances(seq![']'], s7, o7);
            if rb is Done {
                lemma_step(rb, s7, o7);
                lemma_chain(s, off, s7, o7, done_rest(rb), span_of(rb).end as int);
            }
        }
    }
}

/// Every attribute step consumes what it spans.
pub proof fn lemma_attribute_parser()
    ensures
        forall|s: Seq<char>, off: int|
            fits(s, off) ==> advances(#[trigger] attribute_parser()(s, off), s, off),
{
    assert forall|s: Seq<char>, off: int| fits(s, off) implies advances(
        #[trigger] attribute_parser()(s, off),
        s,
        off,
    ) by {
        lemma_attribute_advances(s, off);
    }
}

/// A list of attributes never fails and consumes what it spans.
pub proof fn lemma_attributes_advances(s: Seq<char>, off: int)
    requires
        fits(s, off),
    ensures
        spec_attributes(s, off) is Done,
        advances(spec_attributes(s, off), s, off),
{
    lemma_attribute_parser();
    lemma_repeat(attribute_parser(), s, off);
}

/// A node consumes what it spans.
#[verifier::rlimit(40)]
pub proof fn lemma_node_advances(s: Seq<char>, off: int)
    requires
        fits(s, off),
    ensures
        advances(spec_node(s, off), s, off),
    decreases s.len(), 0nat,
{
    let w = spec_ws(s, off);
    lemma_ws_advances(s, off);
    lemma_step(w, s, off);
    let s1 = done_rest(w);
    let o1 = span_of(w).end as int;
    let lp = spec_tag(seq!['('], s1, o1);
    lemma_tag_advances(seq!['('], s1, o1);
    if lp is Done {
        lemma_step(lp, s1, o1);
        lemma_chain(s, off, s1, o1, done_rest(lp), span_of(lp).end as int);
        let s2 = done_rest(lp);
        if s2.len() < s.len() {
            lemma_regular_advances(s2, span_of(lp).end as int, off, span_of(lp));
            let r = spec_regular(s2, span_of(lp).end as int, off, span_of(lp));
            if r is Done {
                lemma_chain(s, off, s2, span_of(lp).end as int, done_rest(r), span_of(r).end as int);
            }
        }
    } else {
        let t = spec_text(s1, o1);
        lemma_text_advances(s1, o1);
        if s1.len() > 0 {
            lemma_blen_take_le(s1, 1);
        }
        if t is Done {
            lemma_step(t, s1, o1);
            lemma_chain(s, off, s1, o1, done_rest(t), span_of(t).end as int);
        }
    }
}

/// A list of nodes never fails and consumes what it spans.
pub proof fn lemma_nodes_advances(s: Seq<char>, off: int)
    requires
        fits(s, off),
    ensures
        spec_nodes(s, off) is Done,
        advances(spec_nodes(s, off), s, off),
    decreases s.len(), 1nat,
{
    let o = spec_node(s, off);
    lemma_node_advances(s, off);
    if o is Done && done_rest(o).len() < s.len() {
        lemma_step(o, s, off);
        lemma_nodes_advances(done_rest(o), span_of(o).end as int);
        let t = spec_nodes(done_rest(o), span_of(o).end as int);
        lemma_chain(s, off, done_rest(o), span_of(o).end as int, done_rest(t), span_of(t).end as int);
    } else {
        lemma_consumed_take(s, off, 0);
        assert(s.skip(0) =~= s);
        assert(s.take(0) =~= Seq::<char>::empty());
        lemma_blen_take_le(s, 0);
    }
}

/// A regular node after its `(` consumes up to the end of its span.
pub proof fn lemma_regular_advances(s: Seq<char>, off: int, start: int, lp: Span)
    requires
        fits(s, off),
        0 <= start <= off,
    ensures
        spec_regular(s, off, start, lp) matches Outcome::Done { span, rest, .. } ==> span.start
            == start && consumed(s, off, rest, span.end as int),
        spec_regular(s, off, start, lp) matches Outcome::Failed { span, .. } ==> off <= span.start
            <= span.end <= off + blen(s),
    decreases s.len(), 2nat,
{
    let w1 = spec_ws(s, off);
    lemma_ws_advances(s, off);
    lemma_step(w1, s, off);
    let s1 = done_rest(w1);
    let o1 = span_of(w1).end as int;
    let id = spec_identifier(s1, o1);
    lemma_identifier_advances(s1, o1);
    if id is Done {
        lemma_step(id, s1, o1);
        lemma_chain(s, off, s1, o1, done_rest(id), span_of(id).end as int);
    }
    if id is Done && kind_of(done_value(id)) is Some {
        let s2 = done_rest(id);
        let o2 = span_of(id).end as int;
        let w2 = spec_ws(s2, o2);
        lemma_ws_advances(s2, o2);
        lemma_step(w2, s2, o2);
        lemma_chain(s, off, s2, o2, done_rest(w2), span_of(w2).end as int);
        let s3 = done_rest(w2);
        let o3 = span_of(w2).end as int;
        let at = spec_attributes(s3, o3);
        lemma_attributes_advances(s3, o3);
        lemma_step(at, s3, o3);
        lemma_chain(s, off, s3, o3, done_rest(at), span_of(at).end as int);
        let s4 = done_rest(at);
        let o4 = span_of(at).end as int;
        let w3 = spec_ws(s4, o4);
        lemma_ws_advances(s4, o4);
        lemma_step(w3, s4, o4);
        lemma_chain(s, off, s4, o4, done_rest(w3), span_of(w3).end as int);
        let s5 = done_rest(w3);
        let o5 = span_of(w3).end as int;
        let ns = spec_nodes(s5, o5);
        lemma_nodes_advances(s5, o5);
        lemma_step(ns, s5, o5);
        lemma_chain(s, off, s5, o5, done_rest(ns), span_of(ns).end as int);
        let s6 = done_rest(ns);
        let o6 = span_of(ns).end as int;
        let w4 = spec_ws(s6, o6);
        lemma_ws_advances(s6, o6);
        lemma_step(w4, s6, o6);
        lemma_chain(s, off, s6, o6, done_rest(w4), span_of(w4).end as int);
        let s7 = done_rest(w4);
        let o7 = span_of(w4).end as int;
        let rp = spec_tag(seq![')'], s7, o7);
        lemma_tag_advances(seq![')'], s7, o7);
        if rp is Done {
            lemma_step(rp, s7, o7);
            lemma_chain(s, off, s7, o7, done_rest(rp), span_of(rp).end as int);
        }
    }
}


/// What the literals of the grammar hold.
proof fn lemma_literals()
    ensures
        "("@ == seq!['('],
        ")"@ == seq![')'],
        "["@ == seq!['['],
        "]"@ == seq![']'],
        "doc"@ == seq!['d', 'o', 'c'],
        "sec"@ == seq!['s', 'e', 'c'],
        "title"@ == seq!['t', 'i', 't', 'l', 'e'],
        "p"@ == seq!['p'],
        blen(seq!['(']) == 1,
        blen(seq![')']) == 1,
        blen(seq!['[']) == 1,
        blen(seq![']']) == 1,
        blen(seq!['d', 'o', 'c']) == 3,
{
    reveal_strlit("(");
    reveal_strlit(")");
    reveal_strlit("[");
    reveal_strlit("]");
    reveal_strlit("doc");
    reveal_strlit("sec");
    reveal_strlit("title");
    reveal_strlit("p");
    assert("("@ =~= seq!['(']);
    assert(")"@ =~= seq![')']);
    assert("["@ =~= seq!['[']);
    assert("]"@ =~= seq![']']);
    assert("doc"@ =~= seq!['d', 'o', 'c']);
    assert("sec"@ =~= seq!['s', 'e', 'c']);
    assert("title"@ =~= seq!['t', 'i', 't', 'l', 'e']);
    assert("p"@ =~= seq!['p']);
    lemma_blen_ascii(seq!['(']);
    lemma_blen_ascii(seq![')']);
    lemma_blen_ascii(seq!['[']);
    lemma_blen_ascii(seq![']']);
    lemma_blen_ascii(seq!['d', 'o', 'c']);
}

/// The values of the first components are the first components of the
/// values.
proof fn lemma_firsts_views<'s>(v: Seq<(Attribute<'s>, Span)>)
    ensures
        attributes_view(firsts(v)) == firsts(views(v)),
{
    assert(attributes_view(firsts(v)) =~= firsts(views(v)));
}

/// The parser of an opening parenthesis.
pub open spec fn lparen_parser() -> spec_fn(Seq<char>, int) -> Outcome<Seq<char>> {
    |s: Seq<char>, off: int| spec_tag(seq!['('], s, off)
}

/// The outcome of a result that carries a list of nodes.
pub open spec fn outcome_nodes<'i>(r: ParseResult<'i, Vec<Node<'i>>>) -> Outcome<Seq<NodeView>> {
    match r {
        Ok((rest, (v, span))) => Outcome::Done { value: nodes_view(v@), span, rest: rest@ },
        Err(e) => match e {
            ErrorKind::Error(e) => Outcome::Failed { fatal: false, span: e.span, ty: e.ty@ },
            ErrorKind::Failure(e) => Outcome::Failed { fatal: true, span: e.span, ty: e.ty@ },
        },
    }
}

/// The first components of a list of pairs.
fn firsts_of<T>(v: Vec<(T, Span)>) -> (r: Vec<T>)
    ensures
        r@ == firsts(v@),
{
    let ghost orig = v@;
    let n = v.len();
    let mut v = v;
    let mut rev: Vec<T> = Vec::new();
    while v.len() > 0
        invariant
            n == orig.len(),
            v@.len() + rev@.len() == n,
            forall|i: int| 0 <= i < v@.len() ==> v@[i] == orig[i],
            forall|j: int| 0 <= j < rev@.len() ==> #[trigger] rev@[j] == orig[n - 1 - j].0,
        decreases v@.len(),
    {
        let (a, _) = v.pop().unwrap();
        rev.push(a);
    }
    let mut r: Vec<T> = Vec::new();
    while rev.len() > 0
        invariant
            n == orig.len(),
            r@.len() + rev@.len() == n,
            forall|j: int| 0 <= j < rev@.len() ==> #[trigger] rev@[j] == orig[n - 1 - j].0,
            forall|i: int| 0 <= i < r@.len() ==> #[trigger] r@[i] == orig[i].0,
        decreases rev@.len(),
    {
        let a = rev.pop().unwrap();
        r.push(a);
    }
    assert(r@ =~= firsts(orig));
    r
}

/// The kind of regular node that `name` names.
fn node_kind(name: &str) -> (r: Option<NodeKind>)
    ensures
        r == kind_of(name@),
{
    proof {
        lemma_literals();
    }
    let n = String::from_str(name);
    if n == String::from_str("sec") {
        Some(NodeKind::Sec)
    } else if n == String::from_str("title") {
        Some(NodeKind::Title)
    } else if n == String::from_str("p") {
        Some(NodeKind::P)
    } else {
        None
    }
}

impl Parser {
    /// Skips whitespace and comments.
    fn skip<'i>(&self, input: &'i str, start: usize) -> (r: (&'i str, Span))
        requires
            fits(input@, start as int),
        ensures
            r.0@ == done_rest(spec_ws(input@, start as int)),
            r.1 == span_of(spec_ws(input@, start as int)),
            fits(r.0@, r.1.end as int),
            consumed(input@, start as int, r.0@, r.1.end as int),
            start <= r.1.end,
    {
        proof {
            lemma_ws_advances(input@, start as int);
            lemma_step(spec_ws(input@, start as int), input@, start as int);
        }
        match self.take_non_parseable(input, start) {
            Ok((rest, (_, span))) => (rest, span),
            Err(_) => (input, Span::new(start, start)),
        }
    }

    /// Parse an [`Attribute`]
    pub fn parse_attribute<'i>(&self, input: &'i str, start: usize) -> (r: ParseResult<'i, Attribute<'i>>)
        requires
            fits(input@, start as int),
        ensures
            outcome(r) == spec_attribute(input@, start as int),
            if opens_with('[', input@, start as int) { errors_noted(r, self.context(), seq![attribute_note()]) } else { from_source(r, self.context()) },
    {
        proof {
            lemma_literals();
        }
        let (rest, s0) = self.skip(input, start);
        proof {
            lemma_tag_advances(seq!['['], rest@, s0.end as int);
        }
        let (rest, (_, lb)) = match self.tag("[", rest, s0.end) {
            Ok(v) => v,
            Err(e) => return Err(e),
        };
        proof {
            lemma_step(spec_tag(seq!['['], done_rest(spec_ws(input@, start as int)), s0.end as int), done_rest(spec_ws(input@, start as int)), s0.end as int);
        }
        self.with_note(
            commit(self.parse_attribute_body(rest, lb.end, start, LBracket { span: lb })),
            "while parsing an attribute",
        )
    }

    fn parse_attribute_body<'i>(&self, input: &'i str, off: usize, start: usize, lbracket: LBracket) -> (r: ParseResult<'i, Attribute<'i>>)
        requires
            fits(input@, off as int),
            start <= off,
        ensures
            outcome(r) == spec_attribute_body(input@, off as int, start as int, lbracket.span),
            from_source(r, self.context()),
    {
        proof {
            lemma_literals();
        }
        let (rest, s1) = self.skip(input, off);
        proof {
            lemma_identifier_advances(rest@, s1.end as int);
        }
        let (rest, (name, ns)) = match self.take_identifier(rest, s1.end) {
            Ok(v) => v,
            Err(e) => return Err(e),
        };
        proof {
            let ghost s = done_rest(spec_ws(input@, off as int));
            lemma_step(spec_identifier(s, s1.end as int), s, s1.end as int);
        }
        let (rest, s2) = self.skip(rest, ns.end);
        proof {
            lemma_take_while_advances(not_rbracket_pred(), rest@, s2.end as int);
            lemma_step(spec_take_while(not_rbracket_pred(), rest@, s2.end as int), rest@, s2.end as int);
        }
        let (rest, (text, vs)) = match self.take_while(not_rbracket, Ghost(not_rbracket_pred()), rest, s2.end) {
            Ok(v) => v,
            Err(e) => return Err(e),
        };
        let (rest, s3) = self.skip(rest, vs.end);
        proof {
            lemma_tag_advances(seq![']'], rest@, s3.end as int);
        }
        let (rest, (_, rb)) = match self.tag("]", rest, s3.end) {
            Ok(v) => v,
            Err(e) => return Err(e),
        };
        let attribute = Attribute {
            lbracket,
            attribute_name: Identifier { name, span: ns },
            attribute_value: Text { text, span: vs },
            rbracket: RBracket { span: rb },
            span: Span::new(start, rb.end),
        };
        Ok((rest, (attribute, Span::new(start, rb.end))))
    }
}


impl Parser {
    /// The attributes that start `input`.
    fn parse_attributes<'i>(&self, input: &'i str, start: usize) -> (r: (&'i str, Vec<Attribute<'i>>, Span))
        requires
            fits(input@, start as int),
        ensures
            done_rest(spec_attributes(input@, start as int)) == r.0@,
            firsts(done_value(spec_attributes(input@, start as int))) == attributes_view(r.1@),
            span_of(spec_attributes(input@, start as int)) == r.2,
            fits(r.0@, r.2.end as int),
            consumed(input@, start as int, r.0@, r.2.end as int),
    {
        let attribute = |i: &'i str, s: usize| -> (r: ParseResult<'i, Attribute<'i>>)
            requires
                fits(i@, s as int),
            ensures
                outcome(r) == spec_attribute(i@, s as int),
            { self.parse_attribute(i, s) };
        proof {
            lemma_attribute_parser();
            lemma_attributes_advances(input@, start as int);
            lemma_step(spec_attributes(input@, start as int), input@, start as int);
        }
        match self.repeat(attribute, Ghost(attribute_parser()), input, start) {
            Ok((rest, (values, span))) => {
                proof {
                    lemma_firsts_views(values@);
                }
                (rest, firsts_of(values), span)
            },
            Err(_) => (input, Vec::new(), Span::new(start, start)),
        }
    }

    /// Parse a text run of at least one character.
    fn parse_text_node<'i>(&self, input: &'i str, off: usize, start: usize) -> (r: ParseResult<'i, Node<'i>>)
        requires
            fits(input@, off as int),
            start <= off,
        ensures
            outcome(r) == spec_text_node(input@, off as int, start as int),
            from_source(r, self.context()),
    {
        let (rest, (text, ts)) = match self.take_text(input, off) {
            Ok(v) => v,
            Err(e) => return Err(e),
        };
        if text.is_empty() {
            let (c, _) = split_first(input);
            let w = char_len(c);
            proof {
                assert(input@.take(1) =~= seq![c]);
                assert(input@.take(0) =~= Seq::<char>::empty());
                lemma_blen_take_succ(input@, 0);
                lemma_blen_take_le(input@, 1);
                assert(encode_utf8(input@.take(0)) =~= Seq::<u8>::empty());
            }
            let (first, _) = split_chars(input, w, Ghost(1));
            let e = self.make_error(
                Span::new(off, off + w),
                ParseErrorType::UnexpectedToken {
                    expected: String::from_str("TEXT"),
                    found: first.to_owned(),
                },
            );
            return Err(ErrorKind::Error(e));
        }
        let node = Node::Text { inner: Text { text, span: ts } };
        Ok((rest, (node, Span::new(start, ts.end))))
    }

    /// Parse a nestable node
    pub fn parse_node<'i>(&self, input: &'i str, start: usize) -> (r: ParseResult<'i, Node<'i>>)
        requires
            fits(input@, start as int),
        ensures
            outcome(r) == spec_node(input@, start as int),
            if opens_with('(', input@, start as int) { errors_noted(r, self.context(), seq![node_note()]) } else { from_source(r, self.context()) },
        decreases input@.len(), 0nat,
    {
        let (rest, s1) = self.skip(input, start);
        let lparen = |i: &'i str, s: usize| -> (r: ParseResult<'i, &'i str>)
            requires
                fits(i@, s as int),
            ensures
                outcome(r) == spec_tag(seq!['('], i@, s as int),
            {
                proof {
                    lemma_literals();
                }
                self.tag("(", i, s)
            };
        proof {
            lemma_tag_advances(seq!['('], rest@, s1.end as int);
        }
        let (rest2, (maybe, lps)) = match self.optional(lparen, Ghost(lparen_parser()), rest, s1.end) {
            Ok(v) => v,
            Err(e) => return Err(e),
        };
        match maybe {
            Some(_) => {
                proof {
                    let ghost t = spec_tag(seq!['('], rest@, s1.end as int);
                    assert(t is Done);
                    lemma_step(t, rest@, s1.end as int);
                }
                self.parse_regular_node_start(LParen { span: lps }, start, rest2, lps.end)
            },
            None => self.parse_text_node(rest, s1.end, start),
        }
    }

    /// Parse the nodes that start `input`: as many as parse and consume
    /// input.
    pub fn parse_nodes<'i>(&self, input: &'i str, start: usize) -> (r: ParseResult<'i, Vec<Node<'i>>>)
        requires
            fits(input@, start as int),
        ensures
            outcome_nodes(r) == spec_nodes(input@, start as int),
            r is Ok,
        decreases input@.len(), 1nat,
    {
        let mut values: Vec<Node<'i>> = Vec::new();
        let mut i = input;
        let mut end = start;
        proof {
            lemma_nodes_advances(input@, start as int);
            assert(values@ =~= Seq::<Node<'i>>::empty());
            assert(nodes_view(values@) =~= Seq::<NodeView>::empty());
            assert(nodes_view(values@) + done_value(spec_nodes(input@, start as int)) =~= done_value(spec_nodes(input@, start as int)));
        }
        loop
            invariant
                fits(i@, end as int),
                start <= end,
                i@.len() <= input@.len(),
                spec_nodes(i@, end as int) is Done,
                spec_nodes(input@, start as int) == (Outcome::Done {
                    value: nodes_view(values@) + done_value(spec_nodes(i@, end as int)),
                    span: sp(start as int, span_of(spec_nodes(i@, end as int)).end as int),
                    rest: done_rest(spec_nodes(i@, end as int)),
                }),
            decreases i@.len(),
        {
            proof {
                lemma_nodes_advances(i@, end as int);
                lemma_node_advances(i@, end as int);
            }
            let res = self.parse_node(i, end);
            match res {
                Ok((rest, (o, o_span))) => {
                    proof {
                        lemma_consumed_shrinks(i@, end as int, rest@, o_span.end as int);
                    }
                    if rest.len() < i.len() {
                        proof {
                            lemma_nodes_advances(rest@, o_span.end as int);
                            lemma_nodes_view_push(values@, o);
                            let ghost tail = spec_nodes(rest@, o_span.end as int);
                            assert(nodes_view(values@) + (seq![node_view(o)] + done_value(tail)) =~= (nodes_view(values@) + seq![node_view(o)]) + done_value(tail));
                        }
                        values.push(o);
                        i = rest;
                        end = o_span.end;
                    } else {
                        proof {
                            assert(nodes_view(values@) + Seq::<NodeView>::empty() =~= nodes_view(values@));
                        }
                        return Ok((i, (values, Span::new(start, end))));
                    }
                },
                Err(_) => {
                    proof {
                        assert(nodes_view(values@) + Seq::<NodeView>::empty() =~= nodes_view(values@));
                    }
                    return Ok((i, (values, Span::new(start, end))));
                },
            }
        }
    }

    /// Parse the rest of a regular, delimited node after its `(`
    pub fn parse_regular_node_start<'i>(&self, lparen: LParen, start: usize, input: &'i str, off: usize) -> (r: ParseResult<'i, Node<'i>>)
        requires
            fits(input@, off as int),
            start <= off,
        ensures
            outcome(r) == spec_regular(input@, off as int, start as int, lparen.span),
            errors_noted(r, self.context(), seq![node_note()]),
        decreases input@.len(), 3nat,
    {
        self.with_note(self.parse_regular_body(lparen, start, input, off), "while parsing a node")
    }

    fn parse_regular_body<'i>(&self, lparen: LParen, start: usize, input: &'i str, off: usize) -> (r: ParseResult<'i, Node<'i>>)
        requires
            fits(input@, off as int),
            start <= off,
        ensures
            outcome(r) == spec_regular(input@, off as int, start as int, lparen.span),
            from_source(r, self.context()),
        decreases input@.len(), 2nat,
    {
        proof {
            lemma_literals();
        }
        let (rest, s1) = self.skip(input, off);
        proof {
            lemma_identifier_advances(rest@, s1.end as int);
        }
        let (rest, (name, ns)) = match commit(self.take_identifier(rest, s1.end)) {
            Ok(v) => v,
            Err(e) => return Err(e),
        };
        proof {
            let ghost s = done_rest(spec_ws(input@, off as int));
            lemma_step(spec_identifier(s, s1.end as int), s, s1.end as int);
            lemma_chain(input@, off as int, s, s1.end as int, rest@, ns.end as int);
        }
        let kind = match node_kind(name) {
            Some(k) => k,
            None => {
                let e = self.make_error(ns, ParseErrorType::UnknownNodeKind { found: name.to_owned() });
                return Err(ErrorKind::Failure(e));
            },
        };
        let ghost s2 = rest@;
        let (rest, s2s) = self.skip(rest, ns.end);
        proof {
            lemma_chain(input@, off as int, s2, ns.end as int, rest@, s2s.end as int);
        }
        let ghost s3 = rest@;
        let (rest, attributes, as_) = self.parse_attributes(rest, s2s.end);
        proof {
            lemma_chain(input@, off as int, s3, s2s.end as int, rest@, as_.end as int);
        }
        let ghost s4 = rest@;
        let (rest, s3s) = self.skip(rest, as_.end);
        proof {
            lemma_chain(input@, off as int, s4, as_.end as int, rest@, s3s.end as int);
        }
        let (rest, (inner, is_)) = match self.parse_nodes(rest, s3s.end) {
            Ok(v) => v,
            Err(e) => return Err(e),
        };
        proof {
            let ghost s5 = done_rest(spec_ws(s4, as_.end as int));
            lemma_nodes_advances(s5, s3s.end as int);
            lemma_step(spec_nodes(s5, s3s.end as int), s5, s3s.end as int);
        }
        let (rest, s4s) = self.skip(rest, is_.end);
        proof {
            lemma_tag_advances(seq![')'], rest@, s4s.end as int);
        }
        let (rest, (_, rp)) = match commit(self.tag(")", rest, s4s.end)) {
            Ok(v) => v,
            Err(e) => return Err(e),
        };
        let span = Span::new(start, rp.end);
        let rparen = RParen { span: rp };
        let node = match kind {
            NodeKind::Sec => Node::Sec { lparen, sec: Sec { span: ns }, attributes, inner, rparen, span },
            NodeKind::Title => Node::Title { lparen, title: Title { span: ns }, attributes, inner, rparen, span },
            NodeKind::P => Node::P { lparen, p: P { span: ns }, attributes, inner, rparen, span },
        };
        Ok((rest, (node, span)))
    }
}


impl Parser {
    /// Parse a doc node
    pub fn parse_doc_node<'i>(&self, input: &'i str, start: usize) -> (r: ParseResult<'i, DocNode<'i>>)
        requires
            fits(input@, start as int),
        ensures
            outcome(r) == spec_doc(input@, start as int),
            if opens_with('(', input@, start as int) { errors_noted(r, self.context(), seq![doc_note()]) } else { from_source(r, self.context()) },
    {
        proof {
            lemma_literals();
        }
        let (rest, s0) = self.skip(input, start);
        proof {
            lemma_tag_advances(seq!['('], rest@, s0.end as int);
        }
        let (rest, (_, lp)) = match self.tag("(", rest, s0.end) {
            Ok(v) => v,
            Err(e) => return Err(e),
        };
        proof {
            let ghost s = done_rest(spec_ws(input@, start as int));
            lemma_step(spec_tag(seq!['('], s, s0.end as int), s, s0.end as int);
        }
        self.with_note(
            commit(self.parse_doc_body(rest, lp.end, start, LParen { span: lp })),
            "while parsing the document node",
        )
    }

    fn parse_doc_body<'i>(&self, input: &'i str, off: usize, start: usize, lparen: LParen) -> (r: ParseResult<'i, DocNode<'i>>)
        requires
            fits(input@, off as int),
            start <= off,
        ensures
            outcome(r) == spec_doc_body(input@, off as int, start as int, lparen.span),
            from_source(r, self.context()),
    {
        proof {
            lemma_literals();
        }
        let (rest, s1) = self.skip(input, off);
        proof {
            lemma_tag_advances(seq!['d', 'o', 'c'], rest@, s1.end as int);
        }
        let (rest, (_, ks)) = match self.tag("doc", rest, s1.end) {
            Ok(v) => v,
            Err(e) => return Err(e),
        };
        proof {
            let ghost s = done_rest(spec_ws(input@, off as int));
            lemma_step(spec_tag(seq!['d', 'o', 'c'], s, s1.end as int), s, s1.end as int);
        }
        let (rest, s2) = self.skip(rest, ks.end);
        let (rest, attributes, as_) = self.parse_attributes(rest, s2.end);
        let (rest, s3) = self.skip(rest, as_.end);
        let ghost s5 = rest@;
        let (rest, (nodes, ns)) = match self.parse_nodes(rest, s3.end) {
            Ok(v) => v,
            Err(e) => return Err(e),
        };
        proof {
            lemma_nodes_advances(s5, s3.end as int);
            lemma_step(spec_nodes(s5, s3.end as int), s5, s3.end as int);
        }
        let (rest, s4) = self.skip(rest, ns.end);
        proof {
            lemma_tag_advances(seq![')'], rest@, s4.end as int);
        }
        let (rest, (_, rp)) = match self.tag(")", rest, s4.end) {
            Ok(v) => v,
            Err(e) => return Err(e),
        };
        let span = Span::new(start, rp.end);
        let doc = DocNode { lparen, doc: Doc { span: ks }, attributes, nodes, rparen: RParen { span: rp }, span };
        Ok((rest, (doc, span)))
    }

    /// Parse a single page of the source text
    pub fn parse_page(&self) -> (r: ParseResult<'_, Page<'_>>)
        requires
            self.wf(),
        ensures
            outcome(r) == spec_page(self.context().text()),
            if page_opens_doc(self.context().text()) { errors_noted(r, self.context(), seq![doc_note()]) } else { from_source(r, self.context()) },
    {
        proof {
            reveal(spec_page);
        }
        let input = self.source();
        let (rest, s0) = self.skip(input, 0);
        let (rest, attributes, as_) = self.parse_attributes(rest, s0.end);
        let (rest, (doc, ds)) = match self.parse_doc_node(rest, as_.end) {
            Ok(v) => v,
            Err(e) => return Err(e),
        };
        let span = Span::new(s0.start, ds.end);
        let page = Page { attributes, doc, span };
        Ok((rest, (page, span)))
    }

    /// Parse the entire source code: the page, or the error that stopped it.
    pub fn parse(&self) -> (r: Result<Page<'_>, ParseError>)
        requires
            self.wf(),
        ensures
            r is Ok <==> spec_page(self.context().text()) is Done,
            r matches Ok(p) ==> p@ == done_value(spec_page(self.context().text())),
            r matches Err(e) ==> spec_page(self.context().text()) matches Outcome::Failed {
                span,
                ty,
                ..
            } && e.span == span && e.ty@ == ty,
            r matches Err(e) ==> if page_opens_doc(self.context().text()) { noted(e, self.context(), seq![doc_note()]) } else { fresh(e, self.context()) },
            r matches Err(e) ==> e.span.start <= e.span.end <= self.context().spec_len(),
    {
        proof {
            lemma_page_reconstructs(self.context().text());
        }
        match self.parse_page() {
            Ok((_, (page, _))) => Ok(page),
            Err(ErrorKind::Error(e)) => Err(e),
            Err(ErrorKind::Failure(e)) => Err(e),
        }
    }
}

/// A document node after its `(` consumes up to the end of its span, and
/// fails within its input.
#[verifier::rlimit(100)]
proof fn lemma_doc_body_advances(s: Seq<char>, off: int, start: int, lp: Span)
    requires
        fits(s, off),
        0 <= start <= off,
    ensures
        spec_doc_body(s, off, start, lp) matches Outcome::Done { span, rest, .. } ==> span.start
            == start && consumed(s, off, rest, span.end as int),
        spec_doc_body(s, off, start, lp) matches Outcome::Failed { span, .. } ==> off <= span.start
            <= span.end <= off + blen(s),
{
    let w1 = spec_ws(s, off);
    lemma_ws_advances(s, off);
    lemma_step(w1, s, off);
    let s3 = done_rest(w1);
    let o3 = span_of(w1).end as int;
    let kw = spec_tag(seq!['d', 'o', 'c'], s3, o3);
    lemma_tag_advances(seq!['d', 'o', 'c'], s3, o3);
    if kw is Done {
        lemma_step(kw, s3, o3);
        lemma_chain(s, off, s3, o3, done_rest(kw), span_of(kw).end as int);
        let s4 = done_rest(kw);
        let o4 = span_of(kw).end as int;
        let w2 = spec_ws(s4, o4);
        lemma_ws_advances(s4, o4);
        lemma_step(w2, s4, o4);
        lemma_chain(s, off, s4, o4, done_rest(w2), span_of(w2).end as int);
        let s5 = done_rest(w2);
        let o5 = span_of(w2).end as int;
        let at = spec_attributes(s5, o5);
        lemma_attributes_advances(s5, o5);
        lemma_step(at, s5, o5);
        lemma_chain(s, off, s5, o5, done_rest(at), span_of(at).end as int);
        let s6 = done_rest(at);
        let o6 = span_of(at).end as int;
        let w3 = spec_ws(s6, o6);
        lemma_ws_advances(s6, o6);
        lemma_step(w3, s6, o6);
        lemma_chain(s, off, s6, o6, done_rest(w3), span_of(w3).end as int);
        let s7 = done_rest(w3);
        let o7 = span_of(w3).end as int;
        let ns = spec_nodes(s7, o7);
        lemma_nodes_advances(s7, o7);
        lemma_step(ns, s7, o7);
        lemma_chain(s, off, s7, o7, done_rest(ns), span_of(ns).end as int);
        let s8 = done_rest(ns);
        let o8 = span_of(ns).end as int;
        let w4 = spec_ws(s8, o8);
        lemma_ws_advances(s8, o8);
        lemma_step(w4, s8, o8);
        lemma_chain(s, off, s8, o8, done_rest(w4), span_of(w4).end as int);
        let s9 = done_rest(w4);
        let o9 = span_of(w4).end as int;
        let rp = spec_tag(seq![')'], s9, o9);
        lemma_tag_advances(seq![')'], s9, o9);
        if rp is Done {
            lemma_step(rp, s9, o9);
            lemma_chain(s, off, s9, o9, done_rest(rp), span_of(rp).end as int);
        }
    }
}

/// A document node consumes what it spans, and fails within its input.
pub proof fn lemma_doc_advances(s: Seq<char>, off: int)
    requires
        fits(s, off),
    ensures
        advances(spec_doc(s, off), s, off),
{
    let w = spec_ws(s, off);
    lemma_ws_advances(s, off);
    lemma_step(w, s, off);
    let s1 = done_rest(w);
    let o1 = span_of(w).end as int;
    let lp = spec_tag(seq!['('], s1, o1);
    lemma_tag_advances(seq!['('], s1, o1);
    if lp is Done {
        lemma_step(lp, s1, o1);
        lemma_chain(s, off, s1, o1, done_rest(lp), span_of(lp).end as int);
        let s2 = done_rest(lp);
        let o2 = span_of(lp).end as int;
        lemma_doc_body_advances(s2, o2, off, span_of(lp));
        let b = spec_doc_body(s2, o2, off, span_of(lp));
        if b is Done {
            lemma_chain(s, off, s2, o2, done_rest(b), span_of(b).end as int);
        }
    }
}

/// Whatever source a page parses from, the text that its span covers
/// followed by the remaining input is the source again, character for
/// character, and the span's end is the byte length of that text. A page
/// that fails to parse fails on a span within the source.
pub proof fn lemma_page_reconstructs(s: Seq<char>)
    requires
        blen(s) < usize::MAX,
    ensures
        spec_page(s) matches Outcome::Done { span, rest, .. } ==> {
            let k = s.len() - rest.len();
            &&& 0 <= k <= s.len()
            &&& s == s.take(k) + rest
            &&& span.start == 0
            &&& span.end == blen(s.take(k))
        },
        spec_page(s) matches Outcome::Failed { span, .. } ==> span.start <= span.end <= blen(s),
{
    reveal(spec_page);
    let w = spec_ws(s, 0);
    lemma_ws_advances(s, 0);
    lemma_step(w, s, 0);
    let s1 = done_rest(w);
    let o1 = span_of(w).end as int;
    let at = spec_attributes(s1, o1);
    lemma_attributes_advances(s1, o1);
    lemma_step(at, s1, o1);
    lemma_chain(s, 0, s1, o1, done_rest(at), span_of(at).end as int);
    let s2 = done_rest(at);
    let o2 = span_of(at).end as int;
    let d = spec_doc(s2, o2);
    lemma_doc_advances(s2, o2);
    if d is Done {
        lemma_step(d, s2, o2);
        lemma_chain(s, 0, s2, o2, done_rest(d), span_of(d).end as int);
    }
}

} // verus!
