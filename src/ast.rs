//! The document tree that a successful parse produces, and its
//! mathematical view. String payloads borrow from the source text.

use vstd::prelude::*;

use crate::location::Span;

verus! {

broadcast use vstd::std_specs::vec::axiom_vec_decreases_to_view, vstd::seq::axiom_seq_index_decreases, vstd::seq::axiom_seq_subrange_decreases;

/// `(`
#[derive(Clone, Copy, Debug, PartialEq, Eq, Structural)]
pub struct LParen {
    pub span: Span,
}

/// `)`
#[derive(Clone, Copy, Debug, PartialEq, Eq, Structural)]
pub struct RParen {
    pub span: Span,
}

/// `[`
#[derive(Clone, Copy, Debug, PartialEq, Eq, Structural)]
pub struct LBracket {
    pub span: Span,
}

/// `]`
#[derive(Clone, Copy, Debug, PartialEq, Eq, Structural)]
pub struct RBracket {
    pub span: Span,
}

/// `doc`: the top level document node
#[derive(Clone, Copy, Debug, PartialEq, Eq, Structural)]
pub struct Doc {
    pub span: Span,
}

/// `sec`: a section
#[derive(Clone, Copy, Debug, PartialEq, Eq, Structural)]
pub struct Sec {
    pub span: Span,
}

/// `title`: a title
#[derive(Clone, Copy, Debug, PartialEq, Eq, Structural)]
pub struct Title {
    pub span: Span,
}

/// `p`: a paragraph
#[derive(Clone, Copy, Debug, PartialEq, Eq, Structural)]
pub struct P {
    pub span: Span,
}

/// A generic identifier
#[derive(Clone, Copy, Debug, PartialEq, Eq)]
pub struct Identifier<'s> {
    pub name: &'s str,
    pub span: Span,
}

/// A slice of text
#[derive(Clone, Copy, Debug, PartialEq, Eq)]
pub struct Text<'s> {
    pub text: &'s str,
    pub span: Span,
}

/// An attribute `[name value]` of a page or a node
#[derive(Clone, Debug, PartialEq, Eq)]
pub struct Attribute<'s> {
    pub lbracket: LBracket,
    pub attribute_name: Identifier<'s>,
    pub attribute_value: Text<'s>,
    pub rbracket: RBracket,
    pub span: Span,
}

/// All possible types of nodes and their respective contents
#[derive(Debug, PartialEq, Eq)]
#[allow(inconsistent_fields)]
pub enum Node<'s> {
    Text {
        inner: Text<'s>,
    },
    Sec {
        lparen: LParen,
        sec: Sec,
        attributes: Vec<Attribute<'s>>,
        inner: Vec<Node<'s>>,
        rparen: RParen,
        span: Span,
    },
    Title {
        lparen: LParen,
        title: Title,
        attributes: Vec<Attribute<'s>>,
        inner: Vec<Node<'s>>,
        rparen: RParen,
        span: Span,
    },
    P {
        lparen: LParen,
        p: P,
        attributes: Vec<Attribute<'s>>,
        inner: Vec<Node<'s>>,
        rparen: RParen,
        span: Span,
    },
}

/// A document node, contains all the markup of a single page
#[derive(Clone, Debug, PartialEq, Eq)]
pub struct DocNode<'s> {
    pub lparen: LParen,
    pub doc: Doc,
    pub attributes: Vec<Attribute<'s>>,
    pub nodes: Vec<Node<'s>>,
    pub rparen: RParen,
    pub span: Span,
}

/// The root node of the AST, represents a single page
#[derive(Clone, Debug, PartialEq, Eq)]
pub struct Page<'s> {
    /// The global attributes of this page
    pub attributes: Vec<Attribute<'s>>,
    /// The document node of this page
    pub doc: DocNode<'s>,
    pub span: Span,
}

/// A copy of a node, built level by level.
fn clone_node<'s>(n: &Node<'s>) -> Node<'s>
    decreases n,
{
    match n {
        Node::Text { inner } => Node::Text { inner: *inner },
        Node::Sec { lparen, sec, attributes, inner, rparen, span } => Node::Sec {
            lparen: *lparen,
            sec: *sec,
            attributes: attributes.clone(),
            inner: clone_nodes(inner),
            rparen: *rparen,
            span: *span,
        },
        Node::Title { lparen, title, attributes, inner, rparen, span } => Node::Title {
            lparen: *lparen,
            title: *title,
            attributes: attributes.clone(),
            inner: clone_nodes(inner),
            rparen: *rparen,
            span: *span,
        },
        Node::P { lparen, p, attributes, inner, rparen, span } => Node::P {
            lparen: *lparen,
            p: *p,
            attributes: attributes.clone(),
            inner: clone_nodes(inner),
            rparen: *rparen,
            span: *span,
        },
    }
}

/// A copy of a list of nodes.
fn clone_nodes<'s>(ns: &Vec<Node<'s>>) -> Vec<Node<'s>>
    decreases ns,
{
    let mut r: Vec<Node<'s>> = Vec::new();
    let mut i: usize = 0;
    while i < ns.len()
        invariant
            i <= ns.len(),
        decreases ns.len() - i,
    {
        r.push(clone_node(&ns[i]));
        i = i + 1;
    }
    r
}

impl<'s> Clone for Node<'s> {
    fn clone(&self) -> Self {
        clone_node(self)
    }
}

/// A piece of source text with its span.
pub struct TextView {
    pub text: Seq<char>,
    pub span: Span,
}

/// The value of an [`Attribute`].
pub struct AttributeView {
    pub lbracket: Span,
    pub name: TextView,
    pub value: TextView,
    pub rbracket: Span,
    pub span: Span,
}

/// The kinds of regular node.
pub enum NodeKind {
    Sec,
    Title,
    P,
}

/// The value of a [`Node`].
pub enum NodeView {
    Text(TextView),
    Regular {
        kind: NodeKind,
        lparen: Span,
        keyword: Span,
        attributes: Seq<AttributeView>,
        inner: Seq<NodeView>,
        rparen: Span,
        span: Span,
    },
}

/// The value of a [`DocNode`].
pub struct DocView {
    pub lparen: Span,
    pub keyword: Span,
    pub attributes: Seq<AttributeView>,
    pub nodes: Seq<NodeView>,
    pub rparen: Span,
    pub span: Span,
}

/// The value of a [`Page`].
pub struct PageView {
    pub attributes: Seq<AttributeView>,
    pub doc: DocView,
    pub span: Span,
}

impl<'s> View for Identifier<'s> {
    type V = TextView;

    open spec fn view(&self) -> TextView {
        TextView { text: self.name@, span: self.span }
    }
}

impl<'s> View for Text<'s> {
    type V = TextView;

    open spec fn view(&self) -> TextView {
        TextView { text: self.text@, span: self.span }
    }
}

impl<'s> View for Attribute<'s> {
    type V = AttributeView;

    open spec fn view(&self) -> AttributeView {
        AttributeView {
            lbracket: self.lbracket.span,
            name: self.attribute_name@,
            value: self.attribute_value@,
            rbracket: self.rbracket.span,
            span: self.span,
        }
    }
}

/// The values of a list of attributes.
pub open spec fn attributes_view<'s>(a: Seq<Attribute<'s>>) -> Seq<AttributeView> {
    a.map_values(|x: Attribute<'s>| x@)
}

/// The value of a node.
pub open spec fn node_view<'s>(n: Node<'s>) -> NodeView
    decreases n,
{
    match n {
        Node::Text { inner } => NodeView::Text(inner@),
        Node::Sec { lparen, sec, attributes, inner, rparen, span } => NodeView::Regular {
            kind: NodeKind::Sec,
            lparen: lparen.span,
            keyword: sec.span,
            attributes: attributes_view(attributes@),
            inner: nodes_view(inner@),
            rparen: rparen.span,
            span,
        },
        Node::Title { lparen, title, attributes, inner, rparen, span } => NodeView::Regular {
            kind: NodeKind::Title,
            lparen: lparen.span,
            keyword: title.span,
            attributes: attributes_view(attributes@),
            inner: nodes_view(inner@),
            rparen: rparen.span,
            span,
        },
        Node::P { lparen, p, attributes, inner, rparen, span } => NodeView::Regular {
            kind: NodeKind::P,
            lparen: lparen.span,
            keyword: p.span,
            attributes: attributes_view(attributes@),
            inner: nodes_view(inner@),
            rparen: rparen.span,
            span,
        },
    }
}

/// The values of a list of nodes.
pub open spec fn nodes_view<'s>(ns: Seq<Node<'s>>) -> Seq<NodeView>
    decreases ns,
{
    if ns.len() == 0 {
        seq![]
    } else {
        seq![node_view(ns[0])] + nodes_view(ns.subrange(1, ns.len() as int))
    }
}

impl<'s> View for Node<'s> {
    type V = NodeView;

    open spec fn view(&self) -> NodeView {
        node_view(*self)
    }
}

impl<'s> View for DocNode<'s> {
    type V = DocView;

    open spec fn view(&self) -> DocView {
        DocView {
            lparen: self.lparen.span,
            keyword: self.doc.span,
            attributes: attributes_view(self.attributes@),
            nodes: nodes_view(self.nodes@),
            rparen: self.rparen.span,
            span: self.span,
        }
    }
}

impl<'s> View for Page<'s> {
    type V = PageView;

    open spec fn view(&self) -> PageView {
        PageView { attributes: attributes_view(self.attributes@), doc: self.doc@, span: self.span }
    }
}

/// Appending a node appends its value.
pub proof fn lemma_nodes_view_push<'s>(ns: Seq<Node<'s>>, n: Node<'s>)
    ensures
        nodes_view(ns.push(n)) == nodes_view(ns) + seq![node_view(n)],
    decreases ns.len(),
{
    if ns.len() == 0 {
        assert(ns.push(n).subrange(1, 1) =~= Seq::<Node<'s>>::empty());
        assert(nodes_view(Seq::<Node<'s>>::empty()) =~= Seq::<NodeView>::empty());
        assert(nodes_view(ns) =~= Seq::<NodeView>::empty());
        assert(nodes_view(ns.push(n)) =~= seq![node_view(n)]);
    } else {
        let t = ns.subrange(1, ns.len() as int);
        assert(ns.push(n).subrange(1, ns.len() as int + 1) =~= t.push(n));
        lemma_nodes_view_push(t, n);
        assert(nodes_view(ns.push(n)) =~= seq![node_view(ns[0])] + nodes_view(t.push(n)));
        assert(nodes_view(ns.push(n)) =~= nodes_view(ns) + seq![node_view(n)]);
    }
}

} // verus!
