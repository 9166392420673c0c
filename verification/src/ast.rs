//! The node taxonomy of the document tree: inline expression nodes, block
//! nodes, directives, link targets and routes, together with the spec-level
//! models (`...View`) that contracts are stated over.

use vstd::prelude::*;

verus! {

/// Identifier of a node inside a [`crate::tree::BackreferencedAst`] arena.
pub type NodeId = usize;

/// An ordered sequence of inline expression nodes, in document order.
pub type BlockExprTree = Vec<BlockExprNode>;

/// An ordered sequence of top-level block nodes, in document order.
pub type AbstractSyntaxTree = Vec<AstNode>;

/// One node of formatted inline text.
#[derive(Debug, PartialEq)]
pub enum BlockExprNode {
    /// A single literal character; runs of `Char` nodes are the only
    /// representation of plain text.
    Char(char),
    Bold(BlockExprTree),
    Italic(BlockExprTree),
    Underline(BlockExprTree),
    Strikethrough(BlockExprTree),
    NonbreakingSpace(BlockExprTree),
    /// Literal, unformatted inline text.
    Code(String),
    /// A link; when no display tree is given, renderers fall back to a
    /// stringified form of the target.
    Link(LinkTarget, Option<BlockExprTree>),
    /// One or more consecutive newlines, collapsed to one semantic unit.
    Linespace,
    /// An inline marker carrying a route, used when routing is expressed
    /// inline rather than as heading metadata.
    HeaderRouting(Route),
}

/// A top-level document unit.
#[derive(Debug)]
pub enum AstNode {
    /// A fenced code block with a language tag.
    SourceBlock { language: String, code: String },
    /// Document metadata.
    Directive(Directive),
    /// A section heading; `children` are arena identifiers of the nodes the
    /// heading owns, in document order.
    Heading { level: u16, title: BlockExprTree, children: Vec<NodeId>, routing: Option<Route> },
    /// A generic paragraph-like container.
    Block(BlockType, BlockExprTree),
    /// A thematic break, no payload.
    HorizRule,
}

/// Distinguishes block-level flow content from inline-flow content placed at
/// block position.
#[derive(Debug, Clone, Copy, PartialEq, Eq, Structural)]
pub enum BlockType {
    Block,
    Inline,
}

/// A document-level metadata marker; `Raw` is the pre-resolution form.
#[derive(Debug, Clone, PartialEq)]
pub enum Directive {
    Id(String),
    Title(String),
    /// Untyped form produced by the parser, promoted by directive resolution.
    Raw(String, String),
}

/// The target of a link: a heading matched by its stringified title, or an
/// external URI.
#[derive(Debug, Clone, PartialEq)]
pub enum LinkTarget {
    Heading { title: String },
    External(String),
}

/// Where a heading is published: as a page, as a section anchor, or as a
/// member of a named render group.
#[derive(Debug, PartialEq)]
pub enum Route {
    Page(String),
    Section(String),
    RenderGroup(RenderGroup),
}

/// The closed set of render groups a heading can join.
#[derive(Debug, Clone, Copy, PartialEq, Eq, Structural)]
pub enum RenderGroup {
    Nav,
}

/// Spec model of a [`LinkTarget`].
pub enum LinkTargetView {
    Heading { title: Seq<char> },
    External(Seq<char>),
}

/// Spec model of a [`Route`].
pub enum RouteView {
    Page(Seq<char>),
    Section(Seq<char>),
    RenderGroup(RenderGroup),
}

/// Spec model of a [`Directive`].
pub enum DirectiveView {
    Id(Seq<char>),
    Title(Seq<char>),
    Raw(Seq<char>, Seq<char>),
}

/// Spec model of a [`BlockExprNode`].
pub enum BlockExprNodeView {
    Char(char),
    Bold(Seq<BlockExprNodeView>),
    Italic(Seq<BlockExprNodeView>),
    Underline(Seq<BlockExprNodeView>),
    Strikethrough(Seq<BlockExprNodeView>),
    NonbreakingSpace(Seq<BlockExprNodeView>),
    Code(Seq<char>),
    Link(LinkTargetView, Option<Seq<BlockExprNodeView>>),
    Linespace,
    HeaderRouting(RouteView),
}

/// Spec model of an [`AstNode`].
pub enum AstNodeView {
    SourceBlock { language: Seq<char>, code: Seq<char> },
    Directive(DirectiveView),
    Heading {
        level: u16,
        title: Seq<BlockExprNodeView>,
        children: Seq<NodeId>,
        routing: Option<RouteView>,
    },
    Block(BlockType, Seq<BlockExprNodeView>),
    HorizRule,
}

impl View for LinkTarget {
    type V = LinkTargetView;

    open spec fn view(&self) -> LinkTargetView {
        match self {
            LinkTarget::Heading { title } => LinkTargetView::Heading { title: title@ },
            LinkTarget::External(uri) => LinkTargetView::External(uri@),
        }
    }
}

impl View for Route {
    type V = RouteView;

    open spec fn view(&self) -> RouteView {
        match self {
            Route::Page(name) => RouteView::Page(name@),
            Route::Section(anchor) => RouteView::Section(anchor@),
            Route::RenderGroup(g) => RouteView::RenderGroup(*g),
        }
    }
}

impl View for Directive {
    type V = DirectiveView;

    open spec fn view(&self) -> DirectiveView {
        match self {
            Directive::Id(s) => DirectiveView::Id(s@),
            Directive::Title(s) => DirectiveView::Title(s@),
            Directive::Raw(k, v) => DirectiveView::Raw(k@, v@),
        }
    }
}

/// Spec model of one inline expression node.
pub open spec fn ben_view(n: BlockExprNode) -> BlockExprNodeView
    decreases n,
{
    match n {
        BlockExprNode::Char(c) => BlockExprNodeView::Char(c),
        BlockExprNode::Bold(t) => BlockExprNodeView::Bold(bet_view(t@)),
        BlockExprNode::Italic(t) => BlockExprNodeView::Italic(bet_view(t@)),
        BlockExprNode::Underline(t) => BlockExprNodeView::Underline(bet_view(t@)),
        BlockExprNode::Strikethrough(t) => BlockExprNodeView::Strikethrough(bet_view(t@)),
        BlockExprNode::NonbreakingSpace(t) => BlockExprNodeView::NonbreakingSpace(bet_view(t@)),
        BlockExprNode::Code(s) => BlockExprNodeView::Code(s@),
        BlockExprNode::Link(target, None) => BlockExprNodeView::Link(target@, None),
        BlockExprNode::Link(target, Some(t)) => BlockExprNodeView::Link(target@, Some(bet_view(t@))),
        BlockExprNode::Linespace => BlockExprNodeView::Linespace,
        BlockExprNode::HeaderRouting(r) => BlockExprNodeView::HeaderRouting(r@),
    }
}

/// Spec model of an inline expression tree, element by element.
pub open spec fn bet_view(s: Seq<BlockExprNode>) -> Seq<BlockExprNodeView>
    decreases s,
{
    if s.len() == 0 {
        Seq::empty()
    } else {
        seq![ben_view(s[0])] + bet_view(s.drop_first())
    }
}

impl View for BlockExprNode {
    type V = BlockExprNodeView;

    open spec fn view(&self) -> BlockExprNodeView {
        ben_view(*self)
    }
}

impl View for AstNode {
    type V = AstNodeView;

    open spec fn view(&self) -> AstNodeView {
        match self {
            AstNode::SourceBlock { language, code } => AstNodeView::SourceBlock {
                language: language@,
                code: code@,
            },
            AstNode::Directive(d) => AstNodeView::Directive(d@),
            AstNode::Heading { level, title, children, routing } => AstNodeView::Heading {
                level: *level,
                title: bet_view(title@),
                children: children@,
                routing: match routing {
                    Some(r) => Some(r@),
                    None => None,
                },
            },
            AstNode::Block(bt, t) => AstNodeView::Block(*bt, bet_view(t@)),
            AstNode::HorizRule => AstNodeView::HorizRule,
        }
    }
}

impl Clone for Route {
    /// Structural copy; the clone models to the same route.
    fn clone(&self) -> (r: Route)
        ensures
            r == self,
    {
        match self {
            Route::Page(name) => Route::Page(name.clone()),
            Route::Section(anchor) => Route::Section(anchor.clone()),
            Route::RenderGroup(g) => Route::RenderGroup(*g),
        }
    }
}

impl BlockExprNode {
    /// Returns `true` exactly when the node is a literal `Char`.
    pub fn is_char(&self) -> (b: bool)
        ensures
            b == (self@ is Char),
    {
        matches!(self, BlockExprNode::Char(..))
    }
}

} // verus!
