//! The routing taxonomy: constructing render groups from their closed set of
//! names, and resolving a heading's route from its structural field and its
//! inline markers. A route given both ways is a document inconsistency and is
//! reported, never silently overridden.

use vstd::prelude::*;
use crate::ast::{AstNode, BlockExprNode, BlockExprTree, RenderGroup, Route};
use crate::error::{ResolveError, ResolveErrorView};

verus! {

impl RenderGroup {
    /// Constructs a render group from its name; the set is closed, so any
    /// name but `"nav"` is rejected as `UnknownRenderGroup`.
    pub fn from_name(name: &str) -> (r: Result<RenderGroup, ResolveError>)
        ensures
            name@ == "nav"@ ==> r == Ok::<RenderGroup, ResolveError>(RenderGroup::Nav),
            name@ != "nav"@ ==> (r matches Err(e) && e@ == ResolveErrorView::UnknownRenderGroup(
                name@,
            )),
    {
        let nav_name = "nav".to_owned();
        if name.to_owned() == nav_name {
            Ok(RenderGroup::Nav)
        } else {
            Err(ResolveError::UnknownRenderGroup(name.to_owned()))
        }
    }
}

/// The routes carried by inline `HeaderRouting` markers at the top level of
/// an inline expression tree, in document order.
pub open spec fn inline_routes(s: Seq<BlockExprNode>) -> Seq<Route>
    decreases s.len(),
{
    if s.len() == 0 {
        Seq::empty()
    } else {
        inline_routes(s.drop_last()) + match s.last() {
            BlockExprNode::HeaderRouting(rt) => seq![rt],
            _ => Seq::empty(),
        }
    }
}

/// What resolving a heading's route must return, given the structural field
/// and the title's inline markers: the one route given, `None` for none, and
/// `AmbiguousRouting` as soon as a second way of giving one appears.
pub open spec fn routing_outcome_ok(
    structural: Option<Route>,
    title: Seq<BlockExprNode>,
    r: Result<Option<Route>, ResolveError>,
) -> bool {
    let inl = inline_routes(title);
    &&& (structural is Some && inl.len() > 0) || inl.len() > 1 ==> r == Err::<
        Option<Route>,
        ResolveError,
    >(ResolveError::AmbiguousRouting)
    &&& structural matches Some(rt) ==> inl.len() == 0 ==> r == Ok::<
        Option<Route>,
        ResolveError,
    >(Some(rt))
    &&& structural is None && inl.len() == 1 ==> r == Ok::<Option<Route>, ResolveError>(
        Some(inl[0]),
    )
    &&& structural is None && inl.len() == 0 ==> r == Ok::<Option<Route>, ResolveError>(None)
}

/// Resolves the one route of a heading from its structural `routing` field
/// and the inline markers in its title. At most one route may be given:
/// a structural route beside any inline marker, or more than one inline
/// marker, is reported as `AmbiguousRouting`.
pub fn resolve_routing(structural: &Option<Route>, title: &BlockExprTree) -> (r: Result<
    Option<Route>,
    ResolveError,
>)
    ensures
        routing_outcome_ok(*structural, title@, r),
{
    let mut count: usize = 0;
    let mut found: Option<&Route> = None;
    let mut i: usize = 0;
    while i < title.len()
        invariant
            i <= title@.len(),
            count <= i,
            count == inline_routes(title@.take(i as int)).len(),
            count > 0 ==> (found matches Some(f) && *f == inline_routes(title@.take(i as int))[0]),
        decreases title@.len() - i,
    {
        proof {
            assert(title@.take(i + 1).drop_last() =~= title@.take(i as int));
            assert(title@.take(i + 1).last() == title@[i as int]);
        }
        match &title[i] {
            BlockExprNode::HeaderRouting(rt) => {
                if count == 0 {
                    found = Some(rt);
                }
                count = count + 1;
            },
            _ => {},
        }
        i = i + 1;
    }
    proof {
        assert(title@.take(title@.len() as int) =~= title@);
    }
    match (structural, count) {
        (Some(_), c) if c > 0 => Err(ResolveError::AmbiguousRouting),
        (Some(rt), _) => Ok(Some(rt.clone())),
        (None, 0) => Ok(None),
        (None, 1) => match found {
            Some(rt) => Ok(Some(rt.clone())),
            None => Err(ResolveError::AmbiguousRouting),
        },
        (None, _) => Err(ResolveError::AmbiguousRouting),
    }
}

impl AstNode {
    /// The one route of this node: a heading resolves its structural field
    /// against its inline markers, and every other node kind has none.
    pub fn heading_routing(&self) -> (r: Result<Option<Route>, ResolveError>)
        ensures
            match *self {
                AstNode::Heading { title, routing, .. } => routing_outcome_ok(
                    routing,
                    title@,
                    r,
                ),
                _ => r == Ok::<Option<Route>, ResolveError>(None),
            },
    {
        match self {
            AstNode::Heading { title, routing, .. } => resolve_routing(routing, title),
            _ => Ok(None),
        }
    }
}

} // verus!
