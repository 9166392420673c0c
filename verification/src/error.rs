//! Error conditions surfaced by directive resolution and routing resolution.
//! Each is recoverable at the node it concerns; the rest of the tree stays
//! usable.

use vstd::prelude::*;

verus! {

/// A condition reported during resolution.
#[derive(Debug, PartialEq)]
pub enum ResolveError {
    /// A `Raw` directive's key is not a known directive name.
    UnknownDirective(String),
    /// A heading carries routing both structurally and inline.
    AmbiguousRouting,
    /// A route names a render group outside the closed set.
    UnknownRenderGroup(String),
}

/// Spec model of a [`ResolveError`].
pub enum ResolveErrorView {
    UnknownDirective(Seq<char>),
    AmbiguousRouting,
    UnknownRenderGroup(Seq<char>),
}

impl View for ResolveError {
    type V = ResolveErrorView;

    open spec fn view(&self) -> ResolveErrorView {
        match self {
            ResolveError::UnknownDirective(key) => ResolveErrorView::UnknownDirective(key@),
            ResolveError::AmbiguousRouting => ResolveErrorView::AmbiguousRouting,
            ResolveError::UnknownRenderGroup(name) => ResolveErrorView::UnknownRenderGroup(name@),
        }
    }
}

} // verus!
