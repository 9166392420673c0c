//! The directive resolution pass: promoting an untyped `Raw` directive to its
//! typed form, or rejecting its key. Each directive resolves on its own, so a
//! rejected key leaves sibling directives unaffected.

use vstd::prelude::*;
use crate::ast::{Directive, DirectiveView};
use crate::error::{ResolveError, ResolveErrorView};

verus! {

/// What resolution does to one directive: `Raw("id", v)` becomes `Id(v)`,
/// `Raw("title", v)` becomes `Title(v)`, any other `Raw` key is rejected as
/// `UnknownDirective`, and an already typed directive stays as it is.
pub open spec fn spec_resolve_directive(d: DirectiveView) -> Result<DirectiveView, ResolveErrorView> {
    match d {
        DirectiveView::Raw(key, value) => if key == "id"@ {
            Ok(DirectiveView::Id(value))
        } else if key == "title"@ {
            Ok(DirectiveView::Title(value))
        } else {
            Err(ResolveErrorView::UnknownDirective(key))
        },
        typed => Ok(typed),
    }
}

/// Resolves one directive, exactly as [`spec_resolve_directive`] says.
pub fn resolve_directive(d: Directive) -> (r: Result<Directive, ResolveError>)
    ensures
        match r {
            Ok(t) => spec_resolve_directive(d@) == Ok::<DirectiveView, ResolveErrorView>(t@),
            Err(e) => spec_resolve_directive(d@) == Err::<DirectiveView, ResolveErrorView>(e@),
        },
{
    match d {
        Directive::Raw(key, value) => {
            let id_name = "id".to_owned();
            let title_name = "title".to_owned();
            if key == id_name {
                Ok(Directive::Id(value))
            } else if key == title_name {
                Ok(Directive::Title(value))
            } else {
                Err(ResolveError::UnknownDirective(key))
            }
        },
        typed => Ok(typed),
    }
}

/// Resolves a document-order sequence of directives, each exactly once; a
/// rejected directive does not disturb its siblings.
pub fn resolve_directives(ds: Vec<Directive>) -> (r: Vec<Result<Directive, ResolveError>>)
    ensures
        r@.len() == ds@.len(),
        forall|i: int| 0 <= i < ds@.len() ==> match #[trigger] r@[i] {
            Ok(t) => spec_resolve_directive(ds@[i]@) == Ok::<DirectiveView, ResolveErrorView>(t@),
            Err(e) => spec_resolve_directive(ds@[i]@) == Err::<DirectiveView, ResolveErrorView>(e@),
        },
{
    let mut out: Vec<Result<Directive, ResolveError>> = Vec::new();
    let mut rest = ds;
    let ghost all = rest@;
    while rest.len() > 0
        invariant
            out@.len() + rest@.len() == all.len(),
            rest@ =~= all.skip(out@.len() as int),
            forall|i: int| 0 <= i < out@.len() ==> match #[trigger] out@[i] {
                Ok(t) => spec_resolve_directive(all[i]@) == Ok::<DirectiveView, ResolveErrorView>(t@),
                Err(e) => spec_resolve_directive(all[i]@) == Err::<DirectiveView, ResolveErrorView>(e@),
            },
        decreases rest@.len(),
    {
        let ghost k = out@.len() as int;
        let d = rest.remove(0);
        proof {
            assert(d == all[k]);
            assert(rest@ =~= all.skip(k + 1));
        }
        out.push(resolve_directive(d));
    }
    out
}

} // verus!
