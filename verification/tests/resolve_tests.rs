use orgish::ast::{AstNode, BlockExprNode, Directive, RenderGroup, Route};
use orgish::directive::{resolve_directive, resolve_directives};
use orgish::error::ResolveError;
use orgish::routing::resolve_routing;

#[test]
fn raw_id_resolves_to_id() {
    let d = Directive::Raw(String::from("id"), String::from("sec-1"));
    assert_eq!(resolve_directive(d), Ok(Directive::Id(String::from("sec-1"))));
}

#[test]
fn raw_title_resolves_to_title() {
    let d = Directive::Raw(String::from("title"), String::from("My Doc"));
    assert_eq!(
        resolve_directive(d),
        Ok(Directive::Title(String::from("My Doc")))
    );
}

#[test]
fn raw_unknown_key_is_rejected() {
    let d = Directive::Raw(String::from("bogus"), String::from("x"));
    assert_eq!(
        resolve_directive(d),
        Err(ResolveError::UnknownDirective(String::from("bogus")))
    );
}

#[test]
fn typed_directive_stays_as_it_is() {
    let d = Directive::Id(String::from("kept"));
    assert_eq!(resolve_directive(d), Ok(Directive::Id(String::from("kept"))));
}

#[test]
fn rejected_directive_leaves_siblings_resolved() {
    let ds = vec![
        Directive::Raw(String::from("id"), String::from("a")),
        Directive::Raw(String::from("bogus"), String::from("x")),
        Directive::Raw(String::from("title"), String::from("b")),
    ];
    let rs = resolve_directives(ds);
    assert_eq!(rs.len(), 3);
    assert_eq!(rs[0], Ok(Directive::Id(String::from("a"))));
    assert_eq!(
        rs[1],
        Err(ResolveError::UnknownDirective(String::from("bogus")))
    );
    assert_eq!(rs[2], Ok(Directive::Title(String::from("b"))));
}

#[test]
fn render_group_from_name_nav() {
    assert_eq!(RenderGroup::from_name("nav"), Ok(RenderGroup::Nav));
}

#[test]
fn render_group_from_unknown_name_is_rejected() {
    assert_eq!(
        RenderGroup::from_name("sidebar"),
        Err(ResolveError::UnknownRenderGroup(String::from("sidebar")))
    );
}

#[test]
fn routing_structural_only_resolves() {
    let title = vec![BlockExprNode::Char('t')];
    let structural = Some(Route::Page(String::from("index")));
    assert_eq!(
        resolve_routing(&structural, &title),
        Ok(Some(Route::Page(String::from("index"))))
    );
}

#[test]
fn routing_inline_only_resolves() {
    let title = vec![
        BlockExprNode::Char('t'),
        BlockExprNode::HeaderRouting(Route::Section(String::from("how"))),
    ];
    assert_eq!(
        resolve_routing(&None, &title),
        Ok(Some(Route::Section(String::from("how"))))
    );
}

#[test]
fn routing_absent_resolves_to_none() {
    let title = vec![BlockExprNode::Char('t')];
    assert_eq!(resolve_routing(&None, &title), Ok(None));
}

#[test]
fn routing_given_both_ways_is_ambiguous() {
    let title = vec![BlockExprNode::HeaderRouting(Route::Section(String::from(
        "how",
    )))];
    let structural = Some(Route::Page(String::from("index")));
    assert_eq!(
        resolve_routing(&structural, &title),
        Err(ResolveError::AmbiguousRouting)
    );
}

#[test]
fn routing_two_inline_markers_is_ambiguous() {
    let title = vec![
        BlockExprNode::HeaderRouting(Route::Page(String::from("a"))),
        BlockExprNode::HeaderRouting(Route::Page(String::from("b"))),
    ];
    assert_eq!(
        resolve_routing(&None, &title),
        Err(ResolveError::AmbiguousRouting)
    );
}

#[test]
fn heading_routing_reports_double_specification() {
    let h = AstNode::Heading {
        level: 1,
        title: vec![BlockExprNode::HeaderRouting(Route::Section(String::from("s")))],
        children: vec![],
        routing: Some(Route::Page(String::from("p"))),
    };
    assert_eq!(h.heading_routing(), Err(ResolveError::AmbiguousRouting));
}

#[test]
fn heading_routing_resolves_single_route() {
    let h = AstNode::Heading {
        level: 2,
        title: vec![BlockExprNode::Char('t')],
        children: vec![],
        routing: Some(Route::Section(String::from("s"))),
    };
    assert_eq!(h.heading_routing(), Ok(Some(Route::Section(String::from("s")))));
    assert_eq!(AstNode::HorizRule.heading_routing(), Ok(None));
}
