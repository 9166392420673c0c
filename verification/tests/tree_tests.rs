use orgish::ast::{AstNode, BlockExprNode, BlockType, RenderGroup, Route};
use orgish::tree::BackreferencedAst;

fn heading(level: u16, title_char: char, routing: Option<Route>) -> AstNode {
    AstNode::Heading {
        level,
        title: vec![BlockExprNode::Char(title_char)],
        children: vec![],
        routing,
    }
}

fn children_of_node(doc: &BackreferencedAst, id: usize) -> Vec<usize> {
    match doc.node(id).inner() {
        AstNode::Heading { children, .. } => children.clone(),
        _ => vec![],
    }
}

#[test]
fn top_level_node_has_no_parent() {
    let mut doc = BackreferencedAst::new();
    let id = doc.push_top_level(AstNode::HorizRule);
    assert_eq!(doc.parent_of(id), None);
    assert_eq!(doc.len(), 1);
}

#[test]
fn child_parent_reference_resolves_to_owner() {
    let mut doc = BackreferencedAst::new();
    let h1 = doc.push_top_level(heading(1, 'a', Some(Route::Page(String::from("index")))));
    let h2 = doc.attach_child(h1, heading(2, 'b', Some(Route::RenderGroup(RenderGroup::Nav))));
    // resolving the child's parent reference yields the level-1 heading
    assert_eq!(doc.parent_of(h2), Some(h1));
    assert_eq!(doc.parent_of(h1), None);
    assert_eq!(children_of_node(&doc, h1), vec![h2]);
    match doc.node(h1).inner() {
        AstNode::Heading { level, routing, .. } => {
            assert_eq!(*level, 1);
            assert_eq!(*routing, Some(Route::Page(String::from("index"))));
        },
        other => panic!("expected a heading, got {:?}", other),
    }
}

#[test]
fn every_attached_child_points_back() {
    let mut doc = BackreferencedAst::new();
    let h = doc.push_top_level(heading(1, 'h', None));
    let c1 = doc.attach_child(
        h,
        AstNode::Block(BlockType::Block, vec![BlockExprNode::Char('x')]),
    );
    let c2 = doc.attach_child(h, AstNode::HorizRule);
    for c in children_of_node(&doc, h) {
        assert_eq!(doc.parent_of(c), Some(h));
    }
    assert_eq!(children_of_node(&doc, h), vec![c1, c2]);
}

#[test]
fn reparent_moves_reference_to_new_owner_only() {
    let mut doc = BackreferencedAst::new();
    let h1 = doc.push_top_level(heading(1, 'a', None));
    let h2 = doc.push_top_level(heading(1, 'b', None));
    let c = doc.attach_child(h1, AstNode::HorizRule);
    assert_eq!(doc.parent_of(c), Some(h1));
    doc.reparent(c, h2);
    // the reference resolves to the new owner, never to both or to neither
    assert_eq!(doc.parent_of(c), Some(h2));
    assert!(!children_of_node(&doc, h1).contains(&c));
    assert!(children_of_node(&doc, h2).contains(&c));
}

#[test]
fn reparent_from_top_level_attaches() {
    let mut doc = BackreferencedAst::new();
    let h = doc.push_top_level(heading(1, 'a', None));
    let c = doc.push_top_level(AstNode::HorizRule);
    assert_eq!(doc.parent_of(c), None);
    doc.reparent(c, h);
    assert_eq!(doc.parent_of(c), Some(h));
    assert_eq!(children_of_node(&doc, h), vec![c]);
}
