use orgish::ast::{BlockExprNode, BlockType, LinkTarget, Route};
use orgish::ast::AstNode;
use orgish::stringify::stringify_bet;

#[test]
fn stringify_shallow_skips_nested_formatting() {
    let bet = vec![
        BlockExprNode::Char('H'),
        BlockExprNode::Bold(vec![BlockExprNode::Char('i')]),
        BlockExprNode::Char('!'),
    ];
    assert_eq!(stringify_bet(&bet), "H!");
}

#[test]
fn stringify_empty_tree() {
    let bet: Vec<BlockExprNode> = vec![];
    assert_eq!(stringify_bet(&bet), "");
}

#[test]
fn stringify_plain_chars_in_order() {
    let bet = vec![
        BlockExprNode::Char('a'),
        BlockExprNode::Char('b'),
        BlockExprNode::Char('c'),
    ];
    assert_eq!(stringify_bet(&bet), "abc");
}

#[test]
fn stringify_ignores_code_links_and_breaks() {
    let bet = vec![
        BlockExprNode::Code(String::from("let x = 1;")),
        BlockExprNode::Char('x'),
        BlockExprNode::Link(
            LinkTarget::External(String::from("https://example.org")),
            None,
        ),
        BlockExprNode::Linespace,
        BlockExprNode::HeaderRouting(Route::Page(String::from("index"))),
        BlockExprNode::Char('y'),
    ];
    assert_eq!(stringify_bet(&bet), "xy");
}

#[test]
fn is_char_true_only_for_char() {
    assert!(BlockExprNode::Char('q').is_char());
    assert!(!BlockExprNode::Linespace.is_char());
    assert!(!BlockExprNode::Bold(vec![BlockExprNode::Char('q')]).is_char());
}

#[test]
fn node_shallow_text() {
    assert_eq!(BlockExprNode::Char('z').shallow_text(), "z");
    assert_eq!(BlockExprNode::Code(String::from("zz")).shallow_text(), "");
}

#[test]
fn ast_node_shallow_text() {
    let block = AstNode::Block(
        BlockType::Block,
        vec![BlockExprNode::Char('o'), BlockExprNode::Char('k')],
    );
    assert_eq!(block.shallow_text(), "ok");
    assert_eq!(AstNode::HorizRule.shallow_text(), "");
}
