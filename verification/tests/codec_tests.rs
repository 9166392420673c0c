use orgish::ast::{BlockExprNode, BlockType, Directive, LinkTarget, RenderGroup, Route};
use orgish::codec::{
    decode_bet, decode_block_type, decode_directive, decode_link_target, decode_render_group,
    decode_route, encode_bet, encode_block_type, encode_directive, encode_link_target,
    encode_render_group, encode_route,
};

#[test]
fn route_round_trips() {
    let values = vec![
        Route::Page(String::from("index")),
        Route::Section(String::from("how")),
        Route::RenderGroup(RenderGroup::Nav),
    ];
    for v in values {
        let bytes = encode_route(&v);
        assert_eq!(decode_route(&bytes), Some(v));
    }
}

#[test]
fn link_target_round_trips() {
    let values = vec![
        LinkTarget::Heading { title: String::from("Intro") },
        LinkTarget::External(String::from("https://example.org/a?b=c")),
    ];
    for v in values {
        let bytes = encode_link_target(&v);
        assert_eq!(decode_link_target(&bytes), Some(v));
    }
}

#[test]
fn directive_round_trips() {
    let values = vec![
        Directive::Id(String::from("sec-1")),
        Directive::Title(String::from("A title with spaces")),
        Directive::Raw(String::from("key"), String::from("value")),
        Directive::Raw(String::new(), String::new()),
    ];
    for v in values {
        let bytes = encode_directive(&v);
        assert_eq!(decode_directive(&bytes), Some(v));
    }
}

#[test]
fn block_type_round_trips() {
    for v in vec![BlockType::Block, BlockType::Inline] {
        let bytes = encode_block_type(&v);
        assert_eq!(decode_block_type(&bytes), Some(v));
    }
}

#[test]
fn render_group_round_trips() {
    let bytes = encode_render_group(&RenderGroup::Nav);
    assert_eq!(decode_render_group(&bytes), Some(RenderGroup::Nav));
    assert_eq!(decode_render_group(&vec![7u8]), None);
}

#[test]
fn empty_tree_round_trips() {
    let t: Vec<BlockExprNode> = vec![];
    let bytes = encode_bet(&t);
    assert_eq!(decode_bet(&bytes), Some(vec![]));
}

#[test]
fn char_tree_round_trips() {
    let t = vec![
        BlockExprNode::Char('H'),
        BlockExprNode::Char('é'),
        BlockExprNode::Char('漢'),
    ];
    let bytes = encode_bet(&t);
    assert_eq!(decode_bet(&bytes), Some(t));
}

#[test]
fn nested_tree_round_trips() {
    let t = vec![
        BlockExprNode::Char('a'),
        BlockExprNode::Bold(vec![
            BlockExprNode::Italic(vec![BlockExprNode::Char('b')]),
            BlockExprNode::Linespace,
        ]),
        BlockExprNode::Underline(vec![]),
        BlockExprNode::Strikethrough(vec![BlockExprNode::Char('c')]),
        BlockExprNode::NonbreakingSpace(vec![BlockExprNode::Char(' ')]),
        BlockExprNode::Code(String::from("fn main() {}")),
        BlockExprNode::Link(
            LinkTarget::Heading { title: String::from("Intro") },
            Some(vec![BlockExprNode::Char('l')]),
        ),
        BlockExprNode::Link(LinkTarget::External(String::from("https://x.y")), None),
        BlockExprNode::HeaderRouting(Route::RenderGroup(RenderGroup::Nav)),
    ];
    let bytes = encode_bet(&t);
    assert_eq!(decode_bet(&bytes), Some(t));
}

#[test]
fn truncated_bytes_do_not_decode() {
    let t = vec![BlockExprNode::Char('a'), BlockExprNode::Char('b')];
    let mut bytes = encode_bet(&t);
    bytes.pop();
    assert_eq!(decode_bet(&bytes), None);
    assert_eq!(decode_bet(&vec![]), None);
}

#[test]
fn unknown_tag_does_not_decode() {
    let bytes = vec![255u8];
    assert_eq!(decode_route(&bytes), None);
    assert_eq!(decode_link_target(&bytes), None);
    assert_eq!(decode_directive(&bytes), None);
    assert_eq!(decode_block_type(&bytes), None);
}

#[test]
fn trailing_bytes_do_not_decode() {
    let v = Route::Page(String::from("p"));
    let mut bytes = encode_route(&v);
    bytes.push(0u8);
    assert_eq!(decode_route(&bytes), None);
}
