//! Shallow stringification: flattening an inline expression tree back to the
//! plain text carried directly by its `Char` nodes.

use vstd::prelude::*;
use crate::ast::{AstNode, BlockExprNode, BlockExprTree};

verus! {

/// The characters a single node contributes to shallow stringification: the
/// payload of a `Char` node, nothing for every other kind.
pub open spec fn node_chars(n: BlockExprNode) -> Seq<char> {
    match n {
        BlockExprNode::Char(c) => seq![c],
        _ => Seq::empty(),
    }
}

/// The concatenation of the literal `Char` payloads at the top level of a
/// tree, in document order; nested formatting, links and breaks contribute
/// zero characters.
pub open spec fn shallow_chars(s: Seq<BlockExprNode>) -> Seq<char>
    decreases s.len(),
{
    if s.len() == 0 {
        Seq::empty()
    } else {
        shallow_chars(s.drop_last()) + node_chars(s.last())
    }
}

/// Relies on `String::push`: appends the given character to the end of the
/// string.
#[verifier::external_body]
pub(crate) fn push_char(buf: &mut String, c: char)
    ensures
        final(buf)@ == old(buf)@.push(c),
{
    buf.push(c);
}

/// Flattens an inline expression tree to the plain text directly in it: the
/// literal characters of its top-level `Char` nodes, in order, and nothing
/// else.
pub fn stringify_bet(bet: &BlockExprTree) -> (r: String)
    ensures
        r@ == shallow_chars(bet@),
{
    let mut buf = String::new();
    let mut i: usize = 0;
    while i < bet.len()
        invariant
            i <= bet@.len(),
            buf@ == shallow_chars(bet@.take(i as int)),
        decreases bet@.len() - i,
    {
        proof {
            assert(bet@.take(i + 1).drop_last() =~= bet@.take(i as int));
            assert(bet@.take(i + 1).last() == bet@[i as int]);
        }
        match &bet[i] {
            BlockExprNode::Char(c) => {
                push_char(&mut buf, *c);
                proof {
                    assert(buf@ =~= shallow_chars(bet@.take(i as int)) + node_chars(bet@[i as int]));
                }
            },
            _ => {
                proof {
                    assert(buf@ =~= shallow_chars(bet@.take(i as int)) + node_chars(bet@[i as int]));
                }
            },
        }
        i = i + 1;
    }
    proof {
        assert(bet@.take(bet@.len() as int) =~= bet@);
    }
    buf
}

impl BlockExprNode {
    /// The plain text this single node shows at the top level of a tree.
    pub fn shallow_text(&self) -> (r: String)
        ensures
            r@ == node_chars(*self),
    {
        let mut buf = String::new();
        match self {
            BlockExprNode::Char(c) => {
                push_char(&mut buf, *c);
                proof {
                    assert(buf@ =~= node_chars(*self));
                }
            },
            _ => {},
        }
        buf
    }
}

impl AstNode {
    /// The plain text a top-level unit shows: the shallow stringification of
    /// a generic block's content, nothing for every other kind.
    pub fn shallow_text(&self) -> (r: String)
        ensures
            r@ == match *self {
                AstNode::Block(_, t) => shallow_chars(t@),
                _ => Seq::<char>::empty(),
            },
    {
        match self {
            AstNode::Block(_, t) => stringify_bet(t),
            _ => String::new(),
        }
    }
}

} // verus!
