//! The heading and back-reference scheme. Nodes live in an arena owned by
//! [`BackreferencedAst`]; a heading owns its children as an ordered list of
//! arena identifiers, and every node carries a non-owning reference to its
//! parent heading as the parent's identifier — `None` marks a top-level node.
//! Identifiers only grow (a parent always precedes its children), so the
//! structure is cycle-free by construction.

use vstd::prelude::*;
use crate::ast::{AstNode, AstNodeView, NodeId};

verus! {

/// A block node placed in the arena, together with its non-owning parent
/// back-reference.
#[derive(Debug)]
pub struct NestedAstNode {
    parent: Option<NodeId>,
    inner: AstNode,
}

/// Spec model of a [`NestedAstNode`].
pub struct NestedAstNodeView {
    pub parent: Option<NodeId>,
    pub inner: AstNodeView,
}

impl View for NestedAstNode {
    type V = NestedAstNodeView;

    closed spec fn view(&self) -> NestedAstNodeView {
        NestedAstNodeView { parent: self.parent, inner: self.inner@ }
    }
}

impl NestedAstNode {
    /// The parent back-reference: `None` for a top-level node. O(1).
    pub fn parent(&self) -> (p: Option<NodeId>)
        ensures
            p == self@.parent,
    {
        self.parent
    }

    /// The block node itself.
    pub fn inner(&self) -> (n: &AstNode)
        ensures
            n@ == self@.inner,
    {
        &self.inner
    }
}

/// The ordered children list of the node at `h`: a heading's `children`
/// field, and empty for every other node kind.
pub open spec fn children_of(s: Seq<NestedAstNodeView>, h: int) -> Seq<NodeId> {
    match s[h].inner {
        AstNodeView::Heading { children, .. } => children,
        _ => Seq::empty(),
    }
}

/// Whether the node at `h` is a heading.
pub open spec fn is_heading(s: Seq<NestedAstNodeView>, h: int) -> bool {
    s[h].inner is Heading
}

/// The node at `c` points only backwards: its parent, if any, is an earlier
/// heading whose children list owns `c`.
pub open spec fn parent_edge_ok(s: Seq<NestedAstNodeView>, c: int) -> bool {
    match s[c].parent {
        Some(p) => p < c && is_heading(s, p as int) && children_of(s, p as int).contains(
            c as NodeId,
        ),
        None => true,
    }
}

/// Every child listed under `h` is a later node of the arena whose parent
/// reference resolves back to `h`.
pub open spec fn children_edges_ok(s: Seq<NestedAstNodeView>, h: int) -> bool {
    forall|k: int| 0 <= k < children_of(s, h).len() ==> {
        let c = #[trigger] children_of(s, h)[k];
        h < c < s.len() && s[c as int].parent == Some(h as NodeId)
    }
}

/// A heading lists each child at most once.
pub open spec fn children_distinct(s: Seq<NestedAstNodeView>, h: int) -> bool {
    forall|k1: int, k2: int|
        0 <= k1 < k2 < children_of(s, h).len() ==> children_of(s, h)[k1] != children_of(s, h)[k2]
}

/// Well-formedness of the whole arena.
pub open spec fn wf_nodes(s: Seq<NestedAstNodeView>) -> bool {
    forall|i: int|
        0 <= i < s.len() ==> parent_edge_ok(s, i) && children_edges_ok(s, i) && children_distinct(
            s,
            i,
        )
}

/// A node about to enter the arena: a heading starts with no children —
/// children are attached afterwards, which is what keeps ownership and
/// back-references in step.
pub open spec fn fresh_node_ok(n: AstNodeView) -> bool {
    n matches AstNodeView::Heading { children, .. } ==> children.len() == 0
}

/// The same block node with its children list replaced (the identity on
/// every non-heading node).
pub open spec fn with_children(n: AstNodeView, cs: Seq<NodeId>) -> AstNodeView {
    match n {
        AstNodeView::Heading { level, title, routing, .. } => AstNodeView::Heading {
            level,
            title,
            children: cs,
            routing,
        },
        other => other,
    }
}

/// A document tree with parent back-references: the arena that owns every
/// node, in insertion order.
#[derive(Debug)]
pub struct BackreferencedAst {
    nodes: Vec<NestedAstNode>,
}

impl View for BackreferencedAst {
    type V = Seq<NestedAstNodeView>;

    closed spec fn view(&self) -> Seq<NestedAstNodeView> {
        Seq::new(self.nodes@.len(), |i: int| self.nodes@[i]@)
    }
}

impl BackreferencedAst {
    /// Well-formedness: ownership and back-references agree everywhere.
    pub open spec fn wf(&self) -> bool {
        wf_nodes(self@)
    }

    /// An empty arena.
    pub fn new() -> (d: Self)
        ensures
            d.wf(),
            d@.len() == 0,
    {
        let d = BackreferencedAst { nodes: Vec::new() };
        proof {
            assert(d@ =~= Seq::<NestedAstNodeView>::empty());
        }
        d
    }

    /// How many nodes the arena holds.
    pub fn len(&self) -> (n: usize)
        ensures
            n == self@.len(),
    {
        self.nodes.len()
    }

    /// The node with identifier `id`.
    pub fn node(&self, id: NodeId) -> (n: &NestedAstNode)
        requires
            id < self@.len(),
        ensures
            n@ == self@[id as int],
    {
        &self.nodes[id]
    }

    /// The parent back-reference of the node `id`: `None` exactly for a
    /// top-level node. O(1).
    pub fn parent_of(&self, id: NodeId) -> (p: Option<NodeId>)
        requires
            id < self@.len(),
        ensures
            p == self@[id as int].parent,
    {
        self.nodes[id].parent()
    }

    /// Places a node at top level: it enters the arena with no parent
    /// reference.
    pub fn push_top_level(&mut self, node: AstNode) -> (id: NodeId)
        requires
            old(self).wf(),
            fresh_node_ok(node@),
        ensures
            final(self).wf(),
            id == old(self)@.len(),
            final(self)@.len() == old(self)@.len() + 1,
            final(self)@[id as int].parent is None,
            final(self)@[id as int].inner == node@,
            forall|i: int| 0 <= i < old(self)@.len() ==> final(self)@[i] == old(self)@[i],
    {
        let ghost s0 = self@;
        let id = self.nodes.len();
        self.nodes.push(NestedAstNode { parent: None, inner: node });
        proof {
            let s1 = self@;
            assert(s1 =~= s0.push(NestedAstNodeView { parent: None, inner: node@ }));
            assert forall|i: int|
                0 <= i < s1.len() implies parent_edge_ok(s1, i) && children_edges_ok(s1, i)
                && children_distinct(s1, i) by {
                if i < s0.len() {
                    assert(parent_edge_ok(s0, i));
                    assert(children_edges_ok(s0, i));
                    assert(children_distinct(s0, i));
                    assert(children_of(s1, i) == children_of(s0, i));
                    match s1[i].parent {
                        Some(p) => {
                            assert(children_of(s1, p as int) == children_of(s0, p as int));
                        },
                        None => {},
                    }
                } else {
                    assert(children_of(s1, i).len() == 0);
                }
            }
        }
        id
    }

    /// Attaches a node under the heading `parent`: ownership (a new entry at
    /// the end of the heading's children list) and the back-reference (the
    /// child's parent field) are established together.
    pub fn attach_child(&mut self, parent: NodeId, node: AstNode) -> (id: NodeId)
        requires
            old(self).wf(),
            parent < old(self)@.len(),
            is_heading(old(self)@, parent as int),
            fresh_node_ok(node@),
        ensures
            final(self).wf(),
            id == old(self)@.len(),
            final(self)@.len() == old(self)@.len() + 1,
            final(self)@[id as int].parent == Some(parent),
            final(self)@[id as int].inner == node@,
            children_of(final(self)@, parent as int) == children_of(
                old(self)@,
                parent as int,
            ).push(id),
            final(self)@[parent as int].parent == old(self)@[parent as int].parent,
            final(self)@[parent as int].inner == with_children(
                old(self)@[parent as int].inner,
                children_of(old(self)@, parent as int).push(id),
            ),
            forall|i: int|
                0 <= i < old(self)@.len() && i != parent ==> final(self)@[i] == old(self)@[i],
    {
        let ghost s0 = self@;
        let id = self.nodes.len();
        self.nodes.push(NestedAstNode { parent: Some(parent), inner: node });
        let mut tmp = NestedAstNode { parent: None, inner: AstNode::HorizRule };
        core::mem::swap(&mut tmp, &mut self.nodes[parent]);
        let NestedAstNode { parent: pparent, inner: pinner } = tmp;
        let new_inner = match pinner {
            AstNode::Heading { level, title, mut children, routing } => {
                children.push(id);
                AstNode::Heading { level, title, children, routing }
            },
            other => other,
        };
        self.nodes[parent] = NestedAstNode { parent: pparent, inner: new_inner };
        proof {
            let s1 = self@;
            let pv = s0[parent as int];
            let cs1 = children_of(s0, parent as int).push(id);
            assert(s1 =~= s0.push(NestedAstNodeView { parent: Some(parent), inner: node@ }).update(
                parent as int,
                NestedAstNodeView { parent: pv.parent, inner: with_children(pv.inner, cs1) },
            ));
            assert(children_of(s1, parent as int) == cs1);
            assert forall|i: int|
                0 <= i < s1.len() implies parent_edge_ok(s1, i) && children_edges_ok(s1, i)
                && children_distinct(s1, i) by {
                // children lists are unchanged everywhere but at `parent`,
                // where the fresh identifier is appended.
                assert forall|h: int|
                    0 <= h < s1.len() && h != parent implies children_of(s1, h) == children_of(
                    s0.push(NestedAstNodeView { parent: Some(parent), inner: node@ }),
                    h,
                ) by {}
                if i == id {
                    assert(parent_edge_ok(s1, i)) by {
                        assert(cs1[cs1.len() - 1] == id);
                        assert(children_of(s1, parent as int).contains(id));
                    }
                    assert(children_of(s1, i).len() == 0);
                } else if i == parent {
                    match s1[i].parent {
                        Some(p) => {
                            assert(parent_edge_ok(s0, i));
                            assert(children_of(s1, p as int) == children_of(s0, p as int));
                        },
                        None => {},
                    }
                    assert(children_edges_ok(s1, i)) by {
                        assert forall|k: int| 0 <= k < cs1.len() implies {
                            let c = #[trigger] cs1[k];
                            i < c < s1.len() && s1[c as int].parent == Some(i as NodeId)
                        } by {
                            if k < cs1.len() - 1 {
                                assert(cs1[k] == children_of(s0, i)[k]);
                                assert(children_edges_ok(s0, i));
                                let c = children_of(s0, i)[k];
                                assert(i < c < s0.len());
                                assert(s1[c as int].parent == s0[c as int].parent);
                            } else {
                                assert(cs1[k] == id);
                            }
                        }
                    }
                    assert(children_distinct(s1, i)) by {
                        assert(children_distinct(s0, i));
                        assert forall|k1: int, k2: int|
                            0 <= k1 < k2 < cs1.len() implies cs1[k1] != cs1[k2] by {
                            if k2 == cs1.len() - 1 {
                                assert(children_edges_ok(s0, i));
                                assert(children_of(s0, i)[k1] < s0.len());
                            } else {
                                assert(cs1[k1] == children_of(s0, i)[k1]);
                                assert(cs1[k2] == children_of(s0, i)[k2]);
                            }
                        }
                    }
                } else {
                    assert(s1[i] == s0[i]);
                    assert(parent_edge_ok(s0, i));
                    assert(children_edges_ok(s0, i));
                    assert(children_distinct(s0, i));
                    assert(children_of(s1, i) == children_of(s0, i));
                    match s1[i].parent {
                        Some(p) => {
                            if p == parent {
                                assert(children_of(s0, parent as int).contains(i as NodeId));
                                let k = choose|k: int|
                                    0 <= k < children_of(s0, parent as int).len() && children_of(
                                        s0,
                                        parent as int,
                                    )[k] == i as NodeId;
                                assert(cs1[k] == i as NodeId);
                                assert(children_of(s1, parent as int).contains(i as NodeId));
                            } else {
                                assert(children_of(s1, p as int) == children_of(s0, p as int));
                            }
                        },
                        None => {},
                    }
                    assert forall|k: int| 0 <= k < children_of(s1, i).len() implies {
                        let c = #[trigger] children_of(s1, i)[k];
                        i < c < s1.len() && s1[c as int].parent == Some(i as NodeId)
                    } by {
                        let c = children_of(s0, i)[k];
                        assert(i < c < s0.len());
                        assert(s1[c as int].parent == s0[c as int].parent);
                    }
                }
            }
        }
        id
    }

    /// Moves a node under a different heading: removal from the old owner's
    /// list, the new back-reference, and the new owner's list entry happen in
    /// one step, so the reference never resolves to both owners or to
    /// neither.
    #[verifier::rlimit(100)]
    #[verifier::spinoff_prover]
    pub fn reparent(&mut self, child: NodeId, new_parent: NodeId)
        requires
            old(self).wf(),
            child < old(self)@.len(),
            new_parent < child,
            is_heading(old(self)@, new_parent as int),
            old(self)@[child as int].parent != Some(new_parent),
        ensures
            final(self).wf(),
            final(self)@.len() == old(self)@.len(),
            final(self)@[child as int].parent == Some(new_parent),
            final(self)@[child as int].inner == old(self)@[child as int].inner,
            children_of(final(self)@, new_parent as int) == children_of(
                old(self)@,
                new_parent as int,
            ).push(child),
            old(self)@[child as int].parent matches Some(op) ==> !children_of(
                final(self)@,
                op as int,
            ).contains(child),
            forall|i: int|
                0 <= i < old(self)@.len() && i != child ==> final(self)@[i].parent == old(
                    self,
                )@[i].parent,
            forall|i: int|
                0 <= i < old(self)@.len() ==> final(self)@[i].inner == with_children(
                    old(self)@[i].inner,
                    children_of(final(self)@, i),
                ),
    {
        let ghost s0 = self@;
        let old_parent = self.nodes[child].parent();
        let ghost removed: Seq<NodeId> = Seq::empty();
        proof {
            assert(parent_edge_ok(s0, child as int));
        }
        match old_parent {
            Some(op) => {
                let mut tmp = NestedAstNode { parent: None, inner: AstNode::HorizRule };
                core::mem::swap(&mut tmp, &mut self.nodes[op]);
                let NestedAstNode { parent: opp, inner: opinner } = tmp;
                let new_inner = match opinner {
                    AstNode::Heading { level, title, mut children, routing } => {
                        proof {
                            assert(children@ == children_of(s0, op as int));
                            assert(children_of(s0, op as int).contains(child));
                        }
                        let mut k: usize = 0;
                        let mut idx: usize = 0;
                        let mut found = false;
                        while k < children.len()
                            invariant
                                k <= children@.len(),
                                found ==> idx < children@.len() && children@[idx as int] == child,
                                !found ==> forall|j: int| 0 <= j < k ==> children@[j] != child,
                            decreases children@.len() - k,
                        {
                            if !found && children[k] == child {
                                idx = k;
                                found = true;
                            }
                            k = k + 1;
                        }
                        proof {
                            if !found {
                                assert(!children@.contains(child));
                                assert(false);
                            }
                        }
                        children.remove(idx);
                        AstNode::Heading { level, title, children, routing }
                    },
                    other => {
                        proof {
                            assert(is_heading(s0, op as int));
                            assert(false);
                        }
                        other
                    },
                };
                self.nodes[op] = NestedAstNode { parent: opp, inner: new_inner };
            },
            None => {},
        }
        let mut tmpc = NestedAstNode { parent: None, inner: AstNode::HorizRule };
        core::mem::swap(&mut tmpc, &mut self.nodes[child]);
        let NestedAstNode { parent: _, inner: child_inner } = tmpc;
        self.nodes[child] = NestedAstNode { parent: Some(new_parent), inner: child_inner };
        let mut tmpp = NestedAstNode { parent: None, inner: AstNode::HorizRule };
        core::mem::swap(&mut tmpp, &mut self.nodes[new_parent]);
        let NestedAstNode { parent: npp, inner: npinner } = tmpp;
        let new_inner2 = match npinner {
            AstNode::Heading { level, title, mut children, routing } => {
                children.push(child);
                AstNode::Heading { level, title, children, routing }
            },
            other => {
                proof {
                    assert(is_heading(s0, new_parent as int));
                    assert(false);
                }
                other
            },
        };
        self.nodes[new_parent] = NestedAstNode { parent: npp, inner: new_inner2 };
        proof {
            vstd::std_specs::vec::axiom_spec_len(&self.nodes);
            let s3 = self@;
            let npv = children_of(s0, new_parent as int).push(child);
            assert(s3.len() == s0.len());
            // the three touched entries, and everything else unchanged
            assert(s3[child as int].parent == Some(new_parent));
            assert(s3[child as int].inner == s0[child as int].inner);
            assert(children_of(s3, new_parent as int) == npv);
            assert(s3[new_parent as int].parent == s0[new_parent as int].parent);
            assert forall|i: int|
                0 <= i < s0.len() && i != child && i != new_parent && s0[child as int].parent
                    != Some(i as NodeId) implies s3[i] == s0[i] by {}
            assert forall|i: int|
                0 <= i < s0.len() && i != child implies s3[i].parent == s0[i].parent by {}
            match s0[child as int].parent {
                Some(op) => {
                    let oc = children_of(s0, op as int);
                    let nc = children_of(s3, op as int);
                    assert(children_distinct(s0, op as int));
                    assert(nc.len() == oc.len() - 1);
                    assert(!nc.contains(child)) by {
                        let k0 = choose|k0: int| 0 <= k0 < oc.len() && oc[k0] == child;
                        if nc.contains(child) {
                            let j = choose|j: int| 0 <= j < nc.len() && nc[j] == child;
                            if j < k0 {
                                assert(nc[j] == oc[j]);
                            } else {
                                assert(nc[j] == oc[j + 1]);
                            }
                        }
                    }
                    assert forall|x: NodeId| x != child implies (nc.contains(x) <==> oc.contains(
                        x,
                    )) by {
                        let k0 = choose|k0: int| 0 <= k0 < oc.len() && oc[k0] == child;
                        if oc.contains(x) {
                            let j = choose|j: int| 0 <= j < oc.len() && oc[j] == x;
                            if j < k0 {
                                assert(nc[j] == oc[j]);
                            } else if j > k0 {
                                assert(nc[j - 1] == oc[j]);
                            }
                        }
                        if nc.contains(x) {
                            let j = choose|j: int| 0 <= j < nc.len() && nc[j] == x;
                            if j < k0 {
                                assert(nc[j] == oc[j]);
                            } else {
                                assert(nc[j] == oc[j + 1]);
                            }
                        }
                    }
                },
                None => {},
            }
            assert forall|i: int|
                0 <= i < s3.len() implies parent_edge_ok(s3, i) && children_edges_ok(s3, i)
                && children_distinct(s3, i) by {
                let oldp = s0[child as int].parent;
                // children lists change only at the old and the new parent
                assert forall|h: int|
                    0 <= h < s0.len() && h != new_parent && oldp != Some(h as NodeId) implies
                    children_of(s3, h) == children_of(s0, h) by {}
                // parent edges
                if i == child {
                    assert(npv[npv.len() - 1] == child);
                    assert(children_of(s3, new_parent as int).contains(child));
                    assert(parent_edge_ok(s3, i));
                } else {
                    assert(parent_edge_ok(s0, i));
                    match s3[i].parent {
                        Some(p) => {
                            assert(is_heading(s0, p as int));
                            assert(is_heading(s3, p as int));
                            if p == new_parent {
                                assert(children_of(s0, p as int).contains(i as NodeId));
                                let k = choose|k: int|
                                    0 <= k < children_of(s0, p as int).len() && children_of(
                                        s0,
                                        p as int,
                                    )[k] == i as NodeId;
                                assert(npv[k] == i as NodeId);
                                assert(children_of(s3, p as int).contains(i as NodeId));
                            } else if oldp == Some(p) {
                                assert(children_of(s0, p as int).contains(i as NodeId));
                                assert(i as NodeId != child);
                                assert(children_of(s3, p as int).contains(i as NodeId));
                            } else {
                                assert(children_of(s3, p as int) == children_of(s0, p as int));
                            }
                            assert(parent_edge_ok(s3, i));
                        },
                        None => {},
                    }
                }
                // children edges
                if i == new_parent {
                    assert(children_edges_ok(s0, i));
                    assert forall|k: int| 0 <= k < npv.len() implies {
                        let c = #[trigger] npv[k];
                        i < c < s3.len() && s3[c as int].parent == Some(i as NodeId)
                    } by {
                        if k < npv.len() - 1 {
                            assert(npv[k] == children_of(s0, i)[k]);
                            let c = children_of(s0, i)[k];
                            assert(i < c < s0.len());
                            assert(s0[c as int].parent == Some(i as NodeId));
                            assert(c != child);
                            assert(s3[c as int].parent == s0[c as int].parent);
                        } else {
                            assert(npv[k] == child);
                        }
                    }
                    assert(children_edges_ok(s3, i));
                    assert(children_distinct(s0, i));
                    assert forall|k1: int, k2: int|
                        0 <= k1 < k2 < npv.len() implies npv[k1] != npv[k2] by {
                        if k2 == npv.len() - 1 {
                            assert(npv[k1] == children_of(s0, i)[k1]);
                            if npv[k1] == child {
                                assert(children_of(s0, i).contains(child));
                                assert(parent_edge_ok(s0, child as int));
                                assert(children_edges_ok(s0, i));
                                assert(s0[child as int].parent == Some(i as NodeId));
                            }
                        } else {
                            assert(npv[k1] == children_of(s0, i)[k1]);
                            assert(npv[k2] == children_of(s0, i)[k2]);
                        }
                    }
                    assert(children_distinct(s3, i));
                } else if oldp == Some(i as NodeId) {
                    let oc = children_of(s0, i);
                    let nc = children_of(s3, i);
                    let k0 = choose|k0: int| 0 <= k0 < oc.len() && oc[k0] == child;
                    assert(children_edges_ok(s0, i));
                    assert forall|k: int| 0 <= k < nc.len() implies {
                        let c = #[trigger] nc[k];
                        i < c < s3.len() && s3[c as int].parent == Some(i as NodeId)
                    } by {
                        let c0: NodeId = if k < k0 {
                            oc[k]
                        } else {
                            oc[k + 1]
                        };
                        assert(nc[k] == c0);
                        assert(i < c0 < s0.len());
                        assert(s0[c0 as int].parent == Some(i as NodeId));
                        assert(c0 != child);
                        assert(s3[c0 as int].parent == s0[c0 as int].parent);
                    }
                    assert(children_edges_ok(s3, i));
                    assert(children_distinct(s0, i));
                    assert forall|k1: int, k2: int|
                        0 <= k1 < k2 < nc.len() implies nc[k1] != nc[k2] by {
                        let c1: NodeId = if k1 < k0 {
                            oc[k1]
                        } else {
                            oc[k1 + 1]
                        };
                        let c2: NodeId = if k2 < k0 {
                            oc[k2]
                        } else {
                            oc[k2 + 1]
                        };
                        assert(nc[k1] == c1 && nc[k2] == c2);
                    }
                    assert(children_distinct(s3, i));
                } else {
                    assert(children_of(s3, i) == children_of(s0, i));
                    assert(children_edges_ok(s0, i));
                    assert forall|k: int| 0 <= k < children_of(s3, i).len() implies {
                        let c = #[trigger] children_of(s3, i)[k];
                        i < c < s3.len() && s3[c as int].parent == Some(i as NodeId)
                    } by {
                        let c = children_of(s0, i)[k];
                        assert(i < c < s0.len());
                        assert(s0[c as int].parent == Some(i as NodeId));
                        if c == child {
                            assert(parent_edge_ok(s0, child as int));
                        }
                        assert(s3[c as int].parent == Some(i as NodeId));
                    }
                    assert(children_edges_ok(s3, i));
                    assert(children_distinct(s0, i));
                    assert(children_distinct(s3, i));
                }
            }
            assert(wf_nodes(s3));
        }
    }
}

/// A child's membership in a heading's list and its back-reference are one
/// fact: in a well-formed arena a node is listed under a heading exactly when
/// its parent reference resolves to that heading — never to both of two
/// headings.
pub proof fn lemma_unique_parent(s: Seq<NestedAstNodeView>, c: NodeId, h: NodeId)
    requires
        wf_nodes(s),
        c < s.len(),
        h < s.len(),
    ensures
        children_of(s, h as int).contains(c) <==> s[c as int].parent == Some(h),
{
    let cs = children_of(s, h as int);
    if cs.contains(c) {
        let k = choose|k: int| 0 <= k < cs.len() && cs[k] == c;
        assert(0 <= k < cs.len() && cs[k] == c);
        assert(children_edges_ok(s, h as int));
        assert(h < cs[k] < s.len() && s[cs[k] as int].parent == Some(h));
        assert(s[c as int].parent == Some(h));
    }
    if s[c as int].parent == Some(h) {
        assert(parent_edge_ok(s, c as int));
    }
}

/// A node is top-level (its parent reference is absent) exactly when no
/// heading of the arena lists it as a child.
pub proof fn lemma_top_level_unowned(s: Seq<NestedAstNodeView>, c: NodeId)
    requires
        wf_nodes(s),
        c < s.len(),
    ensures
        (s[c as int].parent is None) <==> (forall|h: NodeId|
            h < s.len() ==> !children_of(s, h as int).contains(c)),
{
    match s[c as int].parent {
        Some(p) => {
            assert(parent_edge_ok(s, c as int));
            assert(children_of(s, p as int).contains(c));
        },
        None => {
            assert forall|h: NodeId| h < s.len() implies !children_of(s, h as int).contains(
                c,
            ) by {
                lemma_unique_parent(s, c, h);
            }
        },
    }
}

} // verus!
