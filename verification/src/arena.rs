//! Append-only node storage.
//!
//! Nodes are immutable once allocated; a node reference is its index into the
//! arena, stable for the whole editing session.  Because a node can only refer
//! to children that were allocated before it, every child reference is
//! strictly smaller than its parent's index, which makes every tree in the
//! arena acyclic by construction.

use vstd::prelude::*;

verus! {

/// One tree node: a kind tag plus the ordered references of its children.
pub struct Node {
    pub kind: u64,
    pub children: Vec<usize>,
}

/// Mathematical model of a node.
pub struct NodeModel {
    pub kind: u64,
    pub children: Seq<usize>,
}

impl View for Node {
    type V = NodeModel;

    open spec fn view(&self) -> NodeModel {
        NodeModel { kind: self.kind, children: self.children@ }
    }
}

/// Append-only storage of immutable nodes.
pub struct Arena {
    pub nodes: Vec<Node>,
}

impl View for Arena {
    type V = Seq<NodeModel>;

    open spec fn view(&self) -> Seq<NodeModel> {
        self.nodes@.map(|i: int, n: Node| n@)
    }
}

/// Every child reference points strictly below its parent's own index, so all
/// references are live and no reference chain can cycle.
pub open spec fn arena_wf(a: Seq<NodeModel>) -> bool {
    forall|i: int, j: int|
        0 <= i < a.len() && 0 <= j < a[i].children.len() ==> (#[trigger] a[i].children[j]) < i
}

/// All child references of `n` are live in arena `a`.
pub open spec fn node_ok(a: Seq<NodeModel>, n: NodeModel) -> bool {
    forall|j: int| 0 <= j < n.children.len() ==> (#[trigger] n.children[j]) < a.len()
}

/// Appending a node whose children are already live keeps the arena well
/// formed.
pub proof fn lemma_wf_push(a: Seq<NodeModel>, n: NodeModel)
    requires
        arena_wf(a),
        node_ok(a, n),
    ensures
        arena_wf(a.push(n)),
{
    let a1 = a.push(n);
    assert forall|i: int, j: int|
        0 <= i < a1.len() && 0 <= j < a1[i].children.len() implies (#[trigger] a1[i].children[j])
        < i by {
        if i < a.len() {
            assert(a1[i] == a[i]);
        } else {
            assert(a1[i] == n);
        }
    }
}

impl Arena {
    /// A fresh, empty arena.
    pub fn new() -> (a: Arena)
        ensures
            a@.len() == 0,
    {
        let a = Arena { nodes: Vec::new() };
        proof {
            assert(a@ =~= Seq::<NodeModel>::empty());
        }
        a
    }

    /// Allocate `node`, returning its stable reference.  The arena only ever
    /// grows; no node is ever freed or changed in place.
    pub fn allocate(&mut self, node: Node) -> (idx: usize)
        ensures
            final(self)@ == old(self)@.push(node@),
            idx == old(self)@.len(),
    {
        let idx = self.nodes.len();
        self.nodes.push(node);
        proof {
            assert(self@ =~= old(self)@.push(node@));
        }
        idx
    }

    /// Read access to the node behind a reference.
    pub fn get(&self, idx: usize) -> (n: &Node)
        requires
            idx < self@.len(),
        ensures
            n@ == self@[idx as int],
    {
        &self.nodes[idx]
    }

    /// Number of nodes allocated so far.
    pub fn len(&self) -> (n: usize)
        ensures
            n == self@.len(),
    {
        self.nodes.len()
    }
}

} // verus!
