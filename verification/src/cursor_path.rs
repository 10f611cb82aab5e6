//! Cursor paths and their resolution.
//!
//! A cursor path is the ordered sequence of child indices that leads from a
//! version's root to the selected node; the empty path selects the root
//! itself.  A path is only meaningful relative to a specific root, so all
//! specifications here take the arena and the root as parameters.

use vstd::prelude::*;

use crate::arena::{arena_wf, NodeModel};

verus! {

/// `path` can be followed from `node` without ever indexing past the end of a
/// node's children.
pub open spec fn path_valid(a: Seq<NodeModel>, node: int, path: Seq<usize>) -> bool
    decreases path.len(),
{
    &&& 0 <= node < a.len()
    &&& (path.len() > 0 ==> {
        &&& (path[0] as int) < a[node].children.len()
        &&& path_valid(a, a[node].children[path[0] as int] as int, path.skip(1))
    })
}

/// The node reached by following `path` from `node`.
pub open spec fn resolve_path(a: Seq<NodeModel>, node: int, path: Seq<usize>) -> int
    decreases path.len(),
{
    if path.len() == 0 {
        node
    } else {
        resolve_path(a, a[node].children[path[0] as int] as int, path.skip(1))
    }
}

/// `p` is a prefix of `q`.
pub open spec fn is_prefix_of(p: Seq<usize>, q: Seq<usize>) -> bool {
    p.len() <= q.len() && q.take(p.len() as int) == p
}

/// In a well-formed arena every node reached from `node` lies at or below
/// `node`'s own index; in particular it is live.
pub proof fn lemma_resolve_in_range(a: Seq<NodeModel>, node: int, path: Seq<usize>)
    requires
        arena_wf(a),
        path_valid(a, node, path),
    ensures
        0 <= resolve_path(a, node, path) <= node,
        resolve_path(a, node, path) < a.len(),
    decreases path.len(),
{
    if path.len() > 0 {
        lemma_resolve_in_range(a, a[node].children[path[0] as int] as int, path.skip(1));
    }
}

/// Following one more index `i` from the end of a valid path is valid exactly
/// when `i` is in range of the reached node's children, and then resolves to
/// that child.
pub proof fn lemma_path_push(a: Seq<NodeModel>, node: int, path: Seq<usize>, i: usize)
    requires
        arena_wf(a),
        path_valid(a, node, path),
    ensures
        path_valid(a, node, path.push(i)) <==> (i as int)
            < a[resolve_path(a, node, path)].children.len(),
        (i as int) < a[resolve_path(a, node, path)].children.len() ==> resolve_path(
            a,
            node,
            path.push(i),
        ) == a[resolve_path(a, node, path)].children[i as int] as int,
    decreases path.len(),
{
    reveal_with_fuel(path_valid, 3);
    reveal_with_fuel(resolve_path, 3);
    if path.len() == 0 {
        assert(path.push(i) =~= seq![i]);
        assert(path.push(i).skip(1) =~= Seq::<usize>::empty());
        if (i as int) < a[node].children.len() {
            let c = a[node].children[i as int] as int;
            assert(c < node);
        }
    } else {
        let child = a[node].children[path[0] as int] as int;
        assert(child < node);
        lemma_path_push(a, child, path.skip(1), i);
        assert(path.push(i).skip(1) =~= path.skip(1).push(i));
        assert(path.push(i)[0] == path[0]);
    }
}

/// Every prefix of a valid path is valid, and resolving a prefix then the rest
/// is the same as resolving the whole path.
pub proof fn lemma_path_take(a: Seq<NodeModel>, node: int, path: Seq<usize>, k: int)
    requires
        arena_wf(a),
        path_valid(a, node, path),
        0 <= k <= path.len(),
    ensures
        path_valid(a, node, path.take(k)),
        path_valid(a, resolve_path(a, node, path.take(k)), path.skip(k)),
        resolve_path(a, resolve_path(a, node, path.take(k)), path.skip(k)) == resolve_path(
            a,
            node,
            path,
        ),
    decreases k,
{
    if k == 0 {
        assert(path.take(0) =~= Seq::<usize>::empty());
        assert(path.skip(0) =~= path);
    } else {
        let child = a[node].children[path[0] as int] as int;
        lemma_path_take(a, child, path.skip(1), k - 1);
        assert(path.take(k)[0] == path[0]);
        assert(path.take(k).skip(1) =~= path.skip(1).take(k - 1));
        assert(path.skip(1).skip(k - 1) =~= path.skip(k));
    }
}

/// Appending nodes to the arena changes no existing node, so validity and
/// resolution of paths over existing nodes carry over unchanged.
pub proof fn lemma_extend_resolve(
    a: Seq<NodeModel>,
    a2: Seq<NodeModel>,
    node: int,
    path: Seq<usize>,
)
    requires
        arena_wf(a),
        path_valid(a, node, path),
        a.len() <= a2.len(),
        forall|k: int| 0 <= k < a.len() ==> a2[k] == a[k],
    ensures
        path_valid(a2, node, path),
        resolve_path(a2, node, path) == resolve_path(a, node, path),
    decreases path.len(),
{
    if path.len() > 0 {
        let child = a[node].children[path[0] as int] as int;
        assert(child < node);
        lemma_extend_resolve(a, a2, child, path.skip(1));
    }
}

} // verus!
