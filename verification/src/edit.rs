//! Path-copying edits.
//!
//! Every structural edit rebuilds only the spine from the affected node up to
//! the root and reuses every untouched subtree by reference, so a new version
//! costs one new node per step of the cursor path, never the size of the tree.
//! `rebuild_spec` is the mathematical description of that construction; the
//! lemmas below state what it preserves: old nodes are untouched, the new
//! spine carries the old kinds and all old children but the one on the path,
//! and every subtree whose path diverges from the edit path is shared by
//! reference.

use vstd::prelude::*;

use crate::arena::{arena_wf, Arena, Node, NodeModel};
use crate::cursor_path::{
    is_prefix_of, lemma_extend_resolve, lemma_path_take, lemma_resolve_in_range, path_valid,
    resolve_path,
};

verus! {

/// The arena and root produced by placing node `n` at `path` below `node`,
/// rebuilding the spine: the result is the extended arena and the reference of
/// the rebuilt subtree root.
pub open spec fn rebuild_spec(a: Seq<NodeModel>, node: int, path: Seq<usize>, n: usize) -> (
    Seq<NodeModel>,
    usize,
)
    decreases path.len(),
{
    if path.len() == 0 {
        (a, n)
    } else {
        let i = path[0] as int;
        let child = a[node].children[i] as int;
        let rec = rebuild_spec(a, child, path.skip(1), n);
        let rebuilt = NodeModel {
            kind: a[node].kind,
            children: a[node].children.update(i, rec.1),
        };
        (rec.0.push(rebuilt), rec.0.len() as usize)
    }
}

/// Rebuilding allocates exactly one node per path step and changes no node
/// that already existed: old references keep denoting the very same nodes.
pub proof fn lemma_rebuild_keeps(a: Seq<NodeModel>, node: int, path: Seq<usize>, n: usize)
    ensures
        rebuild_spec(a, node, path, n).0.len() == a.len() + path.len(),
        forall|k: int|
            0 <= k < a.len() ==> (#[trigger] rebuild_spec(a, node, path, n).0[k]) == a[k],
    decreases path.len(),
{
    if path.len() > 0 {
        let i = path[0] as int;
        let child = a[node].children[i] as int;
        lemma_rebuild_keeps(a, child, path.skip(1), n);
        let (amid, c1) = rebuild_spec(a, child, path.skip(1), n);
        assert forall|k: int|
            0 <= k < a.len() implies (#[trigger] rebuild_spec(a, node, path, n).0[k]) == a[k] by {
            assert(amid[k] == a[k]);
        }
    }
}

/// Rebuilding keeps the arena well formed and the rebuilt root resolves the
/// edit path to the placed node `n`.  The `usize::MAX` bound only says that
/// all references of the result fit the machine word.
pub proof fn lemma_rebuild_props(a: Seq<NodeModel>, node: int, path: Seq<usize>, n: usize)
    requires
        arena_wf(a),
        path_valid(a, node, path),
        (n as int) < a.len(),
        a.len() + path.len() <= usize::MAX,
    ensures
        ({
            let (a1, r) = rebuild_spec(a, node, path, n);
            &&& arena_wf(a1)
            &&& (r as int) < a1.len()
            &&& path_valid(a1, r as int, path)
            &&& resolve_path(a1, r as int, path) == n as int
        }),
    decreases path.len(),
{
    reveal_with_fuel(path_valid, 2);
    reveal_with_fuel(resolve_path, 2);
    lemma_rebuild_keeps(a, node, path, n);
    if path.len() == 0 {
    } else {
        let i = path[0] as int;
        let child = a[node].children[i] as int;
        assert(child < node);
        lemma_rebuild_props(a, child, path.skip(1), n);
        lemma_rebuild_keeps(a, child, path.skip(1), n);
        let (amid, c1) = rebuild_spec(a, child, path.skip(1), n);
        let rebuilt = NodeModel { kind: a[node].kind, children: a[node].children.update(i, c1) };
        let a1 = amid.push(rebuilt);
        let r = amid.len() as usize;
        assert(r as int == amid.len());
        assert(a1[r as int] == rebuilt);
        assert forall|ii: int, jj: int|
            0 <= ii < a1.len() && 0 <= jj < a1[ii].children.len() implies (#[trigger] a1[ii].children[jj])
            < ii by {
            if ii < amid.len() {
                assert(a1[ii] == amid[ii]);
            } else {
                assert(a1[ii] == rebuilt);
                if jj == i {
                    assert(rebuilt.children[jj] == c1);
                } else {
                    assert(rebuilt.children[jj] == a[node].children[jj]);
                    assert(a[node].children[jj] < node);
                }
            }
        }
        lemma_extend_resolve(amid, a1, c1 as int, path.skip(1));
        assert(path_valid(a1, r as int, path));
    }
}

/// Two paths with equal heads: one is a prefix of the other exactly when the
/// tails are.
proof fn lemma_prefix_skip(p: Seq<usize>, q: Seq<usize>)
    requires
        p.len() > 0,
        q.len() > 0,
        p[0] == q[0],
    ensures
        is_prefix_of(p, q) <==> is_prefix_of(p.skip(1), q.skip(1)),
{
    if is_prefix_of(p, q) {
        assert(q.skip(1).take(p.len() - 1) =~= p.skip(1)) by {
            assert forall|j: int| 0 <= j < p.len() - 1 implies q.skip(1).take(p.len() - 1)[j]
                == p.skip(1)[j] by {
                assert(q.take(p.len() as int)[j + 1] == p[j + 1]);
            }
        }
    }
    if is_prefix_of(p.skip(1), q.skip(1)) {
        assert(q.take(p.len() as int) =~= p) by {
            assert forall|j: int| 0 <= j < p.len() implies q.take(p.len() as int)[j] == p[j] by {
                if j > 0 {
                    assert(q.skip(1).take(p.len() - 1)[j - 1] == p.skip(1)[j - 1]);
                }
            }
        }
    }
}

/// Structural sharing: a subtree whose path diverges from the edit path is the
/// same reference, not a copy, in the rebuilt tree.
pub proof fn lemma_rebuild_shares(
    a: Seq<NodeModel>,
    node: int,
    path: Seq<usize>,
    n: usize,
    q: Seq<usize>,
)
    requires
        arena_wf(a),
        path_valid(a, node, path),
        (n as int) < a.len(),
        a.len() + path.len() <= usize::MAX,
        path_valid(a, node, q),
        !is_prefix_of(q, path),
        !is_prefix_of(path, q),
    ensures
        ({
            let (a1, r) = rebuild_spec(a, node, path, n);
            &&& path_valid(a1, r as int, q)
            &&& resolve_path(a1, r as int, q) == resolve_path(a, node, q)
        }),
    decreases path.len(),
{
    reveal_with_fuel(path_valid, 2);
    reveal_with_fuel(resolve_path, 2);
    if path.len() == 0 {
        assert(q.take(path.len() as int) =~= path);
        assert(is_prefix_of(path, q));
    } else if q.len() == 0 {
        assert(path.take(q.len() as int) =~= q);
        assert(is_prefix_of(q, path));
    } else {
        let i = path[0] as int;
        let child = a[node].children[i] as int;
        assert(child < node);
        lemma_rebuild_props(a, child, path.skip(1), n);
        lemma_rebuild_keeps(a, child, path.skip(1), n);
        let (amid, c1) = rebuild_spec(a, child, path.skip(1), n);
        let rebuilt = NodeModel { kind: a[node].kind, children: a[node].children.update(i, c1) };
        let a1 = amid.push(rebuilt);
        let r = amid.len() as usize;
        assert(r as int == amid.len());
        assert(a1[r as int] == rebuilt);
        assert forall|k: int| 0 <= k < a.len() implies (#[trigger] a1[k]) == a[k] by {
            assert(a1[k] == amid[k]);
        }
        let cq = a[node].children[q[0] as int] as int;
        assert(cq < node);
        if q[0] as int == i {
            lemma_prefix_skip(path, q);
            lemma_prefix_skip(q, path);
            lemma_rebuild_shares(a, child, path.skip(1), n, q.skip(1));
            lemma_extend_resolve(amid, a1, c1 as int, q.skip(1));
            assert(rebuilt.children[q[0] as int] == c1);
        } else {
            assert(rebuilt.children[q[0] as int] == a[node].children[q[0] as int]);
            lemma_extend_resolve(a, a1, cq, q.skip(1));
        }
    }
}

/// Spine preservation: each rebuilt ancestor keeps the old node's kind and
/// child count, and every child off the edit path keeps its old reference.
pub proof fn lemma_rebuild_spine(
    a: Seq<NodeModel>,
    node: int,
    path: Seq<usize>,
    n: usize,
    j: int,
)
    requires
        arena_wf(a),
        path_valid(a, node, path),
        (n as int) < a.len(),
        a.len() + path.len() <= usize::MAX,
        0 <= j < path.len(),
    ensures
        ({
            let (a1, r) = rebuild_spec(a, node, path, n);
            let x0 = resolve_path(a, node, path.take(j));
            let x1 = resolve_path(a1, r as int, path.take(j));
            &&& 0 <= x0 < a.len()
            &&& 0 <= x1 < a1.len()
            &&& a1[x1].kind == a[x0].kind
            &&& a1[x1].children.len() == a[x0].children.len()
            &&& forall|k: int|
                0 <= k < a[x0].children.len() && k != path[j] as int ==> (#[trigger] a1[x1].children[k])
                    == a[x0].children[k]
        }),
    decreases j,
{
    reveal_with_fuel(path_valid, 2);
    reveal_with_fuel(resolve_path, 2);
    let i = path[0] as int;
    let child = a[node].children[i] as int;
    assert(child < node);
    lemma_rebuild_props(a, child, path.skip(1), n);
    lemma_rebuild_keeps(a, child, path.skip(1), n);
    lemma_rebuild_props(a, node, path, n);
    lemma_rebuild_keeps(a, node, path, n);
    lemma_path_take(a, node, path, j);
    lemma_resolve_in_range(a, node, path.take(j));
    let (amid, c1) = rebuild_spec(a, child, path.skip(1), n);
    let rebuilt = NodeModel { kind: a[node].kind, children: a[node].children.update(i, c1) };
    let a1 = amid.push(rebuilt);
    let r = amid.len() as usize;
    assert(r as int == amid.len());
    assert(a1[r as int] == rebuilt);
    if j == 0 {
        assert(path.take(0) =~= Seq::<usize>::empty());
    } else {
        lemma_rebuild_spine(a, child, path.skip(1), n, j - 1);
        let tail = path.skip(1);
        assert(path.take(j)[0] == path[0]);
        assert(path.take(j).skip(1) =~= tail.take(j - 1));
        let x0 = resolve_path(a, node, path.take(j));
        assert(x0 == resolve_path(a, child, tail.take(j - 1)));
        let x1mid = resolve_path(amid, c1 as int, tail.take(j - 1));
        lemma_path_take(amid, c1 as int, tail, j - 1);
        lemma_resolve_in_range(amid, c1 as int, tail.take(j - 1));
        lemma_extend_resolve(amid, a1, c1 as int, tail.take(j - 1));
        assert(resolve_path(a1, r as int, path.take(j)) == x1mid);
        assert(a1[x1mid] == amid[x1mid]);
        assert(tail[j - 1] == path[j]);
    }
}

/// Rebuild the spine from the node at `path[depth..]` below `node` up to
/// `node`, placing the already-allocated node `n` at the deepest position and
/// reusing every sibling subtree by reference.
pub fn rebuild(arena: &mut Arena, node: usize, path: &Vec<usize>, depth: usize, n: usize) -> (r:
    usize)
    requires
        arena_wf(old(arena)@),
        path_valid(old(arena)@, node as int, path@.skip(depth as int)),
        (n as int) < old(arena)@.len(),
        depth <= path@.len(),
    ensures
        (final(arena)@, r) == rebuild_spec(old(arena)@, node as int, path@.skip(depth as int), n),
    decreases path@.len() - depth,
{
    let suffix = Ghost(path@.skip(depth as int));
    if depth == path.len() {
        proof {
            assert(suffix@ =~= Seq::<usize>::empty());
        }
        return n;
    }
    proof {
        assert(suffix@[0] == path@[depth as int]);
    }
    let i = path[depth];
    let child = arena.get(node).children[i];
    proof {
        assert(suffix@.skip(1) =~= path@.skip(depth as int + 1));
        assert(old(arena)@[node as int].children[i as int] < node as int);
    }
    let c1 = rebuild(arena, child, path, depth + 1, n);
    proof {
        lemma_rebuild_keeps(old(arena)@, child as int, suffix@.skip(1), n);
    }
    let kind = arena.get(node).kind;
    let total = arena.get(node).children.len();
    let mut kids: Vec<usize> = Vec::new();
    let mut k: usize = 0;
    while k < total
        invariant
            k <= total,
            i < total,
            c1 == rebuild_spec(old(arena)@, child as int, suffix@.skip(1), n).1,
            arena@ == rebuild_spec(old(arena)@, child as int, suffix@.skip(1), n).0,
            (node as int) < old(arena)@.len(),
            old(arena)@.len() <= arena@.len(),
            total == old(arena)@[node as int].children.len(),
            arena@[node as int] == old(arena)@[node as int],
            kind == old(arena)@[node as int].kind,
            kids@ =~= old(arena)@[node as int].children.update(i as int, c1).take(k as int),
        decreases total - k,
    {
        if k == i {
            kids.push(c1);
        } else {
            let c = arena.get(node).children[k];
            kids.push(c);
        }
        k += 1;
    }
    let idx = arena.allocate(Node { kind, children: kids });
    proof {
        let full = old(arena)@[node as int].children.update(i as int, c1);
        assert(kids@ =~= full);
        let (amid, c1s) = rebuild_spec(old(arena)@, child as int, suffix@.skip(1), n);
        assert(rebuild_spec(old(arena)@, node as int, suffix@, n).0 =~= amid.push(
            NodeModel { kind, children: full },
        ));
        assert(idx == amid.len());
    }
    idx
}

} // verus!
