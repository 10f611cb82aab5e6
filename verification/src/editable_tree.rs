//! The editable-tree facade: the public operation surface of the buffer.
//!
//! It owns the node storage and one history graph, and composes cursor
//! resolution, path-copying edits and the history into the documented
//! operations.  Navigation rewrites only the current version's cursor path;
//! every successful edit commits a new history entry; a rejected edit changes
//! nothing at all.

use vstd::prelude::*;
use vstd::string::StringExecFns;

use crate::arena::{arena_wf, lemma_wf_push, node_ok, Arena, Node, NodeModel};
use crate::cursor_path::{
    is_prefix_of, lemma_extend_resolve, lemma_path_push, lemma_path_take, lemma_resolve_in_range,
    path_valid, resolve_path,
};
use crate::edit::{
    lemma_rebuild_keeps, lemma_rebuild_props, lemma_rebuild_shares, rebuild, rebuild_spec,
};
use crate::history::{
    commit_model, graph_wf, redo_model, set_cursor_model, undo_model, EntryModel, HistoryGraph,
    Version, VersionModel,
};
use crate::grammar::Grammar;
use crate::Direction;
use crate::Side;

verus! {

/// A rejected insertion, as a structured kind.
#[derive(Debug, Clone, Copy, PartialEq, Eq, Structural)]
pub enum InsertError {
    /// The grammar forbids a child of kind `child_kind` at `position` under a
    /// parent of kind `parent_kind`.
    InvalidChild { parent_kind: u64, child_kind: u64, position: usize },
    /// The cursor is at the root, which has no parent to receive a sibling.
    SiblingAtRoot,
}

/// Where a navigation request moves the cursor: the new path on success,
/// nothing when the move is impossible.  No move ever wraps around.
pub open spec fn nav_spec(
    a: Seq<NodeModel>,
    root: int,
    path: Seq<usize>,
    direction: Direction,
) -> Option<Seq<usize>> {
    match direction {
        Direction::Down => {
            if a[resolve_path(a, root, path)].children.len() > 0 {
                Some(path.push(0))
            } else {
                None
            }
        },
        Direction::Up => {
            if path.len() > 0 {
                Some(path.drop_last())
            } else {
                None
            }
        },
        Direction::Prev => {
            if path.len() == 0 {
                None
            } else if path.last() > 0 {
                Some(path.update(path.len() - 1, (path.last() - 1) as usize))
            } else {
                None
            }
        },
        Direction::Next => {
            if path.len() == 0 {
                None
            } else if path.last() + 1 < a[resolve_path(a, root, path.drop_last())].children.len() {
                Some(path.update(path.len() - 1, (path.last() + 1) as usize))
            } else {
                None
            }
        },
    }
}

/// The message reported for an impossible move.
pub open spec fn nav_err_msg(path: Seq<usize>, direction: Direction) -> Seq<char> {
    match direction {
        Direction::Down => "no children"@,
        Direction::Up => "already at root"@,
        Direction::Prev | Direction::Next => {
            if path.len() == 0 {
                "root has no siblings"@
            } else {
                "no such sibling"@
            }
        },
    }
}

/// The arena and new root after inserting a node `nm` as the first child of
/// the node at cursor path `p`: the fresh child and the rebuilt target are
/// allocated, then the spine is path-copied.
pub open spec fn insert_child_state(
    a0: Seq<NodeModel>,
    root0: int,
    p: Seq<usize>,
    nm: NodeModel,
) -> (Seq<NodeModel>, usize) {
    let target = resolve_path(a0, root0, p);
    let fresh = a0.len() as usize;
    let rebuilt = NodeModel { kind: a0[target].kind, children: seq![fresh] + a0[target].children };
    let base = a0.push(nm).push(rebuilt);
    rebuild_spec(base, root0, p, (a0.len() + 1) as usize)
}

/// The arena and new root after inserting a node `nm` as a sibling of the node
/// at cursor path `p`, at position `pos` under its parent: the fresh sibling
/// and the rebuilt parent are allocated, then the spine above the parent is
/// path-copied.
pub open spec fn insert_sibling_state(
    a0: Seq<NodeModel>,
    root0: int,
    p: Seq<usize>,
    pos: int,
    nm: NodeModel,
) -> (Seq<NodeModel>, usize) {
    let parent = resolve_path(a0, root0, p.drop_last());
    let fresh = a0.len() as usize;
    let rebuilt = NodeModel {
        kind: a0[parent].kind,
        children: a0[parent].children.insert(pos, fresh),
    };
    let base = a0.push(nm).push(rebuilt);
    rebuild_spec(base, root0, p.drop_last(), (a0.len() + 1) as usize)
}

/// Every version ever recorded points at a live root and carries a cursor
/// path that is valid for that root.
pub open spec fn versions_ok(a: Seq<NodeModel>, es: Seq<EntryModel>) -> bool {
    forall|i: int|
        0 <= i < es.len() ==> {
            let v = (#[trigger] es[i]).version;
            &&& (v.root as int) < a.len()
            &&& path_valid(a, v.root as int, v.cursor)
        }
}

/// Growing the arena invalidates no recorded version.
proof fn lemma_versions_ok_extend(a: Seq<NodeModel>, a2: Seq<NodeModel>, es: Seq<EntryModel>)
    requires
        arena_wf(a),
        versions_ok(a, es),
        a.len() <= a2.len(),
        forall|k: int| 0 <= k < a.len() ==> a2[k] == a[k],
    ensures
        versions_ok(a2, es),
{
    assert forall|i: int| 0 <= i < es.len() implies {
        let v = (#[trigger] es[i]).version;
        &&& (v.root as int) < a2.len()
        &&& path_valid(a2, v.root as int, v.cursor)
    } by {
        let v = es[i].version;
        lemma_extend_resolve(a, a2, v.root as int, v.cursor);
    }
}

/// An editable, undoable buffer of trees: the node storage handle, the
/// grammar capability, and the branching history of versions.
pub struct EditableTree<G: Grammar> {
    pub arena: Arena,
    pub grammar: G,
    pub history: HistoryGraph,
}

impl<G: Grammar> EditableTree<G> {
    /// All recorded history entries.
    pub open spec fn entries(&self) -> Seq<EntryModel> {
        self.history@.entries
    }

    /// The entry the buffer currently shows.
    pub open spec fn cur_entry(&self) -> EntryModel {
        self.entries()[self.history@.current as int]
    }

    /// The current root reference.
    pub open spec fn root_spec(&self) -> usize {
        self.cur_entry().version.root
    }

    /// The current cursor path.
    pub open spec fn cursor_spec(&self) -> Seq<usize> {
        self.cur_entry().version.cursor
    }

    /// The reference of the node under the cursor.
    pub open spec fn cursor_node_spec(&self) -> int {
        resolve_path(self.arena@, self.root_spec() as int, self.cursor_spec())
    }

    /// The three coupled invariants: the arena is well formed, the history
    /// graph is well formed, and every version's cursor path is valid for its
    /// root.
    pub open spec fn wf(&self) -> bool {
        &&& arena_wf(self.arena@)
        &&& graph_wf(self.history@)
        &&& versions_ok(self.arena@, self.entries())
    }

    /// Build a new buffer around an existing tree: the history starts with one
    /// entry holding `root` and an empty cursor path.
    pub fn new(arena: Arena, root: usize, grammar: G) -> (t: EditableTree<G>)
        requires
            arena_wf(arena@),
            (root as int) < arena@.len(),
        ensures
            t.wf(),
            t.arena@ == arena@,
            t.grammar == grammar,
            t.root_spec() == root,
            t.cursor_spec() == Seq::<usize>::empty(),
            t.entries().len() == 1,
    {
        let history = HistoryGraph::new(Version { root, cursor: Vec::new() });
        let t = EditableTree { arena, grammar, history };
        proof {
            assert(t.cursor_spec() =~= Seq::<usize>::empty());
        }
        t
    }

    /// Move one step back in the tree history; `false` (and no change) if
    /// there is nothing to undo.
    pub fn undo(&mut self) -> (r: bool)
        requires
            old(self).wf(),
        ensures
            final(self).wf(),
            final(self).arena@ == old(self).arena@,
            final(self).grammar == old(self).grammar,
            r == undo_model(old(self).history@).0,
            final(self).history@ == undo_model(old(self).history@).1,
            final(self).entries() == old(self).entries(),
    {
        self.history.undo()
    }

    /// Move one step forward again; `false` (and no change) if no edit was
    /// ever made below the current version.
    pub fn redo(&mut self) -> (r: bool)
        requires
            old(self).wf(),
        ensures
            final(self).wf(),
            final(self).arena@ == old(self).arena@,
            final(self).grammar == old(self).grammar,
            r == redo_model(old(self).history@).0,
            final(self).history@ == redo_model(old(self).history@).1,
            final(self).entries() == old(self).entries(),
    {
        self.history.redo()
    }

    /// The reference of the current root.
    pub fn root(&self) -> (r: usize)
        requires
            self.wf(),
        ensures
            r == self.root_spec(),
            (r as int) < self.arena@.len(),
    {
        self.history.current_version().root
    }

    /// How many versions the history holds.
    pub fn entry_count(&self) -> (n: usize)
        ensures
            n == self.entries().len(),
    {
        self.history.entry_count()
    }

    /// The current cursor path, read from the root.
    pub fn cursor_path(&self) -> (p: &Vec<usize>)
        requires
            self.wf(),
        ensures
            p@ == self.cursor_spec(),
    {
        &self.history.current_version().cursor
    }

    /// Walk `path[..upto]` from `node`.
    fn resolve_node(&self, node: usize, path: &Vec<usize>, upto: usize) -> (r: usize)
        requires
            arena_wf(self.arena@),
            (node as int) < self.arena@.len(),
            path_valid(self.arena@, node as int, path@),
            upto <= path@.len(),
        ensures
            r as int == resolve_path(self.arena@, node as int, path@.take(upto as int)),
            (r as int) < self.arena@.len(),
    {
        let a = Ghost(self.arena@);
        let mut cur = node;
        let mut d: usize = 0;
        proof {
            assert(path@.take(0) =~= Seq::<usize>::empty());
        }
        while d < upto
            invariant
                d <= upto,
                upto <= path@.len(),
                a@ == self.arena@,
                arena_wf(a@),
                (node as int) < a@.len(),
                path_valid(a@, node as int, path@),
                cur as int == resolve_path(a@, node as int, path@.take(d as int)),
                (cur as int) < a@.len(),
            decreases upto - d,
        {
            proof {
                lemma_path_take(a@, node as int, path@, d as int);
                assert(path@.skip(d as int)[0] == path@[d as int]);
                lemma_path_push(a@, node as int, path@.take(d as int), path@[d as int]);
                assert(path@.take(d as int).push(path@[d as int]) =~= path@.take(d as int + 1));
                lemma_resolve_in_range(a@, node as int, path@.take(d as int + 1));
            }
            cur = self.arena.get(cur).children[path[d]];
            d += 1;
        }
        proof {
            lemma_path_take(a@, node as int, path@, upto as int);
            lemma_resolve_in_range(a@, node as int, path@.take(upto as int));
        }
        cur
    }

    /// The node currently under the cursor.
    pub fn cursor(&self) -> (c: usize)
        requires
            self.wf(),
        ensures
            c as int == self.cursor_node_spec(),
            (c as int) < self.arena@.len(),
    {
        let root = self.history.current_version().root;
        let upto = self.history.current_version().cursor.len();
        let c = self.resolve_node(root, &self.history.current_version().cursor, upto);
        proof {
            assert(self.cursor_spec().take(upto as int) =~= self.cursor_spec());
        }
        c
    }

    /// The cursor node and its direct parent, absent when the cursor is at
    /// the root.
    pub fn cursor_and_parent(&self) -> (r: (usize, Option<usize>))
        requires
            self.wf(),
        ensures
            r.0 as int == self.cursor_node_spec(),
            self.cursor_spec().len() == 0 ==> r.1 is None,
            self.cursor_spec().len() > 0 ==> r.1 is Some && (r.1->0 as int) == resolve_path(
                self.arena@,
                self.root_spec() as int,
                self.cursor_spec().drop_last(),
            ),
    {
        let c = self.cursor();
        let upto = self.history.current_version().cursor.len();
        if upto == 0 {
            (c, None)
        } else {
            let root = self.history.current_version().root;
            let p = self.resolve_node(root, &self.history.current_version().cursor, upto - 1);
            proof {
                assert(self.cursor_spec().take(upto - 1) =~= self.cursor_spec().drop_last());
            }
            (c, Some(p))
        }
    }

    /// A fresh copy of the first `upto` indices of the current cursor path.
    fn copy_cursor_prefix(&self, upto: usize) -> (p: Vec<usize>)
        requires
            graph_wf(self.history@),
            upto <= self.cursor_spec().len(),
        ensures
            p@ == self.cursor_spec().take(upto as int),
    {
        let mut p: Vec<usize> = Vec::new();
        let mut d: usize = 0;
        while d < upto
            invariant
                d <= upto,
                graph_wf(self.history@),
                upto <= self.cursor_spec().len(),
                p@ =~= self.cursor_spec().take(d as int),
            decreases upto - d,
        {
            let i = self.history.current_version().cursor[d];
            p.push(i);
            d += 1;
        }
        proof {
            assert(p@ =~= self.cursor_spec().take(upto as int));
        }
        p
    }

    /// Move the cursor one step in `direction` across the current tree.
    /// Success rewrites only the current version's cursor path; failure
    /// returns the descriptive message and changes nothing.  Navigation never
    /// touches the history: the number of entries is unchanged either way.
    pub fn move_cursor(&mut self, direction: Direction) -> (r: Option<String>)
        requires
            old(self).wf(),
        ensures
            final(self).wf(),
            final(self).arena@ == old(self).arena@,
            final(self).grammar == old(self).grammar,
            final(self).entries().len() == old(self).entries().len(),
            ({
                let a = old(self).arena@;
                let root = old(self).root_spec() as int;
                let p = old(self).cursor_spec();
                match nav_spec(a, root, p, direction) {
                    Some(p2) => r is None && final(self).history@ == set_cursor_model(
                        old(self).history@,
                        p2,
                    ),
                    None => r is Some && (r->0)@ == nav_err_msg(p, direction)
                        && final(self).history@ == old(self).history@,
                }
            }),
    {
        let ghost a = self.arena@;
        let ghost root = self.root_spec() as int;
        let ghost p = self.cursor_spec();
        let n = self.history.current_version().cursor.len();
        match direction {
            Direction::Up => {
                if n == 0 {
                    Some(String::from_str("already at root"))
                } else {
                    let newpath = self.copy_cursor_prefix(n - 1);
                    proof {
                        assert(p.take(n - 1) =~= p.drop_last());
                        lemma_path_take(a, root, p, n - 1);
                    }
                    self.set_cursor_checked(newpath);
                    None
                }
            },
            Direction::Down => {
                let c = self.cursor();
                if self.arena.get(c).children.len() == 0 {
                    Some(String::from_str("no children"))
                } else {
                    let mut newpath = self.copy_cursor_prefix(n);
                    newpath.push(0);
                    proof {
                        assert(p.take(n as int) =~= p);
                        lemma_path_push(a, root, p, 0);
                    }
                    self.set_cursor_checked(newpath);
                    None
                }
            },
            Direction::Prev => {
                if n == 0 {
                    Some(String::from_str("root has no siblings"))
                } else {
                    let idx = self.history.current_version().cursor[n - 1];
                    proof {
                        lemma_path_take(a, root, p, n - 1);
                        assert(p.skip(n - 1) =~= seq![p.last()]);
                        assert(p.skip(n - 1)[0] == p.last());
                        assert(p.take(n - 1) =~= p.drop_last());
                    }
                    if idx == 0 {
                        Some(String::from_str("no such sibling"))
                    } else {
                        let mut newpath = self.copy_cursor_prefix(n - 1);
                        newpath.push(idx - 1);
                        proof {
                            Self::lemma_sibling_step(a, root, p, (idx - 1) as usize);
                        }
                        self.set_cursor_checked(newpath);
                        None
                    }
                }
            },
            Direction::Next => {
                if n == 0 {
                    Some(String::from_str("root has no siblings"))
                } else {
                    let idx = self.history.current_version().cursor[n - 1];
                    let root_e = self.history.current_version().root;
                    let parent = self.resolve_node(
                        root_e,
                        &self.history.current_version().cursor,
                        n - 1,
                    );
                    proof {
                        lemma_path_take(a, root, p, n - 1);
                        assert(p.skip(n - 1) =~= seq![p.last()]);
                        assert(p.skip(n - 1)[0] == p.last());
                        assert(p.take(n - 1) =~= p.drop_last());
                    }
                    let plen = self.arena.get(parent).children.len();
                    proof {
                        assert(parent as int == resolve_path(a, root, p.drop_last()));
                        assert((idx as int) < plen as int);
                    }
                    if idx + 1 < plen {
                        let mut newpath = self.copy_cursor_prefix(n - 1);
                        newpath.push(idx + 1);
                        proof {
                            Self::lemma_sibling_step(a, root, p, (idx + 1) as usize);
                        }
                        self.set_cursor_checked(newpath);
                        None
                    } else {
                        Some(String::from_str("no such sibling"))
                    }
                }
            },
        }
    }

    /// A sibling move replaces the last path index with `i2`; the new path is
    /// valid whenever `i2` is in range of the parent's children.
    proof fn lemma_sibling_step(a: Seq<NodeModel>, root: int, p: Seq<usize>, i2: usize)
        requires
            arena_wf(a),
            0 <= root < a.len(),
            path_valid(a, root, p),
            p.len() > 0,
            (i2 as int) < a[resolve_path(a, root, p.drop_last())].children.len(),
        ensures
            path_valid(a, root, p.update(p.len() - 1, i2)),
            p.update(p.len() - 1, i2) == p.drop_last().push(i2),
    {
        lemma_path_take(a, root, p, p.len() - 1);
        assert(p.take(p.len() - 1) =~= p.drop_last());
        lemma_path_push(a, root, p.drop_last(), i2);
        assert(p.update(p.len() - 1, i2) =~= p.drop_last().push(i2));
    }

    /// Path-copy from the node at `path` up to the root, placing the
    /// already-allocated node `n` at `path`, and commit the result with cursor
    /// `newcursor`.  The conditional premise only defers the machine-size
    /// bound, which the allocation itself establishes.
    fn commit_edit(&mut self, path: Vec<usize>, n: usize, newcursor: Vec<usize>)
        requires
            old(self).wf(),
            (n as int) < old(self).arena@.len(),
            path_valid(old(self).arena@, old(self).root_spec() as int, path@),
            old(self).arena@.len() + path@.len() <= usize::MAX ==> ({
                let st = rebuild_spec(old(self).arena@, old(self).root_spec() as int, path@, n);
                path_valid(st.0, st.1 as int, newcursor@)
            }),
        ensures
            final(self).wf(),
            final(self).grammar == old(self).grammar,
            old(self).arena@.len() + path@.len() <= usize::MAX,
            ({
                let st = rebuild_spec(old(self).arena@, old(self).root_spec() as int, path@, n);
                &&& final(self).arena@ == st.0
                &&& final(self).history@ == commit_model(
                    old(self).history@,
                    VersionModel { root: st.1, cursor: newcursor@ },
                )
            }),
    {
        let ghost a0 = self.arena@;
        let ghost g0 = self.history@;
        let ghost root = self.root_spec() as int;
        let rootx = self.history.current_version().root;
        proof {
            assert(path@.skip(0) =~= path@);
        }
        let r1 = rebuild(&mut self.arena, rootx, &path, 0, n);
        proof {
            assert(self.arena.nodes.len() == self.arena.nodes@.len());
            assert(self.arena@.len() == self.arena.nodes@.len());
            lemma_rebuild_keeps(a0, root, path@, n);
            lemma_rebuild_props(a0, root, path@, n);
        }
        self.history.commit(Version { root: r1, cursor: newcursor });
        proof {
            let a1 = self.arena@;
            let st = rebuild_spec(a0, root, path@, n);
            lemma_versions_ok_extend(a0, a1, g0.entries);
            let es1 = self.history@.entries;
            assert forall|i: int| 0 <= i < es1.len() implies {
                let v = (#[trigger] es1[i]).version;
                &&& (v.root as int) < a1.len()
                &&& path_valid(a1, v.root as int, v.cursor)
            } by {
                if i < g0.entries.len() {
                    if i == g0.current as int {
                        assert(es1[i].version == g0.entries[i].version);
                    } else {
                        assert(es1[i] == g0.entries[i]);
                    }
                } else {
                    assert(es1[i].version.root == st.1);
                    assert(es1[i].version.cursor == newcursor@);
                }
            }
        }
    }

    /// Replace the node under the cursor by `new_node`.  This cannot fail: a
    /// new version is always committed, the cursor path is unchanged and now
    /// names the new node, and every subtree off the cursor path is shared by
    /// reference with the previous version.
    pub fn replace_cursor(&mut self, new_node: Node)
        requires
            old(self).wf(),
            node_ok(old(self).arena@, new_node@),
        ensures
            final(self).wf(),
            final(self).grammar == old(self).grammar,
            ({
                let a0 = old(self).arena@;
                let root0 = old(self).root_spec() as int;
                let p = old(self).cursor_spec();
                let fresh = a0.len() as usize;
                let st = rebuild_spec(a0.push(new_node@), root0, p, fresh);
                &&& final(self).arena@ == st.0
                &&& final(self).history@ == commit_model(
                    old(self).history@,
                    VersionModel { root: st.1, cursor: p },
                )
            }),
            final(self).cursor_spec() == old(self).cursor_spec(),
            final(self).entries().len() == old(self).entries().len() + 1,
            final(self).arena@[final(self).cursor_node_spec()] == new_node@,
            old(self).arena@.len() <= final(self).arena@.len(),
            forall|k: int|
                0 <= k < old(self).arena@.len() ==> (#[trigger] final(self).arena@[k]) == old(
                    self,
                ).arena@[k],
            forall|q: Seq<usize>|
                path_valid(old(self).arena@, old(self).root_spec() as int, q) && !is_prefix_of(
                    q,
                    old(self).cursor_spec(),
                ) && !is_prefix_of(old(self).cursor_spec(), q) ==> #[trigger] path_valid(
                    final(self).arena@,
                    final(self).root_spec() as int,
                    q,
                ),
            forall|q: Seq<usize>|
                path_valid(old(self).arena@, old(self).root_spec() as int, q) && !is_prefix_of(
                    q,
                    old(self).cursor_spec(),
                ) && !is_prefix_of(old(self).cursor_spec(), q) ==> #[trigger] resolve_path(
                    final(self).arena@,
                    final(self).root_spec() as int,
                    q,
                ) == resolve_path(old(self).arena@, old(self).root_spec() as int, q),
            forall|j: int|
                0 <= j < old(self).cursor_spec().len()
                    ==> #[trigger] final(self).arena@[resolve_path(
                    final(self).arena@,
                    final(self).root_spec() as int,
                    old(self).cursor_spec().take(j),
                )].kind == old(self).arena@[resolve_path(
                    old(self).arena@,
                    old(self).root_spec() as int,
                    old(self).cursor_spec().take(j),
                )].kind,
    {
        let ghost a0 = self.arena@;
        let ghost root = self.root_spec() as int;
        let ghost p = self.cursor_spec();
        let ghost nm = new_node@;
        let n = self.history.current_version().cursor.len();
        let path = self.copy_cursor_prefix(n);
        proof {
            assert(path@ =~= p);
        }
        let fresh = self.arena.allocate(new_node);
        proof {
            lemma_wf_push(a0, nm);
            lemma_extend_resolve(a0, a0.push(nm), root, p);
            lemma_versions_ok_extend(a0, a0.push(nm), self.history@.entries);
            let base = a0.push(nm);
            if base.len() + p.len() <= usize::MAX {
                lemma_rebuild_props(base, root, p, fresh);
            }
        }
        let newcursor = self.copy_cursor_prefix(n);
        proof {
            assert(newcursor@ =~= p);
        }
        self.commit_edit(path, fresh, newcursor);
        proof {
            let base = a0.push(nm);
            let st = rebuild_spec(base, root, p, fresh);
            lemma_rebuild_keeps(base, root, p, fresh);
            lemma_rebuild_props(base, root, p, fresh);
            assert(old(self).history.entries.len() == old(self).history.entries@.len());
            let g0e = old(self).history@.entries;
            let g1 = self.history@;
            assert(g1.current as int == g0e.len());
            assert(g1.entries[g1.current as int].version == VersionModel { root: st.1, cursor: p });
            assert(self.root_spec() == st.1);
            assert(self.arena@ == st.0);
            assert(st.0[fresh as int] == base[fresh as int]);
            assert forall|k: int|
                0 <= k < a0.len() implies (#[trigger] self.arena@[k]) == a0[k] by {
                assert(st.0[k] == base[k]);
            }
            assert forall|q: Seq<usize>|
                path_valid(a0, root, q) && !is_prefix_of(q, p) && !is_prefix_of(p, q) implies
                #[trigger] path_valid(self.arena@, self.root_spec() as int, q) by {
                lemma_extend_resolve(a0, base, root, q);
                lemma_rebuild_shares(base, root, p, fresh, q);
            }
            assert forall|q: Seq<usize>|
                path_valid(a0, root, q) && !is_prefix_of(q, p) && !is_prefix_of(p, q) implies
                #[trigger] resolve_path(self.arena@, self.root_spec() as int, q) == resolve_path(
                a0,
                root,
                q,
            ) by {
                lemma_extend_resolve(a0, base, root, q);
                lemma_rebuild_shares(base, root, p, fresh, q);
            }
            assert forall|j: int|
                0 <= j < p.len() implies #[trigger] self.arena@[resolve_path(
                self.arena@,
                self.root_spec() as int,
                p.take(j),
            )].kind == a0[resolve_path(a0, root, p.take(j))].kind by {
                crate::edit::lemma_rebuild_spine(base, root, p, fresh, j);
                lemma_path_take(a0, root, p, j);
                lemma_resolve_in_range(a0, root, p.take(j));
                lemma_extend_resolve(a0, base, root, p.take(j));
                assert(base[resolve_path(base, root, p.take(j))].kind == a0[resolve_path(
                    a0,
                    root,
                    p.take(j),
                )].kind);
            }
        }
    }

    /// Insert `new_node` as the new first child of the node under the cursor,
    /// and move the cursor onto it.  Fails, changing nothing at all, exactly
    /// when the grammar forbids a first child of that kind under the cursor
    /// node's kind.
    pub fn insert_child(&mut self, new_node: Node) -> (r: Result<(), InsertError>)
        requires
            old(self).wf(),
            node_ok(old(self).arena@, new_node@),
        ensures
            final(self).wf(),
            final(self).grammar == old(self).grammar,
            r is Ok <==> old(self).grammar.allows(
                old(self).arena@[old(self).cursor_node_spec()].kind,
                new_node.kind,
                0,
            ),
            r is Err ==> r == Err::<(), InsertError>(
                InsertError::InvalidChild {
                    parent_kind: old(self).arena@[old(self).cursor_node_spec()].kind,
                    child_kind: new_node.kind,
                    position: 0,
                },
            ) && final(self).arena@ == old(self).arena@ && final(self).history@ == old(
                self,
            ).history@,
            r is Ok ==> ({
                let a0 = old(self).arena@;
                let root0 = old(self).root_spec() as int;
                let p = old(self).cursor_spec();
                let fresh = a0.len() as usize;
                let st = insert_child_state(a0, root0, p, new_node@);
                &&& final(self).arena@ == st.0
                &&& final(self).history@ == commit_model(
                    old(self).history@,
                    VersionModel { root: st.1, cursor: p.push(0) },
                )
                &&& final(self).cursor_spec() == p.push(0)
                &&& final(self).entries().len() == old(self).entries().len() + 1
                &&& final(self).cursor_node_spec() == fresh as int
                &&& final(self).arena@[fresh as int] == new_node@
                &&& final(self).arena@[resolve_path(st.0, st.1 as int, p)].children == seq![fresh]
                    + a0[resolve_path(a0, root0, p)].children
                &&& forall|k: int|
                    0 <= k < a0.len() ==> (#[trigger] final(self).arena@[k]) == a0[k]
                &&& forall|q: Seq<usize>|
                    path_valid(a0, root0, q) && !is_prefix_of(q, p) && !is_prefix_of(p, q)
                        ==> #[trigger] path_valid(st.0, st.1 as int, q)
                &&& forall|q: Seq<usize>|
                    path_valid(a0, root0, q) && !is_prefix_of(q, p) && !is_prefix_of(p, q)
                        ==> #[trigger] resolve_path(st.0, st.1 as int, q) == resolve_path(
                        a0,
                        root0,
                        q,
                    )
            }),
    {
        let ghost a0 = self.arena@;
        let ghost root = self.root_spec() as int;
        let ghost p = self.cursor_spec();
        let ghost nm = new_node@;
        let n = self.history.current_version().cursor.len();
        let path = self.copy_cursor_prefix(n);
        proof {
            assert(path@ =~= p);
        }
        let target = self.resolve_node(self.history.current_version().root, &path, n);
        proof {
            assert(p.take(n as int) =~= p);
        }
        let tkind = self.arena.get(target).kind;
        let child_kind = new_node.kind;
        if !self.grammar.validate_child(tkind, child_kind, 0) {
            return Err(
                InsertError::InvalidChild { parent_kind: tkind, child_kind, position: 0 },
            );
        }
        let fresh = self.arena.allocate(new_node);
        proof {
            lemma_wf_push(a0, nm);
        }
        let mut kids: Vec<usize> = Vec::new();
        kids.push(fresh);
        let tlen = self.arena.get(target).children.len();
        let mut k: usize = 0;
        while k < tlen
            invariant
                k <= tlen,
                self.arena@ == a0.push(nm),
                (target as int) < a0.len(),
                fresh as int == a0.len(),
                tlen == a0[target as int].children.len(),
                kids@ =~= seq![fresh] + a0[target as int].children.take(k as int),
            decreases tlen - k,
        {
            let c = self.arena.get(target).children[k];
            kids.push(c);
            k += 1;
        }
        let ghost rebuilt = NodeModel {
            kind: a0[target as int].kind,
            children: seq![fresh] + a0[target as int].children,
        };
        let replacement = self.arena.allocate(Node { kind: tkind, children: kids });
        let ghost base = a0.push(nm).push(rebuilt);
        proof {
            assert(kids@ =~= rebuilt.children);
            assert(base =~= self.arena@);
            assert(self.arena.nodes.len() == self.arena.nodes@.len());
            assert(base.len() == self.arena@.len());
            assert(replacement == (a0.len() + 1) as usize);
            assert(target as int == resolve_path(a0, root, p));
            assert forall|j: int|
                0 <= j < rebuilt.children.len() implies (#[trigger] rebuilt.children[j]) < a0.len()
                    + 1 by {
                if j > 0 {
                    assert(rebuilt.children[j] == a0[target as int].children[j - 1]);
                }
            }
            lemma_wf_push(a0.push(nm), rebuilt);
            lemma_extend_resolve(a0, base, root, p);
            lemma_versions_ok_extend(a0, base, self.history@.entries);
            if base.len() + p.len() <= usize::MAX {
                lemma_rebuild_props(base, root, p, replacement);
                lemma_rebuild_keeps(base, root, p, replacement);
                let st = rebuild_spec(base, root, p, replacement);
                assert(st.0[replacement as int] == rebuilt);
                lemma_path_push(st.0, st.1 as int, p, 0);
                assert(rebuilt.children[0] == fresh);
            }
        }
        let mut newcursor = self.copy_cursor_prefix(n);
        newcursor.push(0);
        proof {
            assert(newcursor@ =~= p.push(0));
        }
        self.commit_edit(path, replacement, newcursor);
        proof {
            let st = rebuild_spec(base, root, p, replacement);
            lemma_rebuild_keeps(base, root, p, replacement);
            lemma_rebuild_props(base, root, p, replacement);
            assert(old(self).history.entries.len() == old(self).history.entries@.len());
            let g0e = old(self).history@.entries;
            let g1 = self.history@;
            assert(g1.current as int == g0e.len());
            assert(g1.entries[g1.current as int].version == VersionModel {
                root: st.1,
                cursor: p.push(0),
            });
            assert(st.0[replacement as int] == rebuilt);
            assert(st.0[fresh as int] == nm);
            lemma_path_push(st.0, st.1 as int, p, 0);
            assert(rebuilt.children[0] == fresh);
            assert(insert_child_state(a0, root, p, nm) == st);
            assert(self.root_spec() == st.1);
            assert(self.arena@ == st.0);
            assert(self.cursor_spec() == p.push(0));
            assert(resolve_path(st.0, st.1 as int, p) == replacement as int);
            assert(resolve_path(st.0, st.1 as int, p.push(0)) == fresh as int);
            assert(self.cursor_node_spec() == fresh as int);
            assert(self.entries().len() == g0e.len() + 1);
            assert forall|k2: int|
                0 <= k2 < a0.len() implies (#[trigger] self.arena@[k2]) == a0[k2] by {
                assert(st.0[k2] == base[k2]);
            }
            assert forall|q: Seq<usize>|
                path_valid(a0, root, q) && !is_prefix_of(q, p) && !is_prefix_of(p, q) implies
                #[trigger] path_valid(st.0, st.1 as int, q) by {
                lemma_extend_resolve(a0, base, root, q);
                lemma_rebuild_shares(base, root, p, replacement, q);
            }
            assert forall|q: Seq<usize>|
                path_valid(a0, root, q) && !is_prefix_of(q, p) && !is_prefix_of(p, q) implies
                #[trigger] resolve_path(st.0, st.1 as int, q) == resolve_path(a0, root, q) by {
                lemma_extend_resolve(a0, base, root, q);
                lemma_rebuild_shares(base, root, p, replacement, q);
            }
        }
        Ok(())
    }

    /// Insert `new_node` as a sibling of the node under the cursor, on the
    /// given side, and move the cursor onto it.  Fails, changing nothing at
    /// all, when the cursor is at the root (no parent can hold a sibling) or
    /// when the grammar forbids a child of that kind at the target position
    /// under the parent's kind.  The previously selected sibling keeps its
    /// subtree; only its effective index shifts.
    pub fn insert_next_to_cursor(&mut self, new_node: Node, side: Side) -> (r: Result<
        (),
        InsertError,
    >)
        requires
            old(self).wf(),
            node_ok(old(self).arena@, new_node@),
        ensures
            final(self).wf(),
            final(self).grammar == old(self).grammar,
            ({
                let a0 = old(self).arena@;
                let p = old(self).cursor_spec();
                let parent = resolve_path(a0, old(self).root_spec() as int, p.drop_last());
                let pos = if side is Prev {
                    p.last() as int
                } else {
                    p.last() + 1
                };
                r is Ok <==> p.len() > 0 && old(self).grammar.allows(
                    a0[parent].kind,
                    new_node.kind,
                    pos,
                )
            }),
            old(self).cursor_spec().len() == 0 ==> r == Err::<(), InsertError>(
                InsertError::SiblingAtRoot,
            ) && final(self).arena@ == old(self).arena@ && final(self).history@ == old(
                self,
            ).history@,
            ({
                let a0 = old(self).arena@;
                let p = old(self).cursor_spec();
                let parent = resolve_path(a0, old(self).root_spec() as int, p.drop_last());
                let pos = if side is Prev {
                    p.last() as int
                } else {
                    p.last() + 1
                };
                p.len() > 0 && !old(self).grammar.allows(a0[parent].kind, new_node.kind, pos)
                    ==> r == Err::<(), InsertError>(
                    InsertError::InvalidChild {
                        parent_kind: a0[parent].kind,
                        child_kind: new_node.kind,
                        position: pos as usize,
                    },
                ) && final(self).arena@ == a0 && final(self).history@ == old(self).history@
            }),
            r is Ok ==> ({
                let a0 = old(self).arena@;
                let root0 = old(self).root_spec() as int;
                let p = old(self).cursor_spec();
                let parent = resolve_path(a0, root0, p.drop_last());
                let pos = if side is Prev {
                    p.last() as int
                } else {
                    p.last() + 1
                };
                let fresh = a0.len() as usize;
                let st = insert_sibling_state(a0, root0, p, pos, new_node@);
                &&& final(self).arena@ == st.0
                &&& final(self).history@ == commit_model(
                    old(self).history@,
                    VersionModel { root: st.1, cursor: p.drop_last().push(pos as usize) },
                )
                &&& final(self).cursor_spec() == p.drop_last().push(pos as usize)
                &&& final(self).entries().len() == old(self).entries().len() + 1
                &&& final(self).cursor_node_spec() == fresh as int
                &&& final(self).arena@[fresh as int] == new_node@
                &&& final(self).arena@[resolve_path(st.0, st.1 as int, p.drop_last())].children
                    == a0[parent].children.insert(pos, fresh)
                &&& forall|k: int|
                    0 <= k < a0.len() ==> (#[trigger] final(self).arena@[k]) == a0[k]
                &&& forall|q: Seq<usize>|
                    path_valid(a0, root0, q) && !is_prefix_of(q, p.drop_last()) && !is_prefix_of(
                        p.drop_last(),
                        q,
                    ) ==> #[trigger] path_valid(st.0, st.1 as int, q)
                &&& forall|q: Seq<usize>|
                    path_valid(a0, root0, q) && !is_prefix_of(q, p.drop_last()) && !is_prefix_of(
                        p.drop_last(),
                        q,
                    ) ==> #[trigger] resolve_path(st.0, st.1 as int, q) == resolve_path(
                        a0,
                        root0,
                        q,
                    )
            }),
    {
        let ghost a0 = self.arena@;
        let ghost root = self.root_spec() as int;
        let ghost p = self.cursor_spec();
        let ghost nm = new_node@;
        let n = self.history.current_version().cursor.len();
        if n == 0 {
            return Err(InsertError::SiblingAtRoot);
        }
        let path = self.copy_cursor_prefix(n - 1);
        proof {
            assert(path@ =~= p.drop_last());
            lemma_path_take(a0, root, p, n - 1);
            assert(p.take(n - 1) =~= p.drop_last());
            assert(p.skip(n - 1) =~= seq![p.last()]);
            assert(p.skip(n - 1)[0] == p.last());
        }
        let idx = self.history.current_version().cursor[n - 1];
        let parent = self.resolve_node(self.history.current_version().root, &path, n - 1);
        proof {
            assert(p.drop_last().take(n - 1) =~= p.drop_last());
            assert(parent as int == resolve_path(a0, root, p.drop_last()));
        }
        let plen = self.arena.get(parent).children.len();
        proof {
            assert((idx as int) < plen as int);
        }
        let pos = match side {
            Side::Prev => idx,
            Side::Next => idx + 1,
        };
        let pkind = self.arena.get(parent).kind;
        let child_kind = new_node.kind;
        if !self.grammar.validate_child(pkind, child_kind, pos) {
            return Err(
                InsertError::InvalidChild { parent_kind: pkind, child_kind, position: pos },
            );
        }
        let fresh = self.arena.allocate(new_node);
        proof {
            lemma_wf_push(a0, nm);
        }
        let mut kids: Vec<usize> = Vec::new();
        let mut k: usize = 0;
        while k < pos
            invariant
                k <= pos,
                pos <= plen,
                self.arena@ == a0.push(nm),
                (parent as int) < a0.len(),
                plen == a0[parent as int].children.len(),
                kids@ =~= a0[parent as int].children.take(k as int),
            decreases pos - k,
        {
            let c = self.arena.get(parent).children[k];
            kids.push(c);
            k += 1;
        }
        kids.push(fresh);
        while k < plen
            invariant
                pos <= k <= plen,
                self.arena@ == a0.push(nm),
                (parent as int) < a0.len(),
                plen == a0[parent as int].children.len(),
                fresh as int == a0.len(),
                kids@ =~= a0[parent as int].children.take(pos as int).push(fresh) + a0[parent
                    as int].children.subrange(pos as int, k as int),
            decreases plen - k,
        {
            let c = self.arena.get(parent).children[k];
            kids.push(c);
            k += 1;
        }
        let ghost spliced = a0[parent as int].children.insert(pos as int, fresh);
        let ghost rebuilt = NodeModel { kind: a0[parent as int].kind, children: spliced };
        let replacement = self.arena.allocate(Node { kind: pkind, children: kids });
        let ghost base = a0.push(nm).push(rebuilt);
        proof {
            a0[parent as int].children.insert_ensures(pos as int, fresh);
            assert(kids@ =~= spliced);
            assert(base =~= self.arena@);
            assert(self.arena.nodes.len() == self.arena.nodes@.len());
            assert(base.len() == self.arena@.len());
            assert(replacement == (a0.len() + 1) as usize);
            assert forall|j: int|
                0 <= j < rebuilt.children.len() implies (#[trigger] rebuilt.children[j]) < a0.len()
                    + 1 by {
                if j < pos as int {
                    assert(spliced[j] == a0[parent as int].children[j]);
                } else if j == pos as int {
                    assert(spliced[j] == fresh);
                } else {
                    assert(spliced[j] == a0[parent as int].children[j - 1]);
                }
            }
            lemma_wf_push(a0.push(nm), rebuilt);
            lemma_extend_resolve(a0, base, root, p.drop_last());
            lemma_versions_ok_extend(a0, base, self.history@.entries);
            if base.len() + p.drop_last().len() <= usize::MAX {
                lemma_rebuild_props(base, root, p.drop_last(), replacement);
                lemma_rebuild_keeps(base, root, p.drop_last(), replacement);
                let st = rebuild_spec(base, root, p.drop_last(), replacement);
                assert(st.0[replacement as int] == rebuilt);
                lemma_path_push(st.0, st.1 as int, p.drop_last(), pos);
                assert(rebuilt.children[pos as int] == fresh);
            }
        }
        let mut newcursor = self.copy_cursor_prefix(n - 1);
        newcursor.push(pos);
        proof {
            assert(newcursor@ =~= p.drop_last().push(pos));
        }
        self.commit_edit(path, replacement, newcursor);
        proof {
            let st = rebuild_spec(base, root, p.drop_last(), replacement);
            lemma_rebuild_keeps(base, root, p.drop_last(), replacement);
            lemma_rebuild_props(base, root, p.drop_last(), replacement);
            a0[parent as int].children.insert_ensures(pos as int, fresh);
            assert(old(self).history.entries.len() == old(self).history.entries@.len());
            let g0e = old(self).history@.entries;
            let g1 = self.history@;
            assert(g1.current as int == g0e.len());
            assert(g1.entries[g1.current as int].version == VersionModel {
                root: st.1,
                cursor: p.drop_last().push(pos),
            });
            assert(st.0[replacement as int] == rebuilt);
            assert(st.0[fresh as int] == nm);
            lemma_path_push(st.0, st.1 as int, p.drop_last(), pos);
            assert(rebuilt.children[pos as int] == fresh);
            assert(insert_sibling_state(a0, root, p, pos as int, nm) == st);
            assert(self.root_spec() == st.1);
            assert(self.arena@ == st.0);
            assert(self.cursor_spec() == p.drop_last().push(pos));
            assert(resolve_path(st.0, st.1 as int, p.drop_last()) == replacement as int);
            assert(resolve_path(st.0, st.1 as int, p.drop_last().push(pos)) == fresh as int);
            assert(self.cursor_node_spec() == fresh as int);
            assert(self.entries().len() == g0e.len() + 1);
            assert forall|k2: int|
                0 <= k2 < a0.len() implies (#[trigger] self.arena@[k2]) == a0[k2] by {
                assert(st.0[k2] == base[k2]);
            }
            assert forall|q: Seq<usize>|
                path_valid(a0, root, q) && !is_prefix_of(q, p.drop_last()) && !is_prefix_of(
                    p.drop_last(),
                    q,
                ) implies #[trigger] path_valid(st.0, st.1 as int, q) by {
                lemma_extend_resolve(a0, base, root, q);
                lemma_rebuild_shares(base, root, p.drop_last(), replacement, q);
            }
            assert forall|q: Seq<usize>|
                path_valid(a0, root, q) && !is_prefix_of(q, p.drop_last()) && !is_prefix_of(
                    p.drop_last(),
                    q,
                ) implies #[trigger] resolve_path(st.0, st.1 as int, q) == resolve_path(
                a0,
                root,
                q,
            ) by {
                lemma_extend_resolve(a0, base, root, q);
                lemma_rebuild_shares(base, root, p.drop_last(), replacement, q);
            }
        }
        Ok(())
    }

    /// Round trip: after a successful `insert_child`, moving `Up` and then
    /// `Down` brings the cursor back to the freshly inserted child.  The
    /// premises are what `insert_child` ensures of the new version: the node
    /// at the insertion path has the fresh node as its first child.
    pub proof fn lemma_insert_up_down_round_trip(
        a: Seq<NodeModel>,
        root: int,
        p: Seq<usize>,
        fresh: usize,
    )
        requires
            arena_wf(a),
            0 <= root < a.len(),
            path_valid(a, root, p),
            a[resolve_path(a, root, p)].children.len() > 0,
            a[resolve_path(a, root, p)].children[0] == fresh,
        ensures
            ({
                let c1 = p.push(0);
                let up = nav_spec(a, root, c1, Direction::Up);
                &&& up is Some
                &&& up->0 == p
                &&& nav_spec(a, root, up->0, Direction::Down) == Some(c1)
                &&& resolve_path(a, root, c1) == fresh as int
            }),
    {
        lemma_path_push(a, root, p, 0);
        assert(p.push(0).drop_last() =~= p);
    }

    /// Overwrite the current version's cursor path with an already-validated
    /// one.
    fn set_cursor_checked(&mut self, newpath: Vec<usize>)
        requires
            old(self).wf(),
            path_valid(old(self).arena@, old(self).root_spec() as int, newpath@),
        ensures
            final(self).wf(),
            final(self).arena@ == old(self).arena@,
            final(self).grammar == old(self).grammar,
            final(self).history@ == set_cursor_model(old(self).history@, newpath@),
            final(self).entries().len() == old(self).entries().len(),
    {
        let ghost g0 = self.history@;
        self.history.set_cursor(newpath);
        proof {
            let es1 = self.history@.entries;
            assert forall|i: int| 0 <= i < es1.len() implies {
                let v = (#[trigger] es1[i]).version;
                &&& (v.root as int) < self.arena@.len()
                &&& path_valid(self.arena@, v.root as int, v.cursor)
            } by {
                if i != g0.current as int {
                    assert(es1[i] == g0.entries[i]);
                } else {
                    assert(es1[i].version.root == g0.entries[i].version.root);
                }
            }
        }
    }
}

} // verus!
