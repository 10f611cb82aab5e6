//! Branching, append-only edit history.
//!
//! Every committed version stays reachable forever: an edit made after an undo
//! starts a sibling branch instead of overwriting anything.  Redo is
//! deterministic because each entry remembers the child it last followed.

use vstd::prelude::*;

verus! {

/// One point in editing history: a root reference and the cursor path that was
/// current in that version.
pub struct Version {
    pub root: usize,
    pub cursor: Vec<usize>,
}

/// Mathematical model of a version.
pub struct VersionModel {
    pub root: usize,
    pub cursor: Seq<usize>,
}

impl View for Version {
    type V = VersionModel;

    open spec fn view(&self) -> VersionModel {
        VersionModel { root: self.root, cursor: self.cursor@ }
    }
}

/// One history entry.  `children` and `last_redo` are the only fields that
/// ever change after creation, and only to record new branches.
pub struct HistoryEntry {
    pub version: Version,
    pub parent: Option<usize>,
    pub children: Vec<usize>,
    pub last_redo: Option<usize>,
}

/// Mathematical model of a history entry.
pub struct EntryModel {
    pub version: VersionModel,
    pub parent: Option<usize>,
    pub children: Seq<usize>,
    pub last_redo: Option<usize>,
}

impl View for HistoryEntry {
    type V = EntryModel;

    open spec fn view(&self) -> EntryModel {
        EntryModel {
            version: self.version@,
            parent: self.parent,
            children: self.children@,
            last_redo: self.last_redo,
        }
    }
}

/// A growable store of entries plus the single "current" pointer.
pub struct HistoryGraph {
    pub entries: Vec<HistoryEntry>,
    pub current: usize,
}

/// Mathematical model of the graph.
pub struct GraphModel {
    pub entries: Seq<EntryModel>,
    pub current: usize,
}

impl View for HistoryGraph {
    type V = GraphModel;

    open spec fn view(&self) -> GraphModel {
        GraphModel {
            entries: self.entries@.map(|i: int, e: HistoryEntry| e@),
            current: self.current,
        }
    }
}

/// Well-formedness: the root entry is the unique parentless one, every other
/// parent link points strictly backwards (so parent chains are finite and
/// acyclic), child links point strictly forwards at live entries that
/// acknowledge their parent, and the last-followed-redo pointer, present
/// exactly when there are children, names one of them.
pub open spec fn graph_wf(g: GraphModel) -> bool {
    &&& 1 <= g.entries.len()
    &&& (g.current as int) < g.entries.len()
    &&& g.entries[0].parent is None
    &&& forall|i: int|
        1 <= i < g.entries.len() ==> (#[trigger] g.entries[i].parent) is Some
            && (g.entries[i].parent->0 as int) < i
    &&& forall|i: int, j: int|
        0 <= i < g.entries.len() && 0 <= j < g.entries[i].children.len() ==> i < (
        #[trigger] g.entries[i].children[j] as int) < g.entries.len()
            && g.entries[g.entries[i].children[j] as int].parent == Some(i as usize)
    &&& forall|i: int|
        0 <= i < g.entries.len() ==> ((#[trigger] g.entries[i].last_redo) is Some <==> g.entries[i].children.len()
            > 0)
    &&& forall|i: int|
        0 <= i < g.entries.len() && g.entries[i].last_redo is Some ==> g.entries[i].children.contains(
            (#[trigger] g.entries[i].last_redo)->0,
        )
}

/// The graph after committing version `v`: a new entry is appended as a child
/// of the current one, recorded as its last-followed branch, and becomes
/// current.
pub open spec fn commit_model(g: GraphModel, v: VersionModel) -> GraphModel {
    let newi = g.entries.len() as usize;
    let cur = g.entries[g.current as int];
    let updated = EntryModel {
        version: cur.version,
        parent: cur.parent,
        children: cur.children.push(newi),
        last_redo: Some(newi),
    };
    GraphModel {
        entries: g.entries.update(g.current as int, updated).push(
            EntryModel {
                version: v,
                parent: Some(g.current),
                children: Seq::empty(),
                last_redo: None,
            },
        ),
        current: newi,
    }
}

/// The graph after an undo: current moves to its parent if it has one;
/// otherwise nothing changes.  The flag says whether a step was taken.
pub open spec fn undo_model(g: GraphModel) -> (bool, GraphModel) {
    match g.entries[g.current as int].parent {
        Some(p) => (true, GraphModel { entries: g.entries, current: p }),
        None => (false, g),
    }
}

/// The graph after a redo: current moves to the child it last followed, if it
/// has any children; otherwise nothing changes.
pub open spec fn redo_model(g: GraphModel) -> (bool, GraphModel) {
    match g.entries[g.current as int].last_redo {
        Some(r) => (true, GraphModel { entries: g.entries, current: r }),
        None => (false, g),
    }
}

/// The graph after replacing the current entry's cursor path: navigation never
/// adds or removes entries.
pub open spec fn set_cursor_model(g: GraphModel, cursor: Seq<usize>) -> GraphModel {
    let cur = g.entries[g.current as int];
    let updated = EntryModel {
        version: VersionModel { root: cur.version.root, cursor },
        parent: cur.parent,
        children: cur.children,
        last_redo: cur.last_redo,
    };
    GraphModel { entries: g.entries.update(g.current as int, updated), current: g.current }
}

/// Committing preserves well-formedness.
pub proof fn lemma_commit_wf(g: GraphModel, v: VersionModel)
    requires
        graph_wf(g),
        g.entries.len() < usize::MAX,
    ensures
        graph_wf(commit_model(g, v)),
{
    let g1 = commit_model(g, v);
    let n = g.entries.len() as int;
    let curi = g.current as int;
    assert forall|i: int|
        1 <= i < g1.entries.len() implies (#[trigger] g1.entries[i].parent) is Some
        && (g1.entries[i].parent->0 as int) < i by {
        if i < n {
            assert(g1.entries[i].parent == g.entries[i].parent);
        }
    }
    assert forall|i: int, j: int|
        0 <= i < g1.entries.len() && 0 <= j < g1.entries[i].children.len() implies i < (
    #[trigger] g1.entries[i].children[j] as int) < g1.entries.len() && g1.entries[g1.entries[i].children[j] as int].parent
        == Some(i as usize) by {
        if i == curi {
            if j < g.entries[i].children.len() {
                assert(g1.entries[i].children[j] == g.entries[i].children[j]);
                assert(g.entries[g.entries[i].children[j] as int].parent == Some(i as usize));
                assert(g.entries[i].children[j] as int != curi);
            } else {
                assert(g1.entries[i].children[j] == n as usize);
            }
        } else if i < n {
            assert(g1.entries[i].children == g.entries[i].children);
            let c = g.entries[i].children[j] as int;
            assert(g.entries[c].parent == Some(i as usize));
            if c == curi {
                assert(g1.entries[c].parent == g.entries[c].parent);
            }
        }
    }
    assert forall|i: int|
        0 <= i < g1.entries.len() implies ((#[trigger] g1.entries[i].last_redo) is Some
        <==> g1.entries[i].children.len() > 0) by {
        if i == curi {
            assert(g1.entries[i].children.len() == g.entries[i].children.len() + 1);
        } else if i < n {
            assert(g1.entries[i] == g.entries[i]);
        }
    }
    assert forall|i: int|
        0 <= i < g1.entries.len() && g1.entries[i].last_redo is Some implies g1.entries[i].children.contains(
            (#[trigger] g1.entries[i].last_redo)->0,
        ) by {
        if i == curi {
            assert(g1.entries[i].children.last() == n as usize);
        } else if i < n {
            assert(g1.entries[i] == g.entries[i]);
            let r = g.entries[i].last_redo->0;
            let j = choose|j: int|
                0 <= j < g.entries[i].children.len() && g.entries[i].children[j] == r;
            assert(g1.entries[i].children[j] == r);
        }
    }
}

/// Replacing the cursor of the current entry preserves well-formedness.
pub proof fn lemma_set_cursor_wf(g: GraphModel, cursor: Seq<usize>)
    requires
        graph_wf(g),
    ensures
        graph_wf(set_cursor_model(g, cursor)),
{
    let g1 = set_cursor_model(g, cursor);
    assert forall|i: int|
        1 <= i < g1.entries.len() implies (#[trigger] g1.entries[i].parent) is Some
        && (g1.entries[i].parent->0 as int) < i by {
        assert(g1.entries[i].parent == g.entries[i].parent);
    }
    assert forall|i: int, j: int|
        0 <= i < g1.entries.len() && 0 <= j < g1.entries[i].children.len() implies i < (
    #[trigger] g1.entries[i].children[j] as int) < g1.entries.len() && g1.entries[g1.entries[i].children[j] as int].parent
        == Some(i as usize) by {
        assert(g1.entries[i].children == g.entries[i].children);
        assert(g1.entries[g.entries[i].children[j] as int].parent == g.entries[g.entries[i].children[j] as int].parent);
    }
    assert forall|i: int|
        0 <= i < g1.entries.len() implies ((#[trigger] g1.entries[i].last_redo) is Some
        <==> g1.entries[i].children.len() > 0) by {
        assert(g1.entries[i].last_redo == g.entries[i].last_redo);
        assert(g1.entries[i].children == g.entries[i].children);
    }
    assert forall|i: int|
        0 <= i < g1.entries.len() && g1.entries[i].last_redo is Some implies g1.entries[i].children.contains(
            (#[trigger] g1.entries[i].last_redo)->0,
        ) by {
        assert(g1.entries[i].last_redo == g.entries[i].last_redo);
        assert(g1.entries[i].children == g.entries[i].children);
    }
}

/// A chain of `k` parent steps from `c` where every parent's
/// last-followed-redo pointer leads back down the chain.  This is exactly the
/// state a run of `k` commits leaves behind.
pub open spec fn redo_chain_ok(es: Seq<EntryModel>, c: usize, k: nat) -> bool
    decreases k,
{
    k == 0 || {
        &&& (c as int) < es.len()
        &&& es[c as int].parent is Some
        &&& (es[c as int].parent->0 as int) < c as int
        &&& es[es[c as int].parent->0 as int].last_redo == Some(c)
        &&& redo_chain_ok(es, es[c as int].parent->0, (k - 1) as nat)
    }
}

/// The graph after `k` undos.
pub open spec fn undo_n(g: GraphModel, k: nat) -> GraphModel
    decreases k,
{
    if k == 0 {
        g
    } else {
        undo_n(undo_model(g).1, (k - 1) as nat)
    }
}

/// All of `k` undos take a step.
pub open spec fn undo_n_ok(g: GraphModel, k: nat) -> bool
    decreases k,
{
    k == 0 || (undo_model(g).0 && undo_n_ok(undo_model(g).1, (k - 1) as nat))
}

/// The graph after `k` redos.
pub open spec fn redo_n(g: GraphModel, k: nat) -> GraphModel
    decreases k,
{
    if k == 0 {
        g
    } else {
        redo_model(redo_n(g, (k - 1) as nat)).1
    }
}

/// All of `k` redos take a step.
pub open spec fn redo_n_ok(g: GraphModel, k: nat) -> bool
    decreases k,
{
    k == 0 || (redo_n_ok(g, (k - 1) as nat) && redo_model(redo_n(g, (k - 1) as nat)).0)
}

/// The graph after committing each version of `vs` in turn.
pub open spec fn commit_all(g: GraphModel, vs: Seq<VersionModel>) -> GraphModel
    decreases vs.len(),
{
    if vs.len() == 0 {
        g
    } else {
        commit_model(commit_all(g, vs.drop_last()), vs.last())
    }
}

/// A redo chain survives any change that keeps every entry strictly below its
/// start, and the start's own parent link, intact.
proof fn lemma_chain_stable(es1: Seq<EntryModel>, es2: Seq<EntryModel>, c: usize, k: nat)
    requires
        redo_chain_ok(es1, c, k),
        (c as int) < es2.len(),
        forall|i: int|
            0 <= i < c as int ==> (#[trigger] es2[i]).parent == es1[i].parent
                && es2[i].last_redo == es1[i].last_redo,
        es2[c as int].parent == es1[c as int].parent,
    ensures
        redo_chain_ok(es2, c, k),
    decreases k,
{
    if k > 0 {
        let p = es1[c as int].parent->0;
        lemma_chain_stable(es1, es2, p, (k - 1) as nat);
    }
}

/// A run of commits leaves a redo chain of its own length behind the new
/// current entry.
proof fn lemma_commit_chain(g: GraphModel, vs: Seq<VersionModel>)
    requires
        graph_wf(g),
        g.entries.len() + vs.len() <= usize::MAX,
    ensures
        graph_wf(commit_all(g, vs)),
        commit_all(g, vs).entries.len() == g.entries.len() + vs.len(),
        redo_chain_ok(commit_all(g, vs).entries, commit_all(g, vs).current, vs.len()),
    decreases vs.len(),
{
    if vs.len() > 0 {
        lemma_commit_chain(g, vs.drop_last());
        let g0 = commit_all(g, vs.drop_last());
        lemma_commit_wf(g0, vs.last());
        let g1 = commit_model(g0, vs.last());
        let c = g0.current;
        lemma_chain_stable(g0.entries, g1.entries, c, (vs.len() - 1) as nat);
        assert(g1.entries[c as int].last_redo == Some(g1.current));
        assert(g1.entries[g1.current as int].parent == Some(c));
    }
}

/// Undoing down a redo chain and redoing back up restores the graph exactly.
proof fn lemma_chain_restores(g: GraphModel, k: nat)
    requires
        redo_chain_ok(g.entries, g.current, k),
    ensures
        undo_n_ok(g, k),
        redo_n_ok(undo_n(g, k), k),
        redo_n(undo_n(g, k), k) == g,
    decreases k,
{
    if k > 0 {
        let gp = undo_model(g).1;
        assert(gp.entries == g.entries);
        lemma_chain_restores(gp, (k - 1) as nat);
        assert(undo_n(g, k) == undo_n(gp, (k - 1) as nat));
        let back = redo_n(undo_n(gp, (k - 1) as nat), (k - 1) as nat);
        assert(back == gp);
        assert(redo_model(gp).1 == g);
    }
}

/// Undo/redo inverse law: after a run of `N` successful edits, `N` undos
/// followed by `N` redos all take a step and restore exactly the graph state
/// that held after the last edit — in particular the same root reference and
/// the same cursor path.
pub proof fn lemma_undo_redo_inverse(g: GraphModel, vs: Seq<VersionModel>)
    requires
        graph_wf(g),
        g.entries.len() + vs.len() <= usize::MAX,
    ensures
        ({
            let g1 = commit_all(g, vs);
            &&& undo_n_ok(g1, vs.len())
            &&& redo_n_ok(undo_n(g1, vs.len()), vs.len())
            &&& redo_n(undo_n(g1, vs.len()), vs.len()) == g1
        }),
{
    lemma_commit_chain(g, vs);
    lemma_chain_restores(commit_all(g, vs), vs.len());
}

impl HistoryGraph {
    /// The graph at the start of a session: one entry wrapping the initial
    /// version, which is current.
    pub fn new(v: Version) -> (g: HistoryGraph)
        ensures
            g@.entries =~= seq![
                EntryModel {
                    version: v@,
                    parent: None,
                    children: Seq::empty(),
                    last_redo: None,
                },
            ],
            g@.current == 0,
            graph_wf(g@),
    {
        let g = HistoryGraph {
            entries: vec![
                HistoryEntry { version: v, parent: None, children: Vec::new(), last_redo: None },
            ],
            current: 0,
        };
        proof {
            assert(g@.entries =~= seq![
                EntryModel {
                    version: g.entries@[0].version@,
                    parent: None,
                    children: Seq::empty(),
                    last_redo: None,
                },
            ]);
        }
        g
    }

    /// Append `v` as a new entry below the current one and make it current.
    pub fn commit(&mut self, v: Version)
        requires
            graph_wf(old(self)@),
        ensures
            final(self)@ == commit_model(old(self)@, v@),
            graph_wf(final(self)@),
    {
        let newi = self.entries.len();
        let cur = self.current;
        self.entries[cur].children.push(newi);
        self.entries[cur].last_redo = Some(newi);
        self.entries.push(
            HistoryEntry { version: v, parent: Some(cur), children: Vec::new(), last_redo: None },
        );
        self.current = newi;
        proof {
            assert(self.entries.len() == self.entries@.len());
            assert(self@.entries =~= commit_model(old(self)@, v@).entries);
            lemma_commit_wf(old(self)@, v@);
        }
    }

    /// Step back to the parent entry; `false` (and no change) if already at
    /// the session's initial version.
    pub fn undo(&mut self) -> (r: bool)
        requires
            graph_wf(old(self)@),
        ensures
            r == undo_model(old(self)@).0,
            final(self)@ == undo_model(old(self)@).1,
            graph_wf(final(self)@),
    {
        match self.entries[self.current].parent {
            Some(p) => {
                self.current = p;
                true
            },
            None => false,
        }
    }

    /// Step forward again along the most recently followed branch; `false`
    /// (and no change) if no edit below this entry was ever made.
    pub fn redo(&mut self) -> (r: bool)
        requires
            graph_wf(old(self)@),
        ensures
            r == redo_model(old(self)@).0,
            final(self)@ == redo_model(old(self)@).1,
            graph_wf(final(self)@),
    {
        match self.entries[self.current].last_redo {
            Some(r) => {
                proof {
                    let g = old(self)@;
                    let curi = g.current as int;
                    let rr = g.entries[curi].last_redo->0;
                    let j = choose|j: int|
                        0 <= j < g.entries[curi].children.len() && g.entries[curi].children[j]
                            == rr;
                    assert(curi < (g.entries[curi].children[j] as int) < g.entries.len());
                }
                self.current = r;
                true
            },
            None => false,
        }
    }

    /// Overwrite only the cursor path of the current entry's version.
    pub fn set_cursor(&mut self, cursor: Vec<usize>)
        requires
            graph_wf(old(self)@),
        ensures
            final(self)@ == set_cursor_model(old(self)@, cursor@),
            graph_wf(final(self)@),
    {
        let cur = self.current;
        self.entries[cur].version.cursor = cursor;
        proof {
            assert(self@.entries =~= set_cursor_model(old(self)@, cursor@).entries);
            lemma_set_cursor_wf(old(self)@, cursor@);
        }
    }

    /// The version the buffer currently shows.
    pub fn current_version(&self) -> (v: &Version)
        requires
            graph_wf(self@),
        ensures
            v@ == self@.entries[self@.current as int].version,
    {
        &self.entries[self.current].version
    }

    /// How many versions were ever recorded.
    pub fn entry_count(&self) -> (n: usize)
        ensures
            n == self@.entries.len(),
    {
        self.entries.len()
    }
}

} // verus!
