//! Rendering a tree version to text.
//!
//! The grammar capability renders one node from its children's texts; the
//! buffer walks the tree and folds those renderings together.  Termination is
//! by the arena's well-formedness: every child reference lies strictly below
//! its parent's index.

use vstd::prelude::*;
use vstd::string::StringExecFns;

use crate::arena::{arena_wf, NodeModel};
use crate::editable_tree::EditableTree;
use crate::grammar::Grammar;

verus! {

/// The text of the subtree rooted at `i`, as grammar `g` renders it.
pub open spec fn render_text<G: Grammar>(g: G, a: Seq<NodeModel>, i: int, format: u64) -> Seq<char>
    decreases i, a[i].children.len(), 1int,
        when arena_wf(a) && 0 <= i < a.len()
{
    g.node_text(a[i].kind, render_kid_texts(g, a, i, 0, format), format)
}

/// The texts of children `j..` of the node at `i`, in order.
pub open spec fn render_kid_texts<G: Grammar>(
    g: G,
    a: Seq<NodeModel>,
    i: int,
    j: int,
    format: u64,
) -> Seq<Seq<char>>
    decreases i, a[i].children.len() - j, 0int,
        when arena_wf(a) && 0 <= i < a.len() && 0 <= j
{
    if j >= a[i].children.len() {
        Seq::empty()
    } else {
        seq![render_text(g, a, a[i].children[j] as int, format)] + render_kid_texts(
            g,
            a,
            i,
            j + 1,
            format,
        )
    }
}

impl<G: Grammar> EditableTree<G> {
    /// Render the subtree at `node` into a fresh string.
    fn render_node_text(&self, node: usize, format: u64) -> (r: String)
        requires
            arena_wf(self.arena@),
            (node as int) < self.arena@.len(),
        ensures
            r@ == render_text(self.grammar, self.arena@, node as int, format),
        decreases node,
    {
        let ghost a = self.arena@;
        let count = self.arena.get(node).children.len();
        let mut texts: Vec<String> = Vec::new();
        let mut j: usize = 0;
        proof {
            assert(texts@.map(|j: int, s: String| s@) =~= Seq::<Seq<char>>::empty());
            assert(Seq::<Seq<char>>::empty() + render_kid_texts(
                self.grammar,
                a,
                node as int,
                0,
                format,
            ) =~= render_kid_texts(self.grammar, a, node as int, 0, format));
        }
        while j < count
            invariant
                j <= count,
                a == self.arena@,
                arena_wf(a),
                (node as int) < a.len(),
                count == a[node as int].children.len(),
                texts@.map(|j: int, s: String| s@) + render_kid_texts(
                    self.grammar,
                    a,
                    node as int,
                    j as int,
                    format,
                ) == render_kid_texts(self.grammar, a, node as int, 0, format),
            decreases count - j,
        {
            let ghost m0 = texts@.map(|j: int, s: String| s@);
            let c = self.arena.get(node).children[j];
            proof {
                assert((c as int) < node as int);
            }
            let t = self.render_node_text(c, format);
            texts.push(t);
            proof {
                let tv = render_text(self.grammar, a, c as int, format);
                let rest = render_kid_texts(self.grammar, a, node as int, j as int + 1, format);
                assert(texts@.map(|j: int, s: String| s@) =~= m0.push(tv));
                assert(render_kid_texts(self.grammar, a, node as int, j as int, format)
                    == seq![tv] + rest);
                assert(m0.push(tv) =~= m0 + seq![tv]);
                assert((m0 + seq![tv]) + rest =~= m0 + (seq![tv] + rest));
            }
            j += 1;
        }
        proof {
            assert(render_kid_texts(self.grammar, a, node as int, count as int, format) =~= Seq::<
                Seq<char>,
            >::empty());
            assert(texts@.map(|j: int, s: String| s@) + Seq::<Seq<char>>::empty() =~= texts@.map(
                |j: int, s: String| s@,
            ));
        }
        let kind = self.arena.get(node).kind;
        self.grammar.render_node(kind, &texts, format)
    }

    /// Build the text representation of the current tree into `string`.
    pub fn write_text(&self, string: &mut String, format: u64)
        requires
            self.wf(),
        ensures
            final(string)@ == old(string)@ + render_text(
                self.grammar,
                self.arena@,
                self.root_spec() as int,
                format,
            ),
    {
        let root = self.history.current_version().root;
        let t = self.render_node_text(root, format);
        string.append(t.as_str());
    }

    /// Build and return the text of the current tree.
    pub fn to_text(&self, format: u64) -> (r: String)
        requires
            self.wf(),
        ensures
            r@ == render_text(self.grammar, self.arena@, self.root_spec() as int, format),
    {
        let mut s = String::new();
        self.write_text(&mut s, format);
        proof {
            assert(Seq::<char>::empty() + render_text(
                self.grammar,
                self.arena@,
                self.root_spec() as int,
                format,
            ) =~= render_text(self.grammar, self.arena@, self.root_spec() as int, format));
        }
        s
    }
}

} // verus!
