//! The node-grammar capability.
//!
//! The engine never inspects node kinds itself: what children a kind may hold
//! and how a node prints are supplied by an implementation of [`Grammar`],
//! which the edit and display operations call generically.

use vstd::prelude::*;
use vstd::string::StringExecFns;

verus! {

/// What a node-kind set must provide: a validity rule for child positions and
/// a renderer for one node given the text of its children.
pub trait Grammar: Sized {
    /// May a child of kind `child_kind` stand at `position` under a parent of
    /// kind `parent_kind`?
    spec fn allows(&self, parent_kind: u64, child_kind: u64, position: int) -> bool;

    /// The text of a node of kind `kind` whose children print as
    /// `child_texts`, under format configuration `format`.
    spec fn node_text(&self, kind: u64, child_texts: Seq<Seq<char>>, format: u64) -> Seq<char>;

    /// Decide [`Grammar::allows`].
    fn validate_child(&self, parent_kind: u64, child_kind: u64, position: usize) -> (r: bool)
        ensures
            r == self.allows(parent_kind, child_kind, position as int),
    ;

    /// Render one node from its children's renderings, as
    /// [`Grammar::node_text`] describes.
    fn render_node(&self, kind: u64, child_texts: &Vec<String>, format: u64) -> (r: String)
        ensures
            r@ == self.node_text(kind, child_texts@.map(|j: int, s: String| s@), format),
    ;
}

/// A list node: any number of children of any kind of this grammar.
pub const KIND_LIST: u64 = 0;

/// The atom `a`: no children.
pub const KIND_ATOM_A: u64 = 1;

/// The atom `b`: no children.
pub const KIND_ATOM_B: u64 = 2;

/// The texts of a sequence of children, concatenated in order.
pub open spec fn concat_texts(texts: Seq<Seq<char>>) -> Seq<char>
    decreases texts.len(),
{
    if texts.len() == 0 {
        Seq::empty()
    } else {
        texts[0] + concat_texts(texts.skip(1))
    }
}

/// Concatenation of one more text extends the concatenation of the first `k`.
pub proof fn lemma_concat_texts_take(texts: Seq<Seq<char>>, k: int)
    requires
        0 <= k < texts.len(),
    ensures
        concat_texts(texts.take(k + 1)) == concat_texts(texts.take(k)) + texts[k],
    decreases k,
{
    reveal_with_fuel(concat_texts, 3);
    if k == 0 {
        assert(texts[0] + Seq::<char>::empty() =~= texts[0]);
        assert(texts.take(1) =~= seq![texts[0]]);
        assert(texts.take(1).skip(1) =~= Seq::<Seq<char>>::empty());
        assert(texts.take(0) =~= Seq::<Seq<char>>::empty());
        assert(concat_texts(texts.take(1)) =~= texts[0]);
        assert(concat_texts(texts.take(0)) + texts[0] =~= texts[0]);
    } else {
        lemma_concat_texts_take(texts.skip(1), k - 1);
        assert(texts.take(k + 1)[0] == texts[0]);
        assert(texts.take(k + 1).skip(1) =~= texts.skip(1).take(k));
        assert(texts.take(k).skip(1) =~= texts.skip(1).take(k - 1));
        assert(texts.take(k)[0] == texts[0]);
        assert(texts.skip(1)[k - 1] == texts[k]);
        assert((texts[0] + concat_texts(texts.skip(1).take(k - 1))) + texts[k] =~= texts[0] + (
        concat_texts(texts.skip(1).take(k - 1)) + texts[k]));
    }
}

/// A small bundled grammar: lists may hold anything of this grammar, atoms
/// hold nothing.  Lists print as their children's texts between brackets,
/// atoms as their letter, and an unknown kind as a question mark; the format
/// configuration is not used.
pub struct ListGrammar {}

impl Grammar for ListGrammar {
    open spec fn allows(&self, parent_kind: u64, child_kind: u64, position: int) -> bool {
        parent_kind == KIND_LIST && (child_kind == KIND_LIST || child_kind == KIND_ATOM_A
            || child_kind == KIND_ATOM_B)
    }

    open spec fn node_text(&self, kind: u64, child_texts: Seq<Seq<char>>, format: u64) -> Seq<
        char,
    > {
        if kind == KIND_LIST {
            "["@ + concat_texts(child_texts) + "]"@
        } else if kind == KIND_ATOM_A {
            "a"@
        } else if kind == KIND_ATOM_B {
            "b"@
        } else {
            "?"@
        }
    }

    fn validate_child(&self, parent_kind: u64, child_kind: u64, position: usize) -> (r: bool) {
        parent_kind == KIND_LIST && (child_kind == KIND_LIST || child_kind == KIND_ATOM_A
            || child_kind == KIND_ATOM_B)
    }

    fn render_node(&self, kind: u64, child_texts: &Vec<String>, format: u64) -> (r: String) {
        let ghost views = child_texts@.map(|j: int, s: String| s@);
        if kind == KIND_LIST {
            let mut out = String::from_str("[");
            proof {
                assert(views.take(0) =~= Seq::<Seq<char>>::empty());
                assert("["@ + concat_texts(views.take(0)) =~= "["@);
            }
            let mut k: usize = 0;
            while k < child_texts.len()
                invariant
                    k <= child_texts@.len(),
                    views == child_texts@.map(|j: int, s: String| s@),
                    views.len() == child_texts@.len(),
                    out@ == "["@ + concat_texts(views.take(k as int)),
                decreases child_texts@.len() - k,
            {
                out.append(child_texts[k].as_str());
                proof {
                    lemma_concat_texts_take(views, k as int);
                }
                k += 1;
            }
            proof {
                assert(views.take(views.len() as int) =~= views);
            }
            let done = out.concat("]");
            done
        } else if kind == KIND_ATOM_A {
            String::from_str("a")
        } else if kind == KIND_ATOM_B {
            String::from_str("b")
        } else {
            String::from_str("?")
        }
    }
}

} // verus!
