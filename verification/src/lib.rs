//! Core of a terminal structural editor: a persistent, structurally shared
//! syntax tree with a path cursor, branching undo/redo history, and
//! grammar-checked structural edits.

pub mod arena;
pub mod cursor_path;
pub mod edit;
pub mod editable_tree;
pub mod grammar;
pub mod keystroke_log;
pub mod history;
pub mod render;

use vstd::prelude::*;

verus! {

/// The possible ways you can move the cursor.
#[derive(Debug, Copy, Clone, Eq, PartialEq, Structural, Hash)]
pub enum Direction {
    Up,
    Down,
    Prev,
    Next,
}

/// An enum to represent the two sides of a cursor.
#[derive(Debug, Copy, Clone, Eq, PartialEq, Structural, Hash)]
pub enum Side {
    Prev,
    Next,
}

} // verus!
