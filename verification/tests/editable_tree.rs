//! Behavioural tests of the editable-tree buffer.

use sapling::arena::{Arena, Node};
use sapling::editable_tree::{EditableTree, InsertError};
use sapling::grammar::{ListGrammar, KIND_ATOM_A, KIND_ATOM_B, KIND_LIST};
use sapling::{Direction, Side};

/// Root list with children `[a, b]`; returns the buffer plus the references of
/// a, b and the root.
fn setup() -> (EditableTree<ListGrammar>, usize, usize, usize) {
    let mut arena = Arena::new();
    let a = arena.allocate(Node { kind: KIND_ATOM_A, children: vec![] });
    let b = arena.allocate(Node { kind: KIND_ATOM_B, children: vec![] });
    let r = arena.allocate(Node { kind: KIND_LIST, children: vec![a, b] });
    (EditableTree::new(arena, r, ListGrammar {}), a, b, r)
}

fn children_of(t: &EditableTree<ListGrammar>, node: usize) -> Vec<usize> {
    t.arena.nodes[node].children.clone()
}

#[test]
fn scenario_insert_child_then_undo() {
    let (mut t, a, b, r) = setup();
    assert_eq!(t.root(), r);
    assert_eq!(t.cursor_path().len(), 0);

    let res = t.insert_child(Node { kind: KIND_ATOM_A, children: vec![] });
    assert!(res.is_ok());
    assert_eq!(t.cursor_path().clone(), vec![0]);
    let kids = children_of(&t, t.root());
    assert_eq!(kids.len(), 3);
    assert_eq!(kids[1], a);
    assert_eq!(kids[2], b);
    assert_eq!(t.arena.nodes[kids[0]].kind, KIND_ATOM_A);
    assert_eq!(t.cursor(), kids[0]);

    assert!(t.undo());
    assert_eq!(t.root(), r);
    assert_eq!(t.cursor_path().len(), 0);
    assert_eq!(children_of(&t, t.root()), vec![a, b]);
}

#[test]
fn scenario_sibling_navigation_without_wraparound() {
    let (mut t, _a, _b, _r) = setup();
    assert!(t.move_cursor(Direction::Down).is_none());
    assert_eq!(t.cursor_path().clone(), vec![0]);
    assert!(t.move_cursor(Direction::Next).is_none());
    assert_eq!(t.cursor_path().clone(), vec![1]);
    let err = t.move_cursor(Direction::Next);
    assert_eq!(err, Some(String::from("no such sibling")));
    assert_eq!(t.cursor_path().clone(), vec![1]);
}

#[test]
fn scenario_next_under_three_children() {
    let (mut t, _a, _b, _r) = setup();
    assert!(t.insert_child(Node { kind: KIND_ATOM_A, children: vec![] }).is_ok());
    // the root now has three children and the cursor sits at [0]
    assert_eq!(t.cursor_path().clone(), vec![0]);
    assert!(t.move_cursor(Direction::Next).is_none());
    assert_eq!(t.cursor_path().clone(), vec![1]);
    assert!(t.move_cursor(Direction::Next).is_none());
    assert_eq!(t.cursor_path().clone(), vec![2]);
    // no wraparound from the last sibling
    assert_eq!(t.move_cursor(Direction::Next), Some(String::from("no such sibling")));
    assert_eq!(t.cursor_path().clone(), vec![2]);
}

#[test]
fn navigation_messages() {
    let (mut t, _a, _b, _r) = setup();
    assert_eq!(t.move_cursor(Direction::Up), Some(String::from("already at root")));
    assert_eq!(t.move_cursor(Direction::Prev), Some(String::from("root has no siblings")));
    assert_eq!(t.move_cursor(Direction::Next), Some(String::from("root has no siblings")));
    assert!(t.move_cursor(Direction::Down).is_none());
    // the cursor now sits on atom `a`, which has no children
    assert_eq!(t.move_cursor(Direction::Down), Some(String::from("no children")));
    assert_eq!(t.move_cursor(Direction::Prev), Some(String::from("no such sibling")));
    assert_eq!(t.cursor_path().clone(), vec![0]);
}

#[test]
fn navigation_is_history_neutral() {
    let (mut t, _a, _b, _r) = setup();
    assert_eq!(t.entry_count(), 1);
    t.move_cursor(Direction::Down);
    t.move_cursor(Direction::Next);
    t.move_cursor(Direction::Next); // fails
    t.move_cursor(Direction::Up);
    t.move_cursor(Direction::Up); // fails
    assert_eq!(t.entry_count(), 1);
}

#[test]
fn rejected_insertion_changes_nothing() {
    let (mut t, _a, _b, _r) = setup();
    assert!(t.move_cursor(Direction::Down).is_none()); // onto atom `a`
    let root_before = t.root();
    let cursor_before = t.cursor_path().clone();
    let entries_before = t.entry_count();
    let res = t.insert_child(Node { kind: KIND_ATOM_B, children: vec![] });
    assert_eq!(
        res,
        Err(InsertError::InvalidChild {
            parent_kind: KIND_ATOM_A,
            child_kind: KIND_ATOM_B,
            position: 0,
        })
    );
    assert_eq!(t.root(), root_before);
    assert_eq!(t.cursor_path().clone(), cursor_before);
    assert_eq!(t.entry_count(), entries_before);
}

#[test]
fn sibling_insertion_at_root_is_rejected() {
    let (mut t, _a, _b, _r) = setup();
    let entries_before = t.entry_count();
    let res = t.insert_next_to_cursor(Node { kind: KIND_ATOM_A, children: vec![] }, Side::Next);
    assert_eq!(res, Err(InsertError::SiblingAtRoot));
    assert_eq!(t.entry_count(), entries_before);
}

#[test]
fn insert_sibling_next_and_prev() {
    let (mut t, a, b, _r) = setup();
    assert!(t.move_cursor(Direction::Down).is_none()); // cursor on `a` at [0]
    let res = t.insert_next_to_cursor(Node { kind: KIND_ATOM_B, children: vec![] }, Side::Next);
    assert!(res.is_ok());
    assert_eq!(t.cursor_path().clone(), vec![1]);
    let kids = children_of(&t, t.root());
    assert_eq!(kids.len(), 3);
    assert_eq!(kids[0], a);
    assert_eq!(kids[2], b);
    assert_eq!(t.cursor(), kids[1]);
    assert_eq!(t.arena.nodes[kids[1]].kind, KIND_ATOM_B);

    let res = t.insert_next_to_cursor(Node { kind: KIND_ATOM_A, children: vec![] }, Side::Prev);
    assert!(res.is_ok());
    assert_eq!(t.cursor_path().clone(), vec![1]);
    let kids = children_of(&t, t.root());
    assert_eq!(kids.len(), 4);
    assert_eq!(kids[0], a);
    assert_eq!(t.arena.nodes[kids[1]].kind, KIND_ATOM_A);
    assert_eq!(t.cursor(), kids[1]);
}

#[test]
fn replace_cursor_keeps_path_and_shares_siblings() {
    let (mut t, a, b, _r) = setup();
    assert!(t.move_cursor(Direction::Down).is_none()); // cursor on `a` at [0]
    t.replace_cursor(Node { kind: KIND_LIST, children: vec![] });
    assert_eq!(t.cursor_path().clone(), vec![0]);
    let kids = children_of(&t, t.root());
    assert_eq!(kids.len(), 2);
    // the sibling subtree is the very same reference as before the edit
    assert_eq!(kids[1], b);
    assert_ne!(kids[0], a);
    assert_eq!(t.arena.nodes[kids[0]].kind, KIND_LIST);
}

#[test]
fn undo_redo_inverse_after_three_edits() {
    let (mut t, _a, _b, _r) = setup();
    for _ in 0..3 {
        assert!(t.insert_child(Node { kind: KIND_LIST, children: vec![] }).is_ok());
    }
    let root_after = t.root();
    let cursor_after = t.cursor_path().clone();
    for _ in 0..3 {
        assert!(t.undo());
    }
    for _ in 0..3 {
        assert!(t.redo());
    }
    assert_eq!(t.root(), root_after);
    assert_eq!(t.cursor_path().clone(), cursor_after);
}

#[test]
fn undo_at_start_and_redo_at_tip_fail() {
    let (mut t, _a, _b, _r) = setup();
    assert!(!t.undo());
    assert!(!t.redo());
    assert!(t.insert_child(Node { kind: KIND_ATOM_A, children: vec![] }).is_ok());
    assert!(!t.redo());
    assert!(t.undo());
    assert!(t.redo());
    assert!(!t.redo());
}

#[test]
fn redo_follows_the_last_branch() {
    let (mut t, _a, _b, _r) = setup();
    assert!(t.insert_child(Node { kind: KIND_ATOM_A, children: vec![] }).is_ok());
    let first_root = t.root();
    assert!(t.undo());
    assert!(t.insert_child(Node { kind: KIND_ATOM_B, children: vec![] }).is_ok());
    let second_root = t.root();
    assert_ne!(first_root, second_root);
    assert!(t.undo());
    // redo is deterministic: it follows the branch taken last
    assert!(t.redo());
    assert_eq!(t.root(), second_root);
    // nothing was discarded: the graph still holds all three versions
    assert_eq!(t.entry_count(), 3);
}

#[test]
fn insert_then_up_then_down_returns_to_inserted_child() {
    let (mut t, _a, _b, _r) = setup();
    assert!(t.insert_child(Node { kind: KIND_ATOM_B, children: vec![] }).is_ok());
    let inserted = t.cursor();
    assert!(t.move_cursor(Direction::Up).is_none());
    assert!(t.move_cursor(Direction::Down).is_none());
    assert_eq!(t.cursor_path().clone(), vec![0]);
    assert_eq!(t.cursor(), inserted);
}

#[test]
fn cursor_and_parent_reports_parent() {
    let (mut t, a, _b, r) = setup();
    let (node, parent) = t.cursor_and_parent();
    assert_eq!(node, r);
    assert_eq!(parent, None);
    assert!(t.move_cursor(Direction::Down).is_none());
    let (node, parent) = t.cursor_and_parent();
    assert_eq!(node, a);
    assert_eq!(parent, Some(r));
}

#[test]
fn to_text_renders_the_current_tree() {
    let (mut t, _a, _b, _r) = setup();
    assert_eq!(t.to_text(0), String::from("[ab]"));
    assert!(t.insert_child(Node { kind: KIND_ATOM_B, children: vec![] }).is_ok());
    assert_eq!(t.to_text(0), String::from("[bab]"));
    assert!(t.undo());
    assert_eq!(t.to_text(0), String::from("[ab]"));
}

#[test]
fn write_text_appends() {
    let (t, _a, _b, _r) = setup();
    let mut s = String::from("tree: ");
    t.write_text(&mut s, 0);
    assert_eq!(s, String::from("tree: [ab]"));
}

#[test]
fn nested_list_renders_depth_first() {
    let mut arena = Arena::new();
    let a = arena.allocate(Node { kind: KIND_ATOM_A, children: vec![] });
    let inner = arena.allocate(Node { kind: KIND_LIST, children: vec![a] });
    let b = arena.allocate(Node { kind: KIND_ATOM_B, children: vec![] });
    let r = arena.allocate(Node { kind: KIND_LIST, children: vec![inner, b] });
    let t = EditableTree::new(arena, r, ListGrammar {});
    assert_eq!(t.to_text(0), String::from("[[a]b]"));
}
