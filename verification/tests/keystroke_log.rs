//! Behavioural tests of the keystroke log.

use sapling::keystroke_log::{Category, KeyStrokeLog};

#[test]
fn log_entry_records_pending_keys() {
    let mut log = KeyStrokeLog::new(10);
    assert_eq!(log.len(), 0);
    log.push_key(120);
    log.log_entry(String::from("delete node"), Category::Delete);
    assert_eq!(log.len(), 1);
    let e = log.entry(0);
    assert_eq!(e.count, 1);
    assert_eq!(e.keystrokes, vec![120]);
    assert_eq!(e.description, String::from("delete node"));
    assert_eq!(e.category, Category::Delete);
}

#[test]
fn identical_keystroke_runs_collapse() {
    let mut log = KeyStrokeLog::new(10);
    log.push_key(106);
    log.log_entry(String::from("move down"), Category::Move);
    log.push_key(106);
    log.log_entry(String::from("move down"), Category::Move);
    assert_eq!(log.len(), 1);
    assert_eq!(log.entry(0).count, 2);
    log.push_key(107);
    log.log_entry(String::from("move up"), Category::Move);
    assert_eq!(log.len(), 2);
    assert_eq!(log.entry(1).count, 1);
}

#[test]
fn entry_limit_drops_the_oldest() {
    let mut log = KeyStrokeLog::new(2);
    for key in [97u64, 98, 99] {
        log.push_key(key);
        log.log_entry(String::from("act"), Category::Undefined);
    }
    assert_eq!(log.len(), 2);
    assert_eq!(log.entry(0).keystrokes, vec![98]);
    assert_eq!(log.entry(1).keystrokes, vec![99]);
}

#[test]
fn set_max_entries_enforces_the_new_limit() {
    let mut log = KeyStrokeLog::new(10);
    for key in [97u64, 98, 99] {
        log.push_key(key);
        log.log_entry(String::from("act"), Category::Undefined);
    }
    log.set_max_entries(1);
    assert_eq!(log.len(), 1);
    assert_eq!(log.entry(0).keystrokes, vec![99]);
}

#[test]
fn count_column_width_covers_the_widest_cell() {
    let mut log = KeyStrokeLog::new(10);
    log.push_key(97);
    log.log_entry(String::from("act"), Category::Undefined);
    // a single occurrence needs no count cell, but the column is two wide
    assert_eq!(log.count_col_width(), 2);
    for _ in 0..11 {
        log.push_key(97);
        log.log_entry(String::from("act"), Category::Undefined);
    }
    // the cell now reads `12x`: three characters
    assert_eq!(log.entry(0).count, 12);
    assert_eq!(log.count_col_width(), 3);
}

#[test]
fn keystroke_column_width_is_at_least_two() {
    assert_eq!(KeyStrokeLog::keystroke_col_width(&vec![]), 2);
    assert_eq!(KeyStrokeLog::keystroke_col_width(&vec![1, 5, 3]), 5);
    assert_eq!(KeyStrokeLog::keystroke_col_width(&vec![1, 1]), 2);
}
