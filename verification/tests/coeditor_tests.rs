use rustpad_client::backspace::Selection;
use rustpad_client::client::CursorData;
use rustpad_client::coeditor::{cursor_decorations, selection_char_offsets, transform_selection};
use rustpad_client::editor::{Edit, EditorBinding};
use std::collections::HashMap;

#[test]
fn selection_moves_with_an_edit() {
    // replace 2..4 by "é" (2 bytes)
    let e = Edit { begin: 2, end: 4, content: "é".to_string() };
    let s = transform_selection(&e, Selection { anchor: 1, active: 6 }).unwrap();
    assert_eq!((s.anchor, s.active), (1, 6 + 2 + 2 - 4));
    let s = transform_selection(&e, Selection { anchor: 3, active: 4 }).unwrap();
    assert_eq!((s.anchor, s.active), (4, 4));
}

#[test]
fn selection_overflow_is_reported() {
    let e = Edit { begin: usize::MAX - 1, end: usize::MAX - 1, content: "ab".to_string() };
    assert!(transform_selection(&e, Selection { anchor: usize::MAX - 1, active: 0 }).is_none());
}

#[test]
fn decorations_skip_own_and_empty_cursors() {
    let content: Vec<char> = "aé€b".chars().collect();
    let mut cursors = HashMap::new();
    cursors.insert(1u64, CursorData { cursors: vec![1], selections: vec![(1, 3)] });
    cursors.insert(2u64, CursorData { cursors: vec![0], selections: vec![] });
    cursors.insert(3u64, CursorData { cursors: vec![0], selections: vec![(0, 0)] });
    cursors.insert(4u64, CursorData { cursors: vec![9], selections: vec![(9, 2)] });
    let d = cursor_decorations(&content, &cursors, 3);
    assert_eq!(d.len(), 2);
    let s1 = d[&1];
    assert_eq!((s1.anchor, s1.active), (1, 6));
    let s4 = d[&4];
    assert_eq!((s4.anchor, s4.active), (7, 3));
}

#[test]
fn selection_in_characters() {
    let b = EditorBinding::from_str("aé€b");
    assert_eq!(selection_char_offsets(&b, &Selection { anchor: 3, active: 6 }), (3, 2));
    // a byte offset inside a character counts as 0
    assert_eq!(selection_char_offsets(&b, &Selection { anchor: 2, active: 7 }), (4, 0));
}
