use rustpad_client::editor::{Edit, Edit1, EditorBinding};

fn text(b: &EditorBinding) -> String {
    b.content.iter().collect()
}

#[test]
fn from_str_keeps_both_forms() {
    let b = EditorBinding::from_str("héllo");
    assert_eq!(b.content, vec!['h', 'é', 'l', 'l', 'o']);
    assert_eq!(b.content_as_string, "héllo");
    assert_eq!(b.len(), 6);
    assert!(!b.is_empty());
    assert!(EditorBinding::default().is_empty());
}

#[test]
fn edit_without_callback_replaces_characters() {
    let mut b = EditorBinding::from_str("hello world");
    b.edit_without_callback(&Edit { begin: 6, end: 11, content: "wörld!".to_string() });
    assert_eq!(text(&b), "hello wörld!");
    assert_eq!(b.content_as_string, "hello wörld!");
    b.edit_without_callback(&Edit { begin: 0, end: 0, content: ">> ".to_string() });
    assert_eq!(b.get_content(), ">> hello wörld!");
    b.edit_without_callback(&Edit { begin: 3, end: 9, content: String::new() });
    assert_eq!(b.get_content(), ">> wörld!");
}

#[test]
fn edit_content_applies_the_edit() {
    let mut b = EditorBinding::from_str("abc");
    b.edit_content(Edit { begin: 1, end: 2, content: "XYZ".to_string() });
    assert_eq!(b.get_content(), "aXYZc");
}

#[test]
fn edit_by_byte_range_counts_characters() {
    let mut b = EditorBinding::from_str("aé€b");
    // bytes 1..6 hold "é€": characters 1..3
    let e = b.edit(1..6, "-".to_string());
    assert_eq!((e.begin, e.end, e.content.as_str()), (1, 3, "-"));
    assert_eq!(b.get_content(), "a-b");
    // a byte offset inside a character counts the characters that start before it
    let mut c = EditorBinding::from_str("é");
    let e = c.edit(1..2, "x".to_string());
    assert_eq!((e.begin, e.end), (1, 1));
    assert_eq!(c.get_content(), "éx");
}

#[test]
fn same_compares_characters() {
    let a = EditorBinding::from_str("abc");
    let b = EditorBinding::from_str("abc");
    let c = EditorBinding::from_str("abd");
    let d = EditorBinding::from_str("ab");
    assert!(a.same(&b));
    assert!(!a.same(&c));
    assert!(!a.same(&d));
}

#[test]
fn edit_default_and_wrapper() {
    let e = Edit::default();
    assert_eq!((e.begin, e.end, e.content.as_str()), (0, 0, ""));
    let w = Edit1(Edit { begin: 1, end: 2, content: "x".to_string() });
    assert_eq!(w.0.end, 2);
}
