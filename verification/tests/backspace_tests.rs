use rustpad_client::backspace::{offset_for_delete_backwards, Selection};
use rustpad_client::editor::EditorBinding;

fn caret(at: usize) -> Selection {
    Selection { anchor: at, active: at }
}

fn back(s: &str, at: usize) -> usize {
    offset_for_delete_backwards(&caret(at), &EditorBinding::from_str(s))
}

#[test]
fn plain_character_goes_alone() {
    assert_eq!(back("ab", 2), 1);
    assert_eq!(back("aé", 3), 1);
    assert_eq!(back("ab", 0), 0);
}

#[test]
fn crlf_goes_together() {
    assert_eq!(back("a\r\n", 3), 1);
    assert_eq!(back("a\n", 2), 1);
}

#[test]
fn flag_goes_together() {
    // two regional indicators
    let flag = "\u{1F1EB}\u{1F1F7}";
    assert_eq!(back(flag, flag.len()), 0);
    // three indicators: only the last one, unpaired, goes
    let three = "\u{1F1EB}\u{1F1F7}\u{1F1EB}";
    assert_eq!(back(three, three.len()), 8);
}

#[test]
fn emoji_sequences_go_together() {
    // man, zero width joiner, woman
    let family = "\u{1F468}\u{200D}\u{1F469}";
    assert_eq!(back(family, family.len()), 0);
    // keycap: digit one, variation selector, enclosing keycap
    let keycap = "x1\u{FE0F}\u{20E3}";
    assert_eq!(back(keycap, keycap.len()), 1);
    // thumbs up with skin tone modifier
    let thumbs = "\u{1F44D}\u{1F3FD}";
    assert_eq!(back(thumbs, thumbs.len()), 0);
    // emoji with variation selector
    let heart = "a\u{2764}\u{FE0F}";
    assert_eq!(back(heart, heart.len()), 1);
}

#[test]
fn selection_deletes_from_its_start() {
    let b = EditorBinding::from_str("hello");
    assert_eq!(offset_for_delete_backwards(&Selection { anchor: 4, active: 1 }, &b), 1);
    assert_eq!(offset_for_delete_backwards(&Selection { anchor: 2, active: 5 }, &b), 2);
}

#[test]
fn selection_helpers() {
    assert!(caret(3).is_caret());
    assert!(!Selection { anchor: 1, active: 2 }.is_caret());
    assert_eq!(Selection { anchor: 7, active: 2 }.min(), 2);
}
