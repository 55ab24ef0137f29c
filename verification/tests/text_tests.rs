use rustpad_client::text::{byte_to_char_offset, char_len_utf8, char_to_byte_offset, chars_of};

#[test]
fn char_widths_follow_utf8() {
    assert_eq!(char_len_utf8('a'), 1);
    assert_eq!(char_len_utf8('é'), 2);
    assert_eq!(char_len_utf8('€'), 3);
    assert_eq!(char_len_utf8('😀'), 4);
}

#[test]
fn char_index_to_byte_offset() {
    let s: Vec<char> = "aé€😀".chars().collect();
    assert_eq!(char_to_byte_offset(&s, 0), 0);
    assert_eq!(char_to_byte_offset(&s, 1), 1);
    assert_eq!(char_to_byte_offset(&s, 2), 3);
    assert_eq!(char_to_byte_offset(&s, 3), 6);
    assert_eq!(char_to_byte_offset(&s, 4), 10);
    // an index past the end stands for the whole text
    assert_eq!(char_to_byte_offset(&s, 99), 10);
}

#[test]
fn byte_offset_to_char_index() {
    let s: Vec<char> = "aé€😀".chars().collect();
    assert_eq!(byte_to_char_offset(&s, 0), 0);
    assert_eq!(byte_to_char_offset(&s, 1), 1);
    assert_eq!(byte_to_char_offset(&s, 3), 2);
    assert_eq!(byte_to_char_offset(&s, 6), 3);
    assert_eq!(byte_to_char_offset(&s, 10), 4);
    // inside a character, or past the end: no boundary
    assert_eq!(byte_to_char_offset(&s, 2), 0);
    assert_eq!(byte_to_char_offset(&s, 8), 0);
    assert_eq!(byte_to_char_offset(&s, 11), 0);
}

#[test]
fn offsets_round_trip() {
    let s: Vec<char> = "héllo wörld ✓".chars().collect();
    for k in 0..=s.len() {
        assert_eq!(byte_to_char_offset(&s, char_to_byte_offset(&s, k)), k);
    }
}

#[test]
fn chars_of_keeps_order() {
    assert_eq!(chars_of("añb"), vec!['a', 'ñ', 'b']);
    assert_eq!(chars_of(""), Vec::<char>::new());
}
