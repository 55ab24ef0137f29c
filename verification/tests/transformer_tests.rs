use operational_transform::OperationSeq;
use rustpad_client::transformer::{checked_transform_index, IndexTransformer};

fn seq(build: impl FnOnce(&mut OperationSeq)) -> OperationSeq {
    let mut o = OperationSeq::default();
    build(&mut o);
    o
}

#[test]
fn insert_before_cursor_shifts_it_by_characters() {
    // "é€" is two characters but five bytes
    let o = seq(|o| {
        o.retain(3);
        o.insert("é€");
        o.retain(4);
    });
    assert_eq!(o.transform_index(5), 7);
    assert_eq!(o.transform_index(3), 5);
    assert_eq!(o.transform_index(2), 2);
}

#[test]
fn delete_before_cursor_pulls_it_back() {
    let o = seq(|o| {
        o.retain(2);
        o.delete(3);
        o.retain(5);
    });
    assert_eq!(o.transform_index(1), 1);
    assert_eq!(o.transform_index(4), 2);
    assert_eq!(o.transform_index(8), 5);
}

#[test]
fn retains_keep_every_index() {
    let o = seq(|o| o.retain(10));
    for p in [0u32, 3, 10, 50] {
        assert_eq!(o.transform_index(p), p);
    }
    let empty = OperationSeq::default();
    assert_eq!(empty.transform_index(7), 7);
}

#[test]
fn overflow_of_the_i32_walk_is_reported() {
    // a retain of 2^31 is -2^31 as i32: 0 - (-2^31) overflows
    let o = seq(|o| o.retain(1u64 << 31));
    assert_eq!(checked_transform_index(&o, 0), None);
    let p = seq(|o| o.retain(4));
    assert_eq!(checked_transform_index(&p, 2), Some(2));
}

#[test]
fn position_beyond_i32_wraps_back() {
    // u32::MAX is -1 as i32: the walk stops after the first step
    let o = seq(|o| o.retain(3));
    assert_eq!(checked_transform_index(&o, u32::MAX), Some(u32::MAX));
}

#[test]
fn transform_keeps_cursor_order() {
    let o = seq(|o| {
        o.retain(2);
        o.delete(3);
        o.insert("xy");
        o.retain(5);
    });
    let moved: Vec<u32> = (0u32..=10).map(|p| o.transform_index(p)).collect();
    assert_eq!(moved, vec![0, 1, 4, 4, 4, 4, 5, 6, 7, 8, 9]);
    for w in moved.windows(2) {
        assert!(w[0] <= w[1]);
    }
}

#[test]
fn order_is_not_kept_past_i32() {
    // u32::MAX is -1 as i32, and a delete then pulls it up to 0
    let o = seq(|o| o.delete(1));
    assert_eq!(o.transform_index(5), 4);
    assert_eq!(o.transform_index(u32::MAX), 0);
}

#[test]
fn end_of_old_text_moves_to_end_of_new_text() {
    let o = seq(|o| {
        o.retain(2);
        o.insert("é€");
        o.delete(3);
        o.retain(1);
    });
    assert_eq!((o.base_len(), o.target_len()), (6, 5));
    assert_eq!(o.transform_index(6), 5);
    for p in 0u32..=6 {
        assert!(o.transform_index(p) <= 5);
    }
}
