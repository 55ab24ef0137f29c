use rustpad_client::connection::{after_connection, ConnectionEnd, Reconnect};
use operational_transform::OperationSeq;
use rustpad_client::message::{edit_message_text, edit_text_from_json};

#[test]
fn edit_message_wraps_the_operation() {
    let mut o = OperationSeq::default();
    o.retain(3);
    o.insert("ab");
    o.delete(2);
    assert_eq!(
        edit_message_text(3, &o).unwrap(),
        "{ \"Edit\": { \"revision\": 3, \"operation\": [3,\"ab\",-2] } }"
    );
    let empty = OperationSeq::default();
    assert_eq!(
        edit_message_text(0, &empty).unwrap(),
        "{ \"Edit\": { \"revision\": 0, \"operation\": [] } }"
    );
}

#[test]
fn revision_is_written_in_decimal() {
    assert_eq!(
        edit_text_from_json(1204, "[1]"),
        "{ \"Edit\": { \"revision\": 1204, \"operation\": [1] } }"
    );
    assert_eq!(
        edit_text_from_json(usize::MAX, "[]"),
        format!("{{ \"Edit\": {{ \"revision\": {}, \"operation\": [] }} }}", usize::MAX)
    );
}

#[test]
fn lost_connections_are_retried_after_a_second() {
    assert_eq!(after_connection(ConnectionEnd::Closed), Reconnect::Stop);
    assert_eq!(after_connection(ConnectionEnd::Lost), Reconnect::RetryAfterMillis(1000));
}
