use operational_transform::{Operation, OperationSeq};
use rustpad_client::client::{
    ClientAction, ClientError, ClientMsg, CursorData, RustpadClient, ServerMsg, UserInfo,
    UserOperation,
};
use rustpad_client::editor::{Edit, EditorBinding};

fn client_with(text: &str) -> RustpadClient {
    let mut c = RustpadClient::create("ws://localhost/api/socket/x".to_string());
    c.editor_binding = EditorBinding::from_str(text);
    c.last_value = text.to_string();
    c
}

fn seq(build: impl FnOnce(&mut OperationSeq)) -> OperationSeq {
    let mut o = OperationSeq::default();
    build(&mut o);
    o
}

fn sent_edit(a: &ClientAction) -> Option<(usize, Vec<Operation>)> {
    match a {
        ClientAction::Send(ClientMsg::Edit { revision, operation }) => {
            Some((*revision, operation.ops().to_vec()))
        }
        _ => None,
    }
}

#[test]
fn create_sets_user_info() {
    let c = RustpadClient::create("ws://x".to_string());
    assert_eq!(c.server_url, "ws://x");
    let info = c.my_info.as_ref().unwrap();
    assert_eq!((info.name.as_str(), info.hue), ("Comonad", 1231231231));
    assert_eq!(c.revision, 0);
    assert!(c.outstanding.is_none());
    match c.send_info() {
        ClientAction::Send(ClientMsg::ClientInfo(i)) => assert_eq!(i.name, "Comonad"),
        _ => panic!("expected the client info message"),
    }
    let d = RustpadClient::default();
    assert!(d.my_info.is_none());
    assert_eq!(d.server_url, "");
}

#[test]
fn local_edit_is_sent_when_synchronized() {
    let mut c = client_with("abc");
    let mut actions = Vec::new();
    c.apply_local_edit(Edit { begin: 1, end: 2, content: "X".to_string() }, &mut actions).unwrap();
    assert_eq!(c.editor_binding.get_content(), "aXc");
    assert_eq!(c.last_value, "aXc");
    assert_eq!(actions.len(), 2);
    let (rev, ops) = sent_edit(&actions[0]).unwrap();
    assert_eq!(rev, 0);
    assert_eq!(
        ops,
        vec![
            Operation::Retain(1),
            Operation::Insert("X".to_string()),
            Operation::Delete(1),
            Operation::Retain(1)
        ]
    );
    assert!(matches!(actions[1], ClientAction::UpdateCursors));
    assert_eq!(c.outstanding.as_ref().unwrap().ops(), &ops[..]);
}

#[test]
fn later_local_edits_are_buffered_and_composed() {
    let mut c = client_with("abc");
    let mut actions = Vec::new();
    c.apply_local_edit(Edit { begin: 3, end: 3, content: "d".to_string() }, &mut actions).unwrap();
    actions.clear();
    c.apply_local_edit(Edit { begin: 4, end: 4, content: "e".to_string() }, &mut actions).unwrap();
    assert_eq!(actions.len(), 1);
    assert!(matches!(actions[0], ClientAction::UpdateCursors));
    assert_eq!(
        c.buffer.as_ref().unwrap().ops(),
        &[Operation::Retain(4), Operation::Insert("e".to_string())][..]
    );
    c.apply_local_edit(Edit { begin: 5, end: 5, content: "f".to_string() }, &mut actions).unwrap();
    assert_eq!(
        c.buffer.as_ref().unwrap().ops(),
        &[Operation::Retain(4), Operation::Insert("ef".to_string())][..]
    );
    assert_eq!(c.editor_binding.get_content(), "abcdef");
}

#[test]
fn acknowledgement_sends_the_buffer() {
    let mut c = client_with("abc");
    let mut actions = Vec::new();
    c.handle_message(ServerMsg::Identity(7), &mut actions).unwrap();
    assert_eq!(c.id(), 7);
    assert!(c.id_is(7));
    assert!(!c.id_is(8));
    c.apply_local_edit(Edit { begin: 0, end: 0, content: "x".to_string() }, &mut actions).unwrap();
    let first = c.outstanding.as_ref().unwrap().clone();
    c.apply_local_edit(Edit { begin: 1, end: 1, content: "y".to_string() }, &mut actions).unwrap();
    actions.clear();
    let history = ServerMsg::History {
        start: 0,
        operations: vec![UserOperation { id: 7, operation: first }],
    };
    c.handle_message(history, &mut actions).unwrap();
    assert_eq!(c.revision, 1);
    assert!(c.buffer.is_none());
    assert_eq!(actions.len(), 1);
    let (rev, ops) = sent_edit(&actions[0]).unwrap();
    assert_eq!(rev, 1);
    assert_eq!(ops, vec![Operation::Retain(1), Operation::Insert("y".to_string()), Operation::Retain(3)]);
    assert_eq!(c.editor_binding.get_content(), "xyabc");
}

#[test]
fn server_operation_is_applied_when_synchronized() {
    let mut c = client_with("abc");
    let mut actions = Vec::new();
    let op = seq(|o| {
        o.retain(1);
        o.delete(1);
        o.retain(1);
        o.insert("Z");
    });
    let history = ServerMsg::History { start: 0, operations: vec![UserOperation { id: 2, operation: op }] };
    c.handle_message(history, &mut actions).unwrap();
    assert_eq!(c.revision, 1);
    assert_eq!(c.editor_binding.get_content(), "acZ");
    assert_eq!(c.last_value, "acZ");
    assert_eq!(actions.len(), 3);
    match &actions[0] {
        ClientAction::EditorEdit(e) => assert_eq!((e.begin, e.end, e.content.as_str()), (1, 2, "")),
        _ => panic!("expected an edit"),
    }
    match &actions[1] {
        // the insert does not move the position of the walk
        ClientAction::EditorEdit(e) => assert_eq!((e.begin, e.end, e.content.as_str()), (2, 2, "Z")),
        _ => panic!("expected an edit"),
    }
    assert!(matches!(actions[2], ClientAction::UpdateCursors));
}

#[test]
fn server_operation_moves_other_cursors() {
    let mut c = client_with("abc");
    let mut actions = Vec::new();
    c.handle_message(
        ServerMsg::UserCursor { id: 5, data: CursorData { cursors: vec![2], selections: vec![(1, 3)] } },
        &mut actions,
    )
    .unwrap();
    assert!(matches!(actions[0], ClientAction::UpdateCursors));
    let op = seq(|o| {
        o.insert("ab");
        o.retain(3);
    });
    let history = ServerMsg::History { start: 0, operations: vec![UserOperation { id: 2, operation: op }] };
    c.handle_message(history, &mut actions).unwrap();
    let d = &c.user_cursors[&5];
    assert_eq!(d.cursors, vec![4]);
    assert_eq!(d.selections, vec![(3, 5)]);
}

#[test]
fn history_past_the_revision_closes() {
    let mut c = client_with("abc");
    let mut actions = Vec::new();
    c.handle_message(ServerMsg::History { start: 3, operations: vec![] }, &mut actions).unwrap();
    assert_eq!(actions.len(), 1);
    assert!(matches!(actions[0], ClientAction::Close));
    assert!(matches!(c.close(), ClientAction::Close));
}

#[test]
fn language_and_users_are_recorded() {
    let mut c = client_with("");
    let mut actions = Vec::new();
    c.handle_message(ServerMsg::Language("rust".to_string()), &mut actions).unwrap();
    assert_eq!(c.language, "rust");
    match &actions[0] {
        ClientAction::LanguageChanged { old, new } => assert_eq!((old.as_str(), new.as_str()), ("", "rust")),
        _ => panic!("expected a language change"),
    }
    c.set_id(1);
    actions.clear();
    let info = UserInfo { name: "ann".to_string(), hue: 5 };
    c.handle_message(ServerMsg::UserInfo { id: 2, info: Some(info) }, &mut actions).unwrap();
    assert_eq!(c.users[&2].name, "ann");
    assert!(matches!(actions[0], ClientAction::UserChanged));
    actions.clear();
    // this client's own info, and a user leaving, change nothing
    let mine = UserInfo { name: "me".to_string(), hue: 1 };
    c.handle_message(ServerMsg::UserInfo { id: 1, info: Some(mine) }, &mut actions).unwrap();
    c.handle_message(ServerMsg::UserInfo { id: 3, info: None }, &mut actions).unwrap();
    c.handle_message(
        ServerMsg::UserCursor { id: 1, data: CursorData { cursors: vec![], selections: vec![] } },
        &mut actions,
    )
    .unwrap();
    assert!(actions.is_empty());
    assert_eq!(c.users.len(), 1);
    assert!(c.user_cursors.is_empty());
}

#[test]
fn cursor_data_is_recorded_and_sent() {
    let mut c = client_with("abcdef");
    match c.update_and_send_cursor_data((5, 2)) {
        ClientAction::Send(ClientMsg::CursorData(d)) => {
            assert_eq!(d.cursors, vec![5]);
            assert_eq!(d.selections, vec![(2, 5)]);
        }
        _ => panic!("expected cursor data"),
    }
    assert_eq!(c.cursor_data.selections, vec![(2, 5)]);
    match c.send_cursor_data() {
        ClientAction::Send(ClientMsg::CursorData(d)) => assert_eq!(d.cursors, vec![5]),
        _ => panic!("expected cursor data"),
    }
    let op = seq(|o| o.retain(6));
    match c.send_operation(&op) {
        ClientAction::Send(ClientMsg::Edit { revision, operation }) => {
            assert_eq!(revision, 0);
            assert_eq!(operation.ops(), &[Operation::Retain(6)][..]);
        }
        _ => panic!("expected an edit message"),
    }
}

#[test]
fn bad_local_edits_are_refused() {
    let mut c = client_with("abc");
    let mut actions = Vec::new();
    assert_eq!(
        c.on_change(Edit { begin: 2, end: 1, content: String::new() }, &mut actions),
        Err(ClientError::BadEdit)
    );
    assert_eq!(
        c.on_change(Edit { begin: 0, end: 4, content: String::new() }, &mut actions),
        Err(ClientError::BadEdit)
    );
    assert_eq!(
        c.apply_local_edit(Edit { begin: 0, end: 9, content: String::new() }, &mut actions),
        Err(ClientError::BadEdit)
    );
    // while a server operation is applied, local changes are ignored
    c.during_operation_application = true;
    assert_eq!(c.on_change(Edit { begin: 2, end: 1, content: String::new() }, &mut actions), Ok(()));
    assert!(actions.is_empty());
}

#[test]
fn incompatible_server_operation_is_refused() {
    let mut c = client_with("abc");
    let mut actions = Vec::new();
    c.apply_local_edit(Edit { begin: 0, end: 0, content: "x".to_string() }, &mut actions).unwrap();
    // based on a text of 5 characters, while the outstanding change is based on 3
    let op = seq(|o| {
        o.retain(5);
        o.insert("q");
    });
    let history = ServerMsg::History { start: 0, operations: vec![UserOperation { id: 9, operation: op }] };
    assert_eq!(c.handle_message(history, &mut actions), Err(ClientError::Transform));
}

#[test]
fn operation_past_the_document_is_refused() {
    let mut c = client_with("abc");
    let mut actions = Vec::new();
    let op = seq(|o| {
        o.retain(5);
        o.insert("q");
    });
    let history = ServerMsg::History { start: 0, operations: vec![UserOperation { id: 9, operation: op }] };
    assert_eq!(c.handle_message(history, &mut actions), Err(ClientError::EditOutOfRange));
}

#[test]
fn mismatched_buffer_is_refused() {
    let mut c = client_with("abc");
    c.outstanding = Some(seq(|o| o.retain(3)));
    c.buffer = Some(seq(|o| o.retain(3)));
    c.last_value = "abcd".to_string();
    let mut actions = Vec::new();
    assert_eq!(
        c.on_change(Edit { begin: 0, end: 0, content: "x".to_string() }, &mut actions),
        Err(ClientError::Compose)
    );
}

#[test]
fn cursor_overflow_is_refused() {
    let mut c = client_with("");
    let mut actions = Vec::new();
    c.handle_message(
        ServerMsg::UserCursor { id: 5, data: CursorData { cursors: vec![i32::MAX as u32], selections: vec![] } },
        &mut actions,
    )
    .unwrap();
    let op = seq(|o| o.insert("a"));
    let history = ServerMsg::History { start: 0, operations: vec![UserOperation { id: 9, operation: op }] };
    assert_eq!(c.handle_message(history, &mut actions), Err(ClientError::IndexOverflow));
}

#[test]
fn revision_overflow_is_refused() {
    let mut c = client_with("");
    c.revision = usize::MAX;
    let mut actions = Vec::new();
    let history = ServerMsg::History {
        start: usize::MAX,
        operations: vec![UserOperation { id: 9, operation: seq(|o| o.insert("a")) }],
    };
    assert_eq!(c.handle_message(history, &mut actions), Err(ClientError::Overflow));
}

#[test]
fn connected_messages_send_info_cursors_and_outstanding() {
    let mut c = client_with("abc");
    let first = c.connected_messages();
    assert_eq!(first.len(), 2);
    assert!(matches!(&first[0], ClientAction::Send(ClientMsg::ClientInfo(i)) if i.name == "Comonad"));
    assert!(matches!(&first[1], ClientAction::Send(ClientMsg::CursorData(_))));
    let mut actions = Vec::new();
    c.apply_local_edit(Edit { begin: 0, end: 0, content: "z".to_string() }, &mut actions).unwrap();
    let again = c.connected_messages();
    assert_eq!(again.len(), 3);
    let (rev, ops) = sent_edit(&again[2]).unwrap();
    assert_eq!(rev, 0);
    assert_eq!(ops, vec![Operation::Insert("z".to_string()), Operation::Retain(3)]);
}
