//! The client side of the collaborative editing protocol: the
//! operational-transform state machine (synchronised, awaiting an
//! acknowledgement, awaiting with a buffer), the document it edits, and the
//! other users' cursors. Every step returns the actions that the caller
//! performs: messages to send, edits and cursor updates to show.
use crate::editor::{splice, Edit, EditorBinding};
use crate::ot::{
    base_len_of, is_noop_ops, lemma_push_delete_lens, lemma_push_insert_lens,
    lemma_push_retain_lens, op_seq_clone, op_seq_compose, op_seq_delete,
    op_seq_insert, op_seq_is_noop, op_seq_new, op_seq_ops, op_seq_retain, op_seq_target_len,
    op_seq_transform, ot_compose, ot_transform, push_delete, push_insert, push_retain, seq_ops,
    target_len_of, Op, OpView,
};
use crate::text::chars_of;
use crate::transformer::{checked_transform_index, transformed_index};
use operational_transform::OperationSeq;
use std::collections::HashMap;
use vstd::prelude::*;

verus! {

broadcast use vstd::std_specs::hash::group_hash_axioms;

/// A user's name and colour.
pub struct UserInfo {
    pub name: String,
    pub hue: u32,
}

/// A user's name and colour, as values.
pub struct UserInfoView {
    pub name: Seq<char>,
    pub hue: u32,
}

impl View for UserInfo {
    type V = UserInfoView;

    open spec fn view(&self) -> UserInfoView {
        UserInfoView { name: self.name@, hue: self.hue }
    }
}

impl UserInfo {
    /// A copy of the user information.
    pub fn duplicate(&self) -> (r: UserInfo)
        ensures
            r@ == self@,
    {
        UserInfo { name: self.name.clone(), hue: self.hue }
    }
}

/// Cursor positions and selections of a user, as character indices.
pub struct CursorData {
    pub cursors: Vec<u32>,
    pub selections: Vec<(u32, u32)>,
}

/// Cursor positions and selections of a user, as values.
pub struct CursorDataView {
    pub cursors: Seq<u32>,
    pub selections: Seq<(u32, u32)>,
}

impl View for CursorData {
    type V = CursorDataView;

    open spec fn view(&self) -> CursorDataView {
        CursorDataView { cursors: self.cursors@, selections: self.selections@ }
    }
}

impl Default for CursorData {
    fn default() -> (r: CursorData)
        ensures
            r@.cursors == Seq::<u32>::empty(),
            r@.selections == Seq::<(u32, u32)>::empty(),
    {
        CursorData { cursors: Vec::new(), selections: Vec::new() }
    }
}

/// An operation of a user, as the server orders it.
pub struct UserOperation {
    pub id: u64,
    pub operation: OperationSeq,
}

/// A message from the server.
pub enum ServerMsg {
    /// The id of this client.
    Identity(u64),
    /// Operations of the history, from revision `start` on.
    History { start: usize, operations: Vec<UserOperation> },
    /// The language of the document.
    Language(String),
    /// A user joined, changed or left (`None`).
    UserInfo { id: u64, info: Option<UserInfo> },
    /// A user's cursors.
    UserCursor { id: u64, data: CursorData },
}

/// A message to the server.
pub enum ClientMsg {
    /// A local operation, based on `revision`.
    Edit { revision: usize, operation: OperationSeq },
    /// A new language of the document.
    SetLanguage(String),
    /// This client's user information.
    ClientInfo(UserInfo),
    /// This client's cursors.
    CursorData(CursorData),
}

/// What the caller does after a step of the client.
pub enum ClientAction {
    /// Sends a message to the server, where connected.
    Send(ClientMsg),
    /// Closes the connection.
    Close,
    /// Shows an edit that the client applied to its document.
    EditorEdit(Edit),
    /// Shows the other users' cursors again.
    UpdateCursors,
    /// Reports a change of language.
    LanguageChanged { old: String, new: String },
    /// Reports a change of the users.
    UserChanged,
}

/// An action, as values.
pub enum ActionView {
    SendEdit { revision: usize, ops: Seq<OpView> },
    SendLanguage(Seq<char>),
    SendInfo(UserInfoView),
    SendCursorData(CursorDataView),
    Close,
    EditorEdit { begin: int, end: int, content: Seq<char> },
    UpdateCursors,
    LanguageChanged { old: Seq<char>, new: Seq<char> },
    UserChanged,
}

impl View for ClientAction {
    type V = ActionView;

    open spec fn view(&self) -> ActionView {
        match self {
            ClientAction::Send(ClientMsg::Edit { revision, operation }) => ActionView::SendEdit {
                revision: *revision,
                ops: seq_ops(*operation),
            },
            ClientAction::Send(ClientMsg::SetLanguage(l)) => ActionView::SendLanguage(l@),
            ClientAction::Send(ClientMsg::ClientInfo(i)) => ActionView::SendInfo(i@),
            ClientAction::Send(ClientMsg::CursorData(d)) => ActionView::SendCursorData(d@),
            ClientAction::Close => ActionView::Close,
            ClientAction::EditorEdit(e) => ActionView::EditorEdit {
                begin: e.begin as int,
                end: e.end as int,
                content: e.content@,
            },
            ClientAction::UpdateCursors => ActionView::UpdateCursors,
            ClientAction::LanguageChanged { old, new } => ActionView::LanguageChanged {
                old: old@,
                new: new@,
            },
            ClientAction::UserChanged => ActionView::UserChanged,
        }
    }
}

/// The views of a list of actions.
pub open spec fn views(actions: Seq<ClientAction>) -> Seq<ActionView> {
    Seq::new(actions.len(), |i: int| actions[i]@)
}

/// Why a step of the client cannot go on.
#[derive(PartialEq, Eq, Structural, Clone, Copy, Debug)]
pub enum ClientError {
    /// Two operations that must start from texts of one length do not.
    Transform,
    /// A buffered operation and a new one do not follow each other.
    Compose,
    /// An operation reaches past the end of the document.
    EditOutOfRange,
    /// An edit ends before it begins or past the end of the text.
    BadEdit,
    /// A cursor index leaves the `i32` range while it is moved.
    IndexOverflow,
    /// A length or revision counter would leave its integer range.
    Overflow,
}

/// A cursor data moved through the steps `ops`: `None` where an index
/// overflows.
pub open spec fn transform_cursor_data(ops: Seq<OpView>, d: CursorDataView) -> Option<
    CursorDataView,
> {
    if (forall|i: int| 0 <= i < d.cursors.len() ==> #[trigger] transformed_index(ops, d.cursors[i]) is Some)
        && (forall|i: int| 0 <= i < d.selections.len() ==> #[trigger] transformed_index(ops, d.selections[i].0) is Some && transformed_index(ops, d.selections[i].1) is Some) {
        Some(
            CursorDataView {
                cursors: Seq::new(
                    d.cursors.len(),
                    |i: int| transformed_index(ops, d.cursors[i])->0,
                ),
                selections: Seq::new(
                    d.selections.len(),
                    |i: int|
                        (
                            transformed_index(ops, d.selections[i].0)->0,
                            transformed_index(ops, d.selections[i].1)->0,
                        ),
                ),
            },
        )
    } else {
        None
    }
}

/// The views of the cursor data of all users.
pub open spec fn cursors_view(m: Map<u64, CursorData>) -> Map<u64, CursorDataView> {
    Map::new(|id: u64| m.dom().contains(id), |id: u64| m[id]@)
}

/// The users' cursors moved through the steps `ops`: `None` where an index
/// overflows.
pub open spec fn transform_all_cursors(ops: Seq<OpView>, m: Map<u64, CursorDataView>) -> Option<
    Map<u64, CursorDataView>,
> {
    if forall|id: u64| #[trigger] m.dom().contains(id) ==> transform_cursor_data(ops, m[id]) is Some {
        Some(Map::new(|id: u64| m.dom().contains(id), |id: u64| transform_cursor_data(ops, m[id])->0))
    } else {
        None
    }
}

/// The ids of a map, each once.
fn keys_of<V>(m: &HashMap<u64, V>) -> (r: Vec<u64>)
    ensures
        r@.to_set() == m@.dom(),
        r@.no_duplicates(),
{
    let mut v: Vec<u64> = Vec::new();
    let iter = m.keys();
    let ghost rem = vstd::std_specs::iter::IteratorSpec::remaining(&iter);
    proof {
        assert(rem.unref().to_set() == m@.dom());
        assert(rem.no_duplicates());
        assert(rem.unref().no_duplicates()) by {
            assert forall|a: int, b: int| 0 <= a < b < rem.len() implies rem.unref()[a]
                != rem.unref()[b] by {
                assert(rem[a] != rem[b]);
            }
        }
    }
    for k in it: iter
        invariant
            it.seq() == rem,
            rem.unref().to_set() == m@.dom(),
            rem.unref().no_duplicates(),
            v@ == rem.unref().take(it.index() as int),
    {
        v.push(*k);
        assert(v@ =~= rem.unref().take(it.index() + 1));
    }
    assert(v@ =~= rem.unref());
    v
}

/// Moves every index of `d` through `op`; `None` where one overflows.
fn transform_cursor_data_exec(op: &OperationSeq, d: &CursorData) -> (r: Option<CursorData>)
    ensures
        match r {
            Some(n) => transform_cursor_data(seq_ops(*op), d@) == Some(n@),
            None => transform_cursor_data(seq_ops(*op), d@) is None,
        },
{
    let ghost ops = seq_ops(*op);
    let mut cursors: Vec<u32> = Vec::new();
    let mut i: usize = 0;
    while i < d.cursors.len()
        invariant
            ops == seq_ops(*op),
            0 <= i <= d.cursors@.len(),
            cursors@.len() == i,
            forall|j: int| 0 <= j < i ==> transformed_index(ops, #[trigger] d.cursors@[j]) == Some(cursors@[j]),
        decreases d.cursors@.len() - i,
    {
        match checked_transform_index(op, d.cursors[i]) {
            Some(x) => cursors.push(x),
            None => {
                return None;
            },
        }
        i = i + 1;
    }
    let mut selections: Vec<(u32, u32)> = Vec::new();
    let mut j: usize = 0;
    while j < d.selections.len()
        invariant
            ops == seq_ops(*op),
            0 <= j <= d.selections@.len(),
            selections@.len() == j,
            forall|k: int|
                0 <= k < j ==> transformed_index(ops, (#[trigger] d.selections@[k]).0) == Some(
                    selections@[k].0,
                ) && transformed_index(ops, d.selections@[k].1) == Some(selections@[k].1),
        decreases d.selections@.len() - j,
    {
        let (begin, end) = d.selections[j];
        let b = match checked_transform_index(op, begin) {
            Some(x) => x,
            None => {
                return None;
            },
        };
        let e = match checked_transform_index(op, end) {
            Some(x) => x,
            None => {
                return None;
            },
        };
        selections.push((b, e));
        j = j + 1;
    }
    let n = CursorData { cursors, selections };
    assert(n@.cursors =~= transform_cursor_data(ops, d@)->0.cursors);
    assert(n@.selections =~= transform_cursor_data(ops, d@)->0.selections);
    Some(n)
}

/// Moves all users' cursors through `op`, the cursors of each user at once;
/// `None` where an index overflows, with the map then partly moved.
fn transform_cursor_map(op: &OperationSeq, m: &mut HashMap<u64, CursorData>) -> (r: bool)
    ensures
        r == transform_all_cursors(seq_ops(*op), cursors_view(old(m)@)) is Some,
        r ==> cursors_view(final(m)@) == transform_all_cursors(
            seq_ops(*op),
            cursors_view(old(m)@),
        )->0,
{
    let ghost ops = seq_ops(*op);
    let ghost old_map = cursors_view(m@);
    let ids = keys_of(m);
    let mut i: usize = 0;
    while i < ids.len()
        invariant
            ops == seq_ops(*op),
            old_map == cursors_view(old(m)@),
            ids@.to_set() == old_map.dom(),
            ids@.no_duplicates(),
            0 <= i <= ids@.len(),
            m@.dom() == old_map.dom(),
            forall|k: int| 0 <= k < i ==> transform_cursor_data(ops, old_map[#[trigger] ids@[k]]) is Some,
            forall|id: u64|
                #[trigger] m@.dom().contains(id) ==> if exists|k: int| 0 <= k < i && ids@[k] == id {
                    Some(m@[id]@) == transform_cursor_data(ops, old_map[id])
                } else {
                    m@[id]@ == old_map[id]
                },
        decreases ids@.len() - i,
    {
        let id = ids[i];
        assert(ids@.to_set().contains(id));
        let d = m.get(&id).unwrap();
        let ghost before = m@;
        match transform_cursor_data_exec(op, d) {
            Some(n) => {
                m.insert(id, n);
                assert forall|id2: u64| #[trigger] m@.dom().contains(id2) implies if exists|k: int|
                    0 <= k < i + 1 && ids@[k] == id2 {
                    Some(m@[id2]@) == transform_cursor_data(ops, old_map[id2])
                } else {
                    m@[id2]@ == old_map[id2]
                } by {
                    if id2 == id {
                        assert(ids@[i as int] == id2);
                    } else {
                        if exists|k: int| 0 <= k < i + 1 && ids@[k] == id2 {
                            let k = choose|k: int| 0 <= k < i + 1 && ids@[k] == id2;
                            assert(k != i);
                        } else {
                            assert(!exists|k: int| 0 <= k < i && ids@[k] == id2) by {
                                if exists|k: int| 0 <= k < i && ids@[k] == id2 {
                                    let k = choose|k: int| 0 <= k < i && ids@[k] == id2;
                                    assert(0 <= k < i + 1 && ids@[k] == id2);
                                }
                            }
                        }
                    }
                }
            },
            None => {
                proof {
                    assert(old_map.dom().contains(id));
                    assert(m@[id]@ == old_map[id]) by {
                        if exists|k: int| 0 <= k < i && ids@[k] == id {
                            let k = choose|k: int| 0 <= k < i && ids@[k] == id;
                            assert(ids@[k] == ids@[i as int]);
                        }
                    }
                    assert(*d == m@[id]);
                    assert(transform_cursor_data(ops, old_map[id]) is None);
                    assert(transform_all_cursors(ops, old_map) is None);
                }
                return false;
            },
        }
        i = i + 1;
    }
    proof {
        assert forall|id: u64| #[trigger] old_map.dom().contains(id) implies transform_cursor_data(
            ops,
            old_map[id],
        ) is Some by {
            assert(ids@.to_set().contains(id));
            let k = choose|k: int| 0 <= k < ids@.len() && ids@[k] == id;
            assert(transform_cursor_data(ops, old_map[ids@[k]]) is Some);
        }
        assert(cursors_view(m@) =~= transform_all_cursors(ops, old_map)->0) by {
            assert forall|id: u64| #[trigger] m@.dom().contains(id) implies Some(m@[id]@)
                == transform_cursor_data(ops, old_map[id]) by {
                assert(ids@.to_set().contains(id));
                let k = choose|k: int| 0 <= k < ids@.len() && ids@[k] == id;
                assert(0 <= k < i && ids@[k] == id);
            }
        }
    }
    true
}

/// A message from the server, as values.
pub enum ServerMsgView {
    Identity(u64),
    History { start: usize, operations: Seq<(u64, Seq<OpView>)> },
    Language(Seq<char>),
    UserInfo { id: u64, info: Option<UserInfoView> },
    UserCursor { id: u64, data: CursorDataView },
}

impl View for ServerMsg {
    type V = ServerMsgView;

    open spec fn view(&self) -> ServerMsgView {
        match self {
            ServerMsg::Identity(id) => ServerMsgView::Identity(*id),
            ServerMsg::History { start, operations } => ServerMsgView::History {
                start: *start,
                operations: Seq::new(
                    operations@.len(),
                    |i: int| (operations@[i].id, seq_ops(operations@[i].operation)),
                ),
            },
            ServerMsg::Language(l) => ServerMsgView::Language(l@),
            ServerMsg::UserInfo { id, info } => ServerMsgView::UserInfo {
                id: *id,
                info: match info {
                    Some(i) => Some(i@),
                    None => None,
                },
            },
            ServerMsg::UserCursor { id, data } => ServerMsgView::UserCursor { id: *id, data: data@ },
        }
    }
}

/// The state of the client, as values.
pub struct ClientView {
    pub server_url: Seq<char>,
    /// Local changes made while `outstanding` awaits its acknowledgement.
    pub buffer: Option<Seq<OpView>>,
    /// The local change sent and not yet acknowledged.
    pub outstanding: Option<Seq<OpView>>,
    /// Number of server operations applied.
    pub revision: usize,
    pub my_id: Option<u64>,
    pub users: Map<u64, UserInfoView>,
    pub user_cursors: Map<u64, CursorDataView>,
    pub my_info: Option<UserInfoView>,
    /// The document as the last local change left it.
    pub last_value: Seq<char>,
    pub language: Seq<char>,
    pub cursor_data: CursorDataView,
    pub during_operation_application: bool,
    /// The characters of the client's document.
    pub document: Seq<char>,
}

/// The steps of an optional operation sequence.
pub open spec fn opt_ops(o: Option<OperationSeq>) -> Option<Seq<OpView>> {
    match o {
        Some(x) => Some(seq_ops(x)),
        None => None,
    }
}

/// The views of the users' information.
pub open spec fn users_view(m: Map<u64, UserInfo>) -> Map<u64, UserInfoView> {
    Map::new(|id: u64| m.dom().contains(id), |id: u64| m[id]@)
}

/// The result of a step: the new state and the actions it asks for.
pub type Step = Result<(ClientView, Seq<ActionView>), ClientError>;

/// Moves the other users' cursors through `ops` and asks to show them.
pub open spec fn step_transform_cursor(s: ClientView, ops: Seq<OpView>) -> Step {
    match transform_all_cursors(ops, s.user_cursors) {
        Some(m) => Ok((ClientView { user_cursors: m, ..s }, seq![ActionView::UpdateCursors])),
        None => Err(ClientError::IndexOverflow),
    }
}

/// Applies the steps to the document from character `pos` on, appending an
/// edit action per change to `acc`. A retain moves the position; an insert
/// and a delete edit at the position and leave it where it is.
pub open spec fn apply_ops(doc: Seq<char>, pos: int, ops: Seq<OpView>, acc: Seq<ActionView>) -> Result<
    (Seq<char>, Seq<ActionView>),
    ClientError,
>
    decreases ops.len(),
{
    if ops.len() == 0 {
        Ok((doc, acc))
    } else {
        match ops[0] {
            OpView::Delete(n) => {
                let end = pos + ((n as usize) as int);
                if end <= doc.len() {
                    apply_ops(
                        splice(doc, pos, end, Seq::empty()),
                        pos,
                        ops.drop_first(),
                        acc.push(ActionView::EditorEdit { begin: pos, end, content: Seq::empty() }),
                    )
                } else {
                    Err(ClientError::EditOutOfRange)
                }
            },
            OpView::Retain(n) => {
                let p = pos + ((n as usize) as int);
                if p <= usize::MAX {
                    apply_ops(doc, p, ops.drop_first(), acc)
                } else {
                    Err(ClientError::Overflow)
                }
            },
            OpView::Insert(t) => {
                if pos <= doc.len() {
                    apply_ops(
                        splice(doc, pos, pos, t),
                        pos,
                        ops.drop_first(),
                        acc.push(ActionView::EditorEdit { begin: pos, end: pos, content: t }),
                    )
                } else {
                    Err(ClientError::EditOutOfRange)
                }
            },
        }
    }
}

/// Applies an operation to the document (nothing for a no-op), records the
/// document as the last value and moves the cursors.
pub open spec fn step_apply_operation(s: ClientView, ops: Seq<OpView>) -> Step {
    if is_noop_ops(ops) {
        Ok((s, seq![]))
    } else {
        match apply_ops(s.document, 0, ops, seq![]) {
            Err(e) => Err(e),
            Ok((doc, acts)) => {
                let s1 = ClientView {
                    document: doc,
                    last_value: doc,
                    during_operation_application: false,
                    ..s
                };
                match step_transform_cursor(s1, ops) {
                    Err(e) => Err(e),
                    Ok((s2, a2)) => Ok((s2, acts + a2)),
                }
            },
        }
    }
}

/// Transforms two sequences that start from the same text; `Err` where the
/// lengths overflow or the base lengths differ.
pub open spec fn checked_transform(a: Seq<OpView>, b: Seq<OpView>) -> Result<
    (Seq<OpView>, Seq<OpView>),
    ClientError,
> {
    if target_len_of(a) + target_len_of(b) > usize::MAX {
        Err(ClientError::Overflow)
    } else if base_len_of(a) != base_len_of(b) {
        Err(ClientError::Transform)
    } else {
        Ok(ot_transform(a, b))
    }
}

/// An operation of another user arrives: the outstanding change, and a
/// buffered change, are transformed against it, and its transformed form is
/// applied to the document.
pub open spec fn step_apply_server(s: ClientView, ops: Seq<OpView>) -> Step {
    match s.outstanding {
        None => step_apply_operation(s, ops),
        Some(o) => match checked_transform(o, ops) {
            Err(e) => Err(e),
            Ok((t1, t2)) => {
                let s1 = ClientView { outstanding: Some(t1), ..s };
                match s.buffer {
                    None => step_apply_operation(s1, t2),
                    Some(b) => match checked_transform(b, ops) {
                        Err(e) => Err(e),
                        Ok((t3, t4)) => step_apply_operation(
                            ClientView { buffer: Some(t3), ..s1 },
                            t4,
                        ),
                    },
                }
            },
        },
    }
}

/// A local change: sent at once when nothing is outstanding, else kept in
/// (or composed into) the buffer; the cursors move with it.
pub open spec fn step_apply_client(s: ClientView, ops: Seq<OpView>) -> Step {
    match client_queue(s, ops) {
        Err(e) => Err(e),
        Ok((s1, a1)) => match step_transform_cursor(s1, ops) {
            Err(e) => Err(e),
            Ok((s2, a2)) => Ok((s2, a1 + a2)),
        },
    }
}

/// Where a local change goes: sent and outstanding when nothing is
/// outstanding, else the buffer, composed with a buffered change.
pub open spec fn client_queue(s: ClientView, ops: Seq<OpView>) -> Step {
    if s.outstanding is None {
        Ok(
            (
                ClientView { outstanding: Some(ops), ..s },
                seq![ActionView::SendEdit { revision: s.revision, ops }],
            ),
        )
    } else {
        match s.buffer {
            None => Ok((ClientView { buffer: Some(ops), ..s }, seq![])),
            Some(b) => if target_len_of(b) == base_len_of(ops) {
                Ok((ClientView { buffer: Some(ot_compose(b, ops)), ..s }, seq![]))
            } else {
                Err(ClientError::Compose)
            },
        }
    }
}

/// The server acknowledges the outstanding change: the buffer becomes
/// outstanding and is sent.
pub open spec fn step_server_ack(s: ClientView) -> (ClientView, Seq<ActionView>) {
    let s1 = ClientView { outstanding: s.buffer, buffer: None, ..s };
    match s.buffer {
        Some(b) => (s1, seq![ActionView::SendEdit { revision: s.revision, ops: b }]),
        None => (s1, seq![]),
    }
}

/// The operation of a local edit of characters `begin..end` of a text of
/// `length` characters: retain, delete, insert, retain.
pub open spec fn change_ops(begin: int, end: int, content: Seq<char>, length: int) -> Seq<OpView> {
    push_retain(
        push_insert(
            push_delete(push_retain(Seq::empty(), begin as u64), (end - begin) as u64),
            content,
        ),
        (length - end) as u64,
    )
}

/// A local edit of characters `begin..end` by `content`, of the text as it
/// was last: ignored while an operation is being applied; `BadEdit` where
/// the range is not one of the last value.
pub open spec fn step_on_change(s: ClientView, begin: usize, end: usize, content: Seq<char>) -> Step {
    let length = s.last_value.len() as int;
    if s.during_operation_application {
        Ok((s, seq![]))
    } else if end < begin || end > length {
        Err(ClientError::BadEdit)
    } else if begin + content.len() + (length - end) > usize::MAX {
        Err(ClientError::Overflow)
    } else {
        match step_apply_client(s, change_ops(begin as int, end as int, content, length)) {
            Err(e) => Err(e),
            Ok((s1, a)) => Ok((ClientView { last_value: s1.document, ..s1 }, a)),
        }
    }
}

/// The operations of a history from index `i` on: each one counts a
/// revision, and is this client's own (acknowledged) or another user's
/// (applied).
pub open spec fn step_history(
    s: ClientView,
    operations: Seq<(u64, Seq<OpView>)>,
    i: int,
    acc: Seq<ActionView>,
) -> Step
    decreases operations.len() - i,
{
    if i < 0 || i >= operations.len() {
        Ok((s, acc))
    } else if s.revision == usize::MAX {
        Err(ClientError::Overflow)
    } else {
        let s1 = ClientView { revision: (s.revision + 1) as usize, ..s };
        let (id, ops) = operations[i];
        let step: Step = if s1.my_id == Some(id) {
            Ok(step_server_ack(s1))
        } else {
            step_apply_server(s1, ops)
        };
        match step {
            Err(e) => Err(e),
            Ok((s2, a)) => step_history(s2, operations, i + 1, acc + a),
        }
    }
}

/// A message from the server.
pub open spec fn step_handle_message(s: ClientView, msg: ServerMsgView) -> Step {
    match msg {
        ServerMsgView::Identity(id) => Ok((ClientView { my_id: Some(id), ..s }, seq![])),
        ServerMsgView::History { start, operations } => if start > s.revision {
            Ok((s, seq![ActionView::Close]))
        } else {
            step_history(s, operations, s.revision - start, seq![])
        },
        ServerMsgView::Language(lang) => Ok(
            (
                ClientView { language: lang, ..s },
                seq![ActionView::LanguageChanged { old: s.language, new: lang }],
            ),
        ),
        ServerMsgView::UserInfo { id, info } => if s.my_id != Some(id) && info is Some {
            Ok(
                (
                    ClientView { users: s.users.insert(id, info->0), ..s },
                    seq![ActionView::UserChanged],
                ),
            )
        } else {
            Ok((s, seq![]))
        },
        ServerMsgView::UserCursor { id, data } => if s.my_id != Some(id) {
            Ok(
                (
                    ClientView { user_cursors: s.user_cursors.insert(id, data), ..s },
                    seq![ActionView::UpdateCursors],
                ),
            )
        } else {
            Ok((s, seq![]))
        },
    }
}

/// What a call that follows `step` has done: on `Ok` the new state and the
/// actions appended; on `Err` the same error.
pub open spec fn follows(
    r: Result<(), ClientError>,
    step: Step,
    after: ClientView,
    actions_before: Seq<ActionView>,
    actions_after: Seq<ActionView>,
) -> bool {
    match step {
        Ok((s, a)) => r is Ok && after == s && actions_after == actions_before + a,
        Err(e) => r == Err::<(), ClientError>(e),
    }
}

/// The state of the editing client.
pub struct RustpadClient {
    pub server_url: String,
    pub buffer: Option<OperationSeq>,
    pub outstanding: Option<OperationSeq>,
    pub revision: usize,
    pub my_id: Option<u64>,
    pub users: HashMap<u64, UserInfo>,
    pub user_cursors: HashMap<u64, CursorData>,
    pub my_info: Option<UserInfo>,
    pub last_value: String,
    pub language: String,
    pub cursor_data: CursorData,
    pub during_operation_application: bool,
    pub editor_binding: EditorBinding,
}

impl View for RustpadClient {
    type V = ClientView;

    open spec fn view(&self) -> ClientView {
        ClientView {
            server_url: self.server_url@,
            buffer: opt_ops(self.buffer),
            outstanding: opt_ops(self.outstanding),
            revision: self.revision,
            my_id: self.my_id,
            users: users_view(self.users@),
            user_cursors: cursors_view(self.user_cursors@),
            my_info: match self.my_info {
                Some(i) => Some(i@),
                None => None,
            },
            last_value: self.last_value@,
            language: self.language@,
            cursor_data: self.cursor_data@,
            during_operation_application: self.during_operation_application,
            document: self.editor_binding.content@,
        }
    }
}

proof fn lemma_views_push(a: Seq<ClientAction>, x: ClientAction)
    ensures
        views(a.push(x)) == views(a).push(x@),
{
    assert(views(a.push(x)) =~= views(a).push(x@));
}

proof fn lemma_apply_ops_acc(doc: Seq<char>, pos: int, ops: Seq<OpView>, acc: Seq<ActionView>)
    ensures
        apply_ops(doc, pos, ops, acc) == match apply_ops(doc, pos, ops, seq![]) {
            Ok((d, b)) => Ok((d, acc + b)),
            Err(e) => Err(e),
        },
    decreases ops.len(),
{
    if ops.len() == 0 {
        assert(acc + seq![] =~= acc);
    } else {
        match ops[0] {
            OpView::Delete(n) => {
                let end = pos + ((n as usize) as int);
                if end <= doc.len() {
                    let e = ActionView::EditorEdit { begin: pos, end, content: Seq::empty() };
                    let d2 = splice(doc, pos, end, Seq::empty());
                    lemma_apply_ops_acc(d2, pos, ops.drop_first(), acc.push(e));
                    lemma_apply_ops_acc(d2, pos, ops.drop_first(), seq![e]);
                    match apply_ops(d2, pos, ops.drop_first(), seq![]) {
                        Ok((d, b)) => {
                            assert(acc.push(e) + b =~= acc + (seq![e] + b));
                        },
                        Err(_) => {},
                    }
                }
            },
            OpView::Retain(n) => {
                let p = pos + ((n as usize) as int);
                if p <= usize::MAX {
                    lemma_apply_ops_acc(doc, p, ops.drop_first(), acc);
                }
            },
            OpView::Insert(t) => {
                if pos <= doc.len() {
                    let e = ActionView::EditorEdit { begin: pos, end: pos, content: t };
                    let d2 = splice(doc, pos, pos, t);
                    lemma_apply_ops_acc(d2, pos, ops.drop_first(), acc.push(e));
                    lemma_apply_ops_acc(d2, pos, ops.drop_first(), seq![e]);
                    match apply_ops(d2, pos, ops.drop_first(), seq![]) {
                        Ok((d, b)) => {
                            assert(acc.push(e) + b =~= acc + (seq![e] + b));
                        },
                        Err(_) => {},
                    }
                }
            },
        }
    }
}

/// The messages sent once a connection is made: the user information, the
/// cursor data, and the outstanding change where there is one.
pub open spec fn connected_actions(s: ClientView) -> Seq<ActionView> {
    seq![ActionView::SendInfo(s.my_info->0), ActionView::SendCursorData(s.cursor_data)]
        + match s.outstanding {
        Some(ops) => seq![ActionView::SendEdit { revision: s.revision, ops }],
        None => Seq::<ActionView>::empty(),
    }
}

/// The state of a client that has done nothing yet.
pub open spec fn initial_view(server_url: Seq<char>, my_info: Option<UserInfoView>) -> ClientView {
    ClientView {
        server_url,
        buffer: None,
        outstanding: None,
        revision: 0,
        my_id: None,
        users: Map::empty(),
        user_cursors: Map::empty(),
        my_info,
        last_value: Seq::empty(),
        language: Seq::empty(),
        cursor_data: CursorDataView { cursors: Seq::empty(), selections: Seq::empty() },
        during_operation_application: false,
        document: Seq::empty(),
    }
}

impl Default for RustpadClient {
    fn default() -> (r: RustpadClient)
        ensures
            r@ == initial_view(Seq::empty(), None),
            r.wf(),
    {
        let c = RustpadClient {
            server_url: String::new(),
            buffer: None,
            outstanding: None,
            revision: 0,
            my_id: None,
            users: HashMap::new(),
            user_cursors: HashMap::new(),
            my_info: None,
            last_value: String::new(),
            language: String::new(),
            cursor_data: CursorData::default(),
            during_operation_application: false,
            editor_binding: EditorBinding::default(),
        };
        assert(users_view(c.users@) =~= Map::empty());
        assert(cursors_view(c.user_cursors@) =~= Map::empty());
        c
    }
}

impl RustpadClient {
    /// The document's characters and string agree, and a buffer only exists
    /// while a change is outstanding.
    pub open spec fn wf(&self) -> bool {
        &&& self.editor_binding.wf()
        &&& (self.buffer is Some ==> self.outstanding is Some)
    }

    /// Moves the other users' cursors through `op` and asks to show them.
    fn transform_cursor(&mut self, op: &OperationSeq, actions: &mut Vec<ClientAction>) -> (r: Result<
        (),
        ClientError,
    >)
        requires
            old(self).wf(),
        ensures
            follows(
                r,
                step_transform_cursor(old(self)@, seq_ops(*op)),
                final(self)@,
                views(old(actions)@),
                views(final(actions)@),
            ),
            final(self).wf(),
    {
        if !transform_cursor_map(op, &mut self.user_cursors) {
            return Err(ClientError::IndexOverflow);
        }
        proof {
            lemma_views_push(actions@, ClientAction::UpdateCursors);
        }
        actions.push(ClientAction::UpdateCursors);
        proof {
            assert(views(old(actions)@).push(ActionView::UpdateCursors) =~= views(old(actions)@)
                + seq![ActionView::UpdateCursors]);
            assert(self@ == ClientView {
                user_cursors: transform_all_cursors(seq_ops(*op), old(self)@.user_cursors)->0,
                ..old(self)@
            });
        }
        Ok(())
    }

    /// Applies an operation to the document, records the document as the
    /// last value and moves the cursors; a no-op changes nothing.
    fn apply_operation(&mut self, op: &OperationSeq, actions: &mut Vec<ClientAction>) -> (r: Result<
        (),
        ClientError,
    >)
        requires
            old(self).wf(),
        ensures
            follows(
                r,
                step_apply_operation(old(self)@, seq_ops(*op)),
                final(self)@,
                views(old(actions)@),
                views(final(actions)@),
            ),
            final(self).wf(),
    {
        if op_seq_is_noop(op) {
            assert(views(actions@) + seq![] =~= views(actions@));
            return Ok(());
        }
        let ghost sops = seq_ops(*op);
        let ghost doc0 = self.editor_binding.content@;
        let ghost acts0 = views(actions@);
        self.during_operation_application = true;
        let ops = op_seq_ops(op);
        let mut current_position: usize = 0;
        let mut k: usize = 0;
        assert(sops.skip(0) =~= sops);
        while k < ops.len()
            invariant
                sops == seq_ops(*op),
                !is_noop_ops(sops),
                ops@.len() == sops.len(),
                forall|i: int| 0 <= i < ops@.len() ==> #[trigger] ops@[i]@ == sops[i],
                0 <= k <= ops@.len(),
                self.wf(),
                self.user_cursors == old(self).user_cursors,
                self.users == old(self).users,
                self.buffer == old(self).buffer,
                self.outstanding == old(self).outstanding,
                self.revision == old(self).revision,
                self.my_id == old(self).my_id,
                self.my_info == old(self).my_info,
                self.language == old(self).language,
                self.cursor_data == old(self).cursor_data,
                self.server_url == old(self).server_url,
                doc0 == old(self).editor_binding.content@,
                acts0 == views(old(actions)@),
                apply_ops(doc0, 0, sops, acts0) == apply_ops(
                    self.editor_binding.content@,
                    current_position as int,
                    sops.skip(k as int),
                    views(actions@),
                ),
            decreases ops@.len() - k,
        {
            let ghost rest = sops.skip(k as int);
            assert(rest[0] == ops@[k as int]@);
            assert(rest.drop_first() =~= sops.skip(k + 1));
            let len = self.editor_binding.content.len();
            match &ops[k] {
                Op::Delete(n) => {
                    let n: usize = #[verifier::truncate] (*n as usize);
                    if current_position > len || n > len - current_position {
                        proof {
                            lemma_apply_ops_acc(doc0, 0, sops, acts0);
                        }
                        return Err(ClientError::EditOutOfRange);
                    }
                    let e = Edit {
                        begin: current_position,
                        end: current_position + n,
                        content: String::new(),
                    };
                    let shown = Edit {
                        begin: current_position,
                        end: current_position + n,
                        content: String::new(),
                    };
                    proof {
                        lemma_views_push(actions@, ClientAction::EditorEdit(shown));
                    }
                    self.editor_binding.edit_content(e);
                    actions.push(ClientAction::EditorEdit(shown));
                },
                Op::Retain(n) => {
                    let n: usize = #[verifier::truncate] (*n as usize);
                    match current_position.checked_add(n) {
                        Some(p) => {
                            current_position = p;
                        },
                        None => {
                            proof {
                                lemma_apply_ops_acc(doc0, 0, sops, acts0);
                            }
                            return Err(ClientError::Overflow);
                        },
                    }
                },
                Op::Insert(t) => {
                    if current_position > len {
                        proof {
                            lemma_apply_ops_acc(doc0, 0, sops, acts0);
                        }
                        return Err(ClientError::EditOutOfRange);
                    }
                    let e = Edit {
                        begin: current_position,
                        end: current_position,
                        content: t.clone(),
                    };
                    let shown = Edit {
                        begin: current_position,
                        end: current_position,
                        content: t.clone(),
                    };
                    proof {
                        lemma_views_push(actions@, ClientAction::EditorEdit(shown));
                    }
                    self.editor_binding.edit_content(e);
                    actions.push(ClientAction::EditorEdit(shown));
                },
            }
            k = k + 1;
        }
        assert(sops.skip(k as int) =~= Seq::<OpView>::empty());
        proof {
            lemma_apply_ops_acc(doc0, 0, sops, acts0);
        }
        self.last_value = self.editor_binding.get_content();
        self.during_operation_application = false;
        let ghost mid = views(actions@);
        let r = self.transform_cursor(op, actions);
        proof {
            let b = apply_ops(doc0, 0, sops, seq![])->Ok_0.1;
            match step_transform_cursor(
                ClientView {
                    document: self.editor_binding.content@,
                    last_value: self.editor_binding.content@,
                    during_operation_application: false,
                    ..old(self)@
                },
                sops,
            ) {
                Ok((s2, a2)) => {
                    assert(views(actions@) == mid + a2);
                    assert(mid == acts0 + b);
                    assert(views(actions@) =~= acts0 + (b + a2));
                },
                Err(_) => {},
            }
        }
        r
    }

    /// Transforms `a` against `b`, `Err` where the lengths overflow or the
    /// base lengths differ.
    fn transform_pair(a: &OperationSeq, b: &OperationSeq) -> (r: Result<
        (OperationSeq, OperationSeq),
        ClientError,
    >)
        ensures
            match checked_transform(seq_ops(*a), seq_ops(*b)) {
                Ok((x, y)) => r matches Ok((p, q)) && seq_ops(p) == x && seq_ops(q) == y,
                Err(e) => r == Err::<(OperationSeq, OperationSeq), ClientError>(e),
            },
    {
        let la = op_seq_target_len(a);
        let lb = op_seq_target_len(b);
        if la > usize::MAX - lb {
            return Err(ClientError::Overflow);
        }
        match op_seq_transform(a, b) {
            Ok(p) => Ok(p),
            Err(_) => Err(ClientError::Transform),
        }
    }

    /// An operation of another user: the outstanding change and a buffered
    /// change are transformed against it, and its transformed form is
    /// applied to the document.
    fn apply_server(&mut self, op: &OperationSeq, actions: &mut Vec<ClientAction>) -> (r: Result<
        (),
        ClientError,
    >)
        requires
            old(self).wf(),
        ensures
            follows(
                r,
                step_apply_server(old(self)@, seq_ops(*op)),
                final(self)@,
                views(old(actions)@),
                views(final(actions)@),
            ),
            final(self).wf(),
    {
        match &self.outstanding {
            None => self.apply_operation(op, actions),
            Some(outstanding) => {
                let (t1, t2) = match Self::transform_pair(outstanding, op) {
                    Ok(p) => p,
                    Err(e) => {
                        return Err(e);
                    },
                };
                match &self.buffer {
                    Some(buffer) => {
                        let (t3, t4) = match Self::transform_pair(buffer, op) {
                            Ok(p) => p,
                            Err(e) => {
                                return Err(e);
                            },
                        };
                        self.outstanding = Some(t1);
                        self.buffer = Some(t3);
                        self.apply_operation(&t4, actions)
                    },
                    None => {
                        self.outstanding = Some(t1);
                        self.apply_operation(&t2, actions)
                    },
                }
            },
        }
    }

    /// A local change: sent when nothing is outstanding, else buffered or
    /// composed into the buffer; the cursors move with it.
    fn apply_client(&mut self, operation: OperationSeq, actions: &mut Vec<ClientAction>) -> (r: Result<
        (),
        ClientError,
    >)
        requires
            old(self).wf(),
        ensures
            follows(
                r,
                step_apply_client(old(self)@, seq_ops(operation)),
                final(self)@,
                views(old(actions)@),
                views(final(actions)@),
            ),
            final(self).wf(),
    {
        let ghost a0 = views(actions@);
        let ghost ops = seq_ops(operation);
        if self.outstanding.is_none() {
            let sent = ClientAction::Send(
                ClientMsg::Edit { revision: self.revision, operation: op_seq_clone(&operation) },
            );
            proof {
                lemma_views_push(actions@, sent);
            }
            actions.push(sent);
            self.outstanding = Some(op_seq_clone(&operation));
            assert(views(actions@) =~= a0 + client_queue(old(self)@, ops)->Ok_0.1);
        } else {
            match &self.buffer {
                None => {
                    self.buffer = Some(op_seq_clone(&operation));
                },
                Some(buffer) => {
                    match op_seq_compose(buffer, &operation) {
                        Ok(c) => {
                            self.buffer = Some(c);
                        },
                        Err(_) => {
                            return Err(ClientError::Compose);
                        },
                    }
                },
            }
            assert(views(actions@) =~= a0 + client_queue(old(self)@, ops)->Ok_0.1);
        }
        assert(client_queue(old(self)@, ops) == Ok::<(ClientView, Seq<ActionView>), ClientError>(
            (self@, client_queue(old(self)@, ops)->Ok_0.1),
        ));
        let ghost a1 = views(actions@);
        let ghost s1 = self@;
        let r = self.transform_cursor(&operation, actions);
        proof {
            match step_transform_cursor(s1, ops) {
                Ok((s2, a2)) => {
                    assert(views(actions@) =~= a0 + (client_queue(old(self)@, ops)->Ok_0.1 + a2));
                },
                Err(_) => {},
            }
        }
        r
    }

    /// The server acknowledged the outstanding change: the buffer becomes
    /// outstanding and is sent.
    fn send_server_ack(&mut self, actions: &mut Vec<ClientAction>)
        requires
            old(self).wf(),
        ensures
            (final(self)@, views(final(actions)@)) == ({
                let st = step_server_ack(old(self)@);
                (st.0, views(old(actions)@) + st.1)
            }),
            final(self).wf(),
    {
        self.outstanding = self.buffer.take();
        match &self.outstanding {
            Some(x) => {
                let sent = ClientAction::Send(
                    ClientMsg::Edit { revision: self.revision, operation: op_seq_clone(x) },
                );
                proof {
                    lemma_views_push(actions@, sent);
                }
                actions.push(sent);
                assert(views(actions@) =~= views(old(actions)@) + step_server_ack(old(self)@).1);
            },
            None => {
                assert(views(actions@) =~= views(old(actions)@) + step_server_ack(old(self)@).1);
            },
        }
    }

    /// A local edit of characters `edit.begin..edit.end` of the text as it was
    /// last (after it was applied to the document): turned into an operation
    /// of retain, delete, insert and retain, and handed to `apply_client`;
    /// then the document becomes the last value. Ignored while an operation
    /// of the server is being applied.
    pub fn on_change(&mut self, edit: Edit, actions: &mut Vec<ClientAction>) -> (r: Result<
        (),
        ClientError,
    >)
        requires
            old(self).wf(),
        ensures
            follows(
                r,
                step_on_change(old(self)@, edit.begin, edit.end, edit.content@),
                final(self)@,
                views(old(actions)@),
                views(final(actions)@),
            ),
            final(self).wf(),
    {
        if self.during_operation_application {
            assert(views(actions@) + seq![] =~= views(actions@));
            return Ok(());
        }
        let length = chars_of(self.last_value.as_str()).len();
        let Edit { begin, end, content } = edit;
        if end < begin || end > length {
            return Err(ClientError::BadEdit);
        }
        let content_len = chars_of(content.as_str()).len();
        if content_len > usize::MAX - begin || length - end > usize::MAX - begin - content_len {
            return Err(ClientError::Overflow);
        }
        let mut new_op = op_seq_new();
        proof {
            lemma_push_retain_lens(seq_ops(new_op), begin as u64);
        }
        op_seq_retain(&mut new_op, begin as u64);
        proof {
            lemma_push_delete_lens(seq_ops(new_op), (end - begin) as u64);
        }
        op_seq_delete(&mut new_op, (end - begin) as u64);
        proof {
            lemma_push_insert_lens(seq_ops(new_op), content@);
        }
        op_seq_insert(&mut new_op, content.as_str());
        proof {
            lemma_push_retain_lens(seq_ops(new_op), (length - end) as u64);
        }
        op_seq_retain(&mut new_op, (length - end) as u64);
        let r = self.apply_client(new_op, actions);
        if r.is_err() {
            return r;
        }
        self.last_value = self.editor_binding.content_as_string.clone();
        Ok(())
    }

    /// An edit made in the editor: applied to the client's document, then
    /// handled as a local change (`on_change`). `BadEdit` where the range is
    /// not one of the document.
    pub fn apply_local_edit(&mut self, edit: Edit, actions: &mut Vec<ClientAction>) -> (r: Result<
        (),
        ClientError,
    >)
        requires
            old(self).wf(),
        ensures
            edit.begin <= edit.end <= old(self)@.document.len() ==> follows(
                r,
                step_on_change(
                    ClientView {
                        document: splice(
                            old(self)@.document,
                            edit.begin as int,
                            edit.end as int,
                            edit.content@,
                        ),
                        ..old(self)@
                    },
                    edit.begin,
                    edit.end,
                    edit.content@,
                ),
                final(self)@,
                views(old(actions)@),
                views(final(actions)@),
            ),
            !(edit.begin <= edit.end <= old(self)@.document.len()) ==> r == Err::<(), ClientError>(
                ClientError::BadEdit,
            ),
            final(self).wf(),
    {
        if edit.begin > edit.end || edit.end > self.editor_binding.content.len() {
            return Err(ClientError::BadEdit);
        }
        self.editor_binding.edit_without_callback(&edit);
        self.on_change(edit, actions)
    }

    /// A new client for the server at `server_url`, with the user name
    /// "Comonad" and hue 1231231231.
    pub fn create(server_url: String) -> (r: RustpadClient)
        ensures
            r@ == initial_view(
                server_url@,
                Some(UserInfoView { name: "Comonad"@, hue: 1231231231 }),
            ),
            r.wf(),
    {
        let mut c = RustpadClient::default();
        c.server_url = server_url;
        c.my_info = Some(UserInfo { name: "Comonad".to_owned(), hue: 1231231231 });
        c
    }

    /// Records the id the server gave this client.
    pub fn set_id(&mut self, id: u64)
        ensures
            final(self)@ == (ClientView { my_id: Some(id), ..old(self)@ }),
            final(self).wf() == old(self).wf(),
    {
        self.my_id = Some(id);
    }

    /// True when `id` is this client's id.
    pub fn id_is(&self, id: u64) -> (r: bool)
        ensures
            r == (self.my_id == Some(id)),
    {
        match self.my_id {
            Some(x) => x == id,
            None => false,
        }
    }

    /// This client's id, once the server gave one.
    pub fn id(&self) -> (r: u64)
        requires
            self.my_id is Some,
        ensures
            r == self.my_id->0,
    {
        self.my_id.unwrap()
    }

    /// The action that closes the connection.
    pub fn close(&self) -> (r: ClientAction)
        ensures
            r@ == ActionView::Close,
    {
        ClientAction::Close
    }

    /// The message with this client's user information.
    pub fn send_info(&self) -> (r: ClientAction)
        requires
            self.my_info is Some,
        ensures
            r@ == ActionView::SendInfo(self@.my_info->0),
    {
        let info = match &self.my_info {
            Some(i) => i.duplicate(),
            None => UserInfo { name: String::new(), hue: 0 },
        };
        ClientAction::Send(ClientMsg::ClientInfo(info))
    }

    /// The message with an operation, based on the current revision.
    pub fn send_operation(&self, operation: &OperationSeq) -> (r: ClientAction)
        ensures
            r@ == (ActionView::SendEdit { revision: self.revision, ops: seq_ops(*operation) }),
    {
        ClientAction::Send(
            ClientMsg::Edit { revision: self.revision, operation: op_seq_clone(operation) },
        )
    }

    /// The message with this client's cursor data.
    pub fn send_cursor_data(&self) -> (r: ClientAction)
        ensures
            r@ == ActionView::SendCursorData(self@.cursor_data),
    {
        let mut cursors: Vec<u32> = Vec::new();
        let mut i: usize = 0;
        while i < self.cursor_data.cursors.len()
            invariant
                0 <= i <= self.cursor_data.cursors@.len(),
                cursors@ == self.cursor_data.cursors@.take(i as int),
            decreases self.cursor_data.cursors@.len() - i,
        {
            cursors.push(self.cursor_data.cursors[i]);
            i = i + 1;
            assert(cursors@ =~= self.cursor_data.cursors@.take(i as int));
        }
        let mut selections: Vec<(u32, u32)> = Vec::new();
        let mut j: usize = 0;
        while j < self.cursor_data.selections.len()
            invariant
                0 <= j <= self.cursor_data.selections@.len(),
                selections@ == self.cursor_data.selections@.take(j as int),
            decreases self.cursor_data.selections@.len() - j,
        {
            selections.push(self.cursor_data.selections[j]);
            j = j + 1;
            assert(selections@ =~= self.cursor_data.selections@.take(j as int));
        }
        assert(cursors@ =~= self.cursor_data.cursors@);
        assert(selections@ =~= self.cursor_data.selections@);
        ClientAction::Send(ClientMsg::CursorData(CursorData { cursors, selections }))
    }

    /// Records this client's cursor and selection, from a pair of character
    /// indices (active end, anchor), and gives the message that sends them.
    pub fn update_and_send_cursor_data(&mut self, selection: (u32, u32)) -> (r: ClientAction)
        ensures
            final(self)@ == (ClientView {
                cursor_data: CursorDataView {
                    cursors: seq![selection.0],
                    selections: seq![
                        (
                            if selection.0 <= selection.1 { selection.0 } else { selection.1 },
                            if selection.1 >= selection.0 { selection.1 } else { selection.0 },
                        ),
                    ],
                },
                ..old(self)@
            }),
            r@ == ActionView::SendCursorData(final(self)@.cursor_data),
            final(self).wf() == old(self).wf(),
    {
        let lo = if selection.0 <= selection.1 {
            selection.0
        } else {
            selection.1
        };
        let hi = if selection.1 >= selection.0 {
            selection.1
        } else {
            selection.0
        };
        let mut cursors: Vec<u32> = Vec::new();
        cursors.push(selection.0);
        let mut selections: Vec<(u32, u32)> = Vec::new();
        selections.push((lo, hi));
        self.cursor_data = CursorData { cursors, selections };
        assert(self.cursor_data.cursors@ =~= seq![selection.0]);
        assert(self.cursor_data.selections@ =~= seq![(lo, hi)]);
        self.send_cursor_data()
    }

    /// Handles a message from the server: records the id; applies a history
    /// from this client's revision on (closing the connection when the
    /// history starts after it); records the language, a user or a user's
    /// cursors (not this client's own).
    pub fn handle_message(&mut self, message: ServerMsg, actions: &mut Vec<ClientAction>) -> (r:
        Result<(), ClientError>)
        requires
            old(self).wf(),
        ensures
            follows(
                r,
                step_handle_message(old(self)@, message@),
                final(self)@,
                views(old(actions)@),
                views(final(actions)@),
            ),
            final(self).wf(),
    {
        let ghost msg = message@;
        let ghost a0 = views(actions@);
        match message {
            ServerMsg::Identity(id) => {
                self.set_id(id);
                assert(views(actions@) =~= a0 + seq![]);
                Ok(())
            },
            ServerMsg::History { start, operations } => {
                if start > self.revision {
                    let c = self.close();
                    proof {
                        lemma_views_push(actions@, c);
                    }
                    actions.push(c);
                    assert(views(actions@) =~= a0 + seq![ActionView::Close]);
                    return Ok(());
                }
                let ghost ops_view = msg->History_operations;
                let mut i: usize = self.revision - start;
                assert(views(actions@) =~= a0 + seq![]);
                assert(views(actions@).skip(a0.len() as int) =~= Seq::<ActionView>::empty());
                assert(views(actions@).take(a0.len() as int) =~= a0);
                while i < operations.len()
                    invariant
                        self.wf(),
                        msg == message@,
                        step_handle_message(old(self)@, msg) == step_history(
                            old(self)@,
                            ops_view,
                            old(self)@.revision - start,
                            seq![],
                        ),
                        ops_view.len() == operations@.len(),
                        forall|k: int|
                            0 <= k < operations@.len() ==> #[trigger] ops_view[k] == (
                                operations@[k].id,
                                seq_ops(operations@[k].operation),
                            ),
                        step_history(
                            old(self)@,
                            ops_view,
                            old(self)@.revision - start,
                            seq![],
                        ) == step_history(self@, ops_view, i as int, views(actions@).skip(
                            a0.len() as int,
                        )),
                        views(actions@).len() >= a0.len(),
                        views(actions@).take(a0.len() as int) == a0,
                        a0 == views(old(actions)@),
                    decreases operations@.len() - i,
                {
                    let ghost before = views(actions@);
                    let ghost s0 = self@;
                    let uop = &operations[i];
                    assert(ops_view[i as int] == (uop.id, seq_ops(uop.operation)));
                    if self.revision == usize::MAX {
                        return Err(ClientError::Overflow);
                    }
                    self.revision = self.revision + 1;
                    let ghost s1 = self@;
                    assert(s1 == ClientView { revision: (s0.revision + 1) as usize, ..s0 });
                    let ghost step: Step = if s1.my_id == Some(uop.id) {
                        Ok(step_server_ack(s1))
                    } else {
                        step_apply_server(s1, seq_ops(uop.operation))
                    };
                    if self.id_is(uop.id) {
                        self.send_server_ack(actions);
                    } else {
                        let r = self.apply_server(&uop.operation, actions);
                        if r.is_err() {
                            return r;
                        }
                    }
                    proof {
                        let step_a = step->Ok_0.1;
                        assert(self@ == step->Ok_0.0);
                        assert(views(actions@) == before + step_a);
                        assert(step_history(s0, ops_view, i as int, before.skip(a0.len() as int))
                            == step_history(
                            self@,
                            ops_view,
                            i + 1,
                            before.skip(a0.len() as int) + step_a,
                        ));
                        assert(views(actions@).skip(a0.len() as int) =~= before.skip(
                            a0.len() as int,
                        ) + step_a);
                        assert(views(actions@).take(a0.len() as int) =~= before.take(
                            a0.len() as int,
                        ));
                    }
                    i = i + 1;
                }
                proof {
                    assert(views(actions@) =~= a0 + views(actions@).skip(a0.len() as int));
                }
                Ok(())
            },
            ServerMsg::Language(lang) => {
                let mut old_language = lang;
                std::mem::swap(&mut self.language, &mut old_language);
                let changed = ClientAction::LanguageChanged {
                    old: old_language,
                    new: self.language.clone(),
                };
                proof {
                    lemma_views_push(actions@, changed);
                }
                actions.push(changed);
                assert(views(actions@) =~= a0 + step_handle_message(old(self)@, msg)->Ok_0.1);
                Ok(())
            },
            ServerMsg::UserInfo { id, info } => {
                if !self.id_is(id) {
                    match info {
                        Some(user) => {
                            self.users.insert(id, user);
                            proof {
                                lemma_views_push(actions@, ClientAction::UserChanged);
                            }
                            actions.push(ClientAction::UserChanged);
                            assert(users_view(self.users@) =~= old(self)@.users.insert(
                                id,
                                msg->UserInfo_info->0,
                            ));
                            assert(views(actions@) =~= a0 + seq![ActionView::UserChanged]);
                            return Ok(());
                        },
                        None => {},
                    }
                }
                assert(views(actions@) =~= a0 + seq![]);
                Ok(())
            },
            ServerMsg::UserCursor { id, data } => {
                if !self.id_is(id) {
                    self.user_cursors.insert(id, data);
                    proof {
                        lemma_views_push(actions@, ClientAction::UpdateCursors);
                    }
                    actions.push(ClientAction::UpdateCursors);
                    assert(cursors_view(self.user_cursors@) =~= old(self)@.user_cursors.insert(
                        id,
                        msg->UserCursor_data,
                    ));
                    assert(views(actions@) =~= a0 + seq![ActionView::UpdateCursors]);
                } else {
                    assert(views(actions@) =~= a0 + seq![]);
                }
                Ok(())
            },
        }
    }

    /// The messages to send once a connection is made: this client's user
    /// information, its cursor data, then the outstanding change, if any.
    pub fn connected_messages(&self) -> (r: Vec<ClientAction>)
        requires
            self.my_info is Some,
        ensures
            views(r@) == connected_actions(self@),
    {
        let mut r: Vec<ClientAction> = Vec::new();
        let info = self.send_info();
        proof {
            lemma_views_push(r@, info);
        }
        r.push(info);
        let cursors = self.send_cursor_data();
        proof {
            lemma_views_push(r@, cursors);
        }
        r.push(cursors);
        match &self.outstanding {
            Some(o) => {
                let edit = self.send_operation(o);
                proof {
                    lemma_views_push(r@, edit);
                }
                r.push(edit);
            },
            None => {},
        }
        assert(views(r@) =~= connected_actions(self@));
        r
    }

    /// Forgets the other users, as when a new connection begins.
    pub fn reset_users(&mut self)
        ensures
            final(self)@ == (ClientView { users: Map::empty(), ..old(self)@ }),
            final(self).wf() == old(self).wf(),
    {
        self.users.clear();
        assert(users_view(self.users@) =~= Map::<u64, UserInfoView>::empty());
    }
}

} // verus!
