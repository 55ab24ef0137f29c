//! Properties of the library that span several functions or all inputs.
use crate::backspace::{
    backspace_index, bs_inv, bs_run, bs_step, emoji_table_has, lemma_bs_step_inv,
    spec_is_emoji_modifier, spec_is_regional_indicator, spec_is_variation_selector, BsState,
};
use crate::client::{
    change_ops, checked_transform, client_queue, transform_all_cursors, step_apply_client, step_apply_operation, step_apply_server,
    step_handle_message, step_history, step_on_change, step_server_ack, step_transform_cursor,
    ActionView, ClientView, ServerMsgView,
};
use crate::coeditor::moved_index;
use crate::editor::splice;
use crate::transformer::{transformed_index, walk_index};
use crate::ot::{
    base_len_of, lemma_lens_concat, lemma_lens_single, lemma_push_delete_lens, lemma_push_insert_lens, lemma_push_retain_lens,
    target_len_of, OpView,
};
use vstd::prelude::*;

verus! {

/// The operation that a local edit of characters `begin..end` of a text of
/// `length` characters becomes applies to exactly that text (its base
/// length is `length`) and yields a text of `length - (end - begin)` plus
/// the inserted characters.
pub proof fn law_change_ops_lengths(begin: int, end: int, content: Seq<char>, length: int)
    requires
        0 <= begin <= end <= length <= usize::MAX,
        begin + content.len() + (length - end) <= usize::MAX,
    ensures
        base_len_of(change_ops(begin, end, content, length)) == length,
        target_len_of(change_ops(begin, end, content, length)) == length - (end - begin)
            + content.len(),
{
    let e = Seq::<OpView>::empty();
    let o1 = crate::ot::push_retain(e, begin as u64);
    lemma_push_retain_lens(e, begin as u64);
    let o2 = crate::ot::push_delete(o1, (end - begin) as u64);
    lemma_push_delete_lens(o1, (end - begin) as u64);
    let o3 = crate::ot::push_insert(o2, content);
    lemma_push_insert_lens(o2, content);
    lemma_push_retain_lens(o3, (length - end) as u64);
}

/// When the server acknowledges the outstanding change, the buffered change
/// becomes the one outstanding, the buffer empties, and the document stays
/// as it is.
pub proof fn law_ack_promotes_buffer(s: ClientView)
    ensures
        step_server_ack(s).0.outstanding == s.buffer,
        step_server_ack(s).0.buffer is None,
        step_server_ack(s).0.document == s.document,
        step_server_ack(s).0.revision == s.revision,
{
}

/// At most one local change is in flight: while a change is outstanding, a
/// new local change sends nothing.
pub proof fn law_one_change_in_flight(s: ClientView, ops: Seq<OpView>)
    requires
        s.outstanding is Some,
    ensures
        step_apply_client(s, ops) matches Ok((s2, a)) ==> a == seq![ActionView::UpdateCursors]
            && s2.outstanding == s.outstanding,
{
    match client_queue(s, ops) {
        Ok((s1, a1)) => {
            assert(a1 == Seq::<ActionView>::empty());
            match step_transform_cursor(s1, ops) {
                Ok((s2, a2)) => {
                    assert(a1 + a2 =~= seq![ActionView::UpdateCursors]);
                },
                Err(_) => {},
            }
        },
        Err(_) => {},
    }
}

/// A local change while nothing is outstanding is sent at once, based on
/// the current revision, and becomes the outstanding change.
pub proof fn law_synchronized_change_is_sent(s: ClientView, ops: Seq<OpView>)
    requires
        s.outstanding is None,
    ensures
        step_apply_client(s, ops) matches Ok((s2, a)) ==> a == seq![
            ActionView::SendEdit { revision: s.revision, ops },
            ActionView::UpdateCursors,
        ] && s2.outstanding == Some(ops),
{
    match client_queue(s, ops) {
        Ok((s1, a1)) => {
            match step_transform_cursor(s1, ops) {
                Ok((s2, a2)) => {
                    assert(a1 + a2 =~= seq![
                        ActionView::SendEdit { revision: s.revision, ops },
                        ActionView::UpdateCursors,
                    ]);
                },
                Err(_) => {},
            }
        },
        Err(_) => {},
    }
}

/// With nothing outstanding, an operation of the server is applied as it
/// comes, and the outstanding change and the buffer stay as they are.
pub proof fn law_server_op_without_outstanding(s: ClientView, ops: Seq<OpView>)
    requires
        s.outstanding is None,
    ensures
        step_apply_server(s, ops) == step_apply_operation(s, ops),
        step_apply_server(s, ops) matches Ok((s2, _)) ==> s2.outstanding is None && s2.buffer
            == s.buffer,
{
    lemma_apply_operation_keeps_queue(s, ops);
}

/// A buffered change always has an outstanding change ahead of it.
pub open spec fn queue_ordered(s: ClientView) -> bool {
    s.buffer is Some ==> s.outstanding is Some
}

proof fn lemma_apply_operation_keeps_queue(s: ClientView, ops: Seq<OpView>)
    ensures
        step_apply_operation(s, ops) matches Ok((s2, _)) ==> s2.buffer == s.buffer
            && s2.outstanding == s.outstanding,
{
}

proof fn lemma_apply_server_keeps_order(s: ClientView, ops: Seq<OpView>)
    requires
        queue_ordered(s),
    ensures
        step_apply_server(s, ops) matches Ok((s2, _)) ==> queue_ordered(s2),
{
    match s.outstanding {
        None => lemma_apply_operation_keeps_queue(s, ops),
        Some(o) => match crate::client::checked_transform(o, ops) {
            Err(_) => {},
            Ok((t1, t2)) => {
                let s1 = ClientView { outstanding: Some(t1), ..s };
                match s.buffer {
                    None => lemma_apply_operation_keeps_queue(s1, t2),
                    Some(b) => match crate::client::checked_transform(b, ops) {
                        Err(_) => {},
                        Ok((t3, t4)) => lemma_apply_operation_keeps_queue(
                            ClientView { buffer: Some(t3), ..s1 },
                            t4,
                        ),
                    },
                }
            },
        },
    }
}

proof fn lemma_apply_client_keeps_order(s: ClientView, ops: Seq<OpView>)
    requires
        queue_ordered(s),
    ensures
        step_apply_client(s, ops) matches Ok((s2, _)) ==> queue_ordered(s2),
{
}

proof fn lemma_history_keeps_order(
    s: ClientView,
    operations: Seq<(u64, Seq<OpView>)>,
    i: int,
    acc: Seq<ActionView>,
)
    requires
        queue_ordered(s),
    ensures
        step_history(s, operations, i, acc) matches Ok((s2, _)) ==> queue_ordered(s2),
    decreases operations.len() - i,
{
    if 0 <= i < operations.len() && s.revision != usize::MAX {
        let s1 = ClientView { revision: (s.revision + 1) as usize, ..s };
        let (id, ops) = operations[i];
        if s1.my_id == Some(id) {
            let (s2, a) = step_server_ack(s1);
            lemma_history_keeps_order(s2, operations, i + 1, acc + a);
        } else {
            lemma_apply_server_keeps_order(s1, ops);
            match step_apply_server(s1, ops) {
                Err(_) => {},
                Ok((s2, a)) => lemma_history_keeps_order(s2, operations, i + 1, acc + a),
            }
        }
    }
}

/// At most one change is in flight and a buffered change always waits
/// behind the outstanding one: every step of the client keeps that order.
pub proof fn law_buffer_behind_outstanding(
    s: ClientView,
    ops: Seq<OpView>,
    msg: ServerMsgView,
    begin: usize,
    end: usize,
    content: Seq<char>,
)
    requires
        queue_ordered(s),
    ensures
        step_apply_client(s, ops) matches Ok((s2, _)) ==> queue_ordered(s2),
        step_apply_server(s, ops) matches Ok((s2, _)) ==> queue_ordered(s2),
        queue_ordered(step_server_ack(s).0),
        step_on_change(s, begin, end, content) matches Ok((s2, _)) ==> queue_ordered(s2),
        step_handle_message(s, msg) matches Ok((s2, _)) ==> queue_ordered(s2),
{
    lemma_apply_client_keeps_order(s, ops);
    lemma_apply_server_keeps_order(s, ops);
    let length = s.last_value.len() as int;
    lemma_apply_client_keeps_order(s, change_ops(begin as int, end as int, content, length));
    match msg {
        ServerMsgView::History { start, operations } => {
            if start <= s.revision {
                lemma_history_keeps_order(s, operations, s.revision - start, seq![]);
            }
        },
        _ => {},
    }
}

/// With a change outstanding, an operation of the server is transformed
/// against it: the outstanding change becomes its transformed form, and what
/// reaches the document is the server operation transformed against the
/// outstanding change (and, with a buffer, the server operation transformed
/// against the buffer, as the client does).
pub proof fn law_server_op_is_transformed(s: ClientView, ops: Seq<OpView>)
    requires
        s.outstanding is Some,
        checked_transform(s.outstanding->0, ops) is Ok,
    ensures
        ({
            let (t1, t2) = checked_transform(s.outstanding->0, ops)->Ok_0;
            let s1 = ClientView { outstanding: Some(t1), ..s };
            &&& s.buffer is None ==> step_apply_server(s, ops) == step_apply_operation(s1, t2)
            &&& s.buffer is Some ==> match checked_transform(s.buffer->0, ops) {
                Ok((t3, t4)) => step_apply_server(s, ops) == step_apply_operation(
                    ClientView { buffer: Some(t3), ..s1 },
                    t4,
                ),
                Err(e) => step_apply_server(s, ops) == Err::<(ClientView, Seq<ActionView>), _>(e),
            }
            &&& step_apply_server(s, ops) matches Ok((s2, _)) ==> s2.outstanding == Some(t1)
        }),
{
    let (t1, t2) = checked_transform(s.outstanding->0, ops)->Ok_0;
    let s1 = ClientView { outstanding: Some(t1), ..s };
    match s.buffer {
        None => lemma_apply_operation_keeps_queue(s1, t2),
        Some(b) => match checked_transform(b, ops) {
            Ok((t3, t4)) => lemma_apply_operation_keeps_queue(
                ClientView { buffer: Some(t3), ..s1 },
                t4,
            ),
            Err(_) => {},
        },
    }
}

proof fn lemma_apply_operation_keeps_revision(s: ClientView, ops: Seq<OpView>)
    ensures
        step_apply_operation(s, ops) matches Ok((s2, _)) ==> s2.revision == s.revision,
{
}

proof fn lemma_apply_server_keeps_revision(s: ClientView, ops: Seq<OpView>)
    ensures
        step_apply_server(s, ops) matches Ok((s2, _)) ==> s2.revision == s.revision,
{
    lemma_apply_operation_keeps_revision(s, ops);
    match s.outstanding {
        None => {},
        Some(o) => match checked_transform(o, ops) {
            Err(_) => {},
            Ok((t1, t2)) => {
                let s1 = ClientView { outstanding: Some(t1), ..s };
                lemma_apply_operation_keeps_revision(s1, t2);
                match s.buffer {
                    None => {},
                    Some(b) => match checked_transform(b, ops) {
                        Err(_) => {},
                        Ok((t3, t4)) => lemma_apply_operation_keeps_revision(
                            ClientView { buffer: Some(t3), ..s1 },
                            t4,
                        ),
                    },
                }
            },
        },
    }
}

proof fn lemma_history_revision(
    s: ClientView,
    operations: Seq<(u64, Seq<OpView>)>,
    i: int,
    acc: Seq<ActionView>,
)
    requires
        0 <= i,
    ensures
        step_history(s, operations, i, acc) matches Ok((s2, _)) ==> s2.revision == s.revision + (
        if i < operations.len() {
            operations.len() - i
        } else {
            0
        }),
    decreases operations.len() - i,
{
    if i < operations.len() && s.revision != usize::MAX {
        let s1 = ClientView { revision: (s.revision + 1) as usize, ..s };
        let (id, ops) = operations[i];
        if s1.my_id == Some(id) {
            let (s2, a) = step_server_ack(s1);
            lemma_history_revision(s2, operations, i + 1, acc + a);
        } else {
            lemma_apply_server_keeps_revision(s1, ops);
            match step_apply_server(s1, ops) {
                Err(_) => {},
                Ok((s2, a)) => lemma_history_revision(s2, operations, i + 1, acc + a),
            }
        }
    }
}

/// A history from revision `start` skips the operations the client already
/// counted: afterwards the client is at revision `start` plus the number of
/// operations (or stays where it was, if it was already past them), so each
/// operation from index `revision - start` on is counted once.
pub proof fn law_history_skips_applied(
    s: ClientView,
    start: usize,
    operations: Seq<(u64, Seq<OpView>)>,
)
    requires
        start <= s.revision,
    ensures
        step_handle_message(s, ServerMsgView::History { start, operations }) matches Ok((s2, _))
            ==> s2.revision == if s.revision <= start + operations.len() {
            start + operations.len()
        } else {
            s.revision as int
        },
{
    lemma_history_revision(s, operations, s.revision - start, seq![]);
}

/// A local change that is accepted moves every other user's cursors and
/// selections as the change's operation moves indices; the users stay the
/// same.
pub proof fn law_local_change_moves_cursors(s: ClientView, ops: Seq<OpView>, id: u64, k: int)
    ensures
        step_apply_client(s, ops) matches Ok((s2, _)) ==> {
            &&& s2.user_cursors.dom() == s.user_cursors.dom()
            &&& s.user_cursors.dom().contains(id) && 0 <= k < s.user_cursors[id].cursors.len()
                ==> s2.user_cursors[id].cursors.len() == s.user_cursors[id].cursors.len()
                && transformed_index(ops, s.user_cursors[id].cursors[k]) == Some(
                s2.user_cursors[id].cursors[k],
            )
            &&& s.user_cursors.dom().contains(id) && 0 <= k < s.user_cursors[id].selections.len()
                ==> s2.user_cursors[id].selections.len() == s.user_cursors[id].selections.len()
                && transformed_index(ops, s.user_cursors[id].selections[k].0) == Some(
                s2.user_cursors[id].selections[k].0,
            ) && transformed_index(ops, s.user_cursors[id].selections[k].1) == Some(
                s2.user_cursors[id].selections[k].1,
            )
        },
{
    match client_queue(s, ops) {
        Ok((s1, _)) => {
            assert(s1.user_cursors == s.user_cursors);
            if transform_all_cursors(ops, s1.user_cursors) is Some {
                if s.user_cursors.dom().contains(id) {
                    assert(crate::client::transform_cursor_data(ops, s.user_cursors[id]) is Some);
                }
            }
        },
        Err(_) => {},
    }
}

/// An emoji that starts no other kind of sequence: in the emoji table, and
/// no line feed, variation selector, regional indicator, emoji modifier or
/// keycap mark.
pub open spec fn plain_emoji(c: char) -> bool {
    &&& emoji_table_has(c)
    &&& c as u32 != 0x0A
    &&& !spec_is_variation_selector(c)
    &&& !spec_is_regional_indicator(c)
    &&& !spec_is_emoji_modifier(c)
    &&& c as u32 != 0x20E3
}

/// Characters `a..k` of `s` are plain emoji joined by zero width joiners
/// (`e0 ZWJ e1 ZWJ ... en`), and no joiner stands before `e0`.
pub open spec fn zwj_sequence(s: Seq<char>, a: int, k: int) -> bool {
    &&& 0 <= a < k <= s.len()
    &&& (k - a) % 2 == 1
    &&& forall|i: int|
        a <= i < k ==> if (i - a) % 2 == 0 {
            plain_emoji(#[trigger] s[i])
        } else {
            s[i] as u32 == 0x200D
        }
    &&& a == 0 || s[a - 1] as u32 != 0x200D
}

proof fn lemma_zwj_run(s: Seq<char>, a: int, k: int, i: int, count: int, vs: int)
    requires
        zwj_sequence(s, a, k),
        a <= i < k,
        (i - a) % 2 == 0,
    ensures
        bs_run(s, i, BsState::BeforeEmoji, count, vs).1 == count + (i - a),
    decreases i,
{
    if i > a {
        assert((i - 1 - a) % 2 == 1);
        assert((i - 2 - a) % 2 == 0);
        assert(s[i - 1] as u32 == 0x200D);
        assert(plain_emoji(s[i - 2]));
        reveal_with_fuel(bs_run, 3);
        lemma_zwj_run(s, a, k, i - 2, count + 2, vs);
    } else if i > 0 {
        reveal_with_fuel(bs_run, 2);
    }
}

/// A backspace after emoji joined by zero width joiners deletes the whole
/// sequence, however many emoji it joins.
pub proof fn law_backspace_zwj_sequence(s: Seq<char>, a: int, k: int)
    requires
        zwj_sequence(s, a, k),
    ensures
        backspace_index(s, k) == a,
{
    assert((k - 1 - a) % 2 == 0);
    assert(plain_emoji(s[k - 1]));
    lemma_zwj_run(s, a, k, k - 1, 1, 0);
    reveal_with_fuel(bs_run, 2);
}

/// What a sequence of steps makes of `doc`, as operational transform reads
/// them: a retain keeps the next characters, an insert adds its text, a
/// delete drops the next characters; `None` unless the steps use exactly
/// the whole of `doc`.
pub open spec fn apply_text(doc: Seq<char>, ops: Seq<OpView>) -> Option<Seq<char>>
    decreases ops.len(),
{
    if ops.len() == 0 {
        if doc.len() == 0 {
            Some(doc)
        } else {
            None
        }
    } else {
        match ops[0] {
            OpView::Retain(n) => if n <= doc.len() {
                match apply_text(doc.skip(n as int), ops.drop_first()) {
                    Some(r) => Some(doc.take(n as int) + r),
                    None => None,
                }
            } else {
                None
            },
            OpView::Insert(t) => match apply_text(doc, ops.drop_first()) {
                Some(r) => Some(t + r),
                None => None,
            },
            OpView::Delete(n) => if n <= doc.len() {
                apply_text(doc.skip(n as int), ops.drop_first())
            } else {
                None
            },
        }
    }
}

/// Applying two sequences one after the other applies the first to the
/// characters it uses and the second to the rest.
proof fn lemma_apply_concat(doc: Seq<char>, o1: Seq<OpView>, o2: Seq<OpView>)
    requires
        base_len_of(o1) <= doc.len(),
    ensures
        apply_text(doc, o1 + o2) == match apply_text(doc.take(base_len_of(o1) as int), o1) {
            Some(x) => match apply_text(doc.skip(base_len_of(o1) as int), o2) {
                Some(y) => Some(x + y),
                None => None,
            },
            None => None,
        },
    decreases o1.len(),
{
    let b = base_len_of(o1) as int;
    if o1.len() == 0 {
        assert(o1 + o2 =~= o2);
        assert(doc.take(0) =~= Seq::<char>::empty());
        assert(doc.skip(0) =~= doc);
        assert(Seq::<char>::empty() + apply_text(doc, o2)->0 =~= apply_text(doc, o2)->0);
    } else {
        lemma_lens_first(o1);
        let rest = o1.drop_first();
        assert((o1 + o2)[0] == o1[0]);
        assert((o1 + o2).drop_first() =~= rest + o2);
        let pre = doc.take(b);
        match o1[0] {
            OpView::Retain(n) => {
                let n = n as int;
                lemma_apply_concat(doc.skip(n), rest, o2);
                assert(doc.skip(n).take(b - n) =~= pre.skip(n));
                assert(doc.skip(n).skip(b - n) =~= doc.skip(b));
                assert(pre.take(n) =~= doc.take(n));
                match apply_text(pre.skip(n), rest) {
                    Some(x) => match apply_text(doc.skip(b), o2) {
                        Some(y) => {
                            assert(doc.take(n) + (x + y) =~= (doc.take(n) + x) + y);
                        },
                        None => {},
                    },
                    None => {},
                }
            },
            OpView::Insert(t) => {
                lemma_apply_concat(doc, rest, o2);
                match apply_text(pre, rest) {
                    Some(x) => match apply_text(doc.skip(b), o2) {
                        Some(y) => {
                            assert(t + (x + y) =~= (t + x) + y);
                        },
                        None => {},
                    },
                    None => {},
                }
            },
            OpView::Delete(n) => {
                let n = n as int;
                lemma_apply_concat(doc.skip(n), rest, o2);
                assert(doc.skip(n).take(b - n) =~= pre.skip(n));
                assert(doc.skip(n).skip(b - n) =~= doc.skip(b));
            },
        }
    }
}

/// A retain of all of `doc` gives `doc`.
proof fn lemma_apply_retain_all(doc: Seq<char>, n: u64)
    requires
        n == doc.len(),
    ensures
        apply_text(doc, seq![OpView::Retain(n)]) == Some(doc),
{
    reveal_with_fuel(apply_text, 2);
    assert(seq![OpView::Retain(n)].drop_first() =~= Seq::<OpView>::empty());
    assert(doc.skip(n as int) =~= Seq::<char>::empty());
    assert(doc.take(n as int) + Seq::<char>::empty() =~= doc);
}

/// An insert on the empty text gives its text.
proof fn lemma_apply_insert_alone(t: Seq<char>)
    ensures
        apply_text(Seq::<char>::empty(), seq![OpView::Insert(t)]) == Some(t),
{
    reveal_with_fuel(apply_text, 2);
    assert(seq![OpView::Insert(t)].drop_first() =~= Seq::<OpView>::empty());
    assert(t + Seq::<char>::empty() =~= t);
}

/// A delete of all of `doc` gives the empty text.
proof fn lemma_apply_delete_all(doc: Seq<char>, n: u64)
    requires
        n == doc.len(),
    ensures
        apply_text(doc, seq![OpView::Delete(n)]) == Some(Seq::<char>::empty()),
{
    reveal_with_fuel(apply_text, 2);
    assert(seq![OpView::Delete(n)].drop_first() =~= Seq::<OpView>::empty());
    assert(doc.skip(n as int) =~= Seq::<char>::empty());
}

/// A retain of `n` characters, left out for none.
pub open spec fn retain_piece(n: int) -> Seq<OpView> {
    if n > 0 {
        seq![OpView::Retain(n as u64)]
    } else {
        Seq::empty()
    }
}

/// A delete of `n` characters, left out for none.
pub open spec fn delete_piece(n: int) -> Seq<OpView> {
    if n > 0 {
        seq![OpView::Delete(n as u64)]
    } else {
        Seq::empty()
    }
}

/// An insert of `t`, left out for an empty text.
pub open spec fn insert_piece(t: Seq<char>) -> Seq<OpView> {
    if t.len() > 0 {
        seq![OpView::Insert(t)]
    } else {
        Seq::empty()
    }
}

/// The steps of a local edit: its pieces in order, or one retain of the
/// whole text where nothing changes between two retains.
proof fn lemma_change_ops_shape(begin: int, end: int, content: Seq<char>, len: int)
    requires
        0 <= begin <= end <= len,
        end - begin <= usize::MAX,
        begin + (len - end) <= usize::MAX,
    ensures
        (begin > 0 && content.len() == 0 && end == begin && len > end) ==> change_ops(
            begin,
            end,
            content,
            len,
        ) == seq![OpView::Retain(len as u64)],
        !(begin > 0 && content.len() == 0 && end == begin && len > end) ==> change_ops(
            begin,
            end,
            content,
            len,
        ) == retain_piece(begin) + (insert_piece(content) + (delete_piece(end - begin)
            + retain_piece(len - end))),
{
    let e = Seq::<OpView>::empty();
    let p1 = retain_piece(begin);
    let pi = insert_piece(content);
    let pd = delete_piece(end - begin);
    let pr = retain_piece(len - end);
    let o1 = crate::ot::push_retain(e, begin as u64);
    assert(o1 =~= p1);
    let o2 = crate::ot::push_delete(o1, (end - begin) as u64);
    assert(o2 =~= p1 + pd);
    let o3 = crate::ot::push_insert(o2, content);
    assert(o3 =~= p1 + pi + pd);
    let o4 = crate::ot::push_retain(o3, (len - end) as u64);
    if begin > 0 && content.len() == 0 && end == begin && len > end {
        assert(o4 =~= seq![OpView::Retain(len as u64)]);
    } else {
        assert(o4 =~= p1 + (pi + (pd + pr)));
    }
}

/// Each piece, applied to the characters it uses.
proof fn lemma_pieces(doc: Seq<char>, begin: int, end: int, content: Seq<char>)
    requires
        0 <= begin <= end <= doc.len(),
        end - begin <= usize::MAX,
        begin + (doc.len() - end) <= usize::MAX,
    ensures
        apply_text(doc.take(begin), retain_piece(begin)) == Some(doc.take(begin)),
        apply_text(Seq::<char>::empty(), insert_piece(content)) == Some(content),
        apply_text(doc.subrange(begin, end), delete_piece(end - begin)) == Some(
            Seq::<char>::empty(),
        ),
        apply_text(doc.skip(end), retain_piece(doc.len() - end)) == Some(doc.skip(end)),
        base_len_of(retain_piece(begin)) == begin,
        base_len_of(insert_piece(content)) == 0,
        base_len_of(delete_piece(end - begin)) == end - begin,
        base_len_of(retain_piece(doc.len() - end)) == doc.len() - end,
{
    let d = end - begin;
    let r = doc.len() - end;
    if begin > 0 {
        lemma_apply_retain_all(doc.take(begin), begin as u64);
    } else {
        assert(doc.take(begin) =~= Seq::<char>::empty());
    }
    if content.len() > 0 {
        lemma_apply_insert_alone(content);
    }
    if d > 0 {
        lemma_apply_delete_all(doc.subrange(begin, end), d as u64);
    } else {
        assert(doc.subrange(begin, end) =~= Seq::<char>::empty());
    }
    if r > 0 {
        lemma_apply_retain_all(doc.skip(end), r as u64);
    } else {
        assert(doc.skip(end) =~= Seq::<char>::empty());
    }
    lemma_lens_single(OpView::Retain(begin as u64));
    lemma_lens_single(OpView::Insert(content));
    lemma_lens_single(OpView::Delete(d as u64));
    lemma_lens_single(OpView::Retain(r as u64));
}

/// The operation of a local edit, applied to the text it was made from,
/// replaces characters `begin..end` by `content` and keeps the rest.
pub proof fn law_change_ops_apply(doc: Seq<char>, begin: int, end: int, content: Seq<char>)
    requires
        0 <= begin <= end <= doc.len(),
        end - begin <= usize::MAX,
        begin + (doc.len() - end) <= usize::MAX,
    ensures
        apply_text(doc, change_ops(begin, end, content, doc.len() as int)) == Some(
            splice(doc, begin, end, content),
        ),
{
    let len = doc.len() as int;
    lemma_change_ops_shape(begin, end, content, len);
    if begin > 0 && content.len() == 0 && end == begin && len > end {
        lemma_apply_retain_all(doc, len as u64);
        assert(splice(doc, begin, end, content) =~= doc);
    } else {
        let p1 = retain_piece(begin);
        let pi = insert_piece(content);
        let pd = delete_piece(end - begin);
        let pr = retain_piece(len - end);
        lemma_pieces(doc, begin, end, content);
        let rest = doc.skip(begin);
        lemma_apply_concat(rest, pd, pr);
        assert(rest.take(end - begin) =~= doc.subrange(begin, end));
        assert(rest.skip(end - begin) =~= doc.skip(end));
        assert(Seq::<char>::empty() + doc.skip(end) =~= doc.skip(end));
        lemma_lens_concat(pd, pr);
        lemma_apply_concat(rest, pi, pd + pr);
        assert(rest.take(0) =~= Seq::<char>::empty());
        assert(rest.skip(0) =~= rest);
        lemma_lens_concat(pi, pd + pr);
        lemma_apply_concat(doc, p1, pi + (pd + pr));
        assert(doc.take(begin) + (content + doc.skip(end)) =~= splice(doc, begin, end, content));
    }
}

/// A local edit made while nothing is outstanding sends an operation that,
/// applied to the text as it was last, replaces exactly characters
/// `begin..end` by the new text; made while a change is outstanding and
/// nothing is buffered, it buffers such an operation.
pub proof fn law_local_edit_sends_its_splice(
    s: ClientView,
    begin: usize,
    end: usize,
    content: Seq<char>,
)
    requires
        !s.during_operation_application,
        begin <= end <= s.last_value.len(),
    ensures
        step_on_change(s, begin, end, content) matches Ok((s2, a)) ==> {
            &&& s.outstanding is None ==> a.len() >= 1 && a[0] == (ActionView::SendEdit {
                revision: s.revision,
                ops: s2.outstanding->0,
            }) && s2.outstanding is Some && apply_text(s.last_value, s2.outstanding->0) == Some(
                splice(s.last_value, begin as int, end as int, content),
            )
            &&& s.outstanding is Some && s.buffer is None ==> s2.buffer is Some && apply_text(
                s.last_value,
                s2.buffer->0,
            ) == Some(splice(s.last_value, begin as int, end as int, content))
        },
{
    let length = s.last_value.len() as int;
    if begin + content.len() + (length - end) <= usize::MAX {
        law_change_ops_apply(s.last_value, begin as int, end as int, content);
    }
}

/// An index before an edit stays; one after it shifts by the change in
/// length; one inside it goes to the end of the new text.
pub proof fn law_moved_index(begin: int, end: int, len: int, x: int)
    requires
        begin <= end,
    ensures
        x < begin ==> moved_index(begin, end, len, x) == x,
        x > end ==> moved_index(begin, end, len, x) == x + (len - (end - begin)),
        begin <= x <= end ==> moved_index(begin, end, len, x) == begin + len,
{
}

proof fn lemma_bs_run_inv(s: Seq<char>, i: int, st: BsState, count: int, vs: int, c: int)
    requires
        0 <= i <= s.len(),
        bs_inv(st, count, vs, c),
    ensures
        0 <= bs_run(s, i, st, count, vs).1 <= c + i,
        (st != BsState::Start || i > 0) ==> bs_run(s, i, st, count, vs).1 >= 1,
    decreases i,
{
    if i > 0 && st != BsState::Finished {
        let n = bs_step(st, count, vs, s[i - 1]);
        lemma_bs_step_inv(st, count, vs, c, s[i - 1]);
        lemma_bs_run_inv(s, i - 1, n.0, n.1, n.2, c + 1);
    }
}

/// A backspace after at least one character deletes at least one, and never
/// reaches before the start of the text.
pub proof fn law_backspace_deletes_something(s: Seq<char>, k: int)
    requires
        0 < k <= s.len(),
    ensures
        0 <= backspace_index(s, k) < k,
{
    lemma_bs_run_inv(s, k, BsState::Start, 0, 0, 0);
}

/// A backspace at the start of the text stays there.
pub proof fn law_backspace_at_start(s: Seq<char>)
    ensures
        backspace_index(s, 0) == 0,
{
}

/// A character that starts no special sequence (no line feed, variation
/// selector, regional indicator, emoji modifier, keycap, emoji or cancel
/// tag) is deleted alone.
pub proof fn law_backspace_plain_char(s: Seq<char>, k: int)
    requires
        0 < k <= s.len(),
        s[k - 1] as u32 != 0x0A,
        !spec_is_variation_selector(s[k - 1]),
        !spec_is_regional_indicator(s[k - 1]),
        !spec_is_emoji_modifier(s[k - 1]),
        s[k - 1] as u32 != 0x20E3,
        !emoji_table_has(s[k - 1]),
        s[k - 1] as u32 != 0xE007F,
    ensures
        backspace_index(s, k) == k - 1,
{
    reveal_with_fuel(bs_run, 2);
}

/// A CR LF pair before the cursor is deleted as one.
pub proof fn law_backspace_crlf(s: Seq<char>, k: int)
    requires
        2 <= k <= s.len(),
        s[k - 1] as u32 == 0x0A,
        s[k - 2] as u32 == 0x0D,
    ensures
        backspace_index(s, k) == k - 2,
{
    reveal_with_fuel(bs_run, 3);
}

/// Every step's length fits in `i32`, so the casts of the walk keep it.
pub open spec fn lengths_fit_i32(ops: Seq<OpView>) -> bool {
    forall|k: int|
        0 <= k < ops.len() ==> match #[trigger] ops[k] {
            OpView::Retain(n) => n <= i32::MAX,
            OpView::Delete(n) => n <= i32::MAX,
            OpView::Insert(t) => t.len() <= i32::MAX,
        }
}

proof fn lemma_fit_rest(ops: Seq<OpView>)
    requires
        ops.len() > 0,
        lengths_fit_i32(ops),
    ensures
        lengths_fit_i32(ops.drop_first()),
        match ops[0] {
            OpView::Retain(n) => (n as i32) as int == n as int,
            OpView::Delete(n) => (n as i32) as int == n as int,
            OpView::Insert(t) => (t.len() as i32) as int == t.len() as int,
        },
{
    assert forall|k: int| 0 <= k < ops.drop_first().len() implies match #[trigger] ops.drop_first()[k] {
        OpView::Retain(n) => n <= i32::MAX,
        OpView::Delete(n) => n <= i32::MAX,
        OpView::Insert(t) => t.len() <= i32::MAX,
    } by {
        assert(ops.drop_first()[k] == ops[k + 1]);
    }
    assert(match ops[0] {
        OpView::Retain(n) => n <= i32::MAX,
        OpView::Delete(n) => n <= i32::MAX,
        OpView::Insert(t) => t.len() <= i32::MAX,
    });
    match ops[0] {
        OpView::Retain(n) => {
            assert((n as i32) as int == n as int) by (bit_vector)
                requires
                    n <= 0x7fff_ffffu64,
            ;
        },
        OpView::Delete(n) => {
            assert((n as i32) as int == n as int) by (bit_vector)
                requires
                    n <= 0x7fff_ffffu64,
            ;
        },
        OpView::Insert(t) => {
            let l = t.len();
            assert(l <= i32::MAX);
        },
    }
}

/// While the walk goes on, `new_index - index` never shrinks; so its result
/// is at least that difference at any earlier point.
proof fn lemma_walk_lower(ops: Seq<OpView>, i: int, n: int)
    requires
        i >= 0,
        lengths_fit_i32(ops),
        walk_index(ops, i, n) is Some,
    ensures
        walk_index(ops, i, n)->0 >= n - i,
    decreases ops.len(),
{
    if ops.len() > 0 {
        lemma_fit_rest(ops);
        match ops[0] {
            OpView::Retain(d) => {
                if i - d >= 0 {
                    lemma_walk_lower(ops.drop_first(), i - d, n);
                }
            },
            OpView::Insert(t) => {
                lemma_walk_lower(ops.drop_first(), i, n + t.len());
            },
            OpView::Delete(d) => {
                let m = if i <= d { i } else { d as int };
                if i - d >= 0 {
                    lemma_walk_lower(ops.drop_first(), i - d, n - m);
                }
            },
        }
    }
}

proof fn lemma_walk_mono(ops: Seq<OpView>, i1: int, n1: int, i2: int, n2: int)
    requires
        0 <= i1 <= i2,
        n2 - n1 >= i2 - i1,
        lengths_fit_i32(ops),
        walk_index(ops, i1, n1) is Some,
        walk_index(ops, i2, n2) is Some,
    ensures
        walk_index(ops, i1, n1)->0 <= walk_index(ops, i2, n2)->0,
    decreases ops.len(),
{
    if ops.len() > 0 {
        lemma_fit_rest(ops);
        match ops[0] {
            OpView::Retain(d) => {
                if i1 - d >= 0 {
                    lemma_walk_mono(ops.drop_first(), i1 - d, n1, i2 - d, n2);
                } else if i2 - d >= 0 {
                    lemma_walk_lower(ops.drop_first(), i2 - d, n2);
                }
            },
            OpView::Insert(t) => {
                lemma_walk_mono(ops.drop_first(), i1, n1 + t.len(), i2, n2 + t.len());
            },
            OpView::Delete(d) => {
                let m1 = if i1 <= d { i1 } else { d as int };
                let m2 = if i2 <= d { i2 } else { d as int };
                if i1 - d >= 0 {
                    lemma_walk_mono(ops.drop_first(), i1 - d, n1 - m1, i2 - d, n2 - m2);
                } else if i2 - d >= 0 {
                    lemma_walk_lower(ops.drop_first(), i2 - d, n2 - m2);
                }
            },
        }
    }
}

/// The lengths of a non-empty sequence of steps, split at its first step.
proof fn lemma_lens_first(ops: Seq<OpView>)
    requires
        ops.len() > 0,
    ensures
        base_len_of(ops) == base_len_of(ops.drop_first()) + match ops[0] {
            OpView::Retain(n) => n as nat,
            OpView::Delete(n) => n as nat,
            OpView::Insert(_) => 0nat,
        },
        target_len_of(ops) == target_len_of(ops.drop_first()) + match ops[0] {
            OpView::Retain(n) => n as nat,
            OpView::Delete(_) => 0nat,
            OpView::Insert(t) => t.len(),
        },
{
    assert(ops =~= seq![ops[0]] + ops.drop_first());
    lemma_lens_concat(seq![ops[0]], ops.drop_first());
    lemma_lens_single(ops[0]);
}

/// A walk that starts no further on than a walk that completes, and no
/// further ahead in the new text, completes too.
proof fn lemma_walk_defined(ops: Seq<OpView>, i1: int, n1: int, i2: int, n2: int)
    requires
        0 <= i1 <= i2 <= i32::MAX,
        i1 <= n1,
        n2 - n1 >= i2 - i1,
        n2 <= i32::MAX,
        lengths_fit_i32(ops),
        walk_index(ops, i2, n2) is Some,
    ensures
        walk_index(ops, i1, n1) is Some,
    decreases ops.len(),
{
    if ops.len() > 0 {
        lemma_fit_rest(ops);
        match ops[0] {
            OpView::Retain(d) => {
                if i1 - d >= 0 {
                    lemma_walk_defined(ops.drop_first(), i1 - d, n1, i2 - d, n2);
                }
            },
            OpView::Insert(t) => {
                lemma_walk_defined(ops.drop_first(), i1, n1 + t.len(), i2, n2 + t.len());
            },
            OpView::Delete(d) => {
                if i1 - d >= 0 {
                    lemma_walk_defined(ops.drop_first(), i1 - d, n1 - d, i2 - d, n2 - d);
                }
            },
        }
    }
}

/// A walk from inside the old text ends no further than the new text's
/// length, shifted by how far `new_index` is ahead of `index`.
proof fn lemma_walk_upper(ops: Seq<OpView>, i: int, n: int)
    requires
        0 <= i <= base_len_of(ops),
        lengths_fit_i32(ops),
        walk_index(ops, i, n) is Some,
    ensures
        walk_index(ops, i, n)->0 <= n - i + target_len_of(ops),
    decreases ops.len(),
{
    if ops.len() > 0 {
        lemma_fit_rest(ops);
        lemma_lens_first(ops);
        match ops[0] {
            OpView::Retain(d) => {
                if i - d >= 0 {
                    lemma_walk_upper(ops.drop_first(), i - d, n);
                }
            },
            OpView::Insert(t) => {
                lemma_walk_upper(ops.drop_first(), i, n + t.len());
            },
            OpView::Delete(d) => {
                if i - d >= 0 {
                    lemma_walk_upper(ops.drop_first(), i - d, n - d);
                }
            },
        }
    }
}

/// Every insert of the steps has at most `i32::MAX` characters.
pub open spec fn inserts_fit_i32(ops: Seq<OpView>) -> bool {
    forall|k: int|
        0 <= k < ops.len() ==> (#[trigger] ops[k] matches OpView::Insert(t) ==> t.len() <= i32::MAX)
}

proof fn lemma_u64_fits_i32(d: u64)
    requires
        d <= i32::MAX,
    ensures
        (d as i32) as int == d as int,
{
    assert((d as i32) as int == d as int) by (bit_vector)
        requires
            d <= 0x7fff_ffffu64,
    ;
}

/// A walk from the end of the old text never stops early and ends at the
/// end of the new text, shifted as above.
proof fn lemma_walk_end(ops: Seq<OpView>, i: int, n: int)
    requires
        i == base_len_of(ops),
        i <= i32::MAX,
        inserts_fit_i32(ops),
        walk_index(ops, i, n) is Some,
    ensures
        walk_index(ops, i, n)->0 == n - i + target_len_of(ops),
    decreases ops.len(),
{
    if ops.len() > 0 {
        lemma_lens_first(ops);
        assert(inserts_fit_i32(ops.drop_first())) by {
            assert forall|k: int| 0 <= k < ops.drop_first().len() implies (
            #[trigger] ops.drop_first()[k] matches OpView::Insert(t) ==> t.len() <= i32::MAX) by {
                assert(ops.drop_first()[k] == ops[k + 1]);
            }
        }
        assert(ops[0] matches OpView::Insert(t) ==> t.len() <= i32::MAX);
        match ops[0] {
            OpView::Retain(d) => {
                lemma_u64_fits_i32(d);
                lemma_walk_end(ops.drop_first(), i - d, n);
            },
            OpView::Insert(t) => {
                lemma_walk_end(ops.drop_first(), i, n + t.len());
            },
            OpView::Delete(d) => {
                lemma_u64_fits_i32(d);
                lemma_walk_end(ops.drop_first(), i - d, n - d);
            },
        }
    }
}

proof fn lemma_u32_fits_i32(p: u32)
    requires
        p <= i32::MAX,
    ensures
        (p as i32) as int == p as int,
{
    assert((p as i32) as int == p as int) by (bit_vector)
        requires
            p <= 0x7fff_ffffu32,
    ;
}

/// Moving cursors through an operation keeps their order: of two positions
/// in `i32` range, the smaller one does not land after the larger one
/// (where every step's length fits in `i32` and the larger one's walk does
/// not overflow; the smaller one's then does not either).
pub proof fn law_transform_index_monotone(ops: Seq<OpView>, p: u32, q: u32)
    requires
        p <= q <= i32::MAX,
        lengths_fit_i32(ops),
        transformed_index(ops, q) is Some,
    ensures
        transformed_index(ops, p) is Some,
        transformed_index(ops, p)->0 <= transformed_index(ops, q)->0,
{
    lemma_u32_fits_i32(p);
    lemma_u32_fits_i32(q);
    lemma_walk_defined(ops, p as int, p as int, q as int, q as int);
    lemma_walk_mono(ops, p as int, p as int, q as int, q as int);
    lemma_walk_lower(ops, p as int, p as int);
    lemma_walk_lower(ops, q as int, q as int);
    let a = walk_index(ops, p as int, p as int)->0;
    let b = walk_index(ops, q as int, q as int)->0;
    lemma_walk_in_range(ops, p as int, p as int);
    lemma_walk_in_range(ops, q as int, q as int);
    lemma_nonneg_i32_to_u32(a, b);
}

/// A position inside the old text lands inside the new text: no further
/// than the new text's length (where every step's length fits in `i32` and
/// the walk does not overflow).
pub proof fn law_transform_index_bounded(ops: Seq<OpView>, q: u32)
    requires
        q <= base_len_of(ops),
        q <= i32::MAX,
        lengths_fit_i32(ops),
        transformed_index(ops, q) is Some,
    ensures
        transformed_index(ops, q)->0 <= target_len_of(ops),
{
    lemma_u32_fits_i32(q);
    lemma_walk_upper(ops, q as int, q as int);
    lemma_walk_lower(ops, q as int, q as int);
    lemma_walk_in_range(ops, q as int, q as int);
    let b = walk_index(ops, q as int, q as int)->0;
    lemma_nonneg_i32_to_u32(b, b);
}

/// The end of the old text moves to the end of the new text (where the old
/// text's length and every insert fit in `i32` and the walk does not
/// overflow).
pub proof fn law_transform_index_end(ops: Seq<OpView>)
    requires
        base_len_of(ops) <= i32::MAX,
        inserts_fit_i32(ops),
        transformed_index(ops, base_len_of(ops) as u32) is Some,
    ensures
        transformed_index(ops, base_len_of(ops) as u32) == Some(target_len_of(ops) as u32),
{
    let q = base_len_of(ops) as u32;
    lemma_u32_fits_i32(q);
    lemma_walk_end(ops, q as int, q as int);
    lemma_walk_in_range(ops, q as int, q as int);
    let b = walk_index(ops, q as int, q as int)->0;
    lemma_nonneg_i32_to_u32(b, b);
}

proof fn lemma_walk_in_range(ops: Seq<OpView>, i: int, n: int)
    requires
        walk_index(ops, i, n) is Some,
        i32::MIN <= n <= i32::MAX,
    ensures
        i32::MIN <= walk_index(ops, i, n)->0 <= i32::MAX,
    decreases ops.len(),
{
    if ops.len() > 0 {
        match ops[0] {
            OpView::Retain(d) => {
                let i2 = i - ((d as i32) as int);
                if i2 >= 0 {
                    lemma_walk_in_range(ops.drop_first(), i2, n);
                }
            },
            OpView::Insert(t) => {
                let n2 = n + ((t.len() as i32) as int);
                if i >= 0 {
                    lemma_walk_in_range(ops.drop_first(), i, n2);
                }
            },
            OpView::Delete(d) => {
                let dd = (d as i32) as int;
                let n2 = n - (if i <= dd { i } else { dd });
                let i2 = i - dd;
                if i2 >= 0 {
                    lemma_walk_in_range(ops.drop_first(), i2, n2);
                }
            },
        }
    }
}

proof fn lemma_nonneg_i32_to_u32(a: int, b: int)
    requires
        0 <= a <= b <= i32::MAX,
    ensures
        ((a as i32) as u32) <= ((b as i32) as u32),
        ((b as i32) as u32) as int == b,
{
    let x = a as i32;
    let y = b as i32;
    assert(x as int == a);
    assert(y as int == b);
    assert(0 <= x <= y ==> (x as u32) <= (y as u32)) by (bit_vector);
    assert(0 <= y ==> (y as u32) as int == y as int) by (bit_vector);
}

} // verus!
