//! What the editor widget computes: the selection after an edit of another
//! user, the other users' cursors in byte offsets, and this user's selection
//! in character indices.
use crate::backspace::Selection;
use crate::client::CursorData;
use crate::editor::{Edit, EditorBinding};
use crate::text::{
    byte_offset, byte_to_char_offset, char_index_of, char_to_byte_offset, is_boundary_of,
};
use std::collections::HashMap;
use vstd::prelude::*;
use vstd::utf8::encode_utf8;

verus! {

/// Where index `x` goes when `begin..end` is replaced by a text of `len`
/// bytes: before the edit it stays, after it it shifts, inside it goes to
/// the end of the new text.
pub open spec fn moved_index(begin: int, end: int, len: int, x: int) -> int {
    if x < begin {
        x
    } else if x > end {
        x + begin + len - end
    } else {
        begin + len
    }
}

/// True when moving `x` stays within `usize`.
pub open spec fn moved_index_fits(begin: int, end: int, len: int, x: int) -> bool {
    if x < begin {
        true
    } else if x > end {
        x + begin + len <= usize::MAX
    } else {
        begin + len <= usize::MAX
    }
}

/// Moves one index of a selection through `edit`; `None` where the sum
/// overflows.
fn move_index(edit: &Edit, len: usize, x: usize) -> (r: Option<usize>)
    ensures
        moved_index_fits(edit.begin as int, edit.end as int, len as int, x as int) ==> r == Some(
            moved_index(edit.begin as int, edit.end as int, len as int, x as int) as usize,
        ),
        !moved_index_fits(edit.begin as int, edit.end as int, len as int, x as int) ==> r is None,
{
    if x < edit.begin {
        Some(x)
    } else if x > edit.end {
        if edit.begin > usize::MAX - x || len > usize::MAX - x - edit.begin {
            None
        } else {
            Some(x + edit.begin + len - edit.end)
        }
    } else {
        if len > usize::MAX - edit.begin {
            None
        } else {
            Some(edit.begin + len)
        }
    }
}

/// The selection after another user's `edit`: both ends move as
/// `moved_index` says, with the byte length of the new text; `None` where
/// an end overflows.
pub fn transform_selection(edit: &Edit, selection: Selection) -> (r: Option<Selection>)
    ensures
        ({
            let len = encode_utf8(edit.content@).len() as usize as int;
            let fits = moved_index_fits(edit.begin as int, edit.end as int, len, selection.anchor as int)
                && moved_index_fits(edit.begin as int, edit.end as int, len, selection.active as int);
            &&& fits ==> r == Some(
                Selection {
                    anchor: moved_index(
                        edit.begin as int,
                        edit.end as int,
                        len,
                        selection.anchor as int,
                    ) as usize,
                    active: moved_index(
                        edit.begin as int,
                        edit.end as int,
                        len,
                        selection.active as int,
                    ) as usize,
                },
            )
            &&& !fits ==> r is None
        }),
{
    let len = edit.content.as_str().len();
    let anchor = match move_index(edit, len, selection.anchor) {
        Some(a) => a,
        None => {
            return None;
        },
    };
    let active = match move_index(edit, len, selection.active) {
        Some(a) => a,
        None => {
            return None;
        },
    };
    Some(Selection { anchor, active })
}

/// The byte offset of character index `n` of `s`, the end for an index past it.
pub open spec fn clamped_byte_offset(s: Seq<char>, n: int) -> nat {
    byte_offset(s, if n <= s.len() { n } else { s.len() as int })
}

/// The decoration of a user's first selection: its ends as byte offsets.
pub open spec fn decoration_of(content: Seq<char>, d: CursorData) -> Selection {
    Selection {
        anchor: clamped_byte_offset(content, d.selections@[0].0 as int) as usize,
        active: clamped_byte_offset(content, d.selections@[0].1 as int) as usize,
    }
}

/// The other users' cursors to show: for each user other than `my_id` with
/// a selection, the first selection in byte offsets of `content`.
pub fn cursor_decorations(content: &[char], user_cursors: &HashMap<u64, CursorData>, my_id: u64) -> (r:
    HashMap<u64, Selection>)
    ensures
        r@.dom() == user_cursors@.dom().filter(
            |id: u64| id != my_id && user_cursors@[id].selections@.len() > 0,
        ),
        forall|id: u64| #[trigger]
            r@.dom().contains(id) ==> r@[id] == decoration_of(content@, user_cursors@[id]),
{
    let mut result: HashMap<u64, Selection> = HashMap::new();
    let iter = user_cursors.keys();
    let ghost rem = vstd::std_specs::iter::IteratorSpec::remaining(&iter);
    let ghost wanted = user_cursors@.dom().filter(
        |id: u64| id != my_id && user_cursors@[id].selections@.len() > 0,
    );
    proof {
        assert(rem.unref().to_set() == user_cursors@.dom());
    }
    for k in it: iter
        invariant
            it.seq() == rem,
            rem.unref().to_set() == user_cursors@.dom(),
            result@.dom() == wanted.intersect(rem.unref().take(it.index() as int).to_set()),
            wanted == user_cursors@.dom().filter(
                |id: u64| id != my_id && user_cursors@[id].selections@.len() > 0,
            ),
            forall|id: u64| #[trigger]
                result@.dom().contains(id) ==> result@[id] == decoration_of(
                    content@,
                    user_cursors@[id],
                ),
    {
        let id = *k;
        let ghost done = rem.unref().take(it.index() as int);
        assert(rem.unref().take(it.index() + 1) =~= done.push(id));
        assert(rem.unref().to_set().contains(id)) by {
            assert(rem.unref()[it.index() as int] == id);
        }
        let d = user_cursors.get(&id).unwrap();
        if id != my_id && d.selections.len() > 0 {
            let (begin, end) = d.selections[0];
            let a = char_to_byte_offset(content, begin as usize);
            let b = char_to_byte_offset(content, end as usize);
            result.insert(id, Selection { anchor: a, active: b });
        }
        proof {
            assert(done.push(id).to_set() =~= done.to_set().insert(id)) by {
                assert forall|x: u64| done.push(id).to_set().contains(x) implies done.to_set().insert(
                    id,
                ).contains(x) by {
                    let j = choose|j: int| 0 <= j < done.push(id).len() && done.push(id)[j] == x;
                    if j < done.len() {
                        assert(done.contains(x));
                    }
                }
                assert forall|x: u64| done.to_set().insert(id).contains(x) implies done.push(
                    id,
                ).to_set().contains(x) by {
                    if x == id {
                        assert(done.push(id)[done.len() as int] == id);
                    } else {
                        let j = choose|j: int| 0 <= j < done.len() && done[j] == x;
                        assert(done.push(id)[j] == x);
                    }
                }
            }
            assert(*d == user_cursors@[id]);
            assert(wanted.contains(id) == (id != my_id && d.selections@.len() > 0));
        }
        assert(result@.dom() =~= wanted.intersect(done.push(id).to_set()));
    }
    proof {
        assert(rem.unref().take(rem.len() as int) =~= rem.unref());
        assert(result@.dom() =~= wanted);
    }
    result
}

/// The character index of byte offset `b` of `s`, or 0 where `b` is no
/// boundary.
pub open spec fn char_index_or_zero(s: Seq<char>, b: int) -> int {
    if is_boundary_of(s, b) {
        char_index_of(s, b)
    } else {
        0
    }
}

/// This user's selection in character indices, as the pair (active end,
/// anchor) that the client records; a byte offset that is no boundary of the
/// document counts as 0, and each index is taken modulo 2^32.
pub fn selection_char_offsets(text: &EditorBinding, selection: &Selection) -> (r: (u32, u32))
    requires
        text.wf(),
    ensures
        r.0 == char_index_or_zero(text.content@, selection.active as int) as u32,
        r.1 == char_index_or_zero(text.content@, selection.anchor as int) as u32,
{
    let active = byte_to_char_offset(&text.content, selection.active);
    let anchor = byte_to_char_offset(&text.content, selection.anchor);
    (#[verifier::truncate] (active as u32), #[verifier::truncate] (anchor as u32))
}

} // verus!
