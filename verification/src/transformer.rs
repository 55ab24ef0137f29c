//! Moving a character index of a document through an operation sequence.
use crate::ot::{op_seq_ops, seq_ops, Op, OpView};
use crate::text::{lemma_count_encode, num_chars};
use operational_transform::OperationSeq;
use vstd::prelude::*;

verus! {

/// `a - b` on two `i32` values, `None` where it leaves the `i32` range.
pub open spec fn i32_sub(a: int, b: int) -> Option<int> {
    if i32::MIN <= a - b <= i32::MAX {
        Some(a - b)
    } else {
        None
    }
}

/// `a + b` on two `i32` values, `None` where it leaves the `i32` range.
pub open spec fn i32_add(a: int, b: int) -> Option<int> {
    if i32::MIN <= a + b <= i32::MAX {
        Some(a + b)
    } else {
        None
    }
}

/// Walks the steps with `index` (what is left of the starting position,
/// counted in the old text) and `new_index` (the position in the new text),
/// both `i32` as the lengths are cast to `i32`. A retain or delete consumes
/// `index`; an insert moves `new_index` forward by its characters; a delete
/// moves it back by at most `index`. The walk stops once `index` is negative.
/// `None` where an `i32` operation overflows.
pub open spec fn walk_index(ops: Seq<OpView>, index: int, new_index: int) -> Option<int>
    decreases ops.len(),
{
    if ops.len() == 0 {
        Some(new_index)
    } else {
        let next: Option<(int, int)> = match ops[0] {
            OpView::Retain(n) => match i32_sub(index, (n as i32) as int) {
                Some(i) => Some((i, new_index)),
                None => None,
            },
            OpView::Insert(t) => match i32_add(new_index, (t.len() as i32) as int) {
                Some(m) => Some((index, m)),
                None => None,
            },
            OpView::Delete(n) => {
                let d = (n as i32) as int;
                match i32_sub(new_index, if index <= d { index } else { d }) {
                    Some(m) => match i32_sub(index, d) {
                        Some(i) => Some((i, m)),
                        None => None,
                    },
                    None => None,
                }
            },
        };
        match next {
            None => None,
            Some((i, m)) => if i < 0 {
                Some(m)
            } else {
                walk_index(ops.drop_first(), i, m)
            },
        }
    }
}

/// Where `position` of the old text lands in the new text, as the `u32` of
/// the final `i32`; `None` where the walk overflows.
pub open spec fn transformed_index(ops: Seq<OpView>, position: u32) -> Option<u32> {
    match walk_index(ops, (position as i32) as int, (position as i32) as int) {
        Some(m) => Some((m as i32) as u32),
        None => None,
    }
}

/// The new position of a cursor of the old text.
pub trait IndexTransformer {
    /// The new position, `None` where the computation overflows.
    spec fn transformed(&self, position: u32) -> Option<u32>;

    /// Moves `position` through the changes.
    fn transform_index(&self, position: u32) -> (r: u32)
        requires
            self.transformed(position) is Some,
        ensures
            Some(r) == self.transformed(position),
    ;
}

proof fn lemma_walk_drop(ops: Seq<OpView>, k: int)
    requires
        0 <= k < ops.len(),
    ensures
        ops.subrange(k, ops.len() as int).drop_first() == ops.subrange(k + 1, ops.len() as int),
        ops.subrange(k, ops.len() as int)[0] == ops[k],
{
    assert(ops.subrange(k, ops.len() as int).drop_first() =~= ops.subrange(k + 1, ops.len() as int));
}

/// Moves `position` through the steps of `op`; `None` where the
/// `i32` arithmetic overflows.
pub fn checked_transform_index(op: &OperationSeq, position: u32) -> (r: Option<u32>)
    ensures
        r == transformed_index(seq_ops(*op), position),
{
    let ops = op_seq_ops(op);
    let ghost sops = seq_ops(*op);
    let start: i32 = #[verifier::truncate] (position as i32);
    let mut index: i32 = start;
    let mut new_index: i32 = start;
    let mut k: usize = 0;
    assert(sops.subrange(0, sops.len() as int) =~= sops);
    while k < ops.len()
        invariant
            ops@.len() == sops.len(),
            sops == seq_ops(*op),
            forall|i: int| 0 <= i < ops@.len() ==> #[trigger] ops@[i]@ == sops[i],
            0 <= k <= ops@.len(),
            walk_index(sops, #[verifier::truncate] ((position as i32) as int), #[verifier::truncate] ((position as i32) as int)) == walk_index(
                sops.subrange(k as int, sops.len() as int),
                index as int,
                new_index as int,
            ),
        decreases ops@.len() - k,
    {
        proof {
            lemma_walk_drop(sops, k as int);
        }
        let ghost rest = sops.subrange(k as int, sops.len() as int);
        assert(ops@[k as int]@ == rest[0]);
        match &ops[k] {
            Op::Retain(n) => {
                match index.checked_sub(#[verifier::truncate] (*n as i32)) {
                    Some(i) => {
                        index = i;
                    },
                    None => {
                        return None;
                    },
                }
            },
            Op::Insert(t) => {
                let cnt = num_chars(t.as_str().as_bytes());
                proof {
                    lemma_count_encode(t@);
                }
                match new_index.checked_add(#[verifier::truncate] (cnt as i32)) {
                    Some(m) => {
                        new_index = m;
                    },
                    None => {
                        return None;
                    },
                }
            },
            Op::Delete(n) => {
                let d: i32 = #[verifier::truncate] (*n as i32);
                let back = if index <= d {
                    index
                } else {
                    d
                };
                match new_index.checked_sub(back) {
                    Some(m) => {
                        new_index = m;
                    },
                    None => {
                        return None;
                    },
                }
                match index.checked_sub(d) {
                    Some(i) => {
                        index = i;
                    },
                    None => {
                        return None;
                    },
                }
            },
        }
        k = k + 1;
        if index < 0 {
            return Some(#[verifier::truncate] (new_index as u32));
        }
    }
    assert(sops.subrange(k as int, sops.len() as int) =~= Seq::<OpView>::empty());
    Some(#[verifier::truncate] (new_index as u32))
}

impl IndexTransformer for OperationSeq {
    open spec fn transformed(&self, position: u32) -> Option<u32> {
        transformed_index(seq_ops(*self), position)
    }

    fn transform_index(&self, position: u32) -> (r: u32) {
        match checked_transform_index(self, position) {
            Some(v) => v,
            None => 0,
        }
    }
}

/// A sequence of retains only leaves every position in place.
pub proof fn lemma_retains_keep_index(ops: Seq<OpView>, position: u32)
    requires
        position <= i32::MAX,
        forall|i: int| 0 <= i < ops.len() ==> (#[trigger] ops[i] is Retain && ops[i]->Retain_0
            <= i32::MAX),
    ensures
        transformed_index(ops, position) == Some(position),
{
    assert((position as i32) as int == position as int) by (bit_vector)
        requires
            position <= 0x7fff_ffffu32,
    ;
    lemma_retains_walk(ops, position as int, position as int);
    let p = position as i32;
    assert((p as u32) == position) by (bit_vector)
        requires
            p == position,
            position <= 0x7fff_ffffu32,
    ;
}

proof fn lemma_retains_walk(ops: Seq<OpView>, index: int, new_index: int)
    requires
        0 <= index <= i32::MAX,
        0 <= new_index <= i32::MAX,
        forall|i: int| 0 <= i < ops.len() ==> (#[trigger] ops[i] is Retain && ops[i]->Retain_0
            <= i32::MAX),
    ensures
        walk_index(ops, index, new_index) == Some(new_index),
    decreases ops.len(),
{
    if ops.len() > 0 {
        let n = ops[0]->Retain_0;
        assert(((n as i32) as int) == n as int) by (bit_vector)
            requires
                n <= 0x7fff_ffffu64,
        ;
        if index - n >= 0 {
            assert forall|i: int| 0 <= i < ops.drop_first().len() implies (
            #[trigger] ops.drop_first()[i] is Retain && ops.drop_first()[i]->Retain_0
                <= i32::MAX) by {
                assert(ops.drop_first()[i] == ops[i + 1]);
            }
            lemma_retains_walk(ops.drop_first(), index - n, new_index);
        }
    }
}

} // verus!
