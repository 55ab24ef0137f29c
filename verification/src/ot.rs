//! Operation sequences of the `operational_transform` crate, seen through
//! their list of steps.
use operational_transform::{OTError, Operation, OperationSeq};
use vstd::prelude::*;

verus! {

#[verifier::external_type_specification]
#[verifier::external_body]
pub struct ExOperationSeq(OperationSeq);

#[verifier::external_type_specification]
#[verifier::external_body]
pub struct ExOTError(OTError);

/// One step of an operation sequence.
pub enum Op {
    /// Skip `n` characters.
    Retain(u64),
    /// Delete `n` characters.
    Delete(u64),
    /// Insert a text.
    Insert(String),
}

/// One step of an operation sequence, as a mathematical value.
pub enum OpView {
    Retain(u64),
    Delete(u64),
    Insert(Seq<char>),
}

impl View for Op {
    type V = OpView;

    open spec fn view(&self) -> OpView {
        match self {
            Op::Retain(n) => OpView::Retain(*n),
            Op::Delete(n) => OpView::Delete(*n),
            Op::Insert(s) => OpView::Insert(s@),
        }
    }
}

/// The steps that an operation sequence holds, in order.
pub uninterp spec fn seq_ops(s: OperationSeq) -> Seq<OpView>;

/// What operation sequences `a` and `b` become when transformed against each
/// other: the first applies after `b`, the second after `a`.
pub uninterp spec fn ot_transform(a: Seq<OpView>, b: Seq<OpView>) -> (Seq<OpView>, Seq<OpView>);

/// The single operation sequence that does `a` and then `b`.
pub uninterp spec fn ot_compose(a: Seq<OpView>, b: Seq<OpView>) -> Seq<OpView>;

/// Length of a text that the steps apply to: what they retain and delete.
pub open spec fn base_len_of(ops: Seq<OpView>) -> nat
    decreases ops.len(),
{
    if ops.len() == 0 {
        0
    } else {
        base_len_of(ops.drop_last()) + match ops.last() {
            OpView::Retain(n) => n as nat,
            OpView::Delete(n) => n as nat,
            OpView::Insert(_) => 0,
        }
    }
}

/// Length of the text that the steps produce: what they retain and insert.
pub open spec fn target_len_of(ops: Seq<OpView>) -> nat
    decreases ops.len(),
{
    if ops.len() == 0 {
        0
    } else {
        target_len_of(ops.drop_last()) + match ops.last() {
            OpView::Retain(n) => n as nat,
            OpView::Delete(_) => 0,
            OpView::Insert(s) => s.len(),
        }
    }
}

/// The steps after appending "retain `n`": nothing for 0, a longer last
/// retain where the last step retains, else a new last step.
pub open spec fn push_retain(ops: Seq<OpView>, n: u64) -> Seq<OpView> {
    if n == 0 {
        ops
    } else if ops.len() > 0 && ops.last() is Retain {
        ops.drop_last().push(OpView::Retain((ops.last()->Retain_0 + n) as u64))
    } else {
        ops.push(OpView::Retain(n))
    }
}

/// The steps after appending "delete `n`": nothing for 0, a longer last
/// delete where the last step deletes, else a new last step.
pub open spec fn push_delete(ops: Seq<OpView>, n: u64) -> Seq<OpView> {
    if n == 0 {
        ops
    } else if ops.len() > 0 && ops.last() is Delete {
        ops.drop_last().push(OpView::Delete((ops.last()->Delete_0 + n) as u64))
    } else {
        ops.push(OpView::Delete(n))
    }
}

/// The steps after appending "insert `t`". An insert always comes before a
/// delete that ends the sequence: it joins an insert before that delete, or
/// goes in front of it.
pub open spec fn push_insert(ops: Seq<OpView>, t: Seq<char>) -> Seq<OpView> {
    let n = ops.len();
    if t.len() == 0 {
        ops
    } else if n > 0 && ops[n - 1] is Insert {
        ops.update(n - 1, OpView::Insert(ops[n - 1]->Insert_0 + t))
    } else if n > 1 && ops[n - 1] is Delete && ops[n - 2] is Insert {
        ops.update(n - 2, OpView::Insert(ops[n - 2]->Insert_0 + t))
    } else if n > 0 && ops[n - 1] is Delete {
        ops.update(n - 1, OpView::Insert(t)).push(ops[n - 1])
    } else {
        ops.push(OpView::Insert(t))
    }
}

/// True when the steps do nothing to a text: none, or a single retain.
pub open spec fn is_noop_ops(ops: Seq<OpView>) -> bool {
    ops.len() == 0 || (ops.len() == 1 && ops[0] is Retain)
}

/// Both lengths add up over a concatenation.
pub proof fn lemma_lens_concat(a: Seq<OpView>, b: Seq<OpView>)
    ensures
        base_len_of(a + b) == base_len_of(a) + base_len_of(b),
        target_len_of(a + b) == target_len_of(a) + target_len_of(b),
    decreases b.len(),
{
    if b.len() == 0 {
        assert(a + b =~= a);
    } else {
        assert((a + b).drop_last() =~= a + b.drop_last());
        assert((a + b).last() == b.last());
        lemma_lens_concat(a, b.drop_last());
    }
}

/// The lengths of a single step.
pub proof fn lemma_lens_single(x: OpView)
    ensures
        base_len_of(seq![x]) == match x {
            OpView::Retain(n) => n as nat,
            OpView::Delete(n) => n as nat,
            OpView::Insert(_) => 0nat,
        },
        target_len_of(seq![x]) == match x {
            OpView::Retain(n) => n as nat,
            OpView::Delete(_) => 0nat,
            OpView::Insert(t) => t.len(),
        },
{
    reveal_with_fuel(base_len_of, 2);
    reveal_with_fuel(target_len_of, 2);
    assert(seq![x].drop_last() =~= Seq::<OpView>::empty());
    assert(seq![x].last() == x);
}

/// Appending a retain of `n` adds `n` to both lengths.
pub proof fn lemma_push_retain_lens(ops: Seq<OpView>, n: u64)
    requires
        base_len_of(ops) + n <= u64::MAX,
    ensures
        base_len_of(push_retain(ops, n)) == base_len_of(ops) + n,
        target_len_of(push_retain(ops, n)) == target_len_of(ops) + n,
{
    if n != 0 {
        if ops.len() > 0 && ops.last() is Retain {
            let m = ops.last()->Retain_0;
            assert(ops =~= ops.drop_last() + seq![ops.last()]);
            lemma_lens_concat(ops.drop_last(), seq![ops.last()]);
            lemma_lens_single(ops.last());
            lemma_lens_concat(ops.drop_last(), seq![OpView::Retain((m + n) as u64)]);
            lemma_lens_single(OpView::Retain((m + n) as u64));
            assert(ops.drop_last().push(OpView::Retain((m + n) as u64)) =~= ops.drop_last() + seq![
                OpView::Retain((m + n) as u64),
            ]);
        } else {
            lemma_lens_concat(ops, seq![OpView::Retain(n)]);
            lemma_lens_single(OpView::Retain(n));
            assert(ops.push(OpView::Retain(n)) =~= ops + seq![OpView::Retain(n)]);
        }
    }
}

/// Appending a delete of `n` adds `n` to the base length only.
pub proof fn lemma_push_delete_lens(ops: Seq<OpView>, n: u64)
    requires
        base_len_of(ops) + n <= u64::MAX,
    ensures
        base_len_of(push_delete(ops, n)) == base_len_of(ops) + n,
        target_len_of(push_delete(ops, n)) == target_len_of(ops),
{
    if n != 0 {
        if ops.len() > 0 && ops.last() is Delete {
            let m = ops.last()->Delete_0;
            assert(ops =~= ops.drop_last() + seq![ops.last()]);
            lemma_lens_concat(ops.drop_last(), seq![ops.last()]);
            lemma_lens_single(ops.last());
            lemma_lens_concat(ops.drop_last(), seq![OpView::Delete((m + n) as u64)]);
            lemma_lens_single(OpView::Delete((m + n) as u64));
            assert(ops.drop_last().push(OpView::Delete((m + n) as u64)) =~= ops.drop_last() + seq![
                OpView::Delete((m + n) as u64),
            ]);
        } else {
            lemma_lens_concat(ops, seq![OpView::Delete(n)]);
            lemma_lens_single(OpView::Delete(n));
            assert(ops.push(OpView::Delete(n)) =~= ops + seq![OpView::Delete(n)]);
        }
    }
}

/// Appending an insert of `t` adds its characters to the target length only.
pub proof fn lemma_push_insert_lens(ops: Seq<OpView>, t: Seq<char>)
    ensures
        base_len_of(push_insert(ops, t)) == base_len_of(ops),
        target_len_of(push_insert(ops, t)) == target_len_of(ops) + t.len(),
{
    let n = ops.len();
    if t.len() != 0 {
        if n > 0 && ops[n - 1] is Insert {
            let x = ops[n - 1];
            let y = OpView::Insert(ops[n - 1]->Insert_0 + t);
            assert(ops =~= ops.take(n - 1) + seq![x]);
            assert(ops.update(n - 1, y) =~= ops.take(n - 1) + seq![y]);
            lemma_lens_concat(ops.take(n - 1), seq![x]);
            lemma_lens_concat(ops.take(n - 1), seq![y]);
            lemma_lens_single(x);
            lemma_lens_single(y);
        } else if n > 1 && ops[n - 1] is Delete && ops[n - 2] is Insert {
            let x = ops[n - 2];
            let d = ops[n - 1];
            let y = OpView::Insert(ops[n - 2]->Insert_0 + t);
            assert(ops =~= ops.take(n - 2) + seq![x] + seq![d]);
            assert(ops.update(n - 2, y) =~= ops.take(n - 2) + seq![y] + seq![d]);
            lemma_lens_concat(ops.take(n - 2), seq![x]);
            lemma_lens_concat(ops.take(n - 2) + seq![x], seq![d]);
            lemma_lens_concat(ops.take(n - 2), seq![y]);
            lemma_lens_concat(ops.take(n - 2) + seq![y], seq![d]);
            lemma_lens_single(x);
            lemma_lens_single(y);
            lemma_lens_single(d);
        } else if n > 0 && ops[n - 1] is Delete {
            let d = ops[n - 1];
            let y = OpView::Insert(t);
            assert(ops =~= ops.take(n - 1) + seq![d]);
            assert(ops.update(n - 1, y).push(d) =~= ops.take(n - 1) + seq![y] + seq![d]);
            lemma_lens_concat(ops.take(n - 1), seq![d]);
            lemma_lens_concat(ops.take(n - 1), seq![y]);
            lemma_lens_concat(ops.take(n - 1) + seq![y], seq![d]);
            lemma_lens_single(y);
            lemma_lens_single(d);
        } else {
            lemma_lens_concat(ops, seq![OpView::Insert(t)]);
            lemma_lens_single(OpView::Insert(t));
            assert(ops.push(OpView::Insert(t)) =~= ops + seq![OpView::Insert(t)]);
        }
    }
}

/// `OperationSeq::default()`: a sequence without steps.
#[verifier::external_body]
pub(crate) fn op_seq_new() -> (r: OperationSeq)
    ensures
        seq_ops(r) == Seq::<OpView>::empty(),
{
    OperationSeq::default()
}

/// `Clone::clone` of `OperationSeq` (derived): the same steps.
#[verifier::external_body]
pub(crate) fn op_seq_clone(s: &OperationSeq) -> (r: OperationSeq)
    ensures
        seq_ops(r) == seq_ops(*s),
{
    s.clone()
}

/// `OperationSeq::retain`: appends a retain of `n`, merged into a last
/// retain. The sequence adds `n` to its base and target length counters
/// (`usize`), so `requires` keeps both sums in range.
#[verifier::external_body]
pub(crate) fn op_seq_retain(s: &mut OperationSeq, n: u64)
    requires
        base_len_of(seq_ops(*old(s))) + n <= usize::MAX,
        target_len_of(seq_ops(*old(s))) + n <= usize::MAX,
    ensures
        seq_ops(*final(s)) == push_retain(seq_ops(*old(s)), n),
{
    s.retain(n)
}

/// `OperationSeq::delete`: appends a delete of `n`, merged into a last
/// delete; `requires` keeps the base length counter in range.
#[verifier::external_body]
pub(crate) fn op_seq_delete(s: &mut OperationSeq, n: u64)
    requires
        base_len_of(seq_ops(*old(s))) + n <= usize::MAX,
    ensures
        seq_ops(*final(s)) == push_delete(seq_ops(*old(s)), n),
{
    s.delete(n)
}

/// `OperationSeq::insert`: appends an insert of `t` as `push_insert`
/// describes; the target length counter grows by the characters of `t`,
/// which `requires` keeps in range.
#[verifier::external_body]
pub(crate) fn op_seq_insert(s: &mut OperationSeq, t: &str)
    requires
        target_len_of(seq_ops(*old(s))) + t@.len() <= usize::MAX,
    ensures
        seq_ops(*final(s)) == push_insert(seq_ops(*old(s)), t@),
{
    s.insert(t)
}

/// `OperationSeq::ops`, each step converted to an `Op`.
#[verifier::external_body]
pub(crate) fn op_seq_ops(s: &OperationSeq) -> (r: Vec<Op>)
    ensures
        r@.len() == seq_ops(*s).len(),
        forall|i: int| 0 <= i < r@.len() ==> #[trigger] r@[i]@ == seq_ops(*s)[i],
{
    let mut v = Vec::new();
    for op in s.ops() {
        v.push(match op {
            Operation::Retain(n) => Op::Retain(*n),
            Operation::Delete(n) => Op::Delete(*n),
            Operation::Insert(t) => Op::Insert(t.clone()),
        });
    }
    v
}

/// `OperationSeq::is_noop`: no steps, or a single retain.
#[verifier::external_body]
pub(crate) fn op_seq_is_noop(s: &OperationSeq) -> (r: bool)
    ensures
        r == is_noop_ops(seq_ops(*s)),
{
    s.is_noop()
}

/// `OperationSeq::target_len`: the counter that every constructor of the
/// crate keeps equal to the retained plus inserted lengths of the steps.
/// The crate keeps `base_len` and `target_len` as `usize` counters beside the
/// steps; this contract takes them to equal the step sums, which holds for
/// every sequence whose lengths fit in `usize` (a sequence parsed in a
/// release build with longer lengths would wrap them).
#[verifier::external_body]
pub(crate) fn op_seq_target_len(s: &OperationSeq) -> (r: usize)
    ensures
        r == target_len_of(seq_ops(*s)),
{
    s.target_len()
}

/// `OperationSeq::transform`: fails exactly when the two base lengths
/// differ; otherwise gives the named transformed pair: the first applies to
/// the text `b` produces, the second to the text `a` produces, and both
/// produce texts of one length. Its result sequences have lengths up to the
/// sum of both target lengths, which `requires` keeps in range of the
/// counters. What the steps of the pair are is left to the name.
/// The crate keeps `base_len` and `target_len` as `usize` counters beside the
/// steps; this contract takes them to equal the step sums, which holds for
/// every sequence whose lengths fit in `usize` (a sequence parsed in a
/// release build with longer lengths would wrap them).
#[verifier::external_body]
pub(crate) fn op_seq_transform(a: &OperationSeq, b: &OperationSeq) -> (r: Result<
    (OperationSeq, OperationSeq),
    OTError,
>)
    requires
        target_len_of(seq_ops(*a)) + target_len_of(seq_ops(*b)) <= usize::MAX,
    ensures
        r is Ok <==> base_len_of(seq_ops(*a)) == base_len_of(seq_ops(*b)),
        r matches Ok((x, y)) ==> ot_transform(seq_ops(*a), seq_ops(*b)) == (
        seq_ops(x),
        seq_ops(y),
        ),
        r matches Ok((x, y)) ==> base_len_of(seq_ops(x)) == target_len_of(seq_ops(*b))
            && base_len_of(seq_ops(y)) == target_len_of(seq_ops(*a)) && target_len_of(
            seq_ops(x),
        ) == target_len_of(seq_ops(y)),
{
    a.transform(b)
}

/// `OperationSeq::compose`: fails exactly when the target length of `a`
/// differs from the base length of `b`; otherwise gives the named
/// composition, which applies to the text `a` applies to and produces the
/// text `b` produces. What its steps are is left to the name.
/// The crate keeps `base_len` and `target_len` as `usize` counters beside the
/// steps; this contract takes them to equal the step sums, which holds for
/// every sequence whose lengths fit in `usize` (a sequence parsed in a
/// release build with longer lengths would wrap them).
#[verifier::external_body]
pub(crate) fn op_seq_compose(a: &OperationSeq, b: &OperationSeq) -> (r: Result<OperationSeq, OTError>)
    ensures
        r is Ok <==> target_len_of(seq_ops(*a)) == base_len_of(seq_ops(*b)),
        r matches Ok(c) ==> seq_ops(c) == ot_compose(seq_ops(*a), seq_ops(*b)),
        r matches Ok(c) ==> base_len_of(seq_ops(c)) == base_len_of(seq_ops(*a))
            && target_len_of(seq_ops(c)) == target_len_of(seq_ops(*b)),
{
    a.compose(b)
}

} // verus!
