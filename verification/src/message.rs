//! The text of the edit message that the client sends to the server.
use crate::ot::{seq_ops, OpView};
use crate::text::{chars_of, string_push};
use operational_transform::OperationSeq;
use vstd::prelude::*;

verus! {

/// The decimal digit `d` (below 10) as a character.
pub open spec fn digit(d: nat) -> char {
    if d == 0 {
        '0'
    } else if d == 1 {
        '1'
    } else if d == 2 {
        '2'
    } else if d == 3 {
        '3'
    } else if d == 4 {
        '4'
    } else if d == 5 {
        '5'
    } else if d == 6 {
        '6'
    } else if d == 7 {
        '7'
    } else if d == 8 {
        '8'
    } else {
        '9'
    }
}

/// `n` written in decimal, without leading zeros.
pub open spec fn decimal(n: nat) -> Seq<char>
    decreases n,
{
    if n < 10 {
        seq![digit(n)]
    } else {
        decimal(n / 10).push(digit(n % 10))
    }
}

/// The JSON text that serde_json writes for the steps of an operation
/// sequence: `None` where it reports an error.
pub uninterp spec fn ops_json(ops: Seq<OpView>) -> Option<Seq<char>>;

/// The edit message for `revision`, around the JSON text of the operation.
pub open spec fn edit_text(revision: nat, json: Seq<char>) -> Seq<char> {
    "{ \"Edit\": { \"revision\": "@ + decimal(revision) + ", \"operation\": "@ + json + " } }"@
}

/// `serde_json::to_string` of an operation sequence, whose serialisation in
/// operational-transform writes its steps as a JSON array; an error of
/// serde_json comes back as `None`. The text (or the error) is only named.
#[verifier::external_body]
fn op_seq_to_json(s: &OperationSeq) -> (r: Option<String>)
    ensures
        match r {
            Some(t) => ops_json(seq_ops(*s)) == Some(t@),
            None => ops_json(seq_ops(*s)) is None,
        },
{
    serde_json::to_string(s).ok()
}

fn digit_char(d: usize) -> (c: char)
    requires
        d < 10,
    ensures
        c == digit(d as nat),
{
    if d == 0 {
        '0'
    } else if d == 1 {
        '1'
    } else if d == 2 {
        '2'
    } else if d == 3 {
        '3'
    } else if d == 4 {
        '4'
    } else if d == 5 {
        '5'
    } else if d == 6 {
        '6'
    } else if d == 7 {
        '7'
    } else if d == 8 {
        '8'
    } else {
        '9'
    }
}

/// Appends `n` in decimal.
fn push_decimal(s: &mut String, n: usize)
    ensures
        final(s)@ == old(s)@ + decimal(n as nat),
    decreases n,
{
    if n >= 10 {
        push_decimal(s, n / 10);
    }
    string_push(s, digit_char(n % 10));
    assert(old(s)@ + decimal(n as nat) =~= if n >= 10 {
        (old(s)@ + decimal((n / 10) as nat)).push(digit((n % 10) as nat))
    } else {
        old(s)@.push(digit((n % 10) as nat))
    });
}

/// Appends the characters of `t`.
fn push_text(s: &mut String, t: &str)
    ensures
        final(s)@ == old(s)@ + t@,
{
    let chars = chars_of(t);
    let mut i: usize = 0;
    while i < chars.len()
        invariant
            0 <= i <= chars@.len(),
            chars@ == t@,
            s@ == old(s)@ + chars@.take(i as int),
        decreases chars@.len() - i,
    {
        string_push(s, chars[i]);
        i = i + 1;
        assert(s@ =~= old(s)@ + chars@.take(i as int));
    }
    assert(chars@.take(i as int) =~= chars@);
}

/// The edit message for `revision` around the JSON text `json` of an
/// operation.
pub fn edit_text_from_json(revision: usize, json: &str) -> (r: String)
    ensures
        r@ == edit_text(revision as nat, json@),
{
    let mut s = "{ \"Edit\": { \"revision\": ".to_owned();
    push_decimal(&mut s, revision);
    push_text(&mut s, ", \"operation\": ");
    push_text(&mut s, json);
    push_text(&mut s, " } }");
    s
}

/// The edit message that sends `operation` based on `revision`; `None`
/// where serde_json reports an error for the operation.
pub fn edit_message_text(revision: usize, operation: &OperationSeq) -> (r: Option<String>)
    ensures
        r is None <==> ops_json(seq_ops(*operation)) is None,
        r matches Some(t) ==> t@ == edit_text(
            revision as nat,
            ops_json(seq_ops(*operation))->0,
        ),
{
    match op_seq_to_json(operation) {
        Some(json) => Some(edit_text_from_json(revision, json.as_str())),
        None => None,
    }
}

} // verus!
