//! Counting characters and converting between character offsets and UTF-8
//! byte offsets of a text.
use vstd::prelude::*;
use vstd::utf8::*;

verus! {

/// Number of bytes in `bytes` that start a character, i.e. every byte that is
/// not a UTF-8 continuation byte (`0b10xx_xxxx`).
pub open spec fn count_char_starts(bytes: Seq<u8>) -> nat
    decreases bytes.len(),
{
    if bytes.len() == 0 {
        0
    } else {
        (if is_continuation_byte(bytes[0]) {
            0nat
        } else {
            1nat
        }) + count_char_starts(bytes.drop_first())
    }
}

/// Byte length of the UTF-8 encoding of the first `k` characters of `s`.
pub open spec fn byte_offset(s: Seq<char>, k: int) -> nat {
    encode_utf8(s.take(k)).len()
}

/// Byte length of the UTF-8 encoding of one character.
pub open spec fn char_width(c: char) -> nat {
    encode_scalar(c as u32).len()
}

/// True when byte offset `b` falls between two characters of `s`.
pub open spec fn is_boundary_of(s: Seq<char>, b: int) -> bool {
    exists|k: int| 0 <= k <= s.len() && byte_offset(s, k) == b
}

/// The character index at byte offset `b` of `s`, where `b` is a boundary.
pub open spec fn char_index_of(s: Seq<char>, b: int) -> int {
    choose|k: int| 0 <= k <= s.len() && byte_offset(s, k) == b
}

/// `bytecount::num_chars`: counts the bytes of `bytes` that are not UTF-8
/// continuation bytes, which for valid UTF-8 is its number of characters.
/// The contract claims exactly that count, as the crate's naive and SIMD
/// implementations all compute `(byte >> 6) != 0b10` per byte.
#[verifier::external_body]
pub(crate) fn num_chars(bytes: &[u8]) -> (r: usize)
    ensures
        r == count_char_starts(bytes@),
{
    bytecount::num_chars(bytes)
}

/// `String::push` from std: appends one character.
#[verifier::external_body]
pub(crate) fn string_push(s: &mut String, c: char)
    ensures
        final(s)@ == old(s)@.push(c),
{
    s.push(c)
}

/// Counting distributes over concatenation.
pub proof fn lemma_count_concat(a: Seq<u8>, b: Seq<u8>)
    ensures
        count_char_starts(a + b) == count_char_starts(a) + count_char_starts(b),
    decreases a.len(),
{
    if a.len() == 0 {
        assert(a + b =~= b);
    } else {
        assert((a + b).drop_first() =~= a.drop_first() + b);
        lemma_count_concat(a.drop_first(), b);
    }
}

proof fn lemma_encoded_byte_kinds(c: u32)
    by (bit_vector)
    ensures
        !is_continuation_byte(leading_byte_width_1(c)),
        !is_continuation_byte(leading_byte_width_2(c)),
        !is_continuation_byte(leading_byte_width_3(c)),
        !is_continuation_byte(leading_byte_width_4(c)),
        is_continuation_byte(last_continuation_byte(c)),
        is_continuation_byte(second_last_continuation_byte(c)),
        is_continuation_byte(third_last_continuation_byte(c)),
{
}

proof fn lemma_count_scalar(c: char)
    ensures
        count_char_starts(encode_scalar(c as u32)) == 1,
        1 <= char_width(c) <= 4,
{
    lemma_encoded_byte_kinds(c as u32);
    reveal_with_fuel(count_char_starts, 5);
    let e = encode_scalar(c as u32);
    assert(e.drop_first().drop_first().drop_first().drop_first().len() == 0 || e.len() < 4);
}

/// Encoding distributes over concatenation.
pub proof fn lemma_encode_concat(a: Seq<char>, b: Seq<char>)
    ensures
        encode_utf8(a + b) == encode_utf8(a) + encode_utf8(b),
    decreases a.len(),
{
    if a.len() == 0 {
        assert(a + b =~= b);
        assert(encode_utf8(a) =~= Seq::<u8>::empty());
        assert(encode_utf8(a) + encode_utf8(b) =~= encode_utf8(b));
    } else {
        assert((a + b).drop_first() =~= a.drop_first() + b);
        assert((a + b)[0] == a[0]);
        lemma_encode_concat(a.drop_first(), b);
        assert(encode_utf8(a + b) =~= encode_scalar(a[0] as u32) + (encode_utf8(a.drop_first())
            + encode_utf8(b)));
    }
}

/// The encoding of one character.
pub proof fn lemma_encode_single(c: char)
    ensures
        encode_utf8(seq![c]) == encode_scalar(c as u32),
{
    reveal_with_fuel(encode_utf8, 2);
    assert(seq![c].drop_first() =~= Seq::<char>::empty());
    assert(encode_scalar(c as u32) + Seq::<u8>::empty() =~= encode_scalar(c as u32));
}

/// A valid UTF-8 encoding has exactly one character start per character.
pub proof fn lemma_count_encode(s: Seq<char>)
    ensures
        count_char_starts(encode_utf8(s)) == s.len(),
    decreases s.len(),
{
    if s.len() > 0 {
        lemma_count_scalar(s[0]);
        lemma_count_concat(encode_scalar(s[0] as u32), encode_utf8(s.drop_first()));
        lemma_count_encode(s.drop_first());
    }
}

/// Adding one character to a prefix adds its width to the byte offset.
pub proof fn lemma_byte_offset_step(s: Seq<char>, k: int)
    requires
        0 <= k < s.len(),
    ensures
        byte_offset(s, k + 1) == byte_offset(s, k) + char_width(s[k]),
        1 <= char_width(s[k]) <= 4,
{
    assert(s.take(k + 1) =~= s.take(k) + seq![s[k]]);
    lemma_encode_concat(s.take(k), seq![s[k]]);
    lemma_encode_single(s[k]);
    lemma_count_scalar(s[k]);
}

/// Byte offsets grow strictly with the character index.
pub proof fn lemma_byte_offset_mono(s: Seq<char>, i: int, j: int)
    requires
        0 <= i <= j <= s.len(),
    ensures
        byte_offset(s, i) + (j - i) <= byte_offset(s, j),
        byte_offset(s, j) <= byte_offset(s, i) + 4 * (j - i),
    decreases j - i,
{
    if i < j {
        lemma_byte_offset_mono(s, i, j - 1);
        lemma_byte_offset_step(s, j - 1);
    }
}

/// Byte offsets of a sequence and of a longer sequence with the same prefix agree.
pub proof fn lemma_byte_offset_prefix(s: Seq<char>, t: Seq<char>, k: int)
    requires
        0 <= k <= s.len(),
        k <= t.len(),
        s.take(k) == t.take(k),
    ensures
        byte_offset(s, k) == byte_offset(t, k),
{
}

/// The character index of a boundary is unique.
pub proof fn lemma_char_index_unique(s: Seq<char>, k: int)
    requires
        0 <= k <= s.len(),
    ensures
        is_boundary_of(s, byte_offset(s, k) as int),
        char_index_of(s, byte_offset(s, k) as int) == k,
{
    let b = byte_offset(s, k) as int;
    assert(0 <= k <= s.len() && byte_offset(s, k) == b);
    let k2 = char_index_of(s, b);
    if k2 < k {
        lemma_byte_offset_mono(s, k2, k);
    } else if k < k2 {
        lemma_byte_offset_mono(s, k, k2);
    }
}

/// Byte length of the UTF-8 encoding of `c`.
pub fn char_len_utf8(c: char) -> (r: usize)
    ensures
        r == char_width(c),
        1 <= r <= 4,
{
    proof {
        lemma_count_scalar(c);
        char_is_scalar(c);
    }
    let v = c as u32;
    if v <= 0x7F {
        1
    } else if v <= 0x7FF {
        2
    } else if v <= 0xFFFF {
        3
    } else {
        4
    }
}

/// `<[char]>::len` from std: no slice spans more than `isize::MAX` bytes,
/// and a `char` takes four bytes, as std documents.
#[verifier::external_body]
pub(crate) fn char_slice_len(s: &[char]) -> (r: usize)
    ensures
        r == s@.len(),
        4 * r <= isize::MAX,
{
    s.len()
}

/// Byte offset of character index `n` in `content`; an index past the end
/// stands for the whole text.
pub fn char_to_byte_offset(content: &[char], n: usize) -> (r: usize)
    ensures
        r == byte_offset(content@, if n <= content@.len() { n as int } else { content@.len() as int }),
{
    let len = char_slice_len(content);
    let stop = if n <= len { n } else { len };
    let mut acc: usize = 0;
    let mut i: usize = 0;
    assert(content@.take(0) =~= Seq::<char>::empty());
    proof {
        lemma_byte_offset_mono(content@, 0, stop as int);
    }
    while i < stop
        invariant
            stop <= len == content@.len(),
            0 <= i <= stop,
            acc == byte_offset(content@, i as int),
            byte_offset(content@, stop as int) <= usize::MAX,
        decreases stop - i,
    {
        proof {
            lemma_byte_offset_step(content@, i as int);
            lemma_byte_offset_mono(content@, i + 1, stop as int);
        }
        acc = acc + char_len_utf8(content[i]);
        i = i + 1;
    }
    acc
}

/// Character index of byte offset `b` in `content`: the number of characters
/// before `b` when `b` is a boundary of the text, and 0 otherwise.
pub fn byte_to_char_offset(content: &[char], b: usize) -> (r: usize)
    ensures
        is_boundary_of(content@, b as int) ==> r == char_index_of(content@, b as int),
        !is_boundary_of(content@, b as int) ==> r == 0,
{
    let len = content.len();
    let mut acc: usize = 0;
    let mut i: usize = 0;
    assert(content@.take(0) =~= Seq::<char>::empty());
    while i < len && acc < b
        invariant
            len == content@.len(),
            0 <= i <= len,
            acc == byte_offset(content@, i as int),
            acc <= b,
            forall|j: int| 0 <= j < i ==> byte_offset(content@, j) < b,
        decreases len - i,
    {
        proof {
            lemma_byte_offset_step(content@, i as int);
        }
        let w = char_len_utf8(content[i]);
        if b - acc < w {
            // `b` falls inside character `i`: not a boundary
            proof {
                assert forall|k: int| 0 <= k <= content@.len() implies byte_offset(content@, k)
                    != b by {
                    if k <= i {
                        if k < i {
                            lemma_byte_offset_mono(content@, k, i as int);
                        }
                    } else {
                        lemma_byte_offset_mono(content@, i + 1, k);
                    }
                }
            }
            return 0;
        }
        acc = acc + w;
        i = i + 1;
    }
    if acc == b {
        proof {
            lemma_char_index_unique(content@, i as int);
        }
        i
    } else {
        proof {
            assert forall|k: int| 0 <= k <= content@.len() implies byte_offset(content@, k) != b by {
                if k < i {
                } else if k == i {
                } else {
                    lemma_byte_offset_mono(content@, i as int, k);
                }
            }
        }
        0
    }
}

/// The characters of `s`, in order.
pub fn chars_of(s: &str) -> (r: Vec<char>)
    ensures
        r@ == s@,
{
    let mut v: Vec<char> = Vec::new();
    for c in it: s.chars()
        invariant
            v@ == it.seq().take(it.index() as int),
            it.seq() == s@,
    {
        v.push(c);
    }
    v
}

} // verus!
