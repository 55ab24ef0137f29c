//! The document that the editor shows: its characters and the same text as
//! a string, kept equal, with edits by character range.
use crate::text::{
    byte_offset, char_index_of, chars_of, count_char_starts, is_boundary_of, lemma_count_concat,
    lemma_count_encode,
    lemma_encode_concat, num_chars, string_push,
};
use vstd::prelude::*;
use vstd::utf8::encode_utf8;

verus! {

/// A change of the document: characters `begin..end` are replaced by
/// `content`.
#[derive(Debug, Clone)]
pub struct Edit {
    pub begin: usize,
    pub end: usize,
    pub content: String,
}

/// An edit handed out by value.
pub struct Edit1(pub Edit);

impl Default for Edit {
    fn default() -> (r: Edit)
        ensures
            r.begin == 0,
            r.end == 0,
            r.content@ == Seq::<char>::empty(),
    {
        Edit { begin: 0, end: 0, content: String::new() }
    }
}

/// The characters of `s` after replacing `begin..end` by `new`.
pub open spec fn splice(s: Seq<char>, begin: int, end: int, new: Seq<char>) -> Seq<char> {
    s.take(begin) + new + s.skip(end)
}

/// Number of characters that start before byte `b` of the encoding of `s`.
pub open spec fn chars_before(s: Seq<char>, b: int) -> nat {
    count_char_starts(encode_utf8(s).take(b))
}

/// The editor's document: its characters, and the same text as a string.
#[derive(Clone)]
pub struct EditorBinding {
    pub content: Vec<char>,
    pub content_as_string: String,
}

impl Default for EditorBinding {
    fn default() -> (r: EditorBinding)
        ensures
            r.content@ == Seq::<char>::empty(),
            r.wf(),
    {
        EditorBinding { content: Vec::new(), content_as_string: String::new() }
    }
}

/// The characters of a sequence, collected into a string.
fn collect_string(chars: &Vec<char>) -> (r: String)
    ensures
        r@ == chars@,
{
    let mut s = String::new();
    let mut i: usize = 0;
    while i < chars.len()
        invariant
            0 <= i <= chars@.len(),
            s@ == chars@.take(i as int),
        decreases chars@.len() - i,
    {
        string_push(&mut s, chars[i]);
        i = i + 1;
        assert(s@ =~= chars@.take(i as int));
    }
    assert(chars@.take(i as int) =~= chars@);
    s
}

proof fn lemma_count_prefix_le(bytes: Seq<u8>, b: int)
    requires
        0 <= b <= bytes.len(),
    ensures
        count_char_starts(bytes.take(b)) <= count_char_starts(bytes),
        count_char_starts(bytes.take(b)) + count_char_starts(bytes.subrange(b, bytes.len() as int))
            == count_char_starts(bytes),
{
    lemma_count_concat(bytes.take(b), bytes.subrange(b, bytes.len() as int));
    assert(bytes.take(b) + bytes.subrange(b, bytes.len() as int) =~= bytes);
}

/// At a character boundary, the characters before a byte offset are those
/// of its character index.
pub proof fn lemma_chars_before_boundary(s: Seq<char>, k: int)
    requires
        0 <= k <= s.len(),
    ensures
        chars_before(s, byte_offset(s, k) as int) == k,
{
    assert(s =~= s.take(k) + s.skip(k));
    lemma_encode_concat(s.take(k), s.skip(k));
    assert(encode_utf8(s).take(byte_offset(s, k) as int) =~= encode_utf8(s.take(k)));
    lemma_count_encode(s.take(k));
}

impl EditorBinding {
    /// The string always holds the same characters as the character vector.
    pub open spec fn wf(&self) -> bool {
        self.content_as_string@ == self.content@
    }

    /// The document's characters collected into a string.
    fn calculate_content_as_string(&self) -> (r: String)
        ensures
            r@ == self.content@,
    {
        collect_string(&self.content)
    }

    /// Brings the string up to date with the characters.
    fn update_content_as_string(&mut self)
        ensures
            final(self).content@ == old(self).content@,
            final(self).wf(),
    {
        self.content_as_string = self.calculate_content_as_string();
    }

    /// Replaces characters `edit.begin..edit.end` by the characters of
    /// `edit.content`.
    pub fn edit_without_callback(&mut self, edit: &Edit)
        requires
            edit.begin <= edit.end <= old(self).content@.len(),
        ensures
            final(self).content@ == splice(
                old(self).content@,
                edit.begin as int,
                edit.end as int,
                edit.content@,
            ),
            final(self).wf(),
    {
        let new_chars = chars_of(edit.content.as_str());
        let mut result: Vec<char> = Vec::new();
        let mut i: usize = 0;
        while i < edit.begin
            invariant
                edit.begin <= edit.end <= self.content@.len(),
                0 <= i <= edit.begin,
                result@ == self.content@.take(i as int),
            decreases edit.begin - i,
        {
            result.push(self.content[i]);
            i = i + 1;
            assert(result@ =~= self.content@.take(i as int));
        }
        let mut j: usize = 0;
        while j < new_chars.len()
            invariant
                edit.begin <= edit.end <= self.content@.len(),
                0 <= j <= new_chars@.len(),
                result@ == self.content@.take(edit.begin as int) + new_chars@.take(j as int),
            decreases new_chars@.len() - j,
        {
            result.push(new_chars[j]);
            j = j + 1;
            assert(result@ =~= self.content@.take(edit.begin as int) + new_chars@.take(j as int));
        }
        assert(new_chars@.take(j as int) =~= new_chars@);
        let mut k: usize = edit.end;
        while k < self.content.len()
            invariant
                edit.begin <= edit.end <= k <= self.content@.len(),
                result@ == self.content@.take(edit.begin as int) + new_chars@
                    + self.content@.subrange(edit.end as int, k as int),
            decreases self.content@.len() - k,
        {
            result.push(self.content[k]);
            k = k + 1;
            assert(result@ =~= self.content@.take(edit.begin as int) + new_chars@
                + self.content@.subrange(edit.end as int, k as int));
        }
        assert(self.content@.subrange(edit.end as int, k as int) =~= self.content@.skip(
            edit.end as int,
        ));
        self.content = result;
        self.update_content_as_string();
    }

    /// Applies an edit to the document.
    pub fn edit_content(&mut self, edit: Edit)
        requires
            edit.begin <= edit.end <= old(self).content@.len(),
        ensures
            final(self).content@ == splice(
                old(self).content@,
                edit.begin as int,
                edit.end as int,
                edit.content@,
            ),
            final(self).wf(),
    {
        self.edit_without_callback(&edit);
    }

    /// The document as a string.
    pub fn get_content(&self) -> (r: String)
        ensures
            r@ == self.content_as_string@,
    {
        self.content_as_string.clone()
    }

    /// Replaces the text between byte offsets `range.start` and `range.end` of
    /// the document's string by `new`: the byte range becomes the range of
    /// characters that start before each offset. Returns the edit applied.
    pub fn edit(&mut self, range: std::ops::Range<usize>, new: String) -> (r: Edit)
        requires
            old(self).wf(),
            range.start <= range.end <= encode_utf8(old(self).content@).len(),
        ensures
            r.begin == chars_before(old(self).content@, range.start as int),
            r.end == chars_before(old(self).content@, range.end as int),
            r.content@ == new@,
            final(self).content@ == splice(
                old(self).content@,
                r.begin as int,
                r.end as int,
                new@,
            ),
            final(self).wf(),
    {
        let ghost enc = encode_utf8(self.content@);
        // the number of characters bounds the character offsets below
        let char_count = self.content.len();
        let bytes = self.content_as_string.as_str().as_bytes();
        let code_point_begin = num_chars(&bytes[0..range.start]);
        proof {
            assert(bytes@.subrange(0, range.start as int) =~= enc.take(range.start as int));
            lemma_count_prefix_le(enc, range.start as int);
            lemma_count_prefix_le(enc, range.end as int);
            lemma_count_encode(self.content@);
            assert(self.content@.len() == char_count);
            let mid = bytes@.subrange(range.start as int, range.end as int);
            assert(enc.take(range.end as int) =~= enc.take(range.start as int) + mid);
            lemma_count_concat(enc.take(range.start as int), mid);
        }
        let code_point_end = code_point_begin + num_chars(&bytes[range.start..range.end]);
        let e = Edit { begin: code_point_begin, end: code_point_end, content: new.clone() };
        self.edit_content(Edit { begin: code_point_begin, end: code_point_end, content: new });
        e
    }

    /// Byte length of the document's string.
    pub fn len(&self) -> (r: usize)
        ensures
            r == encode_utf8(self.content_as_string@).len() as usize,
    {
        self.content_as_string.as_str().len()
    }

    /// True when the document has no characters.
    pub fn is_empty(&self) -> (r: bool)
        ensures
            r == (self.content@.len() == 0),
    {
        self.content.len() == 0
    }

    /// True when both documents hold the same characters.
    pub fn same(&self, other: &Self) -> (r: bool)
        ensures
            r == (self.content@ == other.content@),
    {
        if self.content.len() != other.content.len() {
            return false;
        }
        let mut i: usize = 0;
        while i < self.content.len()
            invariant
                self.content@.len() == other.content@.len(),
                0 <= i <= self.content@.len(),
                forall|j: int| 0 <= j < i ==> self.content@[j] == other.content@[j],
            decreases self.content@.len() - i,
        {
            if self.content[i] != other.content[i] {
                return false;
            }
            i = i + 1;
        }
        assert(self.content@ =~= other.content@);
        true
    }

    /// A document holding the text `s`.
    pub fn from_str(s: &str) -> (r: EditorBinding)
        ensures
            r.content@ == s@,
            r.wf(),
    {
        EditorBinding { content: chars_of(s), content_as_string: s.to_owned() }
    }
}

/// Editing by the byte range of two character boundaries replaces exactly
/// the characters between them.
pub proof fn lemma_edit_at_boundaries(s: Seq<char>, i: int, j: int)
    requires
        0 <= i <= j <= s.len(),
    ensures
        chars_before(s, byte_offset(s, i) as int) == i,
        chars_before(s, byte_offset(s, j) as int) == j,
        is_boundary_of(s, byte_offset(s, i) as int),
        char_index_of(s, byte_offset(s, i) as int) == i,
{
    lemma_chars_before_boundary(s, i);
    lemma_chars_before_boundary(s, j);
    crate::text::lemma_char_index_unique(s, i);
}

} // verus!
