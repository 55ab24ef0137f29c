//! Where a backwards delete (backspace) starts: a whole emoji sequence, a
//! CR LF pair or a flag goes at once.
use crate::editor::EditorBinding;
use crate::text::{
    byte_offset, byte_to_char_offset, char_index_of, char_to_byte_offset, is_boundary_of,
    lemma_byte_offset_mono, lemma_char_index_unique,
};
use vstd::prelude::*;
use xi_unicode::EmojiExt;

verus! {

/// True when `c` is in the emoji table of `xi_unicode`.
pub uninterp spec fn emoji_table_has(c: char) -> bool;

/// True when `c` is in the emoji modifier base table of `xi_unicode`.
pub uninterp spec fn emoji_modifier_base_table_has(c: char) -> bool;

/// Variation selectors U+FE00..U+FE0F and U+E0100..U+E01EF.
pub open spec fn spec_is_variation_selector(c: char) -> bool {
    (0xFE00 <= c as u32 <= 0xFE0F) || (0xE0100 <= c as u32 <= 0xE01EF)
}

/// Regional indicator symbols U+1F1E6..U+1F1FF.
pub open spec fn spec_is_regional_indicator(c: char) -> bool {
    0x1F1E6 <= c as u32 <= 0x1F1FF
}

/// Emoji modifiers U+1F3FB..U+1F3FF.
pub open spec fn spec_is_emoji_modifier(c: char) -> bool {
    0x1F3FB <= c as u32 <= 0x1F3FF
}

/// Tag characters U+E0020..U+E007E.
pub open spec fn spec_is_tag_spec_char(c: char) -> bool {
    0xE0020 <= c as u32 <= 0xE007E
}

/// Keycap bases: the digits, `#` and `*`.
pub open spec fn spec_is_keycap_base(c: char) -> bool {
    (0x30 <= c as u32 <= 0x39) || c as u32 == 0x23 || c as u32 == 0x2A
}

/// `xi_unicode::is_variation_selector`.
#[verifier::external_body]
fn is_variation_selector(c: char) -> (r: bool)
    ensures
        r == spec_is_variation_selector(c),
{
    xi_unicode::is_variation_selector(c)
}

/// `xi_unicode::is_keycap_base`.
#[verifier::external_body]
fn is_keycap_base(c: char) -> (r: bool)
    ensures
        r == spec_is_keycap_base(c),
{
    xi_unicode::is_keycap_base(c)
}

/// `EmojiExt::is_regional_indicator_symbol` of `xi_unicode`.
#[verifier::external_body]
fn is_regional_indicator_symbol(c: char) -> (r: bool)
    ensures
        r == spec_is_regional_indicator(c),
{
    c.is_regional_indicator_symbol()
}

/// `EmojiExt::is_emoji_modifier` of `xi_unicode`.
#[verifier::external_body]
fn is_emoji_modifier(c: char) -> (r: bool)
    ensures
        r == spec_is_emoji_modifier(c),
{
    c.is_emoji_modifier()
}

/// `EmojiExt::is_emoji_combining_enclosing_keycap` of `xi_unicode`: U+20E3.
#[verifier::external_body]
fn is_emoji_combining_enclosing_keycap(c: char) -> (r: bool)
    ensures
        r == (c as u32 == 0x20E3),
{
    c.is_emoji_combining_enclosing_keycap()
}

/// `EmojiExt::is_emoji` of `xi_unicode`: a lookup in its emoji table, named
/// here rather than written out.
#[verifier::external_body]
fn is_emoji(c: char) -> (r: bool)
    ensures
        r == emoji_table_has(c),
{
    c.is_emoji()
}

/// `EmojiExt::is_emoji_modifier_base` of `xi_unicode`: a lookup in its
/// modifier base table, named here rather than written out.
#[verifier::external_body]
fn is_emoji_modifier_base(c: char) -> (r: bool)
    ensures
        r == emoji_modifier_base_table_has(c),
{
    c.is_emoji_modifier_base()
}

/// `EmojiExt::is_tag_spec_char` of `xi_unicode`.
#[verifier::external_body]
fn is_tag_spec_char(c: char) -> (r: bool)
    ensures
        r == spec_is_tag_spec_char(c),
{
    c.is_tag_spec_char()
}

/// `EmojiExt::is_emoji_cancel_tag` of `xi_unicode`: U+E007F.
#[verifier::external_body]
fn is_emoji_cancel_tag(c: char) -> (r: bool)
    ensures
        r == (c as u32 == 0xE007F),
{
    c.is_emoji_cancel_tag()
}

/// `EmojiExt::is_zwj` of `xi_unicode`: U+200D.
#[verifier::external_body]
fn is_zwj(c: char) -> (r: bool)
    ensures
        r == (c as u32 == 0x200D),
{
    c.is_zwj()
}

/// What the backwards scan has seen so far.
#[derive(PartialEq, Eq, Structural, Clone, Copy)]
pub enum BsState {
    Start,
    Lf,
    BeforeKeycap,
    BeforeVsAndKeycap,
    BeforeEmojiModifier,
    BeforeVsAndEmojiModifier,
    BeforeVs,
    BeforeEmoji,
    BeforeZwj,
    BeforeVsAndZwj,
    OddNumberedRis,
    EvenNumberedRis,
    InTagSequence,
    Finished,
}

/// One step of the scan on the character `c` before the cursor: the next
/// state, the number of characters to delete and the number of variation
/// selectors seen last.
pub open spec fn bs_step(st: BsState, count: int, vs: int, c: char) -> (BsState, int, int) {
    match st {
        BsState::Start => {
            let next = if c as u32 == 0x0A {
                BsState::Lf
            } else if spec_is_variation_selector(c) {
                BsState::BeforeVs
            } else if spec_is_regional_indicator(c) {
                BsState::OddNumberedRis
            } else if spec_is_emoji_modifier(c) {
                BsState::BeforeEmojiModifier
            } else if c as u32 == 0x20E3 {
                BsState::BeforeKeycap
            } else if emoji_table_has(c) {
                BsState::BeforeEmoji
            } else if c as u32 == 0xE007F {
                BsState::InTagSequence
            } else {
                BsState::Finished
            };
            (next, 1, vs)
        },
        BsState::Lf => (BsState::Finished, if c as u32 == 0x0D { count + 1 } else { count }, vs),
        BsState::OddNumberedRis => if spec_is_regional_indicator(c) {
            (BsState::EvenNumberedRis, count + 1, vs)
        } else {
            (BsState::Finished, count, vs)
        },
        BsState::EvenNumberedRis => if spec_is_regional_indicator(c) {
            (BsState::OddNumberedRis, count - 1, vs)
        } else {
            (BsState::Finished, count, vs)
        },
        BsState::BeforeKeycap => if spec_is_variation_selector(c) {
            (BsState::BeforeVsAndKeycap, count, 1)
        } else {
            (BsState::Finished, if spec_is_keycap_base(c) { count + 1 } else { count }, vs)
        },
        BsState::BeforeVsAndKeycap => (
            BsState::Finished,
            if spec_is_keycap_base(c) { count + vs + 1 } else { count },
            vs,
        ),
        BsState::BeforeEmojiModifier => if spec_is_variation_selector(c) {
            (BsState::BeforeVsAndEmojiModifier, count, 1)
        } else {
            (
                BsState::Finished,
                if emoji_modifier_base_table_has(c) { count + 1 } else { count },
                vs,
            )
        },
        BsState::BeforeVsAndEmojiModifier => (
            BsState::Finished,
            if emoji_modifier_base_table_has(c) { count + vs + 1 } else { count },
            vs,
        ),
        BsState::BeforeVs => if emoji_table_has(c) {
            (BsState::BeforeEmoji, count + 1, vs)
        } else {
            (
                BsState::Finished,
                if !spec_is_variation_selector(c) { count + 1 } else { count },
                vs,
            )
        },
        BsState::BeforeEmoji => if c as u32 == 0x200D {
            (BsState::BeforeZwj, count, vs)
        } else {
            (BsState::Finished, count, vs)
        },
        BsState::BeforeZwj => if emoji_table_has(c) {
            (
                if spec_is_emoji_modifier(c) {
                    BsState::BeforeEmojiModifier
                } else {
                    BsState::BeforeEmoji
                },
                count + 2,
                vs,
            )
        } else if spec_is_variation_selector(c) {
            (BsState::BeforeVsAndZwj, count, 1)
        } else {
            (BsState::Finished, count, vs)
        },
        BsState::BeforeVsAndZwj => if emoji_table_has(c) {
            (BsState::BeforeEmoji, count + vs + 2, 0)
        } else {
            (BsState::Finished, count, vs)
        },
        BsState::InTagSequence => if spec_is_tag_spec_char(c) {
            (BsState::InTagSequence, count + 1, vs)
        } else if emoji_table_has(c) {
            (BsState::Finished, count + 1, vs)
        } else {
            (BsState::Finished, 1, vs)
        },
        BsState::Finished => (st, count, vs),
    }
}

/// The scan over the characters before index `i` of `s`, last one first,
/// until it finishes or reaches the start of the text.
pub open spec fn bs_run(s: Seq<char>, i: int, st: BsState, count: int, vs: int) -> (
    BsState,
    int,
    int,
)
    decreases i,
{
    if i <= 0 || st == BsState::Finished {
        (st, count, vs)
    } else {
        let n = bs_step(st, count, vs, s[i - 1]);
        bs_run(s, i - 1, n.0, n.1, n.2)
    }
}

/// The character index where a backspace at character index `k` of `s`
/// starts: `k` moved back by the number of characters the scan counts,
/// stopping at the start of the text.
pub open spec fn backspace_index(s: Seq<char>, k: int) -> int {
    let count = bs_run(s, k, BsState::Start, 0, 0).1;
    let back = if count < 0 {
        0
    } else if count > k {
        k
    } else {
        count
    };
    k - back
}

/// What the scan keeps true after `c` characters: the count never exceeds
/// the characters seen, and exceeds what is still pending by one or two in
/// the states that wait for a base character.
pub open spec fn bs_inv(st: BsState, count: int, vs: int, c: int) -> bool {
    &&& 0 <= count <= c
    &&& (vs == 0 || vs == 1)
    &&& (st == BsState::Start ==> count == 0 && c == 0)
    &&& (st != BsState::Start ==> count >= 1)
    &&& (st == BsState::EvenNumberedRis ==> count >= 2)
    &&& (st == BsState::BeforeZwj ==> count + 1 <= c)
    &&& (st == BsState::BeforeVsAndZwj ==> count + 2 <= c && vs == 1)
    &&& (st == BsState::BeforeVsAndKeycap || st == BsState::BeforeVsAndEmojiModifier ==> count
        + 1 <= c && vs == 1)
}

/// One step of the scan keeps `bs_inv`, with one more character seen.
pub proof fn lemma_bs_step_inv(st: BsState, count: int, vs: int, c: int, ch: char)
    requires
        bs_inv(st, count, vs, c),
        st != BsState::Finished,
    ensures
        ({
            let n = bs_step(st, count, vs, ch);
            bs_inv(n.0, n.1, n.2, c + 1)
        }),
{
}

/// One step of the scan, on machine integers.
fn bs_step_exec(st: BsState, count: usize, vs: usize, ch: char, Ghost(c): Ghost<int>) -> (r: (
    BsState,
    usize,
    usize,
))
    requires
        bs_inv(st, count as int, vs as int, c),
        c + 1 <= usize::MAX,
        st != BsState::Finished,
    ensures
        (r.0, r.1 as int, r.2 as int) == bs_step(st, count as int, vs as int, ch),
        bs_inv(r.0, r.1 as int, r.2 as int, c + 1),
{
    proof {
        lemma_bs_step_inv(st, count as int, vs as int, c, ch);
    }
    match st {
        BsState::Start => {
            let next = if ch == '\n' {
                BsState::Lf
            } else if is_variation_selector(ch) {
                BsState::BeforeVs
            } else if is_regional_indicator_symbol(ch) {
                BsState::OddNumberedRis
            } else if is_emoji_modifier(ch) {
                BsState::BeforeEmojiModifier
            } else if is_emoji_combining_enclosing_keycap(ch) {
                BsState::BeforeKeycap
            } else if is_emoji(ch) {
                BsState::BeforeEmoji
            } else if is_emoji_cancel_tag(ch) {
                BsState::InTagSequence
            } else {
                BsState::Finished
            };
            (next, 1, vs)
        },
        BsState::Lf => {
            if ch == '\r' {
                (BsState::Finished, count + 1, vs)
            } else {
                (BsState::Finished, count, vs)
            }
        },
        BsState::OddNumberedRis => {
            if is_regional_indicator_symbol(ch) {
                (BsState::EvenNumberedRis, count + 1, vs)
            } else {
                (BsState::Finished, count, vs)
            }
        },
        BsState::EvenNumberedRis => {
            if is_regional_indicator_symbol(ch) {
                (BsState::OddNumberedRis, count - 1, vs)
            } else {
                (BsState::Finished, count, vs)
            }
        },
        BsState::BeforeKeycap => {
            if is_variation_selector(ch) {
                (BsState::BeforeVsAndKeycap, count, 1)
            } else if is_keycap_base(ch) {
                (BsState::Finished, count + 1, vs)
            } else {
                (BsState::Finished, count, vs)
            }
        },
        BsState::BeforeVsAndKeycap => {
            if is_keycap_base(ch) {
                (BsState::Finished, count + vs + 1, vs)
            } else {
                (BsState::Finished, count, vs)
            }
        },
        BsState::BeforeEmojiModifier => {
            if is_variation_selector(ch) {
                (BsState::BeforeVsAndEmojiModifier, count, 1)
            } else if is_emoji_modifier_base(ch) {
                (BsState::Finished, count + 1, vs)
            } else {
                (BsState::Finished, count, vs)
            }
        },
        BsState::BeforeVsAndEmojiModifier => {
            if is_emoji_modifier_base(ch) {
                (BsState::Finished, count + vs + 1, vs)
            } else {
                (BsState::Finished, count, vs)
            }
        },
        BsState::BeforeVs => {
            if is_emoji(ch) {
                (BsState::BeforeEmoji, count + 1, vs)
            } else if !is_variation_selector(ch) {
                (BsState::Finished, count + 1, vs)
            } else {
                (BsState::Finished, count, vs)
            }
        },
        BsState::BeforeEmoji => {
            if is_zwj(ch) {
                (BsState::BeforeZwj, count, vs)
            } else {
                (BsState::Finished, count, vs)
            }
        },
        BsState::BeforeZwj => {
            if is_emoji(ch) {
                let next = if is_emoji_modifier(ch) {
                    BsState::BeforeEmojiModifier
                } else {
                    BsState::BeforeEmoji
                };
                (next, count + 2, vs)
            } else if is_variation_selector(ch) {
                (BsState::BeforeVsAndZwj, count, 1)
            } else {
                (BsState::Finished, count, vs)
            }
        },
        BsState::BeforeVsAndZwj => {
            if is_emoji(ch) {
                (BsState::BeforeEmoji, count + vs + 2, 0)
            } else {
                (BsState::Finished, count, vs)
            }
        },
        BsState::InTagSequence => {
            if is_tag_spec_char(ch) {
                (BsState::InTagSequence, count + 1, vs)
            } else if is_emoji(ch) {
                (BsState::Finished, count + 1, vs)
            } else {
                (BsState::Finished, 1, vs)
            }
        },
        BsState::Finished => (st, count, vs),
    }
}

/// The byte offset where a backspace at byte offset `start` of the document's
/// string starts deleting. `start` must fall between two characters.
fn backspace_offset(text: &EditorBinding, start: usize) -> (r: usize)
    requires
        text.wf(),
        is_boundary_of(text.content@, start as int),
    ensures
        r == byte_offset(
            text.content@,
            backspace_index(text.content@, char_index_of(text.content@, start as int)),
        ),
        r <= start,
{
    let ghost s = text.content@;
    let k = byte_to_char_offset(&text.content, start);
    let mut state = BsState::Start;
    let mut delete_code_point_count: usize = 0;
    let mut last_seen_vs_code_point_count: usize = 0;
    let mut i: usize = k;
    proof {
        let kk = char_index_of(s, start as int);
        assert(0 <= kk <= s.len() && byte_offset(s, kk) == start);
    }
    while state != BsState::Finished && i > 0
        invariant
            s == text.content@,
            0 <= i <= k <= s.len(),
            k == char_index_of(s, start as int),
            bs_inv(state, delete_code_point_count as int, last_seen_vs_code_point_count as int, k - i),
            bs_run(s, k as int, BsState::Start, 0, 0) == bs_run(
                s,
                i as int,
                state,
                delete_code_point_count as int,
                last_seen_vs_code_point_count as int,
            ),
        decreases i,
    {
        let code_point = text.content[i - 1];
        let r = bs_step_exec(
            state,
            delete_code_point_count,
            last_seen_vs_code_point_count,
            code_point,
            Ghost((k - i) as int),
        );
        state = r.0;
        delete_code_point_count = r.1;
        last_seen_vs_code_point_count = r.2;
        i = i - 1;
    }
    let target = k - delete_code_point_count;
    proof {
        lemma_byte_offset_mono(s, target as int, k as int);
    }
    char_to_byte_offset(&text.content, target)
}

/// A selection of the editor: `anchor` stays when it is extended, `active`
/// moves; both are byte offsets.
#[derive(Clone, Copy, Debug)]
pub struct Selection {
    pub anchor: usize,
    pub active: usize,
}

impl Selection {
    /// True when the selection is a bare cursor.
    pub fn is_caret(&self) -> (r: bool)
        ensures
            r == (self.anchor == self.active),
    {
        self.anchor == self.active
    }

    /// The smaller end of the selection.
    pub fn min(&self) -> (r: usize)
        ensures
            r == if self.anchor <= self.active { self.anchor } else { self.active },
    {
        if self.anchor <= self.active {
            self.anchor
        } else {
            self.active
        }
    }
}

/// Where a backwards delete of `region` starts: the start of a non-empty
/// selection, or for a cursor the start of the character sequence before it
/// that goes as one (`backspace_index`).
pub fn offset_for_delete_backwards(region: &Selection, text: &EditorBinding) -> (r: usize)
    requires
        region.anchor != region.active || (text.wf() && is_boundary_of(
            text.content@,
            region.active as int,
        )),
    ensures
        region.anchor != region.active ==> r == if region.anchor <= region.active {
            region.anchor
        } else {
            region.active
        },
        region.anchor == region.active ==> r == byte_offset(
            text.content@,
            backspace_index(text.content@, char_index_of(text.content@, region.active as int)),
        ),
{
    if !region.is_caret() {
        region.min()
    } else {
        backspace_offset(text, region.active)
    }
}

} // verus!
