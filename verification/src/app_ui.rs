//! Positions in note text: byte offsets, as edits use them, and character
//! offsets, as the editor widget counts them.
use vstd::prelude::*;
use vstd::utf8::*;
use vstd::std_specs::iter::IteratorSpec;
use crate::text_bytes::{utf8_bytes, lemma_utf8_concat};

verus! {

broadcast use vstd::seq::group_seq_axioms, vstd::string::group_string_axioms;

/// The byte offset at which character `i` of `s` starts.
pub open spec fn char_byte_offset(s: Seq<char>, i: int) -> int {
    utf8_bytes(s.subrange(0, i)).len() as int
}

/// The index of the character that starts at byte `byte_index`, or the
/// number of characters when no character starts there.
pub open spec fn char_index_spec(s: Seq<char>, byte_index: int, r: int) -> bool {
    ||| (0 <= r < s.len() && char_byte_offset(s, r) == byte_index && forall|j: int|
        0 <= j < r ==> #[trigger] char_byte_offset(s, j) != byte_index)
    ||| (r == s.len() && forall|j: int| 0 <= j < s.len() ==> #[trigger] char_byte_offset(s, j) != byte_index)
}

/// The number of bytes UTF-8 takes for `c`.
fn utf8_width(c: char) -> (w: usize)
    ensures
        w == encode_scalar(c as u32).len(),
{
    let v = c as u32;
    proof {
        char_is_scalar(c);
    }
    if v < 0x80 {
        1
    } else if v < 0x800 {
        2
    } else if v < 0x10000 {
        3
    } else {
        4
    }
}

proof fn lemma_offset_step(s: Seq<char>, i: int)
    requires
        0 <= i < s.len(),
    ensures
        char_byte_offset(s, i + 1) == char_byte_offset(s, i) + encode_scalar(s[i] as u32).len(),
{
    let one = seq![s[i]];
    lemma_utf8_concat(s.subrange(0, i), one);
    assert(s.subrange(0, i) + one =~= s.subrange(0, i + 1));
    assert(one.drop_first() =~= Seq::<char>::empty());
    assert(utf8_bytes(one) == encode_scalar(s[i] as u32) + utf8_bytes(Seq::<char>::empty()));
}

proof fn lemma_offset_at_least(s: Seq<char>, i: int)
    requires
        0 <= i <= s.len(),
    ensures
        char_byte_offset(s, i) >= i,
    decreases i,
{
    if i > 0 {
        lemma_offset_at_least(s, i - 1);
        lemma_offset_step(s, i - 1);
    }
}

proof fn lemma_offset_bounded(s: Seq<char>, i: int)
    requires
        0 <= i <= s.len(),
    ensures
        char_byte_offset(s, i) <= utf8_bytes(s).len(),
{
    lemma_utf8_concat(s.subrange(0, i), s.subrange(i, s.len() as int));
    assert(s.subrange(0, i) + s.subrange(i, s.len() as int) =~= s);
}

/// The index of the character that starts at byte `byte_index` of `s`, or
/// the number of characters of `s` when none starts there.
pub fn char_index_from_byte_index(s: &str, byte_index: usize) -> (r: usize)
    ensures
        char_index_spec(s@, byte_index as int, r as int),
{
    let total = s.as_bytes().len();
    let mut it = s.chars();
    let mut ci: usize = 0;
    let mut bi: usize = 0;
    assert(s@.subrange(0, 0) =~= Seq::<char>::empty());
    assert(s@.subrange(0, s@.len() as int) =~= s@);
    loop
        invariant
            ci <= s@.len(),
            it.remaining() == s@.subrange(ci as int, s@.len() as int),
            bi == char_byte_offset(s@, ci as int),
            total == utf8_bytes(s@).len(),
            forall|j: int| 0 <= j < ci ==> #[trigger] char_byte_offset(s@, j) != byte_index,
        decreases s@.len() - ci,
    {
        match it.next() {
            Some(c) => {
                assert(c == s@[ci as int]);
                if bi == byte_index {
                    return ci;
                }
                proof {
                    lemma_offset_step(s@, ci as int);
                    lemma_offset_bounded(s@, ci + 1);
                    lemma_offset_at_least(s@, ci + 1);
                }
                let w = utf8_width(c);
                bi = bi + w;
                ci = ci + 1;
                assert(s@.subrange(ci - 1, s@.len() as int).drop_first() =~= s@.subrange(
                    ci as int,
                    s@.len() as int,
                ));
            },
            None => {
                return ci;
            },
        }
    }
}

} // verus!
