//! Byte-level view of UTF-8 note text: substring search, splicing, and the
//! facts about character boundaries that keep edited text valid UTF-8.
use vstd::prelude::*;
use vstd::utf8::*;

verus! {

broadcast use vstd::seq::group_seq_axioms;

/// The UTF-8 bytes of a character sequence.
pub open spec fn utf8_bytes(s: Seq<char>) -> Seq<u8> {
    encode_utf8(s)
}

/// True when `needle` occurs in `hay` starting at byte `i`.
pub open spec fn occurs_at(hay: Seq<u8>, needle: Seq<u8>, i: int) -> bool {
    0 <= i && i + needle.len() <= hay.len() && hay.subrange(i, i + needle.len()) == needle
}

/// The first occurrence of `needle` in `hay` at or after byte `i`.
pub open spec fn find_from(hay: Seq<u8>, needle: Seq<u8>, i: int) -> Option<int>
    decreases hay.len() + 1 - i,
{
    if i < 0 || i + needle.len() > hay.len() {
        None
    } else if occurs_at(hay, needle, i) {
        Some(i)
    } else {
        find_from(hay, needle, i + 1)
    }
}

/// The first occurrence of `needle` in `hay`, as `str::find` reports it.
pub open spec fn find_first(hay: Seq<u8>, needle: Seq<u8>) -> Option<int> {
    find_from(hay, needle, 0)
}

/// `hay` with the bytes `[start, end)` replaced by `ins`.
pub open spec fn splice(hay: Seq<u8>, start: int, end: int, ins: Seq<u8>) -> Seq<u8> {
    hay.subrange(0, start) + ins + hay.subrange(end, hay.len() as int)
}

pub proof fn lemma_find_from_props(hay: Seq<u8>, needle: Seq<u8>, i: int)
    requires
        0 <= i,
    ensures
        find_from(hay, needle, i) matches Some(k) ==> i <= k && occurs_at(hay, needle, k) && (
        forall|j: int| i <= j < k ==> !occurs_at(hay, needle, j)),
        find_from(hay, needle, i) is None ==> forall|j: int| i <= j ==> !occurs_at(hay, needle, j),
    decreases hay.len() + 1 - i,
{
    if i + needle.len() > hay.len() {
    } else if occurs_at(hay, needle, i) {
    } else {
        lemma_find_from_props(hay, needle, i + 1);
    }
}

/// Finds the first occurrence of `needle` in `hay` at or after `from`.
pub fn find_bytes(hay: &[u8], needle: &[u8], from: usize) -> (r: Option<usize>)
    ensures
        r matches Some(k) ==> find_from(hay@, needle@, from as int) == Some(k as int),
        r is None ==> find_from(hay@, needle@, from as int) is None,
{
    let n = needle.len();
    let h = hay.len();
    if from > h || n > h - from {
        proof {
            lemma_find_from_props(hay@, needle@, from as int);
        }
        return None;
    }
    if n == 0 {
        assert(hay@.subrange(from as int, from as int) =~= needle@);
        return Some(from);
    }
    let mut i = from;
    while i <= h - n
        invariant
            n == needle@.len(),
            h == hay@.len(),
            1 <= n <= h,
            from <= i <= h,
            find_from(hay@, needle@, from as int) == find_from(hay@, needle@, i as int),
        decreases h - i,
    {
        let mut j: usize = 0;
        let mut matched = true;
        while j < n && matched
            invariant
                j <= n,
                n == needle@.len(),
                h == hay@.len(),
                i + n <= h,
                matched ==> forall|k: int| 0 <= k < j ==> hay@[i + k] == needle@[k],
                !matched ==> !occurs_at(hay@, needle@, i as int),
            decreases (n - j) + (if matched { 1int } else { 0int }),
        {
            if hay[i + j] != needle[j] {
                matched = false;
                assert(hay@.subrange(i as int, i + n)[j as int] != needle@[j as int]);
            } else {
                j = j + 1;
            }
        }
        if matched {
            assert(hay@.subrange(i as int, i + n) =~= needle@);
            return Some(i);
        }
        i = i + 1;
    }
    None
}


/// True when `s` ends with `p`, byte for byte (as `str::ends_with` compares).
pub open spec fn bytes_end_with(s: Seq<u8>, p: Seq<u8>) -> bool {
    p.len() <= s.len() && s.subrange(s.len() - p.len(), s.len() as int) == p
}

/// True when `s` starts with `p`, byte for byte (as `str::starts_with` compares).
pub open spec fn bytes_start_with(s: Seq<u8>, p: Seq<u8>) -> bool {
    p.len() <= s.len() && s.subrange(0, p.len() as int) == p
}

pub fn ends_with_bytes(s: &[u8], p: &[u8]) -> (r: bool)
    ensures
        r == bytes_end_with(s@, p@),
{
    if p.len() > s.len() {
        return false;
    }
    let off = s.len() - p.len();
    let slen = s.len();
    let mut i: usize = 0;
    while i < p.len()
        invariant
            i <= p@.len(),
            off + p@.len() == s@.len(),
            slen == s@.len(),
            forall|k: int| 0 <= k < i ==> s@[off + k] == p@[k],
        decreases p@.len() - i,
    {
        if s[off + i] != p[i] {
            assert(s@.subrange(off as int, s@.len() as int)[i as int] != p@[i as int]);
            return false;
        }
        i = i + 1;
    }
    assert(s@.subrange(off as int, s@.len() as int) =~= p@);
    true
}

pub fn starts_with_bytes(s: &[u8], p: &[u8]) -> (r: bool)
    ensures
        r == bytes_start_with(s@, p@),
{
    if p.len() > s.len() {
        return false;
    }
    let mut i: usize = 0;
    while i < p.len()
        invariant
            i <= p@.len(),
            p@.len() <= s@.len(),
            forall|k: int| 0 <= k < i ==> s@[k] == p@[k],
        decreases p@.len() - i,
    {
        if s[i] != p[i] {
            assert(s@.subrange(0, p@.len() as int)[i as int] != p@[i as int]);
            return false;
        }
        i = i + 1;
    }
    assert(s@.subrange(0, p@.len() as int) =~= p@);
    true
}


/// Index of the first `sep` byte in `b`.
pub open spec fn first_index_of(b: Seq<u8>, sep: u8) -> Option<int>
    decreases b.len(),
{
    if b.len() == 0 {
        None
    } else if b[0] == sep {
        Some(0)
    } else {
        match first_index_of(b.drop_first(), sep) {
            Some(i) => Some(i + 1),
            None => None,
        }
    }
}

/// The pieces of `b` between `sep` bytes, as `str::split` yields them
/// (empty pieces included; always at least one piece).
pub open spec fn split_spec(b: Seq<u8>, sep: u8) -> Seq<Seq<u8>>
    decreases b.len(),
{
    match first_index_of(b, sep) {
        None => seq![b],
        Some(i) => if 0 <= i < b.len() {
            seq![b.subrange(0, i)] + split_spec(b.subrange(i + 1, b.len() as int), sep)
        } else {
            seq![b]
        },
    }
}

pub proof fn lemma_first_index_of(b: Seq<u8>, sep: u8, k: int)
    requires
        0 <= k <= b.len(),
        forall|m: int| 0 <= m < k ==> b[m] != sep,
    ensures
        k < b.len() && b[k] == sep ==> first_index_of(b, sep) == Some(k),
        k == b.len() ==> first_index_of(b, sep) is None,
    decreases k,
{
    if k > 0 {
        lemma_first_index_of(b.drop_first(), sep, k - 1);
    } else if b.len() > 0 {
    }
}

/// Splits `s` at every occurrence of the ASCII byte `sep` (as `str::split` with
/// a one-byte separator).
pub fn split_str(s: &str, sep: u8) -> (r: Vec<String>)
    requires
        sep <= 0x7f,
    ensures
        r@.len() == split_spec(utf8_bytes(s@), sep).len(),
        forall|k: int|
            0 <= k < r@.len() ==> utf8_bytes((#[trigger] r@[k])@) == split_spec(
                utf8_bytes(s@),
                sep,
            )[k],
{
    let b = s.as_bytes();
    let ghost bs = b@;
    proof {
        encode_utf8_valid_utf8(s@);
    }
    let mut done: Vec<String> = Vec::new();
    let mut start: usize = 0;
    let mut j: usize = 0;
    assert(bs.subrange(0, bs.len() as int) =~= bs);
    proof {
        is_char_boundary_start_end_of_seq(bs);
    }
    while j < b.len()
        invariant
            bs == b@,
            bs == utf8_bytes(s@),
            valid_utf8(bs),
            start <= j <= bs.len(),
            sep <= 0x7f,
            is_char_boundary(bs, start as int),
            forall|m: int| start <= m < j ==> bs[m] != sep,
            done@.len() + split_spec(bs.subrange(start as int, bs.len() as int), sep).len()
                == split_spec(bs, sep).len(),
            forall|k: int|
                0 <= k < done@.len() ==> utf8_bytes((#[trigger] done@[k])@) == split_spec(bs, sep)[k],
            forall|k: int|
                0 <= k < split_spec(bs.subrange(start as int, bs.len() as int), sep).len()
                    ==> #[trigger] split_spec(bs.subrange(start as int, bs.len() as int), sep)[k]
                    == split_spec(bs, sep)[done@.len() + k],
        decreases bs.len() - j,
    {
        if b[j] == sep {
            let ghost rest = bs.subrange(start as int, bs.len() as int);
            proof {
                lemma_first_index_of(rest, sep, j - start);
                lemma_ascii_boundaries(bs, j as int);
                lemma_three_pieces_valid(bs, start as int, j as int);
                assert(rest.subrange(0, j - start) =~= bs.subrange(start as int, j as int));
                assert(rest.subrange(j - start + 1, rest.len() as int) =~= bs.subrange(
                    j + 1,
                    bs.len() as int,
                ));
            }
            let mut piece: Vec<u8> = Vec::new();
            let mut m = start;
            while m < j
                invariant
                    start <= m <= j < b@.len(),
                    piece@ == b@.subrange(start as int, m as int),
                decreases j - m,
            {
                piece.push(b[m]);
                m = m + 1;
                assert(piece@ =~= b@.subrange(start as int, m as int));
            }
            let word = string_from_utf8(piece).unwrap();
            let ghost n_before = done@.len();
            let ghost rest2 = bs.subrange(j + 1, bs.len() as int);
            proof {
                assert(split_spec(rest, sep) == seq![rest.subrange(0, j - start)] + split_spec(
                    rest2,
                    sep,
                ));
                assert(split_spec(rest, sep)[0] == bs.subrange(start as int, j as int));
                assert(split_spec(bs, sep)[n_before as int] == bs.subrange(start as int, j as int));
            }
            done.push(word);
            start = j + 1;
            proof {
                assert(rest2 == bs.subrange(start as int, bs.len() as int));
                assert forall|k: int|
                    0 <= k < split_spec(rest2, sep).len() implies #[trigger] split_spec(rest2, sep)[k]
                    == split_spec(bs, sep)[done@.len() + k] by {
                    assert(split_spec(rest, sep)[k + 1] == split_spec(rest2, sep)[k]);
                }
                assert forall|k: int|
                    0 <= k < done@.len() implies utf8_bytes((#[trigger] done@[k])@) == split_spec(bs, sep)[k] by {
                    if k < n_before {
                    }
                }
            }
        }
        j = j + 1;
    }
    let ghost rest = bs.subrange(start as int, bs.len() as int);
    proof {
        lemma_first_index_of(rest, sep, (bs.len() - start) as int);
        is_char_boundary_start_end_of_seq(bs);
        lemma_three_pieces_valid(bs, start as int, bs.len() as int);
    }
    let mut piece: Vec<u8> = Vec::new();
    let mut m = start;
    while m < b.len()
        invariant
            start <= m <= b@.len(),
            piece@ == b@.subrange(start as int, m as int),
        decreases b@.len() - m,
    {
        piece.push(b[m]);
        m = m + 1;
        assert(piece@ =~= b@.subrange(start as int, m as int));
    }
    let word = string_from_utf8(piece).unwrap();
    let ghost n_before = done@.len();
    proof {
        assert(split_spec(rest, sep) =~= seq![rest]);
        assert(split_spec(rest, sep)[0] == rest);
        assert(split_spec(bs, sep)[n_before as int] == rest);
    }
    done.push(word);
    proof {
        assert forall|k: int|
            0 <= k < done@.len() implies utf8_bytes((#[trigger] done@[k])@) == split_spec(bs, sep)[k] by {
            if k < n_before {
            }
        }
    }
    done
}


/// The UTF-8 encoding of a concatenation is the concatenation of the encodings.
pub proof fn lemma_utf8_concat(a: Seq<char>, b: Seq<char>)
    ensures
        utf8_bytes(a + b) == utf8_bytes(a) + utf8_bytes(b),
    decreases a.len(),
{
    if a.len() == 0 {
        assert(a + b =~= b);
        assert(utf8_bytes(a) =~= Seq::<u8>::empty());
        assert(utf8_bytes(a) + utf8_bytes(b) =~= utf8_bytes(b));
    } else {
        lemma_utf8_concat(a.drop_first(), b);
        assert((a + b).drop_first() =~= a.drop_first() + b);
        assert((a + b)[0] == a[0]);
        assert(utf8_bytes(a + b) =~= utf8_bytes(a) + utf8_bytes(b));
    }
}

/// Appends `t` to `s`; the bytes of the result are those of `s` then those of `t`.
pub fn append_str(s: &mut String, t: &str)
    ensures
        final(s)@ == old(s)@ + t@,
        utf8_bytes(final(s)@) == utf8_bytes(old(s)@) + utf8_bytes(t@),
{
    proof {
        lemma_utf8_concat(s@, t@);
    }
    s.append(t);
}


/// The part of `text` between two character boundaries, as a new string.
pub fn sub_string(text: &str, start: usize, end: usize) -> (r: String)
    requires
        start <= end <= utf8_bytes(text@).len(),
        is_char_boundary(utf8_bytes(text@), start as int),
        is_char_boundary(utf8_bytes(text@), end as int),
    ensures
        utf8_bytes(r@) == utf8_bytes(text@).subrange(start as int, end as int),
{
    let b = text.as_bytes();
    let mut piece: Vec<u8> = Vec::new();
    let mut j = start;
    while j < end
        invariant
            start <= j <= end <= b@.len(),
            piece@ == b@.subrange(start as int, j as int),
        decreases end - j,
    {
        piece.push(b[j]);
        j = j + 1;
        assert(piece@ =~= b@.subrange(start as int, j as int));
    }
    proof {
        encode_utf8_valid_utf8(text@);
        lemma_three_pieces_valid(b@, start as int, end as int);
    }
    string_from_utf8(piece).unwrap()
}

/// Index of the first `sep` byte, as a search over the slice.
pub fn index_of_byte(b: &[u8], sep: u8) -> (r: Option<usize>)
    ensures
        r matches Some(i) ==> first_index_of(b@, sep) == Some(i as int),
        r is None ==> first_index_of(b@, sep) is None,
{
    let mut i: usize = 0;
    while i < b.len()
        invariant
            i <= b@.len(),
            forall|m: int| 0 <= m < i ==> b@[m] != sep,
        decreases b@.len() - i,
    {
        if b[i] == sep {
            proof {
                lemma_first_index_of(b@, sep, i as int);
            }
            return Some(i);
        }
        i = i + 1;
    }
    proof {
        lemma_first_index_of(b@, sep, i as int);
    }
    None
}

pub proof fn lemma_first_index_props(b: Seq<u8>, sep: u8)
    ensures
        first_index_of(b, sep) matches Some(i) ==> 0 <= i < b.len() && b[i] == sep && forall|m: int|
            0 <= m < i ==> b[m] != sep,
        first_index_of(b, sep) is None ==> forall|m: int| 0 <= m < b.len() ==> b[m] != sep,
    decreases b.len(),
{
    if b.len() > 0 {
        lemma_first_index_props(b.drop_first(), sep);
        if b[0] != sep {
            assert forall|m: int| 0 < m < b.len() implies b[m] == b.drop_first()[m - 1] by {}
        }
    }
}


/// Appends all of `s` to `v`.
pub fn push_all(v: &mut Vec<u8>, s: &[u8])
    ensures
        final(v)@ == old(v)@ + s@,
{
    let mut k: usize = 0;
    while k < s.len()
        invariant
            k <= s@.len(),
            v@ == old(v)@ + s@.subrange(0, k as int),
        decreases s@.len() - k,
    {
        v.push(s[k]);
        k = k + 1;
        assert(v@ =~= old(v)@ + s@.subrange(0, k as int));
    }
    assert(s@.subrange(0, s@.len() as int) =~= s@);
}


/// ASCII characters are encoded as one byte each, their code.
pub proof fn lemma_ascii_chars_bytes(s: Seq<char>)
    requires
        forall|i: int| 0 <= i < s.len() ==> (#[trigger] s[i] as u32) <= 0x7f,
    ensures
        utf8_bytes(s) == Seq::new(s.len(), |i: int| (s[i] as u32) as u8),
    decreases s.len(),
{
    if s.len() == 0 {
        assert(utf8_bytes(s) =~= Seq::new(s.len(), |i: int| (s[i] as u32) as u8));
    } else {
        let rest = s.drop_first();
        assert forall|i: int| 0 <= i < rest.len() implies (#[trigger] rest[i] as u32) <= 0x7f by {
            assert(rest[i] == s[i + 1]);
        }
        lemma_ascii_chars_bytes(rest);
        let v = s[0] as u32;
        assert(v <= 0x7f);
        assert((v & 0x7f) as u8 == v as u8) by (bit_vector)
            requires
                v <= 0x7f,
        ;
        assert(utf8_bytes(s) =~= Seq::new(s.len(), |i: int| (s[i] as u32) as u8));
    }
}

/// Copies `hay` with the bytes `[start, end)` replaced by `ins`.
pub fn splice_bytes(hay: &[u8], start: usize, end: usize, ins: &[u8]) -> (r: Vec<u8>)
    requires
        start <= end <= hay@.len(),
    ensures
        r@ == splice(hay@, start as int, end as int, ins@),
{
    let mut r: Vec<u8> = Vec::new();
    let mut i: usize = 0;
    while i < start
        invariant
            i <= start <= end <= hay@.len(),
            r@ == hay@.subrange(0, i as int),
        decreases start - i,
    {
        r.push(hay[i]);
        i = i + 1;
        assert(r@ =~= hay@.subrange(0, i as int));
    }
    let mut k: usize = 0;
    while k < ins.len()
        invariant
            k <= ins@.len(),
            r@ == hay@.subrange(0, start as int) + ins@.subrange(0, k as int),
        decreases ins@.len() - k,
    {
        r.push(ins[k]);
        k = k + 1;
        assert(r@ =~= hay@.subrange(0, start as int) + ins@.subrange(0, k as int));
    }
    assert(ins@.subrange(0, ins@.len() as int) =~= ins@);
    let mut i: usize = end;
    while i < hay.len()
        invariant
            end <= i <= hay@.len(),
            r@ == hay@.subrange(0, start as int) + ins@ + hay@.subrange(end as int, i as int),
        decreases hay@.len() - i,
    {
        r.push(hay[i]);
        i = i + 1;
        assert(r@ =~= hay@.subrange(0, start as int) + ins@ + hay@.subrange(end as int, i as int));
    }
    r
}

/// Turns UTF-8 bytes back into a `String` (std `String::from_utf8`):
/// `None` exactly when the bytes are not valid UTF-8; otherwise a string whose
/// UTF-8 encoding is those bytes.
#[verifier::external_body]
pub(crate) fn string_from_utf8(bytes: Vec<u8>) -> (r: Option<String>)
    ensures
        r is Some <==> valid_utf8(bytes@),
        r matches Some(s) ==> encode_utf8(s@) == bytes@,
{
    String::from_utf8(bytes).ok()
}

/// An ASCII byte inside valid UTF-8 starts a character, and so does the byte after it.
pub proof fn lemma_ascii_boundaries(b: Seq<u8>, k: int)
    requires
        valid_utf8(b),
        0 <= k < b.len(),
        b[k] <= 0x7f,
    ensures
        is_char_boundary(b, k),
        is_char_boundary(b, k + 1),
{
    is_char_boundary_iff_not_is_continuation_byte(b, k);
    is_char_boundary_start_end_of_seq(b);
    if k + 1 < b.len() {
        valid_utf8_split(b, k);
        let s = b.subrange(k, b.len() as int);
        assert(s[0] == b[k]);
        assert(length_of_first_scalar(s) == 1);
        assert(pop_first_scalar(s) =~= b.subrange(k + 1, b.len() as int));
        let t = pop_first_scalar(s);
        assert(valid_utf8(s));
        assert(valid_utf8(t));
        assert(t.len() > 0);
        assert(valid_first_scalar(t));
        assert(t[0] == b[k + 1]);
        is_char_boundary_iff_not_is_continuation_byte(b, k + 1);
    }
}

/// Every sequence of ASCII bytes is valid UTF-8.
pub proof fn lemma_ascii_valid(s: Seq<u8>)
    requires
        forall|i: int| 0 <= i < s.len() ==> s[i] <= 0x7f,
    ensures
        valid_utf8(s),
{
    assert(s.subrange(0, 0) =~= Seq::<u8>::empty());
    assert(partial_valid_utf8(s, 0));
    assert forall|i: int| 0 <= 0 <= i < s.len() <= s.len() implies #[trigger] is_leading_byte_width_1(s[i]) by {}
    partial_valid_utf8_extend_ascii_block(s, 0, s.len() as int);
    assert(s.subrange(0, s.len() as int) =~= s);
}

/// Replacing the bytes between two character boundaries of valid UTF-8 with
/// valid UTF-8 yields valid UTF-8.
pub proof fn lemma_splice_valid(b: Seq<u8>, start: int, end: int, ins: Seq<u8>)
    requires
        valid_utf8(b),
        valid_utf8(ins),
        0 <= start <= end <= b.len(),
        is_char_boundary(b, start),
        is_char_boundary(b, end),
    ensures
        valid_utf8(splice(b, start, end, ins)),
{
    valid_utf8_split(b, start);
    valid_utf8_split(b, end);
    valid_utf8_concat(b.subrange(0, start), ins);
    valid_utf8_concat(b.subrange(0, start) + ins, b.subrange(end, b.len() as int));
}

/// Decoding and re-encoding: two strings with the same UTF-8 bytes are equal.
pub proof fn lemma_encode_injective(a: Seq<char>, b: Seq<char>)
    requires
        encode_utf8(a) == encode_utf8(b),
    ensures
        a == b,
{
    encode_utf8_decode_utf8(a);
    encode_utf8_decode_utf8(b);
}


/// Removing an occurrence of an ASCII-delimited pattern from valid UTF-8
/// leaves valid UTF-8.
pub proof fn lemma_remove_ascii_occurrence(b: Seq<u8>, needle: Seq<u8>, i: int)
    requires
        valid_utf8(b),
        occurs_at(b, needle, i),
        needle.len() >= 1,
        needle[0] <= 0x7f,
        needle[needle.len() - 1] <= 0x7f,
    ensures
        valid_utf8(splice(b, i, i + needle.len(), Seq::<u8>::empty())),
        is_char_boundary(b, i),
        is_char_boundary(b, i + needle.len()),
{
    let n = needle.len() as int;
    assert(b.subrange(i, i + n)[0] == b[i]);
    assert(b.subrange(i, i + n)[n - 1] == b[i + n - 1]);
    lemma_ascii_boundaries(b, i);
    lemma_ascii_boundaries(b, i + n - 1);
    lemma_ascii_valid(Seq::<u8>::empty());
    lemma_splice_valid(b, i, i + n, Seq::<u8>::empty());
}

/// A boundary before another boundary stays a boundary of the prefix ending there.
pub proof fn lemma_boundary_in_prefix(b: Seq<u8>, s: int, e: int)
    requires
        valid_utf8(b),
        0 <= s <= e <= b.len(),
        is_char_boundary(b, s),
        is_char_boundary(b, e),
    ensures
        valid_utf8(b.subrange(0, e)),
        is_char_boundary(b.subrange(0, e), s),
{
    valid_utf8_split(b, e);
    let p = b.subrange(0, e);
    is_char_boundary_start_end_of_seq(p);
    if s < e {
        is_char_boundary_iff_not_is_continuation_byte(b, s);
        assert(p[s] == b[s]);
        is_char_boundary_iff_not_is_continuation_byte(p, s);
    }
}

/// Splitting valid UTF-8 at two ordered boundaries gives three valid pieces.
pub proof fn lemma_three_pieces_valid(b: Seq<u8>, s: int, e: int)
    requires
        valid_utf8(b),
        0 <= s <= e <= b.len(),
        is_char_boundary(b, s),
        is_char_boundary(b, e),
    ensures
        valid_utf8(b.subrange(0, s)),
        valid_utf8(b.subrange(s, e)),
        valid_utf8(b.subrange(e, b.len() as int)),
{
    valid_utf8_split(b, s);
    valid_utf8_split(b, e);
    lemma_boundary_in_prefix(b, s, e);
    let p = b.subrange(0, e);
    valid_utf8_split(p, s);
    assert(p.subrange(s, e) =~= b.subrange(s, e));
}

/// Replaces the bytes `[start, end)` of `s` with `ins`; both ends must fall on
/// character boundaries, as `String::replace_range` demands.
pub fn splice_str(s: &str, start: usize, end: usize, ins: &str) -> (r: String)
    requires
        start <= end <= utf8_bytes(s@).len(),
        is_char_boundary(utf8_bytes(s@), start as int),
        is_char_boundary(utf8_bytes(s@), end as int),
    ensures
        utf8_bytes(r@) == splice(utf8_bytes(s@), start as int, end as int, utf8_bytes(ins@)),
{
    let b = s.as_bytes();
    let i = ins.as_bytes();
    let v = splice_bytes(b, start, end, i);
    proof {
        encode_utf8_valid_utf8(s@);
        encode_utf8_valid_utf8(ins@);
        lemma_splice_valid(b@, start as int, end as int, i@);
    }
    string_from_utf8(v).unwrap()
}

/// Characters that are the ASCII bytes `b`, one for one, are encoded as `b`.
pub proof fn lemma_ascii_text(s: Seq<char>, b: Seq<u8>)
    requires
        s.len() == b.len(),
        forall|i: int| 0 <= i < s.len() ==> (#[trigger] s[i] as u32) == b[i] && b[i] <= 0x7f,
    ensures
        utf8_bytes(s) == b,
{
    assert forall|i: int| 0 <= i < s.len() implies (#[trigger] s[i] as u32) <= 0x7f by {}
    lemma_ascii_chars_bytes(s);
    assert(utf8_bytes(s) =~= b);
}

} // verus!
