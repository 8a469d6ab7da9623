//! Text edits expressed as byte-span replacements, and the cursor markers
//! `{||}` (a caret) and `{|}` (the two ends of a selection) that edits carry.
use vstd::prelude::*;
use vstd::utf8::*;
use crate::byte_span::{ByteSpan, UnOrderedByteSpan, min_usize, max_usize};
use crate::text_bytes::{utf8_bytes, find_from, occurs_at, find_first, splice, find_bytes, splice_bytes, string_from_utf8, lemma_find_from_props, lemma_remove_ascii_occurrence, lemma_ascii_valid, lemma_splice_valid, lemma_three_pieces_valid};

verus! {

broadcast use vstd::seq::group_seq_axioms;

/// A single edit: replace the bytes of the span with the string. The string
/// may contain cursor markers that say where the cursor lands afterwards.
#[derive(Debug)]
pub enum TextChange {
    Insert(ByteSpan, String),
}

#[derive(Debug, PartialEq, Eq, Structural, Clone, Copy)]
pub enum TextChangeError {
    OverlappingChanges,
}

/// Bytes of the caret marker `{||}`.
pub open spec fn caret_marker() -> Seq<u8> {
    seq![0x7bu8, 0x7cu8, 0x7cu8, 0x7du8]
}

/// Bytes of the selection-edge marker `{|}`.
pub open spec fn edge_marker() -> Seq<u8> {
    seq![0x7bu8, 0x7cu8, 0x7du8]
}

pub fn caret_marker_bytes() -> (v: Vec<u8>)
    ensures
        v@ == caret_marker(),
{
    let v = vec![0x7bu8, 0x7cu8, 0x7cu8, 0x7du8];
    assert(v@ =~= caret_marker());
    v
}

pub fn edge_marker_bytes() -> (v: Vec<u8>)
    ensures
        v@ == edge_marker(),
{
    let v = vec![0x7bu8, 0x7cu8, 0x7du8];
    assert(v@ =~= edge_marker());
    v
}

pub open spec fn remove_marker(b: Seq<u8>, at: int, marker: Seq<u8>) -> Seq<u8> {
    splice(b, at, at + marker.len(), Seq::<u8>::empty())
}

/// What extracting the cursor from text bytes gives: the text without the
/// markers, and the cursor span (start, end) they stood for.
/// A caret `{||}` wins over selection edges; a lone `{|}` is left in place.
pub open spec fn extract_cursor_spec(b: Seq<u8>) -> (Seq<u8>, Option<(int, int)>) {
    match find_first(b, caret_marker()) {
        Some(i) => (remove_marker(b, i, caret_marker()), Some((i, i))),
        None => match find_first(b, edge_marker()) {
            None => (b, None),
            Some(s) => {
                let b1 = remove_marker(b, s, edge_marker());
                match find_first(b1, edge_marker()) {
                    None => (b, None),
                    Some(e) => (
                        remove_marker(b1, e, edge_marker()),
                        Some((if s <= e { s } else { e }, if s <= e { e } else { s })),
                    ),
                }
            },
        },
    }
}

/// What encoding a cursor into text bytes gives: a caret marker at an empty
/// cursor, otherwise an edge marker at each end of the selection.
pub open spec fn encode_cursor_spec(b: Seq<u8>, start: int, end: int) -> Seq<u8> {
    if start == end {
        b.subrange(0, start) + caret_marker() + b.subrange(start, b.len() as int)
    } else {
        b.subrange(0, start) + edge_marker() + b.subrange(start, end) + edge_marker()
            + b.subrange(end, b.len() as int)
    }
}

/// The first occurrence of a needle that starts with `{` is the first `{`
/// of the text at which it occurs.
proof fn lemma_first_brace_occurrence(hay: Seq<u8>, needle: Seq<u8>, k: int)
    requires
        needle.len() > 0,
        needle[0] == 0x7b,
        occurs_at(hay, needle, k),
        forall|j: int| 0 <= j < k ==> hay[j] != 0x7b,
    ensures
        find_first(hay, needle) == Some(k),
{
    lemma_find_from_props(hay, needle, 0);
    assert(hay.subrange(k, k + needle.len())[0] == hay[k]);
    match find_first(hay, needle) {
        Some(k2) => {
            if k2 < k {
                assert(hay.subrange(k2, k2 + needle.len())[0] == hay[k2]);
            }
        },
        None => {},
    }
}

/// Writing a cursor into a text without `{` and extracting it again gives
/// back the text and the cursor, ordered.
pub proof fn law_cursor_roundtrip(b: Seq<u8>, start: int, end: int)
    requires
        0 <= start <= end <= b.len(),
        forall|i: int| 0 <= i < b.len() ==> b[i] != 0x7b,
    ensures
        extract_cursor_spec(encode_cursor_spec(b, start, end)) == (b, Some((start, end))),
{
    let enc = encode_cursor_spec(b, start, end);
    let p0 = b.subrange(0, start);
    let p1 = b.subrange(start, end);
    let p2 = b.subrange(end, b.len() as int);
    if start == end {
        assert(enc.subrange(start, start + 4) =~= caret_marker());
        assert forall|j: int| 0 <= j < start implies enc[j] != 0x7b by {
            assert(enc[j] == b[j]);
        }
        lemma_first_brace_occurrence(enc, caret_marker(), start);
        assert(remove_marker(enc, start, caret_marker()) =~= b);
    } else {
        assert forall|j: int| !occurs_at(enc, caret_marker(), j) by {
            if occurs_at(enc, caret_marker(), j) {
                assert(enc.subrange(j, j + 4)[0] == enc[j]);
                assert(enc.subrange(j, j + 4)[2] == enc[j + 2]);
                if j < start {
                    assert(enc[j] == b[j]);
                } else if j == start {
                    assert(enc[j + 2] == 0x7d);
                } else if j < end + 3 {
                    assert(enc[j] == b[j - 3]);
                } else if j == end + 3 {
                    assert(enc[j + 2] == 0x7d);
                } else {
                    assert(enc[j] == b[j - 6]);
                }
            }
        }
        lemma_find_from_props(enc, caret_marker(), 0);
        assert(find_first(enc, caret_marker()) is None);
        assert(enc.subrange(start, start + 3) =~= edge_marker());
        assert forall|j: int| 0 <= j < start implies enc[j] != 0x7b by {
            assert(enc[j] == b[j]);
        }
        lemma_first_brace_occurrence(enc, edge_marker(), start);
        let b1 = remove_marker(enc, start, edge_marker());
        assert(b1 =~= p0 + p1 + edge_marker() + p2);
        assert(b1.subrange(end, end + 3) =~= edge_marker());
        assert forall|j: int| 0 <= j < end implies b1[j] != 0x7b by {
            assert(b1[j] == b[j]);
        }
        lemma_first_brace_occurrence(b1, edge_marker(), end);
        assert(remove_marker(b1, end, edge_marker()) =~= b);
    }
}

proof fn lemma_markers_ascii()
    ensures
        caret_marker()[0] <= 0x7f,
        caret_marker()[3] <= 0x7f,
        edge_marker()[0] <= 0x7f,
        edge_marker()[2] <= 0x7f,
        forall|i: int| 0 <= i < 4 ==> #[trigger] caret_marker()[i] <= 0x7f,
        forall|i: int| 0 <= i < 3 ==> #[trigger] edge_marker()[i] <= 0x7f,
{
}

impl TextChange {
    pub const CURSOR_EDGE: &'static str = "{|}";
    pub const CURSOR: &'static str = "{||}";

    /// Removes the cursor markers from `text` and reports the cursor they encode.
    pub fn try_extract_cursor(text: String) -> (r: (String, Option<ByteSpan>))
        ensures
            utf8_bytes(r.0@) == extract_cursor_spec(utf8_bytes(text@)).0,
            r.1 is None <==> extract_cursor_spec(utf8_bytes(text@)).1 is None,
            r.1 matches Some(c) ==> c.wf() && extract_cursor_spec(utf8_bytes(text@)).1 == Some(
                (c.start as int, c.end as int),
            ),
    {
        let ghost b = utf8_bytes(text@);
        proof {
            encode_utf8_valid_utf8(text@);
            lemma_markers_ascii();
        }
        let bytes = text.as_str().as_bytes();
        assert(bytes@ == b);
        let blen = bytes.len();
        let caret = caret_marker_bytes();
        let edge = edge_marker_bytes();
        let empty: Vec<u8> = Vec::new();
        match find_bytes(bytes, caret.as_slice(), 0) {
            Some(i) => {
                proof {
                    assert(caret@ == caret_marker());
                    assert(find_from(b, caret_marker(), 0) == Some(i as int));
                    lemma_find_from_props(b, caret_marker(), 0);
                    assert(occurs_at(b, caret_marker(), i as int));
                    assert(caret_marker().len() == 4);
                    lemma_remove_ascii_occurrence(b, caret_marker(), i as int);
                    assert(i + 4 <= blen);
                }
                let v = splice_bytes(bytes, i, i + 4, empty.as_slice());
                assert(empty@ =~= Seq::<u8>::empty());
                (string_from_utf8(v).unwrap(), Some(ByteSpan::new(i, i)))
            },
            None => {
                match find_bytes(bytes, edge.as_slice(), 0) {
                    None => (text, None),
                    Some(s) => {
                        proof {
                            lemma_find_from_props(b, edge_marker(), 0);
                            lemma_remove_ascii_occurrence(b, edge_marker(), s as int);
                            assert(s + 3 <= blen);
                        }
                        assert(empty@ =~= Seq::<u8>::empty());
                        let v1 = splice_bytes(bytes, s, s + 3, empty.as_slice());
                        match find_bytes(v1.as_slice(), edge.as_slice(), 0) {
                            None => (text, None),
                            Some(e) => {
                                proof {
                                    lemma_find_from_props(v1@, edge_marker(), 0);
                                    lemma_remove_ascii_occurrence(v1@, edge_marker(), e as int);
                                }
                                let v2 = splice_bytes(v1.as_slice(), e, e + 3, empty.as_slice());
                                (string_from_utf8(v2).unwrap(), Some(ByteSpan::new(s, e)))
                            },
                        }
                    },
                }
            },
        }
    }

    /// Writes `cursor` into `text` as markers: a caret at an empty cursor,
    /// otherwise an edge marker at each end of the selection.
    pub fn encode_cursor(text: &str, cursor: UnOrderedByteSpan) -> (r: String)
        requires
            max_usize(cursor.start, cursor.end) <= utf8_bytes(text@).len(),
            is_char_boundary(utf8_bytes(text@), cursor.start as int),
            is_char_boundary(utf8_bytes(text@), cursor.end as int),
        ensures
            utf8_bytes(r@) == encode_cursor_spec(
                utf8_bytes(text@),
                min_usize(cursor.start, cursor.end) as int,
                max_usize(cursor.start, cursor.end) as int,
            ),
    {
        let ghost b = utf8_bytes(text@);
        proof {
            encode_utf8_valid_utf8(text@);
            lemma_markers_ascii();
            lemma_ascii_valid(caret_marker());
            lemma_ascii_valid(edge_marker());
        }
        let bytes = text.as_bytes();
        assert(bytes@ == b);
        let cursor = cursor.ordered();
        let (s, e) = (cursor.start, cursor.end);
        if cursor.is_empty() {
            let caret = caret_marker_bytes();
            let v = splice_bytes(bytes, s, s, caret.as_slice());
            proof {
                lemma_splice_valid(b, s as int, s as int, caret_marker());
            }
            assert(v@ =~= encode_cursor_spec(b, s as int, e as int));
            string_from_utf8(v).unwrap()
        } else {
            let edge = edge_marker_bytes();
            let v1 = splice_bytes(bytes, e, e, edge.as_slice());
            let v2 = splice_bytes(v1.as_slice(), s, s, edge.as_slice());
            proof {
                lemma_three_pieces_valid(b, s as int, e as int);
                let p0 = b.subrange(0, s as int);
                let p1 = b.subrange(s as int, e as int);
                let p2 = b.subrange(e as int, b.len() as int);
                valid_utf8_concat(p0, edge_marker());
                valid_utf8_concat(p0 + edge_marker(), p1);
                valid_utf8_concat(p0 + edge_marker() + p1, edge_marker());
                valid_utf8_concat(p0 + edge_marker() + p1 + edge_marker(), p2);
                assert(v2@ =~= p0 + edge_marker() + p1 + edge_marker() + p2);
            }
            assert(v2@ =~= encode_cursor_spec(b, s as int, e as int));
            string_from_utf8(v2).unwrap()
        }
    }
}

} // verus!
