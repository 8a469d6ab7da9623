//! Live JavaScript blocks in notes: the language tags of source blocks
//! (`js`, `js <n>`) and of their output blocks (`js <n> > #<hash>`), the
//! hash of a block's source, and the text of an output block.
use vstd::prelude::*;
use vstd::utf8::*;
use std::hash::{Hash, Hasher};
use crate::byte_span::ByteSpan;
use crate::app_core::{is_blank, is_blank_text};
use crate::text_bytes::{
    utf8_bytes,
    find_from,
    find_first,
    find_bytes,
    sub_string,
    append_str,
    bytes_start_with,
    starts_with_bytes,
    lemma_find_from_props,
    lemma_ascii_boundaries,
    lemma_ascii_text,
};
use crate::num_text::{
    parse_u32,
    parse_u16_hex,
    parse_uint_spec,
    format_u32,
    format_u16_hex,
    radix_digits,
    lemma_parse_format_roundtrip,
    lemma_radix_digits_value,
};

verus! {

broadcast use vstd::seq::group_seq_axioms;

/// A 16-bit hash of a block's source, written in hexadecimal.
#[derive(PartialEq, Eq, Structural, Debug, Clone, Copy)]
pub struct SourceHash(pub u16);

/// The number that ties an output block to its source block.
#[derive(PartialEq, Eq, Structural, Debug, Clone, Copy)]
pub struct BlockId(pub u32);

/// What evaluating a block gave: the text to show and the language tag of
/// the output block.
pub struct BlockEvalResult {
    pub body: String,
    pub output_lang: String,
}

/// The language tag of a JavaScript code block: a source block, numbered or
/// not yet, or the output block of a numbered source block.
#[derive(Debug, PartialEq, Eq, Structural, Clone, Copy)]
pub enum JSBlockLang {
    Source(Option<BlockId>),
    Output(BlockId, SourceHash),
}

/// The value std's `DefaultHasher` gives for a string.
pub uninterp spec fn default_str_hash(s: Seq<char>) -> u64;

/// Hashes a string with std's `DefaultHasher` (a fixed-key SipHash): the
/// result is named, not stated.
#[verifier::external_body]
fn default_hash(code: &str) -> (r: u64)
    ensures
        r == default_str_hash(code@),
{
    let mut s = std::hash::DefaultHasher::new();
    code.hash(&mut s);
    s.finish()
}

impl SourceHash {
    /// Reads a hash written in hexadecimal (as `u16::from_str_radix`).
    pub fn parse(hex: &str) -> (r: Option<Self>)
        ensures
            r matches Some(h) ==> parse_uint_spec(utf8_bytes(hex@), 16, u16::MAX as nat) == Some(
                h.0 as nat,
            ),
            r is None ==> parse_uint_spec(utf8_bytes(hex@), 16, u16::MAX as nat) is None,
    {
        match parse_u16_hex(hex) {
            Some(v) => Some(SourceHash(v)),
            None => None,
        }
    }

    /// The hash of a block's source: the low 16 bits of its `DefaultHasher` value.
    pub fn from(code: &str) -> (r: Self)
        ensures
            r.0 == (default_str_hash(code@) as u16),
    {
        SourceHash(default_hash(code) as u16)
    }

    /// The hash in lowercase hexadecimal, without leading zeros.
    pub fn to_string(&self) -> (r: String)
        ensures
            utf8_bytes(r@) == radix_digits(self.0 as nat, 16),
    {
        format_u16_hex(self.0)
    }
}

impl BlockId {
    /// The number in decimal.
    pub fn to_string(&self) -> (r: String)
        ensures
            utf8_bytes(r@) == radix_digits(self.0 as nat, 10),
    {
        format_u32(self.0)
    }
}

/// The bytes of `js`.
pub open spec fn js_tag() -> Seq<u8> {
    seq![0x6au8, 0x73u8]
}

/// The bytes of `js `.
pub open spec fn js_space() -> Seq<u8> {
    seq![0x6au8, 0x73u8, 0x20u8]
}

/// The bytes of ` > #`, between a block number and its source hash.
pub open spec fn output_marker() -> Seq<u8> {
    seq![0x20u8, 0x3eu8, 0x20u8, 0x23u8]
}

/// The language tag a code block's tag bytes stand for, if any.
pub open spec fn js_lang_spec(b: Seq<u8>) -> Option<JSBlockLang> {
    if b == js_tag() {
        Some(JSBlockLang::Source(None))
    } else if bytes_start_with(b, js_space()) {
        let rest = b.subrange(3, b.len() as int);
        match find_first(rest, output_marker()) {
            Some(k) => match parse_uint_spec(rest.subrange(0, k), 10, u32::MAX as nat) {
                Some(id) => match parse_uint_spec(
                    rest.subrange(k + 4, rest.len() as int),
                    16,
                    u16::MAX as nat,
                ) {
                    Some(h) => Some(JSBlockLang::Output(BlockId(id as u32), SourceHash(h as u16))),
                    None => None,
                },
                None => None,
            },
            None => match parse_uint_spec(rest, 10, u32::MAX as nat) {
                Some(id) => Some(JSBlockLang::Source(Some(BlockId(id as u32)))),
                None => None,
            },
        }
    } else {
        None
    }
}

/// The tag of the numbered source block `id`.
pub open spec fn source_tag(id: BlockId) -> Seq<u8> {
    js_space() + radix_digits(id.0 as nat, 10)
}

/// The tag of the output block of `id` for a source with hash `hash`.
pub open spec fn output_tag(id: BlockId, hash: SourceHash) -> Seq<u8> {
    js_space() + radix_digits(id.0 as nat, 10) + output_marker() + radix_digits(hash.0 as nat, 16)
}

proof fn lemma_tag_literals()
    ensures
        utf8_bytes("js"@) == js_tag(),
        utf8_bytes("js "@) == js_space(),
        utf8_bytes(" > #"@) == output_marker(),
{
    reveal_strlit("js");
    reveal_strlit("js ");
    reveal_strlit(" > #");
    lemma_ascii_text("js"@, js_tag());
    lemma_ascii_text("js "@, js_space());
    lemma_ascii_text(" > #"@, output_marker());
}

impl JSBlockLang {
    /// Reads the language tag of a code block: `js` is a source block not
    /// numbered yet, `js <n>` the source block `n`, `js <n> > #<hash>` the
    /// output block of `n` for a source with that hexadecimal hash; any other
    /// tag is no JavaScript block.
    pub fn parse(lang: &str) -> (r: Option<JSBlockLang>)
        ensures
            r == js_lang_spec(utf8_bytes(lang@)),
    {
        proof {
            lemma_tag_literals();
            encode_utf8_valid_utf8(lang@);
        }
        let b = lang.as_bytes();
        let ghost bs = utf8_bytes(lang@);
        assert(b@ == bs);
        if b.len() == 2 && starts_with_bytes(b, "js".as_bytes()) {
            assert(bs =~= js_tag());
            return Some(JSBlockLang::Source(None));
        }
        assert(bs != js_tag()) by {
            if bs == js_tag() {
                assert(bs.subrange(0, 2) =~= js_tag());
            }
        }
        if !starts_with_bytes(b, "js ".as_bytes()) {
            return None;
        }
        let n = b.len();
        proof {
            assert(bs[2] == 0x20u8);
            lemma_ascii_boundaries(bs, 2);
            is_char_boundary_start_end_of_seq(bs);
        }
        let rest = sub_string(lang, 3, n);
        let rb = rest.as_str().as_bytes();
        let ghost rs = bs.subrange(3, n as int);
        assert(rb@ == rs);
        proof {
            encode_utf8_valid_utf8(rest@);
            is_char_boundary_start_end_of_seq(rs);
        }
        match find_bytes(rb, " > #".as_bytes(), 0) {
            Some(k) => {
                proof {
                    lemma_find_from_props(rs, output_marker(), 0);
                    assert(rs.subrange(k as int, k + 4) == output_marker());
                    assert(rs[k as int] == 0x20u8);
                    assert(rs[k + 3] == 0x23u8);
                    lemma_ascii_boundaries(rs, k as int);
                    lemma_ascii_boundaries(rs, k + 3);
                }
                let id_part = sub_string(rest.as_str(), 0, k);
                match parse_u32(id_part.as_str()) {
                    Some(id) => {
                        let hash_part = sub_string(rest.as_str(), k + 4, rb.len());
                        match SourceHash::parse(hash_part.as_str()) {
                            Some(hash) => Some(JSBlockLang::Output(BlockId(id), hash)),
                            None => None,
                        }
                    },
                    None => None,
                }
            },
            None => {
                match parse_u32(rest.as_str()) {
                    Some(id) => Some(JSBlockLang::Source(Some(BlockId(id)))),
                    None => None,
                }
            },
        }
    }

    /// The tag of the numbered source block `id`: `js <id>`.
    pub fn source_lang_with_id(id: BlockId) -> (r: String)
        ensures
            utf8_bytes(r@) == source_tag(id),
    {
        proof {
            lemma_tag_literals();
        }
        let mut s = String::new();
        append_str(&mut s, "js ");
        let digits = id.to_string();
        append_str(&mut s, digits.as_str());
        assert(utf8_bytes(Seq::<char>::empty()) =~= Seq::<u8>::empty());
        assert(utf8_bytes(s@) =~= source_tag(id));
        s
    }

    /// The tag of the output block of `id`: `js <id> > #<hash>`.
    pub fn output_lang(id: BlockId, hash: SourceHash) -> (r: String)
        ensures
            utf8_bytes(r@) == output_tag(id, hash),
    {
        proof {
            lemma_tag_literals();
        }
        let mut s = String::new();
        append_str(&mut s, "js ");
        let digits = id.to_string();
        append_str(&mut s, digits.as_str());
        append_str(&mut s, " > #");
        let hex = hash.to_string();
        append_str(&mut s, hex.as_str());
        assert(utf8_bytes(Seq::<char>::empty()) =~= Seq::<u8>::empty());
        assert(utf8_bytes(s@) =~= output_tag(id, hash));
        s
    }
}

// ---- output blocks ----

/// The bytes of three backticks.
pub open spec fn fence() -> Seq<u8> {
    seq![0x60u8, 0x60u8, 0x60u8]
}

/// The text of an output block: a fence with the output tag, the body on
/// its own lines, and a closing fence.
pub open spec fn output_block_spec(lang: Seq<u8>, body: Seq<u8>) -> Seq<u8> {
    fence() + lang + seq![0x0au8] + body + seq![0x0au8] + fence()
}

/// Writes the output block of an evaluation.
pub fn print_output_block(eval_result: BlockEvalResult) -> (r: String)
    ensures
        utf8_bytes(r@) == output_block_spec(
            utf8_bytes(eval_result.output_lang@),
            utf8_bytes(eval_result.body@),
        ),
{
    proof {
        reveal_strlit("```");
        reveal_strlit("\n");
        lemma_ascii_text("```"@, fence());
        lemma_ascii_text("\n"@, seq![0x0au8]);
    }
    let mut s = String::new();
    append_str(&mut s, "```");
    append_str(&mut s, eval_result.output_lang.as_str());
    append_str(&mut s, "\n");
    append_str(&mut s, eval_result.body.as_str());
    append_str(&mut s, "\n");
    append_str(&mut s, "```");
    assert(utf8_bytes(Seq::<char>::empty()) =~= Seq::<u8>::empty());
    assert(utf8_bytes(s@) =~= output_block_spec(
        utf8_bytes(eval_result.output_lang@),
        utf8_bytes(eval_result.body@),
    ));
    s
}

pub open spec fn langs_view(langs: Seq<String>) -> Seq<Seq<u8>> {
    Seq::new(langs.len(), |i: int| utf8_bytes(langs[i]@))
}

/// The largest number of a numbered source block among the first `n` tags
/// (zero when there is none).
pub open spec fn max_source_id(langs: Seq<Seq<u8>>, n: int) -> u32
    decreases n,
{
    if n <= 0 {
        0
    } else {
        let m = max_source_id(langs, n - 1);
        match js_lang_spec(langs[n - 1]) {
            Some(JSBlockLang::Source(Some(id))) => if id.0 > m {
                id.0
            } else {
                m
            },
            _ => m,
        }
    }
}

/// Every numbered source block among the first `n` tags has a number at
/// most `max_source_id`, and that number is zero or the number of one of them.
pub proof fn law_max_source_id_is_the_largest(langs: Seq<Seq<u8>>, n: int)
    requires
        0 <= n <= langs.len(),
    ensures
        forall|k: int|
            0 <= k < n ==> (#[trigger] js_lang_spec(langs[k]) matches Some(JSBlockLang::Source(Some(id)))
                ==> id.0 <= max_source_id(langs, n)),
        max_source_id(langs, n) == 0 || exists|k: int|
            0 <= k < n && #[trigger] js_lang_spec(langs[k]) == Some(
                JSBlockLang::Source(Some(BlockId(max_source_id(langs, n)))),
            ),
    decreases n,
{
    if n > 0 {
        law_max_source_id_is_the_largest(langs, n - 1);
        let m = max_source_id(langs, n - 1);
        match js_lang_spec(langs[n - 1]) {
            Some(JSBlockLang::Source(Some(id))) => {
                if id.0 > m {
                    assert(js_lang_spec(langs[n - 1]) == Some(JSBlockLang::Source(Some(BlockId(max_source_id(langs, n))))));
                } else if m != 0 {
                    let k = choose|k: int| 0 <= k < n - 1 && #[trigger] js_lang_spec(langs[k]) == Some(
                        JSBlockLang::Source(Some(BlockId(m))),
                    );
                    assert(js_lang_spec(langs[k]) == Some(JSBlockLang::Source(Some(BlockId(max_source_id(langs, n))))));
                }
            },
            _ => {
                if m != 0 {
                    let k = choose|k: int| 0 <= k < n - 1 && #[trigger] js_lang_spec(langs[k]) == Some(
                        JSBlockLang::Source(Some(BlockId(m))),
                    );
                    assert(js_lang_spec(langs[k]) == Some(JSBlockLang::Source(Some(BlockId(max_source_id(langs, n))))));
                }
            },
        }
    }
}

/// The number for a source block not numbered yet: one more than the
/// largest number of a source block among the code block tags of the note,
/// so larger than the number of every numbered source block.
pub fn find_next_available_block_id(code_block_langs: &Vec<String>) -> (r: BlockId)
    requires
        max_source_id(langs_view(code_block_langs@), code_block_langs@.len() as int) < u32::MAX,
    ensures
        r.0 == max_source_id(langs_view(code_block_langs@), code_block_langs@.len() as int) + 1,
        forall|k: int|
            0 <= k < code_block_langs@.len() ==> (#[trigger] js_lang_spec(langs_view(code_block_langs@)[k])
                matches Some(JSBlockLang::Source(Some(id))) ==> r.0 > id.0),
{
    proof {
        law_max_source_id_is_the_largest(langs_view(code_block_langs@), code_block_langs@.len() as int);
    }
    let ghost lv = langs_view(code_block_langs@);
    let mut max_id: u32 = 0;
    let mut i: usize = 0;
    while i < code_block_langs.len()
        invariant
            i <= code_block_langs@.len(),
            lv == langs_view(code_block_langs@),
            max_id == max_source_id(lv, i as int),
        decreases code_block_langs@.len() - i,
    {
        match JSBlockLang::parse(code_block_langs[i].as_str()) {
            Some(JSBlockLang::Source(Some(block_id))) => {
                if block_id.0 > max_id {
                    max_id = block_id.0;
                }
            },
            _ => {},
        }
        i = i + 1;
    }
    BlockId(max_id + 1)
}

pub open spec fn blocks_view(blocks: Seq<(ByteSpan, String)>) -> Seq<(ByteSpan, Seq<u8>)> {
    Seq::new(blocks.len(), |i: int| (blocks[i].0, utf8_bytes(blocks[i].1@)))
}

/// The first code block, from index `i` on, that is an output block of
/// `target`, with the source hash its tag records.
pub open spec fn find_output_spec(blocks: Seq<(ByteSpan, Seq<u8>)>, target: BlockId, i: int) -> Option<
    (ByteSpan, SourceHash),
>
    decreases blocks.len() - i,
{
    if i < 0 || i >= blocks.len() {
        None
    } else {
        match js_lang_spec(blocks[i].1) {
            Some(JSBlockLang::Output(id, hash)) if id == target => Some((blocks[i].0, hash)),
            _ => find_output_spec(blocks, target, i + 1),
        }
    }
}

/// Finds the output block of the source block `target_id` among the code
/// blocks of a note (each given by its span and its tag), in the order they
/// come, with the source hash its tag records.
pub fn find_js_output_block_by_id(code_blocks: &Vec<(ByteSpan, String)>, target_id: BlockId) -> (r:
    Option<(ByteSpan, SourceHash)>)
    ensures
        r == find_output_spec(blocks_view(code_blocks@), target_id, 0),
{
    let ghost bv = blocks_view(code_blocks@);
    let mut i: usize = 0;
    while i < code_blocks.len()
        invariant
            i <= code_blocks@.len(),
            bv == blocks_view(code_blocks@),
            find_output_spec(bv, target_id, 0) == find_output_spec(bv, target_id, i as int),
        decreases code_blocks@.len() - i,
    {
        let (span, lang) = (&code_blocks[i].0, &code_blocks[i].1);
        match JSBlockLang::parse(lang.as_str()) {
            Some(JSBlockLang::Output(output_block_id, hash)) => {
                if output_block_id == target_id {
                    return Some((*span, hash));
                }
            },
            _ => {},
        }
        i = i + 1;
    }
    None
}

// ---- laws ----

proof fn lemma_find_first_at(hay: Seq<u8>, needle: Seq<u8>, i: int, k: int)
    requires
        0 <= i <= k,
        crate::text_bytes::occurs_at(hay, needle, k),
        forall|j: int| i <= j < k ==> !crate::text_bytes::occurs_at(hay, needle, j),
    ensures
        find_from(hay, needle, i) == Some(k),
    decreases k - i,
{
    if i < k {
        lemma_find_first_at(hay, needle, i + 1, k);
    }
}

/// Decimal digits hold no space.
proof fn lemma_digits_no_space(n: nat)
    ensures
        forall|i: int| 0 <= i < radix_digits(n, 10).len() ==> #[trigger] radix_digits(n, 10)[i] != 0x20u8,
{
    lemma_radix_digits_value(n, 10);
    assert forall|i: int| 0 <= i < radix_digits(n, 10).len() implies #[trigger] radix_digits(n, 10)[i]
        != 0x20u8 by {
        assert(crate::num_text::digit_value(radix_digits(n, 10)[i], 10) is Some);
    }
}

/// The tag written for an output block is read back as that output block.
pub proof fn law_output_tag_roundtrip(id: BlockId, hash: SourceHash)
    ensures
        js_lang_spec(output_tag(id, hash)) == Some(JSBlockLang::Output(id, hash)),
{
    let d = radix_digits(id.0 as nat, 10);
    let h = radix_digits(hash.0 as nat, 16);
    let b = output_tag(id, hash);
    lemma_radix_digits_value(id.0 as nat, 10);
    lemma_radix_digits_value(hash.0 as nat, 16);
    lemma_digits_no_space(id.0 as nat);
    lemma_parse_format_roundtrip(id.0 as nat, 10, u32::MAX as nat);
    lemma_parse_format_roundtrip(hash.0 as nat, 16, u16::MAX as nat);
    assert(b != js_tag()) by {
        assert(b.len() > 2);
    }
    assert(b.subrange(0, 3) =~= js_space());
    let rest = b.subrange(3, b.len() as int);
    assert(rest =~= d + output_marker() + h);
    let k = d.len() as int;
    assert(rest.subrange(k, k + 4) =~= output_marker());
    assert forall|j: int| 0 <= j < k implies !crate::text_bytes::occurs_at(rest, output_marker(), j) by {
        assert(rest[j] == d[j]);
        if crate::text_bytes::occurs_at(rest, output_marker(), j) {
            assert(rest.subrange(j, j + 4)[0] == rest[j]);
        }
    }
    lemma_find_first_at(rest, output_marker(), 0, k);
    assert(rest.subrange(0, k) =~= d);
    assert(rest.subrange(k + 4, rest.len() as int) =~= h);
}

/// The tag written for a numbered source block is read back as that block.
pub proof fn law_source_tag_roundtrip(id: BlockId)
    ensures
        js_lang_spec(source_tag(id)) == Some(JSBlockLang::Source(Some(id))),
{
    let d = radix_digits(id.0 as nat, 10);
    let b = source_tag(id);
    lemma_radix_digits_value(id.0 as nat, 10);
    lemma_digits_no_space(id.0 as nat);
    lemma_parse_format_roundtrip(id.0 as nat, 10, u32::MAX as nat);
    assert(b != js_tag()) by {
        assert(b.len() > 2);
    }
    assert(b.subrange(0, 3) =~= js_space());
    let rest = b.subrange(3, b.len() as int);
    assert(rest =~= d);
    lemma_find_from_props(rest, output_marker(), 0);
    if find_first(rest, output_marker()) is Some {
        let j = find_first(rest, output_marker())->0;
        assert(rest.subrange(j, j + 4)[0] == rest[j]);
    }
}

/// A hash written out is read back as the same hash.
pub proof fn law_source_hash_roundtrip(hash: SourceHash)
    ensures
        parse_uint_spec(radix_digits(hash.0 as nat, 16), 16, u16::MAX as nat) == Some(hash.0 as nat),
{
    lemma_parse_format_roundtrip(hash.0 as nat, 16, u16::MAX as nat);
}


/// Whether a live source block is evaluated again: not when its code is
/// blank, not when it has no output block to write to, and otherwise exactly
/// when the output block's recorded hash differs from the code's hash. Gives
/// the code's hash to record when it is.
pub fn live_block_update(code: &str, output_hash: Option<SourceHash>) -> (r: Option<SourceHash>)
    ensures
        r is Some <==> (!is_blank(code@) && (output_hash matches Some(h) && h.0 != (default_str_hash(code@) as u16))),
        r matches Some(h) ==> h.0 == (default_str_hash(code@) as u16),
{
    if is_blank_text(code) {
        return None;
    }
    let source_hash = SourceHash::from(code);
    match output_hash {
        None => None,
        Some(existing) => {
            if existing.0 != source_hash.0 {
                Some(source_hash)
            } else {
                None
            }
        },
    }
}

} // verus!
