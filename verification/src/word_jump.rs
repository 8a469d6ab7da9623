//! Word-jump navigation: every word of a note gets a two-character label,
//! nearest words to the cursor first, and typing a label jumps to its word.
use vstd::prelude::*;
use vstd::utf8::*;
use crate::byte_span::UnOrderedByteSpan;
use crate::text_bytes::{utf8_bytes, lemma_three_pieces_valid, string_from_utf8};
use smallvec::SmallVec;

verus! {

broadcast use vstd::seq::group_seq_axioms;

/// A two-character jump label.
#[derive(Debug, PartialEq, Eq, Clone, Copy)]
pub struct JumpLabel(pub [char; 2]);

#[derive(Debug, PartialEq, Eq, Structural, Clone, Copy)]
pub enum JumpLabelMatchResult {
    NoMatch,
    /// Number of characters matched so far.
    Possible(usize),
    FullMatch,
}

/// A word that can be jumped to and the label that selects it.
#[derive(Debug, Clone, Copy, PartialEq, Eq)]
pub struct WordJumpAddress {
    pub span: UnOrderedByteSpan,
    pub label: JumpLabel,
}

/// Keys typed so far while choosing a jump label, held in a small vector.
#[verifier::external_body]
pub struct JumpCharSequence {
    keys: SmallVec<[char; 3]>,
}

/// The characters held by a sequence of typed keys.
pub uninterp spec fn small_chars(v: JumpCharSequence) -> Seq<char>;

/// A small vector holding a copy of `s` (smallvec `SmallVec::from_slice`).
#[verifier::external_body]
fn small_chars_from_slice(s: &[char]) -> (r: JumpCharSequence)
    ensures
        small_chars(r) == s@,
{
    JumpCharSequence { keys: SmallVec::from_slice(s) }
}

/// The number of characters held (smallvec `SmallVec::len`).
#[verifier::external_body]
fn small_chars_len(v: &JumpCharSequence) -> (n: usize)
    ensures
        n == small_chars(*v).len(),
{
    v.keys.len()
}

/// Appends a character at the end (smallvec `SmallVec::push`).
#[verifier::external_body]
fn small_chars_push(v: &mut JumpCharSequence, c: char)
    ensures
        small_chars(*final(v)) == small_chars(*old(v)).push(c),
{
    v.keys.push(c)
}

/// The characters held, as a slice (smallvec's `Deref` to a slice).
#[verifier::external_body]
fn small_chars_as_slice(v: &JumpCharSequence) -> (r: &[char])
    ensures
        r@ == small_chars(*v),
{
    v.keys.as_slice()
}

impl JumpCharSequence {
    /// The typed keys, oldest first.
    pub fn as_slice(&self) -> (r: &[char])
        ensures
            r@ == small_chars(*self),
    {
        small_chars_as_slice(self)
    }
}

/// Records a keystroke: the key is appended while fewer than two keys have
/// been typed; afterwards the sequence stays as it is.
pub fn add_keystroke_to_sequence(current_sequence: &[char], new_key: char) -> (r: JumpCharSequence)
    ensures
        current_sequence@.len() < 2 ==> small_chars(r) == current_sequence@.push(new_key),
        current_sequence@.len() >= 2 ==> small_chars(r) == current_sequence@,
{
    let mut sequence = small_chars_from_slice(current_sequence);
    if small_chars_len(&sequence) < 2 {
        small_chars_push(&mut sequence, new_key);
    }
    sequence
}

/// Byte spans of the successive non-overlapping matches of a regular
/// expression in a text (regex `Regex::new` and `Regex::find_iter`), or `None`
/// when the pattern does not compile.
pub uninterp spec fn regex_find_spans(pattern: Seq<char>, haystack: Seq<char>) -> Option<Seq<(usize, usize)>>;

/// Runs the regular expression `pattern` over `haystack` (regex
/// `Regex::new`, `Regex::find_iter`, `Match::start`/`Match::end`). The spans are
/// named by `regex_find_spans`; besides, each lies within the text on
/// character boundaries (the crate slices the text with them) and each ends at
/// or before the next one starts (matches are successive and non-overlapping).
#[verifier::external_body]
fn regex_find_all(pattern: &str, haystack: &str) -> (r: Option<Vec<(usize, usize)>>)
    ensures
        r is None <==> regex_find_spans(pattern@, haystack@) is None,
        r matches Some(v) ==> regex_find_spans(pattern@, haystack@) == Some(v@),
        r matches Some(v) ==> forall|i: int|
            0 <= i < v@.len() ==> {
                &&& (#[trigger] v@[i]).0 <= v@[i].1 <= utf8_bytes(haystack@).len()
                &&& is_char_boundary(utf8_bytes(haystack@), v@[i].0 as int)
                &&& is_char_boundary(utf8_bytes(haystack@), v@[i].1 as int)
            },
        r matches Some(v) ==> forall|i: int|
            0 <= i < v@.len() - 1 ==> (#[trigger] v@[i]).1 <= v@[i + 1].0,
{
    match regex::Regex::new(pattern) {
        Ok(re) => Some(re.find_iter(haystack).map(|m| (m.start(), m.end())).collect()),
        Err(_) => None,
    }
}

/// Byte spans of the words of a text: the matches of the word pattern, runs
/// of at least two Unicode letters or numbers.
pub open spec fn word_spans(text: Seq<char>) -> Seq<(usize, usize)> {
    match regex_find_spans("[\\p{L}\\p{N}]{2,}"@, text) {
        Some(v) => v,
        None => Seq::empty(),
    }
}

/// The words of `text`, each with its byte span, in order of appearance:
/// the spans lie on character boundaries of the text, and each ends at or
/// before the next one starts.
pub fn iterate_over_words(text: &str) -> (r: Vec<(String, UnOrderedByteSpan)>)
    ensures
        r@.len() == word_spans(text@).len(),
        forall|i: int|
            0 <= i < r@.len() ==> {
                &&& (#[trigger] r@[i]).1.start <= r@[i].1.end <= utf8_bytes(text@).len()
                &&& is_char_boundary(utf8_bytes(text@), r@[i].1.start as int)
                &&& is_char_boundary(utf8_bytes(text@), r@[i].1.end as int)
            },
        forall|i: int| 0 <= i < r@.len() - 1 ==> (#[trigger] r@[i]).1.end <= r@[i + 1].1.start,
        forall|i: int|
            0 <= i < r@.len() ==> {
                &&& (#[trigger] r@[i]).1.start == word_spans(text@)[i].0
                &&& r@[i].1.end == word_spans(text@)[i].1
                &&& utf8_bytes(r@[i].0@) == utf8_bytes(text@).subrange(
                    word_spans(text@)[i].0 as int,
                    word_spans(text@)[i].1 as int,
                )
            },
{
    let found = regex_find_all("[\\p{L}\\p{N}]{2,}", text);
    let mut r: Vec<(String, UnOrderedByteSpan)> = Vec::new();
    let spans = match found {
        Some(v) => v,
        None => {
            return r;
        },
    };
    let bytes = text.as_bytes();
    proof {
        encode_utf8_valid_utf8(text@);
    }
    let mut i: usize = 0;
    while i < spans.len()
        invariant
            i <= spans@.len(),
            bytes@ == utf8_bytes(text@),
            valid_utf8(bytes@),
            word_spans(text@) == spans@,
            forall|k: int|
                0 <= k < spans@.len() ==> {
                    &&& (#[trigger] spans@[k]).0 <= spans@[k].1 <= utf8_bytes(text@).len()
                    &&& is_char_boundary(utf8_bytes(text@), spans@[k].0 as int)
                    &&& is_char_boundary(utf8_bytes(text@), spans@[k].1 as int)
                },
            forall|k: int| 0 <= k < spans@.len() - 1 ==> (#[trigger] spans@[k]).1 <= spans@[k + 1].0,
            r@.len() == i,
            forall|k: int|
                0 <= k < i ==> {
                    &&& (#[trigger] r@[k]).1.start == spans@[k].0
                    &&& r@[k].1.end == spans@[k].1
                    &&& utf8_bytes(r@[k].0@) == utf8_bytes(text@).subrange(
                        spans@[k].0 as int,
                        spans@[k].1 as int,
                    )
                },
        decreases spans@.len() - i,
    {
        let (s, e) = spans[i];
        let mut piece: Vec<u8> = Vec::new();
        let mut j = s;
        while j < e
            invariant
                s <= j <= e <= bytes@.len(),
                piece@ == bytes@.subrange(s as int, j as int),
            decreases e - j,
        {
            piece.push(bytes[j]);
            j = j + 1;
            assert(piece@ =~= bytes@.subrange(s as int, j as int));
        }
        proof {
            lemma_three_pieces_valid(bytes@, s as int, e as int);
        }
        let word = string_from_utf8(piece).unwrap();
        r.push((word, UnOrderedByteSpan::new(s, e)));
        i = i + 1;
    }
    r
}

/// The word spans of `text` as cursor-free spans.
pub open spec fn word_span_seq(text: Seq<char>) -> Seq<UnOrderedByteSpan> {
    word_spans(text).map_values(|p: (usize, usize)| UnOrderedByteSpan { start: p.0, end: p.1 })
}

/// Labels the words of `text` around the cursor (see [`assign_jump_labels`]);
/// `None` when the text has no words.
pub fn create_jump_points(
    text: &str,
    cursor: UnOrderedByteSpan,
    jump_symbols: &[char],
) -> (r: Option<Vec<WordJumpAddress>>)
    requires
        jump_symbols@.len() >= 1,
        jump_symbols@.len() * jump_symbols@.len() <= usize::MAX,
    ensures
        word_spans(text@).len() == 0 <==> r is None,
        r matches Some(v) ==> v@ == jump_points_spec(
            word_span_seq(text@),
            cursor.start as int,
            jump_symbols@,
        ),
{
    let words = iterate_over_words(text);
    let mut spans: Vec<UnOrderedByteSpan> = Vec::new();
    let mut i: usize = 0;
    while i < words.len()
        invariant
            i <= words@.len(),
            words@.len() == word_spans(text@).len(),
            forall|k: int|
                0 <= k < words@.len() ==> (#[trigger] words@[k]).1.start == word_spans(text@)[k].0
                    && words@[k].1.end == word_spans(text@)[k].1,
            spans@ == word_span_seq(text@).subrange(0, i as int),
        decreases words@.len() - i,
    {
        spans.push(words[i].1);
        i = i + 1;
        assert(spans@ =~= word_span_seq(text@).subrange(0, i as int));
    }
    assert(spans@ =~= word_span_seq(text@));
    assign_jump_labels(&spans, cursor, jump_symbols)
}

/// The first jump whose label fully matches a two-key sequence; `None` while
/// fewer or more than two keys are typed, or when no label matches.
pub fn find_matching_jump(jumps: &[WordJumpAddress], current_sequence: &[char]) -> (r: Option<
    WordJumpAddress,
>)
    ensures
        r matches Some(j) ==> current_sequence@.len() == 2 && exists|i: int|
            0 <= i < jumps@.len() && jumps@[i] == j && j.label.match_spec(current_sequence@)
                == JumpLabelMatchResult::FullMatch && forall|k: int|
                0 <= k < i ==> (#[trigger] jumps@[k]).label.match_spec(current_sequence@)
                    != JumpLabelMatchResult::FullMatch,
        r is None ==> current_sequence@.len() != 2 || forall|k: int|
            0 <= k < jumps@.len() ==> (#[trigger] jumps@[k]).label.match_spec(current_sequence@)
                != JumpLabelMatchResult::FullMatch,
        r matches Some(j) ==> current_sequence@ == seq![j.label.first(), j.label.second()],
        r is None ==> forall|k: int|
            0 <= k < jumps@.len() ==> current_sequence@ != seq![
                (#[trigger] jumps@[k]).label.first(),
                jumps@[k].label.second(),
            ],
{
    proof {
        assert forall|k: int| 0 <= k < jumps@.len() implies (#[trigger] jumps@[k]).label.match_spec(current_sequence@)
            == JumpLabelMatchResult::FullMatch <==> current_sequence@ == seq![jumps@[k].label.first(), jumps@[k].label.second()] by {
            jumps@[k].label.law_label_match(current_sequence@);
        }
    }
    if current_sequence.len() != 2 {
        return None;
    }
    let mut i: usize = 0;
    while i < jumps.len()
        invariant
            i <= jumps@.len(),
            forall|k: int|
                0 <= k < i ==> (#[trigger] jumps@[k]).label.match_spec(current_sequence@)
                    != JumpLabelMatchResult::FullMatch,
        decreases jumps@.len() - i,
    {
        if jumps[i].label.check_match(current_sequence) == JumpLabelMatchResult::FullMatch {
            return Some(jumps[i]);
        }
        i = i + 1;
    }
    None
}

/// True when some label still matches the typed keys, fully or as a prefix.
pub fn has_potential_matches(jumps: &[WordJumpAddress], current_sequence: &[char]) -> (r: bool)
    ensures
        r == exists|i: int|
            0 <= i < jumps@.len() && (#[trigger] jumps@[i]).label.match_spec(current_sequence@)
                != JumpLabelMatchResult::NoMatch,
{
    let mut i: usize = 0;
    while i < jumps.len()
        invariant
            i <= jumps@.len(),
            forall|k: int|
                0 <= k < i ==> (#[trigger] jumps@[k]).label.match_spec(current_sequence@)
                    == JumpLabelMatchResult::NoMatch,
        decreases jumps@.len() - i,
    {
        if jumps[i].label.check_match(current_sequence) != JumpLabelMatchResult::NoMatch {
            return true;
        }
        i = i + 1;
    }
    false
}

impl JumpLabel {
    pub open spec fn first(self) -> char {
        self.0@[0]
    }

    pub open spec fn second(self) -> char {
        self.0@[1]
    }

    /// How a typed key sequence matches a label: nothing typed is a possible
    /// match of length 0; a typed prefix of the label is a possible match; the
    /// whole label is a full match; anything else, longer input included, is no match.
    pub open spec fn match_spec(self, input: Seq<char>) -> JumpLabelMatchResult {
        if input.len() == 0 {
            JumpLabelMatchResult::Possible(0)
        } else if input.len() > 2 || input[0] != self.first() || (input.len() == 2 && input[1]
            != self.second()) {
            JumpLabelMatchResult::NoMatch
        } else if input.len() == 2 {
            JumpLabelMatchResult::FullMatch
        } else {
            JumpLabelMatchResult::Possible(1)
        }
    }

    /// The label's two characters as a string.
    pub fn to_string(&self) -> (s: String)
        ensures
            s@ == seq![self.first(), self.second()],
    {
        let mut s = String::new();
        push_char(&mut s, self.0[0]);
        push_char(&mut s, self.0[1]);
        assert(s@ =~= seq![self.first(), self.second()]);
        s
    }

    /// A label fully matches exactly its own two characters typed in order;
    /// it possibly matches, by `n` keys, exactly the first `n` of them (fewer
    /// than two); and it does not match any other typed keys.
    pub proof fn law_label_match(self, input: Seq<char>)
        ensures
            self.match_spec(input) == JumpLabelMatchResult::FullMatch <==> input == seq![self.first(), self.second()],
            forall|n: usize|
                self.match_spec(input) == JumpLabelMatchResult::Possible(n) <==> (n < 2 && input.len() == n
                    && input == seq![self.first(), self.second()].subrange(0, n as int)),
            self.match_spec(input) == JumpLabelMatchResult::NoMatch <==> !(input.len() <= 2 && input
                == seq![self.first(), self.second()].subrange(0, input.len() as int)),
    {
        let l = seq![self.first(), self.second()];
        let p = l.subrange(0, input.len() as int);
        if input.len() == 0 {
            assert(input =~= p);
        } else if input.len() == 1 {
            if input[0] == self.first() {
                assert(input =~= p);
            } else {
                assert(p[0] == self.first());
                assert(input != p);
            }
        } else if input.len() == 2 {
            if input[0] == self.first() && input[1] == self.second() {
                assert(input =~= p);
                assert(input =~= l);
            } else {
                assert(p[0] == self.first() && p[1] == self.second());
                assert(input != p);
                assert(input != l);
            }
        }
        assert forall|n: usize|
            self.match_spec(input) == JumpLabelMatchResult::Possible(n) <==> (n < 2 && input.len() == n
                && input == l.subrange(0, n as int)) by {
            if n < 2 && input.len() == n && input == l.subrange(0, n as int) {
                if n == 1 {
                    assert(input[0] == l[0]);
                }
            }
        }
    }

    pub fn check_match(&self, input: &[char]) -> (r: JumpLabelMatchResult)
        ensures
            r == self.match_spec(input@),
            r == JumpLabelMatchResult::FullMatch <==> input@ == seq![self.first(), self.second()],
    {
        proof {
            self.law_label_match(input@);
        }
        if input.len() == 0 {
            return JumpLabelMatchResult::Possible(0);
        }
        let mut matched: usize = 0;
        let mut i: usize = 0;
        while i < input.len()
            invariant
                0 < input@.len(),
                i <= input@.len(),
                i <= 2,
                matched == i,
                forall|k: int| 0 <= k < i ==> input@[k] == self.0@[k],
            decreases input@.len() - i,
        {
            if i >= 2 {
                return JumpLabelMatchResult::NoMatch;
            }
            if self.0[i] == input[i] {
                matched = matched + 1;
            } else {
                return JumpLabelMatchResult::NoMatch;
            }
            i = i + 1;
        }
        if matched == 2 {
            JumpLabelMatchResult::FullMatch
        } else {
            JumpLabelMatchResult::Possible(matched)
        }
    }
}

/// Appends a character to a string (std `String::push`).
#[verifier::external_body]
pub(crate) fn push_char(s: &mut String, c: char)
    ensures
        final(s)@ == old(s)@.push(c),
{
    s.push(c)
}

/// The label with index `i` among all two-character labels over `symbols`,
/// in lexicographic order.
pub open spec fn label_at(symbols: Seq<char>, i: int) -> JumpLabel {
    JumpLabel([symbols[i / symbols.len() as int], symbols[i % symbols.len() as int]])
}

/// The `seq_index`-th label over `symbols`, or `None` once all
/// `symbols.len()²` labels are used up.
pub fn assign_label(symbols: &[char], seq_index: usize) -> (r: Option<JumpLabel>)
    requires
        symbols@.len() >= 1,
        symbols@.len() * symbols@.len() <= usize::MAX,
    ensures
        seq_index < symbols@.len() * symbols@.len() ==> r == Some(
            label_at(symbols@, seq_index as int),
        ),
        seq_index >= symbols@.len() * symbols@.len() ==> r is None,
{
    let total = symbols.len();
    assert(1 <= total * total <= usize::MAX) by (nonlinear_arith)
        requires
            total >= 1,
            total * total <= usize::MAX,
    ;
    if total * total - 1 < seq_index {
        return None;
    }
    let first = seq_index / total;
    proof {
        let t = total as int;
        let s = seq_index as int;
        assert(0 <= first * t <= s) by (nonlinear_arith)
            requires
                first == s / t,
                t >= 1,
                s >= 0,
        ;
        assert(first < t) by (nonlinear_arith)
            requires
                first == s / t,
                s < t * t,
                t >= 1,
                s >= 0,
        ;
    }
    let second = seq_index - first * total;
    proof {
        let t = total as int;
        let s = seq_index as int;
        assert(second == s % t) by (nonlinear_arith)
            requires
                first == s / t,
                second == s - first * t,
                t >= 1,
                s >= 0,
        ;
    }
    let label = JumpLabel([symbols[first], symbols[second]]);
    assert(label.0@ =~= label_at(symbols@, seq_index as int).0@);
    Some(label)
}

// ---- where the labels go ----
/// Index of the word the labelling starts from: the first word ending at or
/// after the cursor start, or the last word if none does.
pub open spec fn split_index(words: Seq<UnOrderedByteSpan>, cursor_start: int) -> int
    decreases words.len(),
{
    if words.len() == 0 {
        0
    } else if words[0].end >= cursor_start || words.len() == 1 {
        0
    } else {
        1 + split_index(words.drop_first(), cursor_start)
    }
}

/// Number of words labelled at or after the split once `t` labels are handed
/// out alternately right, left, right, ... (a side that runs out yields to the other).
pub open spec fn right_count(nl: int, nr: int, t: int) -> int {
    let half = (t + 1) / 2;
    let m = if half >= t - nl { half } else { t - nl };
    if m <= nr { m } else { nr }
}

/// Number of words labelled before the split after `t` labels.
pub open spec fn left_count(nl: int, nr: int, t: int) -> int {
    t - right_count(nl, nr, t)
}

/// The step at which the word at position `p` receives its label, when the
/// split is at `sp`, `nl = sp` words lie before it and `nr` at or after it.
pub open spec fn label_step(nl: int, nr: int, sp: int, p: int) -> int {
    if p >= sp {
        let d = p - sp;
        if d <= nl { 2 * d } else { d + nl }
    } else {
        let e = sp - 1 - p;
        if e + 1 <= nr { 2 * e + 1 } else { e + nr }
    }
}

/// Number of labels handed out: one per word, as long as labels last.
pub open spec fn labels_used(n: int, k: int) -> int {
    if n <= k * k { n } else { k * k }
}

/// The labelled words: the window of words around the split that received a
/// label, each with the label of the step at which it was reached.
pub open spec fn jump_points_spec(
    words: Seq<UnOrderedByteSpan>,
    cursor_start: int,
    symbols: Seq<char>,
) -> Seq<WordJumpAddress> {
    let n = words.len() as int;
    let sp = split_index(words, cursor_start);
    let t = labels_used(n, symbols.len() as int);
    let lo = sp - left_count(sp, n - sp, t);
    Seq::new(
        t as nat,
        |j: int|
            WordJumpAddress {
                span: words[lo + j],
                label: label_at(symbols, label_step(sp, n - sp, sp, lo + j)),
            },
    )
}

proof fn lemma_split_index(words: Seq<UnOrderedByteSpan>, cursor_start: int)
    requires
        words.len() > 0,
    ensures
        0 <= split_index(words, cursor_start) < words.len(),
        forall|i: int|
            0 <= i < split_index(words, cursor_start) ==> words[i].end < cursor_start,
        split_index(words, cursor_start) < words.len() - 1 ==> words[split_index(
            words,
            cursor_start,
        )].end >= cursor_start,
    decreases words.len(),
{
    if words[0].end >= cursor_start || words.len() == 1 {
    } else {
        let rest = words.drop_first();
        lemma_split_index(rest, cursor_start);
        assert forall|i: int|
            0 <= i < split_index(words, cursor_start) implies words[i].end < cursor_start by {
            if i > 0 {
                assert(words[i] == rest[i - 1]);
            }
        }
    }
}

/// One labelling step: which side gets label `t`, and the step that side's
/// next word is reached at.
proof fn lemma_label_step(nl: int, nr: int, t: int)
    requires
        0 <= nl,
        0 <= nr,
        0 <= t < nl + nr,
    ensures
        0 <= right_count(nl, nr, t) <= nr,
        0 <= left_count(nl, nr, t) <= nl,
        ({
            let r = right_count(nl, nr, t);
            let l = left_count(nl, nr, t);
            let go_right = (t % 2 == 0 || l >= nl) && r < nr;
            &&& go_right ==> right_count(nl, nr, t + 1) == r + 1 && left_count(nl, nr, t + 1) == l
                && label_step(nl, nr, nl, nl + r) == t
            &&& !go_right ==> l < nl && right_count(nl, nr, t + 1) == r && left_count(
                nl,
                nr,
                t + 1,
            ) == l + 1 && label_step(nl, nr, nl, nl - 1 - l) == t
        }),
{
}

proof fn lemma_counts_zero(nl: int, nr: int)
    requires
        0 <= nl,
        0 <= nr,
    ensures
        right_count(nl, nr, 0) == 0,
        left_count(nl, nr, 0) == 0,
{
}

/// Labels the words around the cursor: the word at the split gets the first
/// label, then words to the right and left alternately, until labels run out.
/// Returns `None` when there are no words.
pub fn assign_jump_labels(
    words: &Vec<UnOrderedByteSpan>,
    cursor: UnOrderedByteSpan,
    jump_symbols: &[char],
) -> (r: Option<Vec<WordJumpAddress>>)
    requires
        jump_symbols@.len() >= 1,
        jump_symbols@.len() * jump_symbols@.len() <= usize::MAX,
    ensures
        words@.len() == 0 <==> r is None,
        r matches Some(v) ==> v@ == jump_points_spec(words@, cursor.start as int, jump_symbols@),
{
    let n = words.len();
    if n == 0 {
        return None;
    }
    let ghost sym = jump_symbols@;
    let ghost k = sym.len() as int;
    let mut jumps: Vec<WordJumpAddress> = Vec::new();
    let mut idx: usize = 0;
    while idx < n
        invariant
            n == words@.len(),
            idx <= n,
            jumps@.len() == idx,
            forall|j: int| 0 <= j < idx ==> (#[trigger] jumps@[j]).span == words@[j],
        decreases n - idx,
    {
        jumps.push(WordJumpAddress { span: words[idx], label: JumpLabel(['-', '-']) });
        idx = idx + 1;
    }
    let mut split_pos: usize = 0;
    while split_pos + 1 < n && words[split_pos].end < cursor.start
        invariant
            n == words@.len(),
            0 <= split_pos < n,
            forall|i: int| 0 <= i < split_pos ==> words@[i].end < cursor.start,
        decreases n - split_pos,
    {
        split_pos = split_pos + 1;
    }
    proof {
        lemma_split_index(words@, cursor.start as int);
        let sp = split_index(words@, cursor.start as int);
        if sp < split_pos {
            assert(words@[sp].end < cursor.start);
        }
        if split_pos < sp {
            assert(words@[split_pos as int].end < cursor.start);
        }
        assert(sp == split_pos);
        lemma_counts_zero(split_pos as int, n - split_pos);
    }
    let ghost nl = split_pos as int;
    let ghost nr = n - split_pos;
    // `left` is one past the next word to label on the left
    let mut left: usize = split_pos;
    let mut right: usize = split_pos;
    let total = jump_symbols.len();
    let mut i: usize = 0;
    while i < n
        invariant
            n == words@.len(),
            nl == split_pos,
            nr == n - split_pos,
            split_pos < n,
            sym == jump_symbols@,
            k == sym.len(),
            total == k,
            k >= 1,
            k * k <= usize::MAX,
            i <= n,
            i <= k * k,
            right == split_pos + right_count(nl, nr, i as int),
            left == split_pos - left_count(nl, nr, i as int),
            left <= split_pos <= right <= n,
            jumps@.len() == n,
            forall|j: int| 0 <= j < n ==> (#[trigger] jumps@[j]).span == words@[j],
            forall|p: int|
                left <= p < right ==> (#[trigger] jumps@[p]).label == label_at(
                    sym,
                    label_step(nl, nr, nl, p),
                ),
        ensures
            i == n || i >= k * k,
        decreases n - i,
    {
        let label_opt = assign_label(jump_symbols, i);
        let label = match label_opt {
            Some(l) => l,
            None => {
                break;
            },
        };
        proof {
            lemma_label_step(nl, nr, i as int);
        }
        let should_go_right = i % 2 == 0;
        let reached_end_right = right >= n;
        let reached_end_left = left == 0;
        if (should_go_right || reached_end_left) && !reached_end_right {
            let old_entry = jumps[right];
            jumps.set(right, WordJumpAddress { span: old_entry.span, label });
            right = right + 1;
        } else {
            let old_entry = jumps[left - 1];
            jumps.set(left - 1, WordJumpAddress { span: old_entry.span, label });
            left = left - 1;
        }
        i = i + 1;
    }
    let ghost t = i as int;
    assert(t == labels_used(n as int, k)) by {
        if t < n {
            assert(t >= k * k);
        }
    }
    let mut result: Vec<WordJumpAddress> = Vec::new();
    let mut p = left;
    while p < right
        invariant
            left <= p <= right <= n,
            n == words@.len(),
            jumps@.len() == n,
            result@.len() == p - left,
            forall|j: int|
                0 <= j < p - left ==> #[trigger] result@[j] == jumps@[left + j],
        decreases right - p,
    {
        result.push(jumps[p]);
        p = p + 1;
    }
    proof {
        let spec_v = jump_points_spec(words@, cursor.start as int, jump_symbols@);
        assert(spec_v.len() == result@.len());
        assert forall|j: int| 0 <= j < result@.len() implies result@[j] == spec_v[j] by {
            assert(result@[j] == jumps@[left + j]);
        }
        assert(result@ =~= spec_v);
    }
    Some(result)
}

// ---- laws ----

/// After `t` labelling steps, the labelled positions form the window around
/// the split, each reached at its own step, all before step `t`.
proof fn lemma_window_steps(nl: int, nr: int, t: int)
    requires
        0 <= nl,
        0 <= nr,
        0 <= t <= nl + nr,
    ensures
        0 <= left_count(nl, nr, t) <= nl,
        0 <= right_count(nl, nr, t) <= nr,
        forall|p: int|
            nl - left_count(nl, nr, t) <= p < nl + right_count(nl, nr, t) ==> 0 <= #[trigger] label_step(
                nl,
                nr,
                nl,
                p,
            ) < t,
        forall|p: int, q: int|
            nl - left_count(nl, nr, t) <= p < q < nl + right_count(nl, nr, t) ==> #[trigger] label_step(
                nl,
                nr,
                nl,
                p,
            ) != #[trigger] label_step(nl, nr, nl, q),
    decreases t,
{
    if t == 0 {
        lemma_counts_zero(nl, nr);
    } else {
        lemma_window_steps(nl, nr, t - 1);
        lemma_label_step(nl, nr, t - 1);
    }
}

/// Different label indices below `k * k` give different labels when the
/// symbols are all different.
proof fn lemma_label_at_injective(symbols: Seq<char>, a: int, b: int)
    requires
        symbols.len() >= 1,
        forall|i: int, j: int| 0 <= i < j < symbols.len() ==> symbols[i] != symbols[j],
        0 <= a < symbols.len() * symbols.len(),
        0 <= b < symbols.len() * symbols.len(),
        a != b,
    ensures
        label_at(symbols, a) != label_at(symbols, b),
{
    let k = symbols.len() as int;
    assert(0 <= a / k < k && 0 <= a % k < k && a == (a / k) * k + a % k) by (nonlinear_arith)
        requires
            k >= 1,
            0 <= a < k * k,
    ;
    assert(0 <= b / k < k && 0 <= b % k < k && b == (b / k) * k + b % k) by (nonlinear_arith)
        requires
            k >= 1,
            0 <= b < k * k,
    ;
    let la = label_at(symbols, a);
    let lb = label_at(symbols, b);
    if la == lb {
        assert(la.0@[0] == symbols[a / k] && lb.0@[0] == symbols[b / k]);
        assert(la.0@[1] == symbols[a % k] && lb.0@[1] == symbols[b % k]);
        assert(a / k == b / k);
        assert(a % k == b % k);
    }
}

/// With all jump symbols different, no two jump points get the same label.
pub proof fn law_jump_labels_distinct(
    words: Seq<UnOrderedByteSpan>,
    cursor_start: int,
    symbols: Seq<char>,
)
    requires
        symbols.len() >= 1,
        forall|i: int, j: int| 0 <= i < j < symbols.len() ==> symbols[i] != symbols[j],
    ensures
        forall|a: int, b: int|
            0 <= a < b < jump_points_spec(words, cursor_start, symbols).len() ==> (#[trigger] jump_points_spec(
                words,
                cursor_start,
                symbols,
            )[a]).label != (#[trigger] jump_points_spec(words, cursor_start, symbols)[b]).label,
{
    let v = jump_points_spec(words, cursor_start, symbols);
    let n = words.len() as int;
    let k = symbols.len() as int;
    if n > 0 {
        lemma_split_index(words, cursor_start);
        let sp = split_index(words, cursor_start);
        let t = labels_used(n, k);
        assert(0 <= t <= n);
        lemma_window_steps(sp, n - sp, t);
        let lo = sp - left_count(sp, n - sp, t);
        assert forall|a: int, b: int| 0 <= a < b < v.len() implies (#[trigger] v[a]).label != (
        #[trigger] v[b]).label by {
            let sa = label_step(sp, n - sp, sp, lo + a);
            let sb = label_step(sp, n - sp, sp, lo + b);
            assert(sa != sb);
            assert(t <= k * k);
            lemma_label_at_injective(symbols, sa, sb);
        }
    }
}

} // verus!
