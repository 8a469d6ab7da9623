//! The law of a batch of changes given in the order of their spans: every
//! change lands where its span says in the text as it was before the batch,
//! so the result is the text's pieces between the spans interleaved with the
//! changes' texts.
use vstd::prelude::*;
use vstd::utf8::*;
use crate::byte_span::{ByteSpan, RangeRelation, min_usize, max_usize};
use crate::text_bytes::{splice};
use crate::text_change::extract_cursor_spec;
use crate::apply_changes::{
    EditLog, PlanFault, sort_by_end, tail_fits, shift_tail, insert_by_end, ins_pos, scan_logs, scan_step, log_delta,
    signed, fits_isize, span_shift_fits, shift_span, shift_pos, span_len_signed, append_spec,
    plan_spec, apply_planned, cursor_spec, batch_applicable, changes_wf, logs_wf, marker_cursor,
    lemma_extract_bounds, lemma_boundary_kept, cursor_fold, cursor_step,
};
use crate::byte_span::UnOrderedByteSpan;

verus! {

broadcast use vstd::seq::group_seq_axioms;

/// The spans come in order: each ends at or before the next one starts.
pub open spec fn changes_in_order(cs: Seq<(ByteSpan, Seq<u8>)>) -> bool {
    &&& changes_wf(cs)
    &&& forall|i: int, j: int| 0 <= i < j < cs.len() ==> #[trigger] cs[i].0.end <= #[trigger] cs[j].0.start
}

/// The change's text without its cursor markers.
pub open spec fn stripped(cs: Seq<(ByteSpan, Seq<u8>)>, j: int) -> Seq<u8> {
    extract_cursor_spec(cs[j].1).0
}

/// Where the gap before change `j` starts: the end of the change before it.
pub open spec fn gap_start(cs: Seq<(ByteSpan, Seq<u8>)>, j: int) -> int {
    if j <= 0 {
        0
    } else {
        cs[j - 1].0.end as int
    }
}

/// The text before the first `k` changes' spans ended, with those changes
/// made: the pieces of `text` between the spans, each followed by the text
/// of the change after it.
pub open spec fn merged_head(text: Seq<u8>, cs: Seq<(ByteSpan, Seq<u8>)>, k: int) -> Seq<u8>
    decreases k,
{
    if k <= 0 {
        Seq::empty()
    } else {
        merged_head(text, cs, k - 1) + text.subrange(gap_start(cs, k - 1), cs[k - 1].0.start as int)
            + stripped(cs, k - 1)
    }
}

/// The text after every change of an in-order batch is made where its span
/// says.
pub open spec fn merged(text: Seq<u8>, cs: Seq<(ByteSpan, Seq<u8>)>) -> Seq<u8> {
    merged_head(text, cs, cs.len() as int) + text.subrange(
        gap_start(cs, cs.len() as int),
        text.len() as int,
    )
}

/// The bytes of the text and of all the changes' texts together.
pub open spec fn total_len(text: Seq<u8>, cs: Seq<(ByteSpan, Seq<u8>)>, k: int) -> int
    decreases k,
{
    if k <= 0 {
        text.len() as int
    } else {
        total_len(text, cs, k - 1) + cs[k - 1].1.len()
    }
}

/// What the law assumes of the text and the batch.
pub open spec fn in_order_batch(text: Seq<u8>, cs: Seq<(ByteSpan, Seq<u8>)>) -> bool {
    &&& valid_utf8(text)
    &&& changes_in_order(cs)
    &&& forall|j: int| 0 <= j < cs.len() ==> (#[trigger] cs[j]).0.end <= text.len()
    &&& forall|j: int|
        0 <= j < cs.len() ==> is_char_boundary(text, (#[trigger] cs[j]).0.start as int)
            && is_char_boundary(text, cs[j].0.end as int)
    &&& forall|j: int| 0 <= j < cs.len() ==> valid_utf8(#[trigger] stripped(cs, j))
    &&& total_len(text, cs, cs.len() as int) <= isize::MAX
}

// ---- the model of the planner on an in-order batch ----

spec fn ins_len(cs: Seq<(ByteSpan, Seq<u8>)>, j: int) -> int {
    stripped(cs, j).len() as int
}

spec fn rem_len(cs: Seq<(ByteSpan, Seq<u8>)>, j: int) -> int {
    cs[j].0.end - cs[j].0.start
}

spec fn change_gain(cs: Seq<(ByteSpan, Seq<u8>)>, j: int) -> int {
    ins_len(cs, j) - rem_len(cs, j)
}

/// How far the changes before `j` move the text after them.
spec fn shift_before(cs: Seq<(ByteSpan, Seq<u8>)>, j: int) -> int
    decreases j,
{
    if j <= 0 {
        0
    } else {
        shift_before(cs, j - 1) + change_gain(cs, j - 1)
    }
}

spec fn inserted_before(cs: Seq<(ByteSpan, Seq<u8>)>, j: int) -> int
    decreases j,
{
    if j <= 0 {
        0
    } else {
        inserted_before(cs, j - 1) + ins_len(cs, j - 1)
    }
}

spec fn target_of(cs: Seq<(ByteSpan, Seq<u8>)>, j: int) -> ByteSpan {
    ByteSpan {
        start: (cs[j].0.start + shift_before(cs, j)) as usize,
        end: (cs[j].0.end + shift_before(cs, j)) as usize,
    }
}

spec fn model_log(cs: Seq<(ByteSpan, Seq<u8>)>, j: int) -> EditLog {
    EditLog { removed: target_of(cs, j), inserted_len: ins_len(cs, j) as usize }
}

spec fn model_logs(cs: Seq<(ByteSpan, Seq<u8>)>, m: int) -> Seq<EditLog> {
    Seq::new(m as nat, |i: int| model_log(cs, i))
}

spec fn log_gain(l: EditLog) -> int {
    l.inserted_len - (l.removed.end - l.removed.start)
}

spec fn sum_gain(ls: Seq<EditLog>, p: int) -> int
    decreases p,
{
    if p <= 0 {
        0
    } else {
        sum_gain(ls, p - 1) + log_gain(ls[p - 1])
    }
}

spec fn sum_ins(ls: Seq<EditLog>, p: int) -> int
    decreases p,
{
    if p <= 0 {
        0
    } else {
        sum_ins(ls, p - 1) + ls[p - 1].inserted_len
    }
}

/// Every log ends no later than the span being placed, once that span has
/// been moved past the logs before it.
spec fn all_before(ls: Seq<EditLog>, bound: int) -> bool {
    forall|p: int| 0 <= p < ls.len() ==> (#[trigger] ls[p]).removed.end <= bound + sum_gain(ls, p)
}

spec fn sorted_by_end(s: Seq<EditLog>) -> bool {
    forall|i: int, j: int| 0 <= i < j < s.len() ==> (#[trigger] s[i]).removed.end <= (#[trigger] s[j]).removed.end
}

// ---- sums ----

proof fn lemma_sum_prefix(a: Seq<EditLog>, b: Seq<EditLog>, p: int)
    requires
        0 <= p <= a.len(),
        p <= b.len(),
        forall|t: int| 0 <= t < p ==> a[t] == b[t],
    ensures
        sum_gain(a, p) == sum_gain(b, p),
        sum_ins(a, p) == sum_ins(b, p),
    decreases p,
{
    if p > 0 {
        lemma_sum_prefix(a, b, p - 1);
    }
}

proof fn lemma_sum_insert(s: Seq<EditLog>, p: int, x: EditLog, q: int)
    requires
        0 <= p <= s.len(),
        p < q <= s.len() + 1,
    ensures
        sum_gain(s.insert(p, x), q) == sum_gain(s, q - 1) + log_gain(x),
        sum_ins(s.insert(p, x), q) == sum_ins(s, q - 1) + x.inserted_len,
    decreases q,
{
    let u = s.insert(p, x);
    if q == p + 1 {
        lemma_sum_prefix(u, s, p);
        assert(u[p] == x);
    } else {
        lemma_sum_insert(s, p, x, q - 1);
        assert(u[q - 1] == s[q - 2]);
    }
}

proof fn lemma_sum_sort(s: Seq<EditLog>)
    ensures
        sort_by_end(s).len() == s.len(),
        sum_gain(sort_by_end(s), s.len() as int) == sum_gain(s, s.len() as int),
        sum_ins(sort_by_end(s), s.len() as int) == sum_ins(s, s.len() as int),
        forall|y: EditLog| sort_by_end(s).contains(y) ==> s.contains(y),
    decreases s.len(),
{
    if s.len() > 0 {
        let t = sort_by_end(s.drop_last());
        let x = s.last();
        lemma_sum_sort(s.drop_last());
        lemma_insert_pos_bounds(t, x);
        let p = ins_pos(t, x);
        lemma_sum_insert(t, p, x, t.len() as int + 1);
        lemma_sum_prefix(s, s.drop_last(), s.len() - 1);
        assert forall|y: EditLog| sort_by_end(s).contains(y) implies s.contains(y) by {
            let u = t.insert(p, x);
            let k = choose|k: int| 0 <= k < u.len() && u[k] == y;
            if k < p {
                assert(t[k] == y);
                assert(t.contains(y));
                assert(s.drop_last().contains(y));
                let i = choose|i: int| 0 <= i < s.drop_last().len() && s.drop_last()[i] == y;
                assert(s.drop_last()[i] == s[i]);
            } else if k == p {
                assert(s[s.len() - 1] == y);
            } else {
                assert(t[k - 1] == y);
                assert(t.contains(y));
                assert(s.drop_last().contains(y));
                let i = choose|i: int| 0 <= i < s.drop_last().len() && s.drop_last()[i] == y;
                assert(s.drop_last()[i] == s[i]);
            }
        }
    }
}

proof fn lemma_insert_pos_bounds(s: Seq<EditLog>, x: EditLog)
    ensures
        0 <= ins_pos(s, x) <= s.len(),
        forall|t: int| ins_pos(s, x) <= t < s.len() ==> (#[trigger] s[t]).removed.end > x.removed.end,
        ins_pos(s, x) > 0 ==> s[ins_pos(s, x) - 1].removed.end <= x.removed.end,
    decreases s.len(),
{
    if s.len() > 0 && s.last().removed.end > x.removed.end {
        lemma_insert_pos_bounds(s.drop_last(), x);
        assert forall|t: int| ins_pos(s, x) <= t < s.len() implies (#[trigger] s[t]).removed.end
            > x.removed.end by {
            if t < s.len() - 1 {
                assert(s[t] == s.drop_last()[t]);
            }
        }
    }
}

// ---- sorting ----

proof fn lemma_sort_sorted(s: Seq<EditLog>)
    ensures
        sorted_by_end(sort_by_end(s)),
    decreases s.len(),
{
    if s.len() > 0 {
        let t = sort_by_end(s.drop_last());
        let x = s.last();
        lemma_sort_sorted(s.drop_last());
        lemma_insert_pos_bounds(t, x);
        let p = ins_pos(t, x);
        let u = t.insert(p, x);
        assert forall|i: int, j: int| 0 <= i < j < u.len() implies (#[trigger] u[i]).removed.end
            <= (#[trigger] u[j]).removed.end by {
            let ti = if i < p { i } else { i - 1 };
            let tj = if j < p { j } else { j - 1 };
            if i == p {
                assert(u[j] == t[tj]);
            } else if j == p {
                assert(u[i] == t[ti]);
                if ti < p - 1 {
                    assert(t[ti].removed.end <= t[p - 1].removed.end);
                }
            } else {
                assert(u[i] == t[ti]);
                assert(u[j] == t[tj]);
            }
        }
    }
}

proof fn lemma_sort_sorted_is_identity(s: Seq<EditLog>)
    requires
        sorted_by_end(s),
    ensures
        sort_by_end(s) == s,
    decreases s.len(),
{
    if s.len() > 0 {
        let d = s.drop_last();
        assert(sorted_by_end(d)) by {
            assert forall|i: int, j: int| 0 <= i < j < d.len() implies (#[trigger] d[i]).removed.end
                <= (#[trigger] d[j]).removed.end by {
                assert(d[i] == s[i] && d[j] == s[j]);
            }
        }
        lemma_sort_sorted_is_identity(d);
        if d.len() > 0 {
            assert(d.last() == s[s.len() - 2]);
        }
        assert(ins_pos(d, s.last()) == d.len());
        assert(d.insert(d.len() as int, s.last()) =~= s);
    }
}

// ---- the model's arithmetic ----

proof fn lemma_total_len_grows(text: Seq<u8>, cs: Seq<(ByteSpan, Seq<u8>)>, i: int, j: int)
    requires
        0 <= i <= j <= cs.len(),
    ensures
        total_len(text, cs, i) <= total_len(text, cs, j),
        total_len(text, cs, i) >= text.len(),
    decreases j,
{
    if j > i {
        lemma_total_len_grows(text, cs, i, j - 1);
    } else if i > 0 {
        lemma_total_len_grows(text, cs, i - 1, i - 1);
    }
}

/// Bounds on how far the changes before `j` move the text.
proof fn lemma_shift_bounds(text: Seq<u8>, cs: Seq<(ByteSpan, Seq<u8>)>, j: int)
    requires
        in_order_batch(text, cs),
        0 <= j <= cs.len(),
    ensures
        j < cs.len() ==> shift_before(cs, j) >= -(cs[j].0.start as int),
        j > 0 ==> shift_before(cs, j) >= -(cs[j - 1].0.end as int),
        shift_before(cs, j) <= inserted_before(cs, j),
        0 <= inserted_before(cs, j) <= total_len(text, cs, j) - text.len(),
    decreases j,
{
    if j > 0 {
        lemma_shift_bounds(text, cs, j - 1);
        lemma_extract_bounds(cs[j - 1].1);
        assert(cs[j - 1].0.wf());
        if j < cs.len() {
            assert(cs[j - 1].0.end <= cs[j].0.start);
        }
    }
}

/// The changes strictly between `i` and `j` remove no more bytes than lie
/// between the two spans.
proof fn lemma_shift_between(text: Seq<u8>, cs: Seq<(ByteSpan, Seq<u8>)>, i: int, j: int)
    requires
        in_order_batch(text, cs),
        0 <= i < j < cs.len(),
    ensures
        shift_before(cs, j) - shift_before(cs, i + 1) >= -(cs[j].0.start - cs[i].0.end),
    decreases j - i,
{
    if j > i + 1 {
        lemma_shift_between(text, cs, i, j - 1);
        lemma_extract_bounds(cs[j - 1].1);
        assert(cs[j - 1].0.end <= cs[j].0.start);
        assert(cs[j - 1].0.wf());
    } else {
        assert(cs[i].0.end <= cs[j].0.start);
    }
}

/// The model's spans, lengths and gains, as plain integers.
proof fn lemma_model_log(text: Seq<u8>, cs: Seq<(ByteSpan, Seq<u8>)>, j: int)
    requires
        in_order_batch(text, cs),
        0 <= j < cs.len(),
    ensures
        model_log(cs, j).removed.start == cs[j].0.start + shift_before(cs, j),
        model_log(cs, j).removed.end == cs[j].0.end + shift_before(cs, j),
        model_log(cs, j).removed.wf(),
        model_log(cs, j).removed.end <= total_len(text, cs, cs.len() as int),
        model_log(cs, j).inserted_len == ins_len(cs, j),
        0 <= ins_len(cs, j) <= cs[j].1.len(),
        log_gain(model_log(cs, j)) == change_gain(cs, j),
        model_log(cs, j).removed.end - model_log(cs, j).removed.start == rem_len(cs, j),
{
    lemma_shift_bounds(text, cs, j);
    lemma_extract_bounds(cs[j].1);
    lemma_total_len_grows(text, cs, j, cs.len() as int);
    lemma_total_len_grows(text, cs, j + 1, cs.len() as int);
    assert(cs[j].0.wf());
    assert(cs[j].0.end <= text.len());
}

proof fn lemma_model_sums(text: Seq<u8>, cs: Seq<(ByteSpan, Seq<u8>)>, m: int)
    requires
        in_order_batch(text, cs),
        0 <= m <= cs.len(),
    ensures
        sum_gain(model_logs(cs, m), m) == shift_before(cs, m),
        sum_ins(model_logs(cs, m), m) == inserted_before(cs, m),
    decreases m,
{
    if m > 0 {
        lemma_model_sums(text, cs, m - 1);
        lemma_sum_prefix(model_logs(cs, m), model_logs(cs, m - 1), m - 1);
        lemma_model_log(text, cs, m - 1);
        assert(model_logs(cs, m)[m - 1] == model_log(cs, m - 1));
    }
}

/// A model log ending after the end of a later change's span moved the text
/// back, not forward.
proof fn lemma_later_end_no_gain(text: Seq<u8>, cs: Seq<(ByteSpan, Seq<u8>)>, m: int, y: EditLog)
    requires
        in_order_batch(text, cs),
        0 < m <= cs.len(),
        model_logs(cs, m - 1).contains(y),
        y.removed.end > model_log(cs, m - 1).removed.end,
    ensures
        log_gain(y) <= 0,
{
    let ms = model_logs(cs, m - 1);
    let i = choose|i: int| 0 <= i < ms.len() && #[trigger] ms[i] == y;
    assert(y == model_log(cs, i));
    lemma_model_log(text, cs, i);
    lemma_model_log(text, cs, m - 1);
    lemma_shift_between(text, cs, i, m - 1);
    lemma_extract_bounds(cs[m - 1].1);
    assert(cs[m - 1].0.wf());
}

proof fn lemma_suffix_no_gain(s: Seq<EditLog>, p: int, q: int)
    requires
        0 <= p <= q <= s.len(),
        forall|t: int| p <= t < s.len() ==> log_gain(#[trigger] s[t]) <= 0,
    ensures
        sum_gain(s, q) <= sum_gain(s, p),
    decreases q - p,
{
    if q > p {
        lemma_suffix_no_gain(s, p, q - 1);
    }
}

/// The sorted model logs of the first `m` changes all lie before a span
/// starting at or after the end of the last of those changes.
proof fn lemma_sorted_model_before(text: Seq<u8>, cs: Seq<(ByteSpan, Seq<u8>)>, m: int, bound: int)
    requires
        in_order_batch(text, cs),
        0 <= m <= cs.len(),
        bound >= gap_start(cs, m),
    ensures
        all_before(sort_by_end(model_logs(cs, m)), bound),
    decreases m,
{
    if m > 0 {
        let mm = model_logs(cs, m);
        let prev = model_logs(cs, m - 1);
        assert(mm.drop_last() =~= prev);
        let s = sort_by_end(prev);
        let x = model_log(cs, m - 1);
        assert(mm.last() == x);
        lemma_insert_pos_bounds(s, x);
        let p = ins_pos(s, x);
        let u = s.insert(p, x);
        assert(sort_by_end(mm) == u);
        lemma_model_log(text, cs, m - 1);
        let rem = rem_len(cs, m - 1);
        assert(cs[m - 1].0.wf());
        if m > 1 {
            assert(cs[m - 2].0.end <= cs[m - 1].0.start);
        }
        lemma_sorted_model_before(text, cs, m - 1, bound - rem);
        lemma_sum_sort(prev);
        lemma_model_sums(text, cs, m - 1);
        assert forall|q: int| 0 <= q < u.len() implies (#[trigger] u[q]).removed.end <= bound
            + sum_gain(u, q) by {
            if q < p {
                assert(u[q] == s[q]);
                lemma_sum_prefix(u, s, q);
            } else if q == p {
                lemma_sum_prefix(u, s, p);
                assert forall|t: int| p <= t < s.len() implies log_gain(#[trigger] s[t]) <= 0 by {
                    assert(s.contains(s[t]));
                    lemma_later_end_no_gain(text, cs, m, s[t]);
                }
                lemma_suffix_no_gain(s, p, s.len() as int);
            } else {
                assert(u[q] == s[q - 1]);
                lemma_sum_insert(s, p, x, q);
            }
        }
    }
}

proof fn lemma_sums_bounded(ls: Seq<EditLog>, p: int)
    requires
        0 <= p <= ls.len(),
        logs_wf(ls),
    ensures
        sum_gain(ls, p) <= sum_ins(ls, p),
        0 <= sum_ins(ls, p) <= sum_ins(ls, ls.len() as int),
    decreases ls.len() - p,
{
    if p < ls.len() {
        lemma_sums_bounded(ls, p + 1);
    }
    if p > 0 {
        lemma_sums_gain_ins(ls, p);
    }
}

proof fn lemma_sums_gain_ins(ls: Seq<EditLog>, p: int)
    requires
        0 <= p <= ls.len(),
        logs_wf(ls),
    ensures
        sum_gain(ls, p) <= sum_ins(ls, p),
        0 <= sum_ins(ls, p),
    decreases p,
{
    if p > 0 {
        lemma_sums_gain_ins(ls, p - 1);
        assert(ls[p - 1].removed.wf());
    }
}

/// The span `[start, end)`, as the planner stores it.
spec fn span_of(start: int, end: int) -> ByteSpan {
    ByteSpan { start: start as usize, end: end as usize }
}

/// Scanning logs that all lie before the span moves the span past all of
/// them and finds no log after it.
proof fn lemma_scan_all_before(ls: Seq<EditLog>, r: ByteSpan, k: int)
    requires
        0 <= k <= ls.len(),
        logs_wf(ls),
        r.wf(),
        all_before(ls, r.start as int),
        r.start + sum_gain(ls, ls.len() as int) >= 0,
        r.end + sum_ins(ls, ls.len() as int) <= isize::MAX,
        forall|p: int|
            0 <= p < ls.len() ==> (#[trigger] ls[p]).removed.end <= isize::MAX
                && ls[p].inserted_len <= isize::MAX,
    ensures
        scan_logs(ls, r, k) == Ok::<(ByteSpan, Option<usize>), PlanFault>(
            (span_of(r.start + sum_gain(ls, k), r.end + sum_gain(ls, k)), None),
        ),
        0 <= r.start + sum_gain(ls, k),
        r.end + sum_gain(ls, k) <= isize::MAX,
    decreases k,
{
    lemma_sums_bounded(ls, k);
    if k == ls.len() {
    } else {
        assert(ls[k].removed.end <= r.start + sum_gain(ls, k));
        assert(ls[k].removed.wf());
    }
    if k == 0 {
        assert(span_of(r.start as int, r.end as int) == r);
    } else {
        lemma_scan_all_before(ls, r, k - 1);
        let l = ls[k - 1];
        let a = span_of(r.start + sum_gain(ls, k - 1), r.end + sum_gain(ls, k - 1));
        assert(l.removed.end <= r.start + sum_gain(ls, k - 1));
        assert(l.removed.wf());
        assert(l.removed.relation_spec(a) == RangeRelation::Before);
        assert(signed(l.inserted_len) == l.inserted_len);
        assert(signed((l.removed.end - l.removed.start) as usize) == l.removed.end - l.removed.start);
        assert(log_delta(l) == log_gain(l));
        let d = log_gain(l);
        lemma_sums_bounded(ls, k - 1);
        assert(signed(a.start) == a.start);
        assert(signed(a.end) == a.end);
        assert(shift_span(a, d) == span_of(r.start + sum_gain(ls, k), r.end + sum_gain(ls, k)));
    }
}

/// The changes re-targeted by the model.
spec fn model_planned(cs: Seq<(ByteSpan, Seq<u8>)>, k: int) -> Seq<(ByteSpan, Seq<u8>)> {
    Seq::new(k as nat, |j: int| (target_of(cs, j), stripped(cs, j)))
}

/// The logs the planner keeps after the first `k` changes of an in-order
/// batch: the earlier ones sorted by span end, then the last one.
spec fn model_kept_logs(cs: Seq<(ByteSpan, Seq<u8>)>, k: int) -> Seq<EditLog> {
    if k <= 0 {
        Seq::empty()
    } else {
        sort_by_end(model_logs(cs, k - 1)).push(model_log(cs, k - 1))
    }
}

proof fn lemma_kept_logs_members(text: Seq<u8>, cs: Seq<(ByteSpan, Seq<u8>)>, k: int)
    requires
        in_order_batch(text, cs),
        0 <= k <= cs.len(),
    ensures
        model_kept_logs(cs, k).len() == k,
        forall|p: int|
            0 <= p < k ==> {
                &&& (#[trigger] model_kept_logs(cs, k)[p]).removed.wf()
                &&& model_kept_logs(cs, k)[p].removed.end <= isize::MAX
                &&& model_kept_logs(cs, k)[p].inserted_len <= isize::MAX
            },
{
    if k > 0 {
        let prev = model_logs(cs, k - 1);
        lemma_sum_sort(prev);
        let kept = model_kept_logs(cs, k);
        lemma_total_len_grows(text, cs, 0, cs.len() as int);
        assert forall|p: int| 0 <= p < k implies {
            &&& (#[trigger] kept[p]).removed.wf()
            &&& kept[p].removed.end <= isize::MAX
            &&& kept[p].inserted_len <= isize::MAX
        } by {
            let j: int = if p == k - 1 {
                k - 1
            } else {
                assert(sort_by_end(prev).contains(kept[p])) by {
                    assert(sort_by_end(prev)[p] == kept[p]);
                }
                assert(prev.contains(kept[p]));
                choose|j: int| 0 <= j < prev.len() && #[trigger] prev[j] == kept[p]
            };
            assert(kept[p] == model_log(cs, j));
            lemma_model_log(text, cs, j);
            lemma_extract_bounds(cs[j].1);
            lemma_total_len_grows(text, cs, j, j + 1);
            lemma_total_len_grows(text, cs, j + 1, cs.len() as int);
        }
    }
}

/// Planning the first `k` changes of an in-order batch: every change is
/// moved by exactly what the changes before it changed in length.
proof fn lemma_plan_in_order_batch(text: Seq<u8>, cs: Seq<(ByteSpan, Seq<u8>)>, k: int)
    requires
        in_order_batch(text, cs),
        0 <= k <= cs.len(),
    ensures
        plan_spec(cs, k) matches Ok(v) && v.0 == model_kept_logs(cs, k) && v.1 == model_planned(
            cs,
            k,
        ),
    decreases k,
{
    if k == 0 {
        assert(model_planned(cs, 0) =~= Seq::<(ByteSpan, Seq<u8>)>::empty());
    } else {
        let j = k - 1;
        lemma_plan_in_order_batch(text, cs, j);
        let logs = model_kept_logs(cs, j);
        let r = cs[j].0;
        let (w, c) = extract_cursor_spec(cs[j].1);
        lemma_extract_bounds(cs[j].1);
        lemma_model_log(text, cs, j);
        lemma_shift_bounds(text, cs, j);
        lemma_shift_bounds(text, cs, k);
        lemma_total_len_grows(text, cs, j, cs.len() as int);
        lemma_total_len_grows(text, cs, k, cs.len() as int);
        lemma_total_len_grows(text, cs, j, k);
        assert(r.wf());
        assert(r.end <= text.len());
        // the logs sorted again are the earlier changes sorted
        let sorted = sort_by_end(logs);
        assert(sorted == sort_by_end(model_logs(cs, j))) by {
            if j > 0 {
                let prev = model_logs(cs, j - 1);
                let sp = sort_by_end(prev);
                assert(logs.drop_last() =~= sp);
                assert(logs.last() == model_log(cs, j - 1));
                lemma_sort_sorted(prev);
                lemma_sort_sorted_is_identity(sp);
                assert(model_logs(cs, j).drop_last() =~= prev);
                assert(model_logs(cs, j).last() == model_log(cs, j - 1));
            } else {
                assert(model_logs(cs, 0) =~= Seq::<EditLog>::empty());
            }
        }
        // every kept log lies before the new span
        lemma_kept_logs_members(text, cs, j);
        lemma_model_sums(text, cs, j);
        if j > 0 {
            let prev = model_logs(cs, j - 1);
            let sp = sort_by_end(prev);
            lemma_sum_sort(prev);
            lemma_model_sums(text, cs, j - 1);
            lemma_model_log(text, cs, j - 1);
            assert(cs[j - 1].0.end <= r.start);
            if j > 1 {
                assert(cs[j - 2].0.end <= r.start);
            }
            lemma_sorted_model_before(text, cs, j - 1, r.start as int);
            assert forall|p: int| 0 <= p < logs.len() implies (#[trigger] logs[p]).removed.end
                <= r.start + sum_gain(logs, p) by {
                lemma_sum_prefix(logs, sp, p);
                if p < j - 1 {
                    assert(logs[p] == sp[p]);
                }
            }
            lemma_sum_prefix(logs, sp, j - 1);
            assert(sum_gain(logs, j) == sum_gain(sp, j - 1) + log_gain(model_log(cs, j - 1)));
            assert(sum_ins(logs, j) == sum_ins(sp, j - 1) + model_log(cs, j - 1).inserted_len);
        }
        assert(sum_gain(logs, j) == shift_before(cs, j));
        assert(sum_ins(logs, j) == inserted_before(cs, j));
        assert(logs_wf(logs));
        lemma_scan_all_before(logs, r, j);
        assert(span_of(r.start + shift_before(cs, j), r.end + shift_before(cs, j)) == target_of(cs, j));
        let target = target_of(cs, j);
        assert(append_spec(logs, r, w.len() as usize) == Ok::<(Seq<EditLog>, ByteSpan), PlanFault>(
            (sort_by_end(model_logs(cs, j)).push(model_log(cs, j)), target),
        ));
        assert(model_planned(cs, j).push((target, w)) =~= model_planned(cs, k));
        assert(model_logs(cs, k).drop_last() =~= model_logs(cs, j));
        match c {
            Some((c0, c1)) => {
                assert(target.start + c1 <= usize::MAX);
            },
            None => {},
        }
    }
}

proof fn lemma_merged_head_len(text: Seq<u8>, cs: Seq<(ByteSpan, Seq<u8>)>, k: int)
    requires
        in_order_batch(text, cs),
        0 <= k <= cs.len(),
    ensures
        merged_head(text, cs, k).len() == gap_start(cs, k) + shift_before(cs, k),
    decreases k,
{
    if k > 0 {
        lemma_merged_head_len(text, cs, k - 1);
        assert(cs[k - 1].0.wf());
        assert(cs[k - 1].0.end <= text.len());
        if k > 1 {
            assert(cs[k - 2].0.end <= cs[k - 1].0.start);
        }
    }
}

/// Making the first `k` planned changes of an in-order batch gives the
/// merged text so far, and keeps every later character boundary of the text
/// a boundary, moved by what the changes made so far changed in length.
proof fn lemma_apply_in_order_batch(text: Seq<u8>, cs: Seq<(ByteSpan, Seq<u8>)>, k: int)
    requires
        in_order_batch(text, cs),
        0 <= k <= cs.len(),
    ensures
        ({
            let cur = merged_head(text, cs, k) + text.subrange(gap_start(cs, k), text.len() as int);
            &&& apply_planned(text, model_planned(cs, cs.len() as int), k) == Some(cur)
            &&& valid_utf8(cur)
            &&& forall|i: int|
                gap_start(cs, k) <= i <= text.len() && #[trigger] is_char_boundary(text, i)
                    ==> is_char_boundary(cur, i + shift_before(cs, k))
        }),
    decreases k,
{
    let n = cs.len() as int;
    let planned = model_planned(cs, n);
    if k == 0 {
        assert(text.subrange(0, text.len() as int) =~= text);
        assert(Seq::<u8>::empty() + text =~= text);
    } else {
        let j = k - 1;
        lemma_apply_in_order_batch(text, cs, j);
        let cur = merged_head(text, cs, j) + text.subrange(gap_start(cs, j), text.len() as int);
        let r = cs[j].0;
        let x = stripped(cs, j);
        let d = shift_before(cs, j);
        lemma_merged_head_len(text, cs, j);
        lemma_model_log(text, cs, j);
        lemma_shift_bounds(text, cs, j);
        assert(r.wf());
        assert(r.end <= text.len());
        assert(gap_start(cs, j) <= r.start) by {
            if j > 0 {
                assert(cs[j - 1].0.end <= r.start);
            }
        }
        assert(is_char_boundary(text, r.start as int) && is_char_boundary(text, r.end as int));
        assert(valid_utf8(x));
        let t = target_of(cs, j);
        assert(planned[j] == (t, x));
        let s0 = r.start + d;
        let e0 = r.end + d;
        assert(t.start == s0 && t.end == e0);
        assert(cur.len() == text.len() + d);
        assert(is_char_boundary(cur, s0));
        assert(is_char_boundary(cur, e0));
        let next = splice(cur, s0, e0, x);
        let cur2 = merged_head(text, cs, k) + text.subrange(gap_start(cs, k), text.len() as int);
        assert(next =~= cur2) by {
            let mh = merged_head(text, cs, j);
            assert(cur.subrange(0, s0) =~= mh + text.subrange(gap_start(cs, j), r.start as int));
            assert(cur.subrange(e0, cur.len() as int) =~= text.subrange(r.end as int, text.len() as int));
        }
        assert(apply_planned(text, planned, k) == Some(next));
        crate::apply_changes::lemma_splice_boundary(cur, s0, e0, x, s0);
        assert forall|i: int|
            gap_start(cs, k) <= i <= text.len() && #[trigger] is_char_boundary(text, i) implies is_char_boundary(
                cur2,
                i + shift_before(cs, k),
            ) by {
            assert(is_char_boundary(cur, i + d));
            lemma_boundary_kept(cur, s0, e0, x, i + d, i + d - e0 + s0 + x.len());
        }
    }
}

/// A batch whose spans come in order (each ending at or before the next one
/// starts, all on character boundaries of the text) is applied without
/// refusal, and every change lands where its span says in the text as it was
/// before the batch: the result is the text's pieces between the spans, each
/// followed by the text of the change after it (cursor markers removed).
pub proof fn law_in_order_changes_merge(text: Seq<u8>, cs: Seq<(ByteSpan, Seq<u8>)>)
    requires
        in_order_batch(text, cs),
    ensures
        batch_applicable(text, None, cs),
        plan_spec(cs, cs.len() as int) matches Ok(v) && apply_planned(text, v.1, cs.len() as int)
            == Some(merged(text, cs)),
{
    let n = cs.len() as int;
    lemma_plan_in_order_batch(text, cs, n);
    lemma_apply_in_order_batch(text, cs, n);
}

// ---- batches given right to left ----

/// The spans come right to left: each ends at or before the previous one
/// starts, and a span that touches the previous one is not empty.
pub open spec fn changes_in_reverse(cs: Seq<(ByteSpan, Seq<u8>)>) -> bool {
    &&& changes_wf(cs)
    &&& forall|i: int, j: int| 0 <= i < j < cs.len() ==> #[trigger] cs[j].0.end <= #[trigger] cs[i].0.start
    &&& forall|k: int|
        1 <= k < cs.len() ==> (#[trigger] cs[k]).0.end < cs[k - 1].0.start || cs[k].0.start < cs[k].0.end
}

/// What the reverse-order law assumes of the text and the batch.
pub open spec fn reverse_batch(text: Seq<u8>, cs: Seq<(ByteSpan, Seq<u8>)>) -> bool {
    &&& valid_utf8(text)
    &&& changes_in_reverse(cs)
    &&& forall|j: int| 0 <= j < cs.len() ==> (#[trigger] cs[j]).0.end <= text.len()
    &&& forall|j: int|
        0 <= j < cs.len() ==> is_char_boundary(text, (#[trigger] cs[j]).0.start as int)
            && is_char_boundary(text, cs[j].0.end as int)
    &&& forall|j: int| 0 <= j < cs.len() ==> valid_utf8(#[trigger] stripped(cs, j))
    &&& total_len(text, cs, cs.len() as int) <= isize::MAX
    &&& cs.len() <= usize::MAX
}

/// The text after making the first `k` changes one after the other, each at
/// the span it names.
pub open spec fn made_at_own_spans(text: Seq<u8>, cs: Seq<(ByteSpan, Seq<u8>)>, k: int) -> Seq<u8>
    decreases k,
{
    if k <= 0 {
        text
    } else {
        splice(
            made_at_own_spans(text, cs, k - 1),
            cs[k - 1].0.start as int,
            cs[k - 1].0.end as int,
            stripped(cs, k - 1),
        )
    }
}

spec fn own_planned(cs: Seq<(ByteSpan, Seq<u8>)>, k: int) -> Seq<(ByteSpan, Seq<u8>)> {
    Seq::new(k as nat, |j: int| (cs[j].0, stripped(cs, j)))
}

/// The logs kept while planning a right-to-left batch all lie at or after
/// the start of the last span placed, and within the bytes in play.
spec fn reverse_logs_ok(text: Seq<u8>, cs: Seq<(ByteSpan, Seq<u8>)>, logs: Seq<EditLog>, k: int) -> bool {
    &&& logs.len() == k
    &&& logs_wf(logs)
    &&& forall|p: int|
        0 <= p < logs.len() ==> {
            &&& cs[k - 1].0.start <= (#[trigger] logs[p]).removed.start
            &&& logs[p].removed.end <= total_len(text, cs, k)
            &&& logs[p].inserted_len <= total_len(text, cs, k)
        }
}

/// Scanning logs that all lie after the span leaves the span where it is,
/// and finds the last log after it.
proof fn lemma_scan_all_after(ls: Seq<EditLog>, r: ByteSpan, k: int)
    requires
        0 <= k <= ls.len(),
        logs_wf(ls),
        r.wf(),
        forall|p: int|
            0 <= p < ls.len() ==> (#[trigger] ls[p]).removed.start >= r.end && ls[p].removed.end > r.start,
    ensures
        scan_logs(ls, r, k) == Ok::<(ByteSpan, Option<usize>), PlanFault>(
            (r, if k == 0 { None } else { Some((k - 1) as usize) }),
        ),
    decreases k,
{
    if k > 0 {
        lemma_scan_all_after(ls, r, k - 1);
        assert(ls[k - 1].removed.relation_spec(r) == RangeRelation::After);
    }
}

/// Sorting keeps the bounds of the kept logs.
proof fn lemma_sorted_reverse_logs(text: Seq<u8>, cs: Seq<(ByteSpan, Seq<u8>)>, logs: Seq<EditLog>, k: int)
    requires
        1 <= k <= cs.len(),
        reverse_logs_ok(text, cs, logs, k),
    ensures
        reverse_logs_ok(text, cs, sort_by_end(logs), k),
{
    let res = sort_by_end(logs);
    lemma_sum_sort(logs);
    assert forall|t: int| 0 <= t < res.len() implies {
        &&& (#[trigger] res[t]).removed.wf()
        &&& cs[k - 1].0.start <= res[t].removed.start
        &&& res[t].removed.end <= total_len(text, cs, k)
        &&& res[t].inserted_len <= total_len(text, cs, k)
    } by {
        assert(res.contains(res[t]));
        assert(logs.contains(res[t]));
        let pt = choose|pt: int| 0 <= pt < logs.len() && #[trigger] logs[pt] == res[t];
        assert(logs[pt].removed.wf());
    }
}

/// The planner's answer for a span before every kept log: the span stays,
/// and the last sorted log is moved by what the change changes in length.
#[verifier::spinoff_prover]
proof fn lemma_reverse_append(logs: Seq<EditLog>, r: ByteSpan, l: usize, bound: int, bound2: int)
    requires
        1 <= logs.len() <= usize::MAX,
        logs_wf(logs),
        r.wf(),
        l <= bound2 - bound,
        bound <= bound2 <= isize::MAX,
        forall|p: int|
            0 <= p < logs.len() ==> (#[trigger] logs[p]).removed.start >= r.end && logs[p].removed.end
                > r.start && logs[p].removed.end <= bound,
        r.end <= bound2,
    ensures
        append_spec(logs, r, l) == Ok::<(Seq<EditLog>, ByteSpan), PlanFault>(
            (
                shift_tail(
                    sort_by_end(logs),
                    logs.len() - 1,
                    l - (r.end - r.start),
                ).insert(logs.len() - 1, EditLog { removed: r, inserted_len: l }),
                r,
            ),
        ),
{
    let j = logs.len() as int;
    lemma_scan_all_after(logs, r, j);
    let res = sort_by_end(logs);
    lemma_sum_sort(logs);
    let d = signed(l) - span_len_signed(r);
    assert(signed(l) == l);
    assert(signed((r.end - r.start) as usize) == r.end - r.start);
    let q = j - 1;
    let xq = res[q];
    assert(res.contains(xq));
    assert(logs.contains(xq));
    let pt = choose|pt: int| 0 <= pt < logs.len() && #[trigger] logs[pt] == xq;
    assert(logs[pt].removed.wf());
    assert(signed(xq.removed.start) == xq.removed.start);
    assert(signed(xq.removed.end) == xq.removed.end);
    assert(tail_fits(res, q, d)) by {
        assert forall|t: int| q <= t < res.len() implies span_shift_fits(#[trigger] res[t].removed, d) by {
            assert(t == q);
        }
    }
}

/// The logs after placing a change of a right-to-left batch keep their bounds.
#[verifier::spinoff_prover]
proof fn lemma_reverse_new_logs(
    res: Seq<EditLog>,
    r: ByteSpan,
    l: usize,
    lower_prev: int,
    bound: int,
    bound2: int,
)
    requires
        res.len() >= 1,
        logs_wf(res),
        r.wf(),
        r.end <= lower_prev,
        l <= bound2 - bound,
        bound <= bound2,
        r.end <= bound2,
        forall|p: int|
            0 <= p < res.len() ==> lower_prev <= (#[trigger] res[p]).removed.start && res[p].removed.end
                <= bound && res[p].inserted_len <= bound,
        bound2 <= isize::MAX,
    ensures
        ({
            let q = res.len() - 1;
            let nl = shift_tail(res, q, l - (r.end - r.start)).insert(
                q,
                EditLog { removed: r, inserted_len: l },
            );
            &&& nl.len() == res.len() + 1
            &&& logs_wf(nl)
            &&& forall|p: int|
                0 <= p < nl.len() ==> {
                    &&& r.start <= (#[trigger] nl[p]).removed.start
                    &&& nl[p].removed.end <= bound2
                    &&& nl[p].inserted_len <= bound2
                }
        }),
{
    let q = res.len() - 1;
    let d = l - (r.end - r.start);
    let moved = shift_tail(res, q, d);
    let entry = EditLog { removed: r, inserted_len: l };
    let nl = moved.insert(q, entry);
    let xq = res[q];
    assert(xq.removed.wf());
    assert(signed(xq.removed.start) == xq.removed.start);
    assert(signed(xq.removed.end) == xq.removed.end);
    assert forall|p: int| 0 <= p < nl.len() implies {
        &&& (#[trigger] nl[p]).removed.wf()
        &&& r.start <= nl[p].removed.start
        &&& nl[p].removed.end <= bound2
        &&& nl[p].inserted_len <= bound2
    } by {
        if p == q {
            assert(nl[p] == entry);
        } else {
            let t = if p < q { p } else { p - 1 };
            assert(nl[p] == moved[t]);
            assert(res[t].removed.wf());
            if t == q {
                assert(moved[t].removed == shift_span(xq.removed, d));
            } else {
                assert(moved[t] == res[t]);
            }
        }
    }
}

/// Placing change `j` of a right-to-left batch: every kept log lies after
/// it, so its span stays as given.
proof fn lemma_reverse_step(text: Seq<u8>, cs: Seq<(ByteSpan, Seq<u8>)>, logs: Seq<EditLog>, j: int)
    requires
        reverse_batch(text, cs),
        1 <= j < cs.len(),
        reverse_logs_ok(text, cs, logs, j),
    ensures
        append_spec(logs, cs[j].0, stripped(cs, j).len() as usize) matches Ok(v) && v.1 == cs[j].0
            && reverse_logs_ok(text, cs, v.0, j + 1),
{
    let r = cs[j].0;
    let w = stripped(cs, j);
    lemma_extract_bounds(cs[j].1);
    lemma_total_len_grows(text, cs, j, j + 1);
    lemma_total_len_grows(text, cs, j + 1, cs.len() as int);
    lemma_total_len_grows(text, cs, 0, j);
    assert(r.wf());
    assert(r.end <= text.len());
    let l = w.len() as usize;
    let prev = cs[j - 1].0;
    assert(r.end <= prev.start);
    assert(r.end < prev.start || r.start < r.end);
    let bound = total_len(text, cs, j);
    let bound2 = total_len(text, cs, j + 1);
    assert forall|p: int| 0 <= p < logs.len() implies (#[trigger] logs[p]).removed.start >= r.end
        && logs[p].removed.end > r.start && logs[p].removed.end <= bound by {
        assert(logs[p].removed.wf());
    }
    lemma_reverse_append(logs, r, l, bound, bound2);
    lemma_sorted_reverse_logs(text, cs, logs, j);
    lemma_reverse_new_logs(sort_by_end(logs), r, l, prev.start as int, bound, bound2);
}

proof fn lemma_plan_reverse_batch(text: Seq<u8>, cs: Seq<(ByteSpan, Seq<u8>)>, k: int)
    requires
        reverse_batch(text, cs),
        0 <= k <= cs.len(),
    ensures
        plan_spec(cs, k) matches Ok(v) && v.1 == own_planned(cs, k) && (k > 0 ==> reverse_logs_ok(
            text,
            cs,
            v.0,
            k,
        )) && (k == 0 ==> v.0.len() == 0),
    decreases k,
{
    if k == 0 {
        assert(own_planned(cs, 0) =~= Seq::<(ByteSpan, Seq<u8>)>::empty());
    } else {
        let j = k - 1;
        lemma_plan_reverse_batch(text, cs, j);
        let v = plan_spec(cs, j)->Ok_0;
        let logs = v.0;
        let r = cs[j].0;
        let (w, c) = extract_cursor_spec(cs[j].1);
        lemma_extract_bounds(cs[j].1);
        lemma_total_len_grows(text, cs, j, k);
        lemma_total_len_grows(text, cs, k, cs.len() as int);
        lemma_total_len_grows(text, cs, 0, j);
        assert(r.wf());
        assert(r.end <= text.len());
        let l = w.len() as usize;
        if j == 0 {
            let entry = EditLog { removed: r, inserted_len: l };
            assert(scan_logs(logs, r, 0) == Ok::<(ByteSpan, Option<usize>), PlanFault>((r, None)));
            assert(logs =~= Seq::<EditLog>::empty());
            assert(sort_by_end(logs) == logs);
            let nl = logs.push(entry);
            assert(append_spec(logs, r, l) == Ok::<(Seq<EditLog>, ByteSpan), PlanFault>((nl, r)));
            assert(reverse_logs_ok(text, cs, nl, k)) by {
                assert(nl[0] == entry);
            }
        } else {
            lemma_reverse_step(text, cs, logs, j);
        }
        assert(own_planned(cs, j).push((r, w)) =~= own_planned(cs, k));
        match c {
            Some((c0, c1)) => {
                assert(r.start + c1 <= usize::MAX);
            },
            None => {},
        }
    }
}

spec fn reverse_bound(text: Seq<u8>, cs: Seq<(ByteSpan, Seq<u8>)>, k: int) -> int {
    if k <= 0 {
        text.len() as int
    } else {
        cs[k - 1].0.start as int
    }
}

proof fn lemma_apply_reverse_batch(text: Seq<u8>, cs: Seq<(ByteSpan, Seq<u8>)>, k: int)
    requires
        reverse_batch(text, cs),
        0 <= k <= cs.len(),
    ensures
        ({
            let cur = made_at_own_spans(text, cs, k);
            &&& apply_planned(text, own_planned(cs, cs.len() as int), k) == Some(cur)
            &&& valid_utf8(cur)
            &&& reverse_bound(text, cs, k) <= cur.len()
            &&& forall|i: int|
                0 <= i <= reverse_bound(text, cs, k) && #[trigger] is_char_boundary(text, i)
                    ==> is_char_boundary(cur, i)
        }),
    decreases k,
{
    if k > 0 {
        let j = k - 1;
        lemma_apply_reverse_batch(text, cs, j);
        let cur = made_at_own_spans(text, cs, j);
        let r = cs[j].0;
        let x = stripped(cs, j);
        assert(r.wf());
        assert(r.end <= text.len());
        if j > 0 {
            assert(r.end <= cs[j - 1].0.start);
        }
        assert(r.end <= reverse_bound(text, cs, j));
        assert(is_char_boundary(text, r.start as int) && is_char_boundary(text, r.end as int));
        assert(is_char_boundary(cur, r.start as int) && is_char_boundary(cur, r.end as int));
        assert(valid_utf8(x));
        assert(own_planned(cs, cs.len() as int)[j] == (r, x));
        crate::apply_changes::lemma_splice_boundary(cur, r.start as int, r.end as int, x, r.start as int);
        let next = made_at_own_spans(text, cs, k);
        assert forall|i: int|
            0 <= i <= reverse_bound(text, cs, k) && #[trigger] is_char_boundary(text, i) implies is_char_boundary(
                next,
                i,
            ) by {
            lemma_boundary_kept(cur, r.start as int, r.end as int, x, i, i);
        }
    }
}

/// A batch given right to left (each span ending at or before the previous
/// one starts, and a span that touches the previous one not empty) is
/// applied without refusal, and every change is made at the span it names:
/// each lies before the changes already made, so none of them moves it. The
/// text is those changes made in turn, each at its own span.
pub proof fn law_reverse_order_changes(text: Seq<u8>, cs: Seq<(ByteSpan, Seq<u8>)>)
    requires
        reverse_batch(text, cs),
    ensures
        batch_applicable(text, None, cs),
        plan_spec(cs, cs.len() as int) matches Ok(v) && (forall|j: int|
            0 <= j < cs.len() ==> (#[trigger] v.1[j]).0 == cs[j].0) && apply_planned(
            text,
            v.1,
            cs.len() as int,
        ) == Some(made_at_own_spans(text, cs, cs.len() as int)),
{
    let n = cs.len() as int;
    lemma_plan_reverse_batch(text, cs, n);
    lemma_apply_reverse_batch(text, cs, n);
}

// ---- right to left is the same as in order ----

/// The batch in the opposite order.
pub open spec fn reversed(cs: Seq<(ByteSpan, Seq<u8>)>) -> Seq<(ByteSpan, Seq<u8>)> {
    Seq::new(cs.len(), |i: int| cs[cs.len() - 1 - i])
}

/// The merged text of an in-order batch, with a change put in front of it
/// whose span ends before all of theirs, keeps everything after that span.
proof fn lemma_merged_head_prepend(
    text: Seq<u8>,
    a: (ByteSpan, Seq<u8>),
    s: Seq<(ByteSpan, Seq<u8>)>,
    m: int,
)
    requires
        1 <= m <= s.len(),
        a.0.wf(),
        forall|i: int| 0 <= i < s.len() ==> (#[trigger] s[i]).0.wf() && a.0.end <= s[i].0.start,
        forall|i: int, j: int| 0 <= i < j < s.len() ==> #[trigger] s[i].0.end <= #[trigger] s[j].0.start,
        forall|i: int| 0 <= i < s.len() ==> (#[trigger] s[i]).0.end <= text.len(),
    ensures
        ({
            let t = seq![a] + s;
            let mh = merged_head(text, s, m);
            &&& a.0.end <= mh.len()
            &&& mh.subrange(0, a.0.end as int) == text.subrange(0, a.0.end as int)
            &&& merged_head(text, t, m + 1) == text.subrange(0, a.0.start as int) + stripped(t, 0)
                + mh.subrange(a.0.end as int, mh.len() as int)
        }),
    decreases m,
{
    let t = seq![a] + s;
    assert(t[0] == a);
    assert(t[m] == s[m - 1]);
    assert(stripped(t, m) == stripped(s, m - 1));
    assert(s[m - 1].0.wf());
    if m == 1 {
        assert(merged_head(text, t, 0) =~= Seq::<u8>::empty());
        assert(gap_start(t, 0) == 0);
        assert(merged_head(text, t, 1) =~= Seq::<u8>::empty() + text.subrange(0, a.0.start as int)
            + stripped(t, 0));
        assert(merged_head(text, s, 0) =~= Seq::<u8>::empty());
        let mh = merged_head(text, s, 1);
        assert(mh =~= Seq::<u8>::empty() + text.subrange(0, s[0].0.start as int) + stripped(s, 0));
        assert(mh.subrange(0, a.0.end as int) =~= text.subrange(0, a.0.end as int));
        assert(mh.subrange(a.0.end as int, mh.len() as int) =~= text.subrange(
            a.0.end as int,
            s[0].0.start as int,
        ) + stripped(s, 0));
    } else {
        lemma_merged_head_prepend(text, a, s, m - 1);
        let prev = merged_head(text, s, m - 1);
        let mh = merged_head(text, s, m);
        assert(gap_start(t, m) == gap_start(s, m - 1));
        assert(s[m - 2].0.end <= s[m - 1].0.start);
        let piece = text.subrange(gap_start(s, m - 1), s[m - 1].0.start as int) + stripped(s, m - 1);
        assert(mh =~= prev + piece);
        assert(mh.subrange(0, a.0.end as int) =~= prev.subrange(0, a.0.end as int));
        assert(mh.subrange(a.0.end as int, mh.len() as int) =~= prev.subrange(
            a.0.end as int,
            prev.len() as int,
        ) + piece);
    }
}

/// Putting a change in front of an in-order batch, its span ending before
/// theirs, makes that change in the batch's merged text.
proof fn lemma_merged_prepend(text: Seq<u8>, a: (ByteSpan, Seq<u8>), s: Seq<(ByteSpan, Seq<u8>)>)
    requires
        a.0.wf(),
        a.0.end <= text.len(),
        forall|i: int| 0 <= i < s.len() ==> (#[trigger] s[i]).0.wf() && a.0.end <= s[i].0.start,
        forall|i: int, j: int| 0 <= i < j < s.len() ==> #[trigger] s[i].0.end <= #[trigger] s[j].0.start,
        forall|i: int| 0 <= i < s.len() ==> (#[trigger] s[i]).0.end <= text.len(),
    ensures
        merged(text, seq![a] + s) == splice(
            merged(text, s),
            a.0.start as int,
            a.0.end as int,
            stripped(seq![a] + s, 0),
        ),
{
    let t = seq![a] + s;
    let m = s.len() as int;
    assert(t[0] == a);
    if m == 0 {
        assert(t =~= seq![a]);
        assert(merged_head(text, t, 0) =~= Seq::<u8>::empty());
        assert(merged_head(text, s, 0) =~= Seq::<u8>::empty());
        assert(merged(text, s) =~= text);
        assert(merged(text, t) =~= splice(text, a.0.start as int, a.0.end as int, stripped(t, 0)));
    } else {
        lemma_merged_head_prepend(text, a, s, m);
        assert(t[m] == s[m - 1]);
        assert(gap_start(t, m + 1) == gap_start(s, m));
        let mh = merged_head(text, s, m);
        let rest = text.subrange(gap_start(s, m), text.len() as int);
        assert(merged(text, s) =~= mh + rest);
        assert(merged(text, t) =~= splice(mh + rest, a.0.start as int, a.0.end as int, stripped(t, 0)));
    }
}

/// Making the changes of a right-to-left batch in turn, each at its own span,
/// gives the same text as the batch in order.
pub proof fn law_reverse_order_is_in_order(text: Seq<u8>, cs: Seq<(ByteSpan, Seq<u8>)>)
    requires
        reverse_batch(text, cs),
    ensures
        made_at_own_spans(text, cs, cs.len() as int) == merged(text, reversed(cs)),
{
    lemma_reverse_prefix(text, cs, cs.len() as int);
    assert(cs.subrange(0, cs.len() as int) =~= cs);
}

proof fn lemma_reverse_prefix(text: Seq<u8>, cs: Seq<(ByteSpan, Seq<u8>)>, k: int)
    requires
        reverse_batch(text, cs),
        0 <= k <= cs.len(),
    ensures
        made_at_own_spans(text, cs, k) == merged(text, reversed(cs.subrange(0, k))),
    decreases k,
{
    if k == 0 {
        let r0 = reversed(cs.subrange(0, 0));
        assert(r0 =~= Seq::<(ByteSpan, Seq<u8>)>::empty());
        assert(merged_head(text, r0, 0) =~= Seq::<u8>::empty());
        assert(merged(text, r0) =~= text);
    } else {
        let j = k - 1;
        lemma_reverse_prefix(text, cs, j);
        let s = reversed(cs.subrange(0, j));
        let a = cs[j];
        assert(reversed(cs.subrange(0, k)) =~= seq![a] + s);
        assert(a.0.wf());
        assert(a.0.end <= text.len());
        assert forall|i: int| 0 <= i < s.len() implies (#[trigger] s[i]).0.wf() && a.0.end <= s[i].0.start by {
            assert(s[i] == cs[j - 1 - i]);
            assert(cs[j].0.end <= cs[j - 1 - i].0.start);
        }
        assert forall|i: int, i2: int| 0 <= i < i2 < s.len() implies #[trigger] s[i].0.end
            <= #[trigger] s[i2].0.start by {
            assert(s[i] == cs[j - 1 - i]);
            assert(s[i2] == cs[j - 1 - i2]);
            assert(cs[j - 1 - i].0.end <= cs[j - 1 - i2].0.start) by {
                let lo = j - 1 - i2;
                let hi = j - 1 - i;
                assert(cs[hi].0.end <= cs[lo].0.start);
                assert(cs[lo].0.wf());
                assert(cs[hi].0.wf());
            }
        }
        assert forall|i: int| 0 <= i < s.len() implies (#[trigger] s[i]).0.end <= text.len() by {
            assert(s[i] == cs[j - 1 - i]);
        }
        lemma_merged_prepend(text, a, s);
        assert(stripped(seq![a] + s, 0) == stripped(cs, j)) by {
            assert((seq![a] + s)[0] == a);
        }
    }
}

// ---- the cursor across an in-order batch ----

/// No change's text carries a cursor marker.
pub open spec fn no_markers(cs: Seq<(ByteSpan, Seq<u8>)>) -> bool {
    forall|j: int| 0 <= j < cs.len() ==> (#[trigger] extract_cursor_spec(cs[j].1)).1 is None
}

proof fn lemma_plan_no_marker_cursor(text: Seq<u8>, cs: Seq<(ByteSpan, Seq<u8>)>, k: int)
    requires
        in_order_batch(text, cs),
        no_markers(cs),
        0 <= k <= cs.len(),
    ensures
        plan_spec(cs, k) matches Ok(v) && v.2 is None,
    decreases k,
{
    lemma_plan_in_order_batch(text, cs, k);
    if k > 0 {
        lemma_plan_no_marker_cursor(text, cs, k - 1);
        assert(extract_cursor_spec(cs[k - 1].1).1 is None);
    }
}

/// The first change's span starts no earlier than where every planned
/// change lands.
proof fn lemma_targets_after_first(text: Seq<u8>, cs: Seq<(ByteSpan, Seq<u8>)>, j: int)
    requires
        in_order_batch(text, cs),
        0 <= j < cs.len(),
    ensures
        cs[0].0.start <= cs[j].0.start + shift_before(cs, j),
{
    if j > 0 {
        lemma_shift_between(text, cs, 0, j);
        lemma_extract_bounds(cs[0].1);
        assert(cs[0].0.wf());
        assert(shift_before(cs, 0) == 0);
        assert(shift_before(cs, 1) == change_gain(cs, 0));
    }
}

/// A cursor ending at or before the first span is not moved by any change.
proof fn lemma_cursor_before(text: Seq<u8>, cs: Seq<(ByteSpan, Seq<u8>)>, lo: usize, hi: usize, pe: usize, k: int)
    requires
        in_order_batch(text, cs),
        0 <= k <= cs.len(),
        lo <= hi,
        cs.len() > 0 ==> hi <= cs[0].0.start,
    ensures
        cursor_fold(model_planned(cs, cs.len() as int), k, (lo, hi), pe) == Some((lo, hi)),
    decreases k,
{
    if k > 0 {
        let j = k - 1;
        lemma_cursor_before(text, cs, lo, hi, pe, j);
        let planned = model_planned(cs, cs.len() as int);
        lemma_model_log(text, cs, j);
        lemma_targets_after_first(text, cs, j);
        lemma_total_len_grows(text, cs, 0, cs.len() as int);
        lemma_total_len_grows(text, cs, j, cs.len() as int);
        lemma_total_len_grows(text, cs, k, cs.len() as int);
        let t = target_of(cs, j);
        assert(planned[j] == (t, stripped(cs, j)));
        assert(signed(stripped(cs, j).len() as usize) == stripped(cs, j).len());
        assert(signed((t.end - t.start) as usize) == t.end - t.start);
    }
}

/// A cursor starting after the last span is moved by what the changes
/// before it changed in length.
proof fn lemma_cursor_after(text: Seq<u8>, cs: Seq<(ByteSpan, Seq<u8>)>, lo: usize, hi: usize, pe: usize, k: int)
    requires
        in_order_batch(text, cs),
        0 <= k <= cs.len(),
        lo <= hi <= text.len(),
        cs.len() > 0 ==> lo > cs[cs.len() - 1].0.end,
    ensures
        cursor_fold(model_planned(cs, cs.len() as int), k, (lo, hi), pe) == Some(
            ((lo + shift_before(cs, k)) as usize, (hi + shift_before(cs, k)) as usize),
        ),
        0 <= lo + shift_before(cs, k),
        hi + shift_before(cs, k) <= total_len(text, cs, k),
    decreases k,
{
    lemma_shift_bounds(text, cs, k);
    if k == 0 {
    } else {
        let j = k - 1;
        lemma_cursor_after(text, cs, lo, hi, pe, j);
        let planned = model_planned(cs, cs.len() as int);
        lemma_model_log(text, cs, j);
        lemma_shift_bounds(text, cs, j);
        lemma_extract_bounds(cs[j].1);
        lemma_total_len_grows(text, cs, j, k);
        lemma_total_len_grows(text, cs, k, cs.len() as int);
        assert(cs[j].0.end <= cs[cs.len() - 1].0.end) by {
            if j < cs.len() - 1 {
                assert(cs[j].0.end <= cs[cs.len() - 1].0.start);
                assert(cs[cs.len() - 1].0.wf());
            }
        }
        let t = target_of(cs, j);
        let x = stripped(cs, j);
        assert(planned[j] == (t, x));
        let d = shift_before(cs, j);
        let a = (lo + d) as usize;
        let b = (hi + d) as usize;
        assert(signed(x.len() as usize) == x.len());
        assert(signed((t.end - t.start) as usize) == t.end - t.start);
        assert(signed(a) == a);
        assert(signed(b) == b);
    }
}

/// Across an in-order batch whose texts carry no cursor markers, a cursor
/// ending at or before the first span stays where it is, and a cursor
/// starting after the last span is moved by what the whole batch changed in
/// length; either way it keeps its direction.
pub proof fn law_in_order_cursor(text: Seq<u8>, cs: Seq<(ByteSpan, Seq<u8>)>, prev: UnOrderedByteSpan)
    requires
        in_order_batch(text, cs),
        no_markers(cs),
        max_usize(prev.start, prev.end) <= text.len(),
    ensures
        plan_spec(cs, cs.len() as int) matches Ok(v) && ({
            let moved = cursor_spec(Some(prev), v.1, v.2);
            let grow = (merged(text, cs).len() - text.len()) as int;
            &&& (cs.len() == 0 || max_usize(prev.start, prev.end) <= cs[0].0.start) ==> moved == Some(
                Some(prev),
            )
            &&& (cs.len() > 0 && min_usize(prev.start, prev.end) > cs[cs.len() - 1].0.end) ==> moved
                == Some(
                Some(
                    UnOrderedByteSpan {
                        start: (prev.start + grow) as usize,
                        end: (prev.end + grow) as usize,
                    },
                ),
            )
        }),
{
    let n = cs.len() as int;
    lemma_plan_in_order_batch(text, cs, n);
    lemma_plan_no_marker_cursor(text, cs, n);
    lemma_apply_in_order_batch(text, cs, n);
    lemma_merged_head_len(text, cs, n);
    let lo = min_usize(prev.start, prev.end);
    let hi = max_usize(prev.start, prev.end);
    if n == 0 || hi <= cs[0].0.start {
        lemma_cursor_before(text, cs, lo, hi, prev.end, n);
    }
    if n > 0 && lo > cs[n - 1].0.end {
        lemma_cursor_after(text, cs, lo, hi, prev.end, n);
        assert(cs[n - 1].0.end <= text.len());
        assert(merged(text, cs).len() - text.len() == shift_before(cs, n));
    }
}

} // verus!
