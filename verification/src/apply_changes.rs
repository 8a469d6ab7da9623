//! Applying a batch of text changes whose spans all refer to the text as it
//! was before the batch, and carrying the cursor along with the edits.
//!
//! Planning keeps a log of the changes already placed. Each new span is moved
//! past the logged changes that lie before it, and is refused when it overlaps
//! one of them. The arithmetic is done on `isize` the way the planner always
//! did it, so the specifications below speak of `as` casts explicitly.
use vstd::prelude::*;
use vstd::utf8::*;
use crate::byte_span::{ByteSpan, UnOrderedByteSpan, RangeRelation, min_usize, max_usize};
use crate::text_bytes::{utf8_bytes, splice, splice_str, find_first, lemma_find_from_props, lemma_splice_valid};
use crate::text_change::{caret_marker, edge_marker};
use crate::text_change::{TextChange, TextChangeError, extract_cursor_spec};

verus! {

broadcast use vstd::seq::group_seq_axioms;

/// One change already placed by the planner: the span it removed, in the
/// coordinates the planner keeps for it, and how many bytes it inserted.
#[derive(Clone, Copy)]
pub struct EditLog {
    pub removed: ByteSpan,
    pub inserted_len: usize,
}

/// Why planning stops: two changes overlap, or an `isize` or `usize`
/// computation would overflow.
pub enum PlanFault {
    Overlap,
    Overflow,
}

/// `x as isize`, as a mathematical integer.
pub open spec fn signed(x: usize) -> int {
    (x as isize) as int
}

pub open spec fn fits_isize(v: int) -> bool {
    isize::MIN <= v <= isize::MAX
}

/// `(x as isize + d) as usize`.
pub open spec fn shift_pos(x: usize, d: int) -> usize {
    (signed(x) + d) as usize
}

/// The length of a span, taken `as isize`.
pub open spec fn span_len_signed(s: ByteSpan) -> int {
    signed((s.end - s.start) as usize)
}

/// By how much a logged change moved the text after it.
pub open spec fn log_delta(l: EditLog) -> int {
    signed(l.inserted_len) - span_len_signed(l.removed)
}

pub open spec fn span_shift_fits(s: ByteSpan, d: int) -> bool {
    fits_isize(signed(s.start) + d) && fits_isize(signed(s.end) + d)
}

/// Both ends of `s` moved by `d`, ordered again.
pub open spec fn shift_span(s: ByteSpan, d: int) -> ByteSpan {
    ByteSpan {
        start: min_usize(shift_pos(s.start, d), shift_pos(s.end, d)),
        end: max_usize(shift_pos(s.start, d), shift_pos(s.end, d)),
    }
}

pub open spec fn logs_wf(logs: Seq<EditLog>) -> bool {
    forall|k: int| 0 <= k < logs.len() ==> (#[trigger] logs[k]).removed.wf()
}

/// Where `x` goes in a list already sorted by span end: after every entry
/// that ends no later than it does.
pub open spec fn ins_pos(s: Seq<EditLog>, x: EditLog) -> int
    decreases s.len(),
{
    if s.len() == 0 {
        0
    } else if s.last().removed.end <= x.removed.end {
        s.len() as int
    } else {
        ins_pos(s.drop_last(), x)
    }
}

pub open spec fn insert_by_end(s: Seq<EditLog>, x: EditLog) -> Seq<EditLog> {
    s.insert(ins_pos(s, x), x)
}

/// The logs stably sorted by the end of their spans.
pub open spec fn sort_by_end(s: Seq<EditLog>) -> Seq<EditLog>
    decreases s.len(),
{
    if s.len() == 0 {
        s
    } else {
        insert_by_end(sort_by_end(s.drop_last()), s.last())
    }
}

/// One step of the scan of the logs against the span being placed (`a`),
/// with the index of the last log found after it (`sp`).
pub open spec fn scan_step(l: EditLog, i: int, a: ByteSpan, sp: Option<usize>) -> Result<
    (ByteSpan, Option<usize>),
    PlanFault,
> {
    match l.removed.relation_spec(a) {
        RangeRelation::Before => {
            let d = log_delta(l);
            if fits_isize(d) && span_shift_fits(a, d) {
                Ok((shift_span(a, d), sp))
            } else {
                Err(PlanFault::Overflow)
            }
        },
        RangeRelation::After => Ok((a, Some(i as usize))),
        _ => Err(PlanFault::Overlap),
    }
}

/// The scan over the first `n` logs, in the order they were logged.
pub open spec fn scan_logs(logs: Seq<EditLog>, range: ByteSpan, n: int) -> Result<
    (ByteSpan, Option<usize>),
    PlanFault,
>
    decreases n,
{
    if n <= 0 {
        Ok((range, None))
    } else {
        match scan_logs(logs, range, n - 1) {
            Ok((a, sp)) => scan_step(logs[n - 1], n - 1, a, sp),
            Err(f) => Err(f),
        }
    }
}

pub open spec fn tail_fits(res: Seq<EditLog>, p: int, d: int) -> bool {
    forall|k: int| p <= k < res.len() ==> span_shift_fits(#[trigger] res[k].removed, d)
}

/// The entries from index `p` on, moved by `d`.
pub open spec fn shift_tail(res: Seq<EditLog>, p: int, d: int) -> Seq<EditLog> {
    Seq::new(
        res.len(),
        |k: int|
            if k >= p {
                EditLog { removed: shift_span(res[k].removed, d), inserted_len: res[k].inserted_len }
            } else {
                res[k]
            },
    )
}

/// Placing one change (its span and the length of its text) against the
/// logs: the new logs and the span where the change is to be made.
pub open spec fn append_spec(logs: Seq<EditLog>, range: ByteSpan, ins: usize) -> Result<
    (Seq<EditLog>, ByteSpan),
    PlanFault,
> {
    let res = sort_by_end(logs);
    match scan_logs(logs, range, logs.len() as int) {
        Err(f) => Err(f),
        Ok((a, sp)) => {
            let entry = EditLog { removed: a, inserted_len: ins };
            match sp {
                None => Ok((res.push(entry), a)),
                Some(p) => {
                    let d = signed(ins) - span_len_signed(a);
                    if fits_isize(d) && tail_fits(res, p as int, d) {
                        Ok((shift_tail(res, p as int, d).insert(p as int, entry), a))
                    } else {
                        Err(PlanFault::Overflow)
                    }
                },
            }
        },
    }
}

/// A change as plain values: its span and the UTF-8 bytes of its text.
pub open spec fn change_view(c: TextChange) -> (ByteSpan, Seq<u8>) {
    match c {
        TextChange::Insert(r, s) => (r, utf8_bytes(s@)),
    }
}

pub open spec fn changes_view(cs: Seq<TextChange>) -> Seq<(ByteSpan, Seq<u8>)> {
    Seq::new(cs.len(), |i: int| change_view(cs[i]))
}

pub open spec fn changes_wf(cs: Seq<(ByteSpan, Seq<u8>)>) -> bool {
    forall|k: int| 0 <= k < cs.len() ==> (#[trigger] cs[k]).0.wf()
}

/// Planning the first `n` changes: the logs, the changes with their text
/// stripped of cursor markers and their spans moved to where they are to be
/// made, and the cursor that markers in their text asked for.
pub open spec fn plan_spec(changes: Seq<(ByteSpan, Seq<u8>)>, n: int) -> Result<
    (Seq<EditLog>, Seq<(ByteSpan, Seq<u8>)>, Option<ByteSpan>),
    PlanFault,
>
    decreases n,
{
    if n <= 0 {
        Ok((Seq::empty(), Seq::empty(), None))
    } else {
        match plan_spec(changes, n - 1) {
            Err(f) => Err(f),
            Ok((logs, planned, ic)) => {
                let (range, with) = changes[n - 1];
                let (w, c) = extract_cursor_spec(with);
                match append_spec(logs, range, w.len() as usize) {
                    Err(f) => Err(f),
                    Ok((logs2, target)) => match c {
                        None => Ok((logs2, planned.push((target, w)), ic)),
                        Some((cs, ce)) => {
                            if target.start + cs <= usize::MAX && target.start + ce <= usize::MAX {
                                let a = (target.start + cs) as usize;
                                let b = (target.start + ce) as usize;
                                Ok(
                                    (
                                        logs2,
                                        planned.push((target, w)),
                                        Some(ByteSpan { start: min_usize(a, b), end: max_usize(a, b) }),
                                    ),
                                )
                            } else {
                                Err(PlanFault::Overflow)
                            }
                        },
                    },
                }
            },
        }
    }
}

/// The text after making the first `n` planned changes one after the other;
/// `None` when a span does not fall on character boundaries of the text it
/// is made in.
pub open spec fn apply_planned(text: Seq<u8>, planned: Seq<(ByteSpan, Seq<u8>)>, n: int) -> Option<
    Seq<u8>,
>
    decreases n,
{
    if n <= 0 {
        Some(text)
    } else {
        match apply_planned(text, planned, n - 1) {
            None => None,
            Some(t) => {
                let (r, w) = planned[n - 1];
                if r.start <= r.end <= t.len() && is_char_boundary(t, r.start as int)
                    && is_char_boundary(t, r.end as int) {
                    Some(splice(t, r.start as int, r.end as int, w))
                } else {
                    None
                }
            },
        }
    }
}

/// How one change made moves a cursor `(start, end)`; `prev_end` is where the
/// cursor ended before the batch. `None` when the arithmetic overflows.
pub open spec fn cursor_step(cur: (usize, usize), prev_end: usize, ch: (ByteSpan, Seq<u8>)) -> Option<
    (usize, usize),
> {
    let (r, w) = ch;
    let wl = w.len() as usize;
    let bd = signed(wl) - span_len_signed(r);
    let span = ByteSpan { start: min_usize(cur.0, cur.1), end: max_usize(cur.0, cur.1) };
    if !fits_isize(bd) {
        None
    } else {
        match span.relation_spec(r) {
            RangeRelation::Before => Some(cur),
            RangeRelation::After => {
                if fits_isize(signed(cur.0) + bd) && fits_isize(signed(cur.1) + bd) {
                    Some((shift_pos(cur.0, bd), shift_pos(cur.1, bd)))
                } else {
                    None
                }
            },
            RangeRelation::StartInside => {
                if fits_isize(signed(prev_end) + bd) {
                    Some((r.start, shift_pos(prev_end, bd)))
                } else {
                    None
                }
            },
            RangeRelation::EndInside => {
                if r.start + wl <= usize::MAX {
                    Some((cur.0, (r.start + wl) as usize))
                } else {
                    None
                }
            },
            RangeRelation::Inside => {
                if r.start + wl <= usize::MAX {
                    Some((r.start, (r.start + wl) as usize))
                } else {
                    None
                }
            },
            RangeRelation::Contains => {
                if fits_isize(signed(cur.1) + bd) {
                    Some((cur.0, shift_pos(cur.1, bd)))
                } else {
                    None
                }
            },
        }
    }
}

pub open spec fn cursor_fold(
    planned: Seq<(ByteSpan, Seq<u8>)>,
    n: int,
    start: (usize, usize),
    prev_end: usize,
) -> Option<(usize, usize)>
    decreases n,
{
    if n <= 0 {
        Some(start)
    } else {
        match cursor_fold(planned, n - 1, start, prev_end) {
            None => None,
            Some(cur) => cursor_step(cur, prev_end, planned[n - 1]),
        }
    }
}

/// The cursor after the batch: the one a marker asked for, or the previous
/// cursor carried along every change and turned back to its direction.
/// `None` when the arithmetic overflows.
pub open spec fn cursor_spec(
    prev: Option<UnOrderedByteSpan>,
    planned: Seq<(ByteSpan, Seq<u8>)>,
    ic: Option<ByteSpan>,
) -> Option<Option<UnOrderedByteSpan>> {
    match prev {
        None => Some(None),
        Some(p) => match ic {
            Some(c) => Some(Some(UnOrderedByteSpan { start: c.start, end: c.end })),
            None => match cursor_fold(
                planned,
                planned.len() as int,
                (min_usize(p.start, p.end), max_usize(p.start, p.end)),
                p.end,
            ) {
                None => None,
                Some((s, e)) => Some(
                    Some(
                        if p.start > p.end {
                            UnOrderedByteSpan { start: e, end: s }
                        } else {
                            UnOrderedByteSpan { start: s, end: e }
                        },
                    ),
                ),
            },
        },
    }
}

/// The batch can be applied without a panic: no arithmetic overflows, and
/// every planned span falls on character boundaries when it is made.
pub open spec fn batch_applicable(
    text: Seq<u8>,
    prev: Option<UnOrderedByteSpan>,
    changes: Seq<(ByteSpan, Seq<u8>)>,
) -> bool {
    &&& changes_wf(changes)
    &&& match plan_spec(changes, changes.len() as int) {
        Err(PlanFault::Overflow) => false,
        Err(PlanFault::Overlap) => true,
        Ok((_, planned, ic)) => cursor_spec(prev, planned, ic) is Some && apply_planned(
            text,
            planned,
            planned.len() as int,
        ) is Some,
    }
}


// ---- lemmas on the specifications ----

proof fn lemma_insert_pos(s: Seq<EditLog>, x: EditLog)
    ensures
        0 <= ins_pos(s, x) <= s.len(),
    decreases s.len(),
{
    if s.len() > 0 && s.last().removed.end > x.removed.end {
        lemma_insert_pos(s.drop_last(), x);
    }
}

proof fn lemma_sort_len_wf(s: Seq<EditLog>)
    ensures
        sort_by_end(s).len() == s.len(),
        logs_wf(s) ==> logs_wf(sort_by_end(s)),
    decreases s.len(),
{
    if s.len() > 0 {
        let t = sort_by_end(s.drop_last());
        lemma_sort_len_wf(s.drop_last());
        lemma_insert_pos(t, s.last());
        if logs_wf(s) {
            assert(logs_wf(s.drop_last()));
            let r = t.insert(ins_pos(t, s.last()), s.last());
            assert forall|k: int| 0 <= k < r.len() implies (#[trigger] r[k]).removed.wf() by {
                if k < ins_pos(t, s.last()) {
                    assert(r[k] == t[k]);
                } else if k > ins_pos(t, s.last()) {
                    assert(r[k] == t[k - 1]);
                }
            }
        }
    }
}

/// Once the scan has stopped, scanning more logs changes nothing.
proof fn lemma_scan_stuck(logs: Seq<EditLog>, range: ByteSpan, j: int, n: int)
    requires
        0 <= j <= n,
        scan_logs(logs, range, j) is Err,
    ensures
        scan_logs(logs, range, n) == scan_logs(logs, range, j),
    decreases n - j,
{
    if n > j {
        lemma_scan_stuck(logs, range, j, n - 1);
    }
}

/// Once planning has stopped, planning more changes changes nothing.
proof fn lemma_plan_stuck(changes: Seq<(ByteSpan, Seq<u8>)>, j: int, n: int)
    requires
        0 <= j <= n,
        plan_spec(changes, j) is Err,
    ensures
        plan_spec(changes, n) == plan_spec(changes, j),
    decreases n - j,
{
    if n > j {
        lemma_plan_stuck(changes, j, n - 1);
    }
}

proof fn lemma_apply_prefix(text: Seq<u8>, planned: Seq<(ByteSpan, Seq<u8>)>, j: int, n: int)
    requires
        0 <= j <= n,
        apply_planned(text, planned, n) is Some,
    ensures
        apply_planned(text, planned, j) is Some,
    decreases n - j,
{
    if n > j {
        lemma_apply_prefix(text, planned, j + 1, n);
    }
}

proof fn lemma_cursor_prefix(
    planned: Seq<(ByteSpan, Seq<u8>)>,
    start: (usize, usize),
    prev_end: usize,
    j: int,
    n: int,
)
    requires
        0 <= j <= n,
        cursor_fold(planned, n, start, prev_end) is Some,
    ensures
        cursor_fold(planned, j, start, prev_end) is Some,
    decreases n - j,
{
    if n > j {
        lemma_cursor_prefix(planned, start, prev_end, j + 1, n);
    }
}

// ---- executable steps ----

fn shift_span_by(s: ByteSpan, d: isize) -> (r: ByteSpan)
    requires
        span_shift_fits(s, d as int),
    ensures
        r == shift_span(s, d as int),
        r.wf(),
{
    ByteSpan::new((s.start as isize + d) as usize, (s.end as isize + d) as usize)
}

fn log_delta_of(l: &EditLog) -> (d: isize)
    requires
        l.removed.wf(),
        fits_isize(log_delta(*l)),
    ensures
        d as int == log_delta(*l),
{
    l.inserted_len as isize - (l.removed.end - l.removed.start) as isize
}

/// The logs stably sorted by the end of their spans (an insertion sort).
fn sort_logs_by_end(logs: &Vec<EditLog>) -> (r: Vec<EditLog>)
    ensures
        r@ == sort_by_end(logs@),
{
    let mut res: Vec<EditLog> = Vec::new();
    let mut i: usize = 0;
    while i < logs.len()
        invariant
            i <= logs.len(),
            res@ == sort_by_end(logs@.subrange(0, i as int)),
        decreases logs.len() - i,
    {
        let x = logs[i];
        let mut j = res.len();
        assert(res@.subrange(0, res.len() as int) =~= res@);
        while j > 0 && res[j - 1].removed.end > x.removed.end
            invariant
                j <= res.len(),
                ins_pos(res@, x) == ins_pos(res@.subrange(0, j as int), x),
            decreases j,
        {
            assert(res@.subrange(0, j as int).drop_last() =~= res@.subrange(0, j - 1));
            j = j - 1;
        }
        proof {
            if j > 0 {
                assert(res@.subrange(0, j as int).last() == res@[j - 1]);
            }
            assert(ins_pos(res@, x) == j);
        }
        res.insert(j, x);
        proof {
            let pre = logs@.subrange(0, i as int + 1);
            assert(pre.drop_last() =~= logs@.subrange(0, i as int));
            assert(pre.last() == x);
        }
        i = i + 1;
    }
    assert(logs@.subrange(0, logs.len() as int) =~= logs@);
    res
}

/// Places one change against the logs: moves its span past the logged changes
/// that lie before it, refuses it when it overlaps one, and logs it.
fn append_log(range: ByteSpan, to_insert: usize, logs: &Vec<EditLog>) -> (r: Result<
    (Vec<EditLog>, ByteSpan),
    TextChangeError,
>)
    requires
        range.wf(),
        logs_wf(logs@),
        !(append_spec(logs@, range, to_insert) matches Err(PlanFault::Overflow)),
    ensures
        append_spec(logs@, range, to_insert) matches Ok((l, t)) ==> (r matches Ok(v) && v.0@ == l
            && v.1 == t),
        append_spec(logs@, range, to_insert) is Err ==> r == Err::<(Vec<EditLog>, ByteSpan), TextChangeError>(
            TextChangeError::OverlappingChanges,
        ),
        r matches Ok(v) ==> logs_wf(v.0@) && v.1.wf(),
{
    let mut res = sort_logs_by_end(logs);
    proof {
        lemma_sort_len_wf(logs@);
    }
    let mut actual_range = range;
    let mut split_point: Option<usize> = None;
    let n = logs.len();
    let mut i: usize = 0;
    while i < n
        invariant
            i <= n == logs@.len(),
            logs_wf(logs@),
            actual_range.wf(),
            scan_logs(logs@, range, i as int) == Ok::<(ByteSpan, Option<usize>), PlanFault>(
                (actual_range, split_point),
            ),
            !(scan_logs(logs@, range, n as int) matches Err(PlanFault::Overflow)),
            split_point matches Some(p) ==> p < n,
        decreases n - i,
    {
        let log = logs[i];
        let rel = log.removed.relative_to(actual_range);
        proof {
            assert(log.removed.wf());
            assert(scan_logs(logs@, range, i + 1) == scan_step(log, i as int, actual_range, split_point));
        }
        match rel {
            RangeRelation::Before => {
                proof {
                    if !(fits_isize(log_delta(log)) && span_shift_fits(actual_range, log_delta(log))) {
                        lemma_scan_stuck(logs@, range, i + 1, n as int);
                    }
                }
                let delta = log_delta_of(&log);
                actual_range = shift_span_by(actual_range, delta);
            },
            RangeRelation::After => {
                split_point = Some(i);
            },
            _ => {
                proof {
                    lemma_scan_stuck(logs@, range, i + 1, n as int);
                }
                return Err(TextChangeError::OverlappingChanges);
            },
        }
        i = i + 1;
    }
    let entry = EditLog { removed: actual_range, inserted_len: to_insert };
    match split_point {
        None => {
            res.push(entry);
            proof {
                let r = res@;
                assert forall|k: int| 0 <= k < r.len() implies (#[trigger] r[k]).removed.wf() by {
                    if k < r.len() - 1 {
                        assert(r[k] == sort_by_end(logs@)[k]);
                    }
                }
            }
            Ok((res, actual_range))
        },
        Some(p) => {
            let ghost d0 = signed(to_insert) - span_len_signed(actual_range);
            let ghost sorted = res@;
            proof {
                if !fits_isize(d0) {
                    assert(append_spec(logs@, range, to_insert) matches Err(PlanFault::Overflow));
                }
            }
            let delta: isize = to_insert as isize - (actual_range.end - actual_range.start) as isize;
            let mut k: usize = p;
            while k < res.len()
                invariant
                    p <= k <= res.len() == sorted.len() == n,
                    fits_isize(d0),
                    delta as int == d0,
                    logs_wf(sorted),
                    !(append_spec(logs@, range, to_insert) matches Err(PlanFault::Overflow)),
                    append_spec(logs@, range, to_insert) == (if tail_fits(sorted, p as int, d0) {
                        Ok::<(Seq<EditLog>, ByteSpan), PlanFault>(
                            (shift_tail(sorted, p as int, d0).insert(p as int, entry), actual_range),
                        )
                    } else {
                        Err(PlanFault::Overflow)
                    }),
                    forall|m: int|
                        0 <= m < res.len() ==> #[trigger] res@[m] == (if p <= m < k {
                            EditLog {
                                removed: shift_span(sorted[m].removed, d0),
                                inserted_len: sorted[m].inserted_len,
                            }
                        } else {
                            sorted[m]
                        }),
                decreases res.len() - k,
            {
                let old_log = res[k];
                assert(old_log == sorted[k as int]);
                proof {
                    if !span_shift_fits(old_log.removed, d0) {
                        assert(!tail_fits(sorted, p as int, d0));
                    }
                }
                let moved = EditLog {
                    removed: shift_span_by(old_log.removed, delta),
                    inserted_len: old_log.inserted_len,
                };
                res.set(k, moved);
                k = k + 1;
            }
            proof {
                assert(tail_fits(sorted, p as int, d0)) by {
                    assert forall|m: int| p <= m < sorted.len() implies span_shift_fits(
                        #[trigger] sorted[m].removed,
                        d0,
                    ) by {
                        if !span_shift_fits(sorted[m].removed, d0) {
                            assert(append_spec(logs@, range, to_insert) matches Err(PlanFault::Overflow));
                        }
                    }
                }
                assert(res@ =~= shift_tail(sorted, p as int, d0));
            }
            res.insert(p, entry);
            proof {
                let r = res@;
                assert forall|m: int| 0 <= m < r.len() implies (#[trigger] r[m]).removed.wf() by {
                    if m < p {
                        assert(r[m] == sorted[m]);
                    } else if m > p {
                        assert(r[m] == shift_tail(sorted, p as int, d0)[m - 1]);
                    }
                }
            }
            Ok((res, actual_range))
        },
    }
}

/// Moves a cursor `(start, end)` along one change that was made.
fn cursor_step_exec(cur: (usize, usize), prev_end: usize, change: &TextChange) -> (r: (usize, usize))
    requires
        change_view(*change).0.wf(),
        cursor_step(cur, prev_end, change_view(*change)) is Some,
    ensures
        cursor_step(cur, prev_end, change_view(*change)) == Some(r),
{
    let TextChange::Insert(change_range, with) = change;
    let (cursor_start, cursor_end) = cur;
    let wl = with.as_str().len();
    let byte_delta: isize = wl as isize - (change_range.end - change_range.start) as isize;
    match ByteSpan::new(cursor_start, cursor_end).relative_to(*change_range) {
        RangeRelation::Before => (cursor_start, cursor_end),
        RangeRelation::After => (
            (cursor_start as isize + byte_delta) as usize,
            (cursor_end as isize + byte_delta) as usize,
        ),
        RangeRelation::StartInside => (change_range.start, (prev_end as isize + byte_delta) as usize),
        RangeRelation::EndInside => (cursor_start, change_range.start + wl),
        RangeRelation::Inside => (change_range.start, change_range.start + wl),
        RangeRelation::Contains => (cursor_start, (cursor_end as isize + byte_delta) as usize),
    }
}

/// Applies a batch of changes whose spans all refer to the text as it was
/// before the batch, in the order given, and returns where the cursor ends up.
///
/// A change whose span overlaps one placed before it is refused: the whole
/// batch then fails with [`TextChangeError::OverlappingChanges`] and the text
/// is left as it was. Cursor markers in a change's text are removed, and the
/// last change that carried one decides the new cursor; otherwise the previous
/// cursor is carried along the changes. With no previous cursor the result is
/// `None`.
pub fn apply_text_changes(
    text: &mut String,
    prev_cursor: Option<UnOrderedByteSpan>,
    changes: Vec<TextChange>,
) -> (r: Result<Option<UnOrderedByteSpan>, TextChangeError>)
    requires
        batch_applicable(utf8_bytes(old(text)@), prev_cursor, changes_view(changes@)),
    ensures
        ({
            let cv = changes_view(changes@);
            match plan_spec(cv, cv.len() as int) {
                Err(_) => r == Err::<Option<UnOrderedByteSpan>, TextChangeError>(
                    TextChangeError::OverlappingChanges,
                ) && final(text)@ == old(text)@,
                Ok((_, planned, ic)) => Some(r) == match cursor_spec(prev_cursor, planned, ic) {
                    Some(c) => Some(Ok::<Option<UnOrderedByteSpan>, TextChangeError>(c)),
                    None => None,
                } && Some(utf8_bytes(final(text)@)) == apply_planned(
                    utf8_bytes(old(text)@),
                    planned,
                    planned.len() as int,
                ),
            }
        }),
{
    let ghost cv = changes_view(changes@);
    let ghost n0 = cv.len() as int;
    let mut logs: Vec<EditLog> = Vec::new();
    let mut actual_changes: Vec<TextChange> = Vec::new();
    let mut inserted_cursor: Option<ByteSpan> = None;
    let n = changes.len();
    let mut i: usize = 0;
    assert(changes_view(actual_changes@) =~= Seq::<(ByteSpan, Seq<u8>)>::empty());
    while i < n
        invariant
            i <= n == changes@.len() == n0,
            cv == changes_view(changes@),
            changes_wf(cv),
            !(plan_spec(cv, n0) matches Err(PlanFault::Overflow)),
            plan_spec(cv, i as int) == Ok::<
                (Seq<EditLog>, Seq<(ByteSpan, Seq<u8>)>, Option<ByteSpan>),
                PlanFault,
            >((logs@, changes_view(actual_changes@), inserted_cursor)),
            logs_wf(logs@),
            changes_wf(changes_view(actual_changes@)),
            text@ == old(text)@,
        decreases n - i,
    {
        let (range, with) = match &changes[i] {
            TextChange::Insert(r, w) => (*r, w.clone()),
        };
        assert(cv[i as int] == (range, utf8_bytes(with@)));
        let (with, extracted_cursor) = TextChange::try_extract_cursor(with);
        let to_insert = with.as_str().len();
        proof {
            assert(range.wf());
            if append_spec(logs@, range, to_insert) is Err {
                lemma_plan_stuck(cv, i + 1, n0);
            }
        }
        match append_log(range, to_insert, &logs) {
            Err(e) => {
                proof {
                    lemma_plan_stuck(cv, i + 1, n0);
                }
                return Err(e);
            },
            Ok((new_logs, target)) => {
                logs = new_logs;
                match extracted_cursor {
                    Some(c) => {
                        proof {
                            if !(target.start + c.start <= usize::MAX && target.start + c.end
                                <= usize::MAX) {
                                lemma_plan_stuck(cv, i + 1, n0);
                            }
                        }
                        inserted_cursor = Some(
                            ByteSpan::new(target.start + c.start, target.start + c.end),
                        );
                    },
                    None => {},
                }
                let ghost before = actual_changes@;
                actual_changes.push(TextChange::Insert(target, with));
                proof {
                    assert(changes_view(actual_changes@) =~= changes_view(before).push(
                        (target, utf8_bytes(with@)),
                    ));
                }
            },
        }
        i = i + 1;
    }
    let ghost planned = changes_view(actual_changes@);
    let ghost ic = inserted_cursor;
    assert(plan_spec(cv, n0) == Ok::<
        (Seq<EditLog>, Seq<(ByteSpan, Seq<u8>)>, Option<ByteSpan>),
        PlanFault,
    >((logs@, planned, ic)));
    let m = actual_changes.len();
    let adjusted_cursor = match prev_cursor {
        None => None,
        Some(prev) => match inserted_cursor {
            Some(cursor) => Some(UnOrderedByteSpan::new(cursor.start, cursor.end)),
            None => {
                let ordered = ByteSpan::new(prev.start, prev.end);
                let ghost start = (ordered.start, ordered.end);
                let mut cur = (ordered.start, ordered.end);
                let mut k: usize = 0;
                while k < m
                    invariant
                        k <= m == planned.len() == actual_changes@.len(),
                        planned == changes_view(actual_changes@),
                        changes_wf(planned),
                        cursor_fold(planned, m as int, start, prev.end) is Some,
                        cursor_fold(planned, k as int, start, prev.end) == Some(cur),
                    decreases m - k,
                {
                    proof {
                        lemma_cursor_prefix(planned, start, prev.end, k + 1, m as int);
                        assert(planned[k as int] == change_view(actual_changes@[k as int]));
                    }
                    cur = cursor_step_exec(cur, prev.end, &actual_changes[k]);
                    k = k + 1;
                }
                let (cursor_start, cursor_end) = if prev.start > prev.end {
                    (cur.1, cur.0)
                } else {
                    (cur.0, cur.1)
                };
                Some(UnOrderedByteSpan::new(cursor_start, cursor_end))
            },
        },
    };
    let ghost orig = utf8_bytes(text@);
    let mut k: usize = 0;
    while k < m
        invariant
            k <= m == planned.len() == actual_changes@.len(),
            planned == changes_view(actual_changes@),
            orig == utf8_bytes(old(text)@),
            apply_planned(orig, planned, m as int) is Some,
            apply_planned(orig, planned, k as int) == Some(utf8_bytes(text@)),
        decreases m - k,
    {
        proof {
            lemma_apply_prefix(orig, planned, k + 1, m as int);
            assert(planned[k as int] == change_view(actual_changes@[k as int]));
            vstd::utf8::encode_utf8_valid_utf8(text@);
        }
        match &actual_changes[k] {
            TextChange::Insert(byte_span, with) => {
                let next = splice_str(text.as_str(), byte_span.start, byte_span.end, with.as_str());
                *text = next;
            },
        }
        k = k + 1;
    }
    Ok(adjusted_cursor)
}

// ---- laws ----

/// A cursor read from markers lies within the text that carried them, and
/// removing the markers never lengthens the text.
pub(crate) proof fn lemma_extract_bounds(w: Seq<u8>)
    ensures
        extract_cursor_spec(w).0.len() <= w.len(),
        extract_cursor_spec(w).1 matches Some(c) ==> 0 <= c.0 <= c.1 <= w.len(),
{
    lemma_find_from_props(w, caret_marker(), 0);
    lemma_find_from_props(w, edge_marker(), 0);
    match find_first(w, edge_marker()) {
        Some(s) => {
            let b1 = splice(w, s, s + 3, Seq::<u8>::empty());
            lemma_find_from_props(b1, edge_marker(), 0);
        },
        None => {},
    }
}

/// Replacing bytes between two character boundaries keeps every other
/// boundary a boundary, moved by the change in length when it lay after the
/// replaced bytes.
pub(crate) proof fn lemma_splice_boundary(t: Seq<u8>, s: int, e: int, x: Seq<u8>, i: int)
    requires
        valid_utf8(t),
        valid_utf8(x),
        0 <= s <= e <= t.len(),
        is_char_boundary(t, s),
        is_char_boundary(t, e),
        0 <= i <= t.len(),
        is_char_boundary(t, i),
    ensures
        valid_utf8(splice(t, s, e, x)),
        i <= s ==> is_char_boundary(splice(t, s, e, x), i),
        e <= i ==> is_char_boundary(splice(t, s, e, x), i - e + s + x.len()),
{
    let u = splice(t, s, e, x);
    lemma_splice_valid(t, s, e, x);
    is_char_boundary_start_end_of_seq(u);
    is_char_boundary_start_end_of_seq(x);
    if i <= s {
        lemma_boundary_kept(t, s, e, x, i, i);
    }
    if e <= i {
        lemma_boundary_kept(t, s, e, x, i, i - e + s + x.len());
    }
}

pub(crate) proof fn lemma_boundary_kept(t: Seq<u8>, s: int, e: int, x: Seq<u8>, i: int, j: int)
    requires
        valid_utf8(t),
        valid_utf8(x),
        valid_utf8(splice(t, s, e, x)),
        0 <= s <= e <= t.len(),
        is_char_boundary(t, s),
        is_char_boundary(t, e),
        0 <= i <= t.len(),
        is_char_boundary(t, i),
        (i <= s && j == i) || (e <= i && j == i - e + s + x.len()),
    ensures
        is_char_boundary(splice(t, s, e, x), j),
{
    let u = splice(t, s, e, x);
    is_char_boundary_start_end_of_seq(u);
    is_char_boundary_start_end_of_seq(x);
    if j < u.len() {
        is_char_boundary_iff_not_is_continuation_byte(u, j);
        if i < s && j == i {
            assert(u[j] == t[i]);
            is_char_boundary_iff_not_is_continuation_byte(t, i);
        } else if j == s {
            if x.len() > 0 {
                assert(u[j] == x[0]);
                is_char_boundary_iff_not_is_continuation_byte(x, 0);
            } else {
                assert(u[j] == t[e]);
                is_char_boundary_iff_not_is_continuation_byte(t, e);
            }
        } else {
            assert(e <= i && j == i - e + s + x.len());
            if j == s + x.len() {
                assert(i == e);
                assert(u[j] == t[e]);
                is_char_boundary_iff_not_is_continuation_byte(t, e);
            } else {
                assert(u[j] == t[i]);
                is_char_boundary_iff_not_is_continuation_byte(t, i);
            }
        }
    }
}

proof fn lemma_single_log(r: ByteSpan, l: usize)
    ensures
        append_spec(Seq::<EditLog>::empty(), r, l) == Ok::<(Seq<EditLog>, ByteSpan), PlanFault>(
            (seq![EditLog { removed: r, inserted_len: l }], r),
        ),
        sort_by_end(seq![EditLog { removed: r, inserted_len: l }]) == seq![EditLog { removed: r, inserted_len: l }],
        forall|q: ByteSpan|
            scan_logs(seq![EditLog { removed: r, inserted_len: l }], q, 1) == scan_step(
                EditLog { removed: r, inserted_len: l },
                0,
                q,
                None,
            ),
{
    let x = EditLog { removed: r, inserted_len: l };
    let e = Seq::<EditLog>::empty();
    assert(sort_by_end(e) == e);
    assert(scan_logs(e, r, 0) == Ok::<(ByteSpan, Option<usize>), PlanFault>((r, None)));
    assert(e.push(x) =~= seq![x]);
    assert(seq![x].drop_last() =~= e);
    assert(e.insert(0, x) =~= seq![x]);
    assert forall|q: ByteSpan|
        scan_logs(seq![x], q, 1) == scan_step(x, 0, q, None) by {
        assert(scan_logs(seq![x], q, 0) == Ok::<(ByteSpan, Option<usize>), PlanFault>((q, None)));
        assert(seq![x][0] == x);
    }
}

/// The cursor a change's markers ask for, placed at the change's target.
pub open spec fn marker_cursor(target: ByteSpan, c: Option<(int, int)>) -> Option<ByteSpan> {
    match c {
        None => None,
        Some((cs, ce)) => Some(
            ByteSpan {
                start: min_usize((target.start + cs) as usize, (target.start + ce) as usize),
                end: max_usize((target.start + cs) as usize, (target.start + ce) as usize),
            },
        ),
    }
}

proof fn lemma_plan_first(cs: Seq<(ByteSpan, Seq<u8>)>)
    requires
        cs.len() >= 1,
        cs[0].0.start + cs[0].1.len() <= usize::MAX,
    ensures
        ({
            let (x, c) = extract_cursor_spec(cs[0].1);
            plan_spec(cs, 1) == Ok::<
                (Seq<EditLog>, Seq<(ByteSpan, Seq<u8>)>, Option<ByteSpan>),
                PlanFault,
            >(
                (
                    seq![EditLog { removed: cs[0].0, inserted_len: x.len() as usize }],
                    seq![(cs[0].0, x)],
                    marker_cursor(cs[0].0, c),
                ),
            )
        }),
{
    let (x, c) = extract_cursor_spec(cs[0].1);
    lemma_extract_bounds(cs[0].1);
    lemma_single_log(cs[0].0, x.len() as usize);
    assert(plan_spec(cs, 0) == Ok::<
        (Seq<EditLog>, Seq<(ByteSpan, Seq<u8>)>, Option<ByteSpan>),
        PlanFault,
    >((Seq::empty(), Seq::empty(), None)));
    assert(Seq::<(ByteSpan, Seq<u8>)>::empty().push((cs[0].0, x)) =~= seq![(cs[0].0, x)]);
}

/// The text that two non-overlapping changes make, the first span lying
/// before the second: the bytes before the first span, the first text, the
/// bytes between the spans, the second text, and the bytes after.
pub open spec fn merged_two(t: Seq<u8>, a: (ByteSpan, Seq<u8>), b: (ByteSpan, Seq<u8>)) -> Seq<u8> {
    t.subrange(0, a.0.start as int) + extract_cursor_spec(a.1).0 + t.subrange(
        a.0.end as int,
        b.0.start as int,
    ) + extract_cursor_spec(b.1).0 + t.subrange(b.0.end as int, t.len() as int)
}

pub open spec fn two_changes_apart(t: Seq<u8>, a: (ByteSpan, Seq<u8>), b: (ByteSpan, Seq<u8>)) -> bool {
    &&& valid_utf8(t)
    &&& valid_utf8(extract_cursor_spec(a.1).0)
    &&& valid_utf8(extract_cursor_spec(b.1).0)
    &&& a.0.wf()
    &&& b.0.wf()
    &&& a.0.end <= b.0.start
    &&& b.0.end <= t.len()
    &&& is_char_boundary(t, a.0.start as int)
    &&& is_char_boundary(t, a.0.end as int)
    &&& is_char_boundary(t, b.0.start as int)
    &&& is_char_boundary(t, b.0.end as int)
    &&& t.len() + a.1.len() + b.1.len() <= isize::MAX
}

#[verifier::spinoff_prover]
#[verifier::rlimit(40)]
proof fn lemma_plan_in_order(a: (ByteSpan, Seq<u8>), b: (ByteSpan, Seq<u8>))
    requires
        a.0.wf(),
        b.0.wf(),
        a.0.end <= b.0.start,
        b.0.end + a.1.len() + b.1.len() <= isize::MAX,
    ensures
        ({
            let xa = extract_cursor_spec(a.1).0;
            let xb = extract_cursor_spec(b.1).0;
            let da = xa.len() - (a.0.end - a.0.start);
            let rb2 = ByteSpan { start: (b.0.start + da) as usize, end: (b.0.end + da) as usize };
            &&& plan_spec(seq![a, b], 2) matches Ok(v) && v.1 == seq![(a.0, xa), (rb2, xb)]
            &&& changes_wf(seq![a, b])
        }),
{
    let (ra, wa) = a;
    let (rb, wb) = b;
    let (xa, ca) = extract_cursor_spec(wa);
    let (xb, cb) = extract_cursor_spec(wb);
    lemma_extract_bounds(wa);
    lemma_extract_bounds(wb);
    let la = xa.len() as usize;
    let ab = seq![a, b];
    assert(ab[0] == a && ab[1] == b);
    lemma_plan_first(ab);
    let log_a = EditLog { removed: ra, inserted_len: la };
    lemma_single_log(ra, la);
    let da = la - (ra.end - ra.start);
    let rb2 = ByteSpan { start: (rb.start + da) as usize, end: (rb.end + da) as usize };
    assert(log_delta(log_a) == da);
    assert(shift_span(rb, da) == rb2);
    assert(scan_step(log_a, 0, rb, None) == Ok::<(ByteSpan, Option<usize>), PlanFault>((rb2, None)));
    assert(seq![(ra, xa)].push((rb2, xb)) =~= seq![(ra, xa), (rb2, xb)]);
}

proof fn lemma_plan_out_of_order(a: (ByteSpan, Seq<u8>), b: (ByteSpan, Seq<u8>))
    requires
        a.0.wf(),
        b.0.wf(),
        a.0.end <= b.0.start,
        a.0.start < b.0.end,
        b.0.end + a.1.len() + b.1.len() <= isize::MAX,
    ensures
        plan_spec(seq![b, a], 2) matches Ok(v) && v.1 == seq![
            (b.0, extract_cursor_spec(b.1).0),
            (a.0, extract_cursor_spec(a.1).0),
        ],
        changes_wf(seq![b, a]),
{
    let (ra, wa) = a;
    let (rb, wb) = b;
    let (xa, ca) = extract_cursor_spec(wa);
    let (xb, cb) = extract_cursor_spec(wb);
    lemma_extract_bounds(wa);
    lemma_extract_bounds(wb);
    let la = xa.len() as usize;
    let lb = xb.len() as usize;
    let ba = seq![b, a];
    assert(ba[0] == b && ba[1] == a);
    lemma_plan_first(ba);
    let log_b = EditLog { removed: rb, inserted_len: lb };
    lemma_single_log(rb, lb);
    assert(rb.relation_spec(ra) == RangeRelation::After);
    assert(scan_step(log_b, 0, ra, None) == Ok::<(ByteSpan, Option<usize>), PlanFault>(
        (ra, Some(0usize)),
    ));
    let d2 = signed(la) - span_len_signed(ra);
    assert(seq![log_b][0] == log_b);
    assert(tail_fits(seq![log_b], 0, d2));
    assert(seq![(rb, xb)].push((ra, xa)) =~= seq![(rb, xb), (ra, xa)]);
}

proof fn lemma_apply_two(t: Seq<u8>, p: Seq<(ByteSpan, Seq<u8>)>)
    requires
        p.len() == 2,
        valid_utf8(t),
        valid_utf8(p[0].1),
        valid_utf8(splice(t, p[0].0.start as int, p[0].0.end as int, p[0].1)),
        p[0].0.start <= p[0].0.end <= t.len(),
        is_char_boundary(t, p[0].0.start as int),
        is_char_boundary(t, p[0].0.end as int),
        ({
            let t1 = splice(t, p[0].0.start as int, p[0].0.end as int, p[0].1);
            &&& p[1].0.start <= p[1].0.end <= t1.len()
            &&& is_char_boundary(t1, p[1].0.start as int)
            &&& is_char_boundary(t1, p[1].0.end as int)
        }),
    ensures
        apply_planned(t, p, 2) == Some(
            splice(
                splice(t, p[0].0.start as int, p[0].0.end as int, p[0].1),
                p[1].0.start as int,
                p[1].0.end as int,
                p[1].1,
            ),
        ),
{
    let t1 = splice(t, p[0].0.start as int, p[0].0.end as int, p[0].1);
    assert(apply_planned(t, p, 0) == Some(t));
    assert(apply_planned(t, p, 1) == Some(t1));
}

#[verifier::spinoff_prover]
#[verifier::rlimit(40)]
proof fn lemma_in_order(t: Seq<u8>, a: (ByteSpan, Seq<u8>), b: (ByteSpan, Seq<u8>))
    requires
        two_changes_apart(t, a, b),
    ensures
        batch_applicable(t, None, seq![a, b]),
        plan_spec(seq![a, b], 2) matches Ok(v) && apply_planned(t, v.1, 2) == Some(merged_two(t, a, b)),
{
    let (ra, wa) = a;
    let (rb, wb) = b;
    let xa = extract_cursor_spec(wa).0;
    let xb = extract_cursor_spec(wb).0;
    lemma_extract_bounds(wa);
    lemma_extract_bounds(wb);
    lemma_plan_in_order(a, b);
    let da = xa.len() - (ra.end - ra.start);
    let rb2 = ByteSpan { start: (rb.start + da) as usize, end: (rb.end + da) as usize };
    let pab = seq![(ra, xa), (rb2, xb)];
    assert(rb2.start == rb.start - ra.end + ra.start + xa.len());
    assert(rb2.end == rb.end - ra.end + ra.start + xa.len());
    lemma_splice_boundary(t, ra.start as int, ra.end as int, xa, rb.start as int);
    lemma_splice_boundary(t, ra.start as int, ra.end as int, xa, rb.end as int);
    let t1 = splice(t, ra.start as int, ra.end as int, xa);
    assert(pab[0] == (ra, xa) && pab[1] == (rb2, xb));
    lemma_apply_two(t, pab);
    assert(plan_spec(seq![a, b], 2) matches Ok(v) && v.1 == pab);
    assert(cursor_spec(None, pab, None) is Some);
    assert(splice(t1, rb2.start as int, rb2.end as int, xb) =~= merged_two(t, a, b));
}

#[verifier::spinoff_prover]
#[verifier::rlimit(40)]
proof fn lemma_out_of_order(t: Seq<u8>, a: (ByteSpan, Seq<u8>), b: (ByteSpan, Seq<u8>))
    requires
        two_changes_apart(t, a, b),
        a.0.start < b.0.end,
    ensures
        batch_applicable(t, None, seq![b, a]),
        plan_spec(seq![b, a], 2) matches Ok(v) && apply_planned(t, v.1, 2) == Some(merged_two(t, a, b)),
{
    let (ra, wa) = a;
    let (rb, wb) = b;
    let xa = extract_cursor_spec(wa).0;
    let xb = extract_cursor_spec(wb).0;
    lemma_extract_bounds(wa);
    lemma_extract_bounds(wb);
    lemma_plan_out_of_order(a, b);
    let pba = seq![(rb, xb), (ra, xa)];
    lemma_splice_boundary(t, rb.start as int, rb.end as int, xb, ra.start as int);
    lemma_splice_boundary(t, rb.start as int, rb.end as int, xb, ra.end as int);
    let t2 = splice(t, rb.start as int, rb.end as int, xb);
    assert(pba[0] == (rb, xb) && pba[1] == (ra, xa));
    lemma_apply_two(t, pba);
    assert(splice(t2, ra.start as int, ra.end as int, xa) =~= merged_two(t, a, b));
}

/// Two changes whose spans do not overlap make the same text whichever of
/// them comes first in the batch: the bytes before the first span, the first
/// change's text, the bytes between the spans, the second change's text and
/// the bytes after. Two empty spans at the same position are left out: there
/// the change given first is inserted first.
pub proof fn law_two_changes_commute(t: Seq<u8>, a: (ByteSpan, Seq<u8>), b: (ByteSpan, Seq<u8>))
    requires
        two_changes_apart(t, a, b),
        a.0.start < b.0.end,
    ensures
        batch_applicable(t, None, seq![a, b]),
        batch_applicable(t, None, seq![b, a]),
        plan_spec(seq![a, b], 2) matches Ok(v) && apply_planned(t, v.1, 2) == Some(merged_two(t, a, b)),
        plan_spec(seq![b, a], 2) matches Ok(v) && apply_planned(t, v.1, 2) == Some(merged_two(t, a, b)),
{
    lemma_in_order(t, a, b);
    lemma_out_of_order(t, a, b);
}

/// A batch whose second change overlaps the first is refused as a whole
/// (and [`apply_text_changes`] then leaves the text as it was).
pub proof fn law_overlapping_changes_refused(a: (ByteSpan, Seq<u8>), b: (ByteSpan, Seq<u8>))
    requires
        a.0.wf(),
        b.0.wf(),
        a.0.start < b.0.end,
        b.0.start < a.0.end,
        a.0.start + a.1.len() <= usize::MAX,
    ensures
        plan_spec(seq![a, b], 2) == Err::<
            (Seq<EditLog>, Seq<(ByteSpan, Seq<u8>)>, Option<ByteSpan>),
            PlanFault,
        >(PlanFault::Overlap),
{
    let ab = seq![a, b];
    assert(ab[0] == a && ab[1] == b);
    lemma_extract_bounds(a.1);
    lemma_plan_first(ab);
    let xa = extract_cursor_spec(a.1).0;
    let xb = extract_cursor_spec(b.1).0;
    lemma_single_log(a.0, xa.len() as usize);
    let log_a = EditLog { removed: a.0, inserted_len: xa.len() as usize };
    assert(scan_step(log_a, 0, b.0, None) == Err::<(ByteSpan, Option<usize>), PlanFault>(
        PlanFault::Overlap,
    ));
    assert(scan_logs(seq![log_a], b.0, 1) is Err);
    assert(append_spec(seq![log_a], b.0, xb.len() as usize) == Err::<
        (Seq<EditLog>, ByteSpan),
        PlanFault,
    >(PlanFault::Overlap));
}

} // verus!
