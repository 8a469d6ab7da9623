use vstd::prelude::*;

verus! {

/// A span of byte offsets into a text, ordered so that `start <= end`
/// whenever it was built by [`ByteSpan::new`].
#[derive(Debug, Clone, Copy, PartialEq, Eq, Structural)]
pub struct ByteSpan {
    pub start: usize,
    pub end: usize,
}

/// A span whose `start` may lie after its `end` (a selection made right to left).
#[derive(Debug, Clone, Copy, PartialEq, Eq, Structural)]
pub struct UnOrderedByteSpan {
    pub start: usize,
    pub end: usize,
}

/// Where one span lies with respect to another.
#[derive(Debug, PartialEq, Eq, Structural, Clone, Copy)]
pub enum RangeRelation {
    Before,
    After,
    StartInside,
    EndInside,
    Inside,
    Contains,
}

pub open spec fn min_usize(a: usize, b: usize) -> usize {
    if a <= b { a } else { b }
}

pub open spec fn max_usize(a: usize, b: usize) -> usize {
    if a <= b { b } else { a }
}

impl ByteSpan {
    /// An ordered span: its start never lies after its end.
    pub open spec fn wf(self) -> bool {
        self.start <= self.end
    }

    /// Builds the ordered span covering the bytes between `start` and `end`,
    /// whichever order they come in.
    pub fn new(start: usize, end: usize) -> (s: Self)
        ensures
            s.start == min_usize(start, end),
            s.end == max_usize(start, end),
            s.wf(),
    {
        if start <= end {
            ByteSpan { start, end }
        } else {
            ByteSpan { start: end, end: start }
        }
    }

    pub fn from_range(range: &core::ops::Range<usize>) -> (s: Self)
        ensures
            s.start == min_usize(range.start, range.end),
            s.end == max_usize(range.start, range.end),
            s.wf(),
    {
        Self::new(range.start, range.end)
    }

    pub fn range(&self) -> (r: core::ops::Range<usize>)
        ensures
            r.start == self.start,
            r.end == self.end,
    {
        self.start..self.end
    }

    /// True when `pos` lies in the half-open span `[start, end)`.
    pub fn contains_pos(&self, pos: usize) -> (b: bool)
        ensures
            b == (self.start <= pos && pos < self.end),
    {
        self.start <= pos && pos < self.end
    }

    /// True when `other` lies within this span.
    pub fn contains(&self, other: ByteSpan) -> (b: bool)
        ensures
            b == (self.start <= other.start && self.end >= other.end),
    {
        self.start <= other.start && self.end >= other.end
    }

    pub fn is_empty(self) -> (b: bool)
        ensures
            b == (self.start == self.end),
    {
        self.end == self.start
    }

    pub fn unordered(&self) -> (u: UnOrderedByteSpan)
        ensures
            u.start == self.start,
            u.end == self.end,
    {
        UnOrderedByteSpan::new(self.start, self.end)
    }

    /// The relation of this span to `other`, both ordered.
    pub open spec fn relation_spec(self, other: ByteSpan) -> RangeRelation {
        if self.end <= other.start {
            RangeRelation::Before
        } else if self.start >= other.end {
            RangeRelation::After
        } else if self.start >= other.start && self.end <= other.end {
            RangeRelation::Inside
        } else if self.start <= other.start && self.end >= other.end {
            RangeRelation::Contains
        } else if self.start < other.start {
            RangeRelation::EndInside
        } else {
            RangeRelation::StartInside
        }
    }

    /// Classifies this span against `other`: entirely before, entirely after,
    /// inside it, containing it, or overlapping one of its ends.
    pub fn relative_to(&self, other: Self) -> (r: RangeRelation)
        requires
            self.wf(),
            other.wf(),
        ensures
            r == self.relation_spec(other),
    {
        let (s_start, s_end) = (self.start, self.end);
        let (other_start, other_end) = (other.start, other.end);
        if s_end <= other_start {
            RangeRelation::Before
        } else if s_start >= other_end {
            RangeRelation::After
        } else if s_start >= other_start && s_end <= other_end {
            RangeRelation::Inside
        } else if s_start <= other_start && s_end >= other_end {
            RangeRelation::Contains
        } else if s_end > other_start && s_start < other_start {
            RangeRelation::EndInside
        } else {
            RangeRelation::StartInside
        }
    }
}

/// Each pair of ordered spans stands in exactly the relation that
/// `relation_spec` names, and overlapping spans are never Before or After.
pub proof fn relation_is_exhaustive(a: ByteSpan, b: ByteSpan)
    requires
        a.wf(),
        b.wf(),
    ensures
        a.relation_spec(b) == RangeRelation::Before <==> a.end <= b.start,
        a.relation_spec(b) == RangeRelation::After <==> (b.start < a.end && a.start >= b.end),
        a.relation_spec(b) == RangeRelation::StartInside ==> (b.start < a.start < b.end < a.end),
        a.relation_spec(b) == RangeRelation::EndInside ==> (a.start < b.start < a.end < b.end),
{
}

impl UnOrderedByteSpan {
    pub fn new(start: usize, end: usize) -> (s: Self)
        ensures
            s.start == start,
            s.end == end,
    {
        UnOrderedByteSpan { start, end }
    }

    pub fn range(&self) -> (r: core::ops::Range<usize>)
        ensures
            r.start == self.start,
            r.end == self.end,
    {
        self.start..self.end
    }

    pub fn ordered(&self) -> (s: ByteSpan)
        ensures
            s.start == min_usize(self.start, self.end),
            s.end == max_usize(self.start, self.end),
            s.wf(),
    {
        ByteSpan::new(self.start, self.end)
    }
}

/// Ordering an unordered span and making it unordered again loses only the
/// direction: the result is the span it started from, its ends sorted.
pub proof fn ordered_unordered_roundtrip(s: ByteSpan)
    requires
        s.wf(),
    ensures
        ({
            let u = UnOrderedByteSpan { start: s.start, end: s.end };
            min_usize(u.start, u.end) == s.start && max_usize(u.start, u.end) == s.end
        }),
{
}

} // verus!
