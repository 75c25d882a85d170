//! Char-indexed, possibly unbounded half-open ranges, tagged with the view
//! (original or normalized text) whose offsets they use.

use vstd::prelude::*;

verus! {

/// One endpoint of a char-indexed range: absent, inclusive, or exclusive.
#[derive(Debug, Clone, Copy)]
pub enum RangeBound {
    Unbounded,
    Included(usize),
    Excluded(usize),
}

/// A half-open char-indexed range with possibly unbounded endpoints.
#[derive(Debug, Clone, Copy)]
pub struct CharSpan {
    pub start: RangeBound,
    pub end: RangeBound,
}

/// A range usable by `NormalizedString` to index its content, stated either
/// against the `Original` or against the `Normalized` string.
#[derive(Debug, Clone, Copy)]
pub enum Range {
    Original(CharSpan),
    Normalized(CharSpan),
}

/// The concrete start index that a bound resolves to.
pub open spec fn resolve_start(b: RangeBound) -> int {
    match b {
        RangeBound::Unbounded => 0,
        RangeBound::Included(i) => i as int,
        RangeBound::Excluded(i) => i as int + 1,
    }
}

/// The concrete end index that a bound resolves to, for a view of `max_len` chars.
pub open spec fn resolve_end(b: RangeBound, max_len: int) -> int {
    match b {
        RangeBound::Unbounded => max_len,
        RangeBound::Included(i) => i as int + 1,
        RangeBound::Excluded(i) => i as int,
    }
}

/// Resolved endpoints stay within `usize`; only the two `+ 1` cases constrain anything.
pub open spec fn span_resolvable(sp: CharSpan) -> bool {
    &&& match sp.start {
        RangeBound::Excluded(i) => i < usize::MAX,
        _ => true,
    }
    &&& match sp.end {
        RangeBound::Included(i) => i < usize::MAX,
        _ => true,
    }
}

impl CharSpan {
    /// The span `s..e`.
    pub fn bounded(s: usize, e: usize) -> (r: CharSpan)
        ensures
            r == (CharSpan { start: RangeBound::Included(s), end: RangeBound::Excluded(e) }),
    {
        CharSpan { start: RangeBound::Included(s), end: RangeBound::Excluded(e) }
    }

    /// The span `s..`.
    pub fn from_start(s: usize) -> (r: CharSpan)
        ensures
            r == (CharSpan { start: RangeBound::Included(s), end: RangeBound::Unbounded }),
    {
        CharSpan { start: RangeBound::Included(s), end: RangeBound::Unbounded }
    }

    /// The span `..e`.
    pub fn to_end(e: usize) -> (r: CharSpan)
        ensures
            r == (CharSpan { start: RangeBound::Unbounded, end: RangeBound::Excluded(e) }),
    {
        CharSpan { start: RangeBound::Unbounded, end: RangeBound::Excluded(e) }
    }

    /// The span `..`.
    pub fn full() -> (r: CharSpan)
        ensures
            r == (CharSpan { start: RangeBound::Unbounded, end: RangeBound::Unbounded }),
    {
        CharSpan { start: RangeBound::Unbounded, end: RangeBound::Unbounded }
    }

    /// Resolve to a concrete `[start, end)` pair, for a view of `max_len` chars.
    pub fn into_full_range(self, max_len: usize) -> (r: (usize, usize))
        requires
            span_resolvable(self),
            resolve_end(self.end, max_len as int) <= usize::MAX,
        ensures
            r.0 == resolve_start(self.start),
            r.1 == resolve_end(self.end, max_len as int),
    {
        let start: usize = match self.start {
            RangeBound::Unbounded => 0,
            RangeBound::Included(i) => i,
            RangeBound::Excluded(i) => i + 1,
        };
        let end: usize = match self.end {
            RangeBound::Unbounded => max_len,
            RangeBound::Included(i) => i + 1,
            RangeBound::Excluded(i) => i,
        };
        (start, end)
    }
}

impl Range {
    /// The span inside, whichever view it is stated against.
    pub open spec fn spec_span(self) -> CharSpan {
        match self {
            Range::Original(sp) => sp,
            Range::Normalized(sp) => sp,
        }
    }

    /// Unwrap the underlying span.
    pub fn unwrap(self) -> (r: CharSpan)
        ensures
            r == self.spec_span(),
    {
        match self {
            Range::Original(sp) => sp,
            Range::Normalized(sp) => sp,
        }
    }
}

} // verus!
