//! A byte-range description for the range-taking operations: each edge of
//! the range is either included, excluded, or left open.

use vstd::prelude::*;

verus! {

/// One edge of a byte range.
#[derive(Debug, Clone, Copy, PartialEq, Eq, Structural)]
pub enum RangeBound {
    /// The edge lies on the given offset, which belongs to the range.
    Included(usize),
    /// The edge lies on the given offset, which does not belong to the range.
    Excluded(usize),
    /// The range extends to the end of the content on this side.
    Unbounded,
}

/// The first byte offset inside a range whose lower edge is `b`.
pub open spec fn start_of(b: RangeBound) -> int {
    match b {
        RangeBound::Included(n) => n as int,
        RangeBound::Excluded(n) => n as int + 1,
        RangeBound::Unbounded => 0,
    }
}

/// The first byte offset past a range whose upper edge is `b`, for content
/// of length `len`.
pub open spec fn end_of(b: RangeBound, len: int) -> int {
    match b {
        RangeBound::Included(n) => n as int + 1,
        RangeBound::Excluded(n) => n as int,
        RangeBound::Unbounded => len,
    }
}

/// Computes the half-open byte interval `[start, end)` described by the two
/// edges, for content of length `len`.
pub fn resolve_bounds(start: RangeBound, end: RangeBound, len: usize) -> (r: (usize, usize))
    requires
        0 <= start_of(start) <= end_of(end, len as int) <= len as int,
    ensures
        r.0 == start_of(start),
        r.1 == end_of(end, len as int),
{
    let s = match start {
        RangeBound::Included(n) => n,
        RangeBound::Excluded(n) => n + 1,
        RangeBound::Unbounded => 0,
    };
    let e = match end {
        RangeBound::Included(n) => n + 1,
        RangeBound::Excluded(n) => n,
        RangeBound::Unbounded => len,
    };
    (s, e)
}

} // verus!
