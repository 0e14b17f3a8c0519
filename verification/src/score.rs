//! The fixed-point score format, and the views through which contracts read
//! vectors of scores.

use vstd::prelude::*;

verus! {

/// Units per whole: a score of `1.0` is stored as `SCALE`.
pub const SCALE: i64 = 1_000_000;

/// The score of a forbidden transition: minus ten thousand, in units.
pub const SENTINEL: i64 = -10_000 * SCALE;

/// A tenth of the sentinel's magnitude. While every free score stays within
/// this distance of zero, no sum of a few free scores outweighs one sentinel.
pub const SCORE_BOUND: i64 = 1_000 * SCALE;

/// A sequence of machine scores, read as mathematical integers.
pub open spec fn ints(v: Seq<i64>) -> Seq<int> {
    Seq::new(v.len(), |i: int| v[i] as int)
}

/// A sequence of accumulated scores, read as mathematical integers.
pub open spec fn wide(v: Seq<i128>) -> Seq<int> {
    Seq::new(v.len(), |i: int| v[i] as int)
}

/// The rows of a table of machine scores, read as mathematical integers.
pub open spec fn grid(m: Seq<Vec<i64>>) -> Seq<Seq<int>> {
    Seq::new(m.len(), |i: int| ints(m[i]@))
}

/// `m` has `rows` rows, each of width `width`.
pub open spec fn has_shape(m: Seq<Seq<int>>, rows: int, width: int) -> bool {
    &&& m.len() == rows
    &&& forall|i: int| 0 <= i < rows ==> (#[trigger] m[i]).len() == width
}

} // verus!
