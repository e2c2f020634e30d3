//! The comparison rule that parameterizes a heap.
//!
//! A `Priority` value decides which of two elements should sit above the
//! other; installing `MinCmp` or `MaxCmp` turns the one heap structure into
//! a min-heap or a max-heap.

use vstd::prelude::*;

verus! {

/// A binary "outranks" rule on elements of type `T`.
///
/// `outranks(a, b)` holds when `a` should sit strictly above `b` in the
/// heap. The rule must behave like a strict order: it may not hold in both
/// directions at once, and "does not outrank" must be transitive. Those two
/// laws are exactly what the sift-up and sift-down passes need to restore
/// the heap shape, so every implementation discharges them in `properties`.
pub trait Priority<T>: Sized {
    /// The mathematical meaning of the rule.
    spec fn outranks(&self, a: T, b: T) -> bool;

    /// Executable decision: does `a` outrank `b`?
    fn higher_priority(&self, a: &T, b: &T) -> (r: bool)
        ensures
            r == self.outranks(*a, *b),
    ;

    /// The rule is asymmetric, and failure to outrank is transitive.
    proof fn properties(&self)
        ensures
            forall|a: T, b: T| #[trigger] self.outranks(a, b) ==> !self.outranks(b, a),
            forall|a: T, b: T, c: T|
                #![trigger self.outranks(a, b), self.outranks(b, c)]
                !self.outranks(a, b) && !self.outranks(b, c) ==> !self.outranks(a, c),
    ;
}

/// Min-ordering: smaller values outrank larger ones.
pub struct MinCmp;

/// Max-ordering: larger values outrank smaller ones.
pub struct MaxCmp;

impl Priority<i64> for MinCmp {
    open spec fn outranks(&self, a: i64, b: i64) -> bool {
        a < b
    }

    fn higher_priority(&self, a: &i64, b: &i64) -> (r: bool) {
        *a < *b
    }

    proof fn properties(&self) {
    }
}

impl Priority<i64> for MaxCmp {
    open spec fn outranks(&self, a: i64, b: i64) -> bool {
        a > b
    }

    fn higher_priority(&self, a: &i64, b: &i64) -> (r: bool) {
        *a > *b
    }

    proof fn properties(&self) {
    }
}

} // verus!
