use vstd::prelude::*;

verus! {

/// The smallest unit that two sequences are compared by.
///
/// The relation `same_as` need not be symmetric or transitive; it only has
/// to hold between every symbol and itself.
pub trait Symbol: Sized {
    /// Whether `self`, standing on the left, accepts `other` as equal.
    spec fn same_as(&self, other: &Self) -> bool;

    /// Decides `same_as`.
    fn matches(&self, other: &Self) -> (same: bool)
        ensures
            same == self.same_as(other),
    ;

    /// Every symbol accepts itself.
    proof fn same_as_self(&self)
        ensures
            self.same_as(self),
    ;
}

impl Symbol for char {
    open spec fn same_as(&self, other: &Self) -> bool {
        *self == *other
    }

    fn matches(&self, other: &Self) -> (same: bool) {
        *self == *other
    }

    proof fn same_as_self(&self) {
    }
}

/// Whether the windows of length `k` at `p` in `a` and at `q` in `b` agree
/// position by position, the symbols of `a` standing on the left.
pub open spec fn windows_agree<T: Symbol>(a: Seq<T>, p: int, b: Seq<T>, q: int, k: int) -> bool {
    forall|t: int| 0 <= t < k ==> (#[trigger] a[p + t]).same_as(&b[q + t])
}

} // verus!
