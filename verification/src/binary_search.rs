use vstd::prelude::*;

verus! {

use core::cmp::Ordering;
use crate::order::{sorted, TotalOrder};
use vstd::slice::slice_index_get;

/// Bisection over `[lower, upper]` with a predicate. The interval is narrowed
/// around a midpoint until it cannot shrink further; with a monotone predicate
/// that is true on a prefix, the result is the last index of that prefix (or
/// the unmoved `lower` bound when the prefix is empty).
pub fn binary_search<F: Fn(usize) -> bool>(lower: usize, upper: usize, proc: F) -> (r: usize)
    requires
        lower <= upper,
        upper <= usize::MAX / 2,
        forall|k: usize| lower < k < upper ==> call_requires(proc, (k,)),
    ensures
        lower <= r <= upper,
        r == lower || call_ensures(proc, (r,), true),
        r == upper || call_ensures(proc, (r,), false) || (r + 1 <= upper && (r + 1 == upper
            || call_ensures(proc, ((r + 1) as usize,), false))),
{
    let mut lo = lower;
    let mut hi = upper;

    loop
        invariant
            lower <= lo <= hi <= upper,
            upper <= usize::MAX / 2,
            forall|k: usize| lower < k < upper ==> call_requires(proc, (k,)),
            lo == lower || call_ensures(proc, (lo,), true),
            hi == upper || call_ensures(proc, (hi,), false),
        decreases hi - lo,
    {
        let mid = (lo + hi) / 2;
        if lo == mid || mid == hi {
            proof {
                assert(hi <= lo + 1);
                assert(mid == lo);
            }
            return mid;
        }

        if proc(mid) {
            lo = mid;
        } else {
            hi = mid;
        }
    }
}

/// Sorted-sequence search with insertion-point semantics.
pub trait BinarySearchable<T: TotalOrder> {
    /// The ordered elements searched over.
    spec fn elems(&self) -> Seq<T>;

    /// The first index whose element is not less than `x`.
    fn lower_bound(&self, x: &T) -> (r: usize)
        requires
            sorted(self.elems()),
        ensures
            r <= self.elems().len(),
            forall|k: int|
                0 <= k < r ==> T::le(#[trigger] self.elems()[k], *x) && self.elems()[k] != *x,
            forall|k: int| r <= k < self.elems().len() ==> T::le(*x, #[trigger] self.elems()[k]),
    ;

    /// The first index whose element is greater than `x`.
    fn upper_bound(&self, x: &T) -> (r: usize)
        requires
            sorted(self.elems()),
        ensures
            r <= self.elems().len(),
            forall|k: int| 0 <= k < r ==> T::le(#[trigger] self.elems()[k], *x),
            forall|k: int|
                r <= k < self.elems().len() ==> T::le(*x, #[trigger] self.elems()[k])
                    && self.elems()[k] != *x,
    ;
}

// allows binary search over slices
impl<T: TotalOrder> BinarySearchable<T> for [T] {
    open spec fn elems(&self) -> Seq<T> {
        self@
    }

    fn lower_bound(&self, x: &T) -> (r: usize) {
        let mut lower: usize = 0;
        let mut upper: usize = self.len();

        while lower != upper
            invariant
                lower <= upper <= self@.len(),
                sorted(self@),
                forall|k: int|
                    0 <= k < lower ==> T::le(#[trigger] self@[k], *x) && self@[k] != *x,
                forall|k: int| upper <= k < self@.len() ==> T::le(*x, #[trigger] self@[k]),
            decreases upper - lower,
        {
            let mid = lower + (upper - lower) / 2;
            match slice_index_get(self, mid).compare(x) {
                Ordering::Less => {
                    proof {
                        assert forall|k: int|
                            0 <= k <= mid implies T::le(#[trigger] self@[k], *x) && self@[k]
                            != *x by {
                            T::lemma_transitive(self@[k], self@[mid as int], *x);
                            if self@[k] == *x {
                                T::lemma_antisymmetric(self@[mid as int], *x);
                            }
                        }
                    }
                    lower = mid + 1;
                }
                Ordering::Equal | Ordering::Greater => {
                    proof {
                        assert forall|k: int|
                            mid <= k < self@.len() implies T::le(*x, #[trigger] self@[k]) by {
                            if self@[mid as int] == *x {
                                T::lemma_reflexive(*x);
                            }
                            T::lemma_transitive(*x, self@[mid as int], self@[k]);
                        }
                    }
                    upper = mid;
                }
            }
        }
        lower
    }

    fn upper_bound(&self, x: &T) -> (r: usize) {
        let mut lower: usize = 0;
        let mut upper: usize = self.len();

        while lower != upper
            invariant
                lower <= upper <= self@.len(),
                sorted(self@),
                forall|k: int| 0 <= k < lower ==> T::le(#[trigger] self@[k], *x),
                forall|k: int|
                    upper <= k < self@.len() ==> T::le(*x, #[trigger] self@[k]) && self@[k] != *x,
            decreases upper - lower,
        {
            let mid = lower + (upper - lower) / 2;
            match slice_index_get(self, mid).compare(x) {
                Ordering::Less | Ordering::Equal => {
                    proof {
                        assert forall|k: int| 0 <= k <= mid implies T::le(
                            #[trigger] self@[k],
                            *x,
                        ) by {
                            if self@[mid as int] == *x {
                                T::lemma_reflexive(*x);
                            }
                            T::lemma_transitive(self@[k], self@[mid as int], *x);
                        }
                    }
                    lower = mid + 1;
                }
                Ordering::Greater => {
                    proof {
                        assert forall|k: int|
                            mid <= k < self@.len() implies T::le(*x, #[trigger] self@[k]) && self@[k]
                            != *x by {
                            T::lemma_transitive(*x, self@[mid as int], self@[k]);
                            if self@[k] == *x {
                                T::lemma_antisymmetric(self@[mid as int], *x);
                            }
                        }
                    }
                    upper = mid;
                }
            }
        }
        lower
    }
}

} // verus!
