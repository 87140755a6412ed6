use vstd::prelude::*;

verus! {

use core::cmp::Ordering;

/// A total order on a type: a specification-level `le` relation with the
/// usual laws, and an executable three-way comparison that decides it.
///
/// `Ordering::Equal` means specification equality, so the order is
/// antisymmetric up to `==`.
pub trait TotalOrder: Sized {
    /// `self` is at most `other`.
    spec fn le(self, other: Self) -> bool;

    proof fn lemma_reflexive(x: Self)
        ensures
            Self::le(x, x),
    ;

    proof fn lemma_transitive(x: Self, y: Self, z: Self)
        requires
            Self::le(x, y),
            Self::le(y, z),
        ensures
            Self::le(x, z),
    ;

    proof fn lemma_antisymmetric(x: Self, y: Self)
        requires
            Self::le(x, y),
            Self::le(y, x),
        ensures
            x == y,
    ;

    proof fn lemma_total(x: Self, y: Self)
        ensures
            Self::le(x, y) || Self::le(y, x),
    ;

    /// Three-way comparison deciding `le`.
    fn compare(&self, other: &Self) -> (c: Ordering)
        ensures
            match c {
                Ordering::Less => Self::le(*self, *other) && *self != *other,
                Ordering::Equal => *self == *other,
                Ordering::Greater => Self::le(*other, *self) && *self != *other,
            },
    ;
}

impl TotalOrder for usize {
    open spec fn le(self, other: usize) -> bool {
        self <= other
    }

    proof fn lemma_reflexive(x: usize) {
    }

    proof fn lemma_transitive(x: usize, y: usize, z: usize) {
    }

    proof fn lemma_antisymmetric(x: usize, y: usize) {
    }

    proof fn lemma_total(x: usize, y: usize) {
    }

    fn compare(&self, other: &usize) -> (c: Ordering) {
        if *self < *other {
            Ordering::Less
        } else if *self == *other {
            Ordering::Equal
        } else {
            Ordering::Greater
        }
    }
}

/// The elements of `s` never decrease from left to right.
pub open spec fn sorted<T: TotalOrder>(s: Seq<T>) -> bool {
    forall|i: int, j: int| 0 <= i <= j < s.len() ==> #[trigger] T::le(s[i], s[j])
}

} // verus!
