use vstd::prelude::*;

verus! {

use vstd::slice::{slice_index_get, slice_subrange};

/// An algebraic structure with an identity element and an associative
/// combine. The laws are proof obligations, so every implementation is a
/// lawful monoid.
pub trait Monoid: Sized {
    /// The identity element, at the specification level.
    spec fn mempty_spec() -> Self;

    /// The combine operation, at the specification level.
    spec fn mappend_spec(l: Self, r: Self) -> Self;

    proof fn lemma_left_identity(x: Self)
        ensures
            Self::mappend_spec(Self::mempty_spec(), x) == x,
    ;

    proof fn lemma_right_identity(x: Self)
        ensures
            Self::mappend_spec(x, Self::mempty_spec()) == x,
    ;

    proof fn lemma_associative(a: Self, b: Self, c: Self)
        ensures
            Self::mappend_spec(Self::mappend_spec(a, b), c) == Self::mappend_spec(
                a,
                Self::mappend_spec(b, c),
            ),
    ;

    /// The identity element.
    fn mempty() -> (r: Self)
        ensures
            r == Self::mempty_spec(),
    ;

    /// Combines two elements.
    fn mappend(l: &Self, r: &Self) -> (res: Self)
        ensures
            res == Self::mappend_spec(*l, *r),
    ;
}

/// The fold of a sequence of monoid elements, combining to the right; the
/// empty sequence folds to the identity.
pub open spec fn seq_fold<T: Monoid>(s: Seq<T>) -> T
    decreases s.len(),
{
    if s.len() == 0 {
        T::mempty_spec()
    } else {
        T::mappend_spec(s[0], seq_fold(s.drop_first()))
    }
}

/// Folding a concatenation combines the folds of the parts.
pub proof fn lemma_fold_concat<T: Monoid>(a: Seq<T>, b: Seq<T>)
    ensures
        seq_fold(a + b) == T::mappend_spec(seq_fold(a), seq_fold(b)),
    decreases a.len(),
{
    if a.len() == 0 {
        assert(a + b =~= b);
        T::lemma_left_identity(seq_fold(b));
    } else {
        assert((a + b)[0] == a[0]);
        assert((a + b).drop_first() =~= a.drop_first() + b);
        lemma_fold_concat::<T>(a.drop_first(), b);
        T::lemma_associative(a[0], seq_fold(a.drop_first()), seq_fold(b));
    }
}

/// The range-minimum instance: `usize` under minimum, whose identity is the
/// largest value.
impl Monoid for usize {
    open spec fn mempty_spec() -> usize {
        usize::MAX
    }

    open spec fn mappend_spec(l: usize, r: usize) -> usize {
        if l <= r {
            l
        } else {
            r
        }
    }

    proof fn lemma_left_identity(x: usize) {
    }

    proof fn lemma_right_identity(x: usize) {
    }

    proof fn lemma_associative(a: usize, b: usize, c: usize) {
    }

    fn mempty() -> (r: usize) {
        usize::MAX
    }

    fn mappend(l: &usize, r: &usize) -> (res: usize) {
        if *l <= *r {
            *l
        } else {
            *r
        }
    }
}

/// A binary tree over a fixed-length sequence of monoid elements. Each node
/// covers a contiguous span and stores the combine of its span; point
/// updates and half-open range queries both take one root-to-leaf path.
pub struct SegmentTree<T> {
    data: T,
    span: usize,
    l: Option<Box<SegmentTree<T>>>,
    r: Option<Box<SegmentTree<T>>>,
}

impl<T: Monoid + Copy> SegmentTree<T> {
    /// The stored sequence: the leaf values from left to right.
    pub closed spec fn view(self) -> Seq<T>
        decreases self,
    {
        match (self.l, self.r) {
            (Some(l), Some(r)) => l.view() + r.view(),
            _ => seq![self.data],
        }
    }

    /// Every node's `data` is the combine of its children, spans split at
    /// the midpoint, and leaves cover exactly one position.
    pub closed spec fn wf(self) -> bool
        decreases self,
    {
        &&& self.span == self.view().len()
        &&& match (self.l, self.r) {
            (Some(l), Some(r)) => {
                &&& self.span > 1
                &&& l.span == self.span / 2
                &&& r.span == self.span - self.span / 2
                &&& l.wf()
                &&& r.wf()
                &&& self.data == T::mappend_spec(l.data, r.data)
            },
            (None, None) => self.span == 1,
            _ => false,
        }
    }

    /// In a well-formed tree the root's value is the fold of the whole
    /// stored sequence.
    proof fn lemma_wf_data(self)
        requires
            self.wf(),
        ensures
            self.data == seq_fold(self.view()),
        decreases self,
    {
        match (self.l, self.r) {
            (Some(l), Some(r)) => {
                l.lemma_wf_data();
                r.lemma_wf_data();
                lemma_fold_concat::<T>(l.view(), r.view());
            },
            _ => {
                T::lemma_right_identity(self.data);
                assert(self.view().drop_first() =~= Seq::<T>::empty());
                assert(seq_fold(Seq::<T>::empty()) == T::mempty_spec());
            },
        }
    }

    /// Builds the tree over a non-empty slice by splitting at the midpoint.
    pub fn from_slice(s: &[T]) -> (t: SegmentTree<T>)
        requires
            s@.len() >= 1,
        ensures
            t.wf(),
            t.view() == s@,
        decreases s@.len(),
    {
        if s.len() == 1 {
            let t = SegmentTree { data: *slice_index_get(s, 0), span: 1, l: None, r: None };
            proof {
                assert(t.view() =~= s@);
            }
            t
        } else {
            let m = s.len() / 2;
            let left = Self::from_slice(slice_subrange(s, 0, m));
            let right = Self::from_slice(slice_subrange(s, m, s.len()));
            let data = T::mappend(&left.data, &right.data);
            let t = SegmentTree {
                data,
                span: s.len(),
                l: Some(Box::new(left)),
                r: Some(Box::new(right)),
            };
            proof {
                assert(t.view() =~= s@);
            }
            t
        }
    }

    /// Replaces the element at `i`, recomputing the combines on the path
    /// from the root to that leaf; no other position changes.
    pub fn update(&mut self, i: usize, value: T)
        requires
            old(self).wf(),
            i < old(self).view().len(),
        ensures
            final(self).wf(),
            final(self).view() == old(self).view().update(i as int, value),
        decreases old(self).view().len(),
    {
        if self.span == 1 {
            self.data = value;
            proof {
                assert(self.view() =~= old(self).view().update(i as int, value));
            }
        } else {
            let m = self.span / 2;
            let mut lbox = self.l.take().unwrap();
            let mut rbox = self.r.take().unwrap();
            proof {
                assert(old(self).view() == lbox.view() + rbox.view());
                assert(lbox.wf() && rbox.wf());
                assert(lbox.view().len() == m);
                assert(rbox.view().len() == old(self).span - m);
            }
            if i < m {
                (&mut *lbox).update(i, value);
            } else {
                (&mut *rbox).update(i - m, value);
            }
            self.data = T::mappend(&lbox.data, &rbox.data);
            self.l = Some(lbox);
            self.r = Some(rbox);
            proof {
                assert(self.view() == lbox.view() + rbox.view());
                assert(self.view() =~= old(self).view().update(i as int, value));
            }
        }
    }

    /// The combine of the half-open range `[l, r)` of the stored sequence.
    /// An empty range yields the identity; a range covering the whole node
    /// is answered from the node's value; anything else splits at the
    /// midpoint, clamping the range into each half.
    pub fn query(&self, l: usize, r: usize) -> (res: T)
        requires
            self.wf(),
            l <= r,
            r <= self.view().len(),
        ensures
            res == seq_fold(self.view().subrange(l as int, r as int)),
        decreases self.view().len(),
    {
        if l == r {
            let res = T::mempty();
            proof {
                assert(self.view().subrange(l as int, r as int) =~= Seq::<T>::empty());
            }
            res
        } else if r - l == self.span {
            proof {
                self.lemma_wf_data();
                assert(self.view().subrange(l as int, r as int) =~= self.view());
            }
            self.data
        } else {
            let m = self.span / 2;
            match (&self.l, &self.r) {
                (Some(lc), Some(rc)) => {
                    proof {
                        assert(self.view() == lc.view() + rc.view());
                        assert(lc.wf() && rc.wf());
                        assert(lc.view().len() == m);
                        assert(rc.view().len() == self.span - m);
                    }
                    let lo1 = if l < m {
                        l
                    } else {
                        m
                    };
                    let hi1 = if r < m {
                        r
                    } else {
                        m
                    };
                    let lo2 = if l > m {
                        l - m
                    } else {
                        0
                    };
                    let hi2 = if r > m {
                        r - m
                    } else {
                        0
                    };
                    let a = lc.query(lo1, hi1);
                    let b = rc.query(lo2, hi2);
                    let res = T::mappend(&a, &b);
                    proof {
                        let la = lc.view().subrange(lo1 as int, hi1 as int);
                        let rb = rc.view().subrange(lo2 as int, hi2 as int);
                        assert(la + rb =~= self.view().subrange(l as int, r as int));
                        lemma_fold_concat::<T>(la, rb);
                    }
                    res
                },
                _ => {
                    proof {
                        assert(false);
                    }
                    T::mempty()
                },
            }
        }
    }
}

/// An empty range folds to the identity: `query(x, x)` yields `mempty()`
/// for every valid `x`.
pub proof fn lemma_query_empty<T: Monoid>(s: Seq<T>, x: int)
    requires
        0 <= x <= s.len(),
    ensures
        seq_fold(s.subrange(x, x)) == T::mempty_spec(),
{
    assert(s.subrange(x, x) =~= Seq::<T>::empty());
}

/// Folding the full range is folding the stored sequence: together with the
/// contracts of `from_slice` and `query`, building over `s` and querying
/// `[0, len)` yields the fold of `s`.
pub proof fn lemma_query_full<T: Monoid>(s: Seq<T>)
    ensures
        seq_fold(s.subrange(0, s.len() as int)) == seq_fold(s),
{
    assert(s.subrange(0, s.len() as int) =~= s);
}

/// A range fold splits at any midpoint: with `query`'s contract,
/// `query(a, c) == mappend(query(a, b), query(b, c))` whenever
/// `a <= b <= c`.
pub proof fn lemma_query_split<T: Monoid>(s: Seq<T>, a: int, b: int, c: int)
    requires
        0 <= a <= b <= c <= s.len(),
    ensures
        seq_fold(s.subrange(a, c)) == T::mappend_spec(
            seq_fold(s.subrange(a, b)),
            seq_fold(s.subrange(b, c)),
        ),
{
    assert(s.subrange(a, b) + s.subrange(b, c) =~= s.subrange(a, c));
    lemma_fold_concat::<T>(s.subrange(a, b), s.subrange(b, c));
}

/// After `update(i, v)` the singleton range at `i` folds to `v`: with
/// `update`'s and `query`'s contracts, `query(i, i + 1)` yields `v`.
pub proof fn lemma_update_point<T: Monoid>(s: Seq<T>, i: int, v: T)
    requires
        0 <= i < s.len(),
    ensures
        seq_fold(s.update(i, v).subrange(i, i + 1)) == v,
{
    let single = s.update(i, v).subrange(i, i + 1);
    assert(single.len() == 1 && single[0] == v);
    assert(single.drop_first() =~= Seq::<T>::empty());
    assert(seq_fold(Seq::<T>::empty()) == T::mempty_spec());
    assert(seq_fold(single) == T::mappend_spec(v, T::mempty_spec()));
    T::lemma_right_identity(v);
}

/// A range that avoids the updated position folds as before the update.
pub proof fn lemma_update_elsewhere<T: Monoid>(s: Seq<T>, i: int, v: T, a: int, b: int)
    requires
        0 <= i < s.len(),
        0 <= a <= b <= s.len(),
        b <= i || i < a,
    ensures
        seq_fold(s.update(i, v).subrange(a, b)) == seq_fold(s.subrange(a, b)),
{
    assert(s.update(i, v).subrange(a, b) =~= s.subrange(a, b));
}

} // verus!
