use vstd::prelude::*;

verus! {

use core::cmp::Ordering;
use crate::binary_search::BinarySearchable;
use crate::order::{sorted, TotalOrder};
use vstd::slice::slice_index_get;

/// Occurrences of `x` according to parallel key and count sequences: the
/// count at the first position whose key equals `x`, zero when none does.
pub open spec fn count_in<T>(keys: Seq<T>, cnts: Seq<usize>, x: T) -> nat
    decreases keys.len(),
{
    if keys.len() == 0 {
        0
    } else if keys[0] == x {
        cnts[0] as nat
    } else {
        count_in(keys.drop_first(), cnts.drop_first(), x)
    }
}

/// The keys grow strictly from left to right.
pub open spec fn strictly_ascending<T: TotalOrder>(s: Seq<T>) -> bool {
    forall|i: int, j: int|
        0 <= i < j < s.len() ==> #[trigger] T::le(s[i], s[j]) && s[i] != s[j]
}

/// An ordered collection that may hold a value several times: a strictly
/// ascending sequence of distinct keys with one positive count per key.
pub struct MultiSet<T> {
    keys: Vec<T>,
    cnts: Vec<usize>,
}

impl<T: TotalOrder> MultiSet<T> {
    /// The distinct values present, in ascending order.
    pub closed spec fn keys(self) -> Seq<T> {
        self.keys@
    }

    /// The stored count of each key.
    pub closed spec fn counts(self) -> Seq<usize> {
        self.cnts@
    }

    /// How many times `x` is held.
    pub open spec fn count(self, x: T) -> nat {
        count_in(self.keys(), self.counts(), x)
    }

    /// One positive count per key; keys strictly ascending.
    pub closed spec fn wf(self) -> bool {
        &&& self.cnts@.len() == self.keys@.len()
        &&& strictly_ascending(self.keys@)
        &&& forall|i: int| 0 <= i < self.cnts@.len() ==> (#[trigger] self.cnts@[i]) >= 1
    }

    /// A value is held exactly when it is one of the keys.
    pub proof fn lemma_keys_count(self, x: T)
        requires
            self.wf(),
        ensures
            self.count(x) > 0 <==> self.keys().contains(x),
    {
        if self.keys().contains(x) {
            let j = choose|j: int| 0 <= j < self.keys@.len() && self.keys@[j] == x;
            lemma_first_occurrence(self.keys@, j);
            lemma_count_at(self.keys@, self.cnts@, j);
        } else {
            lemma_count_zero(self.keys@, self.cnts@, x);
        }
    }

    pub fn new() -> (r: MultiSet<T>)
        ensures
            r.wf(),
            r.keys().len() == 0,
            forall|x: T| r.count(x) == 0,
    {
        MultiSet { keys: Vec::new(), cnts: Vec::new() }
    }

    /// Adds one occurrence of `v`, keeping the keys sorted by inserting at
    /// the lower-bound position when `v` is new.
    pub fn push(&mut self, v: T)
        requires
            old(self).wf(),
            old(self).count(v) < usize::MAX,
        ensures
            final(self).wf(),
            forall|x: T|
                final(self).count(x) == old(self).count(x) + (if x == v {
                    1nat
                } else {
                    0nat
                }),
            old(self).count(v) == 0 ==> final(self).keys().len() == old(self).keys().len() + 1,
            old(self).count(v) != 0 ==> final(self).keys() == old(self).keys(),
    {
        proof {
            lemma_strict_implies_sorted(self.keys@);
        }
        let ghost k0: Seq<T> = self.keys@;
        let ghost c0: Seq<usize> = self.cnts@;
        let idx = self.keys.as_slice().lower_bound(&v);
        let mut is_present = false;
        if idx < self.keys.len() {
            match slice_index_get(self.keys.as_slice(), idx).compare(&v) {
                Ordering::Equal => {
                    is_present = true;
                }
                Ordering::Less => {
                }
                Ordering::Greater => {
                }
            }
        }
        if is_present {
            proof {
                lemma_count_at(k0, c0, idx as int);
            }
            let c = self.cnts[idx];
            self.cnts[idx] = c + 1;
            proof {
                assert forall|x: T|
                    count_in(k0, self.cnts@, x) == count_in(k0, c0, x) + (if x == v {
                        1nat
                    } else {
                        0nat
                    }) by {
                    lemma_count_update(k0, c0, idx as int, (c + 1) as usize, x);
                }
            }
        } else {
            proof {
                lemma_not_found(k0, v, idx as int);
                lemma_count_zero(k0, c0, v);
            }
            self.keys.insert(idx, v);
            self.cnts.insert(idx, 1);
            proof {
                k0.insert_ensures(idx as int, v);
                c0.insert_ensures(idx as int, 1usize);
                assert forall|i: int, j: int|
                    0 <= i < j < self.keys@.len() implies #[trigger] T::le(
                    self.keys@[i],
                    self.keys@[j],
                ) && self.keys@[i] != self.keys@[j] by {
                    let a = self.keys@[i];
                    let b = self.keys@[j];
                    if i < idx && j == idx {
                        assert(a == k0[i] && b == v);
                        assert(T::le(k0[i], v) && k0[i] != v);
                    } else if i == idx {
                        assert(a == v && b == k0[j - 1]);
                        assert(T::le(v, k0[j - 1]));
                        assert(k0[j - 1] != v);
                    } else if i < idx && j > idx {
                        assert(a == k0[i] && b == k0[j - 1]);
                        assert(i < j - 1);
                        assert(j - 1 < k0.len());
                        assert(strictly_ascending(k0));
                        assert(T::le(k0[i], k0[j - 1]) && k0[i] != k0[j - 1]);
                    } else if j < idx {
                        assert(a == k0[i] && b == k0[j]);
                        assert(T::le(k0[i], k0[j]) && k0[i] != k0[j]);
                    } else {
                        assert(a == k0[i - 1] && b == k0[j - 1]);
                        assert(T::le(k0[i - 1], k0[j - 1]) && k0[i - 1] != k0[j - 1]);
                    }
                }
                assert forall|x: T|
                    count_in(self.keys@, self.cnts@, x) == count_in(k0, c0, x) + (if x == v {
                        1nat
                    } else {
                        0nat
                    }) by {
                    lemma_count_insert(k0, c0, idx as int, v, 1usize, x);
                }
            }
        }
    }

    /// Removes one occurrence of `v`; reports failure when `v` is absent.
    pub fn remove(&mut self, v: T) -> (r: Result<(), ()>)
        requires
            old(self).wf(),
        ensures
            final(self).wf(),
            r is Ok <==> old(self).count(v) > 0,
            r is Ok ==> forall|x: T|
                final(self).count(x) == old(self).count(x) - (if x == v {
                    1nat
                } else {
                    0nat
                }),
            r is Err ==> *final(self) == *old(self),
    {
        proof {
            lemma_strict_implies_sorted(self.keys@);
        }
        let ghost k0: Seq<T> = self.keys@;
        let ghost c0: Seq<usize> = self.cnts@;
        let idx = self.keys.as_slice().lower_bound(&v);
        if idx >= self.keys.len() {
            proof {
                lemma_not_found(k0, v, idx as int);
                lemma_count_zero(k0, c0, v);
            }
            return Err(());
        }
        match slice_index_get(self.keys.as_slice(), idx).compare(&v) {
            Ordering::Equal => {
                proof {
                    lemma_count_at(k0, c0, idx as int);
                }
                let c = self.cnts[idx];
                if c == 1 {
                    self.keys.remove(idx);
                    self.cnts.remove(idx);
                    proof {
                        k0.remove_ensures(idx as int);
                        c0.remove_ensures(idx as int);
                        assert forall|i: int, j: int|
                            0 <= i < j < self.keys@.len() implies #[trigger] T::le(
                            self.keys@[i],
                            self.keys@[j],
                        ) && self.keys@[i] != self.keys@[j] by {
                            if j < idx {
                                assert(self.keys@[i] == k0[i] && self.keys@[j] == k0[j]);
                            } else if i < idx && j >= idx {
                                assert(self.keys@[i] == k0[i] && self.keys@[j] == k0[j + 1]);
                            } else {
                                assert(self.keys@[i] == k0[i + 1] && self.keys@[j] == k0[j + 1]);
                            }
                        }
                        assert forall|x: T|
                            count_in(self.keys@, self.cnts@, x) == count_in(k0, c0, x) - (if x == v {
                                1nat
                            } else {
                                0nat
                            }) by {
                            lemma_count_remove(k0, c0, idx as int, x);
                        }
                    }
                } else {
                    self.cnts[idx] = c - 1;
                    proof {
                        assert forall|x: T|
                            count_in(k0, self.cnts@, x) == count_in(k0, c0, x) - (if x == v {
                                1nat
                            } else {
                                0nat
                            }) by {
                            lemma_count_update(k0, c0, idx as int, (c - 1) as usize, x);
                        }
                    }
                }
                Ok(())
            }
            _ => {
                proof {
                    lemma_not_found(k0, v, idx as int);
                    lemma_count_zero(k0, c0, v);
                }
                Err(())
            }
        }
    }

    /// The largest value held, if any.
    pub fn max(&self) -> (r: Option<&T>)
        requires
            self.wf(),
        ensures
            match r {
                None => self.keys().len() == 0 && (forall|x: T| self.count(x) == 0),
                Some(m) => self.count(*m) > 0 && (forall|x: T|
                    self.count(x) > 0 ==> T::le(x, *m)),
            },
    {
        if self.keys.len() == 0 {
            proof {
                assert forall|x: T| self.count(x) == 0 by {
                    lemma_count_zero(self.keys@, self.cnts@, x);
                }
            }
            None
        } else {
            let i = self.keys.len() - 1;
            let m = slice_index_get(self.keys.as_slice(), i);
            proof {
                lemma_first_occurrence(self.keys@, i as int);
                lemma_count_at(self.keys@, self.cnts@, i as int);
                assert forall|x: T| self.count(x) > 0 implies T::le(x, *m) by {
                    self.lemma_keys_count(x);
                    let j = choose|j: int| 0 <= j < self.keys@.len() && self.keys@[j] == x;
                    if j == i {
                        T::lemma_reflexive(x);
                    }
                }
            }
            Some(m)
        }
    }

    /// The smallest value held, if any.
    pub fn min(&self) -> (r: Option<&T>)
        requires
            self.wf(),
        ensures
            match r {
                None => self.keys().len() == 0 && (forall|x: T| self.count(x) == 0),
                Some(m) => self.count(*m) > 0 && (forall|x: T|
                    self.count(x) > 0 ==> T::le(*m, x)),
            },
    {
        if self.keys.len() == 0 {
            proof {
                assert forall|x: T| self.count(x) == 0 by {
                    lemma_count_zero(self.keys@, self.cnts@, x);
                }
            }
            None
        } else {
            let m = slice_index_get(self.keys.as_slice(), 0);
            proof {
                lemma_first_occurrence(self.keys@, 0);
                lemma_count_at(self.keys@, self.cnts@, 0);
                assert forall|x: T| self.count(x) > 0 implies T::le(*m, x) by {
                    self.lemma_keys_count(x);
                    let j = choose|j: int| 0 <= j < self.keys@.len() && self.keys@[j] == x;
                    if j == 0 {
                        T::lemma_reflexive(x);
                    }
                }
            }
            Some(m)
        }
    }

    /// How many distinct values are held.
    pub fn len(&self) -> (r: usize)
        ensures
            r == self.keys().len(),
    {
        self.keys.len()
    }
}

/// Strictly ascending keys are in particular sorted.
proof fn lemma_strict_implies_sorted<T: TotalOrder>(s: Seq<T>)
    requires
        strictly_ascending(s),
    ensures
        sorted(s),
{
    assert forall|i: int, j: int| 0 <= i <= j < s.len() implies #[trigger] T::le(s[i], s[j]) by {
        if i == j {
            T::lemma_reflexive(s[i]);
        }
    }
}

/// In a strictly ascending sequence each key occurs only at its own index,
/// so the prefix before any index is free of that index's key.
proof fn lemma_first_occurrence<T: TotalOrder>(s: Seq<T>, i: int)
    requires
        strictly_ascending(s),
        0 <= i < s.len(),
    ensures
        forall|j: int| 0 <= j < i ==> s[j] != s[i],
{
    assert forall|j: int| 0 <= j < i implies s[j] != s[i] by {
        assert(T::le(s[j], s[i]) && s[j] != s[i]);
    }
}

/// When the insertion point reports no exact match, the key is nowhere in a
/// strictly ascending sequence.
proof fn lemma_not_found<T: TotalOrder>(keys: Seq<T>, v: T, idx: int)
    requires
        strictly_ascending(keys),
        0 <= idx <= keys.len(),
        forall|k: int| 0 <= k < idx ==> T::le(#[trigger] keys[k], v) && keys[k] != v,
        forall|k: int| idx <= k < keys.len() ==> T::le(v, #[trigger] keys[k]),
        idx == keys.len() || keys[idx] != v,
    ensures
        forall|j: int| 0 <= j < keys.len() ==> keys[j] != v,
{
    assert forall|j: int| 0 <= j < keys.len() implies keys[j] != v by {
        if j > idx && keys[j] == v {
            T::lemma_antisymmetric(keys[idx], v);
        }
    }
}

/// A key that appears nowhere is held zero times.
proof fn lemma_count_zero<T>(keys: Seq<T>, cnts: Seq<usize>, x: T)
    requires
        cnts.len() == keys.len(),
        forall|j: int| 0 <= j < keys.len() ==> keys[j] != x,
    ensures
        count_in(keys, cnts, x) == 0,
    decreases keys.len(),
{
    if keys.len() > 0 {
        lemma_count_zero(keys.drop_first(), cnts.drop_first(), x);
    }
}

/// The count of a key whose earlier positions hold other keys is the count
/// stored at its index.
proof fn lemma_count_at<T>(keys: Seq<T>, cnts: Seq<usize>, i: int)
    requires
        cnts.len() == keys.len(),
        0 <= i < keys.len(),
        forall|j: int| 0 <= j < i ==> keys[j] != keys[i],
    ensures
        count_in(keys, cnts, keys[i]) == cnts[i],
    decreases i,
{
    if i > 0 {
        lemma_count_at(keys.drop_first(), cnts.drop_first(), i - 1);
    }
}

/// Overwriting the count at the first index of a key changes that key's
/// count alone.
proof fn lemma_count_update<T>(keys: Seq<T>, cnts: Seq<usize>, i: int, c: usize, x: T)
    requires
        cnts.len() == keys.len(),
        0 <= i < keys.len(),
        forall|j: int| 0 <= j < i ==> keys[j] != keys[i],
    ensures
        count_in(keys, cnts.update(i, c), x) == (if x == keys[i] {
            c as nat
        } else {
            count_in(keys, cnts, x)
        }),
    decreases i,
{
    if i == 0 {
        if keys[0] != x {
            assert(cnts.update(0, c).drop_first() =~= cnts.drop_first());
        }
    } else {
        if keys[0] != x {
            assert(cnts.update(i, c).drop_first() =~= cnts.drop_first().update(i - 1, c));
            lemma_count_update(keys.drop_first(), cnts.drop_first(), i - 1, c, x);
        }
    }
}

/// Inserting a fresh key with count `c` adds `c` occurrences of it and
/// leaves every other count unchanged.
proof fn lemma_count_insert<T>(keys: Seq<T>, cnts: Seq<usize>, i: int, v: T, c: usize, x: T)
    requires
        cnts.len() == keys.len(),
        0 <= i <= keys.len(),
        forall|j: int| 0 <= j < keys.len() ==> keys[j] != v,
    ensures
        count_in(keys.insert(i, v), cnts.insert(i, c), x) == (if x == v {
            c as nat
        } else {
            count_in(keys, cnts, x)
        }),
    decreases i,
{
    keys.insert_ensures(i, v);
    cnts.insert_ensures(i, c);
    if i == 0 {
        if x != v {
            assert(keys.insert(0, v).drop_first() =~= keys);
            assert(cnts.insert(0, c).drop_first() =~= cnts);
        }
    } else {
        if keys[0] != x {
            assert(keys.insert(i, v).drop_first() =~= keys.drop_first().insert(i - 1, v));
            assert(cnts.insert(i, c).drop_first() =~= cnts.drop_first().insert(i - 1, c));
            lemma_count_insert(keys.drop_first(), cnts.drop_first(), i - 1, v, c, x);
        }
    }
}

/// Removing the only index of a key removes all its occurrences and leaves
/// every other count unchanged.
proof fn lemma_count_remove<T>(keys: Seq<T>, cnts: Seq<usize>, i: int, x: T)
    requires
        cnts.len() == keys.len(),
        0 <= i < keys.len(),
        forall|j: int| 0 <= j < keys.len() && j != i ==> keys[j] != keys[i],
    ensures
        count_in(keys.remove(i), cnts.remove(i), x) == (if x == keys[i] {
            0
        } else {
            count_in(keys, cnts, x)
        }),
    decreases i,
{
    keys.remove_ensures(i);
    cnts.remove_ensures(i);
    if i == 0 {
        if x == keys[0] {
            lemma_count_zero(keys.remove(0), cnts.remove(0), x);
        } else {
            assert(keys.remove(0) =~= keys.drop_first());
            assert(cnts.remove(0) =~= cnts.drop_first());
        }
    } else {
        if keys[0] != x {
            assert(keys.remove(i).drop_first() =~= keys.drop_first().remove(i - 1));
            assert(cnts.remove(i).drop_first() =~= cnts.drop_first().remove(i - 1));
            lemma_count_remove(keys.drop_first(), cnts.drop_first(), i - 1, x);
        }
    }
}

} // verus!
