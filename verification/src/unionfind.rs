use vstd::prelude::*;

verus! {

/// The invariant tying a parent array to its ghost ranks: parents are in
/// range, ranks are bounded by `m`, and ranks strictly increase from child
/// to parent. The last point rules cycles out and bounds every parent chain.
pub open spec fn uf_inv(p: Seq<usize>, r: Seq<nat>, m: nat) -> bool {
    &&& r.len() == p.len()
    &&& forall|i: int| 0 <= i < p.len() ==> (#[trigger] p[i]) < p.len()
    &&& forall|i: int| 0 <= i < p.len() ==> (#[trigger] r[i]) <= m
    &&& forall|i: int|
        0 <= i < p.len() && (#[trigger] p[i]) as int != i ==> r[i] < r[p[i] as int]
}

/// Follows parents from `i` for at most `fuel` steps.
pub open spec fn chase(p: Seq<usize>, i: int, fuel: nat) -> int
    decreases fuel,
{
    if fuel == 0 || p[i] as int == i {
        i
    } else {
        chase(p, p[i] as int, (fuel - 1) as nat)
    }
}

/// With enough fuel the chase ends at a self-parented element, the result
/// does not depend on the exact fuel, and ranks never decrease along the way.
proof fn lemma_chase(p: Seq<usize>, r: Seq<nat>, m: nat, i: int, fuel: nat)
    requires
        uf_inv(p, r, m),
        0 <= i < p.len(),
        fuel + r[i] >= m + 1,
    ensures
        0 <= chase(p, i, fuel) < p.len(),
        p[chase(p, i, fuel)] as int == chase(p, i, fuel),
        r[chase(p, i, fuel)] >= r[i],
        p[i] as int != i ==> r[chase(p, i, fuel)] > r[i],
        forall|f2: nat| f2 + r[i] >= m + 1 ==> chase(p, i, f2) == chase(p, i, fuel),
    decreases fuel,
{
    if p[i] as int == i {
        assert(forall|f2: nat| chase(p, i, f2) == i);
    } else {
        let n = p[i] as int;
        lemma_chase(p, r, m, n, (fuel - 1) as nat);
        assert forall|f2: nat| f2 + r[i] >= m + 1 implies chase(p, i, f2) == chase(
            p,
            i,
            fuel,
        ) by {
            assert(f2 >= 1);
            assert(chase(p, i, f2) == chase(p, n, (f2 - 1) as nat));
        }
    }
}

/// A chase that ends where it starts started at a root.
proof fn lemma_chase_fixpoint(p: Seq<usize>, r: Seq<nat>, m: nat, i: int)
    requires
        uf_inv(p, r, m),
        0 <= i < p.len(),
        chase(p, i, m + 1) == i,
    ensures
        p[i] as int == i,
{
    lemma_chase(p, r, m, i, m + 1);
}

/// Redirecting one element straight at its root keeps the invariant and
/// leaves every element's root unchanged.
proof fn lemma_compress_inv(p: Seq<usize>, r: Seq<nat>, m: nat, i: int)
    requires
        uf_inv(p, r, m),
        0 <= i < p.len(),
    ensures
        uf_inv(p.update(i, chase(p, i, m + 1) as usize), r, m),
{
    let rt = chase(p, i, m + 1);
    lemma_chase(p, r, m, i, m + 1);
    let p2 = p.update(i, rt as usize);
    assert forall|a: int|
        0 <= a < p2.len() && (#[trigger] p2[a]) as int != a implies r[a] < r[p2[a] as int] by {
        if a == i {
            assert(p[i] as int != i);
        } else {
            assert(p2[a] == p[a]);
        }
    }
}

/// The root of every element survives one path-compression rewrite.
proof fn lemma_compress_roots(p: Seq<usize>, r: Seq<nat>, m: nat, i: int, a: int)
    requires
        uf_inv(p, r, m),
        0 <= i < p.len(),
        0 <= a < p.len(),
    ensures
        chase(p.update(i, chase(p, i, m + 1) as usize), a, m + 1) == chase(p, a, m + 1),
    decreases m - r[a],
{
    let rt = chase(p, i, m + 1);
    let p2 = p.update(i, rt as usize);
    lemma_chase(p, r, m, i, m + 1);
    lemma_compress_inv(p, r, m, i);
    if p[i] as int == i {
        assert(p2 =~= p);
    } else {
        if a == i {
            // the rewritten element points at its old root, which is
            // self-parented in the new array as well
            assert(p2[i] as int == rt && rt != i);
            assert(p2[rt] == p[rt]);
            assert(chase(p2, a, m + 1) == chase(p2, rt, m as nat));
            lemma_chase(p2, r, m, rt, m as nat);
        } else if p[a] as int == a {
            assert(p2[a] as int == a);
        } else {
            let n = p[a] as int;
            lemma_compress_roots(p, r, m, i, n);
            assert(chase(p2, a, m + 1) == chase(p2, n, m as nat));
            lemma_chase(p2, r, m, n, m as nat);
            lemma_chase(p2, r, m, n, m + 1);
            assert(chase(p, a, m + 1) == chase(p, n, m as nat));
            lemma_chase(p, r, m, n, m as nat);
            lemma_chase(p, r, m, n, m + 1);
        }
    }
}

/// Hanging the root `ri` under the distinct root `rj`, while raising `rj`'s
/// rank above both and the bound by one, keeps the invariant; the groups of
/// `ri` and `rj` then share the root `rj` and no other group moves.
proof fn lemma_union_inv(p: Seq<usize>, r: Seq<nat>, m: nat, ri: int, rj: int)
    requires
        uf_inv(p, r, m),
        0 <= ri < p.len(),
        0 <= rj < p.len(),
        p[ri] as int == ri,
        p[rj] as int == rj,
        ri != rj,
    ensures
        uf_inv(
            p.update(ri, rj as usize),
            r.update(rj, (if r[ri] >= r[rj] { r[ri] + 1nat } else { r[rj] + 1nat })),
            m + 1,
        ),
{
    let r2 = r.update(rj, (if r[ri] >= r[rj] { r[ri] + 1nat } else { r[rj] + 1nat }));
    let p2 = p.update(ri, rj as usize);
    assert forall|a: int|
        0 <= a < p2.len() && (#[trigger] p2[a]) as int != a implies r2[a] < r2[p2[a] as int] by {
        if a == ri {
        } else {
            assert(p2[a] == p[a]);
        }
    }
}

/// After the union rewrite, elements rooted at `ri` are rooted at `rj`, and
/// every other element keeps its root.
proof fn lemma_union_roots(p: Seq<usize>, r: Seq<nat>, m: nat, ri: int, rj: int, a: int)
    requires
        uf_inv(p, r, m),
        0 <= ri < p.len(),
        0 <= rj < p.len(),
        p[ri] as int == ri,
        p[rj] as int == rj,
        ri != rj,
        0 <= a < p.len(),
    ensures
        chase(p.update(ri, rj as usize), a, m + 2) == (if chase(p, a, m + 1) == ri {
            rj
        } else {
            chase(p, a, m + 1)
        }),
    decreases m + 1 - r.update(rj, (if r[ri] >= r[rj] { r[ri] + 1nat } else { r[rj] + 1nat }))[a],
{
    let r2 = r.update(rj, (if r[ri] >= r[rj] { r[ri] + 1nat } else { r[rj] + 1nat }));
    let p2 = p.update(ri, rj as usize);
    lemma_union_inv(p, r, m, ri, rj);
    if a == ri {
        assert(chase(p, ri, m + 1) == ri);
        assert(p2[ri] as int == rj && p2[rj] as int == rj);
        assert(chase(p2, ri, m + 2) == chase(p2, rj, m + 1));
        lemma_chase(p2, r2, m + 1, rj, m + 1);
    } else if p[a] as int == a {
        assert(chase(p, a, m + 1) == a);
        assert(p2[a] as int == a);
    } else {
        let n = p[a] as int;
        assert(r2[n] > r2[a]);
        lemma_union_roots(p, r, m, ri, rj, n);
        assert(chase(p2, a, m + 2) == chase(p2, n, m + 1));
        lemma_chase(p2, r2, m + 1, n, m + 1);
        lemma_chase(p2, r2, m + 1, n, m + 2);
        assert(chase(p, a, m + 1) == chase(p, n, m as nat));
        lemma_chase(p, r, m, n, m as nat);
        lemma_chase(p, r, m, n, m + 1);
    }
}

/// A disjoint-set forest over the elements `0 .. len`. Each element points
/// at a parent and roots point at themselves; `find` follows parents to the
/// root and rewrites the elements it passed to point straight at it, and
/// `union` hangs the root of the first group under the root of the second.
pub struct UnionFind {
    parent: Vec<usize>,
    /// Ghost rank, strictly increasing from child to parent: it bounds every
    /// parent chain and so rules cycles out.
    rank: Ghost<Seq<nat>>,
    /// An upper bound on every rank.
    max_rank: Ghost<nat>,
}

impl UnionFind {
    /// How many elements the forest was created with.
    pub closed spec fn len(self) -> nat {
        self.parent@.len()
    }

    pub closed spec fn wf(self) -> bool {
        uf_inv(self.parent@, self.rank@, self.max_rank@)
    }

    /// The representative of `i`'s group.
    pub closed spec fn root(self, i: int) -> int {
        chase(self.parent@, i, self.max_rank@ + 1)
    }

    /// The ghost ranks, exposed so that contracts can state they are kept.
    pub closed spec fn ranks(self) -> Seq<nat> {
        self.rank@
    }

    /// The ghost rank bound.
    pub closed spec fn rank_bound(self) -> nat {
        self.max_rank@
    }

    pub fn new(len: usize) -> (uf: UnionFind)
        ensures
            uf.wf(),
            uf.len() == len,
            forall|i: int| 0 <= i < len ==> uf.root(i) == i,
    {
        let mut parent: Vec<usize> = Vec::new();
        let mut i: usize = 0;
        while i < len
            invariant
                i <= len,
                parent@.len() == i,
                forall|j: int| 0 <= j < i ==> (#[trigger] parent@[j]) == j,
            decreases len - i,
        {
            parent.push(i);
            i += 1;
        }
        let uf = UnionFind {
            parent,
            rank: Ghost(Seq::new(len as nat, |j: int| 0nat)),
            max_rank: Ghost(0nat),
        };
        proof {
            assert forall|j: int| 0 <= j < len implies uf.root(j) == j by {
                assert(chase(uf.parent@, j, 1) == j);
            }
        }
        uf
    }

    /// The representative of `i`'s group, compressing the path walked: every
    /// element visited ends up pointing straight at the root. No element
    /// changes its group.
    pub fn find(&mut self, i: usize) -> (r: usize)
        requires
            old(self).wf(),
            i < old(self).len(),
        ensures
            final(self).wf(),
            final(self).len() == old(self).len(),
            r < final(self).len(),
            r as int == old(self).root(i as int),
            final(self).root(r as int) == r as int,
            forall|a: int|
                0 <= a < final(self).len() ==> final(self).root(a) == old(self).root(a),
            final(self).ranks() == old(self).ranks(),
            final(self).rank_bound() == old(self).rank_bound(),
        decreases old(self).rank_bound() - old(self).ranks()[i as int],
    {
        let ghost p0: Seq<usize> = self.parent@;
        let ghost r0: Seq<nat> = self.rank@;
        let ghost m0: nat = self.max_rank@;
        let p = self.parent[i];
        if p == i {
            proof {
                lemma_chase(p0, r0, m0, i as int, m0 + 1);
            }
            i
        } else {
            proof {
                lemma_chase(p0, r0, m0, i as int, m0 + 1);
            }
            let r = self.find(p);
            let ghost p1: Seq<usize> = self.parent@;
            proof {
                // the recursive call kept every root, so the result is the
                // root of `i` in the rewritten array as well
                assert(chase(p0, i as int, m0 + 1) == chase(p0, p as int, m0));
                lemma_chase(p0, r0, m0, p as int, m0 as nat);
                lemma_chase(p0, r0, m0, p as int, m0 + 1);
                assert(r as int == chase(p0, p as int, m0 + 1));
                assert forall|a: int| 0 <= a < p1.len() implies #[trigger] chase(p1, a, m0 + 1)
                    == chase(p0, a, m0 + 1) by {
                    assert(self.root(a) == old(self).root(a));
                }
                assert(r as int == chase(p1, i as int, m0 + 1));
            }
            self.parent[i] = r;
            proof {
                // rewriting `i` to its current root keeps every root in place
                lemma_compress_inv(p1, r0, m0, i as int);
                assert forall|a: int| 0 <= a < self.parent@.len() implies #[trigger] chase(
                    self.parent@,
                    a,
                    m0 + 1,
                ) == chase(p1, a, m0 + 1) by {
                    lemma_compress_roots(p1, r0, m0, i as int, a);
                }
                assert forall|a: int| 0 <= a < self.parent@.len() implies self.root(a) == old(
                    self,
                ).root(a) by {
                    assert(chase(self.parent@, a, m0 + 1) == chase(p1, a, m0 + 1));
                }
            }
            r
        }
    }

    /// Merges the groups of `i` and `j`: the root of `i`'s group becomes a
    /// child of the root of `j`'s group, so the merged group is represented
    /// by `j`'s old root. Other groups are untouched.
    pub fn union(&mut self, i: usize, j: usize)
        requires
            old(self).wf(),
            i < old(self).len(),
            j < old(self).len(),
        ensures
            final(self).wf(),
            final(self).len() == old(self).len(),
            forall|a: int|
                0 <= a < final(self).len() ==> final(self).root(a) == (if old(self).root(a) == old(
                    self,
                ).root(i as int) {
                    old(self).root(j as int)
                } else {
                    old(self).root(a)
                }),
    {
        let ghost p0: Seq<usize> = self.parent@;
        let ghost m0: nat = self.max_rank@;
        let root_i = self.find(i);
        let ghost pa: Seq<usize> = self.parent@;
        proof {
            assert forall|a: int| 0 <= a < pa.len() implies #[trigger] chase(pa, a, m0 + 1)
                == chase(p0, a, m0 + 1) by {
                assert(self.root(a) == old(self).root(a));
            }
        }
        let root_j = self.find(j);
        let ghost p1: Seq<usize> = self.parent@;
        let ghost r1: Seq<nat> = self.rank@;
        proof {
            assert forall|a: int| 0 <= a < p1.len() implies #[trigger] chase(p1, a, m0 + 1)
                == chase(p0, a, m0 + 1) by {
                assert(self.root(a) == chase(p1, a, m0 + 1));
                assert(chase(pa, a, m0 + 1) == chase(p0, a, m0 + 1));
            }
            // both results are their own roots in the current array
            assert(chase(p1, root_i as int, m0 + 1) == root_i as int);
            assert(chase(p1, root_j as int, m0 + 1) == root_j as int);
            lemma_chase_fixpoint(p1, r1, m0, root_i as int);
            lemma_chase_fixpoint(p1, r1, m0, root_j as int);
        }
        self.parent[root_i] = root_j;
        if root_i == root_j {
            proof {
                assert(self.parent@ =~= p1);
                assert forall|a: int| 0 <= a < self.parent@.len() implies self.root(a) == (if old(
                    self,
                ).root(a) == old(self).root(i as int) {
                    old(self).root(j as int)
                } else {
                    old(self).root(a)
                }) by {
                    assert(self.root(a) == chase(p1, a, m0 + 1));
                    assert(old(self).root(a) == chase(p0, a, m0 + 1));
                }
            }
        } else {
            proof {
                self.rank@ = r1.update(
                    root_j as int,
                    (if r1[root_i as int] >= r1[root_j as int] {
                        r1[root_i as int] + 1nat
                    } else {
                        r1[root_j as int] + 1nat
                    }),
                );
                self.max_rank@ = m0 + 1;
                lemma_union_inv(p1, r1, m0, root_i as int, root_j as int);
                assert forall|a: int| 0 <= a < self.parent@.len() implies #[trigger] chase(
                    self.parent@,
                    a,
                    m0 + 2,
                ) == (if chase(p1, a, m0 + 1) == root_i as int {
                    root_j as int
                } else {
                    chase(p1, a, m0 + 1)
                }) by {
                    lemma_union_roots(p1, r1, m0, root_i as int, root_j as int, a);
                }
                assert forall|a: int| 0 <= a < self.parent@.len() implies self.root(a) == (if old(
                    self,
                ).root(a) == old(self).root(i as int) {
                    old(self).root(j as int)
                } else {
                    old(self).root(a)
                }) by {
                    assert(self.root(a) == chase(self.parent@, a, m0 + 2));
                    assert(old(self).root(a) == chase(p0, a, m0 + 1));
                    assert(old(self).root(i as int) == chase(p0, i as int, m0 + 1));
                    assert(old(self).root(j as int) == chase(p0, j as int, m0 + 1));
                }
            }
        }
    }
}

/// After `union(i, j)`, `i` and `j` share a representative: the old root of
/// `j`'s group. `pre` and `post` are the states around a call of `union`,
/// related as its contract states.
pub proof fn lemma_union_connects(pre: UnionFind, post: UnionFind, i: int, j: int)
    requires
        0 <= i < pre.len(),
        0 <= j < pre.len(),
        post.len() == pre.len(),
        forall|a: int|
            0 <= a < post.len() ==> post.root(a) == (if pre.root(a) == pre.root(i) {
                pre.root(j)
            } else {
                pre.root(a)
            }),
    ensures
        post.root(i) == post.root(j),
        post.root(i) == pre.root(j),
{
    assert(post.root(i) == pre.root(j));
    assert(post.root(j) == pre.root(j));
}

/// Union is idempotent: merging two elements that already share a
/// representative moves no element's root.
pub proof fn lemma_union_idempotent(pre: UnionFind, post: UnionFind, i: int, j: int)
    requires
        0 <= i < pre.len(),
        0 <= j < pre.len(),
        post.len() == pre.len(),
        pre.root(i) == pre.root(j),
        forall|a: int|
            0 <= a < post.len() ==> post.root(a) == (if pre.root(a) == pre.root(i) {
                pre.root(j)
            } else {
                pre.root(a)
            }),
    ensures
        forall|a: int| 0 <= a < post.len() ==> post.root(a) == pre.root(a),
{
}

/// Sharing a representative is transitive.
pub proof fn lemma_connected_transitive(uf: UnionFind, a: int, b: int, c: int)
    requires
        uf.root(a) == uf.root(b),
        uf.root(b) == uf.root(c),
    ensures
        uf.root(a) == uf.root(c),
{
}

} // verus!
