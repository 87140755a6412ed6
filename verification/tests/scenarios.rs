use cplib::binary_search::BinarySearchable;
use cplib::mint::Mint;
use cplib::multiset::MultiSet;
use cplib::precalc::Precalc;
use cplib::prime::prime_factors;
use cplib::segment_tree::SegmentTree;
use cplib::unionfind::UnionFind;

#[test]
fn test_min_tree_scenario() {
    let v: Vec<usize> = vec![1, 2, 3, 4, 5, 6];
    let mut sg = SegmentTree::from_slice(&v);
    assert_eq!(sg.query(0, 6), 1);
    assert_eq!(sg.query(1, 6), 2);

    sg.update(0, 10);
    assert_eq!(sg.query(0, 6), 2);
    assert_eq!(sg.query(1, 6), 2);
}

#[test]
fn test_query_empty_range() {
    let v: Vec<usize> = vec![4, 7, 2];
    let sg = SegmentTree::from_slice(&v);
    // an empty range yields the identity of the min-monoid
    assert_eq!(sg.query(0, 0), usize::MAX);
    assert_eq!(sg.query(2, 2), usize::MAX);
    assert_eq!(sg.query(3, 3), usize::MAX);
}

#[test]
fn test_query_decomposition() {
    let v: Vec<usize> = vec![5, 3, 8, 1, 9, 2];
    let sg = SegmentTree::from_slice(&v);
    for a in 0..6 {
        for b in a..6 {
            for c in b..6 {
                let whole = sg.query(a, c);
                let parts = sg.query(a, b).min(sg.query(b, c));
                assert_eq!(whole, parts);
            }
        }
    }
}

#[test]
fn test_single_leaf_tree() {
    let v: Vec<usize> = vec![42];
    let mut sg = SegmentTree::from_slice(&v);
    assert_eq!(sg.query(0, 1), 42);
    sg.update(0, 7);
    assert_eq!(sg.query(0, 1), 7);
}

#[test]
fn test_union_find_scenario() {
    let mut uf = UnionFind::new(5);
    assert_eq!(uf.find(0), 0);
    assert_eq!(uf.find(1), 1);
    uf.union(0, 1);
    assert_eq!(uf.find(0), 1);
    assert_eq!(uf.find(1), 1);
}

#[test]
fn test_pow_large() {
    assert_eq!(Mint::new(10).pow(1_000_000).value(), 907_328_795);
}

#[test]
fn test_pow_zero_exponent() {
    assert_eq!(Mint::new(5).pow(0).value(), 1);
    assert_eq!(Mint::new(0).pow(0).value(), 1);
}

#[test]
fn test_comb_large() {
    let pc = Precalc::new(1000);
    assert_eq!(pc.comb(1000, 500), 159_835_829);
}

#[test]
fn test_factor_24() {
    assert_eq!(prime_factors(24), vec![(2, 3), (3, 1)]);
}

#[test]
fn test_lower_bound_with_duplicates() {
    let v: Vec<usize> = vec![0, 1, 2, 3, 3, 3, 4, 5, 6];
    assert_eq!(v.lower_bound(&3), 3);
}

#[test]
fn test_multiset_remove_absent() {
    let mut ms: MultiSet<usize> = MultiSet::new();
    assert_eq!(ms.remove(3), Err(()));
    ms.push(3);
    assert_eq!(ms.remove(4), Err(()));
    assert_eq!(ms.remove(3), Ok(()));
    assert_eq!(ms.remove(3), Err(()));
}
