use cplib::multiset::MultiSet;

#[test]
fn test_len() {
    let mut ms: MultiSet<usize> = MultiSet::new();
    assert_eq!(ms.len(), 0);
    ms.push(1);
    assert_eq!(ms.len(), 1);
    ms.remove(1).unwrap();
    assert_eq!(ms.len(), 0);
}

#[test]
fn test_max() {
    let mut ms: MultiSet<usize> = MultiSet::new();
    assert_eq!(ms.max(), None);
    ms.push(1);
    assert_eq!(ms.max(), Some(&1));
    ms.push(1);
    assert_eq!(ms.max(), Some(&1));
    ms.push(10);
    assert_eq!(ms.max(), Some(&10));
    ms.push(5);
    assert_eq!(ms.max(), Some(&10));
    ms.remove(1).unwrap();
    assert_eq!(ms.max(), Some(&10));
    ms.remove(10).unwrap();
    assert_eq!(ms.max(), Some(&5));
    ms.remove(5).unwrap();
    assert_eq!(ms.max(), Some(&1));
    ms.remove(1).unwrap();
    assert_eq!(ms.max(), None);
}

#[test]
fn test_min() {
    let mut ms: MultiSet<usize> = MultiSet::new();
    assert_eq!(ms.min(), None);
    ms.push(5);
    assert_eq!(ms.min(), Some(&5));
    ms.push(5);
    assert_eq!(ms.min(), Some(&5));
    ms.push(1);
    assert_eq!(ms.min(), Some(&1));
    ms.push(10);
    assert_eq!(ms.min(), Some(&1));
    ms.remove(1).unwrap();
    assert_eq!(ms.min(), Some(&5));
    ms.remove(10).unwrap();
    assert_eq!(ms.min(), Some(&5));
    ms.remove(5).unwrap();
    assert_eq!(ms.min(), Some(&5));
    ms.remove(5).unwrap();
    assert_eq!(ms.min(), None);
}
