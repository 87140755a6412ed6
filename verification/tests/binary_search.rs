use cplib::binary_search::{binary_search, BinarySearchable};

#[test]
fn test_binary_search() {
    let v = vec![1, 2, 3, 4, 5, 6];
    let ans = binary_search(0, v.len(), |idx| v[idx] < 4);
    assert_eq!(ans, 2);
}

#[test]
fn test_vec_lower_bound() {
    let v: Vec<usize> = vec![1, 2, 3, 4, 5, 6];

    assert_eq!(v.lower_bound(&3), 2);
    assert_eq!(v.lower_bound(&4), 3);
    assert_eq!(v.lower_bound(&1), 0);
    // out of ranges
    assert_eq!(v.lower_bound(&0), 0);
    assert_eq!(v.lower_bound(&7), 6);

    let v: Vec<usize> = vec![1, 2, 3, 3, 3, 4];
    assert_eq!(v.lower_bound(&3), 2);

    let v: Vec<usize> = vec![1, 2, 3, 4, 5, 6, 7];
    assert_eq!(v.lower_bound(&3), 2);
}

#[test]
fn test_vec_upper_bound() {
    let v: Vec<usize> = vec![1, 2, 3, 4, 5, 6];

    assert_eq!(v.upper_bound(&3), 3);
    assert_eq!(v.upper_bound(&4), 4);
    // out of ranges
    assert_eq!(v.upper_bound(&0), 0);
    assert_eq!(v.upper_bound(&7), 6);

    let v: Vec<usize> = vec![1, 2, 3, 3, 3, 4];
    assert_eq!(v.upper_bound(&3), 5);

    let v: Vec<usize> = vec![1, 2, 3, 4, 5, 6, 7];
    assert_eq!(v.upper_bound(&3), 3);
}
