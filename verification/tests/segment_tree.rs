use cplib::segment_tree::SegmentTree;

#[test]
fn test_from_slice() {
    let v: Vec<usize> = vec![1, 2, 3, 4];

    let sg = SegmentTree::from_slice(&v);
    // the aggregates the nodes hold, read back over their spans
    assert_eq!(sg.query(0, 4), 1);

    assert_eq!(sg.query(0, 2), 1);
    assert_eq!(sg.query(0, 1), 1);
    assert_eq!(sg.query(1, 2), 2);

    assert_eq!(sg.query(2, 4), 3);
    assert_eq!(sg.query(2, 3), 3);
    assert_eq!(sg.query(3, 4), 4);
}

#[test]
fn test_update_query() {
    let v: Vec<usize> = vec![1, 2, 3, 4];

    let mut sg = SegmentTree::from_slice(&v);
    assert_eq!(sg.query(0, 4), 1);
    assert_eq!(sg.query(1, 4), 2);
    assert_eq!(sg.query(0, 3), 1);

    sg.update(0, 10); // [10, 2, 3, 4]
    assert_eq!(sg.query(0, 4), 2);
    assert_eq!(sg.query(1, 4), 2);
    assert_eq!(sg.query(0, 3), 2);

    sg.update(0, 0); // [0, 2, 3, 4]
    assert_eq!(sg.query(0, 4), 0);
    assert_eq!(sg.query(1, 4), 2);
    assert_eq!(sg.query(0, 3), 0);
}
