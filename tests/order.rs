use content_graph::order::sort_positions;

#[test]
fn positions_sort_by_value_and_keep_ties_in_order() {
    let vals: Vec<u64> = vec![5, 1, 5, 0, 3];
    assert_eq!(sort_positions(&vec![0, 1, 2, 3, 4], &vals, false), vec![3, 1, 4, 0, 2]);
    assert_eq!(sort_positions(&vec![0, 1, 2, 3, 4], &vals, true), vec![0, 2, 4, 1, 3]);
    assert_eq!(sort_positions(&vec![4, 2], &vals, false), vec![4, 2]);
    assert!(sort_positions(&vec![], &vals, false).is_empty());
}
