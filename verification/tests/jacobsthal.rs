use rankfast::jacobsthal_order;

#[test]
fn schedule_walks_each_group_downwards() {
    assert_eq!(jacobsthal_order(0), Vec::<usize>::new());
    assert_eq!(jacobsthal_order(1), vec![0]);
    assert_eq!(jacobsthal_order(2), vec![1, 0]);
    assert_eq!(jacobsthal_order(3), vec![1, 0, 2]);
    assert_eq!(jacobsthal_order(4), vec![1, 0, 3, 2]);
    assert_eq!(jacobsthal_order(5), vec![1, 0, 3, 2, 4]);
    assert_eq!(jacobsthal_order(10), vec![1, 0, 3, 2, 9, 8, 7, 6, 5, 4]);
    assert_eq!(
        jacobsthal_order(12),
        vec![1, 0, 3, 2, 9, 8, 7, 6, 5, 4, 11, 10]
    );
}

#[test]
fn schedule_names_every_position_once() {
    for count in 0..200usize {
        let mut order = jacobsthal_order(count);
        assert_eq!(order.len(), count);
        order.sort();
        assert_eq!(order, (0..count).collect::<Vec<usize>>());
    }
}
