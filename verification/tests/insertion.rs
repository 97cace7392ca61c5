use rankfast::insertion::{binary_insert_index, rank_items};

#[test]
fn lib_ranks_numbers_ascending() {
    let items = vec![5, 2, 9, 1, 3];
    let ranked = rank_items(items, |a, b| a < b);
    assert_eq!(ranked, vec![1, 2, 3, 5, 9]);
}

#[test]
fn lib_ranks_strings_by_length_then_alpha() {
    let items = vec!["bbb", "a", "cc", "aa", "c"];
    let ranked = rank_items(items, |a, b| {
        a.len() < b.len() || (a.len() == b.len() && a < b)
    });
    assert_eq!(ranked, vec!["a", "c", "aa", "cc", "bbb"]);
}

#[test]
fn insertion_keeps_tied_items_in_the_order_given() {
    let items = vec![(2, 'a'), (1, 'b'), (2, 'c'), (1, 'd'), (2, 'e'), (0, 'f')];
    let ranked = rank_items(items, |a, b| a.0 < b.0);
    assert_eq!(
        ranked,
        vec![(0, 'f'), (1, 'b'), (1, 'd'), (2, 'a'), (2, 'c'), (2, 'e')]
    );
}

#[test]
fn insertion_handles_trivial_lists() {
    let none: Vec<u8> = rank_items(Vec::new(), |a: &u8, b: &u8| a < b);
    assert!(none.is_empty());
    assert_eq!(rank_items(vec![7], |a, b| a < b), vec![7]);
}

#[test]
fn insert_index_is_the_first_place_the_item_ranks_before() {
    let ranking = [10, 20, 20, 30];
    let mut better = |a: &i32, b: &i32| a < b;
    assert_eq!(binary_insert_index(&5, &ranking, &mut better), 0);
    assert_eq!(binary_insert_index(&10, &ranking, &mut better), 1);
    assert_eq!(binary_insert_index(&20, &ranking, &mut better), 3);
    assert_eq!(binary_insert_index(&25, &ranking, &mut better), 3);
    assert_eq!(binary_insert_index(&30, &ranking, &mut better), 4);
    assert_eq!(binary_insert_index(&1, &[], &mut better), 0);
}
