use rankfast::{derive_state, RankState};

#[test]
fn no_answers_leave_the_first_question() {
    assert_eq!(
        derive_state(3, &[]),
        RankState { current: Some((0, 1)), ranking: None, comparisons: 0 }
    );
}

#[test]
fn trivial_lists_are_ranked_without_answers() {
    assert_eq!(
        derive_state(0, &[true]),
        RankState { current: None, ranking: Some(vec![]), comparisons: 0 }
    );
    assert_eq!(
        derive_state(1, &[]),
        RankState { current: None, ranking: Some(vec![0]), comparisons: 0 }
    );
}

#[test]
fn answers_are_taken_in_order() {
    assert_eq!(
        derive_state(3, &[false]),
        RankState { current: Some((2, 0)), ranking: None, comparisons: 1 }
    );
    // 1 ranks before 0; 2 ranks before 0, but not before 1: the order is 1, 2, 0
    assert_eq!(
        derive_state(3, &[false, true]),
        RankState { current: Some((2, 1)), ranking: None, comparisons: 2 }
    );
    assert_eq!(
        derive_state(3, &[false, true, false]),
        RankState { current: None, ranking: Some(vec![1, 2, 0]), comparisons: 3 }
    );
}

#[test]
fn replay_drops_answers_after_the_end() {
    let done = derive_state(2, &[true]);
    assert_eq!(done, RankState { current: None, ranking: Some(vec![0, 1]), comparisons: 1 });
    assert_eq!(derive_state(2, &[true, false, false, true]), done);
}
