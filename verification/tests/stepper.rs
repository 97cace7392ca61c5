use rankfast::{estimate_turns, rank_items, Step, Stepper};

/// Drives a stepper with the answers of `better` until it is done.
fn drive(n: usize, mut better: impl FnMut(usize, usize) -> bool) -> (Vec<usize>, usize, Vec<(usize, usize)>) {
    let mut stepper = Stepper::new(n);
    let mut asked = Vec::new();
    let mut step = stepper.step();
    while let Step::Compare { a, b } = step {
        asked.push((a, b));
        step = stepper.answer(better(a, b));
    }
    let made = stepper.comparisons_made();
    let order = stepper.take_order().unwrap();
    (order, made, asked)
}

fn each_order(items: &mut [usize], k: usize, f: &mut impl FnMut(&[usize])) {
    if k <= 1 {
        f(items);
        return;
    }
    each_order(items, k - 1, f);
    for i in 0..k - 1 {
        items.swap(if k % 2 == 0 { i } else { 0 }, k - 1);
        each_order(items, k - 1, f);
    }
}

#[test]
fn stepper_replay_for_eight_matches_the_batch_sorter() {
    // answering "a" every time is no order, but it drives the machine
    let (order, made, asked) = drive(8, |_, _| true);
    assert_eq!(asked.len(), made);

    let mut count = 0usize;
    let mut batch_asked = Vec::new();
    let ranked = rank_items((0..8usize).collect(), |a, b| {
        count += 1;
        batch_asked.push((*a, *b));
        true
    });
    assert_eq!(made, count);
    assert_eq!(order, ranked);
    assert_eq!(asked, batch_asked);

    // and again, with the same outcome
    let (again, made_again, asked_again) = drive(8, |_, _| true);
    assert_eq!(again, order);
    assert_eq!(made_again, made);
    assert_eq!(asked_again, asked);

    let mut sorted = order.clone();
    sorted.sort();
    assert_eq!(sorted, (0..8).collect::<Vec<usize>>());
}

#[test]
fn stepper_asks_what_the_batch_sorter_asks() {
    for n in 0..=7usize {
        let mut values: Vec<usize> = (0..n).collect();
        each_order(&mut values, n, &mut |perm| {
            let (order, made, asked) = drive(n, |a, b| perm[a] < perm[b]);
            let mut batch_asked = Vec::new();
            let ranked = rank_items((0..n).collect::<Vec<usize>>(), |a, b| {
                batch_asked.push((*a, *b));
                perm[*a] < perm[*b]
            });
            assert_eq!(order, ranked);
            assert_eq!(asked, batch_asked);
            assert_eq!(made, asked.len());
            assert!(made <= estimate_turns(n));
            let by_value: Vec<usize> = order.iter().map(|&i| perm[i]).collect();
            assert_eq!(by_value, (0..n).collect::<Vec<usize>>());
        });
    }
}

#[test]
fn trivial_steppers_are_done_at_once() {
    let mut none = Stepper::new(0);
    assert_eq!(none.step(), Step::Done);
    assert_eq!(none.comparisons_made(), 0);
    assert_eq!(none.take_order(), Some(vec![]));

    let mut one = Stepper::new(1);
    assert_eq!(one.take_order(), Some(vec![0]));
    assert_eq!(one.step(), Step::Done);
    assert_eq!(one.take_order(), None);
}

#[test]
fn first_questions_are_about_the_pairs() {
    let mut stepper = Stepper::new(5);
    assert_eq!(stepper.step(), Step::Compare { a: 0, b: 1 });
    assert_eq!(stepper.answer(true), Step::Compare { a: 2, b: 3 });
    // the mains are 1 and 3: they are compared next
    assert_eq!(stepper.answer(true), Step::Compare { a: 1, b: 3 });
    assert_eq!(stepper.comparisons_made(), 2);
}

#[test]
fn two_items_rank_by_one_answer() {
    let mut yes = Stepper::new(2);
    assert_eq!(yes.step(), Step::Compare { a: 0, b: 1 });
    assert_eq!(yes.answer(true), Step::Done);
    assert_eq!(yes.take_order(), Some(vec![0, 1]));

    let mut no = Stepper::new(2);
    assert_eq!(no.step(), Step::Compare { a: 0, b: 1 });
    assert_eq!(no.answer(false), Step::Done);
    assert_eq!(no.take_order(), Some(vec![1, 0]));
}

#[test]
fn step_is_idempotent() {
    let mut stepper = Stepper::new(6);
    let first = stepper.step();
    assert_eq!(stepper.step(), first);
    assert_eq!(stepper.step(), first);
    assert_eq!(stepper.comparisons_made(), 0);
    let next = stepper.answer(false);
    assert_eq!(stepper.step(), next);
    assert_eq!(stepper.step(), next);
    assert_eq!(stepper.comparisons_made(), 1);
    while let Step::Compare { .. } = stepper.step() {
        stepper.answer(true);
    }
    assert_eq!(stepper.step(), Step::Done);
    assert_eq!(stepper.step(), Step::Done);
}

#[test]
fn an_answer_to_no_question_is_dropped() {
    let mut stepper = Stepper::new(3);
    // no question is out yet: the answer counts for nothing
    assert_eq!(stepper.answer(false), Step::Compare { a: 0, b: 1 });
    assert_eq!(stepper.comparisons_made(), 0);
    assert_eq!(stepper.answer(false), Step::Compare { a: 2, b: 0 });
    assert_eq!(stepper.comparisons_made(), 1);
}

#[test]
fn answers_after_the_end_are_dropped() {
    let mut stepper = Stepper::new(3);
    let mut step = stepper.step();
    while step != Step::Done {
        step = stepper.answer(true);
    }
    let made = stepper.comparisons_made();
    assert_eq!(stepper.answer(true), Step::Done);
    assert_eq!(stepper.answer(false), Step::Done);
    assert_eq!(stepper.comparisons_made(), made);
    assert!(stepper.take_order().is_some());
}

#[test]
fn order_is_handed_out_once() {
    let mut stepper = Stepper::new(4);
    assert_eq!(stepper.take_order(), None);
    let mut step = stepper.step();
    assert_eq!(stepper.take_order(), None);
    while step != Step::Done {
        step = stepper.answer(false);
    }
    let order = stepper.take_order().unwrap();
    let mut sorted = order.clone();
    sorted.sort();
    assert_eq!(sorted, vec![0, 1, 2, 3]);
    assert_eq!(stepper.take_order(), None);
    assert_eq!(stepper.step(), Step::Done);
    assert_eq!(stepper.take_order(), None);
}

#[test]
fn replay_brings_a_stepper_to_the_same_place() {
    let answers = [true, false, false, true, true, false, true, false, false, true, true, true];
    for n in 0..=9usize {
        for len in 0..=answers.len() {
            let mut one = Stepper::new(n);
            let mut other = Stepper::new(n);
            let mut step_one = one.step();
            let mut step_other = other.step();
            for &answer in &answers[..len] {
                step_one = one.answer(answer);
            }
            for &answer in &answers[..len] {
                step_other = other.answer(answer);
            }
            assert_eq!(step_one, step_other);
            assert_eq!(one.comparisons_made(), other.comparisons_made());
            assert!(one.comparisons_made() <= len);
            assert!(one.comparisons_made() <= estimate_turns(n));
            assert_eq!(one.take_order(), other.take_order());
        }
    }
}
