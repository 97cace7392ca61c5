use rankfast::rank_items;

#[test]
fn ranks_numbers_ascending() {
    let items = vec![5, 2, 9, 1, 3];
    let ranked = rank_items(items, |a, b| a < b);
    assert_eq!(ranked, vec![1, 2, 3, 5, 9]);
}

#[test]
fn ranks_strings_by_length_then_alpha() {
    let items = vec!["bbb", "a", "cc", "aa", "c"];
    let ranked = rank_items(items, |a, b| {
        a.len() < b.len() || (a.len() == b.len() && a < b)
    });
    assert_eq!(ranked, vec!["a", "c", "aa", "cc", "bbb"]);
}

#[test]
fn worst_case_comparisons_are_optimal() {
    let optimal = [0, 0, 1, 3, 5, 7, 10, 13, 16];
    for (n, &opt) in optimal.iter().enumerate() {
        let mut worst = 0usize;
        let mut items: Vec<usize> = (0..n).collect();
        permute(&mut items, n, &mut |perm| {
            let mut count = 0usize;
            let ranked = rank_items(perm.to_vec(), |a, b| {
                count += 1;
                a < b
            });
            for w in ranked.windows(2) {
                assert!(w[0] < w[1]);
            }
            worst = worst.max(count);
        });
        assert_eq!(worst, opt, "n={n}: worst={worst}, optimal={opt}");
    }
}

fn permute(items: &mut [usize], k: usize, f: &mut impl FnMut(&[usize])) {
    if k <= 1 {
        f(items);
        return;
    }
    permute(items, k - 1, f);
    for i in 0..k - 1 {
        items.swap(if k.is_multiple_of(2) { i } else { 0 }, k - 1);
        permute(items, k - 1, f);
    }
}

#[test]
fn show_min_max_comparisons() {
    for n in 2..=8 {
        let (mut lo, mut hi) = (usize::MAX, 0usize);
        let mut items: Vec<usize> = (0..n).collect();
        permute(&mut items, n, &mut |perm| {
            let mut count = 0usize;
            let _ = rank_items(perm.to_vec(), |a, b| {
                count += 1;
                a < b
            });
            lo = lo.min(count);
            hi = hi.max(count);
        });
        println!("n={n}: min={lo} max={hi}");
    }
}

#[test]
fn trivial_cases_need_no_comparison() {
    let mut count = 0usize;
    let none: Vec<i32> = rank_items(Vec::new(), |a: &i32, b: &i32| {
        count += 1;
        a < b
    });
    assert_eq!(none, Vec::<i32>::new());
    let one = rank_items(vec![42], |a, b| {
        count += 1;
        a < b
    });
    assert_eq!(one, vec![42]);
    assert_eq!(count, 0);
}

#[test]
fn two_items_take_one_comparison() {
    let mut count = 0usize;
    let ranked = rank_items(vec![2, 1], |a, b| {
        count += 1;
        a < b
    });
    assert_eq!(ranked, vec![1, 2]);
    assert_eq!(count, 1);
}

#[test]
fn worst_case_for_five_items_is_seven() {
    let mut worst = 0usize;
    let mut items: Vec<usize> = (0..5).collect();
    let mut seen = 0usize;
    permute(&mut items, 5, &mut |perm| {
        let mut count = 0usize;
        let ranked = rank_items(perm.to_vec(), |a, b| {
            count += 1;
            a < b
        });
        assert_eq!(ranked, vec![0, 1, 2, 3, 4]);
        worst = worst.max(count);
        seen += 1;
    });
    assert_eq!(seen, 120);
    assert_eq!(worst, 7);
}

#[test]
fn result_holds_the_items_given() {
    let items = vec![3, 1, 3, 2, 1, 3, 0, 2, 2, 1, 7];
    let mut expected = items.clone();
    expected.sort();
    let ranked = rank_items(items, |a, b| a < b);
    assert_eq!(ranked, expected);
}

#[test]
fn a_comparator_that_is_no_order_still_gives_the_items_back() {
    let items: Vec<u32> = (0..20).collect();
    let mut flip = false;
    let mut ranked = rank_items(items.clone(), |_, _| {
        flip = !flip;
        flip
    });
    ranked.sort();
    assert_eq!(ranked, items);
}

#[test]
fn comparisons_stay_within_the_estimate() {
    for n in 0..=7usize {
        let limit = rankfast::estimate_turns(n);
        let mut items: Vec<usize> = (0..n).collect();
        permute(&mut items, n, &mut |perm| {
            let mut count = 0usize;
            let ranked = rank_items(perm.to_vec(), |a, b| {
                count += 1;
                a < b
            });
            assert_eq!(ranked, (0..n).collect::<Vec<usize>>());
            assert!(count <= limit);
        });
    }
    // larger lists, in a few fixed orders
    for n in [9usize, 16, 33, 100, 257] {
        let limit = rankfast::estimate_turns(n);
        for stride in [1usize, 3, 7, 11] {
            let items: Vec<usize> = (0..n).map(|i| (i * stride + 5) % n).collect();
            let mut count = 0usize;
            let ranked = rank_items(items.clone(), |a, b| {
                count += 1;
                a < b
            });
            let mut expected = items;
            expected.sort();
            assert_eq!(ranked, expected);
            assert!(count <= limit);
        }
    }
}
