use rankfast::estimate::ceil_log2;
use rankfast::estimate_turns;

#[test]
fn estimate_of_trivial_lists_is_zero() {
    assert_eq!(estimate_turns(0), 0);
    assert_eq!(estimate_turns(1), 0);
}

#[test]
fn estimate_has_the_values_of_its_formula() {
    // pairs + estimate of the mains + a full search for each later chain length
    assert_eq!(estimate_turns(2), 1);
    assert_eq!(estimate_turns(3), 1 + 0 + 2);
    assert_eq!(estimate_turns(4), 2 + 1 + 2);
    assert_eq!(estimate_turns(5), 2 + 1 + 2 + 3);
    assert_eq!(estimate_turns(6), 3 + 3 + 3 + 3);
    assert_eq!(estimate_turns(7), 3 + 3 + 3 + 3 + 3);
    assert_eq!(estimate_turns(8), 4 + 5 + 3 + 3 + 3);
    assert_eq!(estimate_turns(16), 8 + 18 + 4 + 4 + 4 + 4 + 4 + 4 + 4);
}

#[test]
fn estimate_is_monotone() {
    for n in 0..=64usize {
        assert!(estimate_turns(n) <= estimate_turns(n + 1));
    }
}

#[test]
fn ceil_log2_counts_the_bits_of_the_predecessor() {
    let expected = [0usize, 0, 1, 2, 2, 3, 3, 3, 3, 4];
    for (v, &bits) in expected.iter().enumerate() {
        assert_eq!(ceil_log2(v), bits);
    }
    assert_eq!(ceil_log2(1024), 10);
    assert_eq!(ceil_log2(1025), 11);
    assert_eq!(ceil_log2(usize::MAX), usize::BITS as usize);
}
