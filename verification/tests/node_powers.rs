use adaptive_sort::node_power::{
    is_power_of_two, isqrt, BitwiseLoop, DivisionLoop, MostSignificantSetBit, NodePowerMethod,
};
use rand::{Rng, SeedableRng};
use std::ops::Range;

const RUNS: usize = 20;

fn test_rng() -> rand::rngs::StdRng {
    rand::rngs::StdRng::seed_from_u64(0xdead_beef)
}

/// The node power by floating point numbers: the midpoints of both runs as
/// fractions of the length, scaled by powers of `k` until they part.
fn trivial_node_power(k: usize, n: usize, run_a: Range<usize>, run_b: Range<usize>) -> usize {
    let a = (run_a.start as f64 + run_a.len() as f64 / 2.0) / n as f64;
    let b = (run_b.start as f64 + run_b.len() as f64 / 2.0) / n as f64;
    let mut power = 0;
    loop {
        power += 1;
        let k_to_p = (k as f64).powi(power);
        if (a * k_to_p).floor() < (b * k_to_p).floor() {
            return power as usize;
        }
    }
}

fn test_node_power_calculations<N: NodePowerMethod<K>, const K: usize>(max_n: usize) {
    let mut rng = test_rng();
    for _ in 0..RUNS {
        let n = rng.random_range(4..max_n);
        let start = rng.random_range(0..(n - 2));
        let middle = rng.random_range(start + 1..n - 1);
        let end = rng.random_range(middle + 1..n);

        let run_a = start..middle;
        let run_b = middle..end;

        let correct_power = trivial_node_power(K, n, run_a.clone(), run_b.clone());
        let test_power = N::node_power(n, run_a, run_b);

        assert_eq!(correct_power, test_power);
    }
}

#[test]
fn node_power_division_loop() {
    test_node_power_calculations::<DivisionLoop, 2>(<DivisionLoop as NodePowerMethod<2>>::max_n().min(1 << 24));
    test_node_power_calculations::<DivisionLoop, 3>(<DivisionLoop as NodePowerMethod<3>>::max_n().min(1 << 24));
    test_node_power_calculations::<DivisionLoop, 4>(<DivisionLoop as NodePowerMethod<4>>::max_n().min(1 << 24));
    test_node_power_calculations::<DivisionLoop, 5>(<DivisionLoop as NodePowerMethod<5>>::max_n().min(1 << 24));
    test_node_power_calculations::<DivisionLoop, 6>(<DivisionLoop as NodePowerMethod<6>>::max_n().min(1 << 24));
    test_node_power_calculations::<DivisionLoop, 7>(<DivisionLoop as NodePowerMethod<7>>::max_n().min(1 << 24));
    test_node_power_calculations::<DivisionLoop, 8>(<DivisionLoop as NodePowerMethod<8>>::max_n().min(1 << 24));
}

#[test]
fn node_power_bitwise_loop() {
    test_node_power_calculations::<BitwiseLoop, 2>(1 << 24);
    test_node_power_calculations::<BitwiseLoop, 4>(1 << 24);
    test_node_power_calculations::<BitwiseLoop, 8>(1 << 24);
    test_node_power_calculations::<BitwiseLoop, 16>(1 << 24);
}

#[test]
fn node_power_most_significant_bit_set() {
    test_node_power_calculations::<MostSignificantSetBit, 2>(1 << 24);
    test_node_power_calculations::<MostSignificantSetBit, 4>(1 << 24);
    test_node_power_calculations::<MostSignificantSetBit, 8>(1 << 24);
    test_node_power_calculations::<MostSignificantSetBit, 16>(1 << 24);
}

#[test]
fn node_powers_of_seventeen_elements_agree() {
    let expected = trivial_node_power(2, 17, 0..5, 5..9);
    assert_eq!(expected, 2);
    assert_eq!(<DivisionLoop as NodePowerMethod<2>>::node_power(17, 0..5, 5..9), expected);
    assert_eq!(<BitwiseLoop as NodePowerMethod<2>>::node_power(17, 0..5, 5..9), expected);
    assert_eq!(<MostSignificantSetBit as NodePowerMethod<2>>::node_power(17, 0..5, 5..9), expected);
}

#[test]
fn square_roots_are_rounded_down() {
    for (limit, root) in [
        (0, 0),
        (1, 1),
        (2, 1),
        (3, 1),
        (4, 2),
        (8, 2),
        (9, 3),
        (15, 3),
        (16, 4),
        (17, 4),
        (99, 9),
        (100, 10),
    ] {
        assert_eq!(isqrt(limit), root);
    }
    let root = isqrt(usize::MAX) as u128;
    assert!(root * root <= usize::MAX as u128);
    assert!((root + 1) * (root + 1) > usize::MAX as u128);
}

#[test]
fn powers_of_two_are_told_apart() {
    for power in [1, 2, 4, 8, 16, 1024, 1 << 20] {
        assert!(is_power_of_two(power));
    }
    for other in [0, 3, 5, 6, 7, 12, 1023, 1025] {
        assert!(!is_power_of_two(other));
    }
}

#[test]
fn each_method_knows_the_greatest_length_that_it_takes() {
    let greatest = <DivisionLoop as NodePowerMethod<2>>::max_n() as u128;
    assert!(8 * greatest * greatest <= usize::MAX as u128);
    assert!(8 * (greatest + 1) * (greatest + 1) > usize::MAX as u128);
    let greatest = <DivisionLoop as NodePowerMethod<5>>::max_n() as u128;
    assert!(20 * greatest * greatest <= usize::MAX as u128);
    assert!(20 * (greatest + 1) * (greatest + 1) > usize::MAX as u128);
    assert_eq!(<DivisionLoop as NodePowerMethod<1>>::max_n(), 0);
    assert_eq!(<DivisionLoop as NodePowerMethod<0>>::max_n(), 0);

    assert_eq!(<BitwiseLoop as NodePowerMethod<2>>::max_n(), usize::MAX / 2 + 1);
    assert_eq!(<BitwiseLoop as NodePowerMethod<16>>::max_n(), usize::MAX / 2 + 1);
    assert_eq!(<BitwiseLoop as NodePowerMethod<3>>::max_n(), 0);
    assert_eq!(<BitwiseLoop as NodePowerMethod<1>>::max_n(), 0);

    assert_eq!(<MostSignificantSetBit as NodePowerMethod<2>>::max_n(), 1 << 31);
    assert_eq!(<MostSignificantSetBit as NodePowerMethod<8>>::max_n(), 1 << 31);
    assert_eq!(<MostSignificantSetBit as NodePowerMethod<6>>::max_n(), 0);
}

fn all_methods<const K: usize>(
    n: usize,
    run_a: Range<usize>,
    run_b: Range<usize>,
) -> [usize; 3] {
    [
        <DivisionLoop as NodePowerMethod<K>>::node_power(n, run_a.clone(), run_b.clone()),
        <BitwiseLoop as NodePowerMethod<K>>::node_power(n, run_a.clone(), run_b.clone()),
        <MostSignificantSetBit as NodePowerMethod<K>>::node_power(n, run_a, run_b),
    ]
}

fn methods_by_bits<const K: usize>(
    n: usize,
    run_a: Range<usize>,
    run_b: Range<usize>,
) -> [usize; 2] {
    [
        <BitwiseLoop as NodePowerMethod<K>>::node_power(n, run_a.clone(), run_b.clone()),
        <MostSignificantSetBit as NodePowerMethod<K>>::node_power(n, run_a, run_b),
    ]
}

#[test]
fn node_powers_are_exact_on_chosen_runs() {
    assert_eq!(all_methods::<2>(17, 0..5, 5..9), [2, 2, 2]);
    assert_eq!(all_methods::<2>(100, 0..50, 50..100), [1, 1, 1]);
    assert_eq!(all_methods::<2>(100, 0..25, 25..50), [2, 2, 2]);
    assert_eq!(all_methods::<4>(100, 0..25, 25..50), [1, 1, 1]);
    assert_eq!(all_methods::<2>(1000, 998..999, 999..1000), [10, 10, 10]);
    assert_eq!(all_methods::<4>(1000, 998..999, 999..1000), [5, 5, 5]);
    assert_eq!(all_methods::<16>(1000, 998..999, 999..1000), [3, 3, 3]);
    assert_eq!(<DivisionLoop as NodePowerMethod<3>>::node_power(100, 10..20, 20..70), 1);

    // the greatest length that the quickest method takes
    let n = 1 << 31;
    assert_eq!(methods_by_bits::<2>(n, 0..1, 1..2), [31, 31]);
    assert_eq!(methods_by_bits::<2>(n, n - 2..n - 1, n - 1..n), [31, 31]);
    assert_eq!(methods_by_bits::<2>(n, 0..n / 2, n / 2..n), [1, 1]);
    assert_eq!(methods_by_bits::<16>(n, 0..1, 1..2), [8, 8]);
}
