use adaptive_sort::merging::two_way::{
    decimal_text, name_with_parameter, CopyBoth, Galloping, MergingMethod,
};

const TEST_SIZE: usize = 1000;
const TEST_RUNS: usize = 100;

/// A small generator of random numbers, by the steps of SplitMix64.
struct TestRng(u64);

impl TestRng {
    fn next(&mut self) -> u64 {
        self.0 = self.0.wrapping_add(0x9e37_79b9_7f4a_7c15);
        let mut z = self.0;
        z = (z ^ (z >> 30)).wrapping_mul(0xbf58_476d_1ce4_e5b9);
        z = (z ^ (z >> 27)).wrapping_mul(0x94d0_49bb_1331_11eb);
        z ^ (z >> 31)
    }
}

fn random_values(rng: &mut TestRng, count: usize) -> Vec<usize> {
    let mut values = Vec::with_capacity(count);
    for _ in 0..count {
        values.push(rng.next() as usize);
    }
    values
}

/// A value that is ordered by its first field alone.
#[derive(Debug, Clone, Copy)]
struct Keyed(usize, usize);

impl PartialEq for Keyed {
    fn eq(&self, other: &Self) -> bool {
        self.0 == other.0
    }
}

impl Eq for Keyed {}

impl PartialOrd for Keyed {
    fn partial_cmp(&self, other: &Self) -> Option<std::cmp::Ordering> {
        Some(self.cmp(other))
    }
}

impl Ord for Keyed {
    fn cmp(&self, other: &Self) -> std::cmp::Ordering {
        self.0.cmp(&other.0)
    }
}

fn is_stable_sorted(values: &[Keyed]) -> bool {
    values.windows(2).all(|pair| {
        pair[0].0 < pair[1].0 || (pair[0].0 == pair[1].0 && pair[0].1 < pair[1].1)
    })
}

fn test_empty_merge<M: MergingMethod>() {
    let mut elements: [usize; 0] = [];
    let mut buffer = vec![0usize; M::required_capacity(TEST_SIZE)];
    M::merge(&mut elements, 0, &mut buffer);
    assert_eq!(elements, []);
}

fn test_correct_merge<M: MergingMethod>() {
    let mut rng = TestRng(0xdead_beef);
    let mut buffer = vec![0usize; M::required_capacity(TEST_SIZE)];
    let mut splits: Vec<usize> = random_values(&mut rng, TEST_RUNS)
        .into_iter()
        .map(|value| value % TEST_SIZE)
        .collect();
    splits.push(0);
    splits.push(TEST_SIZE - 1);
    for split in splits {
        let mut elements = random_values(&mut rng, TEST_SIZE);
        elements[..split].sort();
        elements[split..].sort();
        let mut expected = elements.clone();
        expected.sort();

        M::merge(&mut elements, split, &mut buffer);

        assert!(elements == expected, "not merged at split {split}");
    }
}

fn test_correct_stable_merge<M: MergingMethod>() {
    let mut rng = TestRng(0xdead_beef);
    let mut buffer = vec![Keyed(0, 0); M::required_capacity(TEST_SIZE)];
    let mut splits: Vec<usize> = random_values(&mut rng, TEST_RUNS)
        .into_iter()
        .map(|value| value % TEST_SIZE)
        .collect();
    splits.push(0);
    splits.push(TEST_SIZE - 1);
    for split in splits {
        let mut elements: Vec<Keyed> = random_values(&mut rng, TEST_SIZE)
            .into_iter()
            .map(|value| Keyed(value % (TEST_SIZE / 4), 0))
            .collect();
        elements[..split].sort();
        elements[split..].sort();
        for (index, element) in elements.iter_mut().enumerate() {
            element.1 = index;
        }

        M::merge(&mut elements, split, &mut buffer);

        assert!(is_stable_sorted(&elements), "not merged stably at split {split}");
    }
}

#[test]
fn copy_both_merges_two_runs_of_five() {
    let mut elements = [1, 4, 5, 8, 9, 0, 2, 3, 6, 7];
    let mut buffer = vec![0; 10];
    CopyBoth::merge(&mut elements, 5, &mut buffer);
    assert_eq!(elements, [0, 1, 2, 3, 4, 5, 6, 7, 8, 9]);
}

#[test]
fn galloping_merges_two_runs_of_five() {
    let mut elements = [1, 4, 5, 8, 9, 0, 2, 3, 6, 7];
    let mut buffer = vec![0; 5];
    Galloping::<7>::merge(&mut elements, 5, &mut buffer);
    assert_eq!(elements, [0, 1, 2, 3, 4, 5, 6, 7, 8, 9]);
}

#[test]
fn galloping_merges_a_long_run_with_its_maximum() {
    let mut elements: Vec<usize> = (0..99).collect();
    elements.push(98);
    let mut buffer = vec![0; 1];
    Galloping::<7>::merge(&mut elements, 99, &mut buffer);
    let mut expected: Vec<usize> = (0..99).collect();
    expected.push(98);
    assert_eq!(elements, expected);
}

#[test]
fn galloping_merges_a_single_element_into_a_long_run() {
    let mut elements: Vec<usize> = (0..99).map(|value| 2 * value).collect();
    elements.push(51);
    let mut buffer = vec![0; 1];
    Galloping::<7>::merge(&mut elements, 99, &mut buffer);
    let mut expected: Vec<usize> = (0..99).map(|value| 2 * value).collect();
    expected.insert(26, 51);
    assert_eq!(elements, expected);
}

#[test]
fn galloping_merges_blocks_from_the_front_and_from_the_back() {
    // the shorter run in front: merged from the front
    let mut elements: Vec<usize> = vec![50, 51, 52, 53, 54, 55, 56, 57, 58, 200];
    elements.extend(0..100);
    let mut expected = elements.clone();
    expected.sort();
    let mut buffer = vec![0; 10];
    Galloping::<7>::merge(&mut elements, 10, &mut buffer);
    assert_eq!(elements, expected);

    // the shorter run behind: merged from the back
    let mut elements: Vec<usize> = (0..100).map(|value| value + 10).collect();
    elements.extend([0, 51, 52, 53, 54, 55, 56, 57, 58, 59]);
    let mut expected = elements.clone();
    expected.sort();
    let mut buffer = vec![0; 10];
    Galloping::<7>::merge(&mut elements, 100, &mut buffer);
    assert_eq!(elements, expected);
}

#[test]
fn merges_leave_runs_in_order_alone() {
    let mut elements = [1, 2, 3, 4, 5, 6];
    let mut buffer = vec![0; 6];
    CopyBoth::merge(&mut elements, 3, &mut buffer);
    assert_eq!(elements, [1, 2, 3, 4, 5, 6]);
    Galloping::<7>::merge(&mut elements, 3, &mut buffer);
    assert_eq!(elements, [1, 2, 3, 4, 5, 6]);
}

#[test]
fn merges_with_an_empty_first_run_change_nothing() {
    let mut elements = [1, 2, 3];
    let mut buffer = vec![0; 3];
    CopyBoth::merge(&mut elements, 0, &mut buffer);
    assert_eq!(elements, [1, 2, 3]);
    Galloping::<7>::merge(&mut elements, 0, &mut buffer);
    assert_eq!(elements, [1, 2, 3]);
}

#[test]
fn merges_put_the_left_run_first_among_equals() {
    let mut elements = [Keyed(1, 0), Keyed(2, 1), Keyed(2, 2), Keyed(1, 3), Keyed(2, 4)];
    let mut buffer = vec![Keyed(0, 0); 5];
    CopyBoth::merge(&mut elements, 3, &mut buffer);
    assert_eq!(elements.map(|element| element.1), [0, 3, 1, 2, 4]);

    let mut elements = [Keyed(1, 0), Keyed(2, 1), Keyed(2, 2), Keyed(1, 3), Keyed(2, 4)];
    Galloping::<7>::merge(&mut elements, 3, &mut buffer);
    assert_eq!(elements.map(|element| element.1), [0, 3, 1, 2, 4]);
}

#[test]
fn copy_both_test_empty_merges() {
    test_empty_merge::<CopyBoth>();
}

#[test]
fn copy_both_test_correct_merges() {
    test_correct_merge::<CopyBoth>();
}

#[test]
fn copy_both_test_correct_stable_merges() {
    assert!(CopyBoth::is_stable());
    test_correct_stable_merge::<CopyBoth>();
}

#[test]
fn galloping_test_empty_merges() {
    test_empty_merge::<Galloping<7>>();
}

#[test]
fn galloping_test_correct_merges() {
    test_correct_merge::<Galloping<7>>();
    test_correct_merge::<Galloping<1>>();
    test_correct_merge::<Galloping<0>>();
}

#[test]
fn galloping_test_correct_stable_merges() {
    assert!(Galloping::<7>::is_stable());
    test_correct_stable_merge::<Galloping<7>>();
    test_correct_stable_merge::<Galloping<2>>();
}

#[test]
fn gallop_finds_the_partition_point() {
    let run = [1, 3, 3, 3, 5, 7, 9];
    for hint in 0..run.len() {
        assert_eq!(Galloping::<7>::gallop::<usize, false>(&3, &run, hint), 4);
        assert_eq!(Galloping::<7>::gallop::<usize, true>(&3, &run, hint), 1);
        assert_eq!(Galloping::<7>::gallop::<usize, false>(&0, &run, hint), 0);
        assert_eq!(Galloping::<7>::gallop::<usize, true>(&10, &run, hint), 7);
        assert_eq!(Galloping::<7>::gallop::<usize, false>(&9, &run, hint), 7);
        assert_eq!(Galloping::<7>::gallop::<usize, true>(&9, &run, hint), 6);
    }
}

#[test]
fn merge_low_and_merge_high_tune_the_gallop_threshold() {
    let mut elements = [5, 6, 7, 8, 1, 2, 3, 4, 5, 6, 7];
    let mut buffer = vec![0; 7];
    let mut min_gallop = 7;
    Galloping::<7>::merge_low(&mut elements, 4, &mut buffer, &mut min_gallop);
    assert_eq!(elements, [1, 2, 3, 4, 5, 5, 6, 6, 7, 7, 8]);
    assert!(min_gallop >= 1);

    let mut elements = [2, 4, 6, 8, 10, 12, 14, 1, 3, 13];
    let mut min_gallop = 7;
    Galloping::<7>::merge_high(&mut elements, 7, &mut buffer, &mut min_gallop);
    assert_eq!(elements, [1, 2, 3, 4, 6, 8, 10, 12, 13, 14]);
    assert!(min_gallop >= 1);
}

#[test]
fn merging_methods_have_names() {
    assert_eq!(CopyBoth::display(), "copy-both");
    assert_eq!(Galloping::<7>::display(), "galloping (MIN_GALLOP = 7)");
    assert_eq!(CopyBoth::required_capacity(10), 10);
    assert!(Galloping::<7>::required_capacity(10) >= 5);
}

#[test]
fn numbers_are_written_in_decimal_digits() {
    assert_eq!(decimal_text(0), "0");
    assert_eq!(decimal_text(7), "7");
    assert_eq!(decimal_text(10), "10");
    assert_eq!(decimal_text(907), "907");
    assert_eq!(decimal_text(usize::MAX), usize::MAX.to_string());
    assert_eq!(name_with_parameter("k = ", 16, "!"), "k = 16!");
    assert_eq!(name_with_parameter("", 0, ""), "0");
    assert_eq!(Galloping::<0>::display(), "galloping (MIN_GALLOP = 0)");
    assert_eq!(Galloping::<1234>::display(), "galloping (MIN_GALLOP = 1234)");
}
