use adaptive_sort::algorithms::{DefaultRngFactory, Sort};
use adaptive_sort::insertionsort::InsertionSort;
use adaptive_sort::merging::multi_way::TournamentTree;
use adaptive_sort::merging::two_way::{CopyBoth, Galloping};
use adaptive_sort::mergesort::{BottomUpMergeSort, TopDownMergeSort};
use adaptive_sort::node_power::MostSignificantSetBit;
use adaptive_sort::peeksort::PeekSort;
use adaptive_sort::powersort::{MultiwayPowerSort, PowerSort};
use adaptive_sort::quicksort::QuickSort;
use adaptive_sort::timsort::TimSort;

/// The seed of every test's random numbers.
const TEST_SEED: u64 = 0xdead_beef;

fn test_rng() -> TestRng {
    TestRng(TEST_SEED)
}

/// A small generator of random numbers, by the steps of SplitMix64.
struct TestRng(u64);

impl TestRng {
    fn next(&mut self) -> u64 {
        self.0 = self.0.wrapping_add(0x9e37_79b9_7f4a_7c15);
        let mut z = self.0;
        z = (z ^ (z >> 30)).wrapping_mul(0xbf58_476d_1ce4_e5b9);
        z = (z ^ (z >> 27)).wrapping_mul(0x94d0_49bb_1331_11eb);
        z ^ (z >> 31)
    }
}

fn random_values(rng: &mut TestRng, count: usize) -> Vec<usize> {
    let mut values = Vec::with_capacity(count);
    for _ in 0..count {
        values.push(rng.next() as usize);
    }
    values
}

/// A value that is ordered by its first field alone; the second tells where
/// the value stood before the sort.
#[derive(Debug, Clone, Copy)]
struct IndexedOrdered(usize, usize);

impl PartialEq for IndexedOrdered {
    fn eq(&self, other: &Self) -> bool {
        self.0 == other.0
    }
}

impl Eq for IndexedOrdered {}

impl PartialOrd for IndexedOrdered {
    fn partial_cmp(&self, other: &Self) -> Option<std::cmp::Ordering> {
        Some(self.cmp(other))
    }
}

impl Ord for IndexedOrdered {
    fn cmp(&self, other: &Self) -> std::cmp::Ordering {
        self.0.cmp(&other.0)
    }
}

fn is_stable_sorted(values: &[IndexedOrdered]) -> bool {
    values.windows(2).all(|pair| {
        pair[0].0 < pair[1].0 || (pair[0].0 == pair[1].0 && pair[0].1 < pair[1].1)
    })
}

fn test_empty<S: Sort>() {
    let mut values: [usize; 0] = [];
    S::sort(&mut values);
    assert_eq!(values, []);
}

fn test_random_sorted<const RUNS: usize, const TEST_SIZE: usize, S: Sort>() {
    let mut rng = test_rng();
    for run in 0..RUNS {
        let mut values: Vec<usize> = random_values(&mut rng, TEST_SIZE);
        let mut expected = values.clone();
        expected.sort();
        S::sort(&mut values);
        assert!(values == expected, "run {run} was not sorted");
    }
}

fn test_random_stable_sorted<const RUNS: usize, const TEST_SIZE: usize, S: Sort>() {
    let mut rng = test_rng();
    for run in 0..RUNS {
        let mut values: Vec<IndexedOrdered> = random_values(&mut rng, TEST_SIZE)
            .into_iter()
            .enumerate()
            .map(|(index, value)| IndexedOrdered(value % (TEST_SIZE / 4), index))
            .collect();
        S::sort(&mut values);
        assert!(is_stable_sorted(&values), "run {run} was not sorted stably");
    }
}

type DefaultInsertionSort = InsertionSort<false>;
type BinaryInsertionSort = InsertionSort<true>;
type DefaultPowerSort = PowerSort<MostSignificantSetBit, DefaultInsertionSort, CopyBoth, 24, false, false>;
type PowerSortPowerIndexedStack =
    PowerSort<MostSignificantSetBit, DefaultInsertionSort, CopyBoth, 24, false, true>;
type DefaultTimSort = TimSort<BinaryInsertionSort, Galloping<7>, 32>;
type DefaultTopDownMergeSort = TopDownMergeSort<DefaultInsertionSort, CopyBoth, 24, true>;
type TopDownMergeSortUnchecked = TopDownMergeSort<DefaultInsertionSort, CopyBoth, 24, false>;
type DefaultBottomUpMergeSort = BottomUpMergeSort<DefaultInsertionSort, CopyBoth, 24, true>;
type BottomUpMergeSortUnchecked = BottomUpMergeSort<DefaultInsertionSort, CopyBoth, 24, false>;
type PowerSortMulti4 =
    MultiwayPowerSort<MostSignificantSetBit, DefaultInsertionSort, TournamentTree, 4, 24, false>;
type PowerSortMulti8 =
    MultiwayPowerSort<MostSignificantSetBit, DefaultInsertionSort, TournamentTree, 8, 24, false>;
type DefaultQuickSort = QuickSort<DefaultRngFactory, DefaultInsertionSort, 24, 128, false>;
type QuickSortChecked = QuickSort<DefaultRngFactory, DefaultInsertionSort, 24, 128, true>;
type DefaultPeekSort = PeekSort<DefaultInsertionSort, CopyBoth, 24, true>;
type PeekSortDecreasing = PeekSort<DefaultInsertionSort, CopyBoth, 24, false>;

#[test]
fn insertionsort_empty() {
    test_empty::<DefaultInsertionSort>();
    test_empty::<BinaryInsertionSort>();
}

#[test]
fn insertionsort_random() {
    test_random_sorted::<100, 1000, DefaultInsertionSort>();
    test_random_sorted::<100, 1000, BinaryInsertionSort>();
}

#[test]
fn insertionsort_random_stable() {
    test_random_stable_sorted::<100, 1000, DefaultInsertionSort>();
    test_random_stable_sorted::<100, 1000, BinaryInsertionSort>();
}

#[test]
fn powersort_empty() {
    test_empty::<DefaultPowerSort>();
    test_empty::<PowerSortPowerIndexedStack>();
}

#[test]
fn powersort_random() {
    test_random_sorted::<20, 100_000, DefaultPowerSort>();
    test_random_sorted::<20, 100_000, PowerSortPowerIndexedStack>();
}

#[test]
fn powersort_random_stable() {
    test_random_stable_sorted::<20, 100_000, DefaultPowerSort>();
    test_random_stable_sorted::<20, 100_000, PowerSortPowerIndexedStack>();
}

#[test]
fn timsort_empty() {
    test_empty::<DefaultTimSort>();
}

#[test]
fn timsort_random() {
    test_random_sorted::<100, 100_000, DefaultTimSort>();
}

#[test]
fn timsort_random_stable() {
    test_random_stable_sorted::<100, 100_000, DefaultTimSort>();
}

#[test]
fn peeksort_empty() {
    test_empty::<DefaultPeekSort>();
    test_empty::<PeekSortDecreasing>();
}

#[test]
fn peeksort_random() {
    test_random_sorted::<100, 100_000, DefaultPeekSort>();
    test_random_sorted::<100, 100_000, PeekSortDecreasing>();
}

#[test]
fn peeksort_random_stable() {
    test_random_stable_sorted::<100, 100_000, DefaultPeekSort>();
    test_random_stable_sorted::<100, 100_000, PeekSortDecreasing>();
}

#[test]
fn top_down_mergesort_empty() {
    test_empty::<DefaultTopDownMergeSort>();
    test_empty::<TopDownMergeSortUnchecked>();
}

#[test]
fn top_down_mergesort_random() {
    test_random_sorted::<100, 100_000, DefaultTopDownMergeSort>();
    test_random_sorted::<100, 100_000, TopDownMergeSortUnchecked>();
}

#[test]
fn top_down_mergesort_random_stable() {
    test_random_stable_sorted::<100, 100_000, DefaultTopDownMergeSort>();
    test_random_stable_sorted::<100, 100_000, TopDownMergeSortUnchecked>();
}

#[test]
fn mergesort_empty() {
    test_empty::<DefaultBottomUpMergeSort>();
    test_empty::<BottomUpMergeSortUnchecked>();
    test_empty::<DefaultTopDownMergeSort>();
    test_empty::<TopDownMergeSortUnchecked>();
}

#[test]
fn mergesort_random() {
    test_random_sorted::<100, 100_000, DefaultBottomUpMergeSort>();
    test_random_sorted::<100, 100_000, BottomUpMergeSortUnchecked>();
    test_random_sorted::<100, 100_000, DefaultTopDownMergeSort>();
    test_random_sorted::<100, 100_000, TopDownMergeSortUnchecked>();
}

#[test]
fn mergesort_random_stable() {
    test_random_stable_sorted::<100, 100_000, DefaultBottomUpMergeSort>();
    test_random_stable_sorted::<100, 100_000, BottomUpMergeSortUnchecked>();
    test_random_stable_sorted::<100, 100_000, DefaultTopDownMergeSort>();
    test_random_stable_sorted::<100, 100_000, TopDownMergeSortUnchecked>();
}

#[test]
fn bottom_up_mergesort_empty() {
    test_empty::<DefaultBottomUpMergeSort>();
    test_empty::<BottomUpMergeSortUnchecked>();
}

#[test]
fn bottom_up_mergesort_random() {
    test_random_sorted::<100, 100_000, DefaultBottomUpMergeSort>();
    test_random_sorted::<100, 100_000, BottomUpMergeSortUnchecked>();
}

#[test]
fn bottom_up_mergesort_random_stable() {
    test_random_stable_sorted::<100, 100_000, DefaultBottomUpMergeSort>();
    test_random_stable_sorted::<100, 100_000, BottomUpMergeSortUnchecked>();
}

#[test]
fn multi_empty() {
    test_empty::<PowerSortMulti4>();
    test_empty::<PowerSortMulti8>();
}

#[test]
fn multi_random() {
    test_random_sorted::<20, 100_000, PowerSortMulti4>();
    test_random_sorted::<20, 100_000, PowerSortMulti8>();
}

#[test]
fn multi_random_stable() {
    test_random_stable_sorted::<20, 100_000, PowerSortMulti4>();
    test_random_stable_sorted::<20, 100_000, PowerSortMulti8>();
}

#[test]
fn quicksort_empty() {
    test_empty::<DefaultQuickSort>();
    test_empty::<QuickSortChecked>();
}

#[test]
fn quicksort_random() {
    test_random_sorted::<100, 100_000, DefaultQuickSort>();
    test_random_sorted::<100, 100_000, QuickSortChecked>();
}
