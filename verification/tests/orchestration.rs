use adaptive_sort::algorithms::{BufGuard, DefaultRngFactory, RandomFactory, Sort, StdSort};
use adaptive_sort::cli::{Algorithm, PowersortNodePowerMethod};
use adaptive_sort::insertionsort::InsertionSort;
use adaptive_sort::merging::multi_way::{MultiMergingMethod, TournamentTree};
use adaptive_sort::merging::two_way::{CopyBoth, Galloping};
use adaptive_sort::node_power::MostSignificantSetBit;
use adaptive_sort::powersort::{
    extend_run, floor_log, next_run, MultiwayPowerSort, PowerIndexedStack, PowerSort, Run,
    RunStack, Stack,
};
use adaptive_sort::quicksort::move_median_to_first;
use adaptive_sort::timsort::{Run as Pending, TimSort};

type DefaultPowerSort = PowerSort<MostSignificantSetBit, InsertionSort<false>, CopyBoth, 24, false, false>;
type DefaultTimSort = TimSort<InsertionSort<true>, Galloping<7>, 32>;

fn all_algorithms() -> Vec<Algorithm> {
    let mut algorithms = vec![
        Algorithm::Std { unstable: false },
        Algorithm::Std { unstable: true },
        Algorithm::Insertionsort { binary: false },
        Algorithm::Insertionsort { binary: true },
        Algorithm::Quicksort { check_sorted: false },
        Algorithm::Quicksort { check_sorted: true },
        Algorithm::Peeksort { find_decreasing: false },
        Algorithm::Peeksort { find_decreasing: true },
        Algorithm::Mergesort { bottom_up: false, check_sorted: false },
        Algorithm::Mergesort { bottom_up: false, check_sorted: true },
        Algorithm::Mergesort { bottom_up: true, check_sorted: false },
        Algorithm::Mergesort { bottom_up: true, check_sorted: true },
        Algorithm::Timsort { simple_merging: false },
        Algorithm::Timsort { simple_merging: true },
    ];
    for node_power_method in [
        PowersortNodePowerMethod::DivisionLoop,
        PowersortNodePowerMethod::BitwiseLoop,
        PowersortNodePowerMethod::MostSignificantSetBit,
    ] {
        for power_indexed_stack in [false, true] {
            algorithms.push(Algorithm::Powersort { node_power_method, power_indexed_stack });
        }
        for k in [2, 4, 8, 16] {
            algorithms.push(Algorithm::MultiwayPowersort { node_power_method, k });
        }
    }
    algorithms
}

/// Numbers with many runs, up and down, and many repetitions.
fn bumpy(count: usize) -> Vec<(u8, usize)> {
    (0..count).map(|index| (((index * index) % 97 % 13) as u8, index)).collect()
}

/// A value that is ordered by its first field alone.
#[derive(Debug, Clone, Copy)]
struct Keyed(u8, usize);

impl PartialEq for Keyed {
    fn eq(&self, other: &Self) -> bool {
        self.0 == other.0
    }
}

impl Eq for Keyed {}

impl PartialOrd for Keyed {
    fn partial_cmp(&self, other: &Self) -> Option<std::cmp::Ordering> {
        Some(self.cmp(other))
    }
}

impl Ord for Keyed {
    fn cmp(&self, other: &Self) -> std::cmp::Ordering {
        self.0.cmp(&other.0)
    }
}

#[test]
fn every_algorithm_sorts() {
    for algorithm in all_algorithms() {
        for count in [0, 1, 2, 3, 23, 24, 25, 100, 1000, 5000] {
            let mut values: Vec<Keyed> =
                bumpy(count).into_iter().map(|(key, index)| Keyed(key, index)).collect();
            let mut expected: Vec<(u8, usize)> = bumpy(count);
            expected.sort();
            algorithm.sort(&mut values);
            let keys: Vec<u8> = values.iter().map(|value| value.0).collect();
            let expected_keys: Vec<u8> = expected.iter().map(|value| value.0).collect();
            assert_eq!(keys, expected_keys, "{algorithm:?} on {count} elements");
            let mut tags: Vec<usize> = values.iter().map(|value| value.1).collect();
            tags.sort();
            assert!(tags.into_iter().eq(0..count), "{algorithm:?} lost an element");
            if algorithm.is_stable() {
                let tags: Vec<usize> = values.iter().map(|value| value.1).collect();
                let expected_tags: Vec<usize> = expected.iter().map(|value| value.1).collect();
                assert_eq!(tags, expected_tags, "{algorithm:?} is not stable");
            }
        }
    }
}

#[test]
fn sorting_twice_is_sorting_once() {
    for algorithm in all_algorithms() {
        if !algorithm.is_stable() {
            continue;
        }
        let mut once: Vec<Keyed> =
            bumpy(3000).into_iter().map(|(key, index)| Keyed(key, index)).collect();
        algorithm.sort(&mut once);
        let mut twice = once.clone();
        algorithm.sort(&mut twice);
        let tags_once: Vec<usize> = once.iter().map(|value| value.1).collect();
        let tags_twice: Vec<usize> = twice.iter().map(|value| value.1).collect();
        assert_eq!(tags_once, tags_twice, "{algorithm:?}");
    }
}

#[test]
fn short_slices_come_back_unchanged() {
    for algorithm in all_algorithms() {
        let mut empty: [usize; 0] = [];
        algorithm.sort(&mut empty);
        assert_eq!(empty, []);
        let mut single = [42];
        algorithm.sort(&mut single);
        assert_eq!(single, [42]);
    }
}

#[test]
fn only_quicksort_and_the_unstable_sort_of_std_are_unstable() {
    for algorithm in all_algorithms() {
        let unstable = matches!(
            algorithm,
            Algorithm::Quicksort { .. } | Algorithm::Std { unstable: true }
        );
        assert_eq!(algorithm.is_stable(), !unstable, "{algorithm:?}");
    }
    assert!(DefaultPowerSort::is_stable());
    assert!(DefaultTimSort::is_stable());
    assert!(<StdSort<true> as Sort>::is_stable());
    assert!(!<StdSort<false> as Sort>::is_stable());
}

#[test]
fn the_sort_of_std_sorts() {
    let mut values = [3, 1, 2];
    <StdSort<true> as Sort>::sort(&mut values);
    assert_eq!(values, [1, 2, 3]);
    let mut values = [3, 1, 2];
    <StdSort<false> as Sort>::sort(&mut values);
    assert_eq!(values, [1, 2, 3]);
}

#[test]
fn powersort_extends_a_short_run_at_the_end() {
    let mut values: Vec<usize> = (0..1000).map(|value| value + 100).collect();
    values.extend(0..10);
    let first = DefaultPowerSort::next_run(&mut values, 0);
    assert_eq!((first.start, first.end), (0, 1000));
    let second = DefaultPowerSort::next_run(&mut values, 1000);
    assert_eq!((second.start, second.end), (1000, 1010));
    DefaultPowerSort::sort(&mut values);
    let mut expected: Vec<usize> = (0..10).collect();
    expected.extend((0..1000).map(|value| value + 100));
    assert_eq!(values, expected);
}

#[test]
fn a_short_run_is_extended_by_sorting() {
    let mut values = [1, 2, 9, 3, 8, 4, 7, 0];
    let run = next_run::<InsertionSort<false>, usize>(&mut values, 1, 4, false);
    assert_eq!((run.start, run.end), (1, 5));
    assert_eq!(values, [1, 2, 3, 8, 9, 4, 7, 0]);

    // near the end the run takes what is left
    let run = next_run::<InsertionSort<false>, usize>(&mut values, 5, 4, false);
    assert_eq!((run.start, run.end), (5, 8));
    assert_eq!(values, [1, 2, 3, 8, 9, 0, 4, 7]);

    // a run that is long enough is left as it is
    let mut values = [1, 2, 3, 2];
    let run = next_run::<InsertionSort<false>, usize>(&mut values, 0, 2, true);
    assert_eq!((run.start, run.end), (0, 3));
}

#[test]
fn runs_are_extended_with_and_without_decreasing_runs() {
    let mut values = [3, 2, 1, 5];
    assert_eq!(extend_run(&mut values, true), 1);
    assert_eq!(values, [3, 2, 1, 5]);
    assert_eq!(extend_run(&mut values, false), 3);
    assert_eq!(values, [1, 2, 3, 5]);
    assert_eq!(DefaultPowerSort::extend_run(&mut values), 4);
}

#[test]
fn logarithms_are_rounded_down() {
    assert_eq!(floor_log(2, 1), 0);
    assert_eq!(floor_log(2, 2), 1);
    assert_eq!(floor_log(2, 3), 1);
    assert_eq!(floor_log(2, 4), 2);
    assert_eq!(floor_log(2, 100), 6);
    assert_eq!(floor_log(2, 1024), 10);
    assert_eq!(floor_log(4, 100), 3);
    assert_eq!(floor_log(16, 255), 1);
    assert_eq!(floor_log(16, 256), 2);
}

fn exercise_stack<S: RunStack>() {
    let mut stack = S::new(8);
    assert_eq!(stack.top_power(), 0);
    assert!(stack.pop_run(0).is_none());
    stack.push(Run { start: 0, end: 3 }, 2);
    assert_eq!(stack.top_power(), 2);
    stack.push(Run { start: 3, end: 5 }, 4);
    stack.push(Run { start: 5, end: 9 }, 7);
    assert_eq!(stack.top_power(), 7);

    // the runs of power 3 and above leave, from the top down
    let (power, run) = stack.pop_run(3).unwrap();
    assert_eq!((power, run.start, run.end), (7, 5, 9));
    let (power, run) = stack.pop_run(3).unwrap();
    assert_eq!((power, run.start, run.end), (4, 3, 5));
    assert!(stack.pop_run(3).is_none());
    assert!(stack.top_power() < 3);

    stack.push(Run { start: 3, end: 9 }, 3);
    assert_eq!(stack.top_power(), 3);
    let (power, run) = stack.pop_run(0).unwrap();
    assert_eq!((power, run.start, run.end), (3, 3, 9));
    let (power, run) = stack.pop_run(0).unwrap();
    assert_eq!((power, run.start, run.end), (2, 0, 3));
    assert!(stack.pop_run(0).is_none());
}

#[test]
fn both_stacks_hand_out_runs_from_the_top_down() {
    exercise_stack::<Stack>();
    exercise_stack::<PowerIndexedStack>();
}

#[test]
fn the_list_stack_takes_runs_of_equal_power() {
    let mut stack = PowerIndexedStack::new(4);
    stack.push_run(Run { start: 0, end: 1 }, 2);
    stack.push_run(Run { start: 1, end: 2 }, 2);
    assert_eq!(stack.top_power(), 2);
    assert_eq!(stack.pop_run(2).map(|(power, run)| (power, run.start)), Some((2, 1)));
    assert_eq!(stack.pop_run(2).map(|(power, run)| (power, run.start)), Some((2, 0)));
    assert!(stack.pop_run(2).is_none());
}

#[test]
fn the_minimum_run_length_rounds_up_after_halving() {
    assert_eq!(DefaultTimSort::min_run_length(0), 0);
    assert_eq!(DefaultTimSort::min_run_length(1), 1);
    assert_eq!(DefaultTimSort::min_run_length(31), 31);
    assert_eq!(DefaultTimSort::min_run_length(32), 16);
    assert_eq!(DefaultTimSort::min_run_length(33), 17);
    assert_eq!(DefaultTimSort::min_run_length(63), 32);
    assert_eq!(DefaultTimSort::min_run_length(64), 16);
    assert_eq!(DefaultTimSort::min_run_length(65), 17);
    assert_eq!(DefaultTimSort::min_run_length(100), 25);
    assert_eq!(DefaultTimSort::min_run_length(1000), 32);
    assert_eq!(DefaultTimSort::min_run_length(2111), 17);
    assert_eq!(DefaultTimSort::min_run_length(100_000), 25);
}

#[test]
fn timsort_finds_and_reverses_the_first_run() {
    let mut values = [5, 3, 1, 2, 4];
    assert_eq!(DefaultTimSort::count_run_and_make_ascending(&mut values), 3);
    assert_eq!(values, [1, 3, 5, 2, 4]);
}

#[test]
fn timsort_merges_pending_runs_that_are_too_short() {
    let mut values: Vec<usize> = vec![4, 5, 6, 7, 8, 9, 2, 3, 10, 0, 1, 11];
    let mut buffer = vec![0; 12];
    let mut pending = vec![
        Pending { start: 0, len: 6 },
        Pending { start: 6, len: 3 },
        Pending { start: 9, len: 3 },
    ];
    // the first run is not longer than the two behind it together, and so
    // the two that are shorter are merged
    DefaultTimSort::merge_collapse(&mut values, &mut buffer, &mut pending);
    assert_eq!(pending.len(), 1);
    assert_eq!((pending[0].start, pending[0].len), (0, 12));
    assert_eq!(values, (0..12).collect::<Vec<usize>>());

    let mut values: Vec<usize> = vec![0, 1, 2, 3, 4, 5, 6, 7, 20, 21, 22, 10];
    let mut pending = vec![
        Pending { start: 0, len: 8 },
        Pending { start: 8, len: 3 },
        Pending { start: 11, len: 1 },
    ];
    // nothing is due: every run is longer than what is behind it
    DefaultTimSort::merge_collapse(&mut values, &mut buffer, &mut pending);
    assert_eq!(pending.len(), 3);
    DefaultTimSort::merge_at(&mut values, &mut buffer, &mut pending, 1);
    assert_eq!(pending.len(), 2);
    assert_eq!((pending[1].start, pending[1].len), (8, 4));
    assert_eq!(values, [0, 1, 2, 3, 4, 5, 6, 7, 10, 20, 21, 22]);
    DefaultTimSort::merge_force_collapse(&mut values, &mut buffer, &mut pending);
    assert_eq!(pending.len(), 1);
    assert_eq!(values, [0, 1, 2, 3, 4, 5, 6, 7, 10, 20, 21, 22]);
}

#[test]
fn the_median_of_three_moves_to_the_front() {
    let mut values = [5, 1, 9, 3];
    move_median_to_first(&mut values, 1, 2, 3);
    assert_eq!(values, [3, 1, 9, 5]);
    let mut values = [5, 1, 9, 3];
    move_median_to_first(&mut values, 0, 1, 2);
    assert_eq!(values, [5, 1, 9, 3]);
    let mut values = [7, 7, 7];
    move_median_to_first(&mut values, 2, 1, 0);
    assert_eq!(values, [7, 7, 7]);
}

#[test]
fn random_positions_are_below_the_length() {
    let mut rng = DefaultRngFactory::produce();
    for len in [1, 2, 3, 10, 1000] {
        for _ in 0..100 {
            assert!(DefaultRngFactory::random_index(&mut rng, len) < len);
        }
    }
}

#[test]
fn a_buffer_has_the_capacity_asked_for() {
    let mut buffer: Vec<usize> = BufGuard::with_capacity(17, 3);
    assert_eq!(buffer.as_uninit_slice_mut().len(), 17);
    let mut empty: Vec<usize> = BufGuard::with_capacity(0, 3);
    assert_eq!(empty.as_uninit_slice_mut().len(), 0);
}

#[test]
fn multiway_powersort_merges_groups_of_runs() {
    type Multi = MultiwayPowerSort<MostSignificantSetBit, InsertionSort<false>, TournamentTree, 4, 2, false>;
    // runs of two elements each, so that many runs of one power meet
    let mut values: Vec<usize> = (0..64).map(|index| (index * 37) % 64).collect();
    Multi::sort(&mut values);
    assert_eq!(values, (0..64).collect::<Vec<usize>>());
    assert!(Multi::is_stable());
    assert_eq!(<TournamentTree as MultiMergingMethod<4>>::display(), "tournament-tree-4");
    assert!(<TournamentTree as MultiMergingMethod<4>>::required_capacity(9) >= 9);
}

#[test]
fn powersort_merges_the_waiting_runs_of_high_power() {
    let mut values = vec![7, 8, 9, 4, 5, 6, 1, 2, 3, 0];
    let mut buffer = vec![0; 10];
    let mut stack = Stack::new(8);
    stack.push(Run { start: 0, end: 3 }, 1);
    stack.push(Run { start: 3, end: 6 }, 3);
    stack.push(Run { start: 6, end: 9 }, 5);

    // the runs of power 2 and above are merged into the run behind them
    let merged = DefaultPowerSort::merge_down(
        &mut values,
        &mut buffer,
        &mut stack,
        Run { start: 9, end: 10 },
        2,
    );
    assert_eq!((merged.start, merged.end), (3, 10));
    assert_eq!(values, [7, 8, 9, 0, 1, 2, 3, 4, 5, 6]);
    assert!(stack.top_power() < 2);

    // a run of lower power stays where it is
    let merged = DefaultPowerSort::merge_down(&mut values, &mut buffer, &mut stack, merged, 2);
    assert_eq!((merged.start, merged.end), (3, 10));
    let merged = DefaultPowerSort::merge_down(&mut values, &mut buffer, &mut stack, merged, 0);
    assert_eq!((merged.start, merged.end), (0, 10));
    assert_eq!(values, [0, 1, 2, 3, 4, 5, 6, 7, 8, 9]);
    assert!(stack.pop_run(0).is_none());
}
