use adaptive_sort::merging::{
    make_run_ascending, reverse_prefix, strictly_decreasing_prefix_index,
    strictly_decreasing_suffix_index, weakly_increasing_or_strictly_decreasing_index,
    weakly_increasing_prefix_index, weakly_increasing_suffix_index,
};

#[test]
fn prefix_indices_of_short_slices_are_their_lengths() {
    let empty: [usize; 0] = [];
    assert_eq!(weakly_increasing_prefix_index(&empty), 0);
    assert_eq!(strictly_decreasing_prefix_index(&empty), 0);
    assert_eq!(weakly_increasing_suffix_index(&empty), 0);
    assert_eq!(strictly_decreasing_suffix_index(&empty), 0);
    assert_eq!(weakly_increasing_prefix_index(&[7]), 1);
    assert_eq!(strictly_decreasing_prefix_index(&[7]), 1);
    assert_eq!(weakly_increasing_suffix_index(&[7]), 1);
    assert_eq!(strictly_decreasing_suffix_index(&[7]), 1);
}

#[test]
fn weakly_increasing_prefix_ends_at_the_first_descent() {
    assert_eq!(weakly_increasing_prefix_index(&[1, 2, 2, 3, 1, 5]), 4);
    assert_eq!(weakly_increasing_prefix_index(&[3, 1, 2]), 1);
    assert_eq!(weakly_increasing_prefix_index(&[1, 1, 1]), 3);
}

#[test]
fn strictly_decreasing_prefix_ends_at_the_first_element_that_is_not_smaller() {
    assert_eq!(strictly_decreasing_prefix_index(&[5, 4, 4, 3]), 2);
    assert_eq!(strictly_decreasing_prefix_index(&[5, 4, 3, 9]), 3);
    assert_eq!(strictly_decreasing_prefix_index(&[1, 2]), 1);
    assert_eq!(strictly_decreasing_prefix_index(&[3, 2, 1]), 3);
}

#[test]
fn weakly_increasing_suffix_starts_behind_the_last_descent() {
    assert_eq!(weakly_increasing_suffix_index(&[1, 5, 2, 3, 3]), 2);
    assert_eq!(weakly_increasing_suffix_index(&[1, 2, 1]), 2);
    // a slice that is a run as a whole gives its length
    assert_eq!(weakly_increasing_suffix_index(&[1, 2, 3]), 3);
}

#[test]
fn strictly_decreasing_suffix_starts_behind_the_last_ascent() {
    assert_eq!(strictly_decreasing_suffix_index(&[1, 5, 5, 3, 2]), 2);
    assert_eq!(strictly_decreasing_suffix_index(&[1, 9, 8]), 1);
    assert_eq!(strictly_decreasing_suffix_index(&[3, 2, 1]), 3);
}

#[test]
fn the_first_run_is_increasing_or_decreasing() {
    assert_eq!(weakly_increasing_or_strictly_decreasing_index(&[1, 2, 3, 2]), (3, false));
    assert_eq!(weakly_increasing_or_strictly_decreasing_index(&[3, 2, 1, 2]), (3, true));
    assert_eq!(weakly_increasing_or_strictly_decreasing_index(&[2, 2, 1]), (2, false));
    let empty: [usize; 0] = [];
    assert_eq!(weakly_increasing_or_strictly_decreasing_index(&empty), (0, false));
    assert_eq!(weakly_increasing_or_strictly_decreasing_index(&[4]), (1, false));
}

#[test]
fn a_decreasing_run_is_reversed_in_place() {
    let mut values = [9, 7, 5, 5, 8];
    assert_eq!(make_run_ascending(&mut values), 3);
    assert_eq!(values, [5, 7, 9, 5, 8]);

    let mut values = [1, 4, 4, 2];
    assert_eq!(make_run_ascending(&mut values), 3);
    assert_eq!(values, [1, 4, 4, 2]);

    let mut values: [usize; 0] = [];
    assert_eq!(make_run_ascending(&mut values), 0);
}

#[test]
fn a_prefix_is_reversed_in_place() {
    let mut values = [1, 2, 3, 4, 5];
    reverse_prefix(&mut values, 4);
    assert_eq!(values, [4, 3, 2, 1, 5]);
    reverse_prefix(&mut values, 0);
    assert_eq!(values, [4, 3, 2, 1, 5]);
    reverse_prefix(&mut values, 5);
    assert_eq!(values, [5, 1, 2, 3, 4]);
}
