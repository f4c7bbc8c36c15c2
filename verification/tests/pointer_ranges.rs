use adaptive_sort::pointer_range::{
    copy_prefix_within, copy_suffix_within, uninit_copy_prefix_and_advance,
    uninit_copy_suffix_and_shrink, MergingDropGuard, PointerRange,
};

#[test]
fn a_range_knows_its_ends() {
    let range = PointerRange::new(2, 5);
    assert_eq!(range.start(), 2);
    assert_eq!(range.end(), 5);
    assert_eq!(range.len(), 3);
    assert!(!range.is_empty());
    assert!(PointerRange::new(4, 4).is_empty());
    assert_eq!(PointerRange::new(4, 4).len(), 0);
}

#[test]
fn a_prefix_is_copied_and_both_ranges_advance() {
    let source = [1, 2, 3, 4, 5];
    let mut target = [0; 6];
    let mut from = PointerRange::new(1, 5);
    let mut to = PointerRange::new(2, 6);
    uninit_copy_prefix_and_advance(&source, &mut from, &mut target, &mut to, 3);
    assert_eq!(target, [0, 0, 2, 3, 4, 0]);
    assert_eq!((from.start(), from.end()), (4, 5));
    assert_eq!((to.start(), to.end()), (5, 6));
}

#[test]
fn a_suffix_is_copied_and_both_ranges_shrink() {
    let source = [1, 2, 3, 4, 5];
    let mut target = [0; 6];
    let mut from = PointerRange::new(1, 5);
    let mut to = PointerRange::new(0, 6);
    uninit_copy_suffix_and_shrink(&source, &mut from, &mut target, &mut to, 3);
    assert_eq!(target, [0, 0, 0, 3, 4, 5]);
    assert_eq!((from.start(), from.end()), (1, 2));
    assert_eq!((to.start(), to.end()), (0, 3));
}

#[test]
fn a_prefix_is_copied_within_a_slice_over_its_own_start() {
    let mut values = [0, 1, 2, 3, 4, 5];
    let mut from = PointerRange::new(2, 6);
    let mut to = PointerRange::new(1, 6);
    copy_prefix_within(&mut values, &mut from, &mut to, 4);
    assert_eq!(values, [0, 2, 3, 4, 5, 5]);
    assert!(from.is_empty());
    assert_eq!(to.start(), 5);
}

#[test]
fn a_suffix_is_copied_within_a_slice_over_its_own_end() {
    let mut values = [0, 1, 2, 3, 4, 5];
    let mut from = PointerRange::new(0, 4);
    let mut to = PointerRange::new(0, 5);
    copy_suffix_within(&mut values, &mut from, &mut to, 4);
    assert_eq!(values, [0, 0, 1, 2, 3, 5]);
    assert!(from.is_empty());
    assert_eq!(to.end(), 1);
}

#[test]
fn copying_nothing_changes_nothing() {
    let source = [1, 2, 3];
    let mut target = [7, 8, 9];
    let mut from = PointerRange::new(0, 3);
    let mut to = PointerRange::new(0, 3);
    uninit_copy_prefix_and_advance(&source, &mut from, &mut target, &mut to, 0);
    uninit_copy_suffix_and_shrink(&source, &mut from, &mut target, &mut to, 0);
    assert_eq!(target, [7, 8, 9]);
    assert_eq!(from.len(), 3);
    assert_eq!(to.len(), 3);
}

#[test]
fn a_guard_moves_runs_to_the_output_and_flushes_the_rest() {
    let source = [1, 3, 5, 2, 4, 6];
    let mut target = [0; 6];
    let mut guard = MergingDropGuard::new(
        vec![PointerRange::new(0, 3), PointerRange::new(3, 6)],
        PointerRange::new(0, 6),
    );
    assert!(!guard.is_empty());
    guard.copy_prefix_to_output(0, &source, &mut target, 1);
    guard.copy_prefix_to_output(1, &source, &mut target, 2);
    assert_eq!(target, [1, 2, 4, 0, 0, 0]);
    assert_eq!((guard.run(0).start(), guard.run(0).end()), (1, 3));
    assert_eq!((guard.run(1).start(), guard.run(1).end()), (5, 6));
    assert_eq!((guard.output_range().start(), guard.output_range().end()), (3, 6));

    // what is left goes to the output, the first run first
    guard.flush(&source, &mut target);
    assert_eq!(target, [1, 2, 4, 3, 5, 6]);
    assert!(guard.is_empty());
    assert!(guard.output_range().is_empty());
    guard.disarm();
}

#[test]
fn a_guard_without_elements_is_empty() {
    let source: [usize; 0] = [];
    let mut target: [usize; 0] = [];
    let mut guard = MergingDropGuard::new(vec![PointerRange::new(0, 0)], PointerRange::new(0, 0));
    assert!(guard.is_empty());
    guard.flush(&source, &mut target);
    guard.disarm();
    let guard = MergingDropGuard::new(Vec::new(), PointerRange::new(0, 0));
    assert!(guard.is_empty());
}
