//! Sorting algorithms that make use of the runs of their input, with the
//! merges they are built from: powersort, timsort and peeksort, next to the
//! mergesorts, quicksort and insertion sort that they are measured against.
//!
//! Every algorithm sorts a slice in place by the order of `Ord`. What it
//! returns is stated over the sequences of [`sequences`]: the slice is
//! sorted, it is a permutation of what it was, and, for a stable algorithm,
//! elements that compare equal keep their order.

pub mod algorithms;
pub mod cli;
pub mod insertionsort;
pub mod merging;
pub mod mergesort;
pub mod node_power;
pub mod order;
pub mod peeksort;
pub mod pointer_range;
pub mod powersort;
pub mod quicksort;
pub mod sequences;
pub mod timsort;
