//! The algorithms that can be chosen by name, with their parameters.

use vstd::prelude::*;
use crate::algorithms::{DefaultRngFactory, Sort, StdSort};
use crate::insertionsort::InsertionSort;
use crate::merging::multi_way::TournamentTree;
use crate::merging::two_way::{CopyBoth, Galloping};
use crate::mergesort::{BottomUpMergeSort, TopDownMergeSort};
use crate::node_power::{BitwiseLoop, DivisionLoop, MostSignificantSetBit, NodePowerMethod};
use crate::order::total_order;
use crate::peeksort::PeekSort;
use crate::powersort::{MultiwayPowerSort, PowerSort};
use crate::quicksort::QuickSort;
use crate::sequences::{permutation, sorted, stable_rearrangement};
use crate::timsort::TimSort;

verus! {

/// The ways to compute node powers that can be chosen by name.
#[derive(Debug, Clone, Copy)]
pub enum PowersortNodePowerMethod {
    /// By floating point numbers. The library does not run it.
    Trivial,
    /// By multiplying both midpoints until they part.
    DivisionLoop,
    /// By comparing the binary digits of both midpoints.
    BitwiseLoop,
    /// By the first binary digit in which two quotients differ.
    MostSignificantSetBit,
}

/// The kinds of data that can be sorted by an experiment.
#[derive(Debug, Clone, Copy)]
pub enum DataType {
    /// Numbers drawn one by one.
    UniformU32,
    /// The numbers from 0 on, each once, in a random order.
    PermutationU32,
}

/// The sorting algorithms that can be chosen by name, each with its
/// parameters.
#[derive(Debug, Clone, Copy)]
pub enum Algorithm {
    /// The sort of std, `unstable` or stable.
    Std { unstable: bool },
    /// Insertion sort, by `binary` or by linear search.
    Insertionsort { binary: bool },
    /// Quicksort, which may leave a slice alone that is sorted already.
    Quicksort { check_sorted: bool },
    /// Peeksort, which may look for decreasing runs too.
    Peeksort { find_decreasing: bool },
    /// Mergesort, from the bottom up or from the top down.
    Mergesort { bottom_up: bool, check_sorted: bool },
    /// Timsort, with galloping or with simple merging.
    Timsort { simple_merging: bool },
    /// Powersort.
    Powersort { node_power_method: PowersortNodePowerMethod, power_indexed_stack: bool },
    /// Powersort that merges `k` runs at once.
    MultiwayPowersort { node_power_method: PowersortNodePowerMethod, k: usize },
}

/// Whether the method `method` computes the node powers of a sequence of
/// `len` elements in a tree with `k` children at each node.
pub open spec fn node_powers_valid(method: PowersortNodePowerMethod, k: nat, len: nat) -> bool {
    match method {
        PowersortNodePowerMethod::Trivial => false,
        PowersortNodePowerMethod::DivisionLoop => if k == 2 {
            <DivisionLoop as NodePowerMethod<2>>::valid(len)
        } else if k == 4 {
            <DivisionLoop as NodePowerMethod<4>>::valid(len)
        } else if k == 8 {
            <DivisionLoop as NodePowerMethod<8>>::valid(len)
        } else {
            k == 16 && <DivisionLoop as NodePowerMethod<16>>::valid(len)
        },
        PowersortNodePowerMethod::BitwiseLoop => if k == 2 {
            <BitwiseLoop as NodePowerMethod<2>>::valid(len)
        } else if k == 4 {
            <BitwiseLoop as NodePowerMethod<4>>::valid(len)
        } else if k == 8 {
            <BitwiseLoop as NodePowerMethod<8>>::valid(len)
        } else {
            k == 16 && <BitwiseLoop as NodePowerMethod<16>>::valid(len)
        },
        PowersortNodePowerMethod::MostSignificantSetBit => if k == 2 {
            <MostSignificantSetBit as NodePowerMethod<2>>::valid(len)
        } else if k == 4 {
            <MostSignificantSetBit as NodePowerMethod<4>>::valid(len)
        } else if k == 8 {
            <MostSignificantSetBit as NodePowerMethod<8>>::valid(len)
        } else {
            k == 16 && <MostSignificantSetBit as NodePowerMethod<16>>::valid(len)
        },
    }
}

impl Algorithm {
    /// Whether this algorithm keeps the order of elements that compare
    /// equal.
    pub open spec fn stable(&self) -> bool {
        match *self {
            Algorithm::Std { unstable } => !unstable,
            Algorithm::Quicksort { check_sorted } => false,
            _ => true,
        }
    }

    /// Whether the library runs this algorithm on a slice of `len` elements:
    /// the slice has less than two elements, or the node powers are computed
    /// without floating point numbers, the number of runs to merge at once
    /// is one of 2, 4, 8 and 16, and the arithmetic has room.
    pub open spec fn supports(&self, len: nat) -> bool {
        match *self {
            Algorithm::Powersort { node_power_method, power_indexed_stack } => len < 2
                || node_powers_valid(node_power_method, 2, len),
            Algorithm::MultiwayPowersort { node_power_method, k } => len < 2 || node_powers_valid(
                node_power_method,
                k as nat,
                len,
            ),
            _ => true,
        }
    }

    /// Returns if this is a stable sort.
    pub fn is_stable(&self) -> (r: bool)
        ensures
            r == self.stable(),
    {
        match *self {
            Algorithm::Std { unstable } => !unstable,
            Algorithm::Quicksort { check_sorted } => false,
            _ => true,
        }
    }

    /// Sort the slice by this algorithm.
    pub fn sort<T: Ord + Copy>(&self, slice: &mut [T])
        requires
            total_order::<T>(),
            self.supports(old(slice)@.len()),
        ensures
            final(slice)@.len() == old(slice)@.len(),
            sorted(final(slice)@),
            permutation(final(slice)@, old(slice)@),
            self.stable() ==> stable_rearrangement(final(slice)@, old(slice)@),
            old(slice)@.len() < 2 ==> final(slice)@ == old(slice)@,
    {
        if slice.len() < 2 {
            proof {
                crate::sequences::lemma_stable_refl(slice@);
            }
            return ;
        }
        match *self {
            Algorithm::Std { unstable } => {
                if unstable {
                    <StdSort<false> as Sort>::sort(slice)
                } else {
                    <StdSort<true> as Sort>::sort(slice)
                }
            },
            Algorithm::Insertionsort { binary } => {
                if binary {
                    <InsertionSort<true> as Sort>::sort(slice)
                } else {
                    <InsertionSort<false> as Sort>::sort(slice)
                }
            },
            Algorithm::Quicksort { check_sorted } => {
                if check_sorted {
                    <QuickSort<DefaultRngFactory, InsertionSort<false>, 24, 128, true> as Sort>::sort(
                        slice,
                    )
                } else {
                    <QuickSort<DefaultRngFactory, InsertionSort<false>, 24, 128, false> as Sort>::sort(
                        slice,
                    )
                }
            },
            Algorithm::Peeksort { find_decreasing } => {
                if find_decreasing {
                    <PeekSort<InsertionSort<false>, CopyBoth, 24, false> as Sort>::sort(slice)
                } else {
                    <PeekSort<InsertionSort<false>, CopyBoth, 24, true> as Sort>::sort(slice)
                }
            },
            Algorithm::Mergesort { bottom_up, check_sorted } => {
                if bottom_up {
                    if check_sorted {
                        <BottomUpMergeSort<InsertionSort<false>, CopyBoth, 24, true> as Sort>::sort(
                            slice,
                        )
                    } else {
                        <BottomUpMergeSort<InsertionSort<false>, CopyBoth, 24, false> as Sort>::sort(
                            slice,
                        )
                    }
                } else {
                    if check_sorted {
                        <TopDownMergeSort<InsertionSort<false>, CopyBoth, 24, true> as Sort>::sort(
                            slice,
                        )
                    } else {
                        <TopDownMergeSort<InsertionSort<false>, CopyBoth, 24, false> as Sort>::sort(
                            slice,
                        )
                    }
                }
            },
            Algorithm::Timsort { simple_merging } => {
                if simple_merging {
                    <TimSort<InsertionSort<true>, CopyBoth, 32> as Sort>::sort(slice)
                } else {
                    <TimSort<InsertionSort<true>, Galloping<7>, 32> as Sort>::sort(slice)
                }
            },
            Algorithm::Powersort { node_power_method, power_indexed_stack } => {
                match node_power_method {
                    PowersortNodePowerMethod::Trivial => {},
                    PowersortNodePowerMethod::DivisionLoop => {
                        if power_indexed_stack {
                            <PowerSort<DivisionLoop, InsertionSort<false>, CopyBoth, 24, false, true> as Sort>::sort(
                                slice,
                            )
                        } else {
                            <PowerSort<DivisionLoop, InsertionSort<false>, CopyBoth, 24, false, false> as Sort>::sort(
                                slice,
                            )
                        }
                    },
                    PowersortNodePowerMethod::BitwiseLoop => {
                        if power_indexed_stack {
                            <PowerSort<BitwiseLoop, InsertionSort<false>, CopyBoth, 24, false, true> as Sort>::sort(
                                slice,
                            )
                        } else {
                            <PowerSort<BitwiseLoop, InsertionSort<false>, CopyBoth, 24, false, false> as Sort>::sort(
                                slice,
                            )
                        }
                    },
                    PowersortNodePowerMethod::MostSignificantSetBit => {
                        if power_indexed_stack {
                            <PowerSort<MostSignificantSetBit, InsertionSort<false>, CopyBoth, 24, false, true> as Sort>::sort(
                                slice,
                            )
                        } else {
                            <PowerSort<MostSignificantSetBit, InsertionSort<false>, CopyBoth, 24, false, false> as Sort>::sort(
                                slice,
                            )
                        }
                    },
                }
            },
            Algorithm::MultiwayPowersort { node_power_method, k } => {
                match node_power_method {
                    PowersortNodePowerMethod::Trivial => {},
                    PowersortNodePowerMethod::DivisionLoop => {
                        if k == 2 {
                            <MultiwayPowerSort<DivisionLoop, InsertionSort<false>, TournamentTree, 2, 24, false> as Sort>::sort(
                                slice,
                            )
                        } else if k == 4 {
                            <MultiwayPowerSort<DivisionLoop, InsertionSort<false>, TournamentTree, 4, 24, false> as Sort>::sort(
                                slice,
                            )
                        } else if k == 8 {
                            <MultiwayPowerSort<DivisionLoop, InsertionSort<false>, TournamentTree, 8, 24, false> as Sort>::sort(
                                slice,
                            )
                        } else {
                            <MultiwayPowerSort<DivisionLoop, InsertionSort<false>, TournamentTree, 16, 24, false> as Sort>::sort(
                                slice,
                            )
                        }
                    },
                    PowersortNodePowerMethod::BitwiseLoop => {
                        if k == 2 {
                            <MultiwayPowerSort<BitwiseLoop, InsertionSort<false>, TournamentTree, 2, 24, false> as Sort>::sort(
                                slice,
                            )
                        } else if k == 4 {
                            <MultiwayPowerSort<BitwiseLoop, InsertionSort<false>, TournamentTree, 4, 24, false> as Sort>::sort(
                                slice,
                            )
                        } else if k == 8 {
                            <MultiwayPowerSort<BitwiseLoop, InsertionSort<false>, TournamentTree, 8, 24, false> as Sort>::sort(
                                slice,
                            )
                        } else {
                            <MultiwayPowerSort<BitwiseLoop, InsertionSort<false>, TournamentTree, 16, 24, false> as Sort>::sort(
                                slice,
                            )
                        }
                    },
                    PowersortNodePowerMethod::MostSignificantSetBit => {
                        if k == 2 {
                            <MultiwayPowerSort<MostSignificantSetBit, InsertionSort<false>, TournamentTree, 2, 24, false> as Sort>::sort(
                                slice,
                            )
                        } else if k == 4 {
                            <MultiwayPowerSort<MostSignificantSetBit, InsertionSort<false>, TournamentTree, 4, 24, false> as Sort>::sort(
                                slice,
                            )
                        } else if k == 8 {
                            <MultiwayPowerSort<MostSignificantSetBit, InsertionSort<false>, TournamentTree, 8, 24, false> as Sort>::sort(
                                slice,
                            )
                        } else {
                            <MultiwayPowerSort<MostSignificantSetBit, InsertionSort<false>, TournamentTree, 16, 24, false> as Sort>::sort(
                                slice,
                            )
                        }
                    },
                }
            },
        }
    }
}

} // verus!
