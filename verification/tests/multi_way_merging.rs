use adaptive_sort::merging::multi_way::{
    DynamicTournamentTree, MultiMergingMethod, TournamentTree,
};

/// A small generator of random numbers, by the steps of SplitMix64.
struct TestRng(u64);

impl TestRng {
    fn next(&mut self) -> u64 {
        self.0 = self.0.wrapping_add(0x9e37_79b9_7f4a_7c15);
        let mut z = self.0;
        z = (z ^ (z >> 30)).wrapping_mul(0xbf58_476d_1ce4_e5b9);
        z = (z ^ (z >> 27)).wrapping_mul(0x94d0_49bb_1331_11eb);
        z ^ (z >> 31)
    }
}

fn random_values(rng: &mut TestRng, count: usize) -> Vec<usize> {
    let mut values = Vec::with_capacity(count);
    for _ in 0..count {
        values.push(rng.next() as usize);
    }
    values
}

#[test]
fn tournament_merges_four_quarters_stably() {
    let mut rng = TestRng(7);
    let mut elements: Vec<(usize, usize)> = random_values(&mut rng, 1000)
        .into_iter()
        .enumerate()
        .map(|(index, value)| (value % 250, index))
        .collect();
    for quarter in elements.chunks_mut(250) {
        quarter.sort();
    }
    let mut keyed: Vec<Keyed> = elements.iter().map(|&(key, index)| Keyed(key, index)).collect();
    let mut buffer = keyed.clone();
    <TournamentTree as MultiMergingMethod<4>>::merge(&mut keyed, &[250, 250, 250], &mut buffer);
    assert!(keyed
        .windows(2)
        .all(|pair| pair[0].0 < pair[1].0 || (pair[0].0 == pair[1].0 && pair[0].1 < pair[1].1)));
}

#[test]
fn tournament_merges_three_runs() {
    let mut elements = [3, 6, 9, 1, 4, 7, 10, 2, 5, 8];
    let mut buffer = [0; 10];
    <TournamentTree as MultiMergingMethod<3>>::merge(&mut elements, &[3, 4], &mut buffer);
    assert_eq!(elements, [1, 2, 3, 4, 5, 6, 7, 8, 9, 10]);
}

#[test]
fn tournament_merges_fewer_runs_than_leaves() {
    let mut elements = [2, 4, 6, 1, 3, 5];
    let mut buffer = [0; 6];
    <TournamentTree as MultiMergingMethod<8>>::merge(&mut elements, &[3], &mut buffer);
    assert_eq!(elements, [1, 2, 3, 4, 5, 6]);
}

#[test]
fn tournament_leaves_an_empty_slice_alone() {
    let mut elements: [usize; 0] = [];
    let mut buffer: [usize; 0] = [];
    <TournamentTree as MultiMergingMethod<2>>::merge(&mut elements, &[], &mut buffer);
    assert_eq!(elements, []);
}

/// A value that is ordered by its first field alone.
#[derive(Debug, Clone, Copy)]
struct Keyed(usize, usize);

impl PartialEq for Keyed {
    fn eq(&self, other: &Self) -> bool {
        self.0 == other.0
    }
}

impl Eq for Keyed {}

impl PartialOrd for Keyed {
    fn partial_cmp(&self, other: &Self) -> Option<std::cmp::Ordering> {
        Some(self.cmp(other))
    }
}

impl Ord for Keyed {
    fn cmp(&self, other: &Self) -> std::cmp::Ordering {
        self.0.cmp(&other.0)
    }
}

#[test]
fn the_sort_of_std_merges_too() {
    let mut elements = [2, 4, 6, 1, 3, 5];
    let mut buffer = [0; 6];
    <DynamicTournamentTree as MultiMergingMethod<4>>::merge(&mut elements, &[3], &mut buffer);
    assert_eq!(elements, [1, 2, 3, 4, 5, 6]);
    assert!(<DynamicTournamentTree as MultiMergingMethod<4>>::is_stable());
    assert_eq!(
        <DynamicTournamentTree as MultiMergingMethod<4>>::display(),
        "dynamic-tournament-tree"
    );
}

#[test]
fn the_tournament_is_named_with_its_number_of_runs() {
    assert_eq!(<TournamentTree as MultiMergingMethod<2>>::display(), "tournament-tree-2");
    assert_eq!(<TournamentTree as MultiMergingMethod<16>>::display(), "tournament-tree-16");
}
