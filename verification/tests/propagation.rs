use rand::rngs::StdRng;
use rand::SeedableRng;
use wave_function::algorithm::buckets::{empty_buckets, file_cell, lowest, take_first, unfile_cell};
use wave_function::algorithm::common::{
    cached_size, calculate_neighbours, count_domains, initial_propagation, neighbours_at,
    confirm_decided, options_at, propagate_constraints, revise,
};
use wave_function::algorithm::progress::count_cells_to_collapse;
use wave_function::algorithm::solve::{collapse_cell, commit, start_wave, weights_of};
use wave_function::rng::sample_index;
use wave_function::{Adjacency, Cell, Direction, MapFault, Rules, TileMap, WfcError};

/// Three tiles in a cycle: east of tile `t` stands `t + 1`, and north of
/// tile `t` stands `t` or `t + 1`, all modulo three.
fn cycle_rules() -> Rules {
    let mut adjacency = Adjacency::new(3).unwrap();
    for t in 0..3 {
        adjacency.set(t, (t + 1) % 3, 0, true);
        adjacency.set(t, t, 1, true);
        adjacency.set(t, (t + 1) % 3, 1, true);
    }
    Rules::new(&adjacency, vec![1, 2, 3]).unwrap()
}

#[test]
fn neighbours_are_listed_north_east_south_west() {
    let mut map = TileMap::empty((3, 3));
    map.set((0, 1), Cell::Ignore);
    let mask = map.mask();
    let neighbours = calculate_neighbours(3, 3, &mask);
    let list = |pos| -> Vec<((usize, usize), Direction, Direction)> {
        neighbours_at(&neighbours, pos).iter().map(|n| (n.pos, n.dir, n.opp_dir)).collect()
    };
    let (north, east, south, west) =
        (Direction::North, Direction::East, Direction::South, Direction::West);
    assert_eq!(
        list((1, 1)),
        vec![((1, 2), east, west), ((2, 1), south, north), ((1, 0), west, east)]
    );
    assert_eq!(list((0, 0)), vec![((1, 0), south, north)]);
    assert_eq!(list((0, 1)), vec![]);
    assert_eq!(list((2, 2)), vec![((1, 2), north, south), ((2, 1), west, east)]);
}

#[test]
fn revise_removes_what_has_no_partner() {
    let rules = cycle_rules();
    let mut map = TileMap::empty((1, 2));
    map.set((0, 1), Cell::Fixed(2));
    let mut domains = map.domains(3);
    let mut sizes = count_domains(&domains, 1, 2, 3);
    // East of (0, 0) stands tile 2, so only tile 1 can stay.
    assert!(revise(&mut domains, &mut sizes, &rules, (0, 0), (0, 1), Direction::East));
    assert_eq!(options_at(&domains, (0, 0)), vec![1]);
    assert_eq!(cached_size(&sizes, (0, 0)), 1);
    assert_eq!(options_at(&domains, (0, 1)), vec![2]);
    assert_eq!(cached_size(&sizes, (0, 1)), 1);
    // Nothing more to remove.
    assert!(!revise(&mut domains, &mut sizes, &rules, (0, 0), (0, 1), Direction::East));
    assert_eq!(options_at(&domains, (0, 0)), vec![1]);
}

#[test]
fn revise_with_several_partners_keeps_every_supported_tile() {
    let rules = cycle_rules();
    let map = TileMap::empty((2, 1));
    let mut domains = map.domains(3);
    let mut sizes = count_domains(&domains, 2, 1, 3);
    collapse_cell(&mut domains, &mut sizes, &rules, (0, 0), 0);
    // Cell (1, 0) has (0, 0) to its north; north of t stands t or t + 1,
    // so tile 0 above allows tiles 0 and 2 below.
    assert!(revise(&mut domains, &mut sizes, &rules, (1, 0), (0, 0), Direction::North));
    assert_eq!(options_at(&domains, (1, 0)), vec![0, 2]);
    assert_eq!(cached_size(&sizes, (1, 0)), 2);
    // With two partners above, more stays below.
    let map = TileMap::empty((2, 1));
    let mut domains = map.domains(3);
    let mut sizes = count_domains(&domains, 2, 1, 3);
    assert!(!revise(&mut domains, &mut sizes, &rules, (1, 0), (0, 0), Direction::North));
    assert_eq!(cached_size(&sizes, (1, 0)), 3);
}

#[test]
fn revise_against_two_partners_removes_what_neither_supports() {
    let rules = cycle_rules();
    let mut map = TileMap::empty((2, 2));
    map.set((1, 1), Cell::Fixed(0));
    let mut domains = map.domains(3);
    let mut sizes = count_domains(&domains, 2, 2, 3);
    // North of tile 0 stands tile 0 or tile 1, and the upper cell is north
    // of tile 0.
    assert!(revise(&mut domains, &mut sizes, &rules, (0, 1), (1, 1), Direction::South));
    assert_eq!(options_at(&domains, (0, 1)), vec![0, 1]);
    // East of `u` stands `u + 1`: with 0 and 1 to the east, 2 and 0 stay.
    assert!(revise(&mut domains, &mut sizes, &rules, (0, 0), (0, 1), Direction::East));
    assert_eq!(options_at(&domains, (0, 0)), vec![0, 2]);
    assert_eq!(cached_size(&sizes, (0, 0)), 2);
    assert_eq!(options_at(&domains, (0, 1)), vec![0, 1]);
}

#[test]
fn revise_leaves_a_decided_cell_alone() {
    let rules = cycle_rules();
    let mut map = TileMap::empty((1, 2));
    map.set((0, 0), Cell::Fixed(0));
    map.set((0, 1), Cell::Fixed(0));
    let mut domains = map.domains(3);
    let mut sizes = count_domains(&domains, 1, 2, 3);
    // Tile 0 does not stand east of tile 0, yet a cell with one candidate
    // is not revised.
    assert!(!revise(&mut domains, &mut sizes, &rules, (0, 1), (0, 0), Direction::West));
    assert_eq!(options_at(&domains, (0, 1)), vec![0]);
    assert_eq!(cached_size(&sizes, (0, 1)), 1);
    assert_eq!(options_at(&domains, (0, 0)), vec![0]);
}

#[test]
fn revise_leaves_an_empty_cell_alone() {
    let rules = cycle_rules();
    let mut map = TileMap::empty((1, 2));
    map.set((0, 0), Cell::Ignore);
    let mut domains = map.domains(3);
    let mut sizes = count_domains(&domains, 1, 2, 3);
    assert!(!revise(&mut domains, &mut sizes, &rules, (0, 0), (0, 1), Direction::East));
    assert_eq!(options_at(&domains, (0, 0)), Vec::<usize>::new());
    assert_eq!(cached_size(&sizes, (0, 0)), 0);
}

#[test]
fn a_decided_cell_without_a_partner_is_struck() {
    let rules = cycle_rules();
    let mut map = TileMap::empty((1, 2));
    map.set((0, 0), Cell::Fixed(0));
    map.set((0, 1), Cell::Fixed(0));
    let mut domains = map.domains(3);
    let mut sizes = count_domains(&domains, 1, 2, 3);
    assert!(confirm_decided(&mut domains, &mut sizes, &rules, (0, 1), (0, 0), Direction::West));
    assert_eq!(options_at(&domains, (0, 1)), Vec::<usize>::new());
    assert_eq!(cached_size(&sizes, (0, 1)), 0);
    assert_eq!(options_at(&domains, (0, 0)), vec![0]);
}

#[test]
fn a_decided_cell_with_a_partner_stays() {
    let rules = cycle_rules();
    let mut map = TileMap::empty((1, 2));
    map.set((0, 0), Cell::Fixed(0));
    map.set((0, 1), Cell::Fixed(1));
    let mut domains = map.domains(3);
    let mut sizes = count_domains(&domains, 1, 2, 3);
    assert!(!confirm_decided(&mut domains, &mut sizes, &rules, (0, 1), (0, 0), Direction::West));
    assert!(!confirm_decided(&mut domains, &mut sizes, &rules, (0, 0), (0, 1), Direction::East));
    assert_eq!(options_at(&domains, (0, 0)), vec![0]);
    assert_eq!(options_at(&domains, (0, 1)), vec![1]);
    assert_eq!(cached_size(&sizes, (0, 1)), 1);
}

#[test]
fn propagation_never_needs_more_than_its_bound() {
    let rules = cycle_rules();
    let map = TileMap::empty((1, 4));
    let mask = map.mask();
    let neighbours = calculate_neighbours(1, 4, &mask);
    let mut domains = map.domains(3);
    let mut sizes = count_domains(&domains, 1, 4, 3);
    collapse_cell(&mut domains, &mut sizes, &rules, (0, 1), 2);
    // Four arcs at the start and four for each of the ten candidates.
    let bound = 4 + 4 * (3 + 1 + 3 + 3);
    let outcome =
        propagate_constraints(&mut domains, &mut sizes, &rules, &mask, &neighbours, (0, 1), bound);
    assert!(outcome.is_ok());
    // The whole grid: four arcs for each of the four cells, and four for
    // each of the twelve candidates.
    let mut domains = map.domains(3);
    let mut sizes = count_domains(&domains, 1, 4, 3);
    let bound = 4 * 4 + 4 * 12;
    let outcome =
        initial_propagation(&mut domains, &mut sizes, &rules, 1, 4, &mask, &neighbours, bound);
    assert_eq!(outcome, Ok(()));
}

#[test]
fn propagation_runs_along_a_row() {
    let rules = cycle_rules();
    let map = TileMap::empty((1, 4));
    let mask = map.mask();
    let neighbours = calculate_neighbours(1, 4, &mask);
    let mut domains = map.domains(3);
    let mut sizes = count_domains(&domains, 1, 4, 3);
    collapse_cell(&mut domains, &mut sizes, &rules, (0, 1), 2);
    let mut affected = propagate_constraints(
        &mut domains,
        &mut sizes,
        &rules,
        &mask,
        &neighbours,
        (0, 1),
        1000,
    )
    .unwrap();
    affected.sort();
    assert_eq!(affected, vec![(0, 0), (0, 2), (0, 3)]);
    assert_eq!(options_at(&domains, (0, 0)), vec![1]);
    assert_eq!(options_at(&domains, (0, 1)), vec![2]);
    assert_eq!(options_at(&domains, (0, 2)), vec![0]);
    assert_eq!(options_at(&domains, (0, 3)), vec![1]);
    for x in 0..4 {
        assert_eq!(cached_size(&sizes, (0, x)), options_at(&domains, (0, x)).len());
    }
}

#[test]
fn propagation_stops_at_its_bound() {
    let rules = cycle_rules();
    let map = TileMap::empty((1, 4));
    let mask = map.mask();
    let neighbours = calculate_neighbours(1, 4, &mask);
    let mut domains = map.domains(3);
    let mut sizes = count_domains(&domains, 1, 4, 3);
    collapse_cell(&mut domains, &mut sizes, &rules, (0, 1), 2);
    let outcome =
        propagate_constraints(&mut domains, &mut sizes, &rules, &mask, &neighbours, (0, 1), 2);
    assert_eq!(outcome.err(), Some(WfcError::IterationLimit));
    for x in 0..4 {
        assert_eq!(cached_size(&sizes, (0, x)), options_at(&domains, (0, x)).len());
    }
}

#[test]
fn initial_propagation_finds_the_contradiction_of_a_bad_seed() {
    let rules = cycle_rules();
    let mut map = TileMap::empty((2, 3));
    map.set((1, 1), Cell::Fixed(0));
    map.set((1, 2), Cell::Fixed(0));
    let mask = map.mask();
    let neighbours = calculate_neighbours(2, 3, &mask);
    let mut domains = map.domains(3);
    let mut sizes = count_domains(&domains, 2, 3, 3);
    let outcome =
        initial_propagation(&mut domains, &mut sizes, &rules, 2, 3, &mask, &neighbours, 1000);
    assert!(matches!(outcome, Err(WfcError::ContradictionAt { y: 1, .. })));
}

#[test]
fn initial_propagation_does_not_cross_holes() {
    let rules = cycle_rules();
    let mut map = TileMap::empty((1, 3));
    map.set((0, 0), Cell::Fixed(0));
    map.set((0, 1), Cell::Ignore);
    let mask = map.mask();
    let neighbours = calculate_neighbours(1, 3, &mask);
    let mut domains = map.domains(3);
    let mut sizes = count_domains(&domains, 1, 3, 3);
    initial_propagation(&mut domains, &mut sizes, &rules, 1, 3, &mask, &neighbours, 1000).unwrap();
    assert_eq!(options_at(&domains, (0, 0)), vec![0]);
    assert_eq!(options_at(&domains, (0, 1)), Vec::<usize>::new());
    assert_eq!(options_at(&domains, (0, 2)), vec![0, 1, 2]);
    assert_eq!(count_cells_to_collapse(&sizes, &mask, 1, 3), 1);
}

#[test]
fn waves_start_arc_consistent() {
    let rules = cycle_rules();
    let mut map = TileMap::empty((2, 2));
    map.set((0, 0), Cell::Fixed(1));
    let wave = start_wave(&map, &rules, 1000).unwrap();
    assert_eq!(options_at(&wave.domains, (0, 0)), vec![1]);
    assert_eq!(options_at(&wave.domains, (0, 1)), vec![2]);
    // South of tile 1 stands a tile with 1 to its north: 1 or 0.
    assert_eq!(options_at(&wave.domains, (1, 0)), vec![0, 1]);
    assert_eq!(cached_size(&wave.sizes, (1, 0)), 2);
    assert_eq!(count_cells_to_collapse(&wave.sizes, &wave.is_ignore, 2, 2), 2);

    map.set((1, 1), Cell::Fixed(5));
    assert_eq!(
        start_wave(&map, &rules, 1000).err(),
        Some(WfcError::InvalidMap(MapFault::IndexOutOfRange))
    );
}

#[test]
fn committing_a_cell_decides_it_and_its_row() {
    let rules = cycle_rules();
    let map = TileMap::empty((1, 3));
    let wave = start_wave(&map, &rules, 1000).unwrap();
    let (mut domains, mut sizes) = (wave.domains, wave.sizes);
    let mut affected = commit(
        &mut domains,
        &mut sizes,
        &rules,
        &wave.is_ignore,
        &wave.neighbours,
        (0, 0),
        1,
        1000,
        &map,
    )
    .unwrap();
    affected.sort();
    assert_eq!(affected, vec![(0, 1), (0, 2)]);
    assert_eq!(options_at(&domains, (0, 0)), vec![1]);
    assert_eq!(options_at(&domains, (0, 1)), vec![2]);
    assert_eq!(options_at(&domains, (0, 2)), vec![0]);
}

#[test]
fn weights_are_the_frequencies_of_the_options() {
    let rules = cycle_rules();
    assert_eq!(weights_of(&rules, &vec![2, 0]), vec![3, 1]);
    assert_eq!(weights_of(&rules, &vec![]), Vec::<usize>::new());
}

#[test]
fn samples_stay_in_range_and_follow_the_weights() {
    let mut rng = StdRng::seed_from_u64(11);
    let mut seen = [0usize; 3];
    for _ in 0..300 {
        seen[sample_index(&mut rng, &vec![1, 0, 9])] += 1;
    }
    assert_eq!(seen[1], 0);
    assert!(seen[2] > seen[0]);
    assert!(seen[0] > 0);
    // An entry without weight is never drawn, wherever it stands.
    for _ in 0..100 {
        assert_eq!(sample_index(&mut rng, &vec![0, 5]), 1);
        assert_eq!(sample_index(&mut rng, &vec![5, 0]), 0);
        assert_eq!(sample_index(&mut rng, &vec![0, 0, 7, 0]), 2);
    }
    // Without any weight every index can come.
    let mut seen = [0usize; 3];
    for _ in 0..300 {
        seen[sample_index(&mut rng, &vec![0, 0, 0])] += 1;
    }
    assert!(seen.iter().all(|&count| count > 0));
    // Where the weights overflow, the draw is uniform as well.
    for _ in 0..20 {
        assert!(sample_index(&mut rng, &vec![usize::MAX, usize::MAX]) < 2);
    }
}

#[test]
fn buckets_hand_out_the_cell_filed_first() {
    let mut buckets = empty_buckets(5);
    assert_eq!(buckets.len(), 5);
    assert_eq!(lowest(&buckets), None);
    file_cell(&mut buckets, 3, (0, 0));
    file_cell(&mut buckets, 3, (0, 1));
    file_cell(&mut buckets, 2, (1, 1));
    file_cell(&mut buckets, 1, (9, 9));
    assert_eq!(lowest(&buckets), Some(2));
    assert_eq!(take_first(&mut buckets, 2), (1, 1));
    assert_eq!(lowest(&buckets), Some(3));
    unfile_cell(&mut buckets, (0, 0));
    assert_eq!(buckets[3], vec![(0, 1)]);
    assert_eq!(take_first(&mut buckets, 3), (0, 1));
    assert_eq!(lowest(&buckets), None);
}
