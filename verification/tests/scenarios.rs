use rand::rngs::StdRng;
use rand::SeedableRng;
use wave_function::algorithm::solve::{clash_at, find_clash};
use wave_function::algorithm::{
    WaveFunctionBacktracking, WaveFunctionBasic, WaveFunctionFast, WaveFunctionOptimised,
};
use wave_function::{Adjacency, Cell, Direction, Rules, TileMap, WaveFunction, WfcError};

const A: usize = 0;
const B: usize = 1;

fn single_tile_rules() -> Rules {
    let mut adjacency = Adjacency::new(1).unwrap();
    adjacency.set(0, 0, 0, true);
    adjacency.set(0, 0, 1, true);
    Rules::new(&adjacency, vec![10]).unwrap()
}

fn checkerboard_rules() -> Rules {
    let mut adjacency = Adjacency::new(2).unwrap();
    for axis in 0..2 {
        adjacency.set(A, B, axis, true);
        adjacency.set(B, A, axis, true);
    }
    Rules::new(&adjacency, vec![1, 1]).unwrap()
}

fn tile(map: &TileMap, y: usize, x: usize) -> usize {
    match map.get((y, x)) {
        Cell::Fixed(i) => i,
        other => panic!("cell ({}, {}) is {:?}", y, x, other),
    }
}

fn assert_adjacencies(map: &TileMap, rules: &Rules) {
    let (height, width) = map.size();
    for y in 0..height {
        for x in 0..width {
            if map.get((y, x)) == Cell::Ignore {
                continue;
            }
            for d in [Direction::North, Direction::East, Direction::South, Direction::West] {
                if let Some(p) = d.apply_to((y, x), (height, width)) {
                    if map.get(p) != Cell::Ignore {
                        assert!(rules.allows(tile(map, y, x), d, tile(map, p.0, p.1)));
                    }
                }
            }
        }
    }
}

#[test]
fn trivial_single_tile_fills_every_cell() {
    let rules = single_tile_rules();
    let map = TileMap::empty((5, 5));
    let mut rng = StdRng::seed_from_u64(1);
    let solved = WaveFunctionFast::collapse(&map, &rules, &mut rng).unwrap();
    assert_eq!(solved.size(), (5, 5));
    for y in 0..5 {
        for x in 0..5 {
            assert_eq!(solved.get((y, x)), Cell::Fixed(0));
        }
    }
}

#[test]
fn checkerboard_has_only_alternating_solutions() {
    let rules = checkerboard_rules();
    for seed in 0..20 {
        let map = TileMap::empty((4, 4));
        let mut rng = StdRng::seed_from_u64(seed);
        let solved = WaveFunctionFast::collapse(&map, &rules, &mut rng).unwrap();
        let corner = tile(&solved, 0, 0);
        for y in 0..4 {
            for x in 0..4 {
                let expected = if (y + x) % 2 == 0 { corner } else { 1 - corner };
                assert_eq!(tile(&solved, y, x), expected);
            }
        }
        assert_adjacencies(&solved, &rules);
    }
}

#[test]
fn fixed_corner_forces_the_whole_board() {
    let rules = checkerboard_rules();
    let mut map = TileMap::empty((4, 4));
    map.set((0, 0), Cell::Fixed(A));
    let mut rng = StdRng::seed_from_u64(7);
    let untouched = rng.clone();
    let solved = WaveFunctionFast::collapse(&map, &rules, &mut rng).unwrap();
    for y in 0..4 {
        for x in 0..4 {
            let expected = if (y + x) % 2 == 0 { A } else { B };
            assert_eq!(solved.get((y, x)), Cell::Fixed(expected));
        }
    }
    // Propagation alone decided every cell: nothing was drawn.
    assert_eq!(rng, untouched);
}

#[test]
fn unsatisfiable_seed_is_a_contradiction_for_the_fast_solver() {
    let rules = checkerboard_rules();
    let mut map = TileMap::empty((4, 4));
    map.set((0, 0), Cell::Fixed(A));
    map.set((0, 1), Cell::Fixed(A));
    let mut rng = StdRng::seed_from_u64(3);
    let outcome = WaveFunctionFast::collapse(&map, &rules, &mut rng);
    assert_eq!(outcome.err(), Some(WfcError::ContradictionAt { y: 0, x: 1 }));
}

#[test]
fn ignored_cells_stay_ignored_and_block_propagation() {
    let rules = checkerboard_rules();
    let mut map = TileMap::empty((6, 6));
    for y in 0..6 {
        for x in 0..6 {
            if (y + x) % 2 == 0 && y < 3 {
                map.set((y, x), Cell::Ignore);
            }
        }
    }
    for seed in 0..10 {
        let mut rng = StdRng::seed_from_u64(seed);
        let solved = WaveFunctionFast::collapse(&map, &rules, &mut rng).unwrap();
        for y in 0..6 {
            for x in 0..6 {
                if (y + x) % 2 == 0 && y < 3 {
                    assert_eq!(solved.get((y, x)), Cell::Ignore);
                } else {
                    assert!(matches!(solved.get((y, x)), Cell::Fixed(_)));
                }
            }
        }
        assert_adjacencies(&solved, &rules);
    }
}

#[test]
fn the_first_clashing_seed_in_reading_order_is_reported() {
    let rules = checkerboard_rules();
    // Two clashes: (1, 2) against the cell above it, and (3, 1) against
    // the cell to its left.
    let mut map = TileMap::empty((4, 4));
    map.set((0, 2), Cell::Fixed(A));
    map.set((1, 2), Cell::Fixed(A));
    map.set((3, 0), Cell::Fixed(B));
    map.set((3, 1), Cell::Fixed(B));
    assert_eq!(find_clash(&map, &rules), Some((1, 2)));
    assert!(clash_at(&map, &rules, 1, 2, Direction::North));
    assert!(!clash_at(&map, &rules, 1, 2, Direction::West));
    assert!(clash_at(&map, &rules, 3, 1, Direction::West));
    assert!(clash_at(&map, &rules, 0, 2, Direction::South));
    for seed in 0..5 {
        let mut rng = StdRng::seed_from_u64(seed);
        let outcome = WaveFunctionFast::collapse(&map, &rules, &mut rng);
        assert_eq!(outcome.err(), Some(WfcError::ContradictionAt { y: 1, x: 2 }));
        let mut rng = StdRng::seed_from_u64(seed);
        let outcome = WaveFunctionOptimised::collapse(&map, &rules, &mut rng);
        assert_eq!(outcome.err(), Some(WfcError::ContradictionAt { y: 1, x: 2 }));
        let mut rng = StdRng::seed_from_u64(seed);
        let outcome = WaveFunctionBasic::collapse(&map, &rules, &mut rng);
        assert_eq!(outcome.err(), Some(WfcError::ContradictionAt { y: 1, x: 2 }));
        let mut rng = StdRng::seed_from_u64(seed);
        let outcome = WaveFunctionBacktracking::collapse(&map, &rules, &mut rng);
        assert_eq!(outcome.err(), Some(WfcError::BacktrackExhausted { attempts: 0 }));
    }
}

#[test]
fn seeds_that_fit_do_not_clash() {
    let rules = checkerboard_rules();
    let mut map = TileMap::empty((3, 3));
    map.set((0, 0), Cell::Fixed(A));
    map.set((0, 1), Cell::Fixed(B));
    map.set((1, 0), Cell::Fixed(B));
    map.set((2, 2), Cell::Fixed(A));
    assert_eq!(find_clash(&map, &rules), None);
    // Seeds that are no neighbours clash in no pair, though no map holds
    // them both: that is found by the propagation.
    let mut map = TileMap::empty((1, 3));
    map.set((0, 0), Cell::Fixed(A));
    map.set((0, 2), Cell::Fixed(B));
    assert_eq!(find_clash(&map, &rules), None);
    let mut rng = StdRng::seed_from_u64(2);
    let outcome = WaveFunctionFast::collapse(&map, &rules, &mut rng);
    assert!(matches!(outcome, Err(WfcError::ContradictionAt { y: 0, .. })));
}
