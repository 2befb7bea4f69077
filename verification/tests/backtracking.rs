use rand::rngs::StdRng;
use rand::SeedableRng;
use wave_function::algorithm::backtracking::Limits;
use wave_function::algorithm::{WaveFunctionBacktracking, WaveFunctionFast};
use wave_function::{
    Adjacency, ArgsFault, Cell, Direction, MapFault, Rules, TileMap, WaveFunction, WfcError,
};

fn rules_from(table: &[[[u8; 2]; 3]; 3], frequencies: Vec<usize>) -> Rules {
    let mut adjacency = Adjacency::new(3).unwrap();
    for t in 0..3 {
        for u in 0..3 {
            for axis in 0..2 {
                adjacency.set(t, u, axis, table[t][u][axis] == 1);
            }
        }
    }
    Rules::new(&adjacency, frequencies).unwrap()
}

/// Three tiles on a two by two board: the grid is arc consistent with all
/// candidates, yet tile 2 in the top left corner has no completion.
fn trap_rules() -> Rules {
    let table = [
        [[1, 0], [1, 1], [1, 0]],
        [[0, 0], [1, 0], [0, 1]],
        [[0, 1], [1, 1], [0, 0]],
    ];
    rules_from(&table, vec![1, 1, 5])
}

fn two_tile_rules() -> Rules {
    let mut adjacency = Adjacency::new(2).unwrap();
    for axis in 0..2 {
        adjacency.set(0, 1, axis, true);
        adjacency.set(1, 0, axis, true);
    }
    Rules::new(&adjacency, vec![1, 1]).unwrap()
}

fn tile_of(map: &TileMap, y: usize, x: usize) -> usize {
    match map.get((y, x)) {
        Cell::Fixed(i) => i,
        other => panic!("cell ({}, {}) is {:?}", y, x, other),
    }
}

fn check_adjacencies(map: &TileMap, rules: &Rules) {
    let (height, width) = map.size();
    for y in 0..height {
        for x in 0..width {
            for d in [Direction::North, Direction::East, Direction::South, Direction::West] {
                if let Some(p) = d.apply_to((y, x), (height, width)) {
                    assert!(rules.allows(tile_of(map, y, x), d, tile_of(map, p.0, p.1)));
                }
            }
        }
    }
}

#[test]
fn fast_solver_can_walk_into_the_trap() {
    let rules = trap_rules();
    let mut failures = 0;
    let mut successes = 0;
    for seed in 0..40 {
        let mut rng = StdRng::seed_from_u64(seed);
        match WaveFunctionFast::collapse(&TileMap::empty((2, 2)), &rules, &mut rng) {
            Ok(map) => {
                check_adjacencies(&map, &rules);
                successes += 1;
            }
            Err(e) => {
                assert!(matches!(e, WfcError::ContradictionAt { .. }));
                failures += 1;
            }
        }
    }
    assert!(failures > 0);
    assert!(successes > 0);
}

#[test]
fn backtracking_solver_gets_out_of_the_trap() {
    let rules = trap_rules();
    for seed in 0..40 {
        let mut rng = StdRng::seed_from_u64(seed);
        let map = WaveFunctionBacktracking::collapse(&TileMap::empty((2, 2)), &rules, &mut rng)
            .unwrap();
        check_adjacencies(&map, &rules);
        assert_ne!(map.get((0, 0)), Cell::Fixed(2));
    }
}

#[test]
fn backtracking_solver_without_attempts_reports_exhaustion() {
    let rules = trap_rules();
    let limits = Limits { max_backtrack_attempts: 0, ..Limits::standard() };
    let mut exhausted = 0;
    for seed in 0..40 {
        let mut rng = StdRng::seed_from_u64(seed);
        let map = TileMap::empty((2, 2));
        match WaveFunctionBacktracking::collapse_within(&map, &rules, &mut rng, limits) {
            Ok(solved) => check_adjacencies(&solved, &rules),
            Err(e) => {
                assert_eq!(e, WfcError::BacktrackExhausted { attempts: 0 });
                exhausted += 1;
            }
        }
    }
    assert!(exhausted > 0);
}

#[test]
fn backtracking_solver_with_no_budget_times_out() {
    let rules = two_tile_rules();
    let limits = Limits { budget_secs: 0, ..Limits::standard() };
    let mut rng = StdRng::seed_from_u64(5);
    let outcome =
        WaveFunctionBacktracking::collapse_within(&TileMap::empty((4, 4)), &rules, &mut rng, limits);
    assert_eq!(outcome.err(), Some(WfcError::Timeout));
}

#[test]
fn backtracking_solver_reports_a_short_iteration_bound() {
    let rules = two_tile_rules();
    let limits = Limits { max_iterations: 3, ..Limits::standard() };
    let mut rng = StdRng::seed_from_u64(5);
    let outcome =
        WaveFunctionBacktracking::collapse_within(&TileMap::empty((4, 4)), &rules, &mut rng, limits);
    assert_eq!(outcome.err(), Some(WfcError::IterationLimit));
}

#[test]
fn unsatisfiable_seed_exhausts_the_backtracking_solver() {
    let rules = two_tile_rules();
    let mut map = TileMap::empty((4, 4));
    map.set((0, 0), Cell::Fixed(0));
    map.set((0, 1), Cell::Fixed(0));
    let mut rng = StdRng::seed_from_u64(3);
    let outcome = WaveFunctionBacktracking::collapse(&map, &rules, &mut rng);
    assert!(matches!(outcome.err(), Some(WfcError::BacktrackExhausted { .. })));
}

#[test]
fn backtracking_solver_solves_the_checkerboard() {
    let rules = two_tile_rules();
    for seed in 0..10 {
        let mut rng = StdRng::seed_from_u64(seed);
        let solved =
            WaveFunctionBacktracking::collapse(&TileMap::empty((4, 4)), &rules, &mut rng).unwrap();
        let corner = tile_of(&solved, 0, 0);
        for y in 0..4 {
            for x in 0..4 {
                let expected = if (y + x) % 2 == 0 { corner } else { 1 - corner };
                assert_eq!(tile_of(&solved, y, x), expected);
            }
        }
    }
}

#[test]
fn a_template_with_an_unknown_tile_is_refused_by_both_solvers() {
    let rules = two_tile_rules();
    let mut map = TileMap::empty((2, 2));
    map.set((1, 1), Cell::Fixed(2));
    let mut rng = StdRng::seed_from_u64(0);
    let refused = Some(WfcError::InvalidMap(MapFault::IndexOutOfRange));
    assert_eq!(WaveFunctionFast::collapse(&map, &rules, &mut rng).err(), refused);
    assert_eq!(WaveFunctionBacktracking::collapse(&map, &rules, &mut rng).err(), refused);
}

#[test]
fn backtracking_solver_without_frames_gives_up_at_the_first_contradiction() {
    let rules = trap_rules();
    let limits = Limits { max_backtrack_depth: 0, ..Limits::standard() };
    let mut exhausted = 0;
    let mut solved = 0;
    for seed in 0..40 {
        let mut rng = StdRng::seed_from_u64(seed);
        let map = TileMap::empty((2, 2));
        match WaveFunctionBacktracking::collapse_within(&map, &rules, &mut rng, limits) {
            Ok(filled) => {
                check_adjacencies(&filled, &rules);
                solved += 1;
            }
            Err(e) => {
                assert_eq!(e, WfcError::BacktrackExhausted { attempts: 0 });
                exhausted += 1;
            }
        }
    }
    assert!(exhausted > 0);
    assert!(solved > 0);
}

#[test]
fn unsatisfiable_seed_is_exhausted_without_an_attempt() {
    let rules = two_tile_rules();
    let mut map = TileMap::empty((4, 4));
    map.set((0, 0), Cell::Fixed(0));
    map.set((0, 1), Cell::Fixed(0));
    for seed in 0..5 {
        let mut rng = StdRng::seed_from_u64(seed);
        let outcome = WaveFunctionBacktracking::collapse(&map, &rules, &mut rng);
        assert_eq!(outcome.err(), Some(WfcError::BacktrackExhausted { attempts: 0 }));
    }
}

#[test]
fn a_template_that_setup_decides_is_solved_whatever_is_drawn() {
    let rules = two_tile_rules();
    let mut map = TileMap::empty((4, 4));
    map.set((0, 0), Cell::Fixed(0));
    for seed in 0..10 {
        let mut rng = StdRng::seed_from_u64(seed);
        let untouched = rng.clone();
        let limits = Limits { max_backtrack_attempts: 0, max_backtrack_depth: 0, ..Limits::standard() };
        let solved =
            WaveFunctionBacktracking::collapse_within(&map, &rules, &mut rng, limits).unwrap();
        for y in 0..4 {
            for x in 0..4 {
                assert_eq!(solved.get((y, x)), Cell::Fixed((y + x) % 2));
            }
        }
        // Nothing was drawn.
        assert_eq!(rng, untouched);
        let solved = WaveFunctionFast::collapse(&map, &rules, &mut rng).unwrap();
        for y in 0..4 {
            for x in 0..4 {
                assert_eq!(solved.get((y, x)), Cell::Fixed((y + x) % 2));
            }
        }
        assert_eq!(rng, untouched);
    }
}

#[test]
fn weights_of_the_caller_steer_the_draw() {
    let rules = two_tile_rules();
    let map = TileMap::empty((4, 4));
    // With all the weight on one tile, that tile is drawn for the first
    // cell, and the checkerboard follows from it.
    for seed in 0..10 {
        let mut rng = StdRng::seed_from_u64(seed);
        let solved =
            WaveFunctionBacktracking::collapse_weighted(&map, &rules, &vec![0, 5], &mut rng)
                .unwrap();
        check_adjacencies(&solved, &rules);
        assert_eq!(solved.get((0, 0)), Cell::Fixed(1));
        let mut rng = StdRng::seed_from_u64(seed);
        let solved =
            WaveFunctionBacktracking::collapse_weighted(&map, &rules, &vec![5, 0], &mut rng)
                .unwrap();
        assert_eq!(solved.get((0, 0)), Cell::Fixed(0));
    }
}

#[test]
fn weights_must_be_as_many_as_tiles() {
    let rules = two_tile_rules();
    let map = TileMap::empty((4, 4));
    let mut rng = StdRng::seed_from_u64(1);
    let outcome = WaveFunctionBacktracking::collapse_weighted(&map, &rules, &vec![1], &mut rng);
    assert_eq!(outcome.err(), Some(WfcError::InvalidArgs(ArgsFault::DimensionMismatch)));
    let outcome =
        WaveFunctionBacktracking::collapse_weighted(&map, &rules, &vec![1, 1, 1], &mut rng);
    assert_eq!(outcome.err(), Some(WfcError::InvalidArgs(ArgsFault::DimensionMismatch)));
}

#[test]
fn a_chain_of_tiles_follows_from_its_first() {
    // East of tile `t` stands tile `t + 1` alone, modulo three.
    let mut adjacency = Adjacency::new(3).unwrap();
    for t in 0..3 {
        adjacency.set(t, (t + 1) % 3, 0, true);
    }
    let rules = Rules::new(&adjacency, vec![1, 1, 1]).unwrap();
    let map = TileMap::from_str("0 * *").unwrap();
    for seed in 0..5 {
        let mut rng = StdRng::seed_from_u64(seed);
        let untouched = rng.clone();
        let solved = WaveFunctionBacktracking::collapse(&map, &rules, &mut rng).unwrap();
        assert_eq!(solved.get((0, 0)), Cell::Fixed(0));
        assert_eq!(solved.get((0, 1)), Cell::Fixed(1));
        assert_eq!(solved.get((0, 2)), Cell::Fixed(2));
        assert_eq!(rng, untouched);
        let solved = WaveFunctionFast::collapse(&map, &rules, &mut rng).unwrap();
        assert_eq!(solved.get((0, 2)), Cell::Fixed(2));
        assert_eq!(rng, untouched);
    }
}

#[test]
fn a_solver_without_budget_times_out_before_it_decides() {
    let rules = two_tile_rules();
    let mut map = TileMap::empty((4, 4));
    map.set((0, 0), Cell::Fixed(0));
    let limits = Limits { budget_secs: 0, ..Limits::standard() };
    let mut rng = StdRng::seed_from_u64(5);
    let outcome = WaveFunctionBacktracking::collapse_within(&map, &rules, &mut rng, limits);
    assert_eq!(outcome.err(), Some(WfcError::Timeout));
}
