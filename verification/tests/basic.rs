use rand::rngs::StdRng;
use rand::SeedableRng;
use wave_function::algorithm::basic::least_open_cell;
use wave_function::algorithm::solve::start_wave;
use wave_function::algorithm::WaveFunctionBasic;
use wave_function::{Adjacency, Cell, Direction, Rules, TileMap, WaveFunction, WfcError};

/// Three tiles in a cycle: east of tile `t` stands `t + 1`, and north of
/// tile `t` stands `t` or `t + 1`, all modulo three.
fn ring_rules() -> Rules {
    let mut adjacency = Adjacency::new(3).unwrap();
    for t in 0..3 {
        adjacency.set(t, (t + 1) % 3, 0, true);
        adjacency.set(t, t, 1, true);
        adjacency.set(t, (t + 1) % 3, 1, true);
    }
    Rules::new(&adjacency, vec![1, 2, 3]).unwrap()
}

#[test]
fn the_least_open_cell_is_the_first_with_the_fewest_candidates() {
    let rules = ring_rules();
    let mut map = TileMap::empty((3, 2));
    let wave = start_wave(&map, &rules, 1000).unwrap();
    assert_eq!(least_open_cell(&wave.sizes, &wave.is_ignore, 3, 2), Some((0, 0)));
    // A fixed tile in the middle leaves its column with two candidates
    // each and decides its row.
    map.set((1, 0), Cell::Fixed(0));
    let wave = start_wave(&map, &rules, 1000).unwrap();
    assert_eq!(least_open_cell(&wave.sizes, &wave.is_ignore, 3, 2), Some((0, 0)));
    map.set((0, 0), Cell::Fixed(0));
    let wave = start_wave(&map, &rules, 1000).unwrap();
    assert_eq!(least_open_cell(&wave.sizes, &wave.is_ignore, 3, 2), Some((2, 0)));
    map.set((2, 0), Cell::Fixed(2));
    let wave = start_wave(&map, &rules, 1000).unwrap();
    assert_eq!(least_open_cell(&wave.sizes, &wave.is_ignore, 3, 2), None);
}

#[test]
fn the_plain_solver_solves_and_repeats_itself() {
    let rules = ring_rules();
    let template = TileMap::from_str("* * * *\n* ! * *\n* * * 1\n").unwrap();
    for seed in 0..10 {
        let run = || {
            let mut rng = StdRng::seed_from_u64(seed);
            WaveFunctionBasic::collapse(&template, &rules, &mut rng)
        };
        match (run(), run()) {
            (Ok(first), Ok(second)) => {
                for y in 0..3 {
                    for x in 0..4 {
                        assert_eq!(first.get((y, x)), second.get((y, x)));
                        let tile = match first.get((y, x)) {
                            Cell::Fixed(t) => t,
                            Cell::Ignore => {
                                assert_eq!((y, x), (1, 1));
                                continue;
                            }
                            Cell::Wildcard => panic!("({y}, {x}) is undecided"),
                        };
                        if let Some(p) = Direction::East.apply_to((y, x), (3, 4)) {
                            if let Cell::Fixed(east) = first.get(p) {
                                assert_eq!(east, (tile + 1) % 3);
                            }
                        }
                    }
                }
                assert_eq!(first.get((2, 3)), Cell::Fixed(1));
            }
            (Err(first), Err(second)) => {
                assert_eq!(first, second);
                assert!(matches!(first, WfcError::ContradictionAt { .. }));
            }
            (first, second) => panic!("{:?} and {:?}", first.is_ok(), second.is_ok()),
        }
    }
}
