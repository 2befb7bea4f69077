use rand::rngs::StdRng;
use rand::SeedableRng;
use wave_function::algorithm::buckets::{empty_buckets, file_cell, lowest};
use wave_function::algorithm::common::{cached_size, options_at};
use wave_function::algorithm::solve::{commit, emit, fill_buckets, refile, start_wave};
use wave_function::algorithm::fast::collapse_bounded;
use wave_function::algorithm::{WaveFunctionBacktracking, WaveFunctionFast, WaveFunctionOptimised};
use wave_function::{
    Adjacency, Cell, Direction, Image, Pixel, Rules, TileMap, TilesetBuilder, Transformation,
    WaveFunction, WfcError,
};

/// Three tiles in a cycle: east of tile `t` stands `t + 1`, and north of
/// tile `t` stands `t` or `t + 1`, all modulo three.
fn cycle_rules() -> Rules {
    let mut adjacency = Adjacency::new(3).unwrap();
    for t in 0..3 {
        adjacency.set(t, (t + 1) % 3, 0, true);
        adjacency.set(t, t, 1, true);
        adjacency.set(t, (t + 1) % 3, 1, true);
    }
    Rules::new(&adjacency, vec![1, 2, 3]).unwrap()
}

fn cells(map: &TileMap) -> Vec<Vec<Cell>> {
    let (height, width) = map.size();
    (0..height).map(|y| (0..width).map(|x| map.get((y, x))).collect()).collect()
}

fn check(map: &TileMap, template: &TileMap, rules: &Rules) {
    let (height, width) = map.size();
    assert_eq!(template.size(), (height, width));
    for y in 0..height {
        for x in 0..width {
            let tile = match (template.get((y, x)), map.get((y, x))) {
                (Cell::Ignore, Cell::Ignore) => continue,
                (Cell::Wildcard, Cell::Fixed(t)) => t,
                (Cell::Fixed(wanted), Cell::Fixed(t)) if wanted == t => t,
                (wanted, found) => panic!("({y}, {x}): {wanted:?} became {found:?}"),
            };
            assert!(tile < rules.len());
            for d in [Direction::North, Direction::East, Direction::South, Direction::West] {
                if let Some(p) = d.apply_to((y, x), (height, width)) {
                    if let Cell::Fixed(other) = map.get(p) {
                        assert!(rules.allows(tile, d, other));
                    }
                }
            }
        }
    }
}

#[test]
fn buckets_are_filled_from_the_sizes() {
    let rules = cycle_rules();
    let mut map = TileMap::empty((2, 2));
    map.set((0, 0), Cell::Fixed(1));
    map.set((1, 1), Cell::Ignore);
    let wave = start_wave(&map, &rules, 1000).unwrap();
    let buckets = fill_buckets(&wave.sizes, &wave.is_ignore, 2, 2, 3, &wave.domains);
    assert_eq!(buckets.len(), 4);
    // (0, 1) is decided by its neighbour, (1, 0) keeps two candidates.
    assert_eq!(buckets[2], vec![(1, 0)]);
    assert!(buckets[3].is_empty());
    assert_eq!(lowest(&buckets), Some(2));
}

#[test]
fn buckets_follow_a_decision() {
    let rules = cycle_rules();
    let map = TileMap::empty((1, 3));
    let wave = start_wave(&map, &rules, 1000).unwrap();
    let (mut domains, mut sizes) = (wave.domains, wave.sizes);
    let mut buckets = fill_buckets(&sizes, &wave.is_ignore, 1, 3, 3, &domains);
    assert_eq!(buckets[3], vec![(0, 0), (0, 1), (0, 2)]);
    // The solver takes a cell out of its bucket before it decides it.
    buckets[3].remove(1);
    let affected = commit(
        &mut domains,
        &mut sizes,
        &rules,
        &wave.is_ignore,
        &wave.neighbours,
        (0, 1),
        0,
        1000,
        &map,
    )
    .unwrap();
    refile(&mut buckets, &affected, &sizes, &domains, &wave.is_ignore);
    assert_eq!(lowest(&buckets), None);
    for bucket in &buckets {
        assert!(bucket.is_empty());
    }
    let solved = emit(&map, &rules, &domains, &wave.is_ignore, &sizes);
    assert_eq!(cells(&solved), vec![vec![Cell::Fixed(2), Cell::Fixed(0), Cell::Fixed(1)]]);
    for x in 0..3 {
        assert_eq!(cached_size(&sizes, (0, x)), 1);
        assert_eq!(options_at(&domains, (0, x)).len(), 1);
    }
}

#[test]
fn refiling_moves_a_cell_to_the_bucket_of_its_size() {
    let rules = cycle_rules();
    let mut map = TileMap::empty((2, 1));
    let wave = start_wave(&map, &rules, 1000).unwrap();
    let mut buckets = empty_buckets(4);
    file_cell(&mut buckets, 3, (0, 0));
    file_cell(&mut buckets, 3, (1, 0));
    // Deciding the upper cell leaves the lower one with two candidates.
    let (mut domains, mut sizes) = (wave.domains, wave.sizes);
    buckets[3].remove(0);
    let affected = commit(
        &mut domains,
        &mut sizes,
        &rules,
        &wave.is_ignore,
        &wave.neighbours,
        (0, 0),
        0,
        1000,
        &map,
    )
    .unwrap();
    assert_eq!(affected, vec![(1, 0)]);
    refile(&mut buckets, &affected, &sizes, &domains, &wave.is_ignore);
    assert!(buckets[3].is_empty());
    assert_eq!(buckets[2], vec![(1, 0)]);
    map.set((0, 0), Cell::Fixed(0));
}

#[test]
fn solvers_repeat_themselves_from_the_same_seed() {
    let rules = cycle_rules();
    let template = TileMap::empty((6, 7));
    for seed in 0..5 {
        let run = |backtracking: bool| {
            let mut rng = StdRng::seed_from_u64(seed);
            let solved = if backtracking {
                WaveFunctionBacktracking::collapse(&template, &rules, &mut rng)
            } else {
                WaveFunctionFast::collapse(&template, &rules, &mut rng)
            };
            solved.map(|m| cells(&m))
        };
        assert_eq!(run(false), run(false));
        assert_eq!(run(true), run(true));
        if let Ok(rows) = run(true) {
            check(&TileMap::new(&rows).unwrap(), &template, &rules);
        }
    }
}

#[test]
fn solutions_respect_the_template() {
    let rules = cycle_rules();
    let template = TileMap::from_str(
        "
        * * * * *
        * 1 * ! *
        * * * ! *
        2 * * * 0
        ",
    )
    .unwrap();
    let mut solved = 0;
    for seed in 0..30 {
        let mut rng = StdRng::seed_from_u64(seed);
        if let Ok(map) = template.collapse::<WaveFunctionBacktracking>(&rules, &mut rng) {
            check(&map, &template, &rules);
            solved += 1;
        }
        let mut rng = StdRng::seed_from_u64(seed);
        if let Ok(map) = template.collapse::<WaveFunctionFast>(&rules, &mut rng) {
            check(&map, &template, &rules);
        }
    }
    assert!(solved > 0);
}

/// A sheet of coloured blocks that gives an atlas with dozens of tiles.
fn busy_sheet() -> Image {
    let side = 24;
    let rows = (0..side)
        .map(|y| {
            (0..side)
                .map(|x| {
                    let v = (((x / 3) * 7 + (y / 2) * 5 + (x / 3) * (y / 2)) % 4) as u8;
                    Pixel { r: 60 * v, g: 200 - 40 * v, b: 17 * v, a: 255 }
                })
                .collect()
        })
        .collect();
    Image::new(rows).unwrap()
}

#[test]
fn a_large_map_is_solved_in_time() {
    let atlas = TilesetBuilder::new(1, 1)
        .unwrap()
        .add_tiles(&busy_sheet(), 2, &vec![Transformation::Identity])
        .unwrap()
        .build()
        .unwrap();
    assert!(atlas.len() > 10);
    let template = TileMap::empty((40, 40));
    let mut rng = StdRng::seed_from_u64(2);
    let solved = template.collapse::<WaveFunctionBacktracking>(atlas.rules(), &mut rng).unwrap();
    check(&solved, &template, atlas.rules());
    let picture = solved.render(&atlas).unwrap();
    assert_eq!((picture.height(), picture.width()), (40, 40));
}

#[test]
fn the_second_fast_solver_solves_as_the_first_does() {
    let rules = cycle_rules();
    let template = TileMap::empty((6, 7));
    for seed in 0..5 {
        let mut rng = StdRng::seed_from_u64(seed);
        let first = WaveFunctionFast::collapse(&template, &rules, &mut rng).map(|m| cells(&m));
        let mut rng = StdRng::seed_from_u64(seed);
        let second =
            WaveFunctionOptimised::collapse(&template, &rules, &mut rng).map(|m| cells(&m));
        assert_eq!(first, second);
        let mut rng = StdRng::seed_from_u64(seed);
        let bounded = collapse_bounded(&template, &rules, &mut rng, 1_000).map(|m| cells(&m));
        assert_eq!(first, bounded);
        if let Ok(rows) = second {
            check(&TileMap::new(&rows).unwrap(), &template, &rules);
        }
    }
}

#[test]
fn a_fast_solver_with_a_short_bound_reports_it() {
    let rules = cycle_rules();
    let template = TileMap::empty((6, 7));
    let mut rng = StdRng::seed_from_u64(1);
    let outcome = collapse_bounded(&template, &rules, &mut rng, 5);
    assert_eq!(outcome.err(), Some(WfcError::IterationLimit));
}
