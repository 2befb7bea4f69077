use wave_function::algorithm::common::{cached_size, count_domains, is_hole, options_at};
use wave_function::{Cell, Direction, MapFault, TileMap, WfcError};

fn numbered(height: usize, width: usize) -> TileMap {
    let mut map = TileMap::empty((height, width));
    for y in 0..height {
        for x in 0..width {
            map.set((y, x), Cell::Fixed(y * width + x));
        }
    }
    map
}

fn cells(map: &TileMap) -> Vec<Vec<Cell>> {
    let (height, width) = map.size();
    (0..height).map(|y| (0..width).map(|x| map.get((y, x))).collect()).collect()
}

#[test]
fn empty_maps_are_all_wildcards() {
    let map = TileMap::empty((2, 3));
    assert_eq!(map.height(), 2);
    assert_eq!(map.width(), 3);
    assert_eq!(map.size(), (2, 3));
    assert_eq!(map.max_index(), None);
    for y in 0..2 {
        for x in 0..3 {
            assert_eq!(map.get((y, x)), Cell::Wildcard);
        }
    }
}

#[test]
fn maps_are_made_from_rows() {
    let rows = vec![
        vec![Cell::Fixed(4), Cell::Wildcard],
        vec![Cell::Ignore, Cell::Fixed(9)],
        vec![Cell::Wildcard, Cell::Fixed(1)],
    ];
    let map = TileMap::new(&rows).unwrap();
    assert_eq!(map.size(), (3, 2));
    assert_eq!(cells(&map), rows);
    assert_eq!(map.max_index(), Some(9));
}

#[test]
fn maps_refuse_bad_rows() {
    assert_eq!(TileMap::new(&vec![]).err(), Some(WfcError::InvalidMap(MapFault::Empty)));
    assert_eq!(TileMap::new(&vec![vec![]]).err(), Some(WfcError::InvalidMap(MapFault::Empty)));
    assert_eq!(
        TileMap::new(&vec![vec![Cell::Wildcard], vec![]]).err(),
        Some(WfcError::InvalidMap(MapFault::RaggedRows))
    );
    assert_eq!(
        TileMap::new(&vec![vec![Cell::Wildcard], vec![Cell::Wildcard, Cell::Ignore]]).err(),
        Some(WfcError::InvalidMap(MapFault::RaggedRows))
    );
}

#[test]
fn setting_a_cell_changes_only_that_cell() {
    let mut map = numbered(2, 2);
    map.set((1, 0), Cell::Ignore);
    assert_eq!(
        cells(&map),
        vec![vec![Cell::Fixed(0), Cell::Fixed(1)], vec![Cell::Ignore, Cell::Fixed(3)]]
    );
}

#[test]
fn masks_mark_the_holes() {
    let mut map = TileMap::empty((2, 2));
    map.set((0, 1), Cell::Ignore);
    map.set((1, 0), Cell::Fixed(3));
    let mask = map.mask();
    assert!(!is_hole(&mask, (0, 0)));
    assert!(is_hole(&mask, (0, 1)));
    assert!(!is_hole(&mask, (1, 0)));
    assert!(!is_hole(&mask, (1, 1)));
}

#[test]
fn domains_hold_what_the_cells_admit() {
    let mut map = TileMap::empty((2, 2));
    map.set((0, 1), Cell::Ignore);
    map.set((1, 0), Cell::Fixed(3));
    let domains = map.domains(5);
    assert_eq!(options_at(&domains, (0, 0)), vec![0, 1, 2, 3, 4]);
    assert_eq!(options_at(&domains, (0, 1)), Vec::<usize>::new());
    assert_eq!(options_at(&domains, (1, 0)), vec![3]);
    let sizes = count_domains(&domains, 2, 2, 5);
    assert_eq!(cached_size(&sizes, (0, 0)), 5);
    assert_eq!(cached_size(&sizes, (0, 1)), 0);
    assert_eq!(cached_size(&sizes, (1, 0)), 1);
    assert_eq!(cached_size(&sizes, (1, 1)), 5);
}

#[test]
fn bordering_chunks_carry_the_strip_to_the_other_side() {
    let map = numbered(3, 4);
    let w = Cell::Wildcard;
    let f = Cell::Fixed;
    assert_eq!(
        cells(&map.bordering_chunk(Direction::North, 1)),
        vec![vec![w, w, w, w], vec![w, w, w, w], vec![f(0), f(1), f(2), f(3)]]
    );
    assert_eq!(
        cells(&map.bordering_chunk(Direction::South, 2)),
        vec![vec![f(4), f(5), f(6), f(7)], vec![f(8), f(9), f(10), f(11)], vec![w, w, w, w]]
    );
    assert_eq!(
        cells(&map.bordering_chunk(Direction::East, 1)),
        vec![vec![f(3), w, w, w], vec![f(7), w, w, w], vec![f(11), w, w, w]]
    );
    assert_eq!(
        cells(&map.bordering_chunk(Direction::West, 2)),
        vec![vec![w, w, f(0), f(1)], vec![w, w, f(4), f(5)], vec![w, w, f(8), f(9)]]
    );
}

#[test]
fn shared_borders_come_from_the_opposite_side_of_the_other_map() {
    let other = numbered(3, 4);
    let w = Cell::Wildcard;
    let f = Cell::Fixed;

    let mut map = TileMap::empty((3, 4));
    map.set_shared_border(&other, Direction::North, 1);
    assert_eq!(
        cells(&map),
        vec![vec![f(8), f(9), f(10), f(11)], vec![w, w, w, w], vec![w, w, w, w]]
    );

    let mut map = TileMap::empty((3, 4));
    map.set_shared_border(&other, Direction::South, 2);
    assert_eq!(
        cells(&map),
        vec![vec![w, w, w, w], vec![f(0), f(1), f(2), f(3)], vec![f(4), f(5), f(6), f(7)]]
    );

    let mut map = TileMap::empty((3, 4));
    map.set_shared_border(&other, Direction::West, 1);
    assert_eq!(
        cells(&map),
        vec![vec![f(3), w, w, w], vec![f(7), w, w, w], vec![f(11), w, w, w]]
    );

    let mut map = TileMap::empty((3, 4));
    map.set_shared_border(&other, Direction::East, 2);
    assert_eq!(
        cells(&map),
        vec![vec![w, w, f(0), f(1)], vec![w, w, f(4), f(5)], vec![w, w, f(8), f(9)]]
    );
}

#[test]
fn a_shared_border_matches_the_bordering_chunk() {
    let solved = numbered(4, 4);
    for d in [Direction::North, Direction::East, Direction::South, Direction::West] {
        // The chunk that lies in direction `d` of `solved` takes over the
        // strip on the side that faces `solved`.
        let mut template = TileMap::empty((4, 4));
        template.set_shared_border(&solved, d.opposite(), 1);
        assert_eq!(cells(&template), cells(&solved.bordering_chunk(d, 1)));
    }
}

#[test]
fn a_shared_border_may_be_the_whole_of_the_other_map() {
    let w = Cell::Wildcard;
    let f = Cell::Fixed;
    // The other map is no higher than the strip.
    let other = numbered(1, 4);
    let mut map = TileMap::empty((3, 4));
    map.set_shared_border(&other, Direction::North, 1);
    assert_eq!(
        cells(&map),
        vec![vec![f(0), f(1), f(2), f(3)], vec![w, w, w, w], vec![w, w, w, w]]
    );
    // The other map is no wider than the strip.
    let other = numbered(3, 2);
    let mut map = TileMap::empty((3, 4));
    map.set_shared_border(&other, Direction::East, 2);
    assert_eq!(
        cells(&map),
        vec![vec![w, w, f(0), f(1)], vec![w, w, f(2), f(3)], vec![w, w, f(4), f(5)]]
    );
}
