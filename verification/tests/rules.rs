use wave_function::bitset::tiles_in;
use wave_function::{Adjacency, AtlasFault, Cell, Direction, Rule, RuleSet, Rules, WfcError};

const DIRECTIONS: [Direction; 4] =
    [Direction::North, Direction::East, Direction::South, Direction::West];

fn table(n: usize, east: &[(usize, usize)], north: &[(usize, usize)]) -> Adjacency {
    let mut adjacency = Adjacency::new(n).unwrap();
    for &(t, u) in east {
        adjacency.set(t, u, 0, true);
    }
    for &(t, u) in north {
        adjacency.set(t, u, 1, true);
    }
    adjacency
}

#[test]
fn direction_indices_and_opposites() {
    assert_eq!(Direction::North.index(), 0);
    assert_eq!(Direction::East.index(), 1);
    assert_eq!(Direction::South.index(), 2);
    assert_eq!(Direction::West.index(), 3);
    for d in DIRECTIONS {
        assert_eq!(Direction::from_index(d.index()), d);
        assert_eq!(d.opposite().opposite(), d);
        assert_ne!(d.opposite(), d);
    }
    assert_eq!(Direction::North.opposite(), Direction::South);
    assert_eq!(Direction::East.opposite(), Direction::West);
}

#[test]
fn direction_steps_stay_inside_the_grid() {
    assert_eq!(Direction::North.apply_to((1, 1), (3, 3)), Some((0, 1)));
    assert_eq!(Direction::East.apply_to((1, 1), (3, 3)), Some((1, 2)));
    assert_eq!(Direction::South.apply_to((1, 1), (3, 3)), Some((2, 1)));
    assert_eq!(Direction::West.apply_to((1, 1), (3, 3)), Some((1, 0)));
    assert_eq!(Direction::North.apply_to((0, 1), (3, 3)), None);
    assert_eq!(Direction::West.apply_to((1, 0), (3, 3)), None);
    assert_eq!(Direction::South.apply_to((2, 1), (3, 3)), None);
    assert_eq!(Direction::East.apply_to((1, 2), (3, 3)), None);
    assert_eq!(Direction::East.apply_to((usize::MAX, usize::MAX), (3, 3)), None);
}

#[test]
fn cell_domains() {
    assert_eq!(tiles_in(&Cell::Ignore.domain(4)), Vec::<usize>::new());
    assert_eq!(tiles_in(&Cell::Wildcard.domain(4)), vec![0, 1, 2, 3]);
    assert_eq!(tiles_in(&Cell::Fixed(2).domain(4)), vec![2]);
    assert_eq!(Cell::Wildcard.domain(70).count_ones(..), 70);
    assert_eq!(Cell::Fixed(69).domain(70).len(), 70);
    assert!(!Cell::Ignore.participates());
    assert!(Cell::Wildcard.participates());
    assert!(Cell::Fixed(0).participates());
}

#[test]
fn adjacency_tables_are_written_and_read() {
    let mut adjacency = Adjacency::new(3).unwrap();
    assert_eq!(adjacency.len(), 3);
    assert!(adjacency.is_square());
    for i in 0..3 {
        for j in 0..3 {
            assert!(!adjacency.get(i, j, 0));
            assert!(!adjacency.get(i, j, 1));
        }
    }
    adjacency.set(1, 2, 0, true);
    assert!(adjacency.get(1, 2, 0));
    assert!(!adjacency.get(1, 2, 1));
    assert!(!adjacency.get(2, 1, 0));
    adjacency.set(1, 2, 0, false);
    assert!(!adjacency.get(1, 2, 0));
    assert_eq!(Adjacency::new(0).err(), Some(WfcError::InvalidAtlas(AtlasFault::Empty)));
    assert_eq!(
        Adjacency::new(usize::MAX).err(),
        Some(WfcError::InvalidAtlas(AtlasFault::TooLarge))
    );
}

#[test]
fn rules_follow_the_adjacency_table() {
    // Tile 1 may stand east of tile 0, tile 2 north of tile 0.
    let adjacency = table(3, &[(0, 1)], &[(0, 2)]);
    let rules = Rules::new(&adjacency, vec![3, 1, 2]).unwrap();
    assert_eq!(rules.len(), 3);
    assert_eq!(rules.frequencies(), &vec![3, 1, 2]);
    assert_eq!(rules.max_frequency(), Some(3));
    assert!(rules.allows(0, Direction::East, 1));
    assert!(rules.allows(1, Direction::West, 0));
    assert!(rules.allows(0, Direction::North, 2));
    assert!(rules.allows(2, Direction::South, 0));
    assert!(!rules.allows(1, Direction::East, 0));
    assert!(!rules.allows(0, Direction::West, 1));
    assert!(!rules.allows(2, Direction::North, 0));
    assert!(!rules.allows(0, Direction::East, 7));
    assert_eq!(tiles_in(rules.mask(0, Direction::East)), vec![1]);
    assert_eq!(tiles_in(rules.mask(0, Direction::South)), Vec::<usize>::new());
}

#[test]
fn rules_are_symmetric() {
    let adjacency = table(4, &[(0, 1), (1, 1), (2, 3), (3, 0)], &[(0, 0), (1, 2), (3, 1)]);
    let rules = Rules::new(&adjacency, vec![1, 2, 3, 4]).unwrap();
    for t in 0..4 {
        for u in 0..4 {
            for d in DIRECTIONS {
                assert_eq!(rules.allows(t, d, u), rules.allows(u, d.opposite(), t));
            }
        }
    }
}

#[test]
fn rules_give_their_adjacency_table_back() {
    let adjacency = table(3, &[(0, 1), (2, 2)], &[(1, 0), (2, 1)]);
    let rules = Rules::new(&adjacency, vec![1, 1, 1]).unwrap();
    let back = rules.adjacency_matrix().unwrap();
    for i in 0..3 {
        for j in 0..3 {
            for axis in 0..2 {
                assert_eq!(back.get(i, j, axis), adjacency.get(i, j, axis));
            }
        }
    }
}

#[test]
fn rules_refuse_bad_input() {
    let adjacency = table(2, &[], &[]);
    let err = |r: Result<Rules, WfcError>| r.err();
    assert_eq!(
        err(Rules::new(&adjacency, vec![])),
        Some(WfcError::InvalidAtlas(AtlasFault::Empty))
    );
    assert_eq!(
        err(Rules::new(&adjacency, vec![1, 1, 1])),
        Some(WfcError::InvalidAtlas(AtlasFault::ShapeMismatch))
    );
    assert_eq!(
        err(Rules::new(&adjacency, vec![1, 0])),
        Some(WfcError::InvalidAtlas(AtlasFault::ZeroFrequency))
    );
    assert_eq!(
        err(Rules::new(&adjacency, vec![usize::MAX, 1])),
        Some(WfcError::InvalidAtlas(AtlasFault::FrequencyOverflow))
    );
    assert_eq!(
        err(Rules::new(&adjacency, vec![usize::MAX, 0])),
        Some(WfcError::InvalidAtlas(AtlasFault::ZeroFrequency))
    );
    assert!(Rules::new(&adjacency, vec![usize::MAX - 1, 1]).is_ok());
}

fn symmetric_rules() -> Vec<Rule> {
    // 0 below 1, 1 left of 2, 2 next to itself.
    vec![
        Rule::new(vec![1], vec![], vec![], vec![]),
        Rule::new(vec![], vec![2], vec![0], vec![]),
        Rule::new(vec![], vec![2], vec![], vec![1, 2]),
    ]
}

#[test]
fn rule_sets_accept_symmetric_rules() {
    let set = RuleSet::new(symmetric_rules()).unwrap();
    assert_eq!(set.num_tiles(), 3);
    assert_eq!(set.num_rules(), 6);
    assert_eq!(set.checked_num_rules(), Some(6));
    assert_eq!(set.rule(1).east, vec![2]);
    assert_eq!(set.rule(1).num_rules(), 2);
    assert_eq!(set.rule(2).list(Direction::West), &vec![1, 2]);
}

#[test]
fn rule_sets_accept_permuted_symmetric_rules() {
    // The same relation with the tiles renamed 0 -> 2, 1 -> 0, 2 -> 1.
    let rules = vec![
        Rule::new(vec![], vec![1], vec![2], vec![]),
        Rule::new(vec![], vec![1], vec![], vec![0, 1]),
        Rule::new(vec![0], vec![], vec![], vec![]),
    ];
    assert!(RuleSet::new(rules).is_ok());
}

#[test]
fn rule_sets_refuse_asymmetric_rules() {
    for side in 0..4 {
        let mut rules = symmetric_rules();
        // Tile 0 allows tile 2 on one side; tile 2 does not allow it back.
        match side {
            0 => rules[0].north.push(2),
            1 => rules[0].east.push(2),
            2 => rules[0].south.push(2),
            _ => rules[0].west.push(2),
        }
        assert_eq!(
            RuleSet::new(rules).err(),
            Some(WfcError::InvalidAtlas(AtlasFault::Asymmetric))
        );
    }
    let mut rules = symmetric_rules();
    rules[1].south.clear();
    assert_eq!(RuleSet::new(rules).err(), Some(WfcError::InvalidAtlas(AtlasFault::Asymmetric)));
}

#[test]
fn rule_sets_refuse_unknown_tiles_and_emptiness() {
    let mut rules = symmetric_rules();
    rules[2].north.push(3);
    assert_eq!(
        RuleSet::new(rules).err(),
        Some(WfcError::InvalidAtlas(AtlasFault::IndexOutOfRange))
    );
    assert_eq!(RuleSet::new(vec![]).err(), Some(WfcError::InvalidAtlas(AtlasFault::Empty)));
}

#[test]
fn rules_copy_their_lists() {
    let rule = Rule::new(vec![1, 2], vec![3], vec![], vec![4]);
    let copy = rule.duplicate();
    assert_eq!(copy.north, vec![1, 2]);
    assert_eq!(copy.east, vec![3]);
    assert_eq!(copy.south, Vec::<usize>::new());
    assert_eq!(copy.west, vec![4]);
}
