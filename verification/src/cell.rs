//! One position of a map.

use crate::bitset::{
    bits_of, bitset_insert, bitset_insert_all, bitset_wf, bitset_with_capacity, capacity_of,
};
use fixedbitset::FixedBitSet;
use vstd::prelude::*;
use vstd::set_lib::*;

verus! {

/// What a map holds at one position.
#[derive(Clone, Copy, Debug, PartialEq, Eq, Structural)]
pub enum Cell {
    /// The position takes no part in generation and stays a hole.
    Ignore,
    /// Any tile may come to stand here.
    Wildcard,
    /// The position holds the tile with this index.
    Fixed(usize),
}

/// The candidates of a cell among `num_tiles` tiles: none for a hole, all
/// for a wildcard, the one tile for a fixed cell.
pub open spec fn cell_domain(cell: Cell, num_tiles: nat) -> Set<int> {
    match cell {
        Cell::Ignore => Set::<int>::empty(),
        Cell::Wildcard => set_int_range(0, num_tiles as int),
        Cell::Fixed(i) => set![i as int],
    }
}

/// Whether a cell fits a rule table of `num_tiles` tiles.
pub open spec fn cell_fits(cell: Cell, num_tiles: nat) -> bool {
    cell matches Cell::Fixed(i) ==> i < num_tiles
}

/// The number of candidates of a cell among `num_tiles` tiles.
pub open spec fn cell_domain_size(cell: Cell, num_tiles: nat) -> nat {
    match cell {
        Cell::Ignore => 0,
        Cell::Wildcard => num_tiles,
        Cell::Fixed(_) => 1,
    }
}

/// The candidate set of a cell is finite, lies below `num_tiles` and has
/// the size that `cell_domain_size` gives.
pub proof fn lemma_cell_domain(cell: Cell, num_tiles: nat)
    requires
        cell_fits(cell, num_tiles),
    ensures
        cell_domain(cell, num_tiles).finite(),
        cell_domain(cell, num_tiles).len() == cell_domain_size(cell, num_tiles),
        forall|k: int| #[trigger] cell_domain(cell, num_tiles).contains(k) ==> 0 <= k < num_tiles,
{
    lemma_int_range(0, num_tiles as int);
    match cell {
        Cell::Fixed(i) => {
            assert(set![i as int] =~= Set::<int>::empty().insert(i as int));
        },
        _ => {},
    }
}

impl Cell {
    /// The candidates of this cell as a bit set over `num_tiles` tiles.
    /// A fixed cell must name one of those tiles.
    pub fn domain(&self, num_tiles: usize) -> (r: FixedBitSet)
        requires
            cell_fits(*self, num_tiles as nat),
        ensures
            bits_of(r) == cell_domain(*self, num_tiles as nat),
            capacity_of(r) == num_tiles,
            bitset_wf(r),
    {
        let mut bs = bitset_with_capacity(num_tiles);
        match self {
            Cell::Ignore => {},
            Cell::Wildcard => {
                bitset_insert_all(&mut bs);
            },
            Cell::Fixed(n) => {
                bitset_insert(&mut bs, *n);
                assert(bits_of(bs) =~= set![*n as int]);
            },
        }
        proof {
            lemma_cell_domain(*self, num_tiles as nat);
        }
        bs
    }

    /// Whether the cell takes part in generation.
    pub fn participates(&self) -> (r: bool)
        ensures
            r == (*self != Cell::Ignore),
    {
        match self {
            Cell::Ignore => false,
            _ => true,
        }
    }
}

} // verus!
