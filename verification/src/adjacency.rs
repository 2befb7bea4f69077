//! The pairwise adjacency relation in the form in which it is learned and
//! stored: for every ordered pair of tiles, whether the second may stand
//! east of the first and whether it may stand north of it.

use crate::direction::Direction;
use crate::error::{AtlasFault, WfcError};
use crate::grid::{
    adjacency_at, adjacency_at_mut, adjacency_dims, adjacency_empty, adjacency_of, adjacency_square,
    put, Adjacency,
};
use vstd::prelude::*;

verus! {

/// The axis of an adjacency table that speaks of eastern neighbours.
pub const AXIS_EAST: usize = 0;

/// The axis of an adjacency table that speaks of northern neighbours.
pub const AXIS_NORTH: usize = 1;

/// Whether `table` lets tile `u` stand on side `d` of tile `t`. East and
/// north are read off the table; west and south are their mirror images.
pub open spec fn adjacent(table: Seq<Seq<Seq<bool>>>, t: int, u: int, d: Direction) -> bool {
    match d {
        Direction::North => table[t][u][1],
        Direction::East => table[t][u][0],
        Direction::South => table[u][t][1],
        Direction::West => table[u][t][0],
    }
}

impl View for Adjacency {
    type V = Seq<Seq<Seq<bool>>>;

    open spec fn view(&self) -> Seq<Seq<Seq<bool>>> {
        adjacency_of(*self)
    }
}

impl Adjacency {
    /// The number of tiles the table speaks of.
    pub open spec fn tiles(&self) -> nat {
        self@.len()
    }

    /// Whether the table is `n` by `n` by two for its number `n` of tiles.
    pub open spec fn wf(&self) -> bool {
        adjacency_square(self@, self.tiles())
    }

    /// A table over `n` tiles that allows nothing. It is refused for no
    /// tile, and for so many that the table would not fit in memory.
    pub fn new(n: usize) -> (r: Result<Adjacency, WfcError>)
        ensures
            match r {
                Ok(a) => {
                    &&& n > 0
                    &&& 2 * n * n <= isize::MAX
                    &&& a.wf()
                    &&& a.tiles() == n
                    &&& forall|i: int, j: int, k: int|
                        0 <= i < n && 0 <= j < n && 0 <= k < 2 ==> #[trigger] a@[i][j][k] == false
                },
                Err(e) => {
                    &&& n == 0 ==> e == WfcError::InvalidAtlas(AtlasFault::Empty)
                    &&& n > 0 ==> e == WfcError::InvalidAtlas(AtlasFault::TooLarge) && 2 * n * n
                        > isize::MAX
                },
            },
    {
        if n == 0 {
            return Err(WfcError::InvalidAtlas(AtlasFault::Empty));
        }
        let limit: usize = isize::MAX as usize;
        if n > limit / 2 / n {
            assert(2 * n * n > isize::MAX) by (nonlinear_arith)
                requires
                    n > 0,
                    n > (limit / 2) / n,
                    limit == isize::MAX,
            {
                // n >= limit/2/n + 1, so n*n >= (limit/2/n + 1) * n > limit/2,
                // hence n*n >= limit/2 + 1 and 2*n*n >= 2*(limit/2) + 2 > limit.
                assert(n * n >= ((limit / 2) / n + 1) * n);
                assert(((limit / 2) / n + 1) * n > limit / 2);
            }
            return Err(WfcError::InvalidAtlas(AtlasFault::TooLarge));
        }
        assert(2 * n * n <= isize::MAX) by (nonlinear_arith)
            requires
                n > 0,
                n <= (limit / 2) / n,
                limit == isize::MAX,
        {
            assert(n * n <= ((limit / 2) / n) * n);
            assert(((limit / 2) / n) * n <= limit / 2);
        }
        Ok(adjacency_empty(n))
    }

    /// The number of tiles the table speaks of.
    pub fn len(&self) -> (n: usize)
        ensures
            n == self.tiles(),
    {
        adjacency_dims(self).0
    }

    /// Whether the table is `n` by `n` by two with at least one tile.
    pub fn is_square(&self) -> (r: bool)
        ensures
            r == (self.wf() && self.tiles() > 0),
    {
        let (a, b, c) = adjacency_dims(self);
        let r = a > 0 && b == a && c == 2;
        proof {
            if self.wf() && self.tiles() > 0 {
                assert(self@[0].len() == a);
                assert(self@[0][0].len() == 2);
            }
        }
        r
    }

    /// The entry for the ordered pair `(i, j)` on `axis`.
    pub fn get(&self, i: usize, j: usize, axis: usize) -> (r: bool)
        requires
            self.wf(),
            i < self.tiles(),
            j < self.tiles(),
            axis < 2,
        ensures
            r == self@[i as int][j as int][axis as int],
    {
        adjacency_at(self, i, j, axis)
    }

    /// Writes the entry for the ordered pair `(i, j)` on `axis` and leaves
    /// every other entry as it was.
    pub fn set(&mut self, i: usize, j: usize, axis: usize, value: bool)
        requires
            old(self).wf(),
            i < old(self).tiles(),
            j < old(self).tiles(),
            axis < 2,
        ensures
            final(self).wf(),
            final(self).tiles() == old(self).tiles(),
            final(self)@[i as int][j as int][axis as int] == value,
            forall|a: int, b: int, c: int|
                0 <= a < old(self).tiles() && 0 <= b < old(self).tiles() && 0 <= c < 2 && !(a == i
                    && b == j && c == axis) ==> #[trigger] final(self)@[a][b][c] == old(self)@[a][b][c],
    {
        let slot = adjacency_at_mut(self, i, j, axis);
        *slot = value;
        proof {
            let before = old(self)@;
            let after = before.update(i as int, put(before[i as int], j as int, axis as int, value));
            assert(self@ == after);
            assert forall|a: int| 0 <= a < after.len() implies (#[trigger] after[a]).len()
                == after.len() by {
                assert(before[a].len() == before.len());
            }
            assert forall|a: int, b: int| 0 <= a < after.len() && 0 <= b < after.len() implies (
            #[trigger] after[a][b]).len() == 2 by {
                assert(before[a][b].len() == 2);
            }
        }
    }
}

} // verus!
