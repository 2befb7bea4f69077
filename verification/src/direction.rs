//! The four orthogonal directions of the grid.
//!
//! Rows grow southwards and columns grow eastwards, so the northern
//! neighbour of a cell sits one row above it.

use vstd::prelude::*;

verus! {

/// One of the four sides of a cell or of a patch.
#[derive(Clone, Copy, Debug, PartialEq, Eq, Structural)]
pub enum Direction {
    North,
    East,
    South,
    West,
}

/// The position of a direction in every table indexed by direction:
/// north 0, east 1, south 2, west 3.
pub open spec fn index_of(d: Direction) -> int {
    match d {
        Direction::North => 0,
        Direction::East => 1,
        Direction::South => 2,
        Direction::West => 3,
    }
}

/// The direction that points the other way.
pub open spec fn opposite_of(d: Direction) -> Direction {
    match d {
        Direction::North => Direction::South,
        Direction::East => Direction::West,
        Direction::South => Direction::North,
        Direction::West => Direction::East,
    }
}

/// The cell reached from row `y`, column `x` by one step in direction `d`,
/// as mathematical integers and without regard to any bounds.
pub open spec fn step(d: Direction, y: int, x: int) -> (int, int) {
    match d {
        Direction::North => (y - 1, x),
        Direction::East => (y, x + 1),
        Direction::South => (y + 1, x),
        Direction::West => (y, x - 1),
    }
}

/// Whether one step in direction `d` from `(y, x)` stays inside a grid of
/// `height` rows and `width` columns.
pub open spec fn step_in_bounds(d: Direction, y: int, x: int, height: int, width: int) -> bool {
    let (ny, nx) = step(d, y, x);
    0 <= ny < height && 0 <= nx < width
}

/// The four directions in index order.
pub open spec fn all_directions() -> Seq<Direction> {
    seq![Direction::North, Direction::East, Direction::South, Direction::West]
}

impl Direction {
    /// The direction with the given index. Indices above three name no
    /// direction.
    pub fn from_index(index: usize) -> (d: Direction)
        requires
            index < 4,
        ensures
            index_of(d) == index,
    {
        if index == 0 {
            Direction::North
        } else if index == 1 {
            Direction::East
        } else if index == 2 {
            Direction::South
        } else {
            Direction::West
        }
    }

    /// The index of this direction in tables indexed by direction.
    pub fn index(self) -> (i: usize)
        ensures
            i == index_of(self),
            i < 4,
    {
        match self {
            Direction::North => 0,
            Direction::East => 1,
            Direction::South => 2,
            Direction::West => 3,
        }
    }

    /// The direction that points the other way.
    pub fn opposite(self) -> (o: Direction)
        ensures
            o == opposite_of(self),
    {
        match self {
            Direction::North => Direction::South,
            Direction::East => Direction::West,
            Direction::South => Direction::North,
            Direction::West => Direction::East,
        }
    }

    /// One step from `position` in this direction, or `None` where that
    /// leaves a grid of `bounds.0` rows and `bounds.1` columns.
    pub fn apply_to(self, position: (usize, usize), bounds: (usize, usize)) -> (r: Option<
        (usize, usize),
    >)
        ensures
            r.is_some() == step_in_bounds(
                self,
                position.0 as int,
                position.1 as int,
                bounds.0 as int,
                bounds.1 as int,
            ),
            r matches Some(p) ==> (p.0 as int, p.1 as int) == step(
                self,
                position.0 as int,
                position.1 as int,
            ),
    {
        let (y, x) = position;
        let (height, width) = bounds;
        match self {
            Direction::North => {
                if y > 0 && y - 1 < height && x < width {
                    Some((y - 1, x))
                } else {
                    None
                }
            },
            Direction::East => {
                if x < usize::MAX && x + 1 < width && y < height {
                    Some((y, x + 1))
                } else {
                    None
                }
            },
            Direction::South => {
                if y < usize::MAX && y + 1 < height && x < width {
                    Some((y + 1, x))
                } else {
                    None
                }
            },
            Direction::West => {
                if x > 0 && x - 1 < width && y < height {
                    Some((y, x - 1))
                } else {
                    None
                }
            },
        }
    }
}

/// The four directions in index order.
pub fn directions() -> (r: [Direction; 4])
    ensures
        r@ == all_directions(),
{
    [Direction::North, Direction::East, Direction::South, Direction::West]
}

} // verus!
