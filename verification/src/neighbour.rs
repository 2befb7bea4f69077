//! A cell's neighbour as the solver stores it.

use crate::direction::Direction;
use vstd::prelude::*;

verus! {

/// One neighbour of a cell: where it is, in which direction it lies, and
/// the direction that leads back.
#[derive(Clone, Copy, Debug)]
pub struct Neighbour {
    pub pos: (usize, usize),
    pub dir: Direction,
    pub opp_dir: Direction,
}

} // verus!
