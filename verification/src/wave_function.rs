//! What it means to solve a map, and the interface every solver offers.

use crate::cell::{cell_domain, Cell};
use crate::direction::{step, Direction};
use crate::error::{MapFault, WfcError};
use crate::map::{cells_fit, same_shape, TileMap};
use crate::rules::Rules;
use rand::rngs::StdRng;
use vstd::prelude::*;

verus! {

/// The tile of a fixed cell, and minus one for a cell that is not fixed.
pub open spec fn tile_at(grid: Seq<Seq<Cell>>, y: int, x: int) -> int {
    match grid[y][x] {
        Cell::Fixed(i) => i as int,
        _ => -1,
    }
}

/// Whether `(y, x)` is a position of the grid whose cell is no hole.
pub open spec fn takes_part(grid: Seq<Seq<Cell>>, y: int, x: int) -> bool {
    0 <= y < grid.len() && 0 <= x < grid[y].len() && grid[y][x] != Cell::Ignore
}

/// Whether `(y, x)` and its neighbour in direction `d` are both positions
/// of the grid whose cells are no holes.
pub open spec fn neighbours_in(grid: Seq<Seq<Cell>>, y: int, x: int, d: Direction) -> bool {
    takes_part(grid, y, x) && takes_part(grid, step(d, y, x).0, step(d, y, x).1)
}

/// Whether `result` is a solution of `template` under `rules`:
///
/// - both have the same shape, and the holes of the template are the holes
///   of the result;
/// - every other cell of the result is fixed to a tile that the template
///   admits there: the same tile where the template is fixed, any tile of
///   the rules where it is a wildcard;
/// - for every two neighbouring cells that are no holes, the tile of the
///   neighbour is allowed on that side of the tile of the cell.
pub open spec fn solves(template: Seq<Seq<Cell>>, rules: Rules, result: Seq<Seq<Cell>>) -> bool {
    &&& same_shape(result, template)
    &&& forall|y: int, x: int|
        0 <= y < template.len() && 0 <= x < template[y].len() && template[y][x] == Cell::Ignore
            ==> #[trigger] result[y][x] == Cell::Ignore
    &&& forall|y: int, x: int|
        takes_part(template, y, x) ==> (#[trigger] result[y][x]) is Fixed && cell_domain(
            template[y][x],
            rules.tiles(),
        ).contains(tile_at(result, y, x))
    &&& forall|y: int, x: int, d: Direction| #[trigger]
        neighbours_in(template, y, x, d) ==> rules.allowed(tile_at(result, y, x), d).contains(
            tile_at(result, step(d, y, x).0, step(d, y, x).1),
        )
}

/// A solver: a way to fill a map template under a table of rules.
pub trait WaveFunction {
    /// Fills the wildcards of `map`. Every map that is returned is a
    /// solution of the template. A template with a fixed cell that names
    /// no tile of the rules is refused.
    fn collapse(map: &TileMap, rules: &Rules, rng: &mut StdRng) -> (r: Result<TileMap, WfcError>)
        requires
            map.wf(),
            rules.wf(),
        ensures
            r matches Ok(m) ==> m.wf() && solves(map@, *rules, m@),
            !cells_fit(map@, rules.tiles()) ==> r == Err::<TileMap, WfcError>(
                WfcError::InvalidMap(MapFault::IndexOutOfRange),
            ),
    ;
}

} // verus!
