//! The map: a rectangular grid of cells.

use crate::bitset::bitset_with_capacity;
use crate::bitset::{bits_of, bitset_wf, capacity_of};
use crate::cell::{cell_domain, cell_fits, Cell};
use crate::direction::{opposite_of, Direction};
use crate::error::{MapFault, WfcError};
use crate::grid::{
    cell_grid_at, cell_grid_at_mut, cell_grid_dims, cell_grid_filled, cell_rows, domain_grid_at_mut,
    domain_grid_filled, domain_rows, mask_grid_at_mut, mask_grid_filled, mask_rows, put,
    rectangular, shape_fits, CellGrid, DomainGrid, MaskGrid,
};
use crate::rules::Rules;
use crate::wave_function::{solves, WaveFunction};
use rand::rngs::StdRng;
use vstd::prelude::*;

verus! {

/// Whether `rows` is a grid with at least one row and one column whose
/// number of entries `ndarray` accepts.
pub open spec fn grid_shaped<T>(rows: Seq<Seq<T>>) -> bool {
    &&& rows.len() > 0
    &&& rectangular(rows, rows.len(), rows[0].len())
    &&& shape_fits(rows.len(), rows[0].len())
}

/// Whether two grids have the same number of rows and columns.
pub open spec fn same_shape<S, T>(a: Seq<Seq<S>>, b: Seq<Seq<T>>) -> bool {
    &&& a.len() == b.len()
    &&& forall|y: int| 0 <= y < a.len() ==> (#[trigger] a[y]).len() == (#[trigger] b[y]).len()
}

/// Whether every fixed cell of `rows` names one of `num_tiles` tiles.
pub open spec fn cells_fit(rows: Seq<Seq<Cell>>, num_tiles: nat) -> bool {
    forall|y: int, x: int|
        0 <= y < rows.len() && 0 <= x < rows[y].len() ==> cell_fits(
            #[trigger] rows[y][x],
            num_tiles,
        )
}

/// Whether `m` is an upper bound of the tile indices of the fixed cells of
/// `rows`.
pub open spec fn bounds_indices(rows: Seq<Seq<Cell>>, m: usize) -> bool {
    forall|y: int, x: int|
        0 <= y < rows.len() && 0 <= x < rows[y].len() ==> ((#[trigger] rows[y][x]) matches Cell::Fixed(
            i,
        ) ==> i <= m)
}

/// Whether some cell of `rows` is fixed to tile `m`.
pub open spec fn holds_index(rows: Seq<Seq<Cell>>, m: usize) -> bool {
    exists|y: int, x: int|
        0 <= y < rows.len() && 0 <= x < rows[y].len() && #[trigger] rows[y][x] == Cell::Fixed(m)
}

/// Whether some cell of `rows` is fixed.
pub open spec fn holds_fixed(rows: Seq<Seq<Cell>>) -> bool {
    exists|y: int, x: int|
        0 <= y < rows.len() && 0 <= x < rows[y].len() && (#[trigger] rows[y][x]) is Fixed
}

/// The reason for which `rows` make no map, or `None` where they do.
pub open spec fn rows_fault(rows: Seq<Vec<Cell>>) -> Option<WfcError> {
    if rows.len() == 0 || rows[0]@.len() == 0 {
        Some(WfcError::InvalidMap(MapFault::Empty))
    } else if exists|y: int| 0 <= y < rows.len() && (#[trigger] rows[y])@.len() != rows[0]@.len() {
        Some(WfcError::InvalidMap(MapFault::RaggedRows))
    } else if rows.len() * rows[0]@.len() > isize::MAX {
        Some(WfcError::InvalidMap(MapFault::TooLarge))
    } else {
        None
    }
}

/// Whether a strip of `border_size` rows or columns on side `d` leaves a
/// map of the given size with something besides the strip.
pub open spec fn border_fits(d: Direction, border_size: nat, height: nat, width: nat) -> bool {
    match d {
        Direction::North | Direction::South => 0 < border_size < height,
        Direction::East | Direction::West => 0 < border_size < width,
    }
}

/// Whether a map of the given size has a strip of `border_size` rows or
/// columns on the sides across direction `d`: the strip may be the whole
/// map.
pub open spec fn border_within(d: Direction, border_size: nat, height: nat, width: nat) -> bool {
    match d {
        Direction::North | Direction::South => border_size <= height,
        Direction::East | Direction::West => border_size <= width,
    }
}

/// Whether `(y, x)` lies in the strip of `border_size` rows or columns on
/// side `d` of a map of the given size.
pub open spec fn in_strip(
    d: Direction,
    border_size: nat,
    height: nat,
    width: nat,
    y: int,
    x: int,
) -> bool {
    match d {
        Direction::North => y < border_size,
        Direction::South => y >= height - border_size,
        Direction::West => x < border_size,
        Direction::East => x >= width - border_size,
    }
}

/// The position in the strip on the opposite side that corresponds to the
/// position `(y, x)` in the strip on side `d`: the strip is moved across
/// the map without being turned.
pub open spec fn across(
    d: Direction,
    border_size: nat,
    height: nat,
    width: nat,
    y: int,
    x: int,
) -> (int, int) {
    match d {
        Direction::North => (height - border_size + y, x),
        Direction::South => (y - (height - border_size), x),
        Direction::West => (y, width - border_size + x),
        Direction::East => (y, x - (width - border_size)),
    }
}

/// The cell of the bordering chunk of `source` towards `d` at `(y, x)`:
/// the strip of `source` on side `d`, moved to the opposite side, and
/// wildcards elsewhere.
pub open spec fn bordering_cell(
    source: Seq<Seq<Cell>>,
    d: Direction,
    border_size: nat,
    y: int,
    x: int,
) -> Cell {
    let height = source.len();
    let width = source[0].len();
    let o = opposite_of(d);
    if in_strip(o, border_size, height, width, y, x) {
        let p = across(o, border_size, height, width, y, x);
        source[p.0][p.1]
    } else {
        Cell::Wildcard
    }
}

/// The cell at `(y, x)` of a map `own` after it has taken over, on its
/// side `d`, the strip that `other` has on the opposite side.
pub open spec fn shared_cell(
    own: Seq<Seq<Cell>>,
    other: Seq<Seq<Cell>>,
    d: Direction,
    border_size: nat,
    y: int,
    x: int,
) -> Cell {
    if in_strip(d, border_size, own.len(), own[0].len(), y, x) {
        let p = donor(d, border_size, own, other, y, x);
        other[p.0][p.1]
    } else {
        own[y][x]
    }
}

/// The position in the strip of `other` opposite to `d` that corresponds
/// to the position `(y, x)` in the strip of `own` on side `d`.
pub open spec fn donor(
    d: Direction,
    border_size: nat,
    own: Seq<Seq<Cell>>,
    other: Seq<Seq<Cell>>,
    y: int,
    x: int,
) -> (int, int) {
    match d {
        Direction::North => (other.len() - border_size + y, x),
        Direction::South => (y - (own.len() - border_size), x),
        Direction::West => (y, other[0].len() - border_size + x),
        Direction::East => (y, x - (own[0].len() - border_size)),
    }
}

/// Whether two maps agree in the dimension along a border on side `d`.
pub open spec fn border_matches(d: Direction, own: Seq<Seq<Cell>>, other: Seq<Seq<Cell>>) -> bool {
    match d {
        Direction::North | Direction::South => own[0].len() == other[0].len(),
        Direction::East | Direction::West => own.len() == other.len(),
    }
}

/// A rectangular grid of cells with at least one row and one column.
pub struct TileMap {
    cells: CellGrid,
}

impl View for TileMap {
    type V = Seq<Seq<Cell>>;

    closed spec fn view(&self) -> Seq<Seq<Cell>> {
        cell_rows(self.cells)
    }
}

impl TileMap {
    /// The number of rows.
    pub open spec fn rows(&self) -> nat {
        self@.len()
    }

    /// The number of columns.
    pub open spec fn cols(&self) -> nat {
        self@[0].len()
    }

    /// What holds of every map that exists: it is a rectangle with at
    /// least one row and one column.
    pub open spec fn wf(&self) -> bool {
        grid_shaped(self@)
    }

    /// An all-wildcard map of `size.0` rows and `size.1` columns. Neither
    /// may be zero, and their product must be a size `ndarray` accepts.
    pub fn empty(size: (usize, usize)) -> (m: TileMap)
        requires
            shape_fits(size.0 as nat, size.1 as nat),
        ensures
            m.wf(),
            m.rows() == size.0,
            m.cols() == size.1,
            forall|y: int, x: int|
                0 <= y < size.0 && 0 <= x < size.1 ==> #[trigger] m@[y][x] == Cell::Wildcard,
    {
        TileMap { cells: cell_grid_filled(size.0, size.1, Cell::Wildcard) }
    }

    /// The map with the given rows. The rows are refused if there is no
    /// cell, if two rows differ in length, or if there are more cells than
    /// a table in memory can hold; in that order.
    pub fn new(rows: &Vec<Vec<Cell>>) -> (r: Result<TileMap, WfcError>)
        ensures
            match r {
                Ok(m) => {
                    &&& m.wf()
                    &&& m.rows() == rows@.len()
                    &&& forall|y: int| 0 <= y < rows@.len() ==> #[trigger] m@[y] == rows@[y]@
                },
                Err(e) => Some(e) == rows_fault(rows@),
            },
            r.is_ok() <==> rows_fault(rows@).is_none(),
    {
        let height = rows.len();
        if height == 0 {
            return Err(WfcError::InvalidMap(MapFault::Empty));
        }
        let width = rows[0].len();
        if width == 0 {
            return Err(WfcError::InvalidMap(MapFault::Empty));
        }
        let mut y: usize = 0;
        while y < height
            invariant
                y <= height,
                height == rows@.len(),
                height > 0,
                width == rows@[0]@.len(),
                width > 0,
                forall|k: int| 0 <= k < y ==> (#[trigger] rows@[k])@.len() == width,
            decreases height - y,
        {
            if rows[y].len() != width {
                return Err(WfcError::InvalidMap(MapFault::RaggedRows));
            }
            y += 1;
        }
        let limit: usize = isize::MAX as usize;
        if height > limit / width {
            assert(height * width > isize::MAX) by (nonlinear_arith)
                requires
                    width > 0,
                    height > limit / width,
                    limit == isize::MAX,
            {
                assert(height * width >= (limit / width + 1) * width);
            }
            return Err(WfcError::InvalidMap(MapFault::TooLarge));
        }
        assert(height * width <= isize::MAX) by (nonlinear_arith)
            requires
                width > 0,
                height <= limit / width,
                limit == isize::MAX,
        {
            assert(height * width <= (limit / width) * width);
        }
        let mut cells = cell_grid_filled(height, width, Cell::Wildcard);
        let mut y: usize = 0;
        while y < height
            invariant
                y <= height,
                height == rows@.len(),
                width > 0,
                height > 0,
                shape_fits(height as nat, width as nat),
                forall|k: int| 0 <= k < height ==> (#[trigger] rows@[k])@.len() == width,
                rectangular(cell_rows(cells), height as nat, width as nat),
                forall|k: int| 0 <= k < y ==> #[trigger] cell_rows(cells)[k] == rows@[k]@,
            decreases height - y,
        {
            let mut x: usize = 0;
            while x < width
                invariant
                    x <= width,
                    y < height,
                    height == rows@.len(),
                    forall|k: int| 0 <= k < height ==> (#[trigger] rows@[k])@.len() == width,
                    rectangular(cell_rows(cells), height as nat, width as nat),
                    forall|k: int| 0 <= k < y ==> #[trigger] cell_rows(cells)[k] == rows@[k]@,
                    forall|k: int|
                        0 <= k < x ==> #[trigger] cell_rows(cells)[y as int][k] == rows@[y as int]@[k],
                decreases width - x,
            {
                let value = rows[y][x];
                let slot = cell_grid_at_mut(&mut cells, y, x);
                *slot = value;
                x += 1;
            }
            assert(cell_rows(cells)[y as int] =~= rows@[y as int]@);
            y += 1;
        }
        Ok(TileMap { cells })
    }

    /// The number of rows.
    pub fn height(&self) -> (h: usize)
        requires
            self.wf(),
        ensures
            h == self.rows(),
            h > 0,
    {
        cell_grid_dims(&self.cells).0
    }

    /// The number of columns.
    pub fn width(&self) -> (w: usize)
        requires
            self.wf(),
        ensures
            w == self.cols(),
            w > 0,
    {
        cell_grid_dims(&self.cells).1
    }

    /// The number of rows and the number of columns.
    pub fn size(&self) -> (s: (usize, usize))
        requires
            self.wf(),
        ensures
            s.0 == self.rows(),
            s.1 == self.cols(),
            shape_fits(s.0 as nat, s.1 as nat),
    {
        cell_grid_dims(&self.cells)
    }

    /// The cell in row `pos.0`, column `pos.1`.
    pub fn get(&self, pos: (usize, usize)) -> (c: Cell)
        requires
            self.wf(),
            pos.0 < self.rows(),
            pos.1 < self.cols(),
        ensures
            c == self@[pos.0 as int][pos.1 as int],
    {
        cell_grid_at(&self.cells, pos.0, pos.1)
    }

    /// Writes the cell in row `pos.0`, column `pos.1` and leaves every
    /// other cell as it was.
    pub fn set(&mut self, pos: (usize, usize), cell: Cell)
        requires
            old(self).wf(),
            pos.0 < old(self).rows(),
            pos.1 < old(self).cols(),
        ensures
            final(self).wf(),
            final(self)@ == put(old(self)@, pos.0 as int, pos.1 as int, cell),
            final(self).rows() == old(self).rows(),
            final(self).cols() == old(self).cols(),
    {
        let slot = cell_grid_at_mut(&mut self.cells, pos.0, pos.1);
        *slot = cell;
        proof {
            lemma_put_keeps_shape(old(self)@, pos.0 as int, pos.1 as int, cell);
        }
    }

    /// The largest tile index among the fixed cells, or `None` where no
    /// cell is fixed.
    pub fn max_index(&self) -> (r: Option<usize>)
        requires
            self.wf(),
        ensures
            r.is_some() == holds_fixed(self@),
            r matches Some(m) ==> holds_index(self@, m) && bounds_indices(self@, m),
    {
        let (height, width) = self.size();
        let mut best: Option<usize> = None;
        let ghost mut at: (int, int) = (0, 0);
        let mut y: usize = 0;
        while y < height
            invariant
                y <= height,
                self.wf(),
                height == self.rows(),
                width == self.cols(),
                best is None ==> forall|a: int, b: int|
                    0 <= a < y && 0 <= b < width ==> !((#[trigger] self@[a][b]) is Fixed),
                best matches Some(m) ==> 0 <= at.0 < y && 0 <= at.1 < width
                    && self@[at.0][at.1] == Cell::Fixed(m) && forall|a: int, b: int|
                    0 <= a < y && 0 <= b < width ==> ((#[trigger] self@[a][b]) matches Cell::Fixed(
                        i,
                    ) ==> i <= m),
            decreases height - y,
        {
            let mut x: usize = 0;
            while x < width
                invariant
                    x <= width,
                    y < height,
                    self.wf(),
                    height == self.rows(),
                    width == self.cols(),
                    best is None ==> forall|a: int, b: int|
                        0 <= a <= y && 0 <= b < width && (a < y || b < x) ==> !((
                        #[trigger] self@[a][b]) is Fixed),
                    best matches Some(m) ==> 0 <= at.0 <= y && 0 <= at.1 < width && (at.0 < y
                        || at.1 < x) && self@[at.0][at.1] == Cell::Fixed(m) && forall|
                        a: int,
                        b: int,
                    |
                        0 <= a <= y && 0 <= b < width && (a < y || b < x) ==> ((
                        #[trigger] self@[a][b]) matches Cell::Fixed(i) ==> i <= m),
                decreases width - x,
            {
                let cell = self.get((y, x));
                match cell {
                    Cell::Fixed(i) => {
                        match best {
                            Some(m) => {
                                if i > m {
                                    best = Some(i);
                                    proof {
                                        at = (y as int, x as int);
                                    }
                                }
                            },
                            None => {
                                best = Some(i);
                                proof {
                                    at = (y as int, x as int);
                                }
                            },
                        }
                    },
                    _ => {},
                }
                x += 1;
            }
            y += 1;
        }
        proof {
            if best is Some {
                assert(self@[at.0][at.1] is Fixed);
            }
        }
        best
    }

    /// Fills the wildcards of the map with the solver `WF`.
    pub fn collapse<WF: WaveFunction>(&self, rules: &Rules, rng: &mut StdRng) -> (r: Result<
        TileMap,
        WfcError,
    >)
        requires
            self.wf(),
            rules.wf(),
        ensures
            r matches Ok(m) ==> m.wf() && solves(self@, *rules, m@),
            !cells_fit(self@, rules.tiles()) ==> r == Err::<TileMap, WfcError>(
                WfcError::InvalidMap(MapFault::IndexOutOfRange),
            ),
    {
        WF::collapse(self, rules, rng)
    }

    /// The template of a neighbouring chunk: a map of the same size that
    /// is all wildcards, but for the strip of `border_size` rows or columns
    /// on the side opposite to `direction`, which carries the strip this
    /// map has on side `direction`.
    pub fn bordering_chunk(&self, direction: Direction, border_size: usize) -> (chunk: TileMap)
        requires
            self.wf(),
            border_fits(direction, border_size as nat, self.rows(), self.cols()),
        ensures
            chunk.wf(),
            chunk.rows() == self.rows(),
            chunk.cols() == self.cols(),
            forall|y: int, x: int|
                0 <= y < self.rows() && 0 <= x < self.cols() ==> #[trigger] chunk@[y][x]
                    == bordering_cell(self@, direction, border_size as nat, y, x),
    {
        let (height, width) = self.size();
        let back = direction.opposite();
        let mut chunk = TileMap::empty((height, width));
        let mut y: usize = 0;
        while y < height
            invariant
                y <= height,
                self.wf(),
                chunk.wf(),
                height == self.rows(),
                width == self.cols(),
                chunk.rows() == height,
                chunk.cols() == width,
                back == opposite_of(direction),
                border_fits(direction, border_size as nat, height as nat, width as nat),
                forall|a: int, b: int|
                    0 <= a < y && 0 <= b < width ==> #[trigger] chunk@[a][b] == bordering_cell(
                        self@,
                        direction,
                        border_size as nat,
                        a,
                        b,
                    ),
            decreases height - y,
        {
            let mut x: usize = 0;
            while x < width
                invariant
                    x <= width,
                    y < height,
                    self.wf(),
                    chunk.wf(),
                    height == self.rows(),
                    width == self.cols(),
                    chunk.rows() == height,
                    chunk.cols() == width,
                    back == opposite_of(direction),
                    border_fits(direction, border_size as nat, height as nat, width as nat),
                    forall|a: int, b: int|
                        0 <= a <= y && 0 <= b < width && (a < y || b < x) ==> #[trigger] chunk@[a][b]
                            == bordering_cell(self@, direction, border_size as nat, a, b),
                decreases width - x,
            {
                let ghost before = chunk@;
                let cell = match strip_source(back, border_size, height, width, y, x) {
                    Some(p) => self.get(p),
                    None => Cell::Wildcard,
                };
                chunk.set((y, x), cell);
                proof {
                    lemma_put_keeps_shape(before, y as int, x as int, cell);
                    assert forall|a: int, b: int|
                        0 <= a <= y && 0 <= b < width && (a < y || b < x + 1) implies #[trigger] chunk@[a][b]
                        == bordering_cell(self@, direction, border_size as nat, a, b) by {
                        if !(a == y && b == x) {
                            assert(before[a].len() == width);
                        }
                    }
                }
                x += 1;
            }
            y += 1;
        }
        chunk
    }

    /// Overwrites the strip of `border_size` rows or columns on side
    /// `direction` of this map with the strip that `other` has on the
    /// opposite side. The two maps must agree in the dimension along the
    /// border, the strip must leave something of this map, and `other`
    /// must be large enough to have such a strip.
    pub fn set_shared_border(&mut self, other: &TileMap, direction: Direction, border_size: usize)
        requires
            old(self).wf(),
            other.wf(),
            border_fits(direction, border_size as nat, old(self).rows(), old(self).cols()),
            border_within(direction, border_size as nat, other.rows(), other.cols()),
            border_matches(direction, old(self)@, other@),
        ensures
            final(self).wf(),
            final(self).rows() == old(self).rows(),
            final(self).cols() == old(self).cols(),
            forall|y: int, x: int|
                0 <= y < old(self).rows() && 0 <= x < old(self).cols() ==> #[trigger] final(self)@[y][x] == shared_cell(old(self)@, other@, direction, border_size as nat, y, x),
    {
        let (height, width) = self.size();
        let (other_height, other_width) = other.size();
        let mut y: usize = 0;
        while y < height
            invariant
                y <= height,
                self.wf(),
                other.wf(),
                old(self).wf(),
                height == old(self).rows(),
                width == old(self).cols(),
                self.rows() == height,
                self.cols() == width,
                other_height == other.rows(),
                other_width == other.cols(),
                border_fits(direction, border_size as nat, height as nat, width as nat),
                border_within(direction, border_size as nat, other_height as nat, other_width as nat),
                border_matches(direction, old(self)@, other@),
                forall|a: int, b: int|
                    0 <= a < y && 0 <= b < width ==> #[trigger] self@[a][b] == shared_cell(
                        old(self)@,
                        other@,
                        direction,
                        border_size as nat,
                        a,
                        b,
                    ),
                forall|a: int, b: int|
                    y <= a < height && 0 <= b < width ==> #[trigger] self@[a][b] == old(self)@[a][b],
            decreases height - y,
        {
            let mut x: usize = 0;
            while x < width
                invariant
                    x <= width,
                    y < height,
                    self.wf(),
                    other.wf(),
                    old(self).wf(),
                    height == old(self).rows(),
                    width == old(self).cols(),
                    self.rows() == height,
                    self.cols() == width,
                    other_height == other.rows(),
                    other_width == other.cols(),
                    border_fits(direction, border_size as nat, height as nat, width as nat),
                    border_within(
                        direction,
                        border_size as nat,
                        other_height as nat,
                        other_width as nat,
                    ),
                    border_matches(direction, old(self)@, other@),
                    forall|a: int, b: int|
                        0 <= a <= y && 0 <= b < width && (a < y || b < x) ==> #[trigger] self@[a][b]
                            == shared_cell(
                            old(self)@,
                            other@,
                            direction,
                            border_size as nat,
                            a,
                            b,
                        ),
                    forall|a: int, b: int|
                        y <= a < height && 0 <= b < width && (a > y || b >= x) ==> #[trigger] self@[a][b]
                            == old(self)@[a][b],
                decreases width - x,
            {
                let ghost before = self@;
                if in_border(direction, border_size, height, width, y, x) {
                    let p = match direction {
                        Direction::North => (other_height - border_size + y, x),
                        Direction::South => (y - (height - border_size), x),
                        Direction::West => (y, other_width - border_size + x),
                        Direction::East => (y, x - (width - border_size)),
                    };
                    let cell = other.get(p);
                    self.set((y, x), cell);
                    proof {
                        lemma_put_keeps_shape(before, y as int, x as int, cell);
                    }
                }
                proof {
                    assert forall|a: int, b: int|
                        0 <= a <= y && 0 <= b < width && (a < y || b < x + 1) implies #[trigger] self@[a][b]
                        == shared_cell(
                        old(self)@,
                        other@,
                        direction,
                        border_size as nat,
                        a,
                        b,
                    ) by {
                        assert(before[a].len() == width);
                    }
                    assert forall|a: int, b: int|
                        y <= a < height && 0 <= b < width && (a > y || b >= x + 1) implies #[trigger] self@[a][b]
                        == old(self)@[a][b] by {
                        assert(before[a].len() == width);
                    }
                }
                x += 1;
            }
            y += 1;
        }
    }

    /// The table that marks the holes of the map: `true` where the cell is
    /// `Ignore`.
    pub fn mask(&self) -> (g: MaskGrid)
        requires
            self.wf(),
        ensures
            rectangular(mask_rows(g), self.rows(), self.cols()),
            forall|y: int, x: int|
                0 <= y < self.rows() && 0 <= x < self.cols() ==> #[trigger] mask_rows(g)[y][x] == (
                self@[y][x] == Cell::Ignore),
    {
        let (height, width) = self.size();
        let mut g = mask_grid_filled(height, width, false);
        let mut y: usize = 0;
        while y < height
            invariant
                y <= height,
                self.wf(),
                height == self.rows(),
                width == self.cols(),
                rectangular(mask_rows(g), height as nat, width as nat),
                forall|a: int, b: int|
                    0 <= a < y && 0 <= b < width ==> #[trigger] mask_rows(g)[a][b] == (self@[a][b]
                        == Cell::Ignore),
            decreases height - y,
        {
            let mut x: usize = 0;
            while x < width
                invariant
                    x <= width,
                    y < height,
                    self.wf(),
                    height == self.rows(),
                    width == self.cols(),
                    rectangular(mask_rows(g), height as nat, width as nat),
                    forall|a: int, b: int|
                        0 <= a < y && 0 <= b < width ==> #[trigger] mask_rows(g)[a][b] == (
                        self@[a][b] == Cell::Ignore),
                    forall|b: int|
                        0 <= b < x ==> #[trigger] mask_rows(g)[y as int][b] == (self@[y as int][b]
                            == Cell::Ignore),
                decreases width - x,
            {
                let hole = !self.get((y, x)).participates();
                let slot = mask_grid_at_mut(&mut g, y, x);
                *slot = hole;
                x += 1;
            }
            y += 1;
        }
        g
    }

    /// The candidates of every cell among `num_tiles` tiles, as a table of
    /// bit sets. Every fixed cell must name one of those tiles.
    pub fn domains(&self, num_tiles: usize) -> (g: DomainGrid)
        requires
            self.wf(),
            cells_fit(self@, num_tiles as nat),
        ensures
            rectangular(domain_rows(g), self.rows(), self.cols()),
            forall|y: int, x: int|
                0 <= y < self.rows() && 0 <= x < self.cols() ==> bits_of(
                    #[trigger] domain_rows(g)[y][x],
                ) == cell_domain(self@[y][x], num_tiles as nat) && capacity_of(domain_rows(g)[y][x])
                    == num_tiles && bitset_wf(domain_rows(g)[y][x]),
    {
        let (height, width) = self.size();
        let mut g = domain_grid_filled(height, width, bitset_with_capacity(num_tiles));
        let mut y: usize = 0;
        while y < height
            invariant
                y <= height,
                self.wf(),
                cells_fit(self@, num_tiles as nat),
                height == self.rows(),
                width == self.cols(),
                rectangular(domain_rows(g), height as nat, width as nat),
                forall|a: int, b: int|
                    0 <= a < y && 0 <= b < width ==> bits_of(#[trigger] domain_rows(g)[a][b])
                        == cell_domain(self@[a][b], num_tiles as nat) && capacity_of(
                        domain_rows(g)[a][b],
                    ) == num_tiles && bitset_wf(domain_rows(g)[a][b]),
            decreases height - y,
        {
            let mut x: usize = 0;
            while x < width
                invariant
                    x <= width,
                    y < height,
                    self.wf(),
                    cells_fit(self@, num_tiles as nat),
                    height == self.rows(),
                    width == self.cols(),
                    rectangular(domain_rows(g), height as nat, width as nat),
                    forall|a: int, b: int|
                        0 <= a < y && 0 <= b < width ==> bits_of(#[trigger] domain_rows(g)[a][b])
                            == cell_domain(self@[a][b], num_tiles as nat) && capacity_of(
                            domain_rows(g)[a][b],
                        ) == num_tiles && bitset_wf(domain_rows(g)[a][b]),
                    forall|b: int|
                        0 <= b < x ==> bits_of(#[trigger] domain_rows(g)[y as int][b])
                            == cell_domain(self@[y as int][b], num_tiles as nat) && capacity_of(
                            domain_rows(g)[y as int][b],
                        ) == num_tiles && bitset_wf(domain_rows(g)[y as int][b]),
                decreases width - x,
            {
                let cell = self.get((y, x));
                assert(cell_fits(self@[y as int][x as int], num_tiles as nat));
                let set = cell.domain(num_tiles);
                let slot = domain_grid_at_mut(&mut g, y, x);
                *slot = set;
                x += 1;
            }
            y += 1;
        }
        g
    }
}

/// Whether `(y, x)` lies in the strip of `border_size` rows or columns on
/// side `d` of a map of `height` rows and `width` columns.
fn in_border(
    d: Direction,
    border_size: usize,
    height: usize,
    width: usize,
    y: usize,
    x: usize,
) -> (r: bool)
    requires
        border_fits(d, border_size as nat, height as nat, width as nat),
    ensures
        r == in_strip(d, border_size as nat, height as nat, width as nat, y as int, x as int),
{
    match d {
        Direction::North => y < border_size,
        Direction::South => y >= height - border_size,
        Direction::West => x < border_size,
        Direction::East => x >= width - border_size,
    }
}

/// Where the cell at `(y, x)` of a strip on side `d` comes from when the
/// strip is moved in from the opposite side of a map of the same size, or
/// `None` where `(y, x)` is outside the strip.
fn strip_source(
    d: Direction,
    border_size: usize,
    height: usize,
    width: usize,
    y: usize,
    x: usize,
) -> (r: Option<(usize, usize)>)
    requires
        border_fits(d, border_size as nat, height as nat, width as nat),
        y < height,
        x < width,
    ensures
        r.is_some() == in_strip(d, border_size as nat, height as nat, width as nat, y as int, x as int),
        r matches Some(p) ==> (p.0 as int, p.1 as int) == across(
            d,
            border_size as nat,
            height as nat,
            width as nat,
            y as int,
            x as int,
        ) && p.0 < height && p.1 < width,
{
    if !in_border(d, border_size, height, width, y, x) {
        return None;
    }
    match d {
        Direction::North => Some((height - border_size + y, x)),
        Direction::South => Some((y - (height - border_size), x)),
        Direction::West => Some((y, width - border_size + x)),
        Direction::East => Some((y, x - (width - border_size))),
    }
}

/// Replacing one entry of a rectangle leaves a rectangle of the same shape.
pub proof fn lemma_put_keeps_shape<T>(rows: Seq<Seq<T>>, y: int, x: int, value: T)
    requires
        0 <= y < rows.len(),
        0 <= x < rows[y].len(),
    ensures
        same_shape(put(rows, y, x, value), rows),
        put(rows, y, x, value).len() == rows.len(),
        put(rows, y, x, value)[y][x] == value,
        forall|a: int, b: int|
            0 <= a < rows.len() && 0 <= b < rows[a].len() && !(a == y && b == x) ==> put(
                rows,
                y,
                x,
                value,
            )[a][b] == rows[a][b],
        forall|h: nat, w: nat| rectangular(rows, h, w) ==> rectangular(put(rows, y, x, value), h, w),
        grid_shaped(rows) ==> grid_shaped(put(rows, y, x, value)),
{
    let after = put(rows, y, x, value);
    assert forall|h: nat, w: nat| rectangular(rows, h, w) implies rectangular(after, h, w) by {
        assert forall|a: int| 0 <= a < h implies (#[trigger] after[a]).len() == w by {
            assert(rows[a].len() == w);
        }
    }
    if grid_shaped(rows) {
        assert(rectangular(after, rows.len(), rows[0].len()));
        assert(rows[0].len() == after[0].len());
    }
}

} // verus!
