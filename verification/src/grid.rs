//! Rectangular tables kept in `ndarray` arrays.
//!
//! Each table is an array of the outside crate behind a struct whose inside
//! the verifier does not see. A name stands for the rows the table holds,
//! and making a table, reading a position and borrowing a position for
//! writing go through one small function each, whose contract restates what
//! `ndarray` does. Nothing in this file is proved; the rest of the library
//! is proved from these contracts.

use crate::bitset::{bits_of, capacity_of};
use crate::cell::Cell;
use crate::neighbour::Neighbour;
use fixedbitset::FixedBitSet;
use ndarray::{Array2, Array3};
use vstd::prelude::*;

verus! {

/// Whether `rows` has `height` rows of `width` entries each.
pub open spec fn rectangular<T>(rows: Seq<Seq<T>>, height: nat, width: nat) -> bool {
    &&& rows.len() == height
    &&& forall|y: int| 0 <= y < height ==> (#[trigger] rows[y]).len() == width
}

/// `rows` with the entry in row `y`, column `x` replaced by `value`.
pub open spec fn put<T>(rows: Seq<Seq<T>>, y: int, x: int, value: T) -> Seq<Seq<T>> {
    rows.update(y, rows[y].update(x, value))
}

/// Whether the product of the two side lengths is one `ndarray` accepts.
pub open spec fn shape_fits(height: nat, width: nat) -> bool {
    height > 0 && width > 0 && height * width <= isize::MAX
}

/// Each side of a shape that fits is a machine-sized number.
pub proof fn lemma_shape_bounds(height: nat, width: nat)
    requires
        shape_fits(height, width),
    ensures
        height <= isize::MAX,
        width <= isize::MAX,
{
    assert(height <= height * width) by (nonlinear_arith)
        requires
            height > 0,
            width > 0,
    ;
    assert(width <= height * width) by (nonlinear_arith)
        requires
            height > 0,
            width > 0,
    ;
}

/// A table of cells: `ndarray::Array2<Cell>`.
#[verifier::external_body]
pub struct CellGrid {
    inner: Array2<Cell>,
}

/// The rows of a table of cells.
pub uninterp spec fn cell_rows(g: CellGrid) -> Seq<Seq<Cell>>;

/// `Array2::from_elem`: a table of the given shape with `cell` everywhere.
/// The outside function panics where the number of entries overflows.
#[verifier::external_body]
pub(crate) fn cell_grid_filled(height: usize, width: usize, cell: Cell) -> (g: CellGrid)
    requires
        shape_fits(height as nat, width as nat),
    ensures
        rectangular(cell_rows(g), height as nat, width as nat),
        forall|y: int, x: int|
            0 <= y < height && 0 <= x < width ==> #[trigger] cell_rows(g)[y][x] == cell,
{
    CellGrid { inner: Array2::from_elem((height, width), cell) }
}

/// `ArrayBase::dim`: the number of rows and the length of every row.
#[verifier::external_body]
pub(crate) fn cell_grid_dims(g: &CellGrid) -> (r: (usize, usize))
    ensures
        rectangular(cell_rows(*g), r.0 as nat, r.1 as nat),
{
    g.inner.dim()
}

/// Indexing an `Array2` by a pair: the entry at a position inside the
/// table. Outside the table the outside function panics.
#[verifier::external_body]
pub(crate) fn cell_grid_at(g: &CellGrid, y: usize, x: usize) -> (r: Cell)
    requires
        y < cell_rows(*g).len(),
        x < cell_rows(*g)[y as int].len(),
    ensures
        r == cell_rows(*g)[y as int][x as int],
{
    g.inner[(y, x)]
}

/// Indexing an `Array2` by a pair for writing: a borrow of one entry; what
/// is written through it is the only change to the table.
#[verifier::external_body]
pub(crate) fn cell_grid_at_mut(g: &mut CellGrid, y: usize, x: usize) -> (r: &mut Cell)
    requires
        y < cell_rows(*old(g)).len(),
        x < cell_rows(*old(g))[y as int].len(),
    ensures
        *r == cell_rows(*old(g))[y as int][x as int],
        cell_rows(*final(g)) == put(cell_rows(*old(g)), y as int, x as int, *final(r)),
{
    &mut g.inner[(y, x)]
}

/// A table marking the holes of a map: `ndarray::Array2<bool>`.
#[verifier::external_body]
pub struct MaskGrid {
    inner: Array2<bool>,
}

/// The rows of a table of marks.
pub uninterp spec fn mask_rows(g: MaskGrid) -> Seq<Seq<bool>>;

/// `Array2::from_elem`: a table of the given shape with `mark` everywhere.
/// The outside function panics where the number of entries overflows.
#[verifier::external_body]
pub(crate) fn mask_grid_filled(height: usize, width: usize, mark: bool) -> (g: MaskGrid)
    requires
        shape_fits(height as nat, width as nat),
    ensures
        rectangular(mask_rows(g), height as nat, width as nat),
        forall|y: int, x: int|
            0 <= y < height && 0 <= x < width ==> #[trigger] mask_rows(g)[y][x] == mark,
{
    MaskGrid { inner: Array2::from_elem((height, width), mark) }
}

/// Indexing an `Array2` by a pair: the entry at a position inside the
/// table. Outside the table the outside function panics.
#[verifier::external_body]
pub(crate) fn mask_grid_at(g: &MaskGrid, y: usize, x: usize) -> (r: bool)
    requires
        y < mask_rows(*g).len(),
        x < mask_rows(*g)[y as int].len(),
    ensures
        r == mask_rows(*g)[y as int][x as int],
{
    g.inner[(y, x)]
}

/// Indexing an `Array2` by a pair for writing: a borrow of one entry; what
/// is written through it is the only change to the table.
#[verifier::external_body]
pub(crate) fn mask_grid_at_mut(g: &mut MaskGrid, y: usize, x: usize) -> (r: &mut bool)
    requires
        y < mask_rows(*old(g)).len(),
        x < mask_rows(*old(g))[y as int].len(),
    ensures
        *r == mask_rows(*old(g))[y as int][x as int],
        mask_rows(*final(g)) == put(mask_rows(*old(g)), y as int, x as int, *final(r)),
{
    &mut g.inner[(y, x)]
}

/// A table of candidate counts: `ndarray::Array2<usize>`.
#[verifier::external_body]
pub struct SizeGrid {
    inner: Array2<usize>,
}

/// The rows of a table of counts.
pub uninterp spec fn size_rows(g: SizeGrid) -> Seq<Seq<usize>>;

/// `Array2::from_elem`: a table of the given shape with `count` everywhere.
/// The outside function panics where the number of entries overflows.
#[verifier::external_body]
pub(crate) fn size_grid_filled(height: usize, width: usize, count: usize) -> (g: SizeGrid)
    requires
        shape_fits(height as nat, width as nat),
    ensures
        rectangular(size_rows(g), height as nat, width as nat),
        forall|y: int, x: int|
            0 <= y < height && 0 <= x < width ==> #[trigger] size_rows(g)[y][x] == count,
{
    SizeGrid { inner: Array2::from_elem((height, width), count) }
}

/// Indexing an `Array2` by a pair: the entry at a position inside the
/// table. Outside the table the outside function panics.
#[verifier::external_body]
pub(crate) fn size_grid_at(g: &SizeGrid, y: usize, x: usize) -> (r: usize)
    requires
        y < size_rows(*g).len(),
        x < size_rows(*g)[y as int].len(),
    ensures
        r == size_rows(*g)[y as int][x as int],
{
    g.inner[(y, x)]
}

/// Indexing an `Array2` by a pair for writing: a borrow of one entry; what
/// is written through it is the only change to the table.
#[verifier::external_body]
pub(crate) fn size_grid_at_mut(g: &mut SizeGrid, y: usize, x: usize) -> (r: &mut usize)
    requires
        y < size_rows(*old(g)).len(),
        x < size_rows(*old(g))[y as int].len(),
    ensures
        *r == size_rows(*old(g))[y as int][x as int],
        size_rows(*final(g)) == put(size_rows(*old(g)), y as int, x as int, *final(r)),
{
    &mut g.inner[(y, x)]
}

/// `Clone::clone` of an `Array2<usize>`: a table with the same rows.
#[verifier::external_body]
pub(crate) fn size_grid_clone(g: &SizeGrid) -> (r: SizeGrid)
    ensures
        size_rows(r) == size_rows(*g),
{
    SizeGrid { inner: g.inner.clone() }
}

/// A table of candidate sets: `ndarray::Array2<FixedBitSet>`.
#[verifier::external_body]
pub struct DomainGrid {
    inner: Array2<FixedBitSet>,
}

/// The rows of a table of candidate sets.
pub uninterp spec fn domain_rows(g: DomainGrid) -> Seq<Seq<FixedBitSet>>;

/// `Array2::from_elem`: a table of the given shape whose every entry is a
/// clone of `set`, with its bits and its capacity. The outside function
/// panics where the number of entries overflows.
#[verifier::external_body]
pub(crate) fn domain_grid_filled(height: usize, width: usize, set: FixedBitSet) -> (g: DomainGrid)
    requires
        shape_fits(height as nat, width as nat),
    ensures
        rectangular(domain_rows(g), height as nat, width as nat),
        forall|y: int, x: int|
            0 <= y < height && 0 <= x < width ==> bits_of(#[trigger] domain_rows(g)[y][x])
                == bits_of(set) && capacity_of(domain_rows(g)[y][x]) == capacity_of(set),
{
    DomainGrid { inner: Array2::from_elem((height, width), set) }
}

/// Indexing an `Array2` by a pair: the entry at a position inside the
/// table. Outside the table the outside function panics.
#[verifier::external_body]
pub(crate) fn domain_grid_at(g: &DomainGrid, y: usize, x: usize) -> (r: &FixedBitSet)
    requires
        y < domain_rows(*g).len(),
        x < domain_rows(*g)[y as int].len(),
    ensures
        *r == domain_rows(*g)[y as int][x as int],
{
    &g.inner[(y, x)]
}

/// Indexing an `Array2` by a pair for writing: a borrow of one entry; what
/// is written through it is the only change to the table.
#[verifier::external_body]
pub(crate) fn domain_grid_at_mut(g: &mut DomainGrid, y: usize, x: usize) -> (r: &mut FixedBitSet)
    requires
        y < domain_rows(*old(g)).len(),
        x < domain_rows(*old(g))[y as int].len(),
    ensures
        *r == domain_rows(*old(g))[y as int][x as int],
        domain_rows(*final(g)) == put(domain_rows(*old(g)), y as int, x as int, *final(r)),
{
    &mut g.inner[(y, x)]
}

/// `Clone::clone` of an `Array2<FixedBitSet>`: a table of the same shape
/// whose entries have the bits and the capacity of the entries of `g`.
#[verifier::external_body]
pub(crate) fn domain_grid_clone(g: &DomainGrid) -> (r: DomainGrid)
    ensures
        domain_rows(r).len() == domain_rows(*g).len(),
        forall|y: int|
            0 <= y < domain_rows(*g).len() ==> (#[trigger] domain_rows(r)[y]).len() == domain_rows(
                *g,
            )[y].len(),
        forall|y: int, x: int|
            0 <= y < domain_rows(*g).len() && 0 <= x < domain_rows(*g)[y].len() ==> bits_of(
                #[trigger] domain_rows(r)[y][x],
            ) == bits_of(domain_rows(*g)[y][x]) && capacity_of(domain_rows(r)[y][x])
                == capacity_of(domain_rows(*g)[y][x]),
{
    DomainGrid { inner: g.inner.clone() }
}

/// A table of neighbour lists: `ndarray::Array2<Vec<Neighbour>>`.
#[verifier::external_body]
pub struct NeighbourGrid {
    inner: Array2<Vec<Neighbour>>,
}

/// The rows of a table of neighbour lists.
pub uninterp spec fn neighbour_rows(g: NeighbourGrid) -> Seq<Seq<Seq<Neighbour>>>;

/// `Array2::from_elem` with an empty list: a table of the given shape with
/// an empty list everywhere. The outside function panics where the number
/// of entries overflows.
#[verifier::external_body]
pub(crate) fn neighbour_grid_empty(height: usize, width: usize) -> (g: NeighbourGrid)
    requires
        shape_fits(height as nat, width as nat),
    ensures
        rectangular(neighbour_rows(g), height as nat, width as nat),
        forall|y: int, x: int|
            0 <= y < height && 0 <= x < width ==> (#[trigger] neighbour_rows(g)[y][x]).len() == 0,
{
    NeighbourGrid { inner: Array2::from_elem((height, width), Vec::new()) }
}

/// Indexing an `Array2` by a pair: the list at a position inside the
/// table. Outside the table the outside function panics.
#[verifier::external_body]
pub(crate) fn neighbour_grid_at(g: &NeighbourGrid, y: usize, x: usize) -> (r: &Vec<Neighbour>)
    requires
        y < neighbour_rows(*g).len(),
        x < neighbour_rows(*g)[y as int].len(),
    ensures
        r@ == neighbour_rows(*g)[y as int][x as int],
{
    &g.inner[(y, x)]
}

/// Indexing an `Array2` by a pair for writing: a borrow of one list; what
/// is written through it is the only change to the table.
#[verifier::external_body]
pub(crate) fn neighbour_grid_at_mut(g: &mut NeighbourGrid, y: usize, x: usize) -> (r: &mut Vec<
    Neighbour,
>)
    requires
        y < neighbour_rows(*old(g)).len(),
        x < neighbour_rows(*old(g))[y as int].len(),
    ensures
        r@ == neighbour_rows(*old(g))[y as int][x as int],
        neighbour_rows(*final(g)) == put(
            neighbour_rows(*old(g)),
            y as int,
            x as int,
            final(r)@,
        ),
{
    &mut g.inner[(y, x)]
}

/// A table of yes and no over pairs of tiles and two axes:
/// `ndarray::Array3<bool>`.
#[verifier::external_body]
pub struct Adjacency {
    inner: Array3<bool>,
}

/// The entries of an adjacency table, by first tile, second tile and axis.
pub uninterp spec fn adjacency_of(a: Adjacency) -> Seq<Seq<Seq<bool>>>;

/// Whether `table` is `n` by `n` by two.
pub open spec fn adjacency_square(table: Seq<Seq<Seq<bool>>>, n: nat) -> bool {
    &&& table.len() == n
    &&& forall|i: int| 0 <= i < n ==> (#[trigger] table[i]).len() == n
    &&& forall|i: int, j: int| 0 <= i < n && 0 <= j < n ==> (#[trigger] table[i][j]).len() == 2
}

/// `Array3::from_elem` with `false`: an `n` by `n` by two table of `false`.
/// The outside function panics where the number of entries overflows.
#[verifier::external_body]
pub(crate) fn adjacency_empty(n: usize) -> (a: Adjacency)
    requires
        n > 0,
        2 * n * n <= isize::MAX,
    ensures
        adjacency_square(adjacency_of(a), n as nat),
        forall|i: int, j: int, k: int|
            0 <= i < n && 0 <= j < n && 0 <= k < 2 ==> #[trigger] adjacency_of(a)[i][j][k]
                == false,
{
    Adjacency { inner: Array3::from_elem((n, n, 2), false) }
}

/// `ArrayBase::dim`: the three side lengths of the table, which every row
/// and every entry of a row shares.
#[verifier::external_body]
pub(crate) fn adjacency_dims(a: &Adjacency) -> (r: (usize, usize, usize))
    ensures
        adjacency_of(*a).len() == r.0,
        forall|i: int| 0 <= i < r.0 ==> (#[trigger] adjacency_of(*a)[i]).len() == r.1,
        forall|i: int, j: int|
            0 <= i < r.0 && 0 <= j < r.1 ==> (#[trigger] adjacency_of(*a)[i][j]).len() == r.2,
{
    a.inner.dim()
}

/// Indexing an `Array3` by a triple: the entry at a position inside the
/// table. Outside the table the outside function panics.
#[verifier::external_body]
pub(crate) fn adjacency_at(a: &Adjacency, i: usize, j: usize, k: usize) -> (r: bool)
    requires
        i < adjacency_of(*a).len(),
        j < adjacency_of(*a)[i as int].len(),
        k < adjacency_of(*a)[i as int][j as int].len(),
    ensures
        r == adjacency_of(*a)[i as int][j as int][k as int],
{
    a.inner[(i, j, k)]
}

/// Indexing an `Array3` by a triple for writing: a borrow of one entry;
/// what is written through it is the only change to the table.
#[verifier::external_body]
pub(crate) fn adjacency_at_mut(a: &mut Adjacency, i: usize, j: usize, k: usize) -> (r: &mut bool)
    requires
        i < adjacency_of(*old(a)).len(),
        j < adjacency_of(*old(a))[i as int].len(),
        k < adjacency_of(*old(a))[i as int][j as int].len(),
    ensures
        *r == adjacency_of(*old(a))[i as int][j as int][k as int],
        adjacency_of(*final(a)) == adjacency_of(*old(a)).update(
            i as int,
            put(adjacency_of(*old(a))[i as int], j as int, k as int, *final(r)),
        ),
{
    &mut a.inner[(i, j, k)]
}

} // verus!
