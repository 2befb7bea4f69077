//! How much work a solver has before it: the number of cells that are
//! still undecided.

use crate::grid::{
    mask_grid_at, mask_rows, rectangular, shape_fits, size_grid_at, size_rows, MaskGrid, SizeGrid,
};
use vstd::prelude::*;

verus! {

/// The number of undecided cells among the first `k` cells of a row: those
/// that take part and have more than one candidate.
pub open spec fn undecided_in_row(sizes: Seq<usize>, holes: Seq<bool>, k: int) -> nat
    decreases k,
{
    if k <= 0 {
        0
    } else {
        undecided_in_row(sizes, holes, k - 1) + if !holes[k - 1] && sizes[k - 1] > 1 {
            1nat
        } else {
            0nat
        }
    }
}

/// The number of undecided cells in the first `k` rows of a grid of
/// `width` columns.
pub open spec fn undecided(sizes: Seq<Seq<usize>>, holes: Seq<Seq<bool>>, width: int, k: int) -> nat
    decreases k,
{
    if k <= 0 {
        0
    } else {
        undecided(sizes, holes, width, k - 1) + undecided_in_row(sizes[k - 1], holes[k - 1], width)
    }
}

/// There are no more undecided cells than cells.
pub proof fn lemma_undecided_in_row_bound(sizes: Seq<usize>, holes: Seq<bool>, k: int)
    requires
        0 <= k,
    ensures
        undecided_in_row(sizes, holes, k) <= k,
    decreases k,
{
    if k > 0 {
        lemma_undecided_in_row_bound(sizes, holes, k - 1);
    }
}

/// There are no more undecided cells than cells.
pub proof fn lemma_undecided_bound(sizes: Seq<Seq<usize>>, holes: Seq<Seq<bool>>, width: int, k: int)
    requires
        0 <= k,
        0 <= width,
    ensures
        undecided(sizes, holes, width, k) <= k * width,
    decreases k,
{
    if k > 0 {
        lemma_undecided_bound(sizes, holes, width, k - 1);
        lemma_undecided_in_row_bound(sizes[k - 1], holes[k - 1], width);
        assert((k - 1) * width + width == k * width) by (nonlinear_arith);
    } else {
        assert(0 * width == 0) by (nonlinear_arith);
    }
}

/// The number of cells that take part and have more than one candidate.
pub fn count_cells_to_collapse(
    domain_sizes: &SizeGrid,
    is_ignore: &MaskGrid,
    height: usize,
    width: usize,
) -> (count: usize)
    requires
        shape_fits(height as nat, width as nat),
        rectangular(size_rows(*domain_sizes), height as nat, width as nat),
        rectangular(mask_rows(*is_ignore), height as nat, width as nat),
    ensures
        count == undecided(
            size_rows(*domain_sizes),
            mask_rows(*is_ignore),
            width as int,
            height as int,
        ),
{
    let ghost sizes = size_rows(*domain_sizes);
    let ghost holes = mask_rows(*is_ignore);
    let mut count: usize = 0;
    let mut y: usize = 0;
    while y < height
        invariant
            y <= height,
            shape_fits(height as nat, width as nat),
            sizes == size_rows(*domain_sizes),
            holes == mask_rows(*is_ignore),
            rectangular(sizes, height as nat, width as nat),
            rectangular(holes, height as nat, width as nat),
            count == undecided(sizes, holes, width as int, y as int),
        decreases height - y,
    {
        let ghost before = count;
        let mut x: usize = 0;
        while x < width
            invariant
                x <= width,
                y < height,
                shape_fits(height as nat, width as nat),
                sizes == size_rows(*domain_sizes),
                holes == mask_rows(*is_ignore),
                rectangular(sizes, height as nat, width as nat),
                rectangular(holes, height as nat, width as nat),
                before == undecided(sizes, holes, width as int, y as int),
                count == before + undecided_in_row(sizes[y as int], holes[y as int], x as int),
            decreases width - x,
        {
            proof {
                lemma_undecided_bound(sizes, holes, width as int, y as int);
                lemma_undecided_in_row_bound(sizes[y as int], holes[y as int], x as int);
                assert(y * width + x < height * width) by (nonlinear_arith)
                    requires
                        y < height,
                        x < width,
                ;
            }
            if !mask_grid_at(is_ignore, y, x) && size_grid_at(domain_sizes, y, x) > 1 {
                count += 1;
            }
            x += 1;
        }
        y += 1;
    }
    count
}

} // verus!
