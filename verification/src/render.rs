//! The picture of a map: every cell drawn as the interior of its patch.

use crate::cell::{cell_fits, Cell};
use crate::error::{ArgsFault, MapFault, WfcError};
use crate::image::{interior_of, pixel_rows, Image, Pixel};
use crate::map::{cells_fit, TileMap};
use crate::tileset::Tileset;
use vstd::arithmetic::div_mod::lemma_fundamental_div_mod_converse;
use vstd::prelude::*;

verus! {

/// The colour of a wildcard in the picture of a map: opaque magenta.
pub open spec fn wildcard_pixel() -> Pixel {
    Pixel { r: 255, g: 0, b: 255, a: 255 }
}

/// The colour of a hole in the picture of a map: nothing at all.
pub open spec fn ignore_pixel() -> Pixel {
    Pixel { r: 0, g: 0, b: 0, a: 0 }
}

/// The pixel in row `y`, column `x` of the picture of `cells`, where every
/// cell is drawn `side` pixels wide and high: the pixel of the interior of
/// the patch of a fixed cell, magenta for a wildcard, nothing for a hole.
pub open spec fn rendered_pixel(
    cells: Seq<Seq<Cell>>,
    interiors: Seq<Seq<Seq<Pixel>>>,
    side: int,
    y: int,
    x: int,
) -> Pixel {
    match cells[y / side][x / side] {
        Cell::Fixed(i) => interiors[i as int][y % side][x % side],
        Cell::Wildcard => wildcard_pixel(),
        Cell::Ignore => ignore_pixel(),
    }
}

/// The picture of `cells`.
pub open spec fn rendered(cells: Seq<Seq<Cell>>, interiors: Seq<Seq<Seq<Pixel>>>, side: nat) -> Seq<
    Seq<Pixel>,
> {
    Seq::new(
        cells.len() * side,
        |y: int|
            Seq::new(
                cells[0].len() * side,
                |x: int| rendered_pixel(cells, interiors, side as int, y, x),
            ),
    )
}

/// The interiors of the patches of an atlas.
pub open spec fn atlas_interiors(atlas: Tileset) -> Seq<Seq<Seq<Pixel>>> {
    Seq::new(atlas.patches().len(), |i: int| interior_of(atlas.patches()[i], atlas.border()))
}

/// Why a map has no picture under an atlas, or `None` where it has one: a
/// fixed cell names a tile the atlas does not have, or the picture would
/// not fit in memory.
pub open spec fn render_fault(cells: Seq<Seq<Cell>>, atlas: Tileset) -> Option<WfcError> {
    if !cells_fit(cells, atlas.patches().len()) {
        Some(WfcError::InvalidMap(MapFault::IndexOutOfRange))
    } else if cells.len() * atlas.interior() * (cells[0].len() * atlas.interior()) * 4
        > isize::MAX {
        Some(WfcError::InvalidArgs(ArgsFault::TooLarge))
    } else {
        None
    }
}

impl TileMap {
    /// Draws the map with the patches of `tileset`: every cell becomes a
    /// square as large as the interior of a patch, filled with the
    /// interior of its patch where the cell is fixed, with opaque magenta
    /// where it is a wildcard, and with nothing where it is a hole.
    pub fn render(&self, tileset: &Tileset) -> (r: Result<Image, WfcError>)
        requires
            self.wf(),
            tileset.wf(),
        ensures
            r.is_ok() <==> render_fault(self@, *tileset).is_none(),
            r matches Err(e) ==> Some(e) == render_fault(self@, *tileset),
            r matches Ok(image) ==> image.wf() && image@ == rendered(
                self@,
                atlas_interiors(*tileset),
                tileset.interior(),
            ),
    {
        let fits = match self.max_index() {
            Some(m) => m < tileset.len(),
            None => true,
        };
        if !fits {
            return Err(WfcError::InvalidMap(MapFault::IndexOutOfRange));
        }
        let (height, width) = self.size();
        let side = tileset.interior_size();
        let interiors = tileset.interiors();
        let ghost inner = atlas_interiors(*tileset);
        let ghost want = rendered(self@, inner, side as nat);
        let magenta = Pixel { r: 255, g: 0, b: 255, a: 255 };
        let nothing = Pixel { r: 0, g: 0, b: 0, a: 0 };
        let mut rows: Vec<Vec<Pixel>> = Vec::new();
        let mut cy: usize = 0;
        while cy < height
            invariant
                cy <= height,
                self.wf(),
                tileset.wf(),
                cells_fit(self@, tileset.patches().len()),
                height == self.rows(),
                width == self.cols(),
                side == tileset.interior(),
                side > 0,
                inner == atlas_interiors(*tileset),
                want == rendered(self@, inner, side as nat),
                magenta == wildcard_pixel(),
                nothing == ignore_pixel(),
                interiors@.len() == inner.len(),
                forall|i: int|
                    0 <= i < interiors@.len() ==> (#[trigger] interiors@[i]).wf() && interiors@[i]@
                        == inner[i] && interiors@[i].rows() == side && interiors@[i].cols() == side,
                rows@.len() == cy * side,
                forall|y: int| 0 <= y < rows@.len() ==> (#[trigger] rows@[y])@ == want[y],
            decreases height - cy,
        {
            let mut py: usize = 0;
            while py < side
                invariant
                    py <= side,
                    cy < height,
                    self.wf(),
                    tileset.wf(),
                    cells_fit(self@, tileset.patches().len()),
                    height == self.rows(),
                    width == self.cols(),
                    side == tileset.interior(),
                    side > 0,
                    inner == atlas_interiors(*tileset),
                    want == rendered(self@, inner, side as nat),
                    magenta == wildcard_pixel(),
                    nothing == ignore_pixel(),
                    interiors@.len() == inner.len(),
                    forall|i: int|
                        0 <= i < interiors@.len() ==> (#[trigger] interiors@[i]).wf()
                            && interiors@[i]@ == inner[i] && interiors@[i].rows() == side
                            && interiors@[i].cols() == side,
                    rows@.len() == cy * side + py,
                    forall|y: int| 0 <= y < rows@.len() ==> (#[trigger] rows@[y])@ == want[y],
                decreases side - py,
            {
                let ghost y = cy * side + py;
                proof {
                    lemma_fundamental_div_mod_converse(y, side as int, cy as int, py as int);
                    assert(y < height * side) by (nonlinear_arith)
                        requires
                            y == cy * side + py,
                            py < side,
                            cy < height,
                    ;
                }
                let mut row: Vec<Pixel> = Vec::new();
                let mut cx: usize = 0;
                while cx < width
                    invariant
                        cx <= width,
                        cy < height,
                        py < side,
                        self.wf(),
                        tileset.wf(),
                        cells_fit(self@, tileset.patches().len()),
                        height == self.rows(),
                        width == self.cols(),
                        side == tileset.interior(),
                        side > 0,
                        y == cy * side + py,
                        y / (side as int) == cy,
                        y % (side as int) == py,
                        inner == atlas_interiors(*tileset),
                        magenta == wildcard_pixel(),
                        nothing == ignore_pixel(),
                        interiors@.len() == inner.len(),
                        forall|i: int|
                            0 <= i < interiors@.len() ==> (#[trigger] interiors@[i]).wf()
                                && interiors@[i]@ == inner[i] && interiors@[i].rows() == side
                                && interiors@[i].cols() == side,
                        row@.len() == cx * side,
                        forall|x: int|
                            0 <= x < row@.len() ==> #[trigger] row@[x] == rendered_pixel(
                                self@,
                                inner,
                                side as int,
                                y,
                                x,
                            ),
                    decreases width - cx,
                {
                    let cell = self.get((cy, cx));
                    let mut px: usize = 0;
                    while px < side
                        invariant
                            px <= side,
                            cx < width,
                            cy < height,
                            py < side,
                            self.wf(),
                            tileset.wf(),
                            cells_fit(self@, tileset.patches().len()),
                            height == self.rows(),
                            width == self.cols(),
                            side == tileset.interior(),
                            side > 0,
                            cell == self@[cy as int][cx as int],
                            y == cy * side + py,
                            y / (side as int) == cy,
                            y % (side as int) == py,
                            inner == atlas_interiors(*tileset),
                            magenta == wildcard_pixel(),
                            nothing == ignore_pixel(),
                            interiors@.len() == inner.len(),
                            forall|i: int|
                                0 <= i < interiors@.len() ==> (#[trigger] interiors@[i]).wf()
                                    && interiors@[i]@ == inner[i] && interiors@[i].rows() == side
                                    && interiors@[i].cols() == side,
                            row@.len() == cx * side + px,
                            forall|x: int|
                                0 <= x < row@.len() ==> #[trigger] row@[x] == rendered_pixel(
                                    self@,
                                    inner,
                                    side as int,
                                    y,
                                    x,
                                ),
                        decreases side - px,
                    {
                        proof {
                            lemma_fundamental_div_mod_converse(
                                cx * side + px,
                                side as int,
                                cx as int,
                                px as int,
                            );
                            assert(cell_fits(
                                self@[cy as int][cx as int],
                                tileset.patches().len(),
                            ));
                        }
                        let pixel = match cell {
                            Cell::Fixed(i) => interiors[i].pixel(py, px),
                            Cell::Wildcard => magenta,
                            Cell::Ignore => nothing,
                        };
                        row.push(pixel);
                        px += 1;
                    }
                    proof {
                        assert(cx * side + side == (cx + 1) * side) by (nonlinear_arith);
                    }
                    cx += 1;
                }
                proof {
                    assert(row@ =~= want[y]);
                }
                rows.push(row);
                py += 1;
            }
            proof {
                assert(cy * side + side == (cy + 1) * side) by (nonlinear_arith);
            }
            cy += 1;
        }
        proof {
            assert(pixel_rows(rows@) =~= want);
            assert(want.len() == height * side);
            assert(height * side > 0) by (nonlinear_arith)
                requires
                    height > 0,
                    side > 0,
            ;
            assert(width * side > 0) by (nonlinear_arith)
                requires
                    width > 0,
                    side > 0,
            ;
            assert(want[0].len() == width * side);
        }
        match Image::new(rows) {
            Ok(image) => Ok(image),
            Err(e) => Err(WfcError::InvalidArgs(ArgsFault::TooLarge)),
        }
    }
}

} // verus!
