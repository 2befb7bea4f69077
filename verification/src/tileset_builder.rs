//! Learning an atlas from a sample image: cutting patches, telling equal
//! patches apart from new ones, counting how often each occurs, and reading
//! off which patches fit next to each other.

use crate::adjacency::{adjacent, AXIS_EAST, AXIS_NORTH};
use crate::direction::{opposite_of, Direction};
use crate::error::{ArgsFault, AtlasFault, WfcError};
use crate::grid::{adjacency_square, Adjacency};
use crate::image::{border_of, part_of, picture_shaped, turned_rows, Image, Pixel, Transformation};
use crate::rules::{all_positive, lemma_all_ones, lemma_sum_push, lemma_sum_update, sum_of, Rules};
use crate::tileset::{patch_counts, patch_pictures, Tileset};
use vstd::prelude::*;

verus! {

/// The patches of an atlas in the making, and how often each was seen.
pub type Tally = (Seq<Seq<Seq<Pixel>>>, Seq<usize>);

/// The pixel grids of a list of images.
pub open spec fn pictures(images: Seq<Image>) -> Seq<Seq<Seq<Pixel>>> {
    Seq::new(images.len(), |i: int| images[i]@)
}

/// The number of patches of side `side` that fit along `len` pixels when
/// one starts every `step` pixels.
pub open spec fn patch_count(len: nat, side: nat, step: nat) -> nat {
    if len < side || step == 0 {
        0
    } else {
        ((len - side) / (step as int) + 1) as nat
    }
}

/// The tally after one more patch: where the patch is known, its count
/// grows by one, and where it is new, it joins the end with count one.
/// There is no tally where a count would outgrow a machine word.
pub open spec fn absorb(tally: Tally, item: Seq<Seq<Pixel>>) -> Option<Tally> {
    if tally.0.contains(item) {
        let i = tally.0.index_of(item);
        if tally.1[i] < usize::MAX {
            Some((tally.0, tally.1.update(i, (tally.1[i] + 1) as usize)))
        } else {
            None
        }
    } else {
        Some((tally.0.push(item), tally.1.push(1usize)))
    }
}

/// The tally after `patch` under the first `k` transformations, in their
/// order.
pub open spec fn absorb_turns(
    tally: Option<Tally>,
    patch: Seq<Seq<Pixel>>,
    transforms: Seq<Transformation>,
    k: int,
) -> Option<Tally>
    decreases k,
{
    if k <= 0 {
        tally
    } else {
        match absorb_turns(tally, patch, transforms, k - 1) {
            Some(t) => absorb(t, turned_rows(patch, transforms[k - 1])),
            None => None,
        }
    }
}

/// The tally after the first `k` patches of patch row `py`, each under all
/// transformations.
pub open spec fn absorb_row(
    tally: Option<Tally>,
    image: Seq<Seq<Pixel>>,
    side: nat,
    step: nat,
    transforms: Seq<Transformation>,
    py: int,
    k: int,
) -> Option<Tally>
    decreases k,
{
    if k <= 0 {
        tally
    } else {
        absorb_turns(
            absorb_row(tally, image, side, step, transforms, py, k - 1),
            part_of(image, py * step, (k - 1) * step, side, side),
            transforms,
            transforms.len() as int,
        )
    }
}

/// The tally after the first `k` patch rows of `columns` patches each.
pub open spec fn absorb_rows(
    tally: Option<Tally>,
    image: Seq<Seq<Pixel>>,
    side: nat,
    step: nat,
    transforms: Seq<Transformation>,
    columns: int,
    k: int,
) -> Option<Tally>
    decreases k,
{
    if k <= 0 {
        tally
    } else {
        absorb_row(
            absorb_rows(tally, image, side, step, transforms, columns, k - 1),
            image,
            side,
            step,
            transforms,
            k - 1,
            columns,
        )
    }
}

/// The tally after every patch of `image`: patches of side `side` are cut
/// every `step` pixels, row by row and from left to right, and each is
/// absorbed under every transformation in turn.
pub open spec fn absorb_image(
    tally: Tally,
    image: Seq<Seq<Pixel>>,
    side: nat,
    step: nat,
    transforms: Seq<Transformation>,
) -> Option<Tally> {
    absorb_rows(
        Some(tally),
        image,
        side,
        step,
        transforms,
        patch_count(image[0].len(), side, step) as int,
        patch_count(image.len(), side, step) as int,
    )
}

/// What holds of every tally of an atlas: one count per patch, every patch
/// a square picture of side `side`, no patch twice, and every count at
/// least one.
pub open spec fn tally_wf(tally: Tally, side: nat) -> bool {
    &&& tally.0.len() == tally.1.len()
    &&& forall|i: int|
        0 <= i < tally.0.len() ==> picture_shaped(#[trigger] tally.0[i]) && tally.0[i].len() == side
            && tally.0[i][0].len() == side
    &&& forall|i: int, j: int| 0 <= i < j < tally.0.len() ==> tally.0[i] != tally.0[j]
    &&& forall|i: int| 0 <= i < tally.1.len() ==> #[trigger] tally.1[i] >= 1
}

/// Why the arguments of a cut are refused, or `None` where they are not:
/// no transformation, an overlap that is not smaller than the side of a
/// patch, or an image smaller than one patch; in that order.
pub open spec fn cut_fault(
    height: nat,
    width: nat,
    side: nat,
    overlap: nat,
    transforms: nat,
) -> Option<WfcError> {
    if transforms == 0 {
        Some(WfcError::InvalidArgs(ArgsFault::NoTransformations))
    } else if overlap >= side {
        Some(WfcError::InvalidArgs(ArgsFault::OverlapTooLarge))
    } else if height < side || width < side {
        Some(WfcError::InvalidArgs(ArgsFault::ImageTooSmall))
    } else {
        None
    }
}

/// An atlas in the making.
pub struct TilesetBuilder {
    interior_size: usize,
    border_size: usize,
    tiles: Vec<Image>,
    frequencies: Vec<usize>,
}

impl TilesetBuilder {
    /// The side of the interior of a patch.
    pub closed spec fn interior(&self) -> nat {
        self.interior_size as nat
    }

    /// The width of the border of a patch.
    pub closed spec fn border(&self) -> nat {
        self.border_size as nat
    }

    /// The side of a patch: the interior and the border on either side.
    pub open spec fn side(&self) -> nat {
        self.interior() + 2 * self.border()
    }

    /// The patches seen so far and their counts.
    pub closed spec fn tally(&self) -> Tally {
        (pictures(self.tiles@), self.frequencies@)
    }

    /// What holds of every builder that exists.
    pub open spec fn wf(&self) -> bool {
        &&& self.interior() > 0
        &&& self.border() > 0
        &&& self.side() <= usize::MAX
        &&& tally_wf(self.tally(), self.side())
    }

    /// A builder without patches. It is refused if the interior or the
    /// border has no pixel, or if the side of a patch does not fit a
    /// machine word.
    pub fn new(interior_size: usize, border_size: usize) -> (r: Result<TilesetBuilder, WfcError>)
        ensures
            match r {
                Ok(b) => b.wf() && b.interior() == interior_size && b.border() == border_size
                    && b.tally().0.len() == 0,
                Err(e) => e == if interior_size == 0 {
                    WfcError::InvalidArgs(ArgsFault::ZeroTileSize)
                } else if border_size == 0 {
                    WfcError::InvalidArgs(ArgsFault::ZeroBorderSize)
                } else {
                    WfcError::InvalidArgs(ArgsFault::TooLarge)
                },
            },
            r.is_ok() <==> interior_size > 0 && border_size > 0 && interior_size + 2 * border_size
                <= usize::MAX,
    {
        if interior_size == 0 {
            return Err(WfcError::InvalidArgs(ArgsFault::ZeroTileSize));
        }
        if border_size == 0 {
            return Err(WfcError::InvalidArgs(ArgsFault::ZeroBorderSize));
        }
        if border_size > (usize::MAX - interior_size) / 2 {
            return Err(WfcError::InvalidArgs(ArgsFault::TooLarge));
        }
        Ok(
            TilesetBuilder {
                interior_size,
                border_size,
                tiles: Vec::new(),
                frequencies: Vec::new(),
            },
        )
    }

    /// The side of the interior of a patch.
    pub fn interior_size(&self) -> (r: usize)
        ensures
            r == self.interior(),
    {
        self.interior_size
    }

    /// The width of the border of a patch.
    pub fn border_size(&self) -> (r: usize)
        ensures
            r == self.border(),
    {
        self.border_size
    }

    /// The patches seen so far, in the order in which they were first
    /// seen.
    pub fn tiles(&self) -> (r: &Vec<Image>)
        ensures
            pictures(r@) == self.tally().0,
    {
        &self.tiles
    }

    /// How often each patch was seen.
    pub fn frequencies(&self) -> (r: &Vec<usize>)
        ensures
            r@ == self.tally().1,
    {
        &self.frequencies
    }

    /// The side of a patch.
    pub fn tile_size(&self) -> (r: usize)
        requires
            self.wf(),
        ensures
            r == self.side(),
    {
        self.interior_size + 2 * self.border_size
    }

    /// The number of patches seen so far.
    pub fn len(&self) -> (r: usize)
        ensures
            r == self.tally().0.len(),
    {
        self.tiles.len()
    }

    /// The index of the patch with the pixels of `item`, if there is one.
    fn find(&self, item: &Image) -> (r: Option<usize>)
        requires
            self.wf(),
            item.wf(),
        ensures
            r.is_some() == self.tally().0.contains(item@),
            r matches Some(i) ==> i < self.tally().0.len() && self.tally().0[i as int] == item@
                && self.tally().0.index_of(item@) == i,
    {
        let mut i: usize = 0;
        while i < self.tiles.len()
            invariant
                i <= self.tiles.len(),
                self.wf(),
                item.wf(),
                forall|k: int| 0 <= k < i ==> self.tally().0[k] != item@,
            decreases self.tiles.len() - i,
        {
            proof {
                assert(picture_shaped(self.tally().0[i as int]));
            }
            if self.tiles[i].same_pixels(item) {
                proof {
                    let found = self.tally().0.index_of(item@);
                    assert(self.tally().0[i as int] == item@);
                    assert(0 <= found < self.tally().0.len() && self.tally().0[found] == item@);
                    if found < i {
                        assert(self.tally().0[found] != self.tally().0[i as int]);
                    } else if i < found {
                        assert(self.tally().0[i as int] != self.tally().0[found]);
                    }
                }
                return Some(i);
            }
            i += 1;
        }
        None
    }

    /// Takes one patch into the tally: the count of a known patch grows by
    /// one, and a new patch joins the end with count one. This fails with
    /// `FrequencyOverflow`, and changes nothing, where the count would
    /// outgrow a machine word.
    pub fn take(&mut self, item: Image) -> (r: Result<(), WfcError>)
        requires
            old(self).wf(),
            item.is_square(old(self).side()),
        ensures
            final(self).interior() == old(self).interior(),
            final(self).border() == old(self).border(),
            match absorb(old(self).tally(), item@) {
                Some(tally) => r.is_ok() && final(self).tally() == tally && final(self).wf()
                    && sum_of(tally.1) == sum_of(old(self).tally().1) + 1,
                None => r == Err::<(), WfcError>(WfcError::InvalidAtlas(AtlasFault::FrequencyOverflow))
                    && final(self).tally() == old(self).tally() && final(self).wf(),
            },
    {
        let ghost before = self.tally();
        match self.find(&item) {
            Some(index) => {
                let seen = self.frequencies[index];
                if seen == usize::MAX {
                    return Err(WfcError::InvalidAtlas(AtlasFault::FrequencyOverflow));
                }
                self.frequencies.set(index, seen + 1);
                proof {
                    assert(self.tally().0 =~= before.0);
                    assert(self.tally().1 =~= before.1.update(index as int, (seen + 1) as usize));
                    lemma_sum_update(
                        before.1,
                        index as int,
                        (seen + 1) as usize,
                        before.1.len() as int,
                    );
                }
                Ok(())
            },
            None => {
                self.tiles.push(item);
                self.frequencies.push(1);
                proof {
                    assert(self.tally().0 =~= before.0.push(item@));
                    assert(self.tally().1 =~= before.1.push(1usize));
                    lemma_sum_push(before.1, 1usize);
                    assert forall|i: int, j: int| 0 <= i < j < self.tally().0.len() implies self.tally().0[i]
                        != self.tally().0[j] by {
                        if j == before.0.len() {
                            assert(before.0[i] != item@);
                        } else {
                            assert(before.0[i] != before.0[j]);
                        }
                    }
                }
                Ok(())
            },
        }
    }

    /// Cuts `image` into patches and takes them into the atlas.
    ///
    /// Patches of the side of this builder are cut every `side - overlap`
    /// pixels, row by row and from left to right, starting in the top left
    /// corner; what is left over at the right and at the bottom is not
    /// used. Every patch is taken under each of the transformations, in
    /// their order: the count of a patch that is already known grows by
    /// one, and a new patch joins the end of the atlas with count one.
    ///
    /// The arguments are refused if there is no transformation, if the
    /// overlap is not smaller than the side of a patch, or if the image is
    /// smaller than one patch. The cut fails with `FrequencyOverflow` where
    /// a count would outgrow a machine word.
    pub fn add_tiles(
        self,
        image: &Image,
        overlap: usize,
        transformations: &Vec<Transformation>,
    ) -> (r: Result<TilesetBuilder, WfcError>)
        requires
            self.wf(),
            image.wf(),
        ensures
            match cut_fault(
                image.rows(),
                image.cols(),
                self.side(),
                overlap as nat,
                transformations@.len(),
            ) {
                Some(e) => r == Err::<TilesetBuilder, WfcError>(e),
                None => match absorb_image(
                    self.tally(),
                    image@,
                    self.side(),
                    (self.side() - overlap) as nat,
                    transformations@,
                ) {
                    Some(tally) => r matches Ok(b) && b.tally() == tally && b.wf() && b.interior()
                        == self.interior() && b.border() == self.border() && sum_of(tally.1)
                        == sum_of(self.tally().1) + patch_count(
                        image.rows(),
                        self.side(),
                        (self.side() - overlap) as nat,
                    ) * patch_count(image.cols(), self.side(), (self.side() - overlap) as nat)
                        * transformations@.len(),
                    None => r matches Err(e) && e == WfcError::InvalidAtlas(
                        AtlasFault::FrequencyOverflow,
                    ),
                },
            },
    {
        let side = self.tile_size();
        let height = image.height();
        let width = image.width();
        if transformations.len() == 0 {
            return Err(WfcError::InvalidArgs(ArgsFault::NoTransformations));
        }
        if overlap >= side {
            return Err(WfcError::InvalidArgs(ArgsFault::OverlapTooLarge));
        }
        if height < side || width < side {
            return Err(WfcError::InvalidArgs(ArgsFault::ImageTooSmall));
        }
        let step = side - overlap;
        let rows = (height - side) / step + 1;
        let columns = (width - side) / step + 1;
        let ghost start = self.tally();
        let ghost turns = transformations@;
        let mut builder = self;
        let mut py: usize = 0;
        while py < rows
            invariant
                py <= rows,
                builder.wf(),
                image.wf(),
                height == image.rows(),
                width == image.cols(),
                side == builder.side(),
                0 < step <= side,
                side <= height,
                side <= width,
                rows == (height - side) / (step as int) + 1,
                columns == (width - side) / (step as int) + 1,
                turns == transformations@,
                turns.len() > 0,
                start == self.tally(),
                side == self.side(),
                overlap < side,
                step == side - overlap,
                builder.interior() == self.interior(),
                builder.border() == self.border(),
                absorb_rows(
                    Some(start),
                    image@,
                    side as nat,
                    step as nat,
                    turns,
                    columns as int,
                    py as int,
                ) == Some(builder.tally()),
                sum_of(builder.tally().1) == sum_of(start.1) + py * columns * turns.len(),
            decreases rows - py,
        {
            let ghost row_start = Some(builder.tally());
            proof {
                assert(py * columns * turns.len() == (py * columns + 0) * turns.len())
                    by (nonlinear_arith);
            }
            let mut px: usize = 0;
            while px < columns
                invariant
                    px <= columns,
                    py < rows,
                    builder.wf(),
                    image.wf(),
                    height == image.rows(),
                    width == image.cols(),
                    side == builder.side(),
                    0 < step <= side,
                    side <= height,
                    side <= width,
                    rows == (height - side) / (step as int) + 1,
                    columns == (width - side) / (step as int) + 1,
                    turns == transformations@,
                    turns.len() > 0,
                    start == self.tally(),
                    side == self.side(),
                    overlap < side,
                    step == side - overlap,
                turns.len() > 0,
                start == self.tally(),
                side == self.side(),
                overlap < side,
                step == side - overlap,
                    builder.interior() == self.interior(),
                    builder.border() == self.border(),
                    row_start == absorb_rows(
                        Some(start),
                        image@,
                        side as nat,
                        step as nat,
                        turns,
                        columns as int,
                        py as int,
                    ),
                    absorb_row(
                        row_start,
                        image@,
                        side as nat,
                        step as nat,
                        turns,
                        py as int,
                        px as int,
                    ) == Some(builder.tally()),
                    sum_of(builder.tally().1) == sum_of(start.1) + (py * columns + px)
                        * turns.len(),
                decreases columns - px,
            {
                proof {
                    lemma_patch_inside(height as int, side as int, step as int, py as int);
                    lemma_patch_inside(width as int, side as int, step as int, px as int);
                }
                let patch = image.extract((py * step, px * step), (side, side));
                let ghost patch_start = Some(builder.tally());
                let mut k: usize = 0;
                while k < transformations.len()
                    invariant
                        k <= transformations.len(),
                        py < rows,
                        px < columns,
                        builder.wf(),
                        patch.is_square(side as nat),
                        side == builder.side(),
                        turns == transformations@,
                        turns.len() > 0,
                        start == self.tally(),
                        side == self.side(),
                        overlap < side,
                        step == side - overlap,
                    turns.len() > 0,
                    start == self.tally(),
                    side == self.side(),
                    overlap < side,
                    step == side - overlap,
                turns.len() > 0,
                start == self.tally(),
                side == self.side(),
                overlap < side,
                step == side - overlap,
                        builder.interior() == self.interior(),
                        builder.border() == self.border(),
                        rows == (height - side) / (step as int) + 1,
                        columns == (width - side) / (step as int) + 1,
                        height == image.rows(),
                        width == image.cols(),
                        side <= height,
                        side <= width,
                        0 < step <= side,
                        patch@ == part_of(
                            image@,
                            py * step,
                            px * step,
                            side as nat,
                            side as nat,
                        ),
                        row_start == absorb_rows(
                            Some(start),
                            image@,
                            side as nat,
                            step as nat,
                            turns,
                            columns as int,
                            py as int,
                        ),
                        patch_start == absorb_row(
                            row_start,
                            image@,
                            side as nat,
                            step as nat,
                            turns,
                            py as int,
                            px as int,
                        ),
                        absorb_turns(patch_start, patch@, turns, k as int) == Some(builder.tally()),
                        sum_of(builder.tally().1) == sum_of(start.1) + (py * columns + px)
                            * turns.len() + k,
                    decreases transformations.len() - k,
                {
                    let turned = patch.transform(transformations[k]);
                    match builder.take(turned) {
                        Ok(()) => {},
                        Err(e) => {
                            proof {
                                lemma_overflow_stays(
                                    start,
                                    image@,
                                    side as nat,
                                    step as nat,
                                    turns,
                                    columns as int,
                                    rows as int,
                                    py as int,
                                    px as int,
                                    k as int,
                                );
                            }
                            return Err(e);
                        },
                    }
                    k += 1;
                }
                proof {
                    assert((py * columns + px) * turns.len() + turns.len() == (py * columns + (px
                        + 1)) * turns.len()) by (nonlinear_arith);
                }
                px += 1;
            }
            proof {
                assert((py * columns + columns) * turns.len() == (py + 1) * columns * turns.len())
                    by (nonlinear_arith);
            }
            py += 1;
        }
        Ok(builder)
    }

    /// The adjacency table of the patches: for every ordered pair `(i, j)`
    /// whether the eastern border of `i` has the pixels of the western
    /// border of `j`, so that `j` may stand east of `i`, and whether the
    /// northern border of `i` has the pixels of the southern border of
    /// `j`, so that `j` may stand north of `i`. The borders are strips as
    /// wide as the border of a patch.
    ///
    /// This fails where there is no patch, and where there are more
    /// patches than a table in memory can speak of.
    pub fn adjacency_matrix(&self) -> (r: Result<Adjacency, WfcError>)
        requires
            self.wf(),
        ensures
            match r {
                Ok(a) => {
                    &&& a.wf()
                    &&& a.tiles() == self.tally().0.len()
                    &&& forall|i: int, j: int|
                        0 <= i < a.tiles() && 0 <= j < a.tiles() ==> (#[trigger] a@[i][j])[0]
                            == meets(self.tally().0, self.border(), i, j, Direction::East)
                            && a@[i][j][1] == meets(
                            self.tally().0,
                            self.border(),
                            i,
                            j,
                            Direction::North,
                        )
                },
                Err(e) => {
                    &&& self.tally().0.len() == 0 ==> e == WfcError::InvalidAtlas(AtlasFault::Empty)
                    &&& self.tally().0.len() > 0 ==> e == WfcError::InvalidAtlas(
                        AtlasFault::TooLarge,
                    )
                },
            },
            r.is_ok() <==> self.tally().0.len() > 0 && 2 * self.tally().0.len()
                * self.tally().0.len() <= isize::MAX,
    {
        let n = self.tiles.len();
        let mut table = match Adjacency::new(n) {
            Ok(table) => table,
            Err(e) => {
                return Err(e);
            },
        };
        let mut i: usize = 0;
        while i < n
            invariant
                i <= n,
                n == self.tally().0.len(),
                self.wf(),
                table.wf(),
                table.tiles() == n,
                forall|a: int, b: int|
                    0 <= a < i && 0 <= b < n ==> (#[trigger] table@[a][b])[0] == meets(
                        self.tally().0,
                        self.border(),
                        a,
                        b,
                        Direction::East,
                    ) && table@[a][b][1] == meets(
                        self.tally().0,
                        self.border(),
                        a,
                        b,
                        Direction::North,
                    ),
            decreases n - i,
        {
            let mut j: usize = 0;
            while j < n
                invariant
                    j <= n,
                    i < n,
                    n == self.tally().0.len(),
                    self.wf(),
                    table.wf(),
                    table.tiles() == n,
                    forall|a: int, b: int|
                        0 <= a < i && 0 <= b < n ==> (#[trigger] table@[a][b])[0] == meets(
                            self.tally().0,
                            self.border(),
                            a,
                            b,
                            Direction::East,
                        ) && table@[a][b][1] == meets(
                            self.tally().0,
                            self.border(),
                            a,
                            b,
                            Direction::North,
                        ),
                    forall|b: int|
                        0 <= b < j ==> (#[trigger] table@[i as int][b])[0] == meets(
                            self.tally().0,
                            self.border(),
                            i as int,
                            b,
                            Direction::East,
                        ) && table@[i as int][b][1] == meets(
                            self.tally().0,
                            self.border(),
                            i as int,
                            b,
                            Direction::North,
                        ),
                decreases n - j,
            {
                proof {
                    assert(picture_shaped(self.tally().0[i as int]));
                    assert(picture_shaped(self.tally().0[j as int]));
                }
                let east = self.tiles[i].border_meets(
                    Direction::East,
                    self.border_size,
                    &self.tiles[j],
                );
                let north = self.tiles[i].border_meets(
                    Direction::North,
                    self.border_size,
                    &self.tiles[j],
                );
                table.set(i, j, AXIS_EAST, east);
                table.set(i, j, AXIS_NORTH, north);
                j += 1;
            }
            i += 1;
        }
        Ok(table)
    }
}

impl TilesetBuilder {
    /// Finishes the atlas: the rules are read off the borders of the
    /// patches, and the counts become the frequencies.
    ///
    /// In the atlas, tile `u` is allowed on side `d` of tile `t` exactly
    /// when the border of `t` on side `d` has the pixels of the border of
    /// `u` on the opposite side. The atlas cannot be built without a patch,
    /// with more patches than a table in memory can speak of, or where the
    /// counts add up to more than a machine word holds.
    pub fn build(self) -> (r: Result<Tileset, WfcError>)
        requires
            self.wf(),
        ensures
            r.is_ok() <==> build_fault(self.tally()).is_none(),
            r matches Err(e) ==> Some(e) == build_fault(self.tally()),
            r matches Ok(atlas) ==> {
                &&& atlas.wf()
                &&& atlas.interior() == self.interior()
                &&& atlas.border() == self.border()
                &&& atlas.patches() == self.tally().0
                &&& atlas.counts() == self.tally().1
                &&& forall|t: int, u: int, d: Direction|
                    0 <= t < atlas.patches().len() && 0 <= u < atlas.patches().len() ==> (
                    #[trigger] atlas.rule_table().allowed(t, d).contains(u) <==> meets(
                        self.tally().0,
                        self.border(),
                        t,
                        u,
                        d,
                    ))
            },
    {
        let table = match self.adjacency_matrix() {
            Ok(table) => table,
            Err(e) => {
                return Err(e);
            },
        };
        let n = self.tiles.len();
        let mut tiles: Vec<(Image, usize)> = Vec::new();
        let mut counts: Vec<usize> = Vec::new();
        let mut i: usize = 0;
        while i < n
            invariant
                i <= n,
                n == self.tiles@.len(),
                self.wf(),
                tiles@.len() == i,
                counts@.len() == i,
                forall|k: int|
                    0 <= k < i ==> (#[trigger] tiles@[k]).0.wf() && tiles@[k].0@ == self.tally().0[k]
                        && tiles@[k].1 == self.tally().1[k],
                forall|k: int| 0 <= k < i ==> #[trigger] counts@[k] == self.tally().1[k],
            decreases n - i,
        {
            proof {
                assert(picture_shaped(self.tally().0[i as int]));
            }
            tiles.push((self.tiles[i].duplicate(), self.frequencies[i]));
            counts.push(self.frequencies[i]);
            i += 1;
        }
        proof {
            assert(counts@ =~= self.tally().1);
            assert(patch_pictures(tiles@) =~= self.tally().0);
            assert(patch_counts(tiles@) =~= self.tally().1);
            assert(all_positive(counts@)) by {
                assert forall|k: int| 0 <= k < counts@.len() implies #[trigger] counts@[k] > 0 by {
                    assert(self.tally().1[k] >= 1);
                }
            }
            assert(n < usize::MAX) by (nonlinear_arith)
                requires
                    2 * n * n <= isize::MAX,
                    n > 0,
            ;
            assert(adjacency_square(table@, n as nat));
        }
        let rules = match Rules::new(&table, counts) {
            Ok(rules) => rules,
            Err(e) => {
                return Err(e);
            },
        };
        proof {
            assert forall|t: int, u: int, d: Direction| 0 <= t < n && 0 <= u < n implies (
            #[trigger] rules.allowed(t, d).contains(u) <==> meets(
                self.tally().0,
                self.border(),
                t,
                u,
                d,
            )) by {
                assert(table@[t][u][0] == meets(
                    self.tally().0,
                    self.border(),
                    t,
                    u,
                    Direction::East,
                ));
                assert(table@[u][t][0] == meets(
                    self.tally().0,
                    self.border(),
                    u,
                    t,
                    Direction::East,
                ));
                assert(adjacent(table@, t, u, d) == meets(
                    self.tally().0,
                    self.border(),
                    t,
                    u,
                    d,
                ));
            }
        }
        Tileset::new(self.interior_size, self.border_size, tiles, rules)
    }
}

/// Why a tally makes no atlas, or `None` where it does: no patch, more
/// patches than a table in memory can speak of, or counts that add up to
/// more than a machine word holds; in that order.
pub open spec fn build_fault(tally: Tally) -> Option<WfcError> {
    if tally.0.len() == 0 {
        Some(WfcError::InvalidAtlas(AtlasFault::Empty))
    } else if 2 * tally.0.len() * tally.0.len() > isize::MAX {
        Some(WfcError::InvalidAtlas(AtlasFault::TooLarge))
    } else if sum_of(tally.1) > usize::MAX {
        Some(WfcError::InvalidAtlas(AtlasFault::FrequencyOverflow))
    } else {
        None
    }
}

/// Where an atlas holds as many patches as were taken, every patch was
/// taken once: every frequency is one.
pub proof fn lemma_distinct_patches_count_once(tally: Tally, side: nat)
    requires
        tally_wf(tally, side),
        sum_of(tally.1) == tally.0.len(),
    ensures
        forall|i: int| 0 <= i < tally.1.len() ==> #[trigger] tally.1[i] == 1,
{
    lemma_all_ones(tally.1, tally.1.len() as int);
}

/// Whether patch `j` may stand on side `d` of patch `i`: the strip of
/// `border` pixels on side `d` of `i` has the pixels of the strip on the
/// opposite side of `j`.
pub open spec fn meets(
    patches: Seq<Seq<Seq<Pixel>>>,
    border: nat,
    i: int,
    j: int,
    d: Direction,
) -> bool {
    border_of(patches[i], d, border) == border_of(patches[j], opposite_of(d), border)
}

/// A patch that starts at the `index`-th step lies inside the image.
pub proof fn lemma_patch_inside(len: int, side: int, step: int, index: int)
    requires
        0 < step,
        0 < side <= len,
        0 <= index <= (len - side) / step,
    ensures
        0 <= index * step,
        index * step + side <= len,
{
    assert(index * step <= ((len - side) / step) * step) by (nonlinear_arith)
        requires
            0 <= index <= (len - side) / step,
            0 < step,
    ;
    assert(((len - side) / step) * step <= len - side) by (nonlinear_arith)
        requires
            0 < step,
            0 <= len - side,
    ;
    assert(0 <= index * step) by (nonlinear_arith)
        requires
            0 <= index,
            0 < step,
    ;
}

/// Once a count has outgrown a machine word there is no tally any more,
/// whatever is absorbed later.
pub proof fn lemma_overflow_stays(
    start: Tally,
    image: Seq<Seq<Pixel>>,
    side: nat,
    step: nat,
    turns: Seq<Transformation>,
    columns: int,
    rows: int,
    py: int,
    px: int,
    k: int,
)
    requires
        0 <= py < rows,
        0 <= px < columns,
        0 <= k < turns.len(),
        absorb_turns(
            absorb_row(
                absorb_rows(Some(start), image, side, step, turns, columns, py),
                image,
                side,
                step,
                turns,
                py,
                px,
            ),
            part_of(image, py * step, px * step, side, side),
            turns,
            k + 1,
        ) is None,
    ensures
        absorb_rows(Some(start), image, side, step, turns, columns, rows) is None,
{
    let row_start = absorb_rows(Some(start), image, side, step, turns, columns, py);
    let patch_start = absorb_row(row_start, image, side, step, turns, py, px);
    let patch = part_of(image, py * step, px * step, side, side);
    lemma_turns_none(patch_start, patch, turns, k + 1, turns.len() as int);
    assert(absorb_row(row_start, image, side, step, turns, py, px + 1) is None);
    lemma_row_none(row_start, image, side, step, turns, py, px + 1, columns);
    assert(absorb_rows(Some(start), image, side, step, turns, columns, py + 1) is None);
    lemma_rows_none(Some(start), image, side, step, turns, columns, py + 1, rows);
}

/// No tally after `i` transformations means no tally after `j >= i`.
pub proof fn lemma_turns_none(
    tally: Option<Tally>,
    patch: Seq<Seq<Pixel>>,
    turns: Seq<Transformation>,
    i: int,
    j: int,
)
    requires
        0 <= i <= j,
        absorb_turns(tally, patch, turns, i) is None,
    ensures
        absorb_turns(tally, patch, turns, j) is None,
    decreases j - i,
{
    if i < j {
        lemma_turns_none(tally, patch, turns, i, j - 1);
    }
}

/// Absorbing into no tally gives no tally.
pub proof fn lemma_turns_of_none(patch: Seq<Seq<Pixel>>, turns: Seq<Transformation>, k: int)
    ensures
        absorb_turns(None, patch, turns, k) is None,
    decreases k,
{
    if k > 0 {
        lemma_turns_of_none(patch, turns, k - 1);
    }
}

/// No tally after `i` patches of a row means no tally after `j >= i`.
pub proof fn lemma_row_none(
    tally: Option<Tally>,
    image: Seq<Seq<Pixel>>,
    side: nat,
    step: nat,
    turns: Seq<Transformation>,
    py: int,
    i: int,
    j: int,
)
    requires
        0 <= i <= j,
        absorb_row(tally, image, side, step, turns, py, i) is None,
    ensures
        absorb_row(tally, image, side, step, turns, py, j) is None,
    decreases j - i,
{
    if i < j {
        lemma_row_none(tally, image, side, step, turns, py, i, j - 1);
        lemma_turns_of_none(
            part_of(image, py * step, (j - 1) * step, side, side),
            turns,
            turns.len() as int,
        );
    }
}

/// No tally after `i` rows means no tally after `j >= i`.
pub proof fn lemma_rows_none(
    tally: Option<Tally>,
    image: Seq<Seq<Pixel>>,
    side: nat,
    step: nat,
    turns: Seq<Transformation>,
    columns: int,
    i: int,
    j: int,
)
    requires
        0 <= i <= j,
        absorb_rows(tally, image, side, step, turns, columns, i) is None,
    ensures
        absorb_rows(tally, image, side, step, turns, columns, j) is None,
    decreases j - i,
{
    if i < j {
        lemma_rows_none(tally, image, side, step, turns, columns, i, j - 1);
        if columns >= 0 {
            lemma_row_none(None, image, side, step, turns, j - 1, 0, columns);
        }
    }
}

} // verus!
