//! Pixel images: the sample an atlas is learned from, the patches of the
//! atlas, and the picture of a finished map.
//!
//! The library holds an image as rows of pixels and compares and copies
//! pixels itself. The symmetry transforms are those of the `photo` crate,
//! reached through the one function at the end of this file whose contract
//! is believed, not proved.

use crate::direction::{opposite_of, Direction};
use crate::error::{ArgsFault, WfcError};
use ndarray::Array3;
use photo::ImageRGBA;
use vstd::prelude::*;

verus! {

/// One pixel: red, green, blue and opacity.
#[derive(Clone, Copy, Debug, PartialEq, Eq, Structural)]
pub struct Pixel {
    pub r: u8,
    pub g: u8,
    pub b: u8,
    pub a: u8,
}

/// A symmetry of the square, applied to patches when an atlas is learned.
#[derive(Clone, Copy, Debug, PartialEq, Eq, Structural)]
pub enum Transformation {
    Identity,
    Rotate90,
    Rotate180,
    Rotate270,
    FlipHorizontal,
    FlipVertical,
    FlipDiagonal,
    FlipAntiDiagonal,
}

/// Whether a transformation exchanges rows and columns.
pub open spec fn swaps_axes(t: Transformation) -> bool {
    match t {
        Transformation::Rotate90 | Transformation::Rotate270 | Transformation::FlipDiagonal
        | Transformation::FlipAntiDiagonal => true,
        _ => false,
    }
}

/// The bytes of an image of `height` rows and `width` columns after the
/// transformation `t`, as the `photo` crate computes them; four bytes per
/// pixel, row by row.
pub uninterp spec fn transformed(height: nat, width: nat, data: Seq<u8>, t: Transformation) -> Seq<
    u8,
>;

/// The eight transformations, the identity first.
pub fn all_transformations() -> (r: Vec<Transformation>)
    ensures
        r@.len() == 8,
        r@[0] == Transformation::Identity,
{
    vec![
        Transformation::Identity,
        Transformation::Rotate90,
        Transformation::Rotate180,
        Transformation::Rotate270,
        Transformation::FlipHorizontal,
        Transformation::FlipVertical,
        Transformation::FlipDiagonal,
        Transformation::FlipAntiDiagonal,
    ]
}

/// The rows of `rows` as sequences of pixels.
pub open spec fn pixel_rows(rows: Seq<Vec<Pixel>>) -> Seq<Seq<Pixel>> {
    Seq::new(rows.len(), |y: int| rows[y]@)
}

/// Whether `rows` is a pixel grid with at least one row and one column
/// that fits in memory as four bytes per pixel.
pub open spec fn picture_shaped(rows: Seq<Seq<Pixel>>) -> bool {
    &&& rows.len() > 0
    &&& rows[0].len() > 0
    &&& forall|y: int| 0 <= y < rows.len() ==> (#[trigger] rows[y]).len() == rows[0].len()
    &&& rows.len() * rows[0].len() * 4 <= isize::MAX
}

/// The bytes of a pixel grid: four per pixel, row by row.
pub open spec fn bytes_of(rows: Seq<Seq<Pixel>>) -> Seq<u8> {
    Seq::new(
        (rows.len() * rows[0].len() * 4) as nat,
        |i: int|
            {
                let p = rows[(i / 4) / (rows[0].len() as int)][(i / 4) % (rows[0].len() as int)];
                if i % 4 == 0 {
                    p.r
                } else if i % 4 == 1 {
                    p.g
                } else if i % 4 == 2 {
                    p.b
                } else {
                    p.a
                }
            },
    )
}

/// The pixel grid of `height` rows and `width` columns whose bytes are
/// `data`.
pub open spec fn rows_of(height: nat, width: nat, data: Seq<u8>) -> Seq<Seq<Pixel>> {
    Seq::new(
        height,
        |y: int|
            Seq::new(
                width,
                |x: int|
                    Pixel {
                        r: data[(y * width + x) * 4],
                        g: data[(y * width + x) * 4 + 1],
                        b: data[(y * width + x) * 4 + 2],
                        a: data[(y * width + x) * 4 + 3],
                    },
            ),
    )
}

/// The `height` by `width` part of `rows` whose top left corner is at
/// `(top, left)`.
pub open spec fn part_of(rows: Seq<Seq<Pixel>>, top: int, left: int, height: nat, width: nat) -> Seq<
    Seq<Pixel>,
> {
    Seq::new(height, |y: int| Seq::new(width, |x: int| rows[top + y][left + x]))
}

/// The strip of `size` rows or columns on side `d` of `rows`.
pub open spec fn border_of(rows: Seq<Seq<Pixel>>, d: Direction, size: nat) -> Seq<Seq<Pixel>> {
    let height = rows.len();
    let width = rows[0].len();
    match d {
        Direction::North => part_of(rows, 0, 0, size, width),
        Direction::South => part_of(rows, height - size, 0, size, width),
        Direction::West => part_of(rows, 0, 0, height, size),
        Direction::East => part_of(rows, 0, width - size, height, size),
    }
}

/// What is left of `rows` without a frame of `border` pixels.
pub open spec fn interior_of(rows: Seq<Seq<Pixel>>, border: nat) -> Seq<Seq<Pixel>> {
    part_of(
        rows,
        border as int,
        border as int,
        (rows.len() - 2 * border) as nat,
        (rows[0].len() - 2 * border) as nat,
    )
}

/// The pixel grid of `rows` after the transformation `t`.
pub open spec fn turned_rows(rows: Seq<Seq<Pixel>>, t: Transformation) -> Seq<Seq<Pixel>> {
    let height = rows.len();
    let width = rows[0].len();
    rows_of(
        if swaps_axes(t) {
            width
        } else {
            height
        },
        if swaps_axes(t) {
            height
        } else {
            width
        },
        transformed(height, width, bytes_of(rows), t),
    )
}

/// An image: a rectangle of pixels with at least one row and one column.
#[derive(Debug)]
pub struct Image {
    rows: Vec<Vec<Pixel>>,
}

impl View for Image {
    type V = Seq<Seq<Pixel>>;

    closed spec fn view(&self) -> Seq<Seq<Pixel>> {
        pixel_rows(self.rows@)
    }
}

impl Image {
    /// The number of rows.
    pub open spec fn rows(&self) -> nat {
        self@.len()
    }

    /// The number of columns.
    pub open spec fn cols(&self) -> nat {
        self@[0].len()
    }

    /// What holds of every image that exists.
    pub open spec fn wf(&self) -> bool {
        picture_shaped(self@)
    }

    /// Whether the image is a square of side `side`.
    pub open spec fn is_square(&self, side: nat) -> bool {
        self.wf() && self.rows() == side && self.cols() == side
    }

    /// The image with the given rows. The rows are refused if there is no
    /// pixel, if two rows differ in length, or if the image would not fit
    /// in memory.
    pub fn new(rows: Vec<Vec<Pixel>>) -> (r: Result<Image, WfcError>)
        ensures
            r.is_ok() <==> picture_shaped(pixel_rows(rows@)),
            r matches Ok(image) ==> image@ == pixel_rows(rows@) && image.wf(),
            r matches Err(e) ==> e == WfcError::InvalidArgs(ArgsFault::ImageTooSmall),
    {
        let height = rows.len();
        if height == 0 {
            return Err(WfcError::InvalidArgs(ArgsFault::ImageTooSmall));
        }
        let width = rows[0].len();
        if width == 0 {
            return Err(WfcError::InvalidArgs(ArgsFault::ImageTooSmall));
        }
        let mut y: usize = 0;
        while y < height
            invariant
                y <= height,
                height == rows@.len(),
                height > 0,
                width == rows@[0]@.len(),
                forall|k: int| 0 <= k < y ==> (#[trigger] rows@[k])@.len() == width,
            decreases height - y,
        {
            if rows[y].len() != width {
                proof {
                    assert(pixel_rows(rows@)[y as int].len() != pixel_rows(rows@)[0].len());
                }
                return Err(WfcError::InvalidArgs(ArgsFault::ImageTooSmall));
            }
            y += 1;
        }
        if !byte_count_fits(height, width) {
            return Err(WfcError::InvalidArgs(ArgsFault::ImageTooSmall));
        }
        proof {
            assert forall|k: int| 0 <= k < pixel_rows(rows@).len() implies (#[trigger] pixel_rows(
                rows@,
            )[k]).len() == pixel_rows(rows@)[0].len() by {
                assert(rows@[k]@.len() == width);
            }
        }
        Ok(Image { rows })
    }

    /// An image of `height` rows and `width` columns with `pixel`
    /// everywhere.
    pub fn filled(height: usize, width: usize, pixel: Pixel) -> (image: Image)
        requires
            height > 0,
            width > 0,
            height * width * 4 <= isize::MAX,
        ensures
            image.wf(),
            image.rows() == height,
            image.cols() == width,
            forall|y: int, x: int|
                0 <= y < height && 0 <= x < width ==> #[trigger] image@[y][x] == pixel,
    {
        let mut rows: Vec<Vec<Pixel>> = Vec::new();
        let mut y: usize = 0;
        while y < height
            invariant
                y <= height,
                rows@.len() == y,
                forall|a: int| 0 <= a < y ==> (#[trigger] rows@[a])@.len() == width,
                forall|a: int, b: int|
                    0 <= a < y && 0 <= b < width ==> #[trigger] rows@[a]@[b] == pixel,
            decreases height - y,
        {
            let mut row: Vec<Pixel> = Vec::new();
            let mut x: usize = 0;
            while x < width
                invariant
                    x <= width,
                    row@.len() == x,
                    forall|b: int| 0 <= b < x ==> #[trigger] row@[b] == pixel,
                decreases width - x,
            {
                row.push(pixel);
                x += 1;
            }
            rows.push(row);
            y += 1;
        }
        let image = Image { rows };
        proof {
            assert(image@[0].len() == width);
            assert forall|a: int| 0 <= a < image@.len() implies (#[trigger] image@[a]).len()
                == image@[0].len() by {
                assert(rows@[a]@.len() == width);
            }
        }
        image
    }

    /// The number of rows.
    pub fn height(&self) -> (h: usize)
        requires
            self.wf(),
        ensures
            h == self.rows(),
            h > 0,
    {
        self.rows.len()
    }

    /// The number of columns.
    pub fn width(&self) -> (w: usize)
        requires
            self.wf(),
        ensures
            w == self.cols(),
            w > 0,
    {
        self.rows[0].len()
    }

    /// The pixel in row `y`, column `x`.
    pub fn pixel(&self, y: usize, x: usize) -> (p: Pixel)
        requires
            self.wf(),
            y < self.rows(),
            x < self.cols(),
        ensures
            p == self@[y as int][x as int],
    {
        proof {
            assert(self@[y as int].len() == self@[0].len());
        }
        self.rows[y][x]
    }

    /// A copy of the part of `size.0` rows and `size.1` columns whose top
    /// left corner is at `start`. The part must lie inside the image and
    /// hold a pixel.
    pub fn extract(&self, start: (usize, usize), size: (usize, usize)) -> (part: Image)
        requires
            self.wf(),
            size.0 > 0,
            size.1 > 0,
            start.0 + size.0 <= self.rows(),
            start.1 + size.1 <= self.cols(),
        ensures
            part.wf(),
            part@ == part_of(self@, start.0 as int, start.1 as int, size.0 as nat, size.1 as nat),
            part.rows() == size.0,
            part.cols() == size.1,
    {
        let full_height = self.height();
        let full_width = self.width();
        let mut rows: Vec<Vec<Pixel>> = Vec::new();
        let mut y: usize = 0;
        while y < size.0
            invariant
                y <= size.0,
                self.wf(),
                full_height == self.rows(),
                full_width == self.cols(),
                start.0 + size.0 <= self.rows(),
                start.1 + size.1 <= self.cols(),
                rows@.len() == y,
                forall|a: int| 0 <= a < y ==> (#[trigger] rows@[a])@.len() == size.1,
                forall|a: int, b: int|
                    0 <= a < y && 0 <= b < size.1 ==> #[trigger] rows@[a]@[b] == self@[start.0
                        + a][start.1 + b],
            decreases size.0 - y,
        {
            let mut row: Vec<Pixel> = Vec::new();
            let mut x: usize = 0;
            while x < size.1
                invariant
                    x <= size.1,
                    y < size.0,
                    self.wf(),
                    full_height == self.rows(),
                    full_width == self.cols(),
                    start.0 + size.0 <= self.rows(),
                    start.1 + size.1 <= self.cols(),
                    row@.len() == x,
                    forall|b: int|
                        0 <= b < x ==> #[trigger] row@[b] == self@[start.0 + y][start.1 + b],
                decreases size.1 - x,
            {
                row.push(self.pixel(start.0 + y, start.1 + x));
                x += 1;
            }
            rows.push(row);
            y += 1;
        }
        let part = Image { rows };
        proof {
            let want = part_of(
                self@,
                start.0 as int,
                start.1 as int,
                size.0 as nat,
                size.1 as nat,
            );
            assert(part@.len() == want.len());
            assert forall|a: int| 0 <= a < part@.len() implies part@[a] =~= want[a] by {
                assert(rows@[a]@.len() == size.1);
            }
            assert(part@ =~= want);
            lemma_part_fits(self@, start.0 as int, start.1 as int, size.0 as nat, size.1 as nat);
        }
        part
    }

    /// A copy of the image without a frame of `border_size` pixels. The
    /// frame must leave a pixel.
    pub fn interior(&self, border_size: usize) -> (inner: Image)
        requires
            self.wf(),
            2 * border_size < self.rows(),
            2 * border_size < self.cols(),
        ensures
            inner.wf(),
            inner@ == interior_of(self@, border_size as nat),
            inner.rows() == self.rows() - 2 * border_size,
            inner.cols() == self.cols() - 2 * border_size,
    {
        let height = self.height();
        let width = self.width();
        self.extract(
            (border_size, border_size),
            (height - 2 * border_size, width - 2 * border_size),
        )
    }

    /// A copy of the image.
    pub fn duplicate(&self) -> (copy: Image)
        requires
            self.wf(),
        ensures
            copy.wf(),
            copy@ == self@,
    {
        let height = self.height();
        let width = self.width();
        let copy = self.extract((0, 0), (height, width));
        proof {
            assert forall|a: int| 0 <= a < copy@.len() implies copy@[a] =~= self@[a] by {
                assert(self@[a].len() == width);
            }
            assert(copy@ =~= self@);
        }
        copy
    }

    /// Whether the two images have the same size and the same pixels.
    pub fn same_pixels(&self, other: &Image) -> (r: bool)
        requires
            self.wf(),
            other.wf(),
        ensures
            r == (self@ == other@),
    {
        let height = self.height();
        let width = self.width();
        if other.height() != height || other.width() != width {
            proof {
                if self@ == other@ {
                    assert(self@[0].len() == other@[0].len());
                }
            }
            return false;
        }
        self.part_equals((0, 0), other, (0, 0), (height, width))
    }

    /// Whether the part of this image of the given size at `start` has the
    /// same pixels as the part of `other` of that size at `other_start`.
    /// Both parts must lie inside their images.
    pub fn part_equals(
        &self,
        start: (usize, usize),
        other: &Image,
        other_start: (usize, usize),
        size: (usize, usize),
    ) -> (r: bool)
        requires
            self.wf(),
            other.wf(),
            start.0 + size.0 <= self.rows(),
            start.1 + size.1 <= self.cols(),
            other_start.0 + size.0 <= other.rows(),
            other_start.1 + size.1 <= other.cols(),
        ensures
            r == (part_of(self@, start.0 as int, start.1 as int, size.0 as nat, size.1 as nat)
                == part_of(
                other@,
                other_start.0 as int,
                other_start.1 as int,
                size.0 as nat,
                size.1 as nat,
            )),
            size.0 == self.rows() && size.1 == self.cols() && size.0 == other.rows() && size.1
                == other.cols() ==> r == (self@ == other@),
    {
        let ghost mine = part_of(
            self@,
            start.0 as int,
            start.1 as int,
            size.0 as nat,
            size.1 as nat,
        );
        let ghost theirs = part_of(
            other@,
            other_start.0 as int,
            other_start.1 as int,
            size.0 as nat,
            size.1 as nat,
        );
        proof {
            if size.0 == self.rows() && size.1 == self.cols() && size.0 == other.rows() && size.1
                == other.cols() {
                assert forall|a: int| 0 <= a < self@.len() implies mine[a] =~= self@[a] by {
                    assert(self@[a].len() == self@[0].len());
                }
                assert(mine =~= self@);
                assert forall|a: int| 0 <= a < other@.len() implies theirs[a] =~= other@[a] by {
                    assert(other@[a].len() == other@[0].len());
                }
                assert(theirs =~= other@);
            }
        }
        let bounds = (self.height(), self.width(), other.height(), other.width());
        let mut y: usize = 0;
        while y < size.0
            invariant
                y <= size.0,
                self.wf(),
                other.wf(),
                bounds.0 == self.rows(),
                bounds.1 == self.cols(),
                bounds.2 == other.rows(),
                bounds.3 == other.cols(),
                start.0 + size.0 <= self.rows(),
                start.1 + size.1 <= self.cols(),
                other_start.0 + size.0 <= other.rows(),
                other_start.1 + size.1 <= other.cols(),
                mine == part_of(self@, start.0 as int, start.1 as int, size.0 as nat, size.1 as nat),
                theirs == part_of(
                    other@,
                    other_start.0 as int,
                    other_start.1 as int,
                    size.0 as nat,
                    size.1 as nat,
                ),
                forall|a: int, b: int|
                    0 <= a < y && 0 <= b < size.1 ==> #[trigger] mine[a][b] == theirs[a][b],
            decreases size.0 - y,
        {
            let mut x: usize = 0;
            while x < size.1
                invariant
                    x <= size.1,
                    y < size.0,
                    self.wf(),
                    other.wf(),
                    bounds.0 == self.rows(),
                    bounds.1 == self.cols(),
                    bounds.2 == other.rows(),
                    bounds.3 == other.cols(),
                    start.0 + size.0 <= self.rows(),
                    start.1 + size.1 <= self.cols(),
                    other_start.0 + size.0 <= other.rows(),
                    other_start.1 + size.1 <= other.cols(),
                    mine == part_of(
                        self@,
                        start.0 as int,
                        start.1 as int,
                        size.0 as nat,
                        size.1 as nat,
                    ),
                    theirs == part_of(
                        other@,
                        other_start.0 as int,
                        other_start.1 as int,
                        size.0 as nat,
                        size.1 as nat,
                    ),
                    forall|b: int| 0 <= b < x ==> #[trigger] mine[y as int][b] == theirs[y as int][b],
                decreases size.1 - x,
            {
                let p = self.pixel(start.0 + y, start.1 + x);
                let q = other.pixel(other_start.0 + y, other_start.1 + x);
                if p != q {
                    proof {
                        assert(mine[y as int][x as int] == p);
                        assert(theirs[y as int][x as int] == q);
                    }
                    return false;
                }
                x += 1;
            }
            y += 1;
        }
        proof {
            assert forall|a: int| 0 <= a < mine.len() implies mine[a] =~= theirs[a] by {
                assert forall|b: int| 0 <= b < mine[a].len() implies mine[a][b] == theirs[a][b] by {}
            }
            assert(mine =~= theirs);
        }
        true
    }

    /// Whether the strip of `size` rows or columns on side `d` of this
    /// image has the same pixels as the strip of that size on the opposite
    /// side of `other`. Both images must be squares of the same side that
    /// hold the strip.
    pub fn border_meets(&self, d: Direction, size: usize, other: &Image) -> (r: bool)
        requires
            self.wf(),
            other.wf(),
            self.rows() == self.cols(),
            other.rows() == self.rows(),
            other.cols() == self.cols(),
            0 < size <= self.rows(),
        ensures
            r == (border_of(self@, d, size as nat) == border_of(
                other@,
                opposite_of(d),
                size as nat,
            )),
    {
        let side = self.height();
        match d {
            Direction::North => self.part_equals((0, 0), other, (side - size, 0), (size, side)),
            Direction::South => self.part_equals((side - size, 0), other, (0, 0), (size, side)),
            Direction::West => self.part_equals((0, 0), other, (0, side - size), (side, size)),
            Direction::East => self.part_equals((0, side - size), other, (0, 0), (side, size)),
        }
    }

    /// The bytes of the image: four per pixel, row by row.
    pub fn to_bytes(&self) -> (data: Vec<u8>)
        requires
            self.wf(),
        ensures
            data@ == bytes_of(self@),
            data@.len() == self.rows() * self.cols() * 4,
    {
        let height = self.height();
        let width = self.width();
        let mut data: Vec<u8> = Vec::new();
        let mut y: usize = 0;
        while y < height
            invariant
                y <= height,
                self.wf(),
                height == self.rows(),
                width == self.cols(),
                data@.len() == y * width * 4,
                forall|i: int| 0 <= i < data@.len() ==> #[trigger] data@[i] == bytes_of(self@)[i],
            decreases height - y,
        {
            let mut x: usize = 0;
            while x < width
                invariant
                    x <= width,
                    y < height,
                    self.wf(),
                    height == self.rows(),
                    width == self.cols(),
                    data@.len() == (y * width + x) * 4,
                    forall|i: int|
                        0 <= i < data@.len() ==> #[trigger] data@[i] == bytes_of(self@)[i],
                decreases width - x,
            {
                let p = self.pixel(y, x);
                proof {
                    lemma_byte_position(height as int, width as int, y as int, x as int);
                }
                data.push(p.r);
                data.push(p.g);
                data.push(p.b);
                data.push(p.a);
                x += 1;
                proof {
                    assert((y * width + (x - 1)) * 4 + 4 == (y * width + x) * 4) by (nonlinear_arith);
                }
            }
            proof {
                assert((y * width + width) * 4 == (y + 1) * width * 4) by (nonlinear_arith);
            }
            y += 1;
        }
        proof {
            assert(data@ =~= bytes_of(self@));
        }
        data
    }

    /// The image of `height` rows and `width` columns whose bytes are
    /// `data`, four per pixel, row by row.
    pub fn from_bytes(height: usize, width: usize, data: &Vec<u8>) -> (image: Image)
        requires
            height > 0,
            width > 0,
            height * width * 4 <= isize::MAX,
            data@.len() == height * width * 4,
        ensures
            image.wf(),
            image@ == rows_of(height as nat, width as nat, data@),
            image.rows() == height,
            image.cols() == width,
    {
        let mut rows: Vec<Vec<Pixel>> = Vec::new();
        let mut y: usize = 0;
        while y < height
            invariant
                y <= height,
                height * width * 4 <= isize::MAX,
                data@.len() == height * width * 4,
                rows@.len() == y,
                forall|a: int|
                    0 <= a < y ==> (#[trigger] rows@[a])@ == rows_of(
                        height as nat,
                        width as nat,
                        data@,
                    )[a],
            decreases height - y,
        {
            let mut row: Vec<Pixel> = Vec::new();
            let mut x: usize = 0;
            while x < width
                invariant
                    x <= width,
                    y < height,
                    height * width * 4 <= isize::MAX,
                    data@.len() == height * width * 4,
                    row@.len() == x,
                    forall|b: int|
                        0 <= b < x ==> #[trigger] row@[b] == rows_of(
                            height as nat,
                            width as nat,
                            data@,
                        )[y as int][b],
                decreases width - x,
            {
                proof {
                    lemma_byte_position(height as int, width as int, y as int, x as int);
                }
                let at = (y * width + x) * 4;
                row.push(Pixel { r: data[at], g: data[at + 1], b: data[at + 2], a: data[at + 3] });
                x += 1;
            }
            proof {
                assert(row@ =~= rows_of(height as nat, width as nat, data@)[y as int]);
            }
            rows.push(row);
            y += 1;
        }
        let image = Image { rows };
        proof {
            let want = rows_of(height as nat, width as nat, data@);
            assert(image@ =~= want);
        }
        image
    }

    /// The image after the transformation `t`, as the `photo` crate
    /// computes it. The identity leaves the image as it is.
    pub fn transform(&self, t: Transformation) -> (turned: Image)
        requires
            self.wf(),
        ensures
            turned.wf(),
            turned.rows() == (if swaps_axes(t) {
                self.cols()
            } else {
                self.rows()
            }),
            turned.cols() == (if swaps_axes(t) {
                self.rows()
            } else {
                self.cols()
            }),
            turned@ == turned_rows(self@, t),
            t == Transformation::Identity ==> turned@ == self@,
    {
        let height = self.height();
        let width = self.width();
        let data = self.to_bytes();
        let (new_height, new_width, turned) = photo_transform(height, width, &data, t);
        proof {
            assert(width * height * 4 == height * width * 4) by (nonlinear_arith);
            if t == Transformation::Identity {
                lemma_bytes_round_trip(self@);
            }
        }
        Image::from_bytes(new_height, new_width, &turned)
    }
}

/// The pixel grids of a grid of images.
pub open spec fn mosaic_pictures(tiles: Seq<Vec<Image>>) -> Seq<Seq<Seq<Seq<Pixel>>>> {
    Seq::new(tiles.len(), |r: int| Seq::new(tiles[r]@.len(), |c: int| tiles[r]@[c]@))
}

/// Whether `tiles` is a grid of pictures with at least one row and one
/// column in which every picture has the size of the first.
pub open spec fn mosaic_shaped(tiles: Seq<Seq<Seq<Seq<Pixel>>>>) -> bool {
    &&& tiles.len() > 0
    &&& tiles[0].len() > 0
    &&& forall|r: int| 0 <= r < tiles.len() ==> (#[trigger] tiles[r]).len() == tiles[0].len()
    &&& forall|r: int, c: int|
        0 <= r < tiles.len() && 0 <= c < tiles[0].len() ==> picture_shaped(#[trigger] tiles[r][c])
            && tiles[r][c].len() == tiles[0][0].len() && tiles[r][c][0].len()
            == tiles[0][0][0].len()
}

/// The picture made of a grid of pictures of one size, set side by side.
pub open spec fn mosaic(tiles: Seq<Seq<Seq<Seq<Pixel>>>>) -> Seq<Seq<Pixel>> {
    let tile_height = tiles[0][0].len() as int;
    let tile_width = tiles[0][0][0].len() as int;
    Seq::new(
        tiles.len() * tiles[0][0].len(),
        |y: int|
            Seq::new(
                tiles[0].len() * tiles[0][0][0].len(),
                |x: int| tiles[y / tile_height][x / tile_width][y % tile_height][x % tile_width],
            ),
    )
}

impl Image {
    /// The image made of a grid of images of one size, set side by side.
    /// The grid is refused with `DimensionMismatch` if it has no image, if
    /// its rows differ in length or if its images differ in size, and with
    /// `TooLarge` if the result would not fit in memory.
    pub fn from_tiles(tiles: &Vec<Vec<Image>>) -> (r: Result<Image, WfcError>)
        requires
            forall|a: int, b: int|
                0 <= a < tiles@.len() && 0 <= b < tiles@[a]@.len() ==> (#[trigger] tiles@[a]@[b]).wf(),
        ensures
            r.is_ok() <==> mosaic_shaped(mosaic_pictures(tiles@)) && picture_shaped(
                mosaic(mosaic_pictures(tiles@)),
            ),
            r matches Ok(image) ==> image.wf() && image@ == mosaic(mosaic_pictures(tiles@)),
            r matches Err(e) ==> e == if mosaic_shaped(mosaic_pictures(tiles@)) {
                WfcError::InvalidArgs(ArgsFault::TooLarge)
            } else {
                WfcError::InvalidArgs(ArgsFault::DimensionMismatch)
            },
    {
        let ghost grid = mosaic_pictures(tiles@);
        let grid_rows = tiles.len();
        if grid_rows == 0 {
            return Err(WfcError::InvalidArgs(ArgsFault::DimensionMismatch));
        }
        let grid_cols = tiles[0].len();
        if grid_cols == 0 {
            return Err(WfcError::InvalidArgs(ArgsFault::DimensionMismatch));
        }
        proof {
            assert(grid[0][0] == tiles@[0]@[0]@);
        }
        let tile_height = tiles[0][0].height();
        let tile_width = tiles[0][0].width();
        let mut a: usize = 0;
        while a < grid_rows
            invariant
                a <= grid_rows,
                grid == mosaic_pictures(tiles@),
                grid_rows == tiles@.len(),
                grid_rows > 0,
                grid_cols == tiles@[0]@.len(),
                grid_cols > 0,
                tile_height == grid[0][0].len(),
                tile_width == grid[0][0][0].len(),
                forall|r: int, c: int|
                    0 <= r < tiles@.len() && 0 <= c < tiles@[r]@.len() ==> (
                    #[trigger] tiles@[r]@[c]).wf(),
                forall|r: int| 0 <= r < a ==> (#[trigger] grid[r]).len() == grid_cols,
                forall|r: int, c: int|
                    0 <= r < a && 0 <= c < grid_cols ==> picture_shaped(#[trigger] grid[r][c])
                        && grid[r][c].len() == tile_height && grid[r][c][0].len() == tile_width,
            decreases grid_rows - a,
        {
            if tiles[a].len() != grid_cols {
                proof {
                    assert(grid[a as int].len() != grid[0].len());
                }
                return Err(WfcError::InvalidArgs(ArgsFault::DimensionMismatch));
            }
            let mut b: usize = 0;
            while b < grid_cols
                invariant
                    b <= grid_cols,
                    a < grid_rows,
                    grid == mosaic_pictures(tiles@),
                    grid_rows == tiles@.len(),
                    grid_cols == tiles@[0]@.len(),
                    grid_cols > 0,
                    tiles@[a as int]@.len() == grid_cols,
                    tile_height == grid[0][0].len(),
                    tile_width == grid[0][0][0].len(),
                    forall|r: int, c: int|
                        0 <= r < tiles@.len() && 0 <= c < tiles@[r]@.len() ==> (
                        #[trigger] tiles@[r]@[c]).wf(),
                    forall|c: int|
                        0 <= c < b ==> picture_shaped(#[trigger] grid[a as int][c])
                            && grid[a as int][c].len() == tile_height && grid[a as int][c][0].len()
                            == tile_width,
                decreases grid_cols - b,
            {
                proof {
                    assert(tiles@[a as int]@[b as int].wf());
                    assert(grid[a as int][b as int] == tiles@[a as int]@[b as int]@);
                }
                if tiles[a][b].height() != tile_height || tiles[a][b].width() != tile_width {
                    proof {
                        assert(!(grid[a as int][b as int].len() == grid[0][0].len()
                            && grid[a as int][b as int][0].len() == grid[0][0][0].len()));
                    }
                    return Err(WfcError::InvalidArgs(ArgsFault::DimensionMismatch));
                }
                b += 1;
            }
            a += 1;
        }
        proof {
            assert(mosaic_shaped(grid));
        }
        let ghost want = mosaic(grid);
        let mut rows: Vec<Vec<Pixel>> = Vec::new();
        let mut cy: usize = 0;
        while cy < grid_rows
            invariant
                cy <= grid_rows,
                grid == mosaic_pictures(tiles@),
                mosaic_shaped(grid),
                want == mosaic(grid),
                grid_rows == tiles@.len(),
                grid_cols == tiles@[0]@.len(),
                tile_height == grid[0][0].len(),
                tile_width == grid[0][0][0].len(),
                tile_height > 0,
                tile_width > 0,
                forall|r: int, c: int|
                    0 <= r < tiles@.len() && 0 <= c < tiles@[r]@.len() ==> (
                    #[trigger] tiles@[r]@[c]).wf(),
                rows@.len() == cy * tile_height,
                forall|y: int| 0 <= y < rows@.len() ==> (#[trigger] rows@[y])@ == want[y],
            decreases grid_rows - cy,
        {
            let mut py: usize = 0;
            while py < tile_height
                invariant
                    py <= tile_height,
                    cy < grid_rows,
                    grid == mosaic_pictures(tiles@),
                    mosaic_shaped(grid),
                    want == mosaic(grid),
                    grid_rows == tiles@.len(),
                    grid_cols == tiles@[0]@.len(),
                    tile_height == grid[0][0].len(),
                    tile_width == grid[0][0][0].len(),
                    tile_height > 0,
                    tile_width > 0,
                    forall|r: int, c: int|
                        0 <= r < tiles@.len() && 0 <= c < tiles@[r]@.len() ==> (
                        #[trigger] tiles@[r]@[c]).wf(),
                    rows@.len() == cy * tile_height + py,
                    forall|y: int| 0 <= y < rows@.len() ==> (#[trigger] rows@[y])@ == want[y],
                decreases tile_height - py,
            {
                let ghost y = cy * tile_height + py;
                proof {
                    vstd::arithmetic::div_mod::lemma_fundamental_div_mod_converse(
                        y,
                        tile_height as int,
                        cy as int,
                        py as int,
                    );
                    assert(y < grid_rows * tile_height) by (nonlinear_arith)
                        requires
                            y == cy * tile_height + py,
                            py < tile_height,
                            cy < grid_rows,
                    ;
                    assert(grid[cy as int].len() == grid_cols);
                }
                let mut row: Vec<Pixel> = Vec::new();
                let mut cx: usize = 0;
                while cx < grid_cols
                    invariant
                        cx <= grid_cols,
                        cy < grid_rows,
                        py < tile_height,
                        grid == mosaic_pictures(tiles@),
                        mosaic_shaped(grid),
                        grid_rows == tiles@.len(),
                        grid_cols == tiles@[0]@.len(),
                        tiles@[cy as int]@.len() == grid_cols,
                        tile_height == grid[0][0].len(),
                        tile_width == grid[0][0][0].len(),
                        tile_height > 0,
                        tile_width > 0,
                        y == cy * tile_height + py,
                        y / (tile_height as int) == cy,
                        y % (tile_height as int) == py,
                        forall|r: int, c: int|
                            0 <= r < tiles@.len() && 0 <= c < tiles@[r]@.len() ==> (
                            #[trigger] tiles@[r]@[c]).wf(),
                        row@.len() == cx * tile_width,
                        forall|x: int|
                            0 <= x < row@.len() ==> #[trigger] row@[x] == grid[y / (
                            tile_height as int)][x / (tile_width as int)][y % (
                            tile_height as int)][x % (tile_width as int)],
                    decreases grid_cols - cx,
                {
                    let mut px: usize = 0;
                    while px < tile_width
                        invariant
                            px <= tile_width,
                            cx < grid_cols,
                            cy < grid_rows,
                            py < tile_height,
                            grid == mosaic_pictures(tiles@),
                            mosaic_shaped(grid),
                            grid_rows == tiles@.len(),
                            grid_cols == tiles@[0]@.len(),
                            tiles@[cy as int]@.len() == grid_cols,
                            tile_height == grid[0][0].len(),
                            tile_width == grid[0][0][0].len(),
                            tile_height > 0,
                            tile_width > 0,
                            y == cy * tile_height + py,
                            y / (tile_height as int) == cy,
                            y % (tile_height as int) == py,
                            forall|r: int, c: int|
                                0 <= r < tiles@.len() && 0 <= c < tiles@[r]@.len() ==> (
                                #[trigger] tiles@[r]@[c]).wf(),
                            row@.len() == cx * tile_width + px,
                            forall|x: int|
                                0 <= x < row@.len() ==> #[trigger] row@[x] == grid[y / (
                                tile_height as int)][x / (tile_width as int)][y % (
                                tile_height as int)][x % (tile_width as int)],
                        decreases tile_width - px,
                    {
                        proof {
                            vstd::arithmetic::div_mod::lemma_fundamental_div_mod_converse(
                                cx * tile_width + px,
                                tile_width as int,
                                cx as int,
                                px as int,
                            );
                            assert(tiles@[cy as int]@[cx as int].wf());
                            assert(grid[cy as int][cx as int] == tiles@[cy as int]@[cx as int]@);
                            assert(picture_shaped(grid[cy as int][cx as int]));
                        }
                        row.push(tiles[cy][cx].pixel(py, px));
                        px += 1;
                    }
                    proof {
                        assert(cx * tile_width + tile_width == (cx + 1) * tile_width)
                            by (nonlinear_arith);
                    }
                    cx += 1;
                }
                proof {
                    assert(row@ =~= want[y]);
                }
                rows.push(row);
                py += 1;
            }
            proof {
                assert(cy * tile_height + tile_height == (cy + 1) * tile_height)
                    by (nonlinear_arith);
            }
            cy += 1;
        }
        proof {
            assert(pixel_rows(rows@) =~= want);
        }
        match Image::new(rows) {
            Ok(image) => Ok(image),
            Err(e) => Err(WfcError::InvalidArgs(ArgsFault::TooLarge)),
        }
    }
}

/// Whether an image of the given size fits in memory as four bytes per
/// pixel.
fn byte_count_fits(height: usize, width: usize) -> (r: bool)
    requires
        height > 0,
        width > 0,
    ensures
        r == (height * width * 4 <= isize::MAX),
{
    let limit: usize = isize::MAX as usize;
    let per_row = limit / 4 / width;
    if height > per_row {
        assert(height * width * 4 > isize::MAX) by (nonlinear_arith)
            requires
                width > 0,
                height > (limit / 4) / width,
                limit == isize::MAX,
        {
            assert(height * width >= ((limit / 4) / width + 1) * width);
            assert(((limit / 4) / width + 1) * width > limit / 4);
        }
        false
    } else {
        assert(height * width * 4 <= isize::MAX) by (nonlinear_arith)
            requires
                width > 0,
                height <= (limit / 4) / width,
                limit == isize::MAX,
        {
            assert(height * width <= ((limit / 4) / width) * width);
            assert(((limit / 4) / width) * width <= limit / 4);
        }
        true
    }
}

/// A part of a picture is a picture.
pub proof fn lemma_part_fits(rows: Seq<Seq<Pixel>>, top: int, left: int, height: nat, width: nat)
    requires
        picture_shaped(rows),
        height > 0,
        width > 0,
        0 <= top,
        0 <= left,
        top + height <= rows.len(),
        left + width <= rows[0].len(),
    ensures
        picture_shaped(part_of(rows, top, left, height, width)),
{
    let h = rows.len();
    let w = rows[0].len();
    assert(height * width * 4 <= h * w * 4) by (nonlinear_arith)
        requires
            0 < height <= h,
            0 < width <= w,
    ;
}

/// Where the four bytes of the pixel in row `y`, column `x` lie, and that
/// the position leads back to the pixel.
pub proof fn lemma_byte_position(height: int, width: int, y: int, x: int)
    requires
        0 <= y < height,
        0 <= x < width,
    ensures
        0 <= (y * width + x) * 4,
        (y * width + x) * 4 + 3 < height * width * 4,
        forall|c: int|
            0 <= c < 4 ==> (#[trigger] ((y * width + x) * 4 + c)) / 4 == y * width + x && ((y
                * width + x) * 4 + c) % 4 == c,
        (y * width + x) / width == y,
        (y * width + x) % width == x,
{
    assert(y * width + x < height * width) by (nonlinear_arith)
        requires
            0 <= y < height,
            0 <= x < width,
    ;
    assert(0 <= y * width) by (nonlinear_arith)
        requires
            0 <= y,
            0 < width,
    ;
    vstd::arithmetic::div_mod::lemma_fundamental_div_mod_converse(y * width + x, width, y, x);
    assert forall|c: int| 0 <= c < 4 implies (#[trigger] ((y * width + x) * 4 + c)) / 4 == y * width
        + x && ((y * width + x) * 4 + c) % 4 == c by {
        vstd::arithmetic::div_mod::lemma_fundamental_div_mod_converse(
            (y * width + x) * 4 + c,
            4,
            y * width + x,
            c,
        );
    }
}

/// Reading a picture from its own bytes gives the picture back.
pub proof fn lemma_bytes_round_trip(rows: Seq<Seq<Pixel>>)
    requires
        picture_shaped(rows),
    ensures
        rows_of(rows.len(), rows[0].len(), bytes_of(rows)) == rows,
{
    let height = rows.len() as int;
    let width = rows[0].len() as int;
    let back = rows_of(rows.len(), rows[0].len(), bytes_of(rows));
    assert forall|y: int| 0 <= y < height implies back[y] =~= rows[y] by {
        assert(rows[y].len() == width);
        assert forall|x: int| 0 <= x < width implies back[y][x] == rows[y][x] by {
            lemma_byte_position(height, width, y, x);
            let at = (y * width + x) * 4;
            assert((at + 0) / 4 == y * width + x && (at + 0) % 4 == 0);
            assert((at + 1) / 4 == y * width + x && (at + 1) % 4 == 1);
            assert((at + 2) / 4 == y * width + x && (at + 2) % 4 == 2);
            assert((at + 3) / 4 == y * width + x && (at + 3) % 4 == 3);
        }
    }
    assert(back =~= rows);
}

/// `ImageRGBA::transform` of the `photo` crate, on an image handed over
/// and taken back as bytes: the size of the result, which has rows and
/// columns exchanged for the four transformations that turn the image on
/// its side, and its bytes, which are a function of the image and the
/// transformation alone and are those of the image for the identity.
#[verifier::external_body]
fn photo_transform(height: usize, width: usize, data: &Vec<u8>, t: Transformation) -> (r: (
    usize,
    usize,
    Vec<u8>,
))
    requires
        height > 0,
        width > 0,
        height * width * 4 <= isize::MAX,
        data@.len() == height * width * 4,
    ensures
        r.0 == (if swaps_axes(t) {
            width
        } else {
            height
        }),
        r.1 == (if swaps_axes(t) {
            height
        } else {
            width
        }),
        r.2@ == transformed(height as nat, width as nat, data@, t),
        r.2@.len() == data@.len(),
        t == Transformation::Identity ==> r.2@ == data@,
{
    let how = match t {
        Transformation::Identity => photo::Transformation::Identity,
        Transformation::Rotate90 => photo::Transformation::Rotate90,
        Transformation::Rotate180 => photo::Transformation::Rotate180,
        Transformation::Rotate270 => photo::Transformation::Rotate270,
        Transformation::FlipHorizontal => photo::Transformation::FlipHorizontal,
        Transformation::FlipVertical => photo::Transformation::FlipVertical,
        Transformation::FlipDiagonal => photo::Transformation::FlipDiagonal,
        Transformation::FlipAntiDiagonal => photo::Transformation::FlipAntiDiagonal,
    };
    let image = ImageRGBA::new(Array3::from_shape_vec((height, width, 4), data.clone()).unwrap());
    let turned = image.transform(how);
    (turned.height(), turned.width(), turned.data.iter().copied().collect())
}

} // verus!
