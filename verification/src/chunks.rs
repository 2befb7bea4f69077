//! Large maps in chunks: a grid of maps of one size, solved one after the
//! other in row-major order, each taking over the border of the chunks
//! north and west of it.

use crate::cell::Cell;
use crate::direction::Direction;
use crate::error::{ArgsFault, MapFault, WfcError};
use crate::grid::shape_fits;
use crate::image::{
    interior_of, mosaic, mosaic_pictures, mosaic_shaped, picture_shaped, Image, Pixel,
};
use crate::map::{grid_shaped, shared_cell, TileMap};
use crate::render::{atlas_interiors, render_fault, rendered};
use crate::rules::Rules;
use crate::tileset::Tileset;
use crate::wave_function::{solves, takes_part, WaveFunction};
use rand::rngs::StdRng;
use vstd::prelude::*;

verus! {

/// A map of `height` rows and `width` columns that is all wildcards.
pub open spec fn blank(height: nat, width: nat) -> Seq<Seq<Cell>> {
    Seq::new(height, |y: int| Seq::new(width, |x: int| Cell::Wildcard))
}

/// The map `own` after it has taken over, on its side `d`, the strip of
/// `border` rows or columns that `other` has on the opposite side.
pub open spec fn bordered(
    own: Seq<Seq<Cell>>,
    other: Seq<Seq<Cell>>,
    d: Direction,
    border: nat,
) -> Seq<Seq<Cell>> {
    Seq::new(
        own.len(),
        |y: int| Seq::new(own[0].len(), |x: int| shared_cell(own, other, d, border, y, x)),
    )
}

/// The template of a chunk: all wildcards, with the southern strip of the
/// chunk north of it as its northern strip, and then the eastern strip of
/// the chunk west of it as its western strip.
pub open spec fn chunk_template(
    height: nat,
    width: nat,
    border: nat,
    north: Option<Seq<Seq<Cell>>>,
    west: Option<Seq<Seq<Cell>>>,
) -> Seq<Seq<Cell>> {
    let first = match north {
        Some(other) => bordered(blank(height, width), other, Direction::North, border),
        None => blank(height, width),
    };
    match west {
        Some(other) => bordered(first, other, Direction::West, border),
        None => first,
    }
}

/// The cells of the chunk in chunk row `cy`, chunk column `cx`.
pub open spec fn chunk_at(chunks: Seq<Vec<TileMap>>, cy: int, cx: int) -> Seq<Seq<Cell>> {
    chunks[cy]@[cx]@
}

/// The chunk north of the chunk at `(cy, cx)`, if there is one.
pub open spec fn north_of(chunks: Seq<Vec<TileMap>>, cy: int, cx: int) -> Option<Seq<Seq<Cell>>> {
    if cy > 0 {
        Some(chunk_at(chunks, cy - 1, cx))
    } else {
        None
    }
}

/// The chunk west of the chunk at `(cy, cx)`, if there is one.
pub open spec fn west_of(chunks: Seq<Vec<TileMap>>, cy: int, cx: int) -> Option<Seq<Seq<Cell>>> {
    if cx > 0 {
        Some(chunk_at(chunks, cy, cx - 1))
    } else {
        None
    }
}

/// Whether the chunk at `(cy, cx)` is a map of the given size that solves
/// the template its neighbours to the north and to the west leave it.
pub open spec fn chunk_solved(
    chunks: Seq<Vec<TileMap>>,
    rules: Rules,
    height: nat,
    width: nat,
    border: nat,
    cy: int,
    cx: int,
) -> bool {
    &&& chunks[cy]@[cx].wf()
    &&& chunks[cy]@[cx].rows() == height
    &&& chunks[cy]@[cx].cols() == width
    &&& solves(
        chunk_template(height, width, border, north_of(chunks, cy, cx), west_of(chunks, cy, cx)),
        rules,
        chunk_at(chunks, cy, cx),
    )
}

/// Whether every cell of a map is fixed.
pub open spec fn all_fixed(cells: Seq<Seq<Cell>>) -> bool {
    forall|y: int, x: int|
        0 <= y < cells.len() && 0 <= x < cells[y].len() ==> (#[trigger] cells[y][x]) is Fixed
}

/// Along the seam with its western neighbour a solved chunk repeats the
/// neighbour: its western strip holds, cell by cell, what the eastern
/// strip of the neighbour holds where that is fixed.
pub proof fn lemma_west_seam(
    chunks: Seq<Vec<TileMap>>,
    rules: Rules,
    height: nat,
    width: nat,
    border: nat,
    cy: int,
    cx: int,
    y: int,
    x: int,
)
    requires
        cx > 0,
        0 < border < width,
        0 < border < height,
        chunk_solved(chunks, rules, height, width, border, cy, cx),
        chunk_at(chunks, cy, cx - 1).len() == height,
        chunk_at(chunks, cy, cx - 1)[0].len() == width,
        0 <= y < height,
        0 <= x < border,
        chunk_at(chunks, cy, cx - 1)[y][width - border + x] is Fixed,
    ensures
        chunk_at(chunks, cy, cx)[y][x] == chunk_at(chunks, cy, cx - 1)[y][width - border + x],
{
    let west = chunk_at(chunks, cy, cx - 1);
    let template = chunk_template(
        height,
        width,
        border,
        north_of(chunks, cy, cx),
        west_of(chunks, cy, cx),
    );
    let result = chunk_at(chunks, cy, cx);
    assert(template[y][x] == west[y][width - border + x]);
    assert(takes_part(template, y, x));
    assert(result[y][x] is Fixed);
}

/// Along the seam with its northern neighbour a solved chunk repeats the
/// neighbour: its northern strip holds, cell by cell, what the southern
/// strip of the neighbour holds where that is fixed; but for the corner
/// that a western neighbour has already claimed.
pub proof fn lemma_north_seam(
    chunks: Seq<Vec<TileMap>>,
    rules: Rules,
    height: nat,
    width: nat,
    border: nat,
    cy: int,
    cx: int,
    y: int,
    x: int,
)
    requires
        cy > 0,
        0 < border < width,
        0 < border < height,
        chunk_solved(chunks, rules, height, width, border, cy, cx),
        chunk_at(chunks, cy - 1, cx).len() == height,
        chunk_at(chunks, cy - 1, cx)[0].len() == width,
        0 <= y < border,
        0 <= x < width,
        cx == 0 || x >= border,
        chunk_at(chunks, cy - 1, cx)[height - border + y][x] is Fixed,
    ensures
        chunk_at(chunks, cy, cx)[y][x] == chunk_at(chunks, cy - 1, cx)[height - border + y][x],
{
    let north = chunk_at(chunks, cy - 1, cx);
    let template = chunk_template(
        height,
        width,
        border,
        north_of(chunks, cy, cx),
        west_of(chunks, cy, cx),
    );
    let result = chunk_at(chunks, cy, cx);
    let first = bordered(blank(height, width), north, Direction::North, border);
    assert(first[y][x] == north[height - border + y][x]);
    assert(template[y][x] == north[height - border + y][x]);
    assert(takes_part(template, y, x));
    assert(result[y][x] is Fixed);
}

/// A solved chunk whose neighbours to the north and to the west hold no
/// hole holds nothing but fixed cells.
pub proof fn lemma_chunk_all_fixed(
    chunks: Seq<Vec<TileMap>>,
    rules: Rules,
    height: nat,
    width: nat,
    border: nat,
    cy: int,
    cx: int,
)
    requires
        0 < border < width,
        0 < border < height,
        chunk_solved(chunks, rules, height, width, border, cy, cx),
        cy > 0 ==> grid_shaped(chunk_at(chunks, cy - 1, cx)) && chunk_at(chunks, cy - 1, cx).len()
            == height && chunk_at(chunks, cy - 1, cx)[0].len() == width && all_fixed(
            chunk_at(chunks, cy - 1, cx),
        ),
        cx > 0 ==> grid_shaped(chunk_at(chunks, cy, cx - 1)) && chunk_at(chunks, cy, cx - 1).len()
            == height && chunk_at(chunks, cy, cx - 1)[0].len() == width && all_fixed(
            chunk_at(chunks, cy, cx - 1),
        ),
    ensures
        all_fixed(chunk_at(chunks, cy, cx)),
{
    let template = chunk_template(
        height,
        width,
        border,
        north_of(chunks, cy, cx),
        west_of(chunks, cy, cx),
    );
    let result = chunk_at(chunks, cy, cx);
    assert forall|y: int, x: int| 0 <= y < result.len() && 0 <= x < result[y].len() implies (
    #[trigger] result[y][x]) is Fixed by {
        assert(result[y].len() == template[y].len());
        let plain = blank(height, width);
        assert(plain[y][x] == Cell::Wildcard);
        if cy > 0 {
            let north = chunk_at(chunks, cy - 1, cx);
            let first = bordered(plain, north, Direction::North, border);
            if y < border {
                assert(north[height - border + y].len() == north[0].len());
                assert(north[height - border + y][x] is Fixed);
            }
            assert(first[y][x] != Cell::Ignore);
        }
        if cx > 0 {
            let west = chunk_at(chunks, cy, cx - 1);
            if x < border {
                assert(west[y].len() == west[0].len());
                assert(west[y][width - border + x] is Fixed);
            }
        }
        assert(template[y][x] != Cell::Ignore);
        assert(takes_part(template, y, x));
    }
}

/// Why the geometry of a chunked map is refused, or `None` where it is
/// not: a chunk without a cell or with more cells than a table in memory
/// holds, no chunk at all, or a border that is empty or leaves nothing of
/// a chunk; in that order.
pub open spec fn chunk_fault(
    chunk_size: (usize, usize),
    num_chunks: (usize, usize),
    border_size: usize,
) -> Option<WfcError> {
    if chunk_size.0 == 0 || chunk_size.1 == 0 {
        Some(WfcError::InvalidArgs(ArgsFault::ZeroTileSize))
    } else if chunk_size.0 * chunk_size.1 > isize::MAX {
        Some(WfcError::InvalidArgs(ArgsFault::TooLarge))
    } else if num_chunks.0 == 0 || num_chunks.1 == 0 {
        Some(WfcError::InvalidArgs(ArgsFault::ZeroTileSize))
    } else if border_size == 0 {
        Some(WfcError::InvalidArgs(ArgsFault::ZeroBorderSize))
    } else if border_size >= chunk_size.0 || border_size >= chunk_size.1 {
        Some(WfcError::InvalidArgs(ArgsFault::BorderTooLarge))
    } else {
        None
    }
}

/// Whether a product of two sizes is one `ndarray` accepts.
fn product_fits(a: usize, b: usize) -> (r: bool)
    requires
        a > 0,
        b > 0,
    ensures
        r == (a * b <= isize::MAX),
{
    let limit: usize = isize::MAX as usize;
    if a > limit / b {
        assert(a * b > isize::MAX) by (nonlinear_arith)
            requires
                b > 0,
                a > limit / b,
                limit == isize::MAX,
        {
            assert(a * b >= (limit / b + 1) * b);
        }
        false
    } else {
        assert(a * b <= isize::MAX) by (nonlinear_arith)
            requires
                b > 0,
                a <= limit / b,
                limit == isize::MAX,
        {
            assert(a * b <= (limit / b) * b);
        }
        true
    }
}

/// The template of the next chunk of a row: all wildcards, with the
/// borders of the chunk north of it and of the chunk west of it.
fn next_template(
    chunk_size: (usize, usize),
    border_size: usize,
    north: Option<&TileMap>,
    west: Option<&TileMap>,
) -> (template: TileMap)
    requires
        shape_fits(chunk_size.0 as nat, chunk_size.1 as nat),
        0 < border_size < chunk_size.0,
        border_size < chunk_size.1,
        north matches Some(m) ==> m.wf() && m.rows() == chunk_size.0 && m.cols() == chunk_size.1,
        west matches Some(m) ==> m.wf() && m.rows() == chunk_size.0 && m.cols() == chunk_size.1,
    ensures
        template.wf(),
        template.rows() == chunk_size.0,
        template.cols() == chunk_size.1,
        template@ == chunk_template(
            chunk_size.0 as nat,
            chunk_size.1 as nat,
            border_size as nat,
            match north {
                Some(m) => Some(m@),
                None => None,
            },
            match west {
                Some(m) => Some(m@),
                None => None,
            },
        ),
{
    let mut template = TileMap::empty(chunk_size);
    proof {
        assert forall|y: int| 0 <= y < template@.len() implies template@[y] =~= blank(
            chunk_size.0 as nat,
            chunk_size.1 as nat,
        )[y] by {
            assert(template@[y].len() == template@[0].len());
        }
        assert(template@ =~= blank(chunk_size.0 as nat, chunk_size.1 as nat));
    }
    match north {
        Some(other) => {
            let ghost before = template@;
            template.set_shared_border(other, Direction::North, border_size);
            proof {
                let want = bordered(before, other@, Direction::North, border_size as nat);
                assert forall|y: int| 0 <= y < template@.len() implies template@[y] =~= want[y] by {
                    assert(template@[y].len() == template@[0].len());
                }
                assert(template@ =~= want);
            }
        },
        None => {},
    }
    match west {
        Some(other) => {
            let ghost before = template@;
            template.set_shared_border(other, Direction::West, border_size);
            proof {
                let want = bordered(before, other@, Direction::West, border_size as nat);
                assert forall|y: int| 0 <= y < template@.len() implies template@[y] =~= want[y] by {
                    assert(template@[y].len() == template@[0].len());
                }
                assert(template@ =~= want);
            }
        },
        None => {},
    }
    template
}

/// Solves a grid of `num_chunks.0` by `num_chunks.1` chunks of
/// `chunk_size.0` rows and `chunk_size.1` columns each with the solver
/// `WF`.
///
/// The chunks are solved row by row and from left to right. The template
/// of a chunk is all wildcards, but for its northern strip of
/// `border_size` rows, which is the southern strip of the chunk north of
/// it, and its western strip of `border_size` columns, which is the
/// eastern strip of the chunk west of it. Every chunk of the result solves
/// its template. The first chunk that cannot be solved ends the run with
/// the error of the solver.
pub fn collapse_in_chunks<WF: WaveFunction>(
    rules: &Rules,
    chunk_size: (usize, usize),
    num_chunks: (usize, usize),
    border_size: usize,
    rng: &mut StdRng,
) -> (r: Result<Vec<Vec<TileMap>>, WfcError>)
    requires
        rules.wf(),
    ensures
        chunk_fault(chunk_size, num_chunks, border_size) matches Some(e) ==> r == Err::<
            Vec<Vec<TileMap>>,
            WfcError,
        >(e),
        r matches Ok(chunks) ==> {
            &&& chunk_fault(chunk_size, num_chunks, border_size).is_none()
            &&& chunks@.len() == num_chunks.0
            &&& forall|cy: int| 0 <= cy < num_chunks.0 ==> (#[trigger] chunks@[cy])@.len() == num_chunks.1
            &&& forall|cy: int, cx: int|
                0 <= cy < num_chunks.0 && 0 <= cx < num_chunks.1 ==> #[trigger] chunk_solved(
                    chunks@,
                    *rules,
                    chunk_size.0 as nat,
                    chunk_size.1 as nat,
                    border_size as nat,
                    cy,
                    cx,
                )
        },
{
    if chunk_size.0 == 0 || chunk_size.1 == 0 {
        return Err(WfcError::InvalidArgs(ArgsFault::ZeroTileSize));
    }
    if !product_fits(chunk_size.0, chunk_size.1) {
        return Err(WfcError::InvalidArgs(ArgsFault::TooLarge));
    }
    if num_chunks.0 == 0 || num_chunks.1 == 0 {
        return Err(WfcError::InvalidArgs(ArgsFault::ZeroTileSize));
    }
    if border_size == 0 {
        return Err(WfcError::InvalidArgs(ArgsFault::ZeroBorderSize));
    }
    if border_size >= chunk_size.0 || border_size >= chunk_size.1 {
        return Err(WfcError::InvalidArgs(ArgsFault::BorderTooLarge));
    }
    let ghost h = chunk_size.0 as nat;
    let ghost w = chunk_size.1 as nat;
    let ghost b = border_size as nat;
    let mut chunks: Vec<Vec<TileMap>> = Vec::new();
    let mut cy: usize = 0;
    while cy < num_chunks.0
        invariant
            cy <= num_chunks.0,
            rules.wf(),
            h == chunk_size.0,
            w == chunk_size.1,
            b == border_size,
            shape_fits(h, w),
            0 < b < h,
            b < w,
            chunk_fault(chunk_size, num_chunks, border_size).is_none(),
            chunks@.len() == cy,
            forall|a: int| 0 <= a < cy ==> (#[trigger] chunks@[a])@.len() == num_chunks.1,
            forall|a: int, c: int|
                0 <= a < cy && 0 <= c < num_chunks.1 ==> #[trigger] chunk_solved(
                    chunks@,
                    *rules,
                    h,
                    w,
                    b,
                    a,
                    c,
                ),
        decreases num_chunks.0 - cy,
    {
        let mut row: Vec<TileMap> = Vec::new();
        let mut cx: usize = 0;
        while cx < num_chunks.1
            invariant
                cx <= num_chunks.1,
                cy < num_chunks.0,
                rules.wf(),
                h == chunk_size.0,
                w == chunk_size.1,
                b == border_size,
                shape_fits(h, w),
                0 < b < h,
                b < w,
                chunk_fault(chunk_size, num_chunks, border_size).is_none(),
                chunks@.len() == cy,
                row@.len() == cx,
                forall|a: int| 0 <= a < cy ==> (#[trigger] chunks@[a])@.len() == num_chunks.1,
                forall|a: int, c: int|
                    0 <= a < cy && 0 <= c < num_chunks.1 ==> #[trigger] chunk_solved(
                        chunks@,
                        *rules,
                        h,
                        w,
                        b,
                        a,
                        c,
                    ),
                forall|c: int|
                    0 <= c < cx ==> #[trigger] chunk_solved(
                        chunks@.push(row),
                        *rules,
                        h,
                        w,
                        b,
                        cy as int,
                        c,
                    ),
            decreases num_chunks.1 - cx,
        {
            let ghost so_far = chunks@.push(row);
            proof {
                if cy > 0 {
                    assert(chunk_solved(chunks@, *rules, h, w, b, cy - 1, cx as int));
                }
                if cx > 0 {
                    assert(chunk_solved(so_far, *rules, h, w, b, cy as int, cx - 1));
                }
            }
            let template = next_template(
                chunk_size,
                border_size,
                if cy > 0 {
                    Some(&chunks[cy - 1][cx])
                } else {
                    None
                },
                if cx > 0 {
                    Some(&row[cx - 1])
                } else {
                    None
                },
            );
            let solved = match WF::collapse(&template, rules, rng) {
                Ok(solved) => solved,
                Err(e) => {
                    return Err(e);
                },
            };
            proof {
                assert(solved@.len() == template@.len());
                assert(solved@[0].len() == template@[0].len());
            }
            let ghost before = row;
            row.push(solved);
            proof {
                let now = chunks@.push(row);
                assert forall|c: int| 0 <= c < cx + 1 implies #[trigger] chunk_solved(
                    now,
                    *rules,
                    h,
                    w,
                    b,
                    cy as int,
                    c,
                ) by {
                    if c < cx {
                        assert(chunk_solved(so_far, *rules, h, w, b, cy as int, c));
                        assert(now[cy as int]@[c] == so_far[cy as int]@[c]);
                        assert(north_of(now, cy as int, c) == north_of(so_far, cy as int, c));
                        assert(west_of(now, cy as int, c) == west_of(so_far, cy as int, c)) by {
                            if c > 0 {
                                assert(now[cy as int]@[c - 1] == so_far[cy as int]@[c - 1]);
                            }
                        }
                    } else {
                        assert(now[cy as int]@[c] == solved);
                        assert(north_of(now, cy as int, c) == north_of(chunks@, cy as int, c));
                        if c > 0 {
                            assert(now[cy as int]@[c - 1] == before@[c - 1]);
                        }
                    }
                }
            }
            cx += 1;
        }
        let ghost earlier = chunks@;
        chunks.push(row);
        proof {
            assert forall|a: int, c: int|
                0 <= a < cy + 1 && 0 <= c < num_chunks.1 implies #[trigger] chunk_solved(
                chunks@,
                *rules,
                h,
                w,
                b,
                a,
                c,
            ) by {
                if a < cy {
                    assert(chunk_solved(earlier, *rules, h, w, b, a, c));
                    assert(chunks@[a] == earlier[a]);
                    if a > 0 {
                        assert(chunks@[a - 1] == earlier[a - 1]);
                    }
                    assert(north_of(chunks@, a, c) == north_of(earlier, a, c));
                    assert(west_of(chunks@, a, c) == west_of(earlier, a, c));
                } else {
                    assert(chunk_solved(earlier.push(row), *rules, h, w, b, a, c));
                    assert(chunks@ =~= earlier.push(row));
                }
            }
        }
        cy += 1;
    }
    Ok(chunks)
}

/// The picture of the chunk at `(cy, cx)` without a frame of `trim`
/// pixels.
pub open spec fn trimmed_picture(
    chunks: Seq<Vec<TileMap>>,
    atlas: Tileset,
    trim: nat,
    cy: int,
    cx: int,
) -> Seq<Seq<Pixel>> {
    interior_of(rendered(chunk_at(chunks, cy, cx), atlas_interiors(atlas), atlas.interior()), trim)
}

/// The pictures of all chunks without their frames.
pub open spec fn trimmed_pictures(chunks: Seq<Vec<TileMap>>, atlas: Tileset, trim: nat) -> Seq<
    Seq<Seq<Seq<Pixel>>>,
> {
    Seq::new(
        chunks.len(),
        |cy: int| Seq::new(chunks[cy]@.len(), |cx: int| trimmed_picture(chunks, atlas, trim, cy, cx)),
    )
}

/// What drawing a grid of chunks may answer where it draws nothing: a
/// chunk names a tile the atlas does not have, a picture does not fit in
/// memory, the frame leaves nothing of the picture of a chunk, or the
/// chunks do not make a grid of one size.
pub open spec fn drawing_failure(e: WfcError) -> bool {
    e == WfcError::InvalidMap(MapFault::IndexOutOfRange) || e == WfcError::InvalidArgs(
        ArgsFault::TooLarge,
    ) || e == WfcError::InvalidArgs(ArgsFault::BorderTooLarge) || e == WfcError::InvalidArgs(
        ArgsFault::DimensionMismatch,
    )
}

/// Whether the chunk at `(cy, cx)` has a picture of which a frame of
/// `trim` pixels leaves something.
pub open spec fn chunk_drawable(
    chunks: Seq<Vec<TileMap>>,
    atlas: Tileset,
    trim: nat,
    cy: int,
    cx: int,
) -> bool {
    &&& render_fault(chunk_at(chunks, cy, cx), atlas).is_none()
    &&& 2 * trim < chunk_at(chunks, cy, cx).len() * atlas.interior()
    &&& 2 * trim < chunk_at(chunks, cy, cx)[0].len() * atlas.interior()
}

/// Whether a grid of chunks has a picture: every chunk has one of which
/// the frame leaves something, what is left makes a grid of pictures of
/// one size, and the whole fits in memory.
pub open spec fn drawable(chunks: Seq<Vec<TileMap>>, atlas: Tileset, trim: nat) -> bool {
    &&& forall|cy: int, cx: int|
        0 <= cy < chunks.len() && 0 <= cx < chunks[cy]@.len() ==> #[trigger] chunk_drawable(
            chunks,
            atlas,
            trim,
            cy,
            cx,
        )
    &&& mosaic_shaped(trimmed_pictures(chunks, atlas, trim))
    &&& picture_shaped(mosaic(trimmed_pictures(chunks, atlas, trim)))
}

/// Draws a grid of chunks as one picture: every chunk is drawn with the
/// patches of `tileset`, loses a frame of half of `border_size` pixels,
/// rounded down, and the pictures are set side by side.
pub fn render_chunks(chunks: &Vec<Vec<TileMap>>, tileset: &Tileset, border_size: usize) -> (r:
    Result<Image, WfcError>)
    requires
        tileset.wf(),
        forall|cy: int, cx: int|
            0 <= cy < chunks@.len() && 0 <= cx < chunks@[cy]@.len() ==> (
            #[trigger] chunks@[cy]@[cx]).wf(),
    ensures
        r.is_ok() <==> drawable(chunks@, *tileset, (border_size / 2) as nat),
        r matches Ok(image) ==> image.wf() && image@ == mosaic(
            trimmed_pictures(chunks@, *tileset, (border_size / 2) as nat),
        ),
        r matches Err(e) ==> drawing_failure(e),
{
    let trim = border_size / 2;
    let ghost want = trimmed_pictures(chunks@, *tileset, trim as nat);
    let mut pictures: Vec<Vec<Image>> = Vec::new();
    let mut cy: usize = 0;
    while cy < chunks.len()
        invariant
            cy <= chunks@.len(),
            tileset.wf(),
            trim == border_size / 2,
            want == trimmed_pictures(chunks@, *tileset, trim as nat),
            forall|a: int, b: int|
                0 <= a < chunks@.len() && 0 <= b < chunks@[a]@.len() ==> (
                #[trigger] chunks@[a]@[b]).wf(),
            pictures@.len() == cy,
            forall|a: int, b: int|
                0 <= a < cy && 0 <= b < chunks@[a]@.len() ==> #[trigger] chunk_drawable(
                    chunks@,
                    *tileset,
                    trim as nat,
                    a,
                    b,
                ),
            forall|a: int| 0 <= a < cy ==> (#[trigger] pictures@[a])@.len() == chunks@[a]@.len(),
            forall|a: int, b: int|
                0 <= a < cy && 0 <= b < chunks@[a]@.len() ==> (#[trigger] pictures@[a]@[b]).wf()
                    && pictures@[a]@[b]@ == want[a][b],
        decreases chunks.len() - cy,
    {
        let mut row: Vec<Image> = Vec::new();
        let mut cx: usize = 0;
        while cx < chunks[cy].len()
            invariant
                cx <= chunks@[cy as int]@.len(),
                cy < chunks@.len(),
                tileset.wf(),
                trim == border_size / 2,
                want == trimmed_pictures(chunks@, *tileset, trim as nat),
                forall|a: int, b: int|
                    0 <= a < chunks@.len() && 0 <= b < chunks@[a]@.len() ==> (
                    #[trigger] chunks@[a]@[b]).wf(),
                row@.len() == cx,
                forall|b: int|
                    0 <= b < cx ==> #[trigger] chunk_drawable(
                        chunks@,
                        *tileset,
                        trim as nat,
                        cy as int,
                        b,
                    ),
                forall|b: int|
                    0 <= b < cx ==> (#[trigger] row@[b]).wf() && row@[b]@ == want[cy as int][b],
            decreases chunks[cy as int].len() - cx,
        {
            assert(chunks@[cy as int]@[cx as int].wf());
            let picture = match chunks[cy][cx].render(tileset) {
                Ok(picture) => picture,
                Err(e) => {
                    proof {
                        assert(!chunk_drawable(chunks@, *tileset, trim as nat, cy as int, cx as int));
                    }
                    return Err(e);
                },
            };
            let (tall, wide) = (picture.height(), picture.width());
            if trim >= tall || trim >= wide || trim >= tall - trim || trim >= wide - trim {
                proof {
                    assert(!chunk_drawable(chunks@, *tileset, trim as nat, cy as int, cx as int));
                }
                return Err(WfcError::InvalidArgs(ArgsFault::BorderTooLarge));
            }
            row.push(picture.interior(trim));
            cx += 1;
        }
        pictures.push(row);
        cy += 1;
    }
    proof {
        assert(mosaic_pictures(pictures@) =~= want) by {
            assert forall|a: int| 0 <= a < want.len() implies mosaic_pictures(pictures@)[a]
                =~= want[a] by {}
        }
    }
    match Image::from_tiles(&pictures) {
        Ok(image) => Ok(image),
        Err(e) => Err(e),
    }
}

} // verus!
