//! The plain solver: no buckets, the next cell is found by looking at every
//! cell.

use crate::algorithm::buckets::{lemma_total_le, total};
use crate::algorithm::common::{
    active, cell_ok, in_wave, neighbours_match, size_at, wave_cols, wave_fits, wave_rows,
};
use crate::algorithm::fast::{clash_reported, fast_failure, fast_owed, nothing_to_draw};
use crate::algorithm::solve::{
    commit, decided, decided_by_setup, emit, lemma_forced_is_decided, lemma_forced_is_viable,
    lemma_revisions_bounded, lemma_safe_is_not_doomed, no_clash, safe, stable, start_wave, viable,
    Wave, weights_of,
};
use crate::bitset::bitset_ones;
use crate::error::WfcError;
use crate::grid::{
    domain_grid_at, mask_grid_at, mask_rows, rectangular, size_grid_at, size_rows, MaskGrid,
    SizeGrid,
};
use crate::map::{cells_fit, TileMap};
use crate::rng::sample_index;
use crate::rules::Rules;
use crate::wave_function::WaveFunction;
use rand::rngs::StdRng;
use vstd::prelude::*;

verus! {

/// The solver that looks at every cell to find the undecided cell with the
/// fewest candidates, collapses it to a tile drawn by frequency,
/// propagates, and gives up at the first contradiction.
pub struct WaveFunctionBasic;

/// Whether the cell `(y, x)` takes part and has more than one candidate.
pub open spec fn open_cell(sizes: SizeGrid, mask: Seq<Seq<bool>>, y: int, x: int) -> bool {
    active(mask, y, x) && size_at(sizes, y, x) >= 2
}

/// Whether `(a, b)` comes before `(y, x)` in reading order.
pub open spec fn reads_before(a: int, b: int, y: int, x: int) -> bool {
    a < y || (a == y && b < x)
}

/// The undecided cell with the fewest candidates, and among several the
/// first in reading order; `None` where no cell is undecided.
pub fn least_open_cell(domain_sizes: &SizeGrid, is_ignore: &MaskGrid, height: usize, width: usize) -> (r:
    Option<(usize, usize)>)
    requires
        rectangular(size_rows(*domain_sizes), height as nat, width as nat),
        rectangular(mask_rows(*is_ignore), height as nat, width as nat),
    ensures
        r.is_none() <==> forall|y: int, x: int|
            0 <= y < height && 0 <= x < width ==> !#[trigger] open_cell(
                *domain_sizes,
                mask_rows(*is_ignore),
                y,
                x,
            ),
        r matches Some(c) ==> {
            &&& c.0 < height
            &&& c.1 < width
            &&& open_cell(*domain_sizes, mask_rows(*is_ignore), c.0 as int, c.1 as int)
            &&& forall|y: int, x: int|
                0 <= y < height && 0 <= x < width && #[trigger] open_cell(
                    *domain_sizes,
                    mask_rows(*is_ignore),
                    y,
                    x,
                ) ==> size_at(*domain_sizes, c.0 as int, c.1 as int) < size_at(*domain_sizes, y, x)
                    || (size_at(*domain_sizes, c.0 as int, c.1 as int) == size_at(
                    *domain_sizes,
                    y,
                    x,
                ) && !reads_before(y, x, c.0 as int, c.1 as int))
        },
{
    let ghost mask = mask_rows(*is_ignore);
    let mut best: Option<(usize, usize)> = None;
    let mut least: usize = 0;
    let mut y: usize = 0;
    while y < height
        invariant
            y <= height,
            mask == mask_rows(*is_ignore),
            rectangular(size_rows(*domain_sizes), height as nat, width as nat),
            rectangular(mask, height as nat, width as nat),
            best.is_none() ==> forall|a: int, b: int|
                0 <= a < y && 0 <= b < width ==> !#[trigger] open_cell(*domain_sizes, mask, a, b),
            best matches Some(c) ==> c.0 < y && c.1 < width && open_cell(
                *domain_sizes,
                mask,
                c.0 as int,
                c.1 as int,
            ) && least == size_at(*domain_sizes, c.0 as int, c.1 as int) && forall|a: int, b: int|
                0 <= a < y && 0 <= b < width && #[trigger] open_cell(*domain_sizes, mask, a, b)
                    ==> least < size_at(*domain_sizes, a, b) || (least == size_at(
                    *domain_sizes,
                    a,
                    b,
                ) && !reads_before(a, b, c.0 as int, c.1 as int)),
        decreases height - y,
    {
        let mut x: usize = 0;
        while x < width
            invariant
                x <= width,
                y < height,
                mask == mask_rows(*is_ignore),
                rectangular(size_rows(*domain_sizes), height as nat, width as nat),
                rectangular(mask, height as nat, width as nat),
                best.is_none() ==> forall|a: int, b: int|
                    0 <= a <= y && 0 <= b < width && reads_before(a, b, y as int, x as int)
                        ==> !#[trigger] open_cell(*domain_sizes, mask, a, b),
                best matches Some(c) ==> c.0 <= y && c.1 < width && reads_before(
                    c.0 as int,
                    c.1 as int,
                    y as int,
                    x as int,
                ) && open_cell(*domain_sizes, mask, c.0 as int, c.1 as int) && least == size_at(
                    *domain_sizes,
                    c.0 as int,
                    c.1 as int,
                ) && forall|a: int, b: int|
                    0 <= a <= y && 0 <= b < width && reads_before(a, b, y as int, x as int)
                        && #[trigger] open_cell(*domain_sizes, mask, a, b) ==> least < size_at(
                        *domain_sizes,
                        a,
                        b,
                    ) || (least == size_at(*domain_sizes, a, b) && !reads_before(
                        a,
                        b,
                        c.0 as int,
                        c.1 as int,
                    )),
            decreases width - x,
        {
            let size = size_grid_at(domain_sizes, y, x);
            if !mask_grid_at(is_ignore, y, x) && size >= 2 {
                let better = match best {
                    Some(_) => size < least,
                    None => true,
                };
                if better {
                    best = Some((y, x));
                    least = size;
                }
            }
            x += 1;
        }
        y += 1;
    }
    best
}

impl WaveFunction for WaveFunctionBasic {
    /// Fills the wildcards of `map`.
    ///
    /// After the initial propagation the solver takes, again and again,
    /// the undecided cell with the fewest candidates, the first in reading
    /// order among several, draws one of its candidates by frequency,
    /// commits the cell to it and propagates. It ends when no cell is
    /// undecided. A contradiction is returned as `ContradictionAt`.
    fn collapse(map: &TileMap, rules: &Rules, rng: &mut StdRng) -> (r: Result<TileMap, WfcError>)
        ensures
            r matches Err(e) ==> fast_failure(e, map@, rules.tiles(), usize::MAX),
            fast_owed(r, map@, *rules, usize::MAX),
            clash_reported(r, map@, *rules),
            nothing_to_draw(map@, *rules, usize::MAX) ==> *final(rng) == *old(rng),
    {
        let n = rules.len();
        let (height, width) = map.size();
        let wave = match start_wave(map, rules, usize::MAX) {
            Ok(wave) => wave,
            Err(e) => {
                proof {
                    if decided_by_setup(map@, *rules) {
                        lemma_forced_is_viable(map@, *rules);
                    }
                }
                return Err(e);
            },
        };
        let Wave { mut domains, mut sizes, is_ignore, neighbours } = wave;
        let ghost mask = mask_rows(is_ignore);
        proof {
            if decided_by_setup(map@, *rules) {
                lemma_forced_is_decided(map@, *rules, domains, sizes, mask);
            }
            assert(map@[0].len() == width);
        }
        loop
            invariant
                map.wf(),
                n == rules.tiles(),
                height == wave_rows(domains),
                width == wave_cols(domains),
                mask == mask_rows(is_ignore),
                cells_fit(map@, n as nat),
                viable(map@, *rules),
                no_clash(map@, *rules),
                decided_by_setup(map@, *rules) ==> decided(domains, sizes, mask) && *rng == *old(rng),
                stable(map@, *rules, domains, sizes, mask),
                neighbours_match(neighbours, mask),
            ensures
                forall|y: int, x: int|
                    0 <= y < height && 0 <= x < width ==> !#[trigger] open_cell(sizes, mask, y, x),
            decreases total(size_rows(sizes)),
        {
            let cell = match least_open_cell(&sizes, &is_ignore, height, width) {
                Some(cell) => cell,
                None => {
                    break ;
                },
            };
            let options = bitset_ones(domain_grid_at(&domains, cell.0, cell.1));
            proof {
                assert(cell_ok(domains, sizes, cell.0 as int, cell.1 as int, n as nat));
                assert(open_cell(sizes, mask, cell.0 as int, cell.1 as int));
                assert(!decided_by_setup(map@, *rules));
            }
            let weights = weights_of(rules, &options);
            let pick = sample_index(rng, &weights);
            let choice = options[pick];
            let ghost d0 = domains;
            let ghost s0 = sizes;
            match commit(
                &mut domains,
                &mut sizes,
                rules,
                &is_ignore,
                &neighbours,
                cell,
                choice,
                usize::MAX,
                map,
            ) {
                Err(e) => {
                    proof {
                        assert(map@[0].len() == width);
                        assert(4 <= 4 * height * width) by (nonlinear_arith)
                            requires
                                height >= 1,
                                width >= 1,
                        ;
                        lemma_revisions_bounded(d0, s0, n as nat, 4);
                        if safe(map@, *rules) {
                            lemma_safe_is_not_doomed(
                                map@,
                                *rules,
                                d0,
                                s0,
                                mask,
                                cell.0 as int,
                                cell.1 as int,
                                choice as int,
                            );
                        }
                    }
                    return Err(e);
                },
                Ok(affected) => {
                    proof {
                        assert(size_rows(sizes)[cell.0 as int][cell.1 as int] < size_rows(
                            s0,
                        )[cell.0 as int][cell.1 as int]);
                        assert forall|y: int, x: int|
                            0 <= y < height && 0 <= x < size_rows(sizes)[y].len() implies size_rows(
                            sizes,
                        )[y][x] <= size_rows(s0)[y][x] by {
                            assert(size_at(sizes, y, x) <= size_at(s0, y, x));
                        }
                        lemma_total_le(size_rows(sizes), size_rows(s0), height as int);
                    }
                },
            }
        }
        proof {
            assert forall|y: int, x: int|
                in_wave(domains, y, x) && active(mask, y, x) implies #[trigger] size_at(
                sizes,
                y,
                x,
            ) == 1 by {
                assert(!open_cell(sizes, mask, y, x));
            }
        }
        Ok(emit(map, rules, &domains, &is_ignore, &sizes))
    }
}

} // verus!
