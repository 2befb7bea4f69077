//! The solver without backtracking: the first contradiction is final.

use crate::algorithm::buckets::{
    entries_in_wave, filed_right, in_step, lemma_total_le, lowest, take_first, total,
};
use crate::algorithm::common::{
    active, cell_ok, in_wave, listed, neighbours_match, size_at, wave_cols, wave_rows,
};
use crate::algorithm::solve::{
    commit, decided, decided_by_setup, emit, fill_buckets, first_clash, lemma_forced_is_decided,
    lemma_forced_is_viable, lemma_holes_decided, lemma_revisions_bounded,
    lemma_safe_is_not_doomed, lemma_size_bound, no_clash, refile, safe, setup_bound, stable,
    start_wave, viable, Wave, weights_of,
};
use crate::bitset::bitset_ones;
use crate::cell::Cell;
use crate::error::{MapFault, WfcError};
use crate::grid::{domain_grid_at, mask_rows, size_rows};
use crate::map::{cells_fit, TileMap};
use crate::rng::sample_index;
use crate::rules::Rules;
use crate::wave_function::{solves, takes_part, WaveFunction};
use rand::rngs::StdRng;
use vstd::prelude::*;

verus! {

/// The number of arc revisions one propagation of the fast solver may
/// make.
pub const MAX_ITERATIONS: usize = 1_000_000_000;

/// The number of arc revisions one propagation of the second fast solver
/// may make.
pub const MAX_ITERATIONS_OPTIMISED: usize = 1_000_000;

/// The solver that collapses the undecided cell with the fewest candidates
/// to a tile drawn by frequency, propagates, and gives up at the first
/// contradiction.
pub struct WaveFunctionFast;

/// The same solver with a lower bound on the revisions of one propagation.
pub struct WaveFunctionOptimised;

/// What the fast solver may answer where it finds no solution. Either the
/// template names a tile the rules do not know. Or a propagation ran out
/// of iterations, and then `max_iterations` is below the bound for the
/// grid. Or a propagation left a cell that takes part without a candidate.
pub open spec fn fast_failure(
    e: WfcError,
    template: Seq<Seq<Cell>>,
    n: nat,
    max_iterations: usize,
) -> bool {
    match e {
        WfcError::InvalidMap(MapFault::IndexOutOfRange) => !cells_fit(template, n),
        WfcError::IterationLimit => cells_fit(template, n) && max_iterations < setup_bound(
            template.len(),
            template[0].len(),
            n,
        ),
        WfcError::ContradictionAt { y, x } => cells_fit(template, n) && takes_part(
            template,
            y as int,
            x as int,
        ),
        _ => false,
    }
}

/// What is owed whatever is drawn, by a solver that gives up at the first
/// contradiction and lets one propagation make `max_iterations`
/// revisions. Where the bound suffices for the grid and the template fits
/// the rules: a template that cannot be made arc consistent is answered
/// with `ContradictionAt`; a template that setup alone decides is
/// answered with a map; and so is a template that can be made arc
/// consistent and on which no decision can lead into a contradiction.
pub open spec fn fast_owed(
    r: Result<TileMap, WfcError>,
    template: Seq<Seq<Cell>>,
    rules: Rules,
    max_iterations: usize,
) -> bool {
    cells_fit(template, rules.tiles()) && max_iterations >= setup_bound(
        template.len(),
        template[0].len(),
        rules.tiles(),
    ) ==> {
        &&& !viable(template, rules) ==> (r matches Err(e) && e is ContradictionAt)
        &&& decided_by_setup(template, rules) ==> r is Ok
        &&& viable(template, rules) && safe(template, rules) ==> r is Ok
    }
}

/// Where two fixed neighbours of the template do not fit, the answer is
/// the contradiction at the first cell in reading order that does not fit
/// a fixed cell above it or to its left.
pub open spec fn clash_reported(
    r: Result<TileMap, WfcError>,
    template: Seq<Seq<Cell>>,
    rules: Rules,
) -> bool {
    cells_fit(template, rules.tiles()) ==> forall|y: usize, x: usize| #[trigger]
        first_clash(template, rules, y as int, x as int) ==> r == Err::<TileMap, WfcError>(
            WfcError::ContradictionAt { y, x },
        )
}

/// Whether a solver has to draw at all: not where the template does not
/// fit the rules, cannot be made arc consistent, or is decided by setup.
pub open spec fn nothing_to_draw(
    template: Seq<Seq<Cell>>,
    rules: Rules,
    max_iterations: usize,
) -> bool {
    !cells_fit(template, rules.tiles()) || (max_iterations >= setup_bound(
        template.len(),
        template[0].len(),
        rules.tiles(),
    ) && (!viable(template, rules) || decided_by_setup(template, rules)))
}

impl WaveFunction for WaveFunctionFast {
    /// Fills the wildcards of `map` as [`collapse_bounded`] does, with
    /// `MAX_ITERATIONS` revisions for one propagation.
    fn collapse(map: &TileMap, rules: &Rules, rng: &mut StdRng) -> (r: Result<TileMap, WfcError>)
        ensures
            r matches Err(e) ==> fast_failure(e, map@, rules.tiles(), MAX_ITERATIONS),
            fast_owed(r, map@, *rules, MAX_ITERATIONS),
            clash_reported(r, map@, *rules),
            nothing_to_draw(map@, *rules, MAX_ITERATIONS) ==> *final(rng) == *old(rng),
    {
        collapse_bounded(map, rules, rng, MAX_ITERATIONS)
    }
}

impl WaveFunction for WaveFunctionOptimised {
    /// Fills the wildcards of `map` as [`collapse_bounded`] does, with
    /// `MAX_ITERATIONS_OPTIMISED` revisions for one propagation.
    fn collapse(map: &TileMap, rules: &Rules, rng: &mut StdRng) -> (r: Result<TileMap, WfcError>)
        ensures
            r matches Err(e) ==> fast_failure(e, map@, rules.tiles(), MAX_ITERATIONS_OPTIMISED),
            fast_owed(r, map@, *rules, MAX_ITERATIONS_OPTIMISED),
            clash_reported(r, map@, *rules),
            nothing_to_draw(map@, *rules, MAX_ITERATIONS_OPTIMISED) ==> *final(rng) == *old(rng),
    {
        collapse_bounded(map, rules, rng, MAX_ITERATIONS_OPTIMISED)
    }
}

/// Fills the wildcards of `map`, with at most `max_iterations` revisions
/// for one propagation.
///
/// After the initial propagation the solver takes, again and again, the
/// cell filed first in the lowest bucket that is not empty, draws one of
/// its candidates by frequency, commits the cell to it and propagates. It
/// ends when no cell is undecided. A contradiction is returned as
/// `ContradictionAt`, a propagation that runs too long as
/// `IterationLimit`.
///
/// Between two decisions every undecided cell is in exactly one bucket,
/// that of its size, and the cached sizes are the numbers of candidates;
/// so the cell that is taken has as many candidates as its bucket says,
/// and its size need not be counted again.
pub fn collapse_bounded(
    map: &TileMap,
    rules: &Rules,
    rng: &mut StdRng,
    max_iterations: usize,
) -> (r: Result<TileMap, WfcError>)
    requires
        map.wf(),
        rules.wf(),
    ensures
        r matches Ok(m) ==> m.wf() && solves(map@, *rules, m@),
        !cells_fit(map@, rules.tiles()) ==> r == Err::<TileMap, WfcError>(
            WfcError::InvalidMap(MapFault::IndexOutOfRange),
        ),
        r matches Err(e) ==> fast_failure(e, map@, rules.tiles(), max_iterations),
        fast_owed(r, map@, *rules, max_iterations),
        clash_reported(r, map@, *rules),
        nothing_to_draw(map@, *rules, max_iterations) ==> *final(rng) == *old(rng),
{
    let n = rules.len();
    let (height, width) = map.size();
    let wave = match start_wave(map, rules, max_iterations) {
        Ok(wave) => wave,
        Err(e) => {
            proof {
                if decided_by_setup(map@, *rules) {
                    lemma_forced_is_viable(map@, *rules);
                }
            }
            return Err(e);
        },
    };
    let Wave { mut domains, mut sizes, is_ignore, neighbours } = wave;
    let ghost mask = mask_rows(is_ignore);
    proof {
        if decided_by_setup(map@, *rules) {
            lemma_forced_is_decided(map@, *rules, domains, sizes, mask);
        }
        assert(map@[0].len() == width);
        assert forall|y: int, x: int| in_wave(domains, y, x) implies #[trigger] size_at(
            sizes,
            y,
            x,
        ) < n + 1 by {
            assert(cell_ok(domains, sizes, y, x, n as nat));
            lemma_size_bound(domains, sizes, y, x, n as nat);
        }
    }
    let mut buckets = fill_buckets(&sizes, &is_ignore, height, width, n, &domains);
    loop
        invariant
            map.wf(),
            n == rules.tiles(),
            height == wave_rows(domains),
            width == wave_cols(domains),
            mask == mask_rows(is_ignore),
            cells_fit(map@, n as nat),
            viable(map@, *rules),
            no_clash(map@, *rules),
            decided_by_setup(map@, *rules) ==> decided(domains, sizes, mask) && *rng == *old(rng),
            stable(map@, *rules, domains, sizes, mask),
            neighbours_match(neighbours, mask),
            buckets@.len() == n + 1,
            entries_in_wave(buckets@, domains),
            in_step(buckets@, domains, sizes, mask),
        ensures
            forall|j: int| 2 <= j < buckets@.len() ==> (#[trigger] buckets@[j])@.len() == 0,
        decreases total(size_rows(sizes)),
    {
        let k = match lowest(&buckets) {
            Some(k) => k,
            None => {
                break ;
            },
        };
        let ghost filed = buckets@;
        let cell = take_first(&mut buckets, k);
        proof {
            assert(filed[k as int]@[0] == cell);
            assert(filed_right(domains, sizes, mask, filed[k as int]@[0], k as int));
            assert(!decided_by_setup(map@, *rules));
            assert forall|i: int, j: int|
                0 <= i < buckets@.len() && 0 <= j < buckets@[i]@.len() implies in_wave(
                domains,
                (#[trigger] buckets@[i]@[j]).0 as int,
                buckets@[i]@[j].1 as int,
            ) && filed_right(domains, sizes, mask, buckets@[i]@[j], i) && buckets@[i]@[j]
                != cell by {
                if i == k {
                    assert(buckets@[i]@[j] == filed[i]@[j + 1]);
                    assert(filed_right(domains, sizes, mask, filed[i]@[j + 1], i));
                    if buckets@[i]@[j] == cell {
                        assert(listed(buckets@[i]@, cell.0 as int, cell.1 as int));
                    }
                } else {
                    assert(buckets@[i]@[j] == filed[i]@[j]);
                    assert(filed_right(domains, sizes, mask, filed[i]@[j], i));
                }
            }
        }
        let options = bitset_ones(domain_grid_at(&domains, cell.0, cell.1));
        proof {
            assert(cell_ok(domains, sizes, cell.0 as int, cell.1 as int, n as nat));
        }
        let weights = weights_of(rules, &options);
        let pick = sample_index(rng, &weights);
        let choice = options[pick];
        let ghost d0 = domains;
        let ghost s0 = sizes;
        match commit(
            &mut domains,
            &mut sizes,
            rules,
            &is_ignore,
            &neighbours,
            cell,
            choice,
            max_iterations,
            map,
        ) {
            Err(e) => {
                proof {
                    assert(map@[0].len() == width);
                    assert(4 <= 4 * height * width) by (nonlinear_arith)
                        requires
                            height >= 1,
                            width >= 1,
                    ;
                    lemma_revisions_bounded(d0, s0, n as nat, 4);
                    if safe(map@, *rules) {
                        lemma_safe_is_not_doomed(
                            map@,
                            *rules,
                            d0,
                            s0,
                            mask,
                            cell.0 as int,
                            cell.1 as int,
                            choice as int,
                        );
                    }
                }
                return Err(e);
            },
            Ok(affected) => {
                proof {
                    assert forall|y: int, x: int| in_wave(domains, y, x) implies (
                    #[trigger] size_at(sizes, y, x)) < buckets@.len() by {
                        assert(cell_ok(domains, sizes, y, x, n as nat));
                        lemma_size_bound(domains, sizes, y, x, n as nat);
                    }
                    assert forall|y: int, x: int|
                        in_wave(domains, y, x) && active(mask, y, x) && #[trigger] size_at(
                            sizes,
                            y,
                            x,
                        ) >= 2 && !listed(affected@, y, x) implies size_at(sizes, y, x)
                        < buckets@.len() && listed(
                        buckets@[size_at(sizes, y, x) as int]@,
                        y,
                        x,
                    ) by {
                        assert(!(y == cell.0 && x == cell.1));
                        assert(size_at(sizes, y, x) == size_at(s0, y, x));
                        assert(listed(filed[size_at(s0, y, x) as int]@, y, x));
                    }
                    assert(size_rows(sizes)[cell.0 as int][cell.1 as int] < size_rows(
                        s0,
                    )[cell.0 as int][cell.1 as int]);
                    assert forall|y: int, x: int|
                        0 <= y < height && 0 <= x < size_rows(sizes)[y].len() implies size_rows(
                        sizes,
                    )[y][x] <= size_rows(s0)[y][x] by {
                        assert(size_at(sizes, y, x) <= size_at(s0, y, x));
                    }
                    lemma_total_le(size_rows(sizes), size_rows(s0), height as int);
                    assert forall|i: int, j: int|
                        0 <= i < buckets@.len() && 0 <= j < buckets@[i]@.len() implies listed(
                        affected@,
                        (#[trigger] buckets@[i]@[j]).0 as int,
                        buckets@[i]@[j].1 as int,
                    ) || filed_right(domains, sizes, mask, buckets@[i]@[j], i) by {
                        let e = buckets@[i]@[j];
                        assert(filed_right(d0, s0, mask, e, i));
                        assert(e != cell);
                        if !listed(affected@, e.0 as int, e.1 as int) {
                            assert(size_at(sizes, e.0 as int, e.1 as int) == size_at(
                                s0,
                                e.0 as int,
                                e.1 as int,
                            ));
                        }
                    }
                    lemma_holes_decided(map@, *rules, domains, sizes, mask);
                }
                refile(&mut buckets, &affected, &sizes, &domains, &is_ignore);
            },
        }
    }
    proof {
        assert forall|y: int, x: int|
            in_wave(domains, y, x) && active(mask, y, x) implies #[trigger] size_at(
            sizes,
            y,
            x,
        ) == 1 by {
            if size_at(sizes, y, x) >= 2 {
                let j = size_at(sizes, y, x) as int;
                assert(listed(buckets@[j]@, y, x));
                assert(buckets@[j]@.len() == 0);
            }
        }
    }
    Ok(emit(map, rules, &domains, &is_ignore, &sizes))
}

} // verus!
