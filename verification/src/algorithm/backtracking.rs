//! The solver that takes decisions back: a stack of decision frames, each
//! with the values already tried for its cell and a copy of the wave as it
//! was before the decision.

use crate::algorithm::buckets::{
    entries_in_wave, filed_right, in_step, lemma_total_le, lowest, take_first, total, unfile_cell,
};
use crate::algorithm::common::{
    active, cell_ok, in_wave, listed, neighbours_match, size_at, wave_cols, wave_rows,
};
use crate::algorithm::fast::nothing_to_draw;
use crate::algorithm::solve::{
    commit, decided, decided_by_setup, emit, fill_buckets, first_clash, lemma_forced_is_decided,
    lemma_forced_is_viable, lemma_holes_decided, lemma_revisions_bounded,
    lemma_safe_is_not_doomed, lemma_size_bound, lemma_stable_copy, mask_of, no_clash, picked,
    refile, safe, same_wave, setup_bound, stable, start_wave, viable, Wave,
};
use crate::bitset::bitset_ones;
use crate::cell::Cell;
use crate::error::{ArgsFault, MapFault, WfcError};
use crate::grid::{
    domain_grid_at, domain_grid_clone, mask_rows, size_grid_clone, size_rows, DomainGrid, MaskGrid,
    SizeGrid,
};
use crate::map::{cells_fit, TileMap};
use crate::rng::sample_index;
use crate::rules::Rules;
use crate::wave_function::{solves, WaveFunction};
use rand::rngs::StdRng;
use std::time::Instant;
use vstd::prelude::*;

verus! {

/// The number of arc revisions one propagation of the backtracking solver
/// may make.
pub const MAX_ITERATIONS: usize = 1_000_000;

/// The number of contradictions the backtracking solver recovers from.
pub const MAX_BACKTRACK_ATTEMPTS: usize = 100;

/// The number of decision frames the backtracking solver keeps.
pub const MAX_BACKTRACK_DEPTH: usize = 50;

/// The seconds the backtracking solver may run.
pub const DEFAULT_BUDGET_SECS: u64 = 60;

/// The bounds of one run of the backtracking solver.
#[derive(Clone, Copy, Debug)]
pub struct Limits {
    /// The number of arc revisions one propagation may make.
    pub max_iterations: usize,
    /// The number of contradictions the run recovers from.
    pub max_backtrack_attempts: usize,
    /// The number of decision frames that are kept; with zero no decision
    /// can be taken back.
    pub max_backtrack_depth: usize,
    /// The whole seconds the run may take.
    pub budget_secs: u64,
}

impl Limits {
    /// The bounds the solver uses where none are given, as a value of
    /// specifications.
    pub open spec fn standard_limits() -> Limits {
        Limits {
            max_iterations: MAX_ITERATIONS,
            max_backtrack_attempts: MAX_BACKTRACK_ATTEMPTS,
            max_backtrack_depth: MAX_BACKTRACK_DEPTH,
            budget_secs: DEFAULT_BUDGET_SECS,
        }
    }

    /// The bounds the solver uses where none are given.
    pub fn standard() -> (limits: Limits)
        ensures
            limits == Limits::standard_limits(),
    {
        Limits {
            max_iterations: MAX_ITERATIONS,
            max_backtrack_attempts: MAX_BACKTRACK_ATTEMPTS,
            max_backtrack_depth: MAX_BACKTRACK_DEPTH,
            budget_secs: DEFAULT_BUDGET_SECS,
        }
    }

    /// Whether a run that has taken `elapsed_secs` whole seconds has used
    /// up its budget.
    pub fn spent(&self, elapsed_secs: u64) -> (r: bool)
        ensures
            r == (elapsed_secs >= self.budget_secs),
    {
        elapsed_secs >= self.budget_secs
    }
}

/// One decision that can be taken back: the cell that was decided, the
/// tiles already tried for it, and the wave as it was before the decision.
pub struct DecisionFrame {
    pub cell: (usize, usize),
    pub tried: Vec<usize>,
    pub domains: DomainGrid,
    pub sizes: SizeGrid,
}

/// What holds of every frame on the stack: its copy of the wave is stable,
/// and its cell takes part and was undecided.
pub open spec fn frame_ok(
    frame: DecisionFrame,
    template: Seq<Seq<Cell>>,
    rules: Rules,
    mask: Seq<Seq<bool>>,
) -> bool {
    &&& stable(template, rules, frame.domains, frame.sizes, mask)
    &&& in_wave(frame.domains, frame.cell.0 as int, frame.cell.1 as int)
    &&& active(mask, frame.cell.0 as int, frame.cell.1 as int)
    &&& size_at(frame.sizes, frame.cell.0 as int, frame.cell.1 as int) >= 2
}

/// The solver that recovers from contradictions by taking decisions back.
pub struct WaveFunctionBacktracking;

/// What the backtracking solver may answer where it finds no solution.
/// Either the template names a tile the rules do not know. Or the solver
/// met a contradiction that it could not or might not take back, after it
/// had recovered from `attempts` contradictions, which are never more than
/// the limits allow. Or a propagation ran out of iterations, and then the
/// limit is below the bound for the grid. Or the budget of time was used
/// up.
pub open spec fn backtracking_failure(
    e: WfcError,
    template: Seq<Seq<Cell>>,
    n: nat,
    limits: Limits,
) -> bool {
    match e {
        WfcError::InvalidMap(MapFault::IndexOutOfRange) => !cells_fit(template, n),
        WfcError::BacktrackExhausted { attempts } => cells_fit(template, n) && attempts
            <= limits.max_backtrack_attempts,
        WfcError::IterationLimit => cells_fit(template, n) && limits.max_iterations < setup_bound(
            template.len(),
            template[0].len(),
            n,
        ),
        WfcError::Timeout => cells_fit(template, n),
        _ => false,
    }
}

/// What the backtracking solver owes whatever is drawn and whatever the
/// clock shows. Where the limit on revisions suffices for the grid and
/// the template fits the rules: a template that cannot be made arc
/// consistent is answered with `BacktrackExhausted` and no attempts, and a
/// template that setup alone decides is answered with a map, unless the
/// budget of time is used up before the solver looks at the wave. So is
/// a template that can be made arc consistent and on which no decision
/// can lead into a contradiction, unless the budget is used up. With a
/// budget of no seconds, a template that can be made arc consistent is
/// answered with `Timeout`.
pub open spec fn backtracking_owed(
    r: Result<TileMap, WfcError>,
    template: Seq<Seq<Cell>>,
    rules: Rules,
    limits: Limits,
) -> bool {
    cells_fit(template, rules.tiles()) && limits.max_iterations >= setup_bound(
        template.len(),
        template[0].len(),
        rules.tiles(),
    ) ==> {
        &&& !viable(template, rules) ==> r == Err::<TileMap, WfcError>(
            WfcError::BacktrackExhausted { attempts: 0 },
        )
        &&& decided_by_setup(template, rules) ==> r is Ok || r == Err::<TileMap, WfcError>(
            WfcError::Timeout,
        )
        &&& viable(template, rules) && safe(template, rules) ==> r is Ok || r == Err::<
            TileMap,
            WfcError,
        >(WfcError::Timeout)
        &&& viable(template, rules) && limits.budget_secs == 0 ==> r == Err::<TileMap, WfcError>(
            WfcError::Timeout,
        )
    }
}

/// Where two fixed neighbours of the template do not fit, the answer is
/// `BacktrackExhausted` with no attempts: there is no decision to take
/// back.
pub open spec fn clash_exhausts(
    r: Result<TileMap, WfcError>,
    template: Seq<Seq<Cell>>,
    rules: Rules,
) -> bool {
    cells_fit(template, rules.tiles()) ==> forall|y: usize, x: usize| #[trigger]
        first_clash(template, rules, y as int, x as int) ==> r == Err::<TileMap, WfcError>(
            WfcError::BacktrackExhausted { attempts: 0 },
        )
}

/// The entries of `options` that are not in `tried`, in their order.
pub fn untried(options: &Vec<usize>, tried: &Vec<usize>) -> (rest: Vec<usize>)
    ensures
        rest@.len() <= options@.len(),
        forall|i: int| 0 <= i < rest@.len() ==> options@.contains(#[trigger] rest@[i]) && !tried@.contains(
            rest@[i],
        ),
        forall|i: int|
            0 <= i < options@.len() && !tried@.contains(#[trigger] options@[i]) ==> rest@.contains(
                options@[i],
            ),
        (forall|i: int, j: int| 0 <= i < j < options@.len() ==> options@[i] < options@[j])
            ==> forall|i: int, j: int| 0 <= i < j < rest@.len() ==> rest@[i] < rest@[j],
{
    let mut rest: Vec<usize> = Vec::new();
    let mut i: usize = 0;
    while i < options.len()
        invariant
            i <= options.len(),
            rest@.len() <= i,
            forall|k: int|
                0 <= k < rest@.len() ==> options@.contains(#[trigger] rest@[k]) && !tried@.contains(
                    rest@[k],
                ),
            forall|k: int|
                0 <= k < i && !tried@.contains(#[trigger] options@[k]) ==> rest@.contains(
                    options@[k],
                ),
            (forall|a: int, b: int| 0 <= a < b < options@.len() ==> options@[a] < options@[b])
                ==> (forall|a: int, b: int| 0 <= a < b < rest@.len() ==> rest@[a] < rest@[b]) && (
            forall|a: int| 0 <= a < rest@.len() && i < options@.len() ==> rest@[a] < options@[i as int]),
        decreases options.len() - i,
    {
        let value = options[i];
        let mut seen = false;
        let mut j: usize = 0;
        while j < tried.len()
            invariant
                j <= tried.len(),
                seen == exists|k: int| 0 <= k < j && tried@[k] == value,
            decreases tried.len() - j,
        {
            if tried[j] == value {
                seen = true;
            }
            j += 1;
        }
        if !seen {
            let ghost before = rest@;
            rest.push(value);
            proof {
                assert(rest@[before.len() as int] == value);
                assert forall|k: int|
                    0 <= k < i + 1 && !tried@.contains(#[trigger] options@[k]) implies rest@.contains(
                    options@[k],
                ) by {
                    if k < i {
                        let m = choose|m: int| 0 <= m < before.len() && before[m] == options@[k];
                        assert(rest@[m] == options@[k]);
                    }
                }
            }
        }
        i += 1;
    }
    rest
}

/// Takes the last decision back: the wave is put back as the top frame
/// recorded it, the buckets are derived anew, and the frame is handed out
/// so that another tile can be tried for its cell.
///
/// This fails with `BacktrackExhausted` where `attempts` has reached
/// `max_attempts` or where no frame is left.
pub fn step_back(
    stack: &mut Vec<DecisionFrame>,
    attempts: usize,
    max_attempts: usize,
    domains: &mut DomainGrid,
    domain_sizes: &mut SizeGrid,
    buckets: &mut Vec<Vec<(usize, usize)>>,
    is_ignore: &MaskGrid,
    rules: &Rules,
    map: &TileMap,
) -> (r: Result<DecisionFrame, WfcError>)
    requires
        map.wf(),
        rules.wf(),
        mask_of(map@, mask_rows(*is_ignore)),
        forall|i: int|
            0 <= i < old(stack)@.len() ==> frame_ok(
                #[trigger] old(stack)@[i],
                map@,
                *rules,
                mask_rows(*is_ignore),
            ),
    ensures
        r.is_err() <==> attempts >= max_attempts || old(stack)@.len() == 0,
        r matches Err(e) ==> e == (WfcError::BacktrackExhausted { attempts }),
        r matches Ok(frame) ==> {
            &&& frame == old(stack)@[old(stack)@.len() - 1]
            &&& final(stack)@ == old(stack)@.subrange(0, old(stack)@.len() - 1)
            &&& frame_ok(frame, map@, *rules, mask_rows(*is_ignore))
            &&& same_wave(frame.domains, *final(domains))
            &&& size_rows(*final(domain_sizes)) == size_rows(frame.sizes)
            &&& stable(map@, *rules, *final(domains), *final(domain_sizes), mask_rows(*is_ignore))
            &&& final(buckets)@.len() == rules.tiles() + 1
            &&& entries_in_wave(final(buckets)@, *final(domains))
            &&& in_step(
                final(buckets)@,
                *final(domains),
                *final(domain_sizes),
                mask_rows(*is_ignore),
            )
        },
        r.is_err() ==> final(stack)@ == old(stack)@ && *final(domains) == *old(domains) && *final(
            domain_sizes) == *old(domain_sizes) && final(buckets)@ == old(buckets)@,
{
    if attempts >= max_attempts {
        return Err(WfcError::BacktrackExhausted { attempts });
    }
    let frame = match stack.pop() {
        Some(frame) => frame,
        None => {
            return Err(WfcError::BacktrackExhausted { attempts });
        },
    };
    let ghost mask = mask_rows(*is_ignore);
    proof {
        assert(frame == old(stack)@[old(stack)@.len() - 1]);
        assert(frame_ok(frame, map@, *rules, mask));
    }
    *domains = domain_grid_clone(&frame.domains);
    *domain_sizes = size_grid_clone(&frame.sizes);
    let (height, width) = map.size();
    let n = rules.len();
    proof {
        lemma_stable_copy(map@, *rules, frame.domains, frame.sizes, *domains, *domain_sizes, mask);
        assert(map@[0].len() == width);
    }
    *buckets = fill_buckets(domain_sizes, is_ignore, height, width, n, domains);
    Ok(frame)
}

impl WaveFunctionBacktracking {
    /// Fills the wildcards of `map` within the given bounds, drawing the
    /// tiles by the frequencies of the rules, as [`Self::collapse_drawing`]
    /// does.
    pub fn collapse_within(map: &TileMap, rules: &Rules, rng: &mut StdRng, limits: Limits) -> (r:
        Result<TileMap, WfcError>)
        requires
            map.wf(),
            rules.wf(),
        ensures
            r matches Ok(m) ==> m.wf() && solves(map@, *rules, m@),
            r matches Err(e) ==> backtracking_failure(e, map@, rules.tiles(), limits),
            backtracking_owed(r, map@, *rules, limits),
            clash_exhausts(r, map@, *rules),
            nothing_to_draw(map@, *rules, limits.max_iterations) ==> *final(rng) == *old(rng),
            !cells_fit(map@, rules.tiles()) ==> r == Err::<TileMap, WfcError>(
                WfcError::InvalidMap(MapFault::IndexOutOfRange),
            ),
    {
        WaveFunctionBacktracking::collapse_drawing(map, rules, rules.frequencies(), rng, limits)
    }

    /// Fills the wildcards of `map` within the standard bounds, drawing
    /// the tiles by `weights` in place of the frequencies of the rules.
    /// There must be one weight for every tile; otherwise the call is
    /// refused with `InvalidArgs`.
    pub fn collapse_weighted(
        map: &TileMap,
        rules: &Rules,
        weights: &Vec<usize>,
        rng: &mut StdRng,
    ) -> (r: Result<TileMap, WfcError>)
        requires
            map.wf(),
            rules.wf(),
        ensures
            weights@.len() != rules.tiles() ==> r == Err::<TileMap, WfcError>(
                WfcError::InvalidArgs(ArgsFault::DimensionMismatch),
            ),
            r matches Ok(m) ==> m.wf() && solves(map@, *rules, m@),
            weights@.len() == rules.tiles() ==> {
                &&& r matches Err(e) ==> backtracking_failure(
                    e,
                    map@,
                    rules.tiles(),
                    Limits::standard_limits(),
                )
                &&& backtracking_owed(r, map@, *rules, Limits::standard_limits())
                &&& clash_exhausts(r, map@, *rules)
                &&& nothing_to_draw(map@, *rules, MAX_ITERATIONS) ==> *final(rng) == *old(rng)
            },
    {
        if weights.len() != rules.len() {
            return Err(WfcError::InvalidArgs(ArgsFault::DimensionMismatch));
        }
        WaveFunctionBacktracking::collapse_drawing(map, rules, weights, rng, Limits::standard())
    }

    /// Fills the wildcards of `map` within the given bounds, drawing the
    /// tiles by `weights`, of which there is one for every tile. The
    /// weights decide which solution is found, not whether a map that is
    /// returned is one.
    ///
    /// The solver decides cells as the fast solver does, and records every
    /// decision that had an alternative. When a propagation meets a
    /// contradiction, or when every candidate of a cell has been tried, the
    /// top frame is taken off the stack, the wave is put back as the frame
    /// recorded it, and another tile is tried for the cell of the frame.
    /// With no frames to keep, no decision is recorded.
    ///
    /// The run ends with `BacktrackExhausted` when a contradiction finds no
    /// frame to take back or when it has recovered from as many
    /// contradictions as it may, among them a contradiction in the initial
    /// propagation; with `IterationLimit` when a propagation runs too
    /// long; and with `Timeout` when the budget is used up.
    pub fn collapse_drawing(
        map: &TileMap,
        rules: &Rules,
        weights: &Vec<usize>,
        rng: &mut StdRng,
        limits: Limits,
    ) -> (r: Result<TileMap, WfcError>)
        requires
            map.wf(),
            rules.wf(),
            weights@.len() == rules.tiles(),
        ensures
            r matches Ok(m) ==> m.wf() && solves(map@, *rules, m@),
            r matches Err(e) ==> backtracking_failure(e, map@, rules.tiles(), limits),
            backtracking_owed(r, map@, *rules, limits),
            clash_exhausts(r, map@, *rules),
            nothing_to_draw(map@, *rules, limits.max_iterations) ==> *final(rng) == *old(rng),
            !cells_fit(map@, rules.tiles()) ==> r == Err::<TileMap, WfcError>(
                WfcError::InvalidMap(MapFault::IndexOutOfRange),
            ),
    {
        let n = rules.len();
        let (height, width) = map.size();
        let wave = match start_wave(map, rules, limits.max_iterations) {
            Ok(wave) => wave,
            Err(e) => {
                proof {
                    if decided_by_setup(map@, *rules) {
                        lemma_forced_is_viable(map@, *rules);
                    }
                }
                return match e {
                    WfcError::ContradictionAt { y, x } => Err(
                        WfcError::BacktrackExhausted { attempts: 0 },
                    ),
                    other => Err(other),
                };
            },
        };
        let Wave { mut domains, mut sizes, is_ignore, neighbours } = wave;
        let ghost mask = mask_rows(is_ignore);
        proof {
            if decided_by_setup(map@, *rules) {
                lemma_forced_is_decided(map@, *rules, domains, sizes, mask);
            }
            assert(map@[0].len() == width);
        }
        let mut buckets = fill_buckets(&sizes, &is_ignore, height, width, n, &domains);
        let mut stack: Vec<DecisionFrame> = Vec::new();
        let mut attempts: usize = 0;
        let mut retry: Option<DecisionFrame> = None;
        let started = Instant::now();
        loop
            invariant
                map.wf(),
                rules.wf(),
                n == rules.tiles(),
                weights@.len() == n,
                height == wave_rows(domains),
                width == wave_cols(domains),
                mask == mask_rows(is_ignore),
                cells_fit(map@, n as nat),
                viable(map@, *rules),
                no_clash(map@, *rules),
                decided_by_setup(map@, *rules) ==> decided(domains, sizes, mask) && retry.is_none()
                    && *rng == *old(rng),
                safe(map@, *rules) ==> retry.is_none(),
                stable(map@, *rules, domains, sizes, mask),
                neighbours_match(neighbours, mask),
                buckets@.len() == n + 1,
                entries_in_wave(buckets@, domains),
                in_step(buckets@, domains, sizes, mask),
                attempts <= limits.max_backtrack_attempts,
                forall|i: int| 0 <= i < stack@.len() ==> frame_ok(#[trigger] stack@[i], map@, *rules, mask),
                retry matches Some(frame) ==> frame_ok(frame, map@, *rules, mask) && same_wave(
                    frame.domains,
                    domains,
                ) && size_rows(sizes) == size_rows(frame.sizes),
            ensures
                forall|j: int| 2 <= j < buckets@.len() ==> (#[trigger] buckets@[j])@.len() == 0,
                limits.budget_secs > 0,
            decreases limits.max_backtrack_attempts - attempts, total(size_rows(sizes)),
        {
            if limits.spent(started.elapsed().as_secs()) {
                return Err(WfcError::Timeout);
            }
            let pending = retry;
            let ghost fresh = pending.is_none();
            retry = None;
            let (cell, mut tried, snapshot) = match pending {
                Some(frame) => {
                    proof {
                        assert(!decided_by_setup(map@, *rules));
                        lemma_stable_copy(
                            map@,
                            *rules,
                            frame.domains,
                            frame.sizes,
                            domains,
                            sizes,
                            mask,
                        );
                    }
                    let DecisionFrame { cell, tried, domains: kept, sizes: kept_sizes } = frame;
                    let ghost filed = buckets@;
                    unfile_cell(&mut buckets, cell);
                    proof {
                        assert forall|i: int, j: int|
                            0 <= i < buckets@.len() && 0 <= j < buckets@[i]@.len() implies in_wave(
                            domains,
                            (#[trigger] buckets@[i]@[j]).0 as int,
                            buckets@[i]@[j].1 as int,
                        ) && filed_right(domains, sizes, mask, buckets@[i]@[j], i) && buckets@[i]@[j]
                            != cell by {
                            let e = buckets@[i]@[j];
                            assert(listed(filed[i]@, e.0 as int, e.1 as int));
                            let m = choose|m: int|
                                0 <= m < filed[i]@.len() && (#[trigger] filed[i]@[m]).0 == e.0
                                    && filed[i]@[m].1 == e.1;
                            assert(filed[i]@[m] == e);
                            assert(filed_right(domains, sizes, mask, filed[i]@[m], i));
                            if e == cell {
                                assert(listed(buckets@[i]@, cell.0 as int, cell.1 as int));
                            }
                        }
                        assert forall|y: int, x: int|
                            in_wave(domains, y, x) && active(mask, y, x) && #[trigger] size_at(
                                sizes,
                                y,
                                x,
                            ) >= 2 && !(y == cell.0 && x == cell.1) implies listed(
                            buckets@[size_at(sizes, y, x) as int]@,
                            y,
                            x,
                        ) by {
                            assert(listed(filed[size_at(sizes, y, x) as int]@, y, x));
                        }
                    }
                    (cell, tried, Some((kept, kept_sizes)))
                },
                None => {
                    let k = match lowest(&buckets) {
                        Some(k) => k,
                        None => {
                            break ;
                        },
                    };
                    let ghost filed = buckets@;
                    let cell = take_first(&mut buckets, k);
                    proof {
                        assert(filed[k as int]@[0] == cell);
                        assert(filed_right(domains, sizes, mask, filed[k as int]@[0], k as int));
                        assert(!decided_by_setup(map@, *rules));
                        assert forall|i: int, j: int|
                            0 <= i < buckets@.len() && 0 <= j < buckets@[i]@.len() implies in_wave(
                            domains,
                            (#[trigger] buckets@[i]@[j]).0 as int,
                            buckets@[i]@[j].1 as int,
                        ) && filed_right(domains, sizes, mask, buckets@[i]@[j], i) && buckets@[i]@[j]
                            != cell by {
                            if i == k {
                                assert(buckets@[i]@[j] == filed[i]@[j + 1]);
                                assert(filed_right(domains, sizes, mask, filed[i]@[j + 1], i));
                                if buckets@[i]@[j] == cell {
                                    assert(listed(buckets@[i]@, cell.0 as int, cell.1 as int));
                                }
                            } else {
                                assert(buckets@[i]@[j] == filed[i]@[j]);
                                assert(filed_right(domains, sizes, mask, filed[i]@[j], i));
                            }
                        }
                    }
                    proof {
                        assert forall|y: int, x: int|
                            in_wave(domains, y, x) && active(mask, y, x) && #[trigger] size_at(
                                sizes,
                                y,
                                x,
                            ) >= 2 && !(y == cell.0 && x == cell.1) implies listed(
                            buckets@[size_at(sizes, y, x) as int]@,
                            y,
                            x,
                        ) by {
                            assert(listed(filed[size_at(sizes, y, x) as int]@, y, x));
                        }
                    }
                    (cell, Vec::new(), None)
                },
            };
            proof {
                assert(cell_ok(domains, sizes, cell.0 as int, cell.1 as int, n as nat));
            }
            let candidates = bitset_ones(domain_grid_at(&domains, cell.0, cell.1));
            let options = untried(&candidates, &tried);
            let mut contradicted = options.len() == 0;
            let ghost d0 = domains;
            let ghost s0 = sizes;
            proof {
                if fresh {
                    assert(tried@.len() == 0);
                    assert(!tried@.contains(candidates@[0]));
                    assert(options@.contains(candidates@[0]));
                } else {
                    assert(!safe(map@, *rules));
                }
                assert(contradicted ==> !safe(map@, *rules));
            }
            if !contradicted {
                proof {
                    assert forall|i: int| 0 <= i < options@.len() implies (#[trigger] options@[i])
                        < weights@.len() by {
                        assert(candidates@.contains(options@[i]));
                    }
                }
                let chances = picked(weights, &options);
                let pick = sample_index(rng, &chances);
                let choice = options[pick];
                tried.push(choice);
                if options.len() > 1 {
                    let (kept, kept_sizes) = match snapshot {
                        Some(pair) => pair,
                        None => (domain_grid_clone(&domains), size_grid_clone(&sizes)),
                    };
                    proof {
                        lemma_stable_copy(map@, *rules, domains, sizes, kept, kept_sizes, mask);
                        assert(candidates@.len() >= options@.len());
                    }
                    if limits.max_backtrack_depth > 0 {
                        if stack.len() >= limits.max_backtrack_depth {
                            let dropped = stack.remove(0);
                        }
                        stack.push(DecisionFrame { cell, tried, domains: kept, sizes: kept_sizes });
                    }
                }
                proof {
                    assert(candidates@.contains(choice));
                }
                match commit(
                    &mut domains,
                    &mut sizes,
                    rules,
                    &is_ignore,
                    &neighbours,
                    cell,
                    choice,
                    limits.max_iterations,
                    map,
                ) {
                    Ok(affected) => {
                        proof {
                            assert forall|y: int, x: int| in_wave(domains, y, x) implies (
                            #[trigger] size_at(sizes, y, x)) < buckets@.len() by {
                                assert(cell_ok(domains, sizes, y, x, n as nat));
                                lemma_size_bound(domains, sizes, y, x, n as nat);
                            }
                            assert forall|y: int, x: int|
                                in_wave(domains, y, x) && active(mask, y, x) && #[trigger] size_at(
                                    sizes,
                                    y,
                                    x,
                                ) >= 2 && !listed(affected@, y, x) implies size_at(sizes, y, x)
                                < buckets@.len() && listed(
                                buckets@[size_at(sizes, y, x) as int]@,
                                y,
                                x,
                            ) by {
                                assert(!(y == cell.0 && x == cell.1));
                                assert(size_at(sizes, y, x) == size_at(s0, y, x));
                            }
                            assert(size_at(s0, cell.0 as int, cell.1 as int) >= 2);
                            assert(size_rows(sizes)[cell.0 as int][cell.1 as int] < size_rows(
                                s0,
                            )[cell.0 as int][cell.1 as int]);
                            assert forall|y: int, x: int|
                                0 <= y < height && 0 <= x < size_rows(
                                    sizes,
                                )[y].len() implies size_rows(sizes)[y][x] <= size_rows(s0)[y][x] by {
                                assert(size_at(sizes, y, x) <= size_at(s0, y, x));
                            }
                            lemma_total_le(size_rows(sizes), size_rows(s0), height as int);
                            assert forall|i: int, j: int|
                                0 <= i < buckets@.len() && 0 <= j < buckets@[i]@.len() implies listed(
                                affected@,
                                (#[trigger] buckets@[i]@[j]).0 as int,
                                buckets@[i]@[j].1 as int,
                            ) || filed_right(domains, sizes, mask, buckets@[i]@[j], i) by {
                                let e = buckets@[i]@[j];
                                assert(filed_right(d0, s0, mask, e, i));
                                assert(e != cell);
                                if !listed(affected@, e.0 as int, e.1 as int) {
                                    assert(size_at(sizes, e.0 as int, e.1 as int) == size_at(
                                        s0,
                                        e.0 as int,
                                        e.1 as int,
                                    ));
                                }
                            }
                            lemma_holes_decided(map@, *rules, domains, sizes, mask);
                        }
                        refile(&mut buckets, &affected, &sizes, &domains, &is_ignore);
                    },
                    Err(e) => {
                        match e {
                            WfcError::ContradictionAt { y, x } => {
                                proof {
                                    if safe(map@, *rules) {
                                        lemma_safe_is_not_doomed(
                                            map@,
                                            *rules,
                                            d0,
                                            s0,
                                            mask,
                                            cell.0 as int,
                                            cell.1 as int,
                                            choice as int,
                                        );
                                    }
                                }
                                contradicted = true;
                            },
                            other => {
                                proof {
                                    assert(map@[0].len() == width);
                                    assert(4 <= 4 * height * width) by (nonlinear_arith)
                                        requires
                                            height >= 1,
                                            width >= 1,
                                    ;
                                    lemma_revisions_bounded(d0, s0, n as nat, 4);
                                }
                                return Err(WfcError::IterationLimit);
                            },
                        }
                    },
                }
            }
            if contradicted {
                match step_back(
                    &mut stack,
                    attempts,
                    limits.max_backtrack_attempts,
                    &mut domains,
                    &mut sizes,
                    &mut buckets,
                    &is_ignore,
                    rules,
                    map,
                ) {
                    Ok(frame) => {
                        attempts = attempts + 1;
                        retry = Some(frame);
                    },
                    Err(e) => {
                        return Err(e);
                    },
                }
            }
        }
        proof {
            assert forall|y: int, x: int|
                in_wave(domains, y, x) && active(mask, y, x) implies #[trigger] size_at(
                sizes,
                y,
                x,
            ) == 1 by {
                if size_at(sizes, y, x) >= 2 {
                    let j = size_at(sizes, y, x) as int;
                    assert(listed(buckets@[j]@, y, x));
                    assert(buckets@[j]@.len() == 0);
                }
            }
        }
        Ok(emit(map, rules, &domains, &is_ignore, &sizes))
    }
}

impl WaveFunction for WaveFunctionBacktracking {
    /// Fills the wildcards of `map` within the standard bounds.
    fn collapse(map: &TileMap, rules: &Rules, rng: &mut StdRng) -> (r: Result<TileMap, WfcError>)
        ensures
            r matches Err(e) ==> backtracking_failure(e, map@, rules.tiles(), Limits::standard_limits()),
            backtracking_owed(r, map@, *rules, Limits::standard_limits()),
            clash_exhausts(r, map@, *rules),
            nothing_to_draw(map@, *rules, MAX_ITERATIONS) ==> *final(rng) == *old(rng),
    {
        WaveFunctionBacktracking::collapse_within(map, rules, rng, Limits::standard())
    }
}

} // verus!
