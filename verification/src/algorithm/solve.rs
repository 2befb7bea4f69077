//! The steps both solvers are made of: setting up the wave of a template,
//! committing a cell to a tile, keeping the buckets in step with the sizes,
//! and writing out the finished map.

use crate::algorithm::buckets::{
    covers_but, empty_buckets, entries_in_wave, exact_but, file_cell, filed_right, in_step,
    lemma_total_le, no_repeats, total, total_to, unfile_cell,
};
use crate::algorithm::common::{
    active, agrees, all_consistent, arc_consistent, calculate_neighbours, cell_ok, coherent,
    count_domains, distinct, dom, family_consistent, family_of, in_wave, initial_propagation,
    keeps_families, keeps_solutions, lemma_families_hold_solutions, lemma_wave_is_family, linked,
    listed, narrowed, narrows, neighbours_match, propagate_constraints, revision_bound, same_but,
    same_wave_shape, single_family, size_at, supported, unsolvable, wave_cols, wave_fits,
    wave_rows, wave_wf,
};
use crate::bitset::{bits_of, bitset_clear, bitset_insert, bitset_ones, capacity_of};
use crate::cell::{cell_domain, cell_fits, lemma_cell_domain, Cell};
use crate::direction::{step, Direction};
use crate::error::{MapFault, WfcError};
use crate::grid::{
    domain_grid_at, domain_grid_at_mut, domain_rows, mask_grid_at, mask_rows, rectangular,
    size_grid_at, size_grid_at_mut, size_rows, DomainGrid, MaskGrid, NeighbourGrid, SizeGrid,
};
use crate::map::{cells_fit, grid_shaped, lemma_put_keeps_shape, TileMap};
use crate::rules::{sum_to, Rules};
use crate::wave_function::{neighbours_in, solves, takes_part, tile_at};
use vstd::prelude::*;
use vstd::set_lib::*;

verus! {

/// Whether `mask` marks exactly the holes of `template`.
pub open spec fn mask_of(template: Seq<Seq<Cell>>, mask: Seq<Seq<bool>>) -> bool {
    &&& grid_shaped(template)
    &&& rectangular(mask, template.len(), template[0].len())
    &&& forall|y: int, x: int|
        0 <= y < template.len() && 0 <= x < template[0].len() ==> #[trigger] mask[y][x] == (
        template[y][x] == Cell::Ignore)
}

/// Whether every cell of the wave holds only candidates that the template
/// admits there.
pub open spec fn within(domains: DomainGrid, template: Seq<Seq<Cell>>, n: nat) -> bool {
    forall|y: int, x: int|
        in_wave(domains, y, x) ==> (#[trigger] dom(domains, y, x)).subset_of(
            cell_domain(template[y][x], n),
        )
}

/// Whether every cell that takes part has a candidate.
pub open spec fn alive(domains: DomainGrid, sizes: SizeGrid, mask: Seq<Seq<bool>>) -> bool {
    forall|y: int, x: int|
        in_wave(domains, y, x) && active(mask, y, x) ==> #[trigger] size_at(sizes, y, x) >= 1
}

/// Whether every cell that takes part has exactly one candidate.
pub open spec fn decided(domains: DomainGrid, sizes: SizeGrid, mask: Seq<Seq<bool>>) -> bool {
    forall|y: int, x: int|
        in_wave(domains, y, x) && active(mask, y, x) ==> #[trigger] size_at(sizes, y, x) == 1
}

/// What holds of the wave of a template between two decisions: it is in
/// order, it fits the template, every arc is consistent, and every cell
/// that takes part has a candidate.
pub open spec fn stable(
    template: Seq<Seq<Cell>>,
    rules: Rules,
    domains: DomainGrid,
    sizes: SizeGrid,
    mask: Seq<Seq<bool>>,
) -> bool {
    &&& rules.wf()
    &&& wave_wf(domains, sizes, rules.tiles())
    &&& wave_fits(domains, mask)
    &&& mask_of(template, mask)
    &&& within(domains, template, rules.tiles())
    &&& all_consistent(domains, rules, mask)
    &&& alive(domains, sizes, mask)
}

/// Whether only cells that take part are undecided.
pub open spec fn holes_decided(domains: DomainGrid, sizes: SizeGrid, mask: Seq<Seq<bool>>) -> bool {
    forall|y: int, x: int|
        in_wave(domains, y, x) && #[trigger] size_at(sizes, y, x) >= 2 ==> active(mask, y, x)
}

/// In a stable wave a hole has no candidate, so only cells that take part
/// are undecided.
pub proof fn lemma_holes_decided(
    template: Seq<Seq<Cell>>,
    rules: Rules,
    domains: DomainGrid,
    sizes: SizeGrid,
    mask: Seq<Seq<bool>>,
)
    requires
        stable(template, rules, domains, sizes, mask),
    ensures
        holes_decided(domains, sizes, mask),
{
    assert forall|y: int, x: int|
        in_wave(domains, y, x) && #[trigger] size_at(sizes, y, x) >= 2 implies active(
        mask,
        y,
        x,
    ) by {
        if !active(mask, y, x) {
            assert(template[y].len() == template[0].len());
            assert(mask[y][x]);
            assert(template[y][x] == Cell::Ignore);
            assert(dom(domains, y, x).subset_of(cell_domain(template[y][x], rules.tiles())));
            assert(dom(domains, y, x) =~= Set::<int>::empty());
            assert(cell_ok(domains, sizes, y, x, rules.tiles()));
        }
    }
}

/// A set of tiles below `n` has at most `n` members.
pub proof fn lemma_size_bound(domains: DomainGrid, sizes: SizeGrid, y: int, x: int, n: nat)
    requires
        cell_ok(domains, sizes, y, x, n),
    ensures
        size_at(sizes, y, x) <= n,
{
    lemma_int_range(0, n as int);
    lemma_len_subset(dom(domains, y, x), set_int_range(0, n as int));
}

/// A finite set with one member holds nothing but that member.
pub proof fn lemma_single(s: Set<int>, t: int)
    requires
        s.finite(),
        s.len() == 1,
        s.contains(t),
    ensures
        s =~= set![t],
{
    assert forall|u: int| s.contains(u) implies u == t by {
        if u != t {
            assert(s.remove(t).contains(u));
            assert(s.remove(t).len() == 0);
        }
    }
}

/// Commits `cell` to the tile `choice`: afterwards `choice` is its only
/// candidate and its size is one. Nothing else changes.
pub fn collapse_cell(
    domains: &mut DomainGrid,
    domain_sizes: &mut SizeGrid,
    rules: &Rules,
    cell: (usize, usize),
    choice: usize,
)
    requires
        wave_wf(*old(domains), *old(domain_sizes), rules.tiles()),
        in_wave(*old(domains), cell.0 as int, cell.1 as int),
        choice < rules.tiles(),
    ensures
        wave_wf(*final(domains), *final(domain_sizes), rules.tiles()),
        same_wave_shape(*final(domains), *old(domains)),
        same_but(
            *old(domains),
            *old(domain_sizes),
            *final(domains),
            *final(domain_sizes),
            cell.0 as int,
            cell.1 as int,
        ),
        dom(*final(domains), cell.0 as int, cell.1 as int) == set![choice as int],
        size_at(*final(domain_sizes), cell.0 as int, cell.1 as int) == 1,
{
    let ghost n = rules.tiles();
    let ghost rows0 = domain_rows(*domains);
    let ghost sizes0 = size_rows(*domain_sizes);
    proof {
        assert(cell_ok(*domains, *domain_sizes, cell.0 as int, cell.1 as int, n));
    }
    let slot = domain_grid_at_mut(domains, cell.0, cell.1);
    bitset_clear(slot);
    bitset_insert(slot, choice);
    let size_slot = size_grid_at_mut(domain_sizes, cell.0, cell.1);
    *size_slot = 1;
    proof {
        let set = domain_rows(*domains)[cell.0 as int][cell.1 as int];
        lemma_put_keeps_shape(rows0, cell.0 as int, cell.1 as int, set);
        lemma_put_keeps_shape(sizes0, cell.0 as int, cell.1 as int, 1usize);
        assert(bits_of(set) =~= set![choice as int]);
        assert(set![choice as int] =~= Set::<int>::empty().insert(choice as int));
        assert forall|y: int, x: int| in_wave(*domains, y, x) implies #[trigger] cell_ok(
            *domains,
            *domain_sizes,
            y,
            x,
            n,
        ) by {
            assert(cell_ok(*old(domains), *old(domain_sizes), y, x, n));
        }
    }
}

/// Whether every solution that puts `tile` at `(cy, cx)` is still there:
/// every choice that obeys the rules, agrees with the wave `before` and
/// picks `tile` for the cell agrees with the wave `after`.
pub open spec fn keeps_solutions_with(
    before: DomainGrid,
    after: DomainGrid,
    rules: Rules,
    mask: Seq<Seq<bool>>,
    cy: int,
    cx: int,
    tile: int,
) -> bool {
    forall|choice: Seq<Seq<int>>|
        coherent(choice, rules, mask) && #[trigger] agrees(choice, before, mask) && choice[cy][cx]
            == tile ==> agrees(choice, after, mask)
}

/// Whether `tile` at `(cy, cx)` leads nowhere: no choice that obeys the
/// rules and agrees with the wave picks `tile` for the cell.
pub open spec fn dead_end(
    domains: DomainGrid,
    rules: Rules,
    mask: Seq<Seq<bool>>,
    cy: int,
    cx: int,
    tile: int,
) -> bool {
    forall|choice: Seq<Seq<int>>|
        coherent(choice, rules, mask) && #[trigger] agrees(choice, domains, mask) ==> choice[cy][cx]
            != tile
}

/// Commits `cell` to the tile `choice` and propagates the consequences.
///
/// On success the result lists the cells whose size changed through the
/// propagation; the wave is stable again, `choice` is the only candidate
/// of `cell`, no cell grew, and every solution that puts `choice` at
/// `cell` is still there. On failure the error is that of the
/// propagation; a contradiction shows that no solution puts `choice` at
/// `cell`.
pub fn commit(
    domains: &mut DomainGrid,
    domain_sizes: &mut SizeGrid,
    rules: &Rules,
    is_ignore: &MaskGrid,
    neighbors: &NeighbourGrid,
    cell: (usize, usize),
    choice: usize,
    max_iterations: usize,
    map: &TileMap,
) -> (r: Result<Vec<(usize, usize)>, WfcError>)
    requires
        stable(map@, *rules, *old(domains), *old(domain_sizes), mask_rows(*is_ignore)),
        neighbours_match(*neighbors, mask_rows(*is_ignore)),
        in_wave(*old(domains), cell.0 as int, cell.1 as int),
        dom(*old(domains), cell.0 as int, cell.1 as int).contains(choice as int),
    ensures
        wave_wf(*final(domains), *final(domain_sizes), rules.tiles()),
        same_wave_shape(*final(domains), *old(domains)),
        within(*final(domains), map@, rules.tiles()),
        match r {
            Ok(affected) => {
                &&& stable(
                    map@,
                    *rules,
                    *final(domains),
                    *final(domain_sizes),
                    mask_rows(*is_ignore),
                )
                &&& dom(*final(domains), cell.0 as int, cell.1 as int) == set![choice as int]
                &&& size_at(*final(domain_sizes), cell.0 as int, cell.1 as int) == 1
                &&& forall|y: int, x: int|
                    in_wave(*old(domains), y, x) ==> size_at(*final(domain_sizes), y, x)
                        <= #[trigger] size_at(*old(domain_sizes), y, x)
                &&& forall|i: int|
                    0 <= i < affected@.len() ==> in_wave(
                        *old(domains),
                        (#[trigger] affected@[i]).0 as int,
                        affected@[i].1 as int,
                    )
                &&& forall|y: int, x: int|
                    in_wave(*old(domains), y, x) && !listed(affected@, y, x) && !(y == cell.0 && x
                        == cell.1) ==> size_at(*final(domain_sizes), y, x) == #[trigger] size_at(
                        *old(domain_sizes),
                        y,
                        x,
                    )
                &&& keeps_solutions_with(
                    *old(domains),
                    *final(domains),
                    *rules,
                    mask_rows(*is_ignore),
                    cell.0 as int,
                    cell.1 as int,
                    choice as int,
                )
            },
            Err(e) => (e == WfcError::IterationLimit && max_iterations < revision_bound(
                4,
                *old(domain_sizes),
            )) || (e matches WfcError::ContradictionAt { y, x } && active(
                mask_rows(*is_ignore),
                y as int,
                x as int,
            ) && dead_end(
                *old(domains),
                *rules,
                mask_rows(*is_ignore),
                cell.0 as int,
                cell.1 as int,
                choice as int,
            ) && doomed(map@, *rules, *old(domains), cell.0 as int, cell.1 as int, choice as int)),
        },
{
    let ghost n = rules.tiles();
    let ghost template = map@;
    let ghost mask = mask_rows(*is_ignore);
    let ghost d0 = *domains;
    let ghost s0 = *domain_sizes;
    proof {
        assert(cell_ok(d0, s0, cell.0 as int, cell.1 as int, n));
    }
    collapse_cell(domains, domain_sizes, rules, cell, choice);
    let ghost d1 = *domains;
    let ghost s1 = *domain_sizes;
    proof {
        assert forall|y: int, x: int| in_wave(d0, y, x) implies (#[trigger] dom(d1, y, x)).subset_of(
            dom(d0, y, x),
        ) by {
            if !(y == cell.0 && x == cell.1) {
                assert(domain_rows(d1)[y][x] == domain_rows(d0)[y][x]);
            }
        }
        assert forall|y: int, x: int, d: Direction| #[trigger]
            linked(mask, y, x, d) && step(d, y, x) != (
            cell.0 as int,
            cell.1 as int,
        ) implies arc_consistent(d1, *rules, (y, x), step(d, y, x), d) by {
            let s = step(d, y, x);
            assert(arc_consistent(d0, *rules, (y, x), s, d));
            assert(in_wave(d0, s.0, s.1));
            assert(domain_rows(d1)[s.0][s.1] == domain_rows(d0)[s.0][s.1]);
            assert(dom(d1, y, x).subset_of(dom(d0, y, x)));
            assert(dom(d1, s.0, s.1) == dom(d0, s.0, s.1));
            assert forall|u: int| #[trigger] dom(d1, y, x).contains(u) implies supported(
                *rules,
                u,
                d,
                dom(d1, s.0, s.1),
            ) by {
                let t = (y, x);
                assert(dom(d0, t.0, t.1).contains(u));
                assert(supported(*rules, u, d, dom(d0, s.0, s.1)));
            }
        }
    }
    let outcome = propagate_constraints(
        domains,
        domain_sizes,
        rules,
        is_ignore,
        neighbors,
        cell,
        max_iterations,
    );
    proof {
        assert forall|y: int, x: int|
            0 <= y < wave_rows(d0) && 0 <= x < size_rows(s1)[y].len() implies size_rows(s1)[y][x]
            <= size_rows(s0)[y][x] by {
            assert(in_wave(d0, y, x));
            if y == cell.0 && x == cell.1 {
                assert(size_at(s1, y, x) == 1);
                assert(size_at(s0, y, x) >= 1);
            } else {
                assert(domain_rows(d1)[y][x] == domain_rows(d0)[y][x]);
            }
        }
        lemma_total_le(size_rows(s1), size_rows(s0), wave_rows(d0) as int);
    }
    proof {
        assert forall|t: Seq<Seq<int>>|
            coherent(t, *rules, mask) && #[trigger] agrees(t, d0, mask) && t[cell.0 as int][cell.1 as int]
                == choice as int implies agrees(t, d1, mask) by {
            assert forall|y: int, x: int|
                in_wave(d1, y, x) && active(mask, y, x) implies #[trigger] dom(d1, y, x).contains(
                t[y][x],
            ) by {
                assert(dom(d0, y, x).contains(t[y][x]));
                if !(y == cell.0 && x == cell.1) {
                    assert(domain_rows(d1)[y][x] == domain_rows(d0)[y][x]);
                }
            }
        }
        lemma_families_hold_solutions(d1, *domains, *rules, mask);
        assert(keeps_solutions(d1, *domains, *rules, mask));
        assert forall|t: Seq<Seq<int>>|
            coherent(t, *rules, mask) && #[trigger] agrees(t, d0, mask) && t[cell.0 as int][cell.1 as int]
                == choice as int implies agrees(t, *domains, mask) by {
            assert(agrees(t, d1, mask));
        }
        if let Err(WfcError::ContradictionAt { y, x }) = outcome {
            lemma_holes(template, mask);
            assert forall|family: Seq<Seq<Set<int>>>|
                family_consistent(family, *rules, mask) && narrows(family, d0, mask)
                    && #[trigger] decides(
                    family,
                    cell.0 as int,
                    cell.1 as int,
                    choice as int,
                ) implies !family_alive(family, template) by {
                assert forall|a: int, b: int| in_wave(d1, a, b) && active(mask, a, b) implies (
                #[trigger] family[a][b]).subset_of(dom(d1, a, b)) by {
                    assert(family[a][b].subset_of(dom(d0, a, b)));
                    if !(a == cell.0 && b == cell.1) {
                        assert(domain_rows(d1)[a][b] == domain_rows(d0)[a][b]);
                    }
                }
                assert(narrows(family, d1, mask));
                assert(narrows(family, *domains, mask));
                assert(in_wave(*domains, y as int, x as int));
                assert(family[y as int][x as int].subset_of(dom(*domains, y as int, x as int)));
                assert(template[y as int].len() == template[0].len());
                assert(takes_part(template, y as int, x as int));
                assert(!occupied(family[y as int][x as int]));
            }
        }
        if outcome matches Err(WfcError::ContradictionAt { y, x }) {
            assert(unsolvable(d1, *rules, mask));
            assert forall|t: Seq<Seq<int>>|
                coherent(t, *rules, mask) && #[trigger] agrees(
                    t,
                    d0,
                    mask,
                ) implies t[cell.0 as int][cell.1 as int] != choice as int by {
                if t[cell.0 as int][cell.1 as int] == choice as int {
                    assert(agrees(t, d1, mask));
                }
            }
        }
    }
    proof {
        assert forall|y: int, x: int| in_wave(*domains, y, x) implies (#[trigger] dom(
            *domains,
            y,
            x,
        )).subset_of(cell_domain(template[y][x], n)) by {
            assert(dom(*domains, y, x).subset_of(dom(d1, y, x)));
            assert(dom(d1, y, x).subset_of(dom(d0, y, x)));
            assert(dom(d0, y, x).subset_of(cell_domain(template[y][x], n)));
        }
    }
    match outcome {
        Ok(affected) => {
            proof {
                assert(dom(*domains, cell.0 as int, cell.1 as int).subset_of(
                    dom(d1, cell.0 as int, cell.1 as int),
                ));
                assert(size_at(s1, cell.0 as int, cell.1 as int) > 0);
                assert(size_at(*domain_sizes, cell.0 as int, cell.1 as int) > 0);
                assert(size_at(*domain_sizes, cell.0 as int, cell.1 as int) <= size_at(
                    s1,
                    cell.0 as int,
                    cell.1 as int,
                ));
                assert(cell_ok(*domains, *domain_sizes, cell.0 as int, cell.1 as int, n));
                let now = dom(*domains, cell.0 as int, cell.1 as int);
                assert(now.len() == 1);
                assert(now.contains(choice as int)) by {
                    if !now.contains(choice as int) {
                        assert(now =~= Set::<int>::empty());
                    }
                }
                lemma_single(now, choice as int);
                assert forall|y: int, x: int|
                    in_wave(*domains, y, x) && active(mask, y, x) implies #[trigger] size_at(
                    *domain_sizes,
                    y,
                    x,
                ) >= 1 by {
                    assert(size_at(s0, y, x) >= 1);
                    if !(y == cell.0 && x == cell.1) {
                        assert(domain_rows(d1)[y][x] == domain_rows(d0)[y][x]);
                        assert(size_rows(s1)[y][x] == size_rows(s0)[y][x]);
                    }
                    assert(size_at(s1, y, x) > 0);
                }
                assert forall|y: int, x: int| in_wave(d0, y, x) implies size_at(
                    *domain_sizes,
                    y,
                    x,
                ) <= #[trigger] size_at(s0, y, x) by {
                    assert(size_at(*domain_sizes, y, x) <= size_at(s1, y, x));
                    if !(y == cell.0 && x == cell.1) {
                        assert(domain_rows(d1)[y][x] == domain_rows(d0)[y][x]);
                        assert(size_rows(s1)[y][x] == size_rows(s0)[y][x]);
                    } else {
                        assert(dom(d0, y, x).contains(choice as int));
                        assert(cell_ok(d0, s0, y, x, n));
                        assert(dom(d0, y, x).len() >= 1) by {
                            if dom(d0, y, x).len() == 0 {
                                assert(dom(d0, y, x) =~= Set::<int>::empty());
                            }
                        }
                    }
                }
                assert forall|y: int, x: int|
                    in_wave(d0, y, x) && !listed(affected@, y, x) && !(y == cell.0 && x
                        == cell.1) implies size_at(*domain_sizes, y, x) == #[trigger] size_at(
                    s0,
                    y,
                    x,
                ) by {
                    assert(domain_rows(d1)[y][x] == domain_rows(d0)[y][x]);
                    assert(size_rows(s1)[y][x] == size_rows(s0)[y][x]);
                    assert(size_at(*domain_sizes, y, x) <= size_at(s1, y, x));
                }
            }
            Ok(affected)
        },
        Err(e) => Err(e),
    }
}

/// Whether wave `b` has the shape of wave `a` and, cell by cell, its
/// candidates and its capacities.
pub open spec fn same_wave(a: DomainGrid, b: DomainGrid) -> bool {
    &&& domain_rows(b).len() == domain_rows(a).len()
    &&& forall|y: int|
        0 <= y < domain_rows(a).len() ==> (#[trigger] domain_rows(b)[y]).len() == domain_rows(
            a,
        )[y].len()
    &&& forall|y: int, x: int|
        0 <= y < domain_rows(a).len() && 0 <= x < domain_rows(a)[y].len() ==> bits_of(
            #[trigger] domain_rows(b)[y][x],
        ) == bits_of(domain_rows(a)[y][x]) && capacity_of(domain_rows(b)[y][x]) == capacity_of(
            domain_rows(a)[y][x],
        )
}

/// A copy of a stable wave is stable.
pub proof fn lemma_stable_copy(
    template: Seq<Seq<Cell>>,
    rules: Rules,
    a: DomainGrid,
    a_sizes: SizeGrid,
    b: DomainGrid,
    b_sizes: SizeGrid,
    mask: Seq<Seq<bool>>,
)
    requires
        stable(template, rules, a, a_sizes, mask),
        same_wave(a, b),
        size_rows(b_sizes) == size_rows(a_sizes),
    ensures
        stable(template, rules, b, b_sizes, mask),
        same_wave_shape(b, a),
        forall|y: int, x: int| in_wave(a, y, x) ==> #[trigger] dom(b, y, x) == dom(a, y, x),
{
    let n = rules.tiles();
    assert(domain_rows(b)[0].len() == domain_rows(a)[0].len());
    assert forall|y: int| 0 <= y < domain_rows(b).len() implies (#[trigger] domain_rows(b)[y]).len()
        == domain_rows(b)[0].len() by {
        assert(domain_rows(a)[y].len() == domain_rows(a)[0].len());
    }
    assert forall|y: int, x: int| in_wave(a, y, x) implies #[trigger] dom(b, y, x) == dom(
        a,
        y,
        x,
    ) by {
        assert(domain_rows(a)[y].len() == domain_rows(a)[0].len());
        assert(bits_of(domain_rows(b)[y][x]) == bits_of(domain_rows(a)[y][x]));
    }
    assert forall|y: int, x: int| in_wave(b, y, x) implies #[trigger] cell_ok(
        b,
        b_sizes,
        y,
        x,
        n,
    ) by {
        assert(cell_ok(a, a_sizes, y, x, n));
        assert(dom(b, y, x) == dom(a, y, x));
        assert(capacity_of(domain_rows(b)[y][x]) == capacity_of(domain_rows(a)[y][x]));
    }
    assert forall|y: int, x: int| in_wave(b, y, x) implies (#[trigger] dom(b, y, x)).subset_of(
        cell_domain(template[y][x], n),
    ) by {
        assert(dom(b, y, x) == dom(a, y, x));
        assert(dom(a, y, x).subset_of(cell_domain(template[y][x], n)));
    }
    assert forall|y: int, x: int, d: Direction| #[trigger] linked(mask, y, x, d) implies arc_consistent(
        b,
        rules,
        (y, x),
        step(d, y, x),
        d,
    ) by {
        let s = step(d, y, x);
        let t = (y, x);
        assert(arc_consistent(a, rules, t, s, d));
        assert(in_wave(a, y, x));
        assert(in_wave(a, s.0, s.1));
        assert(dom(b, y, x) == dom(a, y, x));
        assert(dom(b, s.0, s.1) == dom(a, s.0, s.1));
        assert forall|u: int| #[trigger] dom(b, t.0, t.1).contains(u) implies supported(
            rules,
            u,
            d,
            dom(b, s.0, s.1),
        ) by {
            assert(dom(a, t.0, t.1).contains(u));
        }
    }
    assert forall|y: int, x: int| in_wave(b, y, x) && active(mask, y, x) implies #[trigger] size_at(
        b_sizes,
        y,
        x,
    ) >= 1 by {
        assert(size_at(a_sizes, y, x) >= 1);
    }
}

/// The working state of a solver: the candidates and the cached size of
/// every cell, the marks of the holes, and the neighbour lists.
pub struct Wave {
    pub domains: DomainGrid,
    pub sizes: SizeGrid,
    pub is_ignore: MaskGrid,
    pub neighbours: NeighbourGrid,
}

/// The tiles of a grid of cells: for every cell its tile, and minus one
/// where it is not fixed.
pub open spec fn tiles_of(cells: Seq<Seq<Cell>>) -> Seq<Seq<int>> {
    Seq::new(cells.len(), |y: int| Seq::new(cells[y].len(), |x: int| tile_at(cells, y, x)))
}

/// Whether the template has no solution at all.
pub open spec fn hopeless(template: Seq<Seq<Cell>>, rules: Rules) -> bool {
    forall|result: Seq<Seq<Cell>>| !#[trigger] solves(template, rules, result)
}

/// Whether the wave still holds every solution of the template: the tiles
/// of every solution are candidates of their cells.
pub open spec fn admits(
    template: Seq<Seq<Cell>>,
    rules: Rules,
    domains: DomainGrid,
    mask: Seq<Seq<bool>>,
) -> bool {
    forall|result: Seq<Seq<Cell>>| #[trigger]
        solves(template, rules, result) ==> agrees(tiles_of(result), domains, mask)
}

/// The tiles of a solution are a choice that obeys the rules and agrees
/// with the wave the template starts from.
pub proof fn lemma_solution_is_choice(
    template: Seq<Seq<Cell>>,
    rules: Rules,
    result: Seq<Seq<Cell>>,
    domains: DomainGrid,
    mask: Seq<Seq<bool>>,
)
    requires
        solves(template, rules, result),
        mask_of(template, mask),
        wave_fits(domains, mask),
        forall|y: int, x: int|
            in_wave(domains, y, x) ==> #[trigger] dom(domains, y, x) == cell_domain(
                template[y][x],
                rules.tiles(),
            ),
    ensures
        coherent(tiles_of(result), rules, mask),
        agrees(tiles_of(result), domains, mask),
{
    let choice = tiles_of(result);
    assert forall|y: int, x: int| 0 <= y < template.len() && 0 <= x < template[0].len() implies choice[y][x]
        == tile_at(result, y, x) && template[y].len() == template[0].len() by {
        assert(template[y].len() == template[0].len());
        assert(result[y].len() == template[y].len());
    }
    assert forall|y: int, x: int, d: Direction| #[trigger] linked(mask, y, x, d) implies rules.allowed(
        choice[y][x],
        d,
    ).contains(choice[step(d, y, x).0][step(d, y, x).1]) by {
        let s = step(d, y, x);
        assert(!mask[y][x] && !mask[s.0][s.1]);
        assert(template[y].len() == template[0].len());
        assert(template[s.0].len() == template[0].len());
        assert(neighbours_in(template, y, x, d));
    }
    assert forall|y: int, x: int|
        in_wave(domains, y, x) && active(mask, y, x) implies #[trigger] dom(domains, y, x).contains(
        choice[y][x],
    ) by {
        assert(template[y].len() == template[0].len());
        assert(!mask[y][x]);
        assert(takes_part(template, y, x));
        assert(result[y][x] is Fixed);
    }
}

/// The table that marks the holes of a template.
pub open spec fn holes(template: Seq<Seq<Cell>>) -> Seq<Seq<bool>> {
    Seq::new(
        template.len(),
        |y: int| Seq::new(template[0].len(), |x: int| template[y][x] == Cell::Ignore),
    )
}

/// The table of marks of a template is the table of its holes.
pub proof fn lemma_holes(template: Seq<Seq<Cell>>, mask: Seq<Seq<bool>>)
    requires
        mask_of(template, mask),
    ensures
        mask == holes(template),
{
    let other = holes(template);
    assert(mask.len() == other.len());
    assert forall|y: int| 0 <= y < mask.len() implies mask[y] == other[y] by {
        assert(mask[y].len() == other[y].len());
        assert forall|x: int| 0 <= x < mask[y].len() implies mask[y][x] == other[y][x] by {
            assert(mask[y][x] == (template[y][x] == Cell::Ignore));
        }
        assert(mask[y] =~= other[y]);
    }
    assert(mask =~= other);
}

/// Whether a set holds a tile.
pub open spec fn occupied(tiles: Set<int>) -> bool {
    exists|u: int| tiles.contains(u)
}

/// Whether a family of sets of tiles gives every cell that takes part only
/// tiles that the template admits there.
pub open spec fn fits_template(family: Seq<Seq<Set<int>>>, template: Seq<Seq<Cell>>, n: nat) -> bool {
    forall|y: int, x: int|
        takes_part(template, y, x) ==> (#[trigger] family[y][x]).subset_of(
            cell_domain(template[y][x], n),
        )
}

/// Whether a family of sets of tiles gives every cell that takes part a
/// tile.
pub open spec fn family_alive(family: Seq<Seq<Set<int>>>, template: Seq<Seq<Cell>>) -> bool {
    forall|y: int, x: int| takes_part(template, y, x) ==> occupied(#[trigger] family[y][x])
}

/// Whether the template can be made arc consistent: some family of sets of
/// tiles within the template is arc consistent in itself and gives every
/// cell that takes part a tile. Setting up the wave succeeds exactly on
/// such templates.
pub open spec fn viable(template: Seq<Seq<Cell>>, rules: Rules) -> bool {
    exists|family: Seq<Seq<Set<int>>>|
        family_consistent(family, rules, holes(template)) && #[trigger] fits_template(
            family,
            template,
            rules.tiles(),
        ) && family_alive(family, template)
}

/// Whether a family is sound for the template: it is arc consistent in
/// itself, lies within the template, and gives every cell that takes part
/// a tile.
pub open spec fn sound(family: Seq<Seq<Set<int>>>, template: Seq<Seq<Cell>>, rules: Rules) -> bool {
    &&& family_consistent(family, rules, holes(template))
    &&& fits_template(family, template, rules.tiles())
    &&& family_alive(family, template)
}

/// Whether a family gives the cell `(y, x)` no tile but `u`.
pub open spec fn decides(family: Seq<Seq<Set<int>>>, y: int, x: int, u: int) -> bool {
    family[y][x].subset_of(set![u])
}

/// Whether one family lies within another at every cell that takes part.
pub open spec fn family_within(
    inner: Seq<Seq<Set<int>>>,
    outer: Seq<Seq<Set<int>>>,
    template: Seq<Seq<Cell>>,
) -> bool {
    forall|y: int, x: int|
        takes_part(template, y, x) ==> (#[trigger] inner[y][x]).subset_of(outer[y][x])
}

/// Whether the family holds the tile `u` for the cell `(y, x)`.
pub open spec fn holds_tile(family: Seq<Seq<Set<int>>>, y: int, x: int, u: int) -> bool {
    family[y][x].contains(u)
}

/// Whether `inner` is a sound family within `family` that gives the cell
/// `(y, x)` no tile but `u`.
pub open spec fn refines(
    inner: Seq<Seq<Set<int>>>,
    family: Seq<Seq<Set<int>>>,
    template: Seq<Seq<Cell>>,
    rules: Rules,
    y: int,
    x: int,
    u: int,
) -> bool {
    sound(inner, template, rules) && family_within(inner, family, template) && decides(
        inner,
        y,
        x,
        u,
    )
}

/// Whether no decision can lead into a contradiction: whatever sound
/// family the candidates are, and whichever of its tiles a cell is
/// committed to, a sound family is left within it that gives the cell
/// that tile alone. On such a template a solver succeeds whatever it
/// draws.
pub open spec fn safe(template: Seq<Seq<Cell>>, rules: Rules) -> bool {
    forall|family: Seq<Seq<Set<int>>>, y: int, x: int, u: int| #[trigger]
        holds_tile(family, y, x, u) && sound(family, template, rules) && takes_part(
            template,
            y,
            x,
        ) ==> exists|inner: Seq<Seq<Set<int>>>| #[trigger]
            refines(inner, family, template, rules, y, x, u)
}

/// Whether committing the cell `(cy, cx)` to `tile` leaves nothing: every
/// family within the wave that is arc consistent in itself and gives the
/// cell no tile but `tile` leaves a cell that takes part without a tile.
pub open spec fn doomed(
    template: Seq<Seq<Cell>>,
    rules: Rules,
    domains: DomainGrid,
    cy: int,
    cx: int,
    tile: int,
) -> bool {
    forall|family: Seq<Seq<Set<int>>>|
        family_consistent(family, rules, holes(template)) && narrows(
            family,
            domains,
            holes(template),
        ) && #[trigger] decides(family, cy, cx, tile) ==> !family_alive(family, template)
}

/// Whether the wave is the largest arc consistent wave within the
/// template: every family within the template that is arc consistent in
/// itself lies within the wave.
pub open spec fn largest_within(template: Seq<Seq<Cell>>, rules: Rules, domains: DomainGrid) -> bool {
    forall|family: Seq<Seq<Set<int>>>|
        family_consistent(family, rules, holes(template)) && #[trigger] fits_template(
            family,
            template,
            rules.tiles(),
        ) ==> narrows(family, domains, holes(template))
}

/// Whether a family gives every cell that takes part no tile but the one
/// that `choice` picks for it.
pub open spec fn at_most(
    family: Seq<Seq<Set<int>>>,
    choice: Seq<Seq<int>>,
    template: Seq<Seq<Cell>>,
) -> bool {
    forall|y: int, x: int|
        takes_part(template, y, x) ==> (#[trigger] family[y][x]).subset_of(set![choice[y][x]])
}

/// Whether the rules alone force `choice` on the template: the choice
/// obeys the rules and picks tiles that the template admits, and no arc
/// consistent family within the template holds any other tile. The wave
/// of such a template is decided once it is set up, with the tiles of
/// `choice`, and nothing is left to draw.
pub open spec fn forced(template: Seq<Seq<Cell>>, rules: Rules, choice: Seq<Seq<int>>) -> bool {
    &&& coherent(choice, rules, holes(template))
    &&& forall|y: int, x: int|
        takes_part(template, y, x) ==> cell_domain(template[y][x], rules.tiles()).contains(
            #[trigger] choice[y][x],
        )
    &&& forall|family: Seq<Seq<Set<int>>>|
        family_consistent(family, rules, holes(template)) && #[trigger] fits_template(
            family,
            template,
            rules.tiles(),
        ) ==> at_most(family, choice, template)
}

/// Whether setting up the wave decides every cell of the template.
pub open spec fn decided_by_setup(template: Seq<Seq<Cell>>, rules: Rules) -> bool {
    exists|choice: Seq<Seq<int>>| forced(template, rules, choice)
}

/// A number of revisions that no propagation exceeds on a grid of the
/// given shape over `n` tiles: four for every cell, and four more for every
/// candidate that can be removed.
pub open spec fn setup_bound(height: nat, width: nat, n: nat) -> nat {
    4 * height * width * (1 + n)
}

/// A row of sizes, none above `n`, sums to at most `n` for every entry.
proof fn lemma_sum_bound(row: Seq<usize>, k: int, n: nat)
    requires
        0 <= k <= row.len(),
        forall|i: int| 0 <= i < k ==> row[i] <= n,
    ensures
        sum_to(row, k) <= k * n,
    decreases k,
{
    if k > 0 {
        lemma_sum_bound(row, k - 1, n);
        assert((k - 1) * n + n == k * n) by (nonlinear_arith);
    }
}

/// A table of sizes, none above `n`, sums to at most `n` for every entry.
proof fn lemma_total_bound(rows: Seq<Seq<usize>>, k: int, width: nat, n: nat)
    requires
        0 <= k <= rows.len(),
        forall|y: int| 0 <= y < k ==> (#[trigger] rows[y]).len() == width,
        forall|y: int, x: int| 0 <= y < k && 0 <= x < width ==> #[trigger] rows[y][x] <= n,
    ensures
        total_to(rows, k) <= k * width * n,
    decreases k,
{
    if k > 0 {
        lemma_total_bound(rows, k - 1, width, n);
        let row = rows[k - 1];
        assert forall|i: int| 0 <= i < width implies row[i] <= n by {
            assert(rows[k - 1][i] <= n);
        }
        lemma_sum_bound(row, width as int, n);
        assert((k - 1) * width * n + width * n == k * width * n) by (nonlinear_arith);
    }
}

/// No propagation over a wave of `n` tiles that starts with at most four
/// arcs for every cell makes more revisions than `setup_bound` says.
pub proof fn lemma_revisions_bounded(domains: DomainGrid, sizes: SizeGrid, n: nat, seeds: nat)
    requires
        wave_wf(domains, sizes, n),
        seeds <= 4 * wave_rows(domains) * wave_cols(domains),
    ensures
        revision_bound(seeds, sizes) <= setup_bound(wave_rows(domains), wave_cols(domains), n),
{
    let rows = size_rows(sizes);
    let h = wave_rows(domains);
    let w = wave_cols(domains);
    assert forall|y: int, x: int| 0 <= y < h && 0 <= x < w implies #[trigger] rows[y][x] <= n by {
        assert(cell_ok(domains, sizes, y, x, n));
        lemma_size_bound(domains, sizes, y, x, n);
    }
    lemma_total_bound(rows, h as int, w, n);
    assert(4 * h * w + 4 * (h * w * n) == 4 * h * w * (1 + n)) by (nonlinear_arith);
}

/// The candidates of a stable wave are a family within the template that
/// is arc consistent in itself and gives every cell that takes part a
/// tile.
pub proof fn lemma_stable_is_viable(
    template: Seq<Seq<Cell>>,
    rules: Rules,
    domains: DomainGrid,
    sizes: SizeGrid,
    mask: Seq<Seq<bool>>,
)
    requires
        stable(template, rules, domains, sizes, mask),
    ensures
        family_consistent(family_of(domains), rules, holes(template)),
        fits_template(family_of(domains), template, rules.tiles()),
        family_alive(family_of(domains), template),
        viable(template, rules),
{
    let family = family_of(domains);
    lemma_holes(template, mask);
    lemma_wave_is_family(domains, domains, rules, mask);
    assert forall|y: int, x: int| takes_part(template, y, x) implies (#[trigger] family[y][x]).subset_of(
        cell_domain(template[y][x], rules.tiles()),
    ) && occupied(family[y][x]) by {
        assert(template[y].len() == template[0].len());
        assert(in_wave(domains, y, x));
        assert(family[y][x] == dom(domains, y, x));
        assert(dom(domains, y, x).subset_of(cell_domain(template[y][x], rules.tiles())));
        assert(!mask[y][x]);
        assert(active(mask, y, x));
        assert(size_at(sizes, y, x) >= 1);
        assert(cell_ok(domains, sizes, y, x, rules.tiles()));
        let u = dom(domains, y, x).choose();
        assert(dom(domains, y, x).contains(u)) by {
            if dom(domains, y, x) =~= Set::<int>::empty() {
            } else {
                let v = choose|v: int| dom(domains, y, x).contains(v);
                assert(dom(domains, y, x).contains(v));
            }
        }
    }
    assert(fits_template(family, template, rules.tiles()));
    assert(family_alive(family, template));
}

/// On a template where no decision can lead into a contradiction, no
/// commitment of a cell of a stable wave to one of its candidates leaves
/// nothing.
pub proof fn lemma_safe_is_not_doomed(
    template: Seq<Seq<Cell>>,
    rules: Rules,
    domains: DomainGrid,
    sizes: SizeGrid,
    mask: Seq<Seq<bool>>,
    cy: int,
    cx: int,
    tile: int,
)
    requires
        stable(template, rules, domains, sizes, mask),
        in_wave(domains, cy, cx),
        active(mask, cy, cx),
        dom(domains, cy, cx).contains(tile),
        safe(template, rules),
    ensures
        !doomed(template, rules, domains, cy, cx, tile),
{
    let family = family_of(domains);
    lemma_stable_is_viable(template, rules, domains, sizes, mask);
    lemma_holes(template, mask);
    assert(sound(family, template, rules));
    assert(template[cy].len() == template[0].len());
    assert(!mask[cy][cx]);
    assert(takes_part(template, cy, cx));
    assert(family[cy][cx] == dom(domains, cy, cx));
    assert(holds_tile(family, cy, cx, tile));
    let inner = choose|inner: Seq<Seq<Set<int>>>| #[trigger]
        refines(inner, family, template, rules, cy, cx, tile);
    assert forall|y: int, x: int| in_wave(domains, y, x) && active(mask, y, x) implies (
    #[trigger] inner[y][x]).subset_of(dom(domains, y, x)) by {
        assert(template[y].len() == template[0].len());
        assert(!mask[y][x]);
        assert(takes_part(template, y, x));
        assert(inner[y][x].subset_of(family[y][x]));
        assert(family[y][x] == dom(domains, y, x));
    }
    assert(narrows(inner, domains, mask));
    assert(decides(inner, cy, cx, tile));
}

/// Where the rules force a choice on the template, every stable wave of
/// the template that is the largest within it is decided.
pub proof fn lemma_forced_is_decided(
    template: Seq<Seq<Cell>>,
    rules: Rules,
    domains: DomainGrid,
    sizes: SizeGrid,
    mask: Seq<Seq<bool>>,
)
    requires
        stable(template, rules, domains, sizes, mask),
        decided_by_setup(template, rules),
    ensures
        decided(domains, sizes, mask),
{
    let choice = choose|choice: Seq<Seq<int>>| forced(template, rules, choice);
    let family = family_of(domains);
    lemma_stable_is_viable(template, rules, domains, sizes, mask);
    assert(at_most(family, choice, template));
    assert forall|y: int, x: int| in_wave(domains, y, x) && active(mask, y, x) implies #[trigger] size_at(
        sizes,
        y,
        x,
    ) == 1 by {
        assert(template[y].len() == template[0].len());
        assert(!mask[y][x]);
        assert(takes_part(template, y, x));
        assert(family[y][x] == dom(domains, y, x));
        assert(family[y][x].subset_of(set![choice[y][x]]));
        assert(cell_ok(domains, sizes, y, x, rules.tiles()));
        lemma_len_subset(dom(domains, y, x), set![choice[y][x]]);
        assert(size_at(sizes, y, x) >= 1);
    }
}

/// A choice that the rules force on the template shows that the template
/// can be made arc consistent.
pub proof fn lemma_forced_is_viable(template: Seq<Seq<Cell>>, rules: Rules)
    requires
        grid_shaped(template),
        decided_by_setup(template, rules),
    ensures
        viable(template, rules),
{
    let choice = choose|choice: Seq<Seq<int>>| forced(template, rules, choice);
    let mask = holes(template);
    let family = single_family(choice, template.len(), template[0].len());
    assert forall|y: int, x: int, d: Direction, u: int|
        #![trigger linked(mask, y, x, d), family[y][x].contains(u)]
        linked(mask, y, x, d) && family[y][x].contains(u) implies supported(
        rules,
        u,
        d,
        family[step(d, y, x).0][step(d, y, x).1],
    ) by {
        let s = step(d, y, x);
        assert(u == choice[y][x]);
        assert(family[s.0][s.1].contains(choice[s.0][s.1]));
        assert(rules.allowed(u, d).contains(choice[s.0][s.1]));
    }
    assert forall|y: int, x: int| takes_part(template, y, x) implies (#[trigger] family[y][x]).subset_of(
        cell_domain(template[y][x], rules.tiles()),
    ) && occupied(family[y][x]) by {
        assert(template[y].len() == template[0].len());
        assert(family[y][x] == set![choice[y][x]]);
        assert(cell_domain(template[y][x], rules.tiles()).contains(choice[y][x]));
        assert(family[y][x].contains(choice[y][x]));
    }
    assert(family_consistent(family, rules, mask));
    assert(fits_template(family, template, rules.tiles()));
    assert(family_alive(family, template));
}

/// Whether the cell `(y, x)` and its neighbour in direction `d` are both
/// fixed, and the tile of the neighbour is not allowed on that side of the
/// tile of the cell.
pub open spec fn clash_towards(
    template: Seq<Seq<Cell>>,
    rules: Rules,
    y: int,
    x: int,
    d: Direction,
) -> bool {
    neighbours_in(template, y, x, d) && match (
        template[y][x],
        template[step(d, y, x).0][step(d, y, x).1],
    ) {
        (Cell::Fixed(a), Cell::Fixed(b)) => !rules.allowed(a as int, d).contains(b as int),
        _ => false,
    }
}

/// Whether the fixed cell `(y, x)` does not fit the fixed cell above it or
/// the fixed cell to its left.
pub open spec fn clashes(template: Seq<Seq<Cell>>, rules: Rules, y: int, x: int) -> bool {
    clash_towards(template, rules, y, x, Direction::North) || clash_towards(
        template,
        rules,
        y,
        x,
        Direction::West,
    )
}

/// Whether `(a, b)` comes before `(y, x)` in reading order.
pub open spec fn comes_before(a: int, b: int, y: int, x: int) -> bool {
    a < y || (a == y && b < x)
}

/// Whether `(y, x)` is the first cell in reading order that does not fit
/// a fixed cell above it or to its left.
pub open spec fn first_clash(template: Seq<Seq<Cell>>, rules: Rules, y: int, x: int) -> bool {
    &&& 0 <= y < template.len()
    &&& 0 <= x < template[0].len()
    &&& clashes(template, rules, y, x)
    &&& forall|a: int, b: int|
        0 <= a < template.len() && 0 <= b < template[0].len() && comes_before(a, b, y, x)
            ==> !#[trigger] clashes(template, rules, a, b)
}

/// Whether no cell is the first to clash.
pub open spec fn no_clash(template: Seq<Seq<Cell>>, rules: Rules) -> bool {
    forall|y: usize, x: usize| !#[trigger] first_clash(template, rules, y as int, x as int)
}

/// Whether the fixed cell `(y, x)` of `map` does not fit its fixed
/// neighbour in direction `d`.
pub fn clash_at(map: &TileMap, rules: &Rules, y: usize, x: usize, d: Direction) -> (r: bool)
    requires
        map.wf(),
        rules.wf(),
        cells_fit(map@, rules.tiles()),
        y < map.rows(),
        x < map.cols(),
    ensures
        r == clash_towards(map@, *rules, y as int, x as int, d),
{
    let (height, width) = map.size();
    proof {
        assert(map@[y as int].len() == map@[0].len());
    }
    match d.apply_to((y, x), (height, width)) {
        None => false,
        Some(p) => {
            proof {
                assert(map@[p.0 as int].len() == map@[0].len());
                assert(cell_fits(map@[y as int][x as int], rules.tiles()));
            }
            match (map.get((y, x)), map.get(p)) {
                (Cell::Fixed(a), Cell::Fixed(b)) => !rules.allows(a, d, b),
                _ => false,
            }
        },
    }
}

/// The first cell of `map` in reading order that is fixed to a tile which
/// does not fit the fixed cell above it or to its left, or `None` where
/// no two fixed neighbours clash.
pub fn find_clash(map: &TileMap, rules: &Rules) -> (r: Option<(usize, usize)>)
    requires
        map.wf(),
        rules.wf(),
        cells_fit(map@, rules.tiles()),
    ensures
        r matches Some(p) ==> first_clash(map@, *rules, p.0 as int, p.1 as int),
        r.is_none() ==> forall|y: int, x: int|
            0 <= y < map@.len() && 0 <= x < map@[0].len() ==> !#[trigger] clashes(
                map@,
                *rules,
                y,
                x,
            ),
{
    let (height, width) = map.size();
    let mut y: usize = 0;
    while y < height
        invariant
            y <= height,
            map.wf(),
            rules.wf(),
            cells_fit(map@, rules.tiles()),
            height == map.rows(),
            width == map.cols(),
            forall|a: int, b: int|
                0 <= a < y && 0 <= b < width ==> !#[trigger] clashes(map@, *rules, a, b),
        decreases height - y,
    {
        let mut x: usize = 0;
        while x < width
            invariant
                x <= width,
                y < height,
                map.wf(),
                rules.wf(),
                cells_fit(map@, rules.tiles()),
                height == map.rows(),
                width == map.cols(),
                forall|a: int, b: int|
                    0 <= a < height && 0 <= b < width && comes_before(a, b, y as int, x as int)
                        ==> !#[trigger] clashes(map@, *rules, a, b),
            decreases width - x,
        {
            if clash_at(map, rules, y, x, Direction::North) || clash_at(
                map,
                rules,
                y,
                x,
                Direction::West,
            ) {
                return Some((y, x));
            }
            x += 1;
        }
        y += 1;
    }
    None
}

/// Two fixed neighbours of which the second is not allowed on that side
/// of the first leave nothing to set up: the template cannot be made arc
/// consistent, and it has no solution.
pub proof fn lemma_clash_is_not_viable(
    template: Seq<Seq<Cell>>,
    rules: Rules,
    y: int,
    x: int,
    d: Direction,
)
    requires
        grid_shaped(template),
        clash_towards(template, rules, y, x, d),
    ensures
        !viable(template, rules),
        hopeless(template, rules),
{
    let s = step(d, y, x);
    let a = template[y][x]->Fixed_0;
    let b = template[s.0][s.1]->Fixed_0;
    assert(template[y].len() == template[0].len());
    assert(template[s.0].len() == template[0].len());
    if viable(template, rules) {
        let family = choose|family: Seq<Seq<Set<int>>>|
            family_consistent(family, rules, holes(template)) && #[trigger] fits_template(
                family,
                template,
                rules.tiles(),
            ) && family_alive(family, template);
        let mask = holes(template);
        assert(linked(mask, y, x, d));
        assert(takes_part(template, y, x));
        assert(takes_part(template, s.0, s.1));
        assert(family[y][x].subset_of(set![a as int]));
        assert(family[s.0][s.1].subset_of(set![b as int]));
        assert(occupied(family[y][x]));
        let u = choose|u: int| family[y][x].contains(u);
        assert(u == a);
        assert(linked(mask, y, x, d) && family[y][x].contains(u));
        assert(supported(rules, u, d, family[s.0][s.1]));
        let v = choose|v: int|
            family[s.0][s.1].contains(v) && #[trigger] rules.allowed(u, d).contains(v);
        assert(v == b);
    }
    assert forall|result: Seq<Seq<Cell>>| !#[trigger] solves(template, rules, result) by {
        if solves(template, rules, result) {
            assert(takes_part(template, y, x));
            assert(takes_part(template, s.0, s.1));
            assert(result[y][x] is Fixed);
            assert(result[s.0][s.1] is Fixed);
            assert(tile_at(result, y, x) == a);
            assert(tile_at(result, s.0, s.1) == b);
            assert(neighbours_in(template, y, x, d));
        }
    }
}

/// Whether a cell is fixed to the tile `u`.
pub open spec fn fixed_to(cell: Cell, u: int) -> bool {
    match cell {
        Cell::Fixed(i) => i == u,
        _ => false,
    }
}

/// Whether the tile that `choice` gives the cell `(y, x)` follows from
/// the template in at most `k` steps: the cell is fixed to it, or a
/// neighbour whose tile follows in fewer steps leaves the cell no other
/// tile.
pub open spec fn pinned(
    template: Seq<Seq<Cell>>,
    rules: Rules,
    choice: Seq<Seq<int>>,
    y: int,
    x: int,
    k: nat,
) -> bool
    decreases k,
{
    takes_part(template, y, x) && (fixed_to(template[y][x], choice[y][x]) || (k > 0
        && exists|d: Direction| #[trigger]
        pins(template, rules, choice, y, x, d) && pinned(
            template,
            rules,
            choice,
            step(d, y, x).0,
            step(d, y, x).1,
            (k - 1) as nat,
        )))
}

/// Whether the neighbour of `(y, x)` in direction `d` takes part and its
/// tile in `choice` leaves the cell no tile but its own in `choice`.
pub open spec fn pins(
    template: Seq<Seq<Cell>>,
    rules: Rules,
    choice: Seq<Seq<int>>,
    y: int,
    x: int,
    d: Direction,
) -> bool {
    &&& neighbours_in(template, y, x, d)
    &&& forall|v: int|
        cell_domain(template[y][x], rules.tiles()).contains(v) && #[trigger] rules.allowed(
            v,
            d,
        ).contains(choice[step(d, y, x).0][step(d, y, x).1]) ==> v == choice[y][x]
}

/// In a family that is arc consistent in itself and lies within the
/// template, a cell whose tile follows from the template holds no other
/// tile.
pub proof fn lemma_pinned_holds(
    template: Seq<Seq<Cell>>,
    rules: Rules,
    choice: Seq<Seq<int>>,
    family: Seq<Seq<Set<int>>>,
    y: int,
    x: int,
    k: nat,
)
    requires
        grid_shaped(template),
        family_consistent(family, rules, holes(template)),
        fits_template(family, template, rules.tiles()),
        pinned(template, rules, choice, y, x, k),
    ensures
        family[y][x].subset_of(set![choice[y][x]]),
    decreases k,
{
    assert(family[y][x].subset_of(cell_domain(template[y][x], rules.tiles())));
    if fixed_to(template[y][x], choice[y][x]) {
    } else {
        let d = choose|d: Direction| #[trigger]
            pins(template, rules, choice, y, x, d) && pinned(
                template,
                rules,
                choice,
                step(d, y, x).0,
                step(d, y, x).1,
                (k - 1) as nat,
            );
        let s = step(d, y, x);
        lemma_pinned_holds(template, rules, choice, family, s.0, s.1, (k - 1) as nat);
        assert(template[y].len() == template[0].len());
        assert(template[s.0].len() == template[0].len());
        assert(linked(holes(template), y, x, d));
        assert forall|u: int| family[y][x].contains(u) implies u == choice[y][x] by {
            assert(linked(holes(template), y, x, d) && family[y][x].contains(u));
            assert(supported(rules, u, d, family[s.0][s.1]));
            let v = choose|v: int|
                family[s.0][s.1].contains(v) && #[trigger] rules.allowed(u, d).contains(v);
            assert(v == choice[s.0][s.1]);
        }
    }
}

/// A choice that obeys the rules, and of which every tile follows from
/// the template, is forced on the template: setting up the wave decides
/// every cell.
pub proof fn lemma_pinned_is_forced(
    template: Seq<Seq<Cell>>,
    rules: Rules,
    choice: Seq<Seq<int>>,
)
    requires
        grid_shaped(template),
        coherent(choice, rules, holes(template)),
        forall|y: int, x: int|
            takes_part(template, y, x) ==> cell_domain(template[y][x], rules.tiles()).contains(
                #[trigger] choice[y][x],
            ),
        forall|y: int, x: int|
            takes_part(template, y, x) ==> exists|k: nat| #[trigger]
                pinned(template, rules, choice, y, x, k),
    ensures
        forced(template, rules, choice),
        decided_by_setup(template, rules),
{
    assert forall|family: Seq<Seq<Set<int>>>|
        family_consistent(family, rules, holes(template)) && #[trigger] fits_template(
            family,
            template,
            rules.tiles(),
        ) implies at_most(family, choice, template) by {
        assert forall|y: int, x: int| takes_part(template, y, x) implies (#[trigger] family[y][x]).subset_of(
            set![choice[y][x]],
        ) by {
            let k = choose|k: nat| #[trigger] pinned(template, rules, choice, y, x, k);
            lemma_pinned_holds(template, rules, choice, family, y, x, k);
        }
    }
    assert(forced(template, rules, choice));
}

/// With a single tile that may stand next to itself on every side,
/// setting up the wave decides every template that fits the rules.
pub proof fn lemma_single_tile_is_decided(template: Seq<Seq<Cell>>, rules: Rules)
    requires
        grid_shaped(template),
        rules.tiles() == 1,
        cells_fit(template, 1),
        forall|d: Direction| #[trigger] rules.allowed(0, d).contains(0),
    ensures
        decided_by_setup(template, rules),
{
    let mask = holes(template);
    let choice = Seq::new(template.len(), |y: int| Seq::new(template[0].len(), |x: int| 0int));
    assert forall|y: int, x: int, d: Direction| #[trigger] linked(mask, y, x, d) implies rules.allowed(
        choice[y][x],
        d,
    ).contains(choice[step(d, y, x).0][step(d, y, x).1]) by {
        let s = step(d, y, x);
        assert(choice[y][x] == 0);
        assert(choice[s.0][s.1] == 0);
    }
    assert forall|y: int, x: int| takes_part(template, y, x) implies cell_domain(
        template[y][x],
        rules.tiles(),
    ).contains(#[trigger] choice[y][x]) && cell_domain(template[y][x], rules.tiles()).subset_of(
        set![choice[y][x]],
    ) by {
        assert(template[y].len() == template[0].len());
        assert(choice[y][x] == 0);
        assert(cell_fits(template[y][x], 1));
        lemma_int_range(0, 1);
    }
    assert forall|family: Seq<Seq<Set<int>>>|
        family_consistent(family, rules, mask) && #[trigger] fits_template(
            family,
            template,
            rules.tiles(),
        ) implies at_most(family, choice, template) by {
        assert forall|y: int, x: int| takes_part(template, y, x) implies (#[trigger] family[y][x]).subset_of(
            set![choice[y][x]],
        ) by {
            assert(family[y][x].subset_of(cell_domain(template[y][x], rules.tiles())));
            assert(cell_domain(template[y][x], rules.tiles()).contains(choice[y][x]));
        }
    }
    assert(forced(template, rules, choice));
}

/// What a solver may answer where it finds no solution while the wave is
/// being set up. Either the template names a tile the rules do not know.
/// Or the initial propagation ran out of iterations, and then
/// `max_iterations` is below the bound for the grid. Or the propagation
/// left a cell that takes part without a candidate, and then the template
/// cannot be made arc consistent and has no solution.
pub open spec fn setup_failure(
    e: WfcError,
    template: Seq<Seq<Cell>>,
    rules: Rules,
    max_iterations: usize,
) -> bool {
    match e {
        WfcError::InvalidMap(MapFault::IndexOutOfRange) => !cells_fit(
            template,
            rules.tiles(),
        ),
        WfcError::IterationLimit => cells_fit(template, rules.tiles()) && max_iterations
            < setup_bound(template.len(), template[0].len(), rules.tiles()),
        WfcError::ContradictionAt { y, x } => cells_fit(template, rules.tiles()) && takes_part(
            template,
            y as int,
            x as int,
        ) && !viable(template, rules) && hopeless(template, rules),
        _ => false,
    }
}

/// Sets up the wave of a template: every cell starts with the candidates
/// the template admits, and the whole grid is made arc consistent.
///
/// The template is refused with `InvalidMap` if a fixed cell names a tile
/// the rules do not know. Two fixed neighbours that do not fit are a
/// contradiction at the one that comes later in reading order, and the
/// first such cell is reported. Otherwise the outcome is that of the
/// initial propagation. With a bound that suffices for the grid, the wave
/// is set up exactly where the template can be made arc consistent.
pub fn start_wave(map: &TileMap, rules: &Rules, max_iterations: usize) -> (r: Result<Wave, WfcError>)
    requires
        map.wf(),
        rules.wf(),
    ensures
        match r {
            Ok(wave) => {
                &&& cells_fit(map@, rules.tiles())
                &&& stable(map@, *rules, wave.domains, wave.sizes, mask_rows(wave.is_ignore))
                &&& neighbours_match(wave.neighbours, mask_rows(wave.is_ignore))
                &&& admits(map@, *rules, wave.domains, mask_rows(wave.is_ignore))
                &&& largest_within(map@, *rules, wave.domains)
                &&& viable(map@, *rules)
                &&& no_clash(map@, *rules)
            },
            Err(e) => setup_failure(e, map@, *rules, max_iterations),
        },
        cells_fit(map@, rules.tiles()) ==> forall|y: usize, x: usize| #[trigger]
            first_clash(map@, *rules, y as int, x as int) ==> r.is_err() && r->Err_0 == (
            WfcError::ContradictionAt { y, x }),
        cells_fit(map@, rules.tiles()) && max_iterations >= setup_bound(
            map@.len(),
            map@[0].len(),
            rules.tiles(),
        ) ==> (r.is_ok() <==> viable(map@, *rules)),
{
    let n = rules.len();
    let fits = match map.max_index() {
        Some(m) => m < n,
        None => true,
    };
    if !fits {
        return Err(WfcError::InvalidMap(MapFault::IndexOutOfRange));
    }
    proof {
        assert(cells_fit(map@, n as nat));
    }
    if let Some(p) = find_clash(map, rules) {
        proof {
            let d = if clash_towards(map@, *rules, p.0 as int, p.1 as int, Direction::North) {
                Direction::North
            } else {
                Direction::West
            };
            lemma_clash_is_not_viable(map@, *rules, p.0 as int, p.1 as int, d);
            assert(map@[p.0 as int].len() == map@[0].len());
        }
        return Err(WfcError::ContradictionAt { y: p.0, x: p.1 });
    }
    let (height, width) = map.size();
    let mut domains = map.domains(n);
    let is_ignore = map.mask();
    let ghost mask = mask_rows(is_ignore);
    let mut sizes = count_domains(&domains, height, width, n);
    let neighbours = calculate_neighbours(height, width, &is_ignore);
    let ghost d0 = domains;
    let ghost s0 = sizes;
    proof {
        assert(map@[0].len() == width);
        assert forall|y: int, x: int| in_wave(d0, y, x) && active(mask, y, x) implies size_at(
            s0,
            y,
            x,
        ) >= 1 by {
            assert(cell_ok(d0, s0, y, x, n as nat));
            assert(cell_fits(map@[y][x], n as nat));
            lemma_cell_domain(map@[y][x], n as nat);
        }
    }
    let outcome = initial_propagation(
        &mut domains,
        &mut sizes,
        rules,
        height,
        width,
        &is_ignore,
        &neighbours,
        max_iterations,
    );
    proof {
        lemma_families_hold_solutions(d0, domains, *rules, mask);
        assert forall|result: Seq<Seq<Cell>>| #[trigger]
            solves(map@, *rules, result) implies agrees(tiles_of(result), domains, mask)
            && !(outcome matches Err(WfcError::ContradictionAt { y, x })) by {
            lemma_solution_is_choice(map@, *rules, result, d0, mask);
            assert(agrees(tiles_of(result), d0, mask));
        }
        lemma_holes(map@, mask);
        assert forall|family: Seq<Seq<Set<int>>>|
            family_consistent(family, *rules, mask) && #[trigger] fits_template(
                family,
                map@,
                n as nat,
            ) implies narrows(family, domains, mask) by {
            assert forall|y: int, x: int|
                in_wave(d0, y, x) && active(mask, y, x) implies (#[trigger] family[y][x]).subset_of(
                dom(d0, y, x),
            ) by {
                assert(map@[y].len() == map@[0].len());
                assert(!mask[y][x]);
                assert(takes_part(map@, y, x));
            }
            assert(narrows(family, d0, mask));
        }
        if let Err(WfcError::ContradictionAt { y, x }) = outcome {
            assert(!viable(map@, *rules)) by {
                if viable(map@, *rules) {
                    let family = choose|family: Seq<Seq<Set<int>>>|
                        family_consistent(family, *rules, holes(map@)) && #[trigger] fits_template(
                            family,
                            map@,
                            rules.tiles(),
                        ) && family_alive(family, map@);
                    assert(narrows(family, domains, mask));
                    assert(map@[y as int].len() == map@[0].len());
                    assert(!mask[y as int][x as int]);
                    assert(takes_part(map@, y as int, x as int));
                    assert(in_wave(domains, y as int, x as int));
                    assert(family[y as int][x as int].subset_of(dom(domains, y as int, x as int)));
                    assert(occupied(family[y as int][x as int]));
                }
            }
        }
        if outcome == Err::<(), WfcError>(WfcError::IterationLimit) {
            assert(4 * height * width == 4 * wave_rows(d0) * wave_cols(d0));
            lemma_revisions_bounded(d0, s0, n as nat, (4 * height * width) as nat);
        }
    }
    match outcome {
        Ok(()) => {
            proof {
                assert forall|y: int, x: int| in_wave(domains, y, x) implies (#[trigger] dom(
                    domains,
                    y,
                    x,
                )).subset_of(cell_domain(map@[y][x], n as nat)) by {
                    assert(dom(domains, y, x).subset_of(dom(d0, y, x)));
                }
                assert forall|y: int, x: int|
                    in_wave(domains, y, x) && active(mask, y, x) implies #[trigger] size_at(
                    sizes,
                    y,
                    x,
                ) >= 1 by {
                    assert(size_at(s0, y, x) >= 1);
                }
            }
            proof {
                lemma_stable_is_viable(map@, *rules, domains, sizes, mask);
            }
            Ok(Wave { domains, sizes, is_ignore, neighbours })
        },
        Err(e) => Err(e),
    }
}

/// The entries of `values` at the positions `options`, in the order of
/// the positions.
pub fn picked(values: &Vec<usize>, options: &Vec<usize>) -> (weights: Vec<usize>)
    requires
        forall|i: int| 0 <= i < options@.len() ==> (#[trigger] options@[i]) < values@.len(),
    ensures
        weights@.len() == options@.len(),
        forall|i: int| 0 <= i < options@.len() ==> #[trigger] weights@[i] == values@[options@[i] as int],
{
    let mut weights: Vec<usize> = Vec::new();
    let mut i: usize = 0;
    while i < options.len()
        invariant
            i <= options.len(),
            weights@.len() == i,
            forall|k: int| 0 <= k < options@.len() ==> (#[trigger] options@[k]) < values@.len(),
            forall|k: int| 0 <= k < i ==> #[trigger] weights@[k] == values@[options@[k] as int],
        decreases options.len() - i,
    {
        weights.push(values[options[i]]);
        i += 1;
    }
    weights
}

/// The frequencies of the tiles of `options`, in their order.
pub fn weights_of(rules: &Rules, options: &Vec<usize>) -> (weights: Vec<usize>)
    requires
        forall|i: int| 0 <= i < options@.len() ==> (#[trigger] options@[i]) < rules.weights().len(),
    ensures
        weights@.len() == options@.len(),
        forall|i: int|
            0 <= i < options@.len() ==> #[trigger] weights@[i] == rules.weights()[options@[i] as int],
{
    picked(rules.frequencies(), options)
}

/// Brings the buckets in step with the sizes after a propagation: every
/// cell of `affected` is struck from the buckets and, where it is still
/// undecided, filed under its present size.
pub fn refile(
    buckets: &mut Vec<Vec<(usize, usize)>>,
    affected: &Vec<(usize, usize)>,
    domain_sizes: &SizeGrid,
    domains: &DomainGrid,
    is_ignore: &MaskGrid,
)
    requires
        grid_shaped(domain_rows(*domains)),
        rectangular(size_rows(*domain_sizes), wave_rows(*domains), wave_cols(*domains)),
        forall|y: int, x: int|
            in_wave(*domains, y, x) ==> #[trigger] size_at(*domain_sizes, y, x) < old(buckets)@.len(),
        entries_in_wave(old(buckets)@, *domains),
        covers_but(old(buckets)@, *domains, *domain_sizes, mask_rows(*is_ignore), affected@),
        exact_but(old(buckets)@, *domains, *domain_sizes, mask_rows(*is_ignore), affected@),
        no_repeats(old(buckets)@),
        holes_decided(*domains, *domain_sizes, mask_rows(*is_ignore)),
        forall|i: int|
            0 <= i < affected@.len() ==> in_wave(
                *domains,
                (#[trigger] affected@[i]).0 as int,
                affected@[i].1 as int,
            ),
    ensures
        final(buckets)@.len() == old(buckets)@.len(),
        entries_in_wave(final(buckets)@, *domains),
        in_step(final(buckets)@, *domains, *domain_sizes, mask_rows(*is_ignore)),
{
    let ghost mask = mask_rows(*is_ignore);
    proof {
        assert(affected@.subrange(0, affected@.len() as int) =~= affected@);
    }
    let mut i: usize = 0;
    while i < affected.len()
        invariant
            i <= affected.len(),
            buckets@.len() == old(buckets)@.len(),
            grid_shaped(domain_rows(*domains)),
            rectangular(size_rows(*domain_sizes), wave_rows(*domains), wave_cols(*domains)),
            forall|y: int, x: int|
                in_wave(*domains, y, x) ==> #[trigger] size_at(*domain_sizes, y, x) < buckets@.len(),
            entries_in_wave(buckets@, *domains),
            mask == mask_rows(*is_ignore),
            holes_decided(*domains, *domain_sizes, mask),
            no_repeats(buckets@),
            exact_but(
                buckets@,
                *domains,
                *domain_sizes,
                mask,
                affected@.subrange(i as int, affected@.len() as int),
            ),
            covers_but(
                buckets@,
                *domains,
                *domain_sizes,
                mask,
                affected@.subrange(i as int, affected@.len() as int),
            ),
            forall|k: int|
                0 <= k < affected@.len() ==> in_wave(
                    *domains,
                    (#[trigger] affected@[k]).0 as int,
                    affected@[k].1 as int,
                ),
        decreases affected.len() - i,
    {
        let cell = affected[i];
        let ghost before = buckets@;
        let ghost pending = affected@.subrange(i as int, affected@.len() as int);
        let ghost later = affected@.subrange(i as int + 1, affected@.len() as int);
        unfile_cell(buckets, cell);
        let ghost struck = buckets@;
        let size = size_grid_at(domain_sizes, cell.0, cell.1);
        proof {
            assert(size == size_at(*domain_sizes, cell.0 as int, cell.1 as int));
        }
        if size >= 2 {
            file_cell(buckets, size, cell);
        }
        proof {
            // No bucket lists a cell twice: the cell that was filed had
            // been struck from every bucket.
            assert forall|k: int| 0 <= k < buckets@.len() implies distinct(
                (#[trigger] buckets@[k])@,
            ) by {
                assert(distinct(struck[k]@));
                if size >= 2 && k == size {
                    assert forall|a: int, b: int| 0 <= a < b < buckets@[k]@.len() implies buckets@[k]@[a]
                        != buckets@[k]@[b] by {
                        if b == struck[k]@.len() {
                            assert(buckets@[k]@[a] == struck[k]@[a]);
                            if struck[k]@[a] == cell {
                                assert(listed(struck[k]@, cell.0 as int, cell.1 as int));
                            }
                        } else {
                            assert(struck[k]@[a] != struck[k]@[b]);
                        }
                    }
                }
            }
            // Every entry is filed under its size, but for the cells that
            // are still to come.
            assert forall|k: int, j: int|
                0 <= k < buckets@.len() && 0 <= j < buckets@[k]@.len() implies listed(
                later,
                (#[trigger] buckets@[k]@[j]).0 as int,
                buckets@[k]@[j].1 as int,
            ) || filed_right(*domains, *domain_sizes, mask, buckets@[k]@[j], k) by {
                let e = buckets@[k]@[j];
                if size >= 2 && k == size && j == struck[k]@.len() {
                    assert(e == cell);
                    assert(in_wave(*domains, cell.0 as int, cell.1 as int));
                } else {
                    assert(e == struck[k]@[j]);
                    assert(listed(before[k]@, e.0 as int, e.1 as int));
                    let m = choose|m: int|
                        0 <= m < before[k]@.len() && (#[trigger] before[k]@[m]).0 == e.0
                            && before[k]@[m].1 == e.1;
                    assert(before[k]@[m] == e);
                    assert(!(e.0 == cell.0 && e.1 == cell.1)) by {
                        if e.0 == cell.0 && e.1 == cell.1 {
                            assert(listed(struck[k]@, cell.0 as int, cell.1 as int));
                        }
                    }
                    if listed(pending, e.0 as int, e.1 as int) {
                        let q = choose|q: int|
                            0 <= q < pending.len() && (#[trigger] pending[q]).0 == e.0
                                && pending[q].1 == e.1;
                        assert(q != 0);
                        assert(later[q - 1] == pending[q]);
                    }
                }
            }
        }
        proof {
            assert forall|k: int, j: int|
                0 <= k < buckets@.len() && 0 <= j < buckets@[k]@.len() implies in_wave(
                *domains,
                (#[trigger] buckets@[k]@[j]).0 as int,
                buckets@[k]@[j].1 as int,
            ) by {
                if size >= 2 && k == size && j == struck[k]@.len() {
                } else {
                    assert(buckets@[k]@[j] == struck[k]@[j]);
                    assert(listed(before[k]@, struck[k]@[j].0 as int, struck[k]@[j].1 as int));
                    let m = choose|m: int|
                        0 <= m < before[k]@.len() && (#[trigger] before[k]@[m]).0
                            == struck[k]@[j].0 && before[k]@[m].1 == struck[k]@[j].1;
                    assert(in_wave(*domains, before[k]@[m].0 as int, before[k]@[m].1 as int));
                }
            }
            assert forall|y: int, x: int|
                in_wave(*domains, y, x) && active(mask, y, x) && #[trigger] size_at(
                    *domain_sizes,
                    y,
                    x,
                ) >= 2 && !listed(later, y, x) implies size_at(*domain_sizes, y, x) < buckets@.len()
                && listed(buckets@[size_at(*domain_sizes, y, x) as int]@, y, x) by {
                let k = size_at(*domain_sizes, y, x) as int;
                if y == cell.0 && x == cell.1 {
                    assert(k == size);
                    assert(buckets@[k]@[struck[k]@.len() as int] == cell);
                } else {
                    if listed(pending, y, x) {
                        let j = choose|j: int|
                            0 <= j < pending.len() && (#[trigger] pending[j]).0 == y
                                && pending[j].1 == x;
                        assert(j != 0);
                        assert(later[j - 1] == pending[j]);
                        assert(false);
                    }
                    assert(listed(before[k]@, y, x));
                    assert(listed(struck[k]@, y, x));
                    let j = choose|j: int|
                        0 <= j < struck[k]@.len() && (#[trigger] struck[k]@[j]).0 == y
                            && struck[k]@[j].1 == x;
                    assert(buckets@[k]@[j] == struck[k]@[j]);
                }
            }
        }
        i += 1;
    }
    proof {
        let none = affected@.subrange(affected@.len() as int, affected@.len() as int);
        assert(none =~= Seq::<(usize, usize)>::empty());
    }
}

/// The buckets of a wave: every undecided cell that takes part, filed
/// under its size, in row-major order.
pub fn fill_buckets(
    domain_sizes: &SizeGrid,
    is_ignore: &MaskGrid,
    height: usize,
    width: usize,
    num_tiles: usize,
    domains: &DomainGrid,
) -> (buckets: Vec<Vec<(usize, usize)>>)
    requires
        num_tiles < usize::MAX,
        wave_wf(*domains, *domain_sizes, num_tiles as nat),
        wave_fits(*domains, mask_rows(*is_ignore)),
        height == wave_rows(*domains),
        width == wave_cols(*domains),
    ensures
        buckets@.len() == num_tiles + 1,
        entries_in_wave(buckets@, *domains),
        in_step(buckets@, *domains, *domain_sizes, mask_rows(*is_ignore)),
{
    let ghost mask = mask_rows(*is_ignore);
    let mut buckets = empty_buckets(num_tiles + 1);
    let mut y: usize = 0;
    while y < height
        invariant
            y <= height,
            wave_wf(*domains, *domain_sizes, num_tiles as nat),
            wave_fits(*domains, mask),
            mask == mask_rows(*is_ignore),
            height == wave_rows(*domains),
            width == wave_cols(*domains),
            buckets@.len() == num_tiles + 1,
            entries_in_wave(buckets@, *domains),
            no_repeats(buckets@),
            forall|k: int, j: int|
                0 <= k < buckets@.len() && 0 <= j < buckets@[k]@.len() ==> filed_right(
                    *domains,
                    *domain_sizes,
                    mask,
                    #[trigger] buckets@[k]@[j],
                    k,
                ) && buckets@[k]@[j].0 < y,
            forall|a: int, b: int|
                0 <= a < y && 0 <= b < width && active(mask, a, b) && #[trigger] size_at(
                    *domain_sizes,
                    a,
                    b,
                ) >= 2 ==> size_at(*domain_sizes, a, b) < buckets@.len() && listed(
                    buckets@[size_at(*domain_sizes, a, b) as int]@,
                    a,
                    b,
                ),
        decreases height - y,
    {
        let mut x: usize = 0;
        while x < width
            invariant
                x <= width,
                y < height,
                wave_wf(*domains, *domain_sizes, num_tiles as nat),
                wave_fits(*domains, mask),
                mask == mask_rows(*is_ignore),
                height == wave_rows(*domains),
                width == wave_cols(*domains),
                buckets@.len() == num_tiles + 1,
                entries_in_wave(buckets@, *domains),
                no_repeats(buckets@),
                forall|k: int, j: int|
                    0 <= k < buckets@.len() && 0 <= j < buckets@[k]@.len() ==> filed_right(
                        *domains,
                        *domain_sizes,
                        mask,
                        #[trigger] buckets@[k]@[j],
                        k,
                    ) && (buckets@[k]@[j].0 < y || (buckets@[k]@[j].0 == y && buckets@[k]@[j].1
                        < x)),
                forall|a: int, b: int|
                    0 <= a <= y && 0 <= b < width && (a < y || b < x) && active(mask, a, b)
                        && #[trigger] size_at(*domain_sizes, a, b) >= 2 ==> size_at(
                        *domain_sizes,
                        a,
                        b,
                    ) < buckets@.len() && listed(
                        buckets@[size_at(*domain_sizes, a, b) as int]@,
                        a,
                        b,
                    ),
            decreases width - x,
        {
            let size = size_grid_at(domain_sizes, y, x);
            proof {
                assert(cell_ok(*domains, *domain_sizes, y as int, x as int, num_tiles as nat));
                lemma_size_bound(*domains, *domain_sizes, y as int, x as int, num_tiles as nat);
            }
            if !mask_grid_at(is_ignore, y, x) && size >= 2 {
                let ghost before = buckets@;
                file_cell(&mut buckets, size, (y, x));
                proof {
                    assert forall|a: int, b: int|
                        0 <= a <= y && 0 <= b < width && (a < y || b < x + 1) && active(mask, a, b)
                            && #[trigger] size_at(*domain_sizes, a, b) >= 2 implies size_at(
                        *domain_sizes,
                        a,
                        b,
                    ) < buckets@.len() && listed(
                        buckets@[size_at(*domain_sizes, a, b) as int]@,
                        a,
                        b,
                    ) by {
                        let k = size_at(*domain_sizes, a, b) as int;
                        if a == y && b == x {
                            assert(buckets@[k]@[before[k]@.len() as int] == (y, x));
                        } else {
                            assert(listed(before[k]@, a, b));
                            let j = choose|j: int|
                                0 <= j < before[k]@.len() && (#[trigger] before[k]@[j]).0 == a
                                    && before[k]@[j].1 == b;
                            assert(buckets@[k]@[j] == before[k]@[j]);
                        }
                    }
                    assert forall|k: int, j: int|
                        0 <= k < buckets@.len() && 0 <= j < buckets@[k]@.len() implies in_wave(
                        *domains,
                        (#[trigger] buckets@[k]@[j]).0 as int,
                        buckets@[k]@[j].1 as int,
                    ) by {
                        if k == size && j == before[k]@.len() {
                        } else {
                            assert(buckets@[k]@[j] == before[k]@[j]);
                        }
                    }
                    assert forall|k: int, j: int|
                        0 <= k < buckets@.len() && 0 <= j < buckets@[k]@.len() implies filed_right(
                        *domains,
                        *domain_sizes,
                        mask,
                        #[trigger] buckets@[k]@[j],
                        k,
                    ) && (buckets@[k]@[j].0 < y || (buckets@[k]@[j].0 == y && buckets@[k]@[j].1 < x
                        + 1)) by {
                        if k == size && j == before[k]@.len() {
                            assert(buckets@[k]@[j] == (y, x));
                        } else {
                            assert(buckets@[k]@[j] == before[k]@[j]);
                        }
                    }
                    assert forall|k: int| 0 <= k < buckets@.len() implies distinct(
                        (#[trigger] buckets@[k])@,
                    ) by {
                        assert(distinct(before[k]@));
                        if k == size {
                            assert forall|p: int, q: int|
                                0 <= p < q < buckets@[k]@.len() implies buckets@[k]@[p]
                                != buckets@[k]@[q] by {
                                assert(buckets@[k]@[p] == before[k]@[p]);
                                if q < before[k]@.len() {
                                    assert(before[k]@[p] != before[k]@[q]);
                                }
                            }
                        }
                    }
                }
            }
            x += 1;
        }
        y += 1;
    }
    proof {
        assert forall|k: int, j: int|
            0 <= k < buckets@.len() && 0 <= j < buckets@[k]@.len() implies listed(
            Seq::<(usize, usize)>::empty(),
            (#[trigger] buckets@[k]@[j]).0 as int,
            buckets@[k]@[j].1 as int,
        ) || filed_right(*domains, *domain_sizes, mask, buckets@[k]@[j], k) by {}
    }
    buckets
}

/// Writes out the map of a wave in which every cell that takes part is
/// decided: the holes of the template stay holes, and every other cell is
/// fixed to its one candidate.
pub fn emit(
    map: &TileMap,
    rules: &Rules,
    domains: &DomainGrid,
    is_ignore: &MaskGrid,
    domain_sizes: &SizeGrid,
) -> (result: TileMap)
    requires
        map.wf(),
        stable(map@, *rules, *domains, *domain_sizes, mask_rows(*is_ignore)),
        decided(*domains, *domain_sizes, mask_rows(*is_ignore)),
    ensures
        result.wf(),
        solves(map@, *rules, result@),
{
    let ghost n = rules.tiles();
    let ghost mask = mask_rows(*is_ignore);
    let (height, width) = map.size();
    let mut result = TileMap::empty((height, width));
    let mut y: usize = 0;
    while y < height
        invariant
            y <= height,
            map.wf(),
            result.wf(),
            height == map.rows(),
            width == map.cols(),
            result.rows() == height,
            result.cols() == width,
            mask == mask_rows(*is_ignore),
            n == rules.tiles(),
            stable(map@, *rules, *domains, *domain_sizes, mask),
            decided(*domains, *domain_sizes, mask),
            forall|a: int, b: int|
                0 <= a < y && 0 <= b < width ==> emitted(
                    map@,
                    *domains,
                    #[trigger] result@[a][b],
                    a,
                    b,
                ),
        decreases height - y,
    {
        let mut x: usize = 0;
        while x < width
            invariant
                x <= width,
                y < height,
                map.wf(),
                result.wf(),
                height == map.rows(),
                width == map.cols(),
                result.rows() == height,
                result.cols() == width,
                mask == mask_rows(*is_ignore),
                n == rules.tiles(),
                stable(map@, *rules, *domains, *domain_sizes, mask),
                decided(*domains, *domain_sizes, mask),
                forall|a: int, b: int|
                    0 <= a <= y && 0 <= b < width && (a < y || b < x) ==> emitted(
                        map@,
                        *domains,
                        #[trigger] result@[a][b],
                        a,
                        b,
                    ),
            decreases width - x,
        {
            let ghost before = result@;
            if mask_grid_at(is_ignore, y, x) {
                result.set((y, x), Cell::Ignore);
            } else {
                let options = bitset_ones(domain_grid_at(domains, y, x));
                proof {
                    assert(cell_ok(*domains, *domain_sizes, y as int, x as int, n));
                    assert(size_at(*domain_sizes, y as int, x as int) == 1);
                }
                let tile = options[0];
                result.set((y, x), Cell::Fixed(tile));
                proof {
                    lemma_single(dom(*domains, y as int, x as int), tile as int);
                }
            }
            proof {
                lemma_put_keeps_shape(before, y as int, x as int, result@[y as int][x as int]);
                assert forall|a: int, b: int|
                    0 <= a <= y && 0 <= b < width && (a < y || b < x + 1) implies emitted(
                    map@,
                    *domains,
                    #[trigger] result@[a][b],
                    a,
                    b,
                ) by {
                    if !(a == y && b == x) {
                        assert(before[a].len() == width);
                        assert(result@[a][b] == before[a][b]);
                    }
                }
            }
            x += 1;
        }
        y += 1;
    }
    proof {
        lemma_emitted_solves(map@, *rules, *domains, *domain_sizes, mask, result@);
    }
    result
}

/// What `emit` writes at `(y, x)`: a hole for a hole, and otherwise the
/// one candidate of the cell.
pub open spec fn emitted(
    template: Seq<Seq<Cell>>,
    domains: DomainGrid,
    cell: Cell,
    y: int,
    x: int,
) -> bool {
    if template[y][x] == Cell::Ignore {
        cell == Cell::Ignore
    } else {
        cell matches Cell::Fixed(t) && dom(domains, y, x) =~= set![t as int]
    }
}

/// A grid written out from a stable and decided wave solves the template.
pub proof fn lemma_emitted_solves(
    template: Seq<Seq<Cell>>,
    rules: Rules,
    domains: DomainGrid,
    sizes: SizeGrid,
    mask: Seq<Seq<bool>>,
    result: Seq<Seq<Cell>>,
)
    requires
        stable(template, rules, domains, sizes, mask),
        grid_shaped(result),
        result.len() == template.len(),
        result[0].len() == template[0].len(),
        forall|a: int, b: int|
            0 <= a < template.len() && 0 <= b < template[0].len() ==> emitted(
                template,
                domains,
                #[trigger] result[a][b],
                a,
                b,
            ),
    ensures
        solves(template, rules, result),
{
    let n = rules.tiles();
    assert forall|y: int, x: int| takes_part(template, y, x) implies (#[trigger] result[y][x]) is Fixed
        && cell_domain(template[y][x], n).contains(tile_at(result, y, x)) by {
        assert(template[y].len() == template[0].len());
        assert(emitted(template, domains, result[y][x], y, x));
        assert(in_wave(domains, y, x));
        assert(dom(domains, y, x).subset_of(cell_domain(template[y][x], n)));
        assert(dom(domains, y, x).contains(tile_at(result, y, x)));
    }
    assert forall|y: int, x: int, d: Direction| #[trigger]
        neighbours_in(template, y, x, d) implies rules.allowed(tile_at(result, y, x), d).contains(
        tile_at(result, step(d, y, x).0, step(d, y, x).1),
    ) by {
        let s = step(d, y, x);
        assert(template[y].len() == template[0].len());
        assert(template[s.0].len() == template[0].len());
        assert(emitted(template, domains, result[y][x], y, x));
        assert(emitted(template, domains, result[s.0][s.1], s.0, s.1));
        assert(!mask[y][x]);
        assert(!mask[s.0][s.1]);
        assert(linked(mask, y, x, d));
        assert(arc_consistent(domains, rules, (y, x), s, d));
        let t = (y, x);
        let u = tile_at(result, y, x);
        assert(dom(domains, t.0, t.1).contains(u));
        assert(supported(rules, u, d, dom(domains, s.0, s.1)));
    }
    assert forall|y: int, x: int|
        0 <= y < template.len() && 0 <= x < template[y].len() && template[y][x]
            == Cell::Ignore implies #[trigger] result[y][x] == Cell::Ignore by {
        assert(template[y].len() == template[0].len());
        assert(emitted(template, domains, result[y][x], y, x));
    }
    assert forall|y: int| 0 <= y < result.len() implies (#[trigger] result[y]).len() == (
    #[trigger] template[y]).len() by {
        assert(result[y].len() == result[0].len());
        assert(template[y].len() == template[0].len());
    }
}

} // verus!
