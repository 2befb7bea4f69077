//! Arc revision and constraint propagation over tables of candidate sets.
//!
//! An arc is an ordered pair of neighbouring cells that both take part in
//! generation, together with the direction from the first to the second.
//! The first cell is the target of the arc, the second its source.
//! Revising an arc removes from the target every candidate that finds no
//! partner among the candidates of the source. A target that is decided
//! is not revised; the propagation confirms it instead, and where its one
//! tile finds no partner that is a contradiction.

use crate::bitset::{
    bits_of, bitset_count, bitset_is_disjoint, bitset_ones, bitset_remove, bitset_wf, capacity_of,
};
use crate::direction::{all_directions, directions, opposite_of, step, Direction};
use crate::algorithm::buckets::{lemma_total_le, total};
use crate::error::WfcError;
use crate::grid::{
    domain_grid_at, domain_grid_at_mut, domain_rows, lemma_shape_bounds, mask_grid_at, mask_rows,
    neighbour_grid_at, neighbour_grid_at_mut, neighbour_grid_empty, neighbour_rows, rectangular,
    shape_fits, size_grid_at, size_grid_at_mut, size_grid_filled, size_rows, DomainGrid, MaskGrid,
    NeighbourGrid, SizeGrid,
};
use crate::map::{grid_shaped, lemma_put_keeps_shape};
use crate::neighbour::Neighbour;
use crate::rules::Rules;
use std::collections::VecDeque;
use vstd::prelude::*;

verus! {

/// The candidates of the cell in row `y`, column `x`.
pub open spec fn dom(domains: DomainGrid, y: int, x: int) -> Set<int> {
    bits_of(domain_rows(domains)[y][x])
}

/// The cached number of candidates of the cell in row `y`, column `x`.
pub open spec fn size_at(sizes: SizeGrid, y: int, x: int) -> nat {
    size_rows(sizes)[y][x] as nat
}

/// What holds of one cell of a wave: its candidates are tiles, and its
/// cached size is the number of its candidates.
pub open spec fn cell_ok(domains: DomainGrid, sizes: SizeGrid, y: int, x: int, n: nat) -> bool {
    &&& bitset_wf(domain_rows(domains)[y][x])
    &&& capacity_of(domain_rows(domains)[y][x]) == n
    &&& size_at(sizes, y, x) == dom(domains, y, x).len()
}

/// The number of rows of a wave.
pub open spec fn wave_rows(domains: DomainGrid) -> nat {
    domain_rows(domains).len()
}

/// The number of columns of a wave.
pub open spec fn wave_cols(domains: DomainGrid) -> nat {
    domain_rows(domains)[0].len()
}

/// Whether `(y, x)` is a position of the wave.
pub open spec fn in_wave(domains: DomainGrid, y: int, x: int) -> bool {
    0 <= y < wave_rows(domains) && 0 <= x < wave_cols(domains)
}

/// What holds of a wave over `n` tiles at every point where it can be
/// observed: the two tables are rectangles of the same shape, every
/// candidate set is a set of tiles, and every cached size is the number of
/// candidates of its cell.
pub open spec fn wave_wf(domains: DomainGrid, sizes: SizeGrid, n: nat) -> bool {
    &&& grid_shaped(domain_rows(domains))
    &&& rectangular(size_rows(sizes), wave_rows(domains), wave_cols(domains))
    &&& forall|y: int, x: int| in_wave(domains, y, x) ==> #[trigger] cell_ok(domains, sizes, y, x, n)
}

/// In a wave that is in order, the cached size of every cell is the
/// number of its candidates.
pub proof fn lemma_size_is_popcount(domains: DomainGrid, sizes: SizeGrid, n: nat, y: int, x: int)
    requires
        wave_wf(domains, sizes, n),
        in_wave(domains, y, x),
    ensures
        size_at(sizes, y, x) == dom(domains, y, x).len(),
        dom(domains, y, x).finite(),
{
    assert(cell_ok(domains, sizes, y, x, n));
}

/// Whether two waves have the same shape.
pub open spec fn same_wave_shape(a: DomainGrid, b: DomainGrid) -> bool {
    wave_rows(a) == wave_rows(b) && wave_cols(a) == wave_cols(b)
}

/// Whether tile `u` finds a partner on its side `d` among `partners`.
pub open spec fn supported(rules: Rules, u: int, d: Direction, partners: Set<int>) -> bool {
    exists|v: int| partners.contains(v) && #[trigger] rules.allowed(u, d).contains(v)
}

/// The candidates among `own` that find a partner on side `d` among
/// `partners`.
pub open spec fn revised(rules: Rules, own: Set<int>, d: Direction, partners: Set<int>) -> Set<
    int,
> {
    Set::new(|u: int| own.contains(u) && supported(rules, u, d, partners))
}

/// Whether every candidate of the target finds a partner among the
/// candidates of the source.
pub open spec fn arc_consistent(
    domains: DomainGrid,
    rules: Rules,
    target: (int, int),
    source: (int, int),
    d: Direction,
) -> bool {
    forall|u: int| #[trigger]
        dom(domains, target.0, target.1).contains(u) ==> supported(
            rules,
            u,
            d,
            dom(domains, source.0, source.1),
        )
}

/// Whether every cell but `(y, x)` is the same in both waves.
pub open spec fn same_but(
    before: DomainGrid,
    before_sizes: SizeGrid,
    after: DomainGrid,
    after_sizes: SizeGrid,
    y: int,
    x: int,
) -> bool {
    forall|a: int, b: int|
        in_wave(before, a, b) && !(a == y && b == x) ==> (#[trigger] domain_rows(after)[a][b])
            == domain_rows(before)[a][b] && size_rows(after_sizes)[a][b] == size_rows(
            before_sizes,
        )[a][b]
}

/// With a single partner `v`, a tile is supported exactly when it allows
/// `v`; with no intersection it is not supported.
pub proof fn lemma_supported(rules: Rules, u: int, d: Direction, partners: Set<int>)
    ensures
        supported(rules, u, d, partners) <==> !rules.allowed(u, d).disjoint(partners),
        forall|v: int|
            partners =~= set![v] ==> (supported(rules, u, d, partners) <==> rules.allowed(
                u,
                d,
            ).contains(v)),
{
    if supported(rules, u, d, partners) {
        let v = choose|v: int| partners.contains(v) && #[trigger] rules.allowed(u, d).contains(v);
        assert(rules.allowed(u, d).contains(v) && partners.contains(v));
    }
    if !rules.allowed(u, d).disjoint(partners) {
        let v = choose|v: int| rules.allowed(u, d).contains(v) && partners.contains(v);
        assert(partners.contains(v) && rules.allowed(u, d).contains(v));
    }
    assert forall|v: int| partners =~= set![v] implies (supported(rules, u, d, partners)
        <==> rules.allowed(u, d).contains(v)) by {
        if rules.allowed(u, d).contains(v) {
            assert(partners.contains(v));
        }
    }
}

/// Revises the arc from target `xi` to source `xj`, which lies in direction
/// `dir` of `xi`: every candidate of `xi` that finds no partner among the
/// candidates of `xj` is removed, and the cached size of `xi` is lowered by
/// the number removed. Returns whether anything was removed. Nothing else
/// changes.
///
/// A target with at most one candidate is not revised: the call returns
/// `false` and changes nothing.
pub fn revise(
    domains: &mut DomainGrid,
    domain_sizes: &mut SizeGrid,
    rules: &Rules,
    xi: (usize, usize),
    xj: (usize, usize),
    dir: Direction,
) -> (modified: bool)
    requires
        rules.wf(),
        wave_wf(*old(domains), *old(domain_sizes), rules.tiles()),
        in_wave(*old(domains), xi.0 as int, xi.1 as int),
        in_wave(*old(domains), xj.0 as int, xj.1 as int),
    ensures
        wave_wf(*final(domains), *final(domain_sizes), rules.tiles()),
        same_wave_shape(*final(domains), *old(domains)),
        same_but(
            *old(domains),
            *old(domain_sizes),
            *final(domains),
            *final(domain_sizes),
            xi.0 as int,
            xi.1 as int,
        ),
        size_at(*old(domain_sizes), xi.0 as int, xi.1 as int) <= 1 ==> !modified && domain_rows(
            *final(domains),
        ) == domain_rows(*old(domains)) && size_rows(*final(domain_sizes)) == size_rows(
            *old(domain_sizes),
        ),
        size_at(*old(domain_sizes), xi.0 as int, xi.1 as int) > 1 ==> dom(
            *final(domains),
            xi.0 as int,
            xi.1 as int,
        ) == revised(
            *rules,
            dom(*old(domains), xi.0 as int, xi.1 as int),
            dir,
            dom(*old(domains), xj.0 as int, xj.1 as int),
        ),
        modified == (dom(*final(domains), xi.0 as int, xi.1 as int) != dom(
            *old(domains),
            xi.0 as int,
            xi.1 as int,
        )),
        modified == (size_at(*final(domain_sizes), xi.0 as int, xi.1 as int) < size_at(
            *old(domain_sizes),
            xi.0 as int,
            xi.1 as int,
        )),
        size_at(*final(domain_sizes), xi.0 as int, xi.1 as int) <= size_at(
            *old(domain_sizes),
            xi.0 as int,
            xi.1 as int,
        ),
{
    let ghost n = rules.tiles();
    let ghost own = dom(*domains, xi.0 as int, xi.1 as int);
    let ghost partners = dom(*domains, xj.0 as int, xj.1 as int);
    let ghost rows0 = domain_rows(*domains);
    let ghost sizes0 = size_rows(*domain_sizes);
    proof {
        assert(cell_ok(*domains, *domain_sizes, xi.0 as int, xi.1 as int, n));
        assert(cell_ok(*domains, *domain_sizes, xj.0 as int, xj.1 as int, n));
    }
    let size_i = size_grid_at(domain_sizes, xi.0, xi.1);
    if size_i <= 1 {
        return false;
    }
    let size_j = size_grid_at(domain_sizes, xj.0, xj.1);
    let options = bitset_ones(domain_grid_at(domains, xi.0, xi.1));
    let mut to_remove: Vec<usize> = Vec::new();
    if size_j == 1 {
        // A single partner: a candidate stays exactly when it allows it.
        let partner_list = bitset_ones(domain_grid_at(domains, xj.0, xj.1));
        let v = partner_list[0];
        proof {
            assert(partners.contains(v as int));
            assert(partners.len() == 1);
            assert forall|k: int| partners.contains(k) implies k == v by {
                let i = choose|i: int| 0 <= i < partner_list@.len() && partner_list@[i] == k;
                assert(i == 0);
            }
            assert(partners =~= set![v as int]);
        }
        let mut i: usize = 0;
        while i < options.len()
            invariant
                i <= options.len(),
                rules.wf(),
                n == rules.tiles(),
                partners =~= set![v as int],
                forall|a: int| 0 <= a < options@.len() ==> own.contains(#[trigger] options@[a] as int),
                forall|a: int| 0 <= a < options@.len() ==> 0 <= #[trigger] options@[a] < n,
                forall|a: int, b: int| 0 <= a < b < options@.len() ==> options@[a] < options@[b],
                forall|k: int|
                    0 <= k < to_remove@.len() ==> own.contains(#[trigger] to_remove@[k] as int)
                        && !supported(*rules, to_remove@[k] as int, dir, partners),
                forall|k: int|
                    0 <= k < to_remove@.len() ==> i > 0 && (#[trigger] to_remove@[k]) <= options@[i
                        - 1],
                forall|k: int, l: int|
                    0 <= k < l < to_remove@.len() ==> to_remove@[k] < to_remove@[l],
                forall|a: int|
                    0 <= a < i && !supported(*rules, options@[a] as int, dir, partners)
                        ==> exists|k: int|
                        0 <= k < to_remove@.len() && #[trigger] to_remove@[k] == options@[a],
            decreases options.len() - i,
        {
            let u = options[i];
            proof {
                lemma_supported(*rules, u as int, dir, partners);
            }
            if !rules.allows(u, dir, v) {
                let ghost prev = to_remove@;
                to_remove.push(u);
                proof {
                    assert forall|a: int|
                        0 <= a < i + 1 && !supported(
                            *rules,
                            options@[a] as int,
                            dir,
                            partners,
                        ) implies exists|k: int|
                        0 <= k < to_remove@.len() && #[trigger] to_remove@[k] == options@[a] by {
                        if a < i {
                            let k = choose|k: int|
                                0 <= k < prev.len() && #[trigger] prev[k] == options@[a];
                            assert(to_remove@[k] == options@[a]);
                        } else {
                            assert(to_remove@[prev.len() as int] == options@[a]);
                        }
                    }
                }
            }
            i += 1;
        }
    } else {
        let mut i: usize = 0;
        while i < options.len()
            invariant
                i <= options.len(),
                rules.wf(),
                n == rules.tiles(),
                in_wave(*domains, xj.0 as int, xj.1 as int),
                grid_shaped(domain_rows(*domains)),
                partners == dom(*domains, xj.0 as int, xj.1 as int),
                forall|a: int| 0 <= a < options@.len() ==> own.contains(#[trigger] options@[a] as int),
                forall|a: int| 0 <= a < options@.len() ==> 0 <= #[trigger] options@[a] < n,
                forall|a: int, b: int| 0 <= a < b < options@.len() ==> options@[a] < options@[b],
                forall|k: int|
                    0 <= k < to_remove@.len() ==> own.contains(#[trigger] to_remove@[k] as int)
                        && !supported(*rules, to_remove@[k] as int, dir, partners),
                forall|k: int|
                    0 <= k < to_remove@.len() ==> i > 0 && (#[trigger] to_remove@[k]) <= options@[i
                        - 1],
                forall|k: int, l: int|
                    0 <= k < l < to_remove@.len() ==> to_remove@[k] < to_remove@[l],
                forall|a: int|
                    0 <= a < i && !supported(*rules, options@[a] as int, dir, partners)
                        ==> exists|k: int|
                        0 <= k < to_remove@.len() && #[trigger] to_remove@[k] == options@[a],
            decreases options.len() - i,
        {
            let u = options[i];
            proof {
                lemma_supported(*rules, u as int, dir, partners);
            }
            if bitset_is_disjoint(rules.mask(u, dir), domain_grid_at(domains, xj.0, xj.1)) {
                let ghost prev = to_remove@;
                to_remove.push(u);
                proof {
                    assert forall|a: int|
                        0 <= a < i + 1 && !supported(
                            *rules,
                            options@[a] as int,
                            dir,
                            partners,
                        ) implies exists|k: int|
                        0 <= k < to_remove@.len() && #[trigger] to_remove@[k] == options@[a] by {
                        if a < i {
                            let k = choose|k: int|
                                0 <= k < prev.len() && #[trigger] prev[k] == options@[a];
                            assert(to_remove@[k] == options@[a]);
                        } else {
                            assert(to_remove@[prev.len() as int] == options@[a]);
                        }
                    }
                }
            }
            i += 1;
        }
    }
    if to_remove.len() == 0 {
        proof {
            assert forall|u: int| own.contains(u) implies supported(*rules, u, dir, partners) by {
                let a = choose|a: int| 0 <= a < options@.len() && options@[a] == u;
                if !supported(*rules, options@[a] as int, dir, partners) {
                    let k = choose|k: int|
                        0 <= k < to_remove@.len() && #[trigger] to_remove@[k] == options@[a];
                }
            }
            assert(revised(*rules, own, dir, partners) =~= own);
        }
        return false;
    }
    let mut k: usize = 0;
    let mut size_now: usize = size_i;
    while k < to_remove.len()
        invariant
            k <= to_remove.len(),
            n == rules.tiles(),
            in_wave(*domains, xi.0 as int, xi.1 as int),
            rows0 == domain_rows(*old(domains)),
            grid_shaped(rows0),
            grid_shaped(domain_rows(*domains)),
            same_wave_shape(*domains, *old(domains)),
            forall|a: int, b: int|
                in_wave(*domains, a, b) && !(a == xi.0 && b == xi.1) ==> (#[trigger] domain_rows(
                    *domains,
                )[a][b]) == rows0[a][b],
            capacity_of(domain_rows(*domains)[xi.0 as int][xi.1 as int]) == n,
            dom(*domains, xi.0 as int, xi.1 as int).finite(),
            forall|u: int|
                dom(*domains, xi.0 as int, xi.1 as int).contains(u) <==> own.contains(u) && !(
                exists|l: int| 0 <= l < k && #[trigger] to_remove@[l] == u),
            size_now == dom(*domains, xi.0 as int, xi.1 as int).len(),
            size_now + k == size_i,
            forall|l: int| 0 <= l < to_remove@.len() ==> own.contains(#[trigger] to_remove@[l] as int),
            forall|u: int| own.contains(u) ==> 0 <= u < n,
            forall|l: int, m: int| 0 <= l < m < to_remove@.len() ==> to_remove@[l] < to_remove@[m],
        decreases to_remove.len() - k,
    {
        let u = to_remove[k];
        let ghost prev_rows = domain_rows(*domains);
        let ghost prev = dom(*domains, xi.0 as int, xi.1 as int);
        proof {
            assert(prev.contains(u as int)) by {
                if exists|l: int| 0 <= l < k && #[trigger] to_remove@[l] == u as int {
                    let l = choose|l: int| 0 <= l < k && #[trigger] to_remove@[l] == u as int;
                    assert(to_remove@[l] < to_remove@[k as int]);
                }
            }
        }
        let slot = domain_grid_at_mut(domains, xi.0, xi.1);
        bitset_remove(slot, u);
        proof {
            lemma_put_keeps_shape(
                prev_rows,
                xi.0 as int,
                xi.1 as int,
                domain_rows(*domains)[xi.0 as int][xi.1 as int],
            );
            assert(dom(*domains, xi.0 as int, xi.1 as int) == prev.remove(u as int));
            assert forall|w: int|
                dom(*domains, xi.0 as int, xi.1 as int).contains(w) <==> own.contains(w) && !(
                exists|l: int| 0 <= l < k + 1 && #[trigger] to_remove@[l] == w) by {
                if own.contains(w) && w != u {
                    if exists|l: int| 0 <= l < k + 1 && #[trigger] to_remove@[l] == w {
                        let l = choose|l: int| 0 <= l < k + 1 && #[trigger] to_remove@[l] == w;
                        assert(l < k);
                    }
                }
                if w == u {
                    assert(to_remove@[k as int] == w);
                }
            }
        }
        size_now = size_now - 1;
        k += 1;
    }
    let slot = size_grid_at_mut(domain_sizes, xi.0, xi.1);
    *slot = size_now;
    proof {
        lemma_put_keeps_shape(sizes0, xi.0 as int, xi.1 as int, size_now);
        let after = dom(*domains, xi.0 as int, xi.1 as int);
        assert forall|u: int| after.contains(u) <==> own.contains(u) && supported(
            *rules,
            u,
            dir,
            partners,
        ) by {
            if own.contains(u) {
                let a = choose|a: int| 0 <= a < options@.len() && options@[a] == u;
                if !supported(*rules, u, dir, partners) {
                    let l = choose|l: int|
                        0 <= l < to_remove@.len() && #[trigger] to_remove@[l] == options@[a];
                    assert(to_remove@[l] == u);
                } else {
                    if exists|l: int| 0 <= l < to_remove@.len() && #[trigger] to_remove@[l] == u {
                        let l = choose|l: int|
                            0 <= l < to_remove@.len() && #[trigger] to_remove@[l] == u;
                        assert(!supported(*rules, to_remove@[l] as int, dir, partners));
                    }
                }
            }
        }
        assert(after =~= revised(*rules, own, dir, partners));
        assert(after.len() < own.len());
        assert forall|y: int, x: int| in_wave(*domains, y, x) implies #[trigger] cell_ok(
            *domains,
            *domain_sizes,
            y,
            x,
            n,
        ) by {
            assert(cell_ok(*old(domains), *old(domain_sizes), y, x, n));
        }
    }
    true
}

/// Confirms a decided cell `xi` against its neighbour `xj`, which lies in
/// direction `dir` of it. The one candidate of `xi` stays if it finds a
/// partner among the candidates of `xj`. Otherwise it is struck, which
/// leaves the cell without a candidate: two decided neighbours that do not
/// fit are a contradiction. Returns whether the candidate was struck.
/// Nothing else changes.
pub fn confirm_decided(
    domains: &mut DomainGrid,
    domain_sizes: &mut SizeGrid,
    rules: &Rules,
    xi: (usize, usize),
    xj: (usize, usize),
    dir: Direction,
) -> (struck: bool)
    requires
        rules.wf(),
        wave_wf(*old(domains), *old(domain_sizes), rules.tiles()),
        in_wave(*old(domains), xi.0 as int, xi.1 as int),
        in_wave(*old(domains), xj.0 as int, xj.1 as int),
        size_at(*old(domain_sizes), xi.0 as int, xi.1 as int) == 1,
    ensures
        wave_wf(*final(domains), *final(domain_sizes), rules.tiles()),
        same_wave_shape(*final(domains), *old(domains)),
        same_but(
            *old(domains),
            *old(domain_sizes),
            *final(domains),
            *final(domain_sizes),
            xi.0 as int,
            xi.1 as int,
        ),
        struck == !arc_consistent(
            *old(domains),
            *rules,
            (xi.0 as int, xi.1 as int),
            (xj.0 as int, xj.1 as int),
            dir,
        ),
        !struck ==> domain_rows(*final(domains)) == domain_rows(*old(domains)) && size_rows(
            *final(domain_sizes),
        ) == size_rows(*old(domain_sizes)),
        struck ==> dom(*final(domains), xi.0 as int, xi.1 as int) == Set::<int>::empty()
            && size_at(*final(domain_sizes), xi.0 as int, xi.1 as int) == 0,
        dom(*final(domains), xi.0 as int, xi.1 as int) == revised(
            *rules,
            dom(*old(domains), xi.0 as int, xi.1 as int),
            dir,
            dom(*old(domains), xj.0 as int, xj.1 as int),
        ),
{
    let ghost n = rules.tiles();
    let ghost own = dom(*domains, xi.0 as int, xi.1 as int);
    let ghost partners = dom(*domains, xj.0 as int, xj.1 as int);
    let ghost rows0 = domain_rows(*domains);
    let ghost sizes0 = size_rows(*domain_sizes);
    proof {
        assert(cell_ok(*domains, *domain_sizes, xi.0 as int, xi.1 as int, n));
        assert(cell_ok(*domains, *domain_sizes, xj.0 as int, xj.1 as int, n));
    }
    let options = bitset_ones(domain_grid_at(domains, xi.0, xi.1));
    let u = options[0];
    proof {
        assert(own.contains(u as int));
        assert forall|k: int| own.contains(k) implies k == u by {
            let i = choose|i: int| 0 <= i < options@.len() && options@[i] == k;
            assert(i == 0);
        }
        assert(own =~= set![u as int]);
        lemma_supported(*rules, u as int, dir, partners);
    }
    if !bitset_is_disjoint(rules.mask(u, dir), domain_grid_at(domains, xj.0, xj.1)) {
        proof {
            assert(revised(*rules, own, dir, partners) =~= own);
        }
        return false;
    }
    let slot = domain_grid_at_mut(domains, xi.0, xi.1);
    bitset_remove(slot, u);
    proof {
        lemma_put_keeps_shape(
            rows0,
            xi.0 as int,
            xi.1 as int,
            domain_rows(*domains)[xi.0 as int][xi.1 as int],
        );
    }
    let slot = size_grid_at_mut(domain_sizes, xi.0, xi.1);
    *slot = 0;
    proof {
        lemma_put_keeps_shape(sizes0, xi.0 as int, xi.1 as int, 0usize);
        let after = dom(*domains, xi.0 as int, xi.1 as int);
        assert(after == own.remove(u as int));
        assert(after =~= Set::<int>::empty());
        assert(revised(*rules, own, dir, partners) =~= Set::<int>::empty());
        assert(!after.contains(u as int));
        assert forall|y: int, x: int| in_wave(*domains, y, x) implies #[trigger] cell_ok(
            *domains,
            *domain_sizes,
            y,
            x,
            n,
        ) by {
            assert(cell_ok(*old(domains), *old(domain_sizes), y, x, n));
        }
    }
    true
}

/// Whether the cell in row `y`, column `x` lies inside the table of marks
/// and takes part in generation.
pub open spec fn active(mask: Seq<Seq<bool>>, y: int, x: int) -> bool {
    0 <= y < mask.len() && 0 <= x < mask[y].len() && !mask[y][x]
}

/// Whether the cell `(y, x)` and its neighbour in direction `d` both take
/// part in generation, so that there is an arc between them.
pub open spec fn linked(mask: Seq<Seq<bool>>, y: int, x: int, d: Direction) -> bool {
    active(mask, y, x) && active(mask, step(d, y, x).0, step(d, y, x).1)
}

/// The record the solver keeps of the neighbour of `(y, x)` in direction
/// `d`.
pub open spec fn neighbour_in(y: int, x: int, d: Direction) -> Neighbour {
    Neighbour {
        pos: (step(d, y, x).0 as usize, step(d, y, x).1 as usize),
        dir: d,
        opp_dir: opposite_of(d),
    }
}

/// The neighbours of `(y, x)` in the first `k` directions, in index order.
pub open spec fn neighbours_upto(mask: Seq<Seq<bool>>, y: int, x: int, k: int) -> Seq<Neighbour>
    decreases k,
{
    if k <= 0 {
        Seq::<Neighbour>::empty()
    } else {
        let rest = neighbours_upto(mask, y, x, k - 1);
        let d = all_directions()[k - 1];
        if linked(mask, y, x, d) {
            rest.push(neighbour_in(y, x, d))
        } else {
            rest
        }
    }
}

/// The neighbours of `(y, x)` that take part in generation, north first,
/// then east, south and west. A cell that takes no part has none.
pub open spec fn neighbours_of(mask: Seq<Seq<bool>>, y: int, x: int) -> Seq<Neighbour> {
    neighbours_upto(mask, y, x, 4)
}

/// Whether a table of neighbour lists is the one that belongs to a table
/// of marks.
pub open spec fn neighbours_match(table: NeighbourGrid, mask: Seq<Seq<bool>>) -> bool {
    &&& grid_shaped(mask)
    &&& rectangular(neighbour_rows(table), mask.len(), mask[0].len())
    &&& forall|y: int, x: int|
        0 <= y < mask.len() && 0 <= x < mask[0].len() ==> #[trigger] neighbour_rows(table)[y][x]
            == neighbours_of(mask, y, x)
}

/// Every entry of a neighbour list is a link of the cell, and every link of
/// the cell has its entry.
pub proof fn lemma_neighbours_of(mask: Seq<Seq<bool>>, y: int, x: int)
    ensures
        forall|i: int|
            0 <= i < neighbours_of(mask, y, x).len() ==> linked(
                mask,
                y,
                x,
                (#[trigger] neighbours_of(mask, y, x)[i]).dir,
            ) && neighbours_of(mask, y, x)[i] == neighbour_in(
                y,
                x,
                neighbours_of(mask, y, x)[i].dir,
            ),
        forall|d: Direction|
            linked(mask, y, x, d) ==> exists|i: int|
                0 <= i < neighbours_of(mask, y, x).len() && #[trigger] neighbours_of(mask, y, x)[i]
                    == neighbour_in(y, x, d),
        neighbours_of(mask, y, x).len() <= 4,
{
    reveal_with_fuel(neighbours_upto, 5);
    let l0 = neighbours_upto(mask, y, x, 0);
    let l1 = neighbours_upto(mask, y, x, 1);
    let l2 = neighbours_upto(mask, y, x, 2);
    let l3 = neighbours_upto(mask, y, x, 3);
    let l4 = neighbours_upto(mask, y, x, 4);
    assert(all_directions()[0] == Direction::North);
    assert(all_directions()[1] == Direction::East);
    assert(all_directions()[2] == Direction::South);
    assert(all_directions()[3] == Direction::West);
    assert forall|d: Direction| linked(mask, y, x, d) implies exists|i: int|
        0 <= i < l4.len() && #[trigger] l4[i] == neighbour_in(y, x, d) by {
        match d {
            Direction::North => {
                assert(l1[l0.len() as int] == neighbour_in(y, x, d));
                assert(l4[l0.len() as int] == neighbour_in(y, x, d));
            },
            Direction::East => {
                assert(l2[l1.len() as int] == neighbour_in(y, x, d));
                assert(l4[l1.len() as int] == neighbour_in(y, x, d));
            },
            Direction::South => {
                assert(l3[l2.len() as int] == neighbour_in(y, x, d));
                assert(l4[l2.len() as int] == neighbour_in(y, x, d));
            },
            Direction::West => {
                assert(l4[l3.len() as int] == neighbour_in(y, x, d));
            },
        }
    }
}

/// The neighbour lists of a grid of `height` rows and `width` columns: for
/// every cell that takes part, its neighbours that take part, in the order
/// north, east, south, west.
pub fn calculate_neighbours(height: usize, width: usize, is_ignore: &MaskGrid) -> (table:
    NeighbourGrid)
    requires
        shape_fits(height as nat, width as nat),
        rectangular(mask_rows(*is_ignore), height as nat, width as nat),
    ensures
        neighbours_match(table, mask_rows(*is_ignore)),
{
    let ghost mask = mask_rows(*is_ignore);
    let mut table = neighbour_grid_empty(height, width);
    let dirs = directions();
    let mut y: usize = 0;
    while y < height
        invariant
            y <= height,
            shape_fits(height as nat, width as nat),
            mask == mask_rows(*is_ignore),
            rectangular(mask, height as nat, width as nat),
            rectangular(neighbour_rows(table), height as nat, width as nat),
            dirs@ == all_directions(),
            forall|a: int, b: int|
                0 <= a < y && 0 <= b < width ==> #[trigger] neighbour_rows(table)[a][b]
                    == neighbours_of(mask, a, b),
        decreases height - y,
    {
        let mut x: usize = 0;
        while x < width
            invariant
                x <= width,
                y < height,
                shape_fits(height as nat, width as nat),
                mask == mask_rows(*is_ignore),
                rectangular(mask, height as nat, width as nat),
                rectangular(neighbour_rows(table), height as nat, width as nat),
                dirs@ == all_directions(),
                forall|a: int, b: int|
                    0 <= a < y && 0 <= b < width ==> #[trigger] neighbour_rows(table)[a][b]
                        == neighbours_of(mask, a, b),
                forall|b: int|
                    0 <= b < x ==> #[trigger] neighbour_rows(table)[y as int][b] == neighbours_of(
                        mask,
                        y as int,
                        b,
                    ),
            decreases width - x,
        {
            let mut list: Vec<Neighbour> = Vec::new();
            let hole = mask_grid_at(is_ignore, y, x);
            let mut k: usize = 0;
            while k < 4
                invariant
                    k <= 4,
                    y < height,
                    x < width,
                    hole == mask[y as int][x as int],
                    mask == mask_rows(*is_ignore),
                    rectangular(mask, height as nat, width as nat),
                    dirs@ == all_directions(),
                    list@ == neighbours_upto(mask, y as int, x as int, k as int),
                decreases 4 - k,
            {
                let dir = dirs[k];
                if !hole {
                    match dir.apply_to((y, x), (height, width)) {
                        Some(p) => {
                            if !mask_grid_at(is_ignore, p.0, p.1) {
                                list.push(Neighbour { pos: p, dir, opp_dir: dir.opposite() });
                            }
                        },
                        None => {},
                    }
                }
                proof {
                    reveal_with_fuel(neighbours_upto, 2);
                }
                k += 1;
            }
            let ghost before = neighbour_rows(table);
            let slot = neighbour_grid_at_mut(&mut table, y, x);
            *slot = list;
            proof {
                lemma_put_keeps_shape(before, y as int, x as int, list@);
            }
            x += 1;
        }
        y += 1;
    }
    table
}

/// Whether a choice of one tile per cell picks, for every cell that takes
/// part, one of its candidates.
pub open spec fn agrees(choice: Seq<Seq<int>>, domains: DomainGrid, mask: Seq<Seq<bool>>) -> bool {
    forall|y: int, x: int|
        in_wave(domains, y, x) && active(mask, y, x) ==> #[trigger] dom(domains, y, x).contains(
            choice[y][x],
        )
}

/// Whether a choice of one tile per cell obeys the rules: for every two
/// neighbouring cells that take part, the tile of the neighbour is allowed
/// on that side of the tile of the cell.
pub open spec fn coherent(choice: Seq<Seq<int>>, rules: Rules, mask: Seq<Seq<bool>>) -> bool {
    forall|y: int, x: int, d: Direction| #[trigger]
        linked(mask, y, x, d) ==> rules.allowed(choice[y][x], d).contains(
            choice[step(d, y, x).0][step(d, y, x).1],
        )
}

/// Whether a family of sets of tiles, one per cell, gives every cell that
/// takes part only candidates of the wave.
pub open spec fn narrows(
    family: Seq<Seq<Set<int>>>,
    domains: DomainGrid,
    mask: Seq<Seq<bool>>,
) -> bool {
    forall|y: int, x: int|
        in_wave(domains, y, x) && active(mask, y, x) ==> (#[trigger] family[y][x]).subset_of(
            dom(domains, y, x),
        )
}

/// Whether a family of sets of tiles is arc consistent in itself: every
/// tile of every cell finds a partner among the tiles of each neighbour.
pub open spec fn family_consistent(
    family: Seq<Seq<Set<int>>>,
    rules: Rules,
    mask: Seq<Seq<bool>>,
) -> bool {
    forall|y: int, x: int, d: Direction, u: int|
        #![trigger linked(mask, y, x, d), family[y][x].contains(u)]
        linked(mask, y, x, d) && family[y][x].contains(u) ==> supported(
            rules,
            u,
            d,
            family[step(d, y, x).0][step(d, y, x).1],
        )
}

/// Whether nothing was removed that could have stayed: every family that
/// is arc consistent in itself and lies within the wave `before` lies
/// within the wave `after`. A wave that is arc consistent and has this
/// property is the largest arc consistent wave within `before`.
pub open spec fn keeps_families(
    before: DomainGrid,
    after: DomainGrid,
    rules: Rules,
    mask: Seq<Seq<bool>>,
) -> bool {
    forall|family: Seq<Seq<Set<int>>>|
        family_consistent(family, rules, mask) && #[trigger] narrows(family, before, mask)
            ==> narrows(family, after, mask)
}

/// Whether nothing that belongs to a solution was removed: every choice
/// that obeys the rules and agrees with the wave `before` agrees with the
/// wave `after`.
pub open spec fn keeps_solutions(
    before: DomainGrid,
    after: DomainGrid,
    rules: Rules,
    mask: Seq<Seq<bool>>,
) -> bool {
    forall|choice: Seq<Seq<int>>|
        coherent(choice, rules, mask) && #[trigger] agrees(choice, before, mask) ==> agrees(
            choice,
            after,
            mask,
        )
}

/// Whether no choice that obeys the rules agrees with the wave.
pub open spec fn unsolvable(domains: DomainGrid, rules: Rules, mask: Seq<Seq<bool>>) -> bool {
    forall|choice: Seq<Seq<int>>|
        coherent(choice, rules, mask) ==> !#[trigger] agrees(choice, domains, mask)
}

/// The family that gives every cell the one tile a choice picks for it.
pub open spec fn single_family(choice: Seq<Seq<int>>, height: nat, width: nat) -> Seq<
    Seq<Set<int>>,
> {
    Seq::new(height, |y: int| Seq::new(width, |x: int| set![choice[y][x]]))
}

/// The candidates of a wave as a family.
pub open spec fn family_of(domains: DomainGrid) -> Seq<Seq<Set<int>>> {
    Seq::new(
        wave_rows(domains),
        |y: int| Seq::new(wave_cols(domains), |x: int| dom(domains, y, x)),
    )
}

/// Revising an arc removes nothing that could have stayed.
pub proof fn lemma_revise_keeps_families(
    before: DomainGrid,
    after: DomainGrid,
    rules: Rules,
    mask: Seq<Seq<bool>>,
    arc: ((usize, usize), (usize, usize), Direction),
)
    requires
        wave_fits(before, mask),
        same_wave_shape(after, before),
        is_arc(mask, arc),
        dom(after, arc.0.0 as int, arc.0.1 as int) == revised(
            rules,
            dom(before, arc.0.0 as int, arc.0.1 as int),
            arc.2,
            dom(before, arc.1.0 as int, arc.1.1 as int),
        ),
        forall|y: int, x: int|
            in_wave(before, y, x) && !(y == arc.0.0 && x == arc.0.1) ==> #[trigger] dom(
                after,
                y,
                x,
            ) == dom(before, y, x),
    ensures
        keeps_families(before, after, rules, mask),
{
    assert forall|family: Seq<Seq<Set<int>>>|
        family_consistent(family, rules, mask) && #[trigger] narrows(
            family,
            before,
            mask,
        ) implies narrows(family, after, mask) by {
        assert forall|y: int, x: int|
            in_wave(after, y, x) && active(mask, y, x) implies (#[trigger] family[y][x]).subset_of(
            dom(after, y, x),
        ) by {
            assert(family[y][x].subset_of(dom(before, y, x)));
            if y == arc.0.0 && x == arc.0.1 {
                let s = step(arc.2, y, x);
                assert(linked(mask, y, x, arc.2));
                assert(in_wave(before, s.0, s.1));
                assert(family[s.0][s.1].subset_of(dom(before, s.0, s.1)));
                assert forall|u: int| family[y][x].contains(u) implies dom(after, y, x).contains(
                    u,
                ) by {
                    assert(supported(rules, u, arc.2, family[s.0][s.1]));
                    let v = choose|v: int|
                        family[s.0][s.1].contains(v) && #[trigger] rules.allowed(u, arc.2).contains(
                            v,
                        );
                    assert(dom(before, s.0, s.1).contains(v));
                    assert(supported(rules, u, arc.2, dom(before, s.0, s.1)));
                }
            } else {
                assert(dom(after, y, x) == dom(before, y, x));
            }
        }
    }
}

/// What is kept over two steps is kept over both.
pub proof fn lemma_keeps_families_twice(
    first: DomainGrid,
    second: DomainGrid,
    third: DomainGrid,
    rules: Rules,
    mask: Seq<Seq<bool>>,
)
    requires
        keeps_families(first, second, rules, mask),
        keeps_families(second, third, rules, mask),
    ensures
        keeps_families(first, third, rules, mask),
{
    assert forall|family: Seq<Seq<Set<int>>>|
        family_consistent(family, rules, mask) && #[trigger] narrows(
            family,
            first,
            mask,
        ) implies narrows(family, third, mask) by {
        assert(narrows(family, second, mask));
    }
}

/// A solution is a family of its own: where no family that could have
/// stayed was removed, nothing that belongs to a solution was removed.
pub proof fn lemma_families_hold_solutions(
    before: DomainGrid,
    after: DomainGrid,
    rules: Rules,
    mask: Seq<Seq<bool>>,
)
    requires
        wave_fits(before, mask),
        same_wave_shape(after, before),
        keeps_families(before, after, rules, mask),
    ensures
        keeps_solutions(before, after, rules, mask),
{
    let height = wave_rows(before);
    let width = wave_cols(before);
    assert forall|choice: Seq<Seq<int>>|
        coherent(choice, rules, mask) && #[trigger] agrees(choice, before, mask) implies agrees(
        choice,
        after,
        mask,
    ) by {
        let family = single_family(choice, height, width);
        assert forall|y: int, x: int, d: Direction, u: int|
            #![trigger linked(mask, y, x, d), family[y][x].contains(u)]
            linked(mask, y, x, d) && family[y][x].contains(u) implies supported(
            rules,
            u,
            d,
            family[step(d, y, x).0][step(d, y, x).1],
        ) by {
            let s = step(d, y, x);
            assert(mask[y].len() == mask[0].len());
            assert(mask[s.0].len() == mask[0].len());
            assert(u == choice[y][x]);
            assert(family[s.0][s.1].contains(choice[s.0][s.1]));
            assert(rules.allowed(u, d).contains(choice[s.0][s.1]));
        }
        assert forall|y: int, x: int|
            in_wave(before, y, x) && active(mask, y, x) implies (#[trigger] family[y][x]).subset_of(
            dom(before, y, x),
        ) by {
            assert(dom(before, y, x).contains(choice[y][x]));
        }
        assert(narrows(family, before, mask));
        assert(narrows(family, after, mask));
        assert forall|y: int, x: int|
            in_wave(after, y, x) && active(mask, y, x) implies #[trigger] dom(
            after,
            y,
            x,
        ).contains(choice[y][x]) by {
            assert(family[y][x].subset_of(dom(after, y, x)));
            assert(family[y][x].contains(choice[y][x]));
        }
    }
}

/// A wave in which a cell that takes part has no candidate agrees with no
/// choice; so where nothing that belongs to a solution was removed on the
/// way to it, the wave it came from agrees with no choice that obeys the
/// rules.
pub proof fn lemma_contradiction_is_final(
    before: DomainGrid,
    after: DomainGrid,
    rules: Rules,
    mask: Seq<Seq<bool>>,
    y: int,
    x: int,
)
    requires
        keeps_solutions(before, after, rules, mask),
        in_wave(after, y, x),
        active(mask, y, x),
        dom(after, y, x) =~= Set::<int>::empty(),
    ensures
        unsolvable(before, rules, mask),
{
    assert forall|choice: Seq<Seq<int>>| coherent(choice, rules, mask) implies !#[trigger] agrees(
        choice,
        before,
        mask,
    ) by {
        if agrees(choice, before, mask) {
            assert(agrees(choice, after, mask));
            assert(dom(after, y, x).contains(choice[y][x]));
        }
    }
}

/// Propagation has one outcome whatever the order of its revisions: two
/// arc consistent waves within the same wave, neither of which lost
/// anything that could have stayed, give every cell that takes part the
/// same candidates.
pub proof fn lemma_propagation_is_confluent(
    before: DomainGrid,
    first: DomainGrid,
    second: DomainGrid,
    rules: Rules,
    mask: Seq<Seq<bool>>,
    y: int,
    x: int,
)
    requires
        wave_fits(before, mask),
        narrowed(before, first, mask),
        narrowed(before, second, mask),
        all_consistent(first, rules, mask),
        all_consistent(second, rules, mask),
        keeps_families(before, first, rules, mask),
        keeps_families(before, second, rules, mask),
        in_wave(before, y, x),
        active(mask, y, x),
    ensures
        dom(first, y, x) == dom(second, y, x),
{
    lemma_wave_is_family(before, first, rules, mask);
    lemma_wave_is_family(before, second, rules, mask);
    assert(narrows(family_of(first), second, mask));
    assert(narrows(family_of(second), first, mask));
    assert(family_of(first)[y][x] == dom(first, y, x));
    assert(family_of(second)[y][x] == dom(second, y, x));
    assert(family_of(first)[y][x].subset_of(dom(second, y, x)));
    assert(family_of(second)[y][x].subset_of(dom(first, y, x)));
    assert(dom(first, y, x) =~= dom(second, y, x));
}

/// The candidates of an arc consistent wave within another are a family
/// that is arc consistent in itself and lies within the other.
pub proof fn lemma_wave_is_family(
    before: DomainGrid,
    after: DomainGrid,
    rules: Rules,
    mask: Seq<Seq<bool>>,
)
    requires
        wave_fits(before, mask),
        narrowed(before, after, mask),
        all_consistent(after, rules, mask),
    ensures
        family_consistent(family_of(after), rules, mask),
        narrows(family_of(after), before, mask),
{
    let family = family_of(after);
    assert forall|y: int, x: int, d: Direction, u: int|
        #![trigger linked(mask, y, x, d), family[y][x].contains(u)]
        linked(mask, y, x, d) && family[y][x].contains(u) implies supported(
        rules,
        u,
        d,
        family[step(d, y, x).0][step(d, y, x).1],
    ) by {
        let s = step(d, y, x);
        let t = (y, x);
        assert(mask[y].len() == mask[0].len());
        assert(mask[s.0].len() == mask[0].len());
        assert(arc_consistent(after, rules, t, s, d));
        assert(dom(after, t.0, t.1).contains(u));
        assert(family[s.0][s.1] == dom(after, s.0, s.1));
    }
    assert forall|y: int, x: int|
        in_wave(before, y, x) && active(mask, y, x) implies (#[trigger] family[y][x]).subset_of(
        dom(before, y, x),
    ) by {
        assert(dom(after, y, x).subset_of(dom(before, y, x)));
    }
}

/// Whether a queue entry is an arc: its target and its source both take
/// part, and the source lies in the stated direction of the target.
pub open spec fn is_arc(
    mask: Seq<Seq<bool>>,
    arc: ((usize, usize), (usize, usize), Direction),
) -> bool {
    &&& linked(mask, arc.0.0 as int, arc.0.1 as int, arc.2)
    &&& step(arc.2, arc.0.0 as int, arc.0.1 as int) == (arc.1.0 as int, arc.1.1 as int)
}

/// Whether a queue entry is the arc with target `(y, x)` and direction `d`.
pub open spec fn arc_matches(
    arc: ((usize, usize), (usize, usize), Direction),
    y: int,
    x: int,
    d: Direction,
) -> bool {
    arc.0.0 == y && arc.0.1 == x && arc.2 == d
}

/// Whether the arc with target `(y, x)` and direction `d` waits in the
/// queue.
pub open spec fn queued(
    queue: Seq<((usize, usize), (usize, usize), Direction)>,
    y: int,
    x: int,
    d: Direction,
) -> bool {
    exists|i: int| 0 <= i < queue.len() && arc_matches(#[trigger] queue[i], y, x, d)
}

/// Whether every arc of the grid is consistent or waits in the queue.
pub open spec fn settled(
    domains: DomainGrid,
    rules: Rules,
    mask: Seq<Seq<bool>>,
    queue: Seq<((usize, usize), (usize, usize), Direction)>,
) -> bool {
    forall|y: int, x: int, d: Direction| #[trigger]
        linked(mask, y, x, d) ==> arc_consistent(domains, rules, (y, x), step(d, y, x), d)
            || queued(queue, y, x, d)
}

/// Whether every arc of the grid is consistent: every candidate of every
/// cell finds a partner among the candidates of each of its neighbours.
pub open spec fn all_consistent(domains: DomainGrid, rules: Rules, mask: Seq<Seq<bool>>) -> bool {
    forall|y: int, x: int, d: Direction| #[trigger]
        linked(mask, y, x, d) ==> arc_consistent(domains, rules, (y, x), step(d, y, x), d)
}

/// Whether a set holds at most one tile.
pub open spec fn at_most_one(tiles: Set<int>) -> bool {
    forall|a: int, b: int| tiles.contains(a) && tiles.contains(b) ==> a == b
}

/// Whether every arc whose target is undecided is consistent or waits in
/// the queue.
pub open spec fn settled_open(
    domains: DomainGrid,
    rules: Rules,
    mask: Seq<Seq<bool>>,
    queue: Seq<((usize, usize), (usize, usize), Direction)>,
) -> bool {
    forall|y: int, x: int, d: Direction| #[trigger]
        linked(mask, y, x, d) ==> at_most_one(dom(domains, y, x)) || arc_consistent(
            domains,
            rules,
            (y, x),
            step(d, y, x),
            d,
        ) || queued(queue, y, x, d)
}

/// Whether every arc whose target is undecided is consistent: every
/// candidate of every cell with more than one candidate finds a partner
/// among the candidates of each of its neighbours.
pub open spec fn open_consistent(domains: DomainGrid, rules: Rules, mask: Seq<Seq<bool>>) -> bool {
    forall|y: int, x: int, d: Direction| #[trigger]
        linked(mask, y, x, d) ==> at_most_one(dom(domains, y, x)) || arc_consistent(
            domains,
            rules,
            (y, x),
            step(d, y, x),
            d,
        )
}

/// Whether the wave and the table of marks have the same shape.
pub open spec fn wave_fits(domains: DomainGrid, mask: Seq<Seq<bool>>) -> bool {
    &&& grid_shaped(mask)
    &&& wave_rows(domains) == mask.len()
    &&& wave_cols(domains) == mask[0].len()
}

/// Whether `(y, x)` is an entry of `list`.
pub open spec fn listed(list: Seq<(usize, usize)>, y: int, x: int) -> bool {
    exists|i: int| 0 <= i < list.len() && (#[trigger] list[i]).0 == y && list[i].1 == x
}

/// Whether no position occurs twice in `list`.
pub open spec fn distinct(list: Seq<(usize, usize)>) -> bool {
    forall|i: int, j: int| 0 <= i < j < list.len() ==> list[i] != list[j]
}

/// Whether the candidates of every cell of `after` are among those of
/// `before`, and cells that take no part are untouched.
pub open spec fn narrowed(before: DomainGrid, after: DomainGrid, mask: Seq<Seq<bool>>) -> bool {
    &&& same_wave_shape(after, before)
    &&& forall|y: int, x: int|
        in_wave(before, y, x) ==> (#[trigger] dom(after, y, x)).subset_of(dom(before, y, x))
    &&& forall|y: int, x: int|
        in_wave(before, y, x) && !active(mask, y, x) ==> #[trigger] domain_rows(after)[y][x]
            == domain_rows(before)[y][x]
}

/// A link seen from the other end is a link, and the step leads back.
pub proof fn lemma_link_back(mask: Seq<Seq<bool>>, y: int, x: int, d: Direction)
    requires
        linked(mask, y, x, d),
    ensures
        linked(mask, step(d, y, x).0, step(d, y, x).1, opposite_of(d)),
        step(opposite_of(d), step(d, y, x).0, step(d, y, x).1) == (y, x),
        opposite_of(opposite_of(d)) == d,
        step(d, y, x) != (y, x),
{
}

/// Two steps from one cell that end in the same cell go the same way.
pub proof fn lemma_step_injective(d: Direction, e: Direction, y: int, x: int)
    requires
        step(d, y, x) == step(e, y, x),
    ensures
        d == e,
{
}

/// What revising the arc at the head of the queue leaves behind: every arc
/// is consistent or still waits, except for the arcs whose source is the
/// revised cell and whose target is not the source of the revised arc, and
/// those only where the revised cell lost a candidate.
proof fn lemma_after_revise(
    before: DomainGrid,
    after: DomainGrid,
    rules: Rules,
    mask: Seq<Seq<bool>>,
    queue: Seq<((usize, usize), (usize, usize), Direction)>,
    lax: bool,
)
    requires
        rules.wf(),
        wave_fits(before, mask),
        same_wave_shape(after, before),
        forall|y: int, x: int, u: int|
            in_wave(before, y, x) && #[trigger] dom(before, y, x).contains(u) ==> 0 <= u
                < rules.tiles(),
        queue.len() > 0,
        is_arc(mask, queue[0]),
        if lax {
            settled_open(before, rules, mask, queue)
        } else {
            settled(before, rules, mask, queue)
        },
        dom(after, queue[0].0.0 as int, queue[0].0.1 as int) == revised(
            rules,
            dom(before, queue[0].0.0 as int, queue[0].0.1 as int),
            queue[0].2,
            dom(before, queue[0].1.0 as int, queue[0].1.1 as int),
        ),
        forall|y: int, x: int|
            in_wave(before, y, x) && !(y == queue[0].0.0 && x == queue[0].0.1) ==> #[trigger] dom(
                after,
                y,
                x,
            ) == dom(before, y, x),
    ensures
        forall|y: int, x: int, e: Direction| #[trigger]
            linked(mask, y, x, e) ==> (lax && at_most_one(dom(after, y, x))) || arc_consistent(
                after,
                rules,
                (y, x),
                step(e, y, x),
                e,
            ) || queued(queue.subrange(1, queue.len() as int), y, x, e) || (step(e, y, x) == (
                queue[0].0.0 as int,
                queue[0].0.1 as int,
            ) && (y, x) != (queue[0].1.0 as int, queue[0].1.1 as int) && dom(
                after,
                queue[0].0.0 as int,
                queue[0].0.1 as int,
            ) != dom(before, queue[0].0.0 as int, queue[0].0.1 as int)),
{
    let a = (queue[0].0.0 as int, queue[0].0.1 as int);
    let b = (queue[0].1.0 as int, queue[0].1.1 as int);
    let d = queue[0].2;
    let rest = queue.subrange(1, queue.len() as int);
    lemma_link_back(mask, a.0, a.1, d);
    assert(in_wave(before, a.0, a.1));
    assert(in_wave(before, b.0, b.1));
    assert(dom(after, b.0, b.1) == dom(before, b.0, b.1));
    assert forall|y: int, x: int, e: Direction| #[trigger] linked(mask, y, x, e) implies ((lax
        && at_most_one(dom(after, y, x))) || arc_consistent(after, rules, (y, x), step(e, y, x), e)
        || queued(rest, y, x, e) || (step(e, y, x) == a && (y, x) != b && dom(after, a.0, a.1)
        != dom(before, a.0, a.1))) by {
        let c = step(e, y, x);
        lemma_link_back(mask, y, x, e);
        assert(in_wave(before, y, x));
        assert(in_wave(before, c.0, c.1));
        // A target with at most one candidate gains none.
        if lax && at_most_one(dom(before, y, x)) {
            assert(dom(after, y, x).subset_of(dom(before, y, x)));
            assert(at_most_one(dom(after, y, x)));
        }
        // An arc that waited and is not the head still waits.
        if queued(queue, y, x, e) && !((y, x) == a && e == d) {
            let i = choose|i: int| 0 <= i < queue.len() && arc_matches(#[trigger] queue[i], y, x, e);
            assert(i != 0);
            assert(arc_matches(rest[i - 1], y, x, e));
        }
        if (y, x) == a {
            if e == d {
                assert forall|u: int| #[trigger]
                    dom(after, a.0, a.1).contains(u) implies supported(
                    rules,
                    u,
                    d,
                    dom(after, b.0, b.1),
                ) by {}
            } else {
                assert(c != a);
                assert(dom(after, c.0, c.1) == dom(before, c.0, c.1));
                if arc_consistent(before, rules, (y, x), c, e) {
                    assert forall|u: int| #[trigger]
                        dom(after, y, x).contains(u) implies supported(
                        rules,
                        u,
                        e,
                        dom(after, c.0, c.1),
                    ) by {
                        assert(dom(before, y, x).contains(u));
                    }
                }
            }
        } else {
            assert(dom(after, y, x) == dom(before, y, x));
            if c != a {
                assert(dom(after, c.0, c.1) == dom(before, c.0, c.1));
            } else if dom(after, a.0, a.1) == dom(before, a.0, a.1) {
            } else if (y, x) == b {
                lemma_step_injective(e, opposite_of(d), y, x);
                if arc_consistent(before, rules, (y, x), c, e) {
                    assert forall|v: int| #[trigger]
                        dom(after, y, x).contains(v) implies supported(
                        rules,
                        v,
                        e,
                        dom(after, a.0, a.1),
                    ) by {
                        assert(dom(before, y, x).contains(v));
                        assert(supported(rules, v, e, dom(before, a.0, a.1)));
                        let u = choose|u: int|
                            dom(before, a.0, a.1).contains(u) && #[trigger] rules.allowed(
                                v,
                                e,
                            ).contains(u);
                        // `u` allows `v` back, so `u` was kept.
                        assert(rules.allowed(u, opposite_of(e)).contains(v));
                        assert(opposite_of(e) == d);
                        assert(supported(rules, u, d, dom(before, b.0, b.1)));
                        assert(dom(after, a.0, a.1).contains(u));
                    }
                }
            }
        }
    }
}

/// An arc that waits still waits after another is added, and the added arc
/// waits.
proof fn lemma_queued_push(
    queue: Seq<((usize, usize), (usize, usize), Direction)>,
    arc: ((usize, usize), (usize, usize), Direction),
)
    ensures
        forall|y: int, x: int, d: Direction|
            queued(queue, y, x, d) ==> queued(queue.push(arc), y, x, d),
        forall|y: int, x: int, d: Direction|
            arc_matches(arc, y, x, d) ==> queued(queue.push(arc), y, x, d),
{
    assert forall|y: int, x: int, d: Direction| queued(queue, y, x, d) implies queued(
        queue.push(arc),
        y,
        x,
        d,
    ) by {
        let i = choose|i: int| 0 <= i < queue.len() && arc_matches(#[trigger] queue[i], y, x, d);
        assert(arc_matches(queue.push(arc)[i], y, x, d));
    }
    assert forall|y: int, x: int, d: Direction| arc_matches(arc, y, x, d) implies queued(
        queue.push(arc),
        y,
        x,
        d,
    ) by {
        assert(arc_matches(queue.push(arc)[queue.len() as int], y, x, d));
    }
}

/// Whether `list` holds `pos`.
fn holds_pos(list: &Vec<(usize, usize)>, pos: (usize, usize)) -> (r: bool)
    ensures
        r == listed(list@, pos.0 as int, pos.1 as int),
{
    let mut i: usize = 0;
    while i < list.len()
        invariant
            i <= list.len(),
            forall|k: int| 0 <= k < i ==> !(list@[k].0 == pos.0 && list@[k].1 == pos.1),
        decreases list.len() - i,
    {
        if list[i].0 == pos.0 && list[i].1 == pos.1 {
            return true;
        }
        i += 1;
    }
    false
}

/// Whether `skip` names the position `(y, x)`.
pub open spec fn skips(skip: Option<(usize, usize)>, y: int, x: int) -> bool {
    skip matches Some(p) && p.0 == y && p.1 == x
}

/// Puts at the end of the queue the arcs whose source is `xi` and whose
/// target is a neighbour of `xi`, in the order of the neighbour list of
/// `xi`; the neighbour at `skip`, if one is named, is left out.
fn enqueue_around(
    neighbors: &NeighbourGrid,
    queue: &mut VecDeque<((usize, usize), (usize, usize), Direction)>,
    xi: (usize, usize),
    skip: Option<(usize, usize)>,
    Ghost(mask): Ghost<Seq<Seq<bool>>>,
)
    requires
        neighbours_match(*neighbors, mask),
        xi.0 < mask.len(),
        xi.1 < mask[0].len(),
        forall|i: int| 0 <= i < old(queue)@.len() ==> is_arc(mask, #[trigger] old(queue)@[i]),
    ensures
        forall|i: int| 0 <= i < final(queue)@.len() ==> is_arc(mask, #[trigger] final(queue)@[i]),
        final(queue)@.len() <= old(queue)@.len() + 4,
        forall|y: int, x: int, e: Direction|
            queued(old(queue)@, y, x, e) ==> queued(final(queue)@, y, x, e),
        forall|y: int, x: int, e: Direction| #[trigger]
            linked(mask, y, x, e) && step(e, y, x) == (xi.0 as int, xi.1 as int) && !skips(
                skip,
                y,
                x,
            ) ==> queued(final(queue)@, y, x, e),
{
    let list = neighbour_grid_at(neighbors, xi.0, xi.1);
    proof {
        lemma_neighbours_of(mask, xi.0 as int, xi.1 as int);
        lemma_shape_bounds(mask.len(), mask[0].len());
    }
    let mut j: usize = 0;
    while j < list.len()
        invariant
            j <= list.len(),
            list@.len() <= 4,
            queue@.len() <= old(queue)@.len() + j,
            grid_shaped(mask),
            list@ == neighbours_of(mask, xi.0 as int, xi.1 as int),
            mask.len() <= isize::MAX,
            mask[0].len() <= isize::MAX,
            forall|i: int| 0 <= i < queue@.len() ==> is_arc(mask, #[trigger] queue@[i]),
            forall|i: int|
                0 <= i < list@.len() ==> linked(
                    mask,
                    xi.0 as int,
                    xi.1 as int,
                    (#[trigger] list@[i]).dir,
                ) && list@[i] == neighbour_in(xi.0 as int, xi.1 as int, list@[i].dir),
            forall|y: int, x: int, e: Direction|
                queued(old(queue)@, y, x, e) ==> queued(queue@, y, x, e),
            forall|e: Direction, i: int|
                0 <= i < j && #[trigger] list@[i] == #[trigger] neighbour_in(
                    xi.0 as int,
                    xi.1 as int,
                    opposite_of(e),
                ) && !skips(
                    skip,
                    step(opposite_of(e), xi.0 as int, xi.1 as int).0,
                    step(opposite_of(e), xi.0 as int, xi.1 as int).1,
                ) ==> queued(
                    queue@,
                    step(opposite_of(e), xi.0 as int, xi.1 as int).0,
                    step(opposite_of(e), xi.0 as int, xi.1 as int).1,
                    e,
                ),
        decreases list.len() - j,
    {
        let neighbor = list[j];
        let ghost waiting_now = queue@;
        let left_out = match skip {
            Some(p) => neighbor.pos.0 == p.0 && neighbor.pos.1 == p.1,
            None => false,
        };
        if !left_out {
            let next = (neighbor.pos, xi, neighbor.opp_dir);
            queue.push_back(next);
            proof {
                lemma_link_back(mask, xi.0 as int, xi.1 as int, neighbor.dir);
                assert(is_arc(mask, next));
                lemma_queued_push(waiting_now, next);
            }
        }
        proof {
            assert forall|e: Direction, i: int|
                0 <= i < j + 1 && #[trigger] list@[i] == #[trigger] neighbour_in(
                    xi.0 as int,
                    xi.1 as int,
                    opposite_of(e),
                ) && !skips(
                    skip,
                    step(opposite_of(e), xi.0 as int, xi.1 as int).0,
                    step(opposite_of(e), xi.0 as int, xi.1 as int).1,
                ) implies queued(
                queue@,
                step(opposite_of(e), xi.0 as int, xi.1 as int).0,
                step(opposite_of(e), xi.0 as int, xi.1 as int).1,
                e,
            ) by {
                let y = step(opposite_of(e), xi.0 as int, xi.1 as int).0;
                let x = step(opposite_of(e), xi.0 as int, xi.1 as int).1;
                if i == j {
                    lemma_link_back(mask, xi.0 as int, xi.1 as int, opposite_of(e));
                    assert(neighbor.pos.0 == y && neighbor.pos.1 == x);
                    assert(neighbor.opp_dir == e);
                    assert(arc_matches((neighbor.pos, xi, neighbor.opp_dir), y, x, e));
                } else {
                    assert(queued(waiting_now, y, x, e));
                }
            }
        }
        j += 1;
    }
    proof {
        assert forall|y: int, x: int, e: Direction| #[trigger]
            linked(mask, y, x, e) && step(e, y, x) == (xi.0 as int, xi.1 as int) && !skips(
                skip,
                y,
                x,
            ) implies queued(queue@, y, x, e) by {
            lemma_link_back(mask, y, x, e);
            assert(linked(mask, xi.0 as int, xi.1 as int, opposite_of(e)));
            let i = choose|i: int|
                0 <= i < list@.len() && #[trigger] list@[i] == neighbour_in(
                    xi.0 as int,
                    xi.1 as int,
                    opposite_of(e),
                );
            assert((y, x) == step(opposite_of(e), xi.0 as int, xi.1 as int));
        }
    }
}

/// A number of revisions that no propagation exceeds which starts with
/// `seeds` arcs in its queue and the sizes `sizes`: every arc that waits at
/// the start is revised once, and every candidate that a revision removes
/// brings at most four arcs into the queue.
pub open spec fn revision_bound(seeds: nat, sizes: SizeGrid) -> nat {
    seeds + 4 * total(size_rows(sizes))
}

/// A table of sizes that differs from another in one place, where it is
/// smaller, sums to less; one that differs nowhere sums to the same.
proof fn lemma_total_after(
    before: Seq<Seq<usize>>,
    after: Seq<Seq<usize>>,
    height: nat,
    width: nat,
    y: int,
    x: int,
)
    requires
        rectangular(before, height, width),
        rectangular(after, height, width),
        0 <= y < height,
        0 <= x < width,
        after[y][x] <= before[y][x],
        forall|a: int, b: int|
            0 <= a < height && 0 <= b < width && !(a == y && b == x) ==> #[trigger] after[a][b]
                == before[a][b],
    ensures
        total(after) <= total(before),
        after[y][x] < before[y][x] ==> total(after) < total(before),
        after[y][x] == before[y][x] ==> total(after) == total(before),
{
    assert forall|a: int, b: int| 0 <= a < height && 0 <= b < after[a].len() implies after[a][b]
        <= before[a][b] by {
        if !(a == y && b == x) {
            assert(after[a][b] == before[a][b]);
        }
    }
    lemma_total_le(after, before, height as int);
    if after[y][x] == before[y][x] {
        assert forall|a: int, b: int|
            0 <= a < height && 0 <= b < before[a].len() implies before[a][b] <= after[a][b] by {
            if !(a == y && b == x) {
                assert(after[a][b] == before[a][b]);
            }
        }
        lemma_total_le(before, after, height as int);
    }
}

/// Revises the arcs of the queue in the order in which they wait until
/// none is left; the arcs that a revision puts in doubt join the queue at
/// its end. `affected` collects the cells that lost a candidate.
///
/// An arc whose target is decided is not revised but tested: where the
/// one tile of the target finds no partner in the source, it is struck,
/// so that two decided neighbours that do not fit end the drain as any
/// other contradiction does.
///
/// The drain stops with `ContradictionAt` as soon as a cell is left
/// without a candidate, and with `IterationLimit` when it would revise
/// more than `max_iterations` arcs.
pub(crate) fn drain_queue(
    domains: &mut DomainGrid,
    domain_sizes: &mut SizeGrid,
    rules: &Rules,
    neighbors: &NeighbourGrid,
    queue: &mut VecDeque<((usize, usize), (usize, usize), Direction)>,
    max_iterations: usize,
    affected: &mut Vec<(usize, usize)>,
    Ghost(mask): Ghost<Seq<Seq<bool>>>,
) -> (r: Result<(), WfcError>)
    requires
        rules.wf(),
        wave_wf(*old(domains), *old(domain_sizes), rules.tiles()),
        wave_fits(*old(domains), mask),
        neighbours_match(*neighbors, mask),
        forall|i: int| 0 <= i < old(queue)@.len() ==> is_arc(mask, #[trigger] old(queue)@[i]),
        old(affected)@.len() == 0,
    ensures
        wave_wf(*final(domains), *final(domain_sizes), rules.tiles()),
        narrowed(*old(domains), *final(domains), mask),
        keeps_families(*old(domains), *final(domains), *rules, mask),
        forall|y: int, x: int|
            in_wave(*old(domains), y, x) ==> size_at(*final(domain_sizes), y, x) <= size_at(
                *old(domain_sizes),
                y,
                x,
            ),
        match r {
            Ok(()) => {
                &&& final(queue)@.len() == 0
                &&& settled(*old(domains), *rules, mask, old(queue)@) ==> all_consistent(
                    *final(domains),
                    *rules,
                    mask,
                )
                &&& settled_open(*old(domains), *rules, mask, old(queue)@) ==> open_consistent(
                    *final(domains),
                    *rules,
                    mask,
                )
                &&& forall|y: int, x: int|
                    in_wave(*old(domains), y, x) && size_at(*old(domain_sizes), y, x) > 0
                        ==> size_at(*final(domain_sizes), y, x) > 0
                &&& distinct(final(affected)@)
                &&& forall|y: int, x: int|
                    in_wave(*old(domains), y, x) ==> (listed(final(affected)@, y, x) <==> size_at(
                        *final(domain_sizes),
                        y,
                        x,
                    ) < size_at(*old(domain_sizes), y, x))
                &&& forall|i: int|
                    0 <= i < final(affected)@.len() ==> in_wave(
                        *old(domains),
                        (#[trigger] final(affected)@[i]).0 as int,
                        final(affected)@[i].1 as int,
                    )
            },
            Err(e) => {
                &&& e == WfcError::IterationLimit || exists|y: usize, x: usize|
                    e == (WfcError::ContradictionAt { y, x })
                &&& e == WfcError::IterationLimit ==> max_iterations < revision_bound(
                    old(queue)@.len(),
                    *old(domain_sizes),
                )
                &&& e matches WfcError::ContradictionAt { y, x } ==> active(mask, y as int, x as int)
                    && dom(*final(domains), y as int, x as int) =~= Set::<int>::empty() && size_at(
                    *old(domain_sizes),
                    y as int,
                    x as int,
                ) > 0 && unsolvable(*old(domains), *rules, mask)
            },
        },
{
    let ghost n = rules.tiles();
    let ghost start = *domains;
    let ghost start_sizes = *domain_sizes;
    let ghost queue0 = queue@;
    let ghost premise = settled(start, *rules, mask, queue0);
    let ghost premise_open = settled_open(start, *rules, mask, queue0);
    let mut iteration_count: usize = 0;
    loop
        invariant
            rules.wf(),
            n == rules.tiles(),
            start == *old(domains),
            start_sizes == *old(domain_sizes),
            premise == settled(*old(domains), *rules, mask, old(queue)@),
            premise_open == settled_open(*old(domains), *rules, mask, old(queue)@),
            premise_open ==> settled_open(*domains, *rules, mask, queue@),
            wave_wf(start, start_sizes, n),
            wave_wf(*domains, *domain_sizes, n),
            wave_fits(start, mask),
            neighbours_match(*neighbors, mask),
            narrowed(start, *domains, mask),
            keeps_families(start, *domains, *rules, mask),
            iteration_count <= max_iterations,
            queue0.len() == old(queue)@.len(),
            iteration_count + queue@.len() + 4 * total(size_rows(*domain_sizes)) <= queue0.len() + 4
                * total(size_rows(start_sizes)),
            forall|i: int| 0 <= i < queue@.len() ==> is_arc(mask, #[trigger] queue@[i]),
            premise ==> settled(*domains, *rules, mask, queue@),
            forall|y: int, x: int|
                in_wave(start, y, x) ==> size_at(*domain_sizes, y, x) <= size_at(start_sizes, y, x),
            forall|y: int, x: int|
                in_wave(start, y, x) && size_at(start_sizes, y, x) > 0 ==> size_at(
                    *domain_sizes,
                    y,
                    x,
                ) > 0,
            distinct(affected@),
            forall|y: int, x: int|
                in_wave(start, y, x) ==> (listed(affected@, y, x) <==> size_at(*domain_sizes, y, x)
                    < size_at(start_sizes, y, x)),
            forall|i: int|
                0 <= i < affected@.len() ==> in_wave(
                    start,
                    (#[trigger] affected@[i]).0 as int,
                    affected@[i].1 as int,
                ),
        decreases max_iterations - iteration_count,
    {
        let ghost waiting = queue@;
        let arc = match queue.pop_front() {
            Some(arc) => arc,
            None => {
                proof {
                    if premise {
                        assert forall|y: int, x: int, d: Direction| #[trigger]
                            linked(mask, y, x, d) implies arc_consistent(
                            *domains,
                            *rules,
                            (y, x),
                            step(d, y, x),
                            d,
                        ) by {
                            assert(!queued(queue@, y, x, d));
                        }
                    }
                    if premise_open {
                        assert forall|y: int, x: int, d: Direction| #[trigger]
                            linked(mask, y, x, d) implies at_most_one(dom(*domains, y, x))
                            || arc_consistent(*domains, *rules, (y, x), step(d, y, x), d) by {
                            assert(!queued(queue@, y, x, d));
                        }
                    }
                }
                return Ok(());
            },
        };
        if iteration_count >= max_iterations {
            return Err(WfcError::IterationLimit);
        }
        iteration_count += 1;
        let (xi, xj, dir) = arc;
        let ghost before = *domains;
        let ghost before_sizes = *domain_sizes;
        let ghost rest = queue@;
        proof {
            assert(is_arc(mask, waiting[0]));
            assert(waiting.subrange(1, waiting.len() as int) =~= rest);
            lemma_link_back(mask, xi.0 as int, xi.1 as int, dir);
            lemma_shape_bounds(mask.len(), mask[0].len());
            assert(in_wave(start, xi.0 as int, xi.1 as int));
            assert(size_at(before_sizes, xi.0 as int, xi.1 as int) <= size_at(
                start_sizes,
                xi.0 as int,
                xi.1 as int,
            ));
            assert forall|i: int| 0 <= i < rest.len() implies is_arc(mask, #[trigger] rest[i]) by {
                assert(rest[i] == waiting[i + 1]);
            }
        }
        let changed = if cached_size(domain_sizes, xi) == 1 {
            confirm_decided(domains, domain_sizes, rules, xi, xj, dir)
        } else {
            revise(domains, domain_sizes, rules, xi, xj, dir)
        };
        proof {
            let own = dom(before, xi.0 as int, xi.1 as int);
            let partners = dom(before, xj.0 as int, xj.1 as int);
            if size_at(before_sizes, xi.0 as int, xi.1 as int) == 0 {
                assert(cell_ok(before, before_sizes, xi.0 as int, xi.1 as int, n));
                assert(own =~= Set::<int>::empty());
                assert(revised(*rules, own, dir, partners) =~= own);
            }
            assert(dom(*domains, xi.0 as int, xi.1 as int) == revised(*rules, own, dir, partners));
            assert forall|a: int, b: int|
                in_wave(before, a, b) && !(a == xi.0 && b == xi.1) implies #[trigger] size_rows(
                *domain_sizes,
            )[a][b] == size_rows(before_sizes)[a][b] by {
                assert(domain_rows(*domains)[a][b] == domain_rows(before)[a][b]);
            }
            lemma_total_after(
                size_rows(before_sizes),
                size_rows(*domain_sizes),
                wave_rows(start),
                wave_cols(start),
                xi.0 as int,
                xi.1 as int,
            );
        }
        proof {
            assert forall|y: int, x: int|
                in_wave(before, y, x) && !(y == arc.0.0 && x == arc.0.1) implies #[trigger] dom(
                *domains,
                y,
                x,
            ) == dom(before, y, x) by {
                assert(domain_rows(*domains)[y][x] == domain_rows(before)[y][x]);
            }
            lemma_revise_keeps_families(before, *domains, *rules, mask, arc);
            lemma_keeps_families_twice(start, before, *domains, *rules, mask);
        }
        proof {
            assert forall|y: int, x: int| in_wave(start, y, x) implies (#[trigger] dom(
                *domains,
                y,
                x,
            )).subset_of(dom(start, y, x)) by {
                assert(dom(before, y, x).subset_of(dom(start, y, x)));
                if y == xi.0 && x == xi.1 {
                } else {
                    assert(domain_rows(*domains)[y][x] == domain_rows(before)[y][x]);
                }
            }
            assert forall|y: int, x: int|
                in_wave(start, y, x) && !active(mask, y, x) implies #[trigger] domain_rows(
                *domains,
            )[y][x] == domain_rows(start)[y][x] by {
                assert(domain_rows(before)[y][x] == domain_rows(start)[y][x]);
                assert(domain_rows(*domains)[y][x] == domain_rows(before)[y][x]);
            }
            assert forall|y: int, x: int| in_wave(start, y, x) implies size_at(
                *domain_sizes,
                y,
                x,
            ) <= size_at(start_sizes, y, x) by {
                assert(size_at(before_sizes, y, x) <= size_at(start_sizes, y, x));
                if !(y == xi.0 && x == xi.1) {
                    assert(domain_rows(*domains)[y][x] == domain_rows(before)[y][x]);
                }
            }
            if premise || premise_open {
                assert forall|y: int, x: int, u: int|
                    in_wave(before, y, x) && #[trigger] dom(before, y, x).contains(u) implies 0
                    <= u < rules.tiles() by {
                    assert(cell_ok(before, before_sizes, y, x, n));
                }
                assert forall|y: int, x: int|
                    in_wave(before, y, x) && !(y == waiting[0].0.0 && x
                        == waiting[0].0.1) implies #[trigger] dom(*domains, y, x) == dom(
                    before,
                    y,
                    x,
                ) by {
                    assert(domain_rows(*domains)[y][x] == domain_rows(before)[y][x]);
                }
                if premise {
                    lemma_after_revise(before, *domains, *rules, mask, waiting, false);
                }
                if premise_open {
                    lemma_after_revise(before, *domains, *rules, mask, waiting, true);
                }
            }
        }
        if changed {
            if size_grid_at(domain_sizes, xi.0, xi.1) == 0 {
                proof {
                    assert(cell_ok(*domains, *domain_sizes, xi.0 as int, xi.1 as int, n));
                    assert(dom(*domains, xi.0 as int, xi.1 as int).len() == 0);
                    assert(size_at(before_sizes, xi.0 as int, xi.1 as int) <= size_at(
                        start_sizes,
                        xi.0 as int,
                        xi.1 as int,
                    ));
                    lemma_families_hold_solutions(start, *domains, *rules, mask);
                    lemma_contradiction_is_final(
                        start,
                        *domains,
                        *rules,
                        mask,
                        xi.0 as int,
                        xi.1 as int,
                    );
                }
                return Err(WfcError::ContradictionAt { y: xi.0, x: xi.1 });
            }
            if !holds_pos(affected, xi) {
                let ghost prev = affected@;
                affected.push(xi);
                proof {
                    assert forall|y: int, x: int| listed(prev, y, x) implies listed(
                        affected@,
                        y,
                        x,
                    ) by {
                        let i = choose|i: int|
                            0 <= i < prev.len() && (#[trigger] prev[i]).0 == y && prev[i].1 == x;
                        assert(affected@[i].0 == y && affected@[i].1 == x);
                    }
                    assert(affected@[prev.len() as int] == xi);
                    assert(listed(affected@, xi.0 as int, xi.1 as int));
                }
            }
            proof {
                assert forall|y: int, x: int| in_wave(start, y, x) implies (listed(
                    affected@,
                    y,
                    x,
                ) <==> size_at(*domain_sizes, y, x) < size_at(start_sizes, y, x)) by {
                    assert(size_at(before_sizes, y, x) <= size_at(start_sizes, y, x));
                    if !(y == xi.0 && x == xi.1) {
                        assert(domain_rows(*domains)[y][x] == domain_rows(before)[y][x]);
                        if listed(affected@, y, x) {
                            let i = choose|i: int|
                                0 <= i < affected@.len() && (#[trigger] affected@[i]).0 == y
                                    && affected@[i].1 == x;
                        }
                    }
                }
            }
            let ghost rest_now = queue@;
            enqueue_around(neighbors, queue, xi, Some(xj), Ghost(mask));
            proof {
                if premise {
                    assert forall|y: int, x: int, e: Direction| #[trigger]
                        linked(mask, y, x, e) implies arc_consistent(
                        *domains,
                        *rules,
                        (y, x),
                        step(e, y, x),
                        e,
                    ) || queued(queue@, y, x, e) by {
                        if queued(rest_now, y, x, e) {
                            assert(queued(queue@, y, x, e));
                        }
                    }
                }
                if premise_open {
                    assert forall|y: int, x: int, e: Direction| #[trigger]
                        linked(mask, y, x, e) implies at_most_one(dom(*domains, y, x))
                        || arc_consistent(*domains, *rules, (y, x), step(e, y, x), e) || queued(
                        queue@,
                        y,
                        x,
                        e,
                    ) by {
                        if queued(rest_now, y, x, e) {
                            assert(queued(queue@, y, x, e));
                        }
                    }
                }
            }
        } else {
            proof {
                assert(dom(*domains, xi.0 as int, xi.1 as int) == dom(
                    before,
                    xi.0 as int,
                    xi.1 as int,
                ));
                assert forall|y: int, x: int| in_wave(start, y, x) implies (listed(
                    affected@,
                    y,
                    x,
                ) <==> size_at(*domain_sizes, y, x) < size_at(start_sizes, y, x)) by {
                    if !(y == xi.0 && x == xi.1) {
                        assert(domain_rows(*domains)[y][x] == domain_rows(before)[y][x]);
                    }
                }
            }
        }
        proof {
            assert forall|y: int, x: int|
                in_wave(start, y, x) && size_at(start_sizes, y, x) > 0 implies size_at(
                *domain_sizes,
                y,
                x,
            ) > 0 by {
                assert(size_at(before_sizes, y, x) > 0);
                if !(y == xi.0 && x == xi.1) {
                    assert(domain_rows(*domains)[y][x] == domain_rows(before)[y][x]);
                }
            }
        }
    }
}

/// Whether every arc is consistent, but for the arcs whose source is the
/// cell `(cy, cx)`.
pub open spec fn consistent_apart_from(
    domains: DomainGrid,
    rules: Rules,
    mask: Seq<Seq<bool>>,
    cy: int,
    cx: int,
) -> bool {
    forall|y: int, x: int, d: Direction| #[trigger]
        linked(mask, y, x, d) && step(d, y, x) != (cy, cx) ==> arc_consistent(
            domains,
            rules,
            (y, x),
            step(d, y, x),
            d,
        )
}

/// Whether every arc whose target is undecided is consistent, but for the
/// arcs whose source is the cell `(cy, cx)`.
pub open spec fn open_consistent_apart_from(
    domains: DomainGrid,
    rules: Rules,
    mask: Seq<Seq<bool>>,
    cy: int,
    cx: int,
) -> bool {
    forall|y: int, x: int, d: Direction| #[trigger]
        linked(mask, y, x, d) && step(d, y, x) != (cy, cx) ==> at_most_one(dom(domains, y, x))
            || arc_consistent(domains, rules, (y, x), step(d, y, x), d)
}

/// What a propagation leaves behind whatever its outcome: the wave is in
/// order, no cell gained a candidate or grew in size, the cells that take
/// no part are untouched, and nothing was removed that could have stayed
/// in an arc consistent wave.
pub open spec fn propagated(
    before: DomainGrid,
    before_sizes: SizeGrid,
    after: DomainGrid,
    after_sizes: SizeGrid,
    rules: Rules,
    mask: Seq<Seq<bool>>,
) -> bool {
    &&& wave_wf(after, after_sizes, rules.tiles())
    &&& narrowed(before, after, mask)
    &&& keeps_families(before, after, rules, mask)
    &&& forall|y: int, x: int|
        in_wave(before, y, x) ==> size_at(after_sizes, y, x) <= #[trigger] size_at(
            before_sizes,
            y,
            x,
        )
}

/// What holds in addition of a propagation that succeeded: no cell that
/// had a candidate is left without one.
pub open spec fn kept_alive(
    before: DomainGrid,
    before_sizes: SizeGrid,
    after_sizes: SizeGrid,
) -> bool {
    forall|y: int, x: int|
        in_wave(before, y, x) && #[trigger] size_at(before_sizes, y, x) > 0 ==> size_at(
            after_sizes,
            y,
            x,
        ) > 0
}

/// Whether `list` names, each once, exactly the cells whose size differs
/// between the two tables.
pub open spec fn lists_changes(
    list: Seq<(usize, usize)>,
    before: DomainGrid,
    before_sizes: SizeGrid,
    after_sizes: SizeGrid,
) -> bool {
    &&& distinct(list)
    &&& forall|i: int|
        0 <= i < list.len() ==> in_wave(before, (#[trigger] list[i]).0 as int, list[i].1 as int)
    &&& forall|y: int, x: int|
        in_wave(before, y, x) ==> (listed(list, y, x) <==> size_at(after_sizes, y, x) < size_at(
            before_sizes,
            y,
            x,
        ))
}

/// What a propagation that failed says of its failure. Either it ran out
/// of iterations, and then `max_iterations` is less than the bound for a
/// propagation that starts with at most `seeds` arcs. Or it names a cell
/// that takes part, had a candidate and has none left, and then no choice
/// of tiles that obeys the rules agrees with the wave the propagation
/// started from.
pub open spec fn failure_explained(
    e: WfcError,
    before: DomainGrid,
    before_sizes: SizeGrid,
    after: DomainGrid,
    rules: Rules,
    mask: Seq<Seq<bool>>,
    seeds: nat,
    max_iterations: usize,
) -> bool {
    match e {
        WfcError::IterationLimit => max_iterations < revision_bound(seeds, before_sizes),
        WfcError::ContradictionAt { y, x } => active(mask, y as int, x as int) && dom(
            after,
            y as int,
            x as int,
        ) =~= Set::<int>::empty() && size_at(before_sizes, y as int, x as int) > 0 && unsolvable(
            before,
            rules,
            mask,
        ),
        _ => false,
    }
}

/// Propagates the consequences of a change to `start_cell`.
///
/// The arcs from every neighbour of `start_cell` to it are revised first,
/// in the order of its neighbour list; whenever a revision removes a
/// candidate of a cell, the arcs from its other neighbours to it join the
/// queue. On success the result lists the cells whose size changed, and if
/// every arc whose source is not `start_cell` was consistent before, every
/// arc is consistent afterwards. The same holds of the arcs whose target
/// is undecided alone: if those were consistent before, they are
/// afterwards. The propagation fails with
/// `ContradictionAt` as soon as a cell is left without a candidate, and
/// with `IterationLimit` when it would revise more than `max_iterations`
/// arcs.
pub fn propagate_constraints(
    domains: &mut DomainGrid,
    domain_sizes: &mut SizeGrid,
    rules: &Rules,
    is_ignore: &MaskGrid,
    neighbors: &NeighbourGrid,
    start_cell: (usize, usize),
    max_iterations: usize,
) -> (r: Result<Vec<(usize, usize)>, WfcError>)
    requires
        rules.wf(),
        wave_wf(*old(domains), *old(domain_sizes), rules.tiles()),
        wave_fits(*old(domains), mask_rows(*is_ignore)),
        neighbours_match(*neighbors, mask_rows(*is_ignore)),
        in_wave(*old(domains), start_cell.0 as int, start_cell.1 as int),
    ensures
        propagated(
            *old(domains),
            *old(domain_sizes),
            *final(domains),
            *final(domain_sizes),
            *rules,
            mask_rows(*is_ignore),
        ),
        match r {
            Ok(affected) => {
                &&& kept_alive(*old(domains), *old(domain_sizes), *final(domain_sizes))
                &&& lists_changes(
                    affected@,
                    *old(domains),
                    *old(domain_sizes),
                    *final(domain_sizes),
                )
                &&& consistent_apart_from(
                    *old(domains),
                    *rules,
                    mask_rows(*is_ignore),
                    start_cell.0 as int,
                    start_cell.1 as int,
                ) ==> all_consistent(*final(domains), *rules, mask_rows(*is_ignore))
                &&& open_consistent_apart_from(
                    *old(domains),
                    *rules,
                    mask_rows(*is_ignore),
                    start_cell.0 as int,
                    start_cell.1 as int,
                ) ==> open_consistent(*final(domains), *rules, mask_rows(*is_ignore))
            },
            Err(e) => failure_explained(
                e,
                *old(domains),
                *old(domain_sizes),
                *final(domains),
                *rules,
                mask_rows(*is_ignore),
                4,
                max_iterations,
            ),
        },
{
    let ghost mask = mask_rows(*is_ignore);
    let mut queue: VecDeque<((usize, usize), (usize, usize), Direction)> = VecDeque::new();
    let mut affected: Vec<(usize, usize)> = Vec::new();
    enqueue_around(neighbors, &mut queue, start_cell, None, Ghost(mask));
    proof {
        if consistent_apart_from(
            *domains,
            *rules,
            mask,
            start_cell.0 as int,
            start_cell.1 as int,
        ) {
            assert(settled(*domains, *rules, mask, queue@));
        }
        if open_consistent_apart_from(
            *domains,
            *rules,
            mask,
            start_cell.0 as int,
            start_cell.1 as int,
        ) {
            assert(settled_open(*domains, *rules, mask, queue@));
        }
    }
    match drain_queue(
        domains,
        domain_sizes,
        rules,
        neighbors,
        &mut queue,
        max_iterations,
        &mut affected,
        Ghost(mask),
    ) {
        Ok(()) => Ok(affected),
        Err(e) => Err(e),
    }
}

/// Makes the whole grid arc consistent.
///
/// Every arc of the grid is revised at least once: for every cell that
/// takes part, in row-major order, the arcs from its neighbours to it join
/// the queue in the order of its neighbour list, and revisions add arcs as
/// in [`propagate_constraints`]. On success every arc is consistent. The
/// propagation fails with `ContradictionAt` as soon as a cell is left
/// without a candidate, and with `IterationLimit` when it would revise
/// more than `max_iterations` arcs.
pub fn initial_propagation(
    domains: &mut DomainGrid,
    domain_sizes: &mut SizeGrid,
    rules: &Rules,
    height: usize,
    width: usize,
    is_ignore: &MaskGrid,
    neighbors: &NeighbourGrid,
    max_iterations: usize,
) -> (r: Result<(), WfcError>)
    requires
        rules.wf(),
        wave_wf(*old(domains), *old(domain_sizes), rules.tiles()),
        wave_fits(*old(domains), mask_rows(*is_ignore)),
        neighbours_match(*neighbors, mask_rows(*is_ignore)),
        height == wave_rows(*old(domains)),
        width == wave_cols(*old(domains)),
    ensures
        propagated(
            *old(domains),
            *old(domain_sizes),
            *final(domains),
            *final(domain_sizes),
            *rules,
            mask_rows(*is_ignore),
        ),
        match r {
            Ok(()) => {
                &&& kept_alive(*old(domains), *old(domain_sizes), *final(domain_sizes))
                &&& all_consistent(*final(domains), *rules, mask_rows(*is_ignore))
            },
            Err(e) => failure_explained(
                e,
                *old(domains),
                *old(domain_sizes),
                *final(domains),
                *rules,
                mask_rows(*is_ignore),
                (4 * height * width) as nat,
                max_iterations,
            ),
        },
{
    let ghost mask = mask_rows(*is_ignore);
    let mut queue: VecDeque<((usize, usize), (usize, usize), Direction)> = VecDeque::new();
    let mut y: usize = 0;
    while y < height
        invariant
            y <= height,
            height == mask.len(),
            width == mask[0].len(),
            queue@.len() <= 4 * (y * width),
            neighbours_match(*neighbors, mask),
            forall|i: int| 0 <= i < queue@.len() ==> is_arc(mask, #[trigger] queue@[i]),
            forall|a: int, b: int, e: Direction| #[trigger]
                linked(mask, a, b, e) && step(e, a, b).0 < y ==> queued(queue@, a, b, e),
        decreases height - y,
    {
        let mut x: usize = 0;
        while x < width
            invariant
                x <= width,
                y < height,
                height == mask.len(),
                width == mask[0].len(),
                queue@.len() <= 4 * (y * width + x),
                neighbours_match(*neighbors, mask),
                forall|i: int| 0 <= i < queue@.len() ==> is_arc(mask, #[trigger] queue@[i]),
                forall|a: int, b: int, e: Direction| #[trigger]
                    linked(mask, a, b, e) && (step(e, a, b).0 < y || (step(e, a, b).0 == y && step(
                        e,
                        a,
                        b,
                    ).1 < x)) ==> queued(queue@, a, b, e),
            decreases width - x,
        {
            enqueue_around(neighbors, &mut queue, (y, x), None, Ghost(mask));
            x += 1;
        }
        proof {
            assert(4 * (y * width + width) == 4 * ((y + 1) * width)) by (nonlinear_arith);
        }
        y += 1;
    }
    proof {
        assert(4 * (height * width) == 4 * height * width) by (nonlinear_arith);
    }
    let mut affected: Vec<(usize, usize)> = Vec::new();
    drain_queue(
        domains,
        domain_sizes,
        rules,
        neighbors,
        &mut queue,
        max_iterations,
        &mut affected,
        Ghost(mask),
    )
}

/// The candidates of the cell at `pos`, in rising order.
pub fn options_at(domains: &DomainGrid, pos: (usize, usize)) -> (r: Vec<usize>)
    requires
        grid_shaped(domain_rows(*domains)),
        in_wave(*domains, pos.0 as int, pos.1 as int),
    ensures
        r@.len() == dom(*domains, pos.0 as int, pos.1 as int).len(),
        forall|i: int, j: int| 0 <= i < j < r@.len() ==> r@[i] < r@[j],
        forall|i: int|
            0 <= i < r@.len() ==> dom(*domains, pos.0 as int, pos.1 as int).contains(
                #[trigger] r@[i] as int,
            ),
        forall|k: int|
            dom(*domains, pos.0 as int, pos.1 as int).contains(k) ==> exists|i: int|
                0 <= i < r@.len() && #[trigger] r@[i] == k,
{
    bitset_ones(domain_grid_at(domains, pos.0, pos.1))
}

/// The neighbour list of the cell at `pos`.
pub fn neighbours_at(neighbors: &NeighbourGrid, pos: (usize, usize)) -> (list: &Vec<Neighbour>)
    requires
        pos.0 < neighbour_rows(*neighbors).len(),
        pos.1 < neighbour_rows(*neighbors)[pos.0 as int].len(),
    ensures
        list@ == neighbour_rows(*neighbors)[pos.0 as int][pos.1 as int],
{
    neighbour_grid_at(neighbors, pos.0, pos.1)
}

/// Whether the cell at `pos` is marked as a hole.
pub fn is_hole(is_ignore: &MaskGrid, pos: (usize, usize)) -> (r: bool)
    requires
        pos.0 < mask_rows(*is_ignore).len(),
        pos.1 < mask_rows(*is_ignore)[pos.0 as int].len(),
    ensures
        r == mask_rows(*is_ignore)[pos.0 as int][pos.1 as int],
{
    mask_grid_at(is_ignore, pos.0, pos.1)
}

/// The cached size of the cell at `pos`.
pub fn cached_size(domain_sizes: &SizeGrid, pos: (usize, usize)) -> (r: usize)
    requires
        pos.0 < size_rows(*domain_sizes).len(),
        pos.1 < size_rows(*domain_sizes)[pos.0 as int].len(),
    ensures
        r == size_at(*domain_sizes, pos.0 as int, pos.1 as int),
{
    size_grid_at(domain_sizes, pos.0, pos.1)
}

/// The table of sizes that belongs to a table of candidate sets: for every
/// cell the number of its candidates.
pub fn count_domains(domains: &DomainGrid, height: usize, width: usize, num_tiles: usize) -> (sizes:
    SizeGrid)
    requires
        grid_shaped(domain_rows(*domains)),
        height == wave_rows(*domains),
        width == wave_cols(*domains),
        forall|y: int, x: int|
            in_wave(*domains, y, x) ==> bitset_wf(#[trigger] domain_rows(*domains)[y][x])
                && capacity_of(domain_rows(*domains)[y][x]) == num_tiles,
    ensures
        wave_wf(*domains, sizes, num_tiles as nat),
{
    let mut sizes = size_grid_filled(height, width, 0);
    let mut y: usize = 0;
    while y < height
        invariant
            y <= height,
            grid_shaped(domain_rows(*domains)),
            height == wave_rows(*domains),
            width == wave_cols(*domains),
            rectangular(size_rows(sizes), height as nat, width as nat),
            forall|a: int, b: int|
                0 <= a < y && 0 <= b < width ==> #[trigger] size_at(sizes, a, b) == dom(
                    *domains,
                    a,
                    b,
                ).len(),
        decreases height - y,
    {
        let mut x: usize = 0;
        while x < width
            invariant
                x <= width,
                y < height,
                grid_shaped(domain_rows(*domains)),
                height == wave_rows(*domains),
                width == wave_cols(*domains),
                rectangular(size_rows(sizes), height as nat, width as nat),
                forall|a: int, b: int|
                    0 <= a < y && 0 <= b < width ==> #[trigger] size_at(sizes, a, b) == dom(
                        *domains,
                        a,
                        b,
                    ).len(),
                forall|b: int|
                    0 <= b < x ==> #[trigger] size_at(sizes, y as int, b) == dom(
                        *domains,
                        y as int,
                        b,
                    ).len(),
            decreases width - x,
        {
            let count = bitset_count(domain_grid_at(domains, y, x));
            let ghost prev = sizes;
            let ghost before = size_rows(sizes);
            let slot = size_grid_at_mut(&mut sizes, y, x);
            *slot = count;
            proof {
                lemma_put_keeps_shape(before, y as int, x as int, count);
                assert forall|a: int, b: int|
                    0 <= a < height && 0 <= b < width && !(a == y && b == x) implies size_at(
                    sizes,
                    a,
                    b,
                ) == size_at(prev, a, b) by {
                    assert(before[a].len() == width);
                }
            }
            x += 1;
        }
        y += 1;
    }
    proof {
        assert forall|a: int, b: int| in_wave(*domains, a, b) implies #[trigger] cell_ok(
            *domains,
            sizes,
            a,
            b,
            num_tiles as nat,
        ) by {
            assert(size_at(sizes, a, b) == dom(*domains, a, b).len());
        }
    }
    sizes
}

} // verus!
