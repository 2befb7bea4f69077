//! Rules of two tiles that only allow each other: what the solvers owe on
//! them.
//!
//! Under such rules a map is a solution exactly when neighbours carry
//! different tiles, so a cell decides every cell it is connected to. The
//! laws of this module say that no decision leads into a contradiction,
//! that a template whose fixed cells follow one colouring can be made arc
//! consistent, and that a fixed corner decides a board of wildcards.

use crate::algorithm::common::{coherent, family_consistent, lemma_link_back, linked, supported};
use crate::algorithm::solve::{
    at_most, decided_by_setup, decides, family_alive, family_within, fits_template, forced,
    holds_tile, holes, occupied, refines, safe, sound, viable,
};
use crate::cell::{cell_domain, cell_fits, Cell};
use crate::direction::{opposite_of, step, Direction};
use crate::map::{cells_fit, grid_shaped};
use crate::rules::Rules;
use crate::wave_function::takes_part;
use vstd::prelude::*;
use vstd::set_lib::*;

verus! {

/// Whether there are two tiles, each of which allows the other and only
/// the other on every side.
pub open spec fn alternating(rules: Rules) -> bool {
    &&& rules.tiles() == 2
    &&& forall|u: int, d: Direction, v: int|
        0 <= u < 2 ==> (#[trigger] rules.allowed(u, d).contains(v) <==> v == 1 - u)
}

/// The tile of the cell `(y, x)` in the colouring that gives the cell
/// `(cy, cx)` the tile `u` and neighbours different tiles.
pub open spec fn colour(cy: int, cx: int, u: int, y: int, x: int) -> int {
    if (y + x + cy + cx) % 2 == 0 {
        u
    } else {
        1 - u
    }
}

/// The colouring of a grid that gives the cell `(cy, cx)` the tile `u`.
pub open spec fn colouring(height: nat, width: nat, cy: int, cx: int, u: int) -> Seq<Seq<int>> {
    Seq::new(height, |y: int| Seq::new(width, |x: int| colour(cy, cx, u, y, x)))
}

/// Whether every fixed cell of the template has the tile that the
/// colouring gives it.
pub open spec fn follows(template: Seq<Seq<Cell>>, cy: int, cx: int, u: int) -> bool {
    forall|y: int, x: int|
        0 <= y < template.len() && 0 <= x < template[0].len() ==> (
        #[trigger] template[y][x] matches Cell::Fixed(i) ==> i == colour(cy, cx, u, y, x))
}

/// Whether a set holds both tiles.
pub open spec fn both(tiles: Set<int>) -> bool {
    tiles.contains(0) && tiles.contains(1)
}

/// What is left of a family when the cell `(cy, cx)` is committed to `u`:
/// a cell that held both tiles keeps the one the colouring gives it, and
/// every other cell keeps what it had.
pub open spec fn committed(
    family: Seq<Seq<Set<int>>>,
    height: nat,
    width: nat,
    cy: int,
    cx: int,
    u: int,
) -> Seq<Seq<Set<int>>> {
    Seq::new(
        height,
        |y: int|
            Seq::new(
                width,
                |x: int|
                    if both(family[y][x]) {
                        set![colour(cy, cx, u, y, x)]
                    } else {
                        family[y][x]
                    },
            ),
    )
}

/// Neighbours have different tiles in a colouring.
proof fn lemma_colour_step(cy: int, cx: int, u: int, y: int, x: int, d: Direction)
    ensures
        colour(cy, cx, u, step(d, y, x).0, step(d, y, x).1) == 1 - colour(cy, cx, u, y, x),
{
}

/// Under alternating rules a template whose fixed cells follow one
/// colouring can be made arc consistent: the colouring itself shows it.
pub proof fn lemma_colouring_is_viable(
    template: Seq<Seq<Cell>>,
    rules: Rules,
    cy: int,
    cx: int,
    u: int,
)
    requires
        grid_shaped(template),
        alternating(rules),
        0 <= u < 2,
        follows(template, cy, cx, u),
    ensures
        coherent(colouring(template.len(), template[0].len(), cy, cx, u), rules, holes(template)),
        viable(template, rules),
{
    let mask = holes(template);
    let choice = colouring(template.len(), template[0].len(), cy, cx, u);
    let family = Seq::new(
        template.len(),
        |y: int| Seq::new(template[0].len(), |x: int| set![colour(cy, cx, u, y, x)]),
    );
    assert forall|y: int, x: int, d: Direction| #[trigger] linked(mask, y, x, d) implies rules.allowed(
        choice[y][x],
        d,
    ).contains(choice[step(d, y, x).0][step(d, y, x).1]) by {
        lemma_colour_step(cy, cx, u, y, x, d);
    }
    assert forall|y: int, x: int, d: Direction, t: int|
        #![trigger linked(mask, y, x, d), family[y][x].contains(t)]
        linked(mask, y, x, d) && family[y][x].contains(t) implies supported(
        rules,
        t,
        d,
        family[step(d, y, x).0][step(d, y, x).1],
    ) by {
        let s = step(d, y, x);
        lemma_colour_step(cy, cx, u, y, x, d);
        assert(family[s.0][s.1].contains(1 - t));
        assert(rules.allowed(t, d).contains(1 - t));
    }
    assert forall|y: int, x: int| takes_part(template, y, x) implies (#[trigger] family[y][x]).subset_of(
        cell_domain(template[y][x], rules.tiles()),
    ) && occupied(family[y][x]) by {
        assert(template[y].len() == template[0].len());
        assert(family[y][x].contains(colour(cy, cx, u, y, x)));
        lemma_int_range(0, 2);
    }
    assert(family_consistent(family, rules, mask));
    assert(fits_template(family, template, rules.tiles()));
    assert(family_alive(family, template));
}

/// Under alternating rules no decision can lead into a contradiction: a
/// solver succeeds on every template that can be made arc consistent,
/// whatever it draws.
pub proof fn lemma_alternating_is_safe(template: Seq<Seq<Cell>>, rules: Rules)
    requires
        grid_shaped(template),
        alternating(rules),
        cells_fit(template, 2),
    ensures
        safe(template, rules),
{
    let mask = holes(template);
    let height = template.len();
    let width = template[0].len();
    assert forall|family: Seq<Seq<Set<int>>>, cy: int, cx: int, u: int| #[trigger]
        holds_tile(family, cy, cx, u) && sound(family, template, rules) && takes_part(
            template,
            cy,
            cx,
        ) implies exists|inner: Seq<Seq<Set<int>>>| #[trigger]
        refines(inner, family, template, rules, cy, cx, u) by {
        let inner = committed(family, height, width, cy, cx, u);
        // Every cell that takes part holds tiles below two.
        assert forall|y: int, x: int, t: int|
            takes_part(template, y, x) && #[trigger] family[y][x].contains(t) implies 0 <= t
            < 2 by {
            assert(template[y].len() == template[0].len());
            assert(family[y][x].subset_of(cell_domain(template[y][x], 2)));
            assert(cell_fits(template[y][x], 2));
            lemma_int_range(0, 2);
        }
        assert(template[cy].len() == template[0].len());
        assert(family[cy][cx].contains(u));
        assert forall|y: int, x: int, d: Direction, t: int|
            #![trigger linked(mask, y, x, d), inner[y][x].contains(t)]
            linked(mask, y, x, d) && inner[y][x].contains(t) implies supported(
            rules,
            t,
            d,
            inner[step(d, y, x).0][step(d, y, x).1],
        ) by {
            let s = step(d, y, x);
            lemma_link_back(mask, y, x, d);
            lemma_colour_step(cy, cx, u, y, x, d);
            assert(takes_part(template, y, x));
            assert(takes_part(template, s.0, s.1));
            assert(family[y][x].contains(t));
            assert(linked(mask, y, x, d) && family[y][x].contains(t));
            assert(supported(rules, t, d, family[s.0][s.1]));
            let v = choose|v: int|
                family[s.0][s.1].contains(v) && #[trigger] rules.allowed(t, d).contains(v);
            assert(v == 1 - t);
            if both(family[y][x]) {
                // The other tile of the cell has its partner too.
                assert(linked(mask, y, x, d) && family[y][x].contains(1 - t));
                assert(supported(rules, 1 - t, d, family[s.0][s.1]));
                let w = choose|w: int|
                    family[s.0][s.1].contains(w) && #[trigger] rules.allowed(1 - t, d).contains(w);
                assert(w == t);
                assert(both(family[s.0][s.1]));
                assert(inner[s.0][s.1].contains(1 - t));
            } else {
                if both(family[s.0][s.1]) {
                    // Then the cell would hold the partner of either.
                    assert(linked(mask, s.0, s.1, opposite_of(d)) && family[s.0][s.1].contains(t));
                    assert(supported(rules, t, opposite_of(d), family[y][x]));
                    let w = choose|w: int|
                        family[y][x].contains(w) && #[trigger] rules.allowed(
                            t,
                            opposite_of(d),
                        ).contains(w);
                    assert(w == 1 - t);
                }
                assert(inner[s.0][s.1].contains(1 - t));
            }
            assert(rules.allowed(t, d).contains(1 - t));
        }
        assert forall|y: int, x: int| takes_part(template, y, x) implies (#[trigger] inner[y][x]).subset_of(
            family[y][x],
        ) && inner[y][x].subset_of(cell_domain(template[y][x], rules.tiles())) && occupied(
            inner[y][x],
        ) by {
            assert(template[y].len() == template[0].len());
            assert(family[y][x].subset_of(cell_domain(template[y][x], rules.tiles())));
            assert(occupied(family[y][x]));
            if both(family[y][x]) {
                assert(inner[y][x].contains(colour(cy, cx, u, y, x)));
            } else {
                let t = choose|t: int| family[y][x].contains(t);
                assert(inner[y][x].contains(t));
            }
        }
        assert(family_consistent(inner, rules, mask));
        assert(fits_template(inner, template, rules.tiles()));
        assert(family_alive(inner, template));
        assert(family_within(inner, family, template));
        assert(decides(inner, cy, cx, u)) by {
            assert forall|t: int| inner[cy][cx].contains(t) implies t == u by {
                if !both(family[cy][cx]) {
                    assert(family[cy][cx].contains(t));
                }
            }
        }
        assert(refines(inner, family, template, rules, cy, cx, u));
    }
}

/// In a family that is arc consistent in itself and lies within a board of
/// wildcards with a fixed corner, every cell holds at most the tile that
/// the colouring from the corner gives it.
proof fn lemma_corner_reaches(
    family: Seq<Seq<Set<int>>>,
    template: Seq<Seq<Cell>>,
    rules: Rules,
    a: usize,
    y: int,
    x: int,
)
    requires
        grid_shaped(template),
        alternating(rules),
        a < 2,
        template[0][0] == Cell::Fixed(a),
        forall|p: int, q: int|
            0 <= p < template.len() && 0 <= q < template[0].len() && !(p == 0 && q == 0)
                ==> #[trigger] template[p][q] == Cell::Wildcard,
        family_consistent(family, rules, holes(template)),
        fits_template(family, template, 2),
        0 <= y < template.len(),
        0 <= x < template[0].len(),
    ensures
        family[y][x].subset_of(set![colour(0, 0, a as int, y, x)]),
    decreases y + x,
{
    let mask = holes(template);
    assert(template[y].len() == template[0].len());
    assert(template[0].len() == template[0].len());
    assert(takes_part(template, y, x));
    assert(family[y][x].subset_of(cell_domain(template[y][x], 2)));
    if y == 0 && x == 0 {
    } else {
        let d = if x > 0 {
            Direction::West
        } else {
            Direction::North
        };
        let s = step(d, y, x);
        lemma_corner_reaches(family, template, rules, a, s.0, s.1);
        lemma_colour_step(0, 0, a as int, s.0, s.1, opposite_of(d));
        assert(template[s.0].len() == template[0].len());
        assert(takes_part(template, s.0, s.1));
        assert(linked(mask, y, x, d));
        lemma_int_range(0, 2);
        assert forall|t: int| family[y][x].contains(t) implies t == colour(
            0,
            0,
            a as int,
            y,
            x,
        ) by {
            assert(linked(mask, y, x, d) && family[y][x].contains(t));
            assert(supported(rules, t, d, family[s.0][s.1]));
            let v = choose|v: int|
                family[s.0][s.1].contains(v) && #[trigger] rules.allowed(t, d).contains(v);
            assert(v == 1 - t);
            assert(v == colour(0, 0, a as int, s.0, s.1));
        }
    }
}

/// Under alternating rules a board of wildcards with a fixed corner is
/// decided by setup: the solvers return the colouring from the corner and
/// draw nothing.
pub proof fn lemma_corner_decides(template: Seq<Seq<Cell>>, rules: Rules, a: usize)
    requires
        grid_shaped(template),
        alternating(rules),
        a < 2,
        template[0][0] == Cell::Fixed(a),
        forall|p: int, q: int|
            0 <= p < template.len() && 0 <= q < template[0].len() && !(p == 0 && q == 0)
                ==> #[trigger] template[p][q] == Cell::Wildcard,
    ensures
        forced(template, rules, colouring(template.len(), template[0].len(), 0, 0, a as int)),
        decided_by_setup(template, rules),
{
    let choice = colouring(template.len(), template[0].len(), 0, 0, a as int);
    assert(follows(template, 0, 0, a as int)) by {
        assert forall|y: int, x: int|
            0 <= y < template.len() && 0 <= x < template[0].len() implies (
        #[trigger] template[y][x] matches Cell::Fixed(i) ==> i == colour(0, 0, a as int, y, x)) by {
            if !(y == 0 && x == 0) {
                assert(template[y][x] == Cell::Wildcard);
            }
        }
    }
    lemma_colouring_is_viable(template, rules, 0, 0, a as int);
    assert forall|y: int, x: int| takes_part(template, y, x) implies cell_domain(
        template[y][x],
        rules.tiles(),
    ).contains(#[trigger] choice[y][x]) by {
        assert(template[y].len() == template[0].len());
        lemma_int_range(0, 2);
        if !(y == 0 && x == 0) {
            assert(template[y][x] == Cell::Wildcard);
        }
    }
    assert forall|family: Seq<Seq<Set<int>>>|
        family_consistent(family, rules, holes(template)) && #[trigger] fits_template(
            family,
            template,
            rules.tiles(),
        ) implies at_most(family, choice, template) by {
        assert forall|y: int, x: int| takes_part(template, y, x) implies (#[trigger] family[y][x]).subset_of(
            set![choice[y][x]],
        ) by {
            assert(template[y].len() == template[0].len());
            lemma_corner_reaches(family, template, rules, a, y, x);
        }
    }
    assert(forced(template, rules, choice));
}

} // verus!
