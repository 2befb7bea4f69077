//! The adjacency rules in the form the solver reads: for every tile and
//! every direction a bit set of the tiles allowed on that side, and the
//! frequency of every tile.

use crate::adjacency::{adjacent, AXIS_EAST, AXIS_NORTH};
use crate::bitset::{
    bits_of, bitset_contains, bitset_insert, bitset_wf, bitset_with_capacity, capacity_of,
};
use crate::direction::{index_of, opposite_of, Direction};
use crate::error::{AtlasFault, WfcError};
use crate::grid::{adjacency_square, Adjacency};
use fixedbitset::FixedBitSet;
use vstd::prelude::*;

verus! {

/// The sum of the first `k` entries of `values`.
pub open spec fn sum_to(values: Seq<usize>, k: int) -> nat
    decreases k,
{
    if k <= 0 {
        0
    } else {
        sum_to(values, k - 1) + values[k - 1] as nat
    }
}

/// The sum of all entries of `values`.
pub open spec fn sum_of(values: Seq<usize>) -> nat {
    sum_to(values, values.len() as int)
}

/// Whether every entry of `values` is positive.
pub open spec fn all_positive(values: Seq<usize>) -> bool {
    forall|i: int| 0 <= i < values.len() ==> #[trigger] values[i] > 0
}

/// The partial sums of a sequence never shrink.
pub proof fn lemma_sum_to_monotonic(values: Seq<usize>, i: int, j: int)
    requires
        0 <= i <= j,
    ensures
        sum_to(values, i) <= sum_to(values, j),
    decreases j - i,
{
    if i < j {
        lemma_sum_to_monotonic(values, i, j - 1);
    }
}

/// The sum of the first `k` entries does not depend on later entries.
pub proof fn lemma_sum_to_prefix(a: Seq<usize>, b: Seq<usize>, k: int)
    requires
        0 <= k <= a.len(),
        k <= b.len(),
        forall|i: int| 0 <= i < k ==> a[i] == b[i],
    ensures
        sum_to(a, k) == sum_to(b, k),
    decreases k,
{
    if k > 0 {
        lemma_sum_to_prefix(a, b, k - 1);
    }
}

/// One more entry adds itself to the sum.
pub proof fn lemma_sum_push(values: Seq<usize>, value: usize)
    ensures
        sum_of(values.push(value)) == sum_of(values) + value,
{
    lemma_sum_to_prefix(values, values.push(value), values.len() as int);
}

/// Replacing an entry changes the sum by the difference.
pub proof fn lemma_sum_update(values: Seq<usize>, i: int, value: usize, k: int)
    requires
        0 <= i < values.len(),
        0 <= k <= values.len(),
    ensures
        k <= i ==> sum_to(values.update(i, value), k) == sum_to(values, k),
        k > i ==> sum_to(values.update(i, value), k) == sum_to(values, k) - values[i] + value,
    decreases k,
{
    if k > 0 {
        lemma_sum_update(values, i, value, k - 1);
    }
}

/// Where every entry is at least one and the sum is the number of entries,
/// every entry is one.
pub proof fn lemma_all_ones(values: Seq<usize>, k: int)
    requires
        0 <= k <= values.len(),
        forall|i: int| 0 <= i < values.len() ==> #[trigger] values[i] >= 1,
    ensures
        sum_to(values, k) >= k,
        sum_to(values, k) == k ==> forall|i: int| 0 <= i < k ==> #[trigger] values[i] == 1,
    decreases k,
{
    if k > 0 {
        lemma_all_ones(values, k - 1);
        assert(values[k - 1] >= 1);
    }
}

/// The rules of an atlas.
pub struct Rules {
    masks: Vec<[FixedBitSet; 4]>,
    frequencies: Vec<usize>,
}

impl Rules {
    /// The number of tiles.
    pub closed spec fn tiles(&self) -> nat {
        self.frequencies@.len()
    }

    /// The frequency of every tile.
    pub closed spec fn weights(&self) -> Seq<usize> {
        self.frequencies@
    }

    /// The tiles allowed on side `d` of tile `t`.
    pub closed spec fn allowed(&self, t: int, d: Direction) -> Set<int> {
        bits_of(self.masks@[t]@[index_of(d)])
    }

    /// What the stored bit sets must satisfy.
    pub closed spec fn repr_ok(&self) -> bool {
        &&& self.masks@.len() == self.frequencies@.len()
        &&& forall|t: int, k: int|
            0 <= t < self.masks@.len() && 0 <= k < 4 ==> bitset_wf(
                #[trigger] self.masks@[t]@[k],
            ) && capacity_of(self.masks@[t]@[k]) == self.frequencies@.len()
    }

    /// What holds of every rule table that exists: there is a tile; every
    /// allowed neighbour is a tile; a tile is allowed on one side of
    /// another exactly when that one is allowed on the opposite side of it;
    /// every frequency is positive and their sum fits a machine word.
    pub open spec fn wf(&self) -> bool {
        &&& self.repr_ok()
        &&& 0 < self.tiles() < usize::MAX
        &&& self.weights().len() == self.tiles()
        &&& all_positive(self.weights())
        &&& sum_of(self.weights()) <= usize::MAX
        &&& forall|t: int, d: Direction, u: int|
            0 <= t < self.tiles() && #[trigger] self.allowed(t, d).contains(u) ==> 0 <= u
                < self.tiles()
        &&& forall|t: int, d: Direction, u: int|
            0 <= t < self.tiles() && 0 <= u < self.tiles() ==> (#[trigger] self.allowed(
                t,
                d,
            ).contains(u) <==> self.allowed(u, opposite_of(d)).contains(t))
    }

    /// Builds the rules from an adjacency table and the frequencies.
    ///
    /// The table says for every ordered pair of tiles whether the second
    /// may stand east and north of the first; west and south follow by
    /// symmetry. The input is refused if there is no tile, if there are as
    /// many tiles as a machine word can count, if the table is not `n` by
    /// `n` by two for `n` frequencies, if a frequency is zero, or if the
    /// frequencies add up to more than a machine word holds; in that
    /// order.
    pub fn new(adjacency: &Adjacency, frequencies: Vec<usize>) -> (r: Result<Rules, WfcError>)
        ensures
            match r {
                Ok(rules) => {
                    &&& rules.wf()
                    &&& rules.tiles() == frequencies@.len()
                    &&& rules.weights() == frequencies@
                    &&& forall|t: int, u: int, d: Direction|
                        0 <= t < rules.tiles() && 0 <= u < rules.tiles() ==> (
                        #[trigger] rules.allowed(t, d).contains(u) <==> adjacent(
                            adjacency@,
                            t,
                            u,
                            d,
                        ))
                },
                Err(e) => e == rules_fault(adjacency@, frequencies@).unwrap(),
            },
            r.is_ok() <==> rules_fault(adjacency@, frequencies@).is_none(),
    {
        let n = frequencies.len();
        if n == 0 {
            return Err(WfcError::InvalidAtlas(AtlasFault::Empty));
        }
        if n == usize::MAX {
            return Err(WfcError::InvalidAtlas(AtlasFault::TooLarge));
        }
        if !(adjacency.is_square() && adjacency.len() == n) {
            return Err(WfcError::InvalidAtlas(AtlasFault::ShapeMismatch));
        }
        let mut k: usize = 0;
        while k < n
            invariant
                k <= n,
                n == frequencies@.len(),
                n < usize::MAX,
                adjacency_square(adjacency@, n as nat),
                forall|i: int| 0 <= i < k ==> #[trigger] frequencies@[i] > 0,
            decreases n - k,
        {
            if frequencies[k] == 0 {
                assert(!(frequencies@[k as int] > 0));
                return Err(WfcError::InvalidAtlas(AtlasFault::ZeroFrequency));
            }
            k += 1;
        }
        let mut total: usize = 0;
        let mut k: usize = 0;
        while k < n
            invariant
                k <= n,
                n == frequencies@.len(),
                0 < n < usize::MAX,
                adjacency_square(adjacency@, n as nat),
                all_positive(frequencies@),
                total == sum_to(frequencies@, k as int),
            decreases n - k,
        {
            let f = frequencies[k];
            if f > usize::MAX - total {
                proof {
                    lemma_sum_to_monotonic(frequencies@, k as int + 1, n as int);
                }
                return Err(WfcError::InvalidAtlas(AtlasFault::FrequencyOverflow));
            }
            total = total + f;
            k += 1;
        }
        let mut masks: Vec<[FixedBitSet; 4]> = Vec::new();
        let mut j: usize = 0;
        while j < n
            invariant
                j <= n,
                n == frequencies@.len(),
                0 < n < usize::MAX,
                all_positive(frequencies@),
                sum_of(frequencies@) <= usize::MAX,
                adjacency.wf(),
                adjacency.tiles() == n,
                masks@.len() == j,
                forall|t: int, k: int|
                    0 <= t < j && 0 <= k < 4 ==> bitset_wf(#[trigger] masks@[t]@[k]) && capacity_of(
                        masks@[t]@[k],
                    ) == n,
                forall|t: int, u: int, d: Direction|
                    0 <= t < j ==> (#[trigger] bits_of(masks@[t]@[index_of(d)]).contains(u) <==> 0
                        <= u < n && adjacent(adjacency@, t, u, d)),
            decreases n - j,
        {
            let mut north = bitset_with_capacity(n);
            let mut east = bitset_with_capacity(n);
            let mut south = bitset_with_capacity(n);
            let mut west = bitset_with_capacity(n);
            let mut i: usize = 0;
            while i < n
                invariant
                    i <= n,
                    j < n,
                    adjacency.wf(),
                    adjacency.tiles() == n,
                    capacity_of(north) == n,
                    capacity_of(east) == n,
                    capacity_of(south) == n,
                    capacity_of(west) == n,
                    bits_of(north).finite(),
                    bits_of(east).finite(),
                    bits_of(south).finite(),
                    bits_of(west).finite(),
                    forall|u: int|
                        bits_of(north).contains(u) <==> 0 <= u < i && adjacent(
                            adjacency@,
                            j as int,
                            u,
                            Direction::North,
                        ),
                    forall|u: int|
                        bits_of(east).contains(u) <==> 0 <= u < i && adjacent(
                            adjacency@,
                            j as int,
                            u,
                            Direction::East,
                        ),
                    forall|u: int|
                        bits_of(south).contains(u) <==> 0 <= u < i && adjacent(
                            adjacency@,
                            j as int,
                            u,
                            Direction::South,
                        ),
                    forall|u: int|
                        bits_of(west).contains(u) <==> 0 <= u < i && adjacent(
                            adjacency@,
                            j as int,
                            u,
                            Direction::West,
                        ),
                decreases n - i,
            {
                if adjacency.get(j, i, AXIS_NORTH) {
                    bitset_insert(&mut north, i);
                }
                if adjacency.get(j, i, AXIS_EAST) {
                    bitset_insert(&mut east, i);
                }
                if adjacency.get(i, j, AXIS_NORTH) {
                    bitset_insert(&mut south, i);
                }
                if adjacency.get(i, j, AXIS_EAST) {
                    bitset_insert(&mut west, i);
                }
                i += 1;
            }
            let entry = [north, east, south, west];
            masks.push(entry);
            proof {
                assert forall|t: int, u: int, d: Direction| 0 <= t < j + 1 implies (
                #[trigger] bits_of(masks@[t]@[index_of(d)]).contains(u) <==> 0 <= u < n
                    && adjacent(adjacency@, t, u, d)) by {
                    if t == j {
                        match d {
                            Direction::North => {},
                            Direction::East => {},
                            Direction::South => {},
                            Direction::West => {},
                        }
                    }
                }
            }
            j += 1;
        }
        let rules = Rules { masks, frequencies };
        proof {
            assert forall|t: int, d: Direction, u: int|
                0 <= t < rules.tiles() && 0 <= u < rules.tiles() implies (
            #[trigger] rules.allowed(t, d).contains(u) <==> rules.allowed(
                u,
                opposite_of(d),
            ).contains(t)) by {
                assert(bits_of(rules.masks@[t]@[index_of(d)]).contains(u) <==> adjacent(
                    adjacency@,
                    t,
                    u,
                    d,
                ));
                assert(bits_of(rules.masks@[u]@[index_of(opposite_of(d))]).contains(t)
                    <==> adjacent(adjacency@, u, t, opposite_of(d)));
            }
        }
        Ok(rules)
    }

    /// The number of tiles.
    pub fn len(&self) -> (n: usize)
        ensures
            n == self.tiles(),
    {
        self.frequencies.len()
    }

    /// The bit set of the tiles allowed on side `d` of tile `t`.
    pub fn mask(&self, t: usize, d: Direction) -> (m: &FixedBitSet)
        requires
            self.wf(),
            t < self.tiles(),
        ensures
            bits_of(*m) == self.allowed(t as int, d),
            capacity_of(*m) == self.tiles(),
            bitset_wf(*m),
    {
        &self.masks[t][d.index()]
    }

    /// Whether tile `u` is allowed on side `d` of tile `t`.
    pub fn allows(&self, t: usize, d: Direction, u: usize) -> (r: bool)
        requires
            self.wf(),
            t < self.tiles(),
        ensures
            r == self.allowed(t as int, d).contains(u as int),
    {
        bitset_contains(self.mask(t, d), u)
    }

    /// The frequency of every tile.
    pub fn frequencies(&self) -> (f: &Vec<usize>)
        ensures
            f@ == self.weights(),
    {
        &self.frequencies
    }

    /// The largest frequency, or `None` for a table without tiles.
    pub fn max_frequency(&self) -> (r: Option<usize>)
        ensures
            self.weights().len() == 0 <==> r.is_none(),
            r matches Some(m) ==> self.weights().contains(m) && forall|i: int|
                0 <= i < self.weights().len() ==> self.weights()[i] <= m,
    {
        if self.frequencies.len() == 0 {
            return None;
        }
        let mut best: usize = self.frequencies[0];
        let mut i: usize = 1;
        while i < self.frequencies.len()
            invariant
                1 <= i <= self.frequencies@.len(),
                self.frequencies@.contains(best),
                forall|k: int| 0 <= k < i ==> self.frequencies@[k] <= best,
            decreases self.frequencies.len() - i,
        {
            if self.frequencies[i] > best {
                best = self.frequencies[i];
            }
            i += 1;
        }
        Some(best)
    }

    /// The adjacency table these rules were built from: for every ordered
    /// pair `(i, j)`, whether `j` is allowed east of `i` and whether `j` is
    /// allowed north of `i`.
    pub fn adjacency_matrix(&self) -> (r: Result<Adjacency, WfcError>)
        requires
            self.wf(),
        ensures
            match r {
                Ok(a) => {
                    &&& a.wf()
                    &&& a.tiles() == self.tiles()
                    &&& a@ == matrix_of(*self)
                },
                Err(e) => e == WfcError::InvalidAtlas(AtlasFault::TooLarge) && 2 * self.tiles()
                    * self.tiles() > isize::MAX,
            },
            r.is_ok() <==> 2 * self.tiles() * self.tiles() <= isize::MAX,
    {
        let n = self.len();
        let mut matrix = match Adjacency::new(n) {
            Ok(m) => m,
            Err(e) => {
                return Err(e);
            },
        };
        let mut i: usize = 0;
        while i < n
            invariant
                i <= n,
                n == self.tiles(),
                self.wf(),
                matrix.wf(),
                matrix.tiles() == n,
                forall|a: int, b: int|
                    0 <= a < i && 0 <= b < n ==> (#[trigger] matrix@[a][b])[0] == self.allowed(
                        a,
                        Direction::East,
                    ).contains(b) && matrix@[a][b][1] == self.allowed(a, Direction::North).contains(
                        b,
                    ),
            decreases n - i,
        {
            let mut j: usize = 0;
            while j < n
                invariant
                    j <= n,
                    i < n,
                    n == self.tiles(),
                    self.wf(),
                    matrix.wf(),
                    matrix.tiles() == n,
                    forall|a: int, b: int|
                        0 <= a < i && 0 <= b < n ==> (#[trigger] matrix@[a][b])[0] == self.allowed(
                            a,
                            Direction::East,
                        ).contains(b) && matrix@[a][b][1] == self.allowed(
                            a,
                            Direction::North,
                        ).contains(b),
                    forall|b: int|
                        0 <= b < j ==> (#[trigger] matrix@[i as int][b])[0] == self.allowed(
                            i as int,
                            Direction::East,
                        ).contains(b) && matrix@[i as int][b][1] == self.allowed(
                            i as int,
                            Direction::North,
                        ).contains(b),
                decreases n - j,
            {
                let east = self.allows(i, Direction::East, j);
                let north = self.allows(i, Direction::North, j);
                matrix.set(i, j, AXIS_EAST, east);
                matrix.set(i, j, AXIS_NORTH, north);
                j += 1;
            }
            i += 1;
        }
        proof {
            let want = matrix_of(*self);
            assert forall|a: int, b: int| 0 <= a < n && 0 <= b < n implies matrix@[a][b]
                =~= want[a][b] by {
                assert(matrix@[a][b].len() == 2);
                assert(matrix@[a][b][0] == want[a][b][0]);
            }
            assert forall|a: int| 0 <= a < n implies matrix@[a] =~= want[a] by {
                assert(matrix@[a].len() == n);
            }
            assert(matrix@ =~= want);
        }
        Ok(matrix)
    }
}

/// The reason for which an adjacency table and a list of frequencies make
/// no rules, or `None` where they do.
pub open spec fn rules_fault(table: Seq<Seq<Seq<bool>>>, frequencies: Seq<usize>) -> Option<
    WfcError,
> {
    if frequencies.len() == 0 {
        Some(WfcError::InvalidAtlas(AtlasFault::Empty))
    } else if frequencies.len() >= usize::MAX {
        Some(WfcError::InvalidAtlas(AtlasFault::TooLarge))
    } else if !adjacency_square(table, frequencies.len()) {
        Some(WfcError::InvalidAtlas(AtlasFault::ShapeMismatch))
    } else if !all_positive(frequencies) {
        Some(WfcError::InvalidAtlas(AtlasFault::ZeroFrequency))
    } else if sum_of(frequencies) > usize::MAX {
        Some(WfcError::InvalidAtlas(AtlasFault::FrequencyOverflow))
    } else {
        None
    }
}

/// The adjacency table of a rule table: for every ordered pair `(i, j)`
/// of tiles, whether `j` is allowed east of `i` and whether `j` is allowed
/// north of `i`.
pub open spec fn matrix_of(rules: Rules) -> Seq<Seq<Seq<bool>>> {
    Seq::new(
        rules.tiles(),
        |i: int|
            Seq::new(
                rules.tiles(),
                |j: int|
                    seq![
                        rules.allowed(i, Direction::East).contains(j),
                        rules.allowed(i, Direction::North).contains(j),
                    ],
            ),
    )
}

/// The adjacency table of a rule table says all the rule table says: a
/// tile is allowed on a side of another exactly when the table says so,
/// for the eastern and northern side directly and for the western and
/// southern side through the tile on the other end.
pub proof fn lemma_matrix_says_all(rules: &Rules, t: int, u: int, d: Direction)
    requires
        rules.wf(),
        0 <= t < rules.tiles(),
        0 <= u < rules.tiles(),
    ensures
        adjacent(matrix_of(*rules), t, u, d) == rules.allowed(t, d).contains(u),
{
    match d {
        Direction::North => {},
        Direction::East => {},
        Direction::South => {
            assert(rules.allowed(u, Direction::North).contains(t) <==> rules.allowed(
                t,
                opposite_of(Direction::North),
            ).contains(u));
        },
        Direction::West => {
            assert(rules.allowed(u, Direction::East).contains(t) <==> rules.allowed(
                t,
                opposite_of(Direction::East),
            ).contains(u));
        },
    }
}

/// Rules that are built from the adjacency table of a rule table have the
/// adjacency table they were built from: taking the table of rules and
/// building rules from it can be repeated without changing the table.
pub proof fn lemma_matrix_round_trip(first: &Rules, second: &Rules)
    requires
        first.wf(),
        second.wf(),
        second.tiles() == first.tiles(),
        forall|t: int, u: int, d: Direction|
            0 <= t < second.tiles() && 0 <= u < second.tiles() ==> (
            #[trigger] second.allowed(t, d).contains(u) <==> adjacent(matrix_of(*first), t, u, d)),
    ensures
        matrix_of(*second) == matrix_of(*first),
        forall|t: int, u: int, d: Direction|
            0 <= t < second.tiles() && 0 <= u < second.tiles() ==> (
            #[trigger] second.allowed(t, d).contains(u) <==> first.allowed(t, d).contains(u)),
{
    assert forall|t: int, u: int, d: Direction|
        0 <= t < second.tiles() && 0 <= u < second.tiles() implies (#[trigger] second.allowed(
        t,
        d,
    ).contains(u) <==> first.allowed(t, d).contains(u)) by {
        lemma_matrix_says_all(first, t, u, d);
    }
    assert forall|i: int, j: int| 0 <= i < first.tiles() && 0 <= j < first.tiles() implies matrix_of(
        *second,
    )[i][j] =~= matrix_of(*first)[i][j] by {
        assert(second.allowed(i, Direction::East).contains(j) <==> first.allowed(
            i,
            Direction::East,
        ).contains(j));
        assert(second.allowed(i, Direction::North).contains(j) <==> first.allowed(
            i,
            Direction::North,
        ).contains(j));
    }
    assert forall|i: int| 0 <= i < first.tiles() implies matrix_of(*second)[i] =~= matrix_of(
        *first,
    )[i] by {}
    assert(matrix_of(*second) =~= matrix_of(*first));
}

/// The symmetry of every rule table: tile `u` is allowed on side `d` of
/// tile `t` exactly when `t` is allowed on the opposite side of `u`.
pub proof fn lemma_rules_symmetric(rules: &Rules, t: int, u: int, d: Direction)
    requires
        rules.wf(),
        0 <= t < rules.tiles(),
        0 <= u < rules.tiles(),
    ensures
        rules.allowed(t, d).contains(u) <==> rules.allowed(u, opposite_of(d)).contains(t),
{
}

} // verus!
