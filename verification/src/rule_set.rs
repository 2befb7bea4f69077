//! Adjacency rules written as lists: for every tile and every direction, the
//! tiles that may stand next to it on that side.

use crate::direction::{opposite_of, Direction};
use crate::error::{AtlasFault, WfcError};
use vstd::prelude::*;

verus! {

/// The neighbours one tile allows, one list per direction.
#[derive(Debug)]
pub struct Rule {
    pub north: Vec<usize>,
    pub east: Vec<usize>,
    pub south: Vec<usize>,
    pub west: Vec<usize>,
}

impl Rule {
    /// The list of tiles allowed on side `d`.
    pub open spec fn allowed(&self, d: Direction) -> Seq<usize> {
        match d {
            Direction::North => self.north@,
            Direction::East => self.east@,
            Direction::South => self.south@,
            Direction::West => self.west@,
        }
    }

    /// The number of entries over the four lists.
    pub open spec fn count(&self) -> nat {
        self.north@.len() + self.east@.len() + self.south@.len() + self.west@.len()
    }

    /// Whether every entry names a tile below `n`.
    pub open spec fn in_range(&self, n: nat) -> bool {
        forall|d: Direction, i: int|
            0 <= i < self.allowed(d).len() ==> (#[trigger] self.allowed(d)[i]) < n
    }

    pub fn new(north: Vec<usize>, east: Vec<usize>, south: Vec<usize>, west: Vec<usize>) -> (r:
        Self)
        ensures
            r.north == north,
            r.east == east,
            r.south == south,
            r.west == west,
    {
        Self { north, east, south, west }
    }

    /// The number of entries over the four lists.
    pub fn num_rules(&self) -> (r: usize)
        requires
            self.count() <= usize::MAX,
        ensures
            r == self.count(),
    {
        self.north.len() + self.east.len() + self.south.len() + self.west.len()
    }

    /// The list for one side.
    pub fn list(&self, d: Direction) -> (r: &Vec<usize>)
        ensures
            r@ == self.allowed(d),
    {
        match d {
            Direction::North => &self.north,
            Direction::East => &self.east,
            Direction::South => &self.south,
            Direction::West => &self.west,
        }
    }

    /// A copy with the same four lists.
    pub fn duplicate(&self) -> (r: Self)
        ensures
            forall|d: Direction| r.allowed(d) == self.allowed(d),
    {
        let r = Self {
            north: self.north.clone(),
            east: self.east.clone(),
            south: self.south.clone(),
            west: self.west.clone(),
        };
        assert forall|d: Direction| r.allowed(d) == self.allowed(d) by {
            assert(r.north@ =~= self.north@);
            assert(r.east@ =~= self.east@);
            assert(r.south@ =~= self.south@);
            assert(r.west@ =~= self.west@);
        }
        r
    }
}

/// Whether every entry of every rule names one of the `rules.len()` tiles.
pub open spec fn rules_in_range(rules: Seq<Rule>) -> bool {
    forall|t: int| 0 <= t < rules.len() ==> (#[trigger] rules[t]).in_range(rules.len())
}

/// Whether tile `t` keeps its word towards every neighbour it lists on side
/// `d`: each of them lists `t` on the opposite side.
pub open spec fn side_symmetric(rules: Seq<Rule>, t: int, d: Direction) -> bool {
    forall|i: int|
        0 <= i < rules[t].allowed(d).len() ==> rules[(#[trigger] rules[t].allowed(d)[i]) as int].allowed(
            opposite_of(d),
        ).contains(t as usize)
}

/// Whether the relation is symmetric: `u` is allowed on side `d` of `t`
/// only if `t` is allowed on the opposite side of `u`.
pub open spec fn rules_symmetric(rules: Seq<Rule>) -> bool {
    forall|t: int, d: Direction| 0 <= t < rules.len() ==> #[trigger] side_symmetric(rules, t, d)
}

/// The sum of the entry counts of the first `k` rules.
pub open spec fn total_count(rules: Seq<Rule>, k: int) -> nat
    decreases k,
{
    if k <= 0 {
        0
    } else {
        total_count(rules, k - 1) + rules[k - 1].count()
    }
}

/// A validated table of rules, one per tile.
#[derive(Debug)]
pub struct RuleSet {
    rules: Vec<Rule>,
}

/// Whether `list` holds `x`.
fn list_contains(list: &Vec<usize>, x: usize) -> (r: bool)
    ensures
        r == list@.contains(x),
{
    let mut i: usize = 0;
    while i < list.len()
        invariant
            i <= list.len(),
            forall|k: int| 0 <= k < i ==> list@[k] != x,
        decreases list.len() - i,
    {
        if list[i] == x {
            return true;
        }
        i += 1;
    }
    false
}

/// Whether every entry of `list` is below `n`.
fn list_below(list: &Vec<usize>, n: usize) -> (r: bool)
    ensures
        r == (forall|i: int| 0 <= i < list@.len() ==> list@[i] < n),
{
    let mut i: usize = 0;
    while i < list.len()
        invariant
            i <= list.len(),
            forall|k: int| 0 <= k < i ==> list@[k] < n,
        decreases list.len() - i,
    {
        if list[i] >= n {
            return false;
        }
        i += 1;
    }
    true
}

/// Whether every entry of the four lists of `rule` is below `n`.
fn rule_in_range(rule: &Rule, n: usize) -> (r: bool)
    ensures
        r == rule.in_range(n as nat),
{
    let ok = list_below(&rule.north, n) && list_below(&rule.east, n) && list_below(&rule.south, n)
        && list_below(&rule.west, n);
    proof {
        if ok {
            assert forall|d: Direction, i: int| 0 <= i < rule.allowed(d).len() implies (
            #[trigger] rule.allowed(d)[i]) < n by {}
        } else {
            if !(forall|i: int| 0 <= i < rule.north@.len() ==> rule.north@[i] < n) {
                let i = choose|i: int| 0 <= i < rule.north@.len() && !(rule.north@[i] < n);
                assert(rule.allowed(Direction::North)[i] >= n);
            } else if !(forall|i: int| 0 <= i < rule.east@.len() ==> rule.east@[i] < n) {
                let i = choose|i: int| 0 <= i < rule.east@.len() && !(rule.east@[i] < n);
                assert(rule.allowed(Direction::East)[i] >= n);
            } else if !(forall|i: int| 0 <= i < rule.south@.len() ==> rule.south@[i] < n) {
                let i = choose|i: int| 0 <= i < rule.south@.len() && !(rule.south@[i] < n);
                assert(rule.allowed(Direction::South)[i] >= n);
            } else {
                let i = choose|i: int| 0 <= i < rule.west@.len() && !(rule.west@[i] < n);
                assert(rule.allowed(Direction::West)[i] >= n);
            }
        }
    }
    ok
}

/// Whether tile `t` is listed back by every neighbour it lists on side `d`.
fn side_is_symmetric(rules: &Vec<Rule>, t: usize, d: Direction) -> (r: bool)
    requires
        t < rules.len(),
        rules_in_range(rules@),
    ensures
        r == side_symmetric(rules@, t as int, d),
{
    let list = rules[t].list(d);
    let back = d.opposite();
    let mut i: usize = 0;
    while i < list.len()
        invariant
            i <= list.len(),
            t < rules.len(),
            rules_in_range(rules@),
            list@ == rules@[t as int].allowed(d),
            back == opposite_of(d),
            forall|k: int|
                0 <= k < i ==> rules@[(#[trigger] rules@[t as int].allowed(d)[k]) as int].allowed(
                    opposite_of(d),
                ).contains(t),
        decreases list.len() - i,
    {
        let u = list[i];
        assert(rules@[t as int].in_range(rules@.len()));
        assert(rules@[t as int].allowed(d)[i as int] < rules@.len());
        if !list_contains(rules[u].list(back), t) {
            return false;
        }
        i += 1;
    }
    true
}

impl RuleSet {
    /// The rules, one per tile.
    pub closed spec fn view(&self) -> Seq<Rule> {
        self.rules@
    }

    /// What holds of every rule set that exists: it has a tile, every entry
    /// names a tile, and the relation is symmetric.
    pub open spec fn wf(&self) -> bool {
        &&& self@.len() > 0
        &&& rules_in_range(self@)
        &&& rules_symmetric(self@)
    }

    /// Validates a table of rules. It is refused if it is empty, if an
    /// entry names a tile that does not exist, or if some tile allows a
    /// neighbour that does not allow it back; in that order.
    pub fn new(rules: Vec<Rule>) -> (r: Result<Self, WfcError>)
        ensures
            match r {
                Ok(set) => set@ == rules@ && set.wf(),
                Err(e) => {
                    &&& e == WfcError::InvalidAtlas(AtlasFault::Empty) <==> rules@.len() == 0
                    &&& e == WfcError::InvalidAtlas(AtlasFault::IndexOutOfRange) <==> rules@.len()
                        > 0 && !rules_in_range(rules@)
                    &&& e == WfcError::InvalidAtlas(AtlasFault::Asymmetric) <==> rules@.len() > 0
                        && rules_in_range(rules@) && !rules_symmetric(rules@)
                    &&& e == WfcError::InvalidAtlas(AtlasFault::Empty) || e
                        == WfcError::InvalidAtlas(AtlasFault::IndexOutOfRange) || e
                        == WfcError::InvalidAtlas(AtlasFault::Asymmetric)
                },
            },
            r.is_ok() <==> rules@.len() > 0 && rules_in_range(rules@) && rules_symmetric(rules@),
    {
        let n = rules.len();
        if n == 0 {
            return Err(WfcError::InvalidAtlas(AtlasFault::Empty));
        }
        let mut t: usize = 0;
        while t < n
            invariant
                t <= n,
                n == rules.len(),
                forall|k: int| 0 <= k < t ==> (#[trigger] rules@[k]).in_range(n as nat),
            decreases n - t,
        {
            if !rule_in_range(&rules[t], n) {
                return Err(WfcError::InvalidAtlas(AtlasFault::IndexOutOfRange));
            }
            t += 1;
        }
        let mut t: usize = 0;
        while t < n
            invariant
                t <= n,
                n == rules.len(),
                rules_in_range(rules@),
                forall|k: int, d: Direction| 0 <= k < t ==> #[trigger] side_symmetric(rules@, k, d),
            decreases n - t,
        {
            let ok = side_is_symmetric(&rules, t, Direction::North) && side_is_symmetric(
                &rules,
                t,
                Direction::East,
            ) && side_is_symmetric(&rules, t, Direction::South) && side_is_symmetric(
                &rules,
                t,
                Direction::West,
            );
            if !ok {
                return Err(WfcError::InvalidAtlas(AtlasFault::Asymmetric));
            }
            assert forall|d: Direction| #[trigger] side_symmetric(rules@, t as int, d) by {
                match d {
                    Direction::North => {},
                    Direction::East => {},
                    Direction::South => {},
                    Direction::West => {},
                }
            }
            t += 1;
        }
        Ok(Self { rules })
    }

    /// The rule of one tile.
    pub fn rule(&self, tile: usize) -> (r: &Rule)
        requires
            tile < self@.len(),
        ensures
            *r == self@[tile as int],
    {
        &self.rules[tile]
    }

    /// The number of tiles.
    pub fn num_tiles(&self) -> (r: usize)
        ensures
            r == self@.len(),
    {
        self.rules.len()
    }

    /// The number of entries over all rules.
    pub fn num_rules(&self) -> (r: usize)
        requires
            total_count(self@, self@.len() as int) <= usize::MAX,
        ensures
            r == total_count(self@, self@.len() as int),
    {
        let mut sum: usize = 0;
        let mut t: usize = 0;
        while t < self.rules.len()
            invariant
                t <= self.rules.len(),
                sum == total_count(self.rules@, t as int),
                total_count(self.rules@, self.rules@.len() as int) <= usize::MAX,
            decreases self.rules.len() - t,
        {
            proof {
                lemma_total_count_monotonic(self.rules@, t as int + 1, self.rules@.len() as int);
            }
            sum = sum + self.rules[t].num_rules();
            t += 1;
        }
        sum
    }

    /// The number of entries over all rules, or `None` where it does not
    /// fit a machine word.
    pub fn checked_num_rules(&self) -> (r: Option<usize>)
        ensures
            r matches Some(c) ==> c == total_count(self@, self@.len() as int),
            r.is_none() <==> total_count(self@, self@.len() as int) > usize::MAX,
    {
        let mut sum: usize = 0;
        let mut t: usize = 0;
        while t < self.rules.len()
            invariant
                t <= self.rules.len(),
                self@ == self.rules@,
                sum == total_count(self.rules@, t as int),
            decreases self.rules.len() - t,
        {
            let rule = &self.rules[t];
            let north: usize = rule.north.len();
            let east: usize = rule.east.len();
            let south: usize = rule.south.len();
            let west: usize = rule.west.len();
            proof {
                lemma_total_count_monotonic(self.rules@, t as int + 1, self.rules@.len() as int);
            }
            if north > usize::MAX - east {
                return None;
            }
            let upper: usize = north + east;
            if south > usize::MAX - west {
                return None;
            }
            let lower: usize = south + west;
            if upper > usize::MAX - lower {
                return None;
            }
            let count: usize = upper + lower;
            if sum > usize::MAX - count {
                return None;
            }
            sum = sum + count;
            t += 1;
        }
        Some(sum)
    }
}

/// The running total never shrinks as more rules are counted.
pub proof fn lemma_total_count_monotonic(rules: Seq<Rule>, i: int, j: int)
    requires
        0 <= i <= j,
    ensures
        total_count(rules, i) <= total_count(rules, j),
    decreases j - i,
{
    if i < j {
        lemma_total_count_monotonic(rules, i, j - 1);
    }
}

/// In a validated rule set, `u` may stand on side `d` of `t` exactly when
/// `t` may stand on the opposite side of `u`.
pub proof fn lemma_rule_set_symmetry(set: &RuleSet, t: usize, u: usize, d: Direction)
    requires
        set.wf(),
        t < set@.len(),
        u < set@.len(),
    ensures
        set@[t as int].allowed(d).contains(u) <==> set@[u as int].allowed(opposite_of(d)).contains(
            t,
        ),
{
    let rules = set@;
    if rules[t as int].allowed(d).contains(u) {
        assert(side_symmetric(rules, t as int, d));
        let i = choose|i: int|
            0 <= i < rules[t as int].allowed(d).len() && rules[t as int].allowed(d)[i] == u;
        assert(rules[rules[t as int].allowed(d)[i] as int].allowed(opposite_of(d)).contains(t));
    }
    if rules[u as int].allowed(opposite_of(d)).contains(t) {
        let o = opposite_of(d);
        assert(side_symmetric(rules, u as int, o));
        let i = choose|i: int|
            0 <= i < rules[u as int].allowed(o).len() && rules[u as int].allowed(o)[i] == t;
        assert(rules[rules[u as int].allowed(o)[i] as int].allowed(opposite_of(o)).contains(u));
        assert(opposite_of(o) == d);
    }
}

} // verus!
