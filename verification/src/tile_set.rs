//! A plain set of patches without counts, and the rules in list form that
//! can be read off it.

use crate::direction::{opposite_of, Direction};
use crate::error::{AtlasFault, WfcError};
use crate::image::{picture_shaped, turned_rows, Image, Pixel, Transformation};
use crate::rule_set::{rules_in_range, rules_symmetric, side_symmetric, Rule, RuleSet};
use crate::tileset_builder::{
    absorb, absorb_image, cut_fault, meets, pictures, tally_wf, Tally, TilesetBuilder,
};
use vstd::prelude::*;

verus! {

/// The tally after the first `k` patches of `tiles` have been taken, each
/// followed by its images under the transformations other than the
/// identity, in their order.
pub open spec fn absorb_variants(
    tally: Option<Tally>,
    tiles: Seq<Seq<Seq<Pixel>>>,
    transforms: Seq<Transformation>,
    k: int,
) -> Option<Tally>
    decreases k,
{
    if k <= 0 {
        tally
    } else {
        match absorb_variants(tally, tiles, transforms, k - 1) {
            Some(t) => match absorb(t, tiles[k - 1]) {
                Some(with_tile) => absorb_others(
                    Some(with_tile),
                    tiles[k - 1],
                    transforms,
                    transforms.len() as int,
                ),
                None => None,
            },
            None => None,
        }
    }
}

/// The tally after `patch` under the first `k` transformations, the
/// identity left out.
pub open spec fn absorb_others(
    tally: Option<Tally>,
    patch: Seq<Seq<Pixel>>,
    transforms: Seq<Transformation>,
    k: int,
) -> Option<Tally>
    decreases k,
{
    if k <= 0 {
        tally
    } else {
        match absorb_others(tally, patch, transforms, k - 1) {
            Some(t) => if transforms[k - 1] == Transformation::Identity {
                Some(t)
            } else {
                absorb(t, turned_rows(patch, transforms[k - 1]))
            },
            None => None,
        }
    }
}

/// The indices `u` below `k` of the patches that may stand on side `d` of
/// patch `t`, in rising order.
pub open spec fn fitting(
    patches: Seq<Seq<Seq<Pixel>>>,
    border: nat,
    t: int,
    d: Direction,
    k: int,
) -> Seq<usize>
    decreases k,
{
    if k <= 0 {
        Seq::<usize>::empty()
    } else if meets(patches, border, t, k - 1, d) {
        fitting(patches, border, t, d, k - 1).push((k - 1) as usize)
    } else {
        fitting(patches, border, t, d, k - 1)
    }
}

/// A set of patches.
pub struct TileSet {
    patches: TilesetBuilder,
}

impl TileSet {
    /// The side of the interior of a patch.
    pub closed spec fn interior(&self) -> nat {
        self.patches.interior()
    }

    /// The width of the border of a patch.
    pub closed spec fn border(&self) -> nat {
        self.patches.border()
    }

    /// The side of a patch.
    pub open spec fn side(&self) -> nat {
        self.interior() + 2 * self.border()
    }

    /// The patches with the number of times each was taken.
    pub closed spec fn tally(&self) -> Tally {
        self.patches.tally()
    }

    /// What holds of every set that exists: interior and border have a
    /// pixel, every patch is a square of the patch side, and no patch
    /// occurs twice.
    pub closed spec fn wf(&self) -> bool {
        self.patches.wf()
    }

    /// What well-formedness says of the patches.
    pub proof fn lemma_wf(&self)
        requires
            self.wf(),
        ensures
            self.interior() > 0,
            self.border() > 0,
            self.side() <= usize::MAX,
            tally_wf(self.tally(), self.side()),
    {
    }

    /// A set without patches; refused as [`TilesetBuilder::new`] refuses.
    pub fn new(tile_size: usize, border_size: usize) -> (r: Result<TileSet, WfcError>)
        ensures
            r.is_ok() <==> tile_size > 0 && border_size > 0 && tile_size + 2 * border_size
                <= usize::MAX,
            r matches Ok(set) ==> set.wf() && set.interior() == tile_size && set.border()
                == border_size && set.tally().0.len() == 0,
    {
        match TilesetBuilder::new(tile_size, border_size) {
            Ok(patches) => Ok(TileSet { patches }),
            Err(e) => Err(e),
        }
    }

    /// The number of patches.
    pub fn num_tiles(&self) -> (n: usize)
        ensures
            n == self.tally().0.len(),
    {
        self.patches.len()
    }

    /// The patches, in the order in which they were first seen.
    pub fn tiles(&self) -> (r: &Vec<Image>)
        ensures
            pictures(r@) == self.tally().0,
    {
        self.patches.tiles()
    }

    /// Cuts `map` into patches whose interiors tile it: patches of the
    /// patch side are cut every `tile_size` pixels, so that neighbouring
    /// patches share their borders, and every patch that is not yet in the
    /// set joins its end.
    pub fn ingest(self, map: &Image) -> (r: Result<TileSet, WfcError>)
        requires
            self.wf(),
            map.wf(),
        ensures
            match cut_fault(map.rows(), map.cols(), self.side(), 2 * self.border(), 1) {
                Some(e) => r == Err::<TileSet, WfcError>(e),
                None => match absorb_image(
                    self.tally(),
                    map@,
                    self.side(),
                    self.interior(),
                    seq![Transformation::Identity],
                ) {
                    Some(tally) => r matches Ok(set) && set.tally() == tally && set.wf()
                        && set.interior() == self.interior() && set.border() == self.border(),
                    None => r matches Err(e) && e == WfcError::InvalidAtlas(
                        AtlasFault::FrequencyOverflow,
                    ),
                },
            },
    {
        let border = self.patches.border_size();
        let only: Vec<Transformation> = vec![Transformation::Identity];
        proof {
            assert(only@ =~= seq![Transformation::Identity]);
        }
        match self.patches.add_tiles(map, 2 * border, &only) {
            Ok(patches) => Ok(TileSet { patches }),
            Err(e) => Err(e),
        }
    }

    /// The set with the images of its patches under the given
    /// transformations: the patches are gone through in their order, and
    /// each is followed by its images under the transformations other than
    /// the identity; whatever is already in the new set is left out.
    pub fn with_transformations(self, transformations: &Vec<Transformation>) -> (r: Result<
        TileSet,
        WfcError,
    >)
        requires
            self.wf(),
        ensures
            match absorb_variants(
                Some((Seq::<Seq<Seq<Pixel>>>::empty(), Seq::<usize>::empty())),
                self.tally().0,
                transformations@,
                self.tally().0.len() as int,
            ) {
                Some(tally) => r matches Ok(set) && set.tally() == tally && set.wf()
                    && set.interior() == self.interior() && set.border() == self.border(),
                None => r matches Err(e) && e == WfcError::InvalidAtlas(
                    AtlasFault::FrequencyOverflow,
                ),
            },
    {
        let interior = self.patches.interior_size();
        let border = self.patches.border_size();
        let mut fresh = match TilesetBuilder::new(interior, border) {
            Ok(fresh) => fresh,
            Err(e) => {
                proof {
                    assert(false);
                }
                return Err(e);
            },
        };
        let ghost start: Option<Tally> = Some(
            (Seq::<Seq<Seq<Pixel>>>::empty(), Seq::<usize>::empty()),
        );
        let ghost old_tiles = self.tally().0;
        let ghost turns = transformations@;
        proof {
            assert(fresh.tally().0 =~= Seq::<Seq<Seq<Pixel>>>::empty());
            assert(fresh.tally().1 =~= Seq::<usize>::empty());
        }
        let tiles = self.patches.tiles();
        let mut i: usize = 0;
        while i < tiles.len()
            invariant
                i <= tiles@.len(),
                self.wf(),
                fresh.wf(),
                fresh.interior() == self.interior(),
                fresh.border() == self.border(),
                old_tiles == self.tally().0,
                pictures(tiles@) == old_tiles,
                turns == transformations@,
                start == Some((Seq::<Seq<Seq<Pixel>>>::empty(), Seq::<usize>::empty())),
                absorb_variants(start, old_tiles, turns, i as int) == Some(fresh.tally()),
            decreases tiles.len() - i,
        {
            proof {
                assert(old_tiles[i as int] == tiles@[i as int]@);
                assert(picture_shaped(old_tiles[i as int]));
            }
            let ghost before = Some(fresh.tally());
            match fresh.take(tiles[i].duplicate()) {
                Ok(()) => {},
                Err(e) => {
                    proof {
                        assert(absorb(before.unwrap(), old_tiles[i as int]) is None);
                        assert(absorb_variants(start, old_tiles, turns, i as int + 1) is None);
                        lemma_variants_none(
                            start,
                            old_tiles,
                            turns,
                            i as int + 1,
                            old_tiles.len() as int,
                        );
                    }
                    return Err(e);
                },
            }
            let ghost with_tile = Some(fresh.tally());
            let mut k: usize = 0;
            while k < transformations.len()
                invariant
                    k <= transformations.len(),
                    i < tiles@.len(),
                    self.wf(),
                    fresh.wf(),
                    fresh.interior() == self.interior(),
                    fresh.border() == self.border(),
                    old_tiles == self.tally().0,
                    pictures(tiles@) == old_tiles,
                    picture_shaped(old_tiles[i as int]),
                    old_tiles[i as int] == tiles@[i as int]@,
                    turns == transformations@,
                    start == Some((Seq::<Seq<Seq<Pixel>>>::empty(), Seq::<usize>::empty())),
                    before == absorb_variants(start, old_tiles, turns, i as int),
                    before matches Some(t) && with_tile == absorb(t, old_tiles[i as int]),
                    absorb_others(with_tile, old_tiles[i as int], turns, k as int) == Some(
                        fresh.tally(),
                    ),
                decreases transformations.len() - k,
            {
                let how = transformations[k];
                if how != Transformation::Identity {
                    let turned = tiles[i].transform(how);
                    match fresh.take(turned) {
                        Ok(()) => {},
                        Err(e) => {
                            proof {
                                assert(absorb_others(
                                    with_tile,
                                    old_tiles[i as int],
                                    turns,
                                    k as int + 1,
                                ) is None);
                                lemma_others_none(
                                    with_tile,
                                    old_tiles[i as int],
                                    turns,
                                    k as int + 1,
                                    turns.len() as int,
                                );
                                assert(absorb_variants(start, old_tiles, turns, i as int + 1) is None);
                                lemma_variants_none(
                                    start,
                                    old_tiles,
                                    turns,
                                    i as int + 1,
                                    old_tiles.len() as int,
                                );
                            }
                            return Err(e);
                        },
                    }
                }
                k += 1;
            }
            i += 1;
        }
        Ok(TileSet { patches: fresh })
    }

    /// The rules of the set in list form: for every patch and every
    /// direction, the patches that may stand on that side, in rising
    /// order. A patch may stand on side `d` of another exactly when the
    /// border of the other on side `d` has the pixels of its border on the
    /// opposite side. A set without patches has no rules.
    pub fn generate_rules(&self) -> (r: Result<RuleSet, WfcError>)
        requires
            self.wf(),
        ensures
            r.is_ok() <==> self.tally().0.len() > 0,
            r matches Err(e) ==> e == WfcError::InvalidAtlas(AtlasFault::Empty),
            r matches Ok(set) ==> set.wf() && set@.len() == self.tally().0.len() && forall|
                t: int,
                d: Direction,
            |
                0 <= t < set@.len() ==> #[trigger] set@[t].allowed(d) == fitting(
                    self.tally().0,
                    self.border(),
                    t,
                    d,
                    set@.len() as int,
                ),
    {
        let tiles = self.patches.tiles();
        let border = self.patches.border_size();
        let n = tiles.len();
        let ghost patches = self.tally().0;
        let mut rules: Vec<Rule> = Vec::new();
        let mut t: usize = 0;
        while t < n
            invariant
                t <= n,
                n == tiles@.len(),
                self.wf(),
                border == self.border(),
                patches == self.tally().0,
                pictures(tiles@) == patches,
                rules@.len() == t,
                forall|i: int, d: Direction|
                    0 <= i < t ==> #[trigger] rules@[i].allowed(d) == fitting(
                        patches,
                        border as nat,
                        i,
                        d,
                        n as int,
                    ),
            decreases n - t,
        {
            let north = self.fitting_on(t, Direction::North);
            let east = self.fitting_on(t, Direction::East);
            let south = self.fitting_on(t, Direction::South);
            let west = self.fitting_on(t, Direction::West);
            let rule = Rule::new(north, east, south, west);
            rules.push(rule);
            proof {
                assert forall|i: int, d: Direction| 0 <= i < t + 1 implies #[trigger] rules@[i].allowed(
                    d,
                ) == fitting(patches, border as nat, i, d, n as int) by {
                    if i == t {
                        match d {
                            Direction::North => {},
                            Direction::East => {},
                            Direction::South => {},
                            Direction::West => {},
                        }
                    }
                }
            }
            t += 1;
        }
        proof {
            assert forall|i: int| 0 <= i < rules@.len() implies (#[trigger] rules@[i]).in_range(
                rules@.len(),
            ) by {
                assert forall|d: Direction, k: int|
                    0 <= k < rules@[i].allowed(d).len() implies (#[trigger] rules@[i].allowed(
                    d,
                )[k]) < rules@.len() by {
                    lemma_fitting(patches, border as nat, i, d, n as int);
                }
            }
            assert(rules_in_range(rules@));
            assert forall|i: int, d: Direction| 0 <= i < rules@.len() implies #[trigger] side_symmetric(
                rules@,
                i,
                d,
            ) by {
                assert forall|k: int| 0 <= k < rules@[i].allowed(d).len() implies rules@[(
                #[trigger] rules@[i].allowed(d)[k]) as int].allowed(opposite_of(d)).contains(
                    i as usize,
                ) by {
                    lemma_fitting(patches, border as nat, i, d, n as int);
                    let u = rules@[i].allowed(d)[k] as int;
                    assert(meets(patches, border as nat, i, u, d));
                    assert(meets(patches, border as nat, u, i, opposite_of(d)));
                    lemma_fitting(patches, border as nat, u, opposite_of(d), n as int);
                }
            }
            assert(rules_symmetric(rules@));
        }
        RuleSet::new(rules)
    }

    /// The patches that may stand on side `d` of patch `t`, in rising
    /// order.
    fn fitting_on(&self, t: usize, d: Direction) -> (list: Vec<usize>)
        requires
            self.wf(),
            t < self.tally().0.len(),
        ensures
            list@ == fitting(
                self.tally().0,
                self.border(),
                t as int,
                d,
                self.tally().0.len() as int,
            ),
    {
        let tiles = self.patches.tiles();
        let border = self.patches.border_size();
        let ghost patches = self.tally().0;
        let mut list: Vec<usize> = Vec::new();
        let mut u: usize = 0;
        while u < tiles.len()
            invariant
                u <= tiles@.len(),
                t < tiles@.len(),
                self.wf(),
                border == self.border(),
                patches == self.tally().0,
                pictures(tiles@) == patches,
                list@ == fitting(patches, border as nat, t as int, d, u as int),
            decreases tiles.len() - u,
        {
            proof {
                assert(picture_shaped(patches[t as int]));
                assert(picture_shaped(patches[u as int]));
                assert(patches[t as int] == tiles@[t as int]@);
                assert(patches[u as int] == tiles@[u as int]@);
            }
            if tiles[t].border_meets(d, border, &tiles[u]) {
                list.push(u);
            }
            u += 1;
        }
        list
    }
}

/// What is in a list of fitting patches: exactly the patches below `k`
/// that meet the border.
pub proof fn lemma_fitting(patches: Seq<Seq<Seq<Pixel>>>, border: nat, t: int, d: Direction, k: int)
    requires
        0 <= k <= usize::MAX,
    ensures
        forall|i: int|
            0 <= i < fitting(patches, border, t, d, k).len() ==> 0 <= (#[trigger] fitting(
                patches,
                border,
                t,
                d,
                k,
            )[i]) < k && meets(patches, border, t, fitting(patches, border, t, d, k)[i] as int, d),
        forall|u: int|
            0 <= u < k && meets(patches, border, t, u, d) ==> fitting(
                patches,
                border,
                t,
                d,
                k,
            ).contains(u as usize),
    decreases k,
{
    if k > 0 {
        lemma_fitting(patches, border, t, d, k - 1);
        let shorter = fitting(patches, border, t, d, k - 1);
        let list = fitting(patches, border, t, d, k);
        assert forall|u: int| 0 <= u < k && meets(patches, border, t, u, d) implies list.contains(
            u as usize,
        ) by {
            if u < k - 1 {
                let i = choose|i: int| 0 <= i < shorter.len() && shorter[i] == u as usize;
                assert(list[i] == u as usize);
            } else {
                assert(list[shorter.len() as int] == u as usize);
            }
        }
    }
}

/// No tally after `i` patches means no tally after `j >= i`.
pub proof fn lemma_variants_none(
    tally: Option<Tally>,
    tiles: Seq<Seq<Seq<Pixel>>>,
    turns: Seq<Transformation>,
    i: int,
    j: int,
)
    requires
        0 <= i <= j,
        absorb_variants(tally, tiles, turns, i) is None,
    ensures
        absorb_variants(tally, tiles, turns, j) is None,
    decreases j - i,
{
    if i < j {
        lemma_variants_none(tally, tiles, turns, i, j - 1);
    }
}

/// No tally after `i` transformations means no tally after `j >= i`.
pub proof fn lemma_others_none(
    tally: Option<Tally>,
    patch: Seq<Seq<Pixel>>,
    turns: Seq<Transformation>,
    i: int,
    j: int,
)
    requires
        0 <= i <= j,
        absorb_others(tally, patch, turns, i) is None,
    ensures
        absorb_others(tally, patch, turns, j) is None,
    decreases j - i,
{
    if i < j {
        lemma_others_none(tally, patch, turns, i, j - 1);
    }
}

} // verus!
