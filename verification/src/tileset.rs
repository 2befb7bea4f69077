//! The atlas: the patches, how often each occurs, and the rules that say
//! which may stand next to which. An atlas does not change once it is
//! built.

use crate::adjacency::adjacent;
use crate::direction::Direction;
use crate::error::{ArgsFault, AtlasFault, WfcError};
use crate::image::{interior_of, picture_shaped, Image, Pixel};
use crate::manifest::{
    adjacency_in, counts_in, lemma_manifest_round_trip, manifest_ok, manifest_text, paths_in,
    Manifest,
};
use crate::rules::{lemma_matrix_round_trip, matrix_of, rules_fault, Rules};
use crate::text::{digit_count, digits_of, push_number, table_of};
use crate::tileset_builder::pictures;
use vstd::prelude::*;

verus! {

/// The pixel grids of a list of patches with their frequencies.
pub open spec fn patch_pictures(tiles: Seq<(Image, usize)>) -> Seq<Seq<Seq<Pixel>>> {
    Seq::new(tiles.len(), |i: int| tiles[i].0@)
}

/// The frequencies of a list of patches with their frequencies.
pub open spec fn patch_counts(tiles: Seq<(Image, usize)>) -> Seq<usize> {
    Seq::new(tiles.len(), |i: int| tiles[i].1)
}

/// Whether every picture is a square picture of side `side`.
pub open spec fn all_square(patches: Seq<Seq<Seq<Pixel>>>, side: nat) -> bool {
    forall|i: int|
        0 <= i < patches.len() ==> picture_shaped(#[trigger] patches[i]) && patches[i].len() == side
            && patches[i][0].len() == side
}

/// Why the parts of an atlas do not make an atlas, or `None` where they
/// do: an interior or a border without a pixel, a patch side that does not
/// fit a machine word, a number of patches other than the number of tiles
/// of the rules, a patch that is not a square of the patch side, or a
/// frequency other than that of the rules; in that order.
pub open spec fn atlas_fault(
    interior_size: nat,
    border_size: nat,
    patches: Seq<Seq<Seq<Pixel>>>,
    counts: Seq<usize>,
    rules: Rules,
) -> Option<WfcError> {
    if interior_size == 0 {
        Some(WfcError::InvalidArgs(ArgsFault::ZeroTileSize))
    } else if border_size == 0 {
        Some(WfcError::InvalidArgs(ArgsFault::ZeroBorderSize))
    } else if interior_size + 2 * border_size > usize::MAX {
        Some(WfcError::InvalidArgs(ArgsFault::TooLarge))
    } else if patches.len() != rules.tiles() {
        Some(WfcError::InvalidAtlas(AtlasFault::ShapeMismatch))
    } else if !all_square(patches, interior_size + 2 * border_size) {
        Some(WfcError::InvalidArgs(ArgsFault::ImageTooSmall))
    } else if counts != rules.weights() {
        Some(WfcError::InvalidAtlas(AtlasFault::ShapeMismatch))
    } else {
        None
    }
}

/// `count` zeros.
pub open spec fn zeros(count: nat) -> Seq<u8> {
    Seq::new(count, |i: int| 48u8)
}

/// The name of the picture file of the patch with the given index among
/// `count` patches: the index in decimal, with zeros before it so that it
/// is as wide as the largest index, and `.png` after it.
pub open spec fn file_name(index: nat, count: nat) -> Seq<u8> {
    let width = digits_of((count - 1) as nat).len();
    let digits = digits_of(index);
    let fill = if digits.len() < width {
        zeros((width - digits.len()) as nat)
    } else {
        zeros(0)
    };
    fill + digits + seq![46u8, 112u8, 110u8, 103u8]
}

/// The name of the picture file of the patch with the given index among
/// `count` patches.
pub fn patch_file_name(index: usize, count: usize) -> (name: Vec<u8>)
    requires
        index < count,
    ensures
        name@ == file_name(index as nat, count as nat),
{
    let width = digit_count(count - 1);
    let digits = digit_count(index);
    let mut name: Vec<u8> = Vec::new();
    let mut i: usize = digits;
    proof {
        assert(name@ =~= zeros(0));
    }
    while i < width
        invariant
            digits <= i,
            i <= width || i == digits,
            name@ == zeros((i - digits) as nat),
        decreases width - i,
    {
        name.push(48);
        proof {
            assert(name@ =~= zeros((i + 1 - digits) as nat));
        }
        i += 1;
    }
    let ghost padded = name@;
    push_number(index, &mut name);
    name.push(46);
    name.push(112);
    name.push(110);
    name.push(103);
    proof {
        if digits < width {
            assert(padded == zeros((width - digits) as nat));
        } else {
            assert(padded == zeros(0));
        }
        assert(name@ =~= file_name(index as nat, count as nat));
    }
    name
}

/// Why a manifest and the pictures of its patches make no atlas, or `None`
/// where they do: the manifest makes no rules, there is not one picture
/// per line of the manifest, the interior or the border has no pixel, the
/// patch side does not fit a machine word, or a picture is not a square of
/// the patch side; in that order.
pub open spec fn loading_fault(
    interior_size: nat,
    border_size: nat,
    patches: Seq<Seq<Seq<Pixel>>>,
    counts: Seq<usize>,
    table: Seq<Seq<Seq<bool>>>,
) -> Option<WfcError> {
    if rules_fault(table, counts).is_some() {
        rules_fault(table, counts)
    } else if patches.len() != counts.len() {
        Some(WfcError::InvalidAtlas(AtlasFault::ShapeMismatch))
    } else if interior_size == 0 {
        Some(WfcError::InvalidArgs(ArgsFault::ZeroTileSize))
    } else if border_size == 0 {
        Some(WfcError::InvalidArgs(ArgsFault::ZeroBorderSize))
    } else if interior_size + 2 * border_size > usize::MAX {
        Some(WfcError::InvalidArgs(ArgsFault::TooLarge))
    } else if !all_square(patches, interior_size + 2 * border_size) {
        Some(WfcError::InvalidArgs(ArgsFault::ImageTooSmall))
    } else {
        None
    }
}

/// An atlas.
pub struct Tileset {
    interior_size: usize,
    border_size: usize,
    tiles: Vec<(Image, usize)>,
    rules: Rules,
}

impl Tileset {
    /// The side of the interior of a patch.
    pub closed spec fn interior(&self) -> nat {
        self.interior_size as nat
    }

    /// The width of the border of a patch.
    pub closed spec fn border(&self) -> nat {
        self.border_size as nat
    }

    /// The side of a patch.
    pub open spec fn side(&self) -> nat {
        self.interior() + 2 * self.border()
    }

    /// The pixel grids of the patches.
    pub closed spec fn patches(&self) -> Seq<Seq<Seq<Pixel>>> {
        patch_pictures(self.tiles@)
    }

    /// The frequencies of the patches.
    pub closed spec fn counts(&self) -> Seq<usize> {
        patch_counts(self.tiles@)
    }

    /// The rules of the atlas.
    pub closed spec fn rule_table(&self) -> Rules {
        self.rules
    }

    /// What holds of every atlas that exists: interior and border have a
    /// pixel, the rules are in order and speak of as many tiles as there
    /// are patches, every patch is a square of the patch side, and the
    /// frequencies are those of the rules.
    pub open spec fn wf(&self) -> bool {
        &&& self.interior() > 0
        &&& self.border() > 0
        &&& self.side() <= usize::MAX
        &&& self.rule_table().wf()
        &&& self.patches().len() == self.rule_table().tiles()
        &&& self.counts() == self.rule_table().weights()
        &&& all_square(self.patches(), self.side())
    }

    /// Puts an atlas together from its parts.
    pub fn new(
        interior_size: usize,
        border_size: usize,
        tiles: Vec<(Image, usize)>,
        rules: Rules,
    ) -> (r: Result<Tileset, WfcError>)
        requires
            rules.wf(),
            forall|i: int| 0 <= i < tiles@.len() ==> (#[trigger] tiles@[i]).0.wf(),
        ensures
            match atlas_fault(
                interior_size as nat,
                border_size as nat,
                patch_pictures(tiles@),
                patch_counts(tiles@),
                rules,
            ) {
                Some(e) => r == Err::<Tileset, WfcError>(e),
                None => r matches Ok(atlas) && atlas.wf() && atlas.interior() == interior_size
                    && atlas.border() == border_size && atlas.patches() == patch_pictures(tiles@)
                    && atlas.counts() == patch_counts(tiles@) && atlas.rule_table() == rules,
            },
    {
        if interior_size == 0 {
            return Err(WfcError::InvalidArgs(ArgsFault::ZeroTileSize));
        }
        if border_size == 0 {
            return Err(WfcError::InvalidArgs(ArgsFault::ZeroBorderSize));
        }
        if border_size > (usize::MAX - interior_size) / 2 {
            return Err(WfcError::InvalidArgs(ArgsFault::TooLarge));
        }
        let side = interior_size + 2 * border_size;
        if tiles.len() != rules.len() {
            return Err(WfcError::InvalidAtlas(AtlasFault::ShapeMismatch));
        }
        let ghost patches = patch_pictures(tiles@);
        let mut i: usize = 0;
        while i < tiles.len()
            invariant
                i <= tiles.len(),
                interior_size > 0,
                border_size > 0,
                side == interior_size + 2 * border_size,
                tiles@.len() == rules.tiles(),
                patches == patch_pictures(tiles@),
                forall|k: int| 0 <= k < tiles@.len() ==> (#[trigger] tiles@[k]).0.wf(),
                forall|k: int|
                    0 <= k < i ==> picture_shaped(#[trigger] patches[k]) && patches[k].len() == side
                        && patches[k][0].len() == side,
            decreases tiles.len() - i,
        {
            assert(tiles@[i as int].0.wf());
            if tiles[i].0.height() != side || tiles[i].0.width() != side {
                proof {
                    assert(!(patches[i as int].len() == side && patches[i as int][0].len()
                        == side));
                }
                return Err(WfcError::InvalidArgs(ArgsFault::ImageTooSmall));
            }
            i += 1;
        }
        let weights = rules.frequencies();
        proof {
            assert(all_square(patches, side as nat));
        }
        let mut i: usize = 0;
        while i < tiles.len()
            invariant
                i <= tiles.len(),
                interior_size > 0,
                border_size > 0,
                side == interior_size + 2 * border_size,
                tiles@.len() == rules.tiles(),
                all_square(patch_pictures(tiles@), side as nat),
                weights@ == rules.weights(),
                weights@.len() == tiles@.len(),
                forall|k: int| 0 <= k < i ==> (#[trigger] tiles@[k]).1 == weights@[k],
            decreases tiles.len() - i,
        {
            if tiles[i].1 != weights[i] {
                proof {
                    assert(patch_counts(tiles@)[i as int] != rules.weights()[i as int]);
                }
                return Err(WfcError::InvalidAtlas(AtlasFault::ShapeMismatch));
            }
            i += 1;
        }
        proof {
            assert(patch_counts(tiles@) =~= rules.weights());
        }
        Ok(Tileset { interior_size, border_size, tiles, rules })
    }

    /// The side of the interior of a patch.
    pub fn interior_size(&self) -> (r: usize)
        ensures
            r == self.interior(),
    {
        self.interior_size
    }

    /// The width of the border of a patch.
    pub fn border_size(&self) -> (r: usize)
        ensures
            r == self.border(),
    {
        self.border_size
    }

    /// The number of patches.
    pub fn len(&self) -> (r: usize)
        ensures
            r == self.patches().len(),
    {
        self.tiles.len()
    }

    /// The patches with their frequencies.
    pub fn tiles(&self) -> (r: &Vec<(Image, usize)>)
        ensures
            patch_pictures(r@) == self.patches(),
            patch_counts(r@) == self.counts(),
    {
        &self.tiles
    }

    /// The frequencies of the patches.
    pub fn weights(&self) -> (r: Vec<usize>)
        ensures
            r@ == self.counts(),
    {
        let mut weights: Vec<usize> = Vec::new();
        let mut i: usize = 0;
        while i < self.tiles.len()
            invariant
                i <= self.tiles.len(),
                weights@.len() == i,
                forall|k: int| 0 <= k < i ==> #[trigger] weights@[k] == self.tiles@[k].1,
            decreases self.tiles.len() - i,
        {
            weights.push(self.tiles[i].1);
            i += 1;
        }
        proof {
            assert(weights@ =~= self.counts());
        }
        weights
    }

    /// The rules of the atlas.
    pub fn rules(&self) -> (r: &Rules)
        ensures
            *r == self.rule_table(),
    {
        &self.rules
    }

    /// The frequency of the patch with the given index.
    pub fn frequency(&self, index: usize) -> (r: usize)
        requires
            index < self.patches().len(),
        ensures
            r == self.counts()[index as int],
    {
        self.tiles[index].1
    }

    /// The largest frequency, or `None` for an atlas without patches.
    pub fn max_frequency(&self) -> (r: Option<usize>)
        ensures
            self.counts().len() == 0 <==> r.is_none(),
            r matches Some(m) ==> self.counts().contains(m) && forall|i: int|
                0 <= i < self.counts().len() ==> self.counts()[i] <= m,
    {
        if self.tiles.len() == 0 {
            return None;
        }
        let mut best: usize = self.tiles[0].1;
        let ghost mut at: int = 0;
        let mut i: usize = 1;
        while i < self.tiles.len()
            invariant
                1 <= i <= self.tiles@.len(),
                0 <= at < i,
                self.counts()[at] == best,
                forall|k: int| 0 <= k < i ==> self.counts()[k] <= best,
            decreases self.tiles.len() - i,
        {
            if self.tiles[i].1 > best {
                best = self.tiles[i].1;
                proof {
                    at = i as int;
                }
            }
            i += 1;
        }
        Some(best)
    }

    /// What the manifest of the atlas says when the pictures of the
    /// patches are kept under the given paths: the paths, the frequencies,
    /// and the adjacency table of the rules. There must be one path per
    /// patch.
    pub fn manifest(&self, paths: Vec<Vec<u8>>) -> (r: Result<Manifest, WfcError>)
        requires
            self.wf(),
        ensures
            r.is_ok() <==> paths@.len() == self.patches().len() && 2 * self.patches().len()
                * self.patches().len() <= isize::MAX,
            r matches Err(e) ==> e == if paths@.len() != self.patches().len() {
                WfcError::InvalidAtlas(AtlasFault::ShapeMismatch)
            } else {
                WfcError::InvalidAtlas(AtlasFault::TooLarge)
            },
            r matches Ok(m) ==> {
                &&& m.paths@ == paths@
                &&& m.frequencies@ == self.counts()
                &&& m.adjacency@ == matrix_of(self.rule_table())
                &&& m.adjacency.wf()
                &&& m.adjacency.tiles() == self.patches().len()
            },
    {
        if paths.len() != self.tiles.len() {
            return Err(WfcError::InvalidAtlas(AtlasFault::ShapeMismatch));
        }
        let adjacency = match self.rules.adjacency_matrix() {
            Ok(adjacency) => adjacency,
            Err(e) => {
                return Err(e);
            },
        };
        let frequencies = self.weights();
        Ok(Manifest { paths, frequencies, adjacency })
    }

    /// Puts an atlas together from what a manifest says and the pictures
    /// of the patches, in the order of the manifest. The parts are refused
    /// where the manifest makes no rules, where there is not one picture
    /// per line of the manifest, and where the sizes and the pictures make
    /// no atlas; in that order.
    pub fn from_manifest(
        interior_size: usize,
        border_size: usize,
        images: &Vec<Image>,
        manifest: Manifest,
    ) -> (r: Result<Tileset, WfcError>)
        requires
            forall|i: int| 0 <= i < images@.len() ==> (#[trigger] images@[i]).wf(),
        ensures
            r.is_ok() <==> loading_fault(
                interior_size as nat,
                border_size as nat,
                pictures(images@),
                manifest.frequencies@,
                manifest.adjacency@,
            ).is_none(),
            r matches Err(e) ==> Some(e) == loading_fault(
                interior_size as nat,
                border_size as nat,
                pictures(images@),
                manifest.frequencies@,
                manifest.adjacency@,
            ),
            r matches Ok(atlas) ==> {
                &&& atlas.wf()
                &&& atlas.interior() == interior_size
                &&& atlas.border() == border_size
                &&& atlas.patches() == pictures(images@)
                &&& atlas.counts() == manifest.frequencies@
                &&& forall|t: int, u: int, d: Direction|
                    0 <= t < atlas.patches().len() && 0 <= u < atlas.patches().len() ==> (
                    #[trigger] atlas.rule_table().allowed(t, d).contains(u) <==> adjacent(
                        manifest.adjacency@,
                        t,
                        u,
                        d,
                    ))
            },
    {
        let Manifest { paths, frequencies, adjacency } = manifest;
        let ghost counts = frequencies@;
        let mut kept: Vec<usize> = Vec::new();
        let mut i: usize = 0;
        while i < frequencies.len()
            invariant
                i <= frequencies@.len(),
                kept@ == frequencies@.subrange(0, i as int),
            decreases frequencies.len() - i,
        {
            kept.push(frequencies[i]);
            proof {
                assert(kept@ =~= frequencies@.subrange(0, i as int + 1));
            }
            i += 1;
        }
        proof {
            assert(kept@ =~= frequencies@);
        }
        let rules = match Rules::new(&adjacency, frequencies) {
            Ok(rules) => rules,
            Err(e) => {
                return Err(e);
            },
        };
        if images.len() != kept.len() {
            return Err(WfcError::InvalidAtlas(AtlasFault::ShapeMismatch));
        }
        let mut tiles: Vec<(Image, usize)> = Vec::new();
        let mut i: usize = 0;
        while i < images.len()
            invariant
                i <= images@.len(),
                images@.len() == kept@.len(),
                tiles@.len() == i,
                forall|k: int| 0 <= k < images@.len() ==> (#[trigger] images@[k]).wf(),
                forall|k: int|
                    0 <= k < i ==> (#[trigger] tiles@[k]).0.wf() && tiles@[k].0@ == images@[k]@
                        && tiles@[k].1 == kept@[k],
            decreases images.len() - i,
        {
            tiles.push((images[i].duplicate(), kept[i]));
            i += 1;
        }
        proof {
            assert(patch_pictures(tiles@) =~= pictures(images@));
            assert(patch_counts(tiles@) =~= counts);
        }
        Tileset::new(interior_size, border_size, tiles, rules)
    }

    /// The interiors of the patches: every patch without its border.
    pub fn interiors(&self) -> (r: Vec<Image>)
        requires
            self.wf(),
        ensures
            r@.len() == self.patches().len(),
            forall|i: int|
                0 <= i < r@.len() ==> (#[trigger] r@[i]).wf() && r@[i]@ == interior_of(
                    self.patches()[i],
                    self.border(),
                ) && r@[i].rows() == self.interior() && r@[i].cols() == self.interior(),
    {
        let mut inner: Vec<Image> = Vec::new();
        let mut i: usize = 0;
        while i < self.tiles.len()
            invariant
                i <= self.tiles.len(),
                self.wf(),
                inner@.len() == i,
                forall|k: int|
                    0 <= k < i ==> (#[trigger] inner@[k]).wf() && inner@[k]@ == interior_of(
                        self.patches()[k],
                        self.border(),
                    ) && inner@[k].rows() == self.interior() && inner@[k].cols() == self.interior(),
            decreases self.tiles.len() - i,
        {
            proof {
                assert(picture_shaped(self.patches()[i as int]));
            }
            inner.push(self.tiles[i].0.interior(self.border_size));
            i += 1;
        }
        inner
    }
}

/// Saving an atlas, loading what was saved and saving that again gives
/// the same manifest: where `text` is the manifest of the rules `first`
/// under `paths`, and `second` are the rules that reading `text` gives,
/// the manifest of `second` under the paths read from `text` is `text`.
pub proof fn lemma_atlas_round_trip(first: &Rules, second: &Rules, paths: Seq<Seq<u8>>)
    requires
        first.wf(),
        second.wf(),
        manifest_ok(paths, first.weights(), matrix_of(*first)),
        second.tiles() == first.tiles(),
        second.weights() == counts_in(
            table_of(manifest_text(paths, first.weights(), matrix_of(*first))),
        ),
        forall|t: int, u: int, d: Direction|
            0 <= t < second.tiles() && 0 <= u < second.tiles() ==> (
            #[trigger] second.allowed(t, d).contains(u) <==> adjacent(
                adjacency_in(table_of(manifest_text(paths, first.weights(), matrix_of(*first)))),
                t,
                u,
                d,
            )),
    ensures
        manifest_text(
            paths_in(table_of(manifest_text(paths, first.weights(), matrix_of(*first)))),
            second.weights(),
            matrix_of(*second),
        ) == manifest_text(paths, first.weights(), matrix_of(*first)),
{
    lemma_manifest_round_trip(paths, first.weights(), matrix_of(*first));
    lemma_matrix_round_trip(first, second);
}

} // verus!
