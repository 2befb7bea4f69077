//! Dense bit sets over tile indices, kept in `fixedbitset::FixedBitSet`.
//!
//! The set itself is opaque to the verifier. Two names stand for what it
//! holds, and each operation the library uses is reached through one small
//! function whose contract restates what the crate's source does. Nothing
//! in this file is proved; everything outside it is proved from it.

use fixedbitset::FixedBitSet;
use vstd::prelude::*;
use vstd::set_lib::*;

verus! {

/// Makes `fixedbitset::FixedBitSet` known to the verifier as a type whose
/// inside it does not see.
#[verifier::external_type_specification]
#[verifier::external_body]
pub struct ExFixedBitSet(FixedBitSet);

/// The positions of the bits that are set.
pub uninterp spec fn bits_of(b: FixedBitSet) -> Set<int>;

/// The number of bit positions the set was made with.
pub uninterp spec fn capacity_of(b: FixedBitSet) -> nat;

/// A bit set is in order when it is finite and every set bit lies below its
/// capacity. The library only ever holds bit sets that are in order.
pub open spec fn bitset_wf(b: FixedBitSet) -> bool {
    &&& bits_of(b).finite()
    &&& forall|k: int| #[trigger] bits_of(b).contains(k) ==> 0 <= k < capacity_of(b)
}

/// `FixedBitSet::with_capacity`: a set of `n` positions, none of them set.
#[verifier::external_body]
pub(crate) fn bitset_with_capacity(n: usize) -> (r: FixedBitSet)
    ensures
        bits_of(r) == Set::<int>::empty(),
        capacity_of(r) == n,
{
    FixedBitSet::with_capacity(n)
}

/// `FixedBitSet::insert`: sets one bit. The outside function panics on a
/// position at or above the capacity, so that is left out.
#[verifier::external_body]
pub(crate) fn bitset_insert(b: &mut FixedBitSet, bit: usize)
    requires
        bit < capacity_of(*old(b)),
    ensures
        bits_of(*final(b)) == bits_of(*old(b)).insert(bit as int),
        capacity_of(*final(b)) == capacity_of(*old(b)),
{
    b.insert(bit)
}

/// `FixedBitSet::insert_range` over the full range: sets every bit below
/// the capacity.
#[verifier::external_body]
pub(crate) fn bitset_insert_all(b: &mut FixedBitSet)
    ensures
        bits_of(*final(b)) == set_int_range(0, capacity_of(*old(b)) as int),
        capacity_of(*final(b)) == capacity_of(*old(b)),
{
    b.insert_range(..)
}

/// `FixedBitSet::remove`: clears one bit. The outside function panics on a
/// position at or above the capacity, so that is left out.
#[verifier::external_body]
pub(crate) fn bitset_remove(b: &mut FixedBitSet, bit: usize)
    requires
        bit < capacity_of(*old(b)),
    ensures
        bits_of(*final(b)) == bits_of(*old(b)).remove(bit as int),
        capacity_of(*final(b)) == capacity_of(*old(b)),
{
    b.remove(bit)
}

/// `FixedBitSet::clear`: clears every bit and keeps the capacity.
#[verifier::external_body]
pub(crate) fn bitset_clear(b: &mut FixedBitSet)
    ensures
        bits_of(*final(b)) == Set::<int>::empty(),
        capacity_of(*final(b)) == capacity_of(*old(b)),
{
    b.clear()
}

/// `FixedBitSet::contains`: whether a bit is set; positions at or above the
/// capacity are never set.
#[verifier::external_body]
pub(crate) fn bitset_contains(b: &FixedBitSet, bit: usize) -> (r: bool)
    ensures
        r == bits_of(*b).contains(bit as int),
{
    b.contains(bit)
}

/// `FixedBitSet::count_ones` over the full range: how many bits are set.
#[verifier::external_body]
pub(crate) fn bitset_count(b: &FixedBitSet) -> (r: usize)
    ensures
        r == bits_of(*b).len(),
{
    b.count_ones(..)
}

/// `FixedBitSet::ones`, collected: the set bits, each once, in rising
/// order.
#[verifier::external_body]
pub(crate) fn bitset_ones(b: &FixedBitSet) -> (r: Vec<usize>)
    ensures
        r@.len() == bits_of(*b).len(),
        forall|i: int, j: int| 0 <= i < j < r@.len() ==> r@[i] < r@[j],
        forall|i: int| 0 <= i < r@.len() ==> bits_of(*b).contains(#[trigger] r@[i] as int),
        forall|k: int|
            bits_of(*b).contains(k) ==> exists|i: int| 0 <= i < r@.len() && #[trigger] r@[i] == k,
{
    b.ones().collect()
}

/// `FixedBitSet::is_disjoint`: whether no bit is set in both.
#[verifier::external_body]
pub(crate) fn bitset_is_disjoint(a: &FixedBitSet, b: &FixedBitSet) -> (r: bool)
    ensures
        r == bits_of(*a).disjoint(bits_of(*b)),
{
    a.is_disjoint(b)
}

/// The tiles of a bit set, in rising order.
pub fn tiles_in(b: &FixedBitSet) -> (r: Vec<usize>)
    ensures
        r@.len() == bits_of(*b).len(),
        forall|i: int, j: int| 0 <= i < j < r@.len() ==> r@[i] < r@[j],
        forall|i: int| 0 <= i < r@.len() ==> bits_of(*b).contains(#[trigger] r@[i] as int),
        forall|k: int|
            bits_of(*b).contains(k) ==> exists|i: int| 0 <= i < r@.len() && #[trigger] r@[i] == k,
{
    bitset_ones(b)
}

} // verus!
