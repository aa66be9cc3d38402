//! The availability mask: a `fixedbitset::FixedBitSet` seen as a sequence of
//! booleans, one per cell. Nothing in this file is proved; each contract
//! restates what the bit set's own implementation does.
use fixedbitset::FixedBitSet;
use vstd::prelude::*;

verus! {

/// `fixedbitset::FixedBitSet`, taken as it is. Its bits are read through
/// `mask_bits`.
#[verifier::external_type_specification]
#[verifier::external_body]
pub struct ExFixedBitSet(FixedBitSet);

/// The bits of a mask, in index order; the sequence is as long as the mask.
pub uninterp spec fn mask_bits(mask: FixedBitSet) -> Seq<bool>;

/// `indices` lists, in strictly ascending order, exactly the positions at
/// which `bits` holds `wanted`.
pub open spec fn lists_positions(indices: Seq<usize>, bits: Seq<bool>, wanted: bool) -> bool {
    &&& forall|k: int|
        0 <= k < indices.len() ==> (#[trigger] indices[k]) < bits.len() && bits[indices[k] as int] == wanted
    &&& forall|j: int, k: int| 0 <= j < k < indices.len() ==> indices[j] < indices[k]
    &&& forall|c: int| 0 <= c < bits.len() && #[trigger] bits[c] == wanted ==> listed(indices, c)
}

/// Position `c` occurs in `indices`.
pub open spec fn listed(indices: Seq<usize>, c: int) -> bool {
    exists|k: int| 0 <= k < indices.len() && #[trigger] indices[k] == c
}

/// `FixedBitSet::with_capacity`: a mask of `bits` bits, all clear.
#[verifier::external_body]
pub(crate) fn mask_with_capacity(bits: usize) -> (mask: FixedBitSet)
    ensures
        mask_bits(mask) == Seq::new(bits as nat, |i: int| false),
{
    FixedBitSet::with_capacity(bits)
}

/// `FixedBitSet::insert`: enables one bit and leaves the others as they
/// were. The bit set panics on an index past its length.
#[verifier::external_body]
pub(crate) fn mask_insert(mask: &mut FixedBitSet, bit: usize)
    requires
        bit < mask_bits(*old(mask)).len(),
    ensures
        mask_bits(*final(mask)) == mask_bits(*old(mask)).update(bit as int, true),
{
    mask.insert(bit)
}

/// `FixedBitSet::set`: gives one bit the value `enabled` and leaves the
/// others as they were. The bit set panics on an index past its length.
#[verifier::external_body]
pub(crate) fn mask_set(mask: &mut FixedBitSet, bit: usize, enabled: bool)
    requires
        bit < mask_bits(*old(mask)).len(),
    ensures
        mask_bits(*final(mask)) == mask_bits(*old(mask)).update(bit as int, enabled),
{
    mask.set(bit, enabled)
}

/// `FixedBitSet::contains`: whether the bit is enabled; an index past the
/// length counts as disabled.
#[verifier::external_body]
pub(crate) fn mask_contains(mask: &FixedBitSet, bit: usize) -> (enabled: bool)
    ensures
        enabled == (bit < mask_bits(*mask).len() && mask_bits(*mask)[bit as int]),
{
    mask.contains(bit)
}

/// `FixedBitSet::ones`: the indices of the enabled bits, lowest first.
#[verifier::external_body]
pub(crate) fn mask_ones(mask: &FixedBitSet) -> (indices: Vec<usize>)
    ensures
        lists_positions(indices@, mask_bits(*mask), true),
{
    mask.ones().collect()
}

/// `FixedBitSet::zeroes`: the indices below the length whose bit is
/// disabled, lowest first.
#[verifier::external_body]
pub(crate) fn mask_zeroes(mask: &FixedBitSet) -> (indices: Vec<usize>)
    ensures
        lists_positions(indices@, mask_bits(*mask), false),
{
    mask.zeroes().collect()
}

} // verus!
