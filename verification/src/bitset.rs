//! What the crate relies on of `fixedbitset::FixedBitSet`. Nothing in this
//! file is proved: each contract states what the bit set's source shows.

use vstd::prelude::*;
use fixedbitset::FixedBitSet;

verus! {

#[verifier::external_type_specification]
#[verifier::external_body]
pub struct ExFixedBitSet(FixedBitSet);

/// The bits that are set.
pub uninterp spec fn bitset_members(bits: FixedBitSet) -> Set<int>;

/// The number of bits that the set was made for.
pub uninterp spec fn bitset_len(bits: FixedBitSet) -> nat;

/// `FixedBitSet::with_capacity` makes a set for `bits` bits, none of them
/// set.
pub assume_specification[ FixedBitSet::with_capacity ](bits: usize) -> (r: FixedBitSet)
    ensures
        bitset_len(r) == bits,
        bitset_members(r) == Set::<int>::empty(),
;

/// `FixedBitSet::contains` tells whether `bit` is set; a bit beyond the
/// length never is.
pub assume_specification[ FixedBitSet::contains ](set: &FixedBitSet, bit: usize) -> (r: bool)
    ensures
        r == bitset_members(*set).contains(bit as int),
;

/// `FixedBitSet::insert` sets `bit` and leaves the others as they are. It
/// panics on a bit beyond the length.
pub assume_specification[ FixedBitSet::insert ](set: &mut FixedBitSet, bit: usize)
    requires
        bit < bitset_len(*old(set)),
    ensures
        bitset_len(*final(set)) == bitset_len(*old(set)),
        bitset_members(*final(set)) == bitset_members(*old(set)).insert(bit as int),
;

} // verus!
