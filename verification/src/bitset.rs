//! What the replay window relies on of the `fixedbitset` crate.
use fixedbitset::FixedBitSet;
use vstd::prelude::*;

verus! {

/// `fixedbitset::FixedBitSet`: a bit set of a fixed length, opaque here.
#[verifier::external_type_specification]
#[verifier::external_body]
pub struct ExFixedBitSet(fixedbitset::FixedBitSet);

/// The bits of the set, first to last: bit `i` is what `contains(i)` answers, and there are as
/// many of them as `len` says.
pub uninterp spec fn bits(set: FixedBitSet) -> Seq<bool>;

/// `FixedBitSet::with_capacity`: trusted to give that many bits, all clear.
pub assume_specification[ FixedBitSet::with_capacity ](capacity: usize) -> (r: FixedBitSet)
    ensures
        bits(r) == Seq::new(capacity as nat, |i: int| false),
;

/// `FixedBitSet::len`: trusted to give the number of bits, set or not.
pub assume_specification[ FixedBitSet::len ](set: &FixedBitSet) -> (r: usize)
    ensures
        r == bits(*set).len(),
;

/// `FixedBitSet::contains`, which `set[bit]` calls too: trusted to give the bit. Nothing is
/// claimed of a position past the end.
pub assume_specification[ FixedBitSet::contains ](set: &FixedBitSet, bit: usize) -> (r: bool)
    ensures
        bit < bits(*set).len() ==> r == bits(*set)[bit as int],
;

/// `FixedBitSet::clear`: trusted to clear every bit and keep the length.
pub assume_specification[ FixedBitSet::clear ](set: &mut FixedBitSet)
    ensures
        bits(*final(set)) == Seq::new(bits(*old(set)).len(), |i: int| false),
;

/// `FixedBitSet::insert`: trusted to set one bit and leave the others. It panics past the end.
pub assume_specification[ FixedBitSet::insert ](set: &mut FixedBitSet, bit: usize)
    requires
        bit < bits(*old(set)).len(),
    ensures
        bits(*final(set)) == bits(*old(set)).update(bit as int, true),
;

/// `<FixedBitSet as Clone>::clone`: trusted to copy the bits.
pub assume_specification[ <FixedBitSet as Clone>::clone ](set: &FixedBitSet) -> (r: FixedBitSet)
    ensures
        bits(r) == bits(*set),
;

/// `FixedBitSet::set_range` over `start..end`: trusted to give every bit of the range the value
/// `enabled` and leave the others. It panics on a range that is reversed or past the end.
#[verifier::external_body]
pub(crate) fn set_range(set: &mut FixedBitSet, start: usize, end: usize, enabled: bool)
    requires
        start <= end <= bits(*old(set)).len(),
    ensures
        bits(*final(set)) == Seq::new(
            bits(*old(set)).len(),
            |i: int|
                if start <= i < end {
                    enabled
                } else {
                    bits(*old(set))[i]
                },
        ),
{
    set.set_range(start..end, enabled);
}

} // verus!
