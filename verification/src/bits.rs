//! Trusted boundary to `hibitset`'s `BitSet`.
//!
//! The recursive-descendant queries return and use `BitSet`s of entity ids.
//! The contents are modelled by the uninterpreted [`bitset_view`]. The
//! four-layer structure holds indices up to `hibitset::MAX_EID` and panics
//! beyond it, so insertion requires the index to stay within that bound.

use vstd::prelude::*;
use hibitset::BitSet;

verus! {

#[verifier::external_type_specification]
#[verifier::external_body]
pub struct ExBitSet(BitSet);

/// The set of indices the bit set holds.
pub uninterp spec fn bitset_view(s: BitSet) -> Set<u32>;

/// Relies on `hibitset::BitSet::new`: a fresh bit set is empty.
#[verifier::external_body]
pub(crate) fn bitset_new() -> (r: BitSet)
    ensures
        bitset_view(r) == Set::<u32>::empty(),
{
    BitSet::new()
}

/// Relies on `hibitset::BitSet::add`: inserts one index and reports whether
/// it was already present; panics above `hibitset::util::MAX_EID`.
#[verifier::external_body]
pub(crate) fn bitset_add(s: &mut BitSet, id: u32) -> (r: bool)
    requires
        id <= 0x0100_0000,
    ensures
        bitset_view(*final(s)) == bitset_view(*old(s)).insert(id),
        r == bitset_view(*old(s)).contains(id),
{
    s.add(id)
}

/// Relies on `hibitset::BitSet::contains`.
#[verifier::external_body]
pub(crate) fn bitset_contains(s: &BitSet, id: u32) -> (r: bool)
    ensures
        r == bitset_view(*s).contains(id),
{
    s.contains(id)
}

} // verus!
