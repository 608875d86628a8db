//! Contracts for the dense bit set that the sieve stores its candidates in.
//!
//! The bit set itself comes from the `fixedbitset` crate. Nothing in this file
//! is proved: each function states what the crate's method does, and the rest
//! of the library is verified against these statements.

use fixedbitset::FixedBitSet;
use vstd::prelude::*;

verus! {

#[verifier::external_type_specification]
#[verifier::external_body]
pub struct ExFixedBitSet(fixedbitset::FixedBitSet);

/// The bits of a bit set, position 0 first: `true` where the bit is enabled.
/// Its length is the number of positions the set was created with.
pub uninterp spec fn bitset_bits(b: FixedBitSet) -> Seq<bool>;

/// `FixedBitSet::with_capacity`: a bit set of `bits` positions, all of them
/// clear.
#[verifier::external_body]
pub(crate) fn bitset_with_capacity(bits: usize) -> (b: FixedBitSet)
    ensures
        bitset_bits(b) == Seq::new(bits as nat, |i: int| false),
{
    FixedBitSet::with_capacity(bits)
}

/// `FixedBitSet::insert_range` with the range `start..`: enables every
/// position from `start` to the end and leaves the positions below `start`
/// as they were. The method panics when `start` lies beyond the length,
/// which the precondition excludes.
#[verifier::external_body]
pub(crate) fn bitset_insert_from(b: &mut FixedBitSet, start: usize)
    requires
        start <= bitset_bits(*old(b)).len(),
    ensures
        bitset_bits(*final(b)) == Seq::new(
            bitset_bits(*old(b)).len(),
            |i: int| i >= start || bitset_bits(*old(b))[i],
        ),
{
    b.insert_range(start..)
}

/// `FixedBitSet::set`: gives position `bit` the value `enabled` and changes
/// no other position. The method panics when `bit` is out of bounds, which
/// the precondition excludes.
#[verifier::external_body]
pub(crate) fn bitset_set(b: &mut FixedBitSet, bit: usize, enabled: bool)
    requires
        bit < bitset_bits(*old(b)).len(),
    ensures
        bitset_bits(*final(b)) == bitset_bits(*old(b)).update(bit as int, enabled),
{
    b.set(bit, enabled)
}

/// The first item of `FixedBitSet::ones`: the lowest enabled position, or
/// `None` when no position is enabled.
#[verifier::external_body]
pub(crate) fn bitset_first(b: &FixedBitSet) -> (r: Option<usize>)
    ensures
        match r {
            Some(i) => i < bitset_bits(*b).len() && bitset_bits(*b)[i as int] && forall|j: int|
                0 <= j < i ==> !bitset_bits(*b)[j],
            None => forall|j: int| 0 <= j < bitset_bits(*b).len() ==> !bitset_bits(*b)[j],
        },
{
    b.ones().next()
}

/// How many of the bits are set.
pub open spec fn count_true(bits: Seq<bool>) -> nat
    decreases bits.len(),
{
    if bits.len() == 0 {
        0
    } else {
        count_true(bits.drop_last()) + if bits.last() {
            1nat
        } else {
            0nat
        }
    }
}

/// `FixedBitSet::insert`: enables position `bit` and changes no other
/// position. The method panics when `bit` is out of bounds, which the
/// precondition excludes.
#[verifier::external_body]
pub(crate) fn bitset_insert(b: &mut FixedBitSet, bit: usize)
    requires
        bit < bitset_bits(*old(b)).len(),
    ensures
        bitset_bits(*final(b)) == bitset_bits(*old(b)).update(bit as int, true),
{
    b.insert(bit)
}

/// `FixedBitSet::count_ones` over the whole set: the number of enabled
/// positions.
#[verifier::external_body]
pub(crate) fn bitset_count_ones(b: &FixedBitSet) -> (count: usize)
    ensures
        count == count_true(bitset_bits(*b)),
{
    b.count_ones(..)
}

/// `FixedBitSet::toggle_range` with the range `..`: inverts every position
/// of the set.
#[verifier::external_body]
pub(crate) fn bitset_toggle_all(b: &mut FixedBitSet)
    ensures
        bitset_bits(*final(b)) == Seq::new(
            bitset_bits(*old(b)).len(),
            |i: int| !bitset_bits(*old(b))[i],
        ),
{
    b.toggle_range(..)
}

} // verus!
