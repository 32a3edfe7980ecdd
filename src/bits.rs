use vstd::prelude::*;

verus! {

#[verifier::external_type_specification]
#[verifier::external_body]
pub struct ExFixedBitSet(fixedbitset::FixedBitSet);

/// A pattern in its compact form: one bit per diagonal line plus the global flip.
pub type BitPattern = fixedbitset::FixedBitSet;

/// The bits that a bit set holds, from index 0 up to its length.
pub uninterp spec fn bits_of(b: fixedbitset::FixedBitSet) -> Seq<bool>;

/// Bit `i` of a 32-bit block.
pub open spec fn block_bit(block: u32, i: int) -> bool {
    (block >> (i as u32)) & 1u32 == 1u32
}

/// Relies on `FixedBitSet::with_capacity`: `n` bits, all clear.
#[verifier::external_body]
pub(crate) fn bitset_with_capacity(n: usize) -> (r: fixedbitset::FixedBitSet)
    ensures
        bits_of(r) == Seq::new(n as nat, |i: int| false),
{
    fixedbitset::FixedBitSet::with_capacity(n)
}

/// Relies on `FixedBitSet::with_capacity_and_blocks` with a single block:
/// the low `n` bits of the block, the bits past `n` dropped.
#[verifier::external_body]
pub(crate) fn bitset_from_block(n: usize, block: u32) -> (r: fixedbitset::FixedBitSet)
    requires
        n <= 32,
    ensures
        bits_of(r) == Seq::new(n as nat, |i: int| block_bit(block, i)),
{
    fixedbitset::FixedBitSet::with_capacity_and_blocks(n, vec![block])
}

/// Relies on `FixedBitSet::len`: the number of bits, set or clear.
#[verifier::external_body]
pub(crate) fn bitset_len(b: &fixedbitset::FixedBitSet) -> (r: usize)
    ensures
        r == bits_of(*b).len(),
{
    b.len()
}

/// Relies on `FixedBitSet::contains`: whether bit `i` is set.
#[verifier::external_body]
pub(crate) fn bitset_contains(b: &fixedbitset::FixedBitSet, i: usize) -> (r: bool)
    requires
        i < bits_of(*b).len(),
    ensures
        r == bits_of(*b)[i as int],
{
    b.contains(i)
}

/// Relies on `FixedBitSet::put`: sets bit `i`, which must lie below the length.
#[verifier::external_body]
pub(crate) fn bitset_put(b: &mut fixedbitset::FixedBitSet, i: usize)
    requires
        i < bits_of(*old(b)).len(),
    ensures
        bits_of(*final(b)) == bits_of(*old(b)).update(i as int, true),
{
    b.put(i);
}

/// Relies on `FixedBitSet::clear`: every bit cleared, the length kept.
#[verifier::external_body]
pub(crate) fn bitset_clear(b: &mut fixedbitset::FixedBitSet)
    ensures
        bits_of(*final(b)) == Seq::new(bits_of(*old(b)).len(), |i: int| false),
{
    b.clear();
}

} // verus!
