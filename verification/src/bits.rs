//! Facts about bitmasks in which each component type owns one bit.

use vstd::prelude::*;

verus! {

/// The bitmask with only bit `position` set.
pub open spec fn bit(position: u8) -> u64 {
    1u64 << position
}

/// Tells whether the bitmask has any of the given bits.
pub open spec fn overlaps(mask: u64, bits: u64) -> bool {
    (mask & bits) != 0
}

/// Tells whether the bitmask uses none of the bits from `limit` upwards.
pub open spec fn below(mask: u64, limit: nat) -> bool {
    forall|k: u8| limit <= k < 64 ==> !overlaps(mask, #[trigger] bit(k))
}

/// Different positions give bitmasks that share no bit; a single bit is not
/// zero and overlaps itself.
pub proof fn lemma_bit(j: u8, k: u8)
    by (bit_vector)
    requires
        j < 64,
        k < 64,
    ensures
        (1u64 << j) != 0,
        ((1u64 << j) & (1u64 << j)) == (1u64 << j),
        j != k ==> ((1u64 << j) & (1u64 << k)) == 0,
        j != k ==> (1u64 << j) != (1u64 << k),
{
}

/// A bitmask has all of a single bit exactly when it overlaps it.
pub proof fn lemma_single(mask: u64, k: u8)
    by (bit_vector)
    requires
        k < 64,
    ensures
        ((mask & (1u64 << k)) == (1u64 << k)) <==> ((mask & (1u64 << k)) != 0),
{
}

/// What the union of two bitmasks overlaps.
pub proof fn lemma_union(a: u64, b: u64, bits: u64)
    by (bit_vector)
    ensures
        (((a | b) & bits) != 0) <==> ((a & bits) != 0 || (b & bits) != 0),
{
}

/// What is left of a bitmask after a single bit was taken out of it.
pub proof fn lemma_without(mask: u64, j: u8, k: u8)
    by (bit_vector)
    requires
        j < 64,
        k < 64,
    ensures
        j == k ==> ((mask & !(1u64 << j)) & (1u64 << k)) == 0,
        j != k ==> ((mask & !(1u64 << j)) & (1u64 << k)) == (mask & (1u64 << k)),
{
}

/// The empty bitmask overlaps nothing.
pub proof fn lemma_empty(bits: u64)
    by (bit_vector)
    ensures
        (0u64 & bits) == 0,
{
}

/// A bitmask that has all bits of a union has all bits of both parts.
pub proof fn lemma_has_union(mask: u64, a: u64, b: u64)
    by (bit_vector)
    requires
        (mask & (a | b)) == (a | b),
    ensures
        (mask & a) == a,
        (mask & b) == b,
{
}

/// A bitmask is part of its union with another.
pub proof fn lemma_part_of_union(a: u64, b: u64)
    by (bit_vector)
    ensures
        ((a | b) & a) == a,
{
}

/// A bitmask that has all bits of another has all bits of any part of it.
pub proof fn lemma_has_all(mask: u64, all: u64, part: u64)
    by (bit_vector)
    requires
        (mask & all) == all,
        (all & part) == part,
    ensures
        (mask & part) == part,
{
}

} // verus!
