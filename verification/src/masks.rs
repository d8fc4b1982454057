//! Spec-level reading of the 128-bit membership masks, and the bit-vector
//! lemmas that relate the executable mask operations to it.

use vstd::prelude::*;

verus! {

/// True when bit `k` of `m` is set. Only positions below 128 are meaningful.
pub open spec fn mask_bit(m: u128, k: u128) -> bool {
    m & (1u128 << k) != 0
}

/// True when every bit set in `pred` is also set in `m`: the membership test
/// a query performs against an entity's mask.
pub open spec fn covers(m: u128, pred: u128) -> bool {
    m & pred == pred
}

/// Setting bit `k` sets exactly that bit and leaves every other bit alone.
pub proof fn lemma_set_bit(m: u128, k: u128, j: u128)
    by (bit_vector)
    requires
        k < 128,
        j < 128,
    ensures
        mask_bit(m | (1u128 << k), j) <==> (mask_bit(m, j) || j == k),
{
}

/// Clearing a bit that is known to be set clears exactly that bit.
pub proof fn lemma_clear_bit(m: u128, k: u128, j: u128)
    by (bit_vector)
    requires
        k < 128,
        j < 128,
        m & (1u128 << k) == 1u128 << k,
    ensures
        mask_bit(m ^ (1u128 << k), j) <==> (mask_bit(m, j) && j != k),
{
}

/// Every mask covers the empty predicate.
pub proof fn lemma_covers_empty(m: u128)
    by (bit_vector)
    ensures
        covers(m, 0),
{
}

/// A mask that covers a predicate has every bit of the predicate set.
pub proof fn lemma_covers_bit(m: u128, pred: u128, k: u128)
    by (bit_vector)
    requires
        k < 128,
        covers(m, pred),
        mask_bit(pred, k),
    ensures
        mask_bit(m, k),
{
}

/// Testing a single-bit predicate is the same as testing that bit.
pub proof fn lemma_covers_single_bit(m: u128, k: u128)
    by (bit_vector)
    requires
        k < 128,
    ensures
        covers(m, 1u128 << k) <==> mask_bit(m, k),
{
}

/// The all-zero mask, which marks a dead entity slot, has no bit set.
pub proof fn lemma_zero_mask_no_bits(j: u128)
    by (bit_vector)
    ensures
        !mask_bit(0u128, j),
{
}

/// Widening a predicate by nothing leaves it unchanged.
pub proof fn lemma_or_zero(m: u128)
    by (bit_vector)
    ensures
        m | 0 == m,
{
}

/// Setting a bit in the all-zero mask of a fresh slot yields just that bit.
pub proof fn lemma_set_bit_in_zero(m: u128, k: u128)
    by (bit_vector)
    requires
        m == 0,
        k < 128,
    ensures
        m | (1u128 << k) == 1u128 << k,
{
}

/// A mask with a bit set is not the all-zero mask of a dead slot.
pub proof fn lemma_set_bit_nonzero(m: u128, k: u128)
    by (bit_vector)
    requires
        k < 128,
    ensures
        m | (1u128 << k) != 0,
        mask_bit(m | (1u128 << k), k),
{
}

} // verus!
