//! Single-bit tests and updates on 32-bit hashes, and their population count.
use vstd::prelude::*;


verus! {

/// True when bit `i` of `n` is one.
pub open spec fn bit_is_set(n: u32, i: u32) -> bool {
    (n >> i) & 1 == 1
}

/// The number of one bits among the lowest `k` bit positions of `n`.
pub open spec fn ones_below(n: u32, k: nat) -> nat
    decreases k,
{
    if k == 0 {
        0
    } else {
        ones_below(n, (k - 1) as nat) + if bit_is_set(n, (k - 1) as u32) { 1nat } else { 0nat }
    }
}

/// The number of one bits in `n`.
pub open spec fn popcount(n: u32) -> nat {
    ones_below(n, 32)
}

/// `n` with the bits of `mask` turned on.
pub open spec fn set_bit_spec(n: u32, mask: u32) -> u32 {
    n | mask
}

/// `n` with the bits of `mask` turned off.
pub open spec fn clear_bit_spec(n: u32, mask: u32) -> u32 {
    n & !mask
}

/// Counts the one bits of `n`.
pub fn bit_count(n: crate::Hash) -> (count: u32)
    ensures
        count == popcount(n),
{
    let mut count: u32 = 0;
    let mut i: u32 = 0;
    while i < 32
        invariant
            i <= 32,
            count == ones_below(n, i as nat),
            count <= i,
        decreases 32 - i,
    {
        if (n >> i) & 1 == 1 {
            count = count + 1;
        }
        i = i + 1;
    }
    count
}

/// Whether `n` and `mask` share a one bit.
pub fn get_bit(n: crate::Hash, mask: crate::Hash) -> (b: bool)
    ensures
        b == (n & mask != 0),
{
    (n & mask) != 0
}

/// `n` with every bit of `mask` turned on.
pub fn set_bit(n: crate::Hash, mask: crate::Hash) -> (r: crate::Hash)
    ensures
        r == set_bit_spec(n, mask),
{
    n | mask
}

/// `n` with every bit of `mask` turned off.
pub fn clear_bit(n: crate::Hash, mask: crate::Hash) -> (r: crate::Hash)
    ensures
        r == clear_bit_spec(n, mask),
{
    n & !mask
}

/// Turning on the bits of a nonzero mask makes `get_bit` see them; a zero mask
/// is never seen.
pub proof fn lemma_get_after_set(n: u32, mask: u32)
    ensures
        (set_bit_spec(n, mask) & mask != 0) == (mask != 0),
{
    assert(((n | mask) & mask != 0) == (mask != 0)) by (bit_vector);
}

/// After `clear_bit`, `get_bit` with the same mask is false.
pub proof fn lemma_get_after_clear(n: u32, mask: u32)
    ensures
        clear_bit_spec(n, mask) & mask == 0,
{
    assert((n & !mask) & mask == 0) by (bit_vector);
}

/// Setting or clearing the same mask twice is the same as doing it once, and a
/// later set or clear of a mask undoes an earlier one of the same mask.
pub proof fn lemma_set_clear_absorb(n: u32, mask: u32)
    ensures
        set_bit_spec(set_bit_spec(n, mask), mask) == set_bit_spec(n, mask),
        clear_bit_spec(clear_bit_spec(n, mask), mask) == clear_bit_spec(n, mask),
        clear_bit_spec(set_bit_spec(n, mask), mask) == clear_bit_spec(n, mask),
        set_bit_spec(clear_bit_spec(n, mask), mask) == set_bit_spec(n, mask),
{
    assert((n | mask) | mask == n | mask) by (bit_vector);
    assert((n & !mask) & !mask == n & !mask) by (bit_vector);
    assert((n | mask) & !mask == n & !mask) by (bit_vector);
    assert((n & !mask) | mask == n | mask) by (bit_vector);
}

/// Bits outside the mask are left alone by `set_bit` and `clear_bit`; bits
/// inside it become one and zero respectively.
pub proof fn lemma_set_clear_bitwise(n: u32, mask: u32, j: u32)
    requires
        j < 32,
    ensures
        bit_is_set(set_bit_spec(n, mask), j) == (bit_is_set(n, j) || bit_is_set(mask, j)),
        bit_is_set(clear_bit_spec(n, mask), j) == (bit_is_set(n, j) && !bit_is_set(mask, j)),
{
    assert((((n | mask) >> j) & 1 == 1) == (((n >> j) & 1 == 1) || ((mask >> j) & 1 == 1)))
        by (bit_vector)
        requires
            j < 32,
    ;
    assert((((n & !mask) >> j) & 1 == 1) == (((n >> j) & 1 == 1) && !((mask >> j) & 1 == 1)))
        by (bit_vector)
        requires
            j < 32,
    ;
}

/// The single-bit mask for position `i`.
pub open spec fn single_bit(i: u32) -> u32 {
    1u32 << i
}

proof fn lemma_single_bit(n: u32, i: u32, j: u32)
    requires
        i < 32,
        j < 32,
    ensures
        bit_is_set(single_bit(i), j) == (i == j),
        (n & single_bit(i) != 0) == bit_is_set(n, i),
{
    assert(((((1u32 << i) >> j) & 1) == 1) == (i == j)) by (bit_vector)
        requires
            i < 32,
            j < 32,
    ;
    assert(((n & (1u32 << i)) != 0) == (((n >> i) & 1) == 1)) by (bit_vector)
        requires
            i < 32,
    ;
}

proof fn lemma_ones_below_single(n: u32, i: u32, k: nat)
    requires
        i < 32,
        k <= 32,
    ensures
        ones_below(set_bit_spec(n, single_bit(i)), k) == ones_below(n, k) + if i < k
            && !bit_is_set(n, i) {
            1nat
        } else {
            0nat
        },
        ones_below(clear_bit_spec(n, single_bit(i)), k) + if i < k && bit_is_set(n, i) {
            1nat
        } else {
            0nat
        } == ones_below(n, k),
    decreases k,
{
    if k > 0 {
        let j = (k - 1) as u32;
        lemma_ones_below_single(n, i, (k - 1) as nat);
        lemma_single_bit(n, i, j);
        lemma_set_clear_bitwise(n, single_bit(i), j);
    }
}

proof fn lemma_ones_below_zero(k: nat)
    requires
        k <= 32,
    ensures
        ones_below(0, k) == 0,
    decreases k,
{
    if k > 0 {
        lemma_ones_below_zero((k - 1) as nat);
        let j = (k - 1) as u32;
        assert(((0u32 >> j) & 1) != 1) by (bit_vector)
            requires
                j < 32,
        ;
    }
}

/// Zero has no one bits. With `lemma_bit_count_single` this fixes the count
/// of every value: each one bit turned on adds exactly one.
pub proof fn lemma_bit_count_zero()
    ensures
        popcount(0) == 0,
{
    lemma_ones_below_zero(32);
}

/// Turning on bit `i` raises the count by one exactly when that bit was off;
/// turning it off lowers the count by one exactly when it was on.
pub proof fn lemma_bit_count_single(n: u32, i: u32)
    requires
        i < 32,
    ensures
        popcount(set_bit_spec(n, single_bit(i))) == popcount(n) + if n & single_bit(i) != 0 {
            0nat
        } else {
            1nat
        },
        popcount(clear_bit_spec(n, single_bit(i))) + if n & single_bit(i) != 0 {
            1nat
        } else {
            0nat
        } == popcount(n),
{
    lemma_ones_below_single(n, i, 32);
    lemma_single_bit(n, i, i);
}

} // verus!
