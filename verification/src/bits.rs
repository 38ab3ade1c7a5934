//! Bit counting over 64-bit hashes.

use vstd::prelude::*;

verus! {

/// One if bit `i` (counted from the least significant end) of `n` is set.
pub open spec fn bit_at(n: u64, i: nat) -> nat {
    if (n >> i) & 1 == 1 { 1 } else { 0 }
}

/// The number of set bits among the low `k` bits of `n`.
pub open spec fn ones_below(n: u64, k: nat) -> nat
    decreases k,
{
    if k == 0 {
        0
    } else {
        ones_below(n, (k - 1) as nat) + bit_at(n, (k - 1) as nat)
    }
}

/// The number of set bits of `n`.
pub open spec fn popcount(n: u64) -> nat {
    ones_below(n, 64)
}

/// At most `k` of the low `k` bits are set.
pub proof fn lemma_ones_below_bound(n: u64, k: nat)
    ensures
        ones_below(n, k) <= k,
    decreases k,
{
    if k > 0 {
        lemma_ones_below_bound(n, (k - 1) as nat);
    }
}

/// Zero has no set bits.
pub proof fn lemma_ones_below_zero(k: nat)
    requires
        k <= 64,
    ensures
        ones_below(0, k) == 0,
    decreases k,
{
    if k > 0 {
        lemma_ones_below_zero((k - 1) as nat);
        let j = (k - 1) as u64;
        assert((0u64 >> j) & 1 == 0) by (bit_vector);
    }
}

/// A 64-bit number has at most 64 set bits.
pub proof fn lemma_popcount_bound(n: u64)
    ensures
        popcount(n) <= 64,
{
    lemma_ones_below_bound(n, 64);
}

/// The number of bit positions in which `a` and `b` differ.
pub open spec fn hamming(a: u64, b: u64) -> nat {
    popcount(a ^ b)
}

/// Complementing flips each of the low `k` bits.
proof fn lemma_ones_below_not(n: u64, k: nat)
    requires
        k <= 64,
    ensures
        ones_below(!n, k) + ones_below(n, k) == k,
    decreases k,
{
    if k > 0 {
        lemma_ones_below_not(n, (k - 1) as nat);
        let j = (k - 1) as u64;
        assert(((!n) >> j) & 1 == 1 <==> !((n >> j) & 1 == 1)) by (bit_vector)
            requires
                j < 64,
        ;
    }
}

/// The complement of a 64-bit number has exactly the bits set that the
/// number has clear.
pub proof fn lemma_popcount_not(n: u64)
    ensures
        popcount(!n) == 64 - popcount(n),
{
    lemma_ones_below_not(n, 64);
}

/// Counting the set bits of the complement of `a ^ b` counts the positions
/// in which `a` and `b` agree.
pub proof fn lemma_popcount_not_xor(a: u64, b: u64)
    ensures
        popcount(!(a ^ b)) == 64 - hamming(a, b),
{
    lemma_popcount_not(a ^ b);
}

/// Counts the set bits of `n`, one bit per step over all 64 bits.
pub fn count_bits(n: u64) -> (count: u8)
    ensures
        count == popcount(n),
        count <= 64,
{
    let ghost orig = n;
    let mut n = n;
    let mut count: u8 = 0;
    let mut i: u32 = 0;
    assert(orig >> 0u32 == orig) by (bit_vector);
    while i < 64
        invariant
            i <= 64,
            n == orig >> i,
            count == ones_below(orig, i as nat),
            count <= i,
        decreases 64 - i,
    {
        proof {
            lemma_ones_below_bound(orig, i as nat);
            let ii = i;
            assert((n % 2 == 1) == ((orig >> ii) & 1 == 1)) by (bit_vector)
                requires
                    n == orig >> ii,
            ;
            assert((orig >> ii) >> 1u64 == orig >> ((ii + 1) as u32)) by (bit_vector)
                requires
                    ii < 64,
            ;
        }
        if n % 2 == 1 {
            count += 1;
        }
        n >>= 1;
        i += 1;
    }
    count
}

} // verus!
