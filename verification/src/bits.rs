//! Population count and the word-level matching measure that scores are
//! built from.

use vstd::prelude::*;

verus! {

/// Count of set bits of `n`, as a mathematical function.
pub open spec fn pc(n: u32) -> nat
    decreases n,
{
    if n == 0 {
        0
    } else {
        (n % 2) as nat + pc(n / 2)
    }
}

/// Number of bit positions (out of 32) where `x` and `t` agree.
pub open spec fn matching_bits(x: u32, t: u32) -> int {
    32 - pc(x ^ t)
}

/// A word below `2^k` has at most `k` set bits.
pub proof fn lemma_pc_bound(n: u32, k: u32)
    requires
        (n as u64) < (1u64 << k),
        k <= 32,
    ensures
        pc(n) <= k,
    decreases k,
{
    if n == 0 {
    } else {
        assert(k > 0) by (bit_vector)
            requires
                (n as u64) < (1u64 << k),
                n != 0u32,
                k <= 32u32,
        ;
        let km1 = (k - 1) as u32;
        assert(((n / 2) as u64) < (1u64 << km1)) by (bit_vector)
            requires
                (n as u64) < (1u64 << k),
                1 <= k <= 32u32,
                km1 + 1 == k,
        ;
        lemma_pc_bound(n / 2, km1);
    }
}

/// Every 32-bit word has at most 32 set bits.
pub proof fn lemma_pc_le_32(n: u32)
    ensures
        pc(n) <= 32,
{
    assert((n as u64) < (1u64 << 32u64)) by (bit_vector);
    lemma_pc_bound(n, 32);
}

/// The low `w` bits of the complement of `y` hold `w - pc(y)` set bits,
/// for `y` below `2^w`.
proof fn lemma_pc_not_masked(y: u32, w: u32)
    requires
        w <= 32,
        (y as u64) < (1u64 << w),
    ensures
        pc(!y & (((1u64 << w) - 1) as u32)) + pc(y) == w,
    decreases w,
{
    let m = ((1u64 << w) - 1) as u32;
    if w == 0 {
        assert(y == 0 && m == 0 && (!y & m) == 0u32) by (bit_vector)
            requires
                (y as u64) < (1u64 << w),
                m == ((1u64 << w) - 1) as u32,
                w == 0u32,
        ;
        assert(pc(!y & m) + pc(y) == w);
    } else {
        let wm1 = (w - 1) as u32;
        let m2 = ((1u64 << wm1) - 1) as u32;
        assert(((y / 2) as u64) < (1u64 << wm1)) by (bit_vector)
            requires
                (y as u64) < (1u64 << w),
                1 <= w <= 32,
                wm1 + 1 == w,
        ;
        lemma_pc_not_masked(y / 2, wm1);
        assert((!y & m) % 2 + y % 2 == 1 && (!y & m) / 2 == !(y / 2) & m2) by (bit_vector)
            requires
                (y as u64) < (1u64 << w),
                1 <= w <= 32,
                wm1 + 1 == w,
                m == ((1u64 << w) - 1) as u32,
                m2 == ((1u64 << wm1) - 1) as u32,
        ;
        assert(pc(!y & m) == ((!y & m) % 2) as nat + pc((!y & m) / 2));
        assert(pc(y) == (y % 2) as nat + pc(y / 2));
        assert(pc((!y & m) / 2) == pc(!(y / 2) & m2));
        assert(pc(!(y / 2) & m2) + pc(y / 2) == wm1);
        assert(pc(!y & m) + pc(y) == w);
    }
}

/// Complementing a word swaps set and clear bits: `pc(!y) == 32 - pc(y)`.
pub proof fn lemma_pc_not(y: u32)
    ensures
        pc(!y) + pc(y) == 32,
{
    assert((y as u64) < (1u64 << 32u64)) by (bit_vector);
    lemma_pc_not_masked(y, 32);
    assert(!y & (((1u64 << 32u64) - 1) as u32) == !y) by (bit_vector);
}

/// Number of set bits of a word (population count).
pub fn popcount(n: u32) -> (r: u32)
    ensures
        r == pc(n),
        r <= 32,
{
    proof {
        lemma_pc_le_32(n);
    }
    let mut x: u32 = n;
    let mut r: u32 = 0;
    while x > 0
        invariant
            r + pc(x) == pc(n),
            pc(n) <= 32,
        decreases x,
    {
        r = r + x % 2;
        x = x / 2;
    }
    r
}

} // verus!
