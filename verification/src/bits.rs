//! Bit-level facts about `u64` words used as sets of small integers.
use vstd::prelude::*;

verus! {

/// Bit `i` of `x` is one.
pub open spec fn bit_set(x: u64, i: int) -> bool {
    0 <= i < 64 && (x >> (i as u64)) & 1u64 == 1u64
}

/// Number of one bits among positions `0..n` of `x`.
pub open spec fn count_bits(x: u64, n: nat) -> nat
    decreases n,
{
    if n == 0 {
        0
    } else {
        count_bits(x, (n - 1) as nat) + if bit_set(x, n - 1) { 1nat } else { 0nat }
    }
}

/// The number of one bits of `x`.
pub fn count_ones(x: u64) -> (r: u32)
    ensures
        r == count_bits(x, 64),
{
    let mut r: u32 = 0;
    let mut i: u64 = 0;
    while i < 64
        invariant
            i <= 64,
            r == count_bits(x, i as nat),
            r <= i,
        decreases 64 - i,
    {
        if (x >> i) & 1u64 == 1u64 {
            r = r + 1;
        }
        i = i + 1;
    }
    r
}

pub proof fn lemma_bit_or(a: u64, b: u64, i: int)
    requires
        0 <= i < 64,
    ensures
        bit_set(a | b, i) == (bit_set(a, i) || bit_set(b, i)),
{
    let k = i as u64;
    assert(((a | b) >> k) & 1u64 == 1u64 <==> ((a >> k) & 1u64 == 1u64 || (b >> k) & 1u64 == 1u64))
        by (bit_vector)
        requires
            k < 64,
    ;
}

pub proof fn lemma_bit_and(a: u64, b: u64, i: int)
    requires
        0 <= i < 64,
    ensures
        bit_set(a & b, i) == (bit_set(a, i) && bit_set(b, i)),
{
    let k = i as u64;
    assert(((a & b) >> k) & 1u64 == 1u64 <==> ((a >> k) & 1u64 == 1u64 && (b >> k) & 1u64 == 1u64))
        by (bit_vector)
        requires
            k < 64,
    ;
}

pub proof fn lemma_bit_not(a: u64, i: int)
    requires
        0 <= i < 64,
    ensures
        bit_set(!a, i) == !bit_set(a, i),
{
    let k = i as u64;
    assert(((!a) >> k) & 1u64 == 1u64 <==> !((a >> k) & 1u64 == 1u64)) by (bit_vector)
        requires
            k < 64,
    ;
}

pub proof fn lemma_bit_single(k: u64, i: int)
    requires
        k < 64,
        0 <= i < 64,
    ensures
        bit_set(1u64 << k, i) == (i == k),
{
    let j = i as u64;
    assert(((1u64 << k) >> j) & 1u64 == 1u64 <==> j == k) by (bit_vector)
        requires
            k < 64,
            j < 64,
    ;
}

pub proof fn lemma_bit_zero(i: int)
    ensures
        !bit_set(0u64, i),
{
    if 0 <= i < 64 {
        let j = i as u64;
        assert((0u64 >> j) & 1u64 == 0u64) by (bit_vector);
    }
}

/// A word below `2^52` has no bit at or above position 52.
pub proof fn lemma_bit_high(x: u64, i: int)
    requires
        x < 0x10000000000000u64,
        52 <= i,
    ensures
        !bit_set(x, i),
{
    if i < 64 {
        let j = i as u64;
        assert((x >> j) & 1u64 == 0u64) by (bit_vector)
            requires
                x < 0x10000000000000u64,
                52 <= j < 64,
        ;
    }
}

/// Bits at or above `n` do not change the count below `n`; those above 52 are zero.
pub proof fn lemma_count_bits_high(x: u64, n: nat)
    requires
        x < 0x10000000000000u64,
        52 <= n <= 64,
    ensures
        count_bits(x, n) == count_bits(x, 52),
    decreases n,
{
    if n > 52 {
        lemma_bit_high(x, n - 1);
        lemma_count_bits_high(x, (n - 1) as nat);
    }
}

/// Words agreeing on all bits at or above `k` agree shifted right by `k`.
proof fn lemma_bits_ext_from(x: u64, y: u64, k: u64)
    requires
        k <= 64,
        forall|i: int| 0 <= i < 64 ==> bit_set(x, i) == bit_set(y, i),
    ensures
        x >> k == y >> k,
    decreases 64 - k,
{
    if k == 64 {
        assert(x >> 64u64 == 0u64 && y >> 64u64 == 0u64) by (bit_vector);
    } else {
        let k1: u64 = (k + 1) as u64;
        lemma_bits_ext_from(x, y, k1);
        assert(bit_set(x, k as int) == bit_set(y, k as int));
        assert(x >> k == y >> k) by (bit_vector)
            requires
                k < 64,
                k1 == k + 1,
                x >> k1 == y >> k1,
                ((x >> k) & 1u64 == 1u64) == ((y >> k) & 1u64 == 1u64),
        ;
    }
}

/// Two words with the same bits are equal.
pub proof fn lemma_bits_ext(x: u64, y: u64)
    requires
        forall|i: int| 0 <= i < 64 ==> bit_set(x, i) == bit_set(y, i),
    ensures
        x == y,
{
    lemma_bits_ext_from(x, y, 0);
    assert(x >> 0u64 == x && y >> 0u64 == y) by (bit_vector);
}

/// At most `n` of the first `n` bits are set.
pub proof fn lemma_count_bits_le(x: u64, n: nat)
    ensures
        count_bits(x, n) <= n,
    decreases n,
{
    if n > 0 {
        lemma_count_bits_le(x, (n - 1) as nat);
    }
}

} // verus!
