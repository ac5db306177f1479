//! Powers of two, and the bit trick that wraps an index around a ring whose
//! size is one.
use vstd::prelude::*;

verus! {

/// `n` is 1, 2, 4, 8, ...: halving it reaches 1 through even numbers only.
pub open spec fn is_pow2(n: nat) -> bool
    decreases n,
{
    if n == 1 {
        true
    } else if n < 2 || n % 2 != 0 {
        false
    } else {
        is_pow2(n / 2)
    }
}

/// Whether `n` is a power of two.
pub fn is_power_of_two(n: usize) -> (r: bool)
    ensures
        r == is_pow2(n as nat),
{
    let mut m: usize = n;
    while m >= 2 && m % 2 == 0
        invariant
            is_pow2(n as nat) == is_pow2(m as nat),
        decreases m,
    {
        m = m / 2;
    }
    m == 1
}

/// A power of two has a single bit set.
proof fn lemma_pow2_single_bit(n: usize)
    requires
        is_pow2(n as nat),
    ensures
        n > 0,
        n & (n - 1) as usize == 0,
    decreases n,
{
    if n != 1 {
        let h: usize = n / 2;
        lemma_pow2_single_bit(h);
        assert(n == h << 1usize) by (bit_vector)
            requires n == h * 2;
        assert((h << 1usize) & ((h << 1usize) - 1) as usize == 0) by (bit_vector)
            requires h > 0, h & (h - 1) as usize == 0, h < 0x8000_0000_0000_0000;
    } else {
        assert(1usize & (1usize - 1) as usize == 0) by (bit_vector);
    }
}

/// For a power of two `m`, masking with `m - 1` is reduction modulo `m`
/// for every value up to `m`.
pub proof fn lemma_mask_wraps(m: usize, x: usize)
    requires
        is_pow2(m as nat),
        x <= m,
    ensures
        x & (m - 1) as usize == x % m,
        x & (m - 1) as usize == (if x < m { x } else { 0 }),
{
    lemma_pow2_single_bit(m);
    if x < m {
        assert(x & (m - 1) as usize == x) by (bit_vector)
            requires m > 0, m & (m - 1) as usize == 0, x < m;
        vstd::arithmetic::div_mod::lemma_small_mod(x as nat, m as nat);
    } else {
        assert(x & (m - 1) as usize == 0) by (bit_vector)
            requires x == m, m & (m - 1) as usize == 0;
        vstd::arithmetic::div_mod::lemma_mod_self_0(m as int);
    }
}

} // verus!
