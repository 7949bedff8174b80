//! Compact, bit-exact indexed collections.
//!
//! The crate offers three packed data structures built around one idea:
//! store exactly as many bits as the data needs, pack them into 32-bit
//! words, and expose safe, fully specified views over that packing.
//!
//! - [`bitset::Bitset`]: a sequence of `u32` words read and written at the
//!   bit level, including reads of arbitrary width that straddle word
//!   boundaries.
//! - [`jagged_array::JaggedArray`] and [`jagged_vec::JaggedVec`]: jagged
//!   (ragged) row stores that keep all rows in one flat buffer plus a
//!   compact array of row-end offsets; the first is read-only, the second
//!   supports pushing and popping rows.
//! - [`packed_int_array::PackedIntArray`]: an associative array of small
//!   integers in which every value occupies the minimum fixed bit width,
//!   with the all-ones pattern per slot reserved to mean "absent".

use vstd::prelude::*;

pub mod bits;
pub mod bitset;
pub mod jagged_array;
pub mod jagged_vec;
pub mod packed_int_array;

verus! {

/// Integer division rounded up, as a specification-level function.
pub open spec fn spec_div_ceil(lhs: nat, rhs: nat) -> nat
    recommends
        rhs > 0,
{
    ((lhs + rhs - 1) / rhs as int) as nat
}

/// Integer division rounded up.
pub fn div_ceil(lhs: usize, rhs: usize) -> (r: usize)
    requires
        rhs > 0,
        lhs + rhs <= usize::MAX,
    ensures
        r == spec_div_ceil(lhs as nat, rhs as nat),
{
    (lhs + rhs - 1) / rhs
}

/// The position of the most significant set bit of `n`, counted from one;
/// `0` when `n == 0`. Equivalently: the least `k` with `n < pow2(k)`.
pub open spec fn spec_msb(n: nat) -> nat
    decreases n,
{
    if n == 0 {
        0
    } else {
        1 + spec_msb(n / 2)
    }
}

/// Number of bits needed to represent `v`: `32 - v.leading_zeros()`.
///
/// Returns the unique `r` such that `v < pow2(r)` and, when `v > 0`,
/// `pow2(r - 1) <= v`.
pub fn most_significant_bit(v: u32) -> (r: u32)
    ensures
        r == spec_msb(v as nat),
        r <= 32,
{
    let mut n: u32 = v;
    let mut r: u32 = 0;
    proof {
        lemma_msb_le_32(v as nat);
    }
    while n > 0
        invariant
            spec_msb(v as nat) == r + spec_msb(n as nat),
            r <= 32,
            n <= v,
            spec_msb(n as nat) + r <= 32,
        decreases n,
    {
        proof {
            lemma_msb_le_32(n as nat);
        }
        n = n / 2;
        r = r + 1;
    }
    r
}

/// The most significant bit position of a 32-bit value is at most 32.
pub proof fn lemma_msb_le_32(n: nat)
    requires
        n <= u32::MAX,
    ensures
        spec_msb(n) <= 32,
{
    vstd::arithmetic::power2::lemma2_to64();
    lemma_msb_bound_by_pow2(n, 32);
}

/// If `n < pow2(k)` then `spec_msb(n) <= k`.
pub proof fn lemma_msb_bound_by_pow2(n: nat, k: nat)
    requires
        n < vstd::arithmetic::power2::pow2(k),
    ensures
        spec_msb(n) <= k,
    decreases k,
{
    if n == 0 {
    } else if k == 0 {
        vstd::arithmetic::power2::lemma2_to64();
    } else {
        vstd::arithmetic::power2::lemma_pow2_unfold(k);
        lemma_msb_bound_by_pow2(n / 2, (k - 1) as nat);
    }
}

/// `n < pow2(spec_msb(n))`, and when `n > 0`, `pow2(spec_msb(n) - 1) <= n`:
/// `spec_msb(n)` is exactly the number of binary digits of `n`.
pub proof fn lemma_msb_exact(n: nat)
    ensures
        n < vstd::arithmetic::power2::pow2(spec_msb(n)),
        n > 0 ==> vstd::arithmetic::power2::pow2((spec_msb(n) - 1) as nat) <= n,
    decreases n,
{
    if n == 0 {
        vstd::arithmetic::power2::lemma2_to64();
    } else {
        lemma_msb_exact(n / 2);
        vstd::arithmetic::power2::lemma_pow2_unfold(spec_msb(n));
        if n / 2 > 0 {
            vstd::arithmetic::power2::lemma_pow2_unfold((spec_msb(n) - 1) as nat);
        } else {
            vstd::arithmetic::power2::lemma2_to64();
        }
    }
}

} // verus!
