//! The bit-level model shared by the packed collections.
//!
//! A buffer is a sequence of 32-bit words; bit `i` of the buffer lives at
//! offset `i % 32` of word `i / 32`. Everything the collections promise is
//! stated over [`seq_bit`] (is bit `i` set?) and [`bits_value`] (the integer
//! formed by a run of bits), defined here together with the lemmas that
//! connect them to machine shifts and masks.

use vstd::prelude::*;

verus! {

use vstd::arithmetic::power2::{
    pow2,
    lemma_pow2_unfold,
    lemma_pow2_adds,
    lemma_pow2_pos,
    lemma2_to64,
};
use vstd::arithmetic::div_mod::{
    lemma_fundamental_div_mod_converse,
    lemma_mod_breakdown,
    lemma_div_denominator,
};
use vstd::bits::{
    lemma_u32_shr_is_div,
    lemma_u32_shl_is_mul,
    lemma_u32_pow2_no_overflow,
    lemma_u32_low_bits_mask_is_mod,
    low_bits_mask,
};

/// Bit `o` of the word `w`, for `o < 32`.
pub open spec fn u32_bit(w: u32, o: nat) -> bool {
    (w >> (o as u32)) & 1u32 == 1u32
}

/// Bit `i` of a word buffer; `false` past the end of the buffer.
pub open spec fn seq_bit(words: Seq<u32>, i: int) -> bool {
    &&& 0 <= i < words.len() * 32
    &&& u32_bit(words[i / 32], (i % 32) as nat)
}

/// The integer formed by the `n` bits starting at `at`, least significant
/// first; bits past the end of the buffer read as zero.
pub open spec fn bits_value(words: Seq<u32>, at: int, n: nat) -> nat
    decreases n,
{
    if n == 0 {
        0
    } else {
        (if seq_bit(words, at) {
            1nat
        } else {
            0nat
        }) + 2 * bits_value(words, at + 1, (n - 1) as nat)
    }
}

/// The mask with the low `n` bits set, saturating at all 32.
pub open spec fn spec_mask(n: nat) -> u32 {
    if n >= 32 {
        u32::MAX
    } else {
        (low_bits_mask(n) as u32)
    }
}

/// Creates a mask with the `n` least significant bits set; all bits for
/// `n >= 32` (a plain shift of `1 << n` would overflow there).
pub fn safe_n_mask(n: u32) -> (r: u32)
    ensures
        r == spec_mask(n as nat),
{
    if n >= 32 {
        u32::MAX
    } else {
        proof {
            lemma_u32_pow2_no_overflow(n as nat);
            lemma_u32_shl_is_mul(1u32, n);
        }
        (1u32 << n) - 1
    }
}

/// Connects the bit-test `u32_bit` to arithmetic: bit `o` of `w` is the
/// parity of `w / pow2(o)`.
pub proof fn lemma_u32_bit_arith(w: u32, o: nat)
    requires
        o < 32,
    ensures
        u32_bit(w, o) <==> (w as nat / pow2(o)) % 2 == 1,
{
    lemma_u32_shr_is_div(w, o as u32);
    lemma_u32_low_bits_mask_is_mod((w >> (o as u32)) as u32, 1);
    lemma2_to64();
}

/// The value of `n` bits read from offset `off` of a single word is
/// `(w / pow2(off)) % pow2(n)`.
pub proof fn lemma_word_bits_value(words: Seq<u32>, m: int, off: nat, n: nat)
    requires
        0 <= m < words.len(),
        off + n <= 32,
    ensures
        bits_value(words, m * 32 + off, n) == (words[m] as nat / pow2(off)) % pow2(n),
    decreases n,
{
    let w = words[m];
    if n == 0 {
        lemma_pow2_pos(off);
        lemma2_to64();
    } else {
        let x = w as nat / pow2(off);
        lemma_word_bits_value(words, m, off + 1, (n - 1) as nat);
        // x / 2 == w / pow2(off + 1)
        lemma_pow2_pos(off);
        lemma_pow2_adds(off, 1);
        lemma2_to64();
        lemma_div_denominator(w as int, pow2(off) as int, 2);
        // x % pow2(n) == x % 2 + 2 * ((x / 2) % pow2(n - 1))
        lemma_pow2_adds(1, (n - 1) as nat);
        lemma_pow2_pos((n - 1) as nat);
        lemma_mod_breakdown(x as int, 2, pow2((n - 1) as nat) as int);
        // the first bit
        lemma_u32_bit_arith(w, off);
        lemma_bit_index_bounds(words, m, off);
    }
}

/// Bit `m * 32 + o` of the buffer is bit `o` of word `m`.
pub proof fn lemma_bit_index_bounds(words: Seq<u32>, m: int, o: nat)
    requires
        0 <= m < words.len(),
        o < 32,
    ensures
        seq_bit(words, m * 32 + o) == u32_bit(words[m], o),
{
    let i = m * 32 + o;
    lemma_fundamental_div_mod_converse(i, 32, m, o as int);
    assert(m * 32 <= (words.len() - 1) * 32) by (nonlinear_arith)
        requires
            m <= words.len() - 1,
    ;
}

/// A run of bits that lies entirely past the end of the buffer has value 0.
pub proof fn lemma_bits_value_past_end(words: Seq<u32>, at: int, n: nat)
    requires
        at >= words.len() * 32,
    ensures
        bits_value(words, at, n) == 0,
    decreases n,
{
    if n > 0 {
        lemma_bits_value_past_end(words, at + 1, (n - 1) as nat);
    }
}

/// Splits the value of `n` bits at the `k`-th bit:
/// low `k` bits plus `pow2(k)` times the remaining `n - k` bits.
pub proof fn lemma_bits_value_split(words: Seq<u32>, at: int, n: nat, k: nat)
    requires
        k <= n,
    ensures
        bits_value(words, at, n) == bits_value(words, at, k) + pow2(k) * bits_value(
            words,
            at + k,
            (n - k) as nat,
        ),
    decreases k,
{
    if k == 0 {
        lemma2_to64();
    } else {
        lemma_bits_value_split(words, at + 1, (n - 1) as nat, (k - 1) as nat);
        lemma_pow2_unfold(k);
        assert(2 * (bits_value(words, at + 1, (k - 1) as nat) + pow2((k - 1) as nat) * bits_value(
            words,
            at + k,
            (n - k) as nat,
        )) == 2 * bits_value(words, at + 1, (k - 1) as nat) + (2 * pow2((k - 1) as nat))
            * bits_value(words, at + k, (n - k) as nat)) by (nonlinear_arith);
    }
}

/// The value of `n` bits is below `pow2(n)`.
pub proof fn lemma_bits_value_bound(words: Seq<u32>, at: int, n: nat)
    ensures
        bits_value(words, at, n) < pow2(n),
    decreases n,
{
    if n == 0 {
        lemma2_to64();
    } else {
        lemma_bits_value_bound(words, at + 1, (n - 1) as nat);
        lemma_pow2_unfold(n);
    }
}

/// Reading bits one past another: each bit of the value matches the
/// corresponding buffer bit.
pub proof fn lemma_bits_value_bit(words: Seq<u32>, at: int, n: nat, j: nat)
    requires
        j < n,
    ensures
        (bits_value(words, at, n) / pow2(j)) % 2 == (if seq_bit(words, at + j) {
            1nat
        } else {
            0nat
        }),
    decreases j,
{
    let v = bits_value(words, at, n);
    let b: nat = if seq_bit(words, at) {
        1
    } else {
        0
    };
    let rest = bits_value(words, at + 1, (n - 1) as nat);
    if j == 0 {
        lemma2_to64();
        assert(v % 2 == b) by (nonlinear_arith)
            requires
                v == b + 2 * rest,
                b == 0 || b == 1,
        ;
        assert(v / pow2(0) == v);
    } else {
        lemma_bits_value_bit(words, at + 1, (n - 1) as nat, (j - 1) as nat);
        assert((rest / pow2((j - 1) as nat)) % 2 == (if seq_bit(words, at + j) {
            1nat
        } else {
            0nat
        }));
        // v / pow2(j) == rest / pow2(j - 1)
        lemma_pow2_adds(1, (j - 1) as nat);
        lemma_pow2_pos((j - 1) as nat);
        lemma2_to64();
        assert(pow2(j) == 2 * pow2((j - 1) as nat));
        assert(v / 2 == rest) by (nonlinear_arith)
            requires
                v == b + 2 * rest,
                b == 0 || b == 1,
        ;
        lemma_div_denominator(v as int, 2, pow2((j - 1) as nat) as int);
        assert(v as int / pow2(j) as int == rest as int / pow2((j - 1) as nat) as int);
    }
}

/// A bit index below `len * 32` names a word below `len`, and conversely.
pub proof fn lemma_index_in_words(len: int, i: int)
    requires
        0 <= i,
        0 <= len,
    ensures
        i < len * 32 <==> i / 32 < len,
{
    assert(i < len * 32 <==> i / 32 < len) by (nonlinear_arith)
        requires
            0 <= i,
            0 <= len,
    ;
}

/// The ascending sequence of the indices of the set bits in `[start, end)`.
pub open spec fn ones_seq(words: Seq<u32>, start: int, end: int) -> Seq<usize>
    decreases end - start,
{
    if end <= start {
        Seq::empty()
    } else {
        ones_seq(words, start, end - 1) + (if seq_bit(words, end - 1) {
            seq![(end - 1) as usize]
        } else {
            Seq::empty()
        })
    }
}

/// How many bits are set in `[start, end)`: the population count of that
/// range of the buffer.
pub open spec fn count_ones_in(words: Seq<u32>, start: int, end: int) -> nat
    decreases end - start,
{
    if end <= start {
        0
    } else {
        count_ones_in(words, start, end - 1) + (if seq_bit(words, end - 1) {
            1nat
        } else {
            0nat
        })
    }
}

/// The sequence of set-bit indices holds exactly the set bits of the range,
/// in strictly increasing order, and its length is the population count of
/// the range.
pub proof fn lemma_ones_seq_exact(words: Seq<u32>, start: int, end: int)
    requires
        0 <= start,
        end <= usize::MAX,
    ensures
        forall|b: usize| #[trigger]
            ones_seq(words, start, end).contains(b) <==> (start <= b < end && seq_bit(
                words,
                b as int,
            )),
        forall|k1: int, k2: int|
            0 <= k1 < k2 < ones_seq(words, start, end).len() ==> #[trigger] ones_seq(
                words,
                start,
                end,
            )[k1] < #[trigger] ones_seq(words, start, end)[k2],
        ones_seq(words, start, end).len() == count_ones_in(words, start, end),
    decreases end - start,
{
    if end <= start {
    } else {
        lemma_ones_seq_exact(words, start, end - 1);
        let prev = ones_seq(words, start, end - 1);
        let cur = ones_seq(words, start, end);
        assert forall|b: usize| #[trigger]
            cur.contains(b) <==> (start <= b < end && seq_bit(words, b as int)) by {
            if cur.contains(b) {
                let k = choose|k: int| 0 <= k < cur.len() && cur[k] == b;
                if k < prev.len() {
                    assert(prev.contains(b));
                } else {
                    assert(seq_bit(words, end - 1));
                }
            }
            if start <= b < end && seq_bit(words, b as int) {
                if b < end - 1 {
                    assert(prev.contains(b));
                    let k = choose|k: int| 0 <= k < prev.len() && prev[k] == b;
                    assert(cur[k] == b);
                } else {
                    assert(cur[cur.len() - 1] == b);
                }
            }
        }
        assert forall|k1: int, k2: int| 0 <= k1 < k2 < cur.len() implies #[trigger] cur[k1]
            < #[trigger] cur[k2] by {
            if k2 < prev.len() {
            } else {
                // the last element, if new, is end - 1, above every element
                // of the prefix
                assert(prev.contains(prev[k1]));
            }
        }
    }
}

/// A range is entirely set exactly when its population count equals its
/// width.
pub proof fn lemma_count_all_ones(words: Seq<u32>, start: int, end: int)
    requires
        start <= end,
    ensures
        count_ones_in(words, start, end) <= end - start,
        count_ones_in(words, start, end) == end - start <==> (forall|b: int|
            start <= b < end ==> seq_bit(words, b)),
    decreases end - start,
{
    if start < end {
        lemma_count_all_ones(words, start, end - 1);
    }
}

/// Two runs of bits with the same value, bit by bit: if every bit matches,
/// the values match.  Conversely equal values give equal bits via
/// [`lemma_bits_value_bit`].
pub proof fn lemma_bits_value_eq(words1: Seq<u32>, at1: int, words2: Seq<u32>, at2: int, n: nat)
    requires
        forall|j: int| 0 <= j < n ==> #[trigger] seq_bit(words1, at1 + j) == seq_bit(
            words2,
            at2 + j,
        ),
    ensures
        bits_value(words1, at1, n) == bits_value(words2, at2, n),
    decreases n,
{
    if n > 0 {
        assert(seq_bit(words1, at1) == seq_bit(words2, at2)) by {
            assert(seq_bit(words1, at1 + 0) == seq_bit(words2, at2 + 0));
        }
        assert forall|j: int| 0 <= j < n - 1 implies #[trigger] seq_bit(words1, at1 + 1 + j)
            == seq_bit(words2, at2 + 1 + j) by {
            assert(seq_bit(words1, at1 + (j + 1)) == seq_bit(words2, at2 + (j + 1)));
        }
        lemma_bits_value_eq(words1, at1 + 1, words2, at2 + 1, (n - 1) as nat);
    }
}

} // verus!
