//! A buffer of `u32` words accessed on the bit level.

use vstd::prelude::*;

verus! {

use core::ops::Range;
use vstd::arithmetic::power2::{pow2, lemma_pow2_adds, lemma_pow2_pos, lemma2_to64};
use vstd::arithmetic::div_mod::{lemma_fundamental_div_mod, lemma_small_mod};
use vstd::bits::{
    lemma_u32_shr_is_div,
    lemma_u32_shl_is_mul,
    lemma_u32_pow2_no_overflow,
    lemma_u32_low_bits_mask_is_mod,
    low_bits_mask,
};
use crate::bits::{
    ones_seq,
    lemma_index_in_words,
    seq_bit,
    u32_bit,
    bits_value,
    spec_mask,
    lemma_word_bits_value,
    lemma_bits_value_past_end,
    lemma_bits_value_split,
    lemma_bits_value_bound,
};

/// A buffer of `u32` words accessed on the bit level: bit `i` lives at
/// offset `i % 32` of word `i / 32`.
///
/// Reads of a single bit treat positions past the end of the buffer as
/// disabled; the view never distinguishes "past the end" from "disabled".
pub struct Bitset(pub Vec<u32>);

/// The indices of the set bits of a range of a [`Bitset`], ascending, taken
/// as a snapshot: later changes to the bitset do not show here, and a fresh
/// call to [`Bitset::ones_in_range`] restarts from scratch.
pub struct Ones {
    indices: Vec<usize>,
    cursor: usize,
    start: usize,
    end: usize,
}

/// What a [`Ones`] value stands for: the bit indices it yields, how many of
/// them were already handed out, and the bounds of the range it was built
/// from.
pub struct OnesModel {
    pub indices: Seq<usize>,
    pub cursor: int,
    pub start: int,
    pub end: int,
}

impl View for Ones {
    type V = OnesModel;

    closed spec fn view(&self) -> OnesModel {
        OnesModel {
            indices: self.indices@,
            cursor: self.cursor as int,
            start: self.start as int,
            end: self.end as int,
        }
    }
}

impl Ones {
    /// The constructors only build values of this shape.
    pub open spec fn wf(&self) -> bool {
        &&& 0 <= self@.cursor <= self@.indices.len()
        &&& 0 <= self@.start <= self@.end
        &&& self@.indices.len() <= self@.end - self@.start
    }

    /// The next set-bit index, in ascending order; `None` once all were
    /// yielded.
    pub fn next(&mut self) -> (r: Option<usize>)
        requires
            old(self).wf(),
        ensures
            final(self).wf(),
            final(self)@.indices == old(self)@.indices,
            final(self)@.start == old(self)@.start,
            final(self)@.end == old(self)@.end,
            old(self)@.cursor < old(self)@.indices.len() ==> r == Some(
                old(self)@.indices[old(self)@.cursor],
            ) && final(self)@.cursor == old(self)@.cursor + 1,
            old(self)@.cursor >= old(self)@.indices.len() ==> r is None && final(self)@.cursor
                == old(self)@.cursor,
    {
        if self.cursor < self.indices.len() {
            let r = self.indices[self.cursor];
            self.cursor = self.cursor + 1;
            Some(r)
        } else {
            None
        }
    }

    /// Exactly how many indices are still to come: an exact count, not a
    /// bound.
    pub fn remaining(&self) -> (r: usize)
        requires
            self.wf(),
        ensures
            r == self@.indices.len() - self@.cursor,
    {
        self.indices.len() - self.cursor
    }

    /// True exactly when every bit of the range this sequence was built
    /// from is set: the count of yielded indices reaches the width of the
    /// range.  This judges the whole range, whether or not part of the
    /// sequence was already consumed.
    pub fn all_one(self) -> (r: bool)
        requires
            self.wf(),
        ensures
            r == (self@.indices.len() == self@.end - self@.start),
    {
        self.indices.len() == self.end - self.start
    }
}

/// Bit `o` of `w | (1 << o)` is set; every other bit of the word keeps its
/// value.
proof fn lemma_or_bit(w: u32, o: u32, j: u32)
    requires
        o < 32,
        j < 32,
    ensures
        u32_bit(w | (1u32 << o), j as nat) == (j == o || u32_bit(w, j as nat)),
{
    assert((((w | (1u32 << o)) >> j) & 1u32 == 1u32) == (j == o || ((w >> j) & 1u32 == 1u32)))
        by (bit_vector)
        requires
            o < 32,
            j < 32,
    ;
}

/// Bit `o` of `w & !(1 << o)` is clear; every other bit of the word keeps
/// its value.
proof fn lemma_andnot_bit(w: u32, o: u32, j: u32)
    requires
        o < 32,
        j < 32,
    ensures
        u32_bit(w & !(1u32 << o), j as nat) == (j != o && u32_bit(w, j as nat)),
{
    assert((((w & !(1u32 << o)) >> j) & 1u32 == 1u32) == (j != o && ((w >> j) & 1u32 == 1u32)))
        by (bit_vector)
        requires
            o < 32,
            j < 32,
    ;
}

/// The zero word has no bit set.
proof fn lemma_zero_bit(j: nat)
    requires
        j < 32,
    ensures
        !u32_bit(0u32, j),
{
    let ju = j as u32;
    assert((0u32 >> ju) & 1u32 == 0u32) by (bit_vector);
}

/// Updating word `i / 32` of `words` with `words[i / 32] | (1 << (i % 32))`
/// sets bit `i` and no other.
proof fn lemma_update_sets_bit(words: Seq<u32>, new: Seq<u32>, i: int)
    requires
        0 <= i < words.len() * 32,
        new == words.update(i / 32, (words[i / 32] | (1u32 << ((i % 32) as u32)))),
    ensures
        new.len() == words.len(),
        forall|j: int| #[trigger] seq_bit(new, j) == (j == i || seq_bit(words, j)),
{
    lemma_index_in_words(words.len() as int, i);
    assert forall|j: int| #[trigger] seq_bit(new, j) == (j == i || seq_bit(words, j)) by {
        if 0 <= j < words.len() * 32 {
            lemma_index_in_words(words.len() as int, j);
            lemma_fundamental_div_mod(j, 32);
            lemma_fundamental_div_mod(i, 32);
            if j / 32 == i / 32 {
                lemma_or_bit(words[i / 32], (i % 32) as u32, (j % 32) as u32);
            }
        }
    }
}

/// Updating word `i / 32` of `words` with `words[i / 32] & !(1 << (i % 32))`
/// clears bit `i` and no other.
proof fn lemma_update_clears_bit(words: Seq<u32>, new: Seq<u32>, i: int)
    requires
        0 <= i < words.len() * 32,
        new == words.update(i / 32, (words[i / 32] & !(1u32 << ((i % 32) as u32)))),
    ensures
        new.len() == words.len(),
        forall|j: int| #[trigger] seq_bit(new, j) == (j != i && seq_bit(words, j)),
{
    lemma_index_in_words(words.len() as int, i);
    assert forall|j: int| #[trigger] seq_bit(new, j) == (j != i && seq_bit(words, j)) by {
        if 0 <= j < words.len() * 32 {
            lemma_index_in_words(words.len() as int, j);
            lemma_fundamental_div_mod(j, 32);
            lemma_fundamental_div_mod(i, 32);
            if j / 32 == i / 32 {
                lemma_andnot_bit(words[i / 32], (i % 32) as u32, (j % 32) as u32);
            }
        }
    }
}

/// `1 << k` equals `pow2(k)` for shifts below the word width.
proof fn lemma_pow2_shl(k: u32)
    requires
        k < 32,
    ensures
        (1u32 << k) == pow2(k as nat),
{
    lemma_u32_pow2_no_overflow(k as nat);
    lemma_u32_shl_is_mul(1u32, k);
}

/// A truncating left shift keeps the low `32 - s` bits of the operand and
/// multiplies them by `pow2(s)`.
proof fn lemma_shl_truncates(w: u32, s: u32)
    requires
        0 < s < 32,
    ensures
        (w << s) == (w as nat % pow2((32 - s) as nat)) * pow2(s as nat),
{
    let t = (32u32 - s) as u32;
    lemma_pow2_shl(t);
    lemma_pow2_shl(s);
    let low = (w & (((1u32 << t) - 1) as u32)) as u32;
    assert((w << s) == ((w & (((1u32 << ((32u32 - s) as u32)) - 1) as u32)) as u32) << s)
        by (bit_vector)
        requires
            0 < s < 32,
    ;
    lemma_u32_low_bits_mask_is_mod(w, t as nat);
    lemma_pow2_adds((32 - s) as nat, s as nat);
    lemma2_to64();
    assert(low * pow2(s as nat) < pow2(32)) by (nonlinear_arith)
        requires
            low < pow2((32 - s) as nat),
            pow2((32 - s) as nat) * pow2(s as nat) == pow2(32),
            pow2(s as nat) > 0,
    ;
    lemma_u32_shl_is_mul(low, s);
}

/// A right shift of a word reads its high bits: the result is both the
/// arithmetic quotient and the value of the bits from `s` upward.
proof fn lemma_shr_reads_high(w: u32, s: u32)
    requires
        0 < s < 32,
    ensures
        (w >> s) == w as nat / pow2(s as nat),
        (w >> s) < pow2((32 - s) as nat),
{
    lemma_u32_shr_is_div(w, s);
    lemma_pow2_adds(s as nat, (32 - s) as nat);
    lemma2_to64();
    assert(w as nat / pow2(s as nat) < pow2((32 - s) as nat)) by (nonlinear_arith)
        requires
            (w as nat) < pow2(s as nat) * pow2((32 - s) as nat),
            pow2(s as nat) > 0,
    ;
}

/// A sum of a low part below `b` and a multiple `m * b` with `m < a` stays
/// below `a * b`.
proof fn lemma_low_high_sum(low: nat, m: nat, a: nat, b: nat)
    by (nonlinear_arith)
    requires
        low < b,
        m < a,
    ensures
        low + m * b < a * b,
{
}

/// The arithmetic heart of the straddling 32-bit read: the low bits of the
/// word at `at / 32` from `at % 32` upward, plus the high bits borrowed from
/// the next word, together form the value of the 32 bits starting at `at`.
proof fn lemma_read32_straddle(words: Seq<u32>, at: int, block: int, offset: u32, w0: u32, w1: u32)
    requires
        at >= 0,
        block == at / 32,
        offset == at % 32,
        0 < offset < 32,
        w0 == (if block < words.len() {
            words[block]
        } else {
            0u32
        }),
        w1 == (if block + 1 < words.len() {
            words[block + 1]
        } else {
            0u32
        }),
    ensures
        (w0 >> offset) + (w1 << ((32u32 - offset) as u32)) <= u32::MAX,
        (w0 >> offset) + (w1 << ((32u32 - offset) as u32)) == bits_value(words, at, 32),
{
    let inset = (32u32 - offset) as u32;
    let off_n = offset as nat;
    let inset_n = inset as nat;
    let len = words.len() as int;
    lemma_fundamental_div_mod(at, 32);
    lemma_shr_reads_high(w0, offset);
    lemma_shl_truncates(w1, inset);
    lemma_pow2_pos(off_n);
    lemma_pow2_pos(inset_n);
    lemma_pow2_adds(off_n, inset_n);
    lemma2_to64();
    let low = (w0 >> offset) as nat;
    let high = (w1 << inset) as nat;
    let m = w1 as nat % pow2(off_n);
    assert(low < pow2(inset_n));
    assert(high == m * pow2(inset_n));
    assert(pow2(off_n) * pow2(inset_n) == pow2(32));
    // the sum does not overflow: the high part is a multiple of
    // pow2(inset) below pow2(32), the low part is below pow2(inset)
    lemma_low_high_sum(low, m, pow2(off_n), pow2(inset_n));
    assert(low + high < pow2(32));
    // split the 32 bits at the word boundary
    lemma_bits_value_split(words, at, 32, inset_n);
    // the low part
    if block < len {
        lemma_word_bits_value(words, block, off_n, inset_n);
        lemma_small_mod(low, pow2(inset_n));
    } else {
        lemma_index_in_words(len, at);
        lemma_bits_value_past_end(words, at, inset_n);
        assert(w0 == 0);
        vstd::arithmetic::div_mod::lemma_div_basics(pow2(off_n) as int);
    }
    assert(bits_value(words, at, inset_n) == low);
    // the high part sits at the start of the next word
    assert(at + inset == (block + 1) * 32);
    if block + 1 < len {
        lemma_word_bits_value(words, block + 1, 0, off_n);
        lemma_pow2_pos(off_n);
        assert(w1 as nat / pow2(0) == w1 as nat);
    } else {
        assert((block + 1) * 32 >= len * 32) by (nonlinear_arith)
            requires
                block + 1 >= len,
        ;
        lemma_bits_value_past_end(words, at + inset, off_n);
        lemma_small_mod(0, pow2(off_n));
    }
    assert(bits_value(words, at + inset, off_n) == m);
    assert((32 - inset_n) as nat == off_n);
    assert(at + inset == at + inset_n);
    assert(bits_value(words, at + inset_n, (32 - inset_n) as nat) == m);
    assert(high == pow2(inset_n) * m) by (nonlinear_arith)
        requires
            high == m * pow2(inset_n),
    ;
    assert(bits_value(words, at, 32) == bits_value(words, at, inset_n) + pow2(inset_n)
        * bits_value(words, at + inset_n, (32 - inset_n) as nat));
    assert(bits_value(words, at, 32) == low + high);
}

/// Masking a 32-bit read down to its low `n` bits yields the value of the
/// `n` bits alone.
proof fn lemma_mask_to_width(v: u32, words: Seq<u32>, at: int, n: nat)
    requires
        n <= 32,
        v == bits_value(words, at, 32),
    ensures
        v & spec_mask(n) == bits_value(words, at, n),
{
    if n == 32 {
        assert(v & u32::MAX == v) by (bit_vector);
    } else {
        lemma_u32_low_bits_mask_is_mod(v, n);
        lemma_u32_pow2_no_overflow(n);
        lemma_bits_value_split(words, at, 32, n);
        lemma_bits_value_bound(words, at, n);
        lemma_pow2_pos(n);
        assert(v == bits_value(words, at, n) + pow2(n) * bits_value(words, at + n, (32 - n) as nat));
        let lowv = bits_value(words, at, n);
        let rest = bits_value(words, at + n, (32 - n) as nat);
        vstd::arithmetic::div_mod::lemma_mod_multiples_vanish(
            rest as int,
            lowv as int,
            pow2(n) as int,
        );
        lemma_small_mod(lowv, pow2(n));
    }
}

impl Bitset {
    /// How many bits this buffer holds: always a multiple of 32.
    pub fn bit_len(&self) -> (r: usize)
        requires
            self.0@.len() * 32 <= usize::MAX,
        ensures
            r == self.0@.len() * 32,
    {
        self.0.len() * 32
    }

    /// True if the bit at `at` is enabled; false if it is disabled or lies
    /// past the end of the buffer.
    pub fn bit(&self, at: usize) -> (r: bool)
        ensures
            r == seq_bit(self.0@, at as int),
    {
        let block = at / 32;
        let offset = (at % 32) as u32;
        if block >= self.0.len() {
            proof {
                lemma_index_in_words(self.0@.len() as int, at as int);
            }
            false
        } else {
            proof {
                lemma_index_in_words(self.0@.len() as int, at as int);
            }
            (self.0[block] >> offset) & 1u32 == 1u32
        }
    }

    /// Enables the bit at `bit`; returns `None` and changes nothing when
    /// `bit` is out of range.
    pub fn enable_bit(&mut self, bit: usize) -> (r: Option<()>)
        ensures
            r is Some <==> bit < old(self).0@.len() * 32,
            final(self).0@.len() == old(self).0@.len(),
            r is Some ==> forall|j: int|
                #[trigger] seq_bit(final(self).0@, j) == (j == bit || seq_bit(old(self).0@, j)),
            r is None ==> final(self).0@ == old(self).0@,
    {
        let block = bit / 32;
        let offset = (bit % 32) as u32;
        proof {
            lemma_index_in_words(self.0@.len() as int, bit as int);
        }
        if block < self.0.len() {
            let w = self.0[block];
            self.0.set(block, w | (1u32 << offset));
            proof {
                lemma_update_sets_bit(old(self).0@, self.0@, bit as int);
            }
            Some(())
        } else {
            None
        }
    }

    /// Disables the bit at `bit`; returns `None` and changes nothing when
    /// `bit` is out of range.
    pub fn disable_bit(&mut self, bit: usize) -> (r: Option<()>)
        ensures
            r is Some <==> bit < old(self).0@.len() * 32,
            final(self).0@.len() == old(self).0@.len(),
            r is Some ==> forall|j: int|
                #[trigger] seq_bit(final(self).0@, j) == (j != bit && seq_bit(old(self).0@, j)),
            r is None ==> final(self).0@ == old(self).0@,
    {
        let block = bit / 32;
        let offset = (bit % 32) as u32;
        proof {
            lemma_index_in_words(self.0@.len() as int, bit as int);
        }
        if block < self.0.len() {
            let w = self.0[block];
            self.0.set(block, w & !(1u32 << offset));
            proof {
                lemma_update_clears_bit(old(self).0@, self.0@, bit as int);
            }
            Some(())
        } else {
            None
        }
    }

    /// Reads the 32 bits starting at `at`; bits past the end of the buffer
    /// read as zero.
    fn read32(&self, at: usize) -> (r: u32)
        ensures
            r == bits_value(self.0@, at as int, 32),
    {
        let words = &self.0;
        let block = at / 32;
        let offset = (at % 32) as u32;
        proof {
            lemma_index_in_words(words@.len() as int, at as int);
            lemma_fundamental_div_mod(at as int, 32);
        }
        if offset == 0 {
            if block < words.len() {
                let w = words[block];
                proof {
                    lemma_word_bits_value(words@, block as int, 0, 32);
                    lemma2_to64();
                    lemma_small_mod(w as nat, pow2(32));
                }
                w
            } else {
                proof {
                    lemma_bits_value_past_end(words@, at as int, 32);
                }
                0
            }
        } else {
            let inset: u32 = 32 - offset;
            let w0 = if block < words.len() {
                words[block]
            } else {
                0u32
            };
            let w1 = if block + 1 < words.len() {
                words[block + 1]
            } else {
                0u32
            };
            proof {
                lemma_read32_straddle(words@, at as int, block as int, offset, w0, w1);
            }
            (w0 >> offset) + (w1 << inset)
        }
    }

    /// Returns the 32 bits starting at `at` as `Ok`; when fewer than 32
    /// bits remain before the end of the buffer, the value is still
    /// returned, with the missing high bits zero, but as `Err`, so that a
    /// caller can tell a full read from a truncated one.
    pub fn u32_at(&self, at: usize) -> (r: Result<u32, u32>)
        ensures
            at + 32 <= self.0@.len() * 32 ==> r == Ok::<u32, u32>(
                bits_value(self.0@, at as int, 32) as u32,
            ),
            at + 32 > self.0@.len() * 32 ==> r == Err::<u32, u32>(
                bits_value(self.0@, at as int, 32) as u32,
            ),
    {
        let v = self.read32(at);
        let block = at / 32;
        let offset = at % 32;
        let len = self.0.len();
        let spills = if offset == 0 {
            block >= len
        } else {
            block + 1 >= len
        };
        proof {
            lemma_fundamental_div_mod(at as int, 32);
            assert(spills <==> at + 32 > self.0@.len() * 32) by (nonlinear_arith)
                requires
                    at == 32 * (at as int / 32) + (at as int % 32),
                    0 <= at as int % 32 < 32,
                    block == at as int / 32,
                    len == self.0@.len(),
                    spills == (if at as int % 32 == 0 {
                        block >= len
                    } else {
                        block + 1 >= len
                    }),
            ;
            crate::bits::lemma_bits_value_bound(self.0@, at as int, 32);
            lemma2_to64();
        }
        if spills {
            Err(v)
        } else {
            Ok(v)
        }
    }

    /// Like [`Bitset::u32_at`], but reads only `n <= 32` bits; returns
    /// `None`, not a truncated value, whenever the full width cannot be
    /// read.
    pub fn n_at(&self, n: u32, at: usize) -> (r: Option<u32>)
        requires
            n <= 32,
        ensures
            at + n <= self.0@.len() * 32 && at < self.0@.len() * 32 ==> r == Some(
                bits_value(self.0@, at as int, n as nat) as u32,
            ),
            !(at + n <= self.0@.len() * 32 && at < self.0@.len() * 32) ==> r is None,
    {
        let len = self.0.len();
        let block = at / 32;
        let offset = (at % 32) as u32;
        proof {
            lemma_index_in_words(len as int, at as int);
            lemma_fundamental_div_mod(at as int, 32);
        }
        if block >= len {
            return None;
        }
        let fits = if len - block >= 2 {
            true
        } else {
            offset + n <= 32
        };
        proof {
            assert(fits <==> at + n <= len * 32) by (nonlinear_arith)
                requires
                    at == 32 * (at as int / 32) + (at as int % 32),
                    0 <= at as int % 32 < 32,
                    block == at as int / 32,
                    offset == at as int % 32,
                    block < len,
                    n <= 32,
                    fits == (if len - block >= 2 {
                        true
                    } else {
                        offset + n <= 32
                    }),
            ;
        }
        if !fits {
            return None;
        }
        let v = self.read32(at);
        let m = crate::bits::safe_n_mask(n);
        proof {
            lemma_mask_to_width(v, self.0@, at as int, n as nat);
        }
        Some(v & m)
    }

    /// Disables every bit whose index falls in `range`; bits outside the
    /// range, including any past the end of the buffer, are untouched.
    pub fn disable_range(&mut self, range: Range<usize>)
        ensures
            final(self).0@.len() == old(self).0@.len(),
            forall|j: int|
                #[trigger] seq_bit(final(self).0@, j) == (seq_bit(old(self).0@, j) && !(
                range.start <= j < range.end)),
    {
        let mut i = range.start;
        if i >= range.end {
            assert forall|j: int| #[trigger] seq_bit(self.0@, j) == (seq_bit(old(self).0@, j) && !(
            range.start <= j < range.end)) by {}
            return ;
        }
        while i < range.end
            invariant
                range.start <= i <= range.end,
                self.0@.len() == old(self).0@.len(),
                forall|j: int|
                    #[trigger] seq_bit(self.0@, j) == (seq_bit(old(self).0@, j) && !(range.start
                        <= j < i)),
            decreases range.end - i,
        {
            self.disable_bit(i);
            i = i + 1;
        }
    }

    /// The set bits of the half-open range `range`, ascending.
    pub fn ones_in_range(&self, range: Range<usize>) -> (r: Ones)
        requires
            range.start <= range.end,
            range.end <= self.0@.len() * 32,
        ensures
            r@.indices == ones_seq(self.0@, range.start as int, range.end as int),
            r@.cursor == 0,
            r@.start == range.start,
            r@.end == range.end,
            r.wf(),
    {
        let mut indices: Vec<usize> = Vec::new();
        let mut i = range.start;
        proof {
            crate::bits::lemma_ones_seq_exact(self.0@, range.start as int, range.start as int);
        }
        while i < range.end
            invariant
                range.start <= i <= range.end,
                indices@ == ones_seq(self.0@, range.start as int, i as int),
                indices@.len() <= i - range.start,
            decreases range.end - i,
        {
            if self.bit(i) {
                indices.push(i);
                proof {
                    assert(indices@ =~= ones_seq(self.0@, range.start as int, i + 1));
                }
            } else {
                proof {
                    assert(indices@ =~= ones_seq(self.0@, range.start as int, i + 1));
                }
            }
            proof {
                crate::bits::lemma_ones_seq_exact(self.0@, range.start as int, i + 1);
                crate::bits::lemma_count_all_ones(self.0@, range.start as int, i + 1);
            }
            i = i + 1;
        }
        Ones { indices, cursor: 0, start: range.start, end: range.end }
    }

    /// The set bits of the whole buffer, ascending: the same as
    /// [`Bitset::ones_in_range`] over all of it.
    pub fn ones(&self) -> (r: Ones)
        requires
            self.0@.len() * 32 <= usize::MAX,
        ensures
            r@.indices == ones_seq(self.0@, 0, self.0@.len() as int * 32),
            r@.cursor == 0,
            r@.start == 0,
            r@.end == self.0@.len() as int * 32,
            r.wf(),
    {
        let end = self.bit_len();
        self.ones_in_range(0..end)
    }
}

/// Law: enabling a bit in range makes the next read of it true, and
/// disabling it afterwards makes the next read false.  The two quantified
/// premises are exactly what [`Bitset::enable_bit`] and
/// [`Bitset::disable_bit`] promise of the buffers they produce, and
/// [`Bitset::bit`] returns exactly `seq_bit`.
pub proof fn lemma_set_get_round_trip(words: Seq<u32>, set: Seq<u32>, cleared: Seq<u32>, i: int)
    requires
        0 <= i < words.len() * 32,
        forall|j: int| #[trigger] seq_bit(set, j) == (j == i || seq_bit(words, j)),
        forall|j: int| #[trigger] seq_bit(cleared, j) == (j != i && seq_bit(set, j)),
    ensures
        seq_bit(set, i),
        !seq_bit(cleared, i),
{
}

/// Law: the set bits of a sub-range are exactly those set bits of the whole
/// buffer that fall inside the range.
pub proof fn lemma_ones_in_range_is_subset(words: Seq<u32>, start: int, end: int)
    requires
        0 <= start <= end <= words.len() * 32,
        words.len() * 32 <= usize::MAX,
    ensures
        forall|b: usize| #[trigger]
            ones_seq(words, start, end).contains(b) <==> (ones_seq(
                words,
                0,
                words.len() as int * 32,
            ).contains(b) && start <= b < end),
{
    crate::bits::lemma_ones_seq_exact(words, start, end);
    crate::bits::lemma_ones_seq_exact(words, 0, words.len() as int * 32);
}

/// Law: [`Ones::all_one`] answers whether every bit of the queried range is
/// set — its count test coincides with the bit-level statement, for any
/// starting position, word-aligned or not.
pub proof fn lemma_all_one_meaning(words: Seq<u32>, start: int, end: int)
    requires
        0 <= start <= end,
        end <= usize::MAX,
    ensures
        (ones_seq(words, start, end).len() == end - start) <==> (forall|b: int|
            start <= b < end ==> seq_bit(words, b)),
{
    crate::bits::lemma_ones_seq_exact(words, start, end);
    crate::bits::lemma_count_all_ones(words, start, end);
}

/// The size a growth-capable buffer takes when it must reach `needed`
/// words, starting from a capacity of `cur`: the first doubling of `cur`
/// that covers `needed`.
pub open spec fn grow_from(cur: nat, needed: nat) -> nat
    decreases (if cur < needed {
        needed - cur
    } else {
        0int
    }),
    when cur > 0
{
    if cur >= needed {
        cur
    } else {
        grow_from(cur * 2, needed)
    }
}

/// Extending a buffer with zeroed words changes no bit.
pub(crate) proof fn lemma_zero_extension(words: Seq<u32>, ext: Seq<u32>)
    requires
        ext.len() >= words.len(),
        ext.subrange(0, words.len() as int) == words,
        forall|k: int| words.len() <= k < ext.len() ==> ext[k] == 0u32,
    ensures
        forall|j: int| #[trigger] seq_bit(ext, j) == seq_bit(words, j),
{
    assert forall|j: int| #[trigger] seq_bit(ext, j) == seq_bit(words, j) by {
        if 0 <= j < ext.len() * 32 {
            lemma_index_in_words(ext.len() as int, j);
            lemma_index_in_words(words.len() as int, j);
            if j / 32 < words.len() {
                assert(ext[j / 32] == words.subrange(0, words.len() as int)[j / 32]);
            } else {
                lemma_zero_bit((j % 32) as nat);
            }
        }
    }
}

impl Bitset {
    /// Enables the bit at `bit`, first growing the buffer when `bit` lies
    /// past its end.  Growth at least doubles, with a minimum of eight
    /// words, so a run of such calls extends the buffer amortized
    /// constant-time; the fresh words are zero except for the requested
    /// bit.
    pub fn enable_bit_extending(&mut self, bit: usize)
        ensures
            final(self).0@.len() == (if bit < old(self).0@.len() * 32 {
                old(self).0@.len() as nat
            } else {
                grow_from(8, (bit / 32 + 1) as nat)
            }),
            forall|j: int|
                #[trigger] seq_bit(final(self).0@, j) == (j == bit || seq_bit(old(self).0@, j)),
    {
        let block = bit / 32;
        let needed = block + 1;
        proof {
            lemma_index_in_words(self.0@.len() as int, bit as int);
        }
        if block >= self.0.len() {
            let mut target: usize = 8;
            while target < needed
                invariant
                    1 <= target,
                    needed <= usize::MAX / 32 + 1,
                    grow_from(8, needed as nat) == grow_from(target as nat, needed as nat),
                decreases (if target < needed {
                    needed - target
                } else {
                    0int
                }),
            {
                target = target * 2;
            }
            assert(target == grow_from(8, needed as nat));
            assert(target >= needed);
            let ghost old_words = self.0@;
            while self.0.len() < target
                invariant
                    self.0@.len() <= target,
                    old_words.len() <= self.0@.len(),
                    self.0@.subrange(0, old_words.len() as int) == old_words,
                    forall|k: int| old_words.len() <= k < self.0@.len() ==> self.0@[k] == 0u32,
                decreases target - self.0@.len(),
            {
                self.0.push(0u32);
                proof {
                    assert(self.0@.subrange(0, old_words.len() as int) =~= old_words);
                }
            }
            proof {
                lemma_zero_extension(old_words, self.0@);
                lemma_index_in_words(self.0@.len() as int, bit as int);
                assert(block < target);
                assert(bit < target * 32) by (nonlinear_arith)
                    requires
                        bit / 32 < target,
                        bit >= 0,
                        bit == 32 * (bit / 32) + bit % 32,
                        bit % 32 < 32,
                ;
            }
        }
        proof {
            lemma_fundamental_div_mod(bit as int, 32);
        }
        let enabled = self.enable_bit(bit);
        assert(enabled is Some);
    }
}

} // verus!
