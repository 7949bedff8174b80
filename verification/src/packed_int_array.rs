//! An associative array of small integers in packed storage: every value
//! takes exactly as many bits as the largest value needs, and the all-ones
//! pattern of that width marks an absent slot.

use vstd::prelude::*;

verus! {

use vstd::arithmetic::power2::{pow2, lemma_pow2_unfold, lemma_pow2_adds, lemma_pow2_pos, lemma2_to64};
use vstd::arithmetic::div_mod::{
    lemma_fundamental_div_mod,
    lemma_fundamental_div_mod_converse,
    lemma_div_denominator,
    lemma_small_mod,
};
use vstd::bits::lemma_u32_pow2_no_overflow;
use crate::bitset::Bitset;
use crate::bits::{seq_bit, u32_bit, bits_value, spec_mask, lemma_u32_bit_arith};
use crate::{spec_msb, spec_div_ceil, most_significant_bit, div_ceil};

/// What a [`PackedIntArray`] stands for: the packed words and the fixed
/// number of bits each slot takes.
pub struct PackedIntArrayModel {
    pub words: Seq<u32>,
    pub width: nat,
}

impl PackedIntArrayModel {
    /// The size headroom every reachable state keeps: enough that slot
    /// offsets, and the positions a widening maps them to, stay well inside
    /// `usize`.  The quadratic term absorbs the growth a widening can
    /// cause.
    pub open spec fn size_ok(self) -> bool {
        &&& (self.width == 0 ==> self.words.len() == 0)
        &&& (self.width > 0 ==> self.words.len() * 32 <= self.width * (usize::MAX / 4096) + 128
            * self.width * self.width)
    }

    /// The structural invariant of the packed array.
    pub open spec fn wf(self) -> bool {
        &&& self.width <= 32
        &&& self.size_ok()
    }

    /// How many slots the storage holds; keys are exactly the indices below
    /// this.
    pub open spec fn capacity(self) -> int {
        if self.width == 0 {
            0
        } else {
            (self.words.len() * 32) as int / self.width as int
        }
    }

    /// The reserved all-ones pattern of a slot: a stored value never equals
    /// it.
    pub open spec fn mask(self) -> nat {
        (pow2(self.width) - 1) as nat
    }

    /// The raw bit pattern of slot `k`.
    pub open spec fn raw(self, k: int) -> nat {
        bits_value(self.words, k * self.width, self.width)
    }

    /// The value the map holds at key `k`: `None` when `k` is out of
    /// capacity or the slot holds the absent sentinel.
    pub open spec fn get(self, k: int) -> Option<u32> {
        if 0 <= k < self.capacity() && self.raw(k) != self.mask() {
            Some(self.raw(k) as u32)
        } else {
            None
        }
    }
}

/// A 1-to-(1|0) mapping of integers to integers in packed storage: think of
/// a very compact `Vec<Option<u32>>`.
///
/// Each slot takes `width` bits of one shared [`Bitset`]; a slot whose bits
/// are all ones is absent, so the all-ones value of a given width can never
/// be stored.
pub struct PackedIntArray {
    indices: Bitset,
    value_width: usize,
}

impl View for PackedIntArray {
    type V = PackedIntArrayModel;

    closed spec fn view(&self) -> PackedIntArrayModel {
        PackedIntArrayModel { words: self.indices.0@, width: self.value_width as nat }
    }
}

/// Every bit of the all-ones word is set.
proof fn lemma_max_bit(o: nat)
    requires
        o < 32,
    ensures
        u32_bit(u32::MAX, o),
{
    let ou = o as u32;
    assert((u32::MAX >> ou) & 1u32 == 1u32) by (bit_vector)
        requires
            ou < 32,
    ;
}

/// The executable mask of `n <= 32` bits equals `pow2(n) - 1`, the model's
/// sentinel.
proof fn lemma_mask_is_pow2(n: nat)
    requires
        n <= 32,
    ensures
        spec_mask(n) == pow2(n) - 1,
        pow2(n) - 1 <= u32::MAX,
{
    lemma2_to64();
    if n < 32 {
        lemma_u32_pow2_no_overflow(n);
    }
}

/// A run of entirely set bits reads as the all-ones value of its width.
proof fn lemma_all_ones_value(words: Seq<u32>, at: int, n: nat)
    requires
        forall|j: int| at <= j < at + n ==> seq_bit(words, j),
    ensures
        bits_value(words, at, n) == pow2(n) - 1,
    decreases n,
{
    if n == 0 {
        lemma2_to64();
    } else {
        lemma_all_ones_value(words, at + 1, (n - 1) as nat);
        lemma_pow2_unfold(n);
    }
}

/// A slot below the capacity lies entirely inside the storage.
proof fn lemma_slot_in_storage(len32: int, w: int, k: int)
    by (nonlinear_arith)
    requires
        0 < w,
        0 <= k < len32 / w,
        0 <= len32,
    ensures
        k * w + w <= len32,
        k * w >= 0,
{
}

/// Bit positions of different slots never coincide.
proof fn lemma_slot_disjoint(w: int, k: int, key: int, j: int)
    by (nonlinear_arith)
    requires
        0 < w,
        0 <= k,
        0 <= key,
        k != key,
        k * w <= j < k * w + w,
    ensures
        !(key * w <= j < key * w + w),
{
}

/// The bits of a slot, taken one by one from a value below the sentinel
/// bound, read back as that value.
proof fn lemma_bits_match_value(words: Seq<u32>, at: int, v: nat, n: nat)
    requires
        v < pow2(n),
        forall|t: int| 0 <= t < n ==> #[trigger] seq_bit(words, at + t) == ((v / pow2(t as nat)) % 2
            == 1),
    ensures
        bits_value(words, at, n) == v,
    decreases n,
{
    if n == 0 {
        lemma2_to64();
    } else {
        lemma2_to64();
        assert(seq_bit(words, at + 0) == (v / pow2(0) % 2 == 1));
        assert(v / pow2(0) == v);
        let half = v / 2;
        lemma_pow2_unfold(n);
        assert forall|t: int| 0 <= t < n - 1 implies #[trigger] seq_bit(words, at + 1 + t) == ((half
            / pow2(t as nat)) % 2 == 1) by {
            assert(seq_bit(words, at + (t + 1)) == ((v / pow2((t + 1) as nat)) % 2 == 1));
            lemma_pow2_adds(1, t as nat);
            lemma_pow2_pos(t as nat);
            lemma_div_denominator(v as int, 2, pow2(t as nat) as int);
        }
        lemma_bits_match_value(words, at + 1, half, (n - 1) as nat);
    }
}

/// The executable width test `value & mask == value` agrees with the
/// model-side bound `value < pow2(width)`.
proof fn lemma_fits_in_width(value: u32, w: nat)
    requires
        w <= 32,
    ensures
        (value & spec_mask(w) == value) <==> (value as nat) < pow2(w),
{
    lemma2_to64();
    if w == 32 {
        assert(value & u32::MAX == value) by (bit_vector);
    } else {
        vstd::bits::lemma_u32_low_bits_mask_is_mod(value, w);
        lemma_pow2_pos(w);
        if (value as nat) < pow2(w) {
            lemma_small_mod(value as nat, pow2(w));
        }
    }
}

/// What a successful or failed plain store does: exactly the relation
/// [`PackedIntArray::set`] promises between the state before and after.
pub open spec fn set_rel(
    old_m: PackedIntArrayModel,
    key: int,
    value: u32,
    new_m: PackedIntArrayModel,
    r: Option<()>,
) -> bool {
    let ok = old_m.width > 0 && 0 <= key < old_m.capacity() && value != old_m.mask() && value
        < pow2(old_m.width);
    &&& r is Some <==> ok
    &&& new_m.width == old_m.width
    &&& new_m.words.len() == old_m.words.len()
    &&& (!ok ==> new_m == old_m)
    &&& (ok ==> {
        &&& forall|j: int|
            !(key * old_m.width <= j < key * old_m.width + old_m.width) ==> #[trigger] seq_bit(
                new_m.words,
                j,
            ) == seq_bit(old_m.words, j)
        &&& new_m.raw(key) == value
        &&& new_m.get(key) == Some(value)
        &&& forall|k: int| k != key ==> #[trigger] new_m.get(k) == old_m.get(k)
    })
}

impl PackedIntArray {
    /// A map able to hold every key below `key_len` with every value below
    /// `value_len`, all slots initially absent.
    ///
    /// The slot width is the bit count of `value_len`; storage is rounded
    /// up to whole words, so [`PackedIntArray::capacity`] may exceed
    /// `key_len`, and keys up to there happen to work as well.  When either
    /// argument is zero nothing can be stored.
    pub fn with_capacity(key_len: usize, value_len: u32) -> (r: Self)
        requires
            key_len <= usize::MAX / 4096,
        ensures
            r@.wf(),
            r@.width == spec_msb(value_len as nat),
            r@.words.len() == spec_div_ceil(spec_msb(value_len as nat) * key_len as nat, 32),
            forall|k: int| r@.get(k) is None,
            r@.capacity() >= (if value_len == 0 {
                0int
            } else {
                key_len as int
            }),
    {
        let vwidth = most_significant_bit(value_len) as usize;
        proof {
            crate::lemma_msb_le_32(value_len as nat);
            assert(vwidth * key_len <= 32 * (usize::MAX / 4096)) by (nonlinear_arith)
                requires
                    vwidth <= 32,
                    key_len <= usize::MAX / 4096,
            ;
            assert(32 * (usize::MAX / 4096) + 32 <= usize::MAX) by (nonlinear_arith)
                requires
                    usize::MAX >= 4096,
            ;
        }
        let bit_size = vwidth * key_len;
        let u32_size = div_ceil(bit_size, 32);
        let words = vec![u32::MAX; u32_size];
        let r = PackedIntArray { indices: Bitset(words), value_width: vwidth };
        proof {
            let m = r@;
            // the storage covers the requested keys and nothing in it is a
            // stored value
            assert(u32_size * 32 >= bit_size && u32_size * 32 <= bit_size + 31) by (nonlinear_arith)
                requires
                    u32_size == ((bit_size + 31) as int) / 32,
                    bit_size >= 0,
            ;
            if vwidth > 0 {
                assert(m.capacity() >= key_len) by (nonlinear_arith)
                    requires
                        m.capacity() == (u32_size * 32) as int / vwidth as int,
                        u32_size * 32 >= vwidth * key_len,
                        vwidth > 0,
                ;
            }
            assert forall|j: int| 0 <= j < m.words.len() * 32 implies seq_bit(m.words, j) by {
                crate::bits::lemma_index_in_words(m.words.len() as int, j);
                lemma_max_bit((j % 32) as nat);
            }
            assert forall|k: int| m.get(k) is None by {
                if 0 <= k < m.capacity() {
                    lemma_slot_in_storage(m.words.len() as int * 32, m.width as int, k);
                    lemma_all_ones_value(m.words, k * m.width, m.width);
                }
            }
            assert(vwidth * key_len <= vwidth * (usize::MAX / 4096)) by (nonlinear_arith)
                requires
                    key_len <= usize::MAX / 4096,
                    vwidth >= 0,
            ;
            assert(m.size_ok()) by (nonlinear_arith)
                requires
                    m.width == vwidth,
                    m.words.len() == u32_size,
                    u32_size * 32 <= vwidth * key_len + 31,
                    vwidth * key_len <= vwidth * (usize::MAX / 4096),
                    vwidth == 0 ==> u32_size == 0,
            ;
        }
        r
    }

    /// How many words of storage the map holds.
    pub fn word_len(&self) -> (r: usize)
        ensures
            r == self@.words.len(),
    {
        self.indices.0.len()
    }

    /// How many keys the map can hold: every key below this, none above.
    pub fn capacity(&self) -> (r: usize)
        requires
            self@.wf(),
        ensures
            r == self@.capacity(),
    {
        proof {
            lemma_len32_fits(self@);
        }
        if self.value_width == 0 {
            0
        } else {
            (self.indices.0.len() * 32) / self.value_width
        }
    }

    /// The value stored for `key`, `None` when there is none.
    pub fn get(&self, key: &usize) -> (r: Option<u32>)
        requires
            self@.wf(),
        ensures
            r == self@.get(*key as int),
    {
        self.get_index(*key)
    }

    /// The lookup shared by [`PackedIntArray::get`] and the iteration
    /// methods.
    fn get_index(&self, index: usize) -> (r: Option<u32>)
        requires
            self@.wf(),
        ensures
            r == self@.get(index as int),
    {
        let ghost m = self@;
        if self.value_width == 0 {
            return None;
        }
        let cap = self.capacity();
        if index >= cap {
            return None;
        }
        proof {
            lemma_len32_fits(m);
            lemma_slot_in_storage(m.words.len() as int * 32, m.width as int, index as int);
        }
        let width = self.value_width;
        let offset = index * width;
        let read = self.indices.n_at(width as u32, offset);
        let v = read.unwrap();
        let mask = crate::bits::safe_n_mask(width as u32);
        proof {
            lemma_mask_is_pow2(m.width);
            crate::bits::lemma_bits_value_bound(m.words, offset as int, m.width);
        }
        if v != mask {
            Some(v)
        } else {
            None
        }
    }

    /// Stores `value` for `key`.  Returns `None` and changes nothing when
    /// the key is out of capacity, the value does not fit the slot width,
    /// or the value is the width's all-ones sentinel; otherwise the slot
    /// holds exactly `value` afterwards and every other slot is untouched.
    pub fn set(&mut self, key: &usize, value: &u32) -> (r: Option<()>)
        requires
            old(self)@.wf(),
        ensures
            final(self)@.wf(),
            set_rel(old(self)@, *key as int, *value, final(self)@, r),
    {
        let ghost m = self@;
        if self.value_width == 0 {
            return None;
        }
        let width = self.value_width;
        let mask = crate::bits::safe_n_mask(width as u32);
        let cap = self.capacity();
        proof {
            lemma_mask_is_pow2(m.width);
        }
        proof {
            lemma_fits_in_width(*value, m.width);
        }
        if *key >= cap || *value == mask || *value & mask != *value {
            return None;
        }
        proof {
            lemma_len32_fits(m);
            lemma_slot_in_storage(m.words.len() as int * 32, m.width as int, *key as int);
        }
        let offset = *key * width;
        let mut t: usize = 0;
        while t < width
            invariant
                0 <= t <= width,
                0 < width <= 32,
                width == m.width,
                offset == *key as int * m.width,
                offset + width <= m.words.len() * 32,
                m.words.len() * 32 <= usize::MAX,
                self@.width == m.width,
                self@.words.len() == m.words.len(),
                forall|j: int|
                    !(offset <= j < offset + t) ==> #[trigger] seq_bit(self@.words, j) == seq_bit(
                        m.words,
                        j,
                    ),
                forall|s: int|
                    0 <= s < t ==> #[trigger] seq_bit(self@.words, offset + s) == u32_bit(
                        *value,
                        s as nat,
                    ),
            decreases width - t,
        {
            let set_it = (*value >> (t as u32)) & 1u32 == 1u32;
            if set_it {
                let res = self.indices.enable_bit(offset + t);
                proof {
                    assert(res is Some);
                }
            } else {
                let res = self.indices.disable_bit(offset + t);
                proof {
                    assert(res is Some);
                }
            }
            t = t + 1;
        }
        proof {
            lemma_store_written(m, self@, *key as int, *value);
        }
        Some(())
    }

    /// Restores the absent sentinel for `key`: a later
    /// [`PackedIntArray::get`] of it answers `None`.  Keys at or past the
    /// capacity have no slot, so for them nothing observable changes.
    pub fn remove(&mut self, key: &usize)
        requires
            old(self)@.wf(),
        ensures
            final(self)@.wf(),
            final(self)@.width == old(self)@.width,
            final(self)@.words.len() == old(self)@.words.len(),
            forall|j: int|
                #[trigger] seq_bit(final(self)@.words, j) == (seq_bit(old(self)@.words, j) || (*key
                    as int * old(self)@.width <= j < *key as int * old(self)@.width + old(
                    self,
                )@.width && 0 <= j < old(self)@.words.len() * 32)),
            forall|k: int|
                #[trigger] final(self)@.get(k) == (if k == *key as int {
                    None::<u32>
                } else {
                    old(self)@.get(k)
                }),
    {
        let ghost m = self@;
        proof {
            lemma_len32_fits(m);
        }
        let width = self.value_width;
        let len32 = self.indices.0.len() * 32;
        if width > 0 && len32 > 0 && *key <= (len32 - 1) / width {
            proof {
                assert(*key as int * width as int <= len32 - 1) by (nonlinear_arith)
                    requires
                        *key as int <= ((len32 - 1) as int) / width as int,
                        *key as int >= 0,
                        width > 0,
                        len32 > 0,
                ;
            }
            let offset = *key * width;
            let mut t: usize = 0;
            while t < width
                invariant
                    0 <= t <= width,
                    0 < width <= 32,
                    width == m.width,
                    offset == *key as int * m.width,
                    offset < m.words.len() * 32,
                    offset + width <= usize::MAX,
                    self@.width == m.width,
                    self@.words.len() == m.words.len(),
                    forall|j: int|
                        #[trigger] seq_bit(self@.words, j) == (seq_bit(m.words, j) || (offset <= j
                            < offset + t && 0 <= j < m.words.len() * 32)),
                decreases width - t,
            {
                self.indices.enable_bit(offset + t);
                t = t + 1;
            }
            proof {
                lemma_remove_restores_sentinel(m, self@, *key as int);
            }
        } else {
            proof {
                // the slot lies entirely past the storage: enabling its
                // bits would not change anything
                if width > 0 {
                    assert(*key as int * width as int >= len32) by (nonlinear_arith)
                        requires
                            width > 0,
                            len32 >= 0,
                            *key as int >= 0,
                            len32 == 0 || *key as int > ((len32 - 1) as int) / width as int,
                    ;
                }
                lemma_remove_restores_sentinel(m, self@, *key as int);
            }
        }
    }

    /// Rebuilds the storage with each slot `add` bits wider: the low bits
    /// of every new slot are the old slot's bits, the added high bits are
    /// clear, and the storage is cut at the word of the last set bit.
    fn rebuild_wider(&mut self, add: usize)
        requires
            old(self)@.wf(),
            old(self)@.width > 0,
            old(self)@.width + add <= 32,
        ensures
            final(self)@.wf(),
            widen_rel(old(self)@, add as nat, final(self)@),
    {
        let ghost m = self@;
        let w = self.value_width;
        let w2 = w + add;
        proof {
            lemma_len32_fits(m);
            crate::bits::lemma_ones_seq_exact(m.words, 0, m.words.len() as int * 32);
        }
        let mut ones = self.indices.ones();
        let ghost idx = ones@.indices;
        let mut nb = Bitset(Vec::new());
        let total = ones.remaining();
        let mut c: usize = 0;
        while c < total
            invariant
                ones.wf(),
                ones@.indices == idx,
                total == idx.len(),
                ones@.cursor == c,
                0 <= c <= total,
                0 < w <= 32,
                w + add == w2,
                w2 <= 32,
                m.width == w,
                m.wf(),
                m.words.len() * 32 <= usize::MAX / 64,
                forall|b: usize| #[trigger]
                    idx.contains(b) <==> (b < m.words.len() * 32 && seq_bit(m.words, b as int)),
                forall|k1: int, k2: int|
                    0 <= k1 < k2 < idx.len() ==> #[trigger] idx[k1] < #[trigger] idx[k2],
                ones@.cursor == 0 ==> nb.0@.len() == 0,
                ones@.cursor > 0 ==> nb.0@.len() == widen_pos(
                    idx[ones@.cursor - 1] as int,
                    w as nat,
                    add as nat,
                ) / 32 + 1,
                ones@.cursor == 0 ==> forall|x: int| !seq_bit(nb.0@, x),
                ones@.cursor > 0 ==> forall|x: int| #[trigger]
                    seq_bit(nb.0@, x) <==> (widened_bit(m, add as nat, x) && source_pos(
                        x,
                        w as nat,
                        add as nat,
                    ) <= idx[ones@.cursor - 1]),
            decreases idx.len() - ones@.cursor,
        {
            let ghost t = ones@.cursor;
            let popt = ones.next();
            let p = popt.unwrap();
            c = c + 1;
            proof {
                assert(idx.contains(idx[t]));
                assert(seq_bit(m.words, p as int) && p < m.words.len() * 32);
                lemma_widen_size(
                    w as int,
                    w2 as int,
                    (usize::MAX / 4096) as int,
                    m.words.len() as int * 32,
                    p as int,
                    (p as int / w as int) * w2 + (p as int % w as int),
                );
                lemma_size_bound_fits(w2 as int);
            }
            let a = p / w;
            let rr = p % w;
            let q = a * w2 + rr;
            proof {
                lemma_fundamental_div_mod(p as int, w as int);
                assert(q == widen_pos(p as int, w as nat, add as nat)) by (nonlinear_arith)
                    requires
                        q == (p as int / w as int) * w2 + (p as int % w as int),
                        p == w * (p as int / w as int) + (p as int % w as int),
                        w2 == w + add,
                        widen_pos(p as int, w as nat, add as nat) == p + (p as int / w as int)
                            * add,
                ;
                if t > 0 {
                    assert(idx[t - 1] < idx[t]);
                    lemma_widen_pos_monotone(idx[t - 1] as int, p as int, w as nat, add as nat);
                }
            }
            let target = q / 32 + 1;
            let ghost before = nb.0@;
            while nb.0.len() < target
                invariant
                    before.len() <= nb.0@.len() <= target,
                    nb.0@.subrange(0, before.len() as int) == before,
                    forall|k: int| before.len() <= k < nb.0@.len() ==> nb.0@[k] == 0u32,
                decreases target - nb.0@.len(),
            {
                nb.0.push(0u32);
                proof {
                    assert(nb.0@.subrange(0, before.len() as int) =~= before);
                }
            }
            proof {
                crate::bitset::lemma_zero_extension(before, nb.0@);
                crate::bits::lemma_index_in_words(nb.0@.len() as int, q as int);
            }
            let res = nb.enable_bit(q);
            proof {
                assert(res is Some);
                lemma_rebuild_step(
                    m,
                    add as nat,
                    idx,
                    t,
                    before,
                    nb.0@,
                );
            }
        }
        self.indices = nb;
        self.value_width = w2;
        proof {
            lemma_rebuild_complete(m, add as nat, idx, self@);
        }
    }

    /// Stores `value` for `key` like [`PackedIntArray::set`], but first
    /// widens every slot in place when `value` needs more bits than the
    /// current width allows (including when it collides with the all-ones
    /// sentinel), so that only an out-of-capacity key can make it fail.
    ///
    /// The widening keeps every stored pair: each slot's bits move to the
    /// low bits of its widened slot.
    pub fn set_expanding_values(&mut self, key: &usize, value: &u32) -> (r: Option<()>)
        requires
            old(self)@.wf(),
        ensures
            final(self)@.wf(),
            ({
                let vb = spec_msb(*value as nat);
                let w = old(self)@.width;
                &&& (w == 0 && vb == 0 ==> r is None && final(self)@ == old(self)@)
                &&& (w == 0 && vb > 0 ==> set_rel(
                    PackedIntArrayModel { words: old(self)@.words, width: vb },
                    *key as int,
                    *value,
                    final(self)@,
                    r,
                ) && r is None)
                &&& (w > 0 && vb <= w && *value != old(self)@.mask() ==> set_rel(
                    old(self)@,
                    *key as int,
                    *value,
                    final(self)@,
                    r,
                ))
                &&& (w > 0 && (vb > w || *value == old(self)@.mask()) ==> exists|
                    mid: PackedIntArrayModel,
                |
                    widen_rel(
                        old(self)@,
                        (if vb > w {
                            (vb - w) as nat
                        } else {
                            0nat
                        }),
                        mid,
                    ) && #[trigger] set_rel(mid, *key as int, *value, final(self)@, r))
            }),
    {
        let ghost m = self@;
        let value_bits = most_significant_bit(*value) as usize;
        proof {
            crate::lemma_msb_le_32(*value as nat);
            crate::lemma_msb_exact(*value as nat);
            lemma_mask_is_pow2(m.width);
        }
        let width = self.value_width;
        if value_bits > width {
            if width == 0 {
                self.value_width = value_bits;
                let r = self.set(key, value);
                proof {
                    assert(r is None);
                }
                return r;
            }
            self.rebuild_wider(value_bits - width);
            let ghost mid = self@;
            let r = self.set(key, value);
            proof {
                assert(widen_rel(m, (value_bits - width) as nat, mid) && set_rel(
                    mid,
                    *key as int,
                    *value,
                    self@,
                    r,
                ));
            }
            return r;
        }
        if width == 0 {
            // only the zero value reaches here, and a width of zero has no
            // mask to compare it with: nothing can be stored
            return None;
        }
        let mask = crate::bits::safe_n_mask(width as u32);
        if *value == mask {
            self.rebuild_wider(0);
            let ghost mid = self@;
            let r = self.set(key, value);
            proof {
                assert(widen_rel(m, 0nat, mid) && set_rel(mid, *key as int, *value, self@, r));
            }
            return r;
        }
        self.set(key, value)
    }
}

/// The value stored for `k` by the latest pair of `pairs` with key `k`;
/// `None` when no pair has that key.
pub open spec fn last_value(pairs: Seq<(usize, u32)>, k: int) -> Option<u32>
    decreases pairs.len(),
{
    if pairs.len() == 0 {
        None
    } else if pairs.last().0 == k {
        Some(pairs.last().1)
    } else {
        last_value(pairs.drop_last(), k)
    }
}

/// Word `i` of the storage under the implicit all-ones padding raw
/// comparison uses: words past the end read as all ones, the same pattern
/// an untouched slot holds.
pub open spec fn padded_word(m: PackedIntArrayModel, i: int) -> u32 {
    if 0 <= i < m.words.len() {
        m.words[i]
    } else {
        u32::MAX
    }
}

impl PackedIntArray {
    /// All stored pairs, keys ascending.
    pub fn iter(&self) -> (r: Vec<(usize, u32)>)
        requires
            self@.wf(),
        ensures
            forall|j: int|
                0 <= j < r@.len() ==> self@.get(#[trigger] r@[j].0 as int) == Some(r@[j].1),
            forall|k: int|
                0 <= k < self@.capacity() && self@.get(k) is Some ==> r@.contains(
                    (k as usize, self@.get(k)->Some_0),
                ),
            forall|j1: int, j2: int| 0 <= j1 < j2 < r@.len() ==> r@[j1].0 < r@[j2].0,
    {
        let mut r: Vec<(usize, u32)> = Vec::new();
        let cap = self.capacity();
        let mut k: usize = 0;
        while k < cap
            invariant
                self@.wf(),
                0 <= k <= cap,
                cap == self@.capacity(),
                forall|j: int|
                    0 <= j < r@.len() ==> self@.get(#[trigger] r@[j].0 as int) == Some(r@[j].1)
                        && r@[j].0 < k,
                forall|kk: int|
                    0 <= kk < k && self@.get(kk) is Some ==> r@.contains(
                        (kk as usize, self@.get(kk)->Some_0),
                    ),
                forall|j1: int, j2: int| 0 <= j1 < j2 < r@.len() ==> r@[j1].0 < r@[j2].0,
            decreases cap - k,
        {
            match self.get_index(k) {
                Some(v) => {
                    let ghost r0 = r@;
                    r.push((k, v));
                    proof {
                        assert(r@[r@.len() - 1] == (k, v));
                        assert forall|kk: int|
                            0 <= kk < k + 1 && self@.get(kk) is Some implies r@.contains(
                            (kk as usize, self@.get(kk)->Some_0),
                        ) by {
                            if kk < k {
                                assert(r0.contains((kk as usize, self@.get(kk)->Some_0)));
                                let jj = choose|jj: int|
                                    0 <= jj < r0.len() && r0[jj] == (
                                    kk as usize,
                                    self@.get(kk)->Some_0,
                                    );
                                assert(r@[jj] == (kk as usize, self@.get(kk)->Some_0));
                            }
                        }
                    }
                },
                None => {},
            }
            k = k + 1;
        }
        r
    }

    /// All stored pairs, keys descending.
    pub fn rev_iter(&self) -> (r: Vec<(usize, u32)>)
        requires
            self@.wf(),
        ensures
            forall|j: int|
                0 <= j < r@.len() ==> self@.get(#[trigger] r@[j].0 as int) == Some(r@[j].1),
            forall|k: int|
                0 <= k < self@.capacity() && self@.get(k) is Some ==> r@.contains(
                    (k as usize, self@.get(k)->Some_0),
                ),
            forall|j1: int, j2: int| 0 <= j1 < j2 < r@.len() ==> r@[j1].0 > r@[j2].0,
    {
        let mut r: Vec<(usize, u32)> = Vec::new();
        let cap = self.capacity();
        let mut k: usize = cap;
        while k > 0
            invariant
                self@.wf(),
                0 <= k <= cap,
                cap == self@.capacity(),
                forall|j: int|
                    0 <= j < r@.len() ==> self@.get(#[trigger] r@[j].0 as int) == Some(r@[j].1)
                        && r@[j].0 >= k,
                forall|kk: int|
                    k <= kk < cap && self@.get(kk) is Some ==> r@.contains(
                        (kk as usize, self@.get(kk)->Some_0),
                    ),
                forall|j1: int, j2: int| 0 <= j1 < j2 < r@.len() ==> r@[j1].0 > r@[j2].0,
            decreases k,
        {
            k = k - 1;
            match self.get_index(k) {
                Some(v) => {
                    let ghost r0 = r@;
                    r.push((k, v));
                    proof {
                        assert(r@[r@.len() - 1] == (k, v));
                        assert forall|kk: int|
                            k <= kk < cap && self@.get(kk) is Some implies r@.contains(
                            (kk as usize, self@.get(kk)->Some_0),
                        ) by {
                            if kk > k {
                                assert(r0.contains((kk as usize, self@.get(kk)->Some_0)));
                                let jj = choose|jj: int|
                                    0 <= jj < r0.len() && r0[jj] == (
                                    kk as usize,
                                    self@.get(kk)->Some_0,
                                    );
                                assert(r@[jj] == (kk as usize, self@.get(kk)->Some_0));
                            }
                        }
                    }
                },
                None => {},
            }
        }
        r
    }

    /// Builds a map from key-value pairs: the capacity is inferred from the
    /// largest key and value, every pair is stored, and where a key repeats
    /// the last pair wins.
    pub fn from_pairs(pairs: Vec<(usize, u32)>) -> (r: Self)
        requires
            forall|j: int| 0 <= j < pairs@.len() ==> (#[trigger] pairs@[j].0) < usize::MAX / 4096,
            forall|j: int| 0 <= j < pairs@.len() ==> (#[trigger] pairs@[j].1) < u32::MAX,
        ensures
            r@.wf(),
            forall|k: int| #[trigger] r@.get(k) == last_value(pairs@, k),
            forall|j: int| 0 <= j < pairs@.len() ==> (#[trigger] pairs@[j].0 as int) < r@.capacity(),
    {
        let mut max_key: usize = 0;
        let mut max_value: u32 = 0;
        let mut j: usize = 0;
        while j < pairs.len()
            invariant
                0 <= j <= pairs@.len(),
                forall|i: int| 0 <= i < pairs@.len() ==> (#[trigger] pairs@[i].0) < usize::MAX
                    / 4096,
                forall|i: int| 0 <= i < pairs@.len() ==> (#[trigger] pairs@[i].1) < u32::MAX,
                max_key <= usize::MAX / 4096,
                forall|i: int| 0 <= i < j ==> (#[trigger] pairs@[i].0) + 1 <= max_key,
                forall|i: int| 0 <= i < j ==> (#[trigger] pairs@[i].1) + 1 <= max_value,
            decreases pairs@.len() - j,
        {
            let (pk, pv) = pairs[j];
            if pk + 1 > max_key {
                max_key = pk + 1;
            }
            if pv + 1 > max_value {
                max_value = pv + 1;
            }
            j = j + 1;
        }
        let mut map = PackedIntArray::with_capacity(max_key, max_value);
        proof {
            crate::lemma_msb_exact(max_value as nat);
            assert forall|k: int| #[trigger] map@.get(k) == last_value(pairs@.take(0), k) by {}
        }
        let mut j: usize = 0;
        while j < pairs.len()
            invariant
                0 <= j <= pairs@.len(),
                map@.wf(),
                map@.width == spec_msb(max_value as nat),
                map@.capacity() >= (if max_value == 0 {
                    0int
                } else {
                    max_key as int
                }),
                max_value < pow2(spec_msb(max_value as nat)),
                forall|i: int| 0 <= i < pairs@.len() ==> (#[trigger] pairs@[i].0) + 1 <= max_key,
                forall|i: int| 0 <= i < pairs@.len() ==> (#[trigger] pairs@[i].1) + 1 <= max_value,
                forall|k: int| #[trigger] map@.get(k) == last_value(pairs@.take(j as int), k),
            decreases pairs@.len() - j,
        {
            let (pk, pv) = pairs[j];
            let res = map.set(&pk, &pv);
            proof {
                lemma_mask_is_pow2(map@.width);
                assert(res is Some);
                assert forall|k: int| #[trigger]
                    map@.get(k) == last_value(pairs@.take(j + 1), k) by {
                    assert(pairs@.take(j + 1).drop_last() =~= pairs@.take(j as int));
                    assert(pairs@.take(j + 1).last() == pairs@[j as int]);
                }
            }
            j = j + 1;
        }
        proof {
            assert(pairs@.take(pairs@.len() as int) =~= pairs@);
            assert forall|i: int| 0 <= i < pairs@.len() implies (#[trigger] pairs@[i].0 as int)
                < map@.capacity() by {
                assert(pairs@[i].1 + 1 <= max_value);
                assert(pairs@[i].0 + 1 <= max_key);
            }
        }
        map
    }

    /// Raw equality of the packed storage, treating the shorter one as
    /// padded with all-ones words: two maps that hold the same slots in
    /// storage of different length compare equal.  The slot width plays no
    /// part in this comparison.
    pub fn bits_eq(&self, other: &PackedIntArray) -> (r: bool)
        ensures
            r == (forall|i: int|
                0 <= i < vstd::math::max(self@.words.len() as int, other@.words.len() as int)
                    ==> padded_word(self@, i) == padded_word(other@, i)),
    {
        let n1 = self.indices.0.len();
        let n2 = other.indices.0.len();
        let n = if n1 > n2 {
            n1
        } else {
            n2
        };
        let mut i: usize = 0;
        while i < n
            invariant
                0 <= i <= n,
                n == vstd::math::max(self@.words.len() as int, other@.words.len() as int),
                n1 == self@.words.len(),
                n2 == other@.words.len(),
                forall|ii: int|
                    0 <= ii < i ==> padded_word(self@, ii) == padded_word(other@, ii),
            decreases n - i,
        {
            let w1 = if i < n1 {
                self.indices.0[i]
            } else {
                u32::MAX
            };
            let w2 = if i < n2 {
                other.indices.0[i]
            } else {
                u32::MAX
            };
            if w1 != w2 {
                proof {
                    assert(padded_word(self@, i as int) != padded_word(other@, i as int));
                }
                return false;
            }
            i = i + 1;
        }
        true
    }

    /// Decoded equality: the two maps hold the same value, or both none,
    /// for every key.  This is the comparison to use when raw bit patterns
    /// may differ for equal contents.
    pub fn value_eq(&self, other: &PackedIntArray) -> (r: bool)
        requires
            self@.wf(),
            other@.wf(),
        ensures
            r == (forall|k: int| #[trigger] self@.get(k) == other@.get(k)),
    {
        let cap1 = self.capacity();
        let cap2 = other.capacity();
        let cap = if cap1 > cap2 {
            cap1
        } else {
            cap2
        };
        let mut k: usize = 0;
        while k < cap
            invariant
                0 <= k <= cap,
                self@.wf(),
                other@.wf(),
                cap >= self@.capacity(),
                cap >= other@.capacity(),
                forall|kk: int| 0 <= kk < k ==> #[trigger] self@.get(kk) == other@.get(kk),
            decreases cap - k,
        {
            let v1 = self.get_index(k);
            let v2 = other.get_index(k);
            if !match (v1, v2) {
                (Some(a), Some(b)) => a == b,
                (None, None) => true,
                _ => false,
            } {
                return false;
            }
            k = k + 1;
        }
        true
    }
}

impl Default for PackedIntArray {
    /// The map with no storage at all: zero width, zero capacity, nothing
    /// can be stored or found.
    fn default() -> (r: Self)
        ensures
            r@ == (PackedIntArrayModel { words: Seq::<u32>::empty(), width: 0nat }),
            r@.wf(),
            r@.capacity() == 0,
    {
        PackedIntArray { indices: Bitset(Vec::new()), value_width: 0 }
    }
}

/// A run of bits that are all clear reads as zero.
proof fn lemma_bits_value_clear(words: Seq<u32>, at: int, n: nat)
    requires
        forall|j: int| at <= j < at + n ==> !seq_bit(words, j),
    ensures
        bits_value(words, at, n) == 0,
    decreases n,
{
    if n > 0 {
        lemma_bits_value_clear(words, at + 1, (n - 1) as nat);
    }
}

/// Law: widening preserves every stored pair whose widened slot still fits
/// the rebuilt storage.  The cut at the last set bit can drop trailing
/// slots whose bits are all clear — a map whose every slot holds a stored
/// zero rebuilds to an empty storage — so the fit is a premise, not a
/// consequence.
pub proof fn lemma_widen_preserves(
    old_m: PackedIntArrayModel,
    d: nat,
    new_m: PackedIntArrayModel,
    k: int,
    v: u32,
)
    requires
        old_m.wf(),
        old_m.width > 0,
        old_m.width + d <= 32,
        widen_rel(old_m, d, new_m),
        old_m.get(k) == Some(v),
        (k + 1) * (old_m.width + d) <= new_m.words.len() * 32,
    ensures
        new_m.get(k) == Some(v),
{
    let w = old_m.width;
    let w2 = old_m.width + d;
    let at_old = k * w as int;
    let at_new = k * w2 as int;
    lemma_len32_fits(old_m);
    lemma_slot_in_storage(old_m.words.len() as int * 32, w as int, k);
    // each low bit of the new slot mirrors the old slot's bit; the added
    // high bits are clear
    assert forall|t: int| 0 <= t < w implies #[trigger] seq_bit(new_m.words, at_new + t)
        == seq_bit(old_m.words, at_old + t) by {
        lemma_fundamental_div_mod_converse(at_new + t, w2 as int, k, t);
        assert(seq_bit(new_m.words, at_new + t) <==> widened_bit(old_m, d, at_new + t));
        assert(k * w2 as int + t >= 0) by (nonlinear_arith)
            requires
                k >= 0,
                t >= 0,
                w2 > 0,
        ;
        assert((k * w2 as int + t) / w2 as int * w as int + (k * w2 as int + t) % w2 as int == k
            * w as int + t);
    }
    assert forall|t: int| w <= t < w2 implies !(#[trigger] seq_bit(new_m.words, at_new + t)) by {
        lemma_fundamental_div_mod_converse(at_new + t, w2 as int, k, t);
        assert(k * w2 as int + t >= 0) by (nonlinear_arith)
            requires
                k >= 0,
                t >= 0,
                w2 > 0,
        ;
        assert(seq_bit(new_m.words, at_new + t) <==> widened_bit(old_m, d, at_new + t));
    }
    // the new slot therefore reads as the old value, zero-extended
    crate::bits::lemma_bits_value_split(new_m.words, at_new, w2, w);
    assert forall|j: int| 0 <= j < w implies #[trigger] seq_bit(new_m.words, at_new + j)
        == seq_bit(old_m.words, at_old + j) by {}
    crate::bits::lemma_bits_value_eq(new_m.words, at_new, old_m.words, at_old, w);
    assert forall|j: int| at_new + w <= j < at_new + w + (w2 - w) implies !seq_bit(
        new_m.words,
        j,
    ) by {
        assert(seq_bit(new_m.words, at_new + (j - at_new)) == false);
    }
    lemma_bits_value_clear(new_m.words, at_new + w as int, (w2 - w) as nat);
    assert(new_m.raw(k) == old_m.raw(k)) by {
        lemma_pow2_pos(w);
    }
    // the value is still distinguishable from the wider sentinel
    lemma_mask_is_pow2(w);
    lemma_mask_is_pow2(w2);
    crate::bits::lemma_bits_value_bound(old_m.words, at_old, w);
    if d > 0 {
        vstd::arithmetic::power2::lemma_pow2_strictly_increases(w, w2);
    }
    // and the slot lies below the new capacity
    assert(k < new_m.capacity()) by (nonlinear_arith)
        requires
            new_m.capacity() == (new_m.words.len() * 32) as int / w2 as int,
            (k + 1) * w2 <= new_m.words.len() * 32,
            w2 > 0,
            k >= 0,
    ;
}

/// Once every set bit was moved, the rebuilt storage is exactly the
/// widened storage: same bits under the position map, cut at the last
/// image.
proof fn lemma_rebuild_complete(
    m: PackedIntArrayModel,
    add: nat,
    idx: Seq<usize>,
    new_m: PackedIntArrayModel,
)
    requires
        m.wf(),
        m.width > 0,
        m.width + add <= 32,
        new_m.width == m.width + add,
        forall|b: usize| #[trigger]
            idx.contains(b) <==> (b < m.words.len() * 32 && seq_bit(m.words, b as int)),
        forall|k1: int, k2: int|
            0 <= k1 < k2 < idx.len() ==> #[trigger] idx[k1] < #[trigger] idx[k2],
        idx.len() == 0 ==> new_m.words.len() == 0,
        idx.len() > 0 ==> new_m.words.len() == widen_pos(idx[idx.len() - 1] as int, m.width, add)
            / 32 + 1,
        idx.len() == 0 ==> forall|x: int| !seq_bit(new_m.words, x),
        idx.len() > 0 ==> forall|x: int| #[trigger]
            seq_bit(new_m.words, x) <==> (widened_bit(m, add, x) && source_pos(x, m.width, add)
                <= idx[idx.len() - 1]),
    ensures
        new_m.wf(),
        widen_rel(m, add, new_m),
{
    let w = m.width;
    let w2 = (w + add) as int;
    lemma_len32_fits(m);
    if idx.len() == 0 {
        assert forall|q: int| #[trigger] seq_bit(new_m.words, q) <==> widened_bit(m, add, q) by {
            if widened_bit(m, add, q) {
                let s = source_pos(q, w, add);
                assert(0 <= q % w2 < w);
                assert(s >= 0) by (nonlinear_arith)
                    requires
                        s == (q / w2) * w + q % w2,
                        q >= 0,
                        w2 >= w > 0,
                        q % w2 >= 0,
                        q / w2 >= 0,
                ;
                assert(seq_bit(m.words, s) && s < m.words.len() * 32);
                assert(s as usize as int == s);
                assert(idx.contains(s as usize));
                assert(false);
            }
        }
        assert(new_m.size_ok());
    } else {
        let last = idx[idx.len() - 1] as int;
        assert(idx.contains(idx[idx.len() - 1]));
        assert forall|q: int| #[trigger] seq_bit(new_m.words, q) <==> widened_bit(m, add, q) by {
            if widened_bit(m, add, q) {
                let s = source_pos(q, w, add);
                assert(0 <= q % w2 < w);
                assert(s >= 0) by (nonlinear_arith)
                    requires
                        s == (q / w2) * w + q % w2,
                        q >= 0,
                        w2 >= w > 0,
                        q % w2 >= 0,
                        q / w2 >= 0,
                ;
                assert(seq_bit(m.words, s) && s < m.words.len() * 32);
                assert(s as usize as int == s);
                assert(idx.contains(s as usize));
                let si = choose|si: int| 0 <= si < idx.len() && idx[si] == s as usize;
                assert(s <= last) by {
                    if si < idx.len() - 1 {
                        assert(idx[si] < idx[idx.len() - 1]);
                    }
                }
            }
        }
        // the last image sits in the last word
        lemma_widen_pos_inverse(last, w, add);
        let q_last = widen_pos(last, w, add);
        lemma_fundamental_div_mod(q_last, 32);
        assert((new_m.words.len() - 1) * 32 <= q_last) by (nonlinear_arith)
            requires
                new_m.words.len() == q_last / 32 + 1,
                q_last == 32 * (q_last / 32) + q_last % 32,
                q_last % 32 >= 0,
        ;
        assert(seq_bit(m.words, last) && widen_pos(last, w, add) >= (new_m.words.len() - 1) * 32);
        // the size headroom is kept
        lemma_fundamental_div_mod(last, w as int);
        assert(q_last == (last / w as int) * w2 + (last % w as int)) by (nonlinear_arith)
            requires
                q_last == last + (last / w as int) * add,
                last == w * (last / w as int) + last % w as int,
                w2 == w + add,
        ;
        lemma_widen_size(
            w as int,
            w2,
            (usize::MAX / 4096) as int,
            m.words.len() as int * 32,
            last,
            q_last,
        );
        assert(new_m.size_ok());
    }
}

/// The old position that bit `q` of a storage widened by `d` was copied
/// from.
pub open spec fn source_pos(q: int, w: nat, d: nat) -> int
    recommends
        w > 0,
{
    (q / (w + d) as int) * w as int + q % (w + d) as int
}

/// After moving one more set bit into the widened storage, the storage
/// holds exactly the images of the set bits up to and including it.
proof fn lemma_rebuild_step(
    m: PackedIntArrayModel,
    add: nat,
    idx: Seq<usize>,
    t: int,
    old_nb: Seq<u32>,
    new_nb: Seq<u32>,
)
    requires
        m.wf(),
        m.width > 0,
        m.width + add <= 32,
        forall|b: usize| #[trigger]
            idx.contains(b) <==> (b < m.words.len() * 32 && seq_bit(m.words, b as int)),
        forall|k1: int, k2: int|
            0 <= k1 < k2 < idx.len() ==> #[trigger] idx[k1] < #[trigger] idx[k2],
        0 <= t < idx.len(),
        t == 0 ==> forall|x: int| !seq_bit(old_nb, x),
        t > 0 ==> forall|x: int| #[trigger]
            seq_bit(old_nb, x) <==> (widened_bit(m, add, x) && source_pos(x, m.width, add) <= idx[t
                - 1]),
        forall|x: int| #[trigger]
            seq_bit(new_nb, x) == (x == widen_pos(idx[t] as int, m.width, add) || seq_bit(
                old_nb,
                x,
            )),
    ensures
        forall|x: int| #[trigger]
            seq_bit(new_nb, x) <==> (widened_bit(m, add, x) && source_pos(x, m.width, add)
                <= idx[t]),
{
    let w = m.width;
    let w2 = (w + add) as int;
    let p = idx[t] as int;
    let q = widen_pos(p, w, add);
    assert(idx.contains(idx[t]));
    assert(seq_bit(m.words, p));
    lemma_widen_pos_inverse(p, w, add);
    lemma_fundamental_div_mod(p, w as int);
    assert(q == (p / w as int) * w2 + p % w as int) by (nonlinear_arith)
        requires
            q == p + (p / w as int) * add,
            p == w * (p / w as int) + p % w as int,
            w2 == w + add,
    ;
    assert forall|x: int| #[trigger]
        seq_bit(new_nb, x) <==> (widened_bit(m, add, x) && source_pos(x, m.width, add)
            <= idx[t]) by {
        if x == q {
            assert(widened_bit(m, add, x) && source_pos(x, w, add) == p);
        }
        if seq_bit(old_nb, x) {
            // already among the images of the earlier bits
            assert(t > 0);
            assert(idx[t - 1] < idx[t]);
        }
        if widened_bit(m, add, x) && source_pos(x, w, add) <= p && x != q {
            // the source of x is a set bit at or before p, but not p
            // itself, so it was already processed
            let s = source_pos(x, w, add);
            assert(0 <= x % w2 < w);
            lemma_fundamental_div_mod(x, w2);
            if s == p {
                // the decomposition of p over w is unique, so x must be q
                lemma_fundamental_div_mod_converse(p, w as int, x / w2, x % w2);
                assert(x == (x / w2) * w2 + x % w2);
                assert(x / w2 == p / w as int && x % w2 == p % w as int);
                assert(x == q) by (nonlinear_arith)
                    requires
                        x == (p / w as int) * w2 + p % w as int,
                        q == (p / w as int) * w2 + p % w as int,
                ;
                assert(false);
            }
            // s < p: a set bit strictly before p sits at an earlier index
            assert(s >= 0) by (nonlinear_arith)
                requires
                    s == (x / w2) * w + x % w2,
                    x >= 0,
                    w2 >= w > 0,
                    x % w2 >= 0,
                    x / w2 >= 0,
            ;
            assert(seq_bit(m.words, s));
            assert(s < m.words.len() * 32);
            assert(idx.contains(s as usize));
            let si = choose|si: int| 0 <= si < idx.len() && idx[si] == s as usize;
            assert(si < t) by {
                if si >= t {
                    assert(idx[t] <= idx[si]);
                }
            }
            assert(t > 0 && s <= idx[t - 1] as int) by {
                assert(idx[si] <= idx[t - 1]);
            }
            assert(seq_bit(old_nb, x));
        }
    }
}

/// The position a set bit at `p` moves to when every slot grows from `w`
/// bits to `w + d`: the slot index `p / w` gains `d` bits of headroom below
/// the bit.
pub open spec fn widen_pos(p: int, w: nat, d: nat) -> int
    recommends
        w > 0,
{
    p + (p / w as int) * d
}

/// Whether the widened storage holds a set bit at `q`: `q` must be one of
/// the low `w` bits of its new slot, and the corresponding old bit must be
/// set.
pub open spec fn widened_bit(m: PackedIntArrayModel, d: nat, q: int) -> bool {
    let w2 = (m.width + d) as int;
    &&& 0 <= q
    &&& q % w2 < m.width
    &&& seq_bit(m.words, (q / w2) * (m.width as int) + q % w2)
}

/// What widening the slots in place does: every set bit moves to its new
/// position, nothing else is set, and the storage is rebuilt to end at the
/// word of the last set bit — or empty when no bit is set.
pub open spec fn widen_rel(old_m: PackedIntArrayModel, d: nat, new_m: PackedIntArrayModel) -> bool {
    &&& new_m.width == old_m.width + d
    &&& (forall|q: int| #[trigger] seq_bit(new_m.words, q) <==> widened_bit(old_m, d, q))
    &&& (new_m.words.len() > 0 ==> exists|p: int|
        #[trigger] seq_bit(old_m.words, p) && widen_pos(p, old_m.width, d) >= (new_m.words.len()
            - 1) * 32)
}

/// Moving a bit to its widened position and reading the position back:
/// the new position lands on the low part of slot `p / w`, and the old
/// position can be recomputed from it.
proof fn lemma_widen_pos_inverse(p: int, w: nat, d: nat)
    requires
        w > 0,
        w + d <= 32,
        p >= 0,
    ensures
        widen_pos(p, w, d) % (w + d) as int == p % w as int,
        widen_pos(p, w, d) / (w + d) as int == p / w as int,
        (widen_pos(p, w, d) / (w + d) as int) * w as int + widen_pos(p, w, d) % (w + d) as int
            == p,
        widen_pos(p, w, d) >= p,
{
    let a = p / w as int;
    let r = p % w as int;
    let q = widen_pos(p, w, d);
    lemma_fundamental_div_mod(p, w as int);
    assert(q == a * (w + d) + r) by (nonlinear_arith)
        requires
            q == p + a * d,
            p == w * a + r,
    ;
    lemma_fundamental_div_mod_converse(q, (w + d) as int, a, r);
    assert(a * w as int + r == p) by (nonlinear_arith)
        requires
            p == w * a + r,
    ;
    assert(a * d >= 0) by (nonlinear_arith)
        requires
            a >= 0,
            d >= 0,
    ;
}

/// The widened position is strictly monotone in the bit position.
proof fn lemma_widen_pos_monotone(p1: int, p2: int, w: nat, d: nat)
    requires
        w > 0,
        0 <= p1 < p2,
    ensures
        widen_pos(p1, w, d) < widen_pos(p2, w, d),
{
    assert(p1 / w as int <= p2 / w as int && widen_pos(p1, w, d) < widen_pos(p2, w, d))
        by (nonlinear_arith)
        requires
            w > 0,
            0 <= p1 < p2,
    ;
}

/// The widened storage still fits the size headroom of the invariant, and
/// the new positions stay well inside `usize`.
proof fn lemma_widen_size(w: int, w2: int, bnd: int, len32: int, p: int, q: int)
    requires
        1 <= w <= w2 <= 32,
        0 <= p < len32,
        len32 % 32 == 0,
        len32 <= w * bnd + 128 * w * w,
        bnd >= 1,
        q == (p / w) * w2 + (p % w),
    ensures
        0 <= q,
        (q / 32 + 1) * 32 <= w2 * bnd + 128 * w2 * w2,
        q <= w2 * bnd + 128 * w2 * w2,
{
    lemma_fundamental_div_mod(p, w);
    lemma_fundamental_div_mod(q, 32);
    if w2 == w {
        assert(q == p) by (nonlinear_arith)
            requires
                q == (p / w) * w + (p % w),
                w > 0,
                p >= 0,
        ;
        assert((q / 32 + 1) * 32 <= len32) by (nonlinear_arith)
            requires
                0 <= q < len32,
                len32 % 32 == 0,
        ;
        assert(q < len32);
    } else {
        let a = p / w;
        assert(a <= bnd + 128 * w - 1) by (nonlinear_arith)
            requires
                a == p / w,
                0 <= p,
                p <= w * bnd + 128 * w * w - 1,
                w >= 1,
                bnd >= 1,
        ;
        assert(q + 32 <= w2 * bnd + 128 * w2 * w2 - 32) by (nonlinear_arith)
            requires
                q == a * w2 + (p % w),
                a <= bnd + 128 * w - 1,
                0 <= p % w < w,
                1 <= w < w2 <= 32,
                bnd >= 1,
        ;
        assert((q / 32 + 1) * 32 <= q + 32) by (nonlinear_arith)
            requires
                q >= 0,
        ;
    }
    assert(q >= 0) by (nonlinear_arith)
        requires
            q == (p / w) * w2 + (p % w),
            p >= 0,
            1 <= w <= w2,
    ;
}

/// The size bound of the invariant, instantiated at the machine width,
/// stays below `usize::MAX`.
proof fn lemma_size_bound_fits(w2: int)
    by (nonlinear_arith)
    requires
        1 <= w2 <= 32,
        usize::MAX >= 0xffff_ffff,
    ensures
        w2 * (usize::MAX as int / 4096) + 128 * w2 * w2 <= usize::MAX,
{
}

/// The storage size, in bits, fits comfortably in `usize`.
proof fn lemma_len32_fits(m: PackedIntArrayModel)
    requires
        m.wf(),
    ensures
        m.words.len() * 32 <= usize::MAX / 64,
        m.capacity() * m.width <= m.words.len() * 32,
        m.capacity() >= 0,
{
    assert(m.words.len() * 32 <= usize::MAX / 64) by (nonlinear_arith)
        requires
            m.width <= 32,
            usize::MAX >= 0xffff_ffff,
            (m.width == 0 ==> m.words.len() == 0),
            (m.width > 0 ==> m.words.len() * 32 <= m.width * (usize::MAX / 4096) + 128 * m.width
                * m.width),
    ;
    if m.width > 0 {
        assert(m.capacity() * m.width <= m.words.len() * 32) by (nonlinear_arith)
            requires
                m.capacity() == (m.words.len() * 32) as int / m.width as int,
                m.width > 0,
        ;
    }
}

/// After the write loop of [`PackedIntArray::set`], the key's slot holds
/// the value and every other slot kept its contents.
proof fn lemma_store_written(
    old_m: PackedIntArrayModel,
    new_m: PackedIntArrayModel,
    key: int,
    value: u32,
)
    requires
        old_m.wf(),
        new_m.width == old_m.width,
        new_m.words.len() == old_m.words.len(),
        old_m.width > 0,
        0 <= key < old_m.capacity(),
        value < pow2(old_m.width),
        value != old_m.mask(),
        forall|j: int|
            !(key * old_m.width <= j < key * old_m.width + old_m.width) ==> #[trigger] seq_bit(
                new_m.words,
                j,
            ) == seq_bit(old_m.words, j),
        forall|s: int|
            0 <= s < old_m.width ==> #[trigger] seq_bit(new_m.words, key * old_m.width + s)
                == u32_bit(value, s as nat),
    ensures
        new_m.wf(),
        set_rel(old_m, key, value, new_m, Some(())),
{
    let w = old_m.width as int;
    let offset = key * w;
    // the slot now reads back as the value
    assert forall|t: int| 0 <= t < w implies #[trigger] seq_bit(new_m.words, offset + t) == ((value
        as nat / pow2(t as nat)) % 2 == 1) by {
        lemma_u32_bit_arith(value, t as nat);
    }
    lemma_bits_match_value(new_m.words, offset, value as nat, old_m.width);
    // every other slot is unchanged
    assert forall|k: int| k != key implies #[trigger] new_m.get(k) == old_m.get(k) by {
        if 0 <= k < old_m.capacity() {
            assert forall|j: int| k * w <= j < k * w + w implies #[trigger] seq_bit(new_m.words, j)
                == seq_bit(old_m.words, j) by {
                lemma_slot_disjoint(w, k, key, j);
            }
            crate::bits::lemma_bits_value_eq(new_m.words, k * w, old_m.words, k * w, old_m.width);
        }
    }
}

/// After the sentinel loop of [`PackedIntArray::remove`], the key's slot is
/// absent and every other slot kept its contents.
proof fn lemma_remove_restores_sentinel(
    old_m: PackedIntArrayModel,
    new_m: PackedIntArrayModel,
    key: int,
)
    requires
        old_m.wf(),
        key >= 0,
        new_m.width == old_m.width,
        new_m.words.len() == old_m.words.len(),
        forall|j: int|
            #[trigger] seq_bit(new_m.words, j) == (seq_bit(old_m.words, j) || (key * old_m.width
                <= j < key * old_m.width + old_m.width && 0 <= j < old_m.words.len() * 32)),
    ensures
        new_m.wf(),
        forall|k: int|
            #[trigger] new_m.get(k) == (if k == key {
                None::<u32>
            } else {
                old_m.get(k)
            }),
{
    let w = old_m.width as int;
    if old_m.width > 0 {
        assert forall|k: int|
            #[trigger] new_m.get(k) == (if k == key {
                None::<u32>
            } else {
                old_m.get(k)
            }) by {
            if 0 <= k < old_m.capacity() {
                lemma_slot_in_storage(old_m.words.len() as int * 32, w, k);
                if k == key {
                    assert forall|j: int| key * w <= j < key * w + w implies seq_bit(
                        new_m.words,
                        j,
                    ) by {}
                    lemma_all_ones_value(new_m.words, key * w, old_m.width);
                    lemma_mask_is_pow2(old_m.width);
                } else {
                    assert forall|j: int| k * w <= j < k * w + w implies #[trigger] seq_bit(
                        new_m.words,
                        j,
                    ) == seq_bit(old_m.words, j) by {
                        lemma_slot_disjoint(w, k, key, j);
                    }
                    crate::bits::lemma_bits_value_eq(
                        new_m.words,
                        k * w,
                        old_m.words,
                        k * w,
                        old_m.width,
                    );
                }
            }
        }
    }
}

} // verus!
