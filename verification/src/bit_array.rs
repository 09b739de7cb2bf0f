//! A growable bit array addressed in bits: fixed-width word read/write and
//! bit-range read/write at arbitrary bit offsets, over an arena of machine
//! words.

use vstd::arithmetic::power2::pow2;
use vstd::prelude::*;

use crate::word::{lemma_clear_bit, lemma_or_bit, lemma_wval_full, lemma_wval_is_mod, lemma_zero_bits, wbit, wval};

verus! {

/// Releases excess capacity. Relies on `Vec::shrink_to_fit`, which keeps the
/// contents and only shrinks the allocation.
#[verifier::external_body]
pub(crate) fn vec_shrink<T>(v: &mut Vec<T>)
    ensures
        final(v)@ == old(v)@,
{
    v.shrink_to_fit();
}

/// A packed array of bits stored in 64-bit words; bits beyond the allocated
/// words read as 0, and writes grow the arena on demand.
#[derive(Clone)]
pub struct BitArray {
    data: Vec<u64>,
}

impl BitArray {
    /// The bit at position `i`; 0 beyond the allocated words.
    pub closed spec fn spec_bit(&self, i: int) -> bool {
        0 <= i && i / 64 < self.data@.len() && wbit(self.data@[i / 64], (i % 64) as u64)
    }

    /// Value of the `w` bits starting at `o`, low bit first.
    pub open spec fn slice_val(&self, o: int, w: int) -> nat
        decreases w,
    {
        if w <= 0 {
            0
        } else {
            self.slice_val(o, w - 1) + if self.spec_bit(o + w - 1) {
                pow2((w - 1) as nat)
            } else {
                0nat
            }
        }
    }

    /// A new, empty array with room for `bits` bits.
    pub fn with_capacity(bits: u64) -> (r: BitArray)
        ensures
            forall|i: int| !r.spec_bit(i),
    {
        let words = bits / 64 + 1;
        let cap: usize = if words <= usize::MAX as u64 {
            words as usize
        } else {
            usize::MAX
        };
        BitArray { data: Vec::with_capacity(cap) }
    }

    /// A new, empty array.
    pub fn new() -> (r: BitArray)
        ensures
            forall|i: int| !r.spec_bit(i),
    {
        BitArray { data: Vec::new() }
    }

    /// The bit at position `i`.
    pub fn get_bit(&self, i: u64) -> (b: bool)
        ensures
            b == self.spec_bit(i as int),
    {
        let word = i / 64;
        if word < self.data.len() as u64 {
            (self.data[word as usize] >> (i % 64)) & 1u64 == 1u64
        } else {
            false
        }
    }

    /// Sets the bit at position `i`, growing the arena as needed.
    pub fn set_bit(&mut self, i: u64, b: bool)
        requires
            i < u64::MAX - 64,
        ensures
            final(self).spec_bit(i as int) == b,
            forall|j: int| j != i ==> final(self).spec_bit(j) == old(self).spec_bit(j),
    {
        let word = i / 64;
        proof {
            lemma_zero_bits();
        }
        while self.data.len() as u64 <= word
            invariant
                i < u64::MAX - 64,
                word == i as int / 64,
                forall|j: int| self.spec_bit(j) == old(self).spec_bit(j),
            decreases word + 1 - self.data.len(),
        {
            let ghost pre = *self;
            self.data.push(0);
            proof {
                lemma_zero_bits();
                assert forall|j: int| self.spec_bit(j) == pre.spec_bit(j) by {
                    if 0 <= j && j / 64 == pre.data@.len() {
                        assert(self.data@[j / 64] == 0u64);
                        assert((0u64 >> ((j % 64) as u64)) & 1u64 == 0u64);
                    }
                }
            }
        }
        let wi = word as usize;
        let q = i % 64;
        let ghost pre = *self;
        let old_w = self.data[wi];
        let new_w = if b {
            old_w | (1u64 << q)
        } else {
            old_w & !(1u64 << q)
        };
        self.data.set(wi, new_w);
        proof {
            if b {
                lemma_or_bit(old_w, q);
            } else {
                lemma_clear_bit(old_w, q);
            }
            assert(self.spec_bit(i as int) == b);
            assert forall|j: int| j != i implies self.spec_bit(j) == pre.spec_bit(j) by {
                if 0 <= j && j / 64 == word {
                    assert(j % 64 != i as int % 64) by {
                        vstd::arithmetic::div_mod::lemma_fundamental_div_mod(j, 64);
                        vstd::arithmetic::div_mod::lemma_fundamental_div_mod(i as int, 64);
                    }
                }
            }
        }
    }

    /// Reads the `w` bits starting at bit offset `o` as an integer.
    pub fn get_slice(&self, o: u64, w: u64) -> (r: u64)
        requires
            w <= 64,
            o + w <= u64::MAX,
        ensures
            r == self.slice_val(o as int, w as int),
    {
        let mut r: u64 = 0;
        let mut i: u64 = 0;
        proof {
            assert(pow2(0) == 1) by {
                vstd::arithmetic::power2::lemma2_to64();
            }
        }
        while i < w
            invariant
                i <= w <= 64,
                o + w <= u64::MAX,
                r == self.slice_val(o as int, i as int),
                r < pow2(i as nat),
            decreases w - i,
        {
            proof {
                vstd::bits::lemma_u64_pow2_no_overflow(i as nat);
                vstd::bits::lemma_u64_shl_is_mul(1u64, i);
                assert(pow2(i as nat + 1) == 2 * pow2(i as nat)) by {
                    vstd::arithmetic::power2::lemma_pow2_adds(i as nat, 1);
                    vstd::arithmetic::power2::lemma2_to64();
                }
                if i < 63 {
                    vstd::bits::lemma_u64_pow2_no_overflow(i as nat + 1);
                } else {
                    assert(pow2(64) == 0x10000000000000000) by {
                        vstd::arithmetic::power2::lemma2_to64_rest();
                    }
                }
            }
            if self.get_bit(o + i) {
                r = r + (1u64 << i);
            }
            i = i + 1;
        }
        r
    }

    /// Writes the low `w` bits of `v` at bit offset `o`; all other bits keep
    /// their value.
    pub fn set_slice(&mut self, o: u64, w: u64, v: u64)
        requires
            w <= 64,
            o + w < u64::MAX - 64,
            v < pow2(w as nat),
        ensures
            final(self).slice_val(o as int, w as int) == v,
            forall|j: int|
                j < o || j >= o + w ==> final(self).spec_bit(j) == old(self).spec_bit(j),
    {
        let mut i: u64 = 0;
        while i < w
            invariant
                i <= w <= 64,
                o + w < u64::MAX - 64,
                forall|j: int|
                    j < o || j >= o + i ==> self.spec_bit(j) == old(self).spec_bit(j),
                forall|j: int| o <= j < o + i ==> self.spec_bit(j) == wbit(v, (j - o) as u64),
            decreases w - i,
        {
            self.set_bit(o + i, (v >> i) & 1u64 == 1u64);
            i = i + 1;
        }
        proof {
            self.lemma_slice_val_matches(o as int, w as int, v);
            if w == 64 {
                lemma_wval_full(v);
            } else {
                lemma_wval_is_mod(v, w as int);
                vstd::arithmetic::power2::lemma_pow2_pos(w as nat);
                vstd::arithmetic::div_mod::lemma_small_mod(v as nat, pow2(w as nat));
            }
        }
    }

    /// Bits that spell out the low bits of `v` have the value of those bits.
    proof fn lemma_slice_val_matches(&self, o: int, w: int, v: u64)
        requires
            0 <= w <= 64,
            forall|j: int| o <= j < o + w ==> self.spec_bit(j) == wbit(v, (j - o) as u64),
        ensures
            self.slice_val(o, w) == wval(v, w),
        decreases w,
    {
        if w > 0 {
            self.lemma_slice_val_matches(o, w - 1, v);
        }
    }

    /// Reads the `i`-th field of `width` bits.
    pub fn get_word(&self, i: u64, width: u64) -> (r: u64)
        requires
            width <= 64,
            i * width + width <= u64::MAX,
        ensures
            r == self.slice_val(i as int * width as int, width as int),
    {
        self.get_slice(i * width, width)
    }

    /// Writes the `i`-th field of `width` bits.
    pub fn set_word(&mut self, i: u64, width: u64, v: u64)
        requires
            width <= 64,
            i * width + width < u64::MAX - 64,
            v < pow2(width as nat),
        ensures
            final(self).slice_val(i as int * width as int, width as int) == v,
            forall|j: int|
                j < i * width || j >= i * width + width ==> final(self).spec_bit(j) == old(
                    self,
                ).spec_bit(j),
    {
        self.set_slice(i * width, width, v)
    }

    /// Releases any excess capacity; no bit changes value.
    pub fn shrink_to_fit(&mut self)
        ensures
            forall|j: int| final(self).spec_bit(j) == old(self).spec_bit(j),
    {
        vec_shrink(&mut self.data);
    }

    /// A slice value only depends on the bits it covers.
    pub proof fn lemma_slice_val_ext(a: BitArray, c: BitArray, o: int, w: int)
        requires
            forall|j: int| o <= j < o + w ==> a.spec_bit(j) == c.spec_bit(j),
        ensures
            a.slice_val(o, w) == c.slice_val(o, w),
        decreases w,
    {
        if w > 0 {
            Self::lemma_slice_val_ext(a, c, o, w - 1);
        }
    }

    /// A slice value is bounded by the power of two of its width.
    pub proof fn lemma_slice_val_bound(&self, o: int, w: int)
        requires
            0 <= w,
        ensures
            self.slice_val(o, w) < pow2(w as nat),
        decreases w,
    {
        if w == 0 {
            vstd::arithmetic::power2::lemma2_to64();
        } else {
            self.lemma_slice_val_bound(o, w - 1);
            assert(pow2(w as nat) == 2 * pow2((w - 1) as nat)) by {
                vstd::arithmetic::power2::lemma_pow2_adds((w - 1) as nat, 1);
                vstd::arithmetic::power2::lemma2_to64();
            }
        }
    }
}

} // verus!
