//! A succinct bit vector with constant-time rank and select: bits are grouped
//! into 64-bit small blocks compressed by the combinatorial codec, sixteen
//! small blocks form a large block carrying cumulative counts and code
//! offsets, and sparse unit pointers accelerate select.

use vstd::arithmetic::power2::pow2;
use vstd::prelude::*;

use crate::bit_array::{vec_shrink, BitArray};
use crate::codec::{decode_bit, decode_rank1, decode_select0, decode_select1, encode, is_source, stored_code};
use crate::fid::{
    lemma_rank_ext, lemma_rank_le, lemma_rank_mono, lemma_rank_push, lemma_rank_saturates,
    lemma_rank_split, lemma_select_from, lemma_select_push, lemma_select_unique, rank_of,
    select_of, FID,
};
use crate::tables::{code_width, lemma_code_width_le, Tables};
use crate::word::{
    lemma_or_bit, lemma_zero_bits, popcount, select0_raw, select1_raw, wbit, word_rank, wseq,
};

verus! {

/// Bits per small block.
pub const SBLOCK_WIDTH: u64 = 64;

/// Bits used to store one small-block population count (0..=64 needs 7 bits).
pub const SBLOCK_SIZE: u64 = 7;

/// Bits per large block: sixteen small blocks.
pub const LBLOCK_WIDTH: u64 = 1024;

/// log2 of the large-block width.
pub const LBLOCK_SIZE: u64 = 10;

/// Sampling interval, in occurrences, of the select acceleration pointers.
pub const SELECT_UNIT_NUM: u64 = 4096;

/// A succinct bit vector that supports rank and select in constant time.
///
/// Bits are divided into small and large blocks. Each small block is
/// identified by a class (its number of 1s) and an index within the class,
/// stored with the enumerative code of `crate::codec` in a width that depends
/// on the class alone. For each large block the structure keeps the number of
/// 1s up to its end and the bit offset of its first small-block index.
#[derive(Clone)]
pub struct BitVector {
    /// Length of the vector (number of bits).
    len: u64,
    /// Number of 1s.
    ones: u64,
    /// Classes (numbers of 1s) of completed small blocks, 7 bits each.
    sblocks: BitArray,
    /// Number of 1s up to the end of each completed large block.
    lblocks: Vec<u64>,
    /// Indices of the completed small blocks, back to back.
    indices: BitArray,
    /// Bit offset into `indices` of the end of each completed large block.
    pointers: Vec<u64>,
    /// For every 4096th 1, the large block holding it.
    select1_unit_pointers: Vec<u64>,
    /// For every 4096th 0, the large block holding it.
    select0_unit_pointers: Vec<u64>,
    /// The small block still being filled.
    last_sblock_bits: u64,
    /// Bit offset into `indices` where the next code will be written.
    pointer: u64,
    /// Binomial and code-width tables consulted by the codec.
    tables: Tables,
    /// The completed small blocks, as plain words.
    words: Ghost<Seq<u64>>,
}

impl BitVector {
    /// Word of the `j`-th small block: a completed one, or the one being
    /// filled.
    pub closed spec fn word_at(self, j: int) -> u64 {
        if 0 <= j < self.words@.len() {
            self.words@[j]
        } else {
            self.last_sblock_bits
        }
    }

    /// Total number of 1s in the first `j` small blocks.
    pub closed spec fn va_ones(self, j: int) -> nat
        decreases j,
    {
        if j <= 0 {
            0
        } else {
            self.va_ones(j - 1) + popcount(self.word_at(j - 1))
        }
    }

    /// Total width of the codes of the first `j` completed small blocks.
    pub closed spec fn width_to(self, j: int) -> nat
        decreases j,
    {
        if j <= 0 {
            0
        } else {
            self.width_to(j - 1) + code_width(popcount(self.word_at(j - 1)) as int)
        }
    }

    /// The per-block structures agree with the completed block words: stored
    /// classes, the code cursor, and the stored codes.
    #[verifier::opaque]
    pub closed spec fn blocks_inv(self) -> bool {
        &&& forall|j: int|
            0 <= j < self.words@.len() ==> self.sblocks.slice_val(7 * j, 7) == popcount(
                #[trigger] self.words@[j],
            )
        &&& self.pointer == self.width_to(self.words@.len() as int)
        &&& forall|j: int|
            0 <= j < self.words@.len() ==> self.indices.slice_val(
                self.width_to(j) as int,
                code_width(popcount(#[trigger] self.words@[j]) as int) as int,
            ) == stored_code(self.words@[j])
    }

    /// The large-block structures hold `n` entries of cumulative counts and
    /// code offsets.
    #[verifier::opaque]
    pub closed spec fn lindex_inv(self, n: int) -> bool {
        &&& self.lblocks@.len() == n
        &&& forall|m: int|
            0 <= m < self.lblocks@.len() ==> #[trigger] self.lblocks@[m] == self.va_ones(
                16 * (m + 1),
            )
        &&& self.pointers@.len() == n
        &&& forall|m: int|
            0 <= m < self.pointers@.len() ==> #[trigger] self.pointers@[m] == self.width_to(
                16 * (m + 1),
            )
    }

    /// The select acceleration pointers name, for every 4096th occurrence,
    /// the large block holding it.
    #[verifier::opaque]
    pub closed spec fn units_inv(self) -> bool {
        &&& self.select1_unit_pointers@.len() == self.ones as int / 4096
        &&& forall|u: int|
            0 <= u < self.select1_unit_pointers@.len() ==> #[trigger] self.select1_unit_pointers@[u]
                == select_of(self.bits(), true, 4096 * (u + 1) - 1) / 1024
        &&& self.select0_unit_pointers@.len() == (self.len - self.ones) as int / 4096
        &&& forall|u: int|
            0 <= u < self.select0_unit_pointers@.len() ==> #[trigger] self.select0_unit_pointers@[u]
                == select_of(self.bits(), false, 4096 * (u + 1) - 1) / 1024
    }

    /// A rank over the bit sequence splits into whole small blocks and a
    /// remainder inside one block.
    #[verifier::spinoff_prover]
    proof fn lemma_rank_decomp(self, p: int)
        requires
            self.words@.len() == self.len as int / 64,
            0 <= p <= self.len,
        ensures
            rank_of(self.bits(), true, p) == self.va_ones(p / 64) + rank_of(
                wseq(self.word_at(p / 64)),
                true,
                p % 64,
            ),
        decreases p,
    {
        if p == 0 {
        } else {
            self.lemma_rank_decomp(p - 1);
            let j = (p - 1) / 64;
            let b = (p - 1) % 64;
            vstd::arithmetic::div_mod::lemma_fundamental_div_mod(p - 1, 64);
            vstd::arithmetic::div_mod::lemma_fundamental_div_mod(p, 64);
            assert(self.bits()[p - 1] == wbit(self.word_at(j), b as u64));
            assert(rank_of(self.bits(), true, p) == rank_of(self.bits(), true, p - 1)
                + if self.bits()[p - 1] {
                1nat
            } else {
                0nat
            });
            assert(wseq(self.word_at(j))[b] == wbit(self.word_at(j), b as u64));
            assert(rank_of(wseq(self.word_at(j)), true, b + 1) == rank_of(
                wseq(self.word_at(j)),
                true,
                b,
            ) + if wseq(self.word_at(j))[b] {
                1nat
            } else {
                0nat
            });
            if p % 64 == 0 {
                assert(p / 64 == j + 1);
                assert(b == 63);
                assert(self.va_ones(j + 1) == self.va_ones(j) + popcount(self.word_at(j)));
                assert(rank_of(wseq(self.word_at(j)), true, 64) == popcount(self.word_at(j)));
                assert(rank_of(wseq(self.word_at(p / 64)), true, 0) == 0);
            } else {
                assert(p / 64 == j);
                assert(p % 64 == b + 1);
            }
        }
    }

    /// Whole-block ranks are the summed popcounts of the blocks.
    proof fn lemma_rank_blocks(self, j: int)
        requires
            self.words@.len() == self.len as int / 64,
            0 <= j,
            64 * j <= self.len,
        ensures
            rank_of(self.bits(), true, 64 * j) == self.va_ones(j),
    {
        self.lemma_rank_decomp(64 * j);
        assert(64 * j / 64 == j) by {
            vstd::arithmetic::div_mod::lemma_fundamental_div_mod(64 * j, 64);
        }
        assert(64 * j % 64 == 0) by {
            vstd::arithmetic::div_mod::lemma_fundamental_div_mod(64 * j, 64);
        }
    }

    /// Summed popcounts agree between two vectors whose first `j` block words
    /// agree.
    proof fn lemma_va_ones_ext(a: BitVector, c: BitVector, j: int)
        requires
            forall|jj: int| 0 <= jj < j ==> a.word_at(jj) == c.word_at(jj),
        ensures
            a.va_ones(j) == c.va_ones(j),
        decreases j,
    {
        if j > 0 {
            Self::lemma_va_ones_ext(a, c, j - 1);
        }
    }

    /// Summed code widths agree between two vectors whose first `j` block
    /// words agree.
    proof fn lemma_width_to_ext(a: BitVector, c: BitVector, j: int)
        requires
            forall|jj: int| 0 <= jj < j ==> a.word_at(jj) == c.word_at(jj),
        ensures
            a.width_to(j) == c.width_to(j),
        decreases j,
    {
        if j > 0 {
            Self::lemma_width_to_ext(a, c, j - 1);
        }
    }

    /// The summed popcounts grow with the number of blocks and stay below the
    /// bit total.
    proof fn lemma_va_ones_le(self, i: int, j: int)
        requires
            0 <= i <= j,
        ensures
            self.va_ones(i) <= self.va_ones(j),
            self.va_ones(j) - self.va_ones(i) <= 64 * (j - i),
        decreases j,
    {
        if j > i {
            self.lemma_va_ones_le(i, j - 1);
            crate::fid::lemma_rank_le(wseq(self.word_at(j - 1)), true, 64);
        }
    }

    /// The summed code widths grow by at most 64 per block.
    proof fn lemma_width_to_le(self, i: int, j: int)
        requires
            0 <= i <= j,
        ensures
            self.width_to(i) <= self.width_to(j),
            self.width_to(j) - self.width_to(i) <= 64 * (j - i),
        decreases j,
    {
        if j > i {
            self.lemma_width_to_le(i, j - 1);
            lemma_code_width_le(popcount(self.word_at(j - 1)) as int);
        }
    }

    /// How quotient and remainder step down with the dividend.
    proof fn lemma_div_step(a: int, d: int)
        requires
            1 <= a,
            1 <= d,
        ensures
            a % d == 0 ==> (a - 1) / d == a / d - 1 && (a - 1) % d == d - 1,
            a % d != 0 ==> (a - 1) / d == a / d && (a - 1) % d == a % d - 1,
    {
        broadcast use vstd::arithmetic::mul::group_mul_properties;

        vstd::arithmetic::div_mod::lemma_fundamental_div_mod(a, d);
        if a % d == 0 {
            assert(a / d >= 1) by {
                if a / d <= 0 {
                    assert(d * (a / d) <= 0) by (nonlinear_arith)
                        requires
                            d >= 1,
                            a / d <= 0,
                    ;
                }
            }
            vstd::arithmetic::div_mod::lemma_fundamental_div_mod_converse(
                a - 1,
                d,
                a / d - 1,
                d - 1,
            );
        } else {
            vstd::arithmetic::div_mod::lemma_fundamental_div_mod_converse(
                a - 1,
                d,
                a / d,
                a % d - 1,
            );
        }
    }

    /// A multiple of 1024 bits is a multiple of 64 bits, sixteen small blocks
    /// to the large block.
    proof fn lemma_lblock_step(a: int)
        requires
            0 <= a,
            a % 1024 == 0,
        ensures
            a % 64 == 0,
            16 * (a / 1024) == a / 64,
    {
        broadcast use vstd::arithmetic::mul::group_mul_properties;

        vstd::arithmetic::div_mod::lemma_fundamental_div_mod(a, 1024);
        let q = a / 1024;
        assert(q >= 0) by {
            if q < 0 {
                assert(1024 * q <= -1024) by (nonlinear_arith)
                    requires
                        q < 0,
                ;
            }
        }
        assert(a == (16 * q) * 64);
        vstd::arithmetic::div_mod::lemma_fundamental_div_mod_converse(a, 64, 16 * q, 0);
    }

    /// A length not on a small-block boundary is not on a large-block
    /// boundary either.
    proof fn lemma_not_lblock(a: int)
        requires
            0 <= a,
            a % 64 != 0,
        ensures
            a % 1024 != 0,
    {
        if a % 1024 == 0 {
            Self::lemma_lblock_step(a);
        }
    }

    /// Constructs a new, empty `BitVector`.
    pub fn new() -> (r: BitVector)
        ensures
            r.inv(),
            r.bits() == Seq::<bool>::empty(),
    {
        let r = BitVector {
            len: 0,
            ones: 0,
            sblocks: BitArray::new(),
            lblocks: Vec::new(),
            indices: BitArray::new(),
            pointers: Vec::new(),
            select1_unit_pointers: Vec::new(),
            select0_unit_pointers: Vec::new(),
            last_sblock_bits: 0,
            pointer: 0,
            tables: Tables::new(),
            words: Ghost(Seq::empty()),
        };
        proof {
            reveal(BitVector::blocks_inv);
            reveal(BitVector::lindex_inv);
            reveal(BitVector::units_inv);
            lemma_zero_bits();
            assert(r.bits() =~= Seq::<bool>::empty());
        }
        r
    }

    /// Constructs a new, empty `BitVector` with room for `capacity` bits.
    ///
    /// Pre-sizing only trims reallocation cost; it never changes what any
    /// query returns.
    pub fn with_capacity(capacity: u64) -> (r: BitVector)
        ensures
            r.inv(),
            r.bits() == Seq::<bool>::empty(),
    {
        let lblock_len = cap_usize(capacity / 1024 + 1);
        let unit_len = cap_usize(capacity / 4096 + 1);
        let r = BitVector {
            len: 0,
            ones: 0,
            sblocks: BitArray::with_capacity(capacity / 8),
            lblocks: Vec::with_capacity(lblock_len),
            indices: BitArray::with_capacity(capacity),
            pointers: Vec::with_capacity(lblock_len),
            select1_unit_pointers: Vec::with_capacity(unit_len),
            select0_unit_pointers: Vec::with_capacity(unit_len),
            last_sblock_bits: 0,
            pointer: 0,
            tables: Tables::new(),
            words: Ghost(Seq::empty()),
        };
        proof {
            reveal(BitVector::blocks_inv);
            reveal(BitVector::lindex_inv);
            reveal(BitVector::units_inv);
            lemma_zero_bits();
            assert(r.bits() =~= Seq::<bool>::empty());
        }
        r
    }

    /// Constructs a `BitVector` of `len` copies of the bit `b`.
    pub fn from_bit(b: bool, len: u64) -> (r: BitVector)
        requires
            len <= u64::MAX - 128,
        ensures
            r.inv(),
            r.bits() == Seq::new(len as nat, |i: int| b),
    {
        let mut vec = Self::with_capacity(len);
        let mut i: u64 = 0;
        while i < len
            invariant
                vec.inv(),
                i <= len <= u64::MAX - 128,
                vec.bits() == Seq::new(i as nat, |j: int| b),
            decreases len - i,
        {
            vec.push(b);
            i = i + 1;
            proof {
                assert(vec.bits() =~= Seq::new(i as nat, |j: int| b));
            }
        }
        vec
    }

    /// Releases any excess capacity left from construction; the represented
    /// bits, and so the result of every query, stay exactly the same.
    pub fn shrink_to_fit(&mut self)
        requires
            old(self).inv(),
        ensures
            final(self).inv(),
            final(self).bits() == old(self).bits(),
    {
        let ghost pre = *self;
        proof {
        }
        self.sblocks.shrink_to_fit();
        vec_shrink(&mut self.lblocks);
        self.indices.shrink_to_fit();
        vec_shrink(&mut self.pointers);
        vec_shrink(&mut self.select1_unit_pointers);
        vec_shrink(&mut self.select0_unit_pointers);
        proof {
            reveal(BitVector::blocks_inv);
            reveal(BitVector::lindex_inv);
            reveal(BitVector::units_inv);
            assert(self.bits() =~= pre.bits());
            assert forall|j: int| 0 <= j < self.words@.len() implies self.sblocks.slice_val(
                7 * j,
                7,
            ) == popcount(self.words@[j]) by {
                BitArray::lemma_slice_val_ext(self.sblocks, pre.sblocks, 7 * j, 7);
            }
            assert forall|j: int| 0 <= j < self.words@.len() implies self.indices.slice_val(
                self.width_to(j) as int,
                code_width(popcount(self.words@[j]) as int) as int,
            ) == stored_code(self.words@[j]) by {
                Self::lemma_width_to_ext(*self, pre, j);
                BitArray::lemma_slice_val_ext(
                    self.indices,
                    pre.indices,
                    self.width_to(j) as int,
                    code_width(popcount(self.words@[j]) as int) as int,
                );
            }
            assert forall|j: int| 0 <= j <= self.words@.len() implies self.width_to(j)
                == pre.width_to(j) && self.va_ones(j) == pre.va_ones(j) by {
                Self::lemma_width_to_ext(*self, pre, j);
                Self::lemma_va_ones_ext(*self, pre, j);
            }
            assert forall|m: int| 0 <= m < self.lblocks@.len() implies self.lblocks@[m]
                == self.va_ones(16 * (m + 1)) by {
                Self::lemma_va_ones_ext(*self, pre, 16 * (m + 1));
            }
            assert forall|m: int| 0 <= m < self.pointers@.len() implies self.pointers@[m]
                == self.width_to(16 * (m + 1)) by {
                Self::lemma_width_to_ext(*self, pre, 16 * (m + 1));
            }
        }
    }

    /// Appending a bit to the buffered tail appends it to the view.
    #[verifier::spinoff_prover]
    proof fn lemma_push_view(pre: BitVector, mid: BitVector, b: bool)
        requires
            pre.words@.len() == pre.len as int / 64,
            pre.len < u64::MAX,
            forall|bb: u64| pre.len % 64 <= bb < 64 ==> !wbit(pre.last_sblock_bits, bb),
            mid.len == pre.len + 1,
            mid.words == pre.words,
            b ==> mid.last_sblock_bits == pre.last_sblock_bits | (1u64 << (pre.len % 64)),
            !b ==> mid.last_sblock_bits == pre.last_sblock_bits,
        ensures
            mid.bits() == pre.bits().push(b),
            forall|bb: u64|
                mid.len % 64 != 0 && mid.len % 64 <= bb < 64 ==> !wbit(mid.last_sblock_bits, bb),
    {
        let q = pre.len % 64;
        let nw = pre.words@.len() as int;
        vstd::arithmetic::div_mod::lemma_fundamental_div_mod(pre.len as int, 64);
        if b {
            lemma_or_bit(pre.last_sblock_bits, q);
        }
        Self::lemma_div_step(mid.len as int, 64);
        assert forall|i: int| 0 <= i < mid.len implies mid.bits()[i] == pre.bits().push(b)[i] by {
            vstd::arithmetic::div_mod::lemma_fundamental_div_mod(i, 64);
            vstd::arithmetic::div_mod::lemma_div_is_ordered(i, pre.len as int, 64);
            if i < pre.len && i / 64 == nw {
                assert(i % 64 < q);
            }
            if i == pre.len {
                vstd::arithmetic::div_mod::lemma_fundamental_div_mod_converse(
                    i,
                    64,
                    nw,
                    q as int,
                );
            }
        }
        assert(mid.bits() =~= pre.bits().push(b));
        assert forall|bb: u64|
            mid.len % 64 != 0 && mid.len % 64 <= bb < 64 implies !wbit(
            mid.last_sblock_bits,
            bb,
        ) by {
            if b {
                lemma_or_bit(pre.last_sblock_bits, q);
                assert(bb != q);
                assert(((pre.last_sblock_bits | (1u64 << q)) >> bb) & 1u64 == (
                pre.last_sblock_bits >> bb) & 1u64);
            }
            assert(!wbit(pre.last_sblock_bits, bb));
        }
    }

    /// The view and view-derived sums carry over to a state with the same
    /// length, block words, and buffered tail.
    proof fn lemma_view_keep(a: BitVector, c: BitVector)
        requires
            c.len == a.len,
            c.words == a.words,
            c.last_sblock_bits == a.last_sblock_bits,
        ensures
            c.bits() == a.bits(),
    {
        assert(c.bits() =~= a.bits());
    }

    /// The per-block structures stay right when nothing of them changes.
    #[verifier::spinoff_prover]
    proof fn lemma_blocks_keep(pre: BitVector, mid: BitVector)
        requires
            pre.blocks_inv(),
            mid.words == pre.words,
            mid.sblocks == pre.sblocks,
            mid.indices == pre.indices,
            mid.pointer == pre.pointer,
        ensures
            mid.blocks_inv(),
    {
        reveal(BitVector::blocks_inv);
        let nw = pre.words@.len() as int;
        assert forall|jj: int| 0 <= jj <= nw implies mid.width_to(jj) == pre.width_to(jj) by {
            Self::lemma_width_to_ext(mid, pre, jj);
        }
    }

    /// The large-block structures stay right when nothing of them changes.
    #[verifier::spinoff_prover]
    proof fn lemma_lindex_keep(pre: BitVector, mid: BitVector, n: int)
        requires
            pre.lindex_inv(n),
            n >= 0,
            16 * n <= pre.words@.len(),
            mid.words == pre.words,
            mid.lblocks == pre.lblocks,
            mid.pointers == pre.pointers,
        ensures
            mid.lindex_inv(n),
    {
        reveal(BitVector::lindex_inv);
        assert forall|m: int| 0 <= m < mid.lblocks@.len() implies #[trigger] mid.lblocks@[m]
            == mid.va_ones(16 * (m + 1)) by {
            Self::lemma_va_ones_ext(mid, pre, 16 * (m + 1));
        }
        assert forall|m: int| 0 <= m < mid.pointers@.len() implies #[trigger] mid.pointers@[m]
            == mid.width_to(16 * (m + 1)) by {
            Self::lemma_width_to_ext(mid, pre, 16 * (m + 1));
        }
    }

    /// Sixteen times the number of complete large blocks is at most the
    /// number of complete small blocks.
    proof fn lemma_lblock_count(a: int)
        requires
            0 <= a,
        ensures
            16 * (a / 1024) <= a / 64,
            64 * (a / 64) <= a,
    {
        broadcast use vstd::arithmetic::mul::group_mul_properties;

        vstd::arithmetic::div_mod::lemma_fundamental_div_mod(a, 1024);
        vstd::arithmetic::div_mod::lemma_fundamental_div_mod(a, 64);
        vstd::arithmetic::div_mod::lemma_fundamental_div_mod(a / 64, 16);
        vstd::arithmetic::div_mod::lemma_div_denominator(a, 64, 16);
        assert(a / 1024 == (a / 64) / 16);
    }

    /// The select unit pointers stay right across one appended bit.
    #[verifier::spinoff_prover]
    proof fn lemma_units_after_push(pre: BitVector, mid: BitVector, b: bool)
        requires
            pre.units_inv(),
            pre.ones == rank_of(pre.bits(), true, pre.len as int),
            pre.ones <= pre.len,
            pre.len as int == pre.bits().len(),
            mid.len == pre.len + 1,
            mid.len as int == mid.bits().len(),
            mid.bits() == pre.bits().push(b),
            b ==> mid.ones == pre.ones + 1,
            !b ==> mid.ones == pre.ones,
            b ==> mid.select0_unit_pointers == pre.select0_unit_pointers,
            !b ==> mid.select1_unit_pointers == pre.select1_unit_pointers,
            b && mid.ones % 4096 == 0 ==> mid.select1_unit_pointers@
                == pre.select1_unit_pointers@.push(pre.len / 1024),
            b && mid.ones % 4096 != 0 ==> mid.select1_unit_pointers
                == pre.select1_unit_pointers,
            !b && (mid.len - mid.ones) % 4096 == 0 ==> mid.select0_unit_pointers@
                == pre.select0_unit_pointers@.push(pre.len / 1024),
            !b && (mid.len - mid.ones) % 4096 != 0 ==> mid.select0_unit_pointers
                == pre.select0_unit_pointers,
        ensures
            mid.units_inv(),
    {
        reveal(BitVector::units_inv);
        let obs = pre.bits();
        let nbs = mid.bits();
        lemma_rank_push(obs, b, true, pre.len as int);
        lemma_rank_push(obs, b, false, pre.len as int);
        lemma_rank_split(obs, pre.len as int);
        lemma_rank_split(nbs, mid.len as int);
        if b {
            Self::lemma_div_step(mid.ones as int, 4096);
        } else {
            Self::lemma_div_step((mid.len - mid.ones) as int, 4096);
        }
        assert forall|u: int|
            0 <= u < mid.select1_unit_pointers@.len() implies #[trigger] mid.select1_unit_pointers@[u]
            == select_of(nbs, true, 4096 * (u + 1) - 1) / 1024 by {
            if u < pre.select1_unit_pointers@.len() {
                vstd::arithmetic::div_mod::lemma_fundamental_div_mod(pre.ones as int, 4096);
                vstd::arithmetic::mul::lemma_mul_inequality(u + 1, pre.ones as int / 4096, 4096);
                lemma_select_push(obs, b, true, 4096 * (u + 1) - 1);
            } else {
                assert(nbs[pre.len as int] == true);
                lemma_select_unique(nbs, true, pre.len as int, 0);
                assert(4096 * (u + 1) - 1 == mid.ones - 1) by {
                    vstd::arithmetic::div_mod::lemma_fundamental_div_mod(mid.ones as int, 4096);
                }
                assert(select_of(nbs, true, mid.ones as int - 1) == pre.len);
            }
        }
        assert forall|u: int|
            0 <= u < mid.select0_unit_pointers@.len() implies #[trigger] mid.select0_unit_pointers@[u]
            == select_of(nbs, false, 4096 * (u + 1) - 1) / 1024 by {
            if u < pre.select0_unit_pointers@.len() {
                vstd::arithmetic::div_mod::lemma_fundamental_div_mod(
                    (pre.len - pre.ones) as int,
                    4096,
                );
                vstd::arithmetic::mul::lemma_mul_inequality(
                    u + 1,
                    (pre.len - pre.ones) as int / 4096,
                    4096,
                );
                lemma_select_push(obs, b, false, 4096 * (u + 1) - 1);
            } else {
                let zeros = mid.len - mid.ones;
                assert(nbs[pre.len as int] == false);
                lemma_select_unique(nbs, false, pre.len as int, 0);
                assert(4096 * (u + 1) - 1 == zeros - 1) by {
                    vstd::arithmetic::div_mod::lemma_fundamental_div_mod(zeros as int, 4096);
                }
                assert(select_of(nbs, false, zeros as int - 1) == pre.len);
            }
        }
    }

    /// Flushing the buffered word into the block list leaves the view alone.
    #[verifier::spinoff_prover]
    proof fn lemma_flush_view(pre: BitVector, mid: BitVector)
        requires
            pre.words@.len() == pre.len as int / 64 - 1,
            pre.len % 64 == 0,
            0 < pre.len,
            mid.len == pre.len,
            mid.words@ == pre.words@.push(pre.last_sblock_bits),
        ensures
            mid.bits() == pre.bits(),
            forall|jj: int| 0 <= jj < mid.words@.len() ==> mid.word_at(jj) == pre.word_at(jj),
    {
        let nw = pre.words@.len() as int;
        vstd::arithmetic::div_mod::lemma_fundamental_div_mod(pre.len as int, 64);
        Self::lemma_div_step(pre.len as int, 64);
        assert forall|i: int| 0 <= i < mid.len implies mid.bits()[i] == pre.bits()[i] by {
            vstd::arithmetic::div_mod::lemma_fundamental_div_mod(i, 64);
            vstd::arithmetic::div_mod::lemma_div_is_ordered(i, pre.len as int - 1, 64);
        }
        assert(mid.bits() =~= pre.bits());
    }

    /// After the flush, every block structure covers the new block as well.
    #[verifier::spinoff_prover]
    proof fn lemma_flush_blocks(pre: BitVector, mid: BitVector, code: u64, width: u64)
        requires
            pre.blocks_inv(),
            mid.words@ == pre.words@.push(pre.last_sblock_bits),
            width == code_width(popcount(pre.last_sblock_bits) as int),
            code == stored_code(pre.last_sblock_bits),
            forall|j: int|
                j < 7 * pre.words@.len() as int || j >= 7 * pre.words@.len() as int + 7
                    ==> mid.sblocks.spec_bit(j) == pre.sblocks.spec_bit(j),
            mid.sblocks.slice_val(7 * pre.words@.len() as int, 7) == popcount(pre.last_sblock_bits),
            forall|j: int|
                j < pre.pointer || j >= pre.pointer + width ==> mid.indices.spec_bit(j)
                    == pre.indices.spec_bit(j),
            mid.indices.slice_val(pre.pointer as int, width as int) == code,
            mid.pointer == pre.pointer + width,
        ensures
            mid.blocks_inv(),
            forall|jj: int|
                0 <= jj <= mid.words@.len() ==> mid.width_to(jj) == pre.width_to(jj)
                    && mid.va_ones(jj) == pre.va_ones(jj),
    {
        reveal(BitVector::blocks_inv);
        let nw = pre.words@.len() as int;
        assert forall|jj: int| 0 <= jj <= nw + 1 implies mid.width_to(jj) == pre.width_to(jj)
            && mid.va_ones(jj) == pre.va_ones(jj) by {
            Self::lemma_width_to_ext(mid, pre, jj);
            Self::lemma_va_ones_ext(mid, pre, jj);
        }
        assert forall|jj: int| 0 <= jj < mid.words@.len() implies mid.sblocks.slice_val(
            7 * jj,
            7,
        ) == popcount(mid.words@[jj]) by {
            if jj < nw {
                BitArray::lemma_slice_val_ext(mid.sblocks, pre.sblocks, 7 * jj, 7);
            }
        }
        assert forall|jj: int| 0 <= jj < mid.words@.len() implies mid.indices.slice_val(
            mid.width_to(jj) as int,
            code_width(popcount(mid.words@[jj]) as int) as int,
        ) == stored_code(mid.words@[jj]) by {
            if jj < nw {
                pre.lemma_width_to_le(jj + 1, nw);
                BitArray::lemma_slice_val_ext(
                    mid.indices,
                    pre.indices,
                    mid.width_to(jj) as int,
                    code_width(popcount(mid.words@[jj]) as int) as int,
                );
            }
        }
    }

    /// Compresses the completed small block and writes its class and code
    /// into the block structures.
    #[verifier::spinoff_prover]
    #[verifier::rlimit(100)]
    fn flush_word(&mut self)
        requires
            old(self).tables.wf(),
            old(self).len % 64 == 0,
            0 < old(self).len <= u64::MAX - 128,
            old(self).words@.len() == old(self).len as int / 64 - 1,
            old(self).ones == rank_of(old(self).bits(), true, old(self).len as int),
            old(self).ones <= old(self).len,
            old(self).blocks_inv(),
        ensures
            final(self).len == old(self).len,
            final(self).ones == old(self).ones,
            final(self).tables == old(self).tables,
            final(self).lblocks == old(self).lblocks,
            final(self).pointers == old(self).pointers,
            final(self).select1_unit_pointers == old(self).select1_unit_pointers,
            final(self).select0_unit_pointers == old(self).select0_unit_pointers,
            final(self).bits() == old(self).bits(),
            final(self).words@ == old(self).words@.push(old(self).last_sblock_bits),
            final(self).words@.len() == final(self).len as int / 64,
            final(self).last_sblock_bits == 0,
            final(self).blocks_inv(),
            final(self).pointer == final(self).width_to(final(self).words@.len() as int),
            final(self).ones == rank_of(final(self).bits(), true, final(self).len as int),
            forall|jj: int|
                0 <= jj <= final(self).words@.len() ==> final(self).width_to(jj) == old(
                    self,
                ).width_to(jj) && final(self).va_ones(jj) == old(self).va_ones(jj),
    {
        let ghost pre = *self;
        let ghost nw = self.words@.len() as int;
        let w = self.last_sblock_bits;
        let k = word_rank(w, 64);
        let j = self.len / 64 - 1;
        proof {
            reveal(BitVector::blocks_inv);
            vstd::arithmetic::div_mod::lemma_fundamental_div_mod(self.len as int, 64);
            self.lemma_width_to_le(0, nw);
            assert(pow2(7) == 128) by {
                vstd::arithmetic::power2::lemma2_to64();
            }
            lemma_rank_le(wseq(w), true, 64);
            assert(64 * (nw + 1) == self.len);
        }
        self.sblocks.set_word(j, 7, k);
        let (code, width) = encode(&self.tables, w, k);
        proof {
            lemma_code_width_le(k as int);
        }
        self.indices.set_slice(self.pointer, width, code);
        self.pointer = self.pointer + width;
        self.last_sblock_bits = 0;
        self.words = Ghost(self.words@.push(w));
        proof {
            lemma_zero_bits();
            Self::lemma_flush_view(pre, *self);
            Self::lemma_flush_blocks(pre, *self, code, width);
        }
    }

    /// The large-block structures stay right across a change that keeps the
    /// per-block sums over their range.
    proof fn lemma_lindex_transfer(pre: BitVector, mid: BitVector, n: int, bound: int)
        requires
            pre.lindex_inv(n),
            0 <= n,
            16 * n <= bound,
            mid.lblocks == pre.lblocks,
            mid.pointers == pre.pointers,
            forall|jj: int|
                0 <= jj <= bound ==> mid.va_ones(jj) == pre.va_ones(jj) && mid.width_to(jj)
                    == pre.width_to(jj),
        ensures
            mid.lindex_inv(n),
    {
        reveal(BitVector::lindex_inv);
        assert forall|m: int| 0 <= m < mid.lblocks@.len() implies #[trigger] mid.lblocks@[m]
            == mid.va_ones(16 * (m + 1)) by {
            assert(mid.va_ones(16 * (m + 1)) == pre.va_ones(16 * (m + 1)));
        }
        assert forall|m: int| 0 <= m < mid.pointers@.len() implies #[trigger] mid.pointers@[m]
            == mid.width_to(16 * (m + 1)) by {
            assert(mid.width_to(16 * (m + 1)) == pre.width_to(16 * (m + 1)));
        }
    }

    /// On a large-block boundary, appending the cumulative count and the code
    /// offset keeps the large-block structures right.
    #[verifier::spinoff_prover]
    proof fn lemma_lindex_boundary(mid: BitVector, fin: BitVector, nw: int)
        requires
            mid.len % 1024 == 0,
            0 < mid.len,
            mid.words@.len() == nw + 1,
            mid.words@.len() == mid.len as int / 64,
            64 * (nw + 1) == mid.len,
            mid.lindex_inv((mid.len - 1) as int / 1024),
            mid.ones == rank_of(mid.bits(), true, mid.len as int),
            mid.pointer == mid.width_to(nw + 1),
            fin.len == mid.len,
            fin.words == mid.words,
            fin.last_sblock_bits == mid.last_sblock_bits,
            fin.lblocks@ == mid.lblocks@.push(mid.ones),
            fin.pointers@ == mid.pointers@.push(mid.pointer),
        ensures
            fin.lindex_inv(fin.len as int / 1024),
    {
        reveal(BitVector::lindex_inv);
        Self::lemma_div_step(mid.len as int, 1024);
        Self::lemma_lblock_step(mid.len as int);
        Self::lemma_view_keep(mid, fin);
        assert forall|m: int| 0 <= m < fin.lblocks@.len() implies #[trigger] fin.lblocks@[m]
            == fin.va_ones(16 * (m + 1)) by {
            Self::lemma_va_ones_ext(fin, mid, 16 * (m + 1));
            if m < fin.lblocks@.len() - 1 {
                Self::lemma_lblock_count(mid.len as int - 1);
            } else {
                assert(16 * (m + 1) == fin.len as int / 64);
                fin.lemma_rank_blocks(nw + 1);
            }
        }
        assert forall|m: int| 0 <= m < fin.pointers@.len() implies #[trigger] fin.pointers@[m]
            == fin.width_to(16 * (m + 1)) by {
            Self::lemma_width_to_ext(fin, mid, 16 * (m + 1));
            if m == fin.pointers@.len() - 1 {
                assert(16 * (m + 1) == fin.len as int / 64);
            }
        }
    }

    /// Flushes the just-completed small block: stores its class, appends its
    /// code to the index area, and on a large-block boundary records the
    /// cumulative count of 1s and the code offset.
    #[verifier::spinoff_prover]
    #[verifier::rlimit(100)]
    fn push_blocks(&mut self)
        requires
            old(self).tables.wf(),
            old(self).len % 64 == 0,
            0 < old(self).len <= u64::MAX - 128,
            old(self).words@.len() == old(self).len as int / 64 - 1,
            old(self).ones == rank_of(old(self).bits(), true, old(self).len as int),
            old(self).ones <= old(self).len,
            old(self).blocks_inv(),
            old(self).lindex_inv((old(self).len - 1) as int / 1024),
            old(self).units_inv(),
        ensures
            final(self).inv(),
            final(self).len == old(self).len,
            final(self).ones == old(self).ones,
            final(self).bits() == old(self).bits(),
    {
        let ghost pre = *self;
        let ghost nw = self.words@.len() as int;
        self.flush_word();
        let ghost mid = *self;
        proof {
            reveal(BitVector::units_inv);
            lemma_zero_bits();
            Self::lemma_div_step(pre.len as int, 1024);
            assert(mid.units_inv());
        }
        if self.len % 1024 == 0 {
            proof {
                Self::lemma_lblock_step(self.len as int);
                vstd::arithmetic::div_mod::lemma_fundamental_div_mod(mid.len as int, 64);
            }
            self.lblocks.push(self.ones);
            self.pointers.push(self.pointer);
            proof {
                Self::lemma_lblock_count(pre.len as int - 1);
                Self::lemma_div_step(pre.len as int, 64);
                Self::lemma_lindex_transfer(pre, mid, (pre.len - 1) as int / 1024, nw + 1);
                Self::lemma_view_keep(mid, *self);
                Self::lemma_blocks_keep(mid, *self);
                Self::lemma_lindex_boundary(mid, *self, nw);
                assert(self.units_inv());
            }
        } else {
            proof {
                reveal(BitVector::lindex_inv);
                Self::lemma_div_step(pre.len as int, 64);
                Self::lemma_div_step(pre.len as int, 1024);
                Self::lemma_lblock_count(pre.len as int - 1);
                assert forall|m: int| 0 <= m < self.lblocks@.len() implies #[trigger] self.lblocks@[m]
                    == self.va_ones(16 * (m + 1)) by {
                    assert(self.va_ones(16 * (m + 1)) == pre.va_ones(16 * (m + 1)));
                }
                assert forall|m: int| 0 <= m < self.pointers@.len() implies #[trigger] self.pointers@[m]
                    == self.width_to(16 * (m + 1)) by {
                    assert(self.width_to(16 * (m + 1)) == pre.width_to(16 * (m + 1)));
                }
            }
        }
    }

    /// Buffers one bit in the in-progress small block, maintaining the counts
    /// and the select acceleration pointers.
    #[verifier::spinoff_prover]
    #[verifier::rlimit(100)]
    fn push_raw(&mut self, b: bool)
        requires
            old(self).inv(),
            old(self).bits().len() < u64::MAX - 128,
        ensures
            final(self).len == old(self).len + 1,
            final(self).words == old(self).words,
            final(self).tables == old(self).tables,
            final(self).bits() == old(self).bits().push(b),
            final(self).ones == rank_of(final(self).bits(), true, final(self).len as int),
            final(self).ones <= final(self).len,
            final(self).blocks_inv(),
            final(self).lindex_inv(old(self).len as int / 1024),
            final(self).units_inv(),
            forall|bb: u64|
                final(self).len % 64 != 0 && final(self).len % 64 <= bb < 64 ==> !wbit(
                    final(self).last_sblock_bits,
                    bb,
                ),
    {
        let ghost pre = *self;
        let q = self.len % 64;
        let unit = self.len / 1024;
        if b {
            let old_last = self.last_sblock_bits;
            self.last_sblock_bits = old_last | (1u64 << q);
            self.ones = self.ones + 1;
            if self.ones % 4096 == 0 {
                self.select1_unit_pointers.push(unit);
            }
        } else {
            let zeros = self.len - self.ones + 1;
            if zeros % 4096 == 0 {
                self.select0_unit_pointers.push(unit);
            }
        }
        self.len = self.len + 1;
        proof {
            Self::lemma_push_view(pre, *self, b);
            lemma_rank_push(pre.bits(), b, true, pre.len as int);
            Self::lemma_blocks_keep(pre, *self);
            Self::lemma_lblock_count(pre.len as int);
            Self::lemma_lindex_keep(pre, *self, pre.len as int / 1024);
            Self::lemma_units_after_push(pre, *self, b);
        }
    }

    /// All the invariant clauses together make the invariant.
    proof fn lemma_inv_assemble(v: BitVector)
        requires
            v.tables.wf(),
            v.words@.len() == v.len as int / 64,
            v.ones == rank_of(v.bits(), true, v.len as int),
            v.ones <= v.len,
            forall|bb: u64| v.len % 64 <= bb < 64 ==> !wbit(v.last_sblock_bits, bb),
            v.blocks_inv(),
            v.lindex_inv(v.len as int / 1024),
            v.units_inv(),
        ensures
            v.inv(),
    {
    }

    /// Flushes a completed small block if the last appended bit filled one,
    /// and re-establishes the invariant.
    #[verifier::spinoff_prover]
    #[verifier::rlimit(100)]
    fn finish_push(&mut self)
        requires
            old(self).tables.wf(),
            0 < old(self).len <= u64::MAX - 128,
            old(self).words@.len() == (old(self).len - 1) as int / 64,
            old(self).ones == rank_of(old(self).bits(), true, old(self).len as int),
            old(self).ones <= old(self).len,
            old(self).blocks_inv(),
            old(self).lindex_inv((old(self).len - 1) as int / 1024),
            old(self).units_inv(),
            forall|bb: u64|
                old(self).len % 64 != 0 && old(self).len % 64 <= bb < 64 ==> !wbit(
                    old(self).last_sblock_bits,
                    bb,
                ),
        ensures
            final(self).inv(),
            final(self).len == old(self).len,
            final(self).bits() == old(self).bits(),
    {
        let ghost mid = *self;
        proof {
            Self::lemma_div_step(mid.len as int, 64);
        }
        if self.len % 64 == 0 {
            self.push_blocks();
        } else {
            proof {
                Self::lemma_not_lblock(mid.len as int);
                Self::lemma_div_step(mid.len as int, 1024);
                Self::lemma_inv_assemble(mid);
            }
        }
    }

    /// Appends a bit at the end of the vector.
    #[verifier::spinoff_prover]
    #[verifier::rlimit(100)]
    pub fn push(&mut self, b: bool)
        requires
            old(self).inv(),
            old(self).bits().len() < u64::MAX - 128,
        ensures
            final(self).inv(),
            final(self).bits() == old(self).bits().push(b),
    {
        self.push_raw(b);
        self.finish_push();
    }

    /// A buffered word whose bits at and above `lw` are clear has all its 1s
    /// below `lw`.
    proof fn lemma_tail_rank(w: u64, lw: int)
        requires
            0 <= lw <= 64,
            forall|bb: u64| lw <= bb < 64 ==> !wbit(w, bb),
        ensures
            rank_of(wseq(w), true, 64) == rank_of(wseq(w), true, lw),
        decreases 64 - lw,
    {
        if lw < 64 {
            assert(wseq(w)[lw] == wbit(w, lw as u64));
            Self::lemma_tail_rank(w, lw + 1);
        }
    }

    /// The class (popcount) stored for completed block `j`.
    #[verifier::spinoff_prover]
    #[verifier::rlimit(100)]
    fn read_class(&self, j: u64) -> (k: u64)
        requires
            self.inv(),
            j < self.words@.len(),
        ensures
            k == popcount(self.words@[j as int]),
            k <= 64,
    {
        proof {
            reveal(BitVector::blocks_inv);
            assert(7 * j as int + 7 <= 7 * self.words@.len());
        }
        proof {
            vstd::arithmetic::div_mod::lemma_div_is_ordered(
                self.len as int,
                u64::MAX as int,
                64,
            );
            vstd::arithmetic::div_mod::lemma_fundamental_div_mod(u64::MAX as int, 64);
            self.sblocks.lemma_slice_val_bound(7 * j as int, 7);
            assert(pow2(7) == 128) by {
                vstd::arithmetic::power2::lemma2_to64();
            }
            lemma_rank_le(wseq(self.words@[j as int]), true, 64);
        }
        self.sblocks.get_word(j, 7)
    }

    /// Cumulative count of 1s before large block `pos`.
    #[verifier::spinoff_prover]
    #[verifier::rlimit(100)]
    fn get_lblock(&self, pos: u64) -> (r: u64)
        requires
            self.inv(),
            pos as int <= self.len as int / 1024,
        ensures
            r == self.va_ones(16 * pos as int),
    {
        let n = self.lblocks.len();
        proof {
            reveal(BitVector::lindex_inv);
        }
        if pos == 0 {
            0
        } else {
            self.lblocks[(pos - 1) as usize]
        }
    }

    /// Bit offset into the code area of the first small block of large block
    /// `pos`.
    #[verifier::spinoff_prover]
    #[verifier::rlimit(100)]
    fn get_pointer(&self, pos: u64) -> (r: u64)
        requires
            self.inv(),
            pos as int <= self.len as int / 1024,
        ensures
            r == self.width_to(16 * pos as int),
    {
        let n = self.pointers.len();
        proof {
            reveal(BitVector::lindex_inv);
        }
        if pos == 0 {
            0
        } else {
            self.pointers[(pos - 1) as usize]
        }
    }

    /// Number of completed large blocks.
    fn lblock_count(&self) -> (n: u64)
        requires
            self.inv(),
        ensures
            n == self.len / 1024,
            n as int == self.lblocks@.len(),
    {
        proof {
            reveal(BitVector::lindex_inv);
        }
        self.lblocks.len() as u64
    }

    /// A large block at or before the one holding the `(r+1)`-th occurrence
    /// of `b`, found through the sparse unit pointers.
    #[verifier::spinoff_prover]
    #[verifier::rlimit(100)]
    fn get_unit(&self, b: bool, r: u64) -> (pos: u64)
        requires
            self.inv(),
            b ==> r < self.ones,
            !b ==> r < self.len - self.ones,
        ensures
            pos as int <= self.lblocks@.len(),
            16 * pos as int <= self.words@.len(),
            1024 * pos <= self.len,
            rank_of(self.bits(), b, 1024 * pos as int) <= r,
    {
        let index = r / 4096;
        proof {
            reveal(BitVector::units_inv);
            reveal(BitVector::lindex_inv);
            vstd::arithmetic::div_mod::lemma_fundamental_div_mod(r as int, 4096);
            lemma_rank_split(self.bits(), self.len as int);
        }
        if index == 0 {
            return 0;
        }
        proof {
            if b {
                vstd::arithmetic::div_mod::lemma_div_is_ordered(
                    r as int,
                    self.ones as int,
                    4096,
                );
            } else {
                vstd::arithmetic::div_mod::lemma_div_is_ordered(
                    r as int,
                    (self.len - self.ones) as int,
                    4096,
                );
            }
        }
        let pos = if b {
            let n = self.select1_unit_pointers.len();
            proof {
                assert(index - 1 < n as u64);
            }
            self.select1_unit_pointers[(index - 1) as usize]
        } else {
            let n = self.select0_unit_pointers.len();
            proof {
                assert(index - 1 < n as u64);
            }
            self.select0_unit_pointers[(index - 1) as usize]
        };
        proof {
            let bs = self.bits();
            let rr = 4096 * index as int - 1;
            lemma_select_from(bs, b, rr, 0);
            let q = select_of(bs, b, rr);
            // the sampled occurrence exists, so the pointer names its block
            assert(rank_of(bs, b, bs.len() as int) > rr) by {
                lemma_rank_split(bs, self.len as int);
            }
            assert(pos == q / 1024);
            Self::lemma_lblock_count(q);
            vstd::arithmetic::div_mod::lemma_fundamental_div_mod(q, 1024);
            vstd::arithmetic::div_mod::lemma_div_is_ordered(q, self.len as int - 1, 1024);
            vstd::arithmetic::div_mod::lemma_div_is_ordered(q, self.len as int - 1, 64);
            Self::lemma_div_step(self.len as int, 1024);
            Self::lemma_div_step(self.len as int, 64);
            lemma_rank_mono(bs, b, 1024 * pos as int, q);
        }
        pos
    }
    /// Within the completed blocks, walk small blocks from the start of
    /// large block `lblock_pos` to the one holding the `(r+1)`-th 1, and
    /// decode its exact position.
    #[verifier::spinoff_prover]
    #[verifier::rlimit(100)]
    fn select1_in_blocks(&self, lblock_pos: u64, r: u64) -> (p: u64)
        requires
            self.inv(),
            16 * lblock_pos as int <= self.words@.len(),
            (lblock_pos as int) <= self.len as int / 1024,
            rank_of(self.bits(), true, 1024 * lblock_pos as int) <= r,
            r < rank_of(self.bits(), true, 64 * self.words@.len() as int),
        ensures
            p == select_of(self.bits(), true, r as int),
    {
        let ghost bs = self.bits();
        let ghost nw = self.words@.len() as int;
        let ghost r64 = rank_of(bs, true, 64 * nw);
        let mut sblock_pos = lblock_pos * 16;
        let mut rank = self.get_lblock(lblock_pos);
        let mut pointer = self.get_pointer(lblock_pos);
        proof {
            Self::lemma_lblock_count(self.len as int);
            self.lemma_rank_blocks(16 * lblock_pos as int);
            self.lemma_rank_blocks(nw);
            self.lemma_va_ones_le(16 * lblock_pos as int, nw);
            self.lemma_va_ones_le(0, 16 * lblock_pos as int);
        }
        let mut sblock = self.read_class(sblock_pos);
        while rank + sblock <= r
            invariant
                self.inv(),
                bs == self.bits(),
                nw == self.words@.len() as int,
                (sblock_pos as int) < nw,
                64 * nw <= self.len,
                rank == self.va_ones(sblock_pos as int),
                rank == rank_of(bs, true, 64 * sblock_pos as int),
                rank <= 64 * sblock_pos,
                rank <= r,
                r < r64,
                r64 == self.va_ones(nw),
                sblock == popcount(self.words@[sblock_pos as int]),
                sblock <= 64,
                pointer == self.width_to(sblock_pos as int),
            decreases nw - sblock_pos,
        {
            proof {
                self.lemma_va_ones_le(0, sblock_pos as int + 1);
                self.lemma_va_ones_le(sblock_pos as int + 1, nw);
                self.lemma_rank_blocks(sblock_pos as int + 1);
                lemma_code_width_le(sblock as int);
                self.lemma_width_to_le(0, sblock_pos as int + 1);
                self.lemma_width_to_le(sblock_pos as int + 1, nw);
            }
            rank = rank + sblock;
            pointer = pointer + self.tables.width_of(sblock);
            sblock_pos = sblock_pos + 1;
            sblock = self.read_class(sblock_pos);
        }
        let code_size = self.tables.width_of(sblock);
        proof {
            reveal(BitVector::blocks_inv);
            self.lemma_width_to_le(0, sblock_pos as int);
            self.lemma_width_to_le(sblock_pos as int, nw);
        }
        let index = self.indices.get_slice(pointer, code_size);
        let select_sblock = decode_select1(&self.tables, index, sblock, r - rank);
        proof {
            let w = self.words@[sblock_pos as int];
            assert(is_source(w, index, sblock));
            let ws = wseq(w);
            lemma_select_from(ws, true, r as int - rank as int, 0);
            let s = select_of(ws, true, r as int - rank as int);
            self.lemma_rank_decomp(64 * sblock_pos as int + s);
            vstd::arithmetic::div_mod::lemma_fundamental_div_mod_converse(
                64 * sblock_pos as int + s,
                64,
                sblock_pos as int,
                s,
            );
            lemma_select_unique(bs, true, 64 * sblock_pos as int + s, 0);
        }
        sblock_pos * 64 + select_sblock
    }

    /// Position arithmetic for a 0 found inside one completed block: the
    /// block-local select, offset by the block base, is the global select.
    #[verifier::spinoff_prover]
    proof fn lemma_select0_found(self, sblock_pos: int, rank: u64, r: u64)
        requires
            self.words@.len() == self.len as int / 64,
            0 <= sblock_pos < self.words@.len(),
            64 * self.words@.len() as int <= self.len,
            rank == rank_of(self.bits(), false, 64 * sblock_pos),
            rank <= r,
            r < rank + (64 - popcount(self.words@[sblock_pos])),
        ensures
            ({
                let w = self.words@[sblock_pos];
                let s = select_of(wseq(w), false, r - rank);
                &&& 0 <= s < 64
                &&& 64 * sblock_pos + s == select_of(self.bits(), false, r as int)
            }),
    {
        let bs = self.bits();
        let w = self.words@[sblock_pos];
        let ws = wseq(w);
        self.lemma_rank_blocks(sblock_pos);
        lemma_rank_split(bs, 64 * sblock_pos);
        lemma_rank_split(ws, 64);
        lemma_rank_le(ws, true, 64);
        lemma_select_from(ws, false, r as int - rank as int, 0);
        let s = select_of(ws, false, r as int - rank as int);
        self.lemma_rank_decomp(64 * sblock_pos + s);
        lemma_rank_split(bs, 64 * sblock_pos + s);
        lemma_rank_split(ws, s);
        vstd::arithmetic::div_mod::lemma_fundamental_div_mod_converse(
            64 * sblock_pos + s,
            64,
            sblock_pos,
            s,
        );
        lemma_select_unique(bs, false, 64 * sblock_pos + s, 0);
    }

    /// Decode the exact position of the `(r+1)`-th 0 inside the small block
    /// known to hold it.
    #[verifier::spinoff_prover]
    #[verifier::rlimit(100)]
    fn select0_finish(&self, sblock_pos: u64, pointer: u64, sblock: u64, rank: u64, r: u64) -> (p:
        u64)
        requires
            self.inv(),
            (sblock_pos as int) < self.words@.len(),
            64 * self.words@.len() as int <= self.len,
            rank == rank_of(self.bits(), false, 64 * sblock_pos as int),
            rank <= r,
            sblock == popcount(self.words@[sblock_pos as int]),
            sblock <= 64,
            pointer == self.width_to(sblock_pos as int),
            r < rank + (64 - sblock),
        ensures
            p == select_of(self.bits(), false, r as int),
    {
        let ghost bs = self.bits();
        let ghost nw = self.words@.len() as int;
        let code_size = self.tables.width_of(sblock);
        proof {
            reveal(BitVector::blocks_inv);
            lemma_rank_le(wseq(self.words@[sblock_pos as int]), true, 64);
            self.lemma_width_to_le(0, sblock_pos as int);
            self.lemma_width_to_le(sblock_pos as int, nw);
        }
        let index = self.indices.get_slice(pointer, code_size);
        let select_sblock = decode_select0(&self.tables, index, sblock, r - rank);
        proof {
            let w = self.words@[sblock_pos as int];
            assert(is_source(w, index, sblock));
            self.lemma_select0_found(sblock_pos as int, rank, r);
        }
        sblock_pos * 64 + select_sblock
    }

    /// Within the completed blocks, walk small blocks from the start of
    /// large block `lblock_pos` to the one holding the `(r+1)`-th 0, and
    /// decode its exact position.
    #[verifier::spinoff_prover]
    #[verifier::rlimit(100)]
    fn select0_in_blocks(&self, lblock_pos: u64, r: u64) -> (p: u64)
        requires
            self.inv(),
            16 * lblock_pos as int <= self.words@.len(),
            (lblock_pos as int) <= self.len as int / 1024,
            rank_of(self.bits(), false, 1024 * lblock_pos as int) <= r,
            r < rank_of(self.bits(), false, 64 * self.words@.len() as int),
        ensures
            p == select_of(self.bits(), false, r as int),
    {
        let ghost bs = self.bits();
        let ghost nw = self.words@.len() as int;
        let ghost z64 = rank_of(bs, false, 64 * nw);
        let mut sblock_pos = lblock_pos * 16;
        proof {
            Self::lemma_lblock_count(self.len as int);
            self.lemma_rank_blocks(16 * lblock_pos as int);
            self.lemma_rank_blocks(nw);
            self.lemma_va_ones_le(16 * lblock_pos as int, nw);
            self.lemma_va_ones_le(0, 16 * lblock_pos as int);
            lemma_rank_split(bs, 1024 * lblock_pos as int);
            lemma_rank_split(bs, 64 * nw);
        }
        let mut rank = 1024 * lblock_pos - self.get_lblock(lblock_pos);
        let mut pointer = self.get_pointer(lblock_pos);
        let mut sblock = self.read_class(sblock_pos);
        while rank + (64 - sblock) <= r
            invariant
                self.inv(),
                bs == self.bits(),
                nw == self.words@.len() as int,
                (sblock_pos as int) < nw,
                64 * nw <= self.len,
                rank == 64 * sblock_pos as int - self.va_ones(sblock_pos as int),
                rank == rank_of(bs, false, 64 * sblock_pos as int),
                rank <= 64 * sblock_pos,
                rank <= r,
                r < z64,
                z64 == 64 * nw - self.va_ones(nw),
                sblock == popcount(self.words@[sblock_pos as int]),
                sblock <= 64,
                pointer == self.width_to(sblock_pos as int),
            decreases nw - sblock_pos,
        {
            proof {
                lemma_rank_le(wseq(self.words@[sblock_pos as int]), true, 64);
                self.lemma_va_ones_le(0, sblock_pos as int + 1);
                self.lemma_va_ones_le(sblock_pos as int + 1, nw);
                self.lemma_rank_blocks(sblock_pos as int + 1);
                lemma_rank_split(bs, 64 * (sblock_pos as int + 1));
                lemma_code_width_le(sblock as int);
                self.lemma_width_to_le(0, sblock_pos as int + 1);
                self.lemma_width_to_le(sblock_pos as int + 1, nw);
            }
            rank = rank + (64 - sblock);
            pointer = pointer + self.tables.width_of(sblock);
            sblock_pos = sblock_pos + 1;
            sblock = self.read_class(sblock_pos);
        }
        self.select0_finish(sblock_pos, pointer, sblock, rank, r)
    }
}

impl FID for BitVector {
    /// The bits the vector represents: each position reads from its block
    /// word, completed or still buffered.
    closed spec fn bits(&self) -> Seq<bool> {
        Seq::new(self.len as nat, |i: int| wbit(self.word_at(i / 64), (i % 64) as u64))
    }

    /// Structural well-formedness: every index structure agrees with the
    /// sequence of completed block words and the buffered tail.
    closed spec fn inv(&self) -> bool {
        &&& self.tables.wf()
        &&& self.words@.len() == self.len as int / 64
        &&& self.ones == rank_of(self.bits(), true, self.len as int)
        &&& self.ones <= self.len
        &&& forall|b: u64| self.len % 64 <= b < 64 ==> !wbit(self.last_sblock_bits, b)
        &&& self.blocks_inv()
        &&& self.lindex_inv(self.len as int / 1024)
        &&& self.units_inv()
    }

    fn len(&self) -> (n: u64) {
        self.len
    }

    #[verifier::spinoff_prover]
    #[verifier::rlimit(100)]
    fn get(&self, i: u64) -> (r: bool) {
        let ghost bs = self.bits();
        let ghost nw = self.words@.len() as int;
        let excess = self.len - i;
        let last_sblock_width = self.len % 64;
        proof {
            vstd::arithmetic::div_mod::lemma_fundamental_div_mod(self.len as int, 64);
        }
        if excess <= last_sblock_width {
            proof {
                vstd::arithmetic::div_mod::lemma_fundamental_div_mod_converse(
                    i as int,
                    64,
                    nw,
                    i as int - 64 * nw,
                );
            }
            return (self.last_sblock_bits >> (last_sblock_width - excess)) & 1u64 == 1u64;
        }
        let lblock_pos = i / 1024;
        let sblock_start_pos = lblock_pos * 16;
        let sblock_end_pos = i / 64;
        proof {
            Self::lemma_lblock_count(i as int);
            vstd::arithmetic::div_mod::lemma_div_is_ordered(i as int, self.len as int - 1, 1024);
            vstd::arithmetic::div_mod::lemma_div_is_ordered(
                i as int,
                64 * nw - 1,
                64,
            );
            Self::lemma_div_step(self.len as int, 1024);
            vstd::arithmetic::div_mod::lemma_fundamental_div_mod(64 * nw - 1, 64);
            Self::lemma_div_step(64 * nw, 64);
            vstd::arithmetic::div_mod::lemma_fundamental_div_mod_converse(
                64 * nw,
                64,
                nw,
                0,
            );
        }
        let mut pointer = self.get_pointer(lblock_pos);
        let mut j = sblock_start_pos;
        while j < sblock_end_pos
            invariant
                self.inv(),
                sblock_start_pos <= j <= sblock_end_pos,
                sblock_end_pos < self.words@.len(),
                pointer == self.width_to(j as int),
            decreases sblock_end_pos - j,
        {
            let k = self.read_class(j);
            proof {
                lemma_code_width_le(k as int);
                self.lemma_width_to_le(0, j as int);
                self.lemma_width_to_le(j as int, self.words@.len() as int);
                Self::lemma_lblock_count(self.len as int);
            }
            pointer = pointer + self.tables.width_of(k);
            j = j + 1;
        }
        let sblock = self.read_class(sblock_end_pos);
        let code_size = self.tables.width_of(sblock);
        proof {
            reveal(BitVector::blocks_inv);
            self.lemma_width_to_le(0, sblock_end_pos as int);
            self.lemma_width_to_le(sblock_end_pos as int, self.words@.len() as int);
            Self::lemma_lblock_count(self.len as int);
        }
        let index = self.indices.get_slice(pointer, code_size);
        let r = decode_bit(&self.tables, index, sblock, i % 64);
        proof {
            let w = self.words@[sblock_end_pos as int];
            assert(is_source(w, index, sblock));
            assert(bs[i as int] == wbit(w, (i as int % 64) as u64));
        }
        r
    }

    #[verifier::spinoff_prover]
    #[verifier::rlimit(100)]
    fn rank1(&self, i: u64) -> (r: u64) {
        let ghost bs = self.bits();
        let ghost nw = self.words@.len() as int;
        if self.len <= i {
            proof {
                lemma_rank_saturates(bs, true, i as int);
            }
            return self.ones;
        }
        let excess = self.len - i;
        let last_sblock_width = self.len % 64;
        proof {
            vstd::arithmetic::div_mod::lemma_fundamental_div_mod(self.len as int, 64);
            self.lemma_rank_decomp(self.len as int);
            self.lemma_rank_decomp(i as int);
            Self::lemma_tail_rank(
                self.last_sblock_bits,
                last_sblock_width as int,
            );
        }
        if excess <= last_sblock_width {
            proof {
                vstd::arithmetic::div_mod::lemma_fundamental_div_mod_converse(
                    i as int,
                    64,
                    nw,
                    i as int - 64 * nw,
                );
                lemma_rank_mono(
                    wseq(self.last_sblock_bits),
                    true,
                    i as int - 64 * nw,
                    last_sblock_width as int,
                );
            }
            let below = word_rank(self.last_sblock_bits, last_sblock_width - excess);
            let total = word_rank(self.last_sblock_bits, 64);
            return self.ones - (total - below);
        }
        let lblock_pos = i / 1024;
        let sblock_start_pos = lblock_pos * 16;
        let sblock_end_pos = i / 64;
        proof {
            Self::lemma_lblock_count(i as int);
            vstd::arithmetic::div_mod::lemma_div_is_ordered(i as int, self.len as int - 1, 1024);
            vstd::arithmetic::div_mod::lemma_div_is_ordered(i as int, 64 * nw - 1, 64);
            Self::lemma_div_step(self.len as int, 1024);
            vstd::arithmetic::div_mod::lemma_fundamental_div_mod(64 * nw - 1, 64);
            Self::lemma_div_step(64 * nw, 64);
            vstd::arithmetic::div_mod::lemma_fundamental_div_mod_converse(64 * nw, 64, nw, 0);
            self.lemma_rank_blocks(16 * lblock_pos as int);
            lemma_rank_le(bs, true, i as int);
        }
        let mut pointer = self.get_pointer(lblock_pos);
        let mut rank = self.get_lblock(lblock_pos);
        let mut j = sblock_start_pos;
        while j < sblock_end_pos
            invariant
                self.inv(),
                sblock_start_pos <= j <= sblock_end_pos,
                sblock_end_pos < self.words@.len(),
                pointer == self.width_to(j as int),
                rank == self.va_ones(j as int),
            decreases sblock_end_pos - j,
        {
            let k = self.read_class(j);
            proof {
                lemma_code_width_le(k as int);
                self.lemma_width_to_le(0, j as int);
                self.lemma_width_to_le(j as int, self.words@.len() as int);
                self.lemma_va_ones_le(0, j as int);
                self.lemma_va_ones_le(j as int, self.words@.len() as int);
                Self::lemma_lblock_count(self.len as int);
                self.lemma_rank_blocks(self.words@.len() as int);
                lemma_rank_le(bs, true, 64 * self.words@.len() as int);
            }
            rank = rank + k;
            pointer = pointer + self.tables.width_of(k);
            j = j + 1;
        }
        let sblock = self.read_class(sblock_end_pos);
        let code_size = self.tables.width_of(sblock);
        proof {
            reveal(BitVector::blocks_inv);
            self.lemma_width_to_le(0, sblock_end_pos as int);
            self.lemma_width_to_le(sblock_end_pos as int, self.words@.len() as int);
            Self::lemma_lblock_count(self.len as int);
            self.lemma_rank_blocks(sblock_end_pos as int);
            lemma_rank_le(wseq(self.words@[sblock_end_pos as int]), true, i as int % 64);
        }
        let index = self.indices.get_slice(pointer, code_size);
        let rest = decode_rank1(&self.tables, index, sblock, i % 64);
        proof {
            let w = self.words@[sblock_end_pos as int];
            assert(is_source(w, index, sblock));
        }
        rank + rest
    }


    /// Locate the `(r+1)`-th 1: jump near the right large block through the
    /// unit pointers, scan at most a few cumulative counts, walk the at most
    /// sixteen small blocks of that large block, and decode inside one block.
    #[verifier::spinoff_prover]
    #[verifier::rlimit(100)]
    fn select1(&self, r: u64) -> (p: u64) {
        let ghost bs = self.bits();
        let ghost nw = self.words@.len() as int;
        proof {
            lemma_select_from(bs, true, r as int, 0);
        }
        if self.ones <= r {
            return self.len;
        }
        let last_sblock_width = self.len % 64;
        proof {
            vstd::arithmetic::div_mod::lemma_fundamental_div_mod(self.len as int, 64);
            self.lemma_rank_decomp(self.len as int);
            self.lemma_rank_blocks(nw);
            Self::lemma_tail_rank(self.last_sblock_bits, last_sblock_width as int);
        }
        let ghost r64 = rank_of(bs, true, 64 * nw);
        let nlb = self.lblock_count();
        let mut lblock_pos = self.get_unit(true, r);
        while lblock_pos < nlb
            invariant
                self.inv(),
                bs == self.bits(),
                nw == self.words@.len() as int,
                nlb as int == self.lblocks@.len(),
                nlb == self.len / 1024,
                lblock_pos <= nlb,
                16 * lblock_pos as int <= nw,
                1024 * lblock_pos <= self.len,
                rank_of(bs, true, 1024 * lblock_pos as int) <= r,
            decreases nlb - lblock_pos,
        {
            proof {
                Self::lemma_lblock_count(self.len as int);
                self.lemma_rank_blocks(16 * (lblock_pos as int + 1));
                vstd::arithmetic::div_mod::lemma_fundamental_div_mod(self.len as int, 1024);
            }
            let lblock = self.get_lblock(lblock_pos + 1);
            if lblock >= r {
                break ;
            }
            lblock_pos = lblock_pos + 1;
        }
        let last_sblock = word_rank(self.last_sblock_bits, 64);
        if self.ones - r <= last_sblock {
            // the target 1 sits in the buffered tail
            let k = self.len - last_sblock_width;
            let rank = r - (self.ones - last_sblock);
            let s = select1_raw(self.last_sblock_bits, rank);
            proof {
                let ws = wseq(self.last_sblock_bits);
                lemma_select_from(ws, true, rank as int, 0);
                assert(s < last_sblock_width) by {
                    if s >= last_sblock_width {
                        assert(!wbit(self.last_sblock_bits, s));
                    }
                }
                self.lemma_rank_decomp(64 * nw + s as int);
                vstd::arithmetic::div_mod::lemma_fundamental_div_mod_converse(
                    64 * nw + s as int,
                    64,
                    nw,
                    s as int,
                );
                lemma_select_unique(bs, true, 64 * nw + s as int, 0);
            }
            return k + s;
        }
        proof {
            self.lemma_rank_blocks(nw);
        }
        self.select1_in_blocks(lblock_pos, r)
    }

    /// Locate the `(r+1)`-th 0: the structural mirror of `select1` over
    /// zero counts and the zero unit pointers.
    #[verifier::spinoff_prover]
    #[verifier::rlimit(100)]
    fn select0(&self, r: u64) -> (p: u64) {
        let ghost bs = self.bits();
        let ghost nw = self.words@.len() as int;
        let zeros = self.len - self.ones;
        proof {
            lemma_select_from(bs, false, r as int, 0);
            lemma_rank_split(bs, self.len as int);
        }
        if zeros <= r {
            return self.len;
        }
        let last_sblock_width = self.len % 64;
        proof {
            vstd::arithmetic::div_mod::lemma_fundamental_div_mod(self.len as int, 64);
            self.lemma_rank_decomp(self.len as int);
            self.lemma_rank_blocks(nw);
            Self::lemma_tail_rank(self.last_sblock_bits, last_sblock_width as int);
            lemma_rank_split(bs, 64 * nw);
            lemma_rank_le(wseq(self.last_sblock_bits), true, last_sblock_width as int);
        }
        let ghost z64 = rank_of(bs, false, 64 * nw);
        let nlb = self.lblock_count();
        let mut lblock_pos = self.get_unit(false, r);
        while lblock_pos < nlb
            invariant
                self.inv(),
                bs == self.bits(),
                nw == self.words@.len() as int,
                nlb as int == self.lblocks@.len(),
                nlb == self.len / 1024,
                lblock_pos <= nlb,
                16 * lblock_pos as int <= nw,
                1024 * lblock_pos <= self.len,
                rank_of(bs, false, 1024 * lblock_pos as int) <= r,
            decreases nlb - lblock_pos,
        {
            proof {
                Self::lemma_lblock_count(self.len as int);
                self.lemma_rank_blocks(16 * (lblock_pos as int + 1));
                self.lemma_va_ones_le(0, 16 * (lblock_pos as int + 1));
                lemma_rank_split(bs, 1024 * (lblock_pos as int + 1));
                vstd::arithmetic::div_mod::lemma_fundamental_div_mod(self.len as int, 1024);
            }
            let lblock = 1024 * (lblock_pos + 1) - self.get_lblock(lblock_pos + 1);
            if lblock >= r {
                break ;
            }
            lblock_pos = lblock_pos + 1;
        }
        let last_ones = word_rank(self.last_sblock_bits, 64);
        let last_sblock = last_sblock_width - last_ones;
        if zeros - r <= last_sblock {
            // the target 0 sits in the buffered tail
            let rank = r - (zeros - last_sblock);
            let k = self.len - last_sblock_width;
            let s = select0_raw(self.last_sblock_bits, rank);
            proof {
                let ws = wseq(self.last_sblock_bits);
                lemma_rank_split(ws, last_sblock_width as int);
                lemma_rank_split(ws, 64);
                lemma_select_from(ws, false, rank as int, 0);
                assert(s < last_sblock_width) by {
                    if s >= last_sblock_width {
                        lemma_rank_mono(ws, false, last_sblock_width as int, s as int);
                    }
                }
                self.lemma_rank_decomp(64 * nw + s as int);
                lemma_rank_split(bs, 64 * nw + s as int);
                lemma_rank_split(ws, s as int);
                vstd::arithmetic::div_mod::lemma_fundamental_div_mod_converse(
                    64 * nw + s as int,
                    64,
                    nw,
                    s as int,
                );
                lemma_select_unique(bs, false, 64 * nw + s as int, 0);
            }
            return k + s;
        }
        proof {
            self.lemma_rank_blocks(nw);
            lemma_rank_split(bs, 64 * nw);
        }
        self.select0_in_blocks(lblock_pos, r)
    }
}

/// Clamps a requested element count to what `usize` can address.
fn cap_usize(x: u64) -> (r: usize)
    ensures
        r as u64 <= x,
{
    if x <= usize::MAX as u64 {
        x as usize
    } else {
        usize::MAX
    }
}

impl Default for BitVector {
    /// An empty vector, as `new` builds it.
    fn default() -> (r: BitVector)
        ensures
            r.inv(),
            r.bits() == Seq::<bool>::empty(),
    {
        BitVector::new()
    }
}

} // verus!
