//! Combinatorial (enumerative) codec for 64-bit small blocks: a block with a
//! known popcount is stored as its rank among all patterns of that popcount,
//! and single bits, prefix ranks, and selects are decoded straight from that
//! rank without rebuilding the block.

use vstd::prelude::*;

use crate::fid::{
    lemma_rank_le, lemma_rank_mono, lemma_rank_split, lemma_select_from, lemma_select_unique,
    rank_of, select_from, select_of,
};
use crate::tables::{code_width, comb, lemma_comb_bound, lemma_comb_mono, lemma_log2_ceil, Tables};
use crate::word::{popcount, select0_raw, select1_raw, wbit, word_rank, wseq};
use vstd::arithmetic::power2::pow2;

verus! {

/// Number of 1s of `w` at positions `i` and above.
pub open spec fn wones(w: u64, i: int) -> nat
    decreases 64 - i when i <= 64
{
    if i >= 64 {
        0
    } else {
        wones(w, i + 1) + if wbit(w, i as u64) {
            1nat
        } else {
            0nat
        }
    }
}

/// The enumerative code of the bits of `w` at positions `i` and above: each
/// set bit at position `j` contributes the number of ways to place the
/// remaining 1s (those at positions `j` and above) strictly above `j`.
pub open spec fn wcode(w: u64, i: int) -> nat
    decreases 64 - i when i <= 64
{
    if i >= 64 {
        0
    } else if wbit(w, i as u64) {
        comb(63 - i, wones(w, i) as int) + wcode(w, i + 1)
    } else {
        wcode(w, i + 1)
    }
}

/// The index actually stored for a block `w`: its enumerative code, or the
/// raw bit pattern when the table gives the class no smaller width.
pub open spec fn stored_code(w: u64) -> nat {
    if code_width(popcount(w) as int) == 64 {
        w as nat
    } else {
        wcode(w, 0)
    }
}

/// Ones above a position and ones below it make up the whole count.
pub proof fn lemma_wones_rank(w: u64, i: int)
    requires
        0 <= i <= 64,
    ensures
        wones(w, i) + rank_of(wseq(w), true, i) == popcount(w),
    decreases 64 - i,
{
    if i < 64 {
        lemma_wones_rank(w, i + 1);
        assert(wseq(w)[i] == wbit(w, i as u64));
        assert(rank_of(wseq(w), true, i + 1) == rank_of(wseq(w), true, i) + if wseq(w)[i] {
            1nat
        } else {
            0nat
        });
    }
}

/// The enumerative code stays below the number of placements of the
/// remaining 1s among the remaining positions.
pub proof fn lemma_wcode_bound(w: u64, i: int)
    requires
        0 <= i <= 64,
    ensures
        wcode(w, i) < comb(64 - i, wones(w, i) as int),
    decreases 64 - i,
{
    if i == 64 {
        assert(comb(0, 0) == 1);
    } else {
        lemma_wcode_bound(w, i + 1);
        let s = wones(w, i) as int;
        if wbit(w, i as u64) {
            assert(wones(w, i + 1) == s - 1);
            assert(comb(64 - i, s) == comb(63 - i, s - 1) + comb(63 - i, s));
        } else {
            assert(wones(w, i + 1) == s);
            lemma_comb_mono(63 - i, s);
        }
    }
}

/// Compresses the 64-bit block `bits` with popcount `k` into its enumerative
/// code and the width the code is stored in; when the table grants the class
/// the full width, the raw pattern is handed back instead.
pub fn encode(t: &Tables, bits: u64, k: u64) -> (r: (u64, u64))
    requires
        t.wf(),
        k == popcount(bits),
    ensures
        r.0 == stored_code(bits),
        r.1 == code_width(k as int),
        (r.0 as nat) < pow2(r.1 as nat),
{
    proof {
        lemma_rank_le(wseq(bits), true, 64);
    }
    let code_size = t.width_of(k);
    if code_size == 64 {
        proof {
            crate::word::lemma_wval_full(bits);
            crate::word::lemma_wval_is_mod(bits, 0);
            assert((bits as nat) < pow2(64)) by {
                vstd::arithmetic::power2::lemma2_to64_rest();
            }
        }
        return (bits, code_size);
    }
    let ghost w0 = wcode(bits, 0);
    proof {
        lemma_wones_rank(bits, 0);
        lemma_wcode_bound(bits, 0);
        lemma_log2_ceil(comb(64, k as int));
        lemma_comb_bound(64, k as int);
        assert(pow2(64) == 0x10000000000000000) by {
            vstd::arithmetic::power2::lemma2_to64_rest();
        }
    }
    let mut l: u64 = 0;
    let mut code: u64 = 0;
    let mut i: u64 = 0;
    while i < 64
        invariant
            t.wf(),
            k == popcount(bits),
            k <= 64,
            i <= 64,
            l == rank_of(wseq(bits), true, i as int),
            l <= k,
            code + wcode(bits, i as int) == w0,
            w0 < comb(64, k as int),
            comb(64, k as int) <= pow2(code_width(k as int)),
            w0 < 0x10000000000000000,
        decreases 64 - i,
    {
        proof {
            assert(wseq(bits)[i as int] == wbit(bits, i));
            assert(rank_of(wseq(bits), true, i as int + 1) == rank_of(wseq(bits), true, i as int)
                + if wseq(bits)[i as int] {
                1nat
            } else {
                0nat
            });
            lemma_rank_mono(wseq(bits), true, i as int + 1, 64);
            lemma_wones_rank(bits, i as int);
        }
        if (bits >> i) & 1u64 == 1u64 {
            let base = t.binom(63 - i, k - l);
            code = code + base;
            l = l + 1;
        }
        i = i + 1;
    }
    (code, code_size)
}

/// A word is a valid source for a stored index and class when its popcount
/// is the class and its stored code is the index.
pub open spec fn is_source(w: u64, index: u64, k: u64) -> bool {
    popcount(w) == k && stored_code(w) == index
}

/// One decoding step: with `l` 1s seen below position `i`, the remaining code
/// is at least `comb(63 - i, k - l)` exactly when bit `i` is set.
proof fn lemma_decode_step(w: u64, i: int, l: u64, idx: u64, k: u64)
    requires
        0 <= i < 64,
        popcount(w) == k,
        l == rank_of(wseq(w), true, i),
        idx == wcode(w, i),
    ensures
        wbit(w, i as u64) ==> idx >= comb(63 - i, k - l) && wcode(w, i + 1) == idx - comb(
            63 - i,
            k - l,
        ) && rank_of(wseq(w), true, i + 1) == l + 1,
        !wbit(w, i as u64) ==> idx < comb(63 - i, k - l) && wcode(w, i + 1) == idx && rank_of(
            wseq(w),
            true,
            i + 1,
        ) == l,
{
    lemma_wones_rank(w, i);
    lemma_wones_rank(w, i + 1);
    assert(wseq(w)[i] == wbit(w, i as u64));
    assert(rank_of(wseq(w), true, i + 1) == rank_of(wseq(w), true, i) + if wseq(w)[i] {
        1nat
    } else {
        0nat
    });
    lemma_rank_mono(wseq(w), true, i + 1, 64);
    assert(wones(w, i) == k - l);
    if !wbit(w, i as u64) {
        lemma_wcode_bound(w, i + 1);
    }
}

/// Decodes one bit of a block from its stored index: for every block with
/// `k` ones whose stored index is `index`, the result is its bit `p`.
pub fn decode_bit(t: &Tables, index: u64, k: u64, p: u64) -> (r: bool)
    requires
        t.wf(),
        k <= 64,
        p < 64,
    ensures
        forall|w: u64| is_source(w, index, k) ==> r == wbit(w, p),
{
    let code_size = t.width_of(k);
    if code_size == 64 {
        return (index >> p) & 1u64 == 1u64;
    }
    let mut idx = index;
    let mut l: u64 = 0;
    let mut i: u64 = 0;
    while i < p
        invariant
            t.wf(),
            k <= 64,
            p < 64,
            i <= p,
            l <= i,
            l <= k,
            code_width(k as int) != 64,
            forall|w: u64|
                #[trigger] is_source(w, index, k) ==> l == rank_of(wseq(w), true, i as int)
                    && idx == wcode(w, i as int),
        decreases p - i,
    {
        let ghost pre_l = l;
        let ghost pre_idx = idx;
        if l < k {
            let base = t.binom(63 - i, k - l);
            if idx >= base {
                idx = idx - base;
                l = l + 1;
            }
        }
        proof {
            assert forall|w: u64| is_source(w, index, k) implies l == rank_of(
                wseq(w),
                true,
                i as int + 1,
            ) && idx == wcode(w, i as int + 1) by {
                lemma_decode_step(w, i as int, pre_l, pre_idx, k);
                if pre_l == k {
                    lemma_rank_mono(wseq(w), true, i as int + 1, 64);
                    lemma_wones_rank(w, i as int);
                    lemma_wcode_bound(w, i as int);
                }
            }
        }
        i = i + 1;
    }
    let base = t.binom(63 - p, k - l);
    let r = idx >= base;
    proof {
        assert forall|w: u64| is_source(w, index, k) implies r == wbit(w, p) by {
            lemma_decode_step(w, p as int, l, idx, k);
        }
    }
    r
}

/// Decodes the rank of a prefix of a block from its stored index: the number
/// of 1s among the low `p` bits of any block with `k` ones stored as `index`.
pub fn decode_rank1(t: &Tables, index: u64, k: u64, p: u64) -> (r: u64)
    requires
        t.wf(),
        k <= 64,
        p <= 64,
    ensures
        forall|w: u64| is_source(w, index, k) ==> r == rank_of(wseq(w), true, p as int),
{
    let code_size = t.width_of(k);
    if code_size == 64 {
        proof {
            assert forall|w: u64| is_source(w, index, k) implies rank_of(wseq(w), true, p as int)
                == rank_of(wseq(index), true, p as int) by {
                crate::word::lemma_wval_full(w);
                crate::word::lemma_wval_full(index);
                assert(w == index);
            }
        }
        return word_rank(index, p);
    }
    let mut idx = index;
    let mut l: u64 = 0;
    let mut i: u64 = 0;
    while i < p
        invariant
            t.wf(),
            k <= 64,
            p <= 64,
            i <= p,
            l <= i,
            l <= k,
            code_width(k as int) != 64,
            forall|w: u64|
                #[trigger] is_source(w, index, k) ==> l == rank_of(wseq(w), true, i as int)
                    && idx == wcode(w, i as int),
        decreases p - i,
    {
        let ghost pre_l = l;
        let ghost pre_idx = idx;
        if l < k {
            let base = t.binom(63 - i, k - l);
            if idx >= base {
                idx = idx - base;
                l = l + 1;
            }
        }
        proof {
            assert forall|w: u64| is_source(w, index, k) implies l == rank_of(
                wseq(w),
                true,
                i as int + 1,
            ) && idx == wcode(w, i as int + 1) by {
                lemma_decode_step(w, i as int, pre_l, pre_idx, k);
                if pre_l == k {
                    lemma_rank_mono(wseq(w), true, i as int + 1, 64);
                    lemma_wones_rank(w, i as int);
                    lemma_wcode_bound(w, i as int);
                }
            }
        }
        i = i + 1;
    }
    l
}

/// Decodes the position of the `(r+1)`-th 1 of a block from its stored
/// index; 64 when the block has fewer than `r+1` ones.
pub fn decode_select1(t: &Tables, index: u64, k: u64, r: u64) -> (p: u64)
    requires
        t.wf(),
        k <= 64,
    ensures
        forall|w: u64| is_source(w, index, k) ==> p == select_of(wseq(w), true, r as int),
        p <= 64,
{
    let code_size = t.width_of(k);
    if code_size == 64 {
        let p = select1_raw(index, r);
        proof {
            assert forall|w: u64| is_source(w, index, k) implies p == select_of(
                wseq(w),
                true,
                r as int,
            ) by {
                crate::word::lemma_wval_full(w);
                crate::word::lemma_wval_full(index);
                assert(w == index);
            }
        }
        return p;
    }
    let mut idx = index;
    let mut l: u64 = 0;
    let mut i: u64 = 0;
    while i < 64
        invariant
            t.wf(),
            k <= 64,
            i <= 64,
            l <= i,
            l <= k,
            l <= r,
            code_width(k as int) != 64,
            forall|w: u64|
                #[trigger] is_source(w, index, k) ==> l == rank_of(wseq(w), true, i as int)
                    && idx == wcode(w, i as int),
        decreases 64 - i,
    {
        let ghost pre_l = l;
        let ghost pre_idx = idx;
        let mut hit = false;
        if l < k {
            let base = t.binom(63 - i, k - l);
            if idx >= base {
                if l == r {
                    proof {
                        assert forall|w: u64| is_source(w, index, k) implies i == select_of(
                            wseq(w),
                            true,
                            r as int,
                        ) by {
                            lemma_decode_step(w, i as int, pre_l, pre_idx, k);
                            assert(wseq(w)[i as int] == wbit(w, i));
                            lemma_select_unique(wseq(w), true, i as int, 0);
                        }
                    }
                    return i;
                }
                idx = idx - base;
                l = l + 1;
            }
        }
        proof {
            assert forall|w: u64| is_source(w, index, k) implies l == rank_of(
                wseq(w),
                true,
                i as int + 1,
            ) && idx == wcode(w, i as int + 1) by {
                lemma_decode_step(w, i as int, pre_l, pre_idx, k);
                if pre_l == k {
                    lemma_rank_mono(wseq(w), true, i as int + 1, 64);
                    lemma_wones_rank(w, i as int);
                    lemma_wcode_bound(w, i as int);
                }
            }
        }
        i = i + 1;
    }
    proof {
        assert forall|w: u64| is_source(w, index, k) implies 64 == select_of(
            wseq(w),
            true,
            r as int,
        ) by {
            lemma_select_from(wseq(w), true, r as int, 0);
        }
    }
    64
}

/// Decodes the position of the `(r+1)`-th 0 of a block from its stored
/// index; 64 when the block has fewer than `r+1` zeros.
pub fn decode_select0(t: &Tables, index: u64, k: u64, r: u64) -> (p: u64)
    requires
        t.wf(),
        k <= 64,
    ensures
        forall|w: u64| is_source(w, index, k) ==> p == select_of(wseq(w), false, r as int),
        p <= 64,
{
    let code_size = t.width_of(k);
    if code_size == 64 {
        let p = select0_raw(index, r);
        proof {
            assert forall|w: u64| is_source(w, index, k) implies p == select_of(
                wseq(w),
                false,
                r as int,
            ) by {
                crate::word::lemma_wval_full(w);
                crate::word::lemma_wval_full(index);
                assert(w == index);
            }
        }
        return p;
    }
    let mut idx = index;
    let mut l: u64 = 0;
    let mut i: u64 = 0;
    while i < 64
        invariant
            t.wf(),
            k <= 64,
            i <= 64,
            l <= i,
            l <= k,
            i - l <= r,
            code_width(k as int) != 64,
            forall|w: u64|
                #[trigger] is_source(w, index, k) ==> l == rank_of(wseq(w), true, i as int)
                    && idx == wcode(w, i as int),
        decreases 64 - i,
    {
        let ghost pre_l = l;
        let ghost pre_idx = idx;
        let base = t.binom(63 - i, k - l);
        if l < k && idx >= base {
            idx = idx - base;
            l = l + 1;
        } else {
            if i - l == r {
                proof {
                    assert forall|w: u64| is_source(w, index, k) implies i == select_of(
                        wseq(w),
                        false,
                        r as int,
                    ) by {
                        lemma_decode_step(w, i as int, pre_l, pre_idx, k);
                        if pre_l == k {
                            lemma_rank_mono(wseq(w), true, i as int + 1, 64);
                            lemma_wones_rank(w, i as int);
                            lemma_wcode_bound(w, i as int);
                        }
                        assert(wseq(w)[i as int] == wbit(w, i));
                        lemma_rank_split(wseq(w), i as int);
                        lemma_select_unique(wseq(w), false, i as int, 0);
                    }
                }
                return i;
            }
        }
        proof {
            assert forall|w: u64| is_source(w, index, k) implies l == rank_of(
                wseq(w),
                true,
                i as int + 1,
            ) && idx == wcode(w, i as int + 1) by {
                lemma_decode_step(w, i as int, pre_l, pre_idx, k);
                if pre_l == k {
                    lemma_rank_mono(wseq(w), true, i as int + 1, 64);
                    lemma_wones_rank(w, i as int);
                    lemma_wcode_bound(w, i as int);
                }
            }
        }
        i = i + 1;
    }
    proof {
        assert forall|w: u64| is_source(w, index, k) implies 64 == select_of(
            wseq(w),
            false,
            r as int,
        ) by {
            lemma_rank_split(wseq(w), 64);
            lemma_select_from(wseq(w), false, r as int, 0);
        }
    }
    64
}

} // verus!
