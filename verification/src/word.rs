//! Bits of a single machine word, viewed as a sequence of 64 booleans
//! (low bit first), with verified scan helpers.

use vstd::arithmetic::power2::pow2;
use vstd::prelude::*;

use crate::fid::{rank_of, select_from};

verus! {

/// Bit `i` of the word `w`, low bit first; meaningful for `i < 64`.
pub open spec fn wbit(w: u64, i: u64) -> bool {
    (w >> i) & 1u64 == 1u64
}

/// The 64 bits of `w` as a sequence, low bit first.
pub open spec fn wseq(w: u64) -> Seq<bool> {
    Seq::new(64, |i: int| wbit(w, i as u64))
}

/// Number of 1s in `w`.
pub open spec fn popcount(w: u64) -> nat {
    rank_of(wseq(w), true, 64)
}

/// Value of the low `n` bits of `w`.
pub open spec fn wval(w: u64, n: int) -> nat
    decreases n,
{
    if n <= 0 {
        0
    } else {
        wval(w, n - 1) + if wbit(w, (n - 1) as u64) {
            pow2((n - 1) as nat)
        } else {
            0nat
        }
    }
}

/// Setting a bit leaves every other bit as it was.
pub proof fn lemma_or_bit(w: u64, q: u64)
    by (bit_vector)
    requires
        q < 64,
    ensures
        forall|j: u64| j < 64 && j != q ==> ((w | (1u64 << q)) >> j) & 1u64 == (w >> j) & 1u64,
        ((w | (1u64 << q)) >> q) & 1u64 == 1u64,
{
}

/// Clearing a bit leaves every other bit as it was.
pub proof fn lemma_clear_bit(w: u64, q: u64)
    by (bit_vector)
    requires
        q < 64,
    ensures
        forall|j: u64| j < 64 && j != q ==> ((w & !(1u64 << q)) >> j) & 1u64 == (w >> j) & 1u64,
        ((w & !(1u64 << q)) >> q) & 1u64 == 0u64,
{
}

/// Every bit of zero is clear.
pub proof fn lemma_zero_bits()
    by (bit_vector)
    ensures
        forall|j: u64| j < 64 ==> (0u64 >> j) & 1u64 == 0u64,
{
}

/// The low bits of a word are its value modulo the matching power of two.
pub proof fn lemma_wval_is_mod(w: u64, n: int)
    requires
        0 <= n < 64,
    ensures
        wval(w, n) == (w as nat) % pow2(n as nat),
    decreases n,
{
    if n == 0 {
        assert(pow2(0) == 1) by {
            vstd::arithmetic::power2::lemma2_to64();
        }
        assert((w as nat) % 1 == 0);
    } else {
        lemma_wval_is_mod(w, n - 1);
        let m = (n - 1) as nat;
        vstd::arithmetic::power2::lemma_pow2_pos(m);
        // wbit(w, n-1) reflects (w / pow2(n-1)) % 2
        vstd::bits::lemma_u64_shr_is_div(w, (n - 1) as u64);
        let q = w >> ((n - 1) as u64);
        assert(q & 1u64 == q % 2) by (bit_vector);
        // w % pow2(n) == pow2(n-1) * ((w / pow2(n-1)) % 2) + w % pow2(n-1)
        vstd::arithmetic::div_mod::lemma_mod_breakdown(w as int, pow2(m) as int, 2);
        assert(pow2(m) * 2 == pow2(m + 1)) by {
            vstd::arithmetic::power2::lemma_pow2_adds(m, 1);
            vstd::arithmetic::power2::lemma2_to64();
        }
        if wbit(w, (n - 1) as u64) {
            assert(q % 2 == 1);
        } else {
            assert(q % 2 == 0);
        }
    }
}

/// A word is determined by its 64 bits.
pub proof fn lemma_wval_full(w: u64)
    ensures
        wval(w, 64) == w as nat,
{
    lemma_wval_is_mod(w, 63);
    // unfold the last step by hand
    assert(wval(w, 64) == wval(w, 63) + if wbit(w, 63u64) {
        pow2(63)
    } else {
        0nat
    });
    vstd::bits::lemma_u64_shr_is_div(w, 63u64);
    let q = w >> 63u64;
    assert((w >> 63u64) <= 1 && ((w >> 63u64) & 1u64) == (w >> 63u64)) by (bit_vector);
    vstd::arithmetic::power2::lemma_pow2_pos(63);
    vstd::arithmetic::div_mod::lemma_fundamental_div_mod(w as int, pow2(63) as int);
    assert(q == (w as nat) / pow2(63));
    if wbit(w, 63u64) {
        assert(q == 1);
    } else {
        assert(q == 0);
    }
}

/// Number of 1s among the low `p` bits of `w`.
pub fn word_rank(w: u64, p: u64) -> (r: u64)
    requires
        p <= 64,
    ensures
        r == rank_of(wseq(w), true, p as int),
        r <= p,
{
    let mut r: u64 = 0;
    let mut i: u64 = 0;
    while i < p
        invariant
            i <= p <= 64,
            r == rank_of(wseq(w), true, i as int),
            r <= i,
        decreases p - i,
    {
        proof {
            assert(wseq(w)[i as int] == wbit(w, i));
            assert(rank_of(wseq(w), true, i as int + 1) == rank_of(wseq(w), true, i as int)
                + if wseq(w)[i as int] {
                1nat
            } else {
                0nat
            });
        }
        if (w >> i) & 1u64 == 1u64 {
            r = r + 1;
        }
        i = i + 1;
    }
    r
}

/// Position of the `(r + 1)`-th 1 in `w`, or 64 when there are fewer.
pub fn select1_raw(w: u64, r: u64) -> (p: u64)
    ensures
        p == select_from(wseq(w), true, r as int, 0),
        p <= 64,
{
    let mut rr: u64 = r;
    let mut i: u64 = 0;
    while i < 64
        invariant
            i <= 64,
            rr <= r,
            select_from(wseq(w), true, r as int, 0) == select_from(wseq(w), true, rr as int, i as int),
        decreases 64 - i,
    {
        proof {
            assert(wseq(w)[i as int] == wbit(w, i));
        }
        if (w >> i) & 1u64 == 1u64 {
            if rr == 0 {
                return i;
            }
            rr = rr - 1;
        }
        i = i + 1;
    }
    64
}

/// Position of the `(r + 1)`-th 0 in `w`, or 64 when there are fewer.
pub fn select0_raw(w: u64, r: u64) -> (p: u64)
    ensures
        p == select_from(wseq(w), false, r as int, 0),
        p <= 64,
{
    let mut rr: u64 = r;
    let mut i: u64 = 0;
    while i < 64
        invariant
            i <= 64,
            rr <= r,
            select_from(wseq(w), false, r as int, 0) == select_from(wseq(w), false, rr as int, i as int),
        decreases 64 - i,
    {
        proof {
            assert(wseq(w)[i as int] == wbit(w, i));
        }
        if !((w >> i) & 1u64 == 1u64) {
            if rr == 0 {
                return i;
            }
            rr = rr - 1;
        }
        i = i + 1;
    }
    64
}

} // verus!
