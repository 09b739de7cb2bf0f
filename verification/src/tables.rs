//! Numeric tables for the combinatorial codec: binomial coefficients
//! `C(m, s)` for `m, s <= 64` and the per-class code widths derived from them.

use vstd::arithmetic::power2::pow2;
use vstd::prelude::*;

verus! {

/// Binomial coefficient `C(m, s)`, by Pascal's rule.
pub open spec fn comb(m: int, s: int) -> nat
    decreases m,
{
    if s <= 0 {
        1
    } else if m <= 0 {
        0
    } else {
        comb(m - 1, s - 1) + comb(m - 1, s)
    }
}

/// Smallest `e` with `c <= pow2(e)`.
pub open spec fn log2_ceil(c: nat) -> nat
    decreases c,
{
    if c <= 1 {
        0
    } else {
        1 + log2_ceil(((c + 1) / 2) as nat)
    }
}

/// Width in bits of the stored index of a small block with `k` ones.
pub open spec fn code_width(k: int) -> nat {
    log2_ceil(comb(64, k))
}

/// A binomial coefficient is at most the corresponding power of two,
/// and strictly below it once the row is positive.
pub proof fn lemma_comb_bound(m: int, s: int)
    requires
        1 <= m,
    ensures
        comb(m, s) < pow2(m as nat),
    decreases m,
{
    vstd::arithmetic::power2::lemma2_to64();
    if m == 1 {
        if s > 0 {
            assert(comb(0, s - 1) <= 1);
            assert(comb(0, s) == 0);
        }
        assert(comb(1, s) <= 1);
    } else {
        lemma_comb_bound(m - 1, s - 1);
        lemma_comb_bound(m - 1, s);
        assert(pow2((m - 1) as nat) + pow2((m - 1) as nat) == pow2(m as nat)) by {
            vstd::arithmetic::power2::lemma_pow2_adds((m - 1) as nat, 1);
        }
    }
}

/// Rows of Pascal's triangle grow downwards.
pub proof fn lemma_comb_mono(m: int, s: int)
    requires
        0 <= m,
    ensures
        comb(m, s) <= comb(m + 1, s),
{
}

/// A binomial coefficient is positive on the valid triangle.
pub proof fn lemma_comb_pos(m: int, s: int)
    requires
        0 <= s <= m,
    ensures
        comb(m, s) >= 1,
    decreases m,
{
    if s > 0 {
        lemma_comb_pos(m - 1, s - 1);
    }
}

/// `log2_ceil` names the least exponent whose power of two reaches `c`.
pub proof fn lemma_log2_ceil(c: nat)
    ensures
        c <= pow2(log2_ceil(c)),
        c >= 2 ==> pow2((log2_ceil(c) - 1) as nat) < c,
    decreases c,
{
    vstd::arithmetic::power2::lemma2_to64();
    if c >= 2 {
        let d = ((c + 1) / 2) as nat;
        lemma_log2_ceil(d);
        assert(pow2(log2_ceil(d) + 1) == 2 * pow2(log2_ceil(d))) by {
            vstd::arithmetic::power2::lemma_pow2_adds(log2_ceil(d), 1);
        }
        if d >= 2 {
            assert(pow2(log2_ceil(d)) == 2 * pow2((log2_ceil(d) - 1) as nat)) by {
                vstd::arithmetic::power2::lemma_pow2_adds((log2_ceil(d) - 1) as nat, 1);
            }
        }
    }
}

/// No exponent below `log2_ceil(c)` reaches `c`.
pub proof fn lemma_log2_ceil_le(c: nat, n: nat)
    requires
        c <= pow2(n),
    ensures
        log2_ceil(c) <= n,
{
    lemma_log2_ceil(c);
    if log2_ceil(c) > n {
        assert(c >= 2) by {
            vstd::arithmetic::power2::lemma2_to64();
            if c <= 1 {
                assert(log2_ceil(c) == 0);
            }
        }
        assert(pow2(n) <= pow2((log2_ceil(c) - 1) as nat)) by {
            if n < log2_ceil(c) - 1 {
                vstd::arithmetic::power2::lemma_pow2_strictly_increases(
                    n,
                    (log2_ceil(c) - 1) as nat,
                );
            }
        }
    }
}

/// The width of a stored small-block index never exceeds the block width.
pub proof fn lemma_code_width_le(k: int)
    ensures
        code_width(k) <= 64,
{
    if k <= 0 {
        assert(comb(64, k) == 1);
        vstd::arithmetic::power2::lemma_pow2_pos(64);
        lemma_log2_ceil_le(1, 64);
    } else {
        lemma_comb_bound(64, k);
        lemma_log2_ceil_le(comb(64, k), 64);
    }
}

/// Precomputed binomial coefficients and per-class code widths for 64-bit
/// small blocks; pure data consulted by the codec.
#[derive(Clone)]
pub struct Tables {
    comb_rows: Vec<Vec<u64>>,
    widths: Vec<u64>,
}

impl Tables {
    /// The tables hold exactly the binomial coefficients and code widths.
    pub closed spec fn wf(&self) -> bool {
        &&& self.comb_rows@.len() == 65
        &&& forall|m: int|
            0 <= m < 65 ==> (#[trigger] self.comb_rows@[m])@.len() == 65
        &&& forall|m: int, s: int|
            0 <= m < 65 && 0 <= s < 65 ==> (#[trigger] self.comb_rows@[m]@[s]) == comb(m, s)
        &&& self.widths@.len() == 65
        &&& forall|k: int| 0 <= k < 65 ==> (#[trigger] self.widths@[k]) == code_width(k)
    }

    /// Binomial coefficient `C(m, s)` from the table.
    pub fn binom(&self, m: u64, s: u64) -> (r: u64)
        requires
            self.wf(),
            m <= 64,
            s <= 64,
        ensures
            r == comb(m as int, s as int),
    {
        self.comb_rows[m as usize][s as usize]
    }

    /// Code width for a small block with `k` ones.
    pub fn width_of(&self, k: u64) -> (r: u64)
        requires
            self.wf(),
            k <= 64,
        ensures
            r == code_width(k as int),
            r <= 64,
    {
        proof {
            lemma_code_width_le(k as int);
        }
        self.widths[k as usize]
    }

    /// Build the tables: Pascal's triangle up to `C(64, 64)` and the
    /// least width holding each `C(64, k)`.
    pub fn new() -> (t: Tables)
        ensures
            t.wf(),
    {
        let mut comb_rows: Vec<Vec<u64>> = Vec::new();
        let mut row0: Vec<u64> = Vec::new();
        row0.push(1);
        let mut s: u64 = 1;
        while s < 65
            invariant
                1 <= s <= 65,
                row0@.len() == s,
                forall|j: int| 0 <= j < s ==> (#[trigger] row0@[j]) == comb(0, j),
            decreases 65 - s,
        {
            row0.push(0);
            s = s + 1;
        }
        comb_rows.push(row0);
        let mut m: u64 = 1;
        while m < 65
            invariant
                1 <= m <= 65,
                comb_rows@.len() == m,
                forall|mm: int|
                    0 <= mm < m ==> (#[trigger] comb_rows@[mm])@.len() == 65,
                forall|mm: int, ss: int|
                    0 <= mm < m && 0 <= ss < 65 ==> (#[trigger] comb_rows@[mm]@[ss]) == comb(
                        mm,
                        ss,
                    ),
            decreases 65 - m,
        {
            let mut row: Vec<u64> = Vec::new();
            row.push(1);
            let mut s: u64 = 1;
            while s < 65
                invariant
                    1 <= s <= 65,
                    1 <= m < 65,
                    row@.len() == s,
                    comb_rows@.len() == m,
                    forall|mm: int|
                        0 <= mm < m ==> (#[trigger] comb_rows@[mm])@.len() == 65,
                    forall|mm: int, ss: int|
                        0 <= mm < m && 0 <= ss < 65 ==> (#[trigger] comb_rows@[mm]@[ss]) == comb(
                            mm,
                            ss,
                        ),
                    forall|j: int| 0 <= j < s ==> (#[trigger] row@[j]) == comb(m as int, j),
                decreases 65 - s,
            {
                let prev = &comb_rows[(m - 1) as usize];
                proof {
                    lemma_comb_bound(m as int, s as int);
                    assert(pow2(m as nat) <= pow2(64)) by {
                        if m < 64 {
                            vstd::arithmetic::power2::lemma_pow2_strictly_increases(
                                m as nat,
                                64,
                            );
                        }
                    }
                    assert(pow2(64) == 0x10000000000000000) by {
                        vstd::arithmetic::power2::lemma2_to64_rest();
                    }
                }
                let v = prev[(s - 1) as usize] + prev[s as usize];
                row.push(v);
                s = s + 1;
            }
            comb_rows.push(row);
            m = m + 1;
        }
        let mut widths: Vec<u64> = Vec::new();
        let mut k: u64 = 0;
        while k < 65
            invariant
                k <= 65,
                widths@.len() == k,
                comb_rows@.len() == 65,
                forall|mm: int|
                    0 <= mm < 65 ==> (#[trigger] comb_rows@[mm])@.len() == 65,
                forall|mm: int, ss: int|
                    0 <= mm < 65 && 0 <= ss < 65 ==> (#[trigger] comb_rows@[mm]@[ss]) == comb(
                        mm,
                        ss,
                    ),
                forall|j: int| 0 <= j < k ==> (#[trigger] widths@[j]) == code_width(j),
            decreases 65 - k,
        {
            let c = comb_rows[64][k as usize];
            let mut w: u64 = 0;
            proof {
                lemma_log2_ceil(c as nat);
                vstd::arithmetic::power2::lemma2_to64();
            }
            while w < 64 && (1u64 << w) < c
                invariant
                    w <= 64,
                    c == comb(64, k as int),
                    forall|e: nat| e < w ==> pow2(e) < c,
                decreases 64 - w,
            {
                proof {
                    vstd::bits::lemma_u64_pow2_no_overflow(w as nat);
                    vstd::bits::lemma_u64_shl_is_mul(1u64, w);
                    assert forall|e: nat| e < w + 1 implies pow2(e) < c by {
                        if e < w {
                        } else {
                            assert(pow2(w as nat) == 1u64 << w) by {
                                vstd::bits::lemma_u64_pow2_no_overflow(w as nat);
                    vstd::bits::lemma_u64_shl_is_mul(1u64, w);
                            }
                        }
                    }
                }
                w = w + 1;
            }
            proof {
                lemma_log2_ceil(c as nat);
                lemma_code_width_le(k as int);
                if w < 64 {
                    vstd::bits::lemma_u64_pow2_no_overflow(w as nat);
                    vstd::bits::lemma_u64_shl_is_mul(1u64, w);
                    // c <= pow2(w) and pow2(w - 1) < c when w > 0: w is the least
                    if w > 0 {
                        assert(pow2((w - 1) as nat) < c);
                    }
                    if log2_ceil(c as nat) < w {
                        assert(pow2(log2_ceil(c as nat)) < c);
                    }
                    if log2_ceil(c as nat) > w {
                        assert(c >= 2);
                        assert(pow2(w as nat) <= pow2((log2_ceil(c as nat) - 1) as nat)) by {
                            if w < log2_ceil(c as nat) - 1 {
                                vstd::arithmetic::power2::lemma_pow2_strictly_increases(
                                    w as nat,
                                    (log2_ceil(c as nat) - 1) as nat,
                                );
                            }
                        }
                    }
                } else {
                    // every width below 64 was too small
                    assert(pow2(63) < c);
                    assert(c >= 2) by {
                        vstd::arithmetic::power2::lemma2_to64_rest();
                    }
                    if log2_ceil(c as nat) < 64 {
                        assert(pow2(log2_ceil(c as nat)) <= pow2(63)) by {
                            if log2_ceil(c as nat) < 63 {
                                vstd::arithmetic::power2::lemma_pow2_strictly_increases(
                                    log2_ceil(c as nat),
                                    63,
                                );
                            }
                        }
                    }
                }
                assert(w == code_width(k as int));
            }
            widths.push(w);
            k = k + 1;
        }
        Tables { comb_rows, widths }
    }
}

} // verus!
