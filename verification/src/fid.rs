//! Rank and select over sequences of bits: the mathematical specification,
//! its basic laws, and the `FID` capability trait with default algorithms.

use vstd::prelude::*;

verus! {

/// Number of positions `j` with `0 <= j < i` and `s[j] == b`.
/// For `i` beyond the end of `s` the count saturates at the total.
pub open spec fn rank_of(s: Seq<bool>, b: bool, i: int) -> nat
    decreases i,
{
    if i <= 0 {
        0
    } else {
        rank_of(s, b, i - 1) + if i - 1 < s.len() && s[i - 1] == b {
            1nat
        } else {
            0nat
        }
    }
}

/// Position of the `(r+1)`-th occurrence of `b` in `s` at or after position `i`,
/// or `s.len()` when there are not that many occurrences.
pub open spec fn select_from(s: Seq<bool>, b: bool, r: int, i: int) -> int
    decreases s.len() - i when 0 <= i
{
    if i >= s.len() {
        s.len() as int
    } else if s[i] == b {
        if r <= 0 {
            i
        } else {
            select_from(s, b, r - 1, i + 1)
        }
    } else {
        select_from(s, b, r, i + 1)
    }
}

/// Position of the `(r+1)`-th occurrence of `b` in `s`, or `s.len()` when
/// there are fewer than `r+1` of them.
pub open spec fn select_of(s: Seq<bool>, b: bool, r: int) -> int {
    select_from(s, b, r, 0)
}

/// A prefix holds no more occurrences than its length.
pub proof fn lemma_rank_le(s: Seq<bool>, b: bool, i: int)
    requires
        0 <= i,
    ensures
        rank_of(s, b, i) <= i,
    decreases i,
{
    if i > 0 {
        lemma_rank_le(s, b, i - 1);
    }
}

/// Counts grow with the prefix, by at most one per position.
pub proof fn lemma_rank_mono(s: Seq<bool>, b: bool, i: int, j: int)
    requires
        0 <= i <= j,
    ensures
        rank_of(s, b, i) <= rank_of(s, b, j),
        rank_of(s, b, j) - rank_of(s, b, i) <= j - i,
    decreases j,
{
    if j > i {
        lemma_rank_mono(s, b, i, j - 1);
    }
}

/// Beyond the end of the sequence the count no longer changes.
pub proof fn lemma_rank_saturates(s: Seq<bool>, b: bool, i: int)
    requires
        i >= s.len(),
    ensures
        rank_of(s, b, i) == rank_of(s, b, s.len() as int),
    decreases i,
{
    if i > s.len() {
        lemma_rank_saturates(s, b, i - 1);
    }
}

/// The 1s and the 0s of a prefix add up to its length.
pub proof fn lemma_rank_split(s: Seq<bool>, i: int)
    requires
        0 <= i <= s.len(),
    ensures
        rank_of(s, true, i) + rank_of(s, false, i) == i,
    decreases i,
{
    if i > 0 {
        lemma_rank_split(s, i - 1);
    }
}

/// The count over a prefix depends only on that prefix.
pub proof fn lemma_rank_ext(s1: Seq<bool>, s2: Seq<bool>, b: bool, i: int)
    requires
        0 <= i <= s1.len(),
        i <= s2.len(),
        forall|j: int| 0 <= j < i ==> s1[j] == s2[j],
    ensures
        rank_of(s1, b, i) == rank_of(s2, b, i),
    decreases i,
{
    if i > 0 {
        lemma_rank_ext(s1, s2, b, i - 1);
    }
}

/// What `select_from` finds: the `(r+1)`-th occurrence of `b` at or after `i`
/// when that many exist, and the length of the sequence otherwise.
pub proof fn lemma_select_from(s: Seq<bool>, b: bool, r: int, i: int)
    requires
        0 <= i <= s.len(),
        0 <= r,
    ensures
        rank_of(s, b, s.len() as int) - rank_of(s, b, i) > r ==> {
            let q = select_from(s, b, r, i);
            &&& i <= q < s.len()
            &&& s[q] == b
            &&& rank_of(s, b, q) == rank_of(s, b, i) + r
        },
        rank_of(s, b, s.len() as int) - rank_of(s, b, i) <= r ==> select_from(s, b, r, i)
            == s.len(),
    decreases s.len() - i,
{
    lemma_rank_mono(s, b, i, s.len() as int);
    if i < s.len() {
        assert(rank_of(s, b, i + 1) == rank_of(s, b, i) + if s[i] == b {
            1nat
        } else {
            0nat
        });
        if s[i] == b {
            if r == 0 {
                lemma_rank_mono(s, b, i + 1, s.len() as int);
            } else {
                lemma_select_from(s, b, r - 1, i + 1);
            }
        } else {
            lemma_select_from(s, b, r, i + 1);
        }
    }
}

/// A position holding `b` is found by `select_from` at its own rank:
/// select and rank are inverse to one another.
pub proof fn lemma_select_unique(s: Seq<bool>, b: bool, p: int, i: int)
    requires
        0 <= i <= p < s.len(),
        s[p] == b,
    ensures
        select_from(s, b, rank_of(s, b, p) - rank_of(s, b, i), i) == p,
    decreases p - i,
{
    lemma_rank_mono(s, b, i, p);
    if i < p {
        assert(rank_of(s, b, i + 1) == rank_of(s, b, i) + if s[i] == b {
            1nat
        } else {
            0nat
        });
        lemma_rank_mono(s, b, i + 1, p);
        lemma_select_unique(s, b, p, i + 1);
    }
}

/// Appending a bit does not change counts over old prefixes, and extends the
/// total count by the new bit.
pub proof fn lemma_rank_push(s: Seq<bool>, x: bool, b: bool, i: int)
    requires
        0 <= i <= s.len(),
    ensures
        rank_of(s.push(x), b, i) == rank_of(s, b, i),
        rank_of(s.push(x), b, s.len() as int + 1) == rank_of(s, b, s.len() as int) + if x == b {
            1nat
        } else {
            0nat
        },
{
    lemma_rank_ext(s, s.push(x), b, i);
    lemma_rank_ext(s, s.push(x), b, s.len() as int);
    assert(rank_of(s.push(x), b, s.len() as int + 1) == rank_of(s.push(x), b, s.len() as int)
        + if s.push(x)[s.len() as int] == b {
        1nat
    } else {
        0nat
    });
}

/// Appending a bit does not move the occurrences that already existed.
pub proof fn lemma_select_push(s: Seq<bool>, x: bool, b: bool, r: int)
    requires
        0 <= r < rank_of(s, b, s.len() as int),
    ensures
        select_of(s.push(x), b, r) == select_of(s, b, r),
{
    let t = s.push(x);
    lemma_rank_ext(s, t, b, s.len() as int);
    lemma_select_from(s, b, r, 0);
    let q = select_of(s, b, r);
    lemma_rank_ext(s, t, b, q);
    lemma_select_unique(t, b, q, 0);
}

/// A type that supports rank and select operations over a sequence of bits.
pub trait FID {
    /// The sequence of bits the structure represents.
    spec fn bits(&self) -> Seq<bool>;

    /// Structural well-formedness, established by constructors and preserved
    /// by every operation.
    spec fn inv(&self) -> bool;

    /// Returns the total number of bits.
    fn len(&self) -> (n: u64)
        requires
            self.inv(),
        ensures
            n == self.bits().len(),
    ;

    /// Returns the bit at position `i`.
    fn get(&self, i: u64) -> (r: bool)
        requires
            self.inv(),
            i < self.bits().len(),
        ensures
            r == self.bits()[i as int],
    ;

    /// Compute the number of 1s in positions `[0, i)`; for `i` past the end
    /// this is the total number of 1s.
    fn rank1(&self, i: u64) -> (r: u64)
        requires
            self.inv(),
        ensures
            r == rank_of(self.bits(), true, i as int),
    ;

    /// Compute the number of 0s in positions `[0, i)`; for `i` past the end
    /// the result is `i` minus the total number of 1s.
    fn rank0(&self, i: u64) -> (r: u64)
        requires
            self.inv(),
        ensures
            r == i - rank_of(self.bits(), true, i as int),
            i <= self.bits().len() ==> r == rank_of(self.bits(), false, i as int),
    {
        proof {
            lemma_rank_le(self.bits(), true, i as int);
            if i <= self.bits().len() {
                lemma_rank_split(self.bits(), i as int);
            }
        }
        i - self.rank1(i)
    }

    /// Compute the number of occurrences of `b` in positions `[0, i)`.
    fn rank(&self, b: bool, i: u64) -> (r: u64)
        requires
            self.inv(),
        ensures
            i <= self.bits().len() ==> r == rank_of(self.bits(), b, i as int),
            b ==> r == rank_of(self.bits(), true, i as int),
            !b ==> r == i - rank_of(self.bits(), true, i as int),
    {
        if b {
            self.rank1(i)
        } else {
            self.rank0(i)
        }
    }

    /// Locate the position of the `(r + 1)`-th occurrence of `b`, by binary
    /// search over `rank`; returns the length when there are fewer than
    /// `r + 1` occurrences.
    fn select(&self, b: bool, r: u64) -> (p: u64)
        requires
            self.inv(),
        ensures
            p == select_of(self.bits(), b, r as int),
    {
        let ghost bs = self.bits();
        let n = self.len();
        let total = self.rank(b, n);
        proof {
            lemma_select_from(bs, b, r as int, 0);
        }
        if total <= r {
            return n;
        }
        let mut s: u64 = 0;
        let mut e: u64 = n;
        while e - s > 1
            invariant
                self.inv(),
                bs == self.bits(),
                n == bs.len(),
                0 <= s < e <= n,
                rank_of(bs, b, s as int) <= r,
                rank_of(bs, b, e as int) > r,
            decreases e - s,
        {
            let m = s + (e - s) / 2;
            let rank = self.rank(b, m);
            if rank > r {
                e = m;
            } else {
                s = m;
            }
        }
        proof {
            let si = s as int;
            assert(rank_of(bs, b, si + 1) == rank_of(bs, b, si) + if (si < bs.len() && bs[si]
                == b) {
                1nat
            } else {
                0nat
            });
            lemma_select_unique(bs, b, si, 0);
        }
        s
    }

    /// Locate the position of the `(r + 1)`-th 0.
    fn select0(&self, r: u64) -> (p: u64)
        requires
            self.inv(),
        ensures
            p == select_of(self.bits(), false, r as int),
    {
        self.select(false, r)
    }

    /// Locate the position of the `(r + 1)`-th 1.
    fn select1(&self, r: u64) -> (p: u64)
        requires
            self.inv(),
        ensures
            p == select_of(self.bits(), true, r as int),
    {
        self.select(true, r)
    }
}

} // verus!
