use vstd::prelude::*;
use crate::geometry::{len_ok, MAX_LEN};

verus! {

/// A bound on every sum of lengths that layout forms: widths of runs, of
/// lines, and of all content together.
pub const MAX_TOTAL: i64 = 1099511627776;

/// The width of characters `lo..hi` of a run whose characters advance the pen
/// by `adv`.
pub open spec fn adv_sum(adv: Seq<i64>, lo: int, hi: int) -> int
    decreases hi - lo,
{
    if hi <= lo {
        0
    } else {
        adv_sum(adv, lo, hi - 1) + adv[hi - 1]
    }
}

pub open spec fn advances_ok(adv: Seq<i64>) -> bool {
    forall|i: int| 0 <= i < adv.len() ==> len_ok(#[trigger] adv[i])
}

pub proof fn lemma_adv_sum_split(adv: Seq<i64>, lo: int, mid: int, hi: int)
    requires
        lo <= mid <= hi,
    ensures
        adv_sum(adv, lo, mid) + adv_sum(adv, mid, hi) == adv_sum(adv, lo, hi),
    decreases hi - mid,
{
    if hi > mid {
        lemma_adv_sum_split(adv, lo, mid, hi - 1);
    }
}

pub proof fn lemma_adv_sum_nonneg(adv: Seq<i64>, lo: int, hi: int)
    requires
        advances_ok(adv),
        0 <= lo,
        hi <= adv.len(),
    ensures
        adv_sum(adv, lo, hi) >= 0,
    decreases hi - lo,
{
    if hi > lo {
        lemma_adv_sum_nonneg(adv, lo, hi - 1);
    }
}

/// A part of a run is no wider than the run around it.
pub proof fn lemma_adv_sum_within(adv: Seq<i64>, lo: int, hi: int, lo2: int, hi2: int)
    requires
        advances_ok(adv),
        0 <= lo2 <= lo <= hi <= hi2 <= adv.len(),
    ensures
        0 <= adv_sum(adv, lo, hi) <= adv_sum(adv, lo2, hi2),
{
    lemma_adv_sum_split(adv, lo2, lo, hi2);
    lemma_adv_sum_split(adv, lo, hi, hi2);
    lemma_adv_sum_nonneg(adv, lo2, lo);
    lemma_adv_sum_nonneg(adv, lo, hi);
    lemma_adv_sum_nonneg(adv, hi, hi2);
}

/// The width of characters `lo..hi`.
pub fn measure(adv: &Vec<i64>, lo: usize, hi: usize) -> (r: i64)
    requires
        advances_ok(adv@),
        lo <= hi <= adv.len(),
        adv_sum(adv@, 0, adv.len() as int) <= MAX_TOTAL,
    ensures
        r == adv_sum(adv@, lo as int, hi as int),
        0 <= r <= MAX_TOTAL,
{
    let mut i: usize = lo;
    let mut w: i64 = 0;
    while i < hi
        invariant
            advances_ok(adv@),
            lo <= i <= hi <= adv.len(),
            adv_sum(adv@, 0, adv.len() as int) <= MAX_TOTAL,
            w == adv_sum(adv@, lo as int, i as int),
        decreases hi - i,
    {
        proof {
            lemma_adv_sum_within(adv@, lo as int, i as int + 1, 0, adv.len() as int);
        }
        w = w + adv[i];
        i = i + 1;
    }
    proof {
        lemma_adv_sum_within(adv@, lo as int, hi as int, 0, adv.len() as int);
    }
    w
}

/// Greedy fit: the most characters from `lo` on (at most up to `hi`) whose
/// width stays within `limit`, and that width. Characters are taken one by one,
/// with a break allowed between any two.
pub fn max_fit(adv: &Vec<i64>, lo: usize, hi: usize, limit: i64) -> (r: (usize, i64))
    requires
        advances_ok(adv@),
        lo <= hi <= adv.len(),
        adv_sum(adv@, 0, adv.len() as int) <= MAX_TOTAL,
    ensures
        r.0 <= hi - lo,
        r.1 == adv_sum(adv@, lo as int, lo + r.0),
        r.0 == 0 || r.1 <= limit,
        r.0 < hi - lo ==> adv_sum(adv@, lo as int, lo + r.0 + 1) > limit,
        0 <= r.1 <= MAX_TOTAL,
{
    let mut c: usize = 0;
    let mut w: i64 = 0;
    let mut full = false;
    while !full && c < hi - lo
        invariant
            advances_ok(adv@),
            lo <= hi <= adv.len(),
            c <= hi - lo,
            adv_sum(adv@, 0, adv.len() as int) <= MAX_TOTAL,
            w == adv_sum(adv@, lo as int, lo + c),
            c == 0 || w <= limit,
            full ==> c < hi - lo && adv_sum(adv@, lo as int, lo + c + 1) > limit,
        decreases hi - lo - c + (if full { 0int } else { 1int }),
    {
        proof {
            lemma_adv_sum_within(adv@, lo as int, lo + c + 1, 0, adv.len() as int);
        }
        if w + adv[lo + c] > limit {
            full = true;
        } else {
            w = w + adv[lo + c];
            c = c + 1;
        }
    }
    proof {
        lemma_adv_sum_within(adv@, lo as int, lo + c, 0, adv.len() as int);
    }
    (c, w)
}

} // verus!
