use vstd::prelude::*;
use vstd::relations::{sorted_by, total_ordering};

use crate::histogram::{
    count_of, distinct_keys, lemma_count_at, total_of, HistogramView, SimpleHistogram,
};

verus! {

broadcast use vstd::seq_lib::group_to_multiset_ensures, vstd::multiset::group_multiset_axioms;

/// The share of the observations, in thousandths, that the counts at or
/// above the robust threshold must hold.
pub const ROBUST_FRACTION_PER_MILLE: u64 = 925;

/// The counts of a histogram, in entry order.
pub open spec fn counts_of(e: HistogramView) -> Seq<u64> {
    e.map_values(|p: (Seq<u8>, u64)| p.1)
}

pub open spec fn seq_sum(s: Seq<u64>) -> int
    decreases s.len(),
{
    if s.len() == 0 {
        0
    } else {
        seq_sum(s.drop_last()) + s.last()
    }
}

pub open spec fn u64_le() -> spec_fn(u64, u64) -> bool {
    |a: u64, b: u64| a <= b
}

/// The counts in ascending order.
pub open spec fn ascending(s: Seq<u64>) -> Seq<u64> {
    s.sort_by(u64_le())
}

/// Scanning ascending counts `s` down from position `k`, where `acc` is the
/// sum of the counts above `k`: the first count at which the counts scanned
/// so far hold at least the robust fraction of `total`.
pub open spec fn nx_scan(s: Seq<u64>, k: int, acc: int, total: int) -> u64
    decreases k + 1,
{
    if k < 0 {
        0
    } else if 1000 * (acc + s[k]) >= ROBUST_FRACTION_PER_MILLE * total {
        s[k]
    } else {
        nx_scan(s, k - 1, acc + s[k], total)
    }
}

/// The robust threshold of a list of counts: the largest count such that
/// the counts at or above it hold at least 92.5% of the total; `None` for
/// no counts.
pub open spec fn robust_threshold(counts: Seq<u64>) -> Option<u64> {
    if counts.len() == 0 {
        None
    } else {
        let s = ascending(counts);
        Some(nx_scan(s, s.len() - 1, 0, seq_sum(s)))
    }
}

pub open spec fn min_u64(a: u64, b: u64) -> int {
    if a <= b {
        a as int
    } else {
        b as int
    }
}

/// The sum of the squares of the counts, each capped at `t`.
pub open spec fn capped_norm_sq(e: HistogramView, t: u64) -> int
    decreases e.len(),
{
    if e.len() == 0 {
        0
    } else {
        capped_norm_sq(e.drop_last(), t) + min_u64(e.last().1, t) * min_u64(e.last().1, t)
    }
}

/// The sum over the sequences of `e1` of the product of their capped counts
/// in `e1` and in `e2`; a sequence absent from `e2` counts zero there.
pub open spec fn capped_dot(e1: HistogramView, t1: u64, e2: HistogramView, t2: u64) -> int
    decreases e1.len(),
{
    if e1.len() == 0 {
        0
    } else {
        capped_dot(e1.drop_last(), t1, e2, t2) + min_u64(e1.last().1, t1) * min_u64(
            count_of(e2, e1.last().0) as u64,
            t2,
        )
    }
}

/// The exact terms of the robust cosine similarity of two histograms:
/// `dot / sqrt(norm1_sq * norm2_sq)`, or zero where a norm is zero.
#[derive(Clone, Copy, Debug, PartialEq, Eq, Structural)]
pub struct SimilarityTerms {
    pub dot: u64,
    pub norm1_sq: u64,
    pub norm2_sq: u64,
}

impl SimilarityTerms {
    pub open spec fn view(&self) -> (int, int, int) {
        (self.dot as int, self.norm1_sq as int, self.norm2_sq as int)
    }
}

/// The robust cosine similarity terms of two histograms: every count of
/// each is capped at its robust threshold; all zero where a histogram is
/// empty.
pub open spec fn spec_similarity(e1: HistogramView, e2: HistogramView) -> (int, int, int) {
    match (robust_threshold(counts_of(e1)), robust_threshold(counts_of(e2))) {
        (Some(t1), Some(t2)) => (
            capped_dot(e1, t1, e2, t2),
            capped_norm_sq(e1, t1),
            capped_norm_sq(e2, t2),
        ),
        _ => (0, 0, 0),
    }
}

/// The similarity of `a` is greater than that of `b`.
pub open spec fn sim_greater(a: (int, int, int), b: (int, int, int)) -> bool {
    let pa = a.1 * a.2;
    let pb = b.1 * b.2;
    if pa == 0 {
        false
    } else if pb == 0 {
        a.0 > 0
    } else {
        a.0 * a.0 * pb > b.0 * b.0 * pa
    }
}

/// The similarity of `a` is at least `num / den`.
pub open spec fn sim_at_least(a: (int, int, int), num: int, den: int) -> bool {
    let pa = a.1 * a.2;
    if pa == 0 {
        num == 0
    } else {
        a.0 * a.0 * (den * den) >= num * num * pa
    }
}

/// Relies on `slice::sort_unstable`: it sorts the counts in ascending order.
#[verifier::external_body]
fn sort_counts(v: &mut Vec<u64>)
    ensures
        final(v)@.to_multiset() == old(v)@.to_multiset(),
        sorted_by(final(v)@, u64_le()),
{
    v.sort_unstable();
}

proof fn lemma_sum_remove(s: Seq<u64>, i: int)
    requires
        0 <= i < s.len(),
    ensures
        seq_sum(s) == seq_sum(s.remove(i)) + s[i],
    decreases s.len(),
{
    if i < s.len() - 1 {
        assert(s.remove(i).drop_last() =~= s.drop_last().remove(i));
        lemma_sum_remove(s.drop_last(), i);
    } else {
        assert(s.remove(i) =~= s.drop_last());
    }
}

/// Sequences with the same elements have the same sum.
proof fn lemma_sum_permutation(s: Seq<u64>, t: Seq<u64>)
    requires
        s.to_multiset() == t.to_multiset(),
    ensures
        seq_sum(s) == seq_sum(t),
    decreases t.len(),
{
    if t.len() == 0 {
        assert(s.to_multiset().len() == 0);
        assert(s.len() == 0);
    } else {
        let x = t.last();
        assert(t.drop_last().push(x) =~= t);
        assert(t.to_multiset().count(x) > 0);
        assert(s.contains(x));
        let i = choose|i: int| 0 <= i < s.len() && s[i] == x;
        lemma_sum_remove(s, i);
        assert(s.remove(i).to_multiset() =~= t.drop_last().to_multiset());
        lemma_sum_permutation(s.remove(i), t.drop_last());
    }
}

proof fn lemma_sum_nonneg(s: Seq<u64>)
    ensures
        seq_sum(s) >= 0,
    decreases s.len(),
{
    if s.len() > 0 {
        lemma_sum_nonneg(s.drop_last());
    }
}

proof fn lemma_counts_sum(e: HistogramView)
    ensures
        seq_sum(counts_of(e)) == total_of(e),
    decreases e.len(),
{
    if e.len() > 0 {
        assert(counts_of(e).drop_last() =~= counts_of(e.drop_last()));
        lemma_counts_sum(e.drop_last());
    }
}

proof fn lemma_u64_le_total()
    ensures
        total_ordering(u64_le()),
{
}

/// The scan ends at one of the counts at or below `k`, or at zero.
proof fn lemma_scan_element(s: Seq<u64>, k: int, acc: int, total: int)
    requires
        k < s.len(),
    ensures
        nx_scan(s, k, acc, total) == 0 || exists|j: int|
            0 <= j <= k && s[j] == nx_scan(s, k, acc, total),
    decreases k + 1,
{
    if k >= 0 && !(1000 * (acc + s[k]) >= ROBUST_FRACTION_PER_MILLE * total) {
        lemma_scan_element(s, k - 1, acc + s[k], total);
    }
}

proof fn lemma_element_le_sum(s: Seq<u64>, j: int)
    requires
        0 <= j < s.len(),
    ensures
        s[j] <= seq_sum(s),
    decreases s.len(),
{
    lemma_sum_nonneg(s.drop_last());
    if j < s.len() - 1 {
        lemma_element_le_sum(s.drop_last(), j);
    }
}

/// The robust threshold of a histogram's counts.
pub fn robust_threshold_of(h: &SimpleHistogram) -> (r: Option<u64>)
    requires
        h.wf(),
    ensures
        r == robust_threshold(counts_of(h.view())),
        r matches Some(t) ==> t <= total_of(h.view()),
{
    let ghost e = h.view();
    let n = h.len();
    let mut v: Vec<u64> = Vec::new();
    let mut i: usize = 0;
    while i < n
        invariant
            0 <= i <= n,
            n == e.len(),
            h.wf(),
            e == h.view(),
            v@ =~= counts_of(e).subrange(0, i as int),
        decreases n - i,
    {
        let (_, c) = h.entry(i);
        v.push(c);
        i += 1;
    }
    assert(v@ =~= counts_of(e));
    let ghost before = v@;
    sort_counts(&mut v);
    proof {
        lemma_u64_le_total();
        before.lemma_sort_by_ensures(u64_le());
        vstd::seq_lib::lemma_sorted_unique(v@, ascending(before), u64_le());
        lemma_sum_permutation(v@, before);
        lemma_counts_sum(e);
        assert(v@.to_multiset().len() == before.to_multiset().len());
        assert(v@.len() == before.len());
        assert(before == counts_of(h.view()));
    }
    let ghost s = v@;
    if v.len() == 0 {
        return None;
    }
    let total: u128 = h.total() as u128;
    let mut acc: u128 = 0;
    let mut k: usize = v.len();
    proof {
        assert(s.subrange(0, k as int) =~= s);
    }
    while k > 1
        invariant
            1 <= k <= s.len(),
            s == v@,
            s == ascending(counts_of(e)),
            e == h.view(),
            counts_of(e).len() == s.len(),
            total == total_of(e),
            total == seq_sum(s),
            total <= u64::MAX,
            acc + seq_sum(s.subrange(0, k as int)) == total,
            acc >= 0,
            nx_scan(s, s.len() - 1, 0, total as int) == nx_scan(s, k - 1, acc as int, total as int),
        decreases k,
    {
        let c = v[k - 1];
        proof {
            assert(s.subrange(0, k as int).drop_last() =~= s.subrange(0, k - 1));
            lemma_sum_nonneg(s.subrange(0, k - 1));
        }
        if 1000 * (acc + c as u128) >= 925 * total {
            proof {
                lemma_element_le_sum(s, k - 1);
            }
            return Some(c);
        }
        acc = acc + c as u128;
        k -= 1;
    }
    proof {
        assert(s.subrange(0, 1).drop_last() =~= s.subrange(0, 0));
        assert(seq_sum(s.subrange(0, 0)) == 0);
        assert(seq_sum(s.subrange(0, 1)) == s[0]);
        assert(acc + s[0] == total);
        assert(nx_scan(s, 0, acc as int, total as int) == s[0]);
        lemma_element_le_sum(s, 0);
    }
    Some(v[0])
}

/// The largest total for which the similarity terms are computed exactly
/// in 64-bit words.
pub const MAX_EXACT_TOTAL: u64 = 4294967295;

proof fn lemma_capped_square(m: int, c: int, t: int)
    requires
        0 <= m <= c,
        m <= t,
    ensures
        m * m <= t * c,
{
    assert(m * m <= t * c) by (nonlinear_arith)
        requires
            0 <= m <= c,
            m <= t,
    ;
}

proof fn lemma_mul_le(a: int, b: int, c: int, d: int)
    requires
        0 <= a <= c,
        0 <= b <= d,
    ensures
        a * b <= c * d,
{
    assert(a * b <= c * d) by (nonlinear_arith)
        requires
            0 <= a <= c,
            0 <= b <= d,
    ;
}

fn min_of(a: u64, b: u64) -> (r: u64)
    ensures
        r == min_u64(a, b),
{
    if a <= b {
        a
    } else {
        b
    }
}

/// The sum of the squares of the counts of `h`, each capped at `t`.
fn capped_norm_sq_of(h: &SimpleHistogram, t: u64) -> (r: u64)
    requires
        h.wf(),
        total_of(h.view()) <= MAX_EXACT_TOTAL,
        t <= total_of(h.view()),
    ensures
        r == capped_norm_sq(h.view(), t),
{
    let ghost e = h.view();
    let n = h.len();
    let mut acc: u64 = 0;
    let mut i: usize = 0;
    while i < n
        invariant
            0 <= i <= n,
            n == e.len(),
            h.wf(),
            e == h.view(),
            total_of(e) <= MAX_EXACT_TOTAL,
            t <= total_of(e),
            acc == capped_norm_sq(e.subrange(0, i as int), t),
            acc <= t * total_of(e.subrange(0, i as int)),
        decreases n - i,
    {
        let (_, c) = h.entry(i);
        let m = min_of(c, t);
        proof {
            assert(e.subrange(0, i + 1).drop_last() =~= e.subrange(0, i as int));
            crate::histogram::lemma_prefix_total_le(e, i + 1);
            crate::histogram::lemma_total_nonneg(e.subrange(0, i + 1));
            crate::histogram::lemma_total_nonneg(e.subrange(0, i as int));
            assert(e.subrange(0, i + 1).last().1 == c);
            let prefix_total = total_of(e.subrange(0, i as int));
            let next_total = total_of(e.subrange(0, i + 1));
            assert(next_total == prefix_total + c);
            lemma_capped_square(m as int, c as int, t as int);
            assert(t * prefix_total + t * c == t * next_total) by (nonlinear_arith)
                requires
                    next_total == prefix_total + c,
            ;
            lemma_mul_le(t as int, next_total, total_of(e), total_of(e));
            lemma_mul_le(total_of(e), total_of(e), MAX_EXACT_TOTAL as int, MAX_EXACT_TOTAL as int);
        }
        acc = acc + m * m;
        i += 1;
    }
    assert(e.subrange(0, n as int) =~= e);
    acc
}

/// The sum over the sequences of `h1` of the products of their counts in
/// `h1` and `h2`, capped at `t1` and `t2`.
fn capped_dot_of(h1: &SimpleHistogram, t1: u64, h2: &SimpleHistogram, t2: u64) -> (r: u64)
    requires
        h1.wf(),
        h2.wf(),
        total_of(h1.view()) <= MAX_EXACT_TOTAL,
        total_of(h2.view()) <= MAX_EXACT_TOTAL,
        t2 <= total_of(h2.view()),
    ensures
        r == capped_dot(h1.view(), t1, h2.view(), t2),
{
    let ghost e = h1.view();
    let ghost f = h2.view();
    let n = h1.len();
    let mut acc: u64 = 0;
    let mut i: usize = 0;
    while i < n
        invariant
            0 <= i <= n,
            n == e.len(),
            h1.wf(),
            h2.wf(),
            e == h1.view(),
            f == h2.view(),
            total_of(e) <= MAX_EXACT_TOTAL,
            total_of(f) <= MAX_EXACT_TOTAL,
            t2 <= total_of(f),
            acc == capped_dot(e.subrange(0, i as int), t1, f, t2),
            acc <= t2 * total_of(e.subrange(0, i as int)),
        decreases n - i,
    {
        let (k, c) = h1.entry(i);
        let g = h2.get(k);
        let a = min_of(c, t1);
        let b = min_of(g, t2);
        proof {
            assert(e.subrange(0, i + 1).drop_last() =~= e.subrange(0, i as int));
            crate::histogram::lemma_prefix_total_le(e, i + 1);
            crate::histogram::lemma_total_nonneg(e.subrange(0, i + 1));
            crate::histogram::lemma_total_nonneg(e.subrange(0, i as int));
            crate::histogram::lemma_total_nonneg(f);
            assert(e.subrange(0, i + 1).last().1 == c);
            assert(e.subrange(0, i + 1).last().0 == k@);
            let prefix_total = total_of(e.subrange(0, i as int));
            let next_total = total_of(e.subrange(0, i + 1));
            assert(next_total == prefix_total + c);
            lemma_mul_le(a as int, b as int, c as int, t2 as int);
            assert(t2 * prefix_total + c * t2 == t2 * next_total) by (nonlinear_arith)
                requires
                    next_total == prefix_total + c,
            ;
            lemma_mul_le(t2 as int, next_total, total_of(f), total_of(e));
            lemma_mul_le(total_of(f), total_of(e), MAX_EXACT_TOTAL as int, MAX_EXACT_TOTAL as int);
        }
        acc = acc + a * b;
        i += 1;
    }
    assert(e.subrange(0, n as int) =~= e);
    acc
}

/// The robust cosine similarity of two histograms, as its exact terms:
/// each histogram's counts are capped at its robust threshold, and the
/// similarity is the capped dot product over the product of the capped
/// norms. It is zero where either histogram is empty.
pub fn robust_cosine_similarity(c1: &SimpleHistogram, c2: &SimpleHistogram) -> (r: SimilarityTerms)
    requires
        c1.wf(),
        c2.wf(),
        total_of(c1.view()) <= MAX_EXACT_TOTAL,
        total_of(c2.view()) <= MAX_EXACT_TOTAL,
    ensures
        r.view() == spec_similarity(c1.view(), c2.view()),
{
    let t1 = match robust_threshold_of(c1) {
        Some(t) => t,
        None => {
            return SimilarityTerms { dot: 0, norm1_sq: 0, norm2_sq: 0 };
        },
    };
    let t2 = match robust_threshold_of(c2) {
        Some(t) => t,
        None => {
            return SimilarityTerms { dot: 0, norm1_sq: 0, norm2_sq: 0 };
        },
    };
    let norm1_sq = capped_norm_sq_of(c1, t1);
    let norm2_sq = capped_norm_sq_of(c2, t2);
    let dot = capped_dot_of(c1, t1, c2, t2);
    SimilarityTerms { dot, norm1_sq, norm2_sq }
}

/// The value of a 256-bit number held as a high and a low 128-bit word.
pub open spec fn wide_value(hi: u128, lo: u128) -> int {
    hi as int * 0x1_0000_0000_0000_0000_0000_0000_0000_0000int + lo as int
}

/// The full product of two 128-bit numbers, as a high and a low word.
fn mul_wide(x: u128, y: u128) -> (r: (u128, u128))
    ensures
        wide_value(r.0, r.1) == x as int * y as int,
{
    let m: u128 = 0x1_0000_0000_0000_0000;
    let x0 = x % m;
    let x1 = x / m;
    let y0 = y % m;
    let y1 = y / m;
    proof {
        assert(x0 < m && y0 < m && x1 < m && y1 < m);
        assert(x as int == x1 as int * m as int + x0 as int);
        assert(y as int == y1 as int * m as int + y0 as int);
        lemma_mul_le(x0 as int, y0 as int, (m - 1) as int, (m - 1) as int);
        lemma_mul_le(x0 as int, y1 as int, (m - 1) as int, (m - 1) as int);
        lemma_mul_le(x1 as int, y0 as int, (m - 1) as int, (m - 1) as int);
        lemma_mul_le(x1 as int, y1 as int, (m - 1) as int, (m - 1) as int);
        assert((m - 1) as int * (m - 1) as int <= u128::MAX);
    }
    let p00 = x0 * y0;
    let p01 = x0 * y1;
    let p10 = x1 * y0;
    let p11 = x1 * y1;
    let mid = p00 / m + p01 % m + p10 % m;
    let lo = p00 % m + (mid % m) * m;
    let ghost hi_int: int = p11 as int + (p01 / m) as int + (p10 / m) as int + (mid / m) as int;
    proof {
        let mi = m as int;
        assert(x as int * y as int == p11 as int * mi * mi + (p01 as int + p10 as int) * mi
            + p00 as int) by (nonlinear_arith)
            requires
                x as int == x1 as int * mi + x0 as int,
                y as int == y1 as int * mi + y0 as int,
                p00 as int == x0 as int * y0 as int,
                p01 as int == x0 as int * y1 as int,
                p10 as int == x1 as int * y0 as int,
                p11 as int == x1 as int * y1 as int,
        ;
        assert(p00 as int == (p00 / m) as int * mi + (p00 % m) as int);
        assert(p01 as int == (p01 / m) as int * mi + (p01 % m) as int);
        assert(p10 as int == (p10 / m) as int * mi + (p10 % m) as int);
        assert(mid as int == (mid / m) as int * mi + (mid % m) as int);
        assert(mi * mi == 0x1_0000_0000_0000_0000_0000_0000_0000_0000int);
        assert(hi_int * (mi * mi) + lo as int == x as int * y as int) by (nonlinear_arith)
            requires
                x as int * y as int == p11 as int * mi * mi + (p01 as int + p10 as int) * mi
                    + p00 as int,
                p00 as int == (p00 / m) as int * mi + (p00 % m) as int,
                p01 as int == (p01 / m) as int * mi + (p01 % m) as int,
                p10 as int == (p10 / m) as int * mi + (p10 % m) as int,
                mid as int == (mid / m) as int * mi + (mid % m) as int,
                mid as int == (p00 / m) as int + (p01 % m) as int + (p10 % m) as int,
                lo as int == (p00 % m) as int + (mid % m) as int * mi,
                hi_int == p11 as int + (p01 / m) as int + (p10 / m) as int + (mid / m) as int,
        ;
        lemma_mul_le(x as int, y as int, u128::MAX as int, u128::MAX as int);
        assert(hi_int < mi * mi) by (nonlinear_arith)
            requires
                hi_int * (mi * mi) + lo as int == x as int * y as int,
                x as int * y as int <= u128::MAX as int * u128::MAX as int,
                lo >= 0,
                mi * mi == u128::MAX as int + 1,
        ;
    }
    let hi = p11 + p01 / m + p10 / m + mid / m;
    (hi, lo)
}

/// Whether the 256-bit number `a` exceeds `b`.
fn wide_greater(a: (u128, u128), b: (u128, u128)) -> (r: bool)
    ensures
        r == (wide_value(a.0, a.1) > wide_value(b.0, b.1)),
{
    a.0 > b.0 || (a.0 == b.0 && a.1 > b.1)
}

/// Whether the 256-bit number `a` is at least `b`.
fn wide_at_least(a: (u128, u128), b: (u128, u128)) -> (r: bool)
    ensures
        r == (wide_value(a.0, a.1) >= wide_value(b.0, b.1)),
{
    a.0 > b.0 || (a.0 == b.0 && a.1 >= b.1)
}

impl SimilarityTerms {
    /// Whether this similarity exceeds `other`.
    pub fn greater_than(&self, other: &SimilarityTerms) -> (r: bool)
        ensures
            r == sim_greater(self.view(), other.view()),
    {
        proof {
            assert(u64::MAX as int * u64::MAX as int <= u128::MAX);
            lemma_mul_le(self.norm1_sq as int, self.norm2_sq as int, u64::MAX as int, u64::MAX as int);
            lemma_mul_le(other.norm1_sq as int, other.norm2_sq as int, u64::MAX as int, u64::MAX as int);
            lemma_mul_le(self.dot as int, self.dot as int, u64::MAX as int, u64::MAX as int);
            lemma_mul_le(other.dot as int, other.dot as int, u64::MAX as int, u64::MAX as int);
        }
        let pa = self.norm1_sq as u128 * self.norm2_sq as u128;
        let pb = other.norm1_sq as u128 * other.norm2_sq as u128;
        if pa == 0 {
            return false;
        }
        if pb == 0 {
            return self.dot > 0;
        }
        let da = self.dot as u128 * self.dot as u128;
        let db = other.dot as u128 * other.dot as u128;
        let lhs = mul_wide(da, pb);
        let rhs = mul_wide(db, pa);
        wide_greater(lhs, rhs)
    }

    /// Whether this similarity is at least `num / den`.
    pub fn at_least(&self, num: u64, den: u64) -> (r: bool)
        ensures
            r == sim_at_least(self.view(), num as int, den as int),
    {
        proof {
            assert(u64::MAX as int * u64::MAX as int <= u128::MAX);
            lemma_mul_le(self.norm1_sq as int, self.norm2_sq as int, u64::MAX as int, u64::MAX as int);
            lemma_mul_le(self.dot as int, den as int, u64::MAX as int, u64::MAX as int);
            lemma_mul_le(num as int, num as int, u64::MAX as int, u64::MAX as int);
        }
        let pa = self.norm1_sq as u128 * self.norm2_sq as u128;
        if pa == 0 {
            return num == 0;
        }
        let dq = self.dot as u128 * den as u128;
        let nn = num as u128 * num as u128;
        let lhs = mul_wide(dq, dq);
        let rhs = mul_wide(nn, pa);
        proof {
            assert(dq as int * dq as int == self.dot as int * self.dot as int * (den as int * den as int)) by (nonlinear_arith)
                requires
                    dq as int == self.dot as int * den as int,
            ;
        }
        wide_at_least(lhs, rhs)
    }
}

/// The sequences of a histogram, in order.
pub open spec fn keys_of(e: HistogramView) -> Seq<Seq<u8>> {
    e.map_values(|p: (Seq<u8>, u64)| p.0)
}

/// The sum of `w` over `keys`.
pub open spec fn sum_over(keys: Seq<Seq<u8>>, w: spec_fn(Seq<u8>) -> int) -> int
    decreases keys.len(),
{
    if keys.len() == 0 {
        0
    } else {
        sum_over(keys.drop_last(), w) + w(keys.last())
    }
}

proof fn lemma_sum_over_remove(keys: Seq<Seq<u8>>, w: spec_fn(Seq<u8>) -> int, j: int)
    requires
        0 <= j < keys.len(),
    ensures
        sum_over(keys, w) == sum_over(keys.remove(j), w) + w(keys[j]),
    decreases keys.len(),
{
    if j < keys.len() - 1 {
        assert(keys.remove(j).drop_last() =~= keys.drop_last().remove(j));
        lemma_sum_over_remove(keys.drop_last(), w, j);
    } else {
        assert(keys.remove(j) =~= keys.drop_last());
    }
}

proof fn lemma_sum_over_zero(keys: Seq<Seq<u8>>, w: spec_fn(Seq<u8>) -> int)
    requires
        forall|i: int| 0 <= i < keys.len() ==> w(#[trigger] keys[i]) == 0,
    ensures
        sum_over(keys, w) == 0,
    decreases keys.len(),
{
    if keys.len() > 0 {
        assert(w(keys[keys.len() - 1]) == 0);
        lemma_sum_over_zero(keys.drop_last(), w);
    }
}

proof fn lemma_sum_over_agree(
    keys: Seq<Seq<u8>>,
    w: spec_fn(Seq<u8>) -> int,
    v: spec_fn(Seq<u8>) -> int,
)
    requires
        forall|i: int| 0 <= i < keys.len() ==> w(#[trigger] keys[i]) == v(keys[i]),
    ensures
        sum_over(keys, w) == sum_over(keys, v),
    decreases keys.len(),
{
    if keys.len() > 0 {
        assert(w(keys[keys.len() - 1]) == v(keys[keys.len() - 1]));
        lemma_sum_over_agree(keys.drop_last(), w, v);
    }
}

/// Over two lists of distinct keys, a function that is zero on every key
/// not in both has the same sum.
proof fn lemma_sum_over_common(k1: Seq<Seq<u8>>, k2: Seq<Seq<u8>>, w: spec_fn(Seq<u8>) -> int)
    requires
        k1.no_duplicates(),
        k2.no_duplicates(),
        forall|k: Seq<u8>| !(k1.contains(k) && k2.contains(k)) ==> #[trigger] w(k) == 0,
    ensures
        sum_over(k1, w) == sum_over(k2, w),
    decreases k1.len(),
{
    if k1.len() == 0 {
        assert forall|i: int| 0 <= i < k2.len() implies w(#[trigger] k2[i]) == 0 by {
            assert(!k1.contains(k2[i]));
        }
        lemma_sum_over_zero(k2, w);
    } else {
        let k = k1.last();
        let rest = k1.drop_last();
        assert(k1.contains(k)) by {
            assert(k1[k1.len() - 1] == k);
        }
        assert forall|x: Seq<u8>| rest.contains(x) implies x != k by {
            let i = choose|i: int| 0 <= i < rest.len() && rest[i] == x;
            assert(k1[i] == x);
        }
        if k2.contains(k) {
            let j = choose|j: int| 0 <= j < k2.len() && k2[j] == k;
            lemma_sum_over_remove(k2, w, j);
            let k2r = k2.remove(j);
            assert forall|x: Seq<u8>| k2r.contains(x) implies x != k && k2.contains(x) by {
                let i = choose|i: int| 0 <= i < k2r.len() && k2r[i] == x;
                if i < j {
                    assert(k2[i] == x);
                } else {
                    assert(k2[i + 1] == x);
                }
            }
            let w2 = |x: Seq<u8>| if x == k {
                0
            } else {
                w(x)
            };
            assert forall|x: Seq<u8>| !(rest.contains(x) && k2r.contains(x)) implies #[trigger] w2(x)
                == 0 by {
                if x != k && k1.contains(x) && k2.contains(x) {
                    let i1 = choose|i: int| 0 <= i < k1.len() && k1[i] == x;
                    assert(i1 < k1.len() - 1);
                    assert(rest[i1] == x);
                    let i2 = choose|i: int| 0 <= i < k2.len() && k2[i] == x;
                    assert(i2 != j);
                    if i2 < j {
                        assert(k2r[i2] == x);
                    } else {
                        assert(k2r[i2 - 1] == x);
                    }
                }
            }
            lemma_sum_over_agree(rest, w, w2);
            lemma_sum_over_agree(k2r, w, w2);
            assert(k2r.no_duplicates()) by {
                assert forall|a: int, b: int| 0 <= a < b < k2r.len() implies k2r[a] != k2r[b] by {
                    let aa = if a < j { a } else { a + 1 };
                    let bb = if b < j { b } else { b + 1 };
                    assert(k2r[a] == k2[aa] && k2r[b] == k2[bb]);
                }
            }
            lemma_sum_over_common(rest, k2r, w2);
        } else {
            assert(w(k) == 0);
            assert forall|x: Seq<u8>| !(rest.contains(x) && k2.contains(x)) implies #[trigger] w(x)
                == 0 by {
                if k1.contains(x) && k2.contains(x) {
                    assert(x != k);
                    let i1 = choose|i: int| 0 <= i < k1.len() && k1[i] == x;
                    assert(i1 < k1.len() - 1);
                    assert(rest[i1] == x);
                }
            }
            lemma_sum_over_common(rest, k2, w);
        }
    }
}

/// The capped products of the counts of a sequence in `e1` and `e2`.
pub open spec fn capped_product(e1: HistogramView, t1: u64, e2: HistogramView, t2: u64) -> spec_fn(
    Seq<u8>,
) -> int {
    |k: Seq<u8>| min_u64(count_of(e1, k) as u64, t1) * min_u64(count_of(e2, k) as u64, t2)
}

proof fn lemma_count_bounded(e: HistogramView, k: Seq<u8>)
    ensures
        0 <= count_of(e, k) <= u64::MAX,
    decreases e.len(),
{
    if e.len() > 0 {
        lemma_count_bounded(e.drop_last(), k);
    }
}

/// The capped dot product is the sum of the capped products over the
/// sequences of the first histogram.
proof fn lemma_dot_as_sum(e1: HistogramView, t1: u64, e2: HistogramView, t2: u64, n: int)
    requires
        distinct_keys(e1),
        0 <= n <= e1.len(),
    ensures
        capped_dot(e1.subrange(0, n), t1, e2, t2) == sum_over(
            keys_of(e1).subrange(0, n),
            capped_product(e1, t1, e2, t2),
        ),
    decreases n,
{
    if n > 0 {
        lemma_dot_as_sum(e1, t1, e2, t2, n - 1);
        assert(e1.subrange(0, n).drop_last() =~= e1.subrange(0, n - 1));
        assert(keys_of(e1).subrange(0, n).drop_last() =~= keys_of(e1).subrange(0, n - 1));
        lemma_count_at(e1, n - 1);
        assert(e1.subrange(0, n).last() == e1[n - 1]);
        assert(keys_of(e1).subrange(0, n).last() == e1[n - 1].0);
    }
}

proof fn lemma_keys_distinct(e: HistogramView)
    requires
        distinct_keys(e),
    ensures
        keys_of(e).no_duplicates(),
{
    assert forall|i: int, j: int| 0 <= i < keys_of(e).len() && 0 <= j < keys_of(e).len() && i != j
        implies keys_of(e)[i] != keys_of(e)[j] by {
        if i < j {
            assert(e[i].0 != e[j].0);
        } else {
            assert(e[j].0 != e[i].0);
        }
    }
}

proof fn lemma_absent_from_keys(e: HistogramView, k: Seq<u8>)
    requires
        !keys_of(e).contains(k),
    ensures
        count_of(e, k) == 0,
{
    assert forall|i: int| 0 <= i < e.len() implies (#[trigger] e[i]).0 != k by {
        assert(keys_of(e)[i] == e[i].0);
    }
    crate::histogram::lemma_count_absent(e, k);
}

/// The robust cosine similarity is symmetric: swapping the histograms
/// keeps the dot product and swaps the two norms.
pub proof fn lemma_similarity_symmetric(e1: HistogramView, e2: HistogramView)
    requires
        distinct_keys(e1),
        distinct_keys(e2),
    ensures
        spec_similarity(e1, e2).0 == spec_similarity(e2, e1).0,
        spec_similarity(e1, e2).1 == spec_similarity(e2, e1).2,
        spec_similarity(e1, e2).2 == spec_similarity(e2, e1).1,
        forall|b: (int, int, int)|
            sim_greater(spec_similarity(e1, e2), b) == sim_greater(spec_similarity(e2, e1), b),
        forall|num: int, den: int|
            sim_at_least(spec_similarity(e1, e2), num, den) == sim_at_least(
                spec_similarity(e2, e1),
                num,
                den,
            ),
{
    if let (Some(t1), Some(t2)) = (
        robust_threshold(counts_of(e1)),
        robust_threshold(counts_of(e2)),
    ) {
        let w12 = capped_product(e1, t1, e2, t2);
        let w21 = capped_product(e2, t2, e1, t1);
        lemma_dot_as_sum(e1, t1, e2, t2, e1.len() as int);
        lemma_dot_as_sum(e2, t2, e1, t1, e2.len() as int);
        assert(e1.subrange(0, e1.len() as int) =~= e1);
        assert(e2.subrange(0, e2.len() as int) =~= e2);
        assert(keys_of(e1).subrange(0, e1.len() as int) =~= keys_of(e1));
        assert(keys_of(e2).subrange(0, e2.len() as int) =~= keys_of(e2));
        assert(w12 =~= w21) by {
            assert forall|k: Seq<u8>| #[trigger] w12(k) == w21(k) by {
                let a = min_u64(count_of(e1, k) as u64, t1);
                let b = min_u64(count_of(e2, k) as u64, t2);
                assert(a * b == b * a) by (nonlinear_arith);
            }
        }
        lemma_keys_distinct(e1);
        lemma_keys_distinct(e2);
        assert forall|k: Seq<u8>| !(keys_of(e1).contains(k) && keys_of(e2).contains(k)) implies #[trigger] w12(
            k,
        ) == 0 by {
            if !keys_of(e1).contains(k) {
                lemma_absent_from_keys(e1, k);
                lemma_count_bounded(e2, k);
                assert(min_u64(count_of(e1, k) as u64, t1) == 0);
            } else {
                lemma_absent_from_keys(e2, k);
                assert(min_u64(count_of(e2, k) as u64, t2) == 0);
            }
        }
        lemma_sum_over_common(keys_of(e1), keys_of(e2), w12);
        let s12 = spec_similarity(e1, e2);
        let s21 = spec_similarity(e2, e1);
        assert(s12.1 * s12.2 == s21.1 * s21.2) by (nonlinear_arith)
            requires
                s12.1 == s21.2,
                s12.2 == s21.1,
        ;
    }
}

/// The similarity is zero where either histogram is empty.
pub proof fn lemma_similarity_of_empty(e1: HistogramView, e2: HistogramView)
    requires
        e1.len() == 0 || e2.len() == 0,
    ensures
        spec_similarity(e1, e2) == (0int, 0int, 0int),
        !sim_greater(spec_similarity(e1, e2), spec_similarity(e2, e1)),
{
}

/// A histogram's counts capped at `t`, per sequence.
pub open spec fn capped_count(e: HistogramView, t: u64) -> spec_fn(Seq<u8>) -> int {
    |k: Seq<u8>| min_u64(count_of(e, k) as u64, t)
}

pub open spec fn square_of(f: spec_fn(Seq<u8>) -> int) -> spec_fn(Seq<u8>) -> int {
    |k: Seq<u8>| f(k) * f(k)
}

pub open spec fn product_of(f: spec_fn(Seq<u8>) -> int, g: spec_fn(Seq<u8>) -> int) -> spec_fn(
    Seq<u8>,
) -> int {
    |k: Seq<u8>| f(k) * g(k)
}

proof fn lemma_norm_as_sum(e: HistogramView, t: u64, n: int)
    requires
        distinct_keys(e),
        0 <= n <= e.len(),
    ensures
        capped_norm_sq(e.subrange(0, n), t) == sum_over(
            keys_of(e).subrange(0, n),
            square_of(capped_count(e, t)),
        ),
    decreases n,
{
    if n > 0 {
        lemma_norm_as_sum(e, t, n - 1);
        assert(e.subrange(0, n).drop_last() =~= e.subrange(0, n - 1));
        assert(keys_of(e).subrange(0, n).drop_last() =~= keys_of(e).subrange(0, n - 1));
        lemma_count_at(e, n - 1);
        assert(e.subrange(0, n).last() == e[n - 1]);
        assert(keys_of(e).subrange(0, n).last() == e[n - 1].0);
    }
}

proof fn lemma_sum_over_nonneg(keys: Seq<Seq<u8>>, w: spec_fn(Seq<u8>) -> int)
    requires
        forall|k: Seq<u8>| #[trigger] w(k) >= 0,
    ensures
        sum_over(keys, w) >= 0,
    decreases keys.len(),
{
    if keys.len() > 0 {
        lemma_sum_over_nonneg(keys.drop_last(), w);
        assert(w(keys.last()) >= 0);
    }
}

proof fn lemma_sum_over_le(keys: Seq<Seq<u8>>, w: spec_fn(Seq<u8>) -> int, v: spec_fn(Seq<u8>) -> int)
    requires
        forall|k: Seq<u8>| #[trigger] w(k) <= v(k),
    ensures
        sum_over(keys, w) <= sum_over(keys, v),
    decreases keys.len(),
{
    if keys.len() > 0 {
        lemma_sum_over_le(keys.drop_last(), w, v);
        assert(w(keys.last()) <= v(keys.last()));
    }
}

/// One step of the Cauchy-Schwarz inequality.
proof fn lemma_cauchy_step(sab: int, saa: int, sbb: int, x: int, y: int)
    requires
        sab * sab <= saa * sbb,
        saa >= 0,
        sbb >= 0,
    ensures
        (sab + x * y) * (sab + x * y) <= (saa + x * x) * (sbb + y * y),
{
    let xx = x * x;
    let yy = y * y;
    let xy = x * y;
    let p = xx * sbb;
    let q = yy * saa;
    let v = 2 * xy * sab;
    let big_x = xx * yy;
    let s_prod = saa * sbb;
    let t_sq = sab * sab;
    let xs = big_x * s_prod;
    let xt = big_x * t_sq;
    assert(xx >= 0 && yy >= 0) by (nonlinear_arith)
        requires
            xx == x * x,
            yy == y * y,
    ;
    assert(p >= 0 && q >= 0) by (nonlinear_arith)
        requires
            saa >= 0,
            sbb >= 0,
            xx >= 0,
            yy >= 0,
            p == xx * sbb,
            q == yy * saa,
    ;
    assert((p + q) * (p + q) >= 4 * (p * q)) by (nonlinear_arith);
    assert(p * q == xs) by (nonlinear_arith)
        requires
            p == xx * sbb,
            q == yy * saa,
            big_x == xx * yy,
            s_prod == saa * sbb,
            xs == big_x * s_prod,
    ;
    assert(big_x >= 0) by (nonlinear_arith)
        requires
            xx >= 0,
            yy >= 0,
            big_x == xx * yy,
    ;
    assert(xs >= xt) by (nonlinear_arith)
        requires
            big_x >= 0,
            t_sq <= s_prod,
            xs == big_x * s_prod,
            xt == big_x * t_sq,
    ;
    assert(v * v == 4 * xt) by (nonlinear_arith)
        requires
            v == 2 * xy * sab,
            xy == x * y,
            big_x == xx * yy,
            xx == x * x,
            yy == y * y,
            t_sq == sab * sab,
            xt == big_x * t_sq,
    ;
    assert((p + q) * (p + q) >= v * v);
    assert(p + q >= v) by (nonlinear_arith)
        requires
            p + q >= 0,
            (p + q) * (p + q) >= v * v,
    ;
    assert((sab + xy) * (sab + xy) == t_sq + v + xy * xy) by (nonlinear_arith)
        requires
            v == 2 * xy * sab,
            t_sq == sab * sab,
    ;
    assert((saa + xx) * (sbb + yy) == s_prod + q + p + xx * yy) by (nonlinear_arith)
        requires
            p == xx * sbb,
            q == yy * saa,
            s_prod == saa * sbb,
    ;
    assert(xy * xy == xx * yy) by (nonlinear_arith)
        requires
            xy == x * y,
            xx == x * x,
            yy == y * y,
    ;
}

/// The Cauchy-Schwarz inequality over a list of keys.
proof fn lemma_cauchy_schwarz(keys: Seq<Seq<u8>>, a: spec_fn(Seq<u8>) -> int, b: spec_fn(Seq<u8>) -> int)
    ensures
        sum_over(keys, product_of(a, b)) * sum_over(keys, product_of(a, b)) <= sum_over(
            keys,
            square_of(a),
        ) * sum_over(keys, square_of(b)),
        sum_over(keys, square_of(a)) >= 0,
        sum_over(keys, square_of(b)) >= 0,
    decreases keys.len(),
{
    if keys.len() > 0 {
        let rest = keys.drop_last();
        lemma_cauchy_schwarz(rest, a, b);
        let k = keys.last();
        assert(a(k) * a(k) >= 0 && b(k) * b(k) >= 0) by (nonlinear_arith);
        lemma_cauchy_step(
            sum_over(rest, product_of(a, b)),
            sum_over(rest, square_of(a)),
            sum_over(rest, square_of(b)),
            a(k),
            b(k),
        );
    }
}

/// `f` squared on `keys`, zero elsewhere.
pub open spec fn masked_square(f: spec_fn(Seq<u8>) -> int, keys: Seq<Seq<u8>>) -> spec_fn(
    Seq<u8>,
) -> int {
    |k: Seq<u8>| if keys.contains(k) {
        f(k) * f(k)
    } else {
        0
    }
}

proof fn lemma_masked_square_zero(e1: HistogramView, e2: HistogramView, t2: u64)
    ensures
        forall|k: Seq<u8>|
            !(keys_of(e1).contains(k) && keys_of(e2).contains(k)) ==> #[trigger] masked_square(
                capped_count(e2, t2),
                keys_of(e1),
            )(k) == 0,
{
    assert forall|k: Seq<u8>|
        !(keys_of(e1).contains(k) && keys_of(e2).contains(k)) implies #[trigger] masked_square(
        capped_count(e2, t2),
        keys_of(e1),
    )(k) == 0 by {
        if keys_of(e1).contains(k) {
            lemma_absent_from_keys(e2, k);
            assert(capped_count(e2, t2)(k) == 0);
        }
    }
}

/// The robust cosine similarity lies between zero and one: its dot
/// product is not negative, and its square is at most the product of the
/// squared norms.
pub proof fn lemma_similarity_at_most_one(e1: HistogramView, e2: HistogramView)
    requires
        distinct_keys(e1),
        distinct_keys(e2),
    ensures
        spec_similarity(e1, e2).0 >= 0,
        spec_similarity(e1, e2).1 >= 0,
        spec_similarity(e1, e2).2 >= 0,
        spec_similarity(e1, e2).0 * spec_similarity(e1, e2).0 <= spec_similarity(e1, e2).1
            * spec_similarity(e1, e2).2,
{
    if let (Some(t1), Some(t2)) = (
        robust_threshold(counts_of(e1)),
        robust_threshold(counts_of(e2)),
    ) {
        let a = capped_count(e1, t1);
        let b = capped_count(e2, t2);
        let k1 = keys_of(e1);
        let k2 = keys_of(e2);
        lemma_dot_as_sum(e1, t1, e2, t2, e1.len() as int);
        lemma_norm_as_sum(e1, t1, e1.len() as int);
        lemma_norm_as_sum(e2, t2, e2.len() as int);
        assert(e1.subrange(0, e1.len() as int) =~= e1);
        assert(e2.subrange(0, e2.len() as int) =~= e2);
        assert(k1.subrange(0, e1.len() as int) =~= k1);
        assert(k2.subrange(0, e2.len() as int) =~= k2);
        assert(capped_product(e1, t1, e2, t2) =~= product_of(a, b));
        let dot = sum_over(k1, product_of(a, b));
        let n1 = sum_over(k1, square_of(a));
        let n2 = sum_over(k2, square_of(b));
        let m2 = sum_over(k1, square_of(b));
        lemma_cauchy_schwarz(k1, a, b);
        assert forall|k: Seq<u8>| #[trigger] product_of(a, b)(k) >= 0 by {
            lemma_count_bounded(e1, k);
            lemma_count_bounded(e2, k);
            assert(a(k) >= 0 && b(k) >= 0);
            assert(a(k) * b(k) >= 0) by (nonlinear_arith)
                requires
                    a(k) >= 0,
                    b(k) >= 0,
            ;
        }
        lemma_sum_over_nonneg(k1, product_of(a, b));
        // The part of the second norm over the sequences of the first
        // histogram is at most the whole second norm.
        let g = masked_square(b, k1);
        assert forall|i: int| 0 <= i < k1.len() implies #[trigger] square_of(b)(k1[i]) == g(k1[i]) by {
            assert(k1.contains(k1[i]));
        }
        lemma_sum_over_agree(k1, square_of(b), g);
        lemma_keys_distinct(e1);
        lemma_keys_distinct(e2);
        lemma_masked_square_zero(e1, e2, t2);
        lemma_sum_over_common(k1, k2, g);
        assert forall|k: Seq<u8>| #[trigger] g(k) <= square_of(b)(k) by {
            assert(b(k) * b(k) >= 0) by (nonlinear_arith);
        }
        lemma_sum_over_le(k2, g, square_of(b));
        assert(dot * dot <= n1 * n2) by (nonlinear_arith)
            requires
                dot * dot <= n1 * m2,
                m2 <= n2,
                n1 >= 0,
        ;
        lemma_cauchy_schwarz(k2, b, b);
    }
}

} // verus!
