//! Summary statistics over latency samples: order statistics of one run
//! (`compute`), the outlier fence that selects the subset behind the trimmed
//! mean (`trim_outliers`), and the combination of several already-reduced
//! summaries (`merge`).

use vstd::prelude::*;
use crate::sorting::{sorted, sort_samples, lemma_sorted_arrangement_unique};

verus! {

/// The integer core of a latency summary: the order statistics and the
/// sample count.  The averaged metrics that are derived from these samples
/// in floating point live with the caller; everything here is exact.
#[derive(Clone, Copy, PartialEq, Eq, Structural, Debug)]
pub struct StatResult {
    pub min: u64,
    pub max: u64,
    pub p50: u64,
    pub p99: u64,
    pub count: usize,
}

/// Rank of the median: the element at `n / 2` of the sorted run
/// (nearest-rank, no interpolation).
pub open spec fn p50_index(n: int) -> int {
    n / 2
}

/// Rank of the 99th percentile: the element at `(n - 1) * 99 / 100` of the
/// sorted run (nearest-rank, truncating toward zero).
pub open spec fn p99_index(n: int) -> int {
    (n - 1) * 99 / 100
}

/// The "no data" summary: every field zero.
pub open spec fn zero_stat() -> StatResult {
    StatResult { min: 0, max: 0, p50: 0, p99: 0, count: 0 }
}

/// The summary a non-empty, already sorted run reduces to.
pub open spec fn stat_of_sorted(s: Seq<u64>) -> StatResult
    recommends
        s.len() > 0,
{
    StatResult {
        min: s[0],
        max: s[s.len() - 1],
        p50: s[p50_index(s.len() as int)],
        p99: s[p99_index(s.len() as int)],
        count: s.len() as usize,
    }
}

proof fn lemma_rank_indices_in_range(n: int)
    requires
        n >= 1,
    ensures
        0 <= p50_index(n) < n,
        0 <= p99_index(n) < n,
{
    assert((n - 1) * 99 / 100 <= (n - 1) * 99 / 99) by {
        vstd::arithmetic::div_mod::lemma_div_is_ordered_by_denominator((n - 1) * 99, 99, 100);
    }
    assert((n - 1) * 99 / 99 == n - 1) by {
        vstd::arithmetic::div_mod::lemma_div_by_multiple(n - 1, 99);
    }
    assert((n - 1) * 99 >= 0) by (nonlinear_arith)
        requires
            n >= 1,
    ;
}

/// Width of the outlier fence, in interquartile ranges.  A sample is kept
/// when it lies within `IQR_FENCE_FACTOR` interquartile ranges of the
/// quartiles; the wide factor is deliberately tolerant of the moderate tail
/// noise typical of timing data.
pub const IQR_FENCE_FACTOR: u64 = 3;

/// Rank of the first quartile: the element at `n / 4` of the sorted run.
pub open spec fn q1_index(n: int) -> int {
    n / 4
}

/// Rank of the third quartile: the element at `3 * n / 4` of the sorted run.
pub open spec fn q3_index(n: int) -> int {
    3 * n / 4
}

/// First-quartile value of a non-empty sorted run.
pub open spec fn q1_of(s: Seq<u64>) -> u64
    recommends
        s.len() > 0,
{
    s[q1_index(s.len() as int)]
}

/// Third-quartile value of a non-empty sorted run.
pub open spec fn q3_of(s: Seq<u64>) -> u64
    recommends
        s.len() > 0,
{
    s[q3_index(s.len() as int)]
}

/// The acceptance fence around the quartiles: a sample passes when it lies
/// in `[q1 - 3 * iqr, q3 + 3 * iqr]` where `iqr = q3 - q1` (the lower bound
/// never cuts below zero, which for unsigned samples changes nothing).
pub open spec fn in_fence(v: u64, q1: u64, q3: u64) -> bool {
    &&& q1 - IQR_FENCE_FACTOR * (q3 - q1) <= v
    &&& v <= q3 + IQR_FENCE_FACTOR * (q3 - q1)
}

/// The subset of a sorted run that the outlier fence keeps, in order.
pub open spec fn trimmed_of(s: Seq<u64>) -> Seq<u64>
    recommends
        s.len() > 0,
{
    s.filter(|v: u64| in_fence(v, q1_of(s), q3_of(s)))
}

proof fn lemma_quartile_indices_in_range(n: int)
    requires
        n >= 1,
    ensures
        0 <= q1_index(n) <= q3_index(n) < n,
{
    assert(n / 4 <= 3 * n / 4 < n) by (nonlinear_arith)
        requires
            n >= 1,
    ;
}

/// Law: the summary of a non-empty run brackets its percentiles by its
/// extremes — `min <= p50 <= max` and `min <= p99 <= max` — and `count` is
/// the number of samples.  The two percentiles are themselves ordered,
/// `p50 <= p99`, for every length but two: with exactly two samples the
/// median rank lies above the 99th-percentile rank, so the median of an
/// unequal pair exceeds its 99th percentile.
pub proof fn lemma_summary_bounds(s: Seq<u64>)
    requires
        sorted(s),
        0 < s.len() <= usize::MAX,
    ensures
        stat_of_sorted(s).min <= stat_of_sorted(s).p50,
        stat_of_sorted(s).min <= stat_of_sorted(s).p99,
        stat_of_sorted(s).p50 <= stat_of_sorted(s).max,
        stat_of_sorted(s).p99 <= stat_of_sorted(s).max,
        stat_of_sorted(s).count == s.len(),
        s.len() != 2 ==> stat_of_sorted(s).p50 <= stat_of_sorted(s).p99,
{
    let n = s.len() as int;
    lemma_rank_indices_in_range(n);
    if n >= 3 {
        let q = n / 2;
        let r = n % 2;
        vstd::arithmetic::div_mod::lemma_fundamental_div_mod(n, 2);
        assert(50 * n == 100 * q + 50 * r);
        vstd::arithmetic::div_mod::lemma_div_multiples_vanish_fancy(q, 50 * r, 100);
        assert(50 * n / 100 == q);
        assert(50 * n <= 99 * (n - 1));
        vstd::arithmetic::div_mod::lemma_div_is_ordered(50 * n, 99 * (n - 1), 100);
        assert(p50_index(n) <= p99_index(n));
    }
}

/// Law: the summary and the trimmed subset depend only on which samples are
/// present, not on the order they arrive in.  Two sorted arrangements of
/// the same multiset of samples are the same sequence, so computing the
/// summary twice over the same samples — in particular over the copy a
/// first computation left sorted — yields identical results.
pub proof fn lemma_summary_order_independent(s1: Seq<u64>, s2: Seq<u64>)
    requires
        sorted(s1),
        sorted(s2),
        s1.to_multiset() == s2.to_multiset(),
    ensures
        s1 == s2,
        stat_of_sorted(s1) == stat_of_sorted(s2),
        trimmed_of(s1) == trimmed_of(s2),
{
    lemma_sorted_arrangement_unique(s1, s2);
}

proof fn lemma_filter_push(s: Seq<u64>, pred: spec_fn(u64) -> bool, x: u64)
    ensures
        s.push(x).filter(pred) == (if pred(x) {
            s.filter(pred).push(x)
        } else {
            s.filter(pred)
        }),
{
    reveal(Seq::filter);
    assert(s.push(x).drop_last() =~= s);
    assert(s.push(x).last() == x);
}

/// Keeps, in order, the samples of a sorted run that pass the outlier
/// fence.  The kept subset is never empty: the first quartile always passes
/// its own fence, so the trimmed average this subset feeds is well defined.
pub fn trim_outliers(samples: &Vec<u64>) -> (out: Vec<u64>)
    requires
        sorted(samples@),
        samples@.len() > 0,
    ensures
        out@ == trimmed_of(samples@),
        out@.len() > 0,
{
    let n = samples.len();
    proof {
        lemma_quartile_indices_in_range(n as int);
    }
    let q1i: usize = n / 4;
    let q3i: usize = (3u128 * n as u128 / 4) as usize;
    let q1 = samples[q1i];
    let q3 = samples[q3i];
    let iqr: u64 = q3 - q1;
    let margin: u128 = IQR_FENCE_FACTOR as u128 * iqr as u128;
    let lower: u128 = if q1 as u128 > margin {
        q1 as u128 - margin
    } else {
        0
    };
    let upper: u128 = q3 as u128 + margin;
    let ghost pred = |v: u64| in_fence(v, q1, q3);
    let mut out: Vec<u64> = Vec::new();
    let mut i: usize = 0;
    while i < n
        invariant
            0 <= i <= n,
            n == samples@.len(),
            sorted(samples@),
            q1 == q1_of(samples@),
            q3 == q3_of(samples@),
            q1 <= q3,
            margin == IQR_FENCE_FACTOR * (q3 - q1),
            lower == (if q1 >= IQR_FENCE_FACTOR * (q3 - q1) {
                q1 - IQR_FENCE_FACTOR * (q3 - q1)
            } else {
                0
            }),
            upper == q3 + IQR_FENCE_FACTOR * (q3 - q1),
            pred == (|v: u64| in_fence(v, q1_of(samples@), q3_of(samples@))),
            out@ == samples@.subrange(0, i as int).filter(pred),
        decreases n - i,
    {
        let v = samples[i];
        proof {
            lemma_filter_push(samples@.subrange(0, i as int), pred, v);
            assert(samples@.subrange(0, i + 1) =~= samples@.subrange(0, i as int).push(v));
        }
        if v as u128 >= lower && v as u128 <= upper {
            assert(pred(v));
            out.push(v);
        } else {
            assert(!pred(v));
        }
        i = i + 1;
    }
    proof {
        assert(samples@.subrange(0, n as int) =~= samples@);
        assert(pred(q1));
        samples@.lemma_filter_contains(pred, q1_index(n as int));
        assert(out@.contains(q1));
    }
    out
}

/// Smallest `min` over a non-empty sequence of summaries.
pub open spec fn min_of_mins(s: Seq<StatResult>) -> u64
    recommends
        s.len() > 0,
    decreases s.len(),
{
    if s.len() <= 1 {
        s[0].min
    } else {
        let m = min_of_mins(s.drop_last());
        if s.last().min < m {
            s.last().min
        } else {
            m
        }
    }
}

/// Largest `max` over a non-empty sequence of summaries.
pub open spec fn max_of_maxes(s: Seq<StatResult>) -> u64
    recommends
        s.len() > 0,
    decreases s.len(),
{
    if s.len() <= 1 {
        s[0].max
    } else {
        let m = max_of_maxes(s.drop_last());
        if s.last().max > m {
            s.last().max
        } else {
            m
        }
    }
}

/// Sum of the `count` fields of a sequence of summaries.
pub open spec fn count_sum(s: Seq<StatResult>) -> int
    decreases s.len(),
{
    if s.len() == 0 {
        0
    } else {
        count_sum(s.drop_last()) + s.last().count
    }
}

/// Sum of the `p50` fields of a sequence of summaries.
pub open spec fn p50_sum(s: Seq<StatResult>) -> int
    decreases s.len(),
{
    if s.len() == 0 {
        0
    } else {
        p50_sum(s.drop_last()) + s.last().p50
    }
}

/// Sum of the `p99` fields of a sequence of summaries.
pub open spec fn p99_sum(s: Seq<StatResult>) -> int
    decreases s.len(),
{
    if s.len() == 0 {
        0
    } else {
        p99_sum(s.drop_last()) + s.last().p99
    }
}

proof fn lemma_prefix_sums_step(s: Seq<StatResult>, i: int)
    requires
        0 <= i < s.len(),
    ensures
        count_sum(s.subrange(0, i + 1)) == count_sum(s.subrange(0, i)) + s[i].count,
        p50_sum(s.subrange(0, i + 1)) == p50_sum(s.subrange(0, i)) + s[i].p50,
        p99_sum(s.subrange(0, i + 1)) == p99_sum(s.subrange(0, i)) + s[i].p99,
{
    assert(s.subrange(0, i + 1).drop_last() =~= s.subrange(0, i));
}

proof fn lemma_count_sum_prefix_bound(s: Seq<StatResult>, i: int)
    requires
        0 <= i <= s.len(),
    ensures
        count_sum(s.subrange(0, i)) <= count_sum(s),
    decreases s.len() - i,
{
    if i == s.len() {
        assert(s.subrange(0, i) =~= s);
    } else {
        lemma_prefix_sums_step(s, i);
        lemma_count_sum_prefix_bound(s, i + 1);
    }
}

proof fn lemma_percentile_sums_bounded(s: Seq<StatResult>, i: int)
    requires
        0 <= i <= s.len(),
    ensures
        0 <= p50_sum(s.subrange(0, i)) <= i * (u64::MAX as int),
        0 <= p99_sum(s.subrange(0, i)) <= i * (u64::MAX as int),
    decreases i,
{
    if i == 0 {
        assert(s.subrange(0, 0) =~= Seq::<StatResult>::empty());
    } else {
        lemma_prefix_sums_step(s, i - 1);
        lemma_percentile_sums_bounded(s, i - 1);
        assert((i - 1) * (u64::MAX as int) + u64::MAX as int == i * (u64::MAX as int))
            by (nonlinear_arith);
    }
}

impl Default for StatResult {
    /// The "no data" summary.
    fn default() -> (r: StatResult)
        ensures
            r == zero_stat(),
    {
        StatResult { min: 0, max: 0, p50: 0, p99: 0, count: 0 }
    }
}

impl StatResult {
    /// Reduces one run of samples to its summary.  The vector is sorted
    /// ascending in place as part of the contract: afterwards it holds the
    /// same samples in ascending order, and the summary is read off that
    /// arrangement.  An empty run yields the zero summary and is left
    /// untouched.
    pub fn compute(samples: &mut Vec<u64>) -> (r: StatResult)
        ensures
            sorted(final(samples)@),
            final(samples)@.to_multiset() == old(samples)@.to_multiset(),
            final(samples)@.len() == old(samples)@.len(),
            old(samples)@.len() == 0 ==> r == zero_stat() && final(samples)@ == old(samples)@,
            old(samples)@.len() > 0 ==> r == stat_of_sorted(final(samples)@),
    {
        let n = samples.len();
        if n == 0 {
            return StatResult::default();
        }
        sort_samples(samples);
        proof {
            lemma_rank_indices_in_range(n as int);
        }
        let p99i: usize = ((n - 1) as u128 * 99 / 100) as usize;
        StatResult {
            min: samples[0],
            max: samples[n - 1],
            p50: samples[n / 2],
            p99: samples[p99i],
            count: n,
        }
    }

    /// Combines already-reduced summaries into one, without access to the
    /// raw samples.  `min`, `max` and `count` are exact: the smallest `min`,
    /// the largest `max`, and the total `count`.  The merged percentiles are
    /// the unweighted average of the per-run percentiles, rounded toward
    /// zero — a documented approximation, exact only when every run
    /// contributed equally.  An empty sequence yields the zero summary.
    pub fn merge(results: &Vec<StatResult>) -> (r: StatResult)
        requires
            count_sum(results@) <= usize::MAX,
        ensures
            results@.len() == 0 ==> r == zero_stat(),
            results@.len() > 0 ==> {
                &&& r.min == min_of_mins(results@)
                &&& r.max == max_of_maxes(results@)
                &&& r.count == count_sum(results@)
                &&& r.p50 == p50_sum(results@) / results@.len() as int
                &&& r.p99 == p99_sum(results@) / results@.len() as int
            },
    {
        let m = results.len();
        if m == 0 {
            return StatResult::default();
        }
        let mut min: u64 = results[0].min;
        let mut max: u64 = results[0].max;
        let mut count: usize = results[0].count;
        let mut sum50: u128 = results[0].p50 as u128;
        let mut sum99: u128 = results[0].p99 as u128;
        proof {
            lemma_prefix_sums_step(results@, 0);
            assert(results@.subrange(0, 0) =~= Seq::<StatResult>::empty());
            assert(results@.subrange(0, 1) =~= seq![results@[0]]);
            lemma_count_sum_prefix_bound(results@, 1);
        }
        let mut i: usize = 1;
        while i < m
            invariant
                1 <= i <= m,
                m == results@.len(),
                count_sum(results@) <= usize::MAX,
                min == min_of_mins(results@.subrange(0, i as int)),
                max == max_of_maxes(results@.subrange(0, i as int)),
                count == count_sum(results@.subrange(0, i as int)),
                sum50 == p50_sum(results@.subrange(0, i as int)),
                sum99 == p99_sum(results@.subrange(0, i as int)),
            decreases m - i,
        {
            proof {
                lemma_prefix_sums_step(results@, i as int);
                lemma_count_sum_prefix_bound(results@, i + 1);
                lemma_percentile_sums_bounded(results@, i as int);
                assert(i * (u64::MAX as int) + u64::MAX as int <= m * (u64::MAX as int)) by {
                    vstd::arithmetic::mul::lemma_mul_inequality(
                        i + 1,
                        m as int,
                        u64::MAX as int,
                    );
                    assert((i + 1) * (u64::MAX as int) == i * (u64::MAX as int) + u64::MAX as int)
                        by (nonlinear_arith);
                }
                assert(m * (u64::MAX as int) <= u128::MAX) by {
                    vstd::arithmetic::mul::lemma_mul_inequality(
                        m as int,
                        u64::MAX as int,
                        u64::MAX as int,
                    );
                }
                assert(results@.subrange(0, i + 1).drop_last() =~= results@.subrange(0, i as int));
            }
            let x = results[i];
            if x.min < min {
                min = x.min;
            }
            if x.max > max {
                max = x.max;
            }
            count = count + x.count;
            sum50 = sum50 + x.p50 as u128;
            sum99 = sum99 + x.p99 as u128;
            i = i + 1;
        }
        proof {
            assert(results@.subrange(0, m as int) =~= results@);
            lemma_percentile_sums_bounded(results@, m as int);
            assert(sum50 / (m as u128) <= u64::MAX && sum99 / (m as u128) <= u64::MAX) by {
                vstd::arithmetic::div_mod::lemma_div_is_ordered(
                    sum50 as int,
                    m * (u64::MAX as int),
                    m as int,
                );
                vstd::arithmetic::div_mod::lemma_div_is_ordered(
                    sum99 as int,
                    m * (u64::MAX as int),
                    m as int,
                );
                vstd::arithmetic::div_mod::lemma_div_by_multiple(u64::MAX as int, m as int);
                assert(m * (u64::MAX as int) == (u64::MAX as int) * m) by (nonlinear_arith);
            }
        }
        let p50: u64 = (sum50 / m as u128) as u64;
        let p99: u64 = (sum99 / m as u128) as u64;
        StatResult { min, max, p50, p99, count }
    }
}

} // verus!
