//! Coarse frequency histogram of latency samples: nanoseconds are truncated
//! to whole microseconds and placed on a fixed log2-like scale of nine
//! buckets, with an open-ended overflow bucket at the top.

use vstd::prelude::*;

verus! {

/// Number of histogram buckets.
pub const NUM_BUCKETS: usize = 9;

/// The bucket a sample falls in.  Nanoseconds are first truncated to whole
/// microseconds (integer division by 1000); the microsecond value is then
/// placed in one of the fixed ranges
/// `[0,1) [1,2) [2,4) [4,8) [8,16) [16,32) [32,64) [64,128) [128,oo)`.
pub open spec fn bucket_of(ns: u64) -> int {
    let us = ns as int / 1000;
    if us < 1 {
        0
    } else if us < 2 {
        1
    } else if us < 4 {
        2
    } else if us < 8 {
        3
    } else if us < 16 {
        4
    } else if us < 32 {
        5
    } else if us < 64 {
        6
    } else if us < 128 {
        7
    } else {
        8
    }
}

/// How many samples of the run fall in bucket `b`.
pub open spec fn count_in_bucket(s: Seq<u64>, b: int) -> nat {
    s.filter(|ns: u64| bucket_of(ns) == b).len()
}

/// Sum of a sequence of bucket counters.
pub open spec fn bucket_sum(bs: Seq<u32>) -> int
    decreases bs.len(),
{
    if bs.len() == 0 {
        0
    } else {
        bucket_sum(bs.drop_last()) + bs.last()
    }
}

proof fn lemma_count_in_bucket_push(s: Seq<u64>, x: u64)
    ensures
        forall|b: int|
            #[trigger] count_in_bucket(s.push(x), b) == count_in_bucket(s, b) + (if bucket_of(x)
                == b {
                1int
            } else {
                0int
            }),
{
    reveal(Seq::filter);
    assert(s.push(x).drop_last() =~= s);
    assert(s.push(x).last() == x);
}

proof fn lemma_bucket_sum_update(bs: Seq<u32>, i: int, v: u32)
    requires
        0 <= i < bs.len(),
    ensures
        bucket_sum(bs.update(i, v)) == bucket_sum(bs) - bs[i] + v,
    decreases bs.len(),
{
    let u = bs.update(i, v);
    if i == bs.len() - 1 {
        assert(u.drop_last() =~= bs.drop_last());
    } else {
        assert(u.drop_last() =~= bs.drop_last().update(i, v));
        assert(u.last() == bs.last());
        lemma_bucket_sum_update(bs.drop_last(), i, v);
    }
}

/// Fixed nine-bucket frequency histogram of one run, together with the
/// number of samples counted.  A well-formed histogram keeps `total` equal
/// to the sum of its bucket counters.
#[derive(Clone, Debug)]
pub struct Histogram {
    pub buckets: Vec<u32>,
    pub total: u32,
}

/// Places a sample: the index of the bucket its microsecond value falls in.
pub fn bucket_index(ns: u64) -> (b: usize)
    ensures
        b == bucket_of(ns),
        b < NUM_BUCKETS,
{
    let us = ns / 1000;
    if us < 1 {
        0
    } else if us < 2 {
        1
    } else if us < 4 {
        2
    } else if us < 8 {
        3
    } else if us < 16 {
        4
    } else if us < 32 {
        5
    } else if us < 64 {
        6
    } else if us < 128 {
        7
    } else {
        8
    }
}

impl Histogram {
    /// One counter per bucket, and `total` is their sum.
    pub open spec fn wf(&self) -> bool {
        &&& self.buckets@.len() == NUM_BUCKETS
        &&& self.total == bucket_sum(self.buckets@)
    }

    /// Counts every sample of the run into its bucket.  The result is
    /// well formed, its `total` is the number of samples, and each counter
    /// is exactly the number of samples whose microsecond value falls in
    /// that bucket's range.
    pub fn from_samples(samples: &Vec<u64>) -> (h: Histogram)
        requires
            samples@.len() <= u32::MAX,
        ensures
            h.wf(),
            h.total == samples@.len(),
            forall|b: int|
                0 <= b < NUM_BUCKETS ==> h.buckets@[b] == count_in_bucket(samples@, b),
    {
        broadcast use vstd::seq_lib::group_filter_ensures;

        let mut h = Histogram::default();
        let n = samples.len();
        proof {
            reveal(Seq::filter);
            assert forall|b: int| count_in_bucket(samples@.subrange(0, 0), b) == 0 by {
                assert(samples@.subrange(0, 0) =~= Seq::<u64>::empty());
            }
        }
        let mut i: usize = 0;
        while i < n
            invariant
                i <= n,
                n == samples@.len(),
                n <= u32::MAX,
                h.buckets@.len() == NUM_BUCKETS,
                h.total == i,
                bucket_sum(h.buckets@) == i,
                forall|b: int|
                    0 <= b < NUM_BUCKETS ==> h.buckets@[b] == count_in_bucket(
                        samples@.subrange(0, i as int),
                        b,
                    ),
            decreases n - i,
        {
            let ghost prefix = samples@.subrange(0, i as int);
            let ns = samples[i];
            let idx = bucket_index(ns);
            proof {
                lemma_count_in_bucket_push(prefix, ns);
                assert(samples@.subrange(0, i + 1) =~= prefix.push(ns));
                assert(count_in_bucket(prefix, idx as int) <= prefix.len());
                lemma_bucket_sum_update(h.buckets@, idx as int, (h.buckets@[idx as int] + 1) as u32);
            }
            let c = h.buckets[idx];
            h.buckets.set(idx, c + 1);
            h.total = h.total + 1;
            i = i + 1;
        }
        proof {
            assert(samples@.subrange(0, n as int) =~= samples@);
        }
        h
    }
}

impl Default for Histogram {
    /// The empty histogram: every counter zero, nothing counted.
    fn default() -> (h: Histogram)
        ensures
            h.wf(),
            h.total == 0,
            forall|b: int| 0 <= b < NUM_BUCKETS ==> h.buckets@[b] == 0,
    {
        let mut buckets: Vec<u32> = Vec::new();
        let mut i: usize = 0;
        while i < NUM_BUCKETS
            invariant
                i <= NUM_BUCKETS,
                buckets@.len() == i,
                bucket_sum(buckets@) == 0,
                forall|b: int| 0 <= b < i ==> buckets@[b] == 0,
            decreases NUM_BUCKETS - i,
        {
            proof {
                assert(buckets@.push(0u32).drop_last() =~= buckets@);
            }
            buckets.push(0);
            i = i + 1;
        }
        Histogram { buckets, total: 0 }
    }
}

} // verus!
