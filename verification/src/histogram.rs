//! The 256-bucket luminance histogram.

use vstd::prelude::*;

verus! {

/// Number of luminance buckets.
pub const BUCKETS: usize = 256;

/// Sum of a sequence of counts.
pub open spec fn sum_of(counts: Seq<nat>) -> nat
    decreases counts.len(),
{
    if counts.len() == 0 {
        0
    } else {
        sum_of(counts.drop_last()) + counts.last()
    }
}

/// Tells the counts that an entropy estimate reads: those above zero.
pub open spec fn is_occupied() -> spec_fn(nat) -> bool {
    |count: nat| count > 0
}

/// The counts above zero, in bucket order.
pub open spec fn occupied_counts(counts: Seq<nat>) -> Seq<nat> {
    counts.filter(is_occupied())
}

/// Replacing one count changes the sum by the difference.
pub proof fn lemma_sum_update(counts: Seq<nat>, bucket: int, count: nat)
    requires
        0 <= bucket < counts.len(),
    ensures
        sum_of(counts.update(bucket, count)) == sum_of(counts) - counts[bucket] + count,
    decreases counts.len(),
{
    let updated = counts.update(bucket, count);
    if bucket == counts.len() - 1 {
        assert(updated.drop_last() =~= counts.drop_last());
    } else {
        lemma_sum_update(counts.drop_last(), bucket, count);
        assert(updated.drop_last() =~= counts.drop_last().update(bucket, count));
    }
}

/// No count is above the sum.
pub proof fn lemma_sum_bounds(counts: Seq<nat>, bucket: int)
    requires
        0 <= bucket < counts.len(),
    ensures
        counts[bucket] <= sum_of(counts),
    decreases counts.len(),
{
    if bucket < counts.len() - 1 {
        lemma_sum_bounds(counts.drop_last(), bucket);
    }
}

/// The sum of counts that are all zero is zero.
pub proof fn lemma_sum_zero(counts: Seq<nat>)
    requires
        forall|b: int| 0 <= b < counts.len() ==> counts[b] == 0,
    ensures
        sum_of(counts) == 0,
    decreases counts.len(),
{
    if counts.len() > 0 {
        lemma_sum_zero(counts.drop_last());
    }
}

/// A histogram of luminance buckets, with the number of samples recorded.
pub struct Histogram {
    counts: Vec<u64>,
    total: u64,
}

impl View for Histogram {
    type V = Seq<nat>;

    /// The count of each bucket, by bucket.
    closed spec fn view(&self) -> Seq<nat> {
        Seq::new(self.counts@.len(), |b: int| self.counts@[b] as nat)
    }
}

impl Histogram {
    /// The number of samples recorded.
    pub closed spec fn spec_total(&self) -> nat {
        self.total as nat
    }

    /// There are 256 buckets, and their counts add up to the number of
    /// samples recorded.
    pub open spec fn wf(&self) -> bool {
        &&& self@.len() == BUCKETS
        &&& sum_of(self@) == self.spec_total()
        &&& self.spec_total() <= u64::MAX
    }

    /// An empty histogram.
    pub fn new() -> (h: Histogram)
        ensures
            h.wf(),
            h.spec_total() == 0,
            forall|b: int| 0 <= b < BUCKETS ==> h@[b] == 0,
    {
        let h = Histogram { counts: vec![0u64; 256], total: 0 };
        proof {
            lemma_sum_zero(h@);
        }
        h
    }

    /// Records one sample in `bucket`.
    pub fn record(&mut self, bucket: u8)
        requires
            old(self).wf(),
            old(self).spec_total() < u64::MAX,
        ensures
            final(self).wf(),
            final(self).spec_total() == old(self).spec_total() + 1,
            final(self)@ == old(self)@.update(bucket as int, old(self)@[bucket as int] + 1),
    {
        let index: usize = bucket as usize;
        proof {
            lemma_sum_bounds(self@, index as int);
            lemma_sum_update(self@, index as int, self@[index as int] + 1);
        }
        let count: u64 = self.counts[index];
        self.counts.set(index, count + 1);
        self.total = self.total + 1;
        assert(self@ =~= old(self)@.update(bucket as int, old(self)@[bucket as int] + 1));
    }

    /// The count of `bucket`.
    pub fn count(&self, bucket: u8) -> (count: u64)
        requires
            self.wf(),
        ensures
            count == self@[bucket as int],
    {
        self.counts[bucket as usize]
    }

    /// The number of samples recorded.
    pub fn total(&self) -> (total: u64)
        requires
            self.wf(),
        ensures
            total == self.spec_total(),
    {
        self.total
    }

    /// The counts above zero, in bucket order: the terms of an entropy sum.
    pub fn occupied(&self) -> (counts: Vec<u64>)
        requires
            self.wf(),
        ensures
            counts@.len() == occupied_counts(self@).len(),
            forall|i: int| 0 <= i < counts@.len() ==> counts@[i] == occupied_counts(self@)[i],
    {
        let mut counts: Vec<u64> = Vec::new();
        let mut bucket: usize = 0;
        while bucket < 256
            invariant
                self.wf(),
                bucket <= 256,
                counts@.len() == occupied_counts(self@.take(bucket as int)).len(),
                forall|i: int|
                    0 <= i < counts@.len() ==> counts@[i] == occupied_counts(
                        self@.take(bucket as int),
                    )[i],
            decreases 256 - bucket,
        {
            broadcast use Seq::lemma_filter_push;

            let count: u64 = self.counts[bucket];
            assert(self@.take(bucket + 1) =~= self@.take(bucket as int).push(count as nat));
            if count > 0 {
                counts.push(count);
            }
            bucket = bucket + 1;
        }
        assert(self@.take(256) =~= self@);
        counts
    }
}

} // verus!
