//! Fixed-width rating histogram.
//!
//! A record with rating `r` falls in bucket `r / BUCKET_WIDTH`.  The bucket
//! sequence is dense and auto-growing: an index past the current length
//! grows the sequence with zero-valued buckets, so interior gaps stay
//! visible.  Buckets strictly accumulate; there is no removal.

use vstd::prelude::*;
use crate::record::Record;

verus! {

/// Width of one rating bucket.
pub const BUCKET_WIDTH: u64 = 100;

/// Aggregate over all records whose rating falls in one bucket.
#[derive(Clone, Copy)]
pub struct Bucket {
    pub count: u64,
    pub sum_rating: u64,
    pub sum_rating_deviation: u64,
    pub sum_attempts: u64,
}

/// The dense, auto-growing bucket sequence.
pub struct Histogram {
    pub buckets: Vec<Bucket>,
}

/// The bucket a record falls in.
pub open spec fn bucket_index_of(r: Record) -> int {
    r.rating as int / BUCKET_WIDTH as int
}

/// A bucket that no record has touched yet.
pub open spec fn zero_bucket() -> Bucket {
    Bucket { count: 0, sum_rating: 0, sum_rating_deviation: 0, sum_attempts: 0 }
}

/// One record folded into its bucket.
pub open spec fn add_record(b: Bucket, r: Record) -> Bucket {
    Bucket {
        count: (b.count + 1) as u64,
        sum_rating: (b.sum_rating + r.rating) as u64,
        sum_rating_deviation: (b.sum_rating_deviation + r.rating_deviation) as u64,
        sum_attempts: (b.sum_attempts + r.attempts) as u64,
    }
}

/// The bucket sequence zero-extended to at least `n` buckets.
pub open spec fn grow_to(bs: Seq<Bucket>, n: int) -> Seq<Bucket> {
    if bs.len() >= n {
        bs
    } else {
        bs + Seq::new((n - bs.len()) as nat, |k: int| zero_bucket())
    }
}

/// The whole effect of one record on the bucket sequence: grow to cover its
/// bucket, then fold the record into that bucket.
pub open spec fn hist_step(bs: Seq<Bucket>, r: Record) -> Seq<Bucket> {
    let i = bucket_index_of(r);
    let g = grow_to(bs, i + 1);
    g.update(i, add_record(g[i], r))
}

/// How many records of `h` fall in bucket `i`.
pub open spec fn count_in_bucket(h: Seq<Record>, i: int) -> int
    decreases h.len(),
{
    if h.len() == 0 {
        0
    } else {
        count_in_bucket(h.drop_last(), i) + if bucket_index_of(h.last()) == i {
            1int
        } else {
            0int
        }
    }
}

/// Sum of ratings of the records of `h` in bucket `i`.
pub open spec fn rating_in_bucket(h: Seq<Record>, i: int) -> int
    decreases h.len(),
{
    if h.len() == 0 {
        0
    } else {
        rating_in_bucket(h.drop_last(), i) + if bucket_index_of(h.last()) == i {
            h.last().rating as int
        } else {
            0int
        }
    }
}

/// Sum of rating deviations of the records of `h` in bucket `i`.
pub open spec fn deviation_in_bucket(h: Seq<Record>, i: int) -> int
    decreases h.len(),
{
    if h.len() == 0 {
        0
    } else {
        deviation_in_bucket(h.drop_last(), i) + if bucket_index_of(h.last()) == i {
            h.last().rating_deviation as int
        } else {
            0int
        }
    }
}

/// Sum of attempts of the records of `h` in bucket `i`.
pub open spec fn attempts_in_bucket(h: Seq<Record>, i: int) -> int
    decreases h.len(),
{
    if h.len() == 0 {
        0
    } else {
        attempts_in_bucket(h.drop_last(), i) + if bucket_index_of(h.last()) == i {
            h.last().attempts as int
        } else {
            0int
        }
    }
}

/// One bucket holds exactly the aggregates of the records that map to it.
pub open spec fn bucket_matches(b: Bucket, h: Seq<Record>, i: int) -> bool {
    &&& b.count == count_in_bucket(h, i)
    &&& b.sum_rating == rating_in_bucket(h, i)
    &&& b.sum_rating_deviation == deviation_in_bucket(h, i)
    &&& b.sum_attempts == attempts_in_bucket(h, i)
}

/// The bucket sequence is exactly the histogram of the record sequence:
/// every bucket matches its per-bucket aggregates, every record's bucket
/// exists, and growth never went past the highest occupied bucket.
pub open spec fn hist_matches(bs: Seq<Bucket>, h: Seq<Record>) -> bool {
    &&& forall|i: int| 0 <= i < bs.len() ==> bucket_matches(#[trigger] bs[i], h, i)
    &&& forall|j: int| 0 <= j < h.len() ==> bucket_index_of(#[trigger] h[j]) < bs.len()
    &&& bs.len() > 0 ==> count_in_bucket(h, bs.len() - 1) > 0
}

/// Sum of the `count` fields of all buckets.
pub open spec fn sum_counts(bs: Seq<Bucket>) -> int
    decreases bs.len(),
{
    if bs.len() == 0 {
        0
    } else {
        sum_counts(bs.drop_last()) + bs.last().count as int
    }
}

/// Sum of the `sum_rating` fields of all buckets.
pub open spec fn sum_ratings(bs: Seq<Bucket>) -> int
    decreases bs.len(),
{
    if bs.len() == 0 {
        0
    } else {
        sum_ratings(bs.drop_last()) + bs.last().sum_rating as int
    }
}

/// Sum of the `sum_attempts` fields of all buckets.
pub open spec fn sum_attempts(bs: Seq<Bucket>) -> int
    decreases bs.len(),
{
    if bs.len() == 0 {
        0
    } else {
        sum_attempts(bs.drop_last()) + bs.last().sum_attempts as int
    }
}

/// Per-bucket aggregates are non-negative.
pub proof fn lemma_fold_nonneg(h: Seq<Record>, i: int)
    ensures
        count_in_bucket(h, i) >= 0,
        rating_in_bucket(h, i) >= 0,
        deviation_in_bucket(h, i) >= 0,
        attempts_in_bucket(h, i) >= 0,
    decreases h.len(),
{
    if h.len() > 0 {
        lemma_fold_nonneg(h.drop_last(), i);
    }
}

/// Appending a record to the history shifts each per-bucket aggregate by
/// that record's contribution to its own bucket.
pub proof fn lemma_fold_push(h: Seq<Record>, r: Record, i: int)
    ensures
        count_in_bucket(h.push(r), i) == count_in_bucket(h, i) + if bucket_index_of(r) == i {
            1int
        } else {
            0int
        },
        rating_in_bucket(h.push(r), i) == rating_in_bucket(h, i) + if bucket_index_of(r) == i {
            r.rating as int
        } else {
            0int
        },
        deviation_in_bucket(h.push(r), i) == deviation_in_bucket(h, i) + if bucket_index_of(r)
            == i {
            r.rating_deviation as int
        } else {
            0int
        },
        attempts_in_bucket(h.push(r), i) == attempts_in_bucket(h, i) + if bucket_index_of(r)
            == i {
            r.attempts as int
        } else {
            0int
        },
{
    assert(h.push(r).drop_last() =~= h);
    assert(h.push(r).last() == r);
}

/// A bucket that no record of the history maps to has all-zero aggregates.
pub proof fn lemma_fold_zero_when_absent(h: Seq<Record>, i: int)
    requires
        forall|j: int| 0 <= j < h.len() ==> bucket_index_of(#[trigger] h[j]) != i,
    ensures
        count_in_bucket(h, i) == 0,
        rating_in_bucket(h, i) == 0,
        deviation_in_bucket(h, i) == 0,
        attempts_in_bucket(h, i) == 0,
    decreases h.len(),
{
    if h.len() > 0 {
        assert(forall|j: int| 0 <= j < h.drop_last().len() ==> bucket_index_of(
            #[trigger] h.drop_last()[j]) != i);
        lemma_fold_zero_when_absent(h.drop_last(), i);
    }
}

/// Zero-extension does not change bucket sums.
pub proof fn lemma_sums_grow(bs: Seq<Bucket>, n: int)
    ensures
        sum_counts(grow_to(bs, n)) == sum_counts(bs),
        sum_ratings(grow_to(bs, n)) == sum_ratings(bs),
        sum_attempts(grow_to(bs, n)) == sum_attempts(bs),
    decreases n - bs.len(),
{
    if bs.len() < n {
        assert(grow_to(bs, n).drop_last() =~= grow_to(bs, n - 1));
        assert(grow_to(bs, n).last() == zero_bucket());
        lemma_sums_grow(bs, n - 1);
    }
}

/// Replacing one bucket shifts each sum by the difference in that bucket.
pub proof fn lemma_sums_update(bs: Seq<Bucket>, i: int, b: Bucket)
    requires
        0 <= i < bs.len(),
    ensures
        sum_counts(bs.update(i, b)) == sum_counts(bs) - bs[i].count + b.count,
        sum_ratings(bs.update(i, b)) == sum_ratings(bs) - bs[i].sum_rating + b.sum_rating,
        sum_attempts(bs.update(i, b)) == sum_attempts(bs) - bs[i].sum_attempts + b.sum_attempts,
    decreases bs.len(),
{
    if i == bs.len() - 1 {
        assert(bs.update(i, b).drop_last() =~= bs.drop_last());
        assert(bs.update(i, b).last() == b);
    } else {
        assert(bs.update(i, b).drop_last() =~= bs.drop_last().update(i, b));
        assert(bs.update(i, b).last() == bs.last());
        lemma_sums_update(bs.drop_last(), i, b);
    }
}

/// Every bucket's aggregates are bounded by the sums over all buckets.
pub proof fn lemma_bucket_le_sums(bs: Seq<Bucket>, i: int)
    requires
        0 <= i < bs.len(),
    ensures
        bs[i].count <= sum_counts(bs),
        bs[i].sum_rating <= sum_ratings(bs),
        bs[i].sum_attempts <= sum_attempts(bs),
    decreases bs.len(),
{
    if i == bs.len() - 1 {
        lemma_sums_nonneg(bs.drop_last());
    } else {
        lemma_bucket_le_sums(bs.drop_last(), i);
        assert(bs.drop_last()[i] == bs[i]);
    }
}

/// Bucket sums are non-negative.
pub proof fn lemma_sums_nonneg(bs: Seq<Bucket>)
    ensures
        sum_counts(bs) >= 0,
        sum_ratings(bs) >= 0,
        sum_attempts(bs) >= 0,
    decreases bs.len(),
{
    if bs.len() > 0 {
        lemma_sums_nonneg(bs.drop_last());
    }
}


/// One histogram step matches the history extended by the new record, and
/// shifts the bucket sums by exactly that record's contribution.
pub proof fn lemma_hist_step_matches(bs: Seq<Bucket>, h: Seq<Record>, r: Record)
    requires
        hist_matches(bs, h),
        bucket_index_of(r) < bs.len() ==> {
            let b = bs[bucket_index_of(r)];
            &&& b.count + 1 <= u64::MAX
            &&& b.sum_rating + r.rating <= u64::MAX
            &&& b.sum_rating_deviation + r.rating_deviation <= u64::MAX
            &&& b.sum_attempts + r.attempts <= u64::MAX
        },
    ensures
        hist_matches(hist_step(bs, r), h.push(r)),
        sum_counts(hist_step(bs, r)) == sum_counts(bs) + 1,
        sum_ratings(hist_step(bs, r)) == sum_ratings(bs) + r.rating,
        sum_attempts(hist_step(bs, r)) == sum_attempts(bs) + r.attempts,
{
    let idx = bucket_index_of(r);
    let g = grow_to(bs, idx + 1);
    let nb = add_record(g[idx], r);
    let new = hist_step(bs, r);
    let h2 = h.push(r);
    assert(new == g.update(idx, nb));
    assert(forall|j: int| 0 <= j < h.len() ==> #[trigger] h2[j] == h[j]);
    assert(h2[h.len() as int] == r);
    if idx >= bs.len() {
        assert(g[idx] == zero_bucket());
        assert forall|j: int| 0 <= j < h.len() implies bucket_index_of(#[trigger] h[j]) != idx by {
            assert(bucket_index_of(h[j]) < bs.len());
        }
        lemma_fold_zero_when_absent(h, idx);
    }
    lemma_fold_nonneg(h, idx);
    assert(bucket_matches(g[idx], h, idx));
    assert forall|i: int| 0 <= i < new.len() implies bucket_matches(#[trigger] new[i], h2, i) by {
        lemma_fold_push(h, r, i);
        if i == idx {
            assert(new[i] == nb);
        } else {
            assert(new[i] == g[i]);
            if i < bs.len() {
                assert(g[i] == bs[i]);
                assert(bucket_matches(bs[i], h, i));
            } else {
                assert(g[i] == zero_bucket());
                assert forall|j: int| 0 <= j < h.len() implies bucket_index_of(
                    #[trigger] h[j]) != i by {
                    assert(bucket_index_of(h[j]) < bs.len());
                }
                lemma_fold_zero_when_absent(h, i);
            }
        }
    }
    assert forall|j: int| 0 <= j < h2.len() implies bucket_index_of(#[trigger] h2[j])
        < new.len() by {
        if j < h.len() {
            assert(h2[j] == h[j]);
            assert(bucket_index_of(h[j]) < bs.len());
        } else {
            assert(h2[j] == r);
        }
    }
    assert(new.len() > 0);
    let last = new.len() - 1;
    lemma_fold_push(h, r, last);
    lemma_fold_nonneg(h, last);
    if idx + 1 >= bs.len() {
        assert(last == idx);
    } else {
        assert(last == bs.len() - 1);
        assert(count_in_bucket(h, last) > 0);
    }
    assert(count_in_bucket(h2, last) > 0);
    lemma_sums_grow(bs, idx + 1);
    lemma_sums_update(g, idx, nb);
}

impl Histogram {
    /// An empty histogram: no buckets at all.
    pub fn new() -> (h: Histogram)
        ensures
            h.buckets@ =~= Seq::<Bucket>::empty(),
    {
        Histogram { buckets: Vec::new() }
    }

    /// Fold one record into its bucket, growing the sequence first if the
    /// bucket does not exist yet.
    pub fn record(&mut self, r: &Record)
        requires
            r.rating / BUCKET_WIDTH < usize::MAX as u64,
            bucket_index_of(*r) < old(self).buckets@.len() ==> {
                let b = old(self).buckets@[bucket_index_of(*r)];
                &&& b.count + 1 <= u64::MAX
                &&& b.sum_rating + r.rating <= u64::MAX
                &&& b.sum_rating_deviation + r.rating_deviation <= u64::MAX
                &&& b.sum_attempts + r.attempts <= u64::MAX
            },
        ensures
            final(self).buckets@ == hist_step(old(self).buckets@, *r),
    {
        let idx: usize = (r.rating / BUCKET_WIDTH) as usize;
        let ghost bs0 = self.buckets@;
        proof {
            assert(idx as int == bucket_index_of(*r));
        }
        while self.buckets.len() <= idx
            invariant
                idx as int == bucket_index_of(*r),
                idx < usize::MAX,
                self.buckets@ == grow_to(bs0, self.buckets@.len() as int),
                self.buckets@.len() <= idx + 1 || self.buckets@ == bs0,
            decreases idx + 1 - self.buckets.len(),
        {
            self.buckets.push(Bucket { count: 0, sum_rating: 0, sum_rating_deviation: 0, sum_attempts: 0 });
            proof {
                let m = self.buckets@.len() as int;
                assert(grow_to(bs0, m) =~= grow_to(bs0, m - 1).push(zero_bucket()));
            }
        }
        proof {
            assert(self.buckets@ =~= grow_to(bs0, idx + 1));
        }
        let b: Bucket = self.buckets[idx];
        let nb = Bucket {
            count: b.count + 1,
            sum_rating: b.sum_rating + r.rating,
            sum_rating_deviation: b.sum_rating_deviation + r.rating_deviation,
            sum_attempts: b.sum_attempts + r.attempts,
        };
        self.buckets[idx] = nb;
        proof {
            let g = grow_to(bs0, idx + 1);
            assert(nb == add_record(g[idx as int], *r));
            assert(self.buckets@ == hist_step(bs0, *r));
        }
    }

    /// The least bucket index with a non-zero count, or the bucket count
    /// itself when every bucket is empty.  Report emission starts here:
    /// the empty prefix is suppressed, interior gaps are not.
    pub fn first_counted(&self) -> (i: usize)
        ensures
            i <= self.buckets@.len(),
            forall|k: int| 0 <= k < i ==> #[trigger] self.buckets@[k].count == 0,
            i < self.buckets@.len() ==> self.buckets@[i as int].count > 0,
    {
        let mut i: usize = 0;
        while i < self.buckets.len()
            invariant
                i <= self.buckets@.len(),
                forall|k: int| 0 <= k < i ==> #[trigger] self.buckets@[k].count == 0,
            decreases self.buckets@.len() - i,
        {
            if self.buckets[i].count > 0 {
                return i;
            }
            i = i + 1;
        }
        i
    }
}

} // verus!
