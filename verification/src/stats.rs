//! The single-pass streaming aggregation engine.
//!
//! A [`Stats`] value owns all five accumulator groups and a ghost history of
//! the accepted records, in arrival order.  Its well-formedness invariant
//! ties every group to that history, so after any sequence of ingested rows
//! the report values are exactly the fold of the accepted records:
//! the partition, filtering, tie-count and top-K selection laws are proved
//! from the invariant alone.

use vstd::prelude::*;
use crate::record::Record;
use crate::decode::{Layout, decode_fields, decodes_to, should_skip, skips, spec_field,
    DEVIATION_LIMIT};
use crate::numparse::{parse_u64_spec, parse_count_spec};
use crate::histogram::{Histogram, BUCKET_WIDTH, bucket_index_of, hist_matches, hist_step,
    sum_counts, sum_ratings, sum_attempts, lemma_hist_step_matches, lemma_bucket_le_sums,
    count_in_bucket, rating_in_bucket, deviation_in_bucket, attempts_in_bucket};
use crate::extremes::{Extremes, is_initial, ext_step, ext_fold, count_eq_rating,
    lemma_ext_fold_push, lemma_ext_fold_rating_laws, lemma_count_eq_le_len};
use crate::topk::{TopK, TOP_K, topk_inv, topk_step, topk_fold, sorted_desc, dominates,
    lemma_topk_step_inv, lemma_topk_fold_push};

verus! {

/// All accumulators of one aggregation pass, plus the ghost history of
/// accepted records that their contracts are stated against.
pub struct Stats {
    /// Records that passed the skip filter.
    pub accepted_count: u64,
    /// Records rejected by the deviation filter.
    pub skipped_count: u64,
    /// Sum of accepted ratings.
    pub total_rating: u64,
    /// Sum of accepted attempt counts.
    pub total_attempts: u64,
    /// The rating histogram.
    pub histogram: Histogram,
    /// The five extremal trackers.
    pub extremes: Extremes,
    /// The bounded list of highest-rated records.
    pub topk: TopK,
    /// The accepted records, in arrival order.
    pub history: Ghost<Seq<Record>>,
    /// The sentinel state the trackers started from.
    pub init: Ghost<Extremes>,
}

/// Sum of ratings over a record history.
pub open spec fn sum_rating_hist(h: Seq<Record>) -> int
    decreases h.len(),
{
    if h.len() == 0 {
        0
    } else {
        sum_rating_hist(h.drop_last()) + h.last().rating as int
    }
}

/// Sum of attempts over a record history.
pub open spec fn sum_attempts_hist(h: Seq<Record>) -> int
    decreases h.len(),
{
    if h.len() == 0 {
        0
    } else {
        sum_attempts_hist(h.drop_last()) + h.last().attempts as int
    }
}

/// Appending one record shifts the history totals by its contribution.
proof fn lemma_totals_push(h: Seq<Record>, r: Record)
    ensures
        sum_rating_hist(h.push(r)) == sum_rating_hist(h) + r.rating,
        sum_attempts_hist(h.push(r)) == sum_attempts_hist(h) + r.attempts,
{
    assert(h.push(r).drop_last() =~= h);
    assert(h.push(r).last() == r);
}

/// Whether the row described by `fields` is rejected by the skip policy.
pub open spec fn row_skips(fs: Seq<String>, l: Layout) -> bool {
    parse_u64_spec(spec_field(fs, l.rating_deviation as int)) > DEVIATION_LIMIT
}

impl Stats {
    /// Every accumulator group agrees with the ghost history of accepted
    /// records; this holds after construction and after every update.
    pub open spec fn wf(self) -> bool {
        let h = self.history@;
        &&& self.accepted_count == h.len()
        &&& self.total_rating == sum_rating_hist(h)
        &&& self.total_attempts == sum_attempts_hist(h)
        &&& forall|j: int| 0 <= j < h.len() ==> !skips(#[trigger] h[j])
        &&& hist_matches(self.histogram.buckets@, h)
        &&& sum_counts(self.histogram.buckets@) == self.accepted_count
        &&& sum_ratings(self.histogram.buckets@) == self.total_rating
        &&& sum_attempts(self.histogram.buckets@) == self.total_attempts
        &&& is_initial(self.init@)
        &&& self.extremes == ext_fold(self.init@, h)
        &&& self.topk.list@ == topk_fold(h)
        &&& topk_inv(self.topk.list@, h)
    }

    /// Machine limits under which one more record can be accepted: the
    /// counters and running sums, global and in the record's bucket, must
    /// not overflow, and the record's bucket index must be addressable.
    pub open spec fn can_accept_spec(self, r: Record) -> bool {
        &&& self.accepted_count < u64::MAX
        &&& self.total_rating + r.rating <= u64::MAX
        &&& self.total_attempts + r.attempts <= u64::MAX
        &&& r.rating / BUCKET_WIDTH < usize::MAX as u64
        &&& bucket_index_of(r) < self.histogram.buckets@.len()
            ==> self.histogram.buckets@[bucket_index_of(r)].sum_rating_deviation
            + r.rating_deviation <= u64::MAX
    }

    /// An empty aggregation pass: every accumulator at its starting value.
    pub fn new() -> (s: Stats)
        ensures
            s.wf(),
            s.history@ == Seq::<Record>::empty(),
            s.accepted_count == 0,
            s.skipped_count == 0,
            s.total_rating == 0,
            s.total_attempts == 0,
            s.histogram.buckets@.len() == 0,
            s.topk.list@.len() == 0,
            is_initial(s.extremes),
    {
        let extremes = Extremes::new();
        let ghost init = extremes;
        let s = Stats {
            accepted_count: 0,
            skipped_count: 0,
            total_rating: 0,
            total_attempts: 0,
            histogram: Histogram::new(),
            extremes,
            topk: TopK::new(),
            history: Ghost(Seq::empty()),
            init: Ghost(init),
        };
        proof {
            assert(s.history@ =~= Seq::<Record>::empty());
        }
        s
    }

    /// Whether one more record fits within the machine limits.
    pub fn can_accept(&self, r: &Record) -> (b: bool)
        ensures
            b == self.can_accept_spec(*r),
    {
        if !(self.accepted_count < u64::MAX) {
            return false;
        }
        if !(r.rating <= u64::MAX - self.total_rating) {
            return false;
        }
        if !(r.attempts <= u64::MAX - self.total_attempts) {
            return false;
        }
        if !(r.rating / BUCKET_WIDTH < usize::MAX as u64) {
            return false;
        }
        let idx: usize = (r.rating / BUCKET_WIDTH) as usize;
        if idx < self.histogram.buckets.len() {
            self.histogram.buckets[idx].sum_rating_deviation <= u64::MAX - r.rating_deviation
        } else {
            true
        }
    }

    /// Fold one accepted record into every accumulator group in one step.
    pub fn accept(&mut self, r: &Record)
        requires
            old(self).wf(),
            old(self).can_accept_spec(*r),
            !skips(*r),
        ensures
            final(self).wf(),
            final(self).history@ == old(self).history@.push(*r),
            final(self).skipped_count == old(self).skipped_count,
            final(self).accepted_count == old(self).accepted_count + 1,
            final(self).total_rating == old(self).total_rating + r.rating,
            final(self).total_attempts == old(self).total_attempts + r.attempts,
            final(self).histogram.buckets@ == hist_step(old(self).histogram.buckets@, *r),
            final(self).extremes == ext_step(old(self).extremes, *r),
            final(self).topk.list@ == topk_step(old(self).topk.list@, *r),
            final(self).init == old(self).init,
    {
        let ghost h = self.history@;
        let ghost bs = self.histogram.buckets@;
        let ghost tl = self.topk.list@;
        proof {
            // the tie counts stay below the accepted count, so they cannot
            // overflow; the touched bucket stays below the global sums
            lemma_ext_fold_rating_laws(self.init@, h);
            lemma_count_eq_le_len(h, self.extremes.highest.rating);
            lemma_count_eq_le_len(h, self.extremes.lowest.rating);
            if bucket_index_of(*r) < bs.len() {
                lemma_bucket_le_sums(bs, bucket_index_of(*r));
            }
        }
        self.total_rating = self.total_rating + r.rating;
        self.total_attempts = self.total_attempts + r.attempts;
        self.accepted_count = self.accepted_count + 1;
        self.histogram.record(r);
        self.extremes.record(r);
        self.topk.insert(r);
        proof {
            self.history@ = h.push(*r);
            lemma_totals_push(h, *r);
            lemma_hist_step_matches(bs, h, *r);
            lemma_ext_fold_push(self.init@, h, *r);
            lemma_topk_fold_push(h, *r);
            lemma_topk_step_inv(tl, h, *r);
        }
    }

    /// Count one row rejected by the skip policy; no other accumulator moves.
    pub fn skip_one(&mut self)
        requires
            old(self).wf(),
            old(self).skipped_count < u64::MAX,
        ensures
            final(self).wf(),
            final(self).skipped_count == old(self).skipped_count + 1,
            *final(self) == (Stats { skipped_count: final(self).skipped_count, ..*old(self) }),
    {
        self.skipped_count = self.skipped_count + 1;
    }

    /// Whether a whole row can be ingested within the machine limits,
    /// whichever way the skip policy decides it.
    pub open spec fn can_ingest_spec(self, fs: Seq<String>, l: Layout) -> bool {
        if row_skips(fs, l) {
            self.skipped_count < u64::MAX
        } else {
            &&& self.accepted_count < u64::MAX
            &&& self.total_rating + parse_u64_spec(spec_field(fs, l.rating as int)) <= u64::MAX
            &&& self.total_attempts + parse_count_spec(spec_field(fs, l.attempts as int))
                <= u64::MAX
            &&& parse_u64_spec(spec_field(fs, l.rating as int)) / BUCKET_WIDTH
                < usize::MAX as u64
            &&& {
                let bi = parse_u64_spec(spec_field(fs, l.rating as int)) as int
                    / BUCKET_WIDTH as int;
                bi < self.histogram.buckets@.len()
                    ==> self.histogram.buckets@[bi].sum_rating_deviation + parse_u64_spec(
                    spec_field(fs, l.rating_deviation as int)) <= u64::MAX
            }
        }
    }

    /// Whether `ingest_row` may be called on this row.
    pub fn can_ingest(&self, fields: &Vec<String>, layout: &Layout) -> (b: bool)
        ensures
            b == self.can_ingest_spec(fields@, *layout),
    {
        let r = decode_fields(fields, layout);
        if should_skip(&r) {
            self.skipped_count < u64::MAX
        } else {
            self.can_accept(&r)
        }
    }

    /// Ingest one raw row: decode it, and either count it as skipped or
    /// fold the decoded record into every accumulator group.
    pub fn ingest_row(&mut self, fields: &Vec<String>, layout: &Layout)
        requires
            old(self).wf(),
            old(self).can_ingest_spec(fields@, *layout),
        ensures
            final(self).wf(),
            final(self).init == old(self).init,
            row_skips(fields@, *layout) ==> {
                &&& final(self).skipped_count == old(self).skipped_count + 1
                &&& *final(self) == (Stats {
                    skipped_count: final(self).skipped_count,
                    ..*old(self)
                })
            },
            !row_skips(fields@, *layout) ==> exists|r: Record|
                {
                    &&& #[trigger] decodes_to(fields@, *layout, r)
                    &&& !skips(r)
                    &&& final(self).history@ == old(self).history@.push(r)
                    &&& final(self).skipped_count == old(self).skipped_count
                    &&& final(self).accepted_count == old(self).accepted_count + 1
                    &&& final(self).total_rating == old(self).total_rating + r.rating
                    &&& final(self).total_attempts == old(self).total_attempts + r.attempts
                    &&& final(self).histogram.buckets@ == hist_step(
                        old(self).histogram.buckets@, r)
                    &&& final(self).extremes == ext_step(old(self).extremes, r)
                    &&& final(self).topk.list@ == topk_step(old(self).topk.list@, r)
                },
    {
        let r = decode_fields(fields, layout);
        if should_skip(&r) {
            self.skip_one();
        } else {
            self.accept(&r);
        }
    }

    /// Partition law: the buckets split the accepted records, so their
    /// counts sum to the accepted count and their rating sums to the total.
    pub proof fn lemma_bucket_partition(self)
        requires
            self.wf(),
        ensures
            sum_counts(self.histogram.buckets@) == self.accepted_count,
            sum_ratings(self.histogram.buckets@) == self.total_rating,
            sum_attempts(self.histogram.buckets@) == self.total_attempts,
    {
    }

    /// Placement law: every bucket holds exactly the aggregates of the
    /// accepted records whose rating divided by the bucket width names it,
    /// and no skipped record is in the history any accumulator folds.
    pub proof fn lemma_histogram_exact(self)
        requires
            self.wf(),
        ensures
            forall|i: int| 0 <= i < self.histogram.buckets@.len() ==> {
                let b = #[trigger] self.histogram.buckets@[i];
                &&& b.count == count_in_bucket(self.history@, i)
                &&& b.sum_rating == rating_in_bucket(self.history@, i)
                &&& b.sum_rating_deviation == deviation_in_bucket(self.history@, i)
                &&& b.sum_attempts == attempts_in_bucket(self.history@, i)
            },
            forall|j: int| 0 <= j < self.history@.len() ==> !skips(
                #[trigger] self.history@[j]),
    {
    }

    /// Tie-count law: the highest champion's rating is the maximum accepted
    /// rating, reached by some record whenever any was accepted, and its
    /// tie count is the number of accepted records at exactly that rating;
    /// symmetrically for the lowest champion.
    pub proof fn lemma_rating_tie_counts(self)
        requires
            self.wf(),
        ensures
            forall|j: int| 0 <= j < self.history@.len() ==> #[trigger] self.history@[j].rating
                <= self.extremes.highest.rating,
            self.history@.len() > 0 ==> exists|j: int| 0 <= j < self.history@.len()
                && #[trigger] self.history@[j].rating == self.extremes.highest.rating,
            self.extremes.highest_count == count_eq_rating(
                self.history@, self.extremes.highest.rating),
            forall|j: int| 0 <= j < self.history@.len() ==> #[trigger] self.history@[j].rating
                >= self.extremes.lowest.rating,
            self.history@.len() > 0 ==> exists|j: int| 0 <= j < self.history@.len()
                && #[trigger] self.history@[j].rating == self.extremes.lowest.rating,
            self.extremes.lowest_count == count_eq_rating(
                self.history@, self.extremes.lowest.rating),
    {
        lemma_ext_fold_rating_laws(self.init@, self.history@);
    }

    /// Top-K selection law: the retained list is exactly the fold of the
    /// accepted records through the retainer step (which fixes tie order:
    /// a new record goes after earlier arrivals of its rating), sorted
    /// descending by rating, exactly as long as the history up to the
    /// capacity, drawn from the accepted records, and any accepted record
    /// left out was left out of a full list whose every entry rates at
    /// least as high.
    pub proof fn lemma_top_k_selection(self)
        requires
            self.wf(),
        ensures
            self.topk.list@ == topk_fold(self.history@),
            sorted_desc(self.topk.list@),
            self.topk.list@.len() <= TOP_K,
            self.topk.list@.len() == if self.history@.len() < TOP_K {
                self.history@.len() as int
            } else {
                TOP_K as int
            },
            forall|i: int| 0 <= i < self.topk.list@.len() ==> self.history@.contains(
                #[trigger] self.topk.list@[i]),
            forall|j: int| 0 <= j < self.history@.len() ==> self.topk.list@.contains(
                #[trigger] self.history@[j]) || (self.topk.list@.len() == TOP_K && dominates(
                self.topk.list@, self.history@[j])),
    {
        assert forall|j: int| 0 <= j < self.history@.len() implies self.topk.list@.contains(
            #[trigger] self.history@[j]) || (self.topk.list@.len() == TOP_K && dominates(
            self.topk.list@, self.history@[j])) by {
            if !self.topk.list@.contains(self.history@[j]) {
                assert(!(self.topk.list@.len() < TOP_K));
            }
        }
    }
}

} // verus!
