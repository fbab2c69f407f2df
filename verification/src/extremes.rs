//! Five independent "best so far" trackers.
//!
//! Highest- and lowest-rated keep a tie count: a strictly better record
//! replaces the champion and resets the count to 1, an exact tie increments
//! the count without replacing the stored record, so the first record to
//! reach a rating stays champion.  Least-popular, most-played and
//! least-played replace only on strict inequality and keep no count.
//!
//! The sentinels are part of the observable behaviour: highest-rated starts
//! from a zero-valued record, so a first record rated 0 ties the sentinel
//! instead of replacing it; the minimum trackers start from maximal
//! sentinels symmetrically.

use vstd::prelude::*;
use crate::record::Record;

verus! {

/// The five champion slots and the two tie counts.
pub struct Extremes {
    pub highest: Record,
    pub highest_count: u64,
    pub lowest: Record,
    pub lowest_count: u64,
    pub least_popular: Record,
    pub most_played: Record,
    pub least_played: Record,
}

/// The sentinel state every tracker starts from.
pub open spec fn is_initial(e: Extremes) -> bool {
    &&& e.highest.id@ == Seq::<char>::empty()
    &&& e.highest.rating == 0
    &&& e.highest.rating_deviation == 0
    &&& e.highest.popularity == 0
    &&& e.highest.attempts == 0
    &&& e.highest_count == 0
    &&& e.lowest.id@ == Seq::<char>::empty()
    &&& e.lowest.rating == u64::MAX
    &&& e.lowest.rating_deviation == 0
    &&& e.lowest.popularity == 0
    &&& e.lowest.attempts == 0
    &&& e.lowest_count == 0
    &&& e.least_popular.popularity == i64::MAX
    &&& e.least_popular.rating == 0
    &&& e.most_played.attempts == 0
    &&& e.most_played.rating == 0
    &&& e.least_played.attempts == u64::MAX
    &&& e.least_played.rating == 0
}

/// The whole effect of one record on the five slots.
pub open spec fn ext_step(e: Extremes, r: Record) -> Extremes {
    Extremes {
        highest: if r.rating > e.highest.rating {
            r
        } else {
            e.highest
        },
        highest_count: if r.rating > e.highest.rating {
            1u64
        } else if r.rating == e.highest.rating {
            (e.highest_count + 1) as u64
        } else {
            e.highest_count
        },
        lowest: if r.rating < e.lowest.rating {
            r
        } else {
            e.lowest
        },
        lowest_count: if r.rating < e.lowest.rating {
            1u64
        } else if r.rating == e.lowest.rating {
            (e.lowest_count + 1) as u64
        } else {
            e.lowest_count
        },
        least_popular: if r.popularity < e.least_popular.popularity {
            r
        } else {
            e.least_popular
        },
        most_played: if r.attempts > e.most_played.attempts {
            r
        } else {
            e.most_played
        },
        least_played: if r.attempts < e.least_played.attempts {
            r
        } else {
            e.least_played
        },
    }
}

/// The trackers folded over a whole history of accepted records.
pub open spec fn ext_fold(init: Extremes, h: Seq<Record>) -> Extremes
    decreases h.len(),
{
    if h.len() == 0 {
        init
    } else {
        ext_step(ext_fold(init, h.drop_last()), h.last())
    }
}

/// How many records of `h` have exactly rating `v`.
pub open spec fn count_eq_rating(h: Seq<Record>, v: u64) -> int
    decreases h.len(),
{
    if h.len() == 0 {
        0
    } else {
        count_eq_rating(h.drop_last(), v) + if h.last().rating == v {
            1int
        } else {
            0int
        }
    }
}

/// Appending one record advances the fold by one step.
pub proof fn lemma_ext_fold_push(init: Extremes, h: Seq<Record>, r: Record)
    ensures
        ext_fold(init, h.push(r)) == ext_step(ext_fold(init, h), r),
{
    assert(h.push(r).drop_last() =~= h);
    assert(h.push(r).last() == r);
}

/// A rating count is bounded by the history length.
pub proof fn lemma_count_eq_le_len(h: Seq<Record>, v: u64)
    ensures
        0 <= count_eq_rating(h, v) <= h.len(),
    decreases h.len(),
{
    if h.len() > 0 {
        lemma_count_eq_le_len(h.drop_last(), v);
    }
}

/// A rating no record has is counted zero times.
proof fn lemma_count_eq_absent(h: Seq<Record>, v: u64)
    requires
        forall|j: int| 0 <= j < h.len() ==> #[trigger] h[j].rating != v,
    ensures
        count_eq_rating(h, v) == 0,
    decreases h.len(),
{
    if h.len() > 0 {
        assert(forall|j: int| 0 <= j < h.drop_last().len() ==> #[trigger] h.drop_last()[j].rating
            != v);
        lemma_count_eq_absent(h.drop_last(), v);
    }
}

/// What the rating trackers of the fold mean: the highest champion's
/// rating bounds every accepted rating from above and is reached whenever
/// any record arrived, and its tie count is exactly the number of accepted
/// records at that rating; symmetrically for the lowest champion.
pub proof fn lemma_ext_fold_rating_laws(init: Extremes, h: Seq<Record>)
    requires
        is_initial(init),
        h.len() <= u64::MAX,
    ensures
        forall|j: int| 0 <= j < h.len() ==> #[trigger] h[j].rating <= ext_fold(
            init, h).highest.rating,
        h.len() > 0 ==> exists|j: int| 0 <= j < h.len() && #[trigger] h[j].rating == ext_fold(
            init, h).highest.rating,
        ext_fold(init, h).highest_count == count_eq_rating(h, ext_fold(init, h).highest.rating),
        forall|j: int| 0 <= j < h.len() ==> #[trigger] h[j].rating >= ext_fold(
            init, h).lowest.rating,
        h.len() > 0 ==> exists|j: int| 0 <= j < h.len() && #[trigger] h[j].rating == ext_fold(
            init, h).lowest.rating,
        ext_fold(init, h).lowest_count == count_eq_rating(h, ext_fold(init, h).lowest.rating),
    decreases h.len(),
{
    if h.len() > 0 {
        let hp = h.drop_last();
        let r = h.last();
        let e = ext_fold(init, hp);
        lemma_ext_fold_rating_laws(init, hp);
        assert(forall|j: int| 0 <= j < hp.len() ==> #[trigger] hp[j] == h[j]);
        if r.rating > e.highest.rating {
            assert(forall|j: int| 0 <= j < hp.len() ==> #[trigger] hp[j].rating != r.rating);
            lemma_count_eq_absent(hp, r.rating);
            assert(h[h.len() - 1].rating == ext_fold(init, h).highest.rating);
        } else if r.rating == e.highest.rating {
            lemma_count_eq_le_len(hp, e.highest.rating);
            assert(h[h.len() - 1].rating == ext_fold(init, h).highest.rating);
        } else {
            if hp.len() == 0 {
                // the sentinel rating 0 cannot exceed an unsigned rating
                assert(false);
            }
        }
        assert forall|j: int| 0 <= j < h.len() implies #[trigger] h[j].rating <= ext_fold(
            init, h).highest.rating by {
            if j < h.len() - 1 {
                assert(hp[j] == h[j]);
                assert(hp[j].rating <= e.highest.rating);
            }
        }
        assert forall|j: int| 0 <= j < h.len() implies #[trigger] h[j].rating >= ext_fold(
            init, h).lowest.rating by {
            if j < h.len() - 1 {
                assert(hp[j] == h[j]);
                assert(hp[j].rating >= e.lowest.rating);
            }
        }
        if r.rating < e.lowest.rating {
            assert(forall|j: int| 0 <= j < hp.len() ==> #[trigger] hp[j].rating != r.rating);
            lemma_count_eq_absent(hp, r.rating);
            assert(h[h.len() - 1].rating == ext_fold(init, h).lowest.rating);
        } else if r.rating == e.lowest.rating {
            lemma_count_eq_le_len(hp, e.lowest.rating);
            assert(h[h.len() - 1].rating == ext_fold(init, h).lowest.rating);
        } else {
            if hp.len() == 0 {
                // the sentinel rating u64::MAX cannot be below an unsigned rating
                assert(false);
            }
        }
    }
}

impl Extremes {
    /// All five slots at their sentinels, counts at zero.
    pub fn new() -> (e: Extremes)
        ensures
            is_initial(e),
    {
        Extremes {
            highest: Record {
                id: String::new(),
                rating: 0,
                rating_deviation: 0,
                popularity: 0,
                attempts: 0,
            },
            highest_count: 0,
            lowest: Record {
                id: String::new(),
                rating: u64::MAX,
                rating_deviation: 0,
                popularity: 0,
                attempts: 0,
            },
            lowest_count: 0,
            least_popular: Record {
                id: String::new(),
                rating: 0,
                rating_deviation: 0,
                popularity: i64::MAX,
                attempts: 0,
            },
            most_played: Record {
                id: String::new(),
                rating: 0,
                rating_deviation: 0,
                popularity: 0,
                attempts: 0,
            },
            least_played: Record {
                id: String::new(),
                rating: 0,
                rating_deviation: 0,
                popularity: 0,
                attempts: u64::MAX,
            },
        }
    }

    /// Update all five slots with one record in a single step.
    pub fn record(&mut self, r: &Record)
        requires
            r.rating == old(self).highest.rating ==> old(self).highest_count < u64::MAX,
            r.rating == old(self).lowest.rating ==> old(self).lowest_count < u64::MAX,
        ensures
            *final(self) == ext_step(*old(self), *r),
    {
        if r.rating > self.highest.rating {
            self.highest = r.clone();
            self.highest_count = 1;
        } else if r.rating == self.highest.rating {
            self.highest_count = self.highest_count + 1;
        }
        if r.rating < self.lowest.rating {
            self.lowest = r.clone();
            self.lowest_count = 1;
        } else if r.rating == self.lowest.rating {
            self.lowest_count = self.lowest_count + 1;
        }
        if r.popularity < self.least_popular.popularity {
            self.least_popular = r.clone();
        }
        if r.attempts > self.most_played.attempts {
            self.most_played = r.clone();
        }
        if r.attempts < self.least_played.attempts {
            self.least_played = r.clone();
        }
    }
}

} // verus!
