//! The decoded puzzle record that every accumulator consumes.

use vstd::prelude::*;

verus! {

/// One puzzle entry.  Immutable once decoded; accumulators copy it into
/// long-lived slots only when it wins a comparison.
pub struct Record {
    /// Identifier; may be empty.
    pub id: String,
    /// Non-negative skill-style score.
    pub rating: u64,
    /// Confidence-inverse measure; records above the limit are skipped.
    pub rating_deviation: u64,
    /// Signed vote-style metric.
    pub popularity: i64,
    /// Number of times the puzzle was played.
    pub attempts: u64,
}

impl Clone for Record {
    fn clone(&self) -> (r: Self)
        ensures
            r == *self,
    {
        Record {
            id: self.id.clone(),
            rating: self.rating,
            rating_deviation: self.rating_deviation,
            popularity: self.popularity,
            attempts: self.attempts,
        }
    }
}

} // verus!
