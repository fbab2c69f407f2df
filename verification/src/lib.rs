//! Single-pass streaming statistics over puzzle records.
//!
//! The library decodes delimited rows into validated records and folds them
//! through five independent accumulator groups: running totals, a fixed-width
//! rating histogram, five extremal trackers, and a bounded top-K list of the
//! highest-rated records.  A separate module projects named columns out of
//! delimited rows.  Every accumulator is specified against the sequence of
//! accepted records, so the report read out at end of stream is pinned down
//! by the contracts.

pub mod record;
pub mod numparse;
pub mod decode;
pub mod histogram;
pub mod extremes;
pub mod topk;
pub mod stats;
pub mod project;
