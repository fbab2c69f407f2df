//! Decoding a raw row of string fields into a validated [`Record`].
//!
//! Field extraction is positional and tolerant: a column beyond the row's
//! length defaults to its type's zero value, and numeric text that does not
//! parse defaults to 0.  The one hard filter is the deviation limit: a row
//! whose `rating_deviation` exceeds it is skipped, never aggregated.

use vstd::prelude::*;
use crate::record::Record;
use crate::numparse::{parse_u64_spec, parse_i64_spec, parse_count_spec};
use crate::numparse::{parse_u64_field, parse_i64_field, parse_count_field};

verus! {

/// Rows whose `rating_deviation` exceeds this are rejected by the skip policy.
pub const DEVIATION_LIMIT: u64 = 400;

/// Which positional index holds each record field.  The layout is a fixed
/// configuration per invocation; it is not detected from headers.
#[derive(Clone, Copy)]
pub struct Layout {
    pub id: usize,
    pub rating: usize,
    pub rating_deviation: usize,
    pub popularity: usize,
    pub attempts: usize,
}

/// The layout of the primary stats path:
/// `id, _, _, rating, rating_deviation, popularity, attempts`.
pub open spec fn standard_layout() -> Layout {
    Layout { id: 0, rating: 3, rating_deviation: 4, popularity: 5, attempts: 6 }
}

impl Layout {
    /// Column positions used by the primary stats path.
    pub fn standard() -> (l: Layout)
        ensures
            l == standard_layout(),
    {
        Layout { id: 0, rating: 3, rating_deviation: 4, popularity: 5, attempts: 6 }
    }
}

/// The text of column `i`, or the empty string when the row is too short.
pub open spec fn spec_field(fs: Seq<String>, i: int) -> Seq<char> {
    if 0 <= i < fs.len() {
        fs[i]@
    } else {
        Seq::empty()
    }
}

/// The record that a row of fields decodes to under a layout.
pub open spec fn decodes_to(fs: Seq<String>, l: Layout, r: Record) -> bool {
    &&& r.id@ == spec_field(fs, l.id as int)
    &&& r.rating == parse_u64_spec(spec_field(fs, l.rating as int))
    &&& r.rating_deviation == parse_u64_spec(spec_field(fs, l.rating_deviation as int))
    &&& r.popularity == parse_i64_spec(spec_field(fs, l.popularity as int))
    &&& r.attempts == parse_count_spec(spec_field(fs, l.attempts as int))
}

/// The skip policy: only an implausible rating deviation rejects a row.
pub open spec fn skips(r: Record) -> bool {
    r.rating_deviation > DEVIATION_LIMIT
}

/// Decode one row of fields into a record under the given layout.
/// Missing columns and unparsable numbers default to zero values.
pub fn decode_fields(fields: &Vec<String>, layout: &Layout) -> (r: Record)
    ensures
        decodes_to(fields@, *layout, r),
{
    let id: String = if layout.id < fields.len() {
        fields[layout.id].clone()
    } else {
        String::new()
    };
    let rating: u64 = if layout.rating < fields.len() {
        parse_u64_field(fields[layout.rating].as_str())
    } else {
        0
    };
    let rating_deviation: u64 = if layout.rating_deviation < fields.len() {
        parse_u64_field(fields[layout.rating_deviation].as_str())
    } else {
        0
    };
    let popularity: i64 = if layout.popularity < fields.len() {
        parse_i64_field(fields[layout.popularity].as_str())
    } else {
        0
    };
    let attempts: u64 = if layout.attempts < fields.len() {
        parse_count_field(fields[layout.attempts].as_str())
    } else {
        0
    };
    Record { id, rating, rating_deviation, popularity, attempts }
}

/// Whether the skip policy rejects this record.
pub fn should_skip(r: &Record) -> (b: bool)
    ensures
        b == skips(*r),
{
    r.rating_deviation > DEVIATION_LIMIT
}

} // verus!
