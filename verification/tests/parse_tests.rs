use puzzle_stats::numparse::{parse_u64_field, parse_i64_field, parse_count_field};
use puzzle_stats::decode::{decode_fields, should_skip, Layout};

fn row(s: &str) -> Vec<String> {
    puzzle_stats::project::split_line(s)
}

#[test]
fn unsigned_plain_digits() {
    assert_eq!(parse_u64_field("1000"), 1000);
    assert_eq!(parse_u64_field("0"), 0);
    assert_eq!(parse_u64_field("007"), 7);
}

#[test]
fn unsigned_leading_plus() {
    assert_eq!(parse_u64_field("+42"), 42);
    assert_eq!(parse_u64_field("++42"), 0);
}

#[test]
fn unsigned_tolerant_defaults() {
    assert_eq!(parse_u64_field(""), 0);
    assert_eq!(parse_u64_field("abc"), 0);
    assert_eq!(parse_u64_field("12x"), 0);
    assert_eq!(parse_u64_field("-1"), 0);
    assert_eq!(parse_u64_field(" 1"), 0);
    assert_eq!(parse_u64_field("+"), 0);
}

#[test]
fn unsigned_range_limits() {
    assert_eq!(parse_u64_field("18446744073709551615"), u64::MAX);
    assert_eq!(parse_u64_field("18446744073709551616"), 0);
    assert_eq!(parse_u64_field("99999999999999999999999"), 0);
}

#[test]
fn signed_basics() {
    assert_eq!(parse_i64_field("-5"), -5);
    assert_eq!(parse_i64_field("+7"), 7);
    assert_eq!(parse_i64_field("13"), 13);
    assert_eq!(parse_i64_field("-"), 0);
    assert_eq!(parse_i64_field(""), 0);
    assert_eq!(parse_i64_field("1.5"), 0);
}

#[test]
fn signed_range_limits() {
    assert_eq!(parse_i64_field("9223372036854775807"), i64::MAX);
    assert_eq!(parse_i64_field("9223372036854775808"), 0);
    assert_eq!(parse_i64_field("-9223372036854775808"), i64::MIN);
    assert_eq!(parse_i64_field("-9223372036854775809"), 0);
}

#[test]
fn count_clamps_negatives_to_zero() {
    assert_eq!(parse_count_field("10"), 10);
    assert_eq!(parse_count_field("-10"), 0);
    assert_eq!(parse_count_field(""), 0);
    // too large even for the signed parse, so it defaults
    assert_eq!(parse_count_field("9223372036854775808"), 0);
}

#[test]
fn decode_standard_layout() {
    let layout = Layout::standard();
    let r = decode_fields(&row("A,x,y,1000,50,10,5"), &layout);
    assert_eq!(r.id, "A");
    assert_eq!(r.rating, 1000);
    assert_eq!(r.rating_deviation, 50);
    assert_eq!(r.popularity, 10);
    assert_eq!(r.attempts, 5);
    assert!(!should_skip(&r));
}

#[test]
fn decode_short_row_defaults_to_zero() {
    let layout = Layout::standard();
    let r = decode_fields(&row("OnlyId"), &layout);
    assert_eq!(r.id, "OnlyId");
    assert_eq!(r.rating, 0);
    assert_eq!(r.rating_deviation, 0);
    assert_eq!(r.popularity, 0);
    assert_eq!(r.attempts, 0);
}

#[test]
fn decode_malformed_numbers_default_to_zero() {
    let layout = Layout::standard();
    let r = decode_fields(&row("B,,,12a4,oops,-3,-9"), &layout);
    assert_eq!(r.rating, 0);
    assert_eq!(r.rating_deviation, 0);
    assert_eq!(r.popularity, -3);
    assert_eq!(r.attempts, 0);
}

#[test]
fn decode_negative_popularity_kept() {
    let layout = Layout::standard();
    let r = decode_fields(&row("C,,,800,40,-12,3"), &layout);
    assert_eq!(r.popularity, -12);
}

#[test]
fn empty_row_decodes_to_empty_id() {
    let layout = Layout::standard();
    let r = decode_fields(&row(""), &layout);
    assert_eq!(r.id, "");
    assert_eq!(r.rating, 0);
}
