//! Lenient decimal parsing for record fields.
//!
//! A field that fails to parse as the target integer type defaults to 0;
//! that tolerance is part of the decoder's contract, so the parse result is
//! pinned down exactly: an optional sign followed by one or more ASCII
//! digits whose value fits the target type parses to that value, and every
//! other string parses to 0.

use vstd::prelude::*;

verus! {

/// An ASCII decimal digit.
pub open spec fn is_digit(c: char) -> bool {
    48 <= c as u32 <= 57
}

/// Numeric value of one digit character.
pub open spec fn digit_val(c: char) -> int {
    (c as u32) as int - 48
}

/// A non-empty run of ASCII digits.
pub open spec fn digits_ok(s: Seq<char>) -> bool {
    s.len() > 0 && forall|i: int| 0 <= i < s.len() ==> is_digit(#[trigger] s[i])
}

/// Value of a digit string, most significant digit first.
pub open spec fn digits_val(s: Seq<char>) -> int
    decreases s.len(),
{
    if s.len() == 0 {
        0
    } else {
        digits_val(s.drop_last()) * 10 + digit_val(s.last())
    }
}

/// The digit part of an unsigned literal: one leading `+` is allowed.
pub open spec fn u64_body(s: Seq<char>) -> Seq<char> {
    if s.len() > 0 && s[0] == '+' {
        s.subrange(1, s.len() as int)
    } else {
        s
    }
}

/// The value an unsigned decimal field stands for: its parsed value, or 0
/// under the tolerance policy when it does not parse or does not fit.
pub open spec fn parse_u64_spec(s: Seq<char>) -> u64 {
    if digits_ok(u64_body(s)) && digits_val(u64_body(s)) <= u64::MAX {
        digits_val(u64_body(s)) as u64
    } else {
        0
    }
}

/// The digit part of a signed literal: one leading `-` or `+` is allowed.
pub open spec fn i64_body(s: Seq<char>) -> Seq<char> {
    if s.len() > 0 && (s[0] == '-' || s[0] == '+') {
        s.subrange(1, s.len() as int)
    } else {
        s
    }
}

/// Whether a signed literal carries a minus sign.
pub open spec fn i64_negative(s: Seq<char>) -> bool {
    s.len() > 0 && s[0] == '-'
}

/// The value a signed decimal field stands for: its parsed value, or 0
/// under the tolerance policy when it does not parse or does not fit.
pub open spec fn parse_i64_spec(s: Seq<char>) -> i64 {
    if digits_ok(i64_body(s)) {
        if i64_negative(s) {
            if digits_val(i64_body(s)) <= 0x8000000000000000 {
                (-digits_val(i64_body(s))) as i64
            } else {
                0
            }
        } else {
            if digits_val(i64_body(s)) <= i64::MAX {
                digits_val(i64_body(s)) as i64
            } else {
                0
            }
        }
    } else {
        0
    }
}

/// A non-negative count parsed as `i64` and clamped into `u64`: a negative
/// or unparsable field yields 0.
pub open spec fn parse_count_spec(s: Seq<char>) -> u64 {
    if parse_i64_spec(s) >= 0 {
        parse_i64_spec(s) as u64
    } else {
        0
    }
}

/// A digit string's value is non-negative.
proof fn lemma_digits_val_nonneg(s: Seq<char>)
    requires
        forall|i: int| 0 <= i < s.len() ==> is_digit(#[trigger] s[i]),
    ensures
        digits_val(s) >= 0,
    decreases s.len(),
{
    if s.len() > 0 {
        lemma_digits_val_nonneg(s.drop_last());
    }
}

/// Extending a digit prefix by one digit multiplies its value by ten and
/// adds the new digit.
proof fn lemma_digits_val_take_step(s: Seq<char>, k: int)
    requires
        0 <= k < s.len(),
    ensures
        digits_val(s.take(k + 1)) == digits_val(s.take(k)) * 10 + digit_val(s[k]),
{
    assert(s.take(k + 1).drop_last() =~= s.take(k));
    assert(s.take(k + 1).last() == s[k]);
}

/// A digit string is worth at least any of its prefixes.
proof fn lemma_digits_val_take_le(s: Seq<char>, k: int)
    requires
        0 <= k <= s.len(),
        forall|i: int| 0 <= i < s.len() ==> is_digit(#[trigger] s[i]),
    ensures
        digits_val(s.take(k)) <= digits_val(s),
    decreases s.len(),
{
    if k == s.len() {
        assert(s.take(k) =~= s);
    } else {
        assert(s.drop_last().take(k) =~= s.take(k));
        lemma_digits_val_take_le(s.drop_last(), k);
        lemma_digits_val_nonneg(s.drop_last());
        assert(digits_val(s) == digits_val(s.drop_last()) * 10 + digit_val(s.last()));
    }
}

/// Parse an unsigned decimal field, defaulting to 0 on any failure,
/// exactly as the tolerant decoding policy demands.
pub fn parse_u64_field(s: &str) -> (r: u64)
    ensures
        r == parse_u64_spec(s@),
{
    let n: usize = s.unicode_len();
    let mut start: usize = 0;
    if n > 0 && s.get_char(0) == '+' {
        start = 1;
    }
    let ghost body = u64_body(s@);
    proof {
        assert(body =~= s@.subrange(start as int, n as int));
    }
    if start == n {
        return 0;
    }
    let mut val: u64 = 0;
    let mut i: usize = start;
    while i < n
        invariant
            start <= i <= n,
            n == s@.len(),
            start <= 1,
            body == u64_body(s@),
            body == s@.subrange(start as int, n as int),
            body.len() == n - start,
            forall|k: int| start <= k < i ==> is_digit(#[trigger] s@[k]),
            val == digits_val(body.take(i - start)),
        decreases n - i,
    {
        let c = s.get_char(i);
        let u: u32 = c as u32;
        if u < 48 || u > 57 {
            proof {
                assert(c == s@[i as int]);
                assert(body[i - start] == c);
                assert(!is_digit(body[i - start]));
                assert(!digits_ok(body));
            }
            return 0;
        }
        let d: u64 = (u - 48) as u64;
        let overflowed: bool = match val.checked_mul(10) {
            Some(v10) => {
                match v10.checked_add(d) {
                    Some(v) => {
                        proof {
                            lemma_digits_val_take_step(body, i - start);
                            assert(body[i - start] == s@[i as int]);
                        }
                        val = v;
                        false
                    },
                    None => true,
                }
            },
            None => true,
        };
        if overflowed {
            proof {
                assert(c == s@[i as int]);
                assert(body[i - start] == c);
                if digits_ok(body) {
                    assert(is_digit(body[i - start]));
                    lemma_digits_val_take_step(body, i - start);
                    lemma_digits_val_take_le(body, i - start + 1);
                    assert(digit_val(body[i - start]) == d as int);
                    assert(digits_val(body.take(i - start + 1)) == val * 10 + d);
                    assert(val * 10 + d > u64::MAX);
                    assert(digits_val(body) > u64::MAX);
                }
            }
            return 0;
        }
        i = i + 1;
    }
    proof {
        assert(body.take(n - start) =~= body);
        assert(forall|k: int| 0 <= k < body.len() ==> is_digit(#[trigger] body[k])) by {
            assert(forall|k: int| 0 <= k < body.len() ==> body[k] == s@[k + start]);
        }
        assert(digits_ok(body));
    }
    val
}

/// Parse a signed decimal field, defaulting to 0 on any failure,
/// exactly as the tolerant decoding policy demands.
pub fn parse_i64_field(s: &str) -> (r: i64)
    ensures
        r == parse_i64_spec(s@),
{
    let n: usize = s.unicode_len();
    let mut start: usize = 0;
    let mut neg: bool = false;
    if n > 0 {
        let c0 = s.get_char(0);
        if c0 == '-' {
            neg = true;
            start = 1;
        } else if c0 == '+' {
            start = 1;
        }
    }
    let ghost body = i64_body(s@);
    proof {
        assert(body =~= s@.subrange(start as int, n as int));
        assert(neg == i64_negative(s@));
    }
    if start == n {
        return 0;
    }
    let mut val: u64 = 0;
    let mut i: usize = start;
    while i < n
        invariant
            start <= i <= n,
            n == s@.len(),
            start <= 1,
            body == i64_body(s@),
            neg == i64_negative(s@),
            body == s@.subrange(start as int, n as int),
            body.len() == n - start,
            forall|k: int| start <= k < i ==> is_digit(#[trigger] s@[k]),
            val == digits_val(body.take(i - start)),
        decreases n - i,
    {
        let c = s.get_char(i);
        let u: u32 = c as u32;
        if u < 48 || u > 57 {
            proof {
                assert(c == s@[i as int]);
                assert(body[i - start] == c);
                assert(!is_digit(body[i - start]));
                assert(!digits_ok(body));
            }
            return 0;
        }
        let d: u64 = (u - 48) as u64;
        let overflowed: bool = match val.checked_mul(10) {
            Some(v10) => {
                match v10.checked_add(d) {
                    Some(v) => {
                        proof {
                            lemma_digits_val_take_step(body, i - start);
                            assert(body[i - start] == s@[i as int]);
                        }
                        val = v;
                        false
                    },
                    None => true,
                }
            },
            None => true,
        };
        if overflowed {
            proof {
                assert(c == s@[i as int]);
                assert(body[i - start] == c);
                if digits_ok(body) {
                    assert(is_digit(body[i - start]));
                    lemma_digits_val_take_step(body, i - start);
                    lemma_digits_val_take_le(body, i - start + 1);
                    assert(digit_val(body[i - start]) == d as int);
                    assert(digits_val(body.take(i - start + 1)) == val * 10 + d);
                    assert(val * 10 + d > u64::MAX);
                    assert(digits_val(body) > u64::MAX);
                }
            }
            return 0;
        }
        i = i + 1;
    }
    proof {
        assert(body.take(n - start) =~= body);
        assert(forall|k: int| 0 <= k < body.len() ==> is_digit(#[trigger] body[k])) by {
            assert(forall|k: int| 0 <= k < body.len() ==> body[k] == s@[k + start]);
        }
        assert(digits_ok(body));
    }
    if neg {
        if val > 0x8000000000000000u64 {
            0
        } else if val == 0x8000000000000000u64 {
            i64::MIN
        } else {
            -(val as i64)
        }
    } else {
        if val > 0x7fffffffffffffffu64 {
            0
        } else {
            val as i64
        }
    }
}

/// Parse a non-negative count: a signed parse clamped below at 0.
pub fn parse_count_field(s: &str) -> (r: u64)
    ensures
        r == parse_count_spec(s@),
{
    let v = parse_i64_field(s);
    if v >= 0 {
        v as u64
    } else {
        0
    }
}

} // verus!
