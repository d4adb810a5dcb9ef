//! Snowflake identifiers and the timestamps they carry.
//!
//! An identifier holds, above its lowest 22 bits, the number of milliseconds
//! that passed between the first instant of 2015 and the moment it was issued.
//! The low bits tell apart identifiers issued within one millisecond.

use vstd::prelude::*;

verus! {

/// Milliseconds from the Unix epoch to the first instant of 2015 (UTC).
pub const DISCORD_EPOCH_MS: i64 = 1420070400000;

/// Number of low bits of an identifier that do not encode time.
pub const DISCRIMINANT_BITS: u32 = 22;

/// Number of identifiers that share one millisecond: two to the power 22.
pub const DISCRIMINANT_SPAN: u64 = 4194304;

/// Number of milliseconds that fit above the low bits of a `u64`: two to the power 42.
pub const TIMESTAMP_SPAN: i64 = 4398046511104;

/// Whether an identifier can carry the instant `timestamp_ms`, given in
/// milliseconds since the Unix epoch.
pub open spec fn encodable(timestamp_ms: int) -> bool {
    DISCORD_EPOCH_MS <= timestamp_ms < DISCORD_EPOCH_MS + TIMESTAMP_SPAN
}

/// The identifier issued at `timestamp_ms` with the low bits `discriminant`.
pub open spec fn issued_id(timestamp_ms: int, discriminant: int) -> int {
    (timestamp_ms - DISCORD_EPOCH_MS) * DISCRIMINANT_SPAN + discriminant
}

/// The least identifier that can belong to the instant `timestamp_ms`.
pub open spec fn spec_lower_bound_id(timestamp_ms: int) -> int {
    issued_id(timestamp_ms, 0)
}

/// Shifting a millisecond count into place multiplies it by the span of the low bits.
proof fn lemma_shift_is_scale(elapsed: u64)
    requires
        elapsed < 4398046511104,
    ensures
        elapsed << 22 == elapsed * 4194304,
        elapsed * 4194304 <= u64::MAX,
{
    assert(elapsed << 22 == elapsed * 4194304 && elapsed * 4194304 <= 0xffff_ffff_ffff_ffff)
        by (bit_vector)
        requires
            elapsed < 4398046511104,
    ;
}

/// Converts an instant to the least identifier issued at or after it.
///
/// The low bits of the result are zero, so the result is a bound for range
/// queries and names no message.
pub fn lower_bound_id(timestamp_ms: i64) -> (id: u64)
    requires
        encodable(timestamp_ms as int),
    ensures
        id == spec_lower_bound_id(timestamp_ms as int),
        id == ((timestamp_ms - DISCORD_EPOCH_MS) as u64) << 22,
{
    let elapsed: u64 = (timestamp_ms - DISCORD_EPOCH_MS) as u64;
    proof {
        lemma_shift_is_scale(elapsed);
    }
    elapsed << DISCRIMINANT_BITS
}

/// Converts an instant to its lower-bound identifier where one exists.
pub fn checked_lower_bound_id(timestamp_ms: i64) -> (id: Option<u64>)
    ensures
        id is Some <==> encodable(timestamp_ms as int),
        id matches Some(v) ==> v == spec_lower_bound_id(timestamp_ms as int),
{
    if DISCORD_EPOCH_MS <= timestamp_ms && timestamp_ms - DISCORD_EPOCH_MS < TIMESTAMP_SPAN {
        Some(lower_bound_id(timestamp_ms))
    } else {
        None
    }
}

/// Every identifier issued at or after an instant is at least the lower bound
/// of that instant, and the bound is itself the first identifier of its
/// millisecond.
pub proof fn lemma_lower_bound_is_least(timestamp_ms: int, issued_at_ms: int, discriminant: int)
    requires
        encodable(timestamp_ms),
        encodable(issued_at_ms),
        timestamp_ms <= issued_at_ms,
        0 <= discriminant < DISCRIMINANT_SPAN,
    ensures
        spec_lower_bound_id(timestamp_ms) <= issued_id(issued_at_ms, discriminant),
        spec_lower_bound_id(timestamp_ms) == issued_id(timestamp_ms, 0),
        0 <= issued_id(issued_at_ms, discriminant) <= u64::MAX,
{
    assert((timestamp_ms - DISCORD_EPOCH_MS) * 4194304 <= (issued_at_ms - DISCORD_EPOCH_MS)
        * 4194304) by (nonlinear_arith)
        requires
            timestamp_ms <= issued_at_ms,
    ;
    assert((issued_at_ms - DISCORD_EPOCH_MS) * 4194304 <= 4398046511103 * 4194304)
        by (nonlinear_arith)
        requires
            issued_at_ms - DISCORD_EPOCH_MS <= 4398046511103,
    ;
}

/// Whether `c` is one of the digits `0` to `9`.
pub open spec fn is_digit(c: char) -> bool {
    '0' <= c && c <= '9'
}

/// The number that a run of digits writes in decimal; zero for the empty run.
pub open spec fn digits_value(digits: Seq<char>) -> nat
    decreases digits.len(),
{
    if digits.len() == 0 {
        0
    } else {
        (digits_value(digits.drop_last()) * 10 + (digits.last() as u32 - '0' as u32)) as nat
    }
}

/// Whether every character of `text` is a digit.
pub open spec fn all_digits(text: Seq<char>) -> bool {
    forall|i: int| 0 <= i < text.len() ==> is_digit(#[trigger] text[i])
}

/// The text without the plus sign in front of it, if it has one.
pub open spec fn without_sign(text: Seq<char>) -> Seq<char> {
    if text.len() > 0 && text[0] == '+' {
        text.subrange(1, text.len() as int)
    } else {
        text
    }
}

/// The identifier that `text` writes in decimal: one digit or more, with or
/// without a plus sign in front, and a value that fits in 64 bits. Any other
/// text writes none.
pub open spec fn spec_parse_id(text: Seq<char>) -> Option<u64> {
    let digits = without_sign(text);
    if digits.len() > 0 && all_digits(digits) && digits_value(digits) <= u64::MAX {
        Some(digits_value(digits) as u64)
    } else {
        None
    }
}

/// Reads an identifier written in decimal.
///
/// Calls `str::parse::<u64>`, whose documentation says that it takes an
/// optional plus sign followed by decimal digits only, and fails on the empty
/// string, on any other character and on a value beyond `u64::MAX`.
#[verifier::external_body]
pub(crate) fn parse_id(text: &str) -> (id: Option<u64>)
    ensures
        id == spec_parse_id(text@),
{
    match text.parse::<u64>() {
        Ok(id) => Some(id),
        Err(_) => None,
    }
}

} // verus!
