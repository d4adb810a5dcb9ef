//! The bounds of a download as the user writes them: an identifier, a
//! calendar date, or a date and time with an offset.

use crate::snowflake::{
    checked_lower_bound_id, encodable, parse_id, spec_lower_bound_id, spec_parse_id,
};
use vstd::prelude::*;

verus! {

/// The error with which `chrono` rejects a text.
#[verifier::external_type_specification]
#[verifier::external_body]
pub struct ExParseError(chrono::ParseError);

/// The number of milliseconds in a day.
pub const DAY_MS: i64 = 86400000;

/// The format of a calendar date: year, month and day, as in `2022-03-01`.
pub const DATE_FORMAT: &'static str = "%F";

/// The format of a date and time with an offset, as in `2022-03-01T12:00:00+01:00`.
pub const TIMESTAMP_FORMAT: &'static str = "%+";

/// The day that `chrono` reads from `text` under the format `format`, counted
/// from 1 January 1970; `None` where `chrono` rejects the text.
pub uninterp spec fn chrono_date_days(text: Seq<char>, format: Seq<char>) -> Option<i32>;

/// The instant that `chrono` reads from `text` under the format `format`, in
/// milliseconds since the Unix epoch; `None` where `chrono` rejects the text.
pub uninterp spec fn chrono_timestamp_millis(text: Seq<char>, format: Seq<char>) -> Option<i64>;

/// Reads a calendar date and hands back its day number.
///
/// Calls `chrono::NaiveDate::parse_from_str` and, on the date it returns,
/// `NaiveDate::to_epoch_days`. The contract gives the outcome a name and says
/// nothing more of it.
#[verifier::external_body]
fn parse_date_days(text: &str, format: &str) -> (r: Result<i32, chrono::ParseError>)
    ensures
        match r {
            Ok(days) => chrono_date_days(text@, format@) == Some(days),
            Err(_) => chrono_date_days(text@, format@) is None,
        },
{
    match chrono::NaiveDate::parse_from_str(text, format) {
        Ok(date) => Ok(date.to_epoch_days()),
        Err(e) => Err(e),
    }
}

/// Reads a date and time with an offset and hands back the instant.
///
/// Calls `chrono::DateTime::parse_from_str` and, on the value it returns,
/// `DateTime::timestamp_millis`. The contract gives the outcome a name and
/// says nothing more of it.
#[verifier::external_body]
fn parse_timestamp_millis(text: &str, format: &str) -> (r: Result<i64, chrono::ParseError>)
    ensures
        match r {
            Ok(millis) => chrono_timestamp_millis(text@, format@) == Some(millis),
            Err(_) => chrono_timestamp_millis(text@, format@) is None,
        },
{
    match chrono::DateTime::parse_from_str(text, format) {
        Ok(instant) => Ok(instant.timestamp_millis()),
        Err(e) => Err(e),
    }
}

/// A bound of a download.
#[derive(Clone, Copy, Debug, PartialEq, Eq, Structural)]
pub enum MessageInput {
    /// An identifier, taken as it is.
    Id(u64),
    /// An instant, in milliseconds since the Unix epoch (UTC).
    DateTime(i64),
}

/// A text that is neither an identifier nor a date nor a date and time.
pub struct InputError {
    /// Why the text is no date and time.
    pub cause: chrono::ParseError,
}

/// The first instant of the day with the number `days`, in milliseconds since
/// the Unix epoch.
pub open spec fn midnight_millis(days: int) -> int {
    days * DAY_MS
}

/// The instant that `text` writes as a calendar date or as a date and time.
/// A calendar date stands for its first instant.
pub open spec fn spec_parse_instant(text: Seq<char>) -> Option<i64> {
    match chrono_date_days(text, DATE_FORMAT@) {
        Some(days) => Some(midnight_millis(days as int) as i64),
        None => chrono_timestamp_millis(text, TIMESTAMP_FORMAT@),
    }
}

/// The bound that `text` writes: an identifier where the text is a decimal
/// number, else an instant.
pub open spec fn spec_parse_input(text: Seq<char>) -> Option<MessageInput> {
    match spec_parse_id(text) {
        Some(id) => Some(MessageInput::Id(id)),
        None => match spec_parse_instant(text) {
            Some(millis) => Some(MessageInput::DateTime(millis)),
            None => None,
        },
    }
}

/// The identifier that a bound stands for; an instant that no identifier can
/// carry stands for none.
pub open spec fn spec_to_id(input: MessageInput) -> Option<u64> {
    match input {
        MessageInput::Id(id) => Some(id),
        MessageInput::DateTime(millis) => if encodable(millis as int) {
            Some(spec_lower_bound_id(millis as int) as u64)
        } else {
            None
        },
    }
}

/// The identifiers between which a download runs when the user gave the
/// bounds `after` and `before` at the instant `now_ms`: a lower bound that is
/// left out is zero, an upper bound that is left out is the present. There is
/// no window where a bound stands for no identifier.
pub open spec fn spec_resolve_window(
    after: Option<MessageInput>,
    before: Option<MessageInput>,
    now_ms: i64,
) -> Option<(u64, u64)> {
    let lower = match after {
        Some(input) => spec_to_id(input),
        None => Some(0u64),
    };
    let upper = match before {
        Some(input) => spec_to_id(input),
        None => spec_to_id(MessageInput::DateTime(now_ms)),
    };
    match (lower, upper) {
        (Some(lower), Some(upper)) => Some((lower, upper)),
        _ => None,
    }
}

/// Turns the bounds that the user gave into the identifiers between which the
/// download runs. `now_ms` is the present, in milliseconds since the Unix
/// epoch.
pub fn resolve_window(
    after: Option<MessageInput>,
    before: Option<MessageInput>,
    now_ms: i64,
) -> (window: Option<(u64, u64)>)
    ensures
        window == spec_resolve_window(after, before, now_ms),
{
    let lower: Option<u64> = match after {
        Some(input) => input.to_id(),
        None => Some(0),
    };
    let upper: Option<u64> = match before {
        Some(input) => input.to_id(),
        None => MessageInput::DateTime(now_ms).to_id(),
    };
    match (lower, upper) {
        (Some(lower), Some(upper)) => Some((lower, upper)),
        _ => None,
    }
}

impl MessageInput {
    /// The first instant of the day with the number `days`, counted from
    /// 1 January 1970.
    pub fn from_date_days(days: i32) -> (input: MessageInput)
        ensures
            input == MessageInput::DateTime(midnight_millis(days as int) as i64),
            i64::MIN <= midnight_millis(days as int) <= i64::MAX,
    {
        let days_wide: i64 = days as i64;
        MessageInput::DateTime(days_wide * DAY_MS)
    }

    /// Reads a bound: a decimal identifier, or a calendar date, or a date and
    /// time with an offset, tried in this order.
    pub fn from_str(text: &str) -> (r: Result<MessageInput, InputError>)
        ensures
            match r {
                Ok(input) => spec_parse_input(text@) == Some(input),
                Err(_) => spec_parse_input(text@) is None,
            },
    {
        match parse_id(text) {
            Some(id) => Ok(MessageInput::Id(id)),
            None => match parse_date_days(text, DATE_FORMAT) {
                Ok(days) => Ok(MessageInput::from_date_days(days)),
                Err(_) => match parse_timestamp_millis(text, TIMESTAMP_FORMAT) {
                    Ok(millis) => Ok(MessageInput::DateTime(millis)),
                    Err(cause) => Err(InputError { cause }),
                },
            },
        }
    }

    /// The identifier that the bound stands for: the identifier itself, or the
    /// least identifier issued at or after the instant. An instant before the
    /// identifiers begin, or beyond what they can carry, has none.
    pub fn to_id(&self) -> (id: Option<u64>)
        ensures
            id == spec_to_id(*self),
    {
        match self {
            MessageInput::Id(id) => Some(*id),
            MessageInput::DateTime(millis) => checked_lower_bound_id(*millis),
        }
    }
}

} // verus!
