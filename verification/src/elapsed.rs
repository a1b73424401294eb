//! The time that has passed since an author's last message, as a number of
//! seconds and as text.

use vstd::prelude::*;
use human_repr::HumanDuration;
use serenity::model::timestamp::Timestamp;
use std::time::Duration;
use crate::error::ReportError;

verus! {

/// The earliest moment that the chat platform's timestamp type can express,
/// in seconds since the Unix epoch: the first second of the year -262143.
pub const FIRST_TIMESTAMP: i64 = -8_334_601_228_800;

/// The latest moment that the chat platform's timestamp type can express,
/// in seconds since the Unix epoch: the last second of the year 262142.
pub const LAST_TIMESTAMP: i64 = 8_210_266_876_799;

/// Whether the chat platform's timestamp type can express the moment that
/// lies `seconds` after the Unix epoch.
pub open spec fn platform_accepts(seconds: i64) -> bool {
    FIRST_TIMESTAMP <= seconds <= LAST_TIMESTAMP
}

/// The text by which `human_repr` shows a duration of whole seconds.
pub uninterp spec fn human_duration_text(seconds: u64) -> Seq<char>;

/// `Timestamp::from_unix_timestamp` of `serenity`, read back with
/// `Timestamp::unix_timestamp`. The constructor hands the seconds to the
/// calendar of `chrono`, which spans the years -262143 to 262142 and refuses
/// every moment outside them; a moment that it accepts reports the seconds
/// it was made from.
#[verifier::external_body]
pub(crate) fn checked_unix_timestamp(seconds: i64) -> (checked: Option<i64>)
    ensures
        checked == if platform_accepts(seconds) {
            Some(seconds)
        } else {
            None::<i64>
        },
{
    match Timestamp::from_unix_timestamp(seconds) {
        Ok(timestamp) => Some(timestamp.unix_timestamp()),
        Err(_) => None,
    }
}

/// `HumanDuration::human_duration` of `human_repr` on a `Duration` of whole
/// seconds, rendered through its `Display`. The text depends on the number
/// of seconds alone.
#[verifier::external_body]
pub(crate) fn human_duration(seconds: u64) -> (text: String)
    ensures
        text@ == human_duration_text(seconds),
{
    Duration::from_secs(seconds).human_duration().to_string()
}

/// The seconds between a checked timestamp and `now`: an error where the
/// timestamp was refused or lies after `now`, their difference otherwise.
pub open spec fn idle_time(checked: Option<i64>, now: i64) -> Result<u64, ReportError> {
    match checked {
        None => Err(ReportError::TimestampOutOfRange),
        Some(timestamp) => if timestamp > now {
            Err(ReportError::TimestampInFuture)
        } else {
            Ok((now - timestamp) as u64)
        },
    }
}

/// The seconds from `earlier` to `later`.
pub(crate) fn seconds_between(earlier: i64, later: i64) -> (seconds: u64)
    requires
        earlier <= later,
    ensures
        seconds == later - earlier,
{
    if earlier >= 0 || later < 0 {
        (later - earlier) as u64
    } else {
        // A negative start and a non-negative end: the difference may
        // exceed the signed range.
        let below: u64 = (-(earlier + 1)) as u64 + 1;
        later as u64 + below
    }
}

/// How long an author has been idle at time `now`, given their last-seen
/// timestamp as the platform's timestamp type reports it.
pub fn idle_seconds(checked: Option<i64>, now: i64) -> (idle: Result<u64, ReportError>)
    ensures
        idle == idle_time(checked, now),
{
    match checked {
        None => Err(ReportError::TimestampOutOfRange),
        Some(timestamp) => {
            if timestamp > now {
                Err(ReportError::TimestampInFuture)
            } else {
                Ok(seconds_between(timestamp, now))
            }
        },
    }
}

} // verus!
