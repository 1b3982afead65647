//! Naive UTC timestamps with microsecond resolution.

use vstd::prelude::*;

verus! {

/// A point in time without a time zone: the microseconds since
/// 1970-01-01T00:00:00. Timestamps are ordered by that count.
#[derive(Clone, Copy, Debug, PartialEq, Eq, Structural)]
pub struct Timestamp {
    pub micros: i64,
}

/// The timestamp that `chrono` gives for a calendar date and a time of day, in
/// microseconds since 1970-01-01T00:00:00; `None` where the date or the time
/// does not exist.
pub uninterp spec fn civil_micros(
    year: int,
    month: int,
    day: int,
    hour: int,
    minute: int,
    second: int,
) -> Option<int>;

impl Timestamp {
    /// 1970-01-01T00:00:00.
    pub fn epoch() -> (r: Timestamp)
        ensures
            r.micros == 0,
    {
        Timestamp { micros: 0 }
    }

    /// The timestamp that many microseconds after 1970-01-01T00:00:00.
    pub fn from_micros(micros: i64) -> (r: Timestamp)
        ensures
            r.micros == micros,
    {
        Timestamp { micros }
    }

    /// Strictly earlier than `other`.
    pub open spec fn before(self, other: Timestamp) -> bool {
        self.micros < other.micros
    }

    /// Whether the timestamp is strictly earlier than `other`.
    #[verifier::when_used_as_spec(before)]
    pub fn is_before(self, other: Timestamp) -> (r: bool)
        ensures
            r == self.before(other),
    {
        self.micros < other.micros
    }

    /// The current time. Nothing is known of it in advance.
    pub fn now() -> Timestamp {
        Timestamp { micros: clock_micros() }
    }

    /// The timestamp of a calendar date and a time of day.
    pub fn from_civil(year: i32, month: u32, day: u32, hour: u32, minute: u32, second: u32) -> (r:
        Option<Timestamp>)
        ensures
            match r {
                Some(t) => civil_micros(
                    year as int,
                    month as int,
                    day as int,
                    hour as int,
                    minute as int,
                    second as int,
                ) == Some(t.micros as int),
                None => civil_micros(
                    year as int,
                    month as int,
                    day as int,
                    hour as int,
                    minute as int,
                    second as int,
                ) is None,
            },
    {
        match civil_to_micros(year, month, day, hour, minute, second) {
            Some(micros) => Some(Timestamp { micros }),
            None => None,
        }
    }
}

/// `chrono::Utc::now()`, in microseconds since 1970-01-01T00:00:00 UTC. The
/// result depends on the clock, so nothing is stated of it.
#[verifier::external_body]
fn clock_micros() -> i64 {
    chrono::Utc::now().naive_utc().and_utc().timestamp_micros()
}

/// `NaiveDate::from_ymd_opt` followed by `NaiveDate::and_hms_opt`, the result
/// in microseconds since 1970-01-01T00:00:00: `None` where `chrono` rejects the
/// date or the time of day.
#[verifier::external_body]
fn civil_to_micros(year: i32, month: u32, day: u32, hour: u32, minute: u32, second: u32) -> (r:
    Option<i64>)
    ensures
        match r {
            Some(m) => civil_micros(
                year as int,
                month as int,
                day as int,
                hour as int,
                minute as int,
                second as int,
            ) == Some(m as int),
            None => civil_micros(
                year as int,
                month as int,
                day as int,
                hour as int,
                minute as int,
                second as int,
            ) is None,
        },
{
    let date = chrono::NaiveDate::from_ymd_opt(year, month, day)?;
    let time = date.and_hms_opt(hour, minute, second)?;
    Some(time.and_utc().timestamp_micros())
}

} // verus!
