//! Calendar date-times: from the text of a one-time trigger to an instant.
//!
//! A calendar text is a wall-clock reading in the machine's local time zone.
//! Reading it takes two steps that this crate leaves to `chrono`: parsing the
//! text against a format, and mapping the wall-clock reading to UTC under the
//! local time zone. Both are trusted, not proved; what is claimed of them is
//! stated on the two functions at the end of this file.

use vstd::prelude::*;

verus! {

/// The format of a calendar trigger: `YYYY-MM-DD HH:MM:SS`.
pub const CALENDAR_FORMAT: &'static str = "%Y-%m-%d %H:%M:%S";

/// Seconds in a day: local time differs from UTC by less than this.
pub const SECONDS_PER_DAY: i64 = 86_400;

/// The wall-clock reading that `chrono` parses from `text` under `format`,
/// counted in seconds from 1970-01-01 00:00:00 on the same wall clock, or
/// `None` where it refuses the text.
pub uninterp spec fn wall_clock_seconds(text: Seq<char>, format: Seq<char>) -> Option<i64>;

/// How a wall-clock reading maps to instants (seconds since the Unix epoch,
/// UTC) under the local time zone.
#[derive(Debug, Clone, Copy, PartialEq, Eq, Structural)]
pub enum LocalMapping {
    /// The reading names exactly one instant.
    Single(i64),
    /// The reading falls in a fold of local time and names two instants.
    Ambiguous(i64, i64),
    /// The reading falls in a gap of local time, or could not be resolved.
    Missing,
}

impl LocalMapping {
    /// Every instant of the mapping lies less than a day from `wall`.
    pub open spec fn within_a_day_of(self, wall: i64) -> bool {
        match self {
            LocalMapping::Single(at) => near(wall, at),
            LocalMapping::Ambiguous(first, second) => near(wall, first) && near(wall, second),
            LocalMapping::Missing => true,
        }
    }

    /// The instant of a mapping that names exactly one.
    pub open spec fn unique(self) -> Option<i64> {
        match self {
            LocalMapping::Single(at) => Some(at),
            _ => None,
        }
    }
}

/// Whether `at` lies less than a day from `wall`.
pub open spec fn near(wall: i64, at: i64) -> bool {
    wall - SECONDS_PER_DAY < at && at < wall + SECONDS_PER_DAY
}

/// Whether `reading` can be what reading the calendar text `text` yields:
/// nothing where the text does not parse, and otherwise a mapping whose
/// instants lie less than a day from the parsed wall-clock reading.
pub open spec fn reading_of(text: Seq<char>, reading: Option<LocalMapping>) -> bool {
    match wall_clock_seconds(text, CALENDAR_FORMAT@) {
        Some(wall) => reading matches Some(mapping) && mapping.within_a_day_of(wall),
        None => reading is None,
    }
}

/// The instant of a mapping that names exactly one; `None` for a reading in
/// a fold or a gap of local time.
pub fn unique_instant(mapping: LocalMapping) -> (at: Option<i64>)
    ensures
        at == mapping.unique(),
{
    match mapping {
        LocalMapping::Single(at) => Some(at),
        LocalMapping::Ambiguous(_, _) => None,
        LocalMapping::Missing => None,
    }
}

/// Reads a calendar text: parses it as `YYYY-MM-DD HH:MM:SS` and maps the
/// reading to UTC under the local time zone.
///
/// Returns `None` exactly where the text does not parse. Which mapping comes
/// back for a text that parses depends on the machine's time zone; whatever
/// it is, its instants lie less than a day from the parsed reading.
pub fn read_calendar(text: &str) -> (reading: Option<LocalMapping>)
    ensures
        reading_of(text@, reading),
{
    match parse_wall_clock(text, CALENDAR_FORMAT) {
        Some(wall) => Some(map_local_time(wall)),
        None => None,
    }
}

/// Trusted: `chrono::NaiveDateTime::parse_from_str`, followed by the
/// conversion of the parsed date-time to seconds (`and_utc().timestamp()`).
///
/// The claim is that the outcome is a function of the text and the format
/// alone, which `wall_clock_seconds` names. A leap second (`:60`) counts as
/// the second before it.
#[verifier::external_body]
fn parse_wall_clock(text: &str, format: &str) -> (seconds: Option<i64>)
    ensures
        seconds == wall_clock_seconds(text@, format@),
{
    match chrono::NaiveDateTime::parse_from_str(text, format) {
        Ok(naive) => Some(naive.and_utc().timestamp()),
        Err(_) => None,
    }
}

/// Trusted: `chrono::TimeZone::from_local_datetime` on `chrono::Local`, for
/// the wall-clock reading `wall` seconds after 1970-01-01 00:00:00, each
/// instant of the outcome taken as its Unix timestamp.
///
/// The outcome depends on the machine's time zone. The claim is only that
/// each instant is the reading less a UTC offset, and that `chrono` keeps
/// offsets strictly between minus and plus one day. A reading outside the
/// range of dates that `chrono` represents comes back as `Missing`.
#[verifier::external_body]
fn map_local_time(wall: i64) -> (mapping: LocalMapping)
    ensures
        mapping.within_a_day_of(wall),
{
    match chrono::DateTime::from_timestamp(wall, 0) {
        Some(reading) => match chrono::TimeZone::from_local_datetime(
            &chrono::Local,
            &reading.naive_utc(),
        ) {
            chrono::LocalResult::Single(at) => LocalMapping::Single(at.timestamp()),
            chrono::LocalResult::Ambiguous(first, second) => LocalMapping::Ambiguous(
                first.timestamp(),
                second.timestamp(),
            ),
            chrono::LocalResult::None => LocalMapping::Missing,
        },
        None => LocalMapping::Missing,
    }
}

} // verus!
