//! Points in time, their ages and their textual forms.

use crate::text::{decimal, join, to_decimal};
use vstd::prelude::*;

verus! {

/// The first and the last second since the epoch that a timestamp can hold.
pub const FIRST_SECOND: i64 = -8_334_601_228_800;

pub const LAST_SECOND: i64 = 8_210_266_876_799;

/// Whether the pair is a point in time: seconds since the epoch, and
/// nanoseconds within that second. A leap second follows the last second of
/// a minute and is held as a nanosecond count of a billion or more.
pub open spec fn is_instant(seconds: int, nanos: int) -> bool {
    &&& FIRST_SECOND <= seconds <= LAST_SECOND
    &&& 0 <= nanos
    &&& nanos < 1_000_000_000 || (nanos < 2_000_000_000 && seconds % 60 == 59)
}

/// A point in time, UTC.
#[derive(Debug, Clone, Copy, PartialEq, Eq)]
pub struct Timestamp {
    seconds: i64,
    nanos: u32,
}

impl View for Timestamp {
    type V = (int, int);

    closed spec fn view(&self) -> (int, int) {
        (self.seconds as int, self.nanos as int)
    }
}

impl Timestamp {
    #[verifier::type_invariant]
    spec fn well_formed(self) -> bool {
        is_instant(self.seconds as int, self.nanos as int)
    }

    /// The point `seconds` and `nanos` after the epoch, if it is one.
    pub fn new(seconds: i64, nanos: u32) -> (r: Option<Timestamp>)
        ensures
            r is Some == is_instant(seconds as int, nanos as int),
            r is Some ==> r->0@ == (seconds as int, nanos as int),
    {
        let minute_end = if seconds >= 0 {
            seconds % 60 == 59
        } else {
            seconds > FIRST_SECOND && (seconds + 1) % 60 == 0
        };
        proof {
            if seconds < 0 && seconds > FIRST_SECOND {
                assert((seconds + 1) % 60 == 0 <==> seconds as int % 60 == 59);
            }
        }
        if FIRST_SECOND <= seconds && seconds <= LAST_SECOND && (nanos < 1_000_000_000 || (nanos
            < 2_000_000_000 && minute_end)) {
            Some(Timestamp { seconds, nanos })
        } else {
            None
        }
    }

    /// Seconds since the epoch.
    pub fn seconds(&self) -> (r: i64)
        ensures
            r == self@.0,
    {
        self.seconds
    }

    /// Nanoseconds within the second.
    pub fn nanos(&self) -> (r: u32)
        ensures
            r == self@.1,
    {
        self.nanos
    }
}

/// The whole seconds from one point in time to another, rounded toward
/// zero. A leap second counts when the later time of day lies past it.
pub open spec fn whole_seconds(from: (int, int), to: (int, int)) -> int {
    let leap: int = if to.0 % 86_400 > from.0 % 86_400 && from.1 >= 1_000_000_000 {
        1
    } else if to.0 % 86_400 < from.0 % 86_400 && to.1 >= 1_000_000_000 {
        -1
    } else {
        0
    };
    let seconds = to.0 - from.0 + leap + (to.1 - from.1) / 1_000_000_000;
    let nanos = (to.1 - from.1) % 1_000_000_000;
    if seconds < 0 && nanos > 0 {
        seconds + 1
    } else {
        seconds
    }
}

/// `chrono::DateTime::signed_duration_since` measures the time from one
/// point to the other and `TimeDelta::num_seconds` rounds it toward zero;
/// `DateTime::from_timestamp` makes the points from their parts.
#[verifier::external_body]
fn chrono_seconds_between(
    from_seconds: i64,
    from_nanos: u32,
    to_seconds: i64,
    to_nanos: u32,
) -> (r: i64)
    requires
        is_instant(from_seconds as int, from_nanos as int),
        is_instant(to_seconds as int, to_nanos as int),
    ensures
        r == whole_seconds(
            (from_seconds as int, from_nanos as int),
            (to_seconds as int, to_nanos as int),
        ),
{
    let from = chrono::DateTime::from_timestamp(from_seconds, from_nanos).unwrap();
    let to = chrono::DateTime::from_timestamp(to_seconds, to_nanos).unwrap();
    to.signed_duration_since(from).num_seconds()
}

/// An age of so many seconds as a compact text like "2h" or "3d".
pub open spec fn age_text(seconds: int) -> Seq<char> {
    if seconds < 60 {
        "now"@
    } else if seconds < 3600 {
        decimal((seconds / 60) as nat) + "m"@
    } else if seconds < 86_400 {
        decimal((seconds / 3600) as nat) + "h"@
    } else {
        decimal((seconds / 86_400) as nat) + "d"@
    }
}

/// The text for an age of so many seconds.
pub fn age_label(seconds: i64) -> (out: String)
    ensures
        out@ == age_text(seconds as int),
{
    if seconds < 60 {
        "now".to_owned()
    } else if seconds < 3600 {
        join(to_decimal((seconds / 60) as u64).as_str(), "m")
    } else if seconds < 86_400 {
        join(to_decimal((seconds / 3600) as u64).as_str(), "h")
    } else {
        join(to_decimal((seconds / 86_400) as u64).as_str(), "d")
    }
}

/// Compact relative age like "2h" or "3d".
pub fn relative_age(updated_at: Timestamp, now: Timestamp) -> (out: String)
    ensures
        out@ == age_text(whole_seconds(updated_at@, now@)),
{
    proof {
        use_type_invariant(updated_at);
        use_type_invariant(now);
    }
    let seconds = chrono_seconds_between(
        updated_at.seconds,
        updated_at.nanos,
        now.seconds,
        now.nanos,
    );
    age_label(seconds)
}

/// The point in time that an RFC 3339 text denotes.
pub uninterp spec fn rfc3339_instant(raw: Seq<char>) -> Option<(int, int)>;

/// The point in time, read as UTC, that a text in the given format denotes.
pub uninterp spec fn formatted_instant(raw: Seq<char>, format: Seq<char>) -> Option<(int, int)>;

pub open spec fn instant_opt(parts: Option<(i64, u32)>) -> Option<(int, int)> {
    match parts {
        Some(p) => Some((p.0 as int, p.1 as int)),
        None => None,
    }
}

/// `chrono::DateTime::parse_from_rfc3339` reads a date and time with an
/// offset; `timestamp` and `timestamp_subsec_nanos` give its parts in UTC.
/// The contract names what is read and says that it is a point in time.
#[verifier::external_body]
fn parse_rfc3339(raw: &str) -> (r: Option<(i64, u32)>)
    ensures
        instant_opt(r) == rfc3339_instant(raw@),
        r matches Some(p) ==> is_instant(p.0 as int, p.1 as int),
{
    let parsed = chrono::DateTime::parse_from_rfc3339(raw).ok()?;
    Some((parsed.timestamp(), parsed.timestamp_subsec_nanos()))
}

/// `chrono::NaiveDateTime::parse_from_str` reads a date and time without an
/// offset in a `strftime` format, and `and_utc` takes it as UTC. The
/// contract names what is read and says that it is a point in time.
#[verifier::external_body]
fn parse_formatted(raw: &str, format: &str) -> (r: Option<(i64, u32)>)
    ensures
        instant_opt(r) == formatted_instant(raw@, format@),
        r matches Some(p) ==> is_instant(p.0 as int, p.1 as int),
{
    let parsed = chrono::NaiveDateTime::parse_from_str(raw, format).ok()?.and_utc();
    Some((parsed.timestamp(), parsed.timestamp_subsec_nanos()))
}

pub open spec fn view_opt(t: Option<Timestamp>) -> Option<(int, int)> {
    match t {
        Some(t) => Some(t@),
        None => None,
    }
}

/// The point in time that a stored text denotes: RFC 3339 first, then the
/// two offset-free forms, read as UTC.
pub open spec fn stored_instant(raw: Seq<char>) -> Option<(int, int)> {
    match rfc3339_instant(raw) {
        Some(t) => Some(t),
        None => match formatted_instant(raw, "%Y-%m-%dT%H:%M:%S%.f"@) {
            Some(t) => Some(t),
            None => formatted_instant(raw, "%Y-%m-%d %H:%M:%S%.f"@),
        },
    }
}

/// The first of three readings that succeeded.
pub fn first_reading(
    zoned: Option<(i64, u32)>,
    with_t: Option<(i64, u32)>,
    with_space: Option<(i64, u32)>,
) -> (r: Option<(i64, u32)>)
    ensures
        r == (if zoned is Some {
            zoned
        } else if with_t is Some {
            with_t
        } else {
            with_space
        }),
{
    if zoned.is_some() {
        zoned
    } else if with_t.is_some() {
        with_t
    } else {
        with_space
    }
}

pub fn parse_timestamp(raw: &str) -> (r: Option<Timestamp>)
    ensures
        view_opt(r) == stored_instant(raw@),
{
    let parts = first_reading(
        parse_rfc3339(raw),
        parse_formatted(raw, "%Y-%m-%dT%H:%M:%S%.f"),
        parse_formatted(raw, "%Y-%m-%d %H:%M:%S%.f"),
    );
    match parts {
        Some((seconds, nanos)) => Timestamp::new(seconds, nanos),
        None => None,
    }
}

/// The RFC 3339 text of a point in time, in UTC.
pub uninterp spec fn rfc3339_text(seconds: int, nanos: int) -> Seq<char>;

/// The year and month of a point in time, in UTC, like "2026-07".
pub uninterp spec fn month_text(seconds: int, nanos: int) -> Seq<char>;

/// `chrono::Utc::now` reads the clock. Nothing is claimed of the reading but
/// that it is a point in time.
#[verifier::external_body]
fn clock_reading() -> (r: (i64, u32))
    ensures
        is_instant(r.0 as int, r.1 as int),
{
    let now = chrono::Utc::now();
    (now.timestamp(), now.timestamp_subsec_nanos())
}

/// `chrono::DateTime::to_rfc3339` writes a point in time as text. The
/// contract names the text, which depends on the point alone, and says that
/// a `T` parts the date from the time of day.
#[verifier::external_body]
fn format_rfc3339(seconds: i64, nanos: u32) -> (r: String)
    requires
        is_instant(seconds as int, nanos as int),
    ensures
        r@ == rfc3339_text(seconds as int, nanos as int),
        r@.contains('T'),
{
    chrono::DateTime::from_timestamp(seconds, nanos).unwrap().to_rfc3339()
}

/// `chrono::DateTime::format` with `%Y-%m` writes the year and month of a
/// point in time. The contract names the text, which depends on the point
/// alone.
#[verifier::external_body]
fn format_month(seconds: i64, nanos: u32) -> (r: String)
    requires
        is_instant(seconds as int, nanos as int),
    ensures
        r@ == month_text(seconds as int, nanos as int),
{
    chrono::DateTime::from_timestamp(seconds, nanos).unwrap().format("%Y-%m").to_string()
}

/// The current point in time.
pub fn now() -> (r: Timestamp)
    ensures
        is_instant(r@.0, r@.1),
{
    let (seconds, nanos) = clock_reading();
    Timestamp { seconds, nanos }
}

impl Timestamp {
    /// The RFC 3339 text of this point in time.
    pub fn to_rfc3339(&self) -> (r: String)
        ensures
            r@ == rfc3339_text(self@.0, self@.1),
            r@.contains('T'),
    {
        proof {
            use_type_invariant(self);
        }
        format_rfc3339(self.seconds, self.nanos)
    }

    /// The year and month of this point in time, like "2026-07".
    pub fn month(&self) -> (r: String)
        ensures
            r@ == month_text(self@.0, self@.1),
    {
        proof {
            use_type_invariant(self);
        }
        format_month(self.seconds, self.nanos)
    }
}

} // verus!
