//! Catalog events and their expiry. An event carries calendar dates and an
//! optional IANA timezone; its end instant is the midnight after its last
//! day in that timezone, falling back to one o'clock when midnight does not
//! exist, converted to UTC microseconds.

use vstd::prelude::*;

verus! {

/// A calendar date, no time.
#[derive(Clone, Copy, PartialEq, Eq, Structural)]
pub struct Date {
    pub year: i32,
    pub month: u8,
    pub day: u8,
}

/// A proleptic-Gregorian leap year.
pub open spec fn spec_leap_year(y: int) -> bool {
    (y % 4 == 0 && y % 100 != 0) || y % 400 == 0
}

/// The number of days in a month.
pub open spec fn spec_days_in_month(y: int, m: int) -> int {
    if m == 2 {
        if spec_leap_year(y) {
            29
        } else {
            28
        }
    } else if m == 4 || m == 6 || m == 9 || m == 11 {
        30
    } else {
        31
    }
}

/// A date that exists on the calendar.
pub open spec fn date_valid(d: Date) -> bool {
    &&& 1 <= d.month <= 12
    &&& 1 <= d.day <= spec_days_in_month(d.year as int, d.month as int)
}

/// The day after a date.
pub open spec fn spec_date_succ(d: Date) -> Date {
    if d.day < spec_days_in_month(d.year as int, d.month as int) {
        Date { year: d.year, month: d.month, day: (d.day + 1) as u8 }
    } else if d.month < 12 {
        Date { year: d.year, month: (d.month + 1) as u8, day: 1 }
    } else {
        Date { year: (d.year + 1) as i32, month: 1, day: 1 }
    }
}

/// Dates in calendar order.
pub open spec fn date_le(a: Date, b: Date) -> bool {
    if a.year != b.year {
        a.year < b.year
    } else if a.month != b.month {
        a.month < b.month
    } else {
        a.day <= b.day
    }
}

impl Date {
    /// The day after this date.
    pub fn succ(&self) -> (r: Date)
        requires
            date_valid(*self),
            self.year < i32::MAX,
        ensures
            r == spec_date_succ(*self),
            date_valid(r),
    {
        let dim = days_in_month(self.year, self.month);
        if self.day < dim {
            Date { year: self.year, month: self.month, day: self.day + 1 }
        } else if self.month < 12 {
            Date { year: self.year, month: self.month + 1, day: 1 }
        } else {
            Date { year: self.year + 1, month: 1, day: 1 }
        }
    }

    /// Whether this date comes no later than `other`.
    pub fn le(&self, other: &Date) -> (r: bool)
        ensures
            r == date_le(*self, *other),
    {
        if self.year != other.year {
            self.year < other.year
        } else if self.month != other.month {
            self.month < other.month
        } else {
            self.day <= other.day
        }
    }
}

fn days_in_month(y: i32, m: u8) -> (r: u8)
    requires
        1 <= m <= 12,
    ensures
        r == spec_days_in_month(y as int, m as int),
{
    if m == 2 {
        if (y % 4 == 0 && y % 100 != 0) || y % 400 == 0 {
            29
        } else {
            28
        }
    } else if m == 4 || m == 6 || m == 9 || m == 11 {
        30
    } else {
        31
    }
}

/// The UTC instant, in microseconds, of the given wall-clock hour on the
/// given date in the named timezone; `None` when the timezone skips that
/// wall-clock time or the date lies outside the supported range. An
/// unrecognized timezone name is read as UTC.
pub uninterp spec fn local_instant_of(
    tz: Seq<char>,
    year: int,
    month: int,
    day: int,
    hour: int,
) -> Option<int>;

/// Relies on `chrono_tz::Tz` and `chrono`'s local-time resolution: maps a
/// wall-clock hour on a date in a timezone to UTC microseconds, `None` on
/// a DST gap or an out-of-range date; an unrecognized name falls back to
/// UTC.
#[verifier::external_body]
pub fn local_instant(tz: &str, year: i32, month: u8, day: u8, hour: u8) -> (r: Option<i64>)
    ensures
        match r {
            Some(t) => local_instant_of(tz@, year as int, month as int, day as int, hour as int)
                == Some(t as int),
            None => local_instant_of(tz@, year as int, month as int, day as int, hour as int)
                is None,
        },
{
    let tz: chrono_tz::Tz = tz.parse().unwrap_or(chrono_tz::UTC);
    let date = chrono::NaiveDate::from_ymd_opt(year, month as u32, day as u32)?;
    let time = chrono::NaiveTime::from_hms_opt(hour as u32, 0, 0)?;
    let dt = date.and_time(time).and_local_timezone(tz).earliest()?;
    Some(dt.to_utc().timestamp_micros())
}

/// The serialized form of a UTC instant: an RFC 3339 timestamp with
/// microsecond precision and a `Z` suffix.
pub uninterp spec fn rfc3339_of(us: int) -> Seq<char>;

/// Relies on `chrono::DateTime::to_rfc3339_opts`: formats a microsecond
/// UTC timestamp, a function of the instant alone. Instants up to the year
/// 9999 are documented to be representable.
#[verifier::external_body]
pub fn rfc3339_micros(us: i64) -> (r: Option<String>)
    ensures
        r matches Some(s) ==> s@ == rfc3339_of(us as int),
        0 <= us <= 253402300799999999 ==> r is Some,
{
    let dt = chrono::DateTime::from_timestamp_micros(us)?;
    Some(dt.to_rfc3339_opts(chrono::SecondsFormat::Micros, true))
}

/// One event from the external catalog, with its derived label identifier
/// and, once published, the record key of the labeler's own post for it.
pub struct Event {
    pub id: String,
    pub name: String,
    pub venue: String,
    pub address: Option<String>,
    pub country: Option<String>,
    pub start_date: Date,
    pub end_date: Date,
    pub timezone: Option<String>,
    pub label_id: String,
    pub rkey: Option<String>,
}

/// Seven days, in microseconds: how long past its end an event's labels
/// stay meaningful.
pub open spec fn spec_grace_period() -> int {
    604800000000
}

/// Two days, in microseconds: the margin added for events whose timezone
/// is unknown.
pub open spec fn spec_unknown_tz_margin() -> int {
    172800000000
}

/// What an event's end instant is: midnight after its last day in its
/// timezone (or UTC when it has none), one o'clock when midnight does not
/// exist there, `None` when neither exists.
pub open spec fn spec_end_time(end_date: Date, timezone: Option<Seq<char>>) -> Option<int> {
    let next = spec_date_succ(end_date);
    let tz = match timezone {
        Some(t) => t,
        None => "UTC"@,
    };
    match local_instant_of(tz, next.year as int, next.month as int, next.day as int, 0) {
        Some(t) => Some(t),
        None => local_instant_of(tz, next.year as int, next.month as int, next.day as int, 1),
    }
}

impl Event {
    /// The instant this event is over: midnight after its last day in its
    /// timezone, converted to UTC; one o'clock when that midnight is
    /// skipped by a DST transition.
    pub fn end_time(&self) -> (r: Option<i64>)
        requires
            date_valid(self.end_date),
            self.end_date.year < i32::MAX,
        ensures
            match r {
                Some(t) => spec_end_time(self.end_date, self.timezone_view()) == Some(t as int),
                None => spec_end_time(self.end_date, self.timezone_view()) is None,
            },
    {
        proof {
            reveal_strlit("UTC");
        }
        let next = self.end_date.succ();
        let tz: &str = match &self.timezone {
            Some(t) => t.as_str(),
            None => "UTC",
        };
        match local_instant(tz, next.year, next.month, next.day, 0) {
            Some(t) => Some(t),
            None => local_instant(tz, next.year, next.month, next.day, 1),
        }
    }

    /// The timezone as the contracts see it.
    pub open spec fn timezone_view(&self) -> Option<Seq<char>> {
        match self.timezone {
            Some(t) => Some(t@),
            None => None,
        }
    }

    /// Whether this event is still worth labeling at `now`: its end, plus
    /// seven days of grace, has not passed. An event without a timezone is
    /// read as UTC and granted two more days, to tolerate zones far ahead.
    /// An event whose end instant cannot be computed is kept.
    pub fn is_current(&self, now_us: i64) -> (r: bool)
        requires
            date_valid(self.end_date),
            self.end_date.year < i32::MAX,
        ensures
            r == spec_is_current(self.end_date, self.timezone_view(), now_us as int),
    {
        let margin: i64 = if self.timezone.is_some() {
            604800000000
        } else {
            777600000000
        };
        match self.end_time() {
            Some(t) => {
                if t >= i64::MAX - margin {
                    true
                } else {
                    now_us < t + margin
                }
            },
            None => true,
        }
    }
}

/// Whether an event still counts at `now`: its end instant plus the grace
/// period (and the extra margin when its timezone is unknown) lies in the
/// future. Events whose end instant cannot be computed, or overflows the
/// clock's range, are kept.
pub open spec fn spec_is_current(end_date: Date, timezone: Option<Seq<char>>, now: int) -> bool {
    let margin = if timezone is Some {
        spec_grace_period()
    } else {
        spec_grace_period() + spec_unknown_tz_margin()
    };
    match spec_end_time(end_date, timezone) {
        Some(t) => t >= i64::MAX - margin || now < t + margin,
        None => true,
    }
}

} // verus!
