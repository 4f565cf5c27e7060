//! How an entry's age is shown.
use vstd::prelude::*;

use crate::text::{decimal, push_str, u64_to_decimal};

verus! {

/// Microseconds in a day.
pub open spec fn micros_per_day() -> int {
    86_400_000_000
}

/// The month (1 to 12) and day of the month (1 to 31) of the date `days`
/// days after 1970-01-01, in the proleptic Gregorian calendar. Days are
/// counted in 400-year eras from 0000-03-01, so that the leap day ends each
/// year of the count.
pub open spec fn civil_month_day(days: int) -> (int, int) {
    let z = days + 719468;
    let era = z / 146097;
    let doe = z - era * 146097;
    let yoe = (doe - doe / 1460 + doe / 36524 - doe / 146096) / 365;
    let doy = doe - (365 * yoe + yoe / 4 - yoe / 100);
    let mp = (5 * doy + 2) / 153;
    let d = doy - (153 * mp + 2) / 5 + 1;
    let m = if mp < 10 {
        mp + 3
    } else {
        mp - 9
    };
    (m, d)
}

/// The English abbreviation of a month (1 to 12).
pub open spec fn month_abbrev(m: int) -> Seq<char> {
    if m == 1 {
        "Jan"@
    } else if m == 2 {
        "Feb"@
    } else if m == 3 {
        "Mar"@
    } else if m == 4 {
        "Apr"@
    } else if m == 5 {
        "May"@
    } else if m == 6 {
        "Jun"@
    } else if m == 7 {
        "Jul"@
    } else if m == 8 {
        "Aug"@
    } else if m == 9 {
        "Sep"@
    } else if m == 10 {
        "Oct"@
    } else if m == 11 {
        "Nov"@
    } else {
        "Dec"@
    }
}

/// A number below 100 as two decimal digits.
pub open spec fn two_digits(n: int) -> Seq<char> {
    seq![((n / 10) + 48) as char, ((n % 10) + 48) as char]
}

/// The UTC date and time `micros` (microseconds since the Unix epoch) as
/// `%b %d, %H:%M` writes it: "Jan 05, 09:03".
pub open spec fn date_text(micros: int) -> Seq<char> {
    let (m, d) = civil_month_day(micros / micros_per_day());
    let secs = (micros % micros_per_day()) / 1_000_000;
    month_abbrev(m) + " "@ + two_digits(d) + ", "@ + two_digits(secs / 3600) + ":"@
        + two_digits((secs % 3600) / 60)
}

/// Times that chrono can certainly represent: within about 250,000 years of
/// 1970 (chrono's dates reach the years -262144 and 262143).
pub open spec fn date_in_range(micros: int) -> bool {
    -8_000_000_000_000_000_000 <= micros <= 8_000_000_000_000_000_000
}

/// `DateTime::<Utc>::from_timestamp_micros(micros)` formatted with `fmt`
/// (`.format(fmt).to_string()`), which must be `%b %d, %H:%M`; `None` when
/// the time is out of chrono's range. With that format chrono writes the
/// English month abbreviation, then the day, hour and minute as two digits.
/// Where exactly chrono's range ends is left unsaid; it holds every time
/// within `date_in_range`. With other formats chrono's `to_string` can panic.
#[verifier::external_body]
fn format_utc_micros(micros: i64, fmt: &str) -> (res: Option<String>)
    requires
        fmt@ == "%b %d, %H:%M"@,
    ensures
        res matches Some(s) ==> s@ == date_text(micros as int),
        date_in_range(micros as int) ==> res is Some,
{
    match chrono::DateTime::from_timestamp_micros(micros) {
        Some(d) => Some(d.format(fmt).to_string()),
        None => None,
    }
}

/// How long ago an entry was copied, as shown next to it.
#[derive(Debug, Clone, Copy, PartialEq, Eq, Structural)]
pub enum AgeLabel {
    /// Less than a minute ago (or in the future).
    JustNow,
    /// This many whole minutes ago, less than an hour.
    MinutesAgo(u64),
    /// This many whole hours ago, less than a day.
    HoursAgo(u64),
    /// A day or more ago: shown as a date.
    Date,
}

/// Whole seconds from `created_at` to `now` (both in microseconds), rounded
/// toward zero.
pub open spec fn elapsed_seconds(created_at: int, now: int) -> int {
    let d = now - created_at;
    if d >= 0 {
        d / 1_000_000
    } else {
        -((-d) / 1_000_000)
    }
}

/// The age label of an entry copied at `created_at`, seen at `now`.
pub open spec fn age_label(created_at: int, now: int) -> AgeLabel {
    let secs = elapsed_seconds(created_at, now);
    if secs < 60 {
        AgeLabel::JustNow
    } else if secs / 60 < 60 {
        AgeLabel::MinutesAgo((secs / 60) as u64)
    } else if secs / 3600 < 24 {
        AgeLabel::HoursAgo((secs / 3600) as u64)
    } else {
        AgeLabel::Date
    }
}

/// The age label of an entry copied at `created_at`, seen at `now`.
pub fn classify_age(created_at: i64, now: i64) -> (res: AgeLabel)
    ensures
        res == age_label(created_at as int, now as int),
{
    let d: i128 = now as i128 - created_at as i128;
    if d < 60_000_000 {
        return AgeLabel::JustNow;
    }
    let secs: u128 = (d as u128) / 1_000_000;
    if secs / 60 < 60 {
        AgeLabel::MinutesAgo((secs / 60) as u64)
    } else if secs / 3600 < 24 {
        AgeLabel::HoursAgo((secs / 3600) as u64)
    } else {
        AgeLabel::Date
    }
}

/// The text shown for an entry's age: "Just now", "5m ago", "3h ago", or
/// the date as `%b %d, %H:%M` writes it.
pub open spec fn age_text(created_at: int, now: int) -> Seq<char> {
    match age_label(created_at, now) {
        AgeLabel::JustNow => "Just now"@,
        AgeLabel::MinutesAgo(m) => decimal(m as nat) + "m ago"@,
        AgeLabel::HoursAgo(h) => decimal(h as nat) + "h ago"@,
        AgeLabel::Date => date_text(created_at),
    }
}

/// The text shown for the age of an entry copied at `created_at`, seen at
/// `now` (microseconds since the Unix epoch). `None` only for a date that
/// chrono cannot represent.
pub fn format_timestamp(created_at: i64, now: i64) -> (res: Option<String>)
    ensures
        res matches Some(s) ==> s@ == age_text(created_at as int, now as int),
        (age_label(created_at as int, now as int) != AgeLabel::Date || date_in_range(
            created_at as int,
        )) ==> res is Some,
{
    match classify_age(created_at, now) {
        AgeLabel::JustNow => Some("Just now".to_owned()),
        AgeLabel::MinutesAgo(m) => {
            let mut s = u64_to_decimal(m);
            push_str(&mut s, "m ago");
            Some(s)
        },
        AgeLabel::HoursAgo(h) => {
            let mut s = u64_to_decimal(h);
            push_str(&mut s, "h ago");
            Some(s)
        },
        AgeLabel::Date => format_utc_micros(created_at, "%b %d, %H:%M"),
    }
}

} // verus!
