//! Dates in the fixed-length format of HTTP: `Sun, 06 Nov 1994 08:49:37 GMT`.

use crate::bytes::{append, decimal, to_decimal};
use vstd::prelude::*;
use vstd::string::StringSliceAdditionalSpecFns;

verus! {

/// Whether `year` is a leap year of the Gregorian calendar.
pub open spec fn is_leap(year: int) -> bool {
    year % 4 == 0 && (year % 100 != 0 || year % 400 == 0)
}

/// The number of days of `year`.
pub open spec fn year_days(year: int) -> int {
    if is_leap(year) {
        366
    } else {
        365
    }
}

/// The number of days of the month `month`, counted from 0, in `year`.
pub open spec fn month_days(year: int, month: int) -> int {
    if month == 1 {
        if is_leap(year) {
            29
        } else {
            28
        }
    } else if month == 3 || month == 5 || month == 8 || month == 10 {
        30
    } else {
        31
    }
}

/// The year that holds the day `days` days after the first day of `year`,
/// and the number of that day in its year, counted from 0.
pub open spec fn year_of(days: int, year: int) -> (int, int)
    decreases days,
{
    if days < 0 || days < year_days(year) {
        (year, days)
    } else {
        year_of(days - year_days(year), year + 1)
    }
}

/// The month, counted from 0 and starting the search at `month`, that holds
/// the day `day` days after the first day of `month`, and the number of
/// that day in its month, counted from 0.
pub open spec fn month_of(year: int, day: int, month: int) -> (int, int)
    decreases 12 - month,
{
    if month >= 11 || day < month_days(year, month) {
        (month, day)
    } else {
        month_of(year, day - month_days(year, month), month + 1)
    }
}

/// A moment, broken down.
#[derive(Debug)]
pub struct Moment {
    /// The day of the week, counted from Sunday as 0.
    pub weekday: u8,
    /// The day of the month, counted from 1.
    pub day: u8,
    /// The month, counted from January as 0.
    pub month: u8,
    /// The year.
    pub year: u64,
    /// The hour of the day.
    pub hour: u8,
    /// The minute of the hour.
    pub minute: u8,
    /// The second of the minute.
    pub second: u8,
}

/// The moment `secs` seconds after the start of 1970, which was a Thursday.
pub open spec fn moment_of(secs: u64) -> Moment {
    let days = secs as int / 86400;
    let rest = secs as int % 86400;
    let (year, day_of_year) = year_of(days, 1970);
    let (month, day) = month_of(year, day_of_year, 0);
    Moment {
        weekday: ((days + 4) % 7) as u8,
        day: (day + 1) as u8,
        month: month as u8,
        year: year as u64,
        hour: (rest / 3600) as u8,
        minute: (rest % 3600 / 60) as u8,
        second: (rest % 60) as u8,
    }
}

/// The three letters that name a day of the week.
pub open spec fn weekday_name(weekday: u8) -> Seq<u8> {
    if weekday == 0 {
        "Sun".spec_bytes()
    } else if weekday == 1 {
        "Mon".spec_bytes()
    } else if weekday == 2 {
        "Tue".spec_bytes()
    } else if weekday == 3 {
        "Wed".spec_bytes()
    } else if weekday == 4 {
        "Thu".spec_bytes()
    } else if weekday == 5 {
        "Fri".spec_bytes()
    } else {
        "Sat".spec_bytes()
    }
}

/// The three letters that name a month.
pub open spec fn month_name(month: u8) -> Seq<u8> {
    if month == 0 {
        "Jan".spec_bytes()
    } else if month == 1 {
        "Feb".spec_bytes()
    } else if month == 2 {
        "Mar".spec_bytes()
    } else if month == 3 {
        "Apr".spec_bytes()
    } else if month == 4 {
        "May".spec_bytes()
    } else if month == 5 {
        "Jun".spec_bytes()
    } else if month == 6 {
        "Jul".spec_bytes()
    } else if month == 7 {
        "Aug".spec_bytes()
    } else if month == 8 {
        "Sep".spec_bytes()
    } else if month == 9 {
        "Oct".spec_bytes()
    } else if month == 10 {
        "Nov".spec_bytes()
    } else {
        "Dec".spec_bytes()
    }
}

/// A number below 100 in two digits.
pub open spec fn two_digits(n: u8) -> Seq<u8> {
    seq![(48 + n / 10) as u8, (48 + n % 10) as u8]
}

/// The text of a moment: day name, day, month name, year, time and `GMT`.
pub open spec fn moment_text(m: Moment) -> Seq<u8> {
    weekday_name(m.weekday) + seq![44u8, 32u8] + two_digits(m.day) + seq![32u8] + month_name(
        m.month,
    ) + seq![32u8] + decimal(m.year as nat) + seq![32u8] + two_digits(m.hour) + seq![58u8]
        + two_digits(m.minute) + seq![58u8] + two_digits(m.second) + seq![32u8] + "GMT".spec_bytes()
}

/// The date text of the moment `secs` seconds after the start of 1970.
pub open spec fn imf_fixdate_of(secs: u64) -> Seq<u8> {
    moment_text(moment_of(secs))
}

/// Whether `year` is a leap year.
pub fn leap(year: u64) -> (r: bool)
    ensures
        r == is_leap(year as int),
{
    year % 4 == 0 && (year % 100 != 0 || year % 400 == 0)
}

/// The number of days of `year`.
pub fn days_in_year(year: u64) -> (r: u64)
    ensures
        r == year_days(year as int),
{
    if leap(year) {
        366
    } else {
        365
    }
}

/// The number of days of the month `month`, counted from 0, in `year`.
pub fn days_in_month(year: u64, month: u8) -> (r: u64)
    ensures
        r == month_days(year as int, month as int),
        28 <= r <= 31,
{
    if month == 1 {
        if leap(year) {
            29
        } else {
            28
        }
    } else if month == 3 || month == 5 || month == 8 || month == 10 {
        30
    } else {
        31
    }
}

/// Breaks the moment `secs` seconds after the start of 1970 down.
pub fn moment(secs: u64) -> (m: Moment)
    ensures
        m == moment_of(secs),
        m.weekday < 7,
        1 <= m.day <= 31,
        m.month < 12,
        m.hour < 24,
        m.minute < 60,
        m.second < 60,
{
    let days: u64 = secs / 86400;
    let rest: u64 = secs % 86400;
    let mut year: u64 = 1970;
    let mut left: u64 = days;
    while left >= days_in_year(year)
        invariant
            year_of(days as int, 1970) == year_of(left as int, year as int),
            year + left <= 1970 + days,
            days <= u64::MAX / 86400,
        decreases left,
    {
        left = left - days_in_year(year);
        year = year + 1;
    }
    let mut month: u8 = 0;
    let mut day: u64 = left;
    while month < 11 && day >= days_in_month(year, month)
        invariant
            month <= 11,
            day <= left,
            left < 366,
            month_of(year as int, left as int, 0) == month_of(year as int, day as int, month as int),
        decreases 11 - month,
    {
        day = day - days_in_month(year, month);
        month = month + 1;
    }
    proof {
        lemma_day_in_month(year as int, left as int, 0);
    }
    Moment {
        weekday: ((days % 7 + 4) % 7) as u8,
        day: (day + 1) as u8,
        month,
        year,
        hour: (rest / 3600) as u8,
        minute: (rest % 3600 / 60) as u8,
        second: (rest % 60) as u8,
    }
}

/// The days of a year before the month `month`, counted from 0.
pub open spec fn days_before(year: int, month: int) -> int
    decreases month,
{
    if month <= 0 {
        0
    } else {
        days_before(year, month - 1) + month_days(year, month - 1)
    }
}

/// A day of the year lies in its month: its number in the month is below 31.
pub proof fn lemma_day_in_month(year: int, day: int, month: int)
    requires
        0 <= month <= 11,
        0 <= day,
        day + days_before(year, month) < year_days(year),
    ensures
        0 <= month_of(year, day, month).1 < 31,
        0 <= month_of(year, day, month).0 <= 11,
    decreases 12 - month,
{
    if month < 11 && day >= month_days(year, month) {
        assert(days_before(year, month + 1) == days_before(year, month) + month_days(year, month));
        lemma_day_in_month(year, day - month_days(year, month), month + 1);
    } else if month >= 11 {
        assert(days_before(year, 11) == year_days(year) - 31) by {
            reveal_with_fuel(days_before, 12);
        }
    }
}

/// The three letters that name a day of the week.
pub fn weekday_str(weekday: u8) -> (r: &'static str)
    ensures
        r.spec_bytes() == weekday_name(weekday),
{
    if weekday == 0 {
        "Sun"
    } else if weekday == 1 {
        "Mon"
    } else if weekday == 2 {
        "Tue"
    } else if weekday == 3 {
        "Wed"
    } else if weekday == 4 {
        "Thu"
    } else if weekday == 5 {
        "Fri"
    } else {
        "Sat"
    }
}

/// The three letters that name a month.
pub fn month_str(month: u8) -> (r: &'static str)
    ensures
        r.spec_bytes() == month_name(month),
{
    if month == 0 {
        "Jan"
    } else if month == 1 {
        "Feb"
    } else if month == 2 {
        "Mar"
    } else if month == 3 {
        "Apr"
    } else if month == 4 {
        "May"
    } else if month == 5 {
        "Jun"
    } else if month == 6 {
        "Jul"
    } else if month == 7 {
        "Aug"
    } else if month == 8 {
        "Sep"
    } else if month == 9 {
        "Oct"
    } else if month == 10 {
        "Nov"
    } else {
        "Dec"
    }
}

/// Writes a number below 100 in two digits.
pub fn push_two_digits(buf: &mut Vec<u8>, n: u8)
    requires
        n < 100,
    ensures
        final(buf)@ == old(buf)@ + two_digits(n),
{
    buf.push(48 + n / 10);
    buf.push(48 + n % 10);
    assert(buf@ =~= old(buf)@ + two_digits(n));
}

/// The date text of the moment `secs` seconds after the start of 1970.
pub fn imf_fixdate(secs: u64) -> (r: Vec<u8>)
    ensures
        r@ == imf_fixdate_of(secs),
{
    let m = moment(secs);
    let mut buf: Vec<u8> = Vec::new();
    append(&mut buf, weekday_str(m.weekday).as_bytes());
    buf.push(44);
    buf.push(32);
    push_two_digits(&mut buf, m.day);
    buf.push(32);
    append(&mut buf, month_str(m.month).as_bytes());
    buf.push(32);
    let year = to_decimal(m.year);
    append(&mut buf, year.as_slice());
    buf.push(32);
    push_two_digits(&mut buf, m.hour);
    buf.push(58);
    push_two_digits(&mut buf, m.minute);
    buf.push(58);
    push_two_digits(&mut buf, m.second);
    buf.push(32);
    append(&mut buf, "GMT".as_bytes());
    assert(buf@ =~= moment_text(m));
    buf
}

/// The seconds that have passed since the start of 1970, by the clock of
/// the machine.
///
/// Calls `std::time::SystemTime::now` and measures the time since
/// `UNIX_EPOCH`.  Nothing is claimed of the result: a clock may show any
/// time.  A clock set before 1970 gives 0.
#[verifier::external_body]
pub(crate) fn unix_now() -> u64 {
    match std::time::SystemTime::now().duration_since(std::time::UNIX_EPOCH) {
        Ok(elapsed) => elapsed.as_secs(),
        Err(_) => 0,
    }
}

} // verus!
