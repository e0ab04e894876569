//! Epoch seconds and the calendar.
//!
//! Epoch seconds count from the first of January 1970, midnight, in the
//! proleptic Gregorian calendar, every day 86 400 seconds long. A timestamp is
//! the calendar reading of such a count; no time zone is applied.

use vstd::prelude::*;
use crate::timestamp::{days_in_month, is_leap, month_length, Calendar, NormalizedTimestamp};

verus! {

/// The day number of the first of January 1970.
pub const EPOCH_DAY: i64 = 719528;

/// The epoch second of the first second of the year 0.
pub const EPOCH_MIN: i64 = -62167219200;

/// The epoch second of the last second of the year 9999.
pub const EPOCH_MAX: i64 = 253402300799;

/// The number of days of a year.
pub open spec fn year_length(year: int) -> int {
    if is_leap(year) {
        366
    } else {
        365
    }
}

/// The number of days from the first of January of the year 0 to the first
/// of January of `year`.
pub open spec fn days_before_year(year: int) -> int
    decreases year,
{
    if year <= 0 {
        0
    } else {
        days_before_year(year - 1) + year_length(year - 1)
    }
}

/// The number of days from the first of January of `year` to the first day
/// of `month`.
pub open spec fn days_before_month(year: int, month: int) -> int
    decreases month,
{
    if month <= 1 {
        0
    } else {
        days_before_month(year, month - 1) + days_in_month(year, month - 1)
    }
}

/// The number of days from the first of January of the year 0 to the day of
/// a timestamp.
pub open spec fn day_number(c: Calendar) -> int {
    days_before_year(c.year) + days_before_month(c.year, c.month) + c.day - 1
}

/// The number of seconds from midnight to the time of a timestamp.
pub open spec fn second_of_day(c: Calendar) -> int {
    c.hour * 3600 + c.minute * 60 + c.second
}

/// The epoch second of a timestamp.
pub open spec fn epoch_of(c: Calendar) -> int {
    (day_number(c) - EPOCH_DAY) * 86400 + second_of_day(c)
}

/// The timestamp of an epoch second: the one valid timestamp whose epoch
/// second it is, if there is one.
pub open spec fn calendar_at(seconds: int) -> Option<Calendar> {
    if exists|c: Calendar| c.valid() && epoch_of(c) == seconds {
        Some(choose|c: Calendar| c.valid() && epoch_of(c) == seconds)
    } else {
        None
    }
}

/// The number of leap years from the year 0 up to, but without, `year`.
pub open spec fn leaps_before(year: int) -> int {
    (year + 3) / 4 - (year + 99) / 100 + (year + 399) / 400
}

/// The days before a year are 365 for each year and one more for each leap
/// year.
pub proof fn lemma_days_before_year(year: int)
    requires
        0 <= year,
    ensures
        days_before_year(year) == 365 * year + leaps_before(year),
    decreases year,
{
    if year > 0 {
        let y = year - 1;
        lemma_days_before_year(y);
        assert((y + 4) / 4 - (y + 3) / 4 == (if y % 4 == 0 {
            1int
        } else {
            0int
        }));
        assert((y + 100) / 100 - (y + 99) / 100 == (if y % 100 == 0 {
            1int
        } else {
            0int
        }));
        assert((y + 400) / 400 - (y + 399) / 400 == (if y % 400 == 0 {
            1int
        } else {
            0int
        }));
        assert(y % 400 == 0 ==> y % 100 == 0);
        assert(y % 100 == 0 ==> y % 4 == 0);
    }
}

/// Later years have more days before them.
pub proof fn lemma_years_grow(a: int, b: int)
    requires
        0 <= a <= b,
    ensures
        days_before_year(a) + 365 * (b - a) <= days_before_year(b),
    decreases b - a,
{
    if a < b {
        lemma_years_grow(a, b - 1);
    }
}

/// The days before each month of a year.
pub proof fn lemma_days_before_month(year: int)
    ensures
        days_before_month(year, 1) == 0,
        days_before_month(year, 2) == 31,
        days_before_month(year, 3) == year_length(year) - 306,
        days_before_month(year, 4) == year_length(year) - 275,
        days_before_month(year, 5) == year_length(year) - 245,
        days_before_month(year, 6) == year_length(year) - 214,
        days_before_month(year, 7) == year_length(year) - 184,
        days_before_month(year, 8) == year_length(year) - 153,
        days_before_month(year, 9) == year_length(year) - 122,
        days_before_month(year, 10) == year_length(year) - 92,
        days_before_month(year, 11) == year_length(year) - 61,
        days_before_month(year, 12) == year_length(year) - 31,
        days_before_month(year, 13) == year_length(year),
{
    assert(days_before_month(year, 1) == 0);
    assert(days_before_month(year, 2) == 31);
    assert(days_before_month(year, 3) == year_length(year) - 306);
    assert(days_before_month(year, 4) == year_length(year) - 275);
    assert(days_before_month(year, 5) == year_length(year) - 245);
    assert(days_before_month(year, 6) == year_length(year) - 214);
    assert(days_before_month(year, 7) == year_length(year) - 184);
    assert(days_before_month(year, 8) == year_length(year) - 153);
    assert(days_before_month(year, 9) == year_length(year) - 122);
    assert(days_before_month(year, 10) == year_length(year) - 92);
    assert(days_before_month(year, 11) == year_length(year) - 61);
    assert(days_before_month(year, 12) == year_length(year) - 31);
    assert(days_before_month(year, 13) == year_length(year));
}

/// The day of a valid timestamp lies in its year.
pub proof fn lemma_day_in_year(c: Calendar)
    requires
        c.valid(),
    ensures
        days_before_year(c.year) <= day_number(c) < days_before_year(c.year + 1),
        days_before_month(c.year, c.month) <= day_number(c) - days_before_year(c.year)
            < days_before_month(c.year, c.month + 1),
        0 <= day_number(c) < 3652425,
        0 <= second_of_day(c) < 86400,
        EPOCH_MIN <= epoch_of(c) <= EPOCH_MAX,
{
    lemma_days_before_month(c.year);
    lemma_years_grow(0, c.year);
    lemma_years_grow(c.year + 1, 10000);
    lemma_days_before_year(10000);
    assert(days_before_year(10000) == 3652425);
}

/// Two valid timestamps on the same day number are on the same date.
pub proof fn lemma_same_day(a: Calendar, b: Calendar)
    requires
        a.valid(),
        b.valid(),
        day_number(a) == day_number(b),
    ensures
        a.year == b.year,
        a.month == b.month,
        a.day == b.day,
{
    lemma_day_in_year(a);
    lemma_day_in_year(b);
    if a.year < b.year {
        lemma_years_grow(a.year + 1, b.year);
    } else if b.year < a.year {
        lemma_years_grow(b.year + 1, a.year);
    } else {
        lemma_days_before_month(a.year);
    }
}

/// No two valid timestamps have the same epoch second.
pub proof fn lemma_epoch_injective(a: Calendar, b: Calendar)
    requires
        a.valid(),
        b.valid(),
        epoch_of(a) == epoch_of(b),
    ensures
        a == b,
{
    lemma_day_in_year(a);
    lemma_day_in_year(b);
    let x = day_number(a) - EPOCH_DAY;
    let y = day_number(b) - EPOCH_DAY;
    let s = second_of_day(a);
    let t = second_of_day(b);
    assert(x * 86400 + s == y * 86400 + t);
    assert(x == y) by {
        if x < y {
            assert(x * 86400 + 86400 <= y * 86400);
        } else if y < x {
            assert(y * 86400 + 86400 <= x * 86400);
        }
    }
    lemma_same_day(a, b);
    assert(a.hour == b.hour) by {
        if a.hour < b.hour {
            assert(a.hour * 3600 + 3600 <= b.hour * 3600);
        } else if b.hour < a.hour {
            assert(b.hour * 3600 + 3600 <= a.hour * 3600);
        }
    }
    assert(a.minute == b.minute) by {
        if a.minute < b.minute {
            assert(a.minute * 60 + 60 <= b.minute * 60);
        } else if b.minute < a.minute {
            assert(b.minute * 60 + 60 <= a.minute * 60);
        }
    }
}

/// The timestamp of the epoch second of a valid timestamp is that timestamp.
pub proof fn lemma_calendar_at(c: Calendar)
    requires
        c.valid(),
    ensures
        calendar_at(epoch_of(c)) == Some(c),
{
    let found = choose|x: Calendar| x.valid() && epoch_of(x) == epoch_of(c);
    lemma_epoch_injective(found, c);
}

/// Only the epoch seconds of the years 0 to 9999 have a timestamp.
pub proof fn lemma_calendar_range(seconds: int)
    requires
        seconds < EPOCH_MIN || seconds > EPOCH_MAX,
    ensures
        calendar_at(seconds) is None,
{
    if exists|c: Calendar| c.valid() && epoch_of(c) == seconds {
        let c = choose|c: Calendar| c.valid() && epoch_of(c) == seconds;
        lemma_day_in_year(c);
    }
}

/// The number of days of a year.
pub fn days_in_year(year: u16) -> (r: u16)
    ensures
        r == year_length(year as int),
{
    if year % 4 == 0 && (year % 100 != 0 || year % 400 == 0) {
        366
    } else {
        365
    }
}

/// The timestamp of an epoch second, or `None` where the second lies outside
/// the years 0 to 9999.
pub fn from_epoch(seconds: i64) -> (r: Option<NormalizedTimestamp>)
    ensures
        r is Some <==> EPOCH_MIN <= seconds <= EPOCH_MAX,
        r matches Some(ts) ==> epoch_of(ts@) == seconds && ts@.valid(),
        match r {
            Some(ts) => calendar_at(seconds as int) == Some(ts@),
            None => calendar_at(seconds as int) is None,
        },
{
    if seconds < EPOCH_MIN || seconds > EPOCH_MAX {
        proof {
            lemma_calendar_range(seconds as int);
        }
        return None;
    }
    // Days since the year 0, and seconds since midnight.
    let shifted: i64 = seconds - EPOCH_MIN;
    let total: i64 = shifted / 86400;
    let rest: i64 = shifted % 86400;
    assert(seconds == (total - EPOCH_DAY) * 86400 + rest);
    assert(0 <= total < 3652425 && 0 <= rest < 86400);
    let mut year: u16 = 0;
    let mut days: i64 = total;
    proof {
        lemma_days_before_year(10000);
    }
    while days >= days_in_year(year) as i64
        invariant
            0 <= days,
            year <= 9999,
            days_before_year(year as int) + days == total,
            total < days_before_year(10000),
        decreases 10000 - year,
    {
        proof {
            if year == 9999 {
                assert(days_before_year(10000) == days_before_year(9999) + year_length(9999));
            }
        }
        days = days - days_in_year(year) as i64;
        year = year + 1;
    }
    let mut month: u8 = 1;
    proof {
        lemma_days_before_month(year as int);
    }
    while days >= month_length(year, month) as i64
        invariant
            0 <= days,
            1 <= month <= 12,
            days_before_month(year as int, month as int) + days == total - days_before_year(
                year as int,
            ),
            total - days_before_year(year as int) < year_length(year as int),
        decreases 13 - month,
    {
        proof {
            lemma_days_before_month(year as int);
        }
        days = days - month_length(year, month) as i64;
        month = month + 1;
    }
    let hour: i64 = rest / 3600;
    let minute: i64 = rest % 3600 / 60;
    let second: i64 = rest % 60;
    assert(rest == hour * 3600 + minute * 60 + second);
    let r = NormalizedTimestamp::new(
        year as i32,
        month as u32,
        (days + 1) as u32,
        hour as u32,
        minute as u32,
        second as u32,
    );
    proof {
        let c = Calendar {
            year: year as int,
            month: month as int,
            day: days + 1,
            hour: hour as int,
            minute: minute as int,
            second: second as int,
        };
        assert(c.valid());
        assert(epoch_of(c) == seconds);
        lemma_calendar_at(c);
    }
    r
}

/// The epoch second of a timestamp.
pub fn to_epoch(ts: &NormalizedTimestamp) -> (r: i64)
    ensures
        r == epoch_of(ts@),
        EPOCH_MIN <= r <= EPOCH_MAX,
{
    let year = ts.year();
    let month = ts.month();
    proof {
        lemma_day_in_year(ts@);
        lemma_days_before_year(10000);
        lemma_years_grow(year as int, 10000);
        lemma_years_grow(0, year as int);
    }
    let mut days: i64 = 0;
    let mut y: u16 = 0;
    while y < year
        invariant
            y <= year <= 9999,
            days == days_before_year(y as int),
            0 <= days_before_year(year as int) <= 3652425,
        decreases year - y,
    {
        proof {
            lemma_years_grow(y as int + 1, year as int);
        }
        days = days + days_in_year(y) as i64;
        y = y + 1;
    }
    let mut m: u8 = 1;
    let ghost base = days;
    while m < month
        invariant
            1 <= m <= month <= 12,
            base == days_before_year(year as int),
            0 <= base <= 3652425,
            days == base + days_before_month(year as int, m as int),
        decreases month - m,
    {
        proof {
            lemma_days_before_month(year as int);
        }
        days = days + month_length(year, m) as i64;
        m = m + 1;
    }
    proof {
        lemma_days_before_month(year as int);
    }
    days = days + ts.day() as i64 - 1;
    (days - EPOCH_DAY) * 86400 + ts.hour() as i64 * 3600 + ts.minute() as i64 * 60
        + ts.second() as i64
}

} // verus!
