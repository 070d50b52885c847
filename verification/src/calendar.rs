//! Days of the proleptic Gregorian calendar, as the `time` crate holds them
//! (years -9999 to 9999), and the two things the library asks of it: the
//! day before a date, and a date's text.

use vstd::prelude::*;

verus! {

/// A calendar day, by its year, month (1 to 12) and day of the month.
#[derive(Debug, Clone, Copy, PartialEq, Eq, Structural)]
pub struct CalendarDate {
    pub year: i32,
    pub month: u8,
    pub day: u8,
}

pub open spec fn is_leap_year(y: int) -> bool {
    y % 4 == 0 && (y % 100 != 0 || y % 400 == 0)
}

pub open spec fn days_in_month(y: int, m: int) -> int {
    if m == 2 {
        if is_leap_year(y) {
            29
        } else {
            28
        }
    } else if m == 4 || m == 6 || m == 9 || m == 11 {
        30
    } else {
        31
    }
}

/// The year, month and day name a day that `time::Date` can hold.
pub open spec fn is_valid_date(y: int, m: int, d: int) -> bool {
    &&& -9999 <= y <= 9999
    &&& 1 <= m <= 12
    &&& 1 <= d <= days_in_month(y, m)
}

pub open spec fn is_valid(d: CalendarDate) -> bool {
    is_valid_date(d.year as int, d.month as int, d.day as int)
}

/// The day before `d`; there is none before the first day of year -9999.
pub open spec fn previous(d: CalendarDate) -> Option<CalendarDate> {
    if d.day > 1 {
        Some(CalendarDate { year: d.year, month: d.month, day: (d.day - 1) as u8 })
    } else if d.month > 1 {
        Some(
            CalendarDate {
                year: d.year,
                month: (d.month - 1) as u8,
                day: days_in_month(d.year as int, d.month - 1) as u8,
            },
        )
    } else if d.year > -9999 {
        Some(CalendarDate { year: (d.year - 1) as i32, month: 12, day: 31 })
    } else {
        None
    }
}

/// The last `width` decimal digits of `n`, zero-padded.
pub open spec fn padded(n: nat, width: nat) -> Seq<char>
    decreases width,
{
    if width == 0 {
        Seq::empty()
    } else {
        padded(n / 10, (width - 1) as nat).push(crate::text::digit_char(n % 10))
    }
}

/// A date as `time::Date`'s `Display` writes it: `YYYY-MM-DD`, the year in
/// four digits after a `-` when it is negative.
pub open spec fn date_text(d: CalendarDate) -> Seq<char> {
    let sign: Seq<char> = if d.year < 0 {
        seq!['-']
    } else {
        Seq::empty()
    };
    let y: int = if d.year < 0 {
        -d.year
    } else {
        d.year as int
    };
    sign + padded(y as nat, 4) + seq!['-'] + padded(d.month as nat, 2) + seq!['-'] + padded(
        d.day as nat,
        2,
    )
}

/// `time::Month::try_from(u8)`: there is a month of each number from 1 to
/// 12 and of no other; its number is given back.
#[verifier::external_body]
pub fn month_number(m: u8) -> (r: Option<u8>)
    ensures
        r == (if 1 <= m <= 12 {
            Some(m)
        } else {
            None
        }),
{
    match time::Month::try_from(m) {
        Ok(month) => Some(month as u8),
        Err(_) => None,
    }
}

/// `time::Date::from_calendar_date`: a date exists exactly for a year from
/// -9999 to 9999 and a day within its month, and holds what it was made of.
#[verifier::external_body]
pub fn from_calendar_date(year: i32, month: u8, day: u8) -> (r: Option<CalendarDate>)
    requires
        1 <= month <= 12,
    ensures
        r == (if is_valid_date(year as int, month as int, day as int) {
            Some(CalendarDate { year, month, day })
        } else {
            None
        }),
{
    let m = match time::Month::try_from(month) {
        Ok(m) => m,
        Err(_) => return None,
    };
    match time::Date::from_calendar_date(year, m, day) {
        Ok(d) => Some(CalendarDate { year: d.year(), month: d.month() as u8, day: d.day() }),
        Err(_) => None,
    }
}

/// `time::Date::previous_day`: the day before, which every date but the
/// first one has.
#[verifier::external_body]
pub fn previous_day(d: CalendarDate) -> (r: Option<CalendarDate>)
    requires
        is_valid(d),
    ensures
        r == previous(d),
{
    let month = time::Month::try_from(d.month).unwrap();
    let date = time::Date::from_calendar_date(d.year, month, d.day).unwrap();
    match date.previous_day() {
        Some(p) => Some(CalendarDate { year: p.year(), month: p.month() as u8, day: p.day() }),
        None => None,
    }
}

/// `time::Date`'s `Display`: the text `date_text` describes.
#[verifier::external_body]
pub fn date_string(d: CalendarDate) -> (s: String)
    requires
        is_valid(d),
    ensures
        s@ == date_text(d),
{
    let month = time::Month::try_from(d.month).unwrap();
    let date = time::Date::from_calendar_date(d.year, month, d.day).unwrap();
    date.to_string()
}

} // verus!
