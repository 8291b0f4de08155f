//! Dates of the proleptic Gregorian calendar.
//!
//! A `Date` is held as its day number: the number of days since January 1
//! of year 1, which is day 1 (the numbering that chrono's `num_days_from_ce`
//! uses). Adding days and subtracting dates are then integer arithmetic;
//! the year, month and day of a day number come from chrono.
use vstd::prelude::*;
use chrono::{Datelike, NaiveDate};
use crate::text::zero_padded;

verus! {

/// The earliest year of a `Date` (that of `chrono::NaiveDate::MIN`).
pub const MIN_YEAR: i32 = -262143;

/// The latest year of a `Date` (that of `chrono::NaiveDate::MAX`).
pub const MAX_YEAR: i32 = 262142;

/// The day number of January 1 of `MIN_YEAR`.
pub const MIN_DAY: i32 = -95746129;

/// The day number of December 31 of `MAX_YEAR`.
pub const MAX_DAY: i32 = 95745399;

pub open spec fn is_leap_year(y: int) -> bool {
    y % 4 == 0 && (y % 100 != 0 || y % 400 == 0)
}

pub open spec fn days_in_month(y: int, m: int) -> int {
    if m == 2 {
        if is_leap_year(y) { 29 } else { 28 }
    } else if m == 4 || m == 6 || m == 9 || m == 11 {
        30
    } else {
        31
    }
}

pub open spec fn days_in_year(y: int) -> int {
    if is_leap_year(y) { 366 } else { 365 }
}

/// A year, month and day that name a date that a `Date` can hold.
pub open spec fn valid_ymd(y: int, m: int, d: int) -> bool {
    &&& MIN_YEAR <= y <= MAX_YEAR
    &&& 1 <= m <= 12
    &&& 1 <= d <= days_in_month(y, m)
}

/// The number of days before January 1 of year `y`, counted from the day
/// before January 1 of year 1.
pub open spec fn days_before_year(y: int) -> int {
    365 * (y - 1) + (y - 1) / 4 - (y - 1) / 100 + (y - 1) / 400
}

/// The number of days of year `y` before the first day of month `m`.
pub open spec fn days_before_month(y: int, m: int) -> int {
    let leap: int = if is_leap_year(y) { 1 } else { 0 };
    if m <= 1 {
        0
    } else if m == 2 {
        31
    } else if m == 3 {
        59 + leap
    } else if m == 4 {
        90 + leap
    } else if m == 5 {
        120 + leap
    } else if m == 6 {
        151 + leap
    } else if m == 7 {
        181 + leap
    } else if m == 8 {
        212 + leap
    } else if m == 9 {
        243 + leap
    } else if m == 10 {
        273 + leap
    } else if m == 11 {
        304 + leap
    } else {
        334 + leap
    }
}

/// The day number of a year, month and day: January 1 of year 1 is day 1.
pub open spec fn day_number(y: int, m: int, d: int) -> int {
    days_before_year(y) + days_before_month(y, m) + d
}

/// `t` is the year, month and day of day number `n`.
pub open spec fn is_ymd_of(n: int, t: (int, int, int)) -> bool {
    valid_ymd(t.0, t.1, t.2) && day_number(t.0, t.1, t.2) == n
}

/// Day number `n` is a day of the calendar: it has a year, month and day.
pub open spec fn is_calendar_day(n: int) -> bool {
    exists|t: (int, int, int)| is_ymd_of(n, t)
}

/// The year, month and day of day number `n`.
pub open spec fn ymd_of(n: int) -> (int, int, int) {
    choose|t: (int, int, int)| is_ymd_of(n, t)
}

pub open spec fn year_of(n: int) -> int {
    ymd_of(n).0
}

pub open spec fn month_of(n: int) -> int {
    ymd_of(n).1
}

pub open spec fn day_of(n: int) -> int {
    ymd_of(n).2
}

/// `(y1, m1, d1)` comes strictly before `(y2, m2, d2)` in the calendar.
pub open spec fn ymd_before(y1: int, m1: int, d1: int, y2: int, m2: int, d2: int) -> bool {
    y1 < y2 || (y1 == y2 && (m1 < m2 || (m1 == m2 && d1 < d2)))
}

proof fn lemma_floor_step(y: int, k: int)
    requires
        k == 4 || k == 100 || k == 400,
    ensures
        y / k - (y - 1) / k == (if y % k == 0 { 1int } else { 0int }),
{
    vstd::arithmetic::div_mod::lemma_fundamental_div_mod(y, k);
    vstd::arithmetic::div_mod::lemma_fundamental_div_mod(y - 1, k);
}

/// A year has as many days as `days_in_year` says.
pub proof fn lemma_year_length(y: int)
    ensures
        days_before_year(y + 1) == days_before_year(y) + days_in_year(y),
{
    lemma_floor_step(y, 4);
    lemma_floor_step(y, 100);
    lemma_floor_step(y, 400);
    vstd::arithmetic::div_mod::lemma_fundamental_div_mod(y, 4);
    vstd::arithmetic::div_mod::lemma_fundamental_div_mod(y, 100);
    vstd::arithmetic::div_mod::lemma_fundamental_div_mod(y, 400);
    assert(y % 400 == 0 ==> y % 100 == 0);
    assert(y % 100 == 0 ==> y % 4 == 0);
}

/// Every day of a year comes before every day of a later year.
pub proof fn lemma_years_ordered(y1: int, y2: int)
    requires
        y1 < y2,
    ensures
        days_before_year(y1) + days_in_year(y1) <= days_before_year(y2),
    decreases y2 - y1,
{
    lemma_year_length(y1);
    if y1 + 1 < y2 {
        lemma_years_ordered(y1 + 1, y2);
        lemma_year_length(y1 + 1);
    }
}

proof fn lemma_within_year(y: int, m: int, d: int)
    requires
        1 <= m <= 12,
        1 <= d <= days_in_month(y, m),
    ensures
        1 <= days_before_month(y, m) + d <= days_in_year(y),
{
}

proof fn lemma_months_ordered(y: int, m1: int, d1: int, m2: int, d2: int)
    requires
        1 <= m1 < m2 <= 12,
        1 <= d1 <= days_in_month(y, m1),
        1 <= d2,
    ensures
        days_before_month(y, m1) + d1 < days_before_month(y, m2) + d2,
{
}

/// The day number grows with the date.
pub proof fn lemma_day_number_ordered(y1: int, m1: int, d1: int, y2: int, m2: int, d2: int)
    requires
        valid_ymd(y1, m1, d1),
        valid_ymd(y2, m2, d2),
        ymd_before(y1, m1, d1, y2, m2, d2),
    ensures
        day_number(y1, m1, d1) < day_number(y2, m2, d2),
{
    lemma_within_year(y1, m1, d1);
    lemma_within_year(y2, m2, d2);
    if y1 < y2 {
        lemma_years_ordered(y1, y2);
    } else if m1 < m2 {
        lemma_months_ordered(y1, m1, d1, m2, d2);
    }
}

/// A day number has at most one year, month and day.
pub proof fn lemma_ymd_unique(n: int, t1: (int, int, int), t2: (int, int, int))
    requires
        is_ymd_of(n, t1),
        is_ymd_of(n, t2),
    ensures
        t1 == t2,
{
    if ymd_before(t1.0, t1.1, t1.2, t2.0, t2.1, t2.2) {
        lemma_day_number_ordered(t1.0, t1.1, t1.2, t2.0, t2.1, t2.2);
    } else if ymd_before(t2.0, t2.1, t2.2, t1.0, t1.1, t1.2) {
        lemma_day_number_ordered(t2.0, t2.1, t2.2, t1.0, t1.1, t1.2);
    }
}

/// The year, month and day of a day number are those that name it.
pub proof fn lemma_ymd_of(n: int, t: (int, int, int))
    requires
        is_ymd_of(n, t),
    ensures
        ymd_of(n) == t,
{
    lemma_ymd_unique(n, ymd_of(n), t);
}

/// The day numbers of the dates that a `Date` can hold run from `MIN_DAY`
/// to `MAX_DAY`.
pub proof fn lemma_day_number_range(y: int, m: int, d: int)
    requires
        valid_ymd(y, m, d),
    ensures
        MIN_DAY <= day_number(y, m, d) <= MAX_DAY,
{
    assert(day_number(MIN_YEAR as int, 1, 1) == MIN_DAY);
    assert(day_number(MAX_YEAR as int, 12, 31) == MAX_DAY);
    if ymd_before(MIN_YEAR as int, 1, 1, y, m, d) {
        lemma_day_number_ordered(MIN_YEAR as int, 1, 1, y, m, d);
    }
    if ymd_before(y, m, d, MAX_YEAR as int, 12, 31) {
        lemma_day_number_ordered(y, m, d, MAX_YEAR as int, 12, 31);
    }
}

/// chrono's `NaiveDate::from_ymd_opt` followed by `num_days_from_ce`.
/// Claimed: the date exists exactly when the month and day name a day of the
/// month and the year lies in chrono's range, and its day number counts
/// January 1 of year 1 as day 1 (as the documentation of
/// `num_days_from_ce` says).
#[verifier::external_body]
fn chrono_day_number(year: i32, month: u32, day: u32) -> (r: Option<i32>)
    ensures
        r is Some <==> valid_ymd(year as int, month as int, day as int),
        r matches Some(n) ==> n == day_number(year as int, month as int, day as int),
{
    NaiveDate::from_ymd_opt(year, month, day).map(|d| d.num_days_from_ce())
}

/// chrono's `NaiveDate::from_num_days_from_ce_opt` followed by `year`,
/// `month` and `day`. Claimed: the date exists exactly when the day number
/// lies in chrono's range, and then its year, month and day are a date of
/// that day number.
#[verifier::external_body]
fn chrono_ymd(n: i32) -> (r: Option<(i32, u32, u32)>)
    ensures
        r is Some <==> MIN_DAY <= n <= MAX_DAY,
        r matches Some(t) ==> is_ymd_of(n as int, (t.0 as int, t.1 as int, t.2 as int)),
{
    NaiveDate::from_num_days_from_ce_opt(n).map(|d| (d.year(), d.month(), d.day()))
}

/// The text of a year in a date: four digits for years 0 to 9999, else a
/// sign and at least four digits.
pub open spec fn year_text(y: int) -> Seq<char> {
    if 0 <= y <= 9999 {
        zero_padded(y as nat, 4)
    } else if y < 0 {
        seq!['-'] + zero_padded((-y) as nat, 4)
    } else {
        seq!['+'] + zero_padded(y as nat, 4)
    }
}

/// The text of a date, `YYYY-MM-DD`.
pub open spec fn date_text(t: (int, int, int)) -> Seq<char> {
    year_text(t.0) + seq!['-'] + zero_padded(t.1 as nat, 2) + seq!['-'] + zero_padded(
        t.2 as nat,
        2,
    )
}

/// chrono's `Display` of the `NaiveDate` with day number `n`. Claimed: the
/// text is the year (four digits for years 0 to 9999, else a sign and at
/// least four digits), a hyphen, the month in two digits, a hyphen and the
/// day in two digits.
#[verifier::external_body]
fn chrono_date_text(n: i32) -> (r: String)
    requires
        MIN_DAY <= n <= MAX_DAY,
    ensures
        r@ == date_text(ymd_of(n as int)),
{
    match NaiveDate::from_num_days_from_ce_opt(n) {
        Some(d) => d.to_string(),
        None => String::new(),
    }
}

/// A day of the proleptic Gregorian calendar, in the range of chrono's
/// `NaiveDate`.
#[derive(Clone, Copy, Debug, PartialEq, Eq, Structural)]
pub struct Date {
    days: i32,
}

impl View for Date {
    type V = int;

    /// The day number of the date.
    closed spec fn view(&self) -> int {
        self.days as int
    }
}

impl Date {
    #[verifier::type_invariant]
    spec fn in_range(self) -> bool {
        MIN_DAY <= self.days <= MAX_DAY
    }

    /// The date with the given year, month and day, if there is one.
    pub fn from_ymd_opt(year: i32, month: u32, day: u32) -> (r: Option<Date>)
        ensures
            r is Some <==> valid_ymd(year as int, month as int, day as int),
            r matches Some(d) ==> d@ == day_number(year as int, month as int, day as int),
    {
        match chrono_day_number(year, month, day) {
            Some(n) => {
                proof {
                    lemma_day_number_range(year as int, month as int, day as int);
                }
                Some(Date { days: n })
            },
            None => None,
        }
    }

    /// The date with the given day number, if it lies in the range.
    pub fn from_days_from_ce(n: i32) -> (r: Option<Date>)
        ensures
            r is Some <==> MIN_DAY <= n <= MAX_DAY,
            r matches Some(d) ==> d@ == n,
    {
        if MIN_DAY <= n && n <= MAX_DAY {
            Some(Date { days: n })
        } else {
            None
        }
    }

    /// The day number of the date.
    pub fn days_from_ce(&self) -> (r: i32)
        ensures
            r == self@,
            MIN_DAY <= r <= MAX_DAY,
    {
        proof {
            use_type_invariant(self);
        }
        self.days
    }

    /// Two dates are the same day exactly when their day numbers are equal.
    pub proof fn lemma_view_injective(a: Date, b: Date)
        ensures
            a@ == b@ <==> a == b,
    {
    }

    /// The year, month and day of the date.
    pub fn ymd(&self) -> (r: (i32, u32, u32))
        ensures
            (r.0 as int, r.1 as int, r.2 as int) == ymd_of(self@),
            valid_ymd(r.0 as int, r.1 as int, r.2 as int),
            day_number(r.0 as int, r.1 as int, r.2 as int) == self@,
    {
        let n = self.days_from_ce();
        match chrono_ymd(n) {
            Some(t) => {
                proof {
                    lemma_ymd_of(n as int, (t.0 as int, t.1 as int, t.2 as int));
                }
                t
            },
            None => {
                proof {
                    assert(false);
                }
                (0, 0, 0)
            },
        }
    }

    /// The year of the date.
    pub fn year(&self) -> (r: i32)
        ensures
            r == year_of(self@),
            MIN_YEAR <= r <= MAX_YEAR,
    {
        self.ymd().0
    }

    /// The month of the date, 1 to 12.
    pub fn month(&self) -> (r: u32)
        ensures
            r == month_of(self@),
            1 <= r <= 12,
    {
        self.ymd().1
    }

    /// The day of the month, 1 to 31.
    pub fn day(&self) -> (r: u32)
        ensures
            r == day_of(self@),
            1 <= r <= 31,
    {
        self.ymd().2
    }

    /// The date `n` days after this one (before it, for negative `n`), if it
    /// lies in the range.
    pub fn add_days(&self, n: i64) -> (r: Option<Date>)
        ensures
            MIN_DAY <= self@ <= MAX_DAY,
            r is Some <==> MIN_DAY <= self@ + n <= MAX_DAY,
            r matches Some(d) ==> d@ == self@ + n,
    {
        let s = self.days_from_ce() as i64;
        if n < (MIN_DAY as i64) - s || n > (MAX_DAY as i64) - s {
            None
        } else {
            Some(Date { days: (s + n) as i32 })
        }
    }

    /// The number of days from `earlier` to this date.
    pub fn days_since(&self, earlier: &Date) -> (r: i32)
        ensures
            r == self@ - earlier@,
    {
        self.days_from_ce() - earlier.days_from_ce()
    }

    /// The date as text, `YYYY-MM-DD`.
    pub fn to_text(&self) -> (r: String)
        ensures
            r@ == date_text(ymd_of(self@)),
    {
        chrono_date_text(self.days_from_ce())
    }
}

} // verus!
