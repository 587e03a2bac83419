//! Proleptic Gregorian civil dates: a calendar-date value with day
//! arithmetic, weekday and day-of-year computation, and a day count from the
//! start of the common era, used to enumerate date ranges.
//!
//! The library supports years 1 through [`MAX_YEAR`].

use vstd::arithmetic::div_mod::{
    lemma_fundamental_div_mod, lemma_fundamental_div_mod_converse, lemma_mod_bound,
};
use vstd::prelude::*;

verus! {

/// The largest year the library supports.
pub const MAX_YEAR: i32 = 262143;

/// A leap year: divisible by 4, except centuries that are not divisible by
/// 400.
pub open spec fn is_leap_year(y: int) -> bool {
    y % 4 == 0 && (y % 100 != 0 || y % 400 == 0)
}

/// Number of days of month `m` of year `y`.
pub open spec fn days_in_month(y: int, m: int) -> int {
    if m == 2 {
        if is_leap_year(y) {
            29
        } else {
            28
        }
    } else if m == 4 || m == 6 || m == 9 || m == 11 {
        30
    } else {
        31
    }
}

/// Number of days of year `y`.
pub open spec fn days_in_year(y: int) -> int {
    if is_leap_year(y) {
        366
    } else {
        365
    }
}

/// Number of days of year `y` that pass before month `m` begins.
pub open spec fn days_before_month(y: int, m: int) -> int {
    let l: int = if is_leap_year(y) {
        1
    } else {
        0
    };
    if m == 1 {
        0
    } else if m == 2 {
        31
    } else if m == 3 {
        59 + l
    } else if m == 4 {
        90 + l
    } else if m == 5 {
        120 + l
    } else if m == 6 {
        151 + l
    } else if m == 7 {
        181 + l
    } else if m == 8 {
        212 + l
    } else if m == 9 {
        243 + l
    } else if m == 10 {
        273 + l
    } else if m == 11 {
        304 + l
    } else {
        334 + l
    }
}

/// A calendar date the library can represent: a real day of the proleptic
/// Gregorian calendar in a supported year.
pub open spec fn valid_ymd(y: int, m: int, d: int) -> bool {
    1 <= y <= MAX_YEAR && 1 <= m <= 12 && 1 <= d <= days_in_month(y, m)
}

/// The 1-based ordinal of day `d` of month `m` within year `y`.
pub open spec fn day_of_year_of(y: int, m: int, d: int) -> int {
    days_before_month(y, m) + d
}

/// Number of days that pass before year `y` begins, counting from the first
/// day of year 1.
pub open spec fn days_before_year(y: int) -> int
    decreases y,
{
    if y <= 1 {
        0
    } else {
        days_before_year(y - 1) + days_in_year(y - 1)
    }
}

/// The 1-based day count from the start of the common era: day 1 is the
/// first day of year 1.
pub open spec fn days_from_ce_of(y: int, m: int, d: int) -> int {
    days_before_year(y) + day_of_year_of(y, m, d)
}

/// The Monday-based weekday number (1 = Monday .. 7 = Sunday). Day 1 of the
/// common era is a Monday.
pub open spec fn weekday_of(y: int, m: int, d: int) -> int {
    (days_from_ce_of(y, m, d) - 1) % 7 + 1
}

/// The day count of the last supported date.
pub open spec fn max_day_number() -> int {
    days_from_ce_of(MAX_YEAR as int, 12, 31)
}

/// Dividing by a positive constant steps by one exactly at the multiples.
proof fn lemma_div_step(x: int, d: int)
    requires
        d > 0,
    ensures
        x / d == (x - 1) / d + if x % d == 0 {
            1int
        } else {
            0int
        },
{
    lemma_fundamental_div_mod(x - 1, d);
    lemma_mod_bound(x - 1, d);
    let q = (x - 1) / d;
    let r = (x - 1) % d;
    if r + 1 == d {
        assert((q + 1) * d == d * q + d) by (nonlinear_arith);
        lemma_fundamental_div_mod_converse(x, d, q + 1, 0);
    } else {
        assert(q * d == d * q) by (nonlinear_arith);
        lemma_fundamental_div_mod_converse(x, d, q, r + 1);
    }
}

/// Divisibility by 400 implies divisibility by 100, which implies
/// divisibility by 4.
proof fn lemma_leap_mod_facts(x: int)
    ensures
        x % 400 == 0 ==> x % 100 == 0,
        x % 100 == 0 ==> x % 4 == 0,
{
    if x % 400 == 0 {
        lemma_fundamental_div_mod(x, 400);
        assert((4 * (x / 400)) * 100 == 400 * (x / 400)) by (nonlinear_arith);
        lemma_fundamental_div_mod_converse(x, 100, 4 * (x / 400), 0);
    }
    if x % 100 == 0 {
        lemma_fundamental_div_mod(x, 100);
        assert((25 * (x / 100)) * 4 == 100 * (x / 100)) by (nonlinear_arith);
        lemma_fundamental_div_mod_converse(x, 4, 25 * (x / 100), 0);
    }
}

/// The closed form of [`days_before_year`]: 365 days a year, plus one for
/// every leap year passed.
pub proof fn lemma_days_before_year_closed(y: int)
    requires
        1 <= y,
    ensures
        days_before_year(y) == 365 * (y - 1) + (y - 1) / 4 - (y - 1) / 100 + (y - 1) / 400,
    decreases y,
{
    if y == 1 {
    } else {
        lemma_days_before_year_closed(y - 1);
        lemma_div_step(y - 1, 4);
        lemma_div_step(y - 1, 100);
        lemma_div_step(y - 1, 400);
        lemma_leap_mod_facts(y - 1);
    }
}

/// [`days_before_year`] is non-negative and grows at most 366 days a year.
pub proof fn lemma_days_before_year_bound(y: int)
    requires
        1 <= y,
    ensures
        0 <= days_before_year(y) <= 366 * (y - 1),
    decreases y,
{
    if y > 1 {
        lemma_days_before_year_bound(y - 1);
    }
}

/// [`days_before_year`] is monotone, and a whole year lies between the
/// starts of two distinct years.
pub proof fn lemma_days_before_year_monotone(y1: int, y2: int)
    requires
        1 <= y1 <= y2,
    ensures
        days_before_year(y1) <= days_before_year(y2),
        y1 < y2 ==> days_before_year(y1) + days_in_year(y1) <= days_before_year(y2),
    decreases y2 - y1,
{
    if y1 < y2 {
        lemma_days_before_year_monotone(y1, y2 - 1);
    }
}

/// The ordinal of a valid date lies between 1 and the year's length.
pub proof fn lemma_day_of_year_bounds(y: int, m: int, d: int)
    requires
        valid_ymd(y, m, d),
    ensures
        1 <= day_of_year_of(y, m, d) <= days_in_year(y),
{
}

/// The day count of a valid date lies between 1 and [`max_day_number`].
pub proof fn lemma_day_number_bounds(y: int, m: int, d: int)
    requires
        valid_ymd(y, m, d),
    ensures
        1 <= days_from_ce_of(y, m, d) <= max_day_number(),
{
    lemma_days_before_year_bound(y);
    lemma_day_of_year_bounds(y, m, d);
    lemma_days_before_year_monotone(y, MAX_YEAR as int);
    if y < MAX_YEAR {
        lemma_day_of_year_bounds(MAX_YEAR as int, 12, 31);
    }
}

/// The day count respects the year-month-day order strictly: of two valid
/// dates, the chronologically earlier one has the smaller count.
pub proof fn lemma_day_number_monotone(y1: int, m1: int, d1: int, y2: int, m2: int, d2: int)
    requires
        valid_ymd(y1, m1, d1),
        valid_ymd(y2, m2, d2),
        y1 < y2 || (y1 == y2 && m1 < m2) || (y1 == y2 && m1 == m2 && d1 < d2),
    ensures
        days_from_ce_of(y1, m1, d1) < days_from_ce_of(y2, m2, d2),
{
    if y1 < y2 {
        lemma_day_of_year_bounds(y1, m1, d1);
        lemma_day_of_year_bounds(y2, m2, d2);
        lemma_days_before_year_monotone(y1, y2);
    } else {
        assert(days_before_month(y1, m1) + days_in_month(y1, m1) <= days_before_month(y2, m2)
            || (m1 == m2));
    }
}

/// An immutable proleptic Gregorian civil date.
#[derive(Clone, Copy, PartialEq, Eq, Structural, Debug)]
pub struct CalendarDate {
    pub year: i32,
    pub month: u32,
    pub day: u32,
}

impl CalendarDate {
    /// The date is a real day of a supported year.
    pub open spec fn is_valid(self) -> bool {
        valid_ymd(self.year as int, self.month as int, self.day as int)
    }

    /// The date's day count from the start of the common era.
    pub open spec fn day_number(self) -> int {
        days_from_ce_of(self.year as int, self.month as int, self.day as int)
    }

    /// The date's Monday-based weekday number.
    pub open spec fn weekday_number(self) -> int {
        weekday_of(self.year as int, self.month as int, self.day as int)
    }

    /// The date's 1-based ordinal within its year.
    pub open spec fn ordinal_number(self) -> int {
        day_of_year_of(self.year as int, self.month as int, self.day as int)
    }

    /// Builds the date `year`-`month`-`day`, or `None` if that is not a real
    /// day of a supported year.
    pub fn new(year: i32, month: u32, day: u32) -> (r: Option<CalendarDate>)
        ensures
            r matches Some(d) ==> d.is_valid() && d == (CalendarDate { year, month, day }),
            r is None ==> !valid_ymd(year as int, month as int, day as int),
    {
        if year < 1 || year > MAX_YEAR || month < 1 || month > 12 {
            return None;
        }
        if day < 1 || day > month_length(year, month) {
            return None;
        }
        Some(CalendarDate { year, month, day })
    }

    pub fn year(&self) -> (r: i32)
        ensures
            r == self.year,
    {
        self.year
    }

    pub fn month(&self) -> (r: u32)
        ensures
            r == self.month,
    {
        self.month
    }

    pub fn day(&self) -> (r: u32)
        ensures
            r == self.day,
    {
        self.day
    }

    /// The 1-based ordinal of the date within its year.
    pub fn ordinal(&self) -> (r: u32)
        requires
            self.is_valid(),
        ensures
            r == self.ordinal_number(),
    {
        let before: u32 = match self.month {
            1 => 0,
            2 => 31,
            3 => 59,
            4 => 90,
            5 => 120,
            6 => 151,
            7 => 181,
            8 => 212,
            9 => 243,
            10 => 273,
            11 => 304,
            _ => 334,
        };
        let leap_add: u32 = if self.month > 2 && is_leap(self.year) {
            1
        } else {
            0
        };
        before + leap_add + self.day
    }

    /// The day count of the date from the start of the common era: the first
    /// day of year 1 is day 1.
    pub fn num_days_from_ce(&self) -> (r: u32)
        requires
            self.is_valid(),
        ensures
            r == self.day_number(),
            1 <= r <= max_day_number(),
    {
        proof {
            lemma_day_number_bounds(self.year as int, self.month as int, self.day as int);
            lemma_days_before_year_bound(self.year as int);
            lemma_day_of_year_bounds(self.year as int, self.month as int, self.day as int);
        }
        days_before_year_count(self.year as u32) + self.ordinal()
    }

    /// The Monday-based weekday number (1 = Monday .. 7 = Sunday).
    pub fn weekday(&self) -> (w: u32)
        requires
            self.is_valid(),
        ensures
            w == self.weekday_number(),
            1 <= w <= 7,
    {
        let n = self.num_days_from_ce();
        (n - 1) % 7 + 1
    }

    /// The total (chronological) order on dates: whether this date is on or
    /// before `other`.
    pub fn le(&self, other: &CalendarDate) -> (r: bool)
        requires
            self.is_valid(),
            other.is_valid(),
        ensures
            r == (self.day_number() <= other.day_number()),
    {
        self.num_days_from_ce() <= other.num_days_from_ce()
    }

    /// The day after this one.
    pub fn next_day(&self) -> (r: CalendarDate)
        requires
            self.is_valid(),
            self.day_number() < max_day_number(),
        ensures
            r.is_valid(),
            r.day_number() == self.day_number() + 1,
    {
        proof {
            if self.year == MAX_YEAR && self.month == 12 && self.day == 31 {
                lemma_day_number_bounds(self.year as int, self.month as int, self.day as int);
            }
        }
        if self.day < month_length(self.year, self.month) {
            CalendarDate { year: self.year, month: self.month, day: self.day + 1 }
        } else if self.month < 12 {
            CalendarDate { year: self.year, month: self.month + 1, day: 1 }
        } else {
            CalendarDate { year: self.year + 1, month: 1, day: 1 }
        }
    }

    /// The day before this one.
    pub fn prev_day(&self) -> (r: CalendarDate)
        requires
            self.is_valid(),
            self.day_number() > 1,
        ensures
            r.is_valid(),
            r.day_number() == self.day_number() - 1,
    {
        proof {
            if self.year == 1 && self.month == 1 && self.day == 1 {
                lemma_days_before_year_bound(self.year as int);
            }
        }
        if self.day > 1 {
            CalendarDate { year: self.year, month: self.month, day: self.day - 1 }
        } else if self.month > 1 {
            let m = self.month - 1;
            CalendarDate { year: self.year, month: m, day: month_length(self.year, m) }
        } else {
            CalendarDate { year: self.year - 1, month: 12, day: 31 }
        }
    }

    /// The date `n` days after this one, or `None` if that falls outside the
    /// supported years.
    pub fn add_days(&self, n: u32) -> (r: Option<CalendarDate>)
        requires
            self.is_valid(),
        ensures
            r matches Some(d) ==> d.is_valid() && d.day_number() == self.day_number() + n,
            r is None ==> self.day_number() + n > max_day_number(),
    {
        let mut cur: CalendarDate = *self;
        let mut i: u32 = 0;
        proof {
            lemma_day_number_bounds(self.year as int, self.month as int, self.day as int);
        }
        while i < n
            invariant
                i <= n,
                cur.is_valid(),
                cur.day_number() == self.day_number() + i,
            decreases n - i,
        {
            if cur.year == MAX_YEAR && cur.month == 12 && cur.day == 31 {
                proof {
                    lemma_day_number_bounds(cur.year as int, cur.month as int, cur.day as int);
                    lemma_day_number_injective(
                        cur.year as int,
                        cur.month as int,
                        cur.day as int,
                        MAX_YEAR as int,
                        12,
                        31,
                    );
                }
                return None;
            }
            proof {
                lemma_day_number_bounds(cur.year as int, cur.month as int, cur.day as int);
                if cur.day_number() == max_day_number() {
                    lemma_day_number_injective(
                        cur.year as int,
                        cur.month as int,
                        cur.day as int,
                        MAX_YEAR as int,
                        12,
                        31,
                    );
                }
            }
            cur = cur.next_day();
            i = i + 1;
        }
        Some(cur)
    }

    /// The date `n` days before this one, or `None` if that falls before the
    /// first supported day.
    pub fn sub_days(&self, n: u32) -> (r: Option<CalendarDate>)
        requires
            self.is_valid(),
        ensures
            r matches Some(d) ==> d.is_valid() && d.day_number() == self.day_number() - n,
            r is None ==> self.day_number() - n < 1,
    {
        let mut cur: CalendarDate = *self;
        let mut i: u32 = 0;
        while i < n
            invariant
                i <= n,
                cur.is_valid(),
                cur.day_number() == self.day_number() - i,
            decreases n - i,
        {
            if cur.year == 1 && cur.month == 1 && cur.day == 1 {
                proof {
                    lemma_days_before_year_bound(cur.year as int);
                }
                return None;
            }
            proof {
                lemma_day_number_bounds(cur.year as int, cur.month as int, cur.day as int);
                if cur.day_number() == 1 {
                    lemma_day_number_injective(
                        cur.year as int,
                        cur.month as int,
                        cur.day as int,
                        1,
                        1,
                        1,
                    );
                }
            }
            cur = cur.prev_day();
            i = i + 1;
        }
        Some(cur)
    }
}

/// Runtime test for [`is_leap_year`].
pub fn is_leap(y: i32) -> (r: bool)
    requires
        y >= 1,
    ensures
        r == is_leap_year(y as int),
{
    y % 4 == 0 && (y % 100 != 0 || y % 400 == 0)
}

/// Runtime evaluation of [`days_in_month`].
pub fn month_length(year: i32, month: u32) -> (r: u32)
    requires
        year >= 1,
        1 <= month <= 12,
    ensures
        r == days_in_month(year as int, month as int),
{
    if month == 2 {
        if is_leap(year) {
            29
        } else {
            28
        }
    } else if month == 4 || month == 6 || month == 9 || month == 11 {
        30
    } else {
        31
    }
}

/// Runtime evaluation of [`days_before_year`], through its closed form.
fn days_before_year_count(y: u32) -> (r: u32)
    requires
        1 <= y <= MAX_YEAR,
    ensures
        r == days_before_year(y as int),
{
    proof {
        lemma_days_before_year_closed(y as int);
        lemma_fundamental_div_mod((y - 1) as int, 4);
        lemma_mod_bound((y - 1) as int, 4);
        lemma_fundamental_div_mod((y - 1) as int, 100);
        lemma_mod_bound((y - 1) as int, 100);
        lemma_fundamental_div_mod((y - 1) as int, 400);
        lemma_mod_bound((y - 1) as int, 400);
    }
    let x = y - 1;
    365 * x + x / 4 - x / 100 + x / 400
}

/// Two valid dates with the same day count are the same date.
pub proof fn lemma_day_number_injective(y1: int, m1: int, d1: int, y2: int, m2: int, d2: int)
    requires
        valid_ymd(y1, m1, d1),
        valid_ymd(y2, m2, d2),
        days_from_ce_of(y1, m1, d1) == days_from_ce_of(y2, m2, d2),
    ensures
        y1 == y2 && m1 == m2 && d1 == d2,
{
    if y1 < y2 || (y1 == y2 && m1 < m2) || (y1 == y2 && m1 == m2 && d1 < d2) {
        lemma_day_number_monotone(y1, m1, d1, y2, m2, d2);
    } else if y2 < y1 || (y2 == y1 && m2 < m1) || (y2 == y1 && m2 == m1 && d2 < d1) {
        lemma_day_number_monotone(y2, m2, d2, y1, m1, d1);
    }
}

} // verus!
