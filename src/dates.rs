//! Calendar dates of the proleptic Gregorian calendar, held as year, month and
//! day, with the day counts and month arithmetic that billing periods need.
use vstd::prelude::*;

verus! {

/// The first year a `CivilDate` may carry.
pub const MIN_YEAR: u32 = 1;

/// The last year a `CivilDate` may carry.
pub const MAX_YEAR: u32 = 9999;

/// Seconds in one calendar day (no leap seconds).
pub const SECONDS_PER_DAY: u64 = 86400;

/// Seconds in one hour.
pub const SECONDS_PER_HOUR: u64 = 3600;

pub open spec fn is_leap_year(y: int) -> bool {
    (y % 4 == 0 && y % 100 != 0) || y % 400 == 0
}

/// Number of days in month `m` (1 to 12) of year `y`.
pub open spec fn month_length(y: int, m: int) -> int {
    if m == 2 {
        if is_leap_year(y) {
            29
        } else {
            28
        }
    } else if m == 4 || m == 6 || m == 9 || m == 11 {
        30
    } else {
        31
    }
}

pub open spec fn year_length(y: int) -> int {
    if is_leap_year(y) {
        366
    } else {
        365
    }
}

/// Days of year `y` that lie in the months before month `m`.
pub open spec fn days_before_month(y: int, m: int) -> int {
    let leap: int = if is_leap_year(y) {
        1
    } else {
        0
    };
    if m <= 1 {
        0
    } else if m == 2 {
        31
    } else if m == 3 {
        59 + leap
    } else if m == 4 {
        90 + leap
    } else if m == 5 {
        120 + leap
    } else if m == 6 {
        151 + leap
    } else if m == 7 {
        181 + leap
    } else if m == 8 {
        212 + leap
    } else if m == 9 {
        243 + leap
    } else if m == 10 {
        273 + leap
    } else if m == 11 {
        304 + leap
    } else {
        334 + leap
    }
}

/// Days from 0001-01-01 to the first day of year `y`.
pub open spec fn days_before_year(y: int) -> int {
    365 * (y - 1) + (y - 1) / 4 - (y - 1) / 100 + (y - 1) / 400
}

/// A date of the Gregorian calendar.
#[derive(Clone, Copy, Debug, PartialEq, Eq, Structural)]
pub struct CivilDate {
    pub year: u32,
    pub month: u32,
    pub day: u32,
}

/// Days from 0001-01-01 to `d`: the date's position on a line of days.
pub open spec fn day_index(d: CivilDate) -> int {
    days_before_year(d.year as int) + days_before_month(d.year as int, d.month as int) + d.day - 1
}

/// Number of days in the half-open interval `[from, to)`.
pub open spec fn days_between(from: CivilDate, to: CivilDate) -> int {
    day_index(to) - day_index(from)
}

/// Months counted from year 0, month 1: `year * 12 + month - 1`.
pub open spec fn month_index(d: CivilDate) -> int {
    d.year * 12 + d.month - 1
}

/// Whether a month index falls in a year that a `CivilDate` may carry.
pub open spec fn month_index_in_range(mi: int) -> bool {
    MIN_YEAR * 12 <= mi && mi < (MAX_YEAR + 1) * 12
}

/// The date in the month with index `mi` on day `day`, or on that month's last
/// day where the month is shorter.
pub open spec fn date_in_month(mi: int, day: int) -> CivilDate {
    let y = mi / 12;
    let m = mi % 12 + 1;
    let last = month_length(y, m);
    CivilDate { year: y as u32, month: m as u32, day: (if day <= last { day } else { last }) as u32 }
}

/// `d` moved by `delta` months, the day kept or clamped to the end of the month.
pub open spec fn shift_months(d: CivilDate, delta: int) -> CivilDate {
    date_in_month(month_index(d) + delta, d.day as int)
}

/// `a` comes strictly before `b` in calendar order.
pub open spec fn date_before(a: CivilDate, b: CivilDate) -> bool {
    a.year < b.year || (a.year == b.year && (a.month < b.month || (a.month == b.month && a.day
        < b.day)))
}

impl CivilDate {
    /// A real date, in the supported range of years.
    pub open spec fn valid(self) -> bool {
        &&& MIN_YEAR <= self.year <= MAX_YEAR
        &&& 1 <= self.month <= 12
        &&& 1 <= self.day <= month_length(self.year as int, self.month as int)
    }

    /// The date for `year`, `month` and `day`, where such a date exists.
    pub fn from_ymd(year: u32, month: u32, day: u32) -> (r: Option<CivilDate>)
        ensures
            r == (if (CivilDate { year, month, day }).valid() {
                Some(CivilDate { year, month, day })
            } else {
                None
            }),
    {
        if year < MIN_YEAR || year > MAX_YEAR || month < 1 || month > 12 {
            return None;
        }
        if day < 1 || day > days_in_month(year, month) {
            return None;
        }
        Some(CivilDate { year, month, day })
    }

    /// Whether this is a real date in the supported range of years.
    pub fn is_valid(&self) -> (r: bool)
        ensures
            r == self.valid(),
    {
        self.year >= MIN_YEAR && self.year <= MAX_YEAR && self.month >= 1 && self.month <= 12
            && self.day >= 1 && self.day <= days_in_month(self.year, self.month)
    }

    /// Days from 0001-01-01 to this date.
    pub fn day_number(&self) -> (r: u64)
        requires
            self.valid(),
        ensures
            r == day_index(*self),
    {
        let y: u64 = self.year as u64 - 1;
        let before_year: u64 = 365 * y + y / 4 - y / 100 + y / 400;
        before_year + cumulative_days(self.year, self.month) + self.day as u64 - 1
    }

    /// Seconds from 0001-01-01T00:00:00 to the start of this date.
    pub fn start_seconds(&self) -> (r: u64)
        requires
            self.valid(),
        ensures
            r == day_index(*self) * SECONDS_PER_DAY,
    {
        proof {
            lemma_day_index_bounds(*self);
        }
        self.day_number() * SECONDS_PER_DAY
    }

    /// This date moved forward by `months` months, the day clamped to the end
    /// of a shorter month; `None` past the last supported year.
    pub fn checked_add_months(&self, months: u32) -> (r: Option<CivilDate>)
        requires
            self.valid(),
        ensures
            r == (if month_index_in_range(month_index(*self) + months) {
                Some(shift_months(*self, months as int))
            } else {
                None
            }),
            r is Some ==> r->Some_0.valid(),
    {
        let mi: u64 = self.year as u64 * 12 + self.month as u64 - 1 + months as u64;
        if mi >= (MAX_YEAR as u64 + 1) * 12 {
            return None;
        }
        Some(date_of_month_index(mi, self.day))
    }

    /// This date moved back by `months` months, the day clamped to the end of a
    /// shorter month; `None` before the first supported year.
    pub fn checked_sub_months(&self, months: u32) -> (r: Option<CivilDate>)
        requires
            self.valid(),
        ensures
            r == (if month_index_in_range(month_index(*self) - months) {
                Some(shift_months(*self, -(months as int)))
            } else {
                None
            }),
            r is Some ==> r->Some_0.valid(),
    {
        let mi: u64 = self.year as u64 * 12 + self.month as u64 - 1;
        if mi < MIN_YEAR as u64 * 12 + months as u64 {
            return None;
        }
        Some(date_of_month_index(mi - months as u64, self.day))
    }
}

/// Number of days in `month` of `year`.
pub fn days_in_month(year: u32, month: u32) -> (r: u32)
    requires
        1 <= month <= 12,
    ensures
        r == month_length(year as int, month as int),
{
    if month == 2 {
        if is_leap(year) {
            29
        } else {
            28
        }
    } else if month == 4 || month == 6 || month == 9 || month == 11 {
        30
    } else {
        31
    }
}

/// Whether `year` is a leap year of the Gregorian calendar.
pub fn is_leap(year: u32) -> (r: bool)
    ensures
        r == is_leap_year(year as int),
{
    (year % 4 == 0 && year % 100 != 0) || year % 400 == 0
}

fn cumulative_days(year: u32, month: u32) -> (r: u64)
    requires
        1 <= month <= 12,
    ensures
        r == days_before_month(year as int, month as int),
{
    let leap: u64 = if is_leap(year) {
        1
    } else {
        0
    };
    if month == 1 {
        0
    } else if month == 2 {
        31
    } else if month == 3 {
        59 + leap
    } else if month == 4 {
        90 + leap
    } else if month == 5 {
        120 + leap
    } else if month == 6 {
        151 + leap
    } else if month == 7 {
        181 + leap
    } else if month == 8 {
        212 + leap
    } else if month == 9 {
        243 + leap
    } else if month == 10 {
        273 + leap
    } else if month == 11 {
        304 + leap
    } else {
        334 + leap
    }
}

fn date_of_month_index(mi: u64, day: u32) -> (r: CivilDate)
    requires
        month_index_in_range(mi as int),
        1 <= day,
    ensures
        r == date_in_month(mi as int, day as int),
        r.valid(),
{
    let year = (mi / 12) as u32;
    let month = (mi % 12 + 1) as u32;
    let last = days_in_month(year, month);
    let d = if day <= last {
        day
    } else {
        last
    };
    CivilDate { year, month, day: d }
}

// Lemmas on the day line.
pub proof fn lemma_day_index_bounds(d: CivilDate)
    requires
        d.valid(),
    ensures
        0 <= day_index(d) < 3_700_000,
{
    let y = d.year as int - 1;
    assert(0 <= y / 4 <= y);
    assert(y / 100 <= y / 4);
    assert(0 <= y / 400);
}

proof fn lemma_month_step(y: int, m: int)
    requires
        1 <= m <= 12,
    ensures
        m < 12 ==> days_before_month(y, m) + month_length(y, m) == days_before_month(y, m + 1),
        m == 12 ==> days_before_month(y, m) + month_length(y, m) == year_length(y),
{
}

proof fn lemma_months_increasing(y: int, m1: int, m2: int)
    requires
        1 <= m1 < m2 <= 12,
    ensures
        days_before_month(y, m1) + month_length(y, m1) <= days_before_month(y, m2),
    decreases m2 - m1,
{
    lemma_month_step(y, m1);
    if m1 + 1 < m2 {
        lemma_months_increasing(y, m1 + 1, m2);
    }
}

proof fn lemma_day_within_year(d: CivilDate)
    requires
        d.valid(),
    ensures
        days_before_month(d.year as int, d.month as int) + d.day - 1 < year_length(d.year as int),
{
    lemma_month_step(d.year as int, d.month as int);
    if d.month < 12 {
        lemma_months_increasing(d.year as int, d.month as int, 12);
        lemma_month_step(d.year as int, 12);
    }
}

proof fn lemma_year_step(y: int)
    requires
        1 <= y,
    ensures
        days_before_year(y) + year_length(y) == days_before_year(y + 1),
{
    assert(y / 4 - (y - 1) / 4 == (if y % 4 == 0 {
        1int
    } else {
        0
    }));
    assert(y / 100 - (y - 1) / 100 == (if y % 100 == 0 {
        1int
    } else {
        0
    }));
    assert(y / 400 - (y - 1) / 400 == (if y % 400 == 0 {
        1int
    } else {
        0
    }));
}

proof fn lemma_years_increasing(y1: int, y2: int)
    requires
        1 <= y1 < y2,
    ensures
        days_before_year(y1) + year_length(y1) <= days_before_year(y2),
    decreases y2 - y1,
{
    lemma_year_step(y1);
    if y1 + 1 < y2 {
        lemma_years_increasing(y1 + 1, y2);
        lemma_year_step(y1 + 1);
    }
}

/// Calendar order and the day line agree: an earlier date has a smaller index.
pub proof fn lemma_day_index_increasing(a: CivilDate, b: CivilDate)
    requires
        a.valid(),
        b.valid(),
        date_before(a, b),
    ensures
        day_index(a) < day_index(b),
{
    if a.year < b.year {
        lemma_day_within_year(a);
        lemma_years_increasing(a.year as int, b.year as int);
    } else if a.month < b.month {
        lemma_months_increasing(a.year as int, a.month as int, b.month as int);
    }
}

/// Moving a date forward by at least one month lands on a later date.
pub proof fn lemma_shift_forward_later(d: CivilDate, k: int)
    requires
        d.valid(),
        k >= 1,
        month_index_in_range(month_index(d) + k),
    ensures
        shift_months(d, k).valid(),
        date_before(d, shift_months(d, k)),
        day_index(d) < day_index(shift_months(d, k)),
{
    let e = shift_months(d, k);
    let mi = month_index(d) + k;
    assert(mi / 12 >= d.year);
    assert(e.valid());
    lemma_day_index_increasing(d, e);
}

} // verus!
