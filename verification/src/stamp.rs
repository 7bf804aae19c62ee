use vstd::prelude::*;

verus! {

/// Largest day number a `Stamp` may carry. Day 0 is 1970-01-01; this bound
/// keeps every derived quantity (minutes, seconds) far from `i64` overflow
/// and inside the range the calendar facilities accept.
pub const MAX_DAY: i64 = 50_000_000;

/// A naive local timestamp with minute resolution: a day number counted from
/// 1970-01-01 (a Thursday) together with an hour and a minute of that day.
#[derive(Clone, Copy, Debug, PartialEq, Eq, Structural)]
pub struct Stamp {
    pub day: i64,
    pub hour: u32,
    pub min: u32,
}

impl Stamp {
    /// Validity: the day number is in range and the time of day is real.
    pub open spec fn wf(self) -> bool {
        0 <= self.day <= MAX_DAY && self.hour < 24 && self.min < 60
    }

    /// Total order on stamps, as minutes since day 0.
    pub open spec fn key(self) -> int {
        self.day * 1440 + self.hour * 60 + self.min
    }

    /// The stamp's instant as naive seconds since day 0 at midnight.
    pub open spec fn key_secs(self) -> int {
        self.day * 86400 + self.hour * 3600 + self.min * 60
    }

    /// Weekday of the stamp's date, counted as days from Sunday (0 = Sunday).
    pub open spec fn weekday(self) -> int {
        weekday_of_day(self.day as int)
    }

    /// The stamp's ordering key in executable code.
    pub fn key_val(&self) -> (r: i64)
        requires
            self.wf(),
        ensures
            r == self.key(),
    {
        self.day * 1440 + (self.hour as i64) * 60 + (self.min as i64)
    }

    /// Naive seconds since day 0 at midnight, as a machine integer.
    pub fn to_secs(&self) -> (r: i64)
        requires
            self.wf(),
        ensures
            r == self.key_secs(),
    {
        self.day * 86400 + (self.hour as i64) * 3600 + (self.min as i64) * 60
    }
}

/// A year has a 29-day February exactly when the Gregorian leap rule says so.
pub open spec fn is_leap_year(y: int) -> bool {
    y % 4 == 0 && (y % 100 != 0 || y % 400 == 0)
}

/// Days in a month of the Gregorian calendar.
pub open spec fn days_in_month(y: int, m: int) -> int {
    if m == 2 {
        if is_leap_year(y) {
            29
        } else {
            28
        }
    } else if m == 4 || m == 6 || m == 9 || m == 11 {
        30
    } else {
        31
    }
}

/// Days in a whole year.
pub open spec fn days_in_year(y: int) -> int {
    if is_leap_year(y) {
        366
    } else {
        365
    }
}

/// Days from the start of 1970 to the start of year `y`.
pub open spec fn days_before_year(y: int) -> int
    decreases y - 1970,
{
    if y <= 1970 {
        0
    } else {
        days_before_year(y - 1) + days_in_year(y - 1)
    }
}

/// Days from the start of year `y` to the start of its month `m`.
pub open spec fn days_before_month(y: int, m: int) -> int
    decreases m,
{
    if m <= 1 {
        0
    } else {
        days_before_month(y, m - 1) + days_in_month(y, m - 1)
    }
}

/// Day number of the calendar date `y`-`m`-`d`, counted from 1970-01-01.
pub open spec fn day_number(y: int, m: int, d: int) -> int {
    days_before_year(y) + days_before_month(y, m) + (d - 1)
}

/// Whether a year of the supported span is a leap year.
fn leap(y: i32) -> (r: bool)
    requires
        0 <= y,
    ensures
        r == is_leap_year(y as int),
{
    y % 4 == 0 && (y % 100 != 0 || y % 400 == 0)
}

/// Days in a month, in executable code.
fn month_len(y: i32, m: u32) -> (r: u32)
    requires
        0 <= y,
    ensures
        r == days_in_month(y as int, m as int),
{
    if m == 2 {
        if leap(y) {
            29
        } else {
            28
        }
    } else if m == 4 || m == 6 || m == 9 || m == 11 {
        30
    } else {
        31
    }
}

impl Stamp {
    /// Build a stamp from a calendar date and a time of day. Fails exactly
    /// when a part lies outside its range (years before 1970 or after 9999
    /// are not supported).
    pub fn from_ymdhm(y: i32, m: u32, d: u32, hour: u32, min: u32) -> (r: Option<Stamp>)
        ensures
            r is Some <==> (1970 <= y <= 9999 && 1 <= m <= 12 && 1 <= d <= days_in_month(
                y as int,
                m as int,
            ) && hour < 24 && min < 60),
            r is Some ==> r.unwrap() == (Stamp {
                day: day_number(y as int, m as int, d as int) as i64,
                hour,
                min,
            }),
            r is Some ==> r.unwrap().wf(),
    {
        if y < 1970 || y > 9999 || m < 1 || m > 12 || hour > 23 || min > 59 {
            return None;
        }
        let dim = month_len(y, m);
        if d < 1 || d > dim {
            return None;
        }
        let mut acc: i64 = 0;
        let mut cy: i32 = 1970;
        while cy < y
            invariant
                1970 <= cy <= y <= 9999,
                acc == days_before_year(cy as int),
                0 <= acc <= 366 * (cy - 1970),
            decreases y - cy,
        {
            acc = acc + (if leap(cy) {
                366i64
            } else {
                365i64
            });
            cy = cy + 1;
        }
        let mut cm: u32 = 1;
        while cm < m
            invariant
                1 <= cm <= m <= 12,
                1970 <= y <= 9999,
                acc == days_before_year(y as int) + days_before_month(y as int, cm as int),
                0 <= acc <= 366 * (y - 1970) + 31 * (cm - 1),
            decreases m - cm,
        {
            acc = acc + month_len(y, cm) as i64;
            cm = cm + 1;
        }
        Some(Stamp { day: acc + (d - 1) as i64, hour, min })
    }
}

/// Weekday of a day number, as days from Sunday: day 0 (1970-01-01) was a
/// Thursday, four days after a Sunday.
pub open spec fn weekday_of_day(day: int) -> int {
    (day + 4) % 7
}

/// Days to wait, starting at day number `day`, until the weekday is `w`:
/// zero when it already is.
pub open spec fn days_to_weekday(day: int, w: int) -> int {
    let wd = weekday_of_day(day);
    if w >= wd {
        w - wd
    } else {
        w + 7 - wd
    }
}

/// The waiting distance is at most six days, lands exactly on the wanted
/// weekday, and no earlier day has it.
pub proof fn lemma_days_to_weekday(day: int, w: int)
    requires
        0 <= day,
        0 <= w < 7,
    ensures
        0 <= days_to_weekday(day, w) <= 6,
        weekday_of_day(day + days_to_weekday(day, w)) == w,
        days_to_weekday(day, w) == 0 <==> weekday_of_day(day) == w,
        forall|e: int| 0 <= e < days_to_weekday(day, w) ==> #[trigger] weekday_of_day(day + e) != w,
{
    let wd = weekday_of_day(day);
    vstd::arithmetic::div_mod::lemma_mod_bound(day + 4, 7);
    vstd::arithmetic::div_mod::lemma_fundamental_div_mod(day + 4, 7);
    let q = (day + 4) / 7;
    assert forall|e: int| 0 <= e <= 6 implies #[trigger] weekday_of_day(day + e) == (if wd + e < 7 {
        wd + e
    } else {
        wd + e - 7
    }) by {
        if wd + e < 7 {
            vstd::arithmetic::div_mod::lemma_mod_multiples_vanish(q, wd + e, 7);
            vstd::arithmetic::div_mod::lemma_small_mod((wd + e) as nat, 7);
        } else {
            vstd::arithmetic::div_mod::lemma_mod_multiples_vanish(q + 1, wd + e - 7, 7);
            vstd::arithmetic::div_mod::lemma_small_mod((wd + e - 7) as nat, 7);
        }
    }
}

/// Two distinct day numbers with the same weekday are at least a week apart.
pub proof fn lemma_weekday_return(a: int, b: int)
    requires
        0 <= a < b,
        weekday_of_day(a) == weekday_of_day(b),
    ensures
        b >= a + 7,
{
    vstd::arithmetic::div_mod::lemma_mod_equivalence(a + 4, b + 4, 7);
    vstd::arithmetic::div_mod::lemma_fundamental_div_mod(b - a, 7);
    let q = (b - a) / 7;
    assert(b - a == 7 * q);
    assert(q >= 1) by {
        if q <= 0 {
            assert(7 * q <= 0);
        }
    }
}

/// Weekday of a day number in executable code.
pub fn weekday_of(day: i64) -> (w: u32)
    requires
        0 <= day <= MAX_DAY,
    ensures
        w == weekday_of_day(day as int),
        w < 7,
{
    ((day + 4) % 7) as u32
}

} // verus!
