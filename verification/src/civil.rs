//! Proleptic Gregorian civil-calendar arithmetic.
//!
//! Days are counted as *rata die*: day 0 is 0000-01-01, and the supported
//! range runs through 9999-12-31.  All conversions between day numbers and
//! (year, month, day) triples are verified against the recursive definitions
//! below.

use vstd::prelude::*;

verus! {

pub open spec fn is_leap_year(y: int) -> bool {
    (y % 4 == 0 && y % 100 != 0) || y % 400 == 0
}

pub open spec fn year_len(y: int) -> int {
    if is_leap_year(y) {
        366
    } else {
        365
    }
}

pub open spec fn month_len(y: int, m: int) -> int {
    if m == 2 {
        if is_leap_year(y) {
            29
        } else {
            28
        }
    } else if m == 4 || m == 6 || m == 9 || m == 11 {
        30
    } else {
        31
    }
}

/// Days from the start of year `y` to the start of its month `m`.
pub open spec fn days_before_month(y: int, m: int) -> int
    decreases m,
{
    if m <= 1 {
        0
    } else {
        days_before_month(y, m - 1) + month_len(y, m - 1)
    }
}

/// Days from 0000-01-01 to the start of year `y`.
pub open spec fn days_before_year(y: int) -> int
    decreases y,
{
    if y <= 0 {
        0
    } else {
        days_before_year(y - 1) + year_len(y - 1)
    }
}

/// Greatest supported rata-die day number (9999-12-31).
pub open spec fn max_rd() -> int {
    days_before_year(10000) - 1
}

pub open spec fn valid_ymd(y: int, m: int, d: int) -> bool {
    &&& 0 <= y <= 9999
    &&& 1 <= m <= 12
    &&& 1 <= d <= month_len(y, m)
}

/// The rata-die day number of a civil date.
pub open spec fn rd_of_ymd(y: int, m: int, d: int) -> int {
    days_before_year(y) + days_before_month(y, m) + d - 1
}

/// Year lookup: starting at year `y` with `rem` days left over, walk forward
/// until the remainder falls inside one year.
pub open spec fn find_year(y: int, rem: int) -> (int, int)
    decreases rem,
{
    if rem < year_len(y) || rem <= 0 {
        (y, rem)
    } else {
        find_year(y + 1, rem - year_len(y))
    }
}

/// Month lookup within year `y`, starting at month `m`.
pub open spec fn find_month(y: int, m: int, rem: int) -> (int, int)
    decreases rem,
{
    if rem < month_len(y, m) || rem <= 0 {
        (m, rem)
    } else {
        find_month(y, m + 1, rem - month_len(y, m))
    }
}

/// The civil date (year, month, day-of-month) of a rata-die day number.
pub open spec fn ymd_of_rd(day: int) -> (int, int, int) {
    let (y, rem) = find_year(0, day);
    let (m, dom) = find_month(y, 1, rem);
    (y, m, dom + 1)
}

/// Weekday index of a rata-die day number: 0 = Monday ... 6 = Sunday.
pub open spec fn wd_of_rd(day: int) -> int {
    (day + 5) % 7
}

pub proof fn lemma_days_before_year_step(y: int)
    requires
        y >= 0,
    ensures
        days_before_year(y + 1) == days_before_year(y) + year_len(y),
{
    reveal_with_fuel(days_before_year, 2);
}

pub proof fn lemma_days_before_year_mono(y1: int, y2: int)
    requires
        0 <= y1 <= y2,
    ensures
        days_before_year(y1) <= days_before_year(y2),
        days_before_year(y1) + 365 * (y2 - y1) <= days_before_year(y2),
    decreases y2 - y1,
{
    if y1 < y2 {
        lemma_days_before_year_mono(y1, y2 - 1);
        lemma_days_before_year_step(y2 - 1);
    }
}

pub proof fn lemma_days_before_month_step(y: int, m: int)
    requires
        m >= 1,
    ensures
        days_before_month(y, m + 1) == days_before_month(y, m) + month_len(y, m),
{
    reveal_with_fuel(days_before_month, 2);
}

/// The months of a year together cover exactly the year.
pub proof fn lemma_months_cover_year(y: int)
    ensures
        days_before_month(y, 13) == year_len(y),
{
    reveal_with_fuel(days_before_month, 14);
}

pub proof fn lemma_days_before_month_mono(y: int, m1: int, m2: int)
    requires
        1 <= m1 <= m2,
    ensures
        days_before_month(y, m1) <= days_before_month(y, m2),
    decreases m2 - m1,
{
    if m1 < m2 {
        lemma_days_before_month_mono(y, m1, m2 - 1);
        lemma_days_before_month_step(y, m2 - 1);
    }
}

/// A valid civil date maps into the supported rata-die range, and the
/// mapping is the inverse of `ymd_of_rd`'s recursive search.
pub proof fn lemma_rd_of_ymd_in_range(y: int, m: int, d: int)
    requires
        valid_ymd(y, m, d),
    ensures
        0 <= rd_of_ymd(y, m, d) <= max_rd(),
{
    lemma_days_before_year_mono(0, y);
    lemma_days_before_month_mono(y, 1, m);
    lemma_days_before_month_mono(y, m, 12);
    lemma_months_cover_year(y);
    lemma_days_before_month_step(y, 12);
    lemma_days_before_year_step(y);
    lemma_days_before_year_mono(y + 1, 10000);
}

/// Bounds that place the supported day range well inside `i64`.
pub proof fn lemma_days_before_year_bounds(y: int)
    requires
        0 <= y,
    ensures
        365 * y <= days_before_year(y) <= 366 * y,
    decreases y,
{
    if y > 0 {
        lemma_days_before_year_bounds(y - 1);
        lemma_days_before_year_step(y - 1);
    }
}

/// The numeric size of the supported day range.
pub proof fn lemma_max_rd_bound()
    ensures
        3649999 <= max_rd() < 3660000,
{
    lemma_days_before_year_bounds(10000);
}

proof fn lemma_find_year_characterizes(y: int, rem: int)
    requires
        0 <= y,
        0 <= rem,
    ensures
        ({
            let (ry, rr) = find_year(y, rem);
            &&& ry >= y
            &&& 0 <= rr < year_len(ry)
            &&& days_before_year(ry) + rr == days_before_year(y) + rem
        }),
    decreases rem,
{
    if rem < year_len(y) || rem <= 0 {
    } else {
        lemma_days_before_year_step(y);
        lemma_find_year_characterizes(y + 1, rem - year_len(y));
    }
}

proof fn lemma_find_month_characterizes(y: int, m: int, rem: int)
    requires
        1 <= m,
        0 <= rem,
    ensures
        ({
            let (rm, rr) = find_month(y, m, rem);
            &&& rm >= m
            &&& 0 <= rr < month_len(y, rm)
            &&& days_before_month(y, rm) + rr == days_before_month(y, m) + rem
        }),
    decreases rem,
{
    if rem < month_len(y, m) || rem <= 0 {
    } else {
        lemma_days_before_month_step(y, m);
        lemma_find_month_characterizes(y, m + 1, rem - month_len(y, m));
    }
}

/// Every day in the supported range maps to a valid civil date, and the two
/// conversions are mutually inverse.
pub proof fn lemma_ymd_of_rd_valid(day: int)
    requires
        0 <= day <= max_rd(),
    ensures
        ({
            let (y, m, d) = ymd_of_rd(day);
            &&& valid_ymd(y, m, d)
            &&& rd_of_ymd(y, m, d) == day
        }),
{
    let (y, rem) = find_year(0, day);
    lemma_find_year_characterizes(0, day);
    let (m, dom) = find_month(y, 1, rem);
    lemma_find_month_characterizes(y, 1, rem);
    if y >= 10000 {
        lemma_days_before_year_mono(10000, y);
    }
    if m >= 13 {
        lemma_months_cover_year(y);
        lemma_days_before_month_mono(y, 13, m);
    }
}

/// The two civil dates of two distinct day numbers differ.
pub proof fn lemma_rd_of_ymd_injective(y1: int, m1: int, d1: int, y2: int, m2: int, d2: int)
    requires
        valid_ymd(y1, m1, d1),
        valid_ymd(y2, m2, d2),
        rd_of_ymd(y1, m1, d1) == rd_of_ymd(y2, m2, d2),
    ensures
        y1 == y2 && m1 == m2 && d1 == d2,
{
    lemma_ymd_in_year_range(y1, m1, d1);
    lemma_ymd_in_year_range(y2, m2, d2);
    if y1 < y2 {
        lemma_days_before_year_step(y1);
        lemma_days_before_year_mono(y1 + 1, y2);
    }
    if y2 < y1 {
        lemma_days_before_year_step(y2);
        lemma_days_before_year_mono(y2 + 1, y1);
    }
    if m1 < m2 {
        lemma_ymd_in_month_range(y1, m1, d1);
        lemma_days_before_month_step(y1, m1);
        lemma_days_before_month_mono(y1, m1 + 1, m2);
    }
    if m2 < m1 {
        lemma_ymd_in_month_range(y1, m2, d2);
        lemma_days_before_month_step(y1, m2);
        lemma_days_before_month_mono(y1, m2 + 1, m1);
    }
}

/// A date's offset within its year lies inside the year.
proof fn lemma_ymd_in_year_range(y: int, m: int, d: int)
    requires
        valid_ymd(y, m, d),
    ensures
        0 <= days_before_month(y, m) + d - 1 < year_len(y),
{
    lemma_days_before_month_mono(y, 1, m);
    lemma_days_before_month_step(y, m);
    lemma_days_before_month_mono(y, m + 1, 13);
    lemma_months_cover_year(y);
}

/// A date's offset within its month lies inside the month.
proof fn lemma_ymd_in_month_range(y: int, m: int, d: int)
    requires
        1 <= m <= 12,
        1 <= d <= month_len(y, m),
    ensures
        days_before_month(y, m) <= days_before_month(y, m) + d - 1 < days_before_month(y, m + 1),
{
    lemma_days_before_month_step(y, m);
}

pub fn leap_year(y: i64) -> (r: bool)
    requires
        0 <= y <= 10000,
    ensures
        r == is_leap_year(y as int),
{
    (y % 4 == 0 && y % 100 != 0) || y % 400 == 0
}

pub fn year_length(y: i64) -> (r: i64)
    requires
        0 <= y <= 10000,
    ensures
        r == year_len(y as int),
{
    if leap_year(y) {
        366
    } else {
        365
    }
}

pub fn month_length(y: i64, m: i64) -> (r: i64)
    requires
        0 <= y <= 10000,
    ensures
        r == month_len(y as int, m as int),
{
    if m == 2 {
        if leap_year(y) {
            29
        } else {
            28
        }
    } else if m == 4 || m == 6 || m == 9 || m == 11 {
        30
    } else {
        31
    }
}

/// Days from 0000-01-01 to the start of year `y`.
pub fn year_start(y: i64) -> (r: i64)
    requires
        0 <= y <= 10000,
    ensures
        r == days_before_year(y as int),
        0 <= r <= 366 * y,
{
    let mut i: i64 = 0;
    let mut acc: i64 = 0;
    while i < y
        invariant
            0 <= i <= y <= 10000,
            acc == days_before_year(i as int),
            0 <= acc <= 366 * i,
        decreases y - i,
    {
        proof {
            lemma_days_before_year_step(i as int);
        }
        acc = acc + year_length(i);
        i = i + 1;
    }
    acc
}

/// Days from the start of year `y` to the start of its month `m`.
pub fn month_start(y: i64, m: i64) -> (r: i64)
    requires
        0 <= y <= 10000,
        1 <= m <= 13,
    ensures
        r == days_before_month(y as int, m as int),
        0 <= r <= 403,
{
    let mut i: i64 = 1;
    let mut acc: i64 = 0;
    while i < m
        invariant
            0 <= y <= 10000,
            1 <= i <= m <= 13,
            acc == days_before_month(y as int, i as int),
            0 <= acc <= 31 * (i - 1),
        decreases m - i,
    {
        proof {
            lemma_days_before_month_step(y as int, i as int);
        }
        acc = acc + month_length(y, i);
        i = i + 1;
    }
    acc
}

/// The greatest supported day number, as a run-time value.
pub fn max_day() -> (r: i64)
    ensures
        r == max_rd(),
{
    proof {
        lemma_max_rd_bound();
    }
    year_start(10000) - 1
}

/// The rata-die day number of a valid civil date.
pub fn rd_from_ymd(y: i64, m: i64, d: i64) -> (r: i64)
    requires
        valid_ymd(y as int, m as int, d as int),
    ensures
        r == rd_of_ymd(y as int, m as int, d as int),
        0 <= r <= max_rd(),
{
    proof {
        lemma_rd_of_ymd_in_range(y as int, m as int, d as int);
    }
    year_start(y) + month_start(y, m) + d - 1
}

/// The civil date of a rata-die day number in the supported range.
pub fn ymd_from_rd(day: i64) -> (r: (i64, i64, i64))
    requires
        0 <= day <= max_rd(),
    ensures
        valid_ymd(r.0 as int, r.1 as int, r.2 as int),
        rd_of_ymd(r.0 as int, r.1 as int, r.2 as int) == day,
        (r.0 as int, r.1 as int, r.2 as int) == ymd_of_rd(day as int),
{
    proof {
        lemma_max_rd_bound();
    }
    let mut y: i64 = 0;
    let mut rem: i64 = day;
    while rem >= year_length(y)
        invariant
            0 <= y <= 10000,
            0 <= rem <= day <= max_rd(),
            max_rd() < 3660000,
            days_before_year(y as int) + rem == day,
        decreases rem,
    {
        proof {
            lemma_days_before_year_step(y as int);
            if y as int + 1 > 10000 {
                lemma_days_before_year_mono(10000, y as int + 1);
            }
        }
        rem = rem - year_length(y);
        y = y + 1;
    }
    proof {
        if y as int == 10000 {
            assert(days_before_year(10000) <= day);
        }
    }
    let ghost rem0 = rem as int;
    let mut m: i64 = 1;
    while rem >= month_length(y, m)
        invariant
            0 <= y <= 9999,
            1 <= m <= 13,
            0 <= rem <= rem0,
            days_before_month(y as int, m as int) + rem == rem0,
            rem0 < year_len(y as int),
        decreases rem,
    {
        proof {
            lemma_days_before_month_step(y as int, m as int);
            lemma_months_cover_year(y as int);
            if m as int + 1 > 13 {
                lemma_days_before_month_mono(y as int, 13, m as int + 1);
            }
        }
        rem = rem - month_length(y, m);
        m = m + 1;
    }
    proof {
        if m as int == 13 {
            lemma_months_cover_year(y as int);
        }
        assert(valid_ymd(y as int, m as int, rem as int + 1));
        assert(rd_of_ymd(y as int, m as int, rem as int + 1) == day);
        lemma_ymd_of_rd_valid(day as int);
        let (sy, sm, sd) = ymd_of_rd(day as int);
        lemma_rd_of_ymd_injective(sy, sm, sd, y as int, m as int, rem as int + 1);
    }
    (y, m, rem + 1)
}

/// Weekday index of a day number: 0 = Monday ... 6 = Sunday.
pub fn wd_from_rd(day: i64) -> (r: u8)
    requires
        0 <= day,
    ensures
        r == wd_of_rd(day as int),
        r < 7,
{
    (((day as u64 % 7) + 5) % 7) as u8
}

} // verus!
