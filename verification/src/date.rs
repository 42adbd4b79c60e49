//! The date model: a tagged value that is either an instant in a named time
//! zone or a whole civil day, with a total order, duration arithmetic and
//! civil-calendar accessors.
//!
//! A timed value stores its *local* civil reading — a rata-die day number and
//! a second-of-day — together with the zone's UTC offset at that reading, so
//! that its instant is `day * 86400 + sod - offset` and its civil accessors
//! read the local fields directly.

use vstd::arithmetic::div_mod::{lemma_fundamental_div_mod_converse, lemma_multiply_divide_lt};
use vstd::prelude::*;

use crate::errors::EventError;
use crate::text::{all_digits, contains_char, dec_field, dec_val};
use crate::civil::{
    days_before_year, lemma_max_rd_bound, max_day, max_rd, month_len, month_length, rd_from_ymd,
    rd_of_ymd, valid_ymd, wd_from_rd, wd_of_rd, year_start, ymd_from_rd, ymd_of_rd,
};

verus! {

#[derive(Debug, Copy, Clone, PartialEq, Eq, Structural)]
pub enum Weekday {
    Mon,
    Tue,
    Wed,
    Thu,
    Fri,
    Sat,
    Sun,
}

impl Weekday {
    /// Index of the weekday: 0 = Monday ... 6 = Sunday.
    pub open spec fn idx(self) -> int {
        match self {
            Weekday::Mon => 0,
            Weekday::Tue => 1,
            Weekday::Wed => 2,
            Weekday::Thu => 3,
            Weekday::Fri => 4,
            Weekday::Sat => 5,
            Weekday::Sun => 6,
        }
    }

    pub fn index(self) -> (r: u8)
        ensures
            r == self.idx(),
    {
        match self {
            Weekday::Mon => 0,
            Weekday::Tue => 1,
            Weekday::Wed => 2,
            Weekday::Thu => 3,
            Weekday::Fri => 4,
            Weekday::Sat => 5,
            Weekday::Sun => 6,
        }
    }

    pub fn from_index(i: u8) -> (r: Weekday)
        requires
            i < 7,
        ensures
            r.idx() == i,
    {
        if i == 0 {
            Weekday::Mon
        } else if i == 1 {
            Weekday::Tue
        } else if i == 2 {
            Weekday::Wed
        } else if i == 3 {
            Weekday::Thu
        } else if i == 4 {
            Weekday::Fri
        } else if i == 5 {
            Weekday::Sat
        } else {
            Weekday::Sun
        }
    }

    /// The next day of the week, wrapping from Sunday to Monday.
    pub fn succ(self) -> (r: Weekday)
        ensures
            r.idx() == (self.idx() + 1) % 7,
    {
        match self {
            Weekday::Mon => Weekday::Tue,
            Weekday::Tue => Weekday::Wed,
            Weekday::Wed => Weekday::Thu,
            Weekday::Thu => Weekday::Fri,
            Weekday::Fri => Weekday::Sat,
            Weekday::Sat => Weekday::Sun,
            Weekday::Sun => Weekday::Mon,
        }
    }
}

/// A signed span of time, counted in whole seconds.
#[derive(Debug, Copy, Clone, PartialEq, Eq, Structural)]
pub struct Duration {
    pub secs: i64,
}

/// Truncating conversion of seconds to whole days (toward zero).
pub open spec fn secs_to_days(s: int) -> int {
    if s >= 0 {
        s / 86400
    } else {
        -((-s) / 86400)
    }
}

impl Duration {
    pub fn seconds(n: i64) -> (r: Duration)
        ensures
            r.secs == n,
    {
        Duration { secs: n }
    }

    pub fn minutes(n: i64) -> (r: Duration)
        requires
            i64::MIN <= n * 60 <= i64::MAX,
        ensures
            r.secs == n * 60,
    {
        Duration { secs: n * 60 }
    }

    pub fn hours(n: i64) -> (r: Duration)
        requires
            i64::MIN <= n * 3600 <= i64::MAX,
        ensures
            r.secs == n * 3600,
    {
        Duration { secs: n * 3600 }
    }

    pub fn days(n: i64) -> (r: Duration)
        requires
            i64::MIN <= n * 86400 <= i64::MAX,
        ensures
            r.secs == n * 86400,
    {
        Duration { secs: n * 86400 }
    }

    pub fn weeks(n: i64) -> (r: Duration)
        requires
            i64::MIN <= n * 604800 <= i64::MAX,
        ensures
            r.secs == n * 604800,
    {
        Duration { secs: n * 604800 }
    }

    /// Whole days in this span, truncated toward zero.
    pub fn num_days(self) -> (r: i64)
        requires
            self.secs > i64::MIN,
        ensures
            r == secs_to_days(self.secs as int),
    {
        if self.secs >= 0 {
            ((self.secs as u64) / 86400) as i64
        } else {
            let n: i64 = -self.secs;
            -(((n as u64) / 86400) as i64)
        }
    }
}

/// Either an instant in a named time zone or a whole calendar day.
#[derive(Debug, Copy, Clone, PartialEq, Eq, Structural)]
pub enum Date {
    /// A timed value: local rata-die day, local second of day, and the UTC
    /// offset (seconds east) the zone gave that local reading.
    Time { day: i64, sod: i32, offset: i32 },
    /// A whole civil day.
    AllDay { day: i64 },
}

impl Date {
    pub open spec fn wf(self) -> bool {
        match self {
            Date::Time { day, sod, offset } => {
                &&& 0 <= day <= max_rd()
                &&& 0 <= sod < 86400
                &&& -86400 < offset < 86400
            },
            Date::AllDay { day } => 0 <= day <= max_rd(),
        }
    }

    /// The local civil day the value falls on (in its own zone, for a timed
    /// value).
    pub open spec fn local_day(self) -> int {
        match self {
            Date::Time { day, .. } => day as int,
            Date::AllDay { day } => day as int,
        }
    }

    /// The absolute instant of a timed value, as seconds from the start of
    /// the supported range.
    pub open spec fn instant(self) -> int {
        match self {
            Date::Time { day, sod, offset } => day * 86400 + sod - offset,
            Date::AllDay { day } => day * 86400,
        }
    }

    pub open spec fn spec_year(self) -> int {
        ymd_of_rd(self.local_day()).0
    }

    pub open spec fn spec_month(self) -> int {
        ymd_of_rd(self.local_day()).1
    }

    pub open spec fn spec_dom(self) -> int {
        ymd_of_rd(self.local_day()).2
    }

    pub open spec fn spec_weekday(self) -> int {
        wd_of_rd(self.local_day())
    }
}

/// The Unix epoch, as a timed value in UTC.
pub open spec fn epoch_date() -> Date {
    Date::Time { day: days_before_year(1970) as i64, sod: 0 as i32, offset: 0 as i32 }
}

/// The far-future sentinel: the last supported second, in UTC.
pub open spec fn max_date() -> Date {
    Date::Time { day: max_rd() as i64, sod: 86399 as i32, offset: 0 as i32 }
}

/// The strict order on dates.  Timed values compare by instant; whole days
/// compare by civil day; a whole day sorts before any timed value whose local
/// civil day is the same, and otherwise by civil day.
pub open spec fn date_lt(a: Date, b: Date) -> bool {
    match (a, b) {
        (Date::Time { .. }, Date::Time { .. }) => a.instant() < b.instant(),
        (Date::AllDay { .. }, Date::AllDay { .. }) => a.local_day() < b.local_day(),
        (Date::AllDay { .. }, Date::Time { .. }) => a.local_day() <= b.local_day(),
        (Date::Time { .. }, Date::AllDay { .. }) => a.local_day() < b.local_day(),
    }
}

/// Equality under the date order (same variant and same position).
pub open spec fn date_eq(a: Date, b: Date) -> bool {
    match (a, b) {
        (Date::Time { .. }, Date::Time { .. }) => a.instant() == b.instant(),
        (Date::AllDay { .. }, Date::AllDay { .. }) => a.local_day() == b.local_day(),
        _ => false,
    }
}

pub open spec fn date_le(a: Date, b: Date) -> bool {
    date_lt(a, b) || date_eq(a, b)
}

/// Same variant, and for timed values the same zone offset; such dates stay
/// comparable transitively.
pub open spec fn date_sibling(a: Date, b: Date) -> bool {
    match (a, b) {
        (Date::Time { offset: o1, .. }, Date::Time { offset: o2, .. }) => o1 == o2,
        (Date::AllDay { .. }, Date::AllDay { .. }) => true,
        _ => false,
    }
}

/// Two dates agree on the offsets of their timed values (e.g. both were read
/// in one zone).  The date order is transitive on such families.
pub open spec fn same_offset(a: Date, b: Date) -> bool {
    match (a, b) {
        (Date::Time { offset: o1, .. }, Date::Time { offset: o2, .. }) => o1 == o2,
        _ => true,
    }
}

impl Date {
    /// The Unix epoch as a timed value in UTC.
    pub fn new() -> (r: Date)
        ensures
            r == epoch_date(),
            r.wf(),
    {
        proof {
            crate::civil::lemma_days_before_year_bounds(1970);
            crate::civil::lemma_days_before_year_mono(1970, 10000);
            lemma_max_rd_bound();
        }
        Date::Time { day: year_start(1970), sod: 0, offset: 0 }
    }

    /// The Unix epoch as a timed value in UTC (the sentinel for "unset").
    pub fn empty() -> (r: Date)
        ensures
            r == epoch_date(),
            r.wf(),
    {
        Date::new()
    }

    /// The far-future sentinel.
    pub fn max() -> (r: Date)
        ensures
            r == max_date(),
            r.wf(),
    {
        proof {
            lemma_max_rd_bound();
        }
        Date::Time { day: max_day(), sod: 86399, offset: 0 }
    }

    /// Total-order comparison following `date_lt` / `date_eq`.
    pub fn cmp(&self, other: &Date) -> (r: core::cmp::Ordering)
        requires
            self.wf(),
            other.wf(),
        ensures
            (r is Less) == date_lt(*self, *other),
            (r is Equal) == date_eq(*self, *other),
            (r is Greater) == date_lt(*other, *self),
    {
        proof {
            lemma_max_rd_bound();
        }
        match (self, other) {
            (Date::Time { day: d1, sod: s1, offset: o1 }, Date::Time {
                day: d2,
                sod: s2,
                offset: o2,
            }) => {
                let i1: i64 = *d1 * 86400 + (*s1 as i64) - (*o1 as i64);
                let i2: i64 = *d2 * 86400 + (*s2 as i64) - (*o2 as i64);
                if i1 < i2 {
                    core::cmp::Ordering::Less
                } else if i1 == i2 {
                    core::cmp::Ordering::Equal
                } else {
                    core::cmp::Ordering::Greater
                }
            },
            (Date::AllDay { day: d1 }, Date::AllDay { day: d2 }) => {
                if *d1 < *d2 {
                    core::cmp::Ordering::Less
                } else if *d1 == *d2 {
                    core::cmp::Ordering::Equal
                } else {
                    core::cmp::Ordering::Greater
                }
            },
            (Date::AllDay { day: d1 }, Date::Time { day: d2, .. }) => {
                if *d1 <= *d2 {
                    core::cmp::Ordering::Less
                } else {
                    core::cmp::Ordering::Greater
                }
            },
            (Date::Time { day: d1, .. }, Date::AllDay { day: d2 }) => {
                if *d1 < *d2 {
                    core::cmp::Ordering::Less
                } else {
                    core::cmp::Ordering::Greater
                }
            },
        }
    }

    /// Strict "before" under the date order.
    pub fn lt(&self, other: &Date) -> (r: bool)
        requires
            self.wf(),
            other.wf(),
        ensures
            r == date_lt(*self, *other),
    {
        matches!(self.cmp(other), core::cmp::Ordering::Less)
    }

    /// "Before or at" under the date order.
    pub fn le(&self, other: &Date) -> (r: bool)
        requires
            self.wf(),
            other.wf(),
        ensures
            r == date_le(*self, *other),
    {
        !matches!(self.cmp(other), core::cmp::Ordering::Greater)
    }

    /// Whether two dates fall on the same civil day (same year, month and
    /// day of month).
    pub fn same_day(&self, other: &Date) -> (r: bool)
        requires
            self.wf(),
            other.wf(),
        ensures
            r == (self.local_day() == other.local_day()),
    {
        let d1: i64 = match *self {
            Date::Time { day, .. } => day,
            Date::AllDay { day } => day,
        };
        let d2: i64 = match *other {
            Date::Time { day, .. } => day,
            Date::AllDay { day } => day,
        };
        d1 == d2
    }

    pub fn day(&self) -> (r: u32)
        requires
            self.wf(),
        ensures
            r == self.spec_dom(),
    {
        let (_, _, d) = self.civil();
        d as u32
    }

    pub fn month(&self) -> (r: u32)
        requires
            self.wf(),
        ensures
            r == self.spec_month(),
    {
        let (_, m, _) = self.civil();
        m as u32
    }

    pub fn year(&self) -> (r: i32)
        requires
            self.wf(),
        ensures
            r == self.spec_year(),
    {
        let (y, _, _) = self.civil();
        y as i32
    }

    /// Hour of day of a timed value; 0 for a whole day.
    pub fn hour(&self) -> (r: u32)
        requires
            self.wf(),
        ensures
            self matches Date::Time { sod, .. } ==> r == sod / 3600,
            self is AllDay ==> r == 0,
    {
        match *self {
            Date::Time { sod, .. } => (sod as u32) / 3600,
            Date::AllDay { .. } => 0,
        }
    }

    /// The local civil date, as (year, month, day-of-month).
    pub fn civil(&self) -> (r: (i64, i64, i64))
        requires
            self.wf(),
        ensures
            (r.0 as int, r.1 as int, r.2 as int) == ymd_of_rd(self.local_day()),
            valid_ymd(r.0 as int, r.1 as int, r.2 as int),
            rd_of_ymd(r.0 as int, r.1 as int, r.2 as int) == self.local_day(),
    {
        let day: i64 = match *self {
            Date::Time { day, .. } => day,
            Date::AllDay { day } => day,
        };
        ymd_from_rd(day)
    }

    pub fn weekday(&self) -> (r: Weekday)
        requires
            self.wf(),
        ensures
            r.idx() == self.spec_weekday(),
    {
        let day: i64 = match *self {
            Date::Time { day, .. } => day,
            Date::AllDay { day } => day,
        };
        Weekday::from_index(wd_from_rd(day))
    }

    /// The same value with the day of month replaced, when the result is a
    /// valid civil date.
    pub fn with_day(&self, d: u32) -> (r: Option<Date>)
        requires
            self.wf(),
        ensures
            r == self.spec_with_day(d as int),
            r matches Some(n) ==> n.wf() && n.local_day() == rd_of_ymd(
                self.spec_year(),
                self.spec_month(),
                d as int,
            ),
    {
        let (y, m, _) = self.civil();
        if 1 <= d && d as i64 <= month_length(y, m) {
            Some(self.replace_day(rd_from_ymd(y, m, d as i64)))
        } else {
            None
        }
    }

    /// The same value with the month replaced, when the result is a valid
    /// civil date.
    pub fn with_month(&self, month: u32) -> (r: Option<Date>)
        requires
            self.wf(),
        ensures
            r == self.spec_with_month(month as int),
            r matches Some(n) ==> n.wf(),
    {
        let (y, _, d) = self.civil();
        if 1 <= month && month <= 12 && d <= month_length(y, month as i64) {
            Some(self.replace_day(rd_from_ymd(y, month as i64, d)))
        } else {
            None
        }
    }

    /// The same value with the year replaced, when the result is a valid
    /// civil date.
    pub fn with_year(&self, year: i32) -> (r: Option<Date>)
        requires
            self.wf(),
        ensures
            r == self.spec_with_year(year as int),
            r matches Some(n) ==> n.wf(),
    {
        let (_, m, d) = self.civil();
        if 0 <= year && year <= 9999 && d <= month_length(year as i64, m) {
            Some(self.replace_day(rd_from_ymd(year as i64, m, d)))
        } else {
            None
        }
    }

    /// Number of days in the value's civil month.
    pub fn days_in_month(&self) -> (r: u32)
        requires
            self.wf(),
        ensures
            r == month_len(self.spec_year(), self.spec_month()),
    {
        let (y, m, _) = self.civil();
        month_length(y, m) as u32
    }

    /// Occurrence indices of the value's weekday within its month: the
    /// positive index counted from the start (1..=5) and the negative index
    /// counted from the end (-1 for the last such weekday).
    pub fn week_of_month(&self) -> (r: (i32, i32))
        requires
            self.wf(),
        ensures
            r.0 == (self.spec_dom() + 6) / 7,
            r.1 == -((month_len(self.spec_year(), self.spec_month()) - self.spec_dom()) / 7 + 1),
    {
        let (y, m, d) = self.civil();
        let week: i64 = (d + 6) / 7;
        let neg: i64 = -((month_length(y, m) - d) / 7 + 1);
        ((week as i32), (neg as i32))
    }

    /// Helper: the same variant with the local day replaced.
    fn replace_day(&self, day: i64) -> (r: Date)
        requires
            self.wf(),
            0 <= day <= max_rd(),
        ensures
            r.wf(),
            r.local_day() == day,
            r == self.spec_replace_day(day as int),
    {
        match *self {
            Date::Time { sod, offset, .. } => Date::Time { day, sod, offset },
            Date::AllDay { .. } => Date::AllDay { day },
        }
    }

    /// The same variant with the local day replaced.
    pub open spec fn spec_replace_day(self, day: int) -> Date {
        match self {
            Date::Time { sod, offset, .. } => Date::Time { day: day as i64, sod, offset },
            Date::AllDay { .. } => Date::AllDay { day: day as i64 },
        }
    }

    pub open spec fn spec_with_day(self, d: int) -> Option<Date> {
        if valid_ymd(self.spec_year(), self.spec_month(), d) {
            Some(self.spec_replace_day(rd_of_ymd(self.spec_year(), self.spec_month(), d)))
        } else {
            None
        }
    }

    pub open spec fn spec_with_month(self, m: int) -> Option<Date> {
        if valid_ymd(self.spec_year(), m, self.spec_dom()) {
            Some(self.spec_replace_day(rd_of_ymd(self.spec_year(), m, self.spec_dom())))
        } else {
            None
        }
    }

    pub open spec fn spec_with_year(self, y: int) -> Option<Date> {
        if valid_ymd(y, self.spec_month(), self.spec_dom()) {
            Some(self.spec_replace_day(rd_of_ymd(y, self.spec_month(), self.spec_dom())))
        } else {
            None
        }
    }

    /// Addition of a span of seconds; a timed value moves by the exact span,
    /// a whole day moves by the span's whole days.
    pub open spec fn spec_add(self, secs: int) -> Date {
        match self {
            Date::Time { day, sod, offset } => {
                let t = day * 86400 + sod + secs;
                Date::Time { day: (t / 86400) as i64, sod: (t % 86400) as i32, offset }
            },
            Date::AllDay { day } => Date::AllDay { day: (day + secs_to_days(secs)) as i64 },
        }
    }

    /// Whether the sum stays inside the supported range.
    pub open spec fn add_in_range(self, secs: int) -> bool {
        match self {
            Date::Time { day, sod, .. } => {
                let t = day * 86400 + sod + secs;
                0 <= t < (max_rd() + 1) * 86400
            },
            Date::AllDay { day } => 0 <= day + secs_to_days(secs) <= max_rd(),
        }
    }

    /// Addition within the supported range.
    pub fn add(self, d: Duration) -> (r: Date)
        requires
            self.wf(),
            self.add_in_range(d.secs as int),
            d.secs > i64::MIN,
        ensures
            r == self.spec_add(d.secs as int),
            r.wf(),
    {
        match self.checked_add(d) {
            Some(r) => r,
            None => {
                proof {
                    assert(false);
                }
                self
            },
        }
    }

    /// Addition that reports a sum outside the supported range as `None`.
    pub fn checked_add(self, d: Duration) -> (r: Option<Date>)
        requires
            self.wf(),
            d.secs > i64::MIN,
        ensures
            self.add_in_range(d.secs as int) ==> (r matches Some(n) && n == self.spec_add(
                d.secs as int,
            ) && n.wf()),
            !self.add_in_range(d.secs as int) ==> r is None,
    {
        proof {
            lemma_max_rd_bound();
        }
        match self {
            Date::Time { day, sod, offset } => {
                let base: i64 = day * 86400 + (sod as i64);
                match base.checked_add(d.secs) {
                    Some(t) => {
                        let limit: i64 = (max_day() + 1) * 86400;
                        if 0 <= t && t < limit {
                            let tu: u64 = t as u64;
                            let nday: i64 = (tu / 86400) as i64;
                            let nsod: i32 = (tu % 86400) as i32;
                            proof {
                                lemma_fundamental_div_mod_converse(
                                    t as int,
                                    86400,
                                    nday as int,
                                    nsod as int,
                                );
                            }
                            Some(Date::Time { day: nday, sod: nsod, offset })
                        } else {
                            None
                        }
                    },
                    None => None,
                }
            },
            Date::AllDay { day } => {
                let nd: i64 = d.num_days();
                match day.checked_add(nd) {
                    Some(t) => {
                        if 0 <= t && t <= max_day() {
                            Some(Date::AllDay { day: t })
                        } else {
                            None
                        }
                    },
                    None => None,
                }
            },
        }
    }

    /// The span from `other` to `self`: timed values subtract by instant,
    /// others by civil day.
    pub open spec fn spec_sub(self, other: Date) -> int {
        match (self, other) {
            (Date::Time { .. }, Date::Time { .. }) => self.instant() - other.instant(),
            (Date::AllDay { .. }, Date::AllDay { .. }) => (self.local_day() - other.local_day())
                * 86400,
            (Date::Time { .. }, Date::AllDay { .. }) => (self.local_day() - other.local_day())
                * 86400,
            (Date::AllDay { .. }, Date::Time { .. }) => (self.local_day() - other.local_day())
                * 86400,
        }
    }

    /// Subtraction of two dates, yielding a span of seconds.
    pub fn sub(self, other: Date) -> (r: Duration)
        requires
            self.wf(),
            other.wf(),
        ensures
            r.secs == self.spec_sub(other),
    {
        proof {
            lemma_max_rd_bound();
        }
        match (self, other) {
            (Date::Time { day: d1, sod: s1, offset: o1 }, Date::Time {
                day: d2,
                sod: s2,
                offset: o2,
            }) => {
                let i1: i64 = d1 * 86400 + (s1 as i64) - (o1 as i64);
                let i2: i64 = d2 * 86400 + (s2 as i64) - (o2 as i64);
                Duration { secs: i1 - i2 }
            },
            (a, b) => {
                let la: i64 = match a {
                    Date::Time { day, .. } => day,
                    Date::AllDay { day } => day,
                };
                let lb: i64 = match b {
                    Date::Time { day, .. } => day,
                    Date::AllDay { day } => day,
                };
                Duration { secs: (la - lb) * 86400 }
            },
        }
    }
}

/// The date order is a strict trichotomy: of `a` before `b`, `a` equal to
/// `b`, and `b` before `a`, exactly one holds.
pub proof fn lemma_date_order_trichotomy(a: Date, b: Date)
    ensures
        date_lt(a, b) || date_eq(a, b) || date_lt(b, a),
        date_lt(a, b) ==> !date_eq(a, b) && !date_lt(b, a),
        date_eq(a, b) ==> !date_lt(a, b) && !date_lt(b, a),
        date_lt(b, a) ==> !date_lt(a, b) && !date_eq(a, b),
{
}

/// The date order is transitive among dates whose timed members share one
/// zone offset.
pub proof fn lemma_date_order_transitive(a: Date, b: Date, c: Date)
    requires
        a.wf(),
        b.wf(),
        c.wf(),
        same_offset(a, b),
        same_offset(b, c),
        same_offset(a, c),
        date_le(a, b),
        date_le(b, c),
    ensures
        date_le(a, c),
        date_lt(a, b) || date_lt(b, c) ==> date_lt(a, c),
        date_eq(a, b) && date_eq(b, c) ==> date_eq(a, c),
{
}

/// An all-day value sorts strictly before any timed value falling on the
/// same civil day in the timed value's zone.
pub proof fn lemma_allday_before_time(d: Date, t: Date)
    requires
        d is AllDay,
        t is Time,
        d.local_day() == t.local_day(),
    ensures
        date_lt(d, t),
{
}

/// Addition keeps the variant and, for a timed value, the zone offset.
pub proof fn lemma_spec_add_sibling(d: Date)
    ensures
        forall|secs: int| date_sibling(d, #[trigger] d.spec_add(secs)),
{
}

/// A sum inside the supported range is well-formed.
pub proof fn lemma_spec_add_wf(d: Date, secs: int)
    requires
        d.wf(),
        d.add_in_range(secs),
    ensures
        d.spec_add(secs).wf(),
{
    lemma_max_rd_bound();
    match d {
        Date::Time { day, sod, offset } => {
            let t = day * 86400 + sod + secs;
            vstd::arithmetic::div_mod::lemma_fundamental_div_mod(t, 86400);
            vstd::arithmetic::div_mod::lemma_mod_division_less_than_divisor(t, 86400);
            vstd::arithmetic::div_mod::lemma_div_pos_is_pos(t, 86400);
            lemma_multiply_divide_lt(t, max_rd() + 1, 86400);
        },
        Date::AllDay { day } => {
        },
    }
}

/// Adding the zero span leaves any date unchanged.
pub proof fn lemma_add_zero(d: Date)
    requires
        d.wf(),
    ensures
        d.add_in_range(0),
        d.spec_add(0) == d,
{
    match d {
        Date::Time { day, sod, offset } => {
            lemma_fundamental_div_mod_converse(
                day * 86400 + sod,
                86400,
                day as int,
                sod as int,
            );
        },
        Date::AllDay { day } => {
        },
    }
}


/// Whether a zone name is in the IANA time-zone database.
pub uninterp spec fn zone_known(name: Seq<char>) -> bool;

/// The UTC offset (seconds east) that the named zone gives a local civil
/// time, or `None` when the name is unknown or the local time is skipped or
/// ambiguous in that zone.
pub uninterp spec fn zone_offset_for(
    name: Seq<char>,
    y: int,
    mo: int,
    d: int,
    h: int,
    mi: int,
    sec: int,
) -> Option<i32>;

/// Relies on chrono-tz: `str::parse::<Tz>` succeeds exactly for the names in
/// its compiled IANA database; the empty string is no zone name.
#[verifier::external_body]
fn zone_is_known(name: &str) -> (r: bool)
    ensures
        r == zone_known(name@),
        name@.len() == 0 ==> !r,
{
    name.parse::<chrono_tz::Tz>().is_ok()
}

/// Relies on chrono-tz's compiled zone database: the UTC offset of a local
/// civil time in a named zone is a function of the name and that civil time
/// alone, and chrono's `FixedOffset` keeps offsets strictly within one day.
#[verifier::external_body]
fn lookup_zone_offset(name: &str, y: i32, mo: u32, d: u32, h: u32, mi: u32, sec: u32) -> (r: Option<
    i32,
>)
    ensures
        r == zone_offset_for(
            name@,
            y as int,
            mo as int,
            d as int,
            h as int,
            mi as int,
            sec as int,
        ),
        r matches Some(o) ==> -86400 < o < 86400,
        !zone_known(name@) ==> r is None,
{
    let tz: chrono_tz::Tz = match name.parse() { Ok(t) => t, Err(_) => return None };
    let ndt = chrono::NaiveDate::from_ymd_opt(y, mo, d)?.and_hms_opt(h, mi, sec)?;
    match chrono::TimeZone::from_local_datetime(&tz, &ndt).single() {
        Some(dt) => Some(chrono::Offset::fix(chrono::DateTime::offset(&dt)).local_minus_utc()),
        None => None,
    }
}

/// Relies on chrono::Utc::now: the current Unix timestamp, of which nothing
/// further can be promised.
#[verifier::external_body]
fn now_ts() -> (r: i64) {
    chrono::Utc::now().timestamp()
}

/// Shape and field validity of a timed token `YYYYMMDDThhmmss`, with a
/// trailing `Z` exactly when the token's last character is `Z`.
pub open spec fn time_shape_ok(s: Seq<char>) -> bool {
    let absolute = s.len() > 0 && s[s.len() - 1] == 'Z';
    &&& s.len() == (if absolute {
        16int
    } else {
        15int
    })
    &&& all_digits(s, 0, 8)
    &&& s[8] == 'T'
    &&& all_digits(s, 9, 15)
    &&& valid_ymd(dec_val(s, 0, 4), dec_val(s, 4, 6), dec_val(s, 6, 8))
    &&& dec_val(s, 9, 11) <= 23
    &&& dec_val(s, 11, 13) <= 59
    &&& dec_val(s, 13, 15) <= 59
}

/// The meaning of a timed token: its civil fields in the zone the token and
/// the `TZID` name select; a malformed token, and a local time the zone
/// rejects, fall back to the epoch.
pub open spec fn spec_parse_timed(s: Seq<char>, tz: Seq<char>) -> Date {
    if !time_shape_ok(s) {
        epoch_date()
    } else {
        let y = dec_val(s, 0, 4);
        let mo = dec_val(s, 4, 6);
        let d = dec_val(s, 6, 8);
        let h = dec_val(s, 9, 11);
        let mi = dec_val(s, 11, 13);
        let sec = dec_val(s, 13, 15);
        let day = rd_of_ymd(y, mo, d);
        let sod = h * 3600 + mi * 60 + sec;
        let absolute = s[s.len() - 1] == 'Z';
        if absolute || !zone_known(tz) {
            Date::Time { day: day as i64, sod: sod as i32, offset: 0 as i32 }
        } else {
            match zone_offset_for(tz, y, mo, d, h, mi, sec) {
                Some(o) => Date::Time { day: day as i64, sod: sod as i32, offset: o },
                None => epoch_date(),
            }
        }
    }
}

/// The meaning of `Date::parse`: a token holding `T` is timed; any other
/// token must open with eight digits forming a valid `YYYYMMDD` civil date,
/// read as a whole day.
pub open spec fn spec_parse_date(s: Seq<char>, tz: Seq<char>) -> Result<Date, EventError> {
    if s.contains('T') {
        Ok(spec_parse_timed(s, tz))
    } else if s.len() >= 8 && all_digits(s, 0, 8) && valid_ymd(
        dec_val(s, 0, 4),
        dec_val(s, 4, 6),
        dec_val(s, 6, 8),
    ) {
        Ok(Date::AllDay { day: rd_of_ymd(dec_val(s, 0, 4), dec_val(s, 4, 6), dec_val(s, 6, 8)) as i64 })
    } else {
        Err(EventError::IntError)
    }
}

impl Date {
    /// Reads an iCalendar date or date-time token.  A token holding `T` is
    /// `YYYYMMDDThhmmss`, timed: a trailing `Z` forces UTC, otherwise
    /// `time_zone` is looked up (unknown names fall back to UTC), and a
    /// malformed or rejected local time falls back to the epoch.  Any other
    /// token is read as `YYYYMMDD`, a whole day; there a malformed or invalid
    /// field is an error.
    pub fn parse(date_str: &str, time_zone: &str) -> (r: Result<Date, EventError>)
        ensures
            r == spec_parse_date(date_str@, time_zone@),
            r matches Ok(d) ==> d.wf(),
    {
        if contains_char(date_str, 'T') {
            Ok(Self::parse_timed(date_str, time_zone))
        } else {
            Self::parse_all_day(date_str)
        }
    }

    fn parse_timed(s: &str, tz: &str) -> (r: Date)
        requires
            s@.contains('T'),
        ensures
            r == spec_parse_timed(s@, tz@),
            r.wf(),
    {
        let n = s.unicode_len();
        assert(n > 0);
        let absolute = s.get_char(n - 1) == 'Z';
        let want: usize = if absolute {
            16
        } else {
            15
        };
        if n != want {
            return Date::new();
        }
        if s.get_char(8) != 'T' {
            return Date::new();
        }
        let y = match dec_field(s, 0, 4) {
            Some(v) => v,
            None => return Date::new(),
        };
        let mo = match dec_field(s, 4, 6) {
            Some(v) => v,
            None => return Date::new(),
        };
        let d = match dec_field(s, 6, 8) {
            Some(v) => v,
            None => return Date::new(),
        };
        let h = match dec_field(s, 9, 11) {
            Some(v) => v,
            None => return Date::new(),
        };
        let mi = match dec_field(s, 11, 13) {
            Some(v) => v,
            None => return Date::new(),
        };
        let sec = match dec_field(s, 13, 15) {
            Some(v) => v,
            None => return Date::new(),
        };
        proof {
            crate::text::lemma_dec_val_bound(s@, 0, 4);
            crate::text::lemma_pow10_value_4();
        }
        if !(y <= 9999 && 1 <= mo && mo <= 12) {
            return Date::new();
        }
        if !(1 <= d && (d as i64) <= month_length(y as i64, mo as i64)) {
            return Date::new();
        }
        if !(h <= 23 && mi <= 59 && sec <= 59) {
            return Date::new();
        }
        let day = rd_from_ymd(y as i64, mo as i64, d as i64);
        let sod: u32 = h * 3600 + mi * 60 + sec;
        if absolute {
            return Date::Time { day, sod: sod as i32, offset: 0 };
        }
        if !zone_is_known(tz) {
            return Date::Time { day, sod: sod as i32, offset: 0 };
        }
        match lookup_zone_offset(tz, y as i32, mo, d, h, mi, sec) {
            Some(o) => Date::Time { day, sod: sod as i32, offset: o },
            None => Date::new(),
        }
    }

    fn parse_all_day(s: &str) -> (r: Result<Date, EventError>)
        requires
            !s@.contains('T'),
        ensures
            r == spec_parse_date(s@, Seq::<char>::empty()),
            r matches Ok(d) ==> d.wf(),
    {
        let n = s.unicode_len();
        if n < 8 {
            return Err(EventError::IntError);
        }
        let y = match dec_field(s, 0, 4) {
            Some(v) => v,
            None => return Err(EventError::IntError),
        };
        let mo = match dec_field(s, 4, 6) {
            Some(v) => v,
            None => return Err(EventError::IntError),
        };
        let d = match dec_field(s, 6, 8) {
            Some(v) => v,
            None => return Err(EventError::IntError),
        };
        proof {
            crate::text::lemma_dec_val_bound(s@, 0, 4);
            crate::text::lemma_pow10_value_4();
        }
        if y <= 9999 && 1 <= mo && mo <= 12 && 1 <= d && (d as i64) <= month_length(
            y as i64,
            mo as i64,
        ) {
            Ok(Date::AllDay { day: rd_from_ymd(y as i64, mo as i64, d as i64) })
        } else {
            Err(EventError::IntError)
        }
    }

    /// The current wall time, as a timed value in UTC, clamped into the
    /// supported range.
    pub fn now() -> (r: Date)
        ensures
            r.wf(),
            r matches Date::Time { offset, .. } && offset == 0,
    {
        proof {
            lemma_max_rd_bound();
            crate::civil::lemma_days_before_year_bounds(1970);
            crate::civil::lemma_days_before_year_mono(1970, 10000);
        }
        let ts = now_ts();
        let epoch: i64 = year_start(1970);
        let t: i64 = match ts.checked_add(epoch * 86400) {
            Some(v) => v,
            None => 0,
        };
        let limit: i64 = (max_day() + 1) * 86400;
        let t2: i64 = if t < 0 {
            0
        } else if t >= limit {
            limit - 1
        } else {
            t
        };
        let tu: u64 = t2 as u64;
        let day: i64 = (tu / 86400) as i64;
        let sod: i32 = (tu % 86400) as i32;
        proof {
            lemma_multiply_divide_lt(tu as int, max_rd() + 1, 86400);
        }
        Date::Time { day, sod, offset: 0 }
    }
}

} // verus!
