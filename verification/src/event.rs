//! The event record: a start date, an end given absolutely or as a span from
//! the start, descriptive strings and a confirmation status; ordered by
//! `(start, end_date())`.

use vstd::prelude::*;

use crate::date::{date_eq, date_le, date_lt, epoch_date, Date, Duration};
use crate::errors::EventError;

verus! {

#[derive(Debug, Copy, Clone, PartialEq, Eq, Structural)]
pub enum Status {
    Confirmed,
    Tentative,
    Canceled,
}

impl Status {
    /// Reads an iCalendar `STATUS` value; any unknown value is a status
    /// error.
    pub fn from_str(s: &str) -> (r: Result<Status, EventError>)
        ensures
            r == spec_parse_status(s@),
    {
        if crate::text::str_eq(s, "CONFIRMED") {
            Ok(Status::Confirmed)
        } else if crate::text::str_eq(s, "TENTATIVE") {
            Ok(Status::Tentative)
        } else if crate::text::str_eq(s, "CANCELED") {
            Ok(Status::Canceled)
        } else {
            Err(EventError::StatusError)
        }
    }
}

/// The meaning of a `STATUS` value.
pub open spec fn spec_parse_status(s: Seq<char>) -> Result<Status, EventError> {
    if s == "CONFIRMED"@ {
        Ok(Status::Confirmed)
    } else if s == "TENTATIVE"@ {
        Ok(Status::Tentative)
    } else if s == "CANCELED"@ {
        Ok(Status::Canceled)
    } else {
        Err(EventError::StatusError)
    }
}

/// An event's end: either an absolute date or a span from the start.
#[derive(Debug, Copy, Clone)]
pub enum End {
    Date(Date),
    Duration(Duration),
}

#[derive(Debug)]
pub struct Event {
    pub start: Date,
    pub end: End,
    pub summary: String,
    pub location: String,
    pub description: String,
    pub status: Status,
}

impl Clone for Event {
    fn clone(&self) -> (r: Event)
        ensures
            r == *self,
    {
        Event {
            start: self.start,
            end: self.end,
            summary: self.summary.clone(),
            location: self.location.clone(),
            description: self.description.clone(),
            status: self.status,
        }
    }
}

impl Event {
    /// Well-formedness: the dates are in range, and a span end can be
    /// resolved without leaving the supported range.
    pub open spec fn wf(self) -> bool {
        &&& self.start.wf()
        &&& match self.end {
            End::Date(d) => d.wf(),
            End::Duration(dur) => self.start.add_in_range(dur.secs as int) && dur.secs
                > i64::MIN,
        }
    }

    /// The resolved end date.
    pub open spec fn spec_end_date(self) -> Date {
        match self.end {
            End::Date(d) => d,
            End::Duration(dur) => self.start.spec_add(dur.secs as int),
        }
    }

    /// A fresh event: epoch dates, empty strings, confirmed.
    pub fn new() -> (r: Event)
        ensures
            r.start == epoch_date(),
            r.end == End::Date(epoch_date()),
            r.summary@ == Seq::<char>::empty(),
            r.location@ == Seq::<char>::empty(),
            r.description@ == Seq::<char>::empty(),
            r.status == Status::Confirmed,
            r.wf(),
    {
        Event {
            summary: String::new(),
            location: String::new(),
            description: String::new(),
            status: Status::Confirmed,
            start: Date::new(),
            end: End::Date(Date::new()),
        }
    }

    /// The event's end: an absolute end as it stands, a span end resolved
    /// from the start.
    pub fn end_date(&self) -> (r: Date)
        requires
            self.wf(),
        ensures
            r == self.spec_end_date(),
            r.wf(),
    {
        match self.end {
            End::Date(date) => date,
            End::Duration(duration) => self.start.add(duration),
        }
    }

    /// Comparison by `(start, end_date())`.
    pub fn cmp(&self, other: &Event) -> (r: core::cmp::Ordering)
        requires
            self.wf(),
            other.wf(),
        ensures
            (r is Less) == event_lt(*self, *other),
            (r is Equal) == event_eq_ord(*self, *other),
            (r is Greater) == event_lt(*other, *self),
    {
        let ord = self.start.cmp(&other.start);
        if matches!(ord, core::cmp::Ordering::Equal) {
            self.end_date().cmp(&other.end_date())
        } else {
            ord
        }
    }

    /// "Before or at" under the event order.
    pub fn le(&self, other: &Event) -> (r: bool)
        requires
            self.wf(),
            other.wf(),
        ensures
            r == event_le(*self, *other),
    {
        !matches!(self.cmp(other), core::cmp::Ordering::Greater)
    }
}

/// A well-formed event resolves to a well-formed end date.
pub proof fn lemma_end_date_wf(e: Event)
    requires
        e.wf(),
    ensures
        e.spec_end_date().wf(),
{
    match e.end {
        End::Date(d) => {
        },
        End::Duration(dur) => {
            crate::date::lemma_spec_add_wf(e.start, dur.secs as int);
        },
    }
}

/// The strict event order: by start, tie broken by resolved end.
pub open spec fn event_lt(a: Event, b: Event) -> bool {
    date_lt(a.start, b.start) || (date_eq(a.start, b.start) && date_lt(
        a.spec_end_date(),
        b.spec_end_date(),
    ))
}

/// Equality under the event order.
pub open spec fn event_eq_ord(a: Event, b: Event) -> bool {
    date_eq(a.start, b.start) && date_eq(a.spec_end_date(), b.spec_end_date())
}

pub open spec fn event_le(a: Event, b: Event) -> bool {
    event_lt(a, b) || event_eq_ord(a, b)
}

/// Index of the first event whose start is at or past `first`; the length
/// when there is none.
pub open spec fn window_lo(s: Seq<Event>, first: Date) -> int
    decreases s.len(),
{
    if s.len() == 0 {
        0
    } else if !date_lt(s[0].start, first) {
        0
    } else {
        1 + window_lo(s.drop_first(), first)
    }
}

/// Index of the first event whose resolved end is past `last`; the length
/// when there is none.
pub open spec fn window_hi(s: Seq<Event>, last: Date) -> int
    decreases s.len(),
{
    if s.len() == 0 {
        0
    } else if date_lt(last, s[0].spec_end_date()) {
        0
    } else {
        1 + window_hi(s.drop_first(), last)
    }
}

pub proof fn lemma_window_lo_bounds(s: Seq<Event>, first: Date)
    ensures
        0 <= window_lo(s, first) <= s.len(),
        forall|k: int| 0 <= k < window_lo(s, first) ==> date_lt(s[k].start, first),
        window_lo(s, first) < s.len() ==> !date_lt(s[window_lo(s, first)].start, first),
    decreases s.len(),
{
    if s.len() > 0 && date_lt(s[0].start, first) {
        let s2 = s.drop_first();
        lemma_window_lo_bounds(s2, first);
        assert forall|k: int| 0 <= k < window_lo(s, first) implies date_lt(
            s[k].start,
            first,
        ) by {
            if k > 0 {
                assert(s2[k - 1] == s[k]);
            }
        }
        if window_lo(s, first) < s.len() {
            assert(s2[window_lo(s, first) - 1] == s[window_lo(s, first)]);
        }
    }
}

pub proof fn lemma_window_hi_bounds(s: Seq<Event>, last: Date)
    ensures
        0 <= window_hi(s, last) <= s.len(),
        forall|k: int| 0 <= k < window_hi(s, last) ==> !date_lt(last, s[k].spec_end_date()),
        window_hi(s, last) < s.len() ==> date_lt(last, s[window_hi(s, last)].spec_end_date()),
    decreases s.len(),
{
    if s.len() > 0 && !date_lt(last, s[0].spec_end_date()) {
        let s2 = s.drop_first();
        lemma_window_hi_bounds(s2, last);
        assert forall|k: int| 0 <= k < window_hi(s, last) implies !date_lt(
            last,
            s[k].spec_end_date(),
        ) by {
            if k > 0 {
                assert(s2[k - 1] == s[k]);
            }
        }
        if window_hi(s, last) < s.len() {
            assert(s2[window_hi(s, last) - 1] == s[window_hi(s, last)]);
        }
    }
}

/// The slice of an ordered event list falling inside the window `[first,
/// last]`: from the first event starting at or past `first` up to (and
/// excluding) the first event ending past `last`.  Empty when no event
/// reaches `first`, or when the two cuts cross.
pub fn get<'a>(events: &'a Vec<Event>, first: &Date, last: &Date) -> (r: &'a [Event])
    requires
        first.wf(),
        last.wf(),
        forall|k: int| 0 <= k < events@.len() ==> (#[trigger] events@[k]).wf(),
    ensures
        ({
            let lo = window_lo(events@, *first);
            let hi = window_hi(events@, *last);
            if lo < events@.len() && lo <= hi {
                r@ == events@.subrange(lo, hi)
            } else {
                r@ == Seq::<Event>::empty()
            }
        }),
{
    proof {
        lemma_window_lo_bounds(events@, *first);
        lemma_window_hi_bounds(events@, *last);
    }
    let n = events.len();
    let mut i: usize = 0;
    while i < n && events[i].start.lt(first)
        invariant
            0 <= i <= n == events@.len(),
            forall|k: int| 0 <= k < events@.len() ==> (#[trigger] events@[k]).wf(),
            first.wf(),
            forall|k: int| 0 <= k < i ==> date_lt(events@[k].start, *first),
            i <= window_lo(events@, *first),
        decreases n - i,
    {
        i = i + 1;
        proof {
            lemma_window_lo_bounds(events@, *first);
            let lo = window_lo(events@, *first);
            if lo < i {
                assert(date_lt(events@[lo].start, *first));
            }
        }
    }
    proof {
        lemma_window_lo_bounds(events@, *first);
        let lo = window_lo(events@, *first);
        if i < n && lo > i {
            assert(date_lt(events@[i as int].start, *first));
        }
        assert(i == lo);
    }
    if i == n {
        return vstd::slice::slice_subrange(events.as_slice(), 0, 0);
    }
    let mut j: usize = 0;
    while j < n && !last.lt(&events[j].end_date())
        invariant
            0 <= j <= n == events@.len(),
            forall|k: int| 0 <= k < events@.len() ==> (#[trigger] events@[k]).wf(),
            last.wf(),
            forall|k: int| 0 <= k < j ==> !date_lt(*last, events@[k].spec_end_date()),
            j <= window_hi(events@, *last),
        decreases n - j,
    {
        j = j + 1;
        proof {
            lemma_window_hi_bounds(events@, *last);
            let hi = window_hi(events@, *last);
            if hi < j {
                assert(!date_lt(*last, events@[hi].spec_end_date()));
            }
        }
    }
    proof {
        lemma_window_hi_bounds(events@, *last);
        let hi = window_hi(events@, *last);
        if j < n && hi > j {
            assert(!date_lt(*last, events@[j as int].spec_end_date()));
        }
        assert(j == hi);
    }
    if i <= j {
        vstd::slice::slice_subrange(events.as_slice(), i, j)
    } else {
        vstd::slice::slice_subrange(events.as_slice(), 0, 0)
    }
}

/// The window slice of four events with strictly increasing starts, cut at
/// `[e2.start, e3.start]`, is exactly `[e2, e3]`, provided the first three
/// events end by `e3.start` and the fourth ends after it.
pub proof fn lemma_window_clamp(e1: Event, e2: Event, e3: Event, e4: Event)
    requires
        date_lt(e1.start, e2.start),
        date_lt(e2.start, e3.start),
        date_lt(e3.start, e4.start),
        date_le(e1.spec_end_date(), e3.start),
        date_le(e2.spec_end_date(), e3.start),
        date_le(e3.spec_end_date(), e3.start),
        date_lt(e3.start, e4.spec_end_date()),
    ensures
        ({
            let s = seq![e1, e2, e3, e4];
            window_lo(s, e2.start) == 1 && window_hi(s, e3.start) == 3 && s.subrange(1, 3)
                == seq![e2, e3]
        }),
{
    let s = seq![e1, e2, e3, e4];
    crate::date::lemma_date_order_trichotomy(e1.start, e2.start);
    crate::date::lemma_date_order_trichotomy(e2.start, e2.start);
    crate::date::lemma_date_order_trichotomy(e1.spec_end_date(), e3.start);
    crate::date::lemma_date_order_trichotomy(e2.spec_end_date(), e3.start);
    crate::date::lemma_date_order_trichotomy(e3.spec_end_date(), e3.start);
    assert(window_lo(s, e2.start) == 1) by {
        reveal_with_fuel(window_lo, 3);
        assert(s.drop_first() == seq![e2, e3, e4]);
    }
    assert(window_hi(s, e3.start) == 3) by {
        reveal_with_fuel(window_hi, 5);
        assert(s.drop_first() == seq![e2, e3, e4]);
        assert(seq![e2, e3, e4].drop_first() == seq![e3, e4]);
        assert(seq![e3, e4].drop_first() == seq![e4]);
    }
    assert(s.subrange(1, 3) =~= seq![e2, e3]);
}

} // verus!
