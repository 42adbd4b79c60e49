//! Recurrence rules: the parsed `RRULE` parameters and the lazy occurrence
//! iterator that expands them.

use vstd::prelude::*;
use vstd::string::StrSliceExecFns;

use crate::date::{date_le, date_lt, epoch_date, spec_parse_date, Date, Duration, Weekday};
use crate::errors::EventError;
use crate::event::{End, Event};
use crate::text::{first_comma, first_comma_of, lemma_first_comma, spec_parse_i64, str_eq};

verus! {

#[derive(Debug, Copy, Clone, PartialEq, Eq, Structural)]
pub enum Freq {
    Secondly,
    Minutely,
    Hourly,
    Daily,
    Weekly,
    Monthly,
    Yearly,
}

/// The meaning of a `FREQ` keyword.
pub open spec fn spec_parse_freq(s: Seq<char>) -> Result<Freq, EventError> {
    if s == "SECONDLY"@ {
        Ok(Freq::Secondly)
    } else if s == "MINUTELY"@ {
        Ok(Freq::Minutely)
    } else if s == "HOURLY"@ {
        Ok(Freq::Hourly)
    } else if s == "DAILY"@ {
        Ok(Freq::Daily)
    } else if s == "WEEKLY"@ {
        Ok(Freq::Weekly)
    } else if s == "MONTHLY"@ {
        Ok(Freq::Monthly)
    } else if s == "YEARLY"@ {
        Ok(Freq::Yearly)
    } else {
        Err(EventError::FreqError)
    }
}

impl Freq {
    /// Reads a `FREQ` keyword; any unknown keyword is a frequency error.
    pub fn from_str(s: &str) -> (r: Result<Freq, EventError>)
        ensures
            r == spec_parse_freq(s@),
    {
        if str_eq(s, "SECONDLY") {
            Ok(Freq::Secondly)
        } else if str_eq(s, "MINUTELY") {
            Ok(Freq::Minutely)
        } else if str_eq(s, "HOURLY") {
            Ok(Freq::Hourly)
        } else if str_eq(s, "DAILY") {
            Ok(Freq::Daily)
        } else if str_eq(s, "WEEKLY") {
            Ok(Freq::Weekly)
        } else if str_eq(s, "MONTHLY") {
            Ok(Freq::Monthly)
        } else if str_eq(s, "YEARLY") {
            Ok(Freq::Yearly)
        } else {
            Err(EventError::FreqError)
        }
    }
}

/// The meaning of a weekday code.
pub open spec fn spec_parse_weekday(s: Seq<char>) -> Result<Weekday, EventError> {
    if s == "MO"@ {
        Ok(Weekday::Mon)
    } else if s == "TU"@ {
        Ok(Weekday::Tue)
    } else if s == "WE"@ {
        Ok(Weekday::Wed)
    } else if s == "TH"@ {
        Ok(Weekday::Thu)
    } else if s == "FR"@ {
        Ok(Weekday::Fri)
    } else if s == "SA"@ {
        Ok(Weekday::Sat)
    } else if s == "SU"@ {
        Ok(Weekday::Sun)
    } else {
        Err(EventError::BydayError)
    }
}

/// Reads a two-letter weekday code; any other text is a weekday error.
pub fn parse_weekday(s: &str) -> (r: Result<Weekday, EventError>)
    ensures
        r == spec_parse_weekday(s@),
{
    if str_eq(s, "MO") {
        Ok(Weekday::Mon)
    } else if str_eq(s, "TU") {
        Ok(Weekday::Tue)
    } else if str_eq(s, "WE") {
        Ok(Weekday::Wed)
    } else if str_eq(s, "TH") {
        Ok(Weekday::Thu)
    } else if str_eq(s, "FR") {
        Ok(Weekday::Fri)
    } else if str_eq(s, "SA") {
        Ok(Weekday::Sat)
    } else if str_eq(s, "SU") {
        Ok(Weekday::Sun)
    } else {
        Err(EventError::BydayError)
    }
}

/// The `BYDAY` filter: for each weekday (Monday first), the ordinals given
/// for it, or nothing when the weekday was not named.  Ordinal 0 means every
/// occurrence of that weekday.
#[derive(Debug)]
pub struct Byday {
    pub slots: Vec<Option<Vec<i32>>>,
}

impl Byday {
    pub open spec fn wf(self) -> bool {
        self.slots@.len() == 7
    }

    /// Whether the weekday with index `w` was named.
    pub open spec fn has_widx(self, w: int) -> bool {
        0 <= w < 7 && self.slots@[w] is Some
    }

    /// The ordinals of the weekday with index `w`.
    pub open spec fn ords(self, w: int) -> Seq<i32> {
        match self.slots@[w] {
            Some(v) => v@,
            None => Seq::empty(),
        }
    }

    /// Whether any weekday was named.
    pub open spec fn nonempty(self) -> bool {
        exists|w: int| 0 <= w < 7 && self.has_widx(w)
    }

    pub fn new() -> (r: Byday)
        ensures
            r.wf(),
            forall|w: int| 0 <= w < 7 ==> (#[trigger] r.slots@[w]) is None,
            forall|w: int| 0 <= w < 7 ==> !(#[trigger] r.has_widx(w)),
    {
        let mut slots: Vec<Option<Vec<i32>>> = Vec::new();
        let mut i: usize = 0;
        while i < 7
            invariant
                slots@.len() == i <= 7,
                forall|w: int| 0 <= w < i ==> slots@[w] is None,
            decreases 7 - i,
        {
            slots.push(None);
            i = i + 1;
        }
        Byday { slots }
    }

    pub fn contains(&self, w: Weekday) -> (r: bool)
        requires
            self.wf(),
        ensures
            r == self.has_widx(w.idx()),
    {
        let i = w.index() as usize;
        self.slots[i].is_some()
    }

    /// Appends one ordinal under a weekday.
    pub fn add(&mut self, w: Weekday, o: i32)
        requires
            old(self).wf(),
        ensures
            final(self).wf(),
            final(self).has_widx(w.idx()),
            final(self).ords(w.idx()) == old(self).ords(w.idx()).push(o),
            forall|v: int|
                0 <= v < 7 && v != w.idx() ==> final(self).slots@[v] == old(self).slots@[v],
    {
        let i = w.index() as usize;
        let cur = self.slots.remove(i);
        let next: Vec<i32> = match cur {
            Some(mut v) => {
                v.push(o);
                v
            },
            None => {
                let mut v: Vec<i32> = Vec::new();
                v.push(o);
                v
            },
        };
        self.slots.insert(i, Some(next));
        proof {
            assert(self.slots@ =~= old(self).slots@.update(w.idx(), self.slots@[w.idx()]));
        }
    }
}

/// The (weekday index, ordinal) pairs of a `BYDAY` value, in its order; or
/// the error its first bad token gives.  A token is `[signed ordinal]` plus a
/// two-letter weekday code; a missing ordinal means 0; ordinals must fit
/// `i32`.
pub open spec fn spec_byday_pairs(s: Seq<char>) -> Result<Seq<(int, i32)>, EventError>
    decreases s.len(),
    via spec_byday_pairs_decreases
{
    let i = first_comma(s);
    let tok = s.take(i);
    match spec_byday_token(tok) {
        Err(e) => Err(e),
        Ok(p) => {
            if i == s.len() {
                Ok(seq![p])
            } else {
                match spec_byday_pairs(s.skip(i + 1)) {
                    Err(e) => Err(e),
                    Ok(rest) => Ok(seq![p] + rest),
                }
            }
        },
    }
}

#[via_fn]
proof fn spec_byday_pairs_decreases(s: Seq<char>) {
    lemma_first_comma(s);
}

/// One `BYDAY` token: its weekday index and its ordinal.
pub open spec fn spec_byday_token(tok: Seq<char>) -> Result<(int, i32), EventError> {
    if tok.len() < 2 {
        Err(EventError::BydayError)
    } else {
        match spec_parse_weekday(tok.skip(tok.len() - 2)) {
            Err(e) => Err(e),
            Ok(w) => {
                if tok.len() == 2 {
                    Ok((w.idx(), 0 as i32))
                } else {
                    match spec_parse_i64(tok.take(tok.len() - 2)) {
                        Some(v) => {
                            if i32::MIN <= v <= i32::MAX {
                                Ok((w.idx(), v as i32))
                            } else {
                                Err(EventError::IntError)
                            }
                        },
                        None => Err(EventError::IntError),
                    }
                }
            },
        }
    }
}

/// The ordinals that the pairs give the weekday with index `w`, in order.
pub open spec fn pairs_ords(ps: Seq<(int, i32)>, w: int) -> Seq<i32>
    decreases ps.len(),
{
    if ps.len() == 0 {
        Seq::empty()
    } else {
        let rest = pairs_ords(ps.drop_last(), w);
        if ps.last().0 == w {
            rest.push(ps.last().1)
        } else {
            rest
        }
    }
}

pub open spec fn pairs_have(ps: Seq<(int, i32)>, w: int) -> bool {
    exists|i: int| 0 <= i < ps.len() && ps[i].0 == w
}

proof fn lemma_pairs_ords_push(ps: Seq<(int, i32)>, p: (int, i32), w: int)
    ensures
        pairs_ords(ps.push(p), w) == (if p.0 == w {
            pairs_ords(ps, w).push(p.1)
        } else {
            pairs_ords(ps, w)
        }),
        pairs_have(ps.push(p), w) == (pairs_have(ps, w) || p.0 == w),
{
    let ps2 = ps.push(p);
    assert(ps2.drop_last() =~= ps);
    assert(ps2.last() == p);
    if pairs_have(ps, w) {
        let i = choose|i: int| 0 <= i < ps.len() && ps[i].0 == w;
        assert(ps2[i].0 == w);
    }
    if pairs_have(ps2, w) && p.0 != w {
        let i = choose|i: int| 0 <= i < ps2.len() && ps2[i].0 == w;
        assert(ps[i].0 == w);
    }
}

/// Reads a `BYDAY` value: comma-separated weekday codes, each with an
/// optional leading signed ordinal, gathered into a `Byday` table.
pub fn parse_byday(s: &str) -> (r: Result<Byday, EventError>)
    ensures
        r matches Err(e) ==> spec_byday_pairs(s@) == Err::<Seq<(int, i32)>, EventError>(e),
        r matches Ok(b) ==> spec_byday_pairs(s@) matches Ok(ps) && b.wf() && b.nonempty() && forall|
            w: int,
        |
            0 <= w < 7 ==> b.has_widx(w) == pairs_have(ps, w) && b.ords(w) == pairs_ords(ps, w),
{
    let mut byday = Byday::new();
    let mut rest: &str = s;
    let ghost mut done: Seq<(int, i32)> = Seq::empty();
    proof {
        assert forall|w: int|
            0 <= w < 7 implies byday.has_widx(w) == pairs_have(done, w) && byday.ords(w)
            == pairs_ords(done, w) by {
            assert(!pairs_have(done, w));
            assert(pairs_ords(done, w) =~= Seq::<i32>::empty());
            assert(byday.wf());
            assert(byday.slots@[w] is None);
            assert(byday.ords(w) =~= Seq::<i32>::empty());
        }
    }
    loop
        invariant
            byday.wf(),
            forall|w: int|
                0 <= w < 7 ==> byday.has_widx(w) == pairs_have(done, w) && byday.ords(w)
                    == pairs_ords(done, w),
            forall|q: int| 0 <= q < done.len() ==> 0 <= (#[trigger] done[q]).0 < 7,
            spec_byday_pairs(s@) == (match spec_byday_pairs(rest@) {
                Ok(restp) => Ok::<Seq<(int, i32)>, EventError>(done + restp),
                Err(e) => Err::<Seq<(int, i32)>, EventError>(e),
            }),
        decreases rest@.len(),
    {
        let n = rest.unicode_len();
        let i = first_comma_of(rest);
        let tok = rest.substring_char(0, i);
        proof {
            assert(tok@ =~= rest@.take(i as int));
        }
        let p = match parse_byday_token(tok) {
            Ok(p) => p,
            Err(e) => {
                proof {
                    assert(tok@ == rest@.take(first_comma(rest@)));
                    assert(spec_byday_pairs(rest@) == Err::<Seq<(int, i32)>, EventError>(e));
                }
                return Err(e);
            },
        };
        let ghost pp = (p.0.idx(), p.1);
        let ghost done0 = done;
        byday.add(p.0, p.1);
        proof {
            assert(tok@ == rest@.take(first_comma(rest@)));
            assert(spec_byday_token(tok@) == Ok::<(int, i32), EventError>(pp));
            done = done.push(pp);
            lemma_pairs_ords_push(done0, pp, pp.0);
            assert forall|w: int| 0 <= w < 7 implies byday.has_widx(w) == pairs_have(done, w)
                && byday.ords(w) == pairs_ords(done, w) by {
                lemma_pairs_ords_push(done0, pp, w);
            }
        }
        if i == n {
            proof {
                assert(spec_byday_pairs(rest@) == Ok::<Seq<(int, i32)>, EventError>(seq![pp]));
                assert(done0 + seq![pp] =~= done);
                assert(spec_byday_pairs(s@) == Ok::<Seq<(int, i32)>, EventError>(done));
                lemma_first_pair_named(done);
                assert(byday.has_widx(done[0].0));
            }
            return Ok(byday);
        }
        let next = rest.substring_char(i + 1, n);
        proof {
            assert(next@ =~= rest@.skip(i + 1));
            match spec_byday_pairs(next@) {
                Ok(restq) => {
                    assert(spec_byday_pairs(rest@) == Ok::<Seq<(int, i32)>, EventError>(
                        seq![pp] + restq,
                    ));
                    assert(done0 + (seq![pp] + restq) =~= done + restq);
                },
                Err(e) => {
                    assert(spec_byday_pairs(rest@) == Err::<Seq<(int, i32)>, EventError>(e));
                },
            }
        }
        rest = next;
    }
}

/// A nonempty pair list names at least its first pair's weekday.
proof fn lemma_first_pair_named(ps: Seq<(int, i32)>)
    requires
        ps.len() > 0,
    ensures
        pairs_have(ps, ps[0].0),
{
    assert(0 <= 0 < ps.len() && ps[0].0 == ps[0].0);
}

/// Reads one `BYDAY` token.
fn parse_byday_token(tok: &str) -> (r: Result<(Weekday, i32), EventError>)
    ensures
        r matches Ok(p) ==> spec_byday_token(tok@) == Ok::<(int, i32), EventError>(
            (p.0.idx(), p.1),
        ),
        r matches Err(e) ==> spec_byday_token(tok@) == Err::<(int, i32), EventError>(e),
{
    let n = tok.unicode_len();
    if n < 2 {
        return Err(EventError::BydayError);
    }
    let code = tok.substring_char(n - 2, n);
    proof {
        assert(code@ =~= tok@.skip(n - 2));
    }
    let w = match parse_weekday(code) {
        Ok(w) => w,
        Err(e) => {
            return Err(e);
        },
    };
    if n == 2 {
        return Ok((w, 0));
    }
    let digits = tok.substring_char(0, n - 2);
    proof {
        assert(digits@ =~= tok@.take(n - 2));
    }
    match crate::text::parse_i64(digits) {
        Some(v) => {
            if i32::MIN as i64 <= v && v <= i32::MAX as i64 {
                Ok((w, v as i32))
            } else {
                Err(EventError::IntError)
            }
        },
        None => Err(EventError::IntError),
    }
}


/// What applying one `RRULE` parameter means: keys are tried in order, the
/// matching one replaces its field when its value parses, and an unknown key
/// changes nothing.
pub open spec fn set_param_holds(
    pre: Periodic,
    post: Periodic,
    key: Seq<char>,
    value: Seq<char>,
    r: Result<(), EventError>,
) -> bool {
    if key == "FREQ"@ {
        match spec_parse_freq(value) {
            Ok(f) => r is Ok && post == Periodic { freq: f, ..pre },
            Err(e) => r == Err::<(), EventError>(e),
        }
    } else if key == "INTERVAL"@ {
        match spec_parse_i64(value) {
            Some(v) => {
                if v >= 1 {
                    r is Ok && post == Periodic { interval: v as i64, ..pre }
                } else {
                    r == Err::<(), EventError>(EventError::IntError)
                }
            },
            None => r == Err::<(), EventError>(EventError::IntError),
        }
    } else if key == "COUNT"@ {
        match spec_parse_i64(value) {
            Some(v) => r is Ok && post == Periodic { count: Some(v as i64), ..pre },
            None => r == Err::<(), EventError>(EventError::IntError),
        }
    } else if key == "UNTIL"@ {
        match spec_parse_date(value, Seq::<char>::empty()) {
            Ok(d) => r is Ok && post == Periodic { until: Some(d), ..pre },
            Err(e) => r == Err::<(), EventError>(e),
        }
    } else if key == "BYDAY"@ {
        match spec_byday_pairs(value) {
            Ok(ps) => r is Ok && (post.byday matches Some(b) && b.wf() && b.nonempty() && (forall|
                w: int,
            |
                0 <= w < 7 ==> b.has_widx(w) == pairs_have(ps, w) && b.ords(w) == pairs_ords(
                    ps,
                    w,
                )) && post.event == pre.event && post.freq == pre.freq && post.interval
                == pre.interval && post.count == pre.count && post.until == pre.until
                && post.bysetpos == pre.bysetpos && post.wkst == pre.wkst),
            Err(e) => r == Err::<(), EventError>(e),
        }
    } else if key == "BYSETPOS"@ {
        match spec_parse_i64(value) {
            Some(v) => {
                if i32::MIN <= v <= i32::MAX {
                    r is Ok && post == Periodic { bysetpos: v as i32, ..pre }
                } else {
                    r == Err::<(), EventError>(EventError::IntError)
                }
            },
            None => r == Err::<(), EventError>(EventError::IntError),
        }
    } else if key == "WKST"@ {
        match spec_parse_weekday(value) {
            Ok(w) => r is Ok && post == Periodic { wkst: w, ..pre },
            Err(e) => r == Err::<(), EventError>(e),
        }
    } else {
        r is Ok && post == pre
    }
}

/// A recurrence rule around a template event.
#[derive(Debug)]
pub struct Periodic {
    pub event: Event,
    pub freq: Freq,
    pub interval: i64,
    pub count: Option<i64>,
    pub until: Option<Date>,
    pub byday: Option<Byday>,
    pub bysetpos: i32,
    pub wkst: Weekday,
}

impl Periodic {
    pub open spec fn wf(self) -> bool {
        &&& self.event.wf()
        &&& self.interval >= 1
        &&& (self.until matches Some(u) ==> u.wf())
        &&& (self.byday matches Some(b) ==> b.wf() && b.nonempty())
    }

    /// A fresh rule: secondly, stride one, unbounded, no weekday filter,
    /// weeks starting Monday.
    pub fn new() -> (r: Periodic)
        ensures
            r.event.start == epoch_date(),
            r.event.end == End::Date(epoch_date()),
            r.event.summary@ == Seq::<char>::empty(),
            r.event.location@ == Seq::<char>::empty(),
            r.event.description@ == Seq::<char>::empty(),
            r.event.status == crate::event::Status::Confirmed,
            r.freq == Freq::Secondly,
            r.interval == 1,
            r.count is None,
            r.until is None,
            r.byday is None,
            r.bysetpos == 0,
            r.wkst == Weekday::Mon,
            r.wf(),
    {
        Periodic {
            event: Event::new(),
            freq: Freq::Secondly,
            interval: 1,
            count: None,
            until: None,
            byday: None,
            bysetpos: 0,
            wkst: Weekday::Mon,
        }
    }

    /// Applies one `RRULE` `KEY=VALUE` pair.  `FREQ`, `INTERVAL` (a stride of
    /// at least one), `COUNT`, `UNTIL`, `BYDAY`, `BYSETPOS` and `WKST` are
    /// recognized; any other key is ignored.  On an error nothing changes.
    pub fn set_param(&mut self, param: &str, value: &str) -> (r: Result<(), EventError>)
        requires
            old(self).wf(),
        ensures
            final(self).wf(),
            final(self).event == old(self).event,
            r matches Err(_) ==> *final(self) == *old(self),
            set_param_holds(*old(self), *final(self), param@, value@, r),
    {
        if str_eq(param, "FREQ") {
            match Freq::from_str(value) {
                Ok(f) => {
                    self.freq = f;
                    Ok(())
                },
                Err(e) => Err(e),
            }
        } else if str_eq(param, "INTERVAL") {
            match crate::text::parse_i64(value) {
                Some(v) => {
                    if v >= 1 {
                        self.interval = v;
                        Ok(())
                    } else {
                        Err(EventError::IntError)
                    }
                },
                None => Err(EventError::IntError),
            }
        } else if str_eq(param, "COUNT") {
            match crate::text::parse_i64(value) {
                Some(v) => {
                    self.count = Some(v);
                    Ok(())
                },
                None => Err(EventError::IntError),
            }
        } else if str_eq(param, "UNTIL") {
            proof {
                reveal_strlit("");
                assert(""@ =~= Seq::<char>::empty());
            }
            match Date::parse(value, "") {
                Ok(d) => {
                    self.until = Some(d);
                    Ok(())
                },
                Err(e) => Err(e),
            }
        } else if str_eq(param, "BYDAY") {
            match parse_byday(value) {
                Ok(b) => {
                    self.byday = Some(b);
                    Ok(())
                },
                Err(e) => Err(e),
            }
        } else if str_eq(param, "BYSETPOS") {
            match crate::text::parse_i64(value) {
                Some(v) => {
                    if i32::MIN as i64 <= v && v <= i32::MAX as i64 {
                        self.bysetpos = v as i32;
                        Ok(())
                    } else {
                        Err(EventError::IntError)
                    }
                },
                None => Err(EventError::IntError),
            }
        } else if str_eq(param, "WKST") {
            match parse_weekday(value) {
                Ok(w) => {
                    self.wkst = w;
                    Ok(())
                },
                Err(e) => Err(e),
            }
        } else {
            Ok(())
        }
    }

    /// The lazy occurrence iterator, positioned at the template's own start.
    pub fn iter<'a>(&'a self) -> (r: Iter<'a>)
        requires
            self.wf(),
        ensures
            r.periodic == self,
            r.start == self.event.start,
            r.end == self.event.spec_end_date(),
            r.count == 0,
            !r.exhausted,
            r.wf(),
    {
        Iter {
            periodic: self,
            start: self.event.start,
            end: self.event.end_date(),
            count: 0,
            exhausted: false,
        }
    }
}


/// Whether the iterator at `start` with `count` occurrences emitted is past
/// its bounds: past an `UNTIL` date, or at a `COUNT` cap.
pub open spec fn spec_done(p: Periodic, start: Date, count: i64) -> bool {
    (p.until matches Some(u) && date_lt(u, start)) || (p.count matches Some(c) && count >= c)
}

/// The emitted occurrence: the template with its start and end replaced.
pub open spec fn occurrence_at(template: Event, start: Date, end: Date) -> Event {
    Event { start, end: End::Date(end), ..template }
}

/// Whether a sequence of ordinals holds a value.
pub open spec fn ords_contain(os: Seq<i32>, v: int) -> bool {
    exists|i: int| 0 <= i < os.len() && os[i] == v
}

/// The weekly `BYDAY` walk, as described by the rule: step one day at a
/// time; on landing on the week-start day add the skipped weeks' days; stop
/// on a day the filter names.  `days` is the running total, `fuel` bounds the
/// walk by one week.
pub open spec fn weekly_scan(
    b: Byday,
    wkst: int,
    interval: int,
    w: int,
    days: int,
    fuel: nat,
) -> Option<int>
    decreases fuel,
{
    if b.has_widx(w) {
        Some(days)
    } else if fuel == 0 {
        None
    } else {
        let w2 = (w + 1) % 7;
        let days2 = days + 1 + if w2 == wkst {
            7 * (interval - 1)
        } else {
            0
        };
        weekly_scan(b, wkst, interval, w2, days2, (fuel - 1) as nat)
    }
}

/// Days to the next weekly `BYDAY` occurrence from weekday `wd`.
pub open spec fn spec_weekly_days(b: Byday, wkst: int, interval: int, wd: int) -> Option<int> {
    let w1 = (wd + 1) % 7;
    let d1 = 1 + if w1 == wkst {
        7 * (interval - 1)
    } else {
        0
    };
    weekly_scan(b, wkst, interval, w1, d1, 7)
}

/// Whether the monthly `BYDAY` filter accepts the day `dd`: its weekday is
/// named, and the day's positive or negative week index matches `BYSETPOS`
/// or one of the weekday's ordinals (0 meaning every occurrence).
pub open spec fn monthly_accept(bysetpos: int, b: Byday, dd: int) -> bool {
    let (y, m, dom) = crate::civil::ymd_of_rd(dd);
    let wd = crate::civil::wd_of_rd(dd);
    let week = (dom + 6) / 7;
    let negw = -((crate::civil::month_len(y, m) - dom) / 7 + 1);
    b.has_widx(wd) && (bysetpos == week || bysetpos == negw || ords_contain(b.ords(wd), 0)
        || ords_contain(b.ords(wd), week) || ords_contain(b.ords(wd), negw))
}

/// The least accepted day at or past `dd`, within the supported range.
pub open spec fn spec_scan(bysetpos: int, b: Byday, dd: int) -> Option<int>
    decreases crate::civil::max_rd() + 1 - dd,
{
    if dd > crate::civil::max_rd() {
        None
    } else if monthly_accept(bysetpos, b, dd) {
        Some(dd)
    } else {
        spec_scan(bysetpos, b, dd + 1)
    }
}

/// `k` whole-month hops forward from a first-of-month date.
pub open spec fn spec_hop_months(f: Date, k: int) -> Option<Date>
    decreases k,
{
    if k <= 0 {
        Some(f)
    } else {
        let step = crate::civil::month_len(f.spec_year(), f.spec_month()) * 86400;
        if f.add_in_range(step) {
            spec_hop_months(f.spec_add(step), k - 1)
        } else {
            None
        }
    }
}

/// The date from which the monthly `BYDAY` walk starts: the date itself for
/// a stride of one, else the first of the month moved `interval - 1` months
/// forward.
pub open spec fn spec_month_skip(p: Periodic, d: Date) -> Option<Date> {
    if p.interval == 1 {
        Some(d)
    } else {
        match d.spec_with_day(1) {
            Some(f) => spec_hop_months(f, p.interval - 1),
            None => None,
        }
    }
}

/// The step, in seconds, of a monthly rule with a `BYDAY` filter: to the
/// first accepted day strictly after the walk's base.
pub open spec fn spec_monthly_byday_secs(p: Periodic, d: Date) -> Option<int> {
    match p.byday {
        Some(b) => match spec_month_skip(p, d) {
            Some(base) => match spec_scan(p.bysetpos as int, b, base.local_day() + 1) {
                Some(dd) => Some((dd - d.local_day()) * 86400),
                None => None,
            },
            None => None,
        },
        None => None,
    }
}

/// The step of a plain monthly rule: to the same day of the next month
/// (January of the next year after December); none when that civil date does
/// not exist.
pub open spec fn spec_monthly_plain(d: Date) -> Option<int> {
    if d.spec_month() == 12 {
        match d.spec_with_month(1) {
            Some(j) => match j.spec_with_year(d.spec_year() + 1) {
                Some(n) => Some(n.spec_sub(d)),
                None => None,
            },
            None => None,
        }
    } else {
        match d.spec_with_month(d.spec_month() + 1) {
            Some(n) => Some(n.spec_sub(d)),
            None => None,
        }
    }
}

/// The frequency-specific advancement step from `d`, in seconds.
#[verifier::opaque]
pub open spec fn spec_step_secs(p: Periodic, d: Date) -> Option<int> {
    match p.freq {
        Freq::Secondly => Some(p.interval as int),
        Freq::Minutely => Some(p.interval * 60),
        Freq::Hourly => Some(p.interval * 3600),
        Freq::Daily => Some(p.interval * 86400),
        Freq::Weekly => match p.byday {
            None => Some(p.interval * 604800),
            Some(b) => match spec_weekly_days(b, p.wkst.idx(), p.interval as int, d.spec_weekday()) {
                Some(days) => Some(days * 86400),
                None => None,
            },
        },
        Freq::Monthly => match p.byday {
            Some(_) => spec_monthly_byday_secs(p, d),
            None => spec_monthly_plain(d),
        },
        Freq::Yearly => match d.spec_with_year(d.spec_year() + 1) {
            Some(n) => Some(n.spec_sub(d)),
            None => None,
        },
    }
}

/// The iterator's advancement: both cursors move by the step, when the step
/// exists, moves the start strictly forward, and keeps both inside the
/// supported range.
pub open spec fn spec_advance(p: Periodic, s: Date, e: Date) -> Option<(Date, Date)> {
    match spec_step_secs(p, s) {
        Some(secs) => {
            if 1 <= secs <= i64::MAX && s.add_in_range(secs) && e.add_in_range(secs) && date_lt(
                s,
                s.spec_add(secs),
            ) {
                Some((s.spec_add(secs), e.spec_add(secs)))
            } else {
                None
            }
        },
        None => None,
    }
}

/// The lazy occurrence sequence of a recurrence rule.
pub struct Iter<'a> {
    pub periodic: &'a Periodic,
    pub start: Date,
    pub end: Date,
    pub count: i64,
    pub exhausted: bool,
}

impl<'a> Iter<'a> {
    pub open spec fn wf(self) -> bool {
        &&& self.periodic.wf()
        &&& self.start.wf()
        &&& self.end.wf()
    }

    /// The next occurrence: the current cursors as an event, unless the
    /// rule's bounds are passed or no further step was possible.  Emitting
    /// advances the cursors by the frequency-specific step and counts the
    /// occurrence.
    pub fn next(&mut self) -> (r: Option<Event>)
        requires
            old(self).wf(),
        ensures
            final(self).wf(),
            final(self).periodic == old(self).periodic,
            (match r {
                None => *final(self) == *old(self) && (old(self).exhausted || spec_done(
                    *old(self).periodic,
                    old(self).start,
                    old(self).count,
                )),
                Some(ev) => {
                    &&& !old(self).exhausted
                    &&& !spec_done(*old(self).periodic, old(self).start, old(self).count)
                    &&& ev == occurrence_at(old(self).periodic.event, old(self).start, old(self).end)
                    &&& ev.wf()
                    &&& ev.start == old(self).start
                    &&& (old(self).periodic.until matches Some(u) ==> !date_lt(u, ev.start))
                    &&& (match spec_advance(*old(self).periodic, old(self).start, old(self).end) {
                        Some(pair) => final(self).start == pair.0 && final(self).end == pair.1,
                        None => final(self).start == old(self).start && final(self).end == old(
                            self,
                        ).end,
                    })
                    &&& final(self).count == (if old(self).count == i64::MAX {
                        i64::MAX as int
                    } else {
                        old(self).count + 1
                    })
                    &&& final(self).exhausted == (spec_advance(
                        *old(self).periodic,
                        old(self).start,
                        old(self).end,
                    ) is None || old(self).count == i64::MAX)
                },
            }),
    {
        if self.exhausted {
            return None;
        }
        let until_hit = match self.periodic.until {
            Some(u) => u.lt(&self.start),
            None => false,
        };
        let count_hit = match self.periodic.count {
            Some(c) => self.count >= c,
            None => false,
        };
        if until_hit || count_hit {
            return None;
        }
        let mut event = self.periodic.event.clone();
        event.start = self.start;
        event.end = End::Date(self.end);
        match self.next_duration(self.start) {
            None => {
                self.exhausted = true;
            },
            Some(dur) => {
                if dur.secs < 1 {
                    self.exhausted = true;
                } else {
                    match self.start.checked_add(dur) {
                        None => {
                            self.exhausted = true;
                        },
                        Some(s2) => {
                            match self.end.checked_add(dur) {
                                None => {
                                    self.exhausted = true;
                                },
                                Some(e2) => {
                                    if self.start.lt(&s2) {
                                        self.start = s2;
                                        self.end = e2;
                                    } else {
                                        self.exhausted = true;
                                    }
                                },
                            }
                        },
                    }
                }
            },
        }
        if self.count == i64::MAX {
            self.exhausted = true;
        } else {
            self.count = self.count + 1;
        }
        Some(event)
    }

    /// The frequency-specific step from `date`, when it exists and fits a
    /// 64-bit count of seconds.
    fn next_duration(&self, date: Date) -> (r: Option<Duration>)
        requires
            self.periodic.wf(),
            date.wf(),
        ensures
            r matches Some(dur) ==> spec_step_secs(*self.periodic, date) == Some(dur.secs as int),
            r is None ==> (spec_step_secs(*self.periodic, date) is None || (spec_step_secs(
                *self.periodic,
                date,
            ) matches Some(s) && s > i64::MAX)),
    {
        proof {
            reveal(spec_step_secs);
        }
        let p = self.periodic;
        let s128: i128 = match p.freq {
            Freq::Secondly => p.interval as i128,
            Freq::Minutely => (p.interval as i128) * 60,
            Freq::Hourly => (p.interval as i128) * 3600,
            Freq::Daily => (p.interval as i128) * 86400,
            Freq::Weekly => {
                match &p.byday {
                    None => (p.interval as i128) * 604800,
                    Some(b) => {
                        match self.weekly_days(b, date) {
                            Some(days) => days * 86400,
                            None => {
                                return None;
                            },
                        }
                    },
                }
            },
            Freq::Monthly => {
                match &p.byday {
                    Some(b) => {
                        return self.monthly_byday(b, date);
                    },
                    None => {
                        return monthly_plain(date);
                    },
                }
            },
            Freq::Yearly => {
                proof {
                    crate::civil::lemma_ymd_of_rd_valid(date.local_day());
                }
                let y = date.year();
                match date.with_year(y + 1) {
                    Some(n) => {
                        return Some(n.sub(date));
                    },
                    None => {
                        return None;
                    },
                }
            },
        };
        proof {
            assert(s128 >= 1);
        }
        if s128 > i64::MAX as i128 {
            None
        } else {
            Some(Duration::seconds(s128 as i64))
        }
    }

    /// The weekly `BYDAY` walk.
    fn weekly_days(&self, b: &Byday, date: Date) -> (r: Option<i128>)
        requires
            self.periodic.wf(),
            self.periodic.byday matches Some(bb) && bb == *b,
            date.wf(),
        ensures
            (match r {
                Some(days) => 1 <= days <= 8 + 56 * (self.periodic.interval - 1)
                    && spec_weekly_days(
                    *b,
                    self.periodic.wkst.idx(),
                    self.periodic.interval as int,
                    date.spec_weekday(),
                ) == Some(days as int),
                None => spec_weekly_days(
                    *b,
                    self.periodic.wkst.idx(),
                    self.periodic.interval as int,
                    date.spec_weekday(),
                ) is None,
            }),
    {
        let p = self.periodic;
        let ghost wkst = p.wkst.idx();
        let ghost ival = p.interval as int;
        let ghost wd0 = date.spec_weekday();
        let mut w = date.weekday().succ();
        let mut days: i128 = 1;
        if w.index() == p.wkst.index() {
            days = days + 7 * ((p.interval as i128) - 1);
        }
        proof {
            assert(w == p.wkst <==> w.idx() == p.wkst.idx());
        }
        let mut fuel: u8 = 7;
        loop
            invariant
                self.periodic.wf(),
                self.periodic.byday matches Some(bb) && bb == *b,
                b.wf(),
                p == self.periodic,
                date.wf(),
                wkst == self.periodic.wkst.idx(),
                ival == self.periodic.interval as int,
                wd0 == date.spec_weekday(),
                0 <= w.idx() < 7,
                0 <= fuel <= 7,
                1 <= days <= (8 - fuel) * (1 + 7 * (ival - 1)),
                ival >= 1,
                spec_weekly_days(*b, wkst, ival, wd0) == weekly_scan(
                    *b,
                    wkst,
                    ival,
                    w.idx(),
                    days as int,
                    fuel as nat,
                ),
            decreases fuel,
        {
            if b.contains(w) {
                proof {
                    assert(days <= 8 + 56 * (ival - 1)) by (nonlinear_arith)
                        requires
                            1 <= days <= (8 - fuel) * (1 + 7 * (ival - 1)),
                            0 <= fuel <= 7,
                            ival >= 1,
                    ;
                }
                return Some(days);
            }
            if fuel == 0 {
                return None;
            }
            proof {
                assert((8 - fuel) * (1 + 7 * (ival - 1)) + (1 + 7 * (ival - 1)) == (8 - (fuel - 1))
                    * (1 + 7 * (ival - 1))) by (nonlinear_arith);
                assert((8 - (fuel - 1)) * (1 + 7 * (ival - 1)) <= 8 * (1 + 7 * (ival - 1)))
                    by (nonlinear_arith)
                    requires
                        1 <= fuel <= 7,
                        ival >= 1,
                ;
                assert(8 * (1 + 7 * (ival - 1)) <= 8 + 56 * (ival - 1)) by (nonlinear_arith);
            }
            w = w.succ();
            days = days + 1;
            if w.index() == p.wkst.index() {
                days = days + 7 * ((p.interval as i128) - 1);
            }
            fuel = fuel - 1;
        }
    }

    /// The monthly `BYDAY` walk: skip to the stride's month, then scan day
    /// by day for an accepted day.
    fn monthly_byday(&self, b: &Byday, date: Date) -> (r: Option<Duration>)
        requires
            self.periodic.wf(),
            self.periodic.byday matches Some(bb) && bb == *b,
            self.periodic.freq == Freq::Monthly,
            date.wf(),
        ensures
            r matches Some(dur) ==> spec_step_secs(*self.periodic, date) == Some(dur.secs as int),
            r is None ==> spec_step_secs(*self.periodic, date) is None,
    {
        proof {
            reveal(spec_step_secs);
        }
        let p = self.periodic;
        let mut cur = date;
        if p.interval > 1 {
            cur = match date.with_day(1) {
                Some(f) => f,
                None => {
                    proof {
                        reveal(spec_step_secs);
                    }
                    return None;
                },
            };
            let mut k: i64 = 1;
            while k < p.interval
                invariant
                    p == self.periodic,
                    self.periodic.wf(),
                    self.periodic.freq == Freq::Monthly,
                    self.periodic.byday is Some,
                    date.wf(),
                    1 <= k <= self.periodic.interval,
                    cur.wf(),
                    cur == date.spec_replace_day(cur.local_day()),
                    spec_month_skip(*self.periodic, date) == spec_hop_months(
                        cur,
                        self.periodic.interval - k,
                    ),
                decreases p.interval - k,
            {
                let dim = cur.days_in_month();
                proof {
                    crate::civil::lemma_max_rd_bound();
                    crate::civil::lemma_ymd_of_rd_valid(cur.local_day());
                }
                match cur.checked_add(Duration::days(dim as i64)) {
                    Some(c2) => {
                        proof {
                            lemma_add_whole_days(cur, dim as int);
                        }
                        cur = c2;
                    },
                    None => {
                        proof {
                            reveal(spec_step_secs);
                        }
                        return None;
                    },
                }
                k = k + 1;
            }
        }
        let ghost base = cur;
        proof {
            assert(spec_month_skip(*self.periodic, date) == Some(base));
            assert(cur == date.spec_replace_day(cur.local_day()));
        }
        loop
            invariant
                p == self.periodic,
                self.periodic.wf(),
                self.periodic.byday matches Some(bb) && bb == *b,
                self.periodic.freq == Freq::Monthly,
                b.wf(),
                date.wf(),
                cur.wf(),
                spec_month_skip(*self.periodic, date) == Some(base),
                cur.local_day() >= base.local_day(),
                cur == date.spec_replace_day(cur.local_day()),
                spec_scan(self.periodic.bysetpos as int, *b, base.local_day() + 1) == spec_scan(
                    self.periodic.bysetpos as int,
                    *b,
                    cur.local_day() + 1,
                ),
            decreases crate::civil::max_rd() - cur.local_day(),
        {
            let one_day = Duration::seconds(86400);
            let next = match cur.checked_add(one_day) {
                Some(n) => n,
                None => {
                    proof {
                        reveal(spec_step_secs);
                        assert(!cur.add_in_range(86400));
                        lemma_add_whole_days_range(cur, 1);
                        lemma_scan_out(p.bysetpos as int, *b, cur.local_day() + 1);
                    }
                    return None;
                },
            };
            proof {
                crate::civil::lemma_max_rd_bound();
                lemma_add_whole_days(cur, 1);
                assert(next == cur.spec_replace_day(cur.local_day() + 1));
                assert(next == date.spec_replace_day(next.local_day()));
            }
            let (week, negw) = next.week_of_month();
            let wd = next.weekday();
            let accept = if b.contains(wd) {
                let setpos = p.bysetpos;
                if setpos == week || setpos == negw {
                    true
                } else {
                    let has = match byday_ords(b, wd) {
                        Some(os) => {
                            contains_ord(os, 0) || contains_ord(os, week) || contains_ord(
                                os,
                                negw,
                            )
                        },
                        None => false,
                    };
                    has
                }
            } else {
                false
            };
            proof {
                assert(accept == monthly_accept(p.bysetpos as int, *b, next.local_day()));
            }
            if accept {
                proof {
                    reveal(spec_step_secs);
                    assert(spec_scan(p.bysetpos as int, *b, next.local_day()) == Some(
                        next.local_day(),
                    ));
                    assert(next.spec_sub(date) == (next.local_day() - date.local_day()) * 86400);
                }
                return Some(next.sub(date));
            }
            cur = next;
        }
    }
}

/// Adding `n` whole days to a well-formed date moves its local day by `n`
/// and changes nothing else.
proof fn lemma_add_whole_days(d: Date, n: int)
    requires
        d.wf(),
        n >= 0,
        d.add_in_range(n * 86400),
    ensures
        d.spec_add(n * 86400) == d.spec_replace_day(d.local_day() + n),
{
    match d {
        Date::Time { day, sod, offset } => {
            assert(day * 86400 + sod + n * 86400 == (day + n) * 86400 + sod) by (nonlinear_arith);
            vstd::arithmetic::div_mod::lemma_fundamental_div_mod_converse(
                (day + n) * 86400 + sod,
                86400,
                day + n,
                sod as int,
            );
        },
        Date::AllDay { day } => {
            vstd::arithmetic::div_mod::lemma_div_multiples_vanish(n, 86400);
        },
    }
}

/// When adding `n` whole days leaves the supported range, the target day is
/// past it.
proof fn lemma_add_whole_days_range(d: Date, n: int)
    requires
        d.wf(),
        n >= 0,
        !d.add_in_range(n * 86400),
    ensures
        d.local_day() + n > crate::civil::max_rd(),
{
    match d {
        Date::Time { day, sod, offset } => {
            assert(day * 86400 + sod + n * 86400 == (day + n) * 86400 + sod) by (nonlinear_arith);
            if day + n <= crate::civil::max_rd() {
                assert((day + n) * 86400 + sod < (crate::civil::max_rd() + 1) * 86400)
                    by (nonlinear_arith)
                    requires
                        day + n <= crate::civil::max_rd(),
                        0 <= sod < 86400,
                ;
            }
        },
        Date::AllDay { day } => {
            vstd::arithmetic::div_mod::lemma_div_multiples_vanish(n, 86400);
        },
    }
}

/// Past the supported range nothing is accepted.
proof fn lemma_scan_out(bysetpos: int, b: Byday, dd: int)
    requires
        dd > crate::civil::max_rd(),
    ensures
        spec_scan(bysetpos, b, dd) is None,
{
}

/// The step of a plain monthly rule.
fn monthly_plain(date: Date) -> (r: Option<Duration>)
    requires
        date.wf(),
    ensures
        r matches Some(dur) ==> spec_monthly_plain(date) == Some(dur.secs as int),
        r is None ==> spec_monthly_plain(date) is None,
{
    proof {
        crate::civil::lemma_ymd_of_rd_valid(date.local_day());
    }
    let m = date.month();
    if m == 12 {
        match date.with_month(1) {
            Some(j) => {
                let y = date.year();
                match j.with_year(y + 1) {
                    Some(n) => Some(n.sub(date)),
                    None => None,
                }
            },
            None => None,
        }
    } else {
        match date.with_month(m + 1) {
            Some(n) => Some(n.sub(date)),
            None => None,
        }
    }
}

/// The ordinals stored for a weekday, when it is named.
fn byday_ords<'b>(b: &'b Byday, w: Weekday) -> (r: Option<&'b Vec<i32>>)
    requires
        b.wf(),
    ensures
        (match r {
            Some(v) => b.has_widx(w.idx()) && v@ == b.ords(w.idx()),
            None => !b.has_widx(w.idx()),
        }),
{
    let i = w.index() as usize;
    match &b.slots[i] {
        Some(v) => Some(v),
        None => None,
    }
}

/// Whether a list of ordinals holds `v`.
fn contains_ord(os: &Vec<i32>, v: i32) -> (r: bool)
    ensures
        r == ords_contain(os@, v as int),
{
    let n = os.len();
    let mut i: usize = 0;
    while i < n
        invariant
            0 <= i <= n == os@.len(),
            forall|k: int| 0 <= k < i ==> os@[k] != v,
        decreases n - i,
    {
        if os[i] == v {
            assert(ords_contain(os@, v as int));
            return true;
        }
        i = i + 1;
    }
    assert(!ords_contain(os@, v as int));
    false
}


/// The ghost image of a recurrence rule: its parameters with the `BYDAY`
/// table abstracted to a map from weekday index to ordinals.
pub struct PeriodicView {
    pub freq: Freq,
    pub interval: i64,
    pub count: Option<i64>,
    pub until: Option<Date>,
    pub byday: Option<Map<int, Seq<i32>>>,
    pub bysetpos: i32,
    pub wkst: Weekday,
}

/// The map a `BYDAY` table denotes.
pub open spec fn byday_map(b: Byday) -> Map<int, Seq<i32>> {
    Map::new(|w: int| 0 <= w < 7 && b.has_widx(w), |w: int| b.ords(w))
}

/// The ghost image of a rule.
pub open spec fn pview(p: Periodic) -> PeriodicView {
    PeriodicView {
        freq: p.freq,
        interval: p.interval,
        count: p.count,
        until: p.until,
        byday: match p.byday {
            Some(b) => Some(byday_map(b)),
            None => None,
        },
        bysetpos: p.bysetpos,
        wkst: p.wkst,
    }
}

/// A fresh rule's ghost image.
pub open spec fn initial_pview() -> PeriodicView {
    PeriodicView {
        freq: Freq::Secondly,
        interval: 1 as i64,
        count: None,
        until: None,
        byday: None,
        bysetpos: 0 as i32,
        wkst: Weekday::Mon,
    }
}

/// What applying one `RRULE` parameter means at the ghost level, as a
/// function.
pub open spec fn spec_set_param_v(
    pw: PeriodicView,
    key: Seq<char>,
    value: Seq<char>,
) -> Result<PeriodicView, EventError> {
    if key == "FREQ"@ {
        match spec_parse_freq(value) {
            Ok(f) => Ok(PeriodicView { freq: f, ..pw }),
            Err(e) => Err(e),
        }
    } else if key == "INTERVAL"@ {
        match spec_parse_i64(value) {
            Some(v) => {
                if v >= 1 {
                    Ok(PeriodicView { interval: v as i64, ..pw })
                } else {
                    Err(EventError::IntError)
                }
            },
            None => Err(EventError::IntError),
        }
    } else if key == "COUNT"@ {
        match spec_parse_i64(value) {
            Some(v) => Ok(PeriodicView { count: Some(v as i64), ..pw }),
            None => Err(EventError::IntError),
        }
    } else if key == "UNTIL"@ {
        match spec_parse_date(value, Seq::<char>::empty()) {
            Ok(d) => Ok(PeriodicView { until: Some(d), ..pw }),
            Err(e) => Err(e),
        }
    } else if key == "BYDAY"@ {
        match spec_byday_pairs(value) {
            Ok(ps) => Ok(
                PeriodicView {
                    byday: Some(
                        Map::new(|w: int| 0 <= w < 7 && pairs_have(ps, w), |w: int| pairs_ords(ps, w)),
                    ),
                    ..pw
                },
            ),
            Err(e) => Err(e),
        }
    } else if key == "BYSETPOS"@ {
        match spec_parse_i64(value) {
            Some(v) => {
                if i32::MIN <= v <= i32::MAX {
                    Ok(PeriodicView { bysetpos: v as i32, ..pw })
                } else {
                    Err(EventError::IntError)
                }
            },
            None => Err(EventError::IntError),
        }
    } else if key == "WKST"@ {
        match spec_parse_weekday(value) {
            Ok(w) => Ok(PeriodicView { wkst: w, ..pw }),
            Err(e) => Err(e),
        }
    } else {
        Ok(pw)
    }
}

/// `set_param`'s relational contract refines the ghost-level function.
pub proof fn lemma_set_param_view(
    pre: Periodic,
    post: Periodic,
    key: Seq<char>,
    value: Seq<char>,
    r: Result<(), EventError>,
)
    requires
        set_param_holds(pre, post, key, value, r),
    ensures
        (match spec_set_param_v(pview(pre), key, value) {
            Ok(pw) => r is Ok && pview(post) == pw,
            Err(e) => r == Err::<(), EventError>(e),
        }),
{
    if key == "FREQ"@ {
    } else if key == "INTERVAL"@ {
    } else if key == "COUNT"@ {
    } else if key == "UNTIL"@ {
    } else if key == "BYDAY"@ {
        match spec_byday_pairs(value) {
            Ok(ps) => {
                let b = post.byday->0;
                let m2 = Map::new(
                    |w: int| 0 <= w < 7 && pairs_have(ps, w),
                    |w: int| pairs_ords(ps, w),
                );
                assert(byday_map(b).dom() =~= m2.dom());
                assert forall|w: int| m2.dom().contains(w) implies byday_map(b)[w] == m2[w] by {
                    assert(b.ords(w) == pairs_ords(ps, w));
                }
                assert(byday_map(b) =~= m2);
            },
            Err(e) => {},
        }
    }
}


/// The iterator's state before its `n`th emission: the template's dates
/// advanced `n` times.
#[verifier::opaque]
pub open spec fn nth_state(p: Periodic, n: nat) -> Option<(Date, Date)>
    decreases n,
{
    if n == 0 {
        Some((p.event.start, p.event.spec_end_date()))
    } else {
        match nth_state(p, (n - 1) as nat) {
            None => None,
            Some(se) => spec_advance(p, se.0, se.1),
        }
    }
}

/// The `n`th occurrence the rule denotes.
pub open spec fn nth_occurrence(p: Periodic, n: nat) -> Event {
    let se = nth_state(p, n)->0;
    occurrence_at(p.event, se.0, se.1)
}

/// Whether the iterator reaches and emits an `n`th occurrence: every state
/// up to `n` exists and none has passed the rule's bounds.
#[verifier::opaque]
pub open spec fn emits_through(p: Periodic, n: nat) -> bool
    decreases n,
{
    &&& n <= i64::MAX
    &&& nth_state(p, n) matches Some(se) && !spec_done(p, se.0, n as i64)
    &&& (n > 0 ==> emits_through(p, (n - 1) as nat))
}

/// The rule's bounds hold of every emission: a `COUNT` cap admits fewer
/// occurrences than it names, and no emitted start passes an `UNTIL` date.
pub proof fn lemma_recurrence_bounds(p: Periodic, n: nat)
    requires
        emits_through(p, n),
    ensures
        p.count matches Some(c) ==> n < c,
        p.until matches Some(u) ==> !date_lt(u, nth_occurrence(p, n).start),
{
    reveal(emits_through);
}

/// The emissions before index `a` all ended before the window.
#[verifier::opaque]
pub open spec fn skipped_prefix(p: Periodic, first: Date, a: nat) -> bool {
    forall|m: nat|
        m < a ==> emits_through(p, m) && date_lt(nth_occurrence(p, m).spec_end_date(), first)
}

/// `s` is the run of emissions starting at index `a`.
#[verifier::opaque]
pub open spec fn run_matches(p: Periodic, a: nat, s: Seq<Event>) -> bool {
    forall|i: int|
        0 <= i < s.len() ==> emits_through(p, (a + i) as nat) && s[i] == nth_occurrence(
            p,
            (a + i) as nat,
        )
}

/// Every start in `s` lies at or before `last`.
#[verifier::opaque]
pub open spec fn starts_within(s: Seq<Event>, last: Date) -> bool {
    forall|i: int| 0 <= i < s.len() ==> date_le((#[trigger] s[i]).start, last)
}

/// The starts in `s` are strictly increasing.
#[verifier::opaque]
pub open spec fn starts_increasing(s: Seq<Event>) -> bool {
    forall|i: int, j: int| 0 <= i < j < s.len() ==> date_lt(s[i].start, s[j].start)
}

/// Every start in `s` is a variant-and-offset sibling of `d`.
#[verifier::opaque]
pub open spec fn starts_sibling(s: Seq<Event>, d: Date) -> bool {
    forall|i: int| 0 <= i < s.len() ==> crate::date::date_sibling((#[trigger] s[i]).start, d)
}

/// Every start in `s` lies strictly before `d`.
#[verifier::opaque]
pub open spec fn starts_before(s: Seq<Event>, d: Date) -> bool {
    forall|i: int| 0 <= i < s.len() ==> date_lt((#[trigger] s[i]).start, d)
}

/// What a windowed expansion holds: a consecutive run of the rule's
/// occurrences, the prefix before it wholly ended before the window, every
/// kept start inside it, and the run ended only by the stream's own end or
/// the window's far edge.
pub open spec fn expand_run(p: Periodic, first: Date, last: Date, s: Seq<Event>, a: nat) -> bool {
    &&& run_matches(p, a, s)
    &&& skipped_prefix(p, first, a)
    &&& (s.len() > 0 ==> !date_lt(s[0].spec_end_date(), first))
    &&& starts_within(s, last)
    &&& (emits_through(p, (a + s.len()) as nat) ==> date_lt(
        last,
        nth_occurrence(p, (a + s.len()) as nat).start,
    ))
}

pub open spec fn expand_post(p: Periodic, first: Date, last: Date, s: Seq<Event>) -> bool {
    exists|a: nat| expand_run(p, first, last, s, a)
}

/// A reachable state with bounds not yet passed is an emission.
proof fn lemma_emits_here(p: Periodic, n: nat, s: Date, e: Date)
    requires
        n <= i64::MAX,
        nth_state(p, n) == Some((s, e)),
        !spec_done(p, s, n as i64),
        n > 0 ==> emits_through(p, (n - 1) as nat),
    ensures
        emits_through(p, n),
        nth_occurrence(p, n) == occurrence_at(p.event, s, e),
{
    reveal(emits_through);
}

/// A successful advancement reaches the next state.
proof fn lemma_state_step(p: Periodic, n: nat, s: Date, e: Date, s2: Date, e2: Date)
    requires
        nth_state(p, n) == Some((s, e)),
        spec_advance(p, s, e) == Some((s2, e2)),
    ensures
        nth_state(p, (n + 1) as nat) == Some((s2, e2)),
{
    reveal(nth_state);
}

/// A failed advancement ends the stream.
proof fn lemma_state_stuck(p: Periodic, n: nat, s: Date, e: Date)
    requires
        nth_state(p, n) == Some((s, e)),
        spec_advance(p, s, e) is None,
    ensures
        !emits_through(p, (n + 1) as nat),
{
    reveal(nth_state);
    reveal(emits_through);
}

/// Past the count cap nothing is emitted.
proof fn lemma_past_cap(p: Periodic, n: nat)
    requires
        n > i64::MAX,
    ensures
        !emits_through(p, n),
{
    reveal(emits_through);
}

/// A state whose bounds are passed is no emission.
proof fn lemma_done_here(p: Periodic, n: nat, s: Date, e: Date)
    requires
        nth_state(p, n) == Some((s, e)),
        spec_done(p, s, n as i64),
    ensures
        !emits_through(p, n),
{
    reveal(emits_through);
}

/// After an emission that exhausted the iterator, nothing further is
/// emitted.
proof fn lemma_stuck_or_cap<'a>(p: Periodic, n: nat, it0: Iter<'a>, it1: Iter<'a>)
    requires
        n >= 1,
        n <= i64::MAX,
        *it0.periodic == p,
        nth_state(p, (n - 1) as nat) == Some((it0.start, it0.end)),
        it1.exhausted,
        it1.exhausted == (spec_advance(p, it0.start, it0.end) is None || it0.count == i64::MAX),
        it0.count == n - 1,
    ensures
        !emits_through(p, n),
{
    reveal(nth_state);
    reveal(emits_through);
    if spec_advance(p, it0.start, it0.end) is None {
    } else {
        assert(it0.count == i64::MAX);
        assert(n - 1 == i64::MAX);
        assert(false);
    }
}

/// Skipping one more wholly-early emission extends the skipped prefix.
proof fn lemma_skip_extend(p: Periodic, first: Date, a: nat, ev: Event)
    requires
        skipped_prefix(p, first, a),
        emits_through(p, a),
        ev == nth_occurrence(p, a),
        date_lt(ev.spec_end_date(), first),
    ensures
        skipped_prefix(p, first, (a + 1) as nat),
{
    reveal(skipped_prefix);
    assert forall|m: nat|
        m < a + 1 implies emits_through(p, m) && date_lt(
        nth_occurrence(p, m).spec_end_date(),
        first,
    ) by {
        if m < a {
        } else {
            assert(m == a);
        }
    }
}

impl Periodic {
    /// The rule's occurrences inside the window `[first, last]`: the
    /// occurrence stream with its wholly-before-`first` prefix skipped, cut
    /// at the first start past `last`.
    #[verifier::rlimit(100)]
    #[verifier::spinoff_prover]
    pub fn expand_window(&self, first: &Date, last: &Date) -> (r: Vec<Event>)
        requires
            self.wf(),
            first.wf(),
            last.wf(),
        ensures
            crate::merge::all_wf(r@),
            crate::merge::sorted_events(r@),
            expand_post(*self, *first, *last, r@),
    {
        let mut it = self.iter();
        let mut out: Vec<Event> = Vec::new();
        let ghost mut n: nat = 0;
        let ghost mut a: nat = 0;
        let mut skipping = true;
        proof {
            crate::civil::lemma_max_rd_bound();
            reveal(nth_state);
            reveal(skipped_prefix);
            reveal(run_matches);
            reveal(starts_within);
            reveal(starts_increasing);
            reveal(starts_sibling);
            reveal(starts_before);
            assert(nth_state(*self, 0) == Some((it.start, it.end)));
        }
        loop
            invariant_except_break
                !it.exhausted ==> it.count == n,
                !it.exhausted ==> nth_state(*self, n) == Some((it.start, it.end)),
                it.exhausted ==> !emits_through(*self, n),
                skipping ==> out@.len() == 0 && a == n,
                !skipping ==> out@.len() > 0,
                !it.exhausted ==> crate::date::date_sibling(it.start, self.event.start),
                !it.exhausted ==> starts_before(out@, it.start),
            invariant
                self.wf(),
                first.wf(),
                last.wf(),
                it.periodic == self,
                it.wf(),
                0 <= it.count,
                n > 0 ==> emits_through(*self, (n - 1) as nat),
                a + out@.len() == n,
                skipped_prefix(*self, *first, a),
                run_matches(*self, a, out@),
                out@.len() > 0 ==> !date_lt(out@[0].spec_end_date(), *first),
                starts_within(out@, *last),
                crate::merge::all_wf(out@),
                starts_increasing(out@),
                starts_sibling(out@, self.event.start),
            ensures
                a + out@.len() == n,
                skipped_prefix(*self, *first, a),
                run_matches(*self, a, out@),
                out@.len() > 0 ==> !date_lt(out@[0].spec_end_date(), *first),
                starts_within(out@, *last),
                crate::merge::all_wf(out@),
                starts_increasing(out@),
                emits_through(*self, n) ==> date_lt(*last, nth_occurrence(*self, n).start),
            decreases (if it.exhausted {
                0int
            } else {
                1int
            }), (crate::civil::max_rd() + 2) * 86400 - it.start.instant(),
        {
            let ghost it0 = it;
            match it.next() {
                None => {
                    proof {
                        if !it0.exhausted {
                            lemma_done_here(*self, n, it0.start, it0.end);
                        }
                    }
                    break;
                },
                Some(ev) => {
                    proof {
                        assert(n == it0.count && n <= i64::MAX);
                        lemma_emits_here(*self, n, it0.start, it0.end);
                        assert(ev == nth_occurrence(*self, n));
                        assert(crate::date::date_sibling(ev.start, self.event.start));
                        if !it.exhausted {
                            assert(spec_advance(*self, it0.start, it0.end) == Some(
                                (it.start, it.end),
                            ));
                            assert(date_lt(it0.start, it.start));
                            crate::date::lemma_spec_add_sibling(it0.start);
                            lemma_state_step(*self, n, it0.start, it0.end, it.start, it.end);
                            assert(starts_before(out@.push(ev), it.start)) by {
                                reveal(starts_before);
                                assert forall|i: int|
                                    0 <= i < out@.push(ev).len() implies date_lt(
                                    (#[trigger] out@.push(ev)[i]).start,
                                    it.start,
                                ) by {
                                    if i < out@.len() {
                                        reveal(starts_sibling);
                                        crate::date::lemma_date_order_transitive(
                                            out@[i].start,
                                            it0.start,
                                            it.start,
                                        );
                                    }
                                }
                            }
                        }
                    }
                    let keep: bool;
                    if skipping {
                        let endd = ev.end_date();
                        if endd.lt(first) {
                            keep = false;
                        } else {
                            skipping = false;
                            keep = true;
                        }
                    } else {
                        keep = true;
                    }
                    if !keep {
                        proof {
                            lemma_skip_extend(*self, *first, a, ev);
                            assert(run_matches(*self, (a + 1) as nat, out@)) by {
                                reveal(run_matches);
                            }
                            if !it.exhausted {
                                assert(starts_before(out@, it.start)) by {
                                    reveal(starts_before);
                                }
                            }
                            a = a + 1;
                            n = n + 1;
                            if it.exhausted {
                                if n > i64::MAX {
                                    lemma_past_cap(*self, n);
                                } else {
                                    lemma_stuck_or_cap(*self, n, it0, it);
                                }
                            }
                        }
                    } else {
                        if last.lt(&ev.start) {
                            proof {
                                crate::date::lemma_date_order_trichotomy(*last, ev.start);
                            }
                            break;
                        }
                        proof {
                            crate::date::lemma_date_order_trichotomy(*last, ev.start);
                            reveal(run_matches);
                            reveal(starts_within);
                            reveal(starts_increasing);
                            reveal(starts_sibling);
                            reveal(starts_before);
                            assert(run_matches(*self, a, out@.push(ev)));
                            assert(starts_within(out@.push(ev), *last));
                            assert(starts_sibling(out@.push(ev), self.event.start));
                            assert(starts_increasing(out@.push(ev))) by {
                                assert forall|i: int, j: int|
                                    0 <= i < j < out@.push(ev).len() implies date_lt(
                                    out@.push(ev)[i].start,
                                    out@.push(ev)[j].start,
                                ) by {
                                    if j < out@.len() {
                                    } else {
                                        assert(out@.push(ev)[j] == ev);
                                        assert(date_lt(out@[i].start, it0.start));
                                    }
                                }
                            }
                        }
                        out.push(ev);
                        proof {
                            n = n + 1;
                            if it.exhausted {
                                if n > i64::MAX {
                                    lemma_past_cap(*self, n);
                                } else {
                                    lemma_stuck_or_cap(*self, n, it0, it);
                                }
                            }
                        }
                    }
                },
            }
        }
        proof {
            assert(expand_run(*self, *first, *last, out@, a));
            assert(crate::merge::sorted_events(out@)) by {
                reveal(starts_increasing);
                assert forall|i: int, j: int|
                    0 <= i < j < out@.len() implies crate::event::event_le(
                    out@[i],
                    out@[j],
                ) by {
                    assert(date_lt(out@[i].start, out@[j].start));
                }
            }
        }
        out
    }
}

} // verus!
