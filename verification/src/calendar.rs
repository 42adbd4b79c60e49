//! Calendar ingestion: an iCalendar text is tokenized into VEVENT property
//! tuples by the external parser, and each VEVENT is folded, property by
//! property, into an event and possibly a recurrence rule.

use vstd::prelude::*;
use vstd::string::StrSliceExecFns;

use crate::date::{epoch_date, spec_parse_date, Date};
use crate::errors::EventError;
use crate::event::{event_le, event_lt, spec_parse_status, End, Event, Status};
use crate::periodic::{
    initial_pview, lemma_set_param_view, pview, spec_set_param_v, Periodic, PeriodicView,
};
use crate::text::{find_char, find_char_of, lemma_find_char, str_eq};

verus! {

/// One property tuple of a VEVENT: its name, its parameters and its value,
/// as the tokenizer hands them over.
#[derive(Debug)]
pub struct Prop {
    pub name: String,
    pub params: Option<Vec<(String, Vec<String>)>>,
    pub value: Option<String>,
}

/// What the external iCalendar tokenizer yields for a text: per VEVENT, its
/// property tuples; `None` for a malformed stream.  The result is a function
/// of the text alone.
pub uninterp spec fn ics_tokens(s: Seq<char>) -> Option<Vec<Vec<Prop>>>;

/// Relies on ical::IcalParser: it splits an iCalendar text into calendars
/// and their VEVENTs, each VEVENT a list of (name, params, value) property
/// tuples, reading nothing but the text.
#[verifier::external_body]
fn tokenize(text: &str) -> (r: Option<Vec<Vec<Prop>>>)
    ensures
        r == ics_tokens(text@),
{
    let mut out: Vec<Vec<Prop>> = Vec::new();
    for cal in ical::IcalParser::new(std::io::BufReader::new(text.as_bytes())) {
        let c = match cal { Ok(c) => c, Err(_) => return None };
        for ev in c.events {
            out.push(ev.properties.into_iter().map(|p| Prop { name: p.name, params: p.params, value: p.value }).collect());
        }
    }
    Some(out)
}

/// The ghost image of an event: its dates and status, and its strings as
/// character sequences.
pub struct EventView {
    pub start: Date,
    pub end: End,
    pub summary: Seq<char>,
    pub location: Seq<char>,
    pub description: Seq<char>,
    pub status: Status,
}

pub open spec fn ev_view(e: Event) -> EventView {
    EventView {
        start: e.start,
        end: e.end,
        summary: e.summary@,
        location: e.location@,
        description: e.description@,
        status: e.status,
    }
}

/// A fresh event's ghost image.
pub open spec fn initial_ev() -> EventView {
    EventView {
        start: epoch_date(),
        end: End::Date(epoch_date()),
        summary: Seq::empty(),
        location: Seq::empty(),
        description: Seq::empty(),
        status: Status::Confirmed,
    }
}

/// The folding state of one VEVENT: the event so far, and the recurrence
/// rule of its last `RRULE` property, if any.
pub struct VeventView {
    pub ev: EventView,
    pub per: Option<PeriodicView>,
}

/// A property's value; an absent value reads as the empty string.
pub open spec fn value_of(p: Prop) -> Seq<char> {
    match p.value {
        Some(s) => s@,
        None => Seq::empty(),
    }
}

/// A property's parameters; absent parameters read as none.
pub open spec fn params_of(p: Prop) -> Seq<(String, Vec<String>)> {
    match p.params {
        Some(v) => v@,
        None => Seq::empty(),
    }
}

/// The zone name the parameters select: the last `TZID` parameter carrying a
/// value; empty when there is none.
pub open spec fn tzid_of(ps: Seq<(String, Vec<String>)>, acc: Seq<char>) -> Seq<char>
    decreases ps.len(),
{
    if ps.len() == 0 {
        acc
    } else {
        let next = if ps[0].0@ == "TZID"@ && ps[0].1@.len() > 0 {
            ps[0].1@[0]@
        } else {
            acc
        };
        tzid_of(ps.drop_first(), next)
    }
}

/// The first value of a parameter, or the empty string.
pub open spec fn first_value(vs: Vec<String>) -> Seq<char> {
    if vs@.len() > 0 {
        vs@[0]@
    } else {
        Seq::empty()
    }
}

/// One `KEY=VALUE` token of an `RRULE` value, applied to the rule: the key
/// is the text before the first `=`, the value what follows it (empty when
/// there is no `=`).
pub open spec fn spec_apply_pair(pw: PeriodicView, tok: Seq<char>) -> Result<
    PeriodicView,
    EventError,
> {
    let j = find_char(tok, '=');
    let key = tok.take(j);
    let val = if j == tok.len() {
        Seq::<char>::empty()
    } else {
        tok.skip(j + 1)
    };
    spec_set_param_v(pw, key, val)
}

/// An `RRULE` value applied to the rule: split on `;`, each pair in order.
pub open spec fn spec_apply_rrule_text(pw: PeriodicView, s: Seq<char>) -> Result<
    PeriodicView,
    EventError,
>
    decreases s.len(),
    via spec_apply_rrule_text_decreases
{
    let i = find_char(s, ';');
    let tok = s.take(i);
    match spec_apply_pair(pw, tok) {
        Err(e) => Err(e),
        Ok(p2) => {
            if i == s.len() {
                Ok(p2)
            } else {
                spec_apply_rrule_text(p2, s.skip(i + 1))
            }
        },
    }
}

#[via_fn]
proof fn spec_apply_rrule_text_decreases(pw: PeriodicView, s: Seq<char>) {
    lemma_find_char(s, ';');
}

/// The property's own parameters applied to the rule, each as a pair of its
/// name and its first value.
pub open spec fn spec_apply_rrule_params(
    pw: PeriodicView,
    ps: Seq<(String, Vec<String>)>,
) -> Result<PeriodicView, EventError>
    decreases ps.len(),
{
    if ps.len() == 0 {
        Ok(pw)
    } else {
        match spec_set_param_v(pw, ps[0].0@, first_value(ps[0].1)) {
            Err(e) => Err(e),
            Ok(p2) => spec_apply_rrule_params(p2, ps.drop_first()),
        }
    }
}

/// The rule an `RRULE` property denotes: a fresh rule, the value's pairs,
/// then the property's parameters.
pub open spec fn spec_rrule(value: Seq<char>, ps: Seq<(String, Vec<String>)>) -> Result<
    PeriodicView,
    EventError,
> {
    match spec_apply_rrule_text(initial_pview(), value) {
        Err(e) => Err(e),
        Ok(pw) => spec_apply_rrule_params(pw, ps),
    }
}

/// One property applied to the VEVENT state.  `SUMMARY`, `LOCATION` and
/// `DESCRIPTION` copy the value; `STATUS` parses it; `DTSTART` and `DTEND`
/// read a date in the `TZID` parameter's zone; `RRULE` builds the rule; any
/// other property is ignored.
pub open spec fn spec_apply_prop(st: VeventView, p: Prop) -> Result<VeventView, EventError> {
    let name = p.name@;
    let v = value_of(p);
    let ps = params_of(p);
    let tz = tzid_of(ps, Seq::empty());
    if name == "SUMMARY"@ {
        Ok(VeventView { ev: EventView { summary: v, ..st.ev }, ..st })
    } else if name == "LOCATION"@ {
        Ok(VeventView { ev: EventView { location: v, ..st.ev }, ..st })
    } else if name == "DESCRIPTION"@ {
        Ok(VeventView { ev: EventView { description: v, ..st.ev }, ..st })
    } else if name == "STATUS"@ {
        match spec_parse_status(v) {
            Ok(s) => Ok(VeventView { ev: EventView { status: s, ..st.ev }, ..st }),
            Err(e) => Err(e),
        }
    } else if name == "DTSTART"@ {
        match spec_parse_date(v, tz) {
            Ok(d) => Ok(VeventView { ev: EventView { start: d, ..st.ev }, ..st }),
            Err(e) => Err(e),
        }
    } else if name == "DTEND"@ {
        match spec_parse_date(v, tz) {
            Ok(d) => Ok(VeventView { ev: EventView { end: End::Date(d), ..st.ev }, ..st }),
            Err(e) => Err(e),
        }
    } else if name == "RRULE"@ {
        match spec_rrule(v, ps) {
            Ok(pw) => Ok(VeventView { per: Some(pw), ..st }),
            Err(e) => Err(e),
        }
    } else {
        Ok(st)
    }
}

/// A VEVENT's properties folded in order.
pub open spec fn spec_fold_props(st: VeventView, props: Seq<Prop>) -> Result<
    VeventView,
    EventError,
>
    decreases props.len(),
{
    if props.len() == 0 {
        Ok(st)
    } else {
        match spec_apply_prop(st, props[0]) {
            Err(e) => Err(e),
            Ok(s2) => spec_fold_props(s2, props.drop_first()),
        }
    }
}

/// What one VEVENT denotes, starting from a fresh event.
pub open spec fn spec_vevent(props: Seq<Prop>) -> Result<VeventView, EventError> {
    spec_fold_props(VeventView { ev: initial_ev(), per: None }, props)
}

/// What a token stream denotes: per VEVENT its event, split into plain
/// events and recurrence rules; the first error aborts the whole parse.
pub open spec fn spec_collect(evs: Seq<Vec<Prop>>) -> Result<
    (Seq<EventView>, Seq<(EventView, PeriodicView)>),
    EventError,
>
    decreases evs.len(),
{
    if evs.len() == 0 {
        Ok((Seq::empty(), Seq::empty()))
    } else {
        match spec_vevent(evs[0]@) {
            Err(e) => Err(e),
            Ok(vv) => {
                match spec_collect(evs.drop_first()) {
                    Err(e) => Err(e),
                    Ok((sv, pv)) => {
                        match vv.per {
                            None => Ok((seq![vv.ev] + sv, pv)),
                            Some(pw) => Ok((sv, seq![(vv.ev, pw)] + pv)),
                        }
                    },
                }
            },
        }
    }
}

pub open spec fn views_of(s: Seq<Event>) -> Seq<EventView> {
    s.map_values(|e: Event| ev_view(e))
}

pub open spec fn per_views(s: Seq<Periodic>) -> Seq<(EventView, PeriodicView)> {
    s.map_values(|p: Periodic| (ev_view(p.event), pview(p)))
}

/// The `TZID` parameter's zone name: the last `TZID` carrying a value.
fn tzid_from_params(params: &Vec<(String, Vec<String>)>) -> (r: String)
    ensures
        r@ == tzid_of(params@, Seq::empty()),
{
    let mut tz = String::new();
    proof {
        assert(params@.skip(0) =~= params@);
    }
    let n = params.len();
    let mut i: usize = 0;
    while i < n
        invariant
            0 <= i <= n == params@.len(),
            tzid_of(params@, Seq::empty()) == tzid_of(params@.skip(i as int), tz@),
        decreases n - i,
    {
        proof {
            assert(params@.skip(i as int).drop_first() =~= params@.skip(i + 1));
        }
        if str_eq(params[i].0.as_str(), "TZID") && params[i].1.len() > 0 {
            tz = params[i].1[0].clone();
        }
        i = i + 1;
    }
    proof {
        assert(params@.skip(i as int) =~= Seq::<(String, Vec<String>)>::empty());
    }
    tz
}

/// Builds the recurrence rule of an `RRULE` property: the value's
/// `KEY=VALUE` pairs, split on `;`, then the property's own parameters, each
/// applied in order to a fresh rule.
pub fn rrule(value: &str, params: &Vec<(String, Vec<String>)>) -> (r: Result<Periodic, EventError>)
    ensures
        (match spec_rrule(value@, params@) {
            Err(e) => r == Err::<Periodic, EventError>(e),
            Ok(pw) => r matches Ok(p) && pview(p) == pw && p.wf() && ev_view(p.event)
                == initial_ev(),
        }),
{
    let mut periodic = Periodic::new();
    proof {
        assert(pview(periodic) == initial_pview());
        assert(ev_view(periodic.event).summary =~= initial_ev().summary);
        assert(ev_view(periodic.event).location =~= initial_ev().location);
        assert(ev_view(periodic.event).description =~= initial_ev().description);
        assert(ev_view(periodic.event) == initial_ev());
    }
    let mut rest: &str = value;
    loop
        invariant
            periodic.wf(),
            ev_view(periodic.event) == initial_ev(),
            spec_apply_rrule_text(initial_pview(), value@) == spec_apply_rrule_text(
                pview(periodic),
                rest@,
            ),
        ensures
            periodic.wf(),
            ev_view(periodic.event) == initial_ev(),
            spec_apply_rrule_text(initial_pview(), value@) == Ok::<PeriodicView, EventError>(
                pview(periodic),
            ),
        decreases rest@.len(),
    {
        let n = rest.unicode_len();
        let i = find_char_of(rest, ';');
        let tok = rest.substring_char(0, i);
        proof {
            assert(tok@ =~= rest@.take(i as int));
        }
        let m = tok.unicode_len();
        let j = find_char_of(tok, '=');
        let key = tok.substring_char(0, j);
        let val: &str = if j == m {
            ""
        } else {
            tok.substring_char(j + 1, m)
        };
        proof {
            assert(key@ =~= tok@.take(j as int));
            if j == m {
                reveal_strlit("");
                assert(val@ =~= Seq::<char>::empty());
            } else {
                assert(val@ =~= tok@.skip(j + 1));
            }
        }
        let ghost pre = periodic;
        let res = periodic.set_param(key, val);
        proof {
            lemma_set_param_view(pre, periodic, key@, val@, res);
        }
        match res {
            Err(e) => {
                return Err(e);
            },
            Ok(()) => {},
        }
        if i == n {
            break;
        }
        let next = rest.substring_char(i + 1, n);
        proof {
            assert(next@ =~= rest@.skip(i + 1));
        }
        rest = next;
    }
    let ghost pw_text = pview(periodic);
    proof {
        assert(params@.skip(0) =~= params@);
    }
    let np = params.len();
    let mut k: usize = 0;
    while k < np
        invariant
            0 <= k <= np == params@.len(),
            periodic.wf(),
            ev_view(periodic.event) == initial_ev(),
            spec_apply_rrule_text(initial_pview(), value@) == Ok::<PeriodicView, EventError>(
                pw_text,
            ),
            spec_apply_rrule_params(pw_text, params@) == spec_apply_rrule_params(
                pview(periodic),
                params@.skip(k as int),
            ),
        decreases np - k,
    {
        proof {
            assert(params@.skip(k as int).drop_first() =~= params@.skip(k + 1));
        }
        let name: &str = params[k].0.as_str();
        let val: &str = if params[k].1.len() > 0 {
            params[k].1[0].as_str()
        } else {
            ""
        };
        proof {
            if params@[k as int].1@.len() == 0 {
                reveal_strlit("");
                assert(val@ =~= Seq::<char>::empty());
            }
            assert(val@ == first_value(params@[k as int].1));
        }
        let ghost pre = periodic;
        let res = periodic.set_param(name, val);
        proof {
            lemma_set_param_view(pre, periodic, name@, val@, res);
        }
        match res {
            Err(e) => {
                return Err(e);
            },
            Ok(()) => {},
        }
        k = k + 1;
    }
    proof {
        assert(params@.skip(k as int) =~= Seq::<(String, Vec<String>)>::empty());
    }
    Ok(periodic)
}

/// The ghost image of a possibly missing rule.
pub open spec fn opt_pview(m: Option<Periodic>) -> Option<PeriodicView> {
    match m {
        Some(p) => Some(pview(p)),
        None => None,
    }
}

/// Applies one property to the event being built and its rule, as
/// `spec_apply_prop` describes.
fn apply_prop(event: &mut Event, maybe: &mut Option<Periodic>, p: &Prop) -> (r: Result<
    (),
    EventError,
>)
    requires
        old(event).wf(),
        old(event).end is Date,
        (*old(maybe) matches Some(q) ==> q.wf() && ev_view(q.event) == initial_ev()),
    ensures
        final(event).wf(),
        final(event).end is Date,
        (*final(maybe) matches Some(q) ==> q.wf() && ev_view(q.event) == initial_ev()),
        (match spec_apply_prop(
            VeventView { ev: ev_view(*old(event)), per: opt_pview(*old(maybe)) },
            *p,
        ) {
            Err(e) => r == Err::<(), EventError>(e),
            Ok(st2) => r is Ok && ev_view(*final(event)) == st2.ev && opt_pview(*final(maybe))
                == st2.per,
        }),
{
    let value: String = match &p.value {
        Some(s) => s.clone(),
        None => String::new(),
    };
    let empty_params: Vec<(String, Vec<String>)> = Vec::new();
    let params: &Vec<(String, Vec<String>)> = match &p.params {
        Some(ps) => ps,
        None => &empty_params,
    };
    proof {
        assert(value@ == value_of(*p));
        assert(params@ == params_of(*p));
    }
    let tz = tzid_from_params(params);
    let name: &str = p.name.as_str();
    if str_eq(name, "SUMMARY") {
        event.summary = value;
        Ok(())
    } else if str_eq(name, "LOCATION") {
        event.location = value;
        Ok(())
    } else if str_eq(name, "DESCRIPTION") {
        event.description = value;
        Ok(())
    } else if str_eq(name, "STATUS") {
        match Status::from_str(value.as_str()) {
            Ok(s) => {
                event.status = s;
                Ok(())
            },
            Err(e) => Err(e),
        }
    } else if str_eq(name, "DTSTART") {
        match Date::parse(value.as_str(), tz.as_str()) {
            Ok(d) => {
                event.start = d;
                Ok(())
            },
            Err(e) => Err(e),
        }
    } else if str_eq(name, "DTEND") {
        match Date::parse(value.as_str(), tz.as_str()) {
            Ok(d) => {
                event.end = End::Date(d);
                Ok(())
            },
            Err(e) => Err(e),
        }
    } else if str_eq(name, "RRULE") {
        match rrule(value.as_str(), params) {
            Ok(p2) => {
                *maybe = Some(p2);
                Ok(())
            },
            Err(e) => Err(e),
        }
    } else {
        Ok(())
    }
}

/// Reads one VEVENT's properties into an event and, when an `RRULE` was
/// given, its recurrence rule.
pub fn parse_vevent(props: &Vec<Prop>) -> (r: Result<(Event, Option<Periodic>), EventError>)
    ensures
        (match spec_vevent(props@) {
            Err(e) => r == Err::<(Event, Option<Periodic>), EventError>(e),
            Ok(vv) => r matches Ok((ev, mp)) && ev.wf() && ev_view(ev) == vv.ev && (match vv.per {
                None => mp is None,
                Some(pw) => mp matches Some(p) && p.wf() && pview(p) == pw && p.event == ev,
            }),
        }),
{
    let mut event = Event::new();
    let mut maybe: Option<Periodic> = None;
    proof {
        assert(props@.skip(0) =~= props@);
        assert(ev_view(event).summary =~= initial_ev().summary);
        assert(ev_view(event).location =~= initial_ev().location);
        assert(ev_view(event).description =~= initial_ev().description);
        assert(ev_view(event) == initial_ev());
    }
    let n = props.len();
    let mut i: usize = 0;
    while i < n
        invariant
            0 <= i <= n == props@.len(),
            event.wf(),
            event.end is Date,
            (maybe matches Some(p) ==> p.wf() && ev_view(p.event) == initial_ev()),
            spec_vevent(props@) == spec_fold_props(
                VeventView { ev: ev_view(event), per: opt_pview(maybe) },
                props@.skip(i as int),
            ),
        decreases n - i,
    {
        proof {
            assert(props@.skip(i as int).drop_first() =~= props@.skip(i + 1));
            assert(props@.skip(i as int)[0] == props@[i as int]);
        }
        match apply_prop(&mut event, &mut maybe, &props[i]) {
            Ok(()) => {},
            Err(e) => {
                return Err(e);
            },
        }
        i = i + 1;
    }
    proof {
        assert(props@.skip(i as int) =~= Seq::<Prop>::empty());
    }
    match maybe {
        Some(mut p) => {
            p.event = event.clone();
            Ok((event, Some(p)))
        },
        None => Ok((event, None)),
    }
}


/// Stable insertion of an event into a sequence: the event moves left past
/// everything strictly greater, and so lands after any equal events.
pub open spec fn spec_insert_ev(s: Seq<Event>, e: Event) -> Seq<Event>
    decreases s.len(),
{
    if s.len() == 0 {
        seq![e]
    } else if event_lt(e, s.last()) {
        spec_insert_ev(s.drop_last(), e).push(s.last())
    } else {
        s.push(e)
    }
}

/// Stable insertion sort by the event order.
pub open spec fn spec_sort_ev(s: Seq<Event>) -> Seq<Event>
    decreases s.len(),
{
    if s.len() == 0 {
        Seq::empty()
    } else {
        spec_insert_ev(spec_sort_ev(s.drop_last()), s.last())
    }
}

proof fn lemma_insert_ev_props(s: Seq<Event>, e: Event)
    ensures
        spec_insert_ev(s, e).len() == s.len() + 1,
        spec_insert_ev(s, e).to_multiset() == s.to_multiset().insert(e),
        forall|q: int|
            0 <= q < spec_insert_ev(s, e).len() ==> s.contains(#[trigger] spec_insert_ev(s, e)[q])
                || spec_insert_ev(s, e)[q] == e,
    decreases s.len(),
{
    broadcast use vstd::seq_lib::group_to_multiset_ensures;

    let r = spec_insert_ev(s, e);
    if s.len() == 0 {
        assert(seq![e] == Seq::<Event>::empty().push(e));
        vstd::multiset::lemma_multiset_empty_len(Seq::<Event>::empty().to_multiset());
        assert(r.to_multiset() =~= s.to_multiset().insert(e));
    } else if event_lt(e, s.last()) {
        lemma_insert_ev_props(s.drop_last(), e);
        let r2 = spec_insert_ev(s.drop_last(), e);
        assert(s.drop_last().push(s.last()) =~= s);
        assert(r.to_multiset() =~= s.to_multiset().insert(e));
        assert forall|q: int| 0 <= q < r.len() implies s.contains(#[trigger] r[q]) || r[q]
            == e by {
            if q < r2.len() {
                assert(r[q] == r2[q]);
                if s.drop_last().contains(r2[q]) {
                    let w = choose|w: int| 0 <= w < s.len() - 1 && s.drop_last()[w] == r2[q];
                    assert(s[w] == r2[q]);
                }
            } else {
                assert(r[q] == s.last());
                assert(s[s.len() - 1] == s.last());
            }
        }
    } else {
        assert forall|q: int| 0 <= q < r.len() implies s.contains(#[trigger] r[q]) || r[q]
            == e by {
            if q < s.len() {
                assert(r[q] == s[q]);
            }
        }
    }
}

/// Inserting into an ascending, offset-compatible sequence keeps it
/// ascending.
proof fn lemma_insert_ev_sorted(s: Seq<Event>, e: Event)
    requires
        crate::merge::sorted_events(s),
        crate::merge::all_wf(s),
        e.wf(),
        crate::merge::seq_compat(s.push(e)),
    ensures
        crate::merge::sorted_events(spec_insert_ev(s, e)),
    decreases s.len(),
{
    let r = spec_insert_ev(s, e);
    if s.len() == 0 {
    } else if event_lt(e, s.last()) {
        let dl = s.drop_last();
        assert(crate::merge::seq_compat(dl.push(e))) by {
            assert forall|x: int, y: int|
                0 <= x < dl.push(e).len() && 0 <= y < dl.push(e).len() implies crate::merge::events_compat(
                dl.push(e)[x],
                dl.push(e)[y],
            ) by {
                let sp = s.push(e);
                let xx: int = if x < dl.len() { x } else { s.len() as int };
                let yy: int = if y < dl.len() { y } else { s.len() as int };
                assert(sp[xx] == dl.push(e)[x]);
                assert(sp[yy] == dl.push(e)[y]);
            }
        }
        lemma_insert_ev_sorted(dl, e);
        lemma_insert_ev_props(dl, e);
        let r2 = spec_insert_ev(dl, e);
        assert forall|q: int| 0 <= q < r2.len() implies event_le(r2[q], s.last()) by {
            if r2[q] == e {
                crate::merge::lemma_event_order_trichotomy(e, s.last());
            } else {
                let w = choose|w: int| 0 <= w < dl.len() && dl[w] == r2[q];
                assert(s[w] == r2[q]);
                assert(event_le(s[w], s.last()));
            }
        }
        assert forall|x: int, y: int| 0 <= x < y < r.len() implies event_le(r[x], r[y]) by {
            if y < r2.len() {
                assert(r[x] == r2[x] && r[y] == r2[y]);
            } else {
                assert(r[y] == s.last());
                assert(r[x] == r2[x]);
            }
        }
    } else {
        crate::merge::lemma_event_order_trichotomy(e, s.last());
        assert forall|x: int, y: int| 0 <= x < y < r.len() implies event_le(r[x], r[y]) by {
            if y < s.len() {
                assert(r[x] == s[x] && r[y] == s[y]);
            } else {
                assert(r[y] == e);
                assert(r[x] == s[x]);
                if x < s.len() - 1 {
                    let sp = s.push(e);
                    assert(sp[x] == s[x] && sp[s.len() as int] == e && sp[s.len() - 1]
                        == s.last());
                    crate::merge::lemma_event_order_transitive(s[x], s.last(), e);
                } else {
                    assert(r[x] == s.last());
                }
            }
        }
    }
}

/// The sorted permutation of the parsed events: ascending whenever the
/// events' zone offsets are compatible, always the same events.  Equal
/// events keep their input order, by the shape of `spec_insert_ev`.
pub proof fn lemma_sort_ev_ensures(s: Seq<Event>)
    requires
        crate::merge::all_wf(s),
    ensures
        spec_sort_ev(s).len() == s.len(),
        spec_sort_ev(s).to_multiset() == s.to_multiset(),
        crate::merge::all_wf(spec_sort_ev(s)),
        forall|q: int|
            0 <= q < spec_sort_ev(s).len() ==> s.contains(#[trigger] spec_sort_ev(s)[q]),
        crate::merge::seq_compat(s) ==> crate::merge::sorted_events(spec_sort_ev(s)),
    decreases s.len(),
{
    broadcast use vstd::seq_lib::group_to_multiset_ensures;

    let r = spec_sort_ev(s);
    if s.len() == 0 {
        vstd::multiset::lemma_multiset_empty_len(Seq::<Event>::empty().to_multiset());
        assert(r.to_multiset() =~= s.to_multiset());
    } else {
        let dl = s.drop_last();
        assert(crate::merge::all_wf(dl) && (crate::merge::seq_compat(s)
            ==> crate::merge::seq_compat(dl))) by {
            assert(forall|q: int| 0 <= q < dl.len() ==> dl[q] == s[q]);
        }
        lemma_sort_ev_ensures(dl);
        let r2 = spec_sort_ev(dl);
        lemma_insert_ev_props(r2, s.last());
        assert(dl.push(s.last()) =~= s);
        assert(r.to_multiset() =~= s.to_multiset());
        assert forall|q: int| 0 <= q < r.len() implies s.contains(#[trigger] r[q]) by {
            if r[q] == s.last() {
                assert(s[s.len() - 1] == s.last());
            } else {
                assert(r2.contains(r[q]));
                let w = choose|w: int| 0 <= w < r2.len() && r2[w] == r[q];
                assert(dl.contains(r2[w]));
                let u = choose|u: int| 0 <= u < dl.len() && dl[u] == r2[w];
                assert(s[u] == r[q]);
            }
        }
        assert(crate::merge::all_wf(r)) by {
            assert forall|q: int| 0 <= q < r.len() implies (#[trigger] r[q]).wf() by {
                let u = choose|u: int| 0 <= u < s.len() && s[u] == r[q];
            }
        }
        if crate::merge::seq_compat(s) {
            assert(crate::merge::seq_compat(r2.push(s.last()))) by {
                assert forall|x: int, y: int|
                    0 <= x < r2.push(s.last()).len() && 0 <= y < r2.push(s.last()).len()
                    implies crate::merge::events_compat(
                    r2.push(s.last())[x],
                    r2.push(s.last())[y],
                ) by {
                    let ex = r2.push(s.last())[x];
                    let ey = r2.push(s.last())[y];
                    assert(s.contains(ex)) by {
                        if x < r2.len() {
                            assert(s.contains(r2[x]));
                        } else {
                            assert(ex == s.last() && s[s.len() - 1] == s.last());
                        }
                    }
                    assert(s.contains(ey)) by {
                        if y < r2.len() {
                            assert(s.contains(r2[y]));
                        } else {
                            assert(ey == s.last() && s[s.len() - 1] == s.last());
                        }
                    }
                    let u = choose|u: int| 0 <= u < s.len() && s[u] == ex;
                    let w = choose|w: int| 0 <= w < s.len() && s[w] == ey;
                    assert(crate::merge::events_compat(s[u], s[w]));
                }
            }
            lemma_insert_ev_sorted(r2, s.last());
        }
    }
}

/// Sorts events ascending by `(start, end_date())`, stably.
pub fn sort_events(v: &Vec<Event>) -> (r: Vec<Event>)
    requires
        crate::merge::all_wf(v@),
    ensures
        r@ == spec_sort_ev(v@),
        crate::merge::all_wf(r@),
{
    let mut out: Vec<Event> = Vec::new();
    proof {
        assert(v@.take(0) =~= Seq::<Event>::empty());
    }
    let n = v.len();
    let mut k: usize = 0;
    while k < n
        invariant
            0 <= k <= n == v@.len(),
            crate::merge::all_wf(v@),
            out@ == spec_sort_ev(v@.take(k as int)),
            crate::merge::all_wf(out@),
        decreases n - k,
    {
        let e = v[k].clone();
        let ghost out0 = out@;
        let mut j: usize = out.len();
        while j > 0 && matches!(e.cmp(&out[j - 1]), core::cmp::Ordering::Less)
            invariant
                0 <= j <= out@.len(),
                out@ == out0,
                crate::merge::all_wf(out@),
                e.wf(),
                forall|q: int| j <= q < out@.len() ==> event_lt(e, out@[q]),
            decreases j,
        {
            j = j - 1;
        }
        out.insert(j, e);
        proof {
            lemma_insert_at(out0, e, j as int);
            assert(out@ =~= out0.take(j as int) + seq![e] + out0.skip(j as int));
            assert(out@ == spec_insert_ev(out0, e));
            assert(v@.take(k + 1).drop_last() =~= v@.take(k as int));
            assert(v@.take(k + 1).last() == v@[k as int]);
        }
        k = k + 1;
    }
    proof {
        assert(v@.take(n as int) =~= v@);
    }
    out
}

/// Stable insertion lands exactly where the scan from the right stops.
proof fn lemma_insert_at(s: Seq<Event>, e: Event, j: int)
    requires
        0 <= j <= s.len(),
        forall|q: int| j <= q < s.len() ==> event_lt(e, s[q]),
        j > 0 ==> !event_lt(e, s[j - 1]),
    ensures
        spec_insert_ev(s, e) == s.take(j) + seq![e] + s.skip(j),
    decreases s.len(),
{
    if s.len() == 0 {
        assert(s.take(0) =~= Seq::<Event>::empty());
        assert(s.skip(0) =~= Seq::<Event>::empty());
        assert(seq![e] =~= s.take(0) + seq![e] + s.skip(0));
    } else if event_lt(e, s.last()) {
        assert(j < s.len());
        let dl = s.drop_last();
        lemma_insert_at(dl, e, j);
        assert(dl.take(j) =~= s.take(j));
        assert(spec_insert_ev(s, e) =~= s.take(j) + seq![e] + s.skip(j)) by {
            assert(spec_insert_ev(s, e) == (dl.take(j) + seq![e] + dl.skip(j)).push(s.last()));
        }
    } else {
        assert(j == s.len()) by {
            if j < s.len() {
                assert(event_lt(e, s[s.len() - 1]));
            }
        }
        assert(s.take(j) =~= s);
        assert(s.skip(j) =~= Seq::<Event>::empty());
        assert(s.push(e) =~= s.take(j) + seq![e] + s.skip(j));
    }
}

/// A parsed calendar: its plain events, ascending, and its recurrence
/// rules.
#[derive(Debug)]
pub struct Calendar {
    pub single: Vec<Event>,
    pub periodic: Vec<Periodic>,
}

/// What a successful parse of a token stream yields: the recurrence rules
/// in order, and the plain events stably sorted by `(start, end_date())`.
pub open spec fn parse_post(evs: Seq<Vec<Prop>>, r: Result<Calendar, EventError>) -> bool {
    match spec_collect(evs) {
        Err(e) => r == Err::<Calendar, EventError>(e),
        Ok((sv, pv)) => r matches Ok(cal) && cal.wf() && per_views(cal.periodic@) == pv && (exists|
            es: Seq<Event>,
        |
            {
                &&& views_of(es) == sv
                &&& crate::merge::all_wf(es)
                &&& cal.single@ == spec_sort_ev(es)
            }),
    }
}

impl Calendar {
    pub open spec fn wf(self) -> bool {
        &&& crate::merge::all_wf(self.single@)
        &&& (forall|k: int| 0 <= k < self.periodic@.len() ==> (#[trigger] self.periodic@[k]).wf())
    }

    /// Reads VEVENT token streams into a calendar: each VEVENT becomes an
    /// event; those with an `RRULE` carry a recurrence rule, the rest are
    /// gathered and stably sorted by `(start, end_date())`.
    pub fn from_props(events: &Vec<Vec<Prop>>) -> (r: Result<Calendar, EventError>)
        ensures
            parse_post(events@, r),
    {
        let mut single: Vec<Event> = Vec::new();
        let mut periodic: Vec<Periodic> = Vec::new();
        proof {
            assert(events@.skip(0) =~= events@);
            assert(views_of(single@) =~= Seq::<EventView>::empty());
            assert(per_views(periodic@) =~= Seq::<(EventView, PeriodicView)>::empty());
        }
        let n = events.len();
        let mut k: usize = 0;
        while k < n
            invariant
                0 <= k <= n == events@.len(),
                crate::merge::all_wf(single@),
                forall|q: int| 0 <= q < periodic@.len() ==> (#[trigger] periodic@[q]).wf(),
                (match spec_collect(events@.skip(k as int)) {
                    Err(e) => spec_collect(events@) == Err::<
                        (Seq<EventView>, Seq<(EventView, PeriodicView)>),
                        EventError,
                    >(e),
                    Ok((sv, pv)) => spec_collect(events@) == Ok::<
                        (Seq<EventView>, Seq<(EventView, PeriodicView)>),
                        EventError,
                    >((views_of(single@) + sv, per_views(periodic@) + pv)),
                }),
            decreases n - k,
        {
            proof {
                assert(events@.skip(k as int).drop_first() =~= events@.skip(k + 1));
                assert(events@.skip(k as int)[0] == events@[k as int]);
            }
            match parse_vevent(&events[k]) {
                Err(e) => {
                    return Err(e);
                },
                Ok((ev, mp)) => {
                    match mp {
                        None => {
                            let ghost s0 = single@;
                            single.push(ev);
                            proof {
                                assert(views_of(single@) =~= views_of(s0).push(ev_view(ev)));
                                match spec_collect(events@.skip(k + 1)) {
                                    Ok(t) => {
                                        assert(views_of(s0) + (seq![ev_view(ev)] + t.0)
                                            =~= views_of(single@) + t.0);
                                    },
                                    Err(_) => {},
                                }
                            }
                        },
                        Some(p) => {
                            let ghost p0 = periodic@;
                            periodic.push(p);
                            proof {
                                assert(per_views(periodic@) =~= per_views(p0).push(
                                    (ev_view(p.event), pview(p)),
                                ));
                                match spec_collect(events@.skip(k + 1)) {
                                    Ok(t) => {
                                        assert(per_views(p0) + (seq![(ev_view(ev), pview(p))]
                                            + t.1) =~= per_views(periodic@) + t.1);
                                    },
                                    Err(_) => {},
                                }
                            }
                        },
                    }
                },
            }
            k = k + 1;
        }
        proof {
            assert(events@.skip(k as int) =~= Seq::<Vec<Prop>>::empty());
            match spec_collect(events@) {
                Ok(t) => {
                    assert(views_of(single@) + Seq::<EventView>::empty() =~= views_of(single@));
                    assert(per_views(periodic@) + Seq::<(EventView, PeriodicView)>::empty()
                        =~= per_views(periodic@));
                    assert(t.0 == views_of(single@) && t.1 == per_views(periodic@));
                },
                Err(_) => {
                    assert(false);
                },
            }
        }
        let ghost es0 = single@;
        let ghost pv0 = periodic@;
        let sorted = sort_events(&single);
        let result = Calendar { single: sorted, periodic };
        proof {
            assert(result.single@ == spec_sort_ev(es0));
            assert(result.periodic@ == pv0);
            match spec_collect(events@) {
                Ok(t) => {
                    assert(views_of(es0) == t.0 && crate::merge::all_wf(es0) && result.single@
                        == spec_sort_ev(es0));
                },
                Err(_) => {},
            }
        }
        Ok(result)
    }

    /// Reads an iCalendar text: the external tokenizer splits it into
    /// VEVENT property streams, which are parsed as `from_props` describes.
    /// A malformed stream is a tokenizer error.
    pub fn parse(text: &str) -> (r: Result<Calendar, EventError>)
        ensures
            (match ics_tokens(text@) {
                None => r == Err::<Calendar, EventError>(EventError::IcalError),
                Some(evs) => parse_post(evs@, r),
            }),
    {
        match tokenize(text) {
            None => Err(EventError::IcalError),
            Some(evs) => Calendar::from_props(&evs),
        }
    }
}


/// The window slice of the ordered plain events: from the first start at or
/// past `first` up to the first end past `last`.
pub open spec fn window_slice(s: Seq<Event>, first: Date, last: Date) -> Seq<Event> {
    let lo = crate::event::window_lo(s, first);
    let hi = crate::event::window_hi(s, last);
    if lo < s.len() && lo <= hi {
        s.subrange(lo, hi)
    } else {
        Seq::empty()
    }
}

/// The streams a windowed iteration merges: the plain events' window slice,
/// then each rule's windowed expansion.
pub open spec fn iter_streams(
    c: Calendar,
    first: Date,
    last: Date,
    streams: Seq<Vec<Event>>,
) -> bool {
    &&& streams.len() == 1 + c.periodic@.len()
    &&& streams[0]@ == window_slice(c.single@, first, last)
    &&& (forall|k: int|
        1 <= k < streams.len() ==> crate::periodic::expand_post(
            c.periodic@[k - 1],
            first,
            last,
            (#[trigger] streams[k])@,
        ))
}

/// What a windowed iteration returns: a merge of the window slice and the
/// windowed expansions — exactly their events, and ascending whenever the
/// streams' zone offsets are compatible.
pub open spec fn iter_post(c: Calendar, first: Date, last: Date, r: Seq<Event>) -> bool {
    exists|streams: Seq<Vec<Event>>|
        {
            &&& #[trigger] iter_streams(c, first, last, streams)
            &&& r.to_multiset() == crate::merge::streams_mset(streams)
            &&& (crate::merge::streams_sorted_compat(streams) ==> crate::merge::sorted_events(r))
        }
}

impl Calendar {
    /// The ordered stream of this calendar's events inside the window
    /// `[first, last]`: the plain events' window slice merged with each
    /// recurrence rule's windowed expansion.
    pub fn iter(&self, first: &Date, last: &Date) -> (r: Vec<Event>)
        requires
            self.wf(),
            first.wf(),
            last.wf(),
        ensures
            crate::merge::all_wf(r@),
            iter_post(*self, *first, *last, r@),
    {
        let sl = crate::event::get(&self.single, first, last);
        proof {
            let lo = crate::event::window_lo(self.single@, *first);
            let hi = crate::event::window_hi(self.single@, *last);
            crate::event::lemma_window_lo_bounds(self.single@, *first);
            crate::event::lemma_window_hi_bounds(self.single@, *last);
            assert forall|q: int| 0 <= q < sl@.len() implies (#[trigger] sl@[q]).wf() by {
                if lo < self.single@.len() && lo <= hi {
                    assert(sl@ == self.single@.subrange(lo, hi));
                    assert(sl@[q] == self.single@[lo + q]);
                }
            }
        }
        let mut head: Vec<Event> = Vec::new();
        let ns = sl.len();
        let mut i: usize = 0;
        while i < ns
            invariant
                0 <= i <= ns == sl@.len(),
                head@ == sl@.take(i as int),
                forall|q: int| 0 <= q < sl@.len() ==> (#[trigger] sl@[q]).wf(),
            decreases ns - i,
        {
            let e = vstd::slice::slice_index_get(sl, i).clone();
            head.push(e);
            proof {
                assert(head@ =~= sl@.take(i + 1));
            }
            i = i + 1;
        }
        proof {
            assert(sl@.take(ns as int) =~= sl@);
            assert(head@ == sl@);
        }
        let mut streams: Vec<Vec<Event>> = Vec::new();
        streams.push(head);
        let np = self.periodic.len();
        let mut k: usize = 0;
        while k < np
            invariant
                0 <= k <= np == self.periodic@.len(),
                self.wf(),
                first.wf(),
                last.wf(),
                streams@.len() == 1 + k,
                streams@[0]@ == window_slice(self.single@, *first, *last),
                forall|q: int|
                    1 <= q < streams@.len() ==> crate::periodic::expand_post(
                        self.periodic@[q - 1],
                        *first,
                        *last,
                        (#[trigger] streams@[q])@,
                    ),
                forall|q: int|
                    0 <= q < streams@.len() ==> crate::merge::all_wf((#[trigger] streams@[q])@),
            decreases np - k,
        {
            let s = self.periodic[k].expand_window(first, last);
            streams.push(s);
            k = k + 1;
        }
        let merged = crate::merge::kmerge(&streams);
        proof {
            assert(iter_streams(*self, *first, *last, streams@));
        }
        merged
    }
}

} // verus!
