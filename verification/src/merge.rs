//! Ordered merging of event streams: a verified two-way merge, folded into a
//! k-way merge whose output is a sorted permutation of its inputs' union.

use vstd::prelude::*;
use vstd::multiset::Multiset;
use vstd::seq_lib::lemma_multiset_commutative;

use crate::date::{date_lt, same_offset};
use crate::event::{event_eq_ord, event_le, event_lt, Event};

verus! {

/// Ascending under the event order.
pub open spec fn sorted_events(s: Seq<Event>) -> bool {
    forall|i: int, j: int| 0 <= i < j < s.len() ==> event_le(s[i], s[j])
}

pub open spec fn all_wf(s: Seq<Event>) -> bool {
    forall|k: int| 0 <= k < s.len() ==> (#[trigger] s[k]).wf()
}

/// The two events' starts and resolved ends agree on zone offsets, so that
/// their order composes transitively.
pub open spec fn events_compat(a: Event, b: Event) -> bool {
    &&& same_offset(a.start, b.start)
    &&& same_offset(a.start, b.spec_end_date())
    &&& same_offset(a.spec_end_date(), b.start)
    &&& same_offset(a.spec_end_date(), b.spec_end_date())
}

pub open spec fn seq_compat(s: Seq<Event>) -> bool {
    forall|i: int, j: int| 0 <= i < s.len() && 0 <= j < s.len() ==> events_compat(s[i], s[j])
}

/// The event order is transitive among offset-compatible events.
pub proof fn lemma_event_order_transitive(a: Event, b: Event, c: Event)
    requires
        a.wf(),
        b.wf(),
        c.wf(),
        events_compat(a, b),
        events_compat(b, c),
        events_compat(a, c),
        event_le(a, b),
        event_le(b, c),
    ensures
        event_le(a, c),
{
    crate::date::lemma_date_order_trichotomy(a.start, b.start);
    crate::date::lemma_date_order_trichotomy(b.start, c.start);
    crate::date::lemma_date_order_trichotomy(a.start, c.start);
    crate::date::lemma_date_order_transitive(a.start, b.start, c.start);
    if !(date_lt(a.start, b.start) || date_lt(b.start, c.start)) {
        crate::event::lemma_end_date_wf(a);
        crate::event::lemma_end_date_wf(b);
        crate::event::lemma_end_date_wf(c);
        crate::date::lemma_date_order_transitive(
            a.spec_end_date(),
            b.spec_end_date(),
            c.spec_end_date(),
        );
    }
}

/// Exactly one of `a` before `b`, equal under the order, and `b` before `a`
/// holds.
pub proof fn lemma_event_order_trichotomy(a: Event, b: Event)
    ensures
        event_lt(a, b) || event_eq_ord(a, b) || event_lt(b, a),
        event_lt(a, b) ==> !event_eq_ord(a, b) && !event_lt(b, a),
        event_eq_ord(a, b) ==> !event_lt(a, b) && !event_lt(b, a),
        event_lt(b, a) ==> !event_lt(a, b) && !event_eq_ord(a, b),
{
    crate::date::lemma_date_order_trichotomy(a.start, b.start);
    crate::date::lemma_date_order_trichotomy(a.spec_end_date(), b.spec_end_date());
}

/// Membership of an event in the pooled inputs.
pub open spec fn in_pool(a: Seq<Event>, b: Seq<Event>, e: Event) -> bool {
    exists|k: int| 0 <= k < (a + b).len() && (a + b)[k] == e
}

proof fn lemma_pool_compat(a: Seq<Event>, b: Seq<Event>, x: Event, y: Event)
    requires
        seq_compat(a + b),
        in_pool(a, b, x),
        in_pool(a, b, y),
    ensures
        events_compat(x, y),
{
    let kx = choose|k: int| 0 <= k < (a + b).len() && (a + b)[k] == x;
    let ky = choose|k: int| 0 <= k < (a + b).len() && (a + b)[k] == y;
    assert(events_compat((a + b)[kx], (a + b)[ky]));
}

/// Merges two ascending streams into one: the output is ascending and holds
/// exactly the input events; ties take the first stream's event first.
pub fn merge2(a: &Vec<Event>, b: &Vec<Event>) -> (r: Vec<Event>)
    requires
        all_wf(a@),
        all_wf(b@),
    ensures
        all_wf(r@),
        forall|x: int| 0 <= x < r@.len() ==> in_pool(a@, b@, #[trigger] r@[x]),
        r@.to_multiset() == a@.to_multiset().add(b@.to_multiset()),
        sorted_events(a@) && sorted_events(b@) && seq_compat(a@ + b@) ==> sorted_events(r@)
            && seq_compat(r@),
{
    let ghost ok = sorted_events(a@) && sorted_events(b@) && seq_compat(a@ + b@);
    let mut out: Vec<Event> = Vec::new();
    let mut i: usize = 0;
    let mut j: usize = 0;
    let na = a.len();
    let nb = b.len();
    proof {
        broadcast use vstd::seq_lib::group_to_multiset_ensures;
        broadcast use vstd::multiset::group_multiset_axioms;

        vstd::multiset::lemma_multiset_empty_len(out@.to_multiset());
        vstd::multiset::lemma_multiset_empty_len(a@.take(0).to_multiset());
        vstd::multiset::lemma_multiset_empty_len(b@.take(0).to_multiset());
        assert(out@.to_multiset() =~= a@.take(0).to_multiset().add(b@.take(0).to_multiset()));
    }
    while i < na || j < nb
        invariant
            0 <= i <= na == a@.len(),
            0 <= j <= nb == b@.len(),
            all_wf(a@),
            all_wf(b@),
            ok == (sorted_events(a@) && sorted_events(b@) && seq_compat(a@ + b@)),
            all_wf(out@),
            ok ==> sorted_events(out@),
            out@.len() == i + j,
            forall|x: int| 0 <= x < out@.len() ==> in_pool(a@, b@, #[trigger] out@[x]),
            out@.to_multiset() == a@.take(i as int).to_multiset().add(
                b@.take(j as int).to_multiset(),
            ),
            ok ==> (forall|x: int, y: int|
                0 <= x < out@.len() && i <= y < a@.len() ==> event_le(out@[x], a@[y])),
            ok ==> (forall|x: int, y: int|
                0 <= x < out@.len() && j <= y < b@.len() ==> event_le(out@[x], b@[y])),
        decreases (na - i) + (nb - j),
    {
        proof {
            broadcast use vstd::seq_lib::group_to_multiset_ensures;
            broadcast use vstd::multiset::group_multiset_axioms;

            assert(forall|x: int| 0 <= x < a@.len() ==> (a@ + b@)[x] == a@[x]);
            assert(forall|y: int| 0 <= y < b@.len() ==> (a@ + b@)[a@.len() + y] == b@[y]);
        }
        let take_a: bool = if i < na && j < nb {
            a[i].le(&b[j])
        } else {
            i < na
        };
        if take_a {
            let ghost e = a@[i as int];
            proof {
                assert((a@ + b@)[i as int] == e);
                assert(in_pool(a@, b@, e));
                if ok {
                    assert forall|y: int| j <= y < b@.len() implies event_le(e, b@[y]) by {
                        assert(i < na && j < nb);
                        lemma_pool_compat(a@, b@, e, b@[j as int]);
                        lemma_pool_compat(a@, b@, b@[j as int], b@[y]);
                        lemma_pool_compat(a@, b@, e, b@[y]);
                        lemma_event_order_transitive(e, b@[j as int], b@[y]);
                    }
                }
                assert(a@.take(i + 1) =~= a@.take(i as int).push(e));
            }
            let ev = a[i].clone();
            out.push(ev);
            i = i + 1;
            proof {
                assert(out@.to_multiset() =~= a@.take(i as int).to_multiset().add(
                    b@.take(j as int).to_multiset(),
                ));
            }
        } else {
            let ghost e = b@[j as int];
            proof {
                assert(j < nb);
                assert((a@ + b@)[a@.len() + j] == e);
                assert(in_pool(a@, b@, e));
                if ok {
                    assert forall|y: int| i <= y < a@.len() implies event_le(e, a@[y]) by {
                        assert(i < na);
                        lemma_event_order_trichotomy(a@[i as int], b@[j as int]);
                        lemma_pool_compat(a@, b@, e, a@[i as int]);
                        lemma_pool_compat(a@, b@, a@[i as int], a@[y]);
                        lemma_pool_compat(a@, b@, e, a@[y]);
                        lemma_event_order_transitive(e, a@[i as int], a@[y]);
                    }
                }
                assert(b@.take(j + 1) =~= b@.take(j as int).push(e));
            }
            let ev = b[j].clone();
            out.push(ev);
            j = j + 1;
            proof {
                assert(out@.to_multiset() =~= a@.take(i as int).to_multiset().add(
                    b@.take(j as int).to_multiset(),
                ));
            }
        }
    }
    proof {
        assert(a@.take(i as int) =~= a@);
        assert(b@.take(j as int) =~= b@);
        if ok {
            assert forall|x: int, y: int|
                0 <= x < out@.len() && 0 <= y < out@.len() implies events_compat(
                out@[x],
                out@[y],
            ) by {
                lemma_pool_compat(a@, b@, out@[x], out@[y]);
            }
        }
    }
    out
}

/// Every stream ascending, and all streams pairwise offset-compatible.
pub open spec fn streams_sorted_compat(ss: Seq<Vec<Event>>) -> bool {
    &&& (forall|k: int| 0 <= k < ss.len() ==> sorted_events((#[trigger] ss[k])@))
    &&& (forall|k: int, l: int|
        0 <= k < ss.len() && 0 <= l < ss.len() ==> seq_compat(
            (#[trigger] ss[k])@ + (#[trigger] ss[l])@,
        ))
}

/// The union, as a multiset, of a list of streams.
pub open spec fn streams_mset(ss: Seq<Vec<Event>>) -> Multiset<Event>
    decreases ss.len(),
{
    if ss.len() == 0 {
        Multiset::empty()
    } else {
        streams_mset(ss.drop_last()).add(ss.last()@.to_multiset())
    }
}

/// Merges any number of ascending streams: the output is ascending and is,
/// as a multiset, exactly the union of the inputs; ties keep earlier
/// streams' events first.
pub fn kmerge(streams: &Vec<Vec<Event>>) -> (r: Vec<Event>)
    requires
        forall|k: int| 0 <= k < streams@.len() ==> all_wf((#[trigger] streams@[k])@),
    ensures
        all_wf(r@),
        r@.to_multiset() == streams_mset(streams@),
        streams_sorted_compat(streams@) ==> sorted_events(r@) && seq_compat(r@),
{
    let ghost ok = streams_sorted_compat(streams@);
    let mut out: Vec<Event> = Vec::new();
    proof {
        broadcast use vstd::seq_lib::group_to_multiset_ensures;

        assert(out@.to_multiset() =~= streams_mset(streams@.take(0)));
        assert(streams@.take(0) =~= Seq::<Vec<Event>>::empty());
    }
    let n = streams.len();
    let mut k: usize = 0;
    while k < n
        invariant
            0 <= k <= n == streams@.len(),
            forall|q: int| 0 <= q < streams@.len() ==> all_wf((#[trigger] streams@[q])@),
            ok == streams_sorted_compat(streams@),
            all_wf(out@),
            ok ==> sorted_events(out@) && seq_compat(out@),
            out@.to_multiset() == streams_mset(streams@.take(k as int)),
        decreases n - k,
    {
        proof {
            if ok {
                lemma_compat_merge(out@, streams@, k as int);
            }
        }
        let merged = merge2(&out, &streams[k]);
        out = merged;
        k = k + 1;
        proof {
            assert(streams@.take(k as int).drop_last() =~= streams@.take(k as int - 1));
            assert(streams@.take(k as int).last() == streams@[k as int - 1]);
        }
    }
    proof {
        assert(streams@.take(n as int) =~= streams@);
    }
    out
}

/// A pool merged from compatible streams stays compatible with each stream.
proof fn lemma_compat_merge(out: Seq<Event>, streams: Seq<Vec<Event>>, k: int)
    requires
        0 <= k < streams.len(),
        seq_compat(out),
        forall|q: int, l: int|
            0 <= q < streams.len() && 0 <= l < streams.len() ==> seq_compat(
                (#[trigger] streams[q])@ + (#[trigger] streams[l])@,
            ),
        out.to_multiset() == streams_mset(streams.take(k)),
    ensures
        seq_compat(out + streams[k]@),
{
    broadcast use vstd::seq_lib::group_to_multiset_ensures;

    assert forall|i: int, j: int|
        0 <= i < (out + streams[k]@).len() && 0 <= j < (out + streams[k]@).len() implies events_compat(
        (out + streams[k]@)[i],
        (out + streams[k]@)[j],
    ) by {
        let s = out + streams[k]@;
        if i < out.len() && j < out.len() {
            assert(events_compat(out[i], out[j]));
        } else if i >= out.len() && j >= out.len() {
            let ii = i - out.len();
            let jj = j - out.len();
            assert(seq_compat(streams[k]@ + streams[k]@));
            assert((streams[k]@ + streams[k]@)[ii] == streams[k]@[ii]);
            assert((streams[k]@ + streams[k]@)[jj] == streams[k]@[jj]);
            assert(events_compat(streams[k]@[ii], streams[k]@[jj]));
        } else if i < out.len() {
            lemma_pool_member_compat(out, streams, k, i, j - out.len());
        } else {
            lemma_pool_member_compat(out, streams, k, j, i - out.len());
            let x = out[j];
            let y = streams[k]@[i - out.len()];
            assert(events_compat(x, y));
            assert(events_compat(y, x));
        }
    }
}

/// Every pooled event came from one of the earlier streams, and so is
/// compatible with each event of the next stream.
proof fn lemma_pool_member_compat(out: Seq<Event>, streams: Seq<Vec<Event>>, k: int, i: int, jj: int)
    requires
        0 <= k < streams.len(),
        0 <= i < out.len(),
        0 <= jj < streams[k]@.len(),
        forall|q: int, l: int|
            0 <= q < streams.len() && 0 <= l < streams.len() ==> seq_compat(
                (#[trigger] streams[q])@ + (#[trigger] streams[l])@,
            ),
        out.to_multiset() == streams_mset(streams.take(k)),
    ensures
        events_compat(out[i], streams[k]@[jj]),
        events_compat(streams[k]@[jj], out[i]),
{
    broadcast use vstd::seq_lib::group_to_multiset_ensures;

    assert(out.contains(out[i]));
    assert(out.to_multiset().count(out[i]) > 0);
    let q = lemma_mset_member_stream(streams, k, out[i]);
    assert(seq_compat(streams[q]@ + streams[k]@));
    let s = streams[q]@ + streams[k]@;
    let p = choose|p: int| 0 <= p < streams[q]@.len() && streams[q]@[p] == out[i];
    assert(s[p] == out[i]);
    assert(s[streams[q]@.len() + jj] == streams[k]@[jj]);
    assert(events_compat(s[p], s[streams[q]@.len() + jj]));
    assert(events_compat(s[streams[q]@.len() + jj], s[p]));
}

/// An event counted in the union of the first `k` streams lies in one of
/// them.
proof fn lemma_mset_member_stream(streams: Seq<Vec<Event>>, k: int, e: Event) -> (q: int)
    requires
        0 <= k <= streams.len(),
        streams_mset(streams.take(k)).count(e) > 0,
    ensures
        0 <= q < k,
        exists|p: int| 0 <= p < streams[q]@.len() && streams[q]@[p] == e,
    decreases k,
{
    broadcast use vstd::seq_lib::group_to_multiset_ensures;

    if k == 0 {
        assert(streams.take(0) =~= Seq::<Vec<Event>>::empty());
        assert(false);
        0
    } else {
        let t = streams.take(k);
        assert(t.drop_last() =~= streams.take(k - 1));
        assert(t.last() == streams[k - 1]);
        if streams[k - 1]@.to_multiset().count(e) > 0 {
            assert(streams[k - 1]@.contains(e));
            let s0 = streams[k - 1]@;
            let p = choose|p: int| 0 <= p < s0.len() && s0[p] == e;
            assert(streams[k - 1]@[p] == e);
            k - 1
        } else {
            lemma_mset_member_stream(streams, k - 1, e)
        }
    }
}

} // verus!
