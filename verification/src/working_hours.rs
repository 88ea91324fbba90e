//! Worked time: events, the gaps between them, and where a run of events begins and ends.

use vstd::prelude::*;
use crate::time::{
    in_instant_range, in_span_range, is_instant, is_span, FIRST_INSTANT, LAST_INSTANT, LONGEST_SPAN,
};

verus! {

/// One recorded activity: when it began, and how long it lasted, both in nanoseconds.
#[derive(Clone, Copy, Debug, PartialEq, Eq, Structural)]
pub struct Event {
    /// Nanoseconds since 1970-01-01 00:00 UTC.
    pub timestamp: i128,
    /// Length in nanoseconds.
    pub duration: i128,
}

impl Event {
    /// The moment at which the event is over.
    pub open spec fn end(self) -> int {
        self.timestamp + self.duration
    }

    /// Start and length are ones that the calendar can hold.
    pub open spec fn wf(self) -> bool {
        in_instant_range(self.timestamp as int) && in_span_range(self.duration as int)
    }
}

/// Ordered by start.
pub open spec fn sorted(s: Seq<Event>) -> bool {
    forall|i: int, j: int| 0 <= i <= j < s.len() ==> s[i].timestamp <= s[j].timestamp
}

/// Where an event that starts at `t` goes in `s`: behind everything that starts no later.
pub open spec fn slot(s: Seq<Event>, t: i128) -> nat
    decreases s.len(),
{
    if s.len() == 0 || s.last().timestamp <= t {
        s.len()
    } else {
        slot(s.drop_last(), t)
    }
}

/// The events by start; those that start together keep their order.
pub open spec fn chronological(s: Seq<Event>) -> Seq<Event>
    decreases s.len(),
{
    if s.len() == 0 {
        s
    } else {
        let front = chronological(s.drop_last());
        front.insert(slot(front, s.last().timestamp) as int, s.last())
    }
}

/// The events of `s` that start at `t`, in their order.
pub open spec fn starting_at(s: Seq<Event>, t: i128) -> Seq<Event> {
    s.filter(|e: Event| e.timestamp == t)
}

/// What a pause of length `gap` adds: the pause itself when it is shorter than `max_break`.
pub open spec fn gap_fill(gap: int, max_break: int) -> int {
    if 0 < gap < max_break {
        gap
    } else {
        0
    }
}

/// Worked time of events in order: every length, and every pause shorter than `max_break`
/// between the end of one event and the start of the next.
pub open spec fn worked(s: Seq<Event>, max_break: int) -> int
    decreases s.len(),
{
    if s.len() == 0 {
        0
    } else if s.len() == 1 {
        s[0].duration as int
    } else {
        worked(s.drop_last(), max_break) + gap_fill(
            s.last().timestamp - s[s.len() - 2].end(),
            max_break,
        ) + s.last().duration
    }
}

/// Every end that `worked` looks at is a moment of the calendar, and every partial sum is a
/// length that it can hold.
pub open spec fn worked_fits(s: Seq<Event>, max_break: int) -> bool
    decreases s.len(),
{
    if s.len() == 0 {
        true
    } else {
        &&& worked_fits(s.drop_last(), max_break)
        &&& s.last().wf()
        &&& in_instant_range(s.last().end())
        &&& in_span_range(worked(s, max_break) - s.last().duration)
        &&& in_span_range(worked(s, max_break))
    }
}

proof fn lemma_slot(s: Seq<Event>, t: i128)
    requires
        sorted(s),
    ensures
        slot(s, t) <= s.len(),
        forall|i: int| 0 <= i < slot(s, t) ==> (#[trigger] s[i]).timestamp <= t,
        forall|i: int| slot(s, t) <= i < s.len() ==> (#[trigger] s[i]).timestamp > t,
    decreases s.len(),
{
    if s.len() > 0 && s.last().timestamp > t {
        lemma_slot(s.drop_last(), t);
        let front = s.drop_last();
        assert forall|i: int| slot(s, t) <= i < s.len() implies (#[trigger] s[i]).timestamp > t by {
            if i < front.len() {
                assert(front[i].timestamp > t);
            }
        }
        assert forall|i: int| 0 <= i < slot(s, t) implies (#[trigger] s[i]).timestamp <= t by {
            assert(front[i].timestamp <= t);
        }
    }
}

/// The events that start at `t` in one run behind another.
pub proof fn lemma_filter_concat(a: Seq<Event>, b: Seq<Event>, t: i128)
    ensures
        starting_at(a + b, t) == starting_at(a, t) + starting_at(b, t),
    decreases b.len(),
{
    reveal(Seq::filter);
    if b.len() == 0 {
        assert(a + b =~= a);
        assert(starting_at(b, t) =~= Seq::<Event>::empty());
        assert(starting_at(a, t) + starting_at(b, t) =~= starting_at(a, t));
    } else {
        lemma_filter_concat(a, b.drop_last(), t);
        assert((a + b).drop_last() =~= a + b.drop_last());
        if b.last().timestamp == t {
            assert(starting_at(a, t) + starting_at(b.drop_last(), t).push(b.last()) =~= (starting_at(
                a,
                t,
            ) + starting_at(b.drop_last(), t)).push(b.last()));
        }
    }
}

proof fn lemma_filter_none(s: Seq<Event>, t: i128)
    requires
        forall|i: int| 0 <= i < s.len() ==> (#[trigger] s[i]).timestamp != t,
    ensures
        starting_at(s, t) == Seq::<Event>::empty(),
    decreases s.len(),
{
    reveal(Seq::filter);
    if s.len() > 0 {
        assert(s.last().timestamp != t);
        assert forall|i: int| 0 <= i < s.drop_last().len() implies (
        #[trigger] s.drop_last()[i]).timestamp != t by {
            assert(s[i].timestamp != t);
        }
        lemma_filter_none(s.drop_last(), t);
    }
}

proof fn lemma_filter_one(e: Event, t: i128)
    ensures
        starting_at(seq![e], t) == (if e.timestamp == t {
            seq![e]
        } else {
            Seq::<Event>::empty()
        }),
{
    reveal(Seq::filter);
    assert(seq![e].drop_last() =~= Seq::<Event>::empty());
    assert(starting_at(Seq::<Event>::empty(), t) =~= Seq::<Event>::empty());
    assert(Seq::<Event>::empty().push(e) =~= seq![e]);
}

/// `chronological` is the stable sort by start: the result is ordered, holds the same events,
/// and keeps the order of events that start together.
pub proof fn law_chronological(s: Seq<Event>)
    ensures
        sorted(chronological(s)),
        chronological(s).to_multiset() == s.to_multiset(),
        forall|t: i128| #[trigger] starting_at(chronological(s), t) == starting_at(s, t),
    decreases s.len(),
{
    if s.len() > 0 {
        let front = chronological(s.drop_last());
        let e = s.last();
        law_chronological(s.drop_last());
        lemma_slot(front, e.timestamp);
        let p = slot(front, e.timestamp) as int;
        let r = chronological(s);
        assert(r =~= front.take(p) + seq![e] + front.skip(p));
        assert forall|i: int, j: int| 0 <= i <= j < r.len() implies r[i].timestamp
            <= r[j].timestamp by {
            let fi = if i < p { i } else { i - 1 };
            let fj = if j < p { j } else { j - 1 };
            if i != p && j != p {
                assert(r[i] == front[fi] && r[j] == front[fj]);
            }
        }
        assert forall|t: i128| #[trigger] starting_at(r, t) == starting_at(s, t) by {
            lemma_filter_concat(front.take(p) + seq![e], front.skip(p), t);
            lemma_filter_concat(front.take(p), seq![e], t);
            lemma_filter_concat(front.take(p), front.skip(p), t);
            assert(front.take(p) + front.skip(p) =~= front);
            lemma_filter_concat(s.drop_last(), seq![e], t);
            assert(s.drop_last() + seq![e] =~= s);
            lemma_filter_one(e, t);
            assert(starting_at(front, t) == starting_at(s.drop_last(), t));
            if e.timestamp == t {
                assert forall|i: int| 0 <= i < front.skip(p).len() implies (
                #[trigger] front.skip(p)[i]).timestamp != t by {
                    assert(front[p + i].timestamp > t);
                }
                lemma_filter_none(front.skip(p), t);
            }
            assert(starting_at(r, t) =~= starting_at(s, t));
        }
        assert(r.to_multiset() == s.to_multiset()) by {
            broadcast use vstd::seq_lib::group_to_multiset_ensures;

            assert(s =~= s.drop_last().push(e));
            vstd::seq_lib::lemma_multiset_commutative(front.take(p), seq![e] + front.skip(p));
            vstd::seq_lib::lemma_multiset_commutative(seq![e], front.skip(p));
            vstd::seq_lib::lemma_multiset_commutative(front.take(p), front.skip(p));
            assert(front.take(p) + front.skip(p) =~= front);
            assert(front.take(p) + (seq![e] + front.skip(p)) =~= r);
            assert(seq![e] =~= Seq::<Event>::empty().push(e));
            assert(r.to_multiset() =~= s.to_multiset());
        }
    } else {
        assert(chronological(s) == s);
    }
}

/// Only one order is both sorted and stable.
pub proof fn lemma_stable_unique(a: Seq<Event>, b: Seq<Event>)
    requires
        sorted(a),
        sorted(b),
        forall|t: i128| #[trigger] starting_at(a, t) == starting_at(b, t),
    ensures
        a == b,
    decreases a.len(),
{
    reveal(Seq::filter);
    if a.len() == 0 {
        if b.len() > 0 {
            let t = b.last().timestamp;
            assert(starting_at(a, t).len() == 0);
            assert(starting_at(b, t).last() == b.last());
        }
        assert(a =~= b);
    } else {
        let ta = a.last().timestamp;
        assert(starting_at(a, ta) == starting_at(a.drop_last(), ta).push(a.last()));
        assert(starting_at(b, ta).len() > 0);
        lemma_last_start(b, ta);
        let tb = b.last().timestamp;
        assert(starting_at(b, tb) == starting_at(b.drop_last(), tb).push(b.last()));
        assert(starting_at(a, tb).len() > 0);
        lemma_last_start(a, tb);
        assert(ta == tb);
        assert(a.last() == starting_at(a, ta).last());
        assert(b.last() == starting_at(b, ta).last());
        let fa = a.drop_last();
        let fb = b.drop_last();
        assert forall|t: i128| #[trigger] starting_at(fa, t) == starting_at(fb, t) by {
            assert(starting_at(a, t) == starting_at(b, t));
            if t == ta {
                assert(starting_at(fa, t) =~= starting_at(a, t).drop_last());
                assert(starting_at(fb, t) =~= starting_at(b, t).drop_last());
            }
        }
        assert(sorted(fa));
        assert(sorted(fb));
        lemma_stable_unique(fa, fb);
        assert(a =~= fa.push(a.last()));
        assert(b =~= fb.push(b.last()));
    }
}

proof fn lemma_last_start(s: Seq<Event>, t: i128)
    requires
        sorted(s),
        starting_at(s, t).len() > 0,
    ensures
        s.len() > 0,
        t <= s.last().timestamp,
{
    if forall|i: int| 0 <= i < s.len() ==> (#[trigger] s[i]).timestamp != t {
        lemma_filter_none(s, t);
    } else {
        let i = choose|i: int| 0 <= i < s.len() && (#[trigger] s[i]).timestamp == t;
        assert(s[i].timestamp <= s[s.len() - 1].timestamp);
    }
}

/// Two ordered runs as one, the events of `a` ahead of those of `b` that start together.
fn merge(a: &Vec<Event>, b: &Vec<Event>) -> (r: Vec<Event>)
    requires
        sorted(a@),
        sorted(b@),
        a.len() + b.len() <= usize::MAX,
    ensures
        sorted(r@),
        r.len() == a.len() + b.len(),
        forall|t: i128| #[trigger] starting_at(r@, t) == starting_at(a@, t) + starting_at(b@, t),
{
    let mut r: Vec<Event> = Vec::new();
    let mut i: usize = 0;
    let mut j: usize = 0;
    assert forall|t: i128| #[trigger] starting_at(r@, t) == starting_at(a@.take(0), t) + starting_at(
        b@.take(0),
        t,
    ) by {
        lemma_filter_none(r@, t);
        lemma_filter_none(a@.take(0), t);
        lemma_filter_none(b@.take(0), t);
        assert(Seq::<Event>::empty() + Seq::<Event>::empty() =~= Seq::<Event>::empty());
    }
    while i < a.len() || j < b.len()
        invariant
            i <= a.len(),
            j <= b.len(),
            a.len() + b.len() <= usize::MAX,
            sorted(a@),
            sorted(b@),
            sorted(r@),
            r.len() == i + j,
            forall|k: int, n: int|
                0 <= k < r.len() && i <= n < a.len() ==> (#[trigger] r@[k]).timestamp <= (
                #[trigger] a@[n]).timestamp,
            forall|k: int, n: int|
                0 <= k < r.len() && j <= n < b.len() ==> (#[trigger] r@[k]).timestamp <= (
                #[trigger] b@[n]).timestamp,
            forall|k: int, n: int|
                0 <= k < j && i <= n < a.len() ==> (#[trigger] b@[k]).timestamp < (
                #[trigger] a@[n]).timestamp,
            forall|t: i128| #[trigger]
                starting_at(r@, t) == starting_at(a@.take(i as int), t) + starting_at(
                    b@.take(j as int),
                    t,
                ),
        decreases a.len() - i + b.len() - j,
    {
        let ghost before = r@;
        if j == b.len() || (i < a.len() && a[i].timestamp <= b[j].timestamp) {
            let e: Event = a[i];
            r.push(e);
            assert forall|t: i128| #[trigger] starting_at(r@, t) == starting_at(
                a@.take(i + 1),
                t,
            ) + starting_at(b@.take(j as int), t) by {
                assert(r@ =~= before + seq![e]);
                assert(a@.take(i + 1) =~= a@.take(i as int) + seq![e]);
                lemma_filter_concat(before, seq![e], t);
                lemma_filter_concat(a@.take(i as int), seq![e], t);
                lemma_filter_one(e, t);
                assert(starting_at(before, t) == starting_at(a@.take(i as int), t) + starting_at(
                    b@.take(j as int),
                    t,
                ));
                if e.timestamp == t {
                    assert forall|k: int| 0 <= k < b@.take(j as int).len() implies (
                    #[trigger] b@.take(j as int)[k]).timestamp != t by {
                        assert(b@[k].timestamp < a@[i as int].timestamp);
                    }
                    lemma_filter_none(b@.take(j as int), t);
                }
                assert(starting_at(r@, t) =~= starting_at(a@.take(i + 1), t) + starting_at(
                    b@.take(j as int),
                    t,
                ));
            }
            i += 1;
        } else {
            let e: Event = b[j];
            r.push(e);
            assert forall|t: i128| #[trigger] starting_at(r@, t) == starting_at(
                a@.take(i as int),
                t,
            ) + starting_at(b@.take(j + 1), t) by {
                assert(r@ =~= before + seq![e]);
                assert(b@.take(j + 1) =~= b@.take(j as int) + seq![e]);
                lemma_filter_concat(before, seq![e], t);
                lemma_filter_concat(b@.take(j as int), seq![e], t);
                assert(starting_at(before, t) == starting_at(a@.take(i as int), t) + starting_at(
                    b@.take(j as int),
                    t,
                ));
                assert(starting_at(r@, t) =~= starting_at(a@.take(i as int), t) + starting_at(
                    b@.take(j + 1),
                    t,
                ));
            }
            j += 1;
        }
    }
    assert(a@.take(a@.len() as int) =~= a@);
    assert(b@.take(b@.len() as int) =~= b@);
    r
}

/// The events `events[lo..hi]` by start.
fn sort_range(events: &[Event], lo: usize, hi: usize) -> (r: Vec<Event>)
    requires
        lo <= hi <= events.len(),
    ensures
        sorted(r@),
        r.len() == hi - lo,
        forall|t: i128| #[trigger]
            starting_at(r@, t) == starting_at(events@.subrange(lo as int, hi as int), t),
    decreases hi - lo,
{
    if hi - lo <= 1 {
        let mut r: Vec<Event> = Vec::new();
        if lo < hi {
            r.push(events[lo]);
        }
        assert(r@ =~= events@.subrange(lo as int, hi as int));
        r
    } else {
        let mid: usize = lo + (hi - lo) / 2;
        let a: Vec<Event> = sort_range(events, lo, mid);
        let b: Vec<Event> = sort_range(events, mid, hi);
        let r: Vec<Event> = merge(&a, &b);
        assert forall|t: i128| #[trigger] starting_at(r@, t) == starting_at(
            events@.subrange(lo as int, hi as int),
            t,
        ) by {
            let front = events@.subrange(lo as int, mid as int);
            let back = events@.subrange(mid as int, hi as int);
            assert(events@.subrange(lo as int, hi as int) =~= front + back);
            lemma_filter_concat(front, back, t);
            assert(starting_at(a@, t) == starting_at(front, t));
            assert(starting_at(b@, t) == starting_at(back, t));
        }
        r
    }
}

/// The events by start; those that start together keep their order.
fn sort_events(events: &[Event]) -> (r: Vec<Event>)
    ensures
        r@ == chronological(events@),
{
    let r: Vec<Event> = sort_range(events, 0, events.len());
    proof {
        assert(events@.subrange(0, events@.len() as int) =~= events@);
        law_chronological(events@);
        assert forall|t: i128| #[trigger] starting_at(r@, t) == starting_at(
            chronological(events@),
            t,
        ) by {
            assert(starting_at(chronological(events@), t) == starting_at(events@, t));
        }
        lemma_stable_unique(r@, chronological(events@));
    }
    r
}

/// Whether `generous_approx` can be asked for these events: all ends and sums can be held.
pub fn approx_fits(events: &[Event], max_break: i128) -> (r: bool)
    ensures
        r == worked_fits(chronological(events@), max_break as int),
{
    let spans: Vec<Event> = sort_events(events);
    let mut total: i128 = 0;
    let mut prev_end: i128 = 0;
    let mut i: usize = 0;
    while i < spans.len()
        invariant
            i <= spans.len(),
            spans@ == chronological(events@),
            worked_fits(spans@.take(i as int), max_break as int),
            total == worked(spans@.take(i as int), max_break as int),
            in_span_range(total as int),
            in_instant_range(prev_end as int),
            i > 0 ==> prev_end == spans@[i - 1].end(),
        decreases spans.len() - i,
    {
        let e: Event = spans[i];
        let ghost front = spans@.take(i as int);
        let ghost now = spans@.take(i + 1);
        proof {
            assert(now.drop_last() =~= front);
            if !worked_fits(now, max_break as int) {
                lemma_fits_prefix(spans@, i + 1, max_break as int);
            }
        }
        if !is_instant(e.timestamp) || !is_span(e.duration) || !is_instant(e.timestamp + e.duration) {
            return false;
        }
        let gap: i128 = e.timestamp - prev_end;
        let fill: i128 = if i > 0 && gap > 0 && gap < max_break {
            gap
        } else {
            0
        };
        if !is_span(total + fill) || !is_span(total + fill + e.duration) {
            return false;
        }
        total = total + fill + e.duration;
        prev_end = e.timestamp + e.duration;
        i += 1;
    }
    assert(spans@.take(spans@.len() as int) =~= spans@);
    true
}

proof fn lemma_fits_prefix(s: Seq<Event>, n: int, max_break: int)
    requires
        0 <= n <= s.len(),
        !worked_fits(s.take(n), max_break),
    ensures
        !worked_fits(s, max_break),
    decreases s.len() - n,
{
    if n < s.len() {
        assert(s.take(n + 1).drop_last() =~= s.take(n));
        lemma_fits_prefix(s, n + 1, max_break);
    } else {
        assert(s.take(n) =~= s);
    }
}

/// Generous approximation of worked time: the events in order of their start, with each pause
/// shorter than `max_break` counted as worked.
pub fn generous_approx(events: &[Event], max_break: i128) -> (r: i128)
    requires
        worked_fits(chronological(events@), max_break as int),
    ensures
        r == worked(chronological(events@), max_break as int),
        in_span_range(r as int),
{
    let spans: Vec<Event> = sort_events(events);
    let mut total: i128 = 0;
    let mut prev_end: i128 = 0;
    let mut i: usize = 0;
    while i < spans.len()
        invariant
            i <= spans.len(),
            worked_fits(spans@, max_break as int),
            total == worked(spans@.take(i as int), max_break as int),
            in_span_range(total as int),
            in_instant_range(prev_end as int),
            i > 0 ==> prev_end == spans@[i - 1].end(),
        decreases spans.len() - i,
    {
        let e: Event = spans[i];
        proof {
            assert(spans@.take(i + 1).drop_last() =~= spans@.take(i as int));
            if !worked_fits(spans@.take(i + 1), max_break as int) {
                lemma_fits_prefix(spans@, i + 1, max_break as int);
            }
        }
        let gap: i128 = e.timestamp - prev_end;
        let fill: i128 = if i > 0 && gap > 0 && gap < max_break {
            gap
        } else {
            0
        };
        total = total + fill + e.duration;
        prev_end = e.timestamp + e.duration;
        i += 1;
    }
    assert(spans@.take(spans@.len() as int) =~= spans@);
    total
}

/// Whether every end is a moment of the calendar.
pub open spec fn ends_fit(s: Seq<Event>) -> bool {
    forall|i: int|
        0 <= i < s.len() ==> (#[trigger] s[i]).wf() && in_instant_range(s[i].end())
}

/// Events whose worked time can be counted have ends that the calendar holds.
pub proof fn lemma_fits_ends(s: Seq<Event>, max_break: int)
    requires
        worked_fits(chronological(s), max_break),
    ensures
        ends_fit(s),
{
    broadcast use vstd::seq_lib::group_to_multiset_ensures;

    let c = chronological(s);
    law_chronological(s);
    assert forall|i: int| 0 <= i < s.len() implies (#[trigger] s[i]).wf() && in_instant_range(
        s[i].end(),
    ) by {
        assert(s.to_multiset().count(s[i]) > 0);
        assert(c.contains(s[i]));
        let j = choose|j: int| 0 <= j < c.len() && c[j] == s[i];
        assert(c.take(j + 1).last() == c[j]);
        if !worked_fits(c.take(j + 1), max_break) {
            lemma_fits_prefix(c, j + 1, max_break);
        }
    }
}

/// The earliest start and the latest end.
pub open spec fn boundaries(s: Seq<Event>) -> Option<(int, int)>
    decreases s.len(),
{
    if s.len() == 0 {
        None
    } else {
        let e = s.last();
        match boundaries(s.drop_last()) {
            None => Some((e.timestamp as int, e.end())),
            Some((first, last)) => Some(
                (
                    if e.timestamp < first {
                        e.timestamp as int
                    } else {
                        first
                    },
                    if e.end() > last {
                        e.end()
                    } else {
                        last
                    },
                ),
            ),
        }
    }
}

/// `boundaries` are the least start and the greatest end of the events.
pub proof fn law_boundaries(s: Seq<Event>)
    ensures
        boundaries(s) is None <==> s.len() == 0,
        boundaries(s) matches Some((first, last)) ==> {
            &&& exists|i: int| 0 <= i < s.len() && (#[trigger] s[i]).timestamp == first
            &&& exists|i: int| 0 <= i < s.len() && (#[trigger] s[i]).end() == last
            &&& forall|i: int|
                0 <= i < s.len() ==> first <= (#[trigger] s[i]).timestamp && s[i].end() <= last
        },
    decreases s.len(),
{
    if s.len() > 0 {
        let front = s.drop_last();
        law_boundaries(front);
        let n = s.len() - 1;
        assert(s[n] == s.last());
        if front.len() > 0 {
            let (start, end) = boundaries(front)->0;
            let i = choose|i: int|
                0 <= i < front.len() && (#[trigger] front[i]).timestamp == start;
            let j = choose|j: int| 0 <= j < front.len() && (#[trigger] front[j]).end() == end;
            assert(s[i] == front[i] && s[j] == front[j]);
        }
        let (first, last) = boundaries(s)->0;
        assert forall|k: int| 0 <= k < s.len() implies first <= (#[trigger] s[k]).timestamp
            && s[k].end() <= last by {
            if k < n {
                assert(front[k] == s[k]);
            }
        }
    }
}

/// `boundaries` do not depend on the order of the events.
pub proof fn law_boundaries_unordered(s: Seq<Event>)
    ensures
        boundaries(chronological(s)) == boundaries(s),
{
    broadcast use vstd::seq_lib::group_to_multiset_ensures;

    let c = chronological(s);
    law_chronological(s);
    law_boundaries(s);
    law_boundaries(c);
    if s.len() == 0 {
        assert(c == s);
    } else {
        assert(s.to_multiset().len() == s.len() && c.to_multiset().len() == c.len());
        let (f1, l1) = boundaries(s)->0;
        let (f2, l2) = boundaries(c)->0;
        let i1 = choose|i: int| 0 <= i < s.len() && (#[trigger] s[i]).timestamp == f1;
        let j1 = choose|i: int| 0 <= i < s.len() && (#[trigger] s[i]).end() == l1;
        let i2 = choose|i: int| 0 <= i < c.len() && (#[trigger] c[i]).timestamp == f2;
        let j2 = choose|i: int| 0 <= i < c.len() && (#[trigger] c[i]).end() == l2;
        assert(s.to_multiset().count(s[i1]) > 0 && s.to_multiset().count(s[j1]) > 0);
        assert(c.to_multiset().count(c[i2]) > 0 && c.to_multiset().count(c[j2]) > 0);
        assert(c.contains(s[i1]) && c.contains(s[j1]) && s.contains(c[i2]) && s.contains(c[j2]));
    }
}

/// The earliest start and the latest end, or `None` when there are no events.
pub fn event_boundaries(events: &[Event]) -> (r: Option<(i128, i128)>)
    requires
        ends_fit(events@),
    ensures
        match r {
            None => boundaries(events@) is None,
            Some((first, last)) => boundaries(events@) == Some((first as int, last as int))
                && in_instant_range(first as int) && in_instant_range(last as int),
        },
{
    if events.len() == 0 {
        return None;
    }
    let mut first: i128 = events[0].timestamp;
    let mut last: i128 = events[0].timestamp + events[0].duration;
    let mut i: usize = 1;
    assert(events@.take(1).drop_last() =~= Seq::<Event>::empty());
    assert(boundaries(Seq::<Event>::empty()) is None);
    while i < events.len()
        invariant
            1 <= i <= events.len(),
            ends_fit(events@),
            boundaries(events@.take(i as int)) == Some((first as int, last as int)),
            in_instant_range(first as int),
            in_instant_range(last as int),
        decreases events.len() - i,
    {
        let e: Event = events[i];
        let end: i128 = e.timestamp + e.duration;
        assert(events@.take(i + 1).drop_last() =~= events@.take(i as int));
        if e.timestamp < first {
            first = e.timestamp;
        }
        if end > last {
            last = end;
        }
        i += 1;
    }
    assert(events@.take(events@.len() as int) =~= events@);
    Some((first, last))
}

/// The lengths of the events added up.
pub open spec fn total_duration(s: Seq<Event>) -> int
    decreases s.len(),
{
    if s.len() == 0 {
        0
    } else {
        total_duration(s.drop_last()) + s.last().duration
    }
}

/// Without a break length nothing is filled: worked time is the sum of the lengths.
pub proof fn law_no_break(s: Seq<Event>, max_break: int)
    requires
        max_break <= 1,
    ensures
        worked(s, max_break) == total_duration(s),
    decreases s.len(),
{
    if s.len() == 1 {
        assert(total_duration(s.drop_last()) == 0);
    } else if s.len() > 1 {
        law_no_break(s.drop_last(), max_break);
    }
}

/// A longer break length never counts less as worked.
pub proof fn law_longer_break(s: Seq<Event>, shorter: int, longer: int)
    requires
        shorter <= longer,
    ensures
        worked(s, shorter) <= worked(s, longer),
    decreases s.len(),
{
    if s.len() > 1 {
        law_longer_break(s.drop_last(), shorter, longer);
    }
}

/// When each event starts where the one before it ended or, after a pause shorter than a break,
/// later, everything from the first start to the last end counts as worked.
pub proof fn law_unbroken_run(s: Seq<Event>, max_break: int)
    requires
        s.len() > 0,
        forall|i: int, j: int|
            0 <= i && j == i + 1 && j < s.len() ==> 0 <= (#[trigger] s[j]).timestamp - (
            #[trigger] s[i]).end() < max_break || s[j].timestamp == s[i].end(),
    ensures
        worked(s, max_break) == s.last().end() - s[0].timestamp,
    decreases s.len(),
{
    if s.len() > 1 {
        let front = s.drop_last();
        assert forall|i: int, j: int| 0 <= i && j == i + 1 && j < front.len() implies 0 <= (
        #[trigger] front[j]).timestamp - (#[trigger] front[i]).end() < max_break
            || front[j].timestamp == front[i].end() by {
            assert(front[i] == s[i] && front[j] == s[j]);
        }
        law_unbroken_run(front, max_break);
        let n = s.len() - 1;
        assert(s[n - 1] == front.last());
        assert(s[n] == s.last());
    }
}

/// Worked time of one run of events behind another: both runs, and the pause between them when it
/// is shorter than a break.
pub proof fn law_concat(a: Seq<Event>, b: Seq<Event>, max_break: int)
    requires
        a.len() > 0,
        b.len() > 0,
    ensures
        worked(a + b, max_break) == worked(a, max_break) + gap_fill(
            b[0].timestamp - a.last().end(),
            max_break,
        ) + worked(b, max_break),
    decreases b.len(),
{
    let s = a + b;
    assert(s.last() == b.last());
    assert(s.drop_last() =~= a + b.drop_last());
    if b.len() == 1 {
        assert(s.drop_last() =~= a);
        assert(s[s.len() - 2] == a.last());
    } else {
        law_concat(a, b.drop_last(), max_break);
        assert(s[s.len() - 2] == b[b.len() - 2]);
    }
}

/// What one more event, behind the others, adds to the worked time. Behind a pause that is shorter
/// than a break, everything since the last end counts; otherwise the length of the event does. A single
/// event counts with its length, and no event counts nothing.
pub proof fn law_next_event(s: Seq<Event>, e: Event, max_break: int)
    ensures
        s.len() == 0 ==> worked(s, max_break) == 0 && worked(s.push(e), max_break) == e.duration,
        s.len() > 0 && s.last().end() < e.timestamp < s.last().end() + max_break ==> worked(
            s.push(e),
            max_break,
        ) - worked(s, max_break) == e.end() - s.last().end(),
        s.len() > 0 && (e.timestamp <= s.last().end() || e.timestamp >= s.last().end() + max_break)
            ==> worked(s.push(e), max_break) - worked(s, max_break) == e.duration,
{
    assert(s.push(e).drop_last() =~= s);
}

/// A pause that is not shorter than a break adds nothing: where every event starts no later than the
/// one before it ended, or no earlier than a break after that, worked time is the sum of the lengths.
pub proof fn law_long_pauses(s: Seq<Event>, max_break: int)
    requires
        forall|i: int, j: int|
            0 <= i && j == i + 1 && j < s.len() ==> (#[trigger] s[j]).timestamp - (
            #[trigger] s[i]).end() <= 0 || s[j].timestamp - s[i].end() >= max_break,
    ensures
        worked(s, max_break) == s.fold_left(0int, |sum: int, e: Event| sum + e.duration),
        worked(s, max_break) == total_duration(s),
    decreases s.len(),
{
    reveal_with_fuel(Seq::fold_left, 2);
    if s.len() > 0 {
        let front = s.drop_last();
        assert forall|i: int, j: int| 0 <= i && j == i + 1 && j < front.len() implies (
        #[trigger] front[j]).timestamp - (#[trigger] front[i]).end() <= 0 || front[j].timestamp
            - front[i].end() >= max_break by {
            assert(front[i] == s[i] && front[j] == s[j]);
        }
        law_long_pauses(front, max_break);
        let n = s.len() - 1;
        assert(s[n] == s.last());
        if n > 0 {
            assert(s[n].timestamp - s[n - 1].end() <= 0 || s[n].timestamp - s[n - 1].end()
                >= max_break);
        }
    }
}

/// Worked time is never less than the sum of the lengths, and never more than that and all the time
/// between the events.
pub proof fn law_worked_bounds(s: Seq<Event>, max_break: int)
    requires
        s.len() > 0,
        forall|i: int, j: int|
            0 <= i && j == i + 1 && j < s.len() ==> (#[trigger] s[i]).end() <= (
            #[trigger] s[j]).timestamp,
    ensures
        total_duration(s) <= worked(s, max_break) <= s.last().end() - s[0].timestamp,
    decreases s.len(),
{
    if s.len() > 1 {
        let front = s.drop_last();
        assert forall|i: int, j: int| 0 <= i && j == i + 1 && j < front.len() implies (
        #[trigger] front[i]).end() <= (#[trigger] front[j]).timestamp by {
            assert(front[i] == s[i] && front[j] == s[j]);
        }
        law_worked_bounds(front, max_break);
        let n = s.len() - 1;
        assert(s[n] == s.last() && s[n - 1] == front.last());
        assert(s[n - 1].end() <= s[n].timestamp);
    } else {
        assert(total_duration(s.drop_last()) == 0);
    }
}

/// Worked time does not depend on when the events took place: all of them moved by the same length
/// of time count the same.
pub proof fn law_moved_events(a: Seq<Event>, b: Seq<Event>, by: int, max_break: int)
    requires
        a.len() == b.len(),
        forall|i: int|
            0 <= i < a.len() ==> (#[trigger] b[i]).timestamp == a[i].timestamp + by && b[i].duration
                == a[i].duration,
    ensures
        worked(b, max_break) == worked(a, max_break),
    decreases a.len(),
{
    if a.len() > 0 {
        let (fa, fb) = (a.drop_last(), b.drop_last());
        assert forall|i: int| 0 <= i < fa.len() implies (#[trigger] fb[i]).timestamp
            == fa[i].timestamp + by && fb[i].duration == fa[i].duration by {
            assert(fb[i] == b[i] && fa[i] == a[i]);
        }
        law_moved_events(fa, fb, by, max_break);
        let n = a.len() - 1;
        assert(b[n].duration == a[n].duration);
        if n > 0 {
            assert(b[n - 1].duration == a[n - 1].duration);
        }
    }
}

/// The events by start are as many as the events, each starts no later than those behind it, and the
/// ones that start together are the same, in the same order.
pub proof fn law_by_start(s: Seq<Event>, t: i128)
    ensures
        chronological(s).len() == s.len(),
        forall|i: int, j: int|
            0 <= i < j < s.len() ==> (#[trigger] chronological(s)[i]).timestamp <= (
            #[trigger] chronological(s)[j]).timestamp,
        chronological(s).filter(|e: Event| e.timestamp == t) == s.filter(
            |e: Event| e.timestamp == t,
        ),
{
    broadcast use vstd::seq_lib::group_to_multiset_ensures;

    law_chronological(s);
    assert(s.to_multiset().len() == s.len());
    assert(chronological(s).to_multiset().len() == chronological(s).len());
    assert(starting_at(chronological(s), t) == starting_at(s, t));
}

/// Events of no negative length, one after the other, whose ends the calendar holds, can always be
/// counted.
pub proof fn law_ordinary_events_fit(s: Seq<Event>, max_break: int)
    requires
        forall|i: int|
            0 <= i < s.len() ==> FIRST_INSTANT <= (#[trigger] s[i]).timestamp <= s[i].end()
                <= LAST_INSTANT,
        forall|i: int, j: int|
            0 <= i && j == i + 1 && j < s.len() ==> (#[trigger] s[i]).end() <= (
            #[trigger] s[j]).timestamp,
    ensures
        worked_fits(s, max_break),
    decreases s.len(),
{
    if s.len() > 0 {
        let front = s.drop_last();
        assert forall|i: int| 0 <= i < front.len() implies FIRST_INSTANT <= (
        #[trigger] front[i]).timestamp <= front[i].end() <= LAST_INSTANT by {
            assert(front[i] == s[i]);
        }
        assert forall|i: int, j: int| 0 <= i && j == i + 1 && j < front.len() implies (
        #[trigger] front[i]).end() <= (#[trigger] front[j]).timestamp by {
            assert(front[i] == s[i] && front[j] == s[j]);
        }
        law_ordinary_events_fit(front, max_break);
        law_worked_bounds(s, max_break);
        lemma_total_nonnegative(s);
        let n = s.len() - 1;
        assert(s[n] == s.last());
        assert(FIRST_INSTANT <= s[0].timestamp);
        if n > 0 {
            law_worked_bounds(front, max_break);
            lemma_total_nonnegative(front);
            assert(s[n - 1] == front.last());
            assert(s[n - 1].end() <= s[n].timestamp);
        }
    }
}

proof fn lemma_total_nonnegative(s: Seq<Event>)
    requires
        forall|i: int| 0 <= i < s.len() ==> (#[trigger] s[i]).timestamp <= s[i].end(),
    ensures
        total_duration(s) >= 0,
    decreases s.len(),
{
    if s.len() > 0 {
        let front = s.drop_last();
        assert forall|i: int| 0 <= i < front.len() implies (#[trigger] front[i]).timestamp
            <= front[i].end() by {
            assert(front[i] == s[i]);
        }
        lemma_total_nonnegative(front);
        assert(s[s.len() - 1].timestamp <= s[s.len() - 1].end());
    }
}

/// One more event, behind others that can be counted, can be counted with them just when its start, its
/// length and its end can be held, and so can the sums ahead of it and behind it.
pub proof fn law_fits_next(s: Seq<Event>, e: Event, max_break: int)
    ensures
        s.len() == 0 ==> worked_fits(s, max_break),
        worked_fits(s.push(e), max_break) <==> {
            &&& worked_fits(s, max_break)
            &&& FIRST_INSTANT <= e.timestamp <= LAST_INSTANT
            &&& FIRST_INSTANT <= e.end() <= LAST_INSTANT
            &&& -LONGEST_SPAN <= e.duration <= LONGEST_SPAN
            &&& -LONGEST_SPAN <= worked(s.push(e), max_break) - e.duration <= LONGEST_SPAN
            &&& -LONGEST_SPAN <= worked(s.push(e), max_break) <= LONGEST_SPAN
        },
{
    assert(s.push(e).drop_last() =~= s);
}

/// An event is over as long after its start as it lasts.
pub proof fn law_end(e: Event)
    ensures
        e.end() - e.timestamp == e.duration,
{
}

} // verus!
