//! The worked time of a day out of that of its parts.

use vstd::prelude::*;
use crate::time::{
    in_instant_range, in_span_range, law_whole_seconds, num_seconds, whole_seconds, LONGEST_SPAN,
    SECOND,
};
use crate::working_hours::{
    boundaries, chronological, event_boundaries, gap_fill, generous_approx, law_boundaries,
    law_boundaries_unordered, law_chronological, law_concat, lemma_filter_concat, lemma_fits_ends,
    lemma_stable_unique, sorted, starting_at, worked, worked_fits, Event,
};

verus! {

/// The pause from which on time does not count as worked: ten minutes.
pub const BREAK_TIME: i128 = 600_000_000_000;

/// `d` without its fraction of a second.
pub open spec fn cut(d: int) -> int {
    whole_seconds(d) * SECOND
}

/// The worked time of events, without its fraction of a second.
pub open spec fn whole_worked(events: Seq<Event>) -> int {
    cut(worked(chronological(events), BREAK_TIME as int))
}

/// `d` without its fraction of a second.
pub fn cut_fraction(d: i128) -> (r: i128)
    requires
        in_span_range(d as int),
    ensures
        r == cut(d as int),
        in_span_range(r as int),
{
    num_seconds(d) as i128 * SECOND
}

/// Whether `whole_worked` can be counted.
pub open spec fn countable(events: Seq<Event>) -> bool {
    worked_fits(chronological(events), BREAK_TIME as int)
}

/// The earliest start.
pub open spec fn first_start(events: Seq<Event>) -> Option<i128> {
    match boundaries(events) {
        Some((first, _)) => Some(first as i128),
        None => None,
    }
}

/// The latest end.
pub open spec fn last_end(events: Seq<Event>) -> Option<i128> {
    match boundaries(events) {
        Some((_, last)) => Some(last as i128),
        None => None,
    }
}

/// Worked time in a part of a day, with the first start and the last end in it.
#[derive(Clone, Copy, Debug, PartialEq, Eq, Structural)]
pub struct Segment {
    pub worked: i128,
    pub first: Option<i128>,
    pub last: Option<i128>,
}

impl Segment {
    /// Moments and length are ones that the calendar holds.
    pub open spec fn wf(self) -> bool {
        &&& in_span_range(self.worked as int)
        &&& self.first matches Some(t) ==> in_instant_range(t as int)
        &&& self.last matches Some(t) ==> in_instant_range(t as int)
    }
}

/// The part of a day that holds `events`.
pub open spec fn segment_of(events: Seq<Event>) -> Segment {
    Segment {
        worked: whole_worked(events) as i128,
        first: first_start(events),
        last: last_end(events),
    }
}

/// The part of a day that holds `events`.
pub fn segment(events: &[Event]) -> (r: Segment)
    requires
        countable(events@),
    ensures
        r == segment_of(events@),
        r.worked == whole_worked(events@),
        r.wf(),
{
    let worked: i128 = cut_fraction(generous_approx(events, BREAK_TIME));
    proof {
        lemma_fits_ends(events@, BREAK_TIME as int);
    }
    match event_boundaries(events) {
        Some((first, last)) => Segment { worked, first: Some(first), last: Some(last) },
        None => Segment { worked, first: None, last: None },
    }
}

/// The later of two moments.
pub open spec fn later(a: Option<i128>, b: Option<i128>) -> Option<i128> {
    match (a, b) {
        (Some(x), Some(y)) => if x < y {
            b
        } else {
            a
        },
        (None, _) => b,
        (_, None) => a,
    }
}

/// The latest end in any of the parts.
pub open spec fn latest(parts: Seq<Segment>) -> Option<i128>
    decreases parts.len(),
{
    if parts.len() == 0 {
        None
    } else {
        later(latest(parts.drop_last()), parts.last().last)
    }
}

/// What the pause between two parts adds: its whole seconds, if it is shorter than a break.
pub open spec fn bridge(end: Option<i128>, start: Option<i128>) -> int {
    match (end, start) {
        (Some(end), Some(start)) => cut(gap_fill(start - end, BREAK_TIME as int)),
        _ => 0,
    }
}

/// The worked time of all parts in nanoseconds, with the short pauses between them.
pub open spec fn stitched(parts: Seq<Segment>) -> int
    decreases parts.len(),
{
    if parts.len() == 0 {
        0
    } else {
        let front = parts.drop_last();
        stitched(front) + bridge(latest(front), parts.last().first) + parts.last().worked
    }
}

/// The worked time of all parts in nanoseconds, with the short pauses between them.
pub fn stitch(parts: &Vec<Segment>) -> (r: i128)
    requires
        parts.len() <= 0x100_0000_0000,
        forall|i: int| 0 <= i < parts.len() ==> (#[trigger] parts@[i]).wf(),
    ensures
        r == stitched(parts@),
{
    let mut total: i128 = 0;
    let mut prev_end: Option<i128> = None;
    let mut i: usize = 0;
    while i < parts.len()
        invariant
            i <= parts.len() <= 0x100_0000_0000,
            forall|i: int| 0 <= i < parts.len() ==> (#[trigger] parts@[i]).wf(),
            total == stitched(parts@.take(i as int)),
            prev_end == latest(parts@.take(i as int)),
            prev_end matches Some(t) ==> in_instant_range(t as int),
            -(i * 0x10_0000_0000_0000_0000_0000int) <= total <= i * 0x10_0000_0000_0000_0000_0000int,
        decreases parts.len() - i,
    {
        assert(parts@.take(i + 1).drop_last() =~= parts@.take(i as int));
        let part: Segment = parts[i];
        assert(part.wf());
        if let (Some(end), Some(start)) = (prev_end, part.first) {
            let gap: i128 = start - end;
            if gap > 0 && gap < BREAK_TIME {
                total = total + cut_fraction(gap);
            }
        }
        total = total + part.worked;
        prev_end = match (prev_end, part.last) {
            (Some(x), Some(y)) => if x < y {
                Some(y)
            } else {
                Some(x)
            },
            (None, y) => y,
            (x, None) => x,
        };
        i += 1;
    }
    assert(parts@.take(parts@.len() as int) =~= parts@);
    total
}

/// Events one after the other: each starts no earlier than the one before it ended, and starts and
/// lengths are whole seconds.
pub open spec fn in_turn(s: Seq<Event>) -> bool {
    &&& forall|i: int, j: int|
        0 <= i < j < s.len() ==> (#[trigger] s[i]).end() <= (#[trigger] s[j]).timestamp
    &&& forall|i: int|
        0 <= i < s.len() ==> (#[trigger] s[i]).duration >= 0 && s[i].duration as int % SECOND as int
            == 0 && s[i].timestamp as int % SECOND as int == 0 && s[i].wf() && in_instant_range(
            s[i].end(),
        )
}

/// Events one after the other: each starts no earlier than the one before it ended, with whatever
/// fractions of a second.
pub open spec fn successive(s: Seq<Event>) -> bool {
    &&& forall|i: int, j: int|
        0 <= i < j < s.len() ==> (#[trigger] s[i]).end() <= (#[trigger] s[j]).timestamp
    &&& forall|i: int|
        0 <= i < s.len() ==> (#[trigger] s[i]).duration >= 0 && s[i].wf() && in_instant_range(
            s[i].end(),
        )
}

/// The parts of a day that have events in them.
pub open spec fn segments_of(groups: Seq<Seq<Event>>) -> Seq<Segment>
    decreases groups.len(),
{
    if groups.len() == 0 {
        Seq::empty()
    } else {
        let front = segments_of(groups.drop_last());
        if whole_worked(groups.last()) > 0 {
            front.push(segment_of(groups.last()))
        } else {
            front
        }
    }
}

/// All events of the parts.
pub open spec fn joined(groups: Seq<Seq<Event>>) -> Seq<Event>
    decreases groups.len(),
{
    if groups.len() == 0 {
        Seq::empty()
    } else {
        joined(groups.drop_last()) + groups.last()
    }
}

proof fn lemma_chronological_sorted(s: Seq<Event>)
    requires
        sorted(s),
    ensures
        chronological(s) == s,
    decreases s.len(),
{
    if s.len() > 0 {
        let front = s.drop_last();
        assert(sorted(front));
        lemma_chronological_sorted(front);
        if front.len() > 0 {
            assert(front.last() == s[s.len() - 2]);
            assert(s[s.len() - 2].timestamp <= s[s.len() - 1].timestamp);
        }
        assert(front.insert(front.len() as int, s.last()) =~= s);
    }
}

proof fn lemma_successive_sorted(s: Seq<Event>)
    requires
        successive(s),
    ensures
        sorted(s),
{
    assert forall|i: int, j: int| 0 <= i <= j < s.len() implies s[i].timestamp
        <= s[j].timestamp by {
        if i < j {
            assert(s[i].end() <= s[j].timestamp);
            assert(s[i].duration >= 0);
        }
    }
}

proof fn lemma_in_turn_sorted(s: Seq<Event>)
    requires
        in_turn(s),
    ensures
        sorted(s),
{
    lemma_successive_sorted(s);
}

/// Worked time of whole seconds is a whole number of seconds, and no more than went by.
proof fn lemma_whole(s: Seq<Event>)
    requires
        in_turn(s),
    ensures
        worked(s, BREAK_TIME as int) % SECOND as int == 0,
        worked(s, BREAK_TIME as int) >= 0,
        s.len() > 0 ==> worked(s, BREAK_TIME as int) <= s.last().end() - s[0].timestamp,
    decreases s.len(),
{
    if s.len() == 1 {
        assert(s[0].duration >= 0);
    } else if s.len() > 1 {
        let front = s.drop_last();
        assert(forall|i: int| 0 <= i < front.len() ==> (#[trigger] front[i]) == s[i]);
        assert(in_turn(front));
        lemma_whole(front);
        let n = s.len() - 1;
        assert(s[n].duration >= 0 && s[n - 1].duration >= 0);
        assert(s[n] == s.last());
    }
}

proof fn lemma_boundaries(s: Seq<Event>)
    requires
        successive(s),
        s.len() > 0,
    ensures
        boundaries(s) == Some((s[0].timestamp as int, s.last().end())),
{
    law_boundaries(s);
    lemma_successive_sorted(s);
    let (first, last) = boundaries(s)->0;
    let i = choose|i: int| 0 <= i < s.len() && (#[trigger] s[i]).timestamp == first;
    let j = choose|j: int| 0 <= j < s.len() && (#[trigger] s[j]).end() == last;
    let n = s.len() - 1;
    assert(s[n] == s.last());
    assert(s[0].timestamp <= s[i].timestamp);
    if j < n {
        assert(s[j].end() <= s[n].timestamp);
        assert(s[n].duration >= 0);
    }
}

/// Every part that has events in it has some worked time.
pub open spec fn none_idle(groups: Seq<Seq<Event>>) -> bool {
    forall|i: int|
        0 <= i < groups.len() ==> (#[trigger] groups[i]).len() == 0 || whole_worked(groups[i]) > 0
}

#[verifier::spinoff_prover]
#[verifier::rlimit(40)]
proof fn lemma_stitched_in_order(groups: Seq<Seq<Event>>)
    requires
        in_turn(joined(groups)),
        none_idle(groups),
    ensures
        stitched(segments_of(groups)) == whole_worked(joined(groups)),
        latest(segments_of(groups)) == last_end(joined(groups)),
    decreases groups.len(),
{
    let all = joined(groups);
    lemma_in_turn_sorted(all);
    lemma_chronological_sorted(all);
    lemma_whole(all);
    if groups.len() == 0 {
    } else {
        let front = groups.drop_last();
        let g = groups.last();
        let before = joined(front);
        assert(g == groups[groups.len() - 1]);
        assert forall|i: int| 0 <= i < before.len() implies #[trigger] before[i] == all[i] by {}
        assert forall|i: int| 0 <= i < g.len() implies #[trigger] g[i] == all[before.len() + i] by {}
        assert(in_turn(before));
        assert(in_turn(g)) by {
            assert forall|i: int, j: int| 0 <= i < j < g.len() implies (#[trigger] g[i]).end() <= (
            #[trigger] g[j]).timestamp by {
                assert(all[before.len() + i].end() <= all[before.len() + j].timestamp);
            }
        }
        assert forall|i: int| 0 <= i < front.len() implies (#[trigger] front[i]).len() == 0
            || whole_worked(front[i]) > 0 by {
            assert(front[i] == groups[i]);
        }
        lemma_stitched_in_order(front);
        lemma_in_turn_sorted(g);
        lemma_chronological_sorted(g);
        lemma_whole(g);
        lemma_in_turn_sorted(before);
        lemma_chronological_sorted(before);
        lemma_whole(before);
        if g.len() == 0 {
            assert(all =~= before);
        } else {
            lemma_boundaries(g);
            lemma_boundaries(all);
            assert(all.last() == g.last());
            assert(g[0].wf() && g.last() == g[g.len() - 1]);
            assert(in_instant_range(g[g.len() - 1].end()));
            assert(0 < whole_worked(g) <= LONGEST_SPAN);
            let parts = segments_of(groups);
            assert(parts.drop_last() =~= segments_of(front));
            if before.len() == 0 {
                assert(all =~= g);
            } else {
                lemma_boundaries(before);
                law_concat(before, g, BREAK_TIME as int);
                assert(before.last() == before[before.len() - 1]);
                assert(before.last().end() <= g[0].timestamp);
                assert(g[0].timestamp as int % SECOND as int == 0);
                assert(before.last().duration >= 0);
                assert(g.last() == g[g.len() - 1]);
                assert(g.last().end() >= g[0].timestamp) by {
                    if g.len() > 1 {
                        assert(g[0].end() <= g[g.len() - 1].timestamp);
                    }
                    assert(g[0].duration >= 0);
                    assert(g[g.len() - 1].duration >= 0);
                }
            }
        }
    }
}

/// The groups, each in order.
pub open spec fn each_in_order(groups: Seq<Seq<Event>>) -> Seq<Seq<Event>> {
    Seq::new(groups.len(), |i: int| chronological(groups[i]))
}

proof fn lemma_order_of_each(groups: Seq<Seq<Event>>)
    ensures
        segments_of(each_in_order(groups)) == segments_of(groups),
        forall|t: i128| #[trigger]
            starting_at(joined(each_in_order(groups)), t) == starting_at(joined(groups), t),
    decreases groups.len(),
{
    if groups.len() == 0 {
        assert(each_in_order(groups) =~= groups);
    } else {
        let front = groups.drop_last();
        let g = groups.last();
        lemma_order_of_each(front);
        assert(each_in_order(groups).drop_last() =~= each_in_order(front));
        law_chronological(g);
        lemma_chronological_sorted(chronological(g));
        law_boundaries_unordered(g);
        assert forall|t: i128| #[trigger] starting_at(joined(each_in_order(groups)), t)
            == starting_at(joined(groups), t) by {
            lemma_filter_concat(joined(each_in_order(front)), chronological(g), t);
            lemma_filter_concat(joined(front), g, t);
            assert(starting_at(joined(each_in_order(front)), t) == starting_at(joined(front), t));
            assert(starting_at(chronological(g), t) == starting_at(g, t));
        }
    }
}

/// For events one after the other, in whole seconds, the parts of a day stitched together give the
/// worked time of the day as a whole, in whatever order the events of a part come: no pause is
/// lost at the edges of the parts. Each part has some worked time or no events at all.
pub proof fn law_stitched(groups: Seq<Seq<Event>>)
    requires
        in_turn(joined(each_in_order(groups))),
        none_idle(groups),
    ensures
        stitched(segments_of(groups)) == whole_worked(joined(groups)),
{
    let ordered = each_in_order(groups);
    assert forall|i: int| 0 <= i < ordered.len() implies (#[trigger] ordered[i]).len() == 0
        || whole_worked(ordered[i]) > 0 by {
        law_chronological(groups[i]);
        lemma_chronological_sorted(chronological(groups[i]));
        assert(groups[i].len() == 0 || whole_worked(groups[i]) > 0);
    }
    lemma_stitched_in_order(ordered);
    lemma_order_of_each(groups);
    lemma_in_turn_sorted(joined(ordered));
    lemma_chronological_sorted(joined(ordered));
    law_chronological(joined(groups));
    assert forall|t: i128| #[trigger] starting_at(chronological(joined(groups)), t) == starting_at(
        joined(ordered),
        t,
    ) by {
        assert(starting_at(joined(ordered), t) == starting_at(joined(groups), t));
    }
    lemma_stable_unique(chronological(joined(groups)), joined(ordered));
}

/// A length of time without its fraction of a second is less than a second shorter, and a whole
/// number of seconds.
pub proof fn law_cut(d: int)
    requires
        d >= 0,
    ensures
        d - 1_000_000_000 < cut(d) <= d,
        cut(d) >= 0,
        cut(d) % 1_000_000_000 == 0,
{
    law_whole_seconds(d);
}

/// `latest` is the greatest of the ends, and is missing only if all of them are.
pub proof fn law_latest(parts: Seq<Segment>)
    ensures
        match latest(parts) {
            Some(end) => (exists|i: int|
                0 <= i < parts.len() && (#[trigger] parts[i]).last == Some(end)) && forall|i: int|
                0 <= i < parts.len() ==> ((#[trigger] parts[i]).last matches Some(t) ==> t <= end),
            None => forall|i: int| 0 <= i < parts.len() ==> (#[trigger] parts[i]).last is None,
        },
    decreases parts.len(),
{
    if parts.len() > 0 {
        let front = parts.drop_last();
        let n = parts.len() - 1;
        law_latest(front);
        assert(parts[n] == parts.last());
        assert forall|i: int| 0 <= i < n implies #[trigger] parts[i] == front[i] by {}
        if latest(front) is Some {
            let end = latest(front)->0;
            let i = choose|i: int| 0 <= i < front.len() && (#[trigger] front[i]).last == Some(end);
            assert(parts[i].last == Some(end));
        }
    }
}

/// What one more part adds to the parts ahead of it, of which `end` is the latest end: its worked
/// time, and of the pause since that end, if it is shorter than ten minutes, all but less than a second.
/// Any other pause adds nothing.
pub proof fn law_next_part(parts: Seq<Segment>, part: Segment, end: Option<i128>)
    requires
        match end {
            Some(end) => (exists|i: int|
                0 <= i < parts.len() && (#[trigger] parts[i]).last == Some(end)) && forall|i: int|
                0 <= i < parts.len() ==> ((#[trigger] parts[i]).last matches Some(t) ==> t <= end),
            None => forall|i: int| 0 <= i < parts.len() ==> (#[trigger] parts[i]).last is None,
        },
    ensures
        parts.len() == 0 ==> stitched(parts) == 0,
        ({
            let added = stitched(parts.push(part)) - stitched(parts) - part.worked;
            match (end, part.first) {
                (Some(end), Some(start)) => if 0 < start - end < 600_000_000_000 {
                    start - end - 1_000_000_000 < added <= start - end && added % 1_000_000_000 == 0
                } else {
                    added == 0
                },
                _ => added == 0,
            }
        }),
{
    law_latest(parts);
    assert(parts.push(part).drop_last() =~= parts);
    match end {
        Some(t) => {
            let i = choose|i: int| 0 <= i < parts.len() && (#[trigger] parts[i]).last == Some(t);
            assert(parts[i].last is Some);
            let l = latest(parts)->0;
            let j = choose|j: int| 0 <= j < parts.len() && (#[trigger] parts[j]).last == Some(l);
            assert(parts[j].last == Some(l));
            assert(latest(parts) == end);
        },
        None => {
            if latest(parts) is Some {
                let l = latest(parts)->0;
                let j = choose|j: int| 0 <= j < parts.len() && (#[trigger] parts[j]).last == Some(l);
                assert(parts[j].last is None);
            }
        },
    }
    if let (Some(end), Some(start)) = (end, part.first) {
        if start - end > 0 {
            law_cut(start - end);
        }
    }
}

/// The part of a day that holds events begins with the earliest start and ends with the latest end,
/// and has all their worked time but less than a second. Without events it has nothing.
pub proof fn law_segment(events: Seq<Event>)
    requires
        countable(events),
    ensures
        events.len() == 0 ==> segment_of(events) == (Segment { worked: 0, first: None, last: None }),
        events.len() > 0 ==> {
            let part = segment_of(events);
            &&& part.first matches Some(first) && part.last matches Some(last) && {
                &&& exists|i: int| 0 <= i < events.len() && (#[trigger] events[i]).timestamp == first
                &&& exists|i: int| 0 <= i < events.len() && (#[trigger] events[i]).end() == last
                &&& forall|i: int|
                    0 <= i < events.len() ==> first <= (#[trigger] events[i]).timestamp
                        && events[i].end() <= last
            }
        },
        ({
            let all = worked(chronological(events), 600_000_000_000);
            &&& all >= 0 ==> all - 1_000_000_000 < segment_of(events).worked <= all
            &&& all < 0 ==> all <= segment_of(events).worked < all + 1_000_000_000
            &&& segment_of(events).worked as int % 1_000_000_000 == 0
        }),
{
    let all = worked(chronological(events), BREAK_TIME as int);
    law_boundaries(events);
    lemma_fits_ends(events, BREAK_TIME as int);
    law_whole_seconds(all);
    law_whole_seconds(-all);
    if events.len() == 0 {
        assert(chronological(events) == events);
    } else {
        let (first, last) = boundaries(events)->0;
        let i = choose|i: int| 0 <= i < events.len() && (#[trigger] events[i]).timestamp == first;
        let j = choose|j: int| 0 <= j < events.len() && (#[trigger] events[j]).end() == last;
        assert(events[i].timestamp == first);
        assert(events[j].wf() && in_instant_range(events[j].end()));
    }
}

/// Worked time of events one after the other is nothing less than none, and no more than went by.
proof fn lemma_no_more_than_passed(s: Seq<Event>)
    requires
        successive(s),
    ensures
        worked(s, BREAK_TIME as int) >= 0,
        s.len() > 0 ==> worked(s, BREAK_TIME as int) <= s.last().end() - s[0].timestamp,
    decreases s.len(),
{
    if s.len() == 1 {
        assert(s[0].duration >= 0);
    } else if s.len() > 1 {
        let front = s.drop_last();
        assert(forall|i: int| 0 <= i < front.len() ==> (#[trigger] front[i]) == s[i]);
        assert(successive(front));
        lemma_no_more_than_passed(front);
        let n = s.len() - 1;
        assert(s[n].duration >= 0 && s[n - 1].end() <= s[n].timestamp);
        assert(s[n] == s.last());
    }
}

#[verifier::spinoff_prover]
#[verifier::rlimit(40)]
proof fn lemma_close_in_order(groups: Seq<Seq<Event>>)
    requires
        successive(joined(groups)),
        none_idle(groups),
    ensures
        ({
            let lost = worked(joined(groups), BREAK_TIME as int) - stitched(segments_of(groups));
            &&& 0 <= lost
            &&& lost <= 2 * groups.len() * SECOND
            &&& groups.len() > 0 ==> lost < (2 * groups.len() - 1) * SECOND
            &&& joined(groups).len() == 0 ==> lost == 0
        }),
        latest(segments_of(groups)) == last_end(joined(groups)),
    decreases groups.len(),
{
    let all = joined(groups);
    if groups.len() > 0 {
        let front = groups.drop_last();
        let g = groups.last();
        let before = joined(front);
        assert(g == groups[groups.len() - 1]);
        assert forall|i: int| 0 <= i < before.len() implies #[trigger] before[i] == all[i] by {}
        assert forall|i: int| 0 <= i < g.len() implies #[trigger] g[i] == all[before.len() + i] by {}
        assert(successive(before));
        assert(successive(g)) by {
            assert forall|i: int, j: int| 0 <= i < j < g.len() implies (#[trigger] g[i]).end() <= (
            #[trigger] g[j]).timestamp by {
                assert(all[before.len() + i].end() <= all[before.len() + j].timestamp);
            }
        }
        assert forall|i: int| 0 <= i < front.len() implies (#[trigger] front[i]).len() == 0
            || whole_worked(front[i]) > 0 by {
            assert(front[i] == groups[i]);
        }
        lemma_close_in_order(front);
        lemma_successive_sorted(g);
        lemma_chronological_sorted(g);
        lemma_no_more_than_passed(g);
        let g_worked = worked(g, BREAK_TIME as int);
        law_cut(g_worked);
        if g.len() == 0 {
            assert(all =~= before);
        } else {
            lemma_boundaries(g);
            lemma_boundaries(all);
            assert(all.last() == g.last());
            assert(g[0].wf() && g.last() == g[g.len() - 1]);
            assert(in_instant_range(g[g.len() - 1].end()));
            assert(0 < whole_worked(g) <= LONGEST_SPAN);
            let parts = segments_of(groups);
            assert(parts.drop_last() =~= segments_of(front));
            if before.len() == 0 {
                assert(all =~= g);
            } else {
                lemma_boundaries(before);
                law_concat(before, g, BREAK_TIME as int);
                assert(before.last() == before[before.len() - 1]);
                assert(before.last().end() <= g[0].timestamp);
                let gap = g[0].timestamp - before.last().end();
                law_cut(gap_fill(gap, BREAK_TIME as int));
                assert(g.last().end() >= g[0].timestamp) by {
                    if g.len() > 1 {
                        assert(g[0].end() <= g[g.len() - 1].timestamp);
                    }
                    assert(g[0].duration >= 0);
                    assert(g[g.len() - 1].duration >= 0);
                }
                assert(front.len() > 0) by {
                    if front.len() == 0 {
                        assert(before =~= Seq::<Event>::empty());
                    }
                }
            }
        }
    }
}

/// For events one after the other, with whatever fractions of a second, the parts of a day stitched
/// together give the worked time of the day as a whole but for less than a second for each part and
/// for each edge between two of them, in whatever order the events of a part come. Each part has
/// a second of worked time or no events at all.
pub proof fn law_stitched_close(groups: Seq<Seq<Event>>)
    requires
        successive(joined(each_in_order(groups))),
        none_idle(groups),
    ensures
        ({
            let whole = worked(chronological(joined(groups)), 600_000_000_000);
            let total = stitched(segments_of(groups));
            &&& total <= whole
            &&& groups.len() == 0 ==> total == whole
            &&& groups.len() > 0 ==> whole - total < (2 * groups.len() - 1) * 1_000_000_000
        }),
{
    let ordered = each_in_order(groups);
    assert forall|i: int| 0 <= i < ordered.len() implies (#[trigger] ordered[i]).len() == 0
        || whole_worked(ordered[i]) > 0 by {
        law_chronological(groups[i]);
        lemma_chronological_sorted(chronological(groups[i]));
        assert(groups[i].len() == 0 || whole_worked(groups[i]) > 0);
    }
    lemma_close_in_order(ordered);
    lemma_order_of_each(groups);
    lemma_successive_sorted(joined(ordered));
    law_chronological(joined(groups));
    assert forall|t: i128| #[trigger] starting_at(chronological(joined(groups)), t) == starting_at(
        joined(ordered),
        t,
    ) by {
        assert(starting_at(joined(ordered), t) == starting_at(joined(groups), t));
    }
    lemma_stable_unique(chronological(joined(groups)), joined(ordered));
}

/// The worked time of events one after the other, in whole seconds, has no fraction of a second.
pub proof fn lemma_whole_events(groups: Seq<Seq<Event>>)
    requires
        in_turn(joined(each_in_order(groups))),
    ensures
        whole_worked(joined(groups)) == worked(chronological(joined(groups)), BREAK_TIME as int),
{
    let ordered = each_in_order(groups);
    lemma_order_of_each(groups);
    lemma_in_turn_sorted(joined(ordered));
    law_chronological(joined(groups));
    assert forall|t: i128| #[trigger] starting_at(chronological(joined(groups)), t) == starting_at(
        joined(ordered),
        t,
    ) by {
        assert(starting_at(joined(ordered), t) == starting_at(joined(groups), t));
    }
    lemma_stable_unique(chronological(joined(groups)), joined(ordered));
    lemma_whole(joined(ordered));
}

} // verus!
