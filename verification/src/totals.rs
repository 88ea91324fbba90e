//! The worked time of each day, out of the cache and of what was just answered.

use vstd::prelude::*;
use vstd::string::*;
use crate::cache::{cache_key, key_text, settled, CacheEntry, QueryCache};
use crate::calendar::Date;
use crate::queries::{
    counted, law_hours_known, law_slots_ascending, law_stored, lemma_cached_not_stored,
    lemma_keys_differ, lemma_past_slot_present, past_days, past_slots, query_slots, stored, unstored,
    CACHE_TTL_TODAY_SECS,
};
use crate::stitch::{
    countable, each_in_order, first_start, in_turn, joined, last_end, law_stitched, law_stitched_close,
    lemma_whole_events, none_idle, segment, segment_of, segments_of, stitch, stitched, successive,
    whole_worked, Segment,
};
use crate::text_map::TextMap;
use crate::time::{in_span_range, HOUR};
use crate::windows::{is_days, is_hours, window_fits};
use crate::working_hours::{chronological, worked, Event};

verus! {

/// The worked time that an entry says, or none.
pub open spec fn entry_time(entry: CacheEntry) -> int {
    match entry.duration {
        Some(worked) => worked as int,
        None => 0,
    }
}

/// The worked time of a past day: what the cache says, or else what was just answered.
pub open spec fn past_time(
    cache: Map<Seq<char>, CacheEntry>,
    fresh: Map<Seq<char>, Vec<Event>>,
    w: (i128, i128),
) -> int {
    let key = key_text(w.0 as int, w.1 as int);
    if cache.contains_key(key) {
        entry_time(cache[key])
    } else if fresh.contains_key(key) {
        whole_worked(fresh[key]@)
    } else {
        0
    }
}

/// The hours of today in which there was work.
pub open spec fn block_parts(
    cache: Map<Seq<char>, CacheEntry>,
    blocks: Seq<(i128, i128)>,
) -> Seq<Segment>
    decreases blocks.len(),
{
    if blocks.len() == 0 {
        Seq::empty()
    } else {
        let front = block_parts(cache, blocks.drop_last());
        let key = key_text(blocks.last().0 as int, blocks.last().1 as int);
        let entry = cache[key];
        if cache.contains_key(key) && entry_time(entry) > 0 {
            front.push(
                Segment {
                    worked: entry_time(entry) as i128,
                    first: entry.first_event_ts,
                    last: entry.last_event_end_ts,
                },
            )
        } else {
            front
        }
    }
}

/// The parts of today in which there was work: the hours that are over, and the rest.
pub open spec fn today_parts(
    cache: Map<Seq<char>, CacheEntry>,
    blocks: Seq<(i128, i128)>,
    live: Seq<Event>,
) -> Seq<Segment> {
    let parts = block_parts(cache, blocks);
    if whole_worked(live) > 0 {
        parts.push(segment_of(live))
    } else {
        parts
    }
}

/// The worked time of today so far, in nanoseconds.
pub fn today_time(
    cache: &QueryCache,
    blocks: &Vec<(i128, i128)>,
    live: &[Event],
) -> (r: i128)
    requires
        cache.wf(),
        blocks.len() < 0x100_0000_0000,
        forall|k: int| 0 <= k < blocks.len() ==> window_fits(#[trigger] blocks@[k]),
        countable(live@),
    ensures
        r == stitched(today_parts(cache@, blocks@, live@)),
{
    let mut parts: Vec<Segment> = Vec::new();
    let mut i: usize = 0;
    proof {
        cache.lemma_wf();
    }
    while i < blocks.len()
        invariant
            cache.wf(),
            settled(cache@),
            i <= blocks.len(),
            forall|k: int| 0 <= k < blocks.len() ==> window_fits(#[trigger] blocks@[k]),
            parts@ == block_parts(cache@, blocks@.take(i as int)),
            parts.len() <= i,
            forall|k: int| 0 <= k < parts.len() ==> (#[trigger] parts@[k]).wf(),
        decreases blocks.len() - i,
    {
        assert(blocks@.take(i + 1).drop_last() =~= blocks@.take(i as int));
        let (start, end): (i128, i128) = blocks[i];
        assert(window_fits(blocks@[i as int]));
        let key: String = cache_key(start, end);
        if let Some(entry) = cache.get(key.as_str()) {
            assert(entry.wf());
            if let Some(worked) = entry.duration {
                if worked > 0 {
                    parts.push(
                        Segment {
                            worked,
                            first: entry.first_event_ts,
                            last: entry.last_event_end_ts,
                        },
                    );
                }
            }
        }
        i += 1;
    }
    assert(blocks@.take(blocks@.len() as int) =~= blocks@);
    let part: Segment = segment(live);
    if part.worked > 0 {
        parts.push(part);
    }
    stitch(&parts)
}

/// The worked time of the day `w`, in nanoseconds: that of today is put together of its parts, that of
/// a past day is known as a whole. A day that has not begun has none.
pub open spec fn time_of_day(
    cache: Map<Seq<char>, CacheEntry>,
    fresh: Map<Seq<char>, Vec<Event>>,
    blocks: Seq<(i128, i128)>,
    live: Seq<Event>,
    w: (i128, i128),
    is_today: bool,
    now: int,
) -> int {
    if w.0 > now {
        0
    } else if is_today {
        stitched(today_parts(cache, blocks, live))
    } else {
        past_time(cache, fresh, w)
    }
}

/// The worked time of each day, in nanoseconds; `dates` are the local dates on which the days begin.
pub fn day_times(
    cache: &QueryCache,
    fresh: &TextMap<Vec<Event>>,
    blocks: &Vec<(i128, i128)>,
    live: &[Event],
    windows: &Vec<(i128, i128)>,
    dates: &Vec<Date>,
    today: Date,
    now: i128,
) -> (r: Vec<i128>)
    requires
        cache.wf(),
        fresh.wf(),
        blocks.len() < 0x100_0000_0000,
        windows.len() == dates.len(),
        forall|k: int| 0 <= k < blocks.len() ==> window_fits(#[trigger] blocks@[k]),
        forall|k: int| 0 <= k < windows.len() ==> window_fits(#[trigger] windows@[k]),
        forall|k: int|
            0 <= k < windows.len() && windows@[k].0 <= now && #[trigger] dates@[k] == today
                ==> countable(live@),
        forall|k: int|
            0 <= k < windows.len() && windows@[k].0 <= now && #[trigger] dates@[k] != today ==> {
                let key = key_text(windows@[k].0 as int, windows@[k].1 as int);
                !cache@.contains_key(key) && fresh@.contains_key(key) ==> countable(fresh@[key]@)
            },
    ensures
        r.len() == windows.len(),
        forall|k: int|
            0 <= k < r.len() ==> #[trigger] r@[k] == time_of_day(
                cache@,
                fresh@,
                blocks@,
                live@,
                windows@[k],
                dates@[k] == today,
                now as int,
            ),
{
    let mut r: Vec<i128> = Vec::new();
    let mut i: usize = 0;
    while i < windows.len()
        invariant
            cache.wf(),
            fresh.wf(),
            blocks.len() < 0x100_0000_0000,
            windows.len() == dates.len(),
            forall|k: int| 0 <= k < blocks.len() ==> window_fits(#[trigger] blocks@[k]),
            forall|k: int| 0 <= k < windows.len() ==> window_fits(#[trigger] windows@[k]),
            forall|k: int|
                0 <= k < windows.len() && windows@[k].0 <= now && #[trigger] dates@[k] == today
                    ==> countable(live@),
            forall|k: int|
                0 <= k < windows.len() && windows@[k].0 <= now && #[trigger] dates@[k] != today
                    ==> {
                    let key = key_text(windows@[k].0 as int, windows@[k].1 as int);
                    !cache@.contains_key(key) && fresh@.contains_key(key) ==> countable(
                        fresh@[key]@,
                    )
                },
            i <= windows.len(),
            r.len() == i,
            forall|k: int|
                0 <= k < i ==> #[trigger] r@[k] == time_of_day(
                    cache@,
                    fresh@,
                    blocks@,
                    live@,
                    windows@[k],
                    dates@[k] == today,
                    now as int,
                ),
        decreases windows.len() - i,
    {
        let (start, end): (i128, i128) = windows[i];
        assert(window_fits(windows@[i as int]));
        let date: Date = dates[i];
        let worked: i128 = if start > now {
            0
        } else if date == today {
            today_time(cache, blocks, live)
        } else {
            let key: String = cache_key(start, end);
            match cache.get(key.as_str()) {
                Some(entry) => match entry.duration {
                    Some(worked) => worked,
                    None => 0,
                },
                None => match fresh.get(key.as_str()) {
                    Some(events) => segment(events.as_slice()).worked,
                    None => 0,
                },
            }
        };
        r.push(worked);
        i += 1;
    }
    r
}

proof fn lemma_countable_range(events: Seq<Event>)
    requires
        countable(events),
    ensures
        in_span_range(whole_worked(events)),
{
}

/// Once everything that was asked for has been answered, every past day that has begun counts as
/// worked what the cache said of it or, if it said nothing, the worked time of the events that were
/// answered for that day.
pub proof fn law_past_days_known(
    cache: Map<Seq<char>, CacheEntry>,
    windows: Seq<(i128, i128)>,
    blocks: Seq<(i128, i128)>,
    live: (i128, i128),
    results: Seq<Vec<Event>>,
    today: int,
    now: int,
    stored_at: i128,
    k: int,
)
    requires
        is_days(windows, today, windows.len() as int),
        is_hours(blocks, today, blocks.len() as int),
        live.0 == today + blocks.len() * HOUR,
        forall|i: int|
            0 <= i < query_slots(cache, windows, blocks, live, now).len() ==> (
            #[trigger] query_slots(cache, windows, blocks, live, now)[i]).wf(),
        results.len() == query_slots(cache, windows, blocks, live, now).len() - 1,
        forall|i: int| 0 <= i < results.len() ==> countable((#[trigger] results[i])@),
        0 <= k < windows.len() - 1,
        windows[k].0 <= now,
    ensures
        ({
            let slots = query_slots(cache, windows, blocks, live, now);
            let w = windows[k];
            let worked = past_time(
                stored(cache, slots, results, stored_at),
                unstored(slots, results),
                w,
            );
            let key = key_text(w.0 as int, w.1 as int);
            if cache.contains_key(key) {
                worked == entry_time(cache[key]) && (match cache[key].duration {
                    Some(known) => worked == known,
                    None => worked == 0,
                })
            } else {
                exists|i: int|
                    0 <= i < results.len() && (#[trigger] slots[i]).start == w.0 && slots[i].end
                        == w.1 && worked == whole_worked(results[i]@) && worked == segment_of(
                        results[i]@,
                    ).worked
            }
        }),
{
    let slots = query_slots(cache, windows, blocks, live, now);
    let days = past_days(windows);
    let w = windows[k];
    let key = key_text(w.0 as int, w.1 as int);
    assert(days[k] == w);
    law_slots_ascending(cache, windows, blocks, live, today, now);
    lemma_keys_differ(slots);
    law_stored(cache, slots, results, stored_at);
    let after = stored(cache, slots, results, stored_at);
    if cache.contains_key(key) {
        lemma_cached_not_stored(cache, windows, blocks, live, now);
        assert(after.contains_key(key) == cache.contains_key(key));
    } else {
        let i = lemma_past_slot_present(cache, days, now, k);
        let past = past_slots(cache, days, now);
        assert(slots[i] == past[i]);
        assert(countable(results[i]@));
        lemma_countable_range(results[i]@);
        assert(slots[i].key() == key);
        if slots[i].ttl_secs is None {
            assert forall|j: int|
                0 <= j < results.len() && (#[trigger] slots[j]).ttl_secs is Some implies slots[j].key()
                != key by {
                assert(slots[i].ttl_secs is None);
                if j < i {
                    assert(slots[j].key() != slots[i].key());
                } else {
                    assert(slots[i].key() != slots[j].key());
                }
            }
            assert(after.contains_key(key) == cache.contains_key(key));
        }
    }
}

/// What `counted` says of events, whenever and for however long it is kept.
pub open spec fn says(entry: CacheEntry, events: Seq<Event>) -> bool {
    entry.duration == Some(whole_worked(events) as i128) && entry.first_event_ts == first_start(
        events,
    ) && entry.last_event_end_ts == last_end(events)
}

proof fn lemma_block_parts(
    cache: Map<Seq<char>, CacheEntry>,
    blocks: Seq<(i128, i128)>,
    groups: Seq<Seq<Event>>,
)
    requires
        groups.len() == blocks.len(),
        forall|k: int| 0 <= k < groups.len() ==> countable(#[trigger] groups[k]),
        forall|k: int|
            0 <= k < blocks.len() ==> {
                let key = key_text((#[trigger] blocks[k]).0 as int, blocks[k].1 as int);
                cache.contains_key(key) && says(cache[key], groups[k])
            },
    ensures
        block_parts(cache, blocks) == segments_of(groups),
    decreases blocks.len(),
{
    if blocks.len() > 0 {
        let n = blocks.len() - 1;
        let (b, g) = (blocks.drop_last(), groups.drop_last());
        assert forall|k: int| 0 <= k < g.len() implies countable(#[trigger] g[k]) by {
            assert(g[k] == groups[k]);
        }
        assert forall|k: int| 0 <= k < b.len() implies {
            let key = key_text((#[trigger] b[k]).0 as int, b[k].1 as int);
            cache.contains_key(key) && says(cache[key], g[k])
        } by {
            assert(b[k] == blocks[k] && g[k] == groups[k]);
        }
        lemma_block_parts(cache, b, g);
        assert(blocks[n] == blocks.last() && groups[n] == groups.last());
        lemma_countable_range(groups[n]);
    }
}

/// When the cache counts the events of every hour of today that is over, and the events of today
/// come one after the other, in whole seconds, the worked time of today is that of all its events
/// taken together: cutting the day into hours loses nothing. Each hour, and the rest, has some worked
/// time or no events at all.
pub proof fn law_today_whole(
    cache: Map<Seq<char>, CacheEntry>,
    blocks: Seq<(i128, i128)>,
    groups: Seq<Seq<Event>>,
    live: Seq<Event>,
)
    requires
        groups.len() == blocks.len(),
        forall|k: int| 0 <= k < groups.len() ==> countable(#[trigger] groups[k]),
        forall|k: int|
            0 <= k < blocks.len() ==> {
                let key = key_text((#[trigger] blocks[k]).0 as int, blocks[k].1 as int);
                cache.contains_key(key) && says(cache[key], groups[k])
            },
        in_turn(joined(each_in_order(groups.push(live)))),
        none_idle(groups.push(live)),
    ensures
        stitched(today_parts(cache, blocks, live)) == whole_worked(joined(groups.push(live))),
{
    lemma_block_parts(cache, blocks, groups);
    law_stitched(groups.push(live));
    assert(groups.push(live).drop_last() =~= groups);
}

/// When the cache counts the events of every hour of today that is over, and the events of today come
/// one after the other, with whatever fractions of a second, the worked time of today is that of all
/// its events taken together but for less than a second for each hour, for the rest, and for each edge
/// between them. Each of them has a second of worked time or no events at all.
pub proof fn law_today_close(
    cache: Map<Seq<char>, CacheEntry>,
    blocks: Seq<(i128, i128)>,
    groups: Seq<Seq<Event>>,
    live: Seq<Event>,
)
    requires
        groups.len() == blocks.len(),
        forall|k: int| 0 <= k < groups.len() ==> countable(#[trigger] groups[k]),
        forall|k: int|
            0 <= k < blocks.len() ==> {
                let key = key_text((#[trigger] blocks[k]).0 as int, blocks[k].1 as int);
                cache.contains_key(key) && says(cache[key], groups[k])
            },
        successive(joined(each_in_order(groups.push(live)))),
        none_idle(groups.push(live)),
    ensures
        ({
            let whole = worked(chronological(joined(groups.push(live))), 600_000_000_000);
            let total = stitched(today_parts(cache, blocks, live));
            total <= whole && whole - total < (2 * blocks.len() + 1) * 1_000_000_000
        }),
{
    lemma_block_parts(cache, blocks, groups);
    law_stitched_close(groups.push(live));
    assert(groups.push(live).drop_last() =~= groups);
}

/// A sync with nothing of today in the cache: once all that was asked for has been answered, what it
/// writes for today is the worked time of all the events that were answered for the hours of today,
/// `groups`, and for the rest of it, `rest`, but for less than a second for each of them and for each edge
/// between them; and nothing less where they are whole seconds.
pub proof fn law_today_answered(
    cache: Map<Seq<char>, CacheEntry>,
    windows: Seq<(i128, i128)>,
    blocks: Seq<(i128, i128)>,
    live: (i128, i128),
    results: Seq<Vec<Event>>,
    groups: Seq<Seq<Event>>,
    rest: Seq<Event>,
    today: int,
    now: int,
    stored_at: i128,
)
    requires
        windows.len() > 0,
        is_days(windows, today, windows.len() as int),
        is_hours(blocks, today, blocks.len() as int),
        live.0 == today + blocks.len() * HOUR,
        today <= now,
        forall|i: int|
            0 <= i < query_slots(cache, windows, blocks, live, now).len() ==> (
            #[trigger] query_slots(cache, windows, blocks, live, now)[i]).wf(),
        results.len() == query_slots(cache, windows, blocks, live, now).len() - 1,
        forall|k: int|
            0 <= k < blocks.len() ==> !cache.contains_key(
                key_text((#[trigger] blocks[k]).0 as int, blocks[k].1 as int),
            ),
        groups.len() == blocks.len(),
        forall|k: int| 0 <= k < groups.len() ==> countable(#[trigger] groups[k]),
        forall|k: int, i: int|
            0 <= k < blocks.len() && 0 <= i < results.len() && query_slots(
                cache,
                windows,
                blocks,
                live,
                now,
            )[i].start == (#[trigger] blocks[k]).0 ==> (#[trigger] results[i])@ == groups[k],
        successive(joined(each_in_order(groups.push(rest)))),
        none_idle(groups.push(rest)),
    ensures
        ({
            let slots = query_slots(cache, windows, blocks, live, now);
            let total = time_of_day(
                stored(cache, slots, results, stored_at),
                unstored(slots, results),
                blocks,
                rest,
                windows.last(),
                true,
                now,
            );
            let whole = worked(chronological(joined(groups.push(rest))), 600_000_000_000);
            &&& total <= whole
            &&& whole - total < (2 * blocks.len() + 1) * 1_000_000_000
            &&& in_turn(joined(each_in_order(groups.push(rest)))) ==> total == whole
        }),
{
    let slots = query_slots(cache, windows, blocks, live, now);
    let after = stored(cache, slots, results, stored_at);
    assert forall|k: int| 0 <= k < blocks.len() implies {
        let key = key_text((#[trigger] blocks[k]).0 as int, blocks[k].1 as int);
        after.contains_key(key) && says(after[key], groups[k])
    } by {
        law_hours_known(cache, windows, blocks, live, results, today, now, stored_at, k);
        let key = key_text(blocks[k].0 as int, blocks[k].1 as int);
        let i = choose|i: int|
            0 <= i < results.len() && (#[trigger] slots[i]).start == blocks[k].0 && slots[i].end
                == blocks[k].1 && after[key] == counted(
                results[i]@,
                CACHE_TTL_TODAY_SECS,
                stored_at,
            );
        assert(results[i]@ == groups[k]);
    }
    law_today_close(after, blocks, groups, rest);
    let n = windows.len() - 1;
    assert(windows[n] == windows.last());
    if in_turn(joined(each_in_order(groups.push(rest)))) {
        law_today_whole(after, blocks, groups, rest);
        lemma_whole_events(groups.push(rest));
    }
}

/// A day that has not begun has no worked time; one that has, has that of today or that of a past day.
pub proof fn law_time_of_day(
    cache: Map<Seq<char>, CacheEntry>,
    fresh: Map<Seq<char>, Vec<Event>>,
    blocks: Seq<(i128, i128)>,
    live: Seq<Event>,
    w: (i128, i128),
    now: int,
)
    ensures
        w.0 > now ==> time_of_day(cache, fresh, blocks, live, w, true, now) == 0 && time_of_day(
            cache,
            fresh,
            blocks,
            live,
            w,
            false,
            now,
        ) == 0,
        w.0 <= now ==> time_of_day(cache, fresh, blocks, live, w, true, now) == stitched(
            today_parts(cache, blocks, live),
        ) && time_of_day(cache, fresh, blocks, live, w, false, now) == past_time(cache, fresh, w),
{
}

/// What one more hour of today adds to its parts: an hour that the cache knows to have worked time adds
/// that, with the first start and the last end as far as they are known; any other adds nothing. The
/// rest of today adds what its events have.
pub proof fn law_next_hour(
    cache: Map<Seq<char>, CacheEntry>,
    blocks: Seq<(i128, i128)>,
    b: (i128, i128),
    live: Seq<Event>,
)
    ensures
        ({
            let key = key_text(b.0 as int, b.1 as int);
            let parts = block_parts(cache, blocks);
            &&& blocks.len() == 0 ==> parts.len() == 0
            &&& block_parts(cache, blocks.push(b)) == (match cache[key].duration {
                Some(known) => if cache.contains_key(key) && known > 0 {
                    parts.push(
                        Segment {
                            worked: known,
                            first: cache[key].first_event_ts,
                            last: cache[key].last_event_end_ts,
                        },
                    )
                } else {
                    parts
                },
                None => parts,
            })
            &&& whole_worked(live) > 0 ==> today_parts(cache, blocks, live) == parts.push(
                segment_of(live),
            )
            &&& whole_worked(live) <= 0 ==> today_parts(cache, blocks, live) == parts
        }),
{
    assert(blocks.push(b).drop_last() =~= blocks);
}

/// The worked time of a past day: what the cache says of it, if it says anything, also if that is
/// nothing; or else that of the events that were answered, if any were.
pub proof fn law_past_time(
    cache: Map<Seq<char>, CacheEntry>,
    fresh: Map<Seq<char>, Vec<Event>>,
    w: (i128, i128),
)
    ensures
        ({
            let key = key_text(w.0 as int, w.1 as int);
            &&& cache.contains_key(key) && cache[key].duration is Some ==> past_time(cache, fresh, w)
                == cache[key].duration->0
            &&& cache.contains_key(key) && cache[key].duration is None ==> past_time(cache, fresh, w)
                == 0
            &&& !cache.contains_key(key) && fresh.contains_key(key) && countable(fresh[key]@)
                ==> past_time(cache, fresh, w) == segment_of(fresh[key]@).worked
            &&& !cache.contains_key(key) && !fresh.contains_key(key) ==> past_time(cache, fresh, w)
                == 0
        }),
{
    let key = key_text(w.0 as int, w.1 as int);
    if countable(fresh[key]@) {
        lemma_countable_range(fresh[key]@);
    }
}

} // verus!
