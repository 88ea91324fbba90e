//! The windows that a sync asks for, and what is kept of the answers.

use vstd::prelude::*;
use vstd::string::*;
use crate::cache::{cache_key, key_text, law_cache_key_injective, CacheEntry, QueryCache};
use crate::stitch::{
    countable, first_start, last_end, segment, segment_of, whole_worked, Segment,
};
use crate::text_map::TextMap;
use crate::time::{in_instant_range, HOUR};
use crate::windows::{is_days, is_hours, window_fits, GRACE};
use crate::working_hours::Event;

verus! {

/// How many seconds the hours of today are kept: a day.
pub const CACHE_TTL_TODAY_SECS: i64 = 86_400;

/// How many seconds past days are kept: three days.
pub const CACHE_TTL_PAST_SECS: i64 = 259_200;

/// A window to ask for, and for how many seconds the answer is kept.
#[derive(Clone, Copy, Debug, PartialEq, Eq, Structural)]
pub struct Slot {
    pub start: i128,
    pub end: i128,
    /// `None` where the answer may still change, and is not kept.
    pub ttl_secs: Option<i64>,
}

impl Slot {
    /// The key of the window.
    pub open spec fn key(self) -> Seq<char> {
        key_text(self.start as int, self.end as int)
    }

    /// Both ends are moments of the calendar.
    pub open spec fn wf(self) -> bool {
        in_instant_range(self.start as int) && in_instant_range(self.end as int)
    }
}

/// The slot of a past day: none for a day that has not begun or is in the cache; a day that ended
/// less than `GRACE` ago is asked for every time.
pub open spec fn past_slot(cache: Map<Seq<char>, CacheEntry>, w: (i128, i128), now: int) -> Option<
    Slot,
> {
    if w.0 > now {
        None
    } else if w.1 + GRACE > now {
        Some(Slot { start: w.0, end: w.1, ttl_secs: None })
    } else if !cache.contains_key(key_text(w.0 as int, w.1 as int)) {
        Some(Slot { start: w.0, end: w.1, ttl_secs: Some(CACHE_TTL_PAST_SECS) })
    } else {
        None
    }
}

/// The slots of past days.
pub open spec fn past_slots(
    cache: Map<Seq<char>, CacheEntry>,
    days: Seq<(i128, i128)>,
    now: int,
) -> Seq<Slot>
    decreases days.len(),
{
    if days.len() == 0 {
        Seq::empty()
    } else {
        let front = past_slots(cache, days.drop_last(), now);
        match past_slot(cache, days.last(), now) {
            Some(slot) => front.push(slot),
            None => front,
        }
    }
}

/// The slots of the hours of today that are not in the cache.
pub open spec fn block_slots(
    cache: Map<Seq<char>, CacheEntry>,
    blocks: Seq<(i128, i128)>,
) -> Seq<Slot>
    decreases blocks.len(),
{
    if blocks.len() == 0 {
        Seq::empty()
    } else {
        let front = block_slots(cache, blocks.drop_last());
        let b = blocks.last();
        if cache.contains_key(key_text(b.0 as int, b.1 as int)) {
            front
        } else {
            front.push(Slot { start: b.0, end: b.1, ttl_secs: Some(CACHE_TTL_TODAY_SECS) })
        }
    }
}

/// All days but the last, which is today.
pub open spec fn past_days(windows: Seq<(i128, i128)>) -> Seq<(i128, i128)> {
    if windows.len() == 0 {
        windows
    } else {
        windows.drop_last()
    }
}

/// All slots: past days, hours of today, and last the rest of today, which is never kept.
pub open spec fn query_slots(
    cache: Map<Seq<char>, CacheEntry>,
    windows: Seq<(i128, i128)>,
    blocks: Seq<(i128, i128)>,
    live: (i128, i128),
    now: int,
) -> Seq<Slot> {
    (past_slots(cache, past_days(windows), now) + block_slots(cache, blocks)).push(
        Slot { start: live.0, end: live.1, ttl_secs: None },
    )
}

/// The windows to ask for.
pub fn plan_queries(
    cache: &QueryCache,
    windows: &Vec<(i128, i128)>,
    blocks: &Vec<(i128, i128)>,
    live: (i128, i128),
    now: i128,
) -> (r: Vec<Slot>)
    requires
        cache.wf(),
        forall|k: int| 0 <= k < windows.len() ==> window_fits(#[trigger] windows@[k]),
        forall|k: int|
            0 <= k < windows.len() - 1 ==> in_instant_range((#[trigger] windows@[k]).1 + GRACE),
        forall|k: int| 0 <= k < blocks.len() ==> window_fits(#[trigger] blocks@[k]),
        window_fits(live),
    ensures
        r@ == query_slots(cache@, windows@, blocks@, live, now as int),
        forall|i: int| 0 <= i < r.len() ==> (#[trigger] r@[i]).wf(),
{
    let mut slots: Vec<Slot> = Vec::new();
    let n: usize = if windows.len() == 0 {
        0
    } else {
        windows.len() - 1
    };
    assert(past_days(windows@) =~= windows@.take(n as int));
    let mut i: usize = 0;
    while i < n
        invariant
            cache.wf(),
            i <= n <= windows.len(),
            n < windows.len() || n == 0,
            forall|k: int| 0 <= k < windows.len() ==> window_fits(#[trigger] windows@[k]),
            forall|k: int|
                0 <= k < windows.len() - 1 ==> in_instant_range((#[trigger] windows@[k]).1 + GRACE),
            slots@ == past_slots(cache@, windows@.take(i as int), now as int),
            forall|i: int| 0 <= i < slots.len() ==> (#[trigger] slots@[i]).wf(),
        decreases n - i,
    {
        assert(windows@.take(i + 1).drop_last() =~= windows@.take(i as int));
        let (start, end): (i128, i128) = windows[i];
        assert(window_fits(windows@[i as int]));
        if start <= now {
            if end + GRACE > now {
                slots.push(Slot { start, end, ttl_secs: None });
            } else {
                let key: String = cache_key(start, end);
                if cache.get(key.as_str()).is_none() {
                    slots.push(Slot { start, end, ttl_secs: Some(CACHE_TTL_PAST_SECS) });
                }
            }
        }
        i += 1;
    }
    let ghost past = slots@;
    let mut j: usize = 0;
    assert(past + block_slots(cache@, blocks@.take(0)) =~= past);
    while j < blocks.len()
        invariant
            cache.wf(),
            j <= blocks.len(),
            forall|k: int| 0 <= k < blocks.len() ==> window_fits(#[trigger] blocks@[k]),
            slots@ == past + block_slots(cache@, blocks@.take(j as int)),
            forall|i: int| 0 <= i < slots.len() ==> (#[trigger] slots@[i]).wf(),
        decreases blocks.len() - j,
    {
        assert(blocks@.take(j + 1).drop_last() =~= blocks@.take(j as int));
        let (start, end): (i128, i128) = blocks[j];
        assert(window_fits(blocks@[j as int]));
        let key: String = cache_key(start, end);
        if cache.get(key.as_str()).is_none() {
            slots.push(Slot { start, end, ttl_secs: Some(CACHE_TTL_TODAY_SECS) });
        }
        assert(slots@ =~= past + block_slots(cache@, blocks@.take(j + 1)));
        j += 1;
    }
    assert(blocks@.take(blocks@.len() as int) =~= blocks@);
    slots.push(Slot { start: live.0, end: live.1, ttl_secs: None });
    slots
}

/// The entry that is kept for the events of a window.
pub open spec fn counted(events: Seq<Event>, ttl_secs: i64, now: i128) -> CacheEntry {
    CacheEntry {
        duration: Some(whole_worked(events) as i128),
        result: None,
        cached_at: now,
        ttl_secs,
        first_event_ts: first_start(events),
        last_event_end_ts: last_end(events),
    }
}

/// The cache with the answers that are kept.
pub open spec fn stored(
    cache: Map<Seq<char>, CacheEntry>,
    slots: Seq<Slot>,
    results: Seq<Vec<Event>>,
    now: i128,
) -> Map<Seq<char>, CacheEntry>
    decreases results.len(),
{
    if results.len() == 0 {
        cache
    } else {
        let slot = slots[results.len() - 1];
        let front = stored(cache, slots, results.drop_last(), now);
        match slot.ttl_secs {
            Some(ttl) => front.insert(slot.key(), counted(results.last()@, ttl, now)),
            None => front,
        }
    }
}

/// The answers that are not kept, by the keys of their windows.
pub open spec fn unstored(slots: Seq<Slot>, results: Seq<Vec<Event>>) -> Map<Seq<char>, Vec<Event>>
    decreases results.len(),
{
    if results.len() == 0 {
        Map::empty()
    } else {
        let slot = slots[results.len() - 1];
        let front = unstored(slots, results.drop_last());
        match slot.ttl_secs {
            Some(_) => front,
            None => front.insert(slot.key(), results.last()),
        }
    }
}

/// Keeps the answers to `slots` that are to be kept, as of `now`, and hands back the others.
pub fn store_results(
    cache: &mut QueryCache,
    slots: &Vec<Slot>,
    results: Vec<Vec<Event>>,
    now: i128,
) -> (r: TextMap<Vec<Event>>)
    requires
        old(cache).wf(),
        in_instant_range(now as int),
        results.len() <= slots.len(),
        forall|i: int| 0 <= i < slots.len() ==> (#[trigger] slots@[i]).wf(),
        forall|i: int|
            0 <= i < results.len() && slots@[i].ttl_secs is Some ==> countable(
                (#[trigger] results@[i])@,
            ),
    ensures
        final(cache).wf(),
        final(cache)@ == stored(old(cache)@, slots@, results@, now),
        r.wf(),
        r@ == unstored(slots@, results@),
{
    let mut fresh: TextMap<Vec<Event>> = TextMap::new();
    let ghost all = results@;
    let ghost before = cache@;
    let mut i: usize = 0;
    assert(all.take(0) =~= Seq::empty());
    for events in it: results
        invariant
            it.seq() == all,
            i == it.index(),
            all.len() <= slots.len(),
            cache.wf(),
            fresh.wf(),
            in_instant_range(now as int),
            forall|i: int| 0 <= i < slots.len() ==> (#[trigger] slots@[i]).wf(),
            forall|i: int|
                0 <= i < all.len() && slots@[i].ttl_secs is Some ==> countable(
                    (#[trigger] all[i])@,
                ),
            cache@ == stored(before, slots@, all.take(i as int), now),
            fresh@ == unstored(slots@, all.take(i as int)),
    {
        assert(all.take(i + 1).drop_last() =~= all.take(i as int));
        assert(all.take(i + 1).last() == events);
        assert(all[i as int] == events);
        let slot: Slot = slots[i];
        assert(slot.wf());
        let key: String = cache_key(slot.start, slot.end);
        match slot.ttl_secs {
            Some(ttl) => {
                let part: Segment = segment(events.as_slice());
                cache.insert(key, part.worked, part.first, part.last, ttl, now);
            },
            None => {
                fresh.insert(key, events);
            },
        }
        i += 1;
    }
    assert(all.take(all.len() as int) =~= all);
    fresh
}

/// Each slot begins later than the ones ahead of it.
pub open spec fn ascending(slots: Seq<Slot>) -> bool {
    forall|i: int, j: int|
        0 <= i < j < slots.len() ==> (#[trigger] slots[i]).start < (#[trigger] slots[j]).start
}

proof fn lemma_past_slots(
    cache: Map<Seq<char>, CacheEntry>,
    days: Seq<(i128, i128)>,
    now: int,
    today: int,
)
    requires
        forall|i: int, j: int|
            0 <= i < j < days.len() ==> (#[trigger] days[i]).0 < (#[trigger] days[j]).0,
        forall|i: int| 0 <= i < days.len() ==> (#[trigger] days[i]).0 < today,
    ensures
        ascending(past_slots(cache, days, now)),
        forall|i: int|
            0 <= i < past_slots(cache, days, now).len() ==> (#[trigger] past_slots(
                cache,
                days,
                now,
            )[i]).start < today,
    decreases days.len(),
{
    if days.len() > 0 {
        let n = days.len() - 1;
        let front = days.drop_last();
        assert(days[n] == days.last());
        assert forall|i: int| 0 <= i < front.len() implies (#[trigger] front[i]).0
            < days.last().0 by {
            assert(days[i].0 < days[n].0);
        }
        lemma_past_slots(cache, front, now, days.last().0 as int);
        let before = past_slots(cache, front, now);
        let slots = past_slots(cache, days, now);
        assert forall|i: int, j: int| 0 <= i < j < slots.len() implies (#[trigger] slots[i]).start
            < (#[trigger] slots[j]).start by {
            assert(slots[i] == before[i]);
            if j < before.len() {
                assert(slots[j] == before[j]);
            }
        }
        assert forall|i: int| 0 <= i < slots.len() implies (#[trigger] slots[i]).start < today by {
            if i < before.len() {
                assert(slots[i] == before[i]);
            }
        }
    }
}

proof fn lemma_block_slots(
    cache: Map<Seq<char>, CacheEntry>,
    blocks: Seq<(i128, i128)>,
    day_start: int,
)
    requires
        is_hours(blocks, day_start, blocks.len() as int),
    ensures
        ascending(block_slots(cache, blocks)),
        forall|i: int|
            0 <= i < block_slots(cache, blocks).len() ==> day_start <= (#[trigger] block_slots(
                cache,
                blocks,
            )[i]).start < day_start + blocks.len() * HOUR,
    decreases blocks.len(),
{
    if blocks.len() > 0 {
        let front = blocks.drop_last();
        let n = blocks.len() - 1;
        assert(blocks[n] == blocks.last());
        assert(is_hours(front, day_start, front.len() as int)) by {
            assert forall|k: int| 0 <= k < front.len() implies (#[trigger] front[k]).0 == day_start
                + k * HOUR && front[k].1 == day_start + (k + 1) * HOUR by {
                assert(front[k] == blocks[k]);
            }
        }
        lemma_block_slots(cache, front, day_start);
        let before = block_slots(cache, front);
        let slots = block_slots(cache, blocks);
        assert forall|i: int, j: int| 0 <= i < j < slots.len() implies (#[trigger] slots[i]).start
            < (#[trigger] slots[j]).start by {
            assert(slots[i] == before[i]);
            if j < before.len() {
                assert(slots[j] == before[j]);
            }
        }
        assert forall|i: int| 0 <= i < slots.len() implies day_start <= (#[trigger] slots[i]).start
            < day_start + blocks.len() * HOUR by {
            if i < before.len() {
                assert(slots[i] == before[i]);
            }
        }
    }
}

/// No window is asked for twice: the slots of days that end in today, of its hours and of its rest
/// begin one after the other.
pub proof fn law_slots_ascending(
    cache: Map<Seq<char>, CacheEntry>,
    windows: Seq<(i128, i128)>,
    blocks: Seq<(i128, i128)>,
    live: (i128, i128),
    today: int,
    now: int,
)
    requires
        is_days(windows, today, windows.len() as int),
        is_hours(blocks, today, blocks.len() as int),
        live.0 == today + blocks.len() * HOUR,
    ensures
        ascending(query_slots(cache, windows, blocks, live, now)),
{
    let days = past_days(windows);
    assert forall|i: int| 0 <= i < days.len() implies #[trigger] days[i] == windows[i] by {}
    assert forall|i: int, j: int| 0 <= i < j < days.len() implies (#[trigger] days[i]).0 < (
    #[trigger] days[j]).0 by {
        assert(windows[i].0 < windows[j].0);
    }
    lemma_past_slots(cache, days, now, today);
    lemma_block_slots(cache, blocks, today);
    let past = past_slots(cache, days, now);
    let hours = block_slots(cache, blocks);
    let slots = query_slots(cache, windows, blocks, live, now);
    assert forall|i: int| 0 <= i < slots.len() implies #[trigger] slots[i] == if i < past.len() {
        past[i]
    } else if i < past.len() + hours.len() {
        hours[i - past.len()]
    } else {
        Slot { start: live.0, end: live.1, ttl_secs: None }
    } by {}
}

/// Slots that begin at different moments have different keys.
pub proof fn lemma_keys_differ(slots: Seq<Slot>)
    requires
        ascending(slots),
        forall|i: int| 0 <= i < slots.len() ==> (#[trigger] slots[i]).wf(),
    ensures
        forall|i: int, j: int|
            0 <= i < j < slots.len() ==> (#[trigger] slots[i]).key() != (#[trigger] slots[j]).key(),
{
    assert forall|i: int, j: int| 0 <= i < j < slots.len() implies (#[trigger] slots[i]).key() != (
    #[trigger] slots[j]).key() by {
        assert(slots[i].wf() && slots[j].wf());
        if slots[i].key() == slots[j].key() {
            law_cache_key_injective(
                slots[i].start as int,
                slots[i].end as int,
                slots[j].start as int,
                slots[j].end as int,
            );
        }
    }
}

/// Where the keys of the slots differ, each answer is found under its own key, kept ones in the
/// cache and the others beside it, and nothing else in the cache changes.
pub proof fn law_stored(
    cache: Map<Seq<char>, CacheEntry>,
    slots: Seq<Slot>,
    results: Seq<Vec<Event>>,
    now: i128,
)
    requires
        results.len() <= slots.len(),
        forall|i: int, j: int|
            0 <= i < j < slots.len() ==> (#[trigger] slots[i]).key() != (#[trigger] slots[j]).key(),
    ensures
        forall|i: int|
            0 <= i < results.len() ==> match (#[trigger] slots[i]).ttl_secs {
                Some(ttl) => {
                    &&& stored(cache, slots, results, now).contains_key(slots[i].key())
                    &&& stored(cache, slots, results, now)[slots[i].key()] == counted(
                        results[i]@,
                        ttl,
                        now,
                    )
                },
                None => {
                    &&& unstored(slots, results).contains_key(slots[i].key())
                    &&& unstored(slots, results)[slots[i].key()] == results[i]
                },
            },
        forall|k: Seq<char>|
            (forall|i: int|
                0 <= i < results.len() && (#[trigger] slots[i]).ttl_secs is Some ==> slots[i].key()
                    != k) ==> {
                &&& #[trigger] stored(cache, slots, results, now).contains_key(k)
                    == cache.contains_key(k)
                &&& stored(cache, slots, results, now)[k] == cache[k]
            },
    decreases results.len(),
{
    if results.len() > 0 {
        let front = results.drop_last();
        let n = results.len() - 1;
        law_stored(cache, slots, front, now);
        let (m, f) = (stored(cache, slots, results, now), unstored(slots, results));
        let (m0, f0) = (stored(cache, slots, front, now), unstored(slots, front));
        assert forall|i: int| 0 <= i < results.len() implies match (#[trigger] slots[i]).ttl_secs {
            Some(ttl) => m.contains_key(slots[i].key()) && m[slots[i].key()] == counted(
                results[i]@,
                ttl,
                now,
            ),
            None => f.contains_key(slots[i].key()) && f[slots[i].key()] == results[i],
        } by {
            if i < n {
                assert(front[i] == results[i]);
                assert(slots[i].key() != slots[n].key());
            }
        }
        assert forall|k: Seq<char>|
            (forall|i: int|
                0 <= i < results.len() && (#[trigger] slots[i]).ttl_secs is Some ==> slots[i].key()
                    != k) implies #[trigger] m.contains_key(k) == cache.contains_key(k) && m[k]
            == cache[k] by {
            assert(m0.contains_key(k) == cache.contains_key(k) && m0[k] == cache[k]);
            assert(slots[n].ttl_secs is Some ==> slots[n].key() != k);
        }
    }
}

/// The slot of a day is among those of its days.
pub proof fn lemma_past_slot_present(
    cache: Map<Seq<char>, CacheEntry>,
    days: Seq<(i128, i128)>,
    now: int,
    k: int,
) -> (i: int)
    requires
        0 <= k < days.len(),
        past_slot(cache, days[k], now) is Some,
    ensures
        0 <= i < past_slots(cache, days, now).len(),
        past_slots(cache, days, now)[i] == past_slot(cache, days[k], now)->0,
    decreases days.len(),
{
    if k < days.len() - 1 {
        lemma_past_slot_present(cache, days.drop_last(), now, k)
    } else {
        past_slots(cache, days.drop_last(), now).len() as int
    }
}

/// A window that is in the cache is never stored again.
pub proof fn lemma_cached_not_stored(
    cache: Map<Seq<char>, CacheEntry>,
    windows: Seq<(i128, i128)>,
    blocks: Seq<(i128, i128)>,
    live: (i128, i128),
    now: int,
)
    ensures
        forall|i: int|
            0 <= i < query_slots(cache, windows, blocks, live, now).len() && (
            #[trigger] query_slots(cache, windows, blocks, live, now)[i]).ttl_secs is Some
                ==> !cache.contains_key(query_slots(cache, windows, blocks, live, now)[i].key()),
{
    let days = past_days(windows);
    lemma_past_not_cached(cache, days, now);
    lemma_blocks_not_cached(cache, blocks);
    let past = past_slots(cache, days, now);
    let hours = block_slots(cache, blocks);
    let slots = query_slots(cache, windows, blocks, live, now);
    assert forall|i: int| 0 <= i < slots.len() && (#[trigger] slots[i]).ttl_secs is Some implies !cache.contains_key(
        slots[i].key(),
    ) by {
        if i < past.len() {
            assert(slots[i] == past[i]);
        } else {
            assert(slots[i] == hours[i - past.len()]);
        }
    }
}

proof fn lemma_past_not_cached(cache: Map<Seq<char>, CacheEntry>, days: Seq<(i128, i128)>, now: int)
    ensures
        forall|i: int|
            0 <= i < past_slots(cache, days, now).len() && (#[trigger] past_slots(
                cache,
                days,
                now,
            )[i]).ttl_secs is Some ==> !cache.contains_key(past_slots(cache, days, now)[i].key()),
    decreases days.len(),
{
    if days.len() > 0 {
        lemma_past_not_cached(cache, days.drop_last(), now);
        let before = past_slots(cache, days.drop_last(), now);
        let slots = past_slots(cache, days, now);
        assert forall|i: int| 0 <= i < slots.len() && (#[trigger] slots[i]).ttl_secs is Some implies !cache.contains_key(
            slots[i].key(),
        ) by {
            if i < before.len() {
                assert(slots[i] == before[i]);
            }
        }
    }
}

proof fn lemma_blocks_not_cached(cache: Map<Seq<char>, CacheEntry>, blocks: Seq<(i128, i128)>)
    ensures
        forall|i: int|
            0 <= i < block_slots(cache, blocks).len() ==> !cache.contains_key(
                (#[trigger] block_slots(cache, blocks)[i]).key(),
            ),
    decreases blocks.len(),
{
    if blocks.len() > 0 {
        lemma_blocks_not_cached(cache, blocks.drop_last());
        let before = block_slots(cache, blocks.drop_last());
        let slots = block_slots(cache, blocks);
        assert forall|i: int| 0 <= i < slots.len() implies !cache.contains_key(
            (#[trigger] slots[i]).key(),
        ) by {
            if i < before.len() {
                assert(slots[i] == before[i]);
            }
        }
    }
}

proof fn lemma_block_slot_present(
    cache: Map<Seq<char>, CacheEntry>,
    blocks: Seq<(i128, i128)>,
    k: int,
) -> (i: int)
    requires
        0 <= k < blocks.len(),
        !cache.contains_key(key_text(blocks[k].0 as int, blocks[k].1 as int)),
    ensures
        0 <= i < block_slots(cache, blocks).len(),
        block_slots(cache, blocks)[i] == (Slot {
            start: blocks[k].0,
            end: blocks[k].1,
            ttl_secs: Some(CACHE_TTL_TODAY_SECS),
        }),
    decreases blocks.len(),
{
    if k < blocks.len() - 1 {
        lemma_block_slot_present(cache, blocks.drop_last(), k)
    } else {
        block_slots(cache, blocks.drop_last()).len() as int
    }
}

/// Once everything that was asked for has been answered, every hour of today that is over is in the
/// cache: with the entry that was there, or with one that counts the events that were answered for
/// that hour.
pub proof fn law_hours_known(
    cache: Map<Seq<char>, CacheEntry>,
    windows: Seq<(i128, i128)>,
    blocks: Seq<(i128, i128)>,
    live: (i128, i128),
    results: Seq<Vec<Event>>,
    today: int,
    now: int,
    stored_at: i128,
    k: int,
)
    requires
        is_days(windows, today, windows.len() as int),
        is_hours(blocks, today, blocks.len() as int),
        live.0 == today + blocks.len() * HOUR,
        forall|i: int|
            0 <= i < query_slots(cache, windows, blocks, live, now).len() ==> (
            #[trigger] query_slots(cache, windows, blocks, live, now)[i]).wf(),
        results.len() == query_slots(cache, windows, blocks, live, now).len() - 1,
        0 <= k < blocks.len(),
    ensures
        ({
            let slots = query_slots(cache, windows, blocks, live, now);
            let b = blocks[k];
            let key = key_text(b.0 as int, b.1 as int);
            let after = stored(cache, slots, results, stored_at);
            &&& after.contains_key(key)
            &&& if cache.contains_key(key) {
                after[key] == cache[key]
            } else {
                exists|i: int|
                    0 <= i < results.len() && (#[trigger] slots[i]).start == b.0 && slots[i].end
                        == b.1 && after[key] == counted(
                        results[i]@,
                        CACHE_TTL_TODAY_SECS,
                        stored_at,
                    )
            }
        }),
{
    let slots = query_slots(cache, windows, blocks, live, now);
    let b = blocks[k];
    let key = key_text(b.0 as int, b.1 as int);
    law_slots_ascending(cache, windows, blocks, live, today, now);
    lemma_keys_differ(slots);
    law_stored(cache, slots, results, stored_at);
    let after = stored(cache, slots, results, stored_at);
    if cache.contains_key(key) {
        lemma_cached_not_stored(cache, windows, blocks, live, now);
        assert(after.contains_key(key) == cache.contains_key(key));
    } else {
        let i = lemma_block_slot_present(cache, blocks, k);
        let past = past_slots(cache, past_days(windows), now);
        assert(slots[past.len() + i] == block_slots(cache, blocks)[i]);
        assert(slots[past.len() + i].key() == key);
    }
}

/// The last window that is asked for is the rest of today, from its start to its end, and the answer
/// is not kept.
pub proof fn law_rest_of_today_asked(
    cache: Map<Seq<char>, CacheEntry>,
    windows: Seq<(i128, i128)>,
    blocks: Seq<(i128, i128)>,
    live: (i128, i128),
    now: int,
)
    ensures
        ({
            let slots = query_slots(cache, windows, blocks, live, now);
            &&& slots.len() > 0
            &&& slots.last().start == live.0
            &&& slots.last().end == live.1
            &&& slots.last().ttl_secs is None
        }),
{
}

/// Every window that is asked for is wanted: a past day that has begun, and is either not in the
/// cache or ended less than 30 seconds ago; an hour of today that is not in the cache; or, last of all,
/// the rest of today. Past days are kept for three days once they ended 30 seconds ago, hours for
/// a day.
pub proof fn law_slots_wanted(
    cache: Map<Seq<char>, CacheEntry>,
    windows: Seq<(i128, i128)>,
    blocks: Seq<(i128, i128)>,
    live: (i128, i128),
    now: int,
    i: int,
)
    requires
        0 <= i < query_slots(cache, windows, blocks, live, now).len() - 1,
    ensures
        ({
            let slot = query_slots(cache, windows, blocks, live, now)[i];
            let cached = cache.contains_key(key_text(slot.start as int, slot.end as int));
            ||| exists|k: int|
                0 <= k < windows.len() - 1 && (#[trigger] windows[k]) == (slot.start, slot.end)
                    && windows[k].0 <= now && if windows[k].1 + 30_000_000_000 > now {
                    slot.ttl_secs is None
                } else {
                    !cached && slot.ttl_secs == Some(259_200i64)
                }
            ||| exists|k: int|
                0 <= k < blocks.len() && (#[trigger] blocks[k]) == (slot.start, slot.end) && !cached
                    && slot.ttl_secs == Some(86_400i64)
        }),
{
    let days = past_days(windows);
    let past = past_slots(cache, days, now);
    let hours = block_slots(cache, blocks);
    let slot = query_slots(cache, windows, blocks, live, now)[i];
    if i < past.len() {
        assert(slot == past[i]);
        let k = lemma_day_of_slot(cache, days, now, i);
        assert(windows[k] == days[k]);
    } else {
        assert(slot == hours[i - past.len()]);
        let k = lemma_hour_of_slot(cache, blocks, i - past.len());
        assert(blocks[k] == (slot.start, slot.end));
    }
}

proof fn lemma_day_of_slot(
    cache: Map<Seq<char>, CacheEntry>,
    days: Seq<(i128, i128)>,
    now: int,
    i: int,
) -> (k: int)
    requires
        0 <= i < past_slots(cache, days, now).len(),
    ensures
        0 <= k < days.len(),
        past_slot(cache, days[k], now) == Some(past_slots(cache, days, now)[i]),
    decreases days.len(),
{
    let front = days.drop_last();
    if i < past_slots(cache, front, now).len() {
        lemma_day_of_slot(cache, front, now, i)
    } else {
        days.len() - 1
    }
}

proof fn lemma_hour_of_slot(
    cache: Map<Seq<char>, CacheEntry>,
    blocks: Seq<(i128, i128)>,
    i: int,
) -> (k: int)
    requires
        0 <= i < block_slots(cache, blocks).len(),
    ensures
        0 <= k < blocks.len(),
        !cache.contains_key(key_text(blocks[k].0 as int, blocks[k].1 as int)),
        block_slots(cache, blocks)[i] == (Slot {
            start: blocks[k].0,
            end: blocks[k].1,
            ttl_secs: Some(CACHE_TTL_TODAY_SECS),
        }),
    decreases blocks.len(),
{
    let front = blocks.drop_last();
    if i < block_slots(cache, front).len() {
        lemma_hour_of_slot(cache, front, i)
    } else {
        blocks.len() - 1
    }
}

/// Every past day that has begun is asked for, unless it is in the cache and ended at least 30 seconds
/// ago.
pub proof fn law_past_days_asked(
    cache: Map<Seq<char>, CacheEntry>,
    windows: Seq<(i128, i128)>,
    blocks: Seq<(i128, i128)>,
    live: (i128, i128),
    now: int,
    k: int,
)
    requires
        0 <= k < windows.len() - 1,
        windows[k].0 <= now,
        windows[k].1 + 30_000_000_000 > now || !cache.contains_key(
            key_text(windows[k].0 as int, windows[k].1 as int),
        ),
    ensures
        ({
            let slots = query_slots(cache, windows, blocks, live, now);
            exists|i: int|
                0 <= i < slots.len() - 1 && (#[trigger] slots[i]).start == windows[k].0
                    && slots[i].end == windows[k].1
        }),
{
    let days = past_days(windows);
    let slots = query_slots(cache, windows, blocks, live, now);
    assert(days[k] == windows[k]);
    let i = lemma_past_slot_present(cache, days, now, k);
    assert(slots[i] == past_slots(cache, days, now)[i]);
}

/// The windows that are asked for, together with the hours in the cache, cover today up to now: every
/// moment of it lies in one of them, where the hours that are over follow each other from the start of
/// the day and the rest begins where they end.
pub proof fn law_today_covered(
    cache: Map<Seq<char>, CacheEntry>,
    windows: Seq<(i128, i128)>,
    blocks: Seq<(i128, i128)>,
    live: (i128, i128),
    today: int,
    now: int,
    t: int,
)
    requires
        blocks.len() == 0 ==> live.0 == today,
        blocks.len() > 0 ==> blocks[0].0 == today && blocks.last().1 == live.0,
        forall|i: int, j: int|
            0 <= i && j == i + 1 && j < blocks.len() ==> (#[trigger] blocks[i]).1 == (
            #[trigger] blocks[j]).0,
        live.1 == now,
        today <= t < now,
    ensures
        ({
            let slots = query_slots(cache, windows, blocks, live, now);
            ||| exists|i: int|
                0 <= i < slots.len() && (#[trigger] slots[i]).start <= t < slots[i].end
            ||| exists|k: int|
                0 <= k < blocks.len() && (#[trigger] blocks[k]).0 <= t < blocks[k].1
                    && cache.contains_key(key_text(blocks[k].0 as int, blocks[k].1 as int))
        }),
{
    let slots = query_slots(cache, windows, blocks, live, now);
    if t >= live.0 {
        let n = slots.len() - 1;
        assert(slots[n].start <= t < slots[n].end);
    } else {
        let k = lemma_hour_of(blocks, t, blocks.len() - 1);
        if !cache.contains_key(key_text(blocks[k].0 as int, blocks[k].1 as int)) {
            let past = past_slots(cache, past_days(windows), now);
            let i = lemma_block_slot_present(cache, blocks, k);
            assert(slots[past.len() + i] == block_slots(cache, blocks)[i]);
        }
    }
}

proof fn lemma_hour_of(blocks: Seq<(i128, i128)>, t: int, n: int) -> (k: int)
    requires
        0 <= n < blocks.len(),
        blocks[0].0 <= t < blocks[n].1,
        forall|i: int, j: int|
            0 <= i && j == i + 1 && j < blocks.len() ==> (#[trigger] blocks[i]).1 == (
            #[trigger] blocks[j]).0,
    ensures
        0 <= k < blocks.len(),
        blocks[k].0 <= t < blocks[k].1,
    decreases n,
{
    if blocks[n].0 <= t {
        n
    } else {
        assert(blocks[n - 1].1 == blocks[n].0);
        lemma_hour_of(blocks, t, n - 1)
    }
}

/// What is kept of the events of a window is what a part of a day has of them, as of the moment and for
/// as long as is asked.
pub proof fn law_counted(events: Seq<Event>, ttl_secs: i64, now: i128)
    ensures
        ({
            let entry = counted(events, ttl_secs, now);
            &&& entry.duration == Some(segment_of(events).worked)
            &&& entry.first_event_ts == segment_of(events).first
            &&& entry.last_event_end_ts == segment_of(events).last
            &&& entry.result is None
            &&& entry.cached_at == now
            &&& entry.ttl_secs == ttl_secs
        }),
{
}

/// Every hour of today that is over is asked for, unless it is in the cache, and the answer is kept for
/// a day.
pub proof fn law_hours_asked(
    cache: Map<Seq<char>, CacheEntry>,
    windows: Seq<(i128, i128)>,
    blocks: Seq<(i128, i128)>,
    live: (i128, i128),
    now: int,
    k: int,
)
    requires
        0 <= k < blocks.len(),
        !cache.contains_key(key_text(blocks[k].0 as int, blocks[k].1 as int)),
    ensures
        ({
            let slots = query_slots(cache, windows, blocks, live, now);
            exists|i: int|
                0 <= i < slots.len() - 1 && (#[trigger] slots[i]).start == blocks[k].0
                    && slots[i].end == blocks[k].1 && slots[i].ttl_secs == Some(86_400i64)
        }),
{
    let slots = query_slots(cache, windows, blocks, live, now);
    let past = past_slots(cache, past_days(windows), now);
    let i = lemma_block_slot_present(cache, blocks, k);
    assert(slots[past.len() + i] == block_slots(cache, blocks)[i]);
}

/// What one more answer, to the slot of its number, does: one that is kept takes the place of what the
/// cache has at its key, one that is not is handed back under it, and nothing else changes.
pub proof fn law_next_answer(
    cache: Map<Seq<char>, CacheEntry>,
    slots: Seq<Slot>,
    results: Seq<Vec<Event>>,
    answer: Vec<Event>,
    now: i128,
)
    requires
        results.len() < slots.len(),
    ensures
        results.len() == 0 ==> stored(cache, slots, results, now) == cache && unstored(slots, results)
            == Map::<Seq<char>, Vec<Event>>::empty(),
        ({
            let slot = slots[results.len() as int];
            let key = key_text(slot.start as int, slot.end as int);
            let (kept, given) = (stored(cache, slots, results, now), unstored(slots, results));
            let more = results.push(answer);
            match slot.ttl_secs {
                Some(ttl) => stored(cache, slots, more, now) == kept.insert(
                    key,
                    counted(answer@, ttl, now),
                ) && unstored(slots, more) == given,
                None => stored(cache, slots, more, now) == kept && unstored(slots, more)
                    == given.insert(key, answer),
            }
        }),
{
    assert(results.push(answer).drop_last() =~= results);
}

} // verus!
