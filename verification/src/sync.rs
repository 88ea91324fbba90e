//! One sync of a worksheet, from what is asked for to the rows that change.

use vstd::prelude::*;
use vstd::string::*;
use crate::cache::{CacheEntry, QueryCache};
use crate::calendar::{cell_date, Date};
use crate::provider::SheetWrite;
use crate::queries::{plan_queries, query_slots, store_results, stored, unstored, Slot};
use crate::rows::{changes_view, plan_changes, planned};
use crate::stitch::{countable, BREAK_TIME};
use crate::text_map::TextMap;
use crate::time::{in_instant_range, is_instant, DAY, FIRST_INSTANT, HOUR, LAST_INSTANT};
use crate::totals::{day_times, time_of_day};
use crate::windows::{
    block_count, day_windows, is_days, is_hours, today_time_blocks, window_count, window_fits,
    DAYS_BACK_ON_NEW, GRACE,
};
use crate::working_hours::{approx_fits, Event};

verus! {

/// What a sync looks at.
#[derive(Debug)]
pub struct SyncPlan {
    /// The moment of the sync.
    pub now: i128,
    /// Days, the last of them today.
    pub windows: Vec<(i128, i128)>,
    /// The hours of today that are over.
    pub blocks: Vec<(i128, i128)>,
    /// The rest of today.
    pub live: (i128, i128),
    /// The windows to ask for, the last of them the rest of today.
    pub slots: Vec<Slot>,
}

impl SyncPlan {
    /// Every moment is one that the calendar holds.
    pub open spec fn wf(self) -> bool {
        &&& forall|k: int| 0 <= k < self.windows.len() ==> window_fits(#[trigger] self.windows@[k])
        &&& forall|k: int| 0 <= k < self.blocks.len() ==> window_fits(#[trigger] self.blocks@[k])
        &&& forall|k: int| 0 <= k < self.slots.len() ==> (#[trigger] self.slots@[k]).wf()
        &&& self.blocks.len() < 0x100_0000_0000
    }
}

/// The calendar holds everything that a sync at `now` looks at, on a day that began at `today`.
pub open spec fn clock_fits(today: int, now: int) -> bool {
    &&& in_instant_range(now)
    &&& in_instant_range(today - (DAYS_BACK_ON_NEW - 1) * DAY)
    &&& in_instant_range(today + DAY)
    &&& in_instant_range(today + (block_count(now, today) + 1) * HOUR + GRACE)
}

/// Whether a sync at `now` can be planned.
pub fn clock_is_usable(today: i128, now: i128) -> (r: bool)
    ensures
        r == clock_fits(today as int, now as int),
{
    if !is_instant(now) || !is_instant(today) || !is_instant(
        today - (DAYS_BACK_ON_NEW - 1) * DAY,
    ) || !is_instant(today + DAY) {
        return false;
    }
    let hours: i128 = if now - today < HOUR + GRACE {
        0
    } else {
        (now - today - GRACE) / HOUR
    };
    is_instant(today + (hours + 1) * HOUR + GRACE)
}

/// The start of the day of the last entry.
pub open spec fn start_of(last_start: Option<i128>) -> Option<int> {
    match last_start {
        Some(t) => Some(t as int),
        None => None,
    }
}

/// What to look at, and what of it to ask for: `today` is when the local day began, `last_start`
/// when that of the last entry did.
pub fn plan_sync(cache: &QueryCache, today: i128, now: i128, last_start: Option<i128>) -> (r: SyncPlan)
    requires
        cache.wf(),
        clock_fits(today as int, now as int),
        last_start matches Some(last) ==> in_instant_range(last as int),
    ensures
        r.wf(),
        r.now == now,
        is_days(r.windows@, today as int, window_count(today as int, start_of(last_start))),
        is_hours(r.blocks@, today as int, block_count(now as int, today as int)),
        r.live.0 == today + block_count(now as int, today as int) * HOUR,
        r.live.1 == now,
        r.slots@ == query_slots(cache@, r.windows@, r.blocks@, r.live, now as int),
{
    let windows: Vec<(i128, i128)> = day_windows(today, last_start);
    let (blocks, live): (Vec<(i128, i128)>, (i128, i128)) = today_time_blocks(now, today);
    let slots: Vec<Slot> = plan_queries(cache, &windows, &blocks, live, now);
    SyncPlan { now, windows, blocks, live, slots }
}

/// Whether the answers to a plan, all but the last in `results` and the last in `live`, can be
/// counted, and are no more than were asked for.
pub fn answers_fit(plan: &SyncPlan, results: &Vec<Vec<Event>>, live: &[Event]) -> (r: bool)
    ensures
        r == (results.len() <= plan.slots.len() && countable(live@) && forall|i: int|
            0 <= i < results.len() ==> countable((#[trigger] results@[i])@)),
{
    if results.len() > plan.slots.len() || !approx_fits(live, BREAK_TIME) {
        return false;
    }
    let mut i: usize = 0;
    while i < results.len()
        invariant
            i <= results.len(),
            forall|k: int| 0 <= k < i ==> countable((#[trigger] results@[k])@),
        decreases results.len() - i,
    {
        if !approx_fits(results[i].as_slice(), BREAK_TIME) {
            assert(!countable(results@[i as int]@));
            return false;
        }
        i += 1;
    }
    true
}

proof fn lemma_unstored_countable(slots: Seq<Slot>, results: Seq<Vec<Event>>)
    requires
        forall|i: int| 0 <= i < results.len() ==> countable((#[trigger] results[i])@),
    ensures
        forall|k: Seq<char>| #[trigger]
            unstored(slots, results).contains_key(k) ==> countable(unstored(slots, results)[k]@),
    decreases results.len(),
{
    if results.len() > 0 {
        let front = results.drop_last();
        assert forall|i: int| 0 <= i < front.len() implies countable((#[trigger] front[i])@) by {
            assert(front[i] == results[i]);
        }
        lemma_unstored_countable(slots, front);
        let n = results.len() - 1;
        assert(countable(results[n]@));
        let (before, after) = (unstored(slots, front), unstored(slots, results));
        assert forall|k: Seq<char>| #[trigger] after.contains_key(k) implies countable(after[k]@) by {
            if slots[n].ttl_secs is Some || k != slots[n].key() {
                assert(before.contains_key(k));
            }
        }
    }
}

/// Keeps the answers that are to be kept, as of `stored_at`, and hands back the others.
pub fn keep_answers(
    cache: &mut QueryCache,
    plan: &SyncPlan,
    results: Vec<Vec<Event>>,
    stored_at: i128,
) -> (r: TextMap<Vec<Event>>)
    requires
        old(cache).wf(),
        plan.wf(),
        in_instant_range(stored_at as int),
        results.len() <= plan.slots.len(),
        forall|i: int| 0 <= i < results.len() ==> countable((#[trigger] results@[i])@),
    ensures
        final(cache).wf(),
        final(cache)@ == stored(old(cache)@, plan.slots@, results@, stored_at),
        r.wf(),
        r@ == unstored(plan.slots@, results@),
        forall|k: Seq<char>| #[trigger] r@.contains_key(k) ==> countable(r@[k]@),
{
    proof {
        lemma_unstored_countable(plan.slots@, results@);
    }
    store_results(cache, &plan.slots, results, stored_at)
}

/// The worked time of the days of a plan, in nanoseconds.
pub open spec fn totals(
    cache: Map<Seq<char>, CacheEntry>,
    fresh: Map<Seq<char>, Vec<Event>>,
    plan: SyncPlan,
    live: Seq<Event>,
    dates: Seq<Date>,
    today: Date,
) -> Seq<i128> {
    Seq::new(
        plan.windows@.len(),
        |k: int|
            time_of_day(
                cache,
                fresh,
                plan.blocks@,
                live,
                plan.windows@[k],
                dates[k] == today,
                plan.now as int,
            ) as i128,
    )
}

/// The changes to a worksheet whose last entry, for `last`, stands in row `end`; `dates` are the
/// local dates on which the days of the plan begin. The text of each new date reads as that date.
pub fn finish_sync(
    cache: &QueryCache,
    fresh: &TextMap<Vec<Event>>,
    plan: &SyncPlan,
    live: &[Event],
    dates: &Vec<Date>,
    today: Date,
    end: usize,
    last: Option<Date>,
) -> (r: Vec<SheetWrite>)
    requires
        cache.wf(),
        fresh.wf(),
        plan.wf(),
        countable(live@),
        forall|k: Seq<char>| #[trigger] fresh@.contains_key(k) ==> countable(fresh@[k]@),
        plan.windows.len() == dates.len(),
        forall|k: int| 0 <= k < dates.len() ==> (#[trigger] dates@[k]).wf(),
        end + plan.windows.len() <= usize::MAX,
    ensures
        changes_view(r@) == planned(
            plan.windows@,
            dates@,
            totals(cache@, fresh@, *plan, live@, dates@, today),
            plan.now as int,
            end as int,
            last,
        ),
        forall|i: int|
            0 <= i < r.len() ==> ((#[trigger] r@[i]).date matches Some(text) ==> (cell_date(
                text@,
            ) matches Some(date) && date.wf() && date.text() == text@)),
{
    let times: Vec<i128> = day_times(
        cache,
        fresh,
        &plan.blocks,
        live,
        &plan.windows,
        dates,
        today,
        plan.now,
    );
    assert(times@ =~= totals(cache@, fresh@, *plan, live@, dates@, today));
    plan_changes(&plan.windows, dates, &times, plan.now, end, last)
}

/// The totals of a plan are those of its days, one for each.
pub proof fn law_totals(
    cache: Map<Seq<char>, CacheEntry>,
    fresh: Map<Seq<char>, Vec<Event>>,
    plan: SyncPlan,
    live: Seq<Event>,
    dates: Seq<Date>,
    today: Date,
    k: int,
)
    requires
        0 <= k < plan.windows@.len(),
        i128::MIN <= time_of_day(
            cache,
            fresh,
            plan.blocks@,
            live,
            plan.windows@[k],
            dates[k] == today,
            plan.now as int,
        ) <= i128::MAX,
    ensures
        totals(cache, fresh, plan, live, dates, today).len() == plan.windows@.len(),
        totals(cache, fresh, plan, live, dates, today)[k] == time_of_day(
            cache,
            fresh,
            plan.blocks@,
            live,
            plan.windows@[k],
            dates[k] == today,
            plan.now as int,
        ),
{
}

/// A sync can be planned on any day that the calendar holds thirty days back and a day on, at any moment
/// since that day began that is not among the last two hours of the calendar.
pub proof fn law_ordinary_clock(today: int, now: int)
    requires
        FIRST_INSTANT + 29 * 86_400_000_000_000 <= today <= now,
        today + 86_400_000_000_000 <= LAST_INSTANT,
        now + 7_200_000_000_000 <= LAST_INSTANT,
    ensures
        clock_fits(today, now),
{
    let n = block_count(now, today);
    assert(n * HOUR <= now - today);
}

} // verus!
