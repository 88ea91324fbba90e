//! The windows of time that are asked for: days, and the hours of today.

use vstd::prelude::*;
use crate::time::{in_instant_range, law_whole_days, whole_days, DAY, HOUR, LAST_INSTANT};

verus! {

/// The local hour at which a day begins.
pub const DAY_START_HOUR: u32 = 4;

/// How many days are looked at in any case.
pub const DAYS_BACK_ON_NEW: i128 = 30;

/// How long after its end a window may still get events: 30 seconds, three times the interval at
/// which the clients send theirs.
pub const GRACE: i128 = 30_000_000_000;

/// How many days are looked at: from the day of the last entry, which began at `last_start`, to
/// today, and no fewer than `DAYS_BACK_ON_NEW`.
pub open spec fn window_count(today: int, last_start: Option<int>) -> int {
    match last_start {
        Some(last) => if whole_days(today - last) + 1 > DAYS_BACK_ON_NEW {
            whole_days(today - last) + 1
        } else {
            DAYS_BACK_ON_NEW as int
        },
        None => DAYS_BACK_ON_NEW as int,
    }
}

/// The 24 hours that begin `i` days before `today`.
pub open spec fn day_before(today: int, i: int) -> (int, int) {
    (today - i * DAY, today + (1 - i) * DAY)
}

/// `n` days in order, the last of them today.
pub open spec fn is_days(windows: Seq<(i128, i128)>, today: int, n: int) -> bool {
    &&& windows.len() == n
    &&& forall|k: int|
        0 <= k < n ==> {
            &&& (#[trigger] windows[k]).0 == day_before(today, n - 1 - k).0
            &&& windows[k].1 == day_before(today, n - 1 - k).1
        }
}

/// Both ends are moments of the calendar.
pub open spec fn window_fits(w: (i128, i128)) -> bool {
    in_instant_range(w.0 as int) && in_instant_range(w.1 as int)
}

/// The days from the one of the last entry to today, oldest first.
pub fn day_windows(today: i128, last_start: Option<i128>) -> (r: Vec<(i128, i128)>)
    requires
        in_instant_range(today - (DAYS_BACK_ON_NEW - 1) * DAY),
        in_instant_range(today + DAY),
        last_start matches Some(last) ==> in_instant_range(last as int),
    ensures
        is_days(
            r@,
            today as int,
            window_count(
                today as int,
                match last_start {
                    Some(last) => Some(last as int),
                    None => None,
                },
            ),
        ),
        forall|k: int| 0 <= k < r.len() ==> window_fits(#[trigger] r@[k]),
{
    let mut n: i128 = DAYS_BACK_ON_NEW;
    if let Some(last) = last_start {
        if today > last {
            let days: i128 = (today - last) / DAY;
            if days + 1 > n {
                n = days + 1;
            }
        }
    }
    let mut r: Vec<(i128, i128)> = Vec::new();
    let mut i: i128 = n;
    while i > 0
        invariant
            0 <= i <= n,
            r.len() == n - i,
            n <= 1_000_000_000,
            in_instant_range(today - (n - 1) * DAY),
            in_instant_range(today + DAY),
            forall|k: int|
                0 <= k < r.len() ==> {
                    &&& (#[trigger] r@[k]).0 == day_before(today as int, n - 1 - k).0
                    &&& r@[k].1 == day_before(today as int, n - 1 - k).1
                },
            forall|k: int| 0 <= k < r.len() ==> window_fits(#[trigger] r@[k]),
        decreases i,
    {
        i -= 1;
        r.push((today - i * DAY, today + (1 - i) * DAY));
    }
    r
}

/// Each day begins where the one before it ended, the last one begins at `today`, and no more than
/// a day of what came after the last entry began is left out.
pub proof fn law_days_cover(windows: Seq<(i128, i128)>, today: int, last_start: Option<int>)
    requires
        is_days(windows, today, window_count(today, last_start)),
    ensures
        windows.len() >= DAYS_BACK_ON_NEW,
        forall|i: int, j: int|
            0 <= i && j == i + 1 && j < windows.len() ==> (#[trigger] windows[i]).1 == (
            #[trigger] windows[j]).0,
        forall|i: int|
            0 <= i < windows.len() ==> (#[trigger] windows[i]).1 - windows[i].0 == DAY,
        windows.last().0 == today,
        last_start matches Some(last) ==> windows[0].0 < last + DAY,
{
}

/// How many hours of today, which began at `day_start`, have been over at `now` for long enough.
pub open spec fn block_count(now: int, day_start: int) -> int {
    if now - day_start < HOUR + GRACE {
        0
    } else {
        (now - day_start - GRACE) / HOUR as int
    }
}

/// The first `n` hours from `day_start`.
pub open spec fn is_hours(blocks: Seq<(i128, i128)>, day_start: int, n: int) -> bool {
    &&& blocks.len() == n
    &&& forall|k: int|
        0 <= k < n ==> {
            &&& (#[trigger] blocks[k]).0 == day_start + k * HOUR
            &&& blocks[k].1 == day_start + (k + 1) * HOUR
        }
}

/// Today as hours that are over, and the rest up to `now`. An hour counts as over once it ended
/// `GRACE` ago.
pub fn today_time_blocks(now: i128, day_start: i128) -> (r: (Vec<(i128, i128)>, (i128, i128)))
    requires
        in_instant_range(now as int),
        in_instant_range(day_start as int),
        in_instant_range(
            day_start + (block_count(now as int, day_start as int) + 1) * HOUR + GRACE,
        ),
    ensures
        is_hours(r.0@, day_start as int, block_count(now as int, day_start as int)),
        forall|k: int| 0 <= k < r.0.len() ==> window_fits(#[trigger] r.0@[k]),
        (r.1).0 == day_start + block_count(now as int, day_start as int) * HOUR,
        (r.1).1 == now,
        window_fits(r.1),
{
    let mut blocks: Vec<(i128, i128)> = Vec::new();
    let mut h: i128 = day_start;
    while h + HOUR + GRACE <= now
        invariant
            in_instant_range(now as int),
            in_instant_range(day_start as int),
            day_start <= h <= LAST_INSTANT,
            h == day_start + blocks.len() * HOUR,
            blocks.len() <= block_count(now as int, day_start as int),
            blocks.len() > 0 ==> h + GRACE <= now,
            is_hours(blocks@, day_start as int, blocks@.len() as int),
            forall|k: int| 0 <= k < blocks.len() ==> window_fits(#[trigger] blocks@[k]),
        decreases now - h,
    {
        blocks.push((h, h + HOUR));
        h += HOUR;
    }
    (blocks, (h, now))
}

/// The hours follow each other without a gap from the start of the day, each has been over for
/// `GRACE`, and what is left of today begins where they end: nothing is looked at twice. The rest
/// is shorter than an hour and `GRACE`.
pub proof fn law_blocks_cover(
    blocks: Seq<(i128, i128)>,
    live: (i128, i128),
    now: int,
    day_start: int,
)
    requires
        is_hours(blocks, day_start, block_count(now, day_start)),
        live.0 == day_start + block_count(now, day_start) * HOUR,
        live.1 == now,
    ensures
        blocks.len() > 0 ==> blocks[0].0 == day_start,
        blocks.len() == 0 ==> live.0 == day_start,
        forall|i: int, j: int|
            0 <= i && j == i + 1 && j < blocks.len() ==> (#[trigger] blocks[i]).1 == (
            #[trigger] blocks[j]).0,
        blocks.len() > 0 ==> blocks.last().1 == live.0,
        forall|i: int| 0 <= i < blocks.len() ==> (#[trigger] blocks[i]).1 + GRACE <= now,
        live.1 - live.0 < HOUR + GRACE,
{
    let n = block_count(now, day_start);
    assert forall|i: int| 0 <= i < blocks.len() implies (#[trigger] blocks[i]).1 + GRACE <= now by {
        assert(blocks[i].1 == day_start + (i + 1) * HOUR);
        assert((i + 1) * HOUR <= n * HOUR) by (nonlinear_arith)
            requires
                i + 1 <= n,
        ;
    }
}

/// No day is looked at in vain: there are thirty, or as many as it takes to begin less than 24 hours
/// behind the start of the day of the last entry, and no more. Each is 24 hours long, and today is the
/// last of them.
pub proof fn law_days_no_more(windows: Seq<(i128, i128)>, today: int, last_start: Option<int>)
    requires
        is_days(windows, today, window_count(today, last_start)),
    ensures
        windows.len() >= 30,
        last_start is None ==> windows.len() == 30,
        last_start matches Some(last) ==> windows[0].0 < last + 86_400_000_000_000 && (windows.len()
            > 30 ==> last <= windows[0].0),
        forall|i: int|
            0 <= i < windows.len() ==> (#[trigger] windows[i]).1 - windows[i].0
                == 86_400_000_000_000,
        forall|i: int, j: int|
            0 <= i && j == i + 1 && j < windows.len() ==> (#[trigger] windows[i]).1 == (
            #[trigger] windows[j]).0,
        windows.last().0 == today,
{
    law_days_cover(windows, today, last_start);
    if let Some(last) = last_start {
        law_whole_days(today - last);
        law_whole_days(last - today);
        assert(windows[0].0 == day_before(today, windows.len() - 1).0);
    }
}

/// The hours of today that count as over are each an hour long, follow each other from the start of
/// the day, and ended at least 30 seconds ago; the next one has not.
pub proof fn law_hours_no_less(
    blocks: Seq<(i128, i128)>,
    live: (i128, i128),
    now: int,
    day_start: int,
)
    requires
        is_hours(blocks, day_start, block_count(now, day_start)),
        live.0 == day_start + block_count(now, day_start) * HOUR,
        live.1 == now,
    ensures
        forall|i: int|
            0 <= i < blocks.len() ==> (#[trigger] blocks[i]).1 - blocks[i].0 == 3_600_000_000_000
                && blocks[i].1 + 30_000_000_000 <= now,
        forall|i: int, j: int|
            0 <= i && j == i + 1 && j < blocks.len() ==> (#[trigger] blocks[i]).1 == (
            #[trigger] blocks[j]).0,
        blocks.len() > 0 ==> blocks[0].0 == day_start && blocks.last().1 == live.0,
        blocks.len() == 0 ==> live.0 == day_start,
        live.0 + 3_600_000_000_000 + 30_000_000_000 > now,
{
    law_blocks_cover(blocks, live, now, day_start);
}

/// A day begins at four in the morning, local time.
pub proof fn law_day_start()
    ensures
        DAY_START_HOUR == 4,
{
}

} // verus!
