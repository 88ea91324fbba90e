use aw_work_sync::cache::{cache_key, QueryCache};
use aw_work_sync::calendar::Date;
use aw_work_sync::excel_local::{new_workbook, worksheet_rows, write_dates};
use aw_work_sync::queries::{
    plan_queries, store_results, Slot, CACHE_TTL_PAST_SECS, CACHE_TTL_TODAY_SECS,
};
use aw_work_sync::rows::{last_date, last_row, plan_changes};
use aw_work_sync::sync::{answers_fit, clock_is_usable, finish_sync, keep_answers, plan_sync};
use aw_work_sync::time::{DAY, FIRST_INSTANT, HOUR, LAST_INSTANT, SECOND};
use aw_work_sync::totals::{day_times, today_time};
use aw_work_sync::windows::{day_windows, today_time_blocks, GRACE};
use aw_work_sync::working_hours::Event;

fn event(start: i128, length: i128) -> Event {
    Event { timestamp: start, duration: length * SECOND }
}

fn rows(list: &[&[&str]]) -> Vec<Vec<String>> {
    list.iter().map(|row| row.iter().map(|c| c.to_string()).collect()).collect()
}

fn empty_cache() -> QueryCache {
    QueryCache::load(vec![], 0).0
}

const TODAY: i128 = 100 * DAY;

fn dates(n: u32) -> Vec<Date> {
    (1..=n).map(|day| Date { year: 2024, month: 1, day }).collect()
}

#[test]
fn rows_without_a_first_cell_are_no_entries() {
    let all = rows(&[&["date", "h"], &[], &["", "1"], &[" \t", "2"], &["2024-01-05", "3"], &["\u{3000}"]]);
    assert_eq!(last_row(&all), 5);
    assert_eq!(last_date(&all), Some(Date { year: 2024, month: 1, day: 5 }));
    assert_eq!((last_row(&rows(&[&["date"]])), last_date(&rows(&[&["date"]]))), (1, None));
    let with_blank = rows(&[&["2024-01-05"], &[]]);
    assert_eq!(last_row(&with_blank), 1);
    assert_eq!(last_date(&with_blank), Some(Date { year: 2024, month: 1, day: 5 }));
    let blank = rows(&[&[""], &[" "]]);
    assert_eq!((last_row(&blank), last_date(&blank)), (0, None));
    assert_eq!((last_row(&vec![]), last_date(&vec![])), (0, None));
}

#[test]
fn a_row_is_updated_where_it_stands() {
    let all = rows(&[&["2024-03-02", "2"], &["", ""], &["2024-03-03", "1"], &[" "]]);
    let days = vec![Date { year: 2024, month: 3, day: 3 }, Date { year: 2024, month: 3, day: 4 }];
    let windows = vec![(0, DAY), (DAY, 2 * DAY)];
    let changes =
        plan_changes(&windows, &days, &vec![0, 0], 2 * DAY, last_row(&all), last_date(&all));
    let seen: Vec<(usize, Option<&str>)> =
        changes.iter().map(|c| (c.row, c.date.as_deref())).collect();
    assert_eq!(seen, vec![(3, None), (4, Some("2024-03-04"))]);
}

#[test]
fn days_reach_back_to_the_last_entry() {
    let none = day_windows(TODAY, None);
    assert_eq!(none.len(), 30);
    assert_eq!(none[29], (TODAY, TODAY + DAY));
    assert_eq!(none[0], (TODAY - 29 * DAY, TODAY - 28 * DAY));
    assert_eq!(day_windows(TODAY, Some(TODAY)).len(), 30);
    assert_eq!(day_windows(TODAY, Some(TODAY + 5 * DAY)).len(), 30);
    assert_eq!(day_windows(TODAY, Some(TODAY - 29 * DAY)).len(), 30);
    let far = day_windows(TODAY, Some(TODAY - 40 * DAY));
    assert_eq!(far.len(), 41);
    assert_eq!(far[0].0, TODAY - 40 * DAY);
    assert_eq!(day_windows(TODAY, Some(TODAY - 40 * DAY + 1)).len(), 40);
}

#[test]
fn hours_of_today() {
    let (blocks, live) = today_time_blocks(TODAY + HOUR + GRACE - 1, TODAY);
    assert!(blocks.is_empty());
    assert_eq!(live, (TODAY, TODAY + HOUR + GRACE - 1));
    let (blocks, live) = today_time_blocks(TODAY + HOUR + GRACE, TODAY);
    assert_eq!(blocks, vec![(TODAY, TODAY + HOUR)]);
    assert_eq!(live, (TODAY + HOUR, TODAY + HOUR + GRACE));
    let now = TODAY + 5 * HOUR + 10 * SECOND;
    let (blocks, live) = today_time_blocks(now, TODAY);
    assert_eq!(blocks.len(), 4);
    assert_eq!(blocks[3], (TODAY + 3 * HOUR, TODAY + 4 * HOUR));
    assert_eq!(live, (TODAY + 4 * HOUR, now));
    let (blocks, live) = today_time_blocks(TODAY - HOUR, TODAY);
    assert!(blocks.is_empty());
    assert_eq!(live, (TODAY, TODAY - HOUR));
}

#[test]
fn only_what_is_not_known_is_asked_for() {
    let windows = vec![
        (TODAY - 2 * DAY, TODAY - DAY),
        (TODAY - DAY, TODAY),
        (TODAY, TODAY + DAY),
    ];
    let now = TODAY + 2 * HOUR + 10 * SECOND;
    let (blocks, live) = today_time_blocks(now, TODAY);
    let mut cache = empty_cache();
    let slots = plan_queries(&cache, &windows, &blocks, live, now);
    let slot = |start: i128, end: i128, ttl_secs: Option<i64>| Slot { start, end, ttl_secs };
    assert_eq!(
        slots,
        vec![
            slot(TODAY - 2 * DAY, TODAY - DAY, Some(CACHE_TTL_PAST_SECS)),
            slot(TODAY - DAY, TODAY, Some(CACHE_TTL_PAST_SECS)),
            slot(TODAY, TODAY + HOUR, Some(CACHE_TTL_TODAY_SECS)),
            slot(TODAY + HOUR, now, None),
        ]
    );
    assert_eq!((CACHE_TTL_PAST_SECS, CACHE_TTL_TODAY_SECS), (259_200, 86_400));
    cache.insert(cache_key(TODAY - DAY, TODAY), 1, None, None, 9, 0);
    cache.insert(cache_key(TODAY, TODAY + HOUR), 1, None, None, 9, 0);
    let slots = plan_queries(&cache, &windows, &blocks, live, now);
    assert_eq!(slots.len(), 2);
    let early = TODAY + 10 * SECOND;
    let (blocks, live) = today_time_blocks(early, TODAY);
    let slots = plan_queries(&cache, &windows, &blocks, live, early);
    assert_eq!(slots[1], slot(TODAY - DAY, TODAY, None));
    let before = TODAY - DAY - HOUR;
    let (blocks, live) = today_time_blocks(before, TODAY);
    let slots = plan_queries(&cache, &windows, &blocks, live, before);
    assert_eq!(slots, vec![slot(TODAY - 2 * DAY, TODAY - DAY, None), slot(TODAY, before, None)]);
}

#[test]
fn answers_are_kept_or_handed_back() {
    let slots = vec![
        Slot { start: 0, end: DAY, ttl_secs: Some(5) },
        Slot { start: DAY, end: 2 * DAY, ttl_secs: None },
        Slot { start: 2 * DAY, end: 3 * DAY, ttl_secs: None },
    ];
    let results = vec![vec![event(10, 60), event(10 + 120 * SECOND, 1)], vec![event(DAY, 7)]];
    let mut cache = empty_cache();
    let fresh = store_results(&mut cache, &slots, results, 77);
    let e = cache.get(&cache_key(0, DAY)).unwrap();
    assert_eq!((e.duration, e.ttl_secs, e.cached_at), (Some(121 * SECOND), 5, 77));
    assert_eq!(e.first_event_ts, Some(10));
    assert_eq!(e.last_event_end_ts, Some(10 + 121 * SECOND));
    assert!(cache.get(&cache_key(DAY, 2 * DAY)).is_none());
    assert_eq!(fresh.len(), 1);
    assert_eq!(fresh.get(&cache_key(DAY, 2 * DAY)), Some(&vec![event(DAY, 7)]));
}

#[test]
fn today_is_stitched_over_its_hours() {
    let blocks = vec![(0, HOUR), (HOUR, 2 * HOUR), (2 * HOUR, 3 * HOUR)];
    let slots: Vec<Slot> =
        blocks.iter().map(|b| Slot { start: b.0, end: b.1, ttl_secs: Some(9) }).collect();
    let a = vec![event(HOUR - 100 * SECOND, 90)];
    let b = vec![event(HOUR + 20 * SECOND, 10), event(2 * HOUR - 5 * SECOND, 5)];
    let live = vec![event(3 * HOUR + 60 * SECOND, 30)];
    let mut cache = empty_cache();
    let fresh = store_results(&mut cache, &slots, vec![a, b, vec![]], 0);
    assert_eq!(fresh.len(), 0);
    assert_eq!(today_time(&cache, &blocks, &live), (90 + 30 + 15 + 30) * SECOND);
    assert_eq!(today_time(&cache, &vec![], &[]), 0);
}

#[test]
fn each_day_gets_its_time() {
    let windows = day_windows(TODAY, None);
    let now = TODAY + HOUR + GRACE;
    let (blocks, live_window) = today_time_blocks(now, TODAY);
    let days: Vec<Date> = dates(30);
    let today = days[29];
    let mut cache = empty_cache();
    cache.insert(cache_key(windows[3].0, windows[3].1), 333, None, None, 9, 0);
    let slots = plan_queries(&cache, &windows, &blocks, live_window, now);
    assert_eq!(slots.len(), 28 + 1 + 1);
    let results: Vec<Vec<Event>> =
        slots[..slots.len() - 1].iter().map(|s| vec![event(s.start, 5)]).collect();
    let live = vec![event(live_window.0 + SECOND, 2)];
    let fresh = store_results(&mut cache, &slots, results, now);
    let times = day_times(&cache, &fresh, &blocks, &live, &windows, &days, today, now);
    let mut expected = vec![5 * SECOND; 30];
    expected[3] = 333;
    expected[29] = (5 + 2) * SECOND;
    assert_eq!(times, expected);
}

#[test]
fn days_in_the_grace_period_are_counted_from_the_answer() {
    let windows = vec![(0, DAY), (DAY, 2 * DAY)];
    let now = DAY + 10 * SECOND;
    let (blocks, live_window) = today_time_blocks(now, DAY);
    let mut cache = empty_cache();
    let slots = plan_queries(&cache, &windows, &blocks, live_window, now);
    assert_eq!(slots[0].ttl_secs, None);
    let fresh = store_results(&mut cache, &slots, vec![vec![event(0, 44)]], now);
    let days = dates(2);
    let times = day_times(&cache, &fresh, &blocks, &[], &windows, &days, days[1], now);
    assert_eq!(times, vec![44 * SECOND, 0]);
    let times = day_times(&cache, &fresh, &blocks, &[], &windows, &days, days[1], -1);
    assert_eq!(times, vec![0, 0]);
}

#[test]
fn rows_are_updated_and_appended() {
    let windows: Vec<(i128, i128)> = (0..4).map(|k| (k * DAY, (k + 1) * DAY)).collect();
    let days = dates(4);
    let times = vec![1, 2, 3, 4];
    let seen = |last: Option<Date>, now: i128| -> Vec<(usize, Option<String>, i128)> {
        plan_changes(&windows, &days, &times, now, 10, last)
            .into_iter()
            .map(|c| (c.row, c.date, c.worked))
            .collect()
    };
    let text = |s: &str| Some(s.to_string());
    assert_eq!(
        seen(Some(days[1]), 4 * DAY),
        vec![(10, None, 2), (11, text("2024-01-03"), 3), (12, text("2024-01-04"), 4)]
    );
    assert_eq!(
        seen(None, 2 * DAY),
        vec![(11, text("2024-01-01"), 1), (12, text("2024-01-02"), 2), (13, text("2024-01-03"), 3)]
    );
    assert_eq!(seen(Some(days[3]), 4 * DAY), vec![(10, None, 4)]);
    assert_eq!(seen(Some(Date { year: 2025, month: 1, day: 1 }), 4 * DAY), vec![]);
    assert_eq!(seen(None, -1), vec![]);
}

#[test]
fn a_second_sync_finds_what_the_first_wrote() {
    let windows = day_windows(TODAY, None);
    let days = dates(30);
    let times = vec![60; 30];
    let mut book = new_workbook("w");
    let first = plan_changes(&windows, &days, &times, TODAY, 0, None);
    assert_eq!(first.len(), 30);
    write_dates(&mut book, "w", &first);
    let found = worksheet_rows(Some(&book), "w");
    assert_eq!(found.len(), 30);
    assert_eq!(last_date(&found), Some(days[29]));
    let second = plan_changes(&windows, &days, &times, TODAY, last_row(&found), last_date(&found));
    assert_eq!(second.len(), 1);
    assert_eq!((second[0].row, second[0].date.clone()), (30, None));
}

#[test]
fn a_whole_sync() {
    let now = TODAY + HOUR + GRACE;
    let days = dates(30);
    let mut cache = empty_cache();
    let plan = plan_sync(&cache, TODAY, now, Some(TODAY - DAY));
    assert_eq!(plan.windows, day_windows(TODAY, None));
    assert_eq!(plan.blocks, vec![(TODAY, TODAY + HOUR)]);
    assert_eq!(plan.live, (TODAY + HOUR, now));
    assert_eq!(plan.slots.len(), 29 + 1 + 1);
    let results: Vec<Vec<Event>> =
        plan.slots[..30].iter().map(|s| vec![event(s.start, 60)]).collect();
    let live = vec![event(TODAY + HOUR + SECOND, 10)];
    assert!(answers_fit(&plan, &results, &live));
    let fresh = keep_answers(&mut cache, &plan, results, now);
    let changes =
        finish_sync(&cache, &fresh, &plan, &live, &days, days[29], 7, Some(days[28]));
    let seen: Vec<(usize, Option<&str>, i128)> =
        changes.iter().map(|c| (c.row, c.date.as_deref(), c.worked)).collect();
    assert_eq!(seen, vec![(7, None, 60 * SECOND), (8, Some("2024-01-30"), 70 * SECOND)]);
    let again = plan_sync(&cache, TODAY, now, Some(TODAY));
    assert_eq!(again.slots.len(), 1);
}

#[test]
fn what_a_sync_cannot_take() {
    assert!(clock_is_usable(0, 0));
    assert!(!clock_is_usable(0, LAST_INSTANT + 1));
    assert!(!clock_is_usable(LAST_INSTANT, 0));
    assert!(!clock_is_usable(FIRST_INSTANT, 0));
    assert!(!clock_is_usable(0, LAST_INSTANT));
    assert!(clock_is_usable(0, LAST_INSTANT - 2 * HOUR));
    let plan = plan_sync(&empty_cache(), TODAY, TODAY, None);
    let too_many: Vec<Vec<Event>> = vec![vec![]; plan.slots.len() + 1];
    assert!(!answers_fit(&plan, &too_many, &[]));
    let beyond = vec![Event { timestamp: LAST_INSTANT, duration: 1 }];
    assert!(!answers_fit(&plan, &vec![beyond.clone()], &[]));
    assert!(!answers_fit(&plan, &vec![], &beyond));
    assert!(answers_fit(&plan, &vec![], &[]));
}
