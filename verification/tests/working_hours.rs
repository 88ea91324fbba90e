use aw_work_sync::stitch::{segment, stitch, Segment};
use aw_work_sync::time::{is_instant, is_span, num_seconds, LAST_INSTANT, LONGEST_SPAN, SECOND};
use aw_work_sync::working_hours::{approx_fits, event_boundaries, generous_approx, Event};

const BREAK: i128 = 600 * SECOND;

fn event(start: i128, length: i128) -> Event {
    Event { timestamp: start * SECOND, duration: length * SECOND }
}

fn worked(events: &[Event], max_break: i128) -> i128 {
    assert!(approx_fits(events, max_break));
    generous_approx(events, max_break)
}

#[test]
fn nothing_is_no_work() {
    assert_eq!(worked(&[], BREAK), 0);
    assert_eq!(event_boundaries(&[]), None);
}

#[test]
fn short_pauses_count_and_breaks_do_not() {
    let events = [event(0, 60), event(120, 60), event(780, 60)];
    assert_eq!(worked(&events, BREAK), 240 * SECOND);
    assert_eq!(worked(&[event(0, 60), event(659, 1)], BREAK), 660 * SECOND);
    assert_eq!(worked(&[event(0, 60), event(660, 1)], BREAK), 61 * SECOND);
}

#[test]
fn the_order_of_events_does_not_matter() {
    let events = [event(780, 60), event(0, 60), event(120, 60)];
    assert_eq!(worked(&events, BREAK), 240 * SECOND);
    assert_eq!(event_boundaries(&events), Some((0, 840 * SECOND)));
}

#[test]
fn events_that_start_together_keep_their_order() {
    let long_first = [event(0, 100), event(0, 10), event(50, 1)];
    let short_first = [event(0, 10), event(0, 100), event(50, 1)];
    assert_eq!(worked(&long_first, BREAK), (100 + 10 + 40 + 1) * SECOND);
    assert_eq!(worked(&short_first, BREAK), (10 + 100 + 1) * SECOND);
}

#[test]
fn overlapping_events_add_up() {
    assert_eq!(worked(&[event(0, 100), event(50, 100)], BREAK), 200 * SECOND);
    assert_eq!(event_boundaries(&[event(0, 500), event(50, 100)]), Some((0, 500 * SECOND)));
}

#[test]
fn a_longer_break_counts_no_less() {
    let events = [event(0, 1), event(10, 1), event(100, 1), event(1000, 1)];
    assert_eq!(worked(&events, 0), 4 * SECOND);
    assert_eq!(worked(&events, 10 * SECOND), 13 * SECOND);
    assert_eq!(worked(&events, 2000 * SECOND), 1001 * SECOND);
}

#[test]
fn a_run_without_breaks_counts_from_start_to_end() {
    let events = [event(5, 10), event(15, 5), event(30, 70)];
    assert_eq!(worked(&events, BREAK), 95 * SECOND);
}

#[test]
fn two_runs_and_the_pause_between_them() {
    let (a, b) = ([event(0, 60), event(70, 10)], [event(100, 5), event(2000, 5)]);
    let all = [a[0], a[1], b[0], b[1]];
    assert_eq!(worked(&all, BREAK), worked(&a, BREAK) + 20 * SECOND + worked(&b, BREAK));
}

#[test]
fn what_cannot_be_held_is_told() {
    assert!(!approx_fits(&[Event { timestamp: LAST_INSTANT, duration: 1 }], BREAK));
    assert!(!approx_fits(&[Event { timestamp: LAST_INSTANT + 1, duration: 0 }], BREAK));
    assert!(!approx_fits(&[Event { timestamp: 0, duration: LONGEST_SPAN + 1 }], BREAK));
    assert!(approx_fits(&[Event { timestamp: LAST_INSTANT, duration: 0 }], BREAK));
    assert!(is_instant(0) && !is_instant(LAST_INSTANT + 1));
    assert!(is_span(-LONGEST_SPAN) && !is_span(LONGEST_SPAN + 1));
}

#[test]
fn whole_seconds_drop_the_fraction() {
    assert_eq!(num_seconds(1_999_999_999), 1);
    assert_eq!(num_seconds(-1_999_999_999), -1);
    assert_eq!(num_seconds(-1), 0);
}

#[test]
fn parts_of_a_day_are_stitched() {
    let (a, b, c) = (
        [event(0, 60), event(3500, 95)],
        [event(3605, 10)],
        [event(7300, 50), event(7200, 40)],
    );
    let parts = vec![segment(&a), segment(&b), segment(&c)];
    let all = [a[0], a[1], b[0], c[0], c[1]];
    assert_eq!(stitch(&parts), worked(&all, BREAK));
    assert_eq!(stitch(&parts), (60 + 95 + 10 + 10 + 40 + 60 + 50) * SECOND);
    assert_eq!(stitch(&vec![]), 0);
}

#[test]
fn parts_without_moments_are_not_bridged() {
    let part = |secs: i128, first: Option<i128>, last: Option<i128>| {
        Segment { worked: secs * SECOND, first, last }
    };
    let known = part(10, Some(0), Some(10 * SECOND));
    let unknown = part(5, None, None);
    let next = part(7, Some(20 * SECOND), Some(27 * SECOND));
    assert_eq!(stitch(&vec![unknown, next]), 12 * SECOND);
    assert_eq!(stitch(&vec![known, unknown, next]), (10 + 5 + 10 + 7) * SECOND);
    let long = part(10, Some(0), Some(100 * SECOND));
    let inside = part(1, Some(50 * SECOND), Some(51 * SECOND));
    let after = part(1, Some(130 * SECOND), Some(131 * SECOND));
    assert_eq!(stitch(&vec![long, inside, after]), (10 + 1 + 30 + 1) * SECOND);
}

#[test]
fn fractions_of_pauses_between_parts_are_dropped() {
    let a = Segment { worked: 1_500_000_000, first: Some(0), last: Some(0) };
    let b = Segment { worked: 1, first: Some(2_700_000_000), last: None };
    assert_eq!(stitch(&vec![a, b]), 1_500_000_000 + 2_000_000_000 + 1);
}

#[test]
fn events_without_length_bridge_parts_too() {
    let (a, b) = ([event(0, 60), event(3500, 0)], [event(3700, 30), event(3800, 0)]);
    let parts = vec![segment(&a), segment(&b)];
    let all = [a[0], a[1], b[0], b[1]];
    assert_eq!(stitch(&parts), worked(&all, BREAK));
    assert_eq!(stitch(&parts), (60 + 200 + 30 + 70) * SECOND);
}
