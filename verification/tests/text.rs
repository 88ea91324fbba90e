use aw_work_sync::calendar::{format_date, parse_date, to_rfc3339, Date};
use aw_work_sync::host::{hostname, short_hostname, worksheet_name};
use aw_work_sync::query::{build_query, desktop_query};
use aw_work_sync::report::{sheet_error, sync_error, sync_report};
use aw_work_sync::text::{
    decimal_text, hex_text, is_blank, is_text_less, is_white_space, replace_text, trim,
};
use aw_work_sync::text_map::TextMap;
use aw_work_sync::time::{DAY, FIRST_INSTANT, LAST_INSTANT, SECOND};
use chrono::{DateTime, NaiveDate, Utc};

#[test]
fn white_space_is_that_of_unicode() {
    for c in (0..=0x10FFFFu32).filter_map(char::from_u32) {
        assert_eq!(is_white_space(c), c.is_whitespace());
    }
}

#[test]
fn texts_are_trimmed_and_replaced() {
    for s in ["", " ", "a", "\u{2003} a b\t\n", "é "] {
        assert_eq!(trim(s), s.trim());
        assert_eq!(is_blank(s), s.trim().is_empty());
    }
    for (s, pat, to) in [("aaa", "aa", "b"), (";;;;x;;", ";;", ";"), ("abc", "x", "y"), ("", "a", "b")] {
        assert_eq!(replace_text(s, pat, to), s.replace(pat, to));
    }
}

#[test]
fn numbers_are_written_out() {
    for n in [0, 7, 10, 99, 100, 18446744073709551615u64] {
        assert_eq!(decimal_text(n), n.to_string());
    }
    assert_eq!(hex_text(&[0, 9, 10, 255]), "00090aff");
}

#[test]
fn texts_are_ordered_as_strings_are() {
    let all = ["", "a", "ab", "b", "é", "\u{10000}", "\u{FFFF}", "B"];
    for a in all {
        for b in all {
            assert_eq!(is_text_less(a, b), a < b);
        }
    }
}

#[test]
fn a_map_keeps_its_keys_descending() {
    let mut map: TextMap<u32> = TextMap::new();
    for (i, k) in ["b", "a", "c", "b"].iter().enumerate() {
        map.insert(k.to_string(), i as u32);
    }
    assert_eq!(map.len(), 3);
    let items: Vec<(&str, u32)> =
        (0..map.len()).map(|i| (map.item(i).0.as_str(), map.item(i).1)).collect();
    assert_eq!(items, vec![("c", 2), ("b", 3), ("a", 1)]);
    assert_eq!(map.get("b"), Some(&3));
    assert_eq!(map.remove_item(1), ("b".to_string(), 3));
    assert_eq!(map.get("b"), None);
}

#[test]
fn moments_are_written_out() {
    let written = |t: i128| {
        let secs = t.div_euclid(SECOND) as i64;
        let nanos = t.rem_euclid(SECOND) as u32;
        DateTime::<Utc>::from_timestamp(secs, nanos).unwrap().to_rfc3339()
    };
    for t in [0, 1, -1, 1_000, 1_000_000, 123_456_789, FIRST_INSTANT, LAST_INSTANT, 951_782_400 * SECOND] {
        assert_eq!(to_rfc3339(t), written(t));
    }
    assert_eq!(to_rfc3339(951_782_400 * SECOND + 5_000_000), "2000-02-29T00:00:00.005+00:00");
    assert_eq!(to_rfc3339(-DAY), "1969-12-31T00:00:00+00:00");
    assert_eq!(to_rfc3339(FIRST_INSTANT), "-262143-01-01T00:00:00+00:00");
    assert_eq!(to_rfc3339(LAST_INSTANT), "+262142-12-31T23:59:59.999999999+00:00");
}

#[test]
fn dates_are_written_and_read() {
    let dates = [
        (2024, 2, 29, "2024-02-29"),
        (1, 1, 1, "0001-01-01"),
        (-5, 12, 31, "-0005-12-31"),
        (12345, 6, 7, "+12345-06-07"),
        (-262143, 1, 1, "-262143-01-01"),
        (262142, 12, 31, "+262142-12-31"),
    ];
    for (year, month, day, text) in dates {
        let date = Date { year, month, day };
        assert_eq!(format_date(date), text);
        assert_eq!(parse_date(text), Some(date));
        let d = NaiveDate::from_ymd_opt(year, month, day).unwrap();
        assert_eq!(d.format("%Y-%m-%d").to_string(), text);
    }
    for text in ["", "2024-02-30", "2024", "Date", "2024-02-29x"] {
        assert_eq!(parse_date(text), None);
    }
    assert_eq!(parse_date("2024-2-9"), Some(Date { year: 2024, month: 2, day: 9 }));
    let (a, b) = (Date { year: 2024, month: 2, day: 29 }, Date { year: 2024, month: 3, day: 1 });
    assert!(b.is_after(a) && !a.is_after(b) && !a.is_after(a));
}

#[test]
fn host_names_lose_their_local_domain() {
    assert_eq!(short_hostname("box.localdomain\n"), "box");
    assert_eq!(short_hostname(" box.local "), "box");
    assert_eq!(short_hostname("box.example.org"), "box.example.org");
    assert_eq!(hostname(Some(b"box.local\n")), "box");
    assert_eq!(hostname(Some(b"b\xFFx\n")), "b\u{FFFD}x");
    assert_eq!(hostname(None), "");
    assert_eq!(worksheet_name("box"), "worked-box");
}

#[test]
fn queries() {
    let tail = ";\nduration = sum_durations(events);\nRETURN = {\"events\": events, \"duration\": duration};";
    assert_eq!(build_query("a = 1;;\nb = 2;;"), format!("a = 1;\nb = 2{}", tail));
    assert_eq!(build_query("a;\nb \n;;;"), format!("a;\nb{}", tail));
    assert_eq!(build_query("a; "), format!("a;{}", tail));
    assert_eq!(
        build_query("e = f(\"a;;b\");;\ng = \";;\";;"),
        format!("e = f(\"a;;b\");\ng = \";;\"{}", tail)
    );
    assert_eq!(build_query(""), tail);
    let q = desktop_query("box", "work|jira");
    assert_eq!(q.bid_window, "aw-watcher-window_box");
    assert_eq!(q.bid_afk, "aw-watcher-afk_box");
    assert_eq!(q.classes.len(), 1);
    assert_eq!(q.classes[0].name, vec!["Work"]);
    assert_eq!(q.classes[0].regex, "work|jira");
    assert_eq!(q.classes[0].spec_type, "regex");
    assert_eq!(q.filter_classes, vec![vec!["Work"]]);
    assert!(q.classes[0].ignore_case && q.filter_afk && !q.include_audible);
    assert!(q.bid_browsers.is_empty() && q.always_active_pattern.is_none());
}

#[test]
fn a_report_names_the_sheets_that_failed() {
    let texts = |list: &[&str]| list.iter().map(|s| s.to_string()).collect::<Vec<String>>();
    let keys = texts(&["a", "b", "c"]);
    let gone = || Some("gone".to_string());
    assert_eq!(sync_report(&keys, &vec![None, None, None]), None);
    assert_eq!(sync_report(&vec![], &vec![]), None);
    assert_eq!(
        sync_report(&keys, &vec![None, gone(), None]).unwrap(),
        "Failed to sync 1 sheet(s): Sheet 'b': gone"
    );
    assert_eq!(
        sync_report(&keys, &vec![gone(), None, Some("late".to_string())]).unwrap(),
        "Failed to sync 2 sheet(s): Sheet 'a': gone; Sheet 'c': late"
    );
}

#[test]
fn reports() {
    assert_eq!(sheet_error("k", "gone"), "Sheet 'k': gone");
    assert_eq!(sync_error(&vec![]), None);
    assert_eq!(sync_error(&vec!["a".to_string()]).unwrap(), "Failed to sync 1 sheet(s): a");
    assert_eq!(
        sync_error(&vec!["a".to_string(), "b".to_string(), "c".to_string()]).unwrap(),
        "Failed to sync 3 sheet(s): a; b; c"
    );
}
