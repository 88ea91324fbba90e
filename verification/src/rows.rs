//! The rows of a worksheet: which hold entries, and which a sync changes.

use vstd::prelude::*;
use vstd::string::*;
use crate::calendar::{cell_date, format_date, parse_date, Date};
use crate::provider::{SheetWrite, SheetWriteModel};
use crate::text::{blank, is_blank, white_space};

verus! {

/// Whether a row has something in its first cell.
pub open spec fn is_data_row(row: Seq<Seq<char>>) -> bool {
    row.len() > 0 && !blank(row[0])
}

/// The last row that has something in its first cell, counted from 1; 0 if there is none.
pub open spec fn last_data_row(rows: Seq<Seq<Seq<char>>>) -> nat
    decreases rows.len(),
{
    if rows.len() == 0 || is_data_row(rows.last()) {
        rows.len()
    } else {
        last_data_row(rows.drop_last())
    }
}

/// `last_data_row` is a row with something in its first cell, and no later row is one.
pub proof fn law_last_data_row(rows: Seq<Seq<Seq<char>>>)
    ensures
        last_data_row(rows) <= rows.len(),
        last_data_row(rows) > 0 ==> is_data_row(rows[last_data_row(rows) - 1]),
        forall|i: int| last_data_row(rows) <= i < rows.len() ==> !is_data_row(#[trigger] rows[i]),
    decreases rows.len(),
{
    if rows.len() > 0 && !is_data_row(rows.last()) {
        let front = rows.drop_last();
        law_last_data_row(front);
        assert forall|i: int| last_data_row(rows) <= i < rows.len() implies !is_data_row(
            #[trigger] rows[i],
        ) by {
            if i < front.len() {
                assert(front[i] == rows[i]);
            }
        }
    }
}

/// The date of the last entry.
pub open spec fn last_entry(rows: Seq<Seq<Seq<char>>>) -> Option<Date> {
    if last_data_row(rows) > 0 {
        cell_date(rows[last_data_row(rows) - 1][0])
    } else {
        None
    }
}

/// The last row of a worksheet that holds an entry, counted from 1; 0 if none does. Rows without
/// something in their first cell are no entries, but they count.
pub fn last_row(rows: &Vec<Vec<String>>) -> (r: usize)
    ensures
        r == last_data_row(rows.deep_view()),
        r <= rows.len(),
{
    let mut n: usize = rows.len();
    let ghost cells = rows.deep_view();
    assert(cells.take(n as int) =~= cells);
    while n > 0
        invariant
            n <= rows.len(),
            cells == rows.deep_view(),
            last_data_row(cells.take(n as int)) == last_data_row(cells),
        decreases n,
    {
        let row: &Vec<String> = &rows[n - 1];
        assert(cells.take(n as int).last() == row.deep_view());
        assert(row.len() > 0 ==> row.deep_view()[0] == row@[0]@);
        if row.len() > 0 && !is_blank(row[0].as_str()) {
            return n;
        }
        assert(cells.take(n as int).drop_last() =~= cells.take(n - 1));
        n -= 1;
    }
    n
}

/// The date of the last entry, if it says one.
pub fn last_date(rows: &Vec<Vec<String>>) -> (r: Option<Date>)
    ensures
        r == last_entry(rows.deep_view()),
        r matches Some(date) ==> date.wf(),
{
    let n: usize = last_row(rows);
    if n == 0 {
        return None;
    }
    proof {
        law_last_data_row(rows.deep_view());
        assert(rows.deep_view()[n - 1] == rows@[n - 1].deep_view());
        assert(rows@[n - 1].deep_view()[0] == rows@[n - 1]@[0]@);
    }
    parse_date(rows[n - 1][0].as_str())
}

/// What happens to the row of a day.
#[derive(Clone, Copy, Debug, PartialEq, Eq, Structural)]
pub enum RowAction {
    Skip,
    Update,
    Append,
}

/// A day that has not begun is skipped, the day of the last entry is updated, later days are
/// appended, and earlier ones are left as they are.
pub open spec fn action_of(start: i128, date: Date, now: int, last: Option<Date>) -> RowAction {
    if start > now {
        RowAction::Skip
    } else {
        match last {
            Some(last) => if date == last {
                RowAction::Update
            } else if date.after(last) {
                RowAction::Append
            } else {
                RowAction::Skip
            },
            None => RowAction::Append,
        }
    }
}

/// How many of the days are appended.
pub open spec fn appended(
    windows: Seq<(i128, i128)>,
    dates: Seq<Date>,
    now: int,
    last: Option<Date>,
) -> int
    decreases windows.len(),
{
    if windows.len() == 0 {
        0
    } else {
        let front = appended(windows.drop_last(), dates, now, last);
        let k = windows.len() - 1;
        if action_of(windows[k].0, dates[k], now, last) == RowAction::Append {
            front + 1
        } else {
            front
        }
    }
}

/// The changes to a worksheet whose last entry stands in row `end`: that row is updated, and new rows
/// count on from it.
pub open spec fn planned(
    windows: Seq<(i128, i128)>,
    dates: Seq<Date>,
    times: Seq<i128>,
    now: int,
    end: int,
    last: Option<Date>,
) -> Seq<SheetWriteModel>
    decreases windows.len(),
{
    if windows.len() == 0 {
        Seq::empty()
    } else {
        let front = planned(windows.drop_last(), dates, times, now, end, last);
        let k = windows.len() - 1;
        match action_of(windows[k].0, dates[k], now, last) {
            RowAction::Skip => front,
            RowAction::Update => front.push(
                SheetWriteModel { row: end, date: None, worked: times[k] as int },
            ),
            RowAction::Append => front.push(
                SheetWriteModel {
                    row: end + appended(windows, dates, now, last),
                    date: Some(dates[k].text()),
                    worked: times[k] as int,
                },
            ),
        }
    }
}

/// The changes as plain values.
pub open spec fn changes_view(changes: Seq<SheetWrite>) -> Seq<SheetWriteModel> {
    Seq::new(changes.len(), |i: int| changes[i]@)
}

/// The changes to a worksheet whose last entry, for `last`, stands in row `end`. The text of each new
/// date reads as that date.
pub fn plan_changes(
    windows: &Vec<(i128, i128)>,
    dates: &Vec<Date>,
    times: &Vec<i128>,
    now: i128,
    end: usize,
    last: Option<Date>,
) -> (r: Vec<SheetWrite>)
    requires
        windows.len() == dates.len(),
        windows.len() == times.len(),
        forall|k: int| 0 <= k < dates.len() ==> (#[trigger] dates@[k]).wf(),
        end + windows.len() <= usize::MAX,
    ensures
        changes_view(r@) == planned(
            windows@,
            dates@,
            times@,
            now as int,
            end as int,
            last,
        ),
        forall|i: int|
            0 <= i < r.len() ==> ((#[trigger] r@[i]).date matches Some(text) ==> (cell_date(
                text@,
            ) matches Some(date) && date.wf() && date.text() == text@)),
{
    let mut changes: Vec<SheetWrite> = Vec::new();
    let mut current: usize = end;
    let mut i: usize = 0;
    assert(changes_view(changes@) =~= planned(
        windows@.take(0),
        dates@,
        times@,
        now as int,
        end as int,
        last,
    ));
    while i < windows.len()
        invariant
            i <= windows.len(),
            windows.len() == dates.len(),
            windows.len() == times.len(),
            forall|k: int| 0 <= k < dates.len() ==> (#[trigger] dates@[k]).wf(),
            end + windows.len() <= usize::MAX,
            end <= current <= end + i,
            current == end + appended(windows@.take(i as int), dates@, now as int, last),
            changes_view(changes@) == planned(
                windows@.take(i as int),
                dates@,
                times@,
                now as int,
                end as int,
                last,
            ),
            forall|i: int|
                0 <= i < changes.len() ==> ((#[trigger] changes@[i]).date matches Some(text) ==> (
                cell_date(text@) matches Some(date) && date.wf() && date.text() == text@)),
        decreases windows.len() - i,
    {
        assert(windows@.take(i + 1).drop_last() =~= windows@.take(i as int));
        let ghost before = changes_view(changes@);
        let date: Date = dates[i];
        if windows[i].0 <= now {
            let (update, append): (bool, bool) = match last {
                Some(last) => (date == last, date.is_after(last)),
                None => (false, true),
            };
            if update {
                changes.push(SheetWrite { row: end, date: None, worked: times[i] });
                assert(changes_view(changes@) =~= before.push(changes@.last()@));
            } else if append {
                current += 1;
                changes.push(
                    SheetWrite { row: current, date: Some(format_date(date)), worked: times[i] },
                );
                assert(changes_view(changes@) =~= before.push(changes@.last()@));
            }
        }
        i += 1;
    }
    assert(windows@.take(windows@.len() as int) =~= windows@);
    changes
}

/// Each date is later than the ones ahead of it.
pub open spec fn dates_ascending(dates: Seq<Date>) -> bool {
    forall|i: int, j: int|
        0 <= i < j < dates.len() ==> (#[trigger] dates[j]).after(#[trigger] dates[i])
}

proof fn lemma_planned_rows(
    windows: Seq<(i128, i128)>,
    dates: Seq<Date>,
    times: Seq<i128>,
    now: int,
    end: int,
    last: Option<Date>,
)
    requires
        windows.len() <= dates.len(),
        dates_ascending(dates),
    ensures
        ({
            let changes = planned(windows, dates, times, now, end, last);
            let updates: int = if changes.len() > 0 && changes[0].date is None {
                1
            } else {
                0
            };
            &&& changes.len() == appended(windows, dates, now, last) + updates
            &&& forall|i: int|
                0 <= i < changes.len() ==> (#[trigger] changes[i]).row == end + i + 1 - updates
            &&& forall|i: int|
                0 <= i < changes.len() ==> ((#[trigger] changes[i]).date is None <==> i < updates)
            &&& updates == 1 ==> exists|k: int|
                0 <= k < windows.len() && Some(#[trigger] dates[k]) == last
            &&& appended(windows, dates, now, last) > 0 ==> (last matches Some(d) ==> exists|k: int|
                0 <= k < windows.len() && (#[trigger] dates[k]).after(d))
        }),
    decreases windows.len(),
{
    if windows.len() > 0 {
        let front = windows.drop_last();
        lemma_planned_rows(front, dates, times, now, end, last);
        let k = windows.len() - 1;
        let before = planned(front, dates, times, now, end, last);
        let changes = planned(windows, dates, times, now, end, last);
        if action_of(windows[k].0, dates[k], now, last) == RowAction::Update {
            assert(before.len() == 0) by {
                if before.len() > 0 {
                    if before[0].date is None {
                        let j = choose|j: int|
                            0 <= j < front.len() && Some(#[trigger] dates[j]) == last;
                        assert(dates[k].after(dates[j]));
                    } else {
                        let d = last->0;
                        let j = choose|j: int|
                            0 <= j < front.len() && (#[trigger] dates[j]).after(d);
                        assert(dates[k].after(dates[j]));
                    }
                }
            }
            assert(Some(dates[k]) == last);
        }
        if changes.len() > before.len() {
            assert(changes.drop_last() =~= before);
            assert forall|i: int| 0 <= i < before.len() implies #[trigger] changes[i]
                == before[i] by {}
        }
    }
}

/// For days in order, the rows that change follow each other without a gap: the last entry, if it
/// is updated, then one new row for each day that is appended.
pub proof fn law_rows_consecutive(
    windows: Seq<(i128, i128)>,
    dates: Seq<Date>,
    times: Seq<i128>,
    now: int,
    end: int,
    last: Option<Date>,
)
    requires
        windows.len() == dates.len(),
        dates_ascending(dates),
    ensures
        ({
            let changes = planned(windows, dates, times, now, end, last);
            let updates: int = if changes.len() > 0 && changes[0].date is None {
                1
            } else {
                0
            };
            &&& changes.len() == appended(windows, dates, now, last) + updates
            &&& forall|i: int|
                0 <= i < changes.len() ==> (#[trigger] changes[i]).row == end + i + 1 - updates
            &&& forall|i: int|
                0 <= i < changes.len() ==> ((#[trigger] changes[i]).date is None <==> i < updates)
        }),
{
    lemma_planned_rows(windows, dates, times, now, end, last);
}

/// New rows are in the order of their dates, and no date gets a second row.
pub proof fn law_new_dates_ascending(
    windows: Seq<(i128, i128)>,
    dates: Seq<Date>,
    times: Seq<i128>,
    now: int,
    end: int,
    last: Option<Date>,
    i: int,
    j: int,
)
    requires
        windows.len() == dates.len(),
        dates_ascending(dates),
        0 <= i < j < planned(windows, dates, times, now, end, last).len(),
        planned(windows, dates, times, now, end, last)[i].date is Some,
    ensures
        ({
            let changes = planned(windows, dates, times, now, end, last);
            exists|a: int, b: int|
                0 <= a < b < dates.len() && changes[i].date == Some((#[trigger] dates[a]).text())
                    && changes[j].date == Some((#[trigger] dates[b]).text()) && dates[b].after(
                    dates[a],
                ) && (last matches Some(last) ==> dates[a].after(last))
        }),
{
    let changes = planned(windows, dates, times, now, end, last);
    lemma_planned_rows(windows, dates, times, now, end, last);
    let (a, b) = lemma_new_dates(windows, dates, times, now, end, last, i, j);
    assert(dates[b].after(dates[a]));
}

proof fn lemma_new_date(
    windows: Seq<(i128, i128)>,
    dates: Seq<Date>,
    times: Seq<i128>,
    now: int,
    end: int,
    last: Option<Date>,
    i: int,
) -> (a: int)
    requires
        windows.len() <= dates.len(),
        0 <= i < planned(windows, dates, times, now, end, last).len(),
        planned(windows, dates, times, now, end, last)[i].date is Some,
    ensures
        0 <= a < windows.len(),
        planned(windows, dates, times, now, end, last)[i].date == Some(dates[a].text()),
        last matches Some(last) ==> dates[a].after(last),
    decreases windows.len(),
{
    let front = windows.drop_last();
    if i < planned(front, dates, times, now, end, last).len() {
        lemma_new_date(front, dates, times, now, end, last, i)
    } else {
        windows.len() - 1
    }
}

proof fn lemma_new_dates(
    windows: Seq<(i128, i128)>,
    dates: Seq<Date>,
    times: Seq<i128>,
    now: int,
    end: int,
    last: Option<Date>,
    i: int,
    j: int,
) -> (r: (int, int))
    requires
        windows.len() <= dates.len(),
        0 <= i < j < planned(windows, dates, times, now, end, last).len(),
        planned(windows, dates, times, now, end, last)[i].date is Some,
        planned(windows, dates, times, now, end, last)[j].date is Some,
    ensures
        0 <= r.0 < r.1 < windows.len(),
        planned(windows, dates, times, now, end, last)[i].date == Some(dates[r.0].text()),
        planned(windows, dates, times, now, end, last)[j].date == Some(dates[r.1].text()),
        last matches Some(last) ==> dates[r.0].after(last),
    decreases windows.len(),
{
    let front = windows.drop_last();
    let before = planned(front, dates, times, now, end, last);
    if j < before.len() {
        lemma_new_dates(front, dates, times, now, end, last, i, j)
    } else {
        let a = lemma_new_date(front, dates, times, now, end, last, i);
        (a, windows.len() - 1)
    }
}

/// When the last entry is already that of today, a sync changes nothing but its hours, in the row
/// that holds the date: syncing again adds no rows.
pub proof fn law_second_sync(
    rows: Seq<Seq<Seq<char>>>,
    windows: Seq<(i128, i128)>,
    dates: Seq<Date>,
    times: Seq<i128>,
    now: int,
)
    requires
        windows.len() == dates.len(),
        windows.len() > 0,
        dates_ascending(dates),
        windows.last().0 <= now,
        last_entry(rows) == Some(dates.last()),
    ensures
        planned(windows, dates, times, now, last_data_row(rows) as int, last_entry(rows)) == seq![
            SheetWriteModel {
                row: last_data_row(rows) as int,
                date: None,
                worked: times[windows.len() - 1] as int,
            },
        ],
{
    let n = windows.len() - 1;
    let last = last_entry(rows);
    lemma_all_skipped(windows.drop_last(), dates, times, now, last_data_row(rows) as int, dates[n]);
    assert(planned(windows.drop_last(), dates, times, now, last_data_row(rows) as int, last)
        == Seq::<SheetWriteModel>::empty());
    assert(action_of(windows[n].0, dates[n], now, last) == RowAction::Update);
    assert(planned(windows, dates, times, now, last_data_row(rows) as int, last) =~= seq![
        SheetWriteModel { row: last_data_row(rows) as int, date: None, worked: times[n] as int },
    ]);
}

proof fn lemma_all_skipped(
    windows: Seq<(i128, i128)>,
    dates: Seq<Date>,
    times: Seq<i128>,
    now: int,
    end: int,
    last: Date,
)
    requires
        windows.len() <= dates.len(),
        forall|k: int| 0 <= k < windows.len() ==> last.after(#[trigger] dates[k]),
    ensures
        planned(windows, dates, times, now, end, Some(last)) == Seq::<
            SheetWriteModel,
        >::empty(),
    decreases windows.len(),
{
    if windows.len() > 0 {
        lemma_all_skipped(windows.drop_last(), dates, times, now, end, last);
        assert(last.after(dates[windows.len() - 1]));
    }
}

/// Two changes come of two days, in the order of the days: each says the worked time of its day, for
/// the day of the last entry in the row of that entry, and for a later day, with its date, in a row
/// behind it.
pub proof fn law_changes_of_days(
    windows: Seq<(i128, i128)>,
    dates: Seq<Date>,
    times: Seq<i128>,
    now: int,
    end: int,
    last: Option<Date>,
    i: int,
    j: int,
)
    requires
        windows.len() == dates.len(),
        windows.len() == times.len(),
        0 <= i <= j < planned(windows, dates, times, now, end, last).len(),
    ensures
        ({
            let changes = planned(windows, dates, times, now, end, last);
            exists|a: int, b: int|
                0 <= a <= b < windows.len() && (i < j ==> a < b) && windows[a].0 <= now
                    && windows[b].0 <= now && changes[i].worked == (#[trigger] times[a])
                    && changes[j].worked == (#[trigger] times[b]) && (match changes[i].date {
                    None => last == Some(dates[a]) && changes[i].row == end,
                    Some(text) => text == dates[a].text() && end < changes[i].row <= end + a + 1 && (
                    last matches Some(last) ==> dates[a].after(last)),
                }) && (match changes[j].date {
                    None => last == Some(dates[b]) && changes[j].row == end,
                    Some(text) => text == dates[b].text() && end < changes[j].row <= end + b + 1 && (
                    last matches Some(last) ==> dates[b].after(last)),
                })
        }),
{
    let changes = planned(windows, dates, times, now, end, last);
    let a = lemma_day_of_change(windows, dates, times, now, end, last, i);
    let b = if i == j {
        a
    } else {
        lemma_day_of_change(windows, dates, times, now, end, last, j)
    };
    if i < j && a >= b {
        lemma_plan_grows(windows, dates, times, now, end, last, b + 1, a + 1);
    }
    assert(changes[i].worked == times[a] && changes[j].worked == times[b]);
}

/// Every day that has begun and is that of the last entry, or a later one, has its change.
pub proof fn law_days_have_changes(
    windows: Seq<(i128, i128)>,
    dates: Seq<Date>,
    times: Seq<i128>,
    now: int,
    end: int,
    last: Option<Date>,
    k: int,
)
    requires
        windows.len() == dates.len(),
        windows.len() == times.len(),
        0 <= k < windows.len(),
        windows[k].0 <= now,
        last matches Some(last) ==> dates[k] == last || dates[k].after(last),
    ensures
        ({
            let changes = planned(windows, dates, times, now, end, last);
            exists|i: int|
                0 <= i < changes.len() && i <= k && (#[trigger] changes[i]).worked == times[k] && (
                if last == Some(dates[k]) {
                    changes[i].date is None && changes[i].row == end
                } else {
                    changes[i].date == Some(dates[k].text()) && changes[i].row > end
                })
        }),
{
    lemma_plan_prefix(windows, dates, times, now, end, last, k);
}

proof fn lemma_appended_counts(
    windows: Seq<(i128, i128)>,
    dates: Seq<Date>,
    now: int,
    last: Option<Date>,
)
    ensures
        0 <= appended(windows, dates, now, last) <= windows.len(),
    decreases windows.len(),
{
    if windows.len() > 0 {
        lemma_appended_counts(windows.drop_last(), dates, now, last);
    }
}

proof fn lemma_plan_short(
    windows: Seq<(i128, i128)>,
    dates: Seq<Date>,
    times: Seq<i128>,
    now: int,
    end: int,
    last: Option<Date>,
)
    ensures
        planned(windows, dates, times, now, end, last).len() <= windows.len(),
    decreases windows.len(),
{
    if windows.len() > 0 {
        lemma_plan_short(windows.drop_last(), dates, times, now, end, last);
    }
}

/// The change of a day stands among those of more days.
proof fn lemma_plan_prefix(
    windows: Seq<(i128, i128)>,
    dates: Seq<Date>,
    times: Seq<i128>,
    now: int,
    end: int,
    last: Option<Date>,
    k: int,
)
    requires
        windows.len() <= dates.len(),
        windows.len() <= times.len(),
        0 <= k < windows.len(),
        windows[k].0 <= now,
        last matches Some(last) ==> dates[k] == last || dates[k].after(last),
    ensures
        ({
            let changes = planned(windows, dates, times, now, end, last);
            exists|i: int|
                0 <= i < changes.len() && i <= k && (#[trigger] changes[i]).worked == times[k] && (
                if last == Some(dates[k]) {
                    changes[i].date is None && changes[i].row == end
                } else {
                    changes[i].date == Some(dates[k].text()) && changes[i].row > end
                })
        }),
    decreases windows.len(),
{
    let front = windows.drop_last();
    let before = planned(front, dates, times, now, end, last);
    let changes = planned(windows, dates, times, now, end, last);
    let n = windows.len() - 1;
    if k < n {
        lemma_plan_prefix(front, dates, times, now, end, last, k);
        let i = choose|i: int|
            0 <= i < before.len() && i <= k && (#[trigger] before[i]).worked == times[k] && (
            if last == Some(dates[k]) {
                before[i].date is None && before[i].row == end
            } else {
                before[i].date == Some(dates[k].text()) && before[i].row > end
            });
        assert(changes[i] == before[i]);
    } else {
        lemma_plan_short(front, dates, times, now, end, last);
        lemma_appended_counts(front, dates, now, last);
        assert(changes[before.len() as int] == changes.last());
    }
}

proof fn lemma_plan_grows(
    windows: Seq<(i128, i128)>,
    dates: Seq<Date>,
    times: Seq<i128>,
    now: int,
    end: int,
    last: Option<Date>,
    a: int,
    b: int,
)
    requires
        0 <= a <= b <= windows.len(),
    ensures
        planned(windows.take(a), dates, times, now, end, last).len() <= planned(
            windows.take(b),
            dates,
            times,
            now,
            end,
            last,
        ).len(),
    decreases b - a,
{
    if a < b {
        lemma_plan_grows(windows, dates, times, now, end, last, a, b - 1);
        assert(windows.take(b).drop_last() =~= windows.take(b - 1));
    }
}

/// The day that a change comes of.
proof fn lemma_day_of_change(
    windows: Seq<(i128, i128)>,
    dates: Seq<Date>,
    times: Seq<i128>,
    now: int,
    end: int,
    last: Option<Date>,
    i: int,
) -> (k: int)
    requires
        windows.len() <= dates.len(),
        windows.len() <= times.len(),
        0 <= i < planned(windows, dates, times, now, end, last).len(),
    ensures
        0 <= k < windows.len(),
        windows[k].0 <= now,
        planned(windows.take(k), dates, times, now, end, last).len() == i,
        planned(windows.take(k + 1), dates, times, now, end, last).len() == i + 1,
        ({
            let change = planned(windows, dates, times, now, end, last)[i];
            &&& change.worked == times[k]
            &&& match change.date {
                None => last == Some(dates[k]) && change.row == end,
                Some(text) => text == dates[k].text() && end < change.row <= end + k + 1 && (
                last matches Some(last) ==> dates[k].after(last)),
            }
        }),
    decreases windows.len(),
{
    let front = windows.drop_last();
    let before = planned(front, dates, times, now, end, last);
    lemma_appended_counts(front, dates, now, last);
    if i < before.len() {
        let k = lemma_day_of_change(front, dates, times, now, end, last, i);
        assert(front.take(k) =~= windows.take(k));
        assert(front.take(k + 1) =~= windows.take(k + 1));
        k
    } else {
        let k = windows.len() - 1;
        assert(windows.take(k) =~= front);
        assert(windows.take(k + 1) =~= windows);
        k
    }
}

/// A row whose first cell has something in it but white space, and behind which no row has, is the
/// last one, and says the last entry.
pub proof fn law_last_entry_found(rows: Seq<Seq<Seq<char>>>, n: int, at: int)
    requires
        0 < n <= rows.len(),
        rows[n - 1].len() > 0,
        0 <= at < rows[n - 1][0].len(),
        !white_space(rows[n - 1][0][at]),
        forall|i: int|
            n <= i < rows.len() ==> (#[trigger] rows[i]).len() == 0 || forall|j: int|
                0 <= j < rows[i][0].len() ==> white_space(#[trigger] rows[i][0][j]),
    ensures
        last_data_row(rows) == n,
        last_entry(rows) == cell_date(rows[n - 1][0]),
{
    law_last_data_row(rows);
    let found = last_data_row(rows) as int;
    assert(is_data_row(rows[n - 1]));
    if found > n {
        assert(rows[found - 1].len() == 0 || blank(rows[found - 1][0]));
    }
}

/// Where no first cell has anything in it but white space, there is no entry.
pub proof fn law_no_entry(rows: Seq<Seq<Seq<char>>>)
    requires
        forall|i: int|
            0 <= i < rows.len() ==> (#[trigger] rows[i]).len() == 0 || forall|j: int|
                0 <= j < rows[i][0].len() ==> white_space(#[trigger] rows[i][0][j]),
    ensures
        last_data_row(rows) == 0,
        last_entry(rows) is None,
{
    law_last_data_row(rows);
    let found = last_data_row(rows) as int;
    if found > 0 {
        assert(rows[found - 1].len() == 0 || blank(rows[found - 1][0]));
    }
}

} // verus!
