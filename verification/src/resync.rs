//! What one sync of an Excel file leaves for the next.

use vstd::prelude::*;
use crate::calendar::{cell_date, law_date_text_injective, year_text, Date};
use crate::excel_local::{
    dated, first_columns, law_date_read_back, law_other_cells_kept, sheet_row, text_or_empty,
};
use crate::provider::SheetWrite;
use crate::rows::{
    action_of, appended, changes_view, dates_ascending, is_data_row, last_data_row, last_entry,
    law_last_data_row, law_rows_consecutive, law_second_sync, planned, RowAction,
};
use crate::text::{blank, white_space};

verus! {

/// A worksheet that lists no cell of column 1 behind its last row.
pub open spec fn well_listed(cells: Map<(u32, u32), Seq<char>>, last_row: u32) -> bool {
    forall|row: u32| #[trigger] cells.contains_key((1u32, row)) ==> row <= last_row
}

/// A date is never blank.
proof fn lemma_date_not_blank(date: Date)
    ensures
        !blank(date.text()),
{
    let text = date.text();
    let i = year_text(date.year as int).len() as int;
    assert(text[i] == '-');
    assert(!white_space(text[i]));
}

/// The shape of a plan: at most one update, ahead of everything, and new rows without a gap.
pub open spec fn in_sequence(changes: Seq<SheetWrite>, end: int, updates: int) -> bool {
    &&& 0 <= updates <= 1
    &&& updates <= changes.len()
    &&& forall|i: int|
        0 <= i < changes.len() ==> (#[trigger] changes[i]).row == end + i + 1 - updates
    &&& forall|i: int|
        0 <= i < changes.len() ==> ((#[trigger] changes[i]).date is None <==> i < updates)
}

proof fn lemma_in_sequence(
    windows: Seq<(i128, i128)>,
    dates: Seq<Date>,
    times: Seq<i128>,
    now: int,
    end: int,
    last: Option<Date>,
    changes: Seq<SheetWrite>,
) -> (updates: int)
    requires
        windows.len() == dates.len(),
        dates_ascending(dates),
        changes_view(changes) == planned(windows, dates, times, now, end, last),
    ensures
        in_sequence(changes, end, updates),
        changes.len() == appended(windows, dates, now, last) + updates,
        0 <= appended(windows, dates, now, last) <= windows.len(),
{
    let plan = planned(windows, dates, times, now, end, last);
    law_rows_consecutive(windows, dates, times, now, end, last);
    lemma_appended_bound(windows, dates, now, last);
    let updates: int = if plan.len() > 0 && plan[0].date is None {
        1
    } else {
        0
    };
    assert(changes_view(changes).len() == changes.len());
    assert forall|i: int| 0 <= i < changes.len() implies (#[trigger] changes[i]).row == end
        + i + 1 - updates && (changes[i].date is None <==> i < updates) by {
        assert(changes_view(changes)[i] == changes[i]@);
        assert(plan[i].row == end + i + 1 - updates);
    }
    updates
}

/// Every date that is to be written reads as a date.
pub open spec fn dates_read(changes: Seq<SheetWrite>) -> bool {
    forall|i: int|
        0 <= i < changes.len() ==> ((#[trigger] changes[i]).date matches Some(text) ==> (cell_date(
            text@,
        ) matches Some(date) && date.wf() && date.text() == text@))
}

/// How the last row moves as the dates of new rows are written.
proof fn lemma_rows_added(
    cells: Map<(u32, u32), Seq<char>>,
    last_row: u32,
    changes: Seq<SheetWrite>,
    end: int,
    updates: int,
    m: int,
)
    requires
        well_listed(cells, last_row),
        0 <= m <= changes.len(),
        0 <= end <= last_row,
        in_sequence(changes, end, updates),
        end + changes.len() < 0x1_0000_0000,
    ensures
        ({
            let reached = end + (if m < updates {
                0
            } else {
                m - updates
            });
            dated(cells, last_row, changes.take(m)).1 == (if reached < last_row {
                last_row as int
            } else {
                reached
            })
        }),
        well_listed(
            dated(cells, last_row, changes.take(m)).0,
            dated(cells, last_row, changes.take(m)).1,
        ),
    decreases m,
{
    if m > 0 {
        lemma_rows_added(cells, last_row, changes, end, updates, m - 1);
        let now = changes.take(m);
        assert(now.drop_last() =~= changes.take(m - 1));
        assert(now.last() == changes[m - 1]);
        assert(changes[m - 1].row == end + m - updates);
    }
}

proof fn lemma_row_text(
    cells: Map<(u32, u32), Seq<char>>,
    last_row: u32,
    changes: Seq<SheetWrite>,
    end: int,
    updates: int,
    i: int,
)
    requires
        0 <= end,
        in_sequence(changes, end, updates),
        end + changes.len() < 0x1_0000_0000,
        updates <= i < changes.len(),
    ensures
        sheet_row(changes[i].row) == end + i + 1 - updates,
        changes[i].date is Some,
        text_or_empty(dated(cells, last_row, changes).0, 1, sheet_row(changes[i].row))
            == changes[i].date->0@,
{
    assert(changes[i].row == end + i + 1 - updates);
    assert forall|j: int| i < j < changes.len() implies sheet_row((#[trigger] changes[j]).row)
        != sheet_row(changes[i].row) by {
        assert(changes[j].row == end + j + 1 - updates);
    }
    law_date_read_back(cells, last_row, changes, i);
}

proof fn lemma_old_row(
    cells: Map<(u32, u32), Seq<char>>,
    last_row: u32,
    changes: Seq<SheetWrite>,
    end: int,
    updates: int,
    row: u32,
)
    requires
        0 <= end,
        in_sequence(changes, end, updates),
        end + changes.len() < 0x1_0000_0000,
        row <= end || row > end + changes.len() - updates,
    ensures
        text_or_empty(dated(cells, last_row, changes).0, 1, row) == text_or_empty(cells, 1, row),
{
    assert forall|i: int|
        0 <= i < changes.len() && (#[trigger] changes[i]).date is Some implies sheet_row(
        changes[i].row,
    ) != row by {
        assert(changes[i].row == end + i + 1 - updates);
        assert(i >= updates);
    }
    law_other_cells_kept(cells, last_row, changes, 1, row);
}

proof fn lemma_last_data_row(rows: Seq<Seq<Seq<char>>>, n: int)
    requires
        0 < n <= rows.len(),
        is_data_row(rows[n - 1]),
        forall|i: int| n <= i < rows.len() ==> !is_data_row(#[trigger] rows[i]),
    ensures
        last_data_row(rows) == n,
{
    law_last_data_row(rows);
    let found = last_data_row(rows) as int;
    if found > n {
        assert(!is_data_row(rows[found - 1]));
    }
}

/// Where the last entry is once the dates of new rows are written.
proof fn lemma_end_moved(
    cells: Map<(u32, u32), Seq<char>>,
    last_row: u32,
    changes: Seq<SheetWrite>,
    updates: int,
)
    requires
        well_listed(cells, last_row),
        in_sequence(
            changes,
            last_data_row(first_columns(cells, last_row)) as int,
            updates,
        ),
        last_row + changes.len() < 0x1_0000_0000,
        dates_read(changes),
        last_data_row(first_columns(cells, last_row)) + changes.len() - updates > 0,
    ensures
        well_listed(dated(cells, last_row, changes).0, dated(cells, last_row, changes).1),
        last_data_row(
            first_columns(dated(cells, last_row, changes).0, dated(cells, last_row, changes).1),
        ) == last_data_row(first_columns(cells, last_row)) + changes.len() - updates,
{
    let old_rows = first_columns(cells, last_row);
    law_last_data_row(old_rows);
    let end = last_data_row(old_rows) as int;
    lemma_rows_added(cells, last_row, changes, end, updates, changes.len() as int);
    assert(changes.take(changes.len() as int) =~= changes);
    let (after, new_last) = dated(cells, last_row, changes);
    let rows = first_columns(after, new_last);
    let n = end + changes.len() - updates;
    assert(rows[n - 1][0] == text_or_empty(after, 1, n as u32));
    if changes.len() > updates {
        let i = changes.len() - 1;
        lemma_row_text(cells, last_row, changes, end, updates, i);
        lemma_date_not_blank(cell_date(changes[i].date->0@)->0);
    } else {
        lemma_old_row(cells, last_row, changes, end, updates, n as u32);
        assert(old_rows[n - 1][0] == text_or_empty(cells, 1, n as u32));
    }
    assert forall|i: int| n <= i < rows.len() implies !is_data_row(#[trigger] rows[i]) by {
        let row = (i + 1) as u32;
        lemma_old_row(cells, last_row, changes, end, updates, row);
        assert(rows[i][0] == text_or_empty(after, 1, row));
        if row <= last_row {
            assert(old_rows[i][0] == text_or_empty(cells, 1, row));
            assert(!is_data_row(old_rows[i]));
        } else {
            assert(!cells.contains_key((1u32, row)));
        }
    }
    lemma_last_data_row(rows, n);
}

/// Once today has begun, a sync leaves a worksheet whose last entry is the one for today, in the
/// last row that was updated or appended: what was written is what the next sync finds.
pub proof fn law_sync_reaches_today(
    cells: Map<(u32, u32), Seq<char>>,
    last_row: u32,
    windows: Seq<(i128, i128)>,
    dates: Seq<Date>,
    times: Seq<i128>,
    now: int,
    changes: Seq<SheetWrite>,
)
    requires
        well_listed(cells, last_row),
        windows.len() == dates.len(),
        windows.len() > 0,
        dates_ascending(dates),
        dates.last().wf(),
        windows.last().0 <= now,
        last_row + windows.len() < 0xFFFF_FFFF,
        last_entry(first_columns(cells, last_row)) matches Some(last) ==> !last.after(dates.last()),
        changes_view(changes) == planned(
            windows,
            dates,
            times,
            now,
            last_data_row(first_columns(cells, last_row)) as int,
            last_entry(first_columns(cells, last_row)),
        ),
        dates_read(changes),
    ensures
        well_listed(dated(cells, last_row, changes).0, dated(cells, last_row, changes).1),
        ({
            let old_rows = first_columns(cells, last_row);
            let rows = first_columns(
                dated(cells, last_row, changes).0,
                dated(cells, last_row, changes).1,
            );
            &&& last_data_row(rows) == last_data_row(old_rows) + appended(
                windows,
                dates,
                now,
                last_entry(old_rows),
            )
            &&& last_entry(rows) == Some(dates.last())
        }),
{
    let old_rows = first_columns(cells, last_row);
    law_last_data_row(old_rows);
    let end = last_data_row(old_rows) as int;
    let last = last_entry(old_rows);
    let plan = planned(windows, dates, times, now, end, last);
    let updates = lemma_in_sequence(windows, dates, times, now, end, last, changes);
    assert(changes_view(changes).len() == changes.len());
    let n = windows.len() - 1;
    assert(windows[n] == windows.last() && dates[n] == dates.last());
    let action = action_of(windows[n].0, dates[n], now, last);
    if action == RowAction::Append {
        assert(plan.last().date == Some(dates[n].text()));
        assert(changes_view(changes)[changes.len() - 1] == changes[changes.len() - 1]@);
    } else {
        assert(last == Some(dates[n]));
        law_second_sync(old_rows, windows, dates, times, now);
        assert(changes_view(changes)[0] == changes[0]@);
    }
    lemma_end_moved(cells, last_row, changes, updates);
    let (after, new_last) = dated(cells, last_row, changes);
    let rows = first_columns(after, new_last);
    law_last_data_row(rows);
    let row = last_data_row(rows) as u32;
    assert(rows[row - 1][0] == text_or_empty(after, 1, row));
    if action == RowAction::Append {
        let i = changes.len() - 1;
        let text = changes[i].date->0;
        lemma_row_text(cells, last_row, changes, end, updates, i);
        law_date_text_injective(cell_date(text@)->0, dates[n]);
    } else {
        lemma_old_row(cells, last_row, changes, end, updates, row);
        assert(old_rows[row - 1][0] == text_or_empty(cells, 1, row));
    }
}

proof fn lemma_appended_bound(
    windows: Seq<(i128, i128)>,
    dates: Seq<Date>,
    now: int,
    last: Option<Date>,
)
    ensures
        0 <= appended(windows, dates, now, last) <= windows.len(),
    decreases windows.len(),
{
    if windows.len() > 0 {
        lemma_appended_bound(windows.drop_last(), dates, now, last);
    }
}

} // verus!
