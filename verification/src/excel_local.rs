//! Excel files on disk.

use vstd::prelude::*;
use vstd::string::*;
use crate::provider::SheetWrite;
use crate::text::{chars_of, text_of};

verus! {

/// The backend for Excel files on disk.
pub struct ExcelLocalProvider;

/// The file that a sheet key names.
#[derive(Debug)]
pub enum FilePath {
    /// Relative to the user's home directory.
    UnderHome(String),
    /// As it stands.
    AsGiven(String),
}

/// `s` without the `~/` that it begins with.
pub open spec fn without_home(s: Seq<char>) -> Seq<char> {
    if s.len() >= 2 && s[0] == '~' && s[1] == '/' {
        s.skip(2)
    } else {
        s
    }
}

/// The file that a sheet key names: one under the home directory if the key begins with a tilde.
pub fn resolve_path(sheet_key: &str) -> (r: FilePath)
    ensures
        if sheet_key@.len() > 0 && sheet_key@[0] == '~' {
            r matches FilePath::UnderHome(rest) && rest@ == without_home(sheet_key@)
        } else {
            r matches FilePath::AsGiven(path) && path@ == sheet_key@
        },
{
    let v: Vec<char> = chars_of(sheet_key);
    if v.len() == 0 || v[0] != '~' {
        return FilePath::AsGiven(sheet_key.to_owned());
    }
    let from: usize = if v.len() >= 2 && v[1] == '/' {
        2
    } else {
        0
    };
    assert(v@.subrange(from as int, v@.len() as int) =~= without_home(v@));
    FilePath::UnderHome(text_of(&v, from, v.len()))
}

/// A worksheet of an Excel file.
#[verifier::external_type_specification]
#[verifier::external_body]
pub struct ExWorksheet(umya_spreadsheet::Worksheet);

/// The cells that a worksheet holds, by column and row, each with its text.
pub uninterp spec fn sheet_cells(sheet: umya_spreadsheet::Worksheet) -> Map<(u32, u32), Seq<char>>;

/// The greatest row that a worksheet lists a cell in, or 0 if it lists none.
pub uninterp spec fn sheet_last_row(sheet: umya_spreadsheet::Worksheet) -> u32;

/// `umya_spreadsheet::Worksheet::get_highest_row`: the greatest row that a cell is listed in.
#[verifier::external_body]
fn highest_row(sheet: &umya_spreadsheet::Worksheet) -> (r: u32)
    ensures
        r == sheet_last_row(*sheet),
{
    sheet.get_highest_row()
}

/// `umya_spreadsheet::Worksheet::get_cell` and the text that `umya_spreadsheet::Cell::get_value`
/// gives for the cell, if there is one.
#[verifier::external_body]
fn text_at(sheet: &umya_spreadsheet::Worksheet, col: u32, row: u32) -> (r: Option<String>)
    ensures
        match r {
            Some(text) => sheet_cells(*sheet).contains_key((col, row)) && text@ == sheet_cells(
                *sheet,
            )[(col, row)],
            None => !sheet_cells(*sheet).contains_key((col, row)),
        },
{
    sheet.get_cell((col, row)).map(|cell| cell.get_value().to_string())
}

/// The text of a cell; nothing for one that the worksheet does not hold.
pub open spec fn text_or_empty(cells: Map<(u32, u32), Seq<char>>, col: u32, row: u32) -> Seq<char> {
    if cells.contains_key((col, row)) {
        cells[(col, row)]
    } else {
        Seq::empty()
    }
}

/// The first two columns of a worksheet, from row 1 to row `last_row`.
pub open spec fn first_columns(cells: Map<(u32, u32), Seq<char>>, last_row: u32) -> Seq<Seq<Seq<char>>> {
    Seq::new(
        last_row as nat,
        |i: int|
            seq![
                text_or_empty(cells, 1, (i + 1) as u32),
                text_or_empty(cells, 2, (i + 1) as u32),
            ],
    )
}

/// The first two columns of a worksheet, row by row.
pub fn sheet_to_rows(sheet: &umya_spreadsheet::Worksheet) -> (r: Vec<Vec<String>>)
    ensures
        r.deep_view() == first_columns(sheet_cells(*sheet), sheet_last_row(*sheet)),
{
    let max_row: u32 = highest_row(sheet);
    let ghost cells = sheet_cells(*sheet);
    let mut rows: Vec<Vec<String>> = Vec::new();
    let mut i: u32 = 0;
    while i < max_row
        invariant
            i <= max_row,
            cells == sheet_cells(*sheet),
            rows.len() == i,
            forall|k: int|
                0 <= k < i ==> #[trigger] rows@[k].deep_view() == seq![
                    text_or_empty(cells, 1, (k + 1) as u32),
                    text_or_empty(cells, 2, (k + 1) as u32),
                ],
        decreases max_row - i,
    {
        i += 1;
        let a: String = match text_at(sheet, 1, i) {
            Some(text) => text,
            None => String::new(),
        };
        let b: String = match text_at(sheet, 2, i) {
            Some(text) => text,
            None => String::new(),
        };
        let mut row: Vec<String> = Vec::new();
        row.push(a);
        row.push(b);
        assert(row.deep_view() =~= seq![text_or_empty(cells, 1, i), text_or_empty(cells, 2, i)]);
        rows.push(row);
    }
    assert(rows.deep_view() =~= first_columns(cells, max_row));
    rows
}

/// The row that a change goes to: rows of a worksheet are numbered with 32 bits.
pub open spec fn sheet_row(row: usize) -> u32 {
    (row as int % 0x1_0000_0000) as u32
}

fn row_number(row: usize) -> (r: u32)
    ensures
        r == sheet_row(row),
{
    let low: u64 = row as u64 % 0x1_0000_0000;
    low as u32
}

/// The greater of two rows.
pub open spec fn lower_row(a: u32, b: u32) -> u32 {
    if a < b {
        b
    } else {
        a
    }
}

/// Cells and last row once the dates of new rows stand in column 1.
pub open spec fn dated(
    cells: Map<(u32, u32), Seq<char>>,
    last_row: u32,
    changes: Seq<SheetWrite>,
) -> (Map<(u32, u32), Seq<char>>, u32)
    decreases changes.len(),
{
    if changes.len() == 0 {
        (cells, last_row)
    } else {
        let (c, l) = dated(cells, last_row, changes.drop_last());
        let row = sheet_row(changes.last().row);
        match changes.last().date {
            Some(date) => (
                c.insert((1u32, row), date@),
                if c.contains_key((1u32, row)) {
                    l
                } else {
                    lower_row(l, row)
                },
            ),
            None => (c, l),
        }
    }
}

/// The cells of column 2 that the changes fill, by row, and the worked time for each, in nanoseconds.
pub fn hour_cells(changes: &Vec<SheetWrite>) -> (r: Vec<(u32, i128)>)
    ensures
        r.len() == changes.len(),
        forall|i: int|
            0 <= i < r.len() ==> #[trigger] r@[i] == (
                sheet_row(changes@[i].row),
                changes@[i].worked,
            ),
{
    let mut cells: Vec<(u32, i128)> = Vec::new();
    let mut i: usize = 0;
    while i < changes.len()
        invariant
            i <= changes.len(),
            cells.len() == i,
            forall|k: int|
                0 <= k < i ==> #[trigger] cells@[k] == (
                    sheet_row(changes@[k].row),
                    changes@[k].worked,
                ),
        decreases changes.len() - i,
    {
        cells.push((row_number(changes[i].row), changes[i].worked));
        i += 1;
    }
    cells
}

/// A cell that no date is written to is as it was.
pub proof fn law_other_cells_kept(
    cells: Map<(u32, u32), Seq<char>>,
    last_row: u32,
    changes: Seq<SheetWrite>,
    col: u32,
    row: u32,
)
    requires
        col != 1 || forall|i: int|
            0 <= i < changes.len() && (#[trigger] changes[i]).date is Some ==> sheet_row(
                changes[i].row,
            ) != row,
    ensures
        text_or_empty(dated(cells, last_row, changes).0, col, row) == text_or_empty(
            cells,
            col,
            row,
        ),
    decreases changes.len(),
{
    if changes.len() > 0 {
        let front = changes.drop_last();
        if col == 1 {
            assert forall|i: int|
                0 <= i < front.len() && (#[trigger] front[i]).date is Some implies sheet_row(
                front[i].row,
            ) != row by {
                assert(front[i] == changes[i]);
            }
            assert(changes[changes.len() - 1] == changes.last());
        }
        law_other_cells_kept(cells, last_row, front, col, row);
    }
}

/// A date that was written is what the first column of its row says, if no later change goes to the
/// same row.
pub proof fn law_date_read_back(
    cells: Map<(u32, u32), Seq<char>>,
    last_row: u32,
    changes: Seq<SheetWrite>,
    i: int,
)
    requires
        0 <= i < changes.len(),
        changes[i].date is Some,
        forall|j: int|
            i < j < changes.len() ==> sheet_row((#[trigger] changes[j]).row) != sheet_row(
                changes[i].row,
            ),
    ensures
        text_or_empty(dated(cells, last_row, changes).0, 1, sheet_row(changes[i].row))
            == changes[i].date->0@,
    decreases changes.len(),
{
    let n = changes.len() - 1;
    if i < n {
        let front = changes.drop_last();
        assert(front[i] == changes[i]);
        assert forall|j: int| i < j < front.len() implies sheet_row((#[trigger] front[j]).row)
            != sheet_row(front[i].row) by {
            assert(front[j] == changes[j]);
        }
        law_date_read_back(cells, last_row, front, i);
        assert(sheet_row(changes[n].row) != sheet_row(changes[i].row));
    }
}

/// Cells and last row once texts stand in column 2 of the rows of the changes, one for each.
pub open spec fn filled(
    cells: Map<(u32, u32), Seq<char>>,
    last_row: u32,
    changes: Seq<SheetWrite>,
    texts: Seq<Seq<char>>,
) -> (Map<(u32, u32), Seq<char>>, u32)
    decreases changes.len(),
{
    if changes.len() == 0 {
        (cells, last_row)
    } else {
        let (c, l) = filled(cells, last_row, changes.drop_last(), texts);
        let row = sheet_row(changes.last().row);
        (
            c.insert((2u32, row), texts[changes.len() - 1]),
            if c.contains_key((2u32, row)) {
                l
            } else {
                lower_row(l, row)
            },
        )
    }
}

proof fn lemma_new_rows(changes: Seq<SheetWrite>, m: int)
    requires
        0 <= m <= changes.len() <= u32::MAX,
        forall|i: int|
            0 <= i < changes.len() ==> (#[trigger] changes[i]).row == i + 1 && changes[i].date is Some,
    ensures
        ({
            let (c, l) = dated(Map::empty(), 0, changes.take(m));
            &&& l == m
            &&& forall|col: u32, row: u32| #[trigger]
                c.contains_key((col, row)) <==> col == 1 && 1 <= row <= m
            &&& forall|i: int|
                0 <= i < m ==> #[trigger] changes[i].date->0@ == c[(1u32, (i + 1) as u32)]
        }),
    decreases m,
{
    if m > 0 {
        lemma_new_rows(changes, m - 1);
        assert(changes.take(m).drop_last() =~= changes.take(m - 1));
        assert(changes.take(m).last() == changes[m - 1]);
        assert(sheet_row(changes[m - 1].row) == m);
    }
}

/// Column 1 is the same in both.
spec fn same_dates(a: Map<(u32, u32), Seq<char>>, b: Map<(u32, u32), Seq<char>>) -> bool {
    forall|row: u32| #[trigger] text_or_empty(a, 1, row) == text_or_empty(b, 1, row)
}

proof fn lemma_new_hours(
    cells: Map<(u32, u32), Seq<char>>,
    last_row: u32,
    changes: Seq<SheetWrite>,
    texts: Seq<Seq<char>>,
    m: int,
)
    requires
        0 <= m <= changes.len() <= u32::MAX,
        changes.len() <= last_row,
        forall|i: int| 0 <= i < changes.len() ==> (#[trigger] changes[i]).row == i + 1,
    ensures
        filled(cells, last_row, changes.take(m), texts).1 == last_row,
        same_dates(filled(cells, last_row, changes.take(m), texts).0, cells),
        forall|i: int|
            0 <= i < m ==> text_or_empty(
                filled(cells, last_row, changes.take(m), texts).0,
                2,
                (i + 1) as u32,
            ) == #[trigger] texts[i],
    decreases m,
{
    if m > 0 {
        lemma_new_hours(cells, last_row, changes, texts, m - 1);
        assert(changes.take(m).drop_last() =~= changes.take(m - 1));
        assert(changes.take(m).last() == changes[m - 1]);
        assert(sheet_row(changes[m - 1].row) == m);
        let before = filled(cells, last_row, changes.take(m - 1), texts).0;
        let after = filled(cells, last_row, changes.take(m), texts).0;
        assert(after == before.insert((2u32, m as u32), texts[m - 1]));
        assert forall|row: u32| #[trigger] text_or_empty(after, 1, row) == text_or_empty(
            cells,
            1,
            row,
        ) by {
            assert(text_or_empty(before, 1, row) == text_or_empty(cells, 1, row));
        }
        assert forall|i: int| 0 <= i < m implies text_or_empty(after, 2, (i + 1) as u32)
            == #[trigger] texts[i] by {
            if i < m - 1 {
                assert(text_or_empty(before, 2, (i + 1) as u32) == texts[i]);
            }
        }
    }
}

/// A worksheet without cells has no rows. Once new rows from the first on are written to it, dates
/// to column 1 and whatever texts to column 2, its rows are just those.
pub proof fn law_new_sheet_read_back(changes: Seq<SheetWrite>, texts: Seq<Seq<char>>)
    requires
        changes.len() <= u32::MAX,
        texts.len() == changes.len(),
        forall|i: int|
            0 <= i < changes.len() ==> (#[trigger] changes[i]).row == i + 1 && changes[i].date is Some,
    ensures
        first_columns(Map::empty(), 0) == Seq::<Seq<Seq<char>>>::empty(),
        ({
            let (dates, last_row) = dated(Map::empty(), 0, changes);
            let (cells, end) = filled(dates, last_row, changes, texts);
            first_columns(cells, end) == Seq::new(
                changes.len(),
                |i: int| seq![changes[i].date->0@, texts[i]],
            )
        }),
{
    assert(first_columns(Map::empty(), 0) =~= Seq::<Seq<Seq<char>>>::empty());
    let n = changes.len() as int;
    assert(changes.take(n) =~= changes);
    lemma_new_rows(changes, n);
    let (dates, last_row) = dated(Map::empty(), 0, changes);
    lemma_new_hours(dates, last_row, changes, texts, n);
    let (cells, end) = filled(dates, last_row, changes, texts);
    let rows = first_columns(cells, end);
    let wanted = Seq::new(changes.len(), |i: int| seq![changes[i].date->0@, texts[i]]);
    assert forall|i: int| 0 <= i < n implies rows[i] == wanted[i] by {
        let row = (i + 1) as u32;
        assert(dates.contains_key((1u32, row)));
        assert(changes[i].date->0@ == dates[(1u32, row)]);
        assert(text_or_empty(cells, 1, row) == text_or_empty(dates, 1, row));
        assert(text_or_empty(cells, 2, row) == texts[i]);
        assert(rows[i] =~= wanted[i]);
    }
    assert(rows =~= wanted);
}

/// An Excel file in memory.
#[verifier::external_type_specification]
#[verifier::external_body]
pub struct ExSpreadsheet(umya_spreadsheet::Spreadsheet);

/// The worksheets of a workbook, in order: the name of each, its cells and the greatest row that it
/// lists a cell in, as `sheet_cells` and `sheet_last_row` have them.
pub uninterp spec fn book_sheets(book: umya_spreadsheet::Spreadsheet) -> Seq<
    (Seq<char>, Map<(u32, u32), Seq<char>>, u32),
>;

/// Whether the worksheets of a workbook have all been read, as they are in one that was not opened
/// lazily.
pub uninterp spec fn sheets_read(book: umya_spreadsheet::Spreadsheet) -> bool;

/// Where the first worksheet of that name stands.
pub open spec fn sheet_at(
    sheets: Seq<(Seq<char>, Map<(u32, u32), Seq<char>>, u32)>,
    name: Seq<char>,
) -> Option<int>
    decreases sheets.len(),
{
    if sheets.len() == 0 {
        None
    } else {
        match sheet_at(sheets.drop_last(), name) {
            Some(i) => Some(i),
            None => if sheets.last().0 == name {
                Some(sheets.len() - 1)
            } else {
                None
            },
        }
    }
}

/// `sheet_at` is the first worksheet of that name, if there is one.
pub proof fn law_sheet_at(
    sheets: Seq<(Seq<char>, Map<(u32, u32), Seq<char>>, u32)>,
    name: Seq<char>,
)
    ensures
        match sheet_at(sheets, name) {
            Some(i) => 0 <= i < sheets.len() && sheets[i].0 == name && forall|j: int|
                0 <= j < i ==> (#[trigger] sheets[j]).0 != name,
            None => forall|j: int| 0 <= j < sheets.len() ==> (#[trigger] sheets[j]).0 != name,
        },
    decreases sheets.len(),
{
    if sheets.len() > 0 {
        let front = sheets.drop_last();
        law_sheet_at(front, name);
        assert(forall|j: int| 0 <= j < front.len() ==> #[trigger] sheets[j] == front[j]);
    }
}

/// `umya_spreadsheet::new_file`: a workbook with one worksheet, named `Sheet1`, that has no cells.
#[verifier::external_body]
fn new_file() -> (r: umya_spreadsheet::Spreadsheet)
    ensures
        book_sheets(r) == seq![("Sheet1"@, Map::<(u32, u32), Seq<char>>::empty(), 0u32)],
        sheets_read(r),
{
    umya_spreadsheet::new_file()
}

/// `umya_spreadsheet::Spreadsheet::get_sheet_by_name`: the first worksheet of that name, if there is
/// one.
#[verifier::external_body]
fn sheet_named<'a>(book: &'a umya_spreadsheet::Spreadsheet, name: &str) -> (r: Option<
    &'a umya_spreadsheet::Worksheet,
>)
    requires
        sheets_read(*book),
    ensures
        match r {
            Some(sheet) => sheet_at(book_sheets(*book), name@) matches Some(i) && (
            name@,
            sheet_cells(*sheet),
            sheet_last_row(*sheet),
            ) == book_sheets(*book)[i],
            None => sheet_at(book_sheets(*book), name@) is None,
        },
{
    book.get_sheet_by_name(name)
}

/// `umya_spreadsheet::Spreadsheet::new_sheet`: adds a worksheet without cells behind the others,
/// which stay as they are. It fails on a name that is taken.
#[verifier::external_body]
fn add_sheet(book: &mut umya_spreadsheet::Spreadsheet, name: &str)
    requires
        sheet_at(book_sheets(*old(book)), name@) is None,
    ensures
        book_sheets(*final(book)) == book_sheets(*old(book)).push((name@, Map::empty(), 0u32)),
        sheets_read(*final(book)) == sheets_read(*old(book)),
{
    book.new_sheet(name).expect("Failed to create sheet");
}

/// `umya_spreadsheet::Worksheet::get_cell_mut`, which adds the cell if it is missing, and
/// `umya_spreadsheet::Cell::set_value_string` on it, in the worksheet that
/// `umya_spreadsheet::Spreadsheet::get_sheet_by_name_mut` finds: the cell has the text, and nothing
/// else changes.
#[verifier::external_body]
fn put_text(book: &mut umya_spreadsheet::Spreadsheet, name: &str, col: u32, row: u32, text: &str)
    requires
        sheets_read(*old(book)),
        sheet_at(book_sheets(*old(book)), name@) is Some,
    ensures
        ({
            let i = sheet_at(book_sheets(*old(book)), name@)->0;
            let (_, cells, last_row) = book_sheets(*old(book))[i];
            book_sheets(*final(book)) == book_sheets(*old(book)).update(
                i,
                (
                    name@,
                    cells.insert((col, row), text@),
                    if cells.contains_key((col, row)) {
                        last_row
                    } else {
                        lower_row(last_row, row)
                    },
                ),
            )
        }),
        sheets_read(*final(book)),
{
    let sheet = book.get_sheet_by_name_mut(name).expect("Sheet must exist");
    sheet.get_cell_mut((col, row)).set_value_string(text);
}

/// The worksheets once there is one named `worksheet`: those that were there, and behind them, if it
/// was missing, one without cells.
pub open spec fn with_sheet(
    sheets: Seq<(Seq<char>, Map<(u32, u32), Seq<char>>, u32)>,
    worksheet: Seq<char>,
) -> Seq<(Seq<char>, Map<(u32, u32), Seq<char>>, u32)> {
    if sheet_at(sheets, worksheet) is Some {
        sheets
    } else {
        sheets.push((worksheet, Map::empty(), 0u32))
    }
}

/// The worksheet is there, and adding it a second time changes nothing. One that was missing has no
/// cells.
pub proof fn law_sheet_added_once(
    sheets: Seq<(Seq<char>, Map<(u32, u32), Seq<char>>, u32)>,
    worksheet: Seq<char>,
)
    ensures
        sheet_at(with_sheet(sheets, worksheet), worksheet) is Some,
        with_sheet(with_sheet(sheets, worksheet), worksheet) == with_sheet(sheets, worksheet),
        sheet_at(sheets, worksheet) is None ==> sheet_at(with_sheet(sheets, worksheet), worksheet)
            == Some(sheets.len() as int),
{
    let added = sheets.push((worksheet, Map::<(u32, u32), Seq<char>>::empty(), 0u32));
    assert(added.drop_last() =~= sheets);
}

/// Adds a worksheet of that name, without cells, if there is none. The others stay as they are.
pub fn ensure_worksheet(book: &mut umya_spreadsheet::Spreadsheet, worksheet: &str)
    requires
        sheets_read(*old(book)),
    ensures
        book_sheets(*final(book)) == with_sheet(book_sheets(*old(book)), worksheet@),
        sheet_at(book_sheets(*final(book)), worksheet@) is Some,
        sheets_read(*final(book)),
{
    proof {
        law_sheet_added_once(book_sheets(*book), worksheet@);
    }
    if sheet_named(book, worksheet).is_none() {
        add_sheet(book, worksheet);
    }
}

/// The worksheets of a new workbook.
pub open spec fn new_sheets(worksheet: Seq<char>) -> Seq<
    (Seq<char>, Map<(u32, u32), Seq<char>>, u32),
> {
    with_sheet(seq![("Sheet1"@, Map::<(u32, u32), Seq<char>>::empty(), 0u32)], worksheet)
}

/// A new workbook with a worksheet of that name. None of its worksheets has cells.
pub fn new_workbook(worksheet: &str) -> (r: umya_spreadsheet::Spreadsheet)
    ensures
        book_sheets(r) == new_sheets(worksheet@),
        sheet_at(book_sheets(r), worksheet@) is Some,
        sheets_read(r),
{
    let mut book: umya_spreadsheet::Spreadsheet = new_file();
    ensure_worksheet(&mut book, worksheet);
    book
}

/// The worksheets once the dates of new rows stand in column 1 of the one named `worksheet`.
pub open spec fn sheets_dated(
    sheets: Seq<(Seq<char>, Map<(u32, u32), Seq<char>>, u32)>,
    worksheet: Seq<char>,
    changes: Seq<SheetWrite>,
) -> Seq<(Seq<char>, Map<(u32, u32), Seq<char>>, u32)> {
    let i = sheet_at(sheets, worksheet)->0;
    let (cells, last_row) = dated(sheets[i].1, sheets[i].2, changes);
    sheets.update(i, (worksheet, cells, last_row))
}

proof fn lemma_same_place(
    sheets: Seq<(Seq<char>, Map<(u32, u32), Seq<char>>, u32)>,
    name: Seq<char>,
    cells: Map<(u32, u32), Seq<char>>,
    last_row: u32,
)
    requires
        sheet_at(sheets, name) is Some,
    ensures
        sheet_at(sheets.update(sheet_at(sheets, name)->0, (name, cells, last_row)), name)
            == sheet_at(sheets, name),
{
    let i = sheet_at(sheets, name)->0;
    let after = sheets.update(i, (name, cells, last_row));
    law_sheet_at(sheets, name);
    law_sheet_at(after, name);
    assert(after[i].0 == name);
    match sheet_at(after, name) {
        Some(j) => {
            if j < i {
                assert(sheets[j].0 != name);
                assert(after[j] == sheets[j]);
            }
        },
        None => {},
    }
}

/// Writes the dates of new rows to column 1 of a worksheet.
pub fn write_dates(
    book: &mut umya_spreadsheet::Spreadsheet,
    worksheet: &str,
    changes: &Vec<SheetWrite>,
)
    requires
        sheets_read(*old(book)),
        sheet_at(book_sheets(*old(book)), worksheet@) is Some,
    ensures
        book_sheets(*final(book)) == sheets_dated(book_sheets(*old(book)), worksheet@, changes@),
        sheet_at(book_sheets(*final(book)), worksheet@) == sheet_at(
            book_sheets(*old(book)),
            worksheet@,
        ),
        sheets_read(*final(book)),
{
    let ghost sheets = book_sheets(*book);
    let ghost at = sheet_at(sheets, worksheet@)->0;
    let mut i: usize = 0;
    proof {
        law_sheet_at(sheets, worksheet@);
        assert(sheets_dated(sheets, worksheet@, changes@.take(0)) =~= sheets);
    }
    while i < changes.len()
        invariant
            i <= changes.len(),
            sheet_at(sheets, worksheet@) == Some(at),
            0 <= at < sheets.len(),
            sheets_read(*book),
            sheet_at(book_sheets(*book), worksheet@) == Some(at),
            book_sheets(*book) == sheets_dated(sheets, worksheet@, changes@.take(i as int)),
        decreases changes.len() - i,
    {
        assert(changes@.take(i + 1).drop_last() =~= changes@.take(i as int));
        if let Some(date) = &changes[i].date {
            let ghost before = book_sheets(*book);
            put_text(book, worksheet, 1, row_number(changes[i].row), date.as_str());
            proof {
                let (_, cells, last_row) = book_sheets(*book)[at];
                lemma_same_place(before, worksheet@, cells, last_row);
                assert(book_sheets(*book) =~= sheets_dated(
                    sheets,
                    worksheet@,
                    changes@.take(i + 1),
                ));
            }
        }
        i += 1;
    }
    assert(changes@.take(changes@.len() as int) =~= changes@);
}

/// The rows of the worksheet of that name; none if there is no such worksheet.
pub open spec fn rows_of(
    sheets: Seq<(Seq<char>, Map<(u32, u32), Seq<char>>, u32)>,
    worksheet: Seq<char>,
) -> Seq<Seq<Seq<char>>> {
    match sheet_at(sheets, worksheet) {
        Some(i) => first_columns(sheets[i].1, sheets[i].2),
        None => Seq::empty(),
    }
}

/// The rows of a worksheet; none if there is no file or the file has no such worksheet.
pub fn worksheet_rows(book: Option<&umya_spreadsheet::Spreadsheet>, worksheet: &str) -> (r: Vec<
    Vec<String>,
>)
    requires
        book matches Some(book) ==> sheets_read(*book),
    ensures
        r.deep_view() == (match book {
            Some(book) => rows_of(book_sheets(*book), worksheet@),
            None => Seq::empty(),
        }),
{
    let none: Vec<Vec<String>> = Vec::new();
    assert(none.deep_view() =~= Seq::<Seq<Seq<char>>>::empty());
    match book {
        Some(book) => match sheet_named(book, worksheet) {
            Some(sheet) => sheet_to_rows(sheet),
            None => none,
        },
        None => none,
    }
}

/// A new workbook has no rows. Once new rows from the first on are written to the worksheet that it
/// was made with, dates to column 1 and whatever texts to column 2, the rows of that worksheet are
/// just those.
pub proof fn law_new_workbook_read_back(
    worksheet: Seq<char>,
    changes: Seq<SheetWrite>,
    texts: Seq<Seq<char>>,
)
    requires
        changes.len() <= u32::MAX,
        texts.len() == changes.len(),
        forall|i: int|
            0 <= i < changes.len() ==> (#[trigger] changes[i]).row == i + 1 && changes[i].date is Some,
    ensures
        rows_of(new_sheets(worksheet), worksheet) == Seq::<Seq<Seq<char>>>::empty(),
        ({
            let sheets = sheets_dated(new_sheets(worksheet), worksheet, changes);
            let i = sheet_at(sheets, worksheet)->0;
            let (cells, last_row) = filled(sheets[i].1, sheets[i].2, changes, texts);
            rows_of(sheets.update(i, (worksheet, cells, last_row)), worksheet) == Seq::new(
                changes.len(),
                |i: int| seq![changes[i].date->0@, texts[i]],
            )
        }),
{
    let first = seq![("Sheet1"@, Map::<(u32, u32), Seq<char>>::empty(), 0u32)];
    let new = new_sheets(worksheet);
    law_sheet_added_once(first, worksheet);
    law_sheet_at(new, worksheet);
    let i = sheet_at(new, worksheet)->0;
    assert(new[i].1 == Map::<(u32, u32), Seq<char>>::empty() && new[i].2 == 0);
    law_new_sheet_read_back(changes, texts);
    let (dates, reached) = dated(new[i].1, new[i].2, changes);
    lemma_same_place(new, worksheet, dates, reached);
    let sheets = sheets_dated(new, worksheet, changes);
    let (cells, last_row) = filled(sheets[i].1, sheets[i].2, changes, texts);
    lemma_same_place(sheets, worksheet, cells, last_row);
}

/// What follows a tilde and a slash is the path under the home directory, and a tilde without a slash
/// is part of the name.
pub proof fn law_home(path: Seq<char>)
    ensures
        without_home(seq!['~', '/'] + path) == path,
        path.len() < 2 || path[0] != '~' || path[1] != '/' ==> without_home(path) == path,
{
    assert((seq!['~', '/'] + path).skip(2) =~= path);
}

/// A row that 32 bits hold is the row that a change goes to.
pub proof fn law_sheet_row(row: usize)
    requires
        row < 0x1_0000_0000,
    ensures
        sheet_row(row) == row,
{
}

/// The rows that are read are those from the first to the last, each with the texts of its first two
/// cells; a cell that the worksheet does not hold has no text.
pub proof fn law_rows_read(cells: Map<(u32, u32), Seq<char>>, last_row: u32, row: u32)
    requires
        1 <= row <= last_row,
    ensures
        ({
            let rows = first_columns(cells, last_row);
            &&& rows.len() == last_row
            &&& rows[row - 1].len() == 2
            &&& cells.contains_key((1u32, row)) ==> rows[row - 1][0] == cells[(1u32, row)]
            &&& !cells.contains_key((1u32, row)) ==> rows[row - 1][0].len() == 0
            &&& cells.contains_key((2u32, row)) ==> rows[row - 1][1] == cells[(2u32, row)]
            &&& !cells.contains_key((2u32, row)) ==> rows[row - 1][1].len() == 0
        }),
{
    assert((row - 1 + 1) as u32 == row);
}

/// Writing dates moves the last row on as far as the rows that they are written to, and no further.
pub proof fn law_last_row_moved(
    cells: Map<(u32, u32), Seq<char>>,
    last_row: u32,
    changes: Seq<SheetWrite>,
)
    requires
        forall|row: u32| #[trigger] cells.contains_key((1u32, row)) ==> row <= last_row,
    ensures
        ({
            let (after, reached) = dated(cells, last_row, changes);
            &&& reached >= last_row
            &&& forall|i: int|
                0 <= i < changes.len() && (#[trigger] changes[i]).date is Some ==> sheet_row(
                    changes[i].row,
                ) <= reached
            &&& reached > last_row ==> exists|i: int|
                0 <= i < changes.len() && (#[trigger] changes[i]).date is Some && sheet_row(
                    changes[i].row,
                ) == reached
            &&& forall|row: u32| #[trigger] after.contains_key((1u32, row)) ==> row <= reached
        }),
    decreases changes.len(),
{
    if changes.len() > 0 {
        let front = changes.drop_last();
        let n = changes.len() - 1;
        law_last_row_moved(cells, last_row, front);
        assert(changes[n] == changes.last());
        assert forall|i: int| 0 <= i < n implies #[trigger] changes[i] == front[i] by {}
        let (before, earlier) = dated(cells, last_row, front);
        let (after, reached) = dated(cells, last_row, changes);
        if earlier > last_row {
            let i = choose|i: int|
                0 <= i < front.len() && (#[trigger] front[i]).date is Some && sheet_row(
                    front[i].row,
                ) == earlier;
            assert(changes[i].date is Some && sheet_row(changes[i].row) == earlier);
        }
        assert forall|row: u32| #[trigger] after.contains_key((1u32, row)) implies row <= reached by {
            if before.contains_key((1u32, row)) {
                assert(row <= earlier);
            }
        }
    }
}

/// Adding a worksheet that is missing puts one without cells behind the others, and leaves these as
/// they are; where it is there, nothing is added.
pub proof fn law_sheets_kept(
    sheets: Seq<(Seq<char>, Map<(u32, u32), Seq<char>>, u32)>,
    worksheet: Seq<char>,
)
    ensures
        with_sheet(sheets, worksheet).take(sheets.len() as int) == sheets,
        (exists|i: int| 0 <= i < sheets.len() && (#[trigger] sheets[i]).0 == worksheet)
            ==> with_sheet(sheets, worksheet).len() == sheets.len(),
        (forall|i: int| 0 <= i < sheets.len() ==> (#[trigger] sheets[i]).0 != worksheet) ==> {
            &&& with_sheet(sheets, worksheet).len() == sheets.len() + 1
            &&& with_sheet(sheets, worksheet).last() == (
                worksheet,
                Map::<(u32, u32), Seq<char>>::empty(),
                0u32,
            )
        },
{
    law_sheet_at(sheets, worksheet);
    assert(with_sheet(sheets, worksheet).take(sheets.len() as int) =~= sheets);
}

/// Writing dates changes the first worksheet of that name and no other.
pub proof fn law_other_sheets_kept(
    sheets: Seq<(Seq<char>, Map<(u32, u32), Seq<char>>, u32)>,
    worksheet: Seq<char>,
    changes: Seq<SheetWrite>,
    i: int,
)
    requires
        0 <= i < sheets.len(),
        sheets[i].0 == worksheet,
        forall|j: int| 0 <= j < i ==> (#[trigger] sheets[j]).0 != worksheet,
    ensures
        ({
            let after = sheets_dated(sheets, worksheet, changes);
            &&& after.len() == sheets.len()
            &&& after[i].0 == worksheet
            &&& (after[i].1, after[i].2) == dated(sheets[i].1, sheets[i].2, changes)
            &&& forall|j: int| 0 <= j < sheets.len() && j != i ==> #[trigger] after[j] == sheets[j]
            &&& rows_of(after, worksheet) == first_columns(after[i].1, after[i].2)
        }),
{
    law_sheet_at(sheets, worksheet);
    let at = sheet_at(sheets, worksheet)->0;
    assert(at == i);
    let (cells, last_row) = dated(sheets[i].1, sheets[i].2, changes);
    lemma_same_place(sheets, worksheet, cells, last_row);
}

} // verus!
