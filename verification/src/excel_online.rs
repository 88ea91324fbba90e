//! Workbooks on OneDrive and SharePoint, through Microsoft Graph.

use vstd::prelude::*;
use vstd::string::*;
use crate::calendar::law_decimal_injective;
use crate::provider::SheetWrite;
use crate::text::{chars_of, decimal, decimal_text, text_of};
use crate::url::{encode, encoded};

verus! {

/// How many requests one batch may hold.
pub const BATCH_LIMIT: usize = 20;

/// A sheet key that does not name a drive and an item.
#[derive(Clone, Copy, Debug, PartialEq, Eq, Structural)]
pub struct NoItem;

/// The drive and the item that a sheet key names: what stands ahead of the first slash, and what
/// follows it.
pub fn parse_sheet_key(sheet_key: &str) -> (r: Result<(String, String), NoItem>)
    ensures
        match r {
            Ok((drive_id, item_id)) => !drive_id@.contains('/') && sheet_key@ == drive_id@ + seq!['/']
                + item_id@,
            Err(_) => !sheet_key@.contains('/'),
        },
{
    let v: Vec<char> = chars_of(sheet_key);
    let mut i: usize = 0;
    while i < v.len()
        invariant
            i <= v.len(),
            v@ == sheet_key@,
            forall|j: int| 0 <= j < i ==> #[trigger] v@[j] != '/',
        decreases v.len() - i,
    {
        if v[i] == '/' {
            let drive_id: String = text_of(&v, 0, i);
            let item_id: String = text_of(&v, i + 1, v.len());
            assert(v@ =~= drive_id@ + seq!['/'] + item_id@);
            return Ok((drive_id, item_id));
        }
        i += 1;
    }
    Err(NoItem)
}

/// A sheet key is split in one way only.
pub proof fn law_one_split(a1: Seq<char>, b1: Seq<char>, a2: Seq<char>, b2: Seq<char>)
    requires
        !a1.contains('/'),
        !a2.contains('/'),
        a1 + seq!['/'] + b1 == a2 + seq!['/'] + b2,
    ensures
        a1 == a2,
        b1 == b2,
{
    let t = a1 + seq!['/'] + b1;
    if a1.len() < a2.len() {
        assert(t[a1.len() as int] == '/');
        assert(a2[a1.len() as int] == '/');
    }
    if a2.len() < a1.len() {
        assert(t[a2.len() as int] == '/');
        assert(a1[a2.len() as int] == '/');
    }
    assert(a1 =~= t.take(a1.len() as int));
    assert(a2 =~= t.take(a1.len() as int));
    assert(b1 =~= t.skip(a1.len() as int + 1));
    assert(b2 =~= t.skip(a1.len() as int + 1));
}

/// Where Microsoft Graph keeps a workbook.
pub open spec fn workbook_url_text(drive_id: Seq<char>, item_id: Seq<char>) -> Seq<char> {
    "https://graph.microsoft.com/v1.0"@ + "/drives/"@ + drive_id + "/items/"@ + item_id
        + "/workbook"@
}

/// The address of a workbook.
pub fn workbook_url(drive_id: &str, item_id: &str) -> (r: String)
    ensures
        r@ == workbook_url_text(drive_id@, item_id@),
        r@ == "https://graph.microsoft.com/v1.0"@ + "/drives/"@ + drive_id@ + "/items/"@ + item_id@
            + "/workbook"@,
{
    let mut url: String = "https://graph.microsoft.com/v1.0".to_owned();
    url.append("/drives/");
    url.append(drive_id);
    url.append("/items/");
    url.append(item_id);
    url.append("/workbook");
    url
}

/// The address that the filled cells of a worksheet are read from.
pub fn used_range_url(drive_id: &str, item_id: &str, worksheet: &str) -> (r: String)
    ensures
        r@ == workbook_url_text(drive_id@, item_id@) + "/worksheets/"@ + encoded(worksheet@)
            + "/usedRange"@,
{
    let mut url: String = workbook_url(drive_id, item_id);
    url.append("/worksheets/");
    url.append(encode(worksheet).as_str());
    url.append("/usedRange");
    url
}

/// The address that batches are sent to.
pub fn batch_url() -> (r: String)
    ensures
        r@ == "https://graph.microsoft.com/v1.0"@ + "/$batch"@,
{
    let mut url: String = "https://graph.microsoft.com/v1.0".to_owned();
    url.append("/$batch");
    url
}

/// The address that an access token for a tenant is asked from.
pub fn token_url(tenant_id: &str) -> (r: String)
    ensures
        r@ == "https://login.microsoftonline.com/"@ + tenant_id@ + "/oauth2/v2.0/token"@,
{
    let mut url: String = "https://login.microsoftonline.com/".to_owned();
    url.append(tenant_id);
    url.append("/oauth2/v2.0/token");
    url
}

/// What a cell of a worksheet holds.
#[derive(Debug)]
pub enum CellValue {
    Text(String),
    /// A number, as it is written.
    Number(String),
    Bool(bool),
    Empty,
    /// Anything else, as it is written.
    Other(String),
}

/// The text of a cell.
pub open spec fn cell_text(v: CellValue) -> Seq<char> {
    match v {
        CellValue::Text(s) => s@,
        CellValue::Number(s) => s@,
        CellValue::Bool(b) => if b {
            "true"@
        } else {
            "false"@
        },
        CellValue::Empty => Seq::empty(),
        CellValue::Other(s) => s@,
    }
}

/// The text of a cell.
pub fn value_to_string(v: CellValue) -> (r: String)
    ensures
        r@ == cell_text(v),
        v matches CellValue::Text(s) ==> r@ == s@,
        v matches CellValue::Number(s) ==> r@ == s@,
        v matches CellValue::Bool(b) ==> r@ == (if b {
            "true"@
        } else {
            "false"@
        }),
        v matches CellValue::Other(s) ==> r@ == s@,
        v is Empty ==> r@.len() == 0,
{
    match v {
        CellValue::Text(s) => s,
        CellValue::Number(s) => s,
        CellValue::Bool(b) => if b {
            "true".to_owned()
        } else {
            "false".to_owned()
        },
        CellValue::Empty => String::new(),
        CellValue::Other(s) => s,
    }
}

/// The texts of all cells, row by row.
pub open spec fn cell_texts(rows: Seq<Vec<CellValue>>) -> Seq<Seq<Seq<char>>> {
    Seq::new(
        rows.len(),
        |i: int| Seq::new(rows[i]@.len(), |j: int| cell_text(rows[i]@[j])),
    )
}

/// The texts of the rows that a worksheet answered with; none, if it gave no rows.
pub fn rows_to_strings(rows: Option<Vec<Vec<CellValue>>>) -> (r: Vec<Vec<String>>)
    ensures
        r.deep_view() == (match rows {
            Some(rows) => cell_texts(rows@),
            None => Seq::empty(),
        }),
{
    let mut out: Vec<Vec<String>> = Vec::new();
    let rows: Vec<Vec<CellValue>> = match rows {
        Some(rows) => rows,
        None => Vec::new(),
    };
    let ghost all = rows@;
    for row in it: rows
        invariant
            it.seq() == all,
            out.len() == it.index(),
            forall|i: int|
                0 <= i < out.len() ==> (#[trigger] out@[i]).deep_view() == cell_texts(all)[i],
    {
        let mut texts: Vec<String> = Vec::new();
        let ghost cells = row@;
        for cell in cell_it: row
            invariant
                cell_it.seq() == cells,
                texts.len() == cell_it.index(),
                forall|j: int|
                    0 <= j < texts.len() ==> (#[trigger] texts@[j])@ == cell_text(cells[j]),
        {
            texts.push(value_to_string(cell));
        }
        assert(texts.deep_view() =~= Seq::new(cells.len(), |j: int| cell_text(cells[j])));
        out.push(texts);
    }
    assert(out.deep_view() =~= cell_texts(all));
    out
}

/// The cells that a change fills: date and hours of a new row, or the hours of an old one.
pub open spec fn address_text(row: nat, with_date: bool) -> Seq<char> {
    if with_date {
        "A"@ + decimal(row) + ":B"@ + decimal(row)
    } else {
        "B"@ + decimal(row)
    }
}

/// The cells that a change fills.
pub fn address(row: usize, with_date: bool) -> (r: String)
    ensures
        r@ == address_text(row as nat, with_date),
{
    let number: String = decimal_text(row as u64);
    let mut text: String = String::new();
    assert(Seq::<char>::empty() + "A"@ =~= "A"@);
    assert(Seq::<char>::empty() + "B"@ =~= "B"@);
    if with_date {
        text.append("A");
        text.append(number.as_str());
        text.append(":B");
    } else {
        text.append("B");
    }
    text.append(number.as_str());
    text
}

/// One request of a batch.
#[derive(Debug)]
pub struct BatchRequest {
    pub id: String,
    pub url: String,
    /// The text for the date column, when it is filled.
    pub date: Option<String>,
    /// Worked time in nanoseconds.
    pub worked: i128,
}

/// The address of some cells, relative to Microsoft Graph.
pub open spec fn range_url_text(
    drive_id: Seq<char>,
    item_id: Seq<char>,
    worksheet: Seq<char>,
    address: Seq<char>,
) -> Seq<char> {
    "/drives/"@ + drive_id + "/items/"@ + item_id + "/workbook/worksheets/"@ + encoded(worksheet)
        + "/range(address='"@ + address + "')"@
}

/// `request` makes the change `write` as number `idx` of its batch.
pub open spec fn requests(
    request: BatchRequest,
    write: SheetWrite,
    idx: nat,
    drive_id: Seq<char>,
    item_id: Seq<char>,
    worksheet: Seq<char>,
) -> bool {
    &&& request.id@ == decimal(idx)
    &&& request.url@ == range_url_text(
        drive_id,
        item_id,
        worksheet,
        address_text(write.row as nat, write.date is Some),
    )
    &&& request.worked == write.worked
    &&& match (request.date, write.date) {
        (Some(a), Some(b)) => a@ == b@,
        (None, None) => true,
        _ => false,
    }
}

/// How many batches `n` changes take.
pub open spec fn batch_count(n: nat) -> nat {
    (n + 19) / 20
}

/// The changes as batches of requests, twenty to a batch but for the last one, numbered from zero
/// in each.
pub fn batches(drive_id: &str, item_id: &str, worksheet: &str, changes: &Vec<SheetWrite>) -> (r: Vec<
    Vec<BatchRequest>,
>)
    ensures
        r.len() == batch_count(changes@.len()),
        changes.len() <= r.len() * 20 < changes.len() + 20,
        forall|k: int|
            0 <= k < changes.len() ==> k / 20 < r.len() && k % 20 < r@[k / 20].len() && r@[k / 20]@[k
                % 20].worked == (#[trigger] changes@[k]).worked,
        forall|b: int|
            0 <= b < r.len() ==> (#[trigger] r@[b]).len() == (if changes.len() - b * 20 < 20 {
                changes.len() - b * 20
            } else {
                20
            }),
        forall|b: int, i: int|
            0 <= b < r.len() && 0 <= i < r@[b].len() ==> requests(
                #[trigger] r@[b]@[i],
                changes@[b * 20 + i],
                i as nat,
                drive_id@,
                item_id@,
                worksheet@,
            ),
{
    let mut out: Vec<Vec<BatchRequest>> = Vec::new();
    let mut batch: Vec<BatchRequest> = Vec::new();
    let mut k: usize = 0;
    let encoded_sheet: String = encode(worksheet);
    while k < changes.len()
        invariant
            k <= changes.len(),
            encoded_sheet@ == encoded(worksheet@),
            batch.len() < 20,
            k == out.len() * 20 + batch.len(),
            forall|b: int| 0 <= b < out.len() ==> (#[trigger] out@[b]).len() == 20,
            forall|b: int, i: int|
                0 <= b < out.len() && 0 <= i < out@[b].len() ==> requests(
                    #[trigger] out@[b]@[i],
                    changes@[b * 20 + i],
                    i as nat,
                    drive_id@,
                    item_id@,
                    worksheet@,
                ),
            forall|i: int|
                0 <= i < batch.len() ==> requests(
                    #[trigger] batch@[i],
                    changes@[out.len() * 20 + i],
                    i as nat,
                    drive_id@,
                    item_id@,
                    worksheet@,
                ),
        decreases changes.len() - k,
    {
        let write: &SheetWrite = &changes[k];
        let with_date: bool = write.date.is_some();
        let mut url: String = "/drives/".to_owned();
        url.append(drive_id);
        url.append("/items/");
        url.append(item_id);
        url.append("/workbook/worksheets/");
        url.append(encoded_sheet.as_str());
        url.append("/range(address='");
        url.append(address(write.row, with_date).as_str());
        url.append("')");
        let date: Option<String> = match &write.date {
            Some(d) => Some(d.clone()),
            None => None,
        };
        let request = BatchRequest {
            id: decimal_text(batch.len() as u64),
            url,
            date,
            worked: write.worked,
        };
        let ghost before = batch@;
        batch.push(request);
        k += 1;
        assert(batch@[before.len() as int] == request);
        if batch.len() == BATCH_LIMIT {
            out.push(batch);
            batch = Vec::new();
        }
    }
    if batch.len() > 0 {
        out.push(batch);
    }
    out
}

/// Every change is sent, in a batch of at most twenty: batches of the sizes that `n` changes take hold
/// each of their numbers, no batch is empty, and the sizes add up to `n`.
pub proof fn law_every_change_sent(n: nat, sizes: Seq<int>)
    requires
        sizes.len() == batch_count(n),
        forall|b: int|
            0 <= b < sizes.len() ==> #[trigger] sizes[b] == (if n - b * 20 < 20 {
                n - b * 20
            } else {
                20
            }),
    ensures
        forall|b: int| 0 <= b < sizes.len() ==> 0 < #[trigger] sizes[b] <= 20,
        forall|k: int|
            0 <= k < n ==> 0 <= k / 20 < sizes.len() && k % 20 < #[trigger] sizes[k / 20],
        sizes.fold_left(0int, |sum: int, size: int| sum + size) == n,
{
    assert forall|k: int| 0 <= k < n implies 0 <= k / 20 < sizes.len() && k % 20
        < #[trigger] sizes[k / 20] by {
        assert(k / 20 < sizes.len());
    }
    lemma_sizes(n, sizes, sizes.len() as int);
    assert(sizes.take(sizes.len() as int) =~= sizes);
}

proof fn lemma_sizes(n: nat, sizes: Seq<int>, m: int)
    requires
        0 <= m <= sizes.len(),
        sizes.len() == batch_count(n),
        forall|b: int|
            0 <= b < sizes.len() ==> #[trigger] sizes[b] == (if n - b * 20 < 20 {
                n - b * 20
            } else {
                20
            }),
    ensures
        sizes.take(m).fold_left(0int, |sum: int, size: int| sum + size) == (if n < m * 20 {
            n as int
        } else {
            m * 20
        }),
    decreases m,
{
    reveal_with_fuel(Seq::fold_left, 2);
    if m > 0 {
        lemma_sizes(n, sizes, m - 1);
        assert(sizes.take(m).drop_last() =~= sizes.take(m - 1));
        assert(sizes.take(m).last() == sizes[m - 1]);
    }
}

/// No two changes of cells have the same address: it says the row, and whether the date is filled.
pub proof fn law_address_injective(row1: nat, date1: bool, row2: nat, date2: bool)
    requires
        address_text(row1, date1) == address_text(row2, date2),
    ensures
        row1 == row2,
        date1 == date2,
{
    reveal_strlit("A");
    reveal_strlit("B");
    reveal_strlit(":B");
    let t = address_text(row1, date1);
    assert(t[0] == (if date1 { 'A' } else { 'B' }));
    assert(address_text(row2, date2)[0] == (if date2 { 'A' } else { 'B' }));
    let (a, b) = (decimal(row1), decimal(row2));
    if date1 {
        assert(t.len() == 2 * a.len() + 3);
        assert(t.len() == 2 * b.len() + 3);
        assert(a =~= t.subrange(1, a.len() as int + 1));
        assert(b =~= t.subrange(1, a.len() as int + 1));
    } else {
        assert(a =~= t.skip(1));
        assert(b =~= t.skip(1));
    }
    law_decimal_injective(row1, row2);
}

/// A request carries the worked time of its change, its date where it has one, and the cells of its
/// row: column B, and column A with it where the date is filled.
pub proof fn law_request(
    request: BatchRequest,
    write: SheetWrite,
    idx: nat,
    drive_id: Seq<char>,
    item_id: Seq<char>,
    worksheet: Seq<char>,
)
    requires
        requests(request, write, idx, drive_id, item_id, worksheet),
    ensures
        request.id@ == decimal(idx),
        request.worked == write.worked,
        write.date matches Some(date) ==> (request.date matches Some(text) && text@ == date@),
        write.date is None ==> request.date is None,
        request.url@ == "/drives/"@ + drive_id + "/items/"@ + item_id + "/workbook/worksheets/"@
            + encoded(worksheet) + "/range(address='"@ + (match write.date {
            Some(_) => "A"@ + decimal(write.row as nat) + ":B"@ + decimal(write.row as nat),
            None => "B"@ + decimal(write.row as nat),
        }) + "')"@,
{
}

/// The texts of a worksheet are as many as its cells, row by row: texts and numbers as they stand,
/// `true` and `false`, and nothing for an empty cell.
pub proof fn law_cell_texts(rows: Seq<Vec<CellValue>>, i: int, j: int)
    requires
        0 <= i < rows.len(),
        0 <= j < rows[i]@.len(),
    ensures
        cell_texts(rows).len() == rows.len(),
        cell_texts(rows)[i].len() == rows[i]@.len(),
        ({
            let text = cell_texts(rows)[i][j];
            match rows[i]@[j] {
                CellValue::Text(s) => text == s@,
                CellValue::Number(s) => text == s@,
                CellValue::Bool(b) => text == if b {
                    "true"@
                } else {
                    "false"@
                },
                CellValue::Empty => text.len() == 0,
                CellValue::Other(s) => text == s@,
            }
        }),
{
}

} // verus!
