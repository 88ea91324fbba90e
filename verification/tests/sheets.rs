use aw_work_sync::excel_local::{
    ensure_worksheet, hour_cells, new_workbook, resolve_path, sheet_to_rows, worksheet_rows,
    write_dates, FilePath,
};
use aw_work_sync::excel_online::{
    address, batch_url, batches, parse_sheet_key, rows_to_strings, token_url, used_range_url,
    value_to_string, workbook_url, CellValue,
};
use aw_work_sync::google_sheets::{
    all_values_url, append_row_url, batch_update_url, jwt_claims, range_updates, range_url,
    update_cell_url,
};
use aw_work_sync::provider::{infer_provider, ProviderType, SheetWrite};
use aw_work_sync::time::SECOND;
use aw_work_sync::token::{take_answer, token_action, TokenAction, TokenState};

fn write(row: usize, date: Option<&str>, worked: i128) -> SheetWrite {
    SheetWrite { row, date: date.map(|d| d.to_string()), worked }
}

#[test]
fn backends() {
    let local = ["a.xlsx", "~/x.XLS", "dir/x.Xlsx", "é.xls", ".xlsx", ".xls"];
    for key in local {
        assert_eq!(infer_provider(key), ProviderType::ExcelLocal);
    }
    for key in ["a/b", "/", "x.xlsx/y", "a.xlsm/"] {
        assert_eq!(infer_provider(key), ProviderType::ExcelOnline);
    }
    for key in ["", "id", "a.xlsm", "xlsx", "xls"] {
        assert_eq!(infer_provider(key), ProviderType::Google);
    }
}

#[test]
fn online_keys() {
    let (drive, item) = parse_sheet_key("b!d/01A/x").unwrap();
    assert_eq!((drive.as_str(), item.as_str()), ("b!d", "01A/x"));
    assert!(parse_sheet_key("id").is_err());
    let (drive, item) = parse_sheet_key("/").unwrap();
    assert_eq!((drive.as_str(), item.as_str()), ("", ""));
}

#[test]
fn online_addresses() {
    assert_eq!(workbook_url("d", "i"), "https://graph.microsoft.com/v1.0/drives/d/items/i/workbook");
    assert_eq!(
        used_range_url("d", "i", "worked-é x"),
        "https://graph.microsoft.com/v1.0/drives/d/items/i/workbook/worksheets/worked-%C3%A9%20x/usedRange"
    );
    assert_eq!(batch_url(), "https://graph.microsoft.com/v1.0/$batch");
    assert_eq!(token_url("t"), "https://login.microsoftonline.com/t/oauth2/v2.0/token");
    assert_eq!(address(3, true), "A3:B3");
    assert_eq!(address(12, false), "B12");
}

#[test]
fn online_values() {
    assert_eq!(value_to_string(CellValue::Text("a".to_string())), "a");
    assert_eq!(value_to_string(CellValue::Number("1.5".to_string())), "1.5");
    assert_eq!(value_to_string(CellValue::Bool(true)), "true");
    assert_eq!(value_to_string(CellValue::Bool(false)), "false");
    assert_eq!(value_to_string(CellValue::Empty), "");
    assert_eq!(value_to_string(CellValue::Other("[1]".to_string())), "[1]");
    let rows = vec![vec![CellValue::Text("x".to_string()), CellValue::Empty], vec![]];
    assert_eq!(rows_to_strings(Some(rows)), vec![vec!["x".to_string(), String::new()], vec![]]);
    assert!(rows_to_strings(None).is_empty());
}

#[test]
fn online_batches() {
    let changes: Vec<SheetWrite> =
        (1..=41).map(|row| write(row, if row == 1 { None } else { Some("2024-01-01") }, 60)).collect();
    let all = batches("d", "i", "w x", &changes);
    assert_eq!(all.iter().map(|b| b.len()).collect::<Vec<_>>(), vec![20, 20, 1]);
    assert_eq!(all[0][0].id, "0");
    assert_eq!(
        all[0][0].url,
        "/drives/d/items/i/workbook/worksheets/w%20x/range(address='B1')"
    );
    assert_eq!(all[0][0].date, None);
    assert_eq!(all[1][19].id, "19");
    assert_eq!(
        all[2][0].url,
        "/drives/d/items/i/workbook/worksheets/w%20x/range(address='A41:B41')"
    );
    assert_eq!(all[2][0].date.as_deref(), Some("2024-01-01"));
    assert_eq!(all[2][0].worked, 60);
    assert!(batches("d", "i", "w", &vec![]).is_empty());
}

#[test]
fn google_addresses() {
    assert_eq!(
        range_url("key", "worked-x", "A1"),
        "https://sheets.googleapis.com/v4/spreadsheets/key/values/%27worked-x%27%21A1"
    );
    assert_eq!(
        all_values_url("key", "w"),
        "https://sheets.googleapis.com/v4/spreadsheets/key/values/%27w%27%21A%3AZ"
    );
    assert_eq!(
        batch_update_url("key"),
        "https://sheets.googleapis.com/v4/spreadsheets/key/values:batchUpdate"
    );
    assert_eq!(
        update_cell_url("key", "w", 7),
        "https://sheets.googleapis.com/v4/spreadsheets/key/values/%27w%27%21B7?valueInputOption=USER_ENTERED"
    );
    assert_eq!(
        append_row_url("key", "w"),
        "https://sheets.googleapis.com/v4/spreadsheets/key/values/%27w%27%21A%3AB:append?valueInputOption=USER_ENTERED"
    );
}

#[test]
fn google_updates() {
    let list = range_updates("w", &vec![write(3, None, 5), write(4, Some("2024-01-02"), 6)]);
    assert_eq!(list.len(), 2);
    assert_eq!((list[0].range.as_str(), list[0].worked), ("'w'!B3", 5));
    assert_eq!(list[0].date, None);
    assert_eq!((list[1].range.as_str(), list[1].worked), ("'w'!A4:B4", 6));
    assert_eq!(list[1].date.as_deref(), Some("2024-01-02"));
}

#[test]
fn google_claims() {
    let claims = jwt_claims("me@x", "https://t", 1000);
    assert_eq!((claims.iss.as_str(), claims.aud.as_str()), ("me@x", "https://t"));
    assert_eq!(claims.scope, "https://www.googleapis.com/auth/spreadsheets");
    assert_eq!((claims.iat, claims.exp), (1000, 4600));
}

#[test]
fn tokens_are_reused_and_renewed() {
    let used = |state: &TokenState, secs: i128| match token_action(state, secs * SECOND) {
        TokenAction::Use(token) => Some(token),
        TokenAction::Refresh => None,
    };
    let mut state = TokenState { token: "t".to_string(), obtained_at: 10 * SECOND };
    assert_eq!(used(&state, 10).as_deref(), Some("t"));
    assert_eq!(used(&state, 3010).as_deref(), Some("t"));
    assert!(matches!(token_action(&state, 3011 * SECOND - 1), TokenAction::Use(_)));
    assert_eq!(used(&state, 3011), None);
    let failed: Result<String, i32> = take_answer(&mut state, Err(7), 3012 * SECOND);
    assert_eq!(failed, Err(7));
    assert_eq!((state.token.as_str(), state.obtained_at), ("t", 10 * SECOND));
    assert_eq!(used(&state, 3013), None);
    let renewed: Result<String, i32> = take_answer(&mut state, Ok("u".to_string()), 3014 * SECOND);
    assert_eq!(renewed, Ok("u".to_string()));
    assert_eq!(used(&state, 6014).as_deref(), Some("u"));
    assert_eq!(used(&state, 6015), None);
}

#[test]
fn local_paths() {
    match resolve_path("~/a.xlsx") {
        FilePath::UnderHome(rest) => assert_eq!(rest, "a.xlsx"),
        _ => panic!("under home"),
    }
    match resolve_path("~/~/a.xlsx") {
        FilePath::UnderHome(rest) => assert_eq!(rest, "~/a.xlsx"),
        _ => panic!("under home"),
    }
    match resolve_path("~me/a.xlsx") {
        FilePath::UnderHome(rest) => assert_eq!(rest, "~me/a.xlsx"),
        _ => panic!("under home"),
    }
    match resolve_path("/a/~/b.xls") {
        FilePath::AsGiven(path) => assert_eq!(path, "/a/~/b.xls"),
        _ => panic!("as given"),
    }
}

#[test]
fn local_workbooks() {
    let names = |book: &umya_spreadsheet::Spreadsheet| -> Vec<String> {
        book.get_sheet_collection().iter().map(|s| s.get_name().to_string()).collect()
    };
    let mut book = new_workbook("worked-x");
    assert_eq!(names(&book), vec!["Sheet1", "worked-x"]);
    ensure_worksheet(&mut book, "worked-x");
    assert_eq!(names(&book), vec!["Sheet1", "worked-x"]);
    ensure_worksheet(&mut book, "worked-y");
    assert_eq!(names(&book), vec!["Sheet1", "worked-x", "worked-y"]);
    assert_eq!(names(&new_workbook("Sheet1")), vec!["Sheet1"]);
}

#[test]
fn local_dates_are_read_back() {
    let mut book = new_workbook("w");
    assert!(worksheet_rows(Some(&book), "w").is_empty());
    assert!(worksheet_rows(Some(&book), "v").is_empty());
    assert!(worksheet_rows(None, "w").is_empty());
    let hour = 3600 * SECOND;
    let changes = vec![write(1, Some("2024-01-01"), hour), write(2, Some("2024-01-02"), hour / 2)];
    write_dates(&mut book, "w", &changes);
    for (row, worked) in hour_cells(&changes) {
        let sheet = book.get_sheet_by_name_mut("w").unwrap();
        sheet.get_cell_mut((2u32, row)).set_value_number(worked as f64 / hour as f64);
    }
    let first = vec![vec!["2024-01-01", "1"], vec!["2024-01-02", "0.5"]];
    assert_eq!(worksheet_rows(Some(&book), "w"), first);
    assert_eq!(sheet_to_rows(book.get_sheet_by_name("w").unwrap()), first);
    write_dates(&mut book, "w", &vec![write(2, None, 2 * hour), write(4, Some("2024-01-04"), 0)]);
    assert_eq!(
        worksheet_rows(Some(&book), "w"),
        vec![vec!["2024-01-01", "1"], vec!["2024-01-02", "0.5"], vec!["", ""], vec!["2024-01-04", ""]]
    );
    ensure_worksheet(&mut book, "v");
    assert_eq!(worksheet_rows(Some(&book), "w").len(), 4);
    assert!(worksheet_rows(Some(&book), "v").is_empty());
    assert!(worksheet_rows(Some(&book), "Sheet1").is_empty());
    assert_eq!(hour_cells(&vec![write(2, None, 7200)]), vec![(2, 7200)]);
}
