//! Spreadsheet backends, and the changes that are written to them.

use vstd::prelude::*;
use vstd::string::*;
use crate::text::chars_of;

verus! {

/// The kind of spreadsheet that a sheet key names.
#[derive(Clone, Copy, Debug, PartialEq, Eq, Structural)]
pub enum ProviderType {
    Google,
    ExcelLocal,
    ExcelOnline,
}

/// One change to a worksheet: worked time for a row, and for a new row the date as well.
#[derive(Clone, Debug)]
pub struct SheetWrite {
    /// Counted from 1.
    pub row: usize,
    /// The text for the date column; `None` leaves that column as it is.
    pub date: Option<String>,
    /// Worked time in nanoseconds.
    pub worked: i128,
}

/// A change as plain values.
#[verifier::ext_equal]
pub struct SheetWriteModel {
    pub row: int,
    pub date: Option<Seq<char>>,
    pub worked: int,
}

impl View for SheetWrite {
    type V = SheetWriteModel;

    open spec fn view(&self) -> SheetWriteModel {
        SheetWriteModel {
            row: self.row as int,
            date: match self.date {
                Some(d) => Some(d@),
                None => None,
            },
            worked: self.worked as int,
        }
    }
}

/// `c` in lower case, if it is an ASCII letter.
pub open spec fn ascii_lower(c: char) -> char {
    if 'A' <= c && c <= 'Z' {
        (c as u8 + 32) as u8 as char
    } else {
        c
    }
}

/// Whether `s` ends in `ext`, ASCII letters of either case taken as one.
pub open spec fn has_extension(s: Seq<char>, ext: Seq<char>) -> bool {
    &&& s.len() >= ext.len()
    &&& forall|i: int|
        0 <= i < ext.len() ==> ascii_lower(#[trigger] s[s.len() - ext.len() + i]) == ascii_lower(
            ext[i],
        )
}

/// The backend of a sheet key: a local file for `.xlsx` and `.xls`, Excel Online for a key with a
/// slash, Google Sheets for anything else.
pub open spec fn provider_of(sheet_key: Seq<char>) -> ProviderType {
    if has_extension(sheet_key, ".xlsx"@) || has_extension(sheet_key, ".xls"@) {
        ProviderType::ExcelLocal
    } else if sheet_key.contains('/') {
        ProviderType::ExcelOnline
    } else {
        ProviderType::Google
    }
}

fn to_lower(c: char) -> (r: char)
    ensures
        r == ascii_lower(c),
{
    if 'A' <= c && c <= 'Z' {
        (c as u8 + 32) as char
    } else {
        c
    }
}

fn ends_in(v: &Vec<char>, ext: &str) -> (r: bool)
    ensures
        r == has_extension(v@, ext@),
{
    let e: Vec<char> = chars_of(ext);
    if v.len() < e.len() {
        return false;
    }
    let from: usize = v.len() - e.len();
    let mut i: usize = 0;
    while i < e.len()
        invariant
            i <= e.len(),
            e@ == ext@,
            from + e.len() == v.len(),
            forall|j: int|
                0 <= j < i ==> ascii_lower(#[trigger] v@[v@.len() - ext@.len() + j]) == ascii_lower(
                    ext@[j],
                ),
        decreases e.len() - i,
    {
        if to_lower(v[from + i]) != to_lower(e[i]) {
            assert(ascii_lower(v@[v@.len() - ext@.len() + i]) != ascii_lower(ext@[i as int]));
            return false;
        }
        i += 1;
    }
    true
}

/// The backend that a sheet key names.
pub fn infer_provider(sheet_key: &str) -> (r: ProviderType)
    ensures
        r == provider_of(sheet_key@),
{
    let v: Vec<char> = chars_of(sheet_key);
    if ends_in(&v, ".xlsx") || ends_in(&v, ".xls") {
        return ProviderType::ExcelLocal;
    }
    let mut i: usize = 0;
    while i < v.len()
        invariant
            i <= v.len(),
            v@ == sheet_key@,
            forall|j: int| 0 <= j < i ==> #[trigger] v@[j] != '/',
            !has_extension(v@, ".xlsx"@),
            !has_extension(v@, ".xls"@),
        decreases v.len() - i,
    {
        if v[i] == '/' {
            assert(v@.contains('/'));
            return ProviderType::ExcelOnline;
        }
        i += 1;
    }
    ProviderType::Google
}

/// Whether `c` is the letter whose lower case is `small` and whose upper case is `great`.
pub open spec fn either_case(c: char, small: char, great: char) -> bool {
    c == small || c == great
}

/// A key names a local file just when it ends in a dot and the letters `xlsx` or `xls`, each in either
/// case.
pub proof fn law_file_keys(s: Seq<char>)
    ensures
        provider_of(s) == ProviderType::ExcelLocal <==> {
            let n = s.len() as int;
            ||| n >= 5 && s[n - 5] == '.' && either_case(s[n - 4], 'x', 'X') && either_case(
                s[n - 3],
                'l',
                'L',
            ) && either_case(s[n - 2], 's', 'S') && either_case(s[n - 1], 'x', 'X')
            ||| n >= 4 && s[n - 4] == '.' && either_case(s[n - 3], 'x', 'X') && either_case(
                s[n - 2],
                'l',
                'L',
            ) && either_case(s[n - 1], 's', 'S')
        },
        provider_of(s) == ProviderType::ExcelOnline ==> s.contains('/'),
        provider_of(s) == ProviderType::Google ==> !s.contains('/'),
{
    reveal_strlit(".xlsx");
    reveal_strlit(".xls");
    let n = s.len() as int;
    if n >= 5 {
        lemma_cases(s[n - 5]);
        lemma_cases(s[n - 4]);
        lemma_cases(s[n - 3]);
        lemma_cases(s[n - 2]);
        lemma_cases(s[n - 1]);
        let e = ".xlsx"@;
        assert(e[0] == '.' && e[1] == 'x' && e[2] == 'l' && e[3] == 's' && e[4] == 'x');
        if has_extension(s, e) {
            assert(ascii_lower(s[n - 5 + 0]) == ascii_lower(e[0]));
            assert(ascii_lower(s[n - 5 + 1]) == ascii_lower(e[1]));
            assert(ascii_lower(s[n - 5 + 2]) == ascii_lower(e[2]));
            assert(ascii_lower(s[n - 5 + 3]) == ascii_lower(e[3]));
            assert(ascii_lower(s[n - 5 + 4]) == ascii_lower(e[4]));
        } else {
            let i = choose|i: int|
                0 <= i < 5 && ascii_lower(#[trigger] s[s.len() - 5 + i]) != ascii_lower(e[i]);
            assert(i == 0 || i == 1 || i == 2 || i == 3 || i == 4);
        }
    }
    if n >= 4 {
        lemma_cases(s[n - 4]);
        lemma_cases(s[n - 3]);
        lemma_cases(s[n - 2]);
        lemma_cases(s[n - 1]);
        let e = ".xls"@;
        assert(e[0] == '.' && e[1] == 'x' && e[2] == 'l' && e[3] == 's');
        if has_extension(s, e) {
            assert(ascii_lower(s[n - 4 + 0]) == ascii_lower(e[0]));
            assert(ascii_lower(s[n - 4 + 1]) == ascii_lower(e[1]));
            assert(ascii_lower(s[n - 4 + 2]) == ascii_lower(e[2]));
            assert(ascii_lower(s[n - 4 + 3]) == ascii_lower(e[3]));
        } else {
            let i = choose|i: int|
                0 <= i < 4 && ascii_lower(#[trigger] s[s.len() - 4 + i]) != ascii_lower(e[i]);
            assert(i == 0 || i == 1 || i == 2 || i == 3);
        }
    }
}

proof fn lemma_cases(c: char)
    ensures
        ascii_lower(c) == '.' <==> c == '.',
        ascii_lower(c) == 'x' <==> either_case(c, 'x', 'X'),
        ascii_lower(c) == 'l' <==> either_case(c, 'l', 'L'),
        ascii_lower(c) == 's' <==> either_case(c, 's', 'S'),
{
    if 'A' <= c && c <= 'Z' {
        assert((c as u8 + 32) as u8 as char as u32 == c as u32 + 32);
    }
}

} // verus!
