//! Texts and numbers in JSON.

use vstd::prelude::*;
use vstd::string::*;
use crate::cli::{digits_value, law_decimal_read};
use crate::text::{decimal, decimal_text, hex_digit};

verus! {

/// A character inside a JSON text: quotation marks, backslashes and control characters are escaped,
/// all others stand for themselves.
pub open spec fn json_char(c: char) -> Seq<char> {
    let code = c as u32;
    if c == '"' || c == '\\' {
        seq!['\\', c]
    } else if code == 8 {
        seq!['\\', 'b']
    } else if code == 9 {
        seq!['\\', 't']
    } else if code == 10 {
        seq!['\\', 'n']
    } else if code == 12 {
        seq!['\\', 'f']
    } else if code == 13 {
        seq!['\\', 'r']
    } else if code < 32 {
        seq!['\\', 'u', '0', '0', hex_digit((code / 16) as u8), hex_digit((code % 16) as u8)]
    } else {
        seq![c]
    }
}

/// The characters of a text, each as it stands in JSON.
pub open spec fn json_chars(s: Seq<char>) -> Seq<char>
    decreases s.len(),
{
    if s.len() == 0 {
        Seq::empty()
    } else {
        json_chars(s.drop_last()) + json_char(s.last())
    }
}

/// A text in JSON.
pub open spec fn json_text(s: Seq<char>) -> Seq<char> {
    seq!['"'] + json_chars(s) + seq!['"']
}

/// `serde_json::to_string` on a text: the text in quotation marks, with quotation marks, backslashes
/// and control characters escaped. It does not fail on a text.
#[verifier::external_body]
pub(crate) fn quoted(s: &str) -> (r: String)
    ensures
        r@ == json_text(s@),
{
    serde_json::to_string(s).expect("a text")
}

/// A whole number in JSON.
pub open spec fn json_number(n: int) -> Seq<char> {
    if n < 0 {
        seq!['-'] + decimal((-n) as nat)
    } else {
        decimal(n as nat)
    }
}

/// A whole number in JSON.
pub fn number_text(n: i64) -> (r: String)
    ensures
        r@ == json_number(n as int),
{
    if n < 0 {
        let mut text: String = String::new();
        text.push('-');
        text.append(decimal_text((-(n as i128)) as u64).as_str());
        assert(text@ =~= json_number(n as int));
        text
    } else {
        decimal_text(n as u64)
    }
}

/// A number in JSON is read as that number, behind a hyphen if it is negative.
pub proof fn law_json_number(n: int)
    ensures
        n >= 0 ==> digits_value(json_number(n)) == n,
        n < 0 ==> json_number(n)[0] == '-' && digits_value(json_number(n).skip(1)) == -n,
{
    if n >= 0 {
        law_decimal_read(n as nat);
    } else {
        law_decimal_read((-n) as nat);
        assert(json_number(n).skip(1) =~= decimal((-n) as nat));
    }
}

} // verus!
