//! Google Sheets: addresses, updates, and what a service account claims.

use jsonwebtoken::encode as encode_token;
use jsonwebtoken::{Algorithm, EncodingKey, Header};
use serde_json::value::RawValue;
use vstd::prelude::*;
use vstd::string::*;
use crate::excel_online::{address, address_text};
use crate::json::{json_number, json_text, number_text, quoted};
use crate::provider::SheetWrite;
use crate::text::{decimal, decimal_text};
use crate::url::{encode, encoded};

verus! {

/// A range of cells of a worksheet, as a formula names it.
pub open spec fn full_range_text(worksheet: Seq<char>, range: Seq<char>) -> Seq<char> {
    "'"@ + worksheet + "'!"@ + range
}

/// A range of cells of a worksheet.
pub fn full_range(worksheet: &str, range: &str) -> (r: String)
    ensures
        r@ == full_range_text(worksheet@, range@),
        r@ == "'"@ + worksheet@ + "'!"@ + range@,
{
    let mut text: String = "'".to_owned();
    text.append(worksheet);
    text.append("'!");
    text.append(range);
    text
}

/// The address of a range of cells.
pub open spec fn range_url_text(
    sheet_key: Seq<char>,
    worksheet: Seq<char>,
    range: Seq<char>,
) -> Seq<char> {
    "https://sheets.googleapis.com/v4/spreadsheets"@ + "/"@ + sheet_key + "/values/"@ + encoded(
        full_range_text(worksheet, range),
    )
}

/// The address of a range of cells.
pub fn range_url(sheet_key: &str, worksheet: &str, range: &str) -> (r: String)
    ensures
        r@ == range_url_text(sheet_key@, worksheet@, range@),
        r@ == "https://sheets.googleapis.com/v4/spreadsheets"@ + "/"@ + sheet_key@ + "/values/"@
            + encoded("'"@ + worksheet@ + "'!"@ + range@),
{
    let mut url: String = "https://sheets.googleapis.com/v4/spreadsheets".to_owned();
    url.append("/");
    url.append(sheet_key);
    url.append("/values/");
    url.append(encode(full_range(worksheet, range).as_str()).as_str());
    url
}

/// The address that all cells of a worksheet are read from.
pub fn all_values_url(sheet_key: &str, worksheet: &str) -> (r: String)
    ensures
        r@ == range_url_text(sheet_key@, worksheet@, "A:Z"@),
{
    range_url(sheet_key, worksheet, "A:Z")
}

/// The address that updates of several ranges are sent to.
pub fn batch_update_url(sheet_key: &str) -> (r: String)
    ensures
        r@ == "https://sheets.googleapis.com/v4/spreadsheets"@ + "/"@ + sheet_key@
            + "/values:batchUpdate"@,
{
    let mut url: String = "https://sheets.googleapis.com/v4/spreadsheets".to_owned();
    url.append("/");
    url.append(sheet_key);
    url.append("/values:batchUpdate");
    url
}

/// The address that new hours for a row, counted from 1, are sent to.
pub fn update_cell_url(sheet_key: &str, worksheet: &str, row: usize) -> (r: String)
    ensures
        r@ == range_url_text(sheet_key@, worksheet@, "B"@ + decimal(row as nat))
            + "?valueInputOption=USER_ENTERED"@,
{
    let mut cell: String = "B".to_owned();
    cell.append(decimal_text(row as u64).as_str());
    let mut url: String = range_url(sheet_key, worksheet, cell.as_str());
    url.append("?valueInputOption=USER_ENTERED");
    url
}

/// The address that a row to go behind the last one is sent to.
pub fn append_row_url(sheet_key: &str, worksheet: &str) -> (r: String)
    ensures
        r@ == range_url_text(sheet_key@, worksheet@, "A:B"@)
            + ":append?valueInputOption=USER_ENTERED"@,
{
    let mut url: String = range_url(sheet_key, worksheet, "A:B");
    url.append(":append?valueInputOption=USER_ENTERED");
    url
}

/// New contents for a range of cells.
#[derive(Debug)]
pub struct RangeUpdate {
    pub range: String,
    /// The text for the date column, when it is filled.
    pub date: Option<String>,
    /// Worked time in nanoseconds.
    pub worked: i128,
}

/// `update` makes the change `write`.
pub open spec fn updates(update: RangeUpdate, write: SheetWrite, worksheet: Seq<char>) -> bool {
    &&& update.range@ == full_range_text(
        worksheet,
        address_text(write.row as nat, write.date is Some),
    )
    &&& update.worked == write.worked
    &&& match (update.date, write.date) {
        (Some(a), Some(b)) => a@ == b@,
        (None, None) => true,
        _ => false,
    }
}

/// The changes as updates of ranges, one for each.
pub fn range_updates(worksheet: &str, changes: &Vec<SheetWrite>) -> (r: Vec<RangeUpdate>)
    ensures
        r.len() == changes.len(),
        forall|i: int|
            0 <= i < r.len() ==> updates(#[trigger] r@[i], changes@[i], worksheet@),
{
    let mut out: Vec<RangeUpdate> = Vec::new();
    let mut i: usize = 0;
    while i < changes.len()
        invariant
            i <= changes.len(),
            out.len() == i,
            forall|k: int| 0 <= k < i ==> updates(#[trigger] out@[k], changes@[k], worksheet@),
        decreases changes.len() - i,
    {
        let write: &SheetWrite = &changes[i];
        let cells: String = address(write.row, write.date.is_some());
        let date: Option<String> = match &write.date {
            Some(d) => Some(d.clone()),
            None => None,
        };
        out.push(
            RangeUpdate {
                range: full_range(worksheet, cells.as_str()),
                date,
                worked: write.worked,
            },
        );
        i += 1;
    }
    out
}

/// What a service account claims when it asks for a token.
#[derive(Debug)]
pub struct JwtClaims {
    pub iss: String,
    pub scope: String,
    pub aud: String,
    pub iat: i64,
    pub exp: i64,
}

/// The claims of a service account at `now`, in seconds since 1970: access to spreadsheets for an
/// hour.
pub fn jwt_claims(client_email: &str, token_uri: &str, now: i64) -> (r: JwtClaims)
    requires
        now + 3600 <= i64::MAX,
    ensures
        r.iss@ == client_email@,
        r.scope@ == "https://www.googleapis.com/auth/spreadsheets"@,
        r.aud@ == token_uri@,
        r.iat == now,
        r.exp == now + 3600,
{
    JwtClaims {
        iss: client_email.to_owned(),
        scope: "https://www.googleapis.com/auth/spreadsheets".to_owned(),
        aud: token_uri.to_owned(),
        iat: now,
        exp: now + 3600,
    }
}

/// The claims in JSON.
pub open spec fn claims_text(
    iss: Seq<char>,
    scope: Seq<char>,
    aud: Seq<char>,
    iat: int,
    exp: int,
) -> Seq<char> {
    "{\"iss\":"@ + json_text(iss) + ",\"scope\":"@ + json_text(scope) + ",\"aud\":"@ + json_text(aud)
        + ",\"iat\":"@ + json_number(iat) + ",\"exp\":"@ + json_number(exp) + "}"@
}

/// The claims in JSON.
pub fn claims_json(claims: &JwtClaims) -> (r: String)
    ensures
        r@ == claims_text(
            claims.iss@,
            claims.scope@,
            claims.aud@,
            claims.iat as int,
            claims.exp as int,
        ),
        r@ == "{\"iss\":"@ + json_text(claims.iss@) + ",\"scope\":"@ + json_text(claims.scope@)
            + ",\"aud\":"@ + json_text(claims.aud@) + ",\"iat\":"@ + json_number(claims.iat as int)
            + ",\"exp\":"@ + json_number(claims.exp as int) + "}"@,
{
    let mut text: String = "{\"iss\":".to_owned();
    text.append(quoted(claims.iss.as_str()).as_str());
    text.append(",\"scope\":");
    text.append(quoted(claims.scope.as_str()).as_str());
    text.append(",\"aud\":");
    text.append(quoted(claims.aud.as_str()).as_str());
    text.append(",\"iat\":");
    text.append(number_text(claims.iat).as_str());
    text.append(",\"exp\":");
    text.append(number_text(claims.exp).as_str());
    text.append("}");
    text
}

/// Why nothing was signed.
#[derive(Clone, Copy, Debug, PartialEq, Eq, Structural)]
pub enum SigningError {
    /// The key is not an RSA key in PEM.
    UnreadableKey,
    /// The key was read, but does not sign.
    NotSigned,
}

/// Whether `jsonwebtoken::EncodingKey::from_rsa_pem` reads a key from `pem`.
pub uninterp spec fn rsa_key_read(pem: Seq<char>) -> bool;

/// What `jsonwebtoken::encode` makes of claims, given as JSON, under RS256 with the key that
/// `jsonwebtoken::EncodingKey::from_rsa_pem` reads from `pem`, or `None` where it reports an error.
pub uninterp spec fn signed_token(pem: Seq<char>, claims: Seq<char>) -> Option<Seq<char>>;

/// `jsonwebtoken::encode` under RS256, on claims that `serde_json::value::RawValue` hands over as
/// they are written, with the key that `jsonwebtoken::EncodingKey::from_rsa_pem` reads. Whether the
/// key is read depends on its text alone, and the token on the key and the claims alone.
#[verifier::external_body]
fn sign_claims(pem: &str, claims: &str) -> (r: Result<String, SigningError>)
    ensures
        match r {
            Ok(token) => rsa_key_read(pem@) && signed_token(pem@, claims@) == Some(token@),
            Err(SigningError::UnreadableKey) => !rsa_key_read(pem@),
            Err(SigningError::NotSigned) => rsa_key_read(pem@) && signed_token(pem@, claims@) is None,
        },
{
    let key = EncodingKey::from_rsa_pem(pem.as_bytes()).map_err(|_| SigningError::UnreadableKey)?;
    let body = RawValue::from_string(claims.to_owned()).map_err(|_| SigningError::NotSigned)?;
    let header = Header::new(Algorithm::RS256);
    encode_token(&header, &body, &key).map_err(|_| SigningError::NotSigned)
}

/// What a service account asks for a token with at `now`: its claims, signed with its key.
pub fn service_assertion(private_key: &str, client_email: &str, token_uri: &str, now: i64) -> (r:
    Result<String, SigningError>)
    requires
        now + 3600 <= i64::MAX,
    ensures
        ({
            let signed = signed_token(
                private_key@,
                claims_text(
                    client_email@,
                    "https://www.googleapis.com/auth/spreadsheets"@,
                    token_uri@,
                    now as int,
                    now + 3600,
                ),
            );
            match r {
                Ok(token) => rsa_key_read(private_key@) && signed == Some(token@),
                Err(SigningError::UnreadableKey) => !rsa_key_read(private_key@),
                Err(SigningError::NotSigned) => rsa_key_read(private_key@) && signed is None,
            }
        }),
{
    let claims: JwtClaims = jwt_claims(client_email, token_uri, now);
    sign_claims(private_key, claims_json(&claims).as_str())
}

/// An update carries the worked time of its change, its date where it has one, and the cells of its
/// row in the worksheet: column B, and column A with it where the date is filled.
pub proof fn law_update(update: RangeUpdate, write: SheetWrite, worksheet: Seq<char>)
    requires
        updates(update, write, worksheet),
    ensures
        update.worked == write.worked,
        write.date matches Some(date) ==> (update.date matches Some(text) && text@ == date@),
        write.date is None ==> update.date is None,
        update.range@ == "'"@ + worksheet + "'!"@ + (match write.date {
            Some(_) => "A"@ + decimal(write.row as nat) + ":B"@ + decimal(write.row as nat),
            None => "B"@ + decimal(write.row as nat),
        }),
{
}

} // verus!
