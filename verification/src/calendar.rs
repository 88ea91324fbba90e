//! Calendar dates, and the texts that dates and moments are written as.

use chrono::{DateTime, Datelike, NaiveDate, Utc};
use vstd::prelude::*;
use crate::cli::{digits_value, law_decimal_read};
use crate::text::{decimal, digit};
use crate::time::{in_instant_range, FIRST_INSTANT, LAST_INSTANT, SECOND};

verus! {

/// Leap years of the Gregorian calendar, carried on into the past.
pub open spec fn leap_year(y: int) -> bool {
    y % 4 == 0 && (y % 100 != 0 || y % 400 == 0)
}

/// How many days month `m` of year `y` has.
pub open spec fn days_in_month(y: int, m: int) -> int {
    if m == 2 {
        if leap_year(y) {
            29
        } else {
            28
        }
    } else if m == 4 || m == 6 || m == 9 || m == 11 {
        30
    } else {
        31
    }
}

/// A date that the calendar holds.
pub open spec fn valid_date(y: int, m: int, d: int) -> bool {
    -262143 <= y <= 262142 && 1 <= m <= 12 && 1 <= d <= days_in_month(y, m)
}

/// The days from 1970-01-01 to the first of January of year `y`.
pub open spec fn year_start(y: int) -> int {
    365 * (y - 1) + (y - 1) / 4 - (y - 1) / 100 + (y - 1) / 400 - 719162
}

/// The days of year `y` ahead of month `m`.
pub open spec fn month_start(y: int, m: int) -> int
    decreases m,
{
    if m <= 1 {
        0
    } else {
        month_start(y, m - 1) + days_in_month(y, m - 1)
    }
}

/// The days from 1970-01-01 to the date.
pub open spec fn day_number(y: int, m: int, d: int) -> int {
    year_start(y) + month_start(y, m) + d - 1
}

/// The date that is `day` days after 1970-01-01.
pub open spec fn date_of(day: int) -> (int, int, int) {
    choose|y: int, m: int, d: int| valid_date(y, m, d) && #[trigger] day_number(y, m, d) == day
}

/// `n` in decimal, with zeros in front up to `width` digits.
pub open spec fn zero_padded(n: nat, width: nat) -> Seq<char>
    decreases width,
{
    if width == 0 {
        Seq::empty()
    } else if width == 1 {
        decimal(n)
    } else {
        zero_padded(n / 10, (width - 1) as nat).push(digit(n % 10))
    }
}

/// A year: four digits, or a sign and at least four digits.
pub open spec fn year_text(y: int) -> Seq<char> {
    if 0 <= y <= 9999 {
        zero_padded(y as nat, 4)
    } else if y < 0 {
        seq!['-'] + zero_padded(-y as nat, 4)
    } else {
        seq!['+'] + zero_padded(y as nat, 4)
    }
}

/// A date as `YYYY-MM-DD`.
pub open spec fn date_text(y: int, m: int, d: int) -> Seq<char> {
    year_text(y) + seq!['-'] + zero_padded(m as nat, 2) + seq!['-'] + zero_padded(d as nat, 2)
}

/// A time of day as `hh:mm:ss`.
pub open spec fn clock_text(secs: int) -> Seq<char> {
    zero_padded((secs / 3600) as nat, 2) + seq![':'] + zero_padded((secs / 60 % 60) as nat, 2)
        + seq![':'] + zero_padded((secs % 60) as nat, 2)
}

/// A fraction of a second with three, six or nine digits; nothing for none.
pub open spec fn fraction_text(nanos: nat) -> Seq<char> {
    if nanos == 0 {
        Seq::empty()
    } else if nanos % 1_000_000 == 0 {
        seq!['.'] + zero_padded(nanos / 1_000_000, 3)
    } else if nanos % 1_000 == 0 {
        seq!['.'] + zero_padded(nanos / 1_000, 6)
    } else {
        seq!['.'] + zero_padded(nanos, 9)
    }
}

/// The moment `secs` seconds and `nanos` nanoseconds after 1970-01-01 00:00 UTC, as RFC 3339
/// writes it.
pub open spec fn rfc3339_text(secs: int, nanos: nat) -> Seq<char> {
    let (y, m, d) = date_of(secs / 86400);
    date_text(y, m, d) + seq!['T'] + clock_text(secs % 86400) + fraction_text(nanos) + seq![
        '+',
        '0',
        '0',
        ':',
        '0',
        '0',
    ]
}

/// The moment `t` as RFC 3339 writes it.
pub open spec fn instant_text(t: int) -> Seq<char> {
    rfc3339_text(t / SECOND as int, (t % SECOND as int) as nat)
}

/// `chrono::DateTime::to_rfc3339` on the UTC moment that `chrono::DateTime::from_timestamp`
/// makes of seconds and nanoseconds: the date, `T`, the time of day, the fraction of the second in
/// as few groups of three digits as it needs, and the offset `+00:00`.
#[verifier::external_body]
fn rfc3339(secs: i64, nanos: u32) -> (r: String)
    requires
        nanos < 1_000_000_000,
        in_instant_range(secs * SECOND + nanos),
    ensures
        r@ == rfc3339_text(secs as int, nanos as nat),
{
    DateTime::<Utc>::from_timestamp(secs, nanos).unwrap().to_rfc3339()
}

/// The moment `t` as RFC 3339 writes it.
pub fn to_rfc3339(t: i128) -> (r: String)
    requires
        in_instant_range(t as int),
    ensures
        r@ == instant_text(t as int),
{
    let past_first: i128 = t - FIRST_INSTANT;
    let secs: i64 = (past_first / SECOND) as i64 - 8_334_601_228_800;
    let nanos: u32 = (past_first % SECOND) as u32;
    assert(secs == t as int / SECOND as int && nanos == t as int % SECOND as int);
    rfc3339(secs, nanos)
}

/// A calendar date.
#[derive(Clone, Copy, Debug, PartialEq, Eq, Structural)]
pub struct Date {
    pub year: i32,
    pub month: u32,
    pub day: u32,
}

impl Date {
    /// A date that the calendar holds.
    pub open spec fn wf(self) -> bool {
        valid_date(self.year as int, self.month as int, self.day as int)
    }

    /// The date as `YYYY-MM-DD`.
    pub open spec fn text(self) -> Seq<char> {
        date_text(self.year as int, self.month as int, self.day as int)
    }

    /// Whether the date comes after `other`.
    pub open spec fn after(self, other: Date) -> bool {
        self.year > other.year || (self.year == other.year && (self.month > other.month || (
        self.month == other.month && self.day > other.day)))
    }

    /// Whether the date comes after `other`.
    pub fn is_after(self, other: Date) -> (r: bool)
        ensures
            r == self.after(other),
    {
        self.year > other.year || (self.year == other.year && (self.month > other.month || (
        self.month == other.month && self.day > other.day)))
    }
}

/// What `chrono::NaiveDate::parse_from_str` makes of `text` under the format `fmt`: year, month
/// and day, or `None` where it reports an error.
pub uninterp spec fn parsed_date(text: Seq<char>, fmt: Seq<char>) -> Option<(i32, u32, u32)>;

/// `chrono::NaiveDate::parse_from_str`: what it reads is a date of the calendar, and under the
/// format `%Y-%m-%d` it reads a date written as `YYYY-MM-DD` as that date.
#[verifier::external_body]
fn parse_ymd(text: &str, fmt: &str) -> (r: Option<(i32, u32, u32)>)
    ensures
        r == parsed_date(text@, fmt@),
        r matches Some((y, m, d)) ==> valid_date(y as int, m as int, d as int),
        forall|y: i32, m: u32, d: u32|
            fmt@ == "%Y-%m-%d"@ && valid_date(y as int, m as int, d as int) && text@ == date_text(
                y as int,
                m as int,
                d as int,
            ) ==> r == Some((y, m, d)),
{
    NaiveDate::parse_from_str(text, fmt).ok().map(|d| (d.year(), d.month(), d.day()))
}

/// `chrono::NaiveDate::format` under `%Y-%m-%d`: the date as `YYYY-MM-DD`, which
/// `chrono::NaiveDate::parse_from_str` reads back as the same date.
#[verifier::external_body]
fn format_ymd(year: i32, month: u32, day: u32, fmt: &str) -> (r: String)
    requires
        valid_date(year as int, month as int, day as int),
        fmt@ == "%Y-%m-%d"@,
    ensures
        r@ == date_text(year as int, month as int, day as int),
        parsed_date(r@, fmt@) == Some((year, month, day)),
{
    NaiveDate::from_ymd_opt(year, month, day).unwrap().format(fmt).to_string()
}

/// What a cell of the date column says: a date, or nothing that reads as one.
pub open spec fn cell_date(text: Seq<char>) -> Option<Date> {
    match parsed_date(text, "%Y-%m-%d"@) {
        Some((year, month, day)) => Some(Date { year, month, day }),
        None => None,
    }
}

/// The date that `text` says.
pub fn parse_date(text: &str) -> (r: Option<Date>)
    ensures
        r == cell_date(text@),
        r matches Some(date) ==> date.wf(),
        forall|date: Date| date.wf() && text@ == #[trigger] date.text() ==> r == Some(date),
{
    match parse_ymd(text, "%Y-%m-%d") {
        Some((year, month, day)) => Some(Date { year, month, day }),
        None => None,
    }
}

/// The date as `YYYY-MM-DD`.
pub fn format_date(date: Date) -> (r: String)
    requires
        date.wf(),
    ensures
        r@ == date.text(),
        cell_date(r@) == Some(date),
{
    format_ymd(date.year, date.month, date.day, "%Y-%m-%d")
}

/// A decimal digit.
pub open spec fn is_digit(c: char) -> bool {
    48 <= c as u32 <= 57
}

/// Nothing but decimal digits.
pub open spec fn all_digits(s: Seq<char>) -> bool {
    forall|i: int| 0 <= i < s.len() ==> is_digit(#[trigger] s[i])
}

/// A number is written in digits, as few as it takes to write it.
pub proof fn lemma_decimal(n: nat)
    ensures
        all_digits(decimal(n)),
        decimal(n).len() >= 1,
        n < 10 ==> decimal(n).len() == 1,
        n >= 10 ==> decimal(n).len() >= 2,
    decreases n,
{
    if n >= 10 {
        lemma_decimal(n / 10);
    }
}

/// Different numbers have different decimal texts.
pub proof fn law_decimal_injective(a: nat, b: nat)
    requires
        decimal(a) == decimal(b),
    ensures
        a == b,
    decreases a,
{
    lemma_decimal(a);
    lemma_decimal(b);
    assert(decimal(a).last() == digit(a % 10));
    assert(decimal(b).last() == digit(b % 10));
    assert(digit(a % 10) as u32 == 48 + a % 10);
    assert(digit(b % 10) as u32 == 48 + b % 10);
    if a >= 10 {
        assert(decimal(a / 10) =~= decimal(a).drop_last());
        assert(decimal(b / 10) =~= decimal(b).drop_last());
        law_decimal_injective(a / 10, b / 10);
    }
}

proof fn lemma_padded(n: nat, width: nat)
    requires
        width >= 1,
    ensures
        all_digits(zero_padded(n, width)),
        zero_padded(n, width).len() >= width,
    decreases width,
{
    if width == 1 {
        lemma_decimal(n);
    } else {
        lemma_padded(n / 10, (width - 1) as nat);
    }
}

proof fn lemma_padded_injective(a: nat, b: nat, width: nat)
    requires
        width >= 1,
        zero_padded(a, width) == zero_padded(b, width),
    ensures
        a == b,
    decreases width,
{
    if width == 1 {
        law_decimal_injective(a, b);
    } else {
        let x = zero_padded(a, width);
        let y = zero_padded(b, width);
        assert(x.last() == y.last());
        assert(zero_padded(a / 10, (width - 1) as nat) =~= x.drop_last());
        assert(zero_padded(b / 10, (width - 1) as nat) =~= y.drop_last());
        lemma_padded_injective(a / 10, b / 10, (width - 1) as nat);
    }
}

proof fn lemma_two(n: nat)
    requires
        n < 100,
    ensures
        zero_padded(n, 2).len() == 2,
        all_digits(zero_padded(n, 2)),
{
    lemma_padded(n, 2);
    lemma_decimal(n / 10);
    reveal_with_fuel(zero_padded, 2);
}

proof fn lemma_year_text(y: int)
    ensures
        year_text(y).len() >= 4,
        forall|i: int|
            0 <= i < year_text(y).len() ==> is_digit(#[trigger] year_text(y)[i]) || year_text(y)[i]
                == '-' || year_text(y)[i] == '+',
{
    lemma_padded(if y < 0 {
        -y as nat
    } else {
        y as nat
    }, 4);
}

proof fn lemma_year_injective(a: int, b: int)
    requires
        year_text(a) == year_text(b),
    ensures
        a == b,
{
    let na: nat = if a < 0 {
        -a as nat
    } else {
        a as nat
    };
    let nb: nat = if b < 0 {
        -b as nat
    } else {
        b as nat
    };
    lemma_padded(na, 4);
    lemma_padded(nb, 4);
    assert(year_text(a)[0] == (if 0 <= a <= 9999 {
        zero_padded(na, 4)[0]
    } else if a < 0 {
        '-'
    } else {
        '+'
    }));
    assert(year_text(b)[0] == (if 0 <= b <= 9999 {
        zero_padded(nb, 4)[0]
    } else if b < 0 {
        '-'
    } else {
        '+'
    }));
    assert(is_digit(zero_padded(na, 4)[0]));
    assert(is_digit(zero_padded(nb, 4)[0]));
    if !(0 <= a <= 9999) {
        assert(zero_padded(na, 4) =~= year_text(a).drop_first());
        assert(zero_padded(nb, 4) =~= year_text(b).drop_first());
    }
    lemma_padded_injective(na, nb, 4);
}

proof fn lemma_date_text(y: int, m: int, d: int)
    requires
        1 <= m <= 12,
        1 <= d <= 31,
    ensures
        date_text(y, m, d).len() == year_text(y).len() + 6,
        forall|i: int|
            0 <= i < date_text(y, m, d).len() ==> is_digit(#[trigger] date_text(y, m, d)[i])
                || date_text(y, m, d)[i] == '-' || date_text(y, m, d)[i] == '+',
{
    lemma_year_text(y);
    lemma_two(m as nat);
    lemma_two(d as nat);
}

/// Different dates have different texts.
pub proof fn law_date_text_injective(a: Date, b: Date)
    requires
        a.wf(),
        b.wf(),
        a.text() == b.text(),
    ensures
        a == b,
{
    lemma_date_parts(
        a.year as int,
        a.month as int,
        a.day as int,
        b.year as int,
        b.month as int,
        b.day as int,
    );
}

proof fn lemma_date_parts(y1: int, m1: int, d1: int, y2: int, m2: int, d2: int)
    requires
        valid_date(y1, m1, d1),
        valid_date(y2, m2, d2),
        date_text(y1, m1, d1) == date_text(y2, m2, d2),
    ensures
        y1 == y2,
        m1 == m2,
        d1 == d2,
{
    let t = date_text(y1, m1, d1);
    let n = t.len() as int;
    lemma_date_text(y1, m1, d1);
    lemma_date_text(y2, m2, d2);
    lemma_two(m1 as nat);
    lemma_two(d1 as nat);
    lemma_two(m2 as nat);
    lemma_two(d2 as nat);
    assert(year_text(y1) =~= t.take(n - 6));
    assert(year_text(y2) =~= t.take(n - 6));
    lemma_year_injective(y1, y2);
    assert(zero_padded(m1 as nat, 2) =~= t.subrange(n - 5, n - 3));
    assert(zero_padded(m2 as nat, 2) =~= t.subrange(n - 5, n - 3));
    lemma_padded_injective(m1 as nat, m2 as nat, 2);
    assert(zero_padded(d1 as nat, 2) =~= t.subrange(n - 2, n));
    assert(zero_padded(d2 as nat, 2) =~= t.subrange(n - 2, n));
    lemma_padded_injective(d1 as nat, d2 as nat, 2);
}

proof fn lemma_clock(secs: int)
    requires
        0 <= secs < 86400,
    ensures
        clock_text(secs).len() == 8,
        forall|i: int|
            0 <= i < 8 ==> is_digit(#[trigger] clock_text(secs)[i]) || clock_text(secs)[i] == ':',
{
    lemma_two((secs / 3600) as nat);
    lemma_two((secs / 60 % 60) as nat);
    lemma_two((secs % 60) as nat);
}

proof fn lemma_clock_injective(a: int, b: int)
    requires
        0 <= a < 86400,
        0 <= b < 86400,
        clock_text(a) == clock_text(b),
    ensures
        a == b,
{
    lemma_two((a / 3600) as nat);
    lemma_two((a / 60 % 60) as nat);
    lemma_two((a % 60) as nat);
    lemma_two((b / 3600) as nat);
    lemma_two((b / 60 % 60) as nat);
    lemma_two((b % 60) as nat);
    let t = clock_text(a);
    assert(zero_padded((a / 3600) as nat, 2) =~= t.subrange(0, 2));
    assert(zero_padded((b / 3600) as nat, 2) =~= t.subrange(0, 2));
    lemma_padded_injective((a / 3600) as nat, (b / 3600) as nat, 2);
    assert(zero_padded((a / 60 % 60) as nat, 2) =~= t.subrange(3, 5));
    assert(zero_padded((b / 60 % 60) as nat, 2) =~= t.subrange(3, 5));
    lemma_padded_injective((a / 60 % 60) as nat, (b / 60 % 60) as nat, 2);
    assert(zero_padded((a % 60) as nat, 2) =~= t.subrange(6, 8));
    assert(zero_padded((b % 60) as nat, 2) =~= t.subrange(6, 8));
    lemma_padded_injective((a % 60) as nat, (b % 60) as nat, 2);
    assert(a == a / 3600 * 3600 + a / 60 % 60 * 60 + a % 60);
    assert(b == b / 3600 * 3600 + b / 60 % 60 * 60 + b % 60);
}

proof fn lemma_padded_len(n: nat, width: nat, limit: nat)
    requires
        width >= 1,
        limit == vstd::arithmetic::power::pow(10, width) as nat,
        n < limit,
    ensures
        zero_padded(n, width).len() == width,
    decreases width,
{
    reveal(vstd::arithmetic::power::pow);
    if width == 1 {
        reveal_with_fuel(vstd::arithmetic::power::pow, 2);
        lemma_decimal(n);
    } else {
        let less = vstd::arithmetic::power::pow(10, (width - 1) as nat);
        vstd::arithmetic::power::lemma_pow_positive(10, (width - 1) as nat);
        assert(limit == 10 * less);
        lemma_padded_len(n / 10, (width - 1) as nat, less as nat);
    }
}

proof fn lemma_fraction(nanos: nat)
    requires
        nanos < 1_000_000_000,
    ensures
        forall|i: int|
            0 <= i < fraction_text(nanos).len() ==> is_digit(#[trigger] fraction_text(nanos)[i])
                || fraction_text(nanos)[i] == '.',
        fraction_text(nanos).len() == (if nanos == 0 {
            0
        } else if nanos % 1_000_000 == 0 {
            4
        } else if nanos % 1_000 == 0 {
            7
        } else {
            10int
        }),
{
    assert(vstd::arithmetic::power::pow(10, 3) == 1000 && vstd::arithmetic::power::pow(10, 6)
        == 1_000_000 && vstd::arithmetic::power::pow(10, 9) == 1_000_000_000) by {
        reveal_with_fuel(vstd::arithmetic::power::pow, 10);
    }
    lemma_padded(nanos / 1_000_000, 3);
    lemma_padded(nanos / 1_000, 6);
    lemma_padded(nanos, 9);
    lemma_padded_len(nanos / 1_000_000, 3, 1000);
    lemma_padded_len(nanos / 1_000, 6, 1_000_000);
    lemma_padded_len(nanos, 9, 1_000_000_000);
}

proof fn lemma_fraction_injective(a: nat, b: nat)
    requires
        a < 1_000_000_000,
        b < 1_000_000_000,
        fraction_text(a) == fraction_text(b),
    ensures
        a == b,
{
    lemma_fraction(a);
    lemma_fraction(b);
    if a != 0 {
        let f = fraction_text(a).drop_first();
        if a % 1_000_000 == 0 {
            assert(zero_padded(a / 1_000_000, 3) =~= f);
            assert(zero_padded(b / 1_000_000, 3) =~= f);
            lemma_padded_injective(a / 1_000_000, b / 1_000_000, 3);
        } else if a % 1_000 == 0 {
            assert(zero_padded(a / 1_000, 6) =~= f);
            assert(zero_padded(b / 1_000, 6) =~= f);
            lemma_padded_injective(a / 1_000, b / 1_000, 6);
        } else {
            assert(zero_padded(a, 9) =~= f);
            assert(zero_padded(b, 9) =~= f);
            lemma_padded_injective(a, b, 9);
        }
    }
}

proof fn lemma_year_length(y: int)
    ensures
        year_start(y + 1) == year_start(y) + month_start(y, 12) + 31,
        365 <= year_start(y + 1) - year_start(y) <= 366,
{
    reveal_with_fuel(month_start, 13);
}

proof fn lemma_year_order(a: int, b: int)
    requires
        a < b,
    ensures
        year_start(a) < year_start(b),
    decreases b - a,
{
    lemma_year_length(b - 1);
    if a < b - 1 {
        lemma_year_order(a, b - 1);
    }
}

/// The year that a day falls in.
proof fn lemma_year_of(day: int) -> (y: int)
    ensures
        year_start(y) <= day < year_start(y + 1),
    decreases
            if day >= 0 {
                day
            } else {
                -day
            },
{
    if day == 0 {
        1970
    } else if day > 0 {
        let y = lemma_year_of(day - 1);
        lemma_year_length(y);
        lemma_year_length(y + 1);
        if day < year_start(y + 1) {
            y
        } else {
            y + 1
        }
    } else {
        let y = lemma_year_of(day + 1);
        lemma_year_length(y);
        lemma_year_length(y - 1);
        if year_start(y) <= day {
            y
        } else {
            y - 1
        }
    }
}

/// The month that a day of the year falls in.
proof fn lemma_month_of(y: int, rest: int, m: int) -> (found: int)
    requires
        1 <= m <= 12,
        0 <= rest < month_start(y, m) + days_in_month(y, m),
    ensures
        1 <= found <= m,
        month_start(y, found) <= rest < month_start(y, found) + days_in_month(y, found),
    decreases m,
{
    if month_start(y, m) <= rest {
        m
    } else {
        lemma_month_of(y, rest, m - 1)
    }
}

/// Every day of the calendar has a date.
pub proof fn law_date_of(day: int)
    requires
        FIRST_INSTANT <= day * 86400 * SECOND <= LAST_INSTANT,
    ensures
        ({
            let (y, m, d) = date_of(day);
            valid_date(y, m, d) && day_number(y, m, d) == day
        }),
{
    let y = lemma_year_of(day);
    lemma_year_length(y);
    let rest = day - year_start(y);
    let m = lemma_month_of(y, rest, 12);
    let d = rest - month_start(y, m) + 1;
    assert(-262143 <= y <= 262142) by {
        assert(year_start(-262143) * 86400 * SECOND == FIRST_INSTANT);
        assert(year_start(262143) * 86400 * SECOND == LAST_INSTANT + 1);
        if y < -262143 {
            if y + 1 < -262143 {
                lemma_year_order(y + 1, -262143);
            }
        }
        if y > 262142 {
            if y > 262143 {
                lemma_year_order(262143, y);
            }
        }
    }
    assert(valid_date(y, m, d) && day_number(y, m, d) == day);
}

proof fn lemma_rfc3339(secs: int, nanos: nat)
    requires
        nanos < 1_000_000_000,
        in_instant_range(secs * SECOND + nanos),
    ensures
        ({
            let (y, m, d) = date_of(secs / 86400);
            &&& valid_date(y, m, d)
            &&& day_number(y, m, d) == secs / 86400
            &&& rfc3339_text(secs, nanos).len() == date_text(y, m, d).len() + 15 + fraction_text(
                nanos,
            ).len()
        }),
        forall|i: int|
            0 <= i < rfc3339_text(secs, nanos).len() ==> #[trigger] rfc3339_text(secs, nanos)[i]
                != '|',
{
    let (y, m, d) = date_of(secs / 86400);
    law_date_of(secs / 86400);
    lemma_date_text(y, m, d);
    lemma_clock(secs % 86400);
    lemma_fraction(nanos);
    let t = rfc3339_text(secs, nanos);
    let a = date_text(y, m, d);
    let c = clock_text(secs % 86400);
    let f = fraction_text(nanos);
    assert forall|i: int| 0 <= i < t.len() implies #[trigger] t[i] != '|' by {
        if i < a.len() {
            assert(t[i] == a[i]);
        } else if i == a.len() {
        } else if i < a.len() + 9 {
            assert(t[i] == c[i - a.len() - 1]);
        } else if i < a.len() + 9 + f.len() {
            assert(t[i] == f[i - a.len() - 9]);
        }
    }
}

/// Different moments have different texts.
pub proof fn law_instant_text_injective(a: int, b: int)
    requires
        in_instant_range(a),
        in_instant_range(b),
        instant_text(a) == instant_text(b),
    ensures
        a == b,
{
    let (s1, n1) = (a / SECOND as int, (a % SECOND as int) as nat);
    let (s2, n2) = (b / SECOND as int, (b % SECOND as int) as nat);
    lemma_rfc3339(s1, n1);
    lemma_rfc3339(s2, n2);
    let (y1, m1, d1) = date_of(s1 / 86400);
    let (y2, m2, d2) = date_of(s2 / 86400);
    let t = instant_text(a);
    let (a1, a2) = (date_text(y1, m1, d1), date_text(y2, m2, d2));
    let (c1, c2) = (clock_text(s1 % 86400), clock_text(s2 % 86400));
    let (f1, f2) = (fraction_text(n1), fraction_text(n2));
    lemma_date_text(y1, m1, d1);
    lemma_date_text(y2, m2, d2);
    lemma_clock(s1 % 86400);
    lemma_clock(s2 % 86400);
    lemma_fraction(n1);
    lemma_fraction(n2);
    if a1.len() < a2.len() {
        assert(t[a1.len() as int] == 'T');
        assert(t[a1.len() as int] == a2[a1.len() as int]);
    }
    if a2.len() < a1.len() {
        assert(t[a2.len() as int] == 'T');
        assert(t[a2.len() as int] == a1[a2.len() as int]);
    }
    let n = a1.len() as int;
    assert(a1 =~= t.take(n));
    assert(a2 =~= t.take(n));
    lemma_date_parts(y1, m1, d1, y2, m2, d2);
    assert(c1 =~= t.subrange(n + 1, n + 9));
    assert(c2 =~= t.subrange(n + 1, n + 9));
    lemma_clock_injective(s1 % 86400, s2 % 86400);
    assert(f1 =~= t.subrange(n + 9, t.len() - 6));
    assert(f2 =~= t.subrange(n + 9, t.len() - 6));
    lemma_fraction_injective(n1, n2);
    assert(s1 == s2);
}

/// The text of a moment holds no `|`.
pub proof fn law_instant_text_plain(t: int)
    requires
        in_instant_range(t),
    ensures
        !instant_text(t).contains('|'),
{
    lemma_rfc3339(t / SECOND as int, (t % SECOND as int) as nat);
}

proof fn lemma_month_order(y: int, a: int, b: int)
    requires
        1 <= a < b <= 13,
    ensures
        month_start(y, a) + days_in_month(y, a) <= month_start(y, b),
    decreases b - a,
{
    if a < b - 1 {
        lemma_month_order(y, a, b - 1);
    }
}

proof fn lemma_day_order(a: Date, b: Date)
    requires
        a.wf(),
        b.wf(),
        a.after(b),
    ensures
        day_number(a.year as int, a.month as int, a.day as int) > day_number(
            b.year as int,
            b.month as int,
            b.day as int,
        ),
{
    let (ya, ma, yb, mb) = (a.year as int, a.month as int, b.year as int, b.month as int);
    if ya > yb {
        lemma_year_length(yb);
        if ya > yb + 1 {
            lemma_year_order(yb + 1, ya);
        }
        if mb < 12 {
            lemma_month_order(yb, mb, 12);
        }
        if ma > 1 {
            lemma_month_order(ya, 1, ma);
        }
        assert(month_start(ya, 1) == 0);
    } else if ma > mb {
        lemma_month_order(ya, mb, ma);
    }
}

/// A date comes after another just when more days have gone by since 1970-01-01, and is the same just
/// when as many have.
pub proof fn law_after(a: Date, b: Date)
    requires
        a.wf(),
        b.wf(),
    ensures
        a.after(b) <==> day_number(a.year as int, a.month as int, a.day as int) > day_number(
            b.year as int,
            b.month as int,
            b.day as int,
        ),
        a == b <==> day_number(a.year as int, a.month as int, a.day as int) == day_number(
            b.year as int,
            b.month as int,
            b.day as int,
        ),
{
    if a.after(b) {
        lemma_day_order(a, b);
    } else if b.after(a) {
        lemma_day_order(b, a);
    }
}

/// The number of a day: 1970-01-01 has number 0, the next day of a month the next number, and so has
/// the first day of the next month behind the last of a month.
pub proof fn law_day_number(y: int, m: int, d: int)
    requires
        1 <= m <= 12,
    ensures
        day_number(1970, 1, 1) == 0,
        day_number(y, m, d + 1) == day_number(y, m, d) + 1,
        m < 12 ==> day_number(y, m + 1, 1) == day_number(y, m, days_in_month(y, m)) + 1,
        m == 12 ==> day_number(y + 1, 1, 1) == day_number(y, 12, 31) + 1,
{
    lemma_year_length(y);
    assert(month_start(1970, 1) == 0);
    assert(month_start(y + 1, 1) == 0);
}

proof fn lemma_two_read(n: nat)
    requires
        n < 100,
    ensures
        zero_padded(n, 2) == seq![digit(n / 10), digit(n % 10)],
{
    reveal_with_fuel(zero_padded, 2);
    assert(zero_padded(n / 10, 1) == decimal(n / 10));
    assert(zero_padded(n, 2) =~= seq![digit(n / 10), digit(n % 10)]);
}

/// Leading zeros do not change what a number is read as.
pub proof fn law_padded_read(n: nat, width: nat)
    requires
        width >= 1,
    ensures
        digits_value(zero_padded(n, width)) == n,
    decreases width,
{
    if width == 1 {
        law_decimal_read(n);
    } else {
        law_padded_read(n / 10, (width - 1) as nat);
        assert(zero_padded(n, width).drop_last() =~= zero_padded(n / 10, (width - 1) as nat));
        assert(digit(n % 10) as u32 == 48 + n % 10);
    }
}

/// A moment is written as the date and the time of day in UTC on which it falls, each with two digits
/// for its parts.
pub proof fn law_instant_text(date: Date, hour: nat, minute: nat, second: nat, nanos: nat)
    requires
        date.wf(),
        hour < 24,
        minute < 60,
        second < 60,
        nanos < 1_000_000_000,
    ensures
        instant_text(
            (day_number(date.year as int, date.month as int, date.day as int) * 86_400 + hour * 3_600
                + minute * 60 + second) * 1_000_000_000 + nanos,
        ) == date.text() + seq![
            'T',
            digit(hour / 10),
            digit(hour % 10),
            ':',
            digit(minute / 10),
            digit(minute % 10),
            ':',
            digit(second / 10),
            digit(second % 10),
        ] + fraction_text(nanos) + seq!['+', '0', '0', ':', '0', '0'],
{
    let (y, m, d) = (date.year as int, date.month as int, date.day as int);
    let day = day_number(y, m, d);
    let clock = hour * 3_600 + minute * 60 + second;
    let secs = day * 86_400 + clock;
    let t = secs * 1_000_000_000 + nanos;
    assert(t / SECOND as int == secs && t % SECOND as int == nanos);
    assert(secs / 86400 == day && secs % 86400 == clock);
    assert(clock / 3600 == hour && clock / 60 % 60 == minute && clock % 60 == second);
    assert(valid_date(y, m, d) && day_number(y, m, d) == day);
    let (y2, m2, d2) = date_of(day);
    assert(valid_date(y2, m2, d2) && day_number(y2, m2, d2) == day);
    law_after(date, Date { year: y2 as i32, month: m2 as u32, day: d2 as u32 });
    assert(y2 == y && m2 == m && d2 == d);
    lemma_two_read(hour);
    lemma_two_read(minute);
    lemma_two_read(second);
    let a = date.text();
    let time = seq![
        'T',
        digit(hour / 10),
        digit(hour % 10),
        ':',
        digit(minute / 10),
        digit(minute % 10),
        ':',
        digit(second / 10),
        digit(second % 10),
    ];
    assert(seq!['T'] + clock_text(clock as int) =~= time);
    let f = fraction_text(nanos);
    let offset = seq!['+', '0', '0', ':', '0', '0'];
    assert(a + seq!['T'] + clock_text(clock as int) =~= a + time);
    assert(instant_text(t) =~= a + time + f + offset);
}

/// No number but zero is written with a zero in front.
pub proof fn law_no_leading_zero(n: nat)
    requires
        n > 0,
    ensures
        decimal(n).len() > 0,
        decimal(n)[0] != '0',
    decreases n,
{
    lemma_decimal(n);
    if n >= 10 {
        law_no_leading_zero(n / 10);
        lemma_decimal(n / 10);
        assert(decimal(n)[0] == decimal(n / 10)[0]);
    } else {
        assert(digit(n) as u32 == 48 + n);
    }
}

/// A date of the years 0 to 9999 is written with four digits for the year, two for the month and two
/// for the day, and hyphens between them.
pub proof fn law_date_text(date: Date)
    requires
        date.wf(),
        0 <= date.year <= 9999,
    ensures
        ({
            let (y, m, d) = (date.year as nat, date.month as nat, date.day as nat);
            date.text() == seq![
                digit(y / 1000),
                digit(y / 100 % 10),
                digit(y / 10 % 10),
                digit(y % 10),
                '-',
                digit(m / 10),
                digit(m % 10),
                '-',
                digit(d / 10),
                digit(d % 10),
            ]
        }),
{
    let (y, m, d) = (date.year as nat, date.month as nat, date.day as nat);
    lemma_two_read(m);
    lemma_two_read(d);
    lemma_two_read(y / 100);
    assert(y / 10 / 10 == y / 100 && y / 100 / 10 == y / 1000);
    assert(zero_padded(y / 10, 3) == zero_padded(y / 10 / 10, 2).push(digit(y / 10 % 10)));
    assert(zero_padded(y, 4) == zero_padded(y / 10, 3).push(digit(y % 10)));
    assert(date.text() =~= seq![
        digit(y / 1000),
        digit(y / 100 % 10),
        digit(y / 10 % 10),
        digit(y % 10),
        '-',
        digit(m / 10),
        digit(m % 10),
        '-',
        digit(d / 10),
        digit(d % 10),
    ]);
}

} // verus!
