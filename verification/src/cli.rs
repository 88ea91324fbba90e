//! The command line.

use vstd::prelude::*;
use vstd::string::*;
use crate::calendar::{all_digits, is_digit, lemma_decimal};
use crate::text::{begins, chars_of, decimal, digit, same_text, starts_with, text_of};

verus! {

/// Seconds between two syncs when nothing else is asked for.
pub const DEFAULT_INTERVAL_SECS: u64 = 300;

/// Whether a character has the Unicode property Alphabetic: what `char::is_alphabetic` says of it.
pub uninterp spec fn unicode_alphabetic(c: char) -> bool;

/// `char::is_alphabetic`: the Unicode property Alphabetic.
pub assume_specification[ char::is_alphabetic ](c: char) -> (r: bool)
    ensures
        r == unicode_alphabetic(c),
;

/// A letter: `A` to `Z` and `a` to `z`, and beyond ASCII what Unicode calls alphabetic.
pub open spec fn alphabetic(c: char) -> bool {
    if (c as u32) < 128 {
        ('a' <= c && c <= 'z') || ('A' <= c && c <= 'Z')
    } else {
        unicode_alphabetic(c)
    }
}

/// Whether `c` is a letter.
pub fn is_letter(c: char) -> (r: bool)
    ensures
        r == alphabetic(c),
{
    if (c as u32) < 128 {
        ('a' <= c && c <= 'z') || ('A' <= c && c <= 'Z')
    } else {
        c.is_alphabetic()
    }
}

/// How many characters stand ahead of the first letter.
pub open spec fn unit_start(s: Seq<char>) -> nat
    decreases s.len(),
{
    if s.len() == 0 || alphabetic(s[0]) {
        0
    } else {
        1 + unit_start(s.drop_first())
    }
}

/// The number that decimal digits spell.
pub open spec fn digits_value(s: Seq<char>) -> nat
    decreases s.len(),
{
    if s.len() == 0 {
        0
    } else {
        digits_value(s.drop_last()) * 10 + (s.last() as u32 - 48) as nat
    }
}

/// The number that a text spells: digits, with or without a plus sign ahead of them, of a number
/// that 64 bits hold.
pub open spec fn number(s: Seq<char>) -> Option<nat> {
    let digits = if s.len() > 0 && s[0] == '+' {
        s.drop_first()
    } else {
        s
    };
    if digits.len() > 0 && all_digits(digits) && digits_value(digits) <= u64::MAX {
        Some(digits_value(digits))
    } else {
        None
    }
}

/// Why a text is no duration.
#[derive(Debug)]
pub enum DurationError {
    /// There is no letter in it.
    NoUnit,
    /// What stands ahead of the unit is no number.
    NotANumber,
    /// The unit is not `s`, `m` or `h`.
    UnknownUnit(String),
    /// 64 bits do not hold the number of seconds.
    TooLong,
}

/// The seconds in one unit of time.
pub open spec fn unit_seconds(unit: Seq<char>) -> Option<nat> {
    if unit == "s"@ {
        Some(1)
    } else if unit == "m"@ {
        Some(60)
    } else if unit == "h"@ {
        Some(3600)
    } else {
        None
    }
}

/// `r` is what the text `s` says as a duration in seconds: a number, then a unit. Of several
/// things that are wrong the first one is reported.
pub open spec fn is_duration(s: Seq<char>, r: Result<u64, DurationError>) -> bool {
    let at = unit_start(s) as int;
    if at == s.len() {
        r == Err::<u64, DurationError>(DurationError::NoUnit)
    } else {
        match number(s.take(at)) {
            None => r == Err::<u64, DurationError>(DurationError::NotANumber),
            Some(n) => match unit_seconds(s.skip(at)) {
                None => r matches Err(DurationError::UnknownUnit(unit)) && unit@ == s.skip(at),
                Some(each) => if n * each > u64::MAX {
                    r == Err::<u64, DurationError>(DurationError::TooLong)
                } else {
                    r matches Ok(secs) && secs == n * each
                },
            },
        }
    }
}

proof fn lemma_unit_start(s: Seq<char>, n: int)
    requires
        0 <= n <= s.len(),
        forall|i: int| 0 <= i < n ==> !alphabetic(#[trigger] s[i]),
        n < s.len() ==> alphabetic(s[n]),
    ensures
        unit_start(s) == n,
    decreases s.len(),
{
    if n > 0 {
        assert(!alphabetic(s[0]));
        let rest = s.drop_first();
        assert forall|i: int| 0 <= i < n - 1 implies !alphabetic(#[trigger] rest[i]) by {
            assert(!alphabetic(s[i + 1]));
        }
        lemma_unit_start(rest, n - 1);
    }
}

proof fn lemma_digits_grow(s: Seq<char>, n: int)
    requires
        0 <= n <= s.len(),
        all_digits(s),
    ensures
        digits_value(s.take(n)) <= digits_value(s),
    decreases s.len() - n,
{
    if n < s.len() {
        assert(s.take(n + 1).drop_last() =~= s.take(n));
        lemma_digits_grow(s, n + 1);
    } else {
        assert(s.take(n) =~= s);
    }
}

/// The number that `v[0..to]` spells.
fn parse_number(v: &Vec<char>, to: usize) -> (r: Option<u64>)
    requires
        to <= v.len(),
    ensures
        match r {
            Some(n) => number(v@.take(to as int)) == Some(n as nat),
            None => number(v@.take(to as int)) is None,
        },
{
    let ghost text = v@.take(to as int);
    let from: usize = if to > 0 && v[0] == '+' {
        1
    } else {
        0
    };
    let ghost digits = v@.subrange(from as int, to as int);
    assert(digits =~= (if from == 1 {
        text.drop_first()
    } else {
        text
    }));
    if from == to {
        return None;
    }
    let mut value: u64 = 0;
    let mut i: usize = from;
    assert(digits.take(0) =~= Seq::<char>::empty());
    while i < to
        invariant
            from <= i <= to <= v.len(),
            digits == v@.subrange(from as int, to as int),
            number(text) == (if digits.len() > 0 && all_digits(digits) && digits_value(digits)
                <= u64::MAX {
                Some(digits_value(digits))
            } else {
                None
            }),
            text == v@.take(to as int),
            forall|j: int| 0 <= j < i - from ==> is_digit(#[trigger] digits[j]),
            value == digits_value(digits.take(i - from)),
        decreases to - i,
    {
        let c: char = v[i];
        assert(c == digits[i - from]);
        let code: u32 = c as u32;
        if code < 48 || code > 57 {
            return None;
        }
        let d: u64 = (code - 48) as u64;
        let ghost k = i - from;
        assert(digits.take(k + 1).drop_last() =~= digits.take(k));
        assert(digits_value(digits.take(k + 1)) == value * 10 + d);
        if value > (u64::MAX - d) / 10 {
            proof {
                if all_digits(digits) {
                    lemma_digits_grow(digits, k + 1);
                }
            }
            return None;
        }
        value = value * 10 + d;
        i += 1;
    }
    assert(digits.take(to - from) =~= digits);
    Some(value)
}

/// A duration such as `5m`, `2h` or `30s`, in seconds.
pub fn parse_duration(s: &str) -> (r: Result<u64, DurationError>)
    ensures
        is_duration(s@, r),
{
    let v: Vec<char> = chars_of(s);
    let mut at: usize = 0;
    while at < v.len() && !is_letter(v[at])
        invariant
            at <= v.len(),
            forall|i: int| 0 <= i < at ==> !alphabetic(#[trigger] v@[i]),
        decreases v.len() - at,
    {
        at += 1;
    }
    proof {
        lemma_unit_start(v@, at as int);
    }
    if at == v.len() {
        return Err(DurationError::NoUnit);
    }
    let n: u64 = match parse_number(&v, at) {
        Some(n) => n,
        None => {
            return Err(DurationError::NotANumber);
        },
    };
    let unit: String = text_of(&v, at, v.len());
    assert(v@.subrange(at as int, v@.len() as int) =~= v@.skip(at as int));
    let each: u64 = if same_text(unit.as_str(), "s") {
        1
    } else if same_text(unit.as_str(), "m") {
        60
    } else if same_text(unit.as_str(), "h") {
        3600
    } else {
        return Err(DurationError::UnknownUnit(unit));
    };
    match n.checked_mul(each) {
        Some(secs) => Ok(secs),
        None => Err(DurationError::TooLong),
    }
}

/// What is said of a text `s` that is no duration.
pub open spec fn duration_message_text(s: Seq<char>, e: DurationError) -> Seq<char> {
    match e {
        DurationError::NoUnit => "invalid duration '"@ + s + "': expected e.g. 5m, 2h, 30s"@,
        DurationError::NotANumber => "invalid duration '"@ + s + "': not a number"@,
        DurationError::UnknownUnit(unit) => "unknown unit '"@ + unit@ + "' in '"@ + s
            + "': use s, m or h"@,
        DurationError::TooLong => "invalid duration '"@ + s + "': too long"@,
    }
}

/// What is said of a text `s` that is no duration.
pub fn duration_message(s: &str, e: &DurationError) -> (r: String)
    ensures
        r@ == duration_message_text(s@, *e),
        *e is NoUnit ==> r@ == "invalid duration '"@ + s@ + "': expected e.g. 5m, 2h, 30s"@,
        *e is NotANumber ==> r@ == "invalid duration '"@ + s@ + "': not a number"@,
        *e matches DurationError::UnknownUnit(unit) ==> r@ == "unknown unit '"@ + unit@ + "' in '"@
            + s@ + "': use s, m or h"@,
        *e is TooLong ==> r@ == "invalid duration '"@ + s@ + "': too long"@,
{
    match e {
        DurationError::UnknownUnit(unit) => {
            let mut text: String = "unknown unit '".to_owned().concat(unit.as_str());
            text.append("' in '");
            text.append(s);
            text.append("': use s, m or h");
            text
        },
        DurationError::NoUnit => {
            let mut text: String = "invalid duration '".to_owned().concat(s);
            text.append("': expected e.g. 5m, 2h, 30s");
            text
        },
        DurationError::NotANumber => {
            let mut text: String = "invalid duration '".to_owned().concat(s);
            text.append("': not a number");
            text
        },
        DurationError::TooLong => {
            let mut text: String = "invalid duration '".to_owned().concat(s);
            text.append("': too long");
            text
        },
    }
}

/// Where the destinations come from.
#[derive(Debug)]
pub enum ConfigSource {
    /// From the configuration file.
    File,
    /// From the command line: the sheet key and the regex.
    Arguments(String, String),
    /// The command line gives one of sheet key and regex, or more than both.
    Incomplete,
}

/// What the command line asks for.
#[derive(Debug)]
pub struct Arguments {
    /// Seconds between two syncs.
    pub interval: u64,
    pub verbose: bool,
    pub testing: bool,
    pub source: ConfigSource,
}

/// Why a command line is refused.
#[derive(Debug)]
pub enum ArgumentsError {
    /// Nothing follows `--interval`.
    MissingInterval,
    /// What follows `--interval`, which is no duration, and why it is none.
    BadInterval(String, DurationError),
    /// No such option.
    Unknown(String),
}

/// What has been read of a command line.
#[verifier::ext_equal]
pub struct ArgumentsModel {
    pub interval: u64,
    pub verbose: bool,
    pub testing: bool,
    pub positional: Seq<Seq<char>>,
}

/// `r` is what `args` says from index `i` on, behind what `so_far` holds.
pub open spec fn reads_as(
    args: Seq<Seq<char>>,
    i: int,
    so_far: ArgumentsModel,
    r: Result<Arguments, ArgumentsError>,
) -> bool
    decreases args.len() - i,
{
    if i >= args.len() {
        &&& r matches Ok(a)
        &&& a.interval == so_far.interval
        &&& a.verbose == so_far.verbose
        &&& a.testing == so_far.testing
        &&& source_of(so_far.positional, a.source)
    } else if args[i] == "--interval"@ {
        if i + 1 >= args.len() {
            r == Err::<Arguments, ArgumentsError>(ArgumentsError::MissingInterval)
        } else {
            exists|d: Result<u64, DurationError>| #[trigger]
                is_duration(args[i + 1], d) && match d {
                    Ok(interval) => reads_as(args, i + 2, ArgumentsModel { interval, ..so_far }, r),
                    Err(e) => r matches Err(ArgumentsError::BadInterval(text, why)) && text@
                        == args[i + 1] && why == e,
                }
        }
    } else if args[i] == "--verbose"@ {
        reads_as(args, i + 1, ArgumentsModel { verbose: true, ..so_far }, r)
    } else if args[i] == "--testing"@ {
        reads_as(args, i + 1, ArgumentsModel { testing: true, ..so_far }, r)
    } else if !begins(args[i], "--"@) {
        reads_as(
            args,
            i + 1,
            ArgumentsModel { positional: so_far.positional.push(args[i]), ..so_far },
            r,
        )
    } else {
        r matches Err(ArgumentsError::Unknown(arg)) && arg@ == args[i]
    }
}

/// `source` is what the arguments without an option name: nothing, a sheet key and a regex, or
/// something that is neither.
pub open spec fn source_of(positional: Seq<Seq<char>>, source: ConfigSource) -> bool {
    if positional.len() == 0 {
        source is File
    } else if positional.len() == 2 {
        source matches ConfigSource::Arguments(sheet_key, regex) && sheet_key@ == positional[0]
            && regex@ == positional[1]
    } else {
        source is Incomplete
    }
}

/// Ahead of the first argument: a sync every five minutes, and no option.
pub open spec fn no_arguments() -> ArgumentsModel {
    ArgumentsModel {
        interval: DEFAULT_INTERVAL_SECS,
        verbose: false,
        testing: false,
        positional: Seq::empty(),
    }
}

/// The texts of some strings.
pub open spec fn texts(v: Seq<String>) -> Seq<Seq<char>> {
    Seq::new(v.len(), |i: int| v[i]@)
}

/// Reads a command line; `args[0]` is the name of the program.
pub fn parse_args(args: &Vec<String>) -> (r: Result<Arguments, ArgumentsError>)
    ensures
        reads_as(texts(args@), 1, no_arguments(), r),
{
    let mut interval: u64 = DEFAULT_INTERVAL_SECS;
    let mut verbose: bool = false;
    let mut testing: bool = false;
    let mut positional: Vec<String> = Vec::new();
    let mut i: usize = 1;
    let ghost all = texts(args@);
    assert(texts(positional@) =~= Seq::<Seq<char>>::empty());
    while i < args.len()
        invariant
            1 <= i,
            all == texts(args@),
            forall|r: Result<Arguments, ArgumentsError>| #[trigger]
                reads_as(
                    all,
                    i as int,
                    (ArgumentsModel { interval, verbose, testing, positional: texts(positional@) }),
                    r,
                ) ==> reads_as(all, 1, no_arguments(), r),
        decreases args.len() - i,
    {
        let arg: &str = args[i].as_str();
        let ghost so_far = ArgumentsModel {
            interval,
            verbose,
            testing,
            positional: texts(positional@),
        };
        assert(all[i as int] == arg@);
        if same_text(arg, "--interval") {
            if i + 1 >= args.len() {
                let r: Result<Arguments, ArgumentsError> = Err(ArgumentsError::MissingInterval);
                assert(reads_as(all, i as int, so_far, r));
                return r;
            }
            assert(all[i + 1] == args@[i + 1]@);
            let d: Result<u64, DurationError> = parse_duration(args[i + 1].as_str());
            match d {
                Ok(secs) => {
                    proof {
                        let next = ArgumentsModel { interval: secs, ..so_far };
                        assert(is_duration(all[i + 1], Ok(secs)));
                        assert forall|r: Result<Arguments, ArgumentsError>| #[trigger]
                            reads_as(all, i + 2, next, r) implies reads_as(
                            all,
                            1,
                            no_arguments(),
                            r,
                        ) by {
                            assert(reads_as(all, i as int, so_far, r));
                        }
                    }
                    interval = secs;
                },
                Err(e) => {
                    let text: String = args[i + 1].as_str().to_owned();
                    let r: Result<Arguments, ArgumentsError> = Err(
                        ArgumentsError::BadInterval(text, e),
                    );
                    assert(reads_as(all, i as int, so_far, r));
                    return r;
                },
            }
            i += 2;
        } else if same_text(arg, "--verbose") {
            proof {
                let next = ArgumentsModel { verbose: true, ..so_far };
                assert forall|r: Result<Arguments, ArgumentsError>| #[trigger]
                    reads_as(all, i + 1, next, r) implies reads_as(all, 1, no_arguments(), r) by {
                    assert(reads_as(all, i as int, so_far, r));
                }
            }
            verbose = true;
            i += 1;
        } else if same_text(arg, "--testing") {
            proof {
                let next = ArgumentsModel { testing: true, ..so_far };
                assert forall|r: Result<Arguments, ArgumentsError>| #[trigger]
                    reads_as(all, i + 1, next, r) implies reads_as(all, 1, no_arguments(), r) by {
                    assert(reads_as(all, i as int, so_far, r));
                }
            }
            testing = true;
            i += 1;
        } else if !starts_with(arg, "--") {
            positional.push(arg.to_owned());
            proof {
                let next = ArgumentsModel { positional: so_far.positional.push(arg@), ..so_far };
                assert(texts(positional@) =~= so_far.positional.push(arg@));
                assert forall|r: Result<Arguments, ArgumentsError>| #[trigger]
                    reads_as(all, i + 1, next, r) implies reads_as(all, 1, no_arguments(), r) by {
                    assert(reads_as(all, i as int, so_far, r));
                }
            }
            i += 1;
        } else {
            let r: Result<Arguments, ArgumentsError> = Err(ArgumentsError::Unknown(arg.to_owned()));
            assert(reads_as(all, i as int, so_far, r));
            return r;
        }
    }
    let source: ConfigSource = if positional.len() == 0 {
        ConfigSource::File
    } else if positional.len() == 2 {
        ConfigSource::Arguments(positional[0].clone(), positional[1].clone())
    } else {
        ConfigSource::Incomplete
    };
    let r: Result<Arguments, ArgumentsError> = Ok(
        Arguments { interval, verbose, testing, source },
    );
    assert(reads_as(
        all,
        i as int,
        ArgumentsModel { interval, verbose, testing, positional: texts(positional@) },
        r,
    ));
    r
}

/// The port on which the server listens: one of its own for testing.
pub fn server_port(testing: bool) -> (r: u16)
    ensures
        r == (if testing {
            5699
        } else {
            5600int
        }),
{
    if testing {
        5699
    } else {
        5600
    }
}

/// The unit of a duration begins at its first letter.
pub proof fn law_unit_start(s: Seq<char>)
    ensures
        unit_start(s) <= s.len(),
        forall|i: int| 0 <= i < unit_start(s) ==> !alphabetic(#[trigger] s[i]),
        unit_start(s) < s.len() ==> alphabetic(s[unit_start(s) as int]),
    decreases s.len(),
{
    if s.len() > 0 && !alphabetic(s[0]) {
        let rest = s.drop_first();
        law_unit_start(rest);
        assert forall|i: int| 0 <= i < unit_start(s) implies !alphabetic(#[trigger] s[i]) by {
            if i > 0 {
                assert(rest[i - 1] == s[i]);
            }
        }
    }
}

/// A number that is written in decimal is read as that number.
pub proof fn law_decimal_read(n: nat)
    ensures
        digits_value(decimal(n)) == n,
        n <= u64::MAX ==> number(decimal(n)) == Some(n),
        n <= u64::MAX ==> number(seq!['+'] + decimal(n)) == Some(n),
    decreases n,
{
    let d = decimal(n);
    lemma_decimal(n);
    assert(digit(n % 10) as u32 == 48 + n % 10);
    assert(digits_value(d) == digits_value(d.drop_last()) * 10 + (d.last() as u32 - 48) as nat);
    if n < 10 {
        assert(d.drop_last() =~= Seq::<char>::empty());
        assert(digits_value(Seq::<char>::empty()) == 0);
        assert(digit(n) as u32 == 48 + n);
    } else {
        law_decimal_read(n / 10);
        assert(d.drop_last() =~= decimal(n / 10));
    }
    assert(is_digit(d[0]));
    assert((seq!['+'] + d).drop_first() =~= d);
}

proof fn lemma_parts(n: nat, unit: Seq<char>)
    requires
        n <= u64::MAX,
        unit.len() > 0,
        alphabetic(unit[0]),
    ensures
        ({
            let s = decimal(n) + unit;
            let at = unit_start(s) as int;
            &&& at < s.len()
            &&& number(s.take(at)) == Some(n)
            &&& s.skip(at) == unit
        }),
{
    let d = decimal(n);
    let s = d + unit;
    lemma_decimal(n);
    law_decimal_read(n);
    assert forall|i: int| 0 <= i < d.len() implies !alphabetic(#[trigger] s[i]) by {
        assert(s[i] == d[i]);
        assert(is_digit(d[i]));
    }
    assert(s[d.len() as int] == unit[0]);
    lemma_unit_start(s, d.len() as int);
    assert(s.take(d.len() as int) =~= d);
    assert(s.skip(d.len() as int) =~= unit);
}

/// A number with `s`, `m` or `h` behind it is so many seconds, minutes or hours, if 64 bits hold the
/// seconds.
pub proof fn law_durations(n: nat, r: Result<u64, DurationError>)
    ensures
        n <= u64::MAX && is_duration(decimal(n) + "s"@, r) ==> (r matches Ok(secs) && secs == n),
        n * 60 <= u64::MAX && is_duration(decimal(n) + "m"@, r) ==> (r matches Ok(secs) && secs == n
            * 60),
        n * 3600 <= u64::MAX && is_duration(decimal(n) + "h"@, r) ==> (r matches Ok(secs) && secs
            == n * 3600),
{
    reveal_strlit("s");
    reveal_strlit("m");
    reveal_strlit("h");
    assert(alphabetic('s') && alphabetic('m') && alphabetic('h'));
    assert("s"@[0] == 's' && "m"@[0] == 'm' && "h"@[0] == 'h');
    if n <= u64::MAX {
        assert(unit_seconds("s"@) == Some(1nat));
        assert(n * 1nat == n);
        lemma_parts(n, "s"@);
        lemma_parts(n, "m"@);
        lemma_parts(n, "h"@);
    }
}

/// A number with any other unit behind it is refused with that unit, and a text without a letter for
/// want of one.
pub proof fn law_not_durations(
    n: nat,
    unit: Seq<char>,
    text: Seq<char>,
    r: Result<u64, DurationError>,
)
    requires
        n <= u64::MAX,
        unit.len() > 0,
        alphabetic(unit[0]),
        unit != "s"@,
        unit != "m"@,
        unit != "h"@,
        forall|i: int| 0 <= i < text.len() ==> !alphabetic(#[trigger] text[i]),
    ensures
        is_duration(decimal(n) + unit, r) ==> (r matches Err(DurationError::UnknownUnit(u)) && u@
            == unit),
        is_duration(text, r) ==> r matches Err(DurationError::NoUnit),
{
    lemma_parts(n, unit);
    lemma_unit_start(text, text.len() as int);
}

/// What follows `--interval` is the time between two syncs, and the rest is read on behind it. Without
/// anything behind it the command line is refused, and so it is for an option that there is not. A flag
/// is set, a text is kept behind the others, and the rest is read on.
pub proof fn law_options(
    args: Seq<Seq<char>>,
    i: int,
    so_far: ArgumentsModel,
    interval: u64,
    r: Result<Arguments, ArgumentsError>,
)
    requires
        0 <= i < args.len(),
        reads_as(args, i, so_far, r),
    ensures
        args[i] == "--interval"@ && i + 1 < args.len() && is_duration(args[i + 1], Ok(interval))
            ==> reads_as(args, i + 2, ArgumentsModel { interval, ..so_far }, r),
        args[i] == "--interval"@ && i + 1 == args.len() ==> r matches Err(
            ArgumentsError::MissingInterval,
        ),
        args[i] == "--verbose"@ ==> reads_as(
            args,
            i + 1,
            ArgumentsModel { verbose: true, ..so_far },
            r,
        ),
        args[i] == "--testing"@ ==> reads_as(
            args,
            i + 1,
            ArgumentsModel { testing: true, ..so_far },
            r,
        ),
        args[i].len() < 2 || args[i][0] != '-' || args[i][1] != '-' ==> reads_as(
            args,
            i + 1,
            ArgumentsModel { positional: so_far.positional.push(args[i]), ..so_far },
            r,
        ),
        args[i].len() >= 2 && args[i][0] == '-' && args[i][1] == '-' && args[i] != "--interval"@
            && args[i] != "--verbose"@ && args[i] != "--testing"@ ==> (r matches Err(
            ArgumentsError::Unknown(arg),
        ) && arg@ == args[i]),
{
    reveal_strlit("--");
    reveal_strlit("--interval");
    reveal_strlit("--verbose");
    reveal_strlit("--testing");
    assert("--interval"@[0] == '-' && "--interval"@[1] == '-' && "--interval"@[2] == 'i');
    assert("--verbose"@[0] == '-' && "--verbose"@[1] == '-' && "--verbose"@[2] == 'v');
    assert("--testing"@[0] == '-' && "--testing"@[1] == '-' && "--testing"@[2] == 't');
    if args[i].len() >= 2 && args[i][0] == '-' && args[i][1] == '-' {
        assert(args[i].take(2) =~= "--"@);
    } else if begins(args[i], "--"@) {
        assert(args[i].take(2)[0] == '-' && args[i].take(2)[1] == '-');
    }
    if args[i] == "--interval"@ && i + 1 < args.len() {
        let d = choose|d: Result<u64, DurationError>| #[trigger]
            is_duration(args[i + 1], d) && match d {
                Ok(interval) => reads_as(args, i + 2, ArgumentsModel { interval, ..so_far }, r),
                Err(e) => r matches Err(ArgumentsError::BadInterval(text, why)) && text@ == args[i
                    + 1] && why == e,
            };
        assert(is_duration(args[i + 1], d));
    }
}

/// Whether an argument is one of the two flags, or no option at all.
pub open spec fn flag_or_text(arg: Seq<char>) -> bool {
    arg == "--verbose"@ || arg == "--testing"@ || !(arg.len() >= 2 && arg[0] == '-' && arg[1] == '-')
}

proof fn lemma_flags(
    args: Seq<Seq<char>>,
    i: int,
    so_far: ArgumentsModel,
    r: Result<Arguments, ArgumentsError>,
)
    requires
        0 <= i <= args.len(),
        reads_as(args, i, so_far, r),
        forall|k: int| i <= k < args.len() ==> flag_or_text(#[trigger] args[k]),
    ensures
        r matches Ok(a) && {
            &&& a.interval == so_far.interval
            &&& a.verbose <==> so_far.verbose || exists|k: int|
                i <= k < args.len() && #[trigger] args[k] == "--verbose"@
            &&& a.testing <==> so_far.testing || exists|k: int|
                i <= k < args.len() && #[trigger] args[k] == "--testing"@
            &&& source_of(
                so_far.positional + args.skip(i).filter(
                    |arg: Seq<char>| arg != "--verbose"@ && arg != "--testing"@,
                ),
                a.source,
            )
        },
    decreases args.len() - i,
{
    let text = |arg: Seq<char>| arg != "--verbose"@ && arg != "--testing"@;
    reveal_strlit("--");
    reveal_strlit("--interval");
    reveal_strlit("--verbose");
    reveal_strlit("--testing");
    if i == args.len() {
        assert(args.skip(i) =~= Seq::<Seq<char>>::empty());
        reveal(Seq::filter);
        assert(args.skip(i).filter(text) =~= Seq::<Seq<char>>::empty());
        assert(so_far.positional + args.skip(i).filter(text) =~= so_far.positional);
    } else {
        let arg = args[i];
        assert(flag_or_text(arg));
        assert("--verbose"@[2] != "--testing"@[2]);
        let next = if arg == "--verbose"@ {
            ArgumentsModel { verbose: true, ..so_far }
        } else if arg == "--testing"@ {
            ArgumentsModel { testing: true, ..so_far }
        } else {
            ArgumentsModel { positional: so_far.positional.push(arg), ..so_far }
        };
        if begins(arg, "--"@) {
            assert(arg.take(2)[0] == '-' && arg.take(2)[1] == '-');
        }
        assert(arg != "--interval"@) by {
            assert("--interval"@[0] == '-' && "--interval"@[1] == '-');
        }
        assert(reads_as(args, i + 1, next, r));
        lemma_flags(args, i + 1, next, r);
        lemma_filter_first(args, i);
        let rest = args.skip(i + 1).filter(text);
        if text(arg) {
            assert(so_far.positional.push(arg) + rest =~= so_far.positional + (seq![arg] + rest));
        }
        assert(args[i] == arg);
    }
}

proof fn lemma_filter_first(args: Seq<Seq<char>>, i: int)
    requires
        0 <= i < args.len(),
    ensures
        ({
            let text = |arg: Seq<char>| arg != "--verbose"@ && arg != "--testing"@;
            args.skip(i).filter(text) == (if text(args[i]) {
                seq![args[i]] + args.skip(i + 1).filter(text)
            } else {
                args.skip(i + 1).filter(text)
            })
        }),
{
    let text = |arg: Seq<char>| arg != "--verbose"@ && arg != "--testing"@;
    let one = seq![args[i]];
    assert(args.skip(i) =~= one + args.skip(i + 1));
    Seq::filter_distributes_over_add(one, args.skip(i + 1), text);
    reveal(Seq::filter);
    assert(one.drop_last() =~= Seq::<Seq<char>>::empty());
    assert(one.drop_last().filter(text) =~= Seq::<Seq<char>>::empty());
    assert(Seq::<Seq<char>>::empty().push(args[i]) =~= one);
    assert(Seq::<Seq<char>>::empty() + args.skip(i + 1).filter(text) =~= args.skip(i + 1).filter(
        text,
    ));
}

/// A command line of flags and texts is always taken, in whatever order they come: a sync every five
/// minutes, each flag if it is there, and of the texts a sheet key and a regex if there are two, the
/// configuration file if there are none.
pub proof fn law_command_line(args: Seq<Seq<char>>, r: Result<Arguments, ArgumentsError>)
    requires
        args.len() > 0,
        reads_as(args, 1, no_arguments(), r),
        forall|k: int| 1 <= k < args.len() ==> flag_or_text(#[trigger] args[k]),
    ensures
        r matches Ok(a) && {
            let texts = args.skip(1).filter(
                |arg: Seq<char>| arg != "--verbose"@ && arg != "--testing"@,
            );
            &&& a.interval == 300
            &&& a.verbose <==> exists|k: int| 1 <= k < args.len() && #[trigger] args[k] == "--verbose"@
            &&& a.testing <==> exists|k: int| 1 <= k < args.len() && #[trigger] args[k] == "--testing"@
            &&& texts.len() == 0 ==> a.source is File
            &&& texts.len() == 2 ==> (a.source matches ConfigSource::Arguments(key, regex) && key@
                == texts[0] && regex@ == texts[1])
            &&& texts.len() != 0 && texts.len() != 2 ==> a.source is Incomplete
        },
{
    lemma_flags(args, 1, no_arguments(), r);
    let texts = args.skip(1).filter(|arg: Seq<char>| arg != "--verbose"@ && arg != "--testing"@);
    assert(Seq::<Seq<char>>::empty() + texts =~= texts);
}

/// Of ASCII characters just `a` to `z` and `A` to `Z` are letters.
pub proof fn law_ascii_letters(c: char)
    requires
        (c as u32) < 128,
    ensures
        alphabetic(c) <==> 97 <= c as u32 <= 122 || 65 <= c as u32 <= 90,
{
}

/// Where what stands ahead of the unit is not digits alone, but for a plus sign in front, the text is
/// refused as no number, and where the seconds are more than 64 bits hold, as too long.
pub proof fn law_refused_numbers(
    text: Seq<char>,
    n: nat,
    unit: Seq<char>,
    at: int,
    r: Result<u64, DurationError>,
)
    requires
        forall|i: int| 0 <= i < text.len() ==> !alphabetic(#[trigger] text[i]),
        text.len() > 0 ==> 0 <= at < text.len() && !is_digit(text[at]) && (at > 0 || text[at] != '+'),
        n <= u64::MAX,
        unit.len() > 0,
        alphabetic(unit[0]),
    ensures
        is_duration(text + unit, r) ==> r matches Err(DurationError::NotANumber),
        is_duration(decimal(n) + "m"@, r) && n * 60 > u64::MAX ==> r matches Err(
            DurationError::TooLong,
        ),
        is_duration(decimal(n) + "h"@, r) && n * 3600 > u64::MAX ==> r matches Err(
            DurationError::TooLong,
        ),
{
    reveal_strlit("s");
    reveal_strlit("m");
    reveal_strlit("h");
    assert(alphabetic('m') && alphabetic('h'));
    assert("s"@[0] == 's' && "m"@[0] == 'm' && "h"@[0] == 'h');
    lemma_parts(n, "m"@);
    lemma_parts(n, "h"@);
    let s = text + unit;
    assert forall|i: int| 0 <= i < text.len() implies !alphabetic(#[trigger] s[i]) by {
        assert(s[i] == text[i]);
    }
    assert(s[text.len() as int] == unit[0]);
    lemma_unit_start(s, text.len() as int);
    assert(s.take(text.len() as int) =~= text);
    if text.len() > 0 {
        if text[0] == '+' {
            if at > 0 {
                assert(text.drop_first()[at - 1] == text[at]);
            }
        }
    }
}

/// What follows `--interval` and is no duration is why the command line is refused.
pub proof fn law_bad_interval(
    args: Seq<Seq<char>>,
    i: int,
    so_far: ArgumentsModel,
    r: Result<Arguments, ArgumentsError>,
)
    requires
        0 <= i < args.len() - 1,
        args[i] == "--interval"@,
        forall|secs: u64| !is_duration(args[i + 1], Ok(secs)),
        reads_as(args, i, so_far, r),
    ensures
        r matches Err(ArgumentsError::BadInterval(text, why)) && text@ == args[i + 1] && is_duration(
            args[i + 1],
            Err(why),
        ),
{
    let d = choose|d: Result<u64, DurationError>| #[trigger]
        is_duration(args[i + 1], d) && match d {
            Ok(interval) => reads_as(args, i + 2, ArgumentsModel { interval, ..so_far }, r),
            Err(e) => r matches Err(ArgumentsError::BadInterval(text, why)) && text@ == args[i + 1]
                && why == e,
        };
    assert(is_duration(args[i + 1], d));
    match d {
        Ok(secs) => {
            assert(is_duration(args[i + 1], Ok(secs)));
        },
        Err(_) => {},
    }
}

/// What digits spell: one more digit makes ten times as much, and itself. Any digits of a number that 64
/// bits hold, with or without a plus sign, are read as that number, leading zeros and all.
pub proof fn law_digits(s: Seq<char>, c: char)
    requires
        all_digits(s),
        is_digit(c),
    ensures
        digits_value(Seq::<char>::empty()) == 0,
        digits_value(s.push(c)) == digits_value(s) * 10 + (c as u32 - 48),
        s.len() > 0 && digits_value(s) <= u64::MAX ==> number(s) == Some(digits_value(s)) && number(
            seq!['+'] + s,
        ) == Some(digits_value(s)),
        digits_value(s) > u64::MAX ==> number(s) is None && number(seq!['+'] + s) is None,
{
    assert(s.push(c).drop_last() =~= s);
    assert((seq!['+'] + s).drop_first() =~= s);
    if s.len() > 0 {
        assert(is_digit(s[0]));
    }
}

/// Whatever text is read as a number, with `s`, `m` or `h` behind it it is so many seconds, minutes or
/// hours, if 64 bits hold the seconds.
pub proof fn law_numbers_with_units(text: Seq<char>, n: nat, r: Result<u64, DurationError>)
    requires
        forall|i: int| 0 <= i < text.len() ==> !alphabetic(#[trigger] text[i]),
        number(text) == Some(n),
    ensures
        is_duration(text + "s"@, r) ==> (r matches Ok(secs) && secs == n),
        is_duration(text + "m"@, r) ==> (if n * 60 <= u64::MAX {
            r matches Ok(secs) && secs == n * 60
        } else {
            r matches Err(DurationError::TooLong)
        }),
        is_duration(text + "h"@, r) ==> (if n * 3600 <= u64::MAX {
            r matches Ok(secs) && secs == n * 3600
        } else {
            r matches Err(DurationError::TooLong)
        }),
{
    reveal_strlit("s");
    reveal_strlit("m");
    reveal_strlit("h");
    assert(alphabetic('s') && alphabetic('m') && alphabetic('h'));
    assert("s"@[0] == 's' && "m"@[0] == 'm' && "h"@[0] == 'h');
    assert(unit_seconds("s"@) == Some(1nat));
    assert(n * 1nat == n);
    lemma_text_parts(text, "s"@);
    lemma_text_parts(text, "m"@);
    lemma_text_parts(text, "h"@);
}

proof fn lemma_text_parts(text: Seq<char>, unit: Seq<char>)
    requires
        forall|i: int| 0 <= i < text.len() ==> !alphabetic(#[trigger] text[i]),
        unit.len() > 0,
        alphabetic(unit[0]),
    ensures
        unit_start(text + unit) == text.len(),
        (text + unit).take(text.len() as int) == text,
        (text + unit).skip(text.len() as int) == unit,
{
    let s = text + unit;
    assert forall|i: int| 0 <= i < text.len() implies !alphabetic(#[trigger] s[i]) by {
        assert(s[i] == text[i]);
    }
    assert(s[text.len() as int] == unit[0]);
    lemma_unit_start(s, text.len() as int);
    assert(s.take(text.len() as int) =~= text);
    assert(s.skip(text.len() as int) =~= unit);
}

} // verus!
