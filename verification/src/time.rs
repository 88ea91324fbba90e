//! Moments and lengths of time, in nanoseconds.

use vstd::prelude::*;

verus! {

/// Nanoseconds in a second.
pub const SECOND: i128 = 1_000_000_000;

/// Nanoseconds in an hour.
pub const HOUR: i128 = 3_600_000_000_000;

/// Nanoseconds in 24 hours.
pub const DAY: i128 = 86_400_000_000_000;

/// 262144 BCE, the first moment that the calendar holds.
pub const FIRST_INSTANT: i128 = -8_334_601_228_800_000_000_000;

/// The end of the year 262142, the last moment that the calendar holds.
pub const LAST_INSTANT: i128 = 8_210_266_876_799_999_999_999;

/// The greatest length of time: the number of milliseconds that 63 bits hold.
pub const LONGEST_SPAN: i128 = 9_223_372_036_854_775_807_000_000;

/// A moment that the calendar holds, in nanoseconds since 1970-01-01 00:00 UTC.
pub open spec fn in_instant_range(t: int) -> bool {
    FIRST_INSTANT <= t <= LAST_INSTANT
}

/// A length of time that can be held, in nanoseconds.
pub open spec fn in_span_range(d: int) -> bool {
    -LONGEST_SPAN <= d <= LONGEST_SPAN
}

/// Whether `t` is a moment of the calendar.
pub fn is_instant(t: i128) -> (r: bool)
    ensures
        r == in_instant_range(t as int),
{
    FIRST_INSTANT <= t && t <= LAST_INSTANT
}

/// Whether `d` is a length that can be held.
pub fn is_span(d: i128) -> (r: bool)
    ensures
        r == in_span_range(d as int),
{
    -LONGEST_SPAN <= d && d <= LONGEST_SPAN
}

/// `d` in whole seconds, the fraction dropped.
pub open spec fn whole_seconds(d: int) -> int {
    if d >= 0 {
        d / SECOND as int
    } else {
        -(-d / SECOND as int)
    }
}

/// `d` in whole 24-hour days, the fraction dropped.
pub open spec fn whole_days(d: int) -> int {
    if d >= 0 {
        d / DAY as int
    } else {
        -(-d / DAY as int)
    }
}

/// The whole seconds of a length of time.
pub fn num_seconds(d: i128) -> (r: i64)
    requires
        in_span_range(d as int),
    ensures
        r == whole_seconds(d as int),
{
    if d >= 0 {
        (d / SECOND) as i64
    } else {
        -(((-d) / SECOND) as i64)
    }
}

/// Dropping the fraction of a second takes away less than a second, toward zero, and leaves the sign
/// alone.
pub proof fn law_whole_seconds(d: int)
    ensures
        d >= 0 ==> 0 <= whole_seconds(d) * 1_000_000_000 <= d < (whole_seconds(d) + 1)
            * 1_000_000_000,
        whole_seconds(-d) == -whole_seconds(d),
{
}

/// Dropping the fraction of a day takes away less than 24 hours, toward zero, and leaves the sign
/// alone.
pub proof fn law_whole_days(d: int)
    ensures
        d >= 0 ==> 0 <= whole_days(d) * 86_400_000_000_000 <= d < (whole_days(d) + 1)
            * 86_400_000_000_000,
        whole_days(-d) == -whole_days(d),
{
}

/// The calendar holds the moments from the first to the last of its years, and a length of time is at
/// most as many milliseconds as 63 bits hold, either way.
pub proof fn law_ranges(t: int)
    ensures
        in_instant_range(t) <==> -8_334_601_228_800 * 1_000_000_000 <= t < 8_210_266_876_800
            * 1_000_000_000,
        in_span_range(t) <==> -0x7fff_ffff_ffff_ffff * 1_000_000 <= t <= 0x7fff_ffff_ffff_ffff
            * 1_000_000,
{
}

} // verus!
