//! Dates and microsecond timestamps, over the whole range of their literals.
//!
//! A date is a year of four digits, or a sign and a year of four to nine digits, and a month and a
//! day of two digits each. A time is `hours:minutes:seconds` with an optional fraction.

use vstd::prelude::*;

use crate::error::{data_invalid, Error};
#[allow(unused_imports)]
use crate::error::{data_error, outcome, ErrorView};
use crate::temporal::{
    digit_at, index_of_char, normalize_iso_case, pair_at, parse_utc_offset, split_zone,
    validate_fractional_precision, with_default_seconds,
};
#[allow(unused_imports)]
use crate::temporal::{
    all_digits, digits_value, find_char, full_seconds, is_digit, iso_upper, pair_value,
    precision_error, too_precise, two_digits, utc_offset, zone_index,
};
use crate::text::chars_of;

verus! {

/// Whether `year` has 366 days.
pub open spec fn is_leap(year: int) -> bool {
    year % 4 == 0 && (year % 100 != 0 || year % 400 == 0)
}

/// How many days a month has.
pub open spec fn month_days(year: int, month: int) -> int {
    if month == 2 {
        if is_leap(year) {
            29
        } else {
            28
        }
    } else if month == 4 || month == 6 || month == 9 || month == 11 {
        30
    } else {
        31
    }
}

/// How many days of its year precede a month.
pub open spec fn days_before_month(year: int, month: int) -> int
    decreases month,
{
    if month <= 1 {
        0
    } else {
        days_before_month(year, month - 1) + month_days(year, month - 1)
    }
}

/// The days from 1970-01-01 to a date, in a calendar that goes on in both directions: the days from
/// the beginning of year 0, less the 719528 days from there to 1970-01-01.
pub open spec fn day_number(year: int, month: int, day: int) -> int {
    365 * year + (year + 3) / 4 - (year + 99) / 100 + (year + 399) / 400 + days_before_month(
        year,
        month,
    ) + day - 1 - 719528
}

/// The year, the month and the day that a text stands for.
pub open spec fn parsed_date(s: Seq<char>) -> Option<(int, int, int)> {
    let n = s.len() as int;
    if n < 10 {
        None
    } else {
        let signed = s[0] == '+' || s[0] == '-';
        let digits = s.subrange(
            if signed {
                1
            } else {
                0
            },
            n - 6,
        );
        if s[n - 6] != '-' || !two_digits(s, n - 5) || s[n - 3] != '-' || !two_digits(s, n - 2)
            || !all_digits(digits) || digits.len() < 4 || (signed && digits.len() > 9) || (!signed
            && digits.len() > 4) {
            None
        } else {
            let year = if s[0] == '-' {
                -digits_value(digits)
            } else {
                digits_value(digits)
            };
            let month = pair_value(s, n - 5);
            let day = pair_value(s, n - 2);
            if 1 <= month <= 12 && 1 <= day <= month_days(year, month) {
                Some((year, month, day))
            } else {
                None
            }
        }
    }
}

/// Ten to the power `n`.
pub open spec fn power_of_ten(n: nat) -> int
    decreases n,
{
    if n == 0 {
        1
    } else {
        10 * power_of_ten((n - 1) as nat)
    }
}

/// The seconds from midnight and the nanoseconds of the second that a text stands for.
pub open spec fn parsed_clock(s: Seq<char>) -> Option<(int, int)> {
    let n = s.len() as int;
    if n < 8 || !two_digits(s, 0) || s[2] != ':' || !two_digits(s, 3) || s[5] != ':'
        || !two_digits(s, 6) {
        None
    } else if pair_value(s, 0) > 23 || pair_value(s, 3) > 59 || pair_value(s, 6) > 59 {
        None
    } else {
        let seconds = pair_value(s, 0) * 3600 + pair_value(s, 3) * 60 + pair_value(s, 6);
        if n == 8 {
            Some((seconds, 0))
        } else {
            let fraction = s.subrange(9, n);
            if s[8] != '.' || !(1 <= fraction.len() <= 9) || !all_digits(fraction) {
                None
            } else {
                Some(
                    (
                        seconds,
                        digits_value(fraction) * power_of_ten((9 - fraction.len()) as nat),
                    ),
                )
            }
        }
    }
}

/// The number of a year of up to nine digits lies below a billion.
proof fn lemma_digits_bound(s: Seq<char>)
    requires
        all_digits(s),
    ensures
        0 <= digits_value(s) < power_of_ten(s.len()),
    decreases s.len(),
{
    if s.len() > 0 {
        assert(all_digits(s.drop_last()));
        lemma_digits_bound(s.drop_last());
        assert(is_digit(s.last()));
    }
}

proof fn lemma_powers_of_ten()
    ensures
        power_of_ten(0) == 1,
        power_of_ten(1) == 10,
        power_of_ten(2) == 100,
        power_of_ten(3) == 1_000,
        power_of_ten(4) == 10_000,
        power_of_ten(5) == 100_000,
        power_of_ten(6) == 1_000_000,
        power_of_ten(7) == 10_000_000,
        power_of_ten(8) == 100_000_000,
        power_of_ten(9) == 1_000_000_000,
{
    reveal_with_fuel(power_of_ten, 11);
}

/// The number that the digits from `from` up to `to` stand for, if they are digits.
fn number_between(chars: &Vec<char>, from: usize, to: usize) -> (value: Option<i64>)
    requires
        from <= to <= chars@.len(),
        to - from <= 9,
    ensures
        match value {
            Some(v) => all_digits(chars@.subrange(from as int, to as int)) && v == digits_value(
                chars@.subrange(from as int, to as int),
            ) && 0 <= v < 1_000_000_000,
            None => !all_digits(chars@.subrange(from as int, to as int)),
        },
{
    let mut value: i64 = 0;
    let mut i: usize = from;
    let ghost all = chars@.subrange(from as int, to as int);
    assert(all.take(0).len() == 0);
    proof {
        lemma_powers_of_ten();
    }
    while i < to
        invariant
            from <= i <= to <= chars@.len(),
            to - from <= 9,
            all == chars@.subrange(from as int, to as int),
            all_digits(all.take(i - from)),
            value == digits_value(all.take(i - from)),
            0 <= value < 1_000_000_000,
            i < to ==> value < 100_000_000,
        decreases to - i,
    {
        let c = chars[i];
        assert(c == all[i - from]);
        if !digit_at(c) {
            return None;
        }
        value = value * 10 + ((c as u32) as i64 - 48);
        i += 1;
        proof {
            let now = all.take(i - from);
            assert(now.drop_last() =~= all.take(i - 1 - from));
            assert(now.last() == c);
            lemma_digits_bound(now);
            lemma_powers_of_ten();
        }
    }
    assert(all.take(i - from) =~= all);
    Some(value)
}

/// How many days a month has.
fn days_in_month(year: i64, month: i32) -> (days: i32)
    requires
        -1_000_000_000 < year < 1_000_000_000,
    ensures
        days == month_days(year as int, month as int),
{
    if month == 2 {
        let shifted: u64 = (year + 1_000_000_000) as u64;
        if shifted % 4 == 0 && (shifted % 100 != 0 || shifted % 400 == 0) {
            29
        } else {
            28
        }
    } else if month == 4 || month == 6 || month == 9 || month == 11 {
        30
    } else {
        31
    }
}

/// `(year + a) / b`, for a period `b` of the calendar.
fn periods(year: i64, a: i64, b: i64) -> (count: i64)
    requires
        -1_000_000_000 < year < 1_000_000_000,
        (a == 3 && b == 4) || (a == 99 && b == 100) || (a == 399 && b == 400),
    ensures
        count == (year + a) / (b as int),
        -300_000_000 < count < 300_000_000,
{
    // A billion years are a whole number of periods of each kind.
    let shifted: u64 = (year + 1_000_000_000 + a) as u64;
    if b == 4 {
        (shifted / 4) as i64 - 250_000_000
    } else if b == 100 {
        (shifted / 100) as i64 - 10_000_000
    } else {
        (shifted / 400) as i64 - 2_500_000
    }
}

/// How many leap days precede a year, counted from year 0.
fn leap_days_before(year: i64) -> (count: i64)
    requires
        -1_000_000_000 < year < 1_000_000_000,
    ensures
        count == (year + 3) / 4 - (year + 99) / 100 + (year + 399) / 400,
        -900_000_000 < count < 900_000_000,
{
    periods(year, 3, 4) - periods(year, 99, 100) + periods(year, 399, 400)
}

/// The days from 1970-01-01 to a date.
fn days_from_epoch(year: i64, month: i32, day: i32) -> (days: i64)
    requires
        -1_000_000_000 < year < 1_000_000_000,
        1 <= month <= 12,
        1 <= day <= 31,
    ensures
        days == day_number(year as int, month as int, day as int),
        -400_000_000_000 < days < 400_000_000_000,
{
    let mut before: i64 = 0;
    let mut m: i32 = 1;
    while m < month
        invariant
            1 <= m <= month <= 12,
            -1_000_000_000 < year < 1_000_000_000,
            before == days_before_month(year as int, m as int),
            0 <= before <= 31 * (m - 1),
        decreases month - m,
    {
        before = before + (days_in_month(year, m) as i64);
        m += 1;
    }
    365 * year + leap_days_before(year) + before + (day as i64) - 1 - 719_528
}

/// Reads a date.
fn read_date(chars: &Vec<char>) -> (date: Option<(i64, i32, i32)>)
    ensures
        match date {
            Some((year, month, day)) => parsed_date(chars@) == Some(
                (year as int, month as int, day as int),
            ) && -1_000_000_000 < year < 1_000_000_000 && 1 <= month <= 12 && 1 <= day <= 31,
            None => parsed_date(chars@) is None,
        },
{
    let n: usize = chars.len();
    if n < 10 || n > 16 {
        return None;
    }
    let signed = chars[0] == '+' || chars[0] == '-';
    let start: usize = if signed {
        1
    } else {
        0
    };
    let digits: usize = n - 6 - start;
    if digits < 4 || (signed && digits > 9) || (!signed && digits > 4) {
        return None;
    }
    if chars[n - 6] != '-' || chars[n - 3] != '-' {
        return None;
    }
    let magnitude: i64 = match number_between(chars, start, n - 6) {
        Some(value) => value,
        None => return None,
    };
    let month: i32 = match pair_at(chars, n - 5) {
        Some(value) => value,
        None => return None,
    };
    let day: i32 = match pair_at(chars, n - 2) {
        Some(value) => value,
        None => return None,
    };
    let year: i64 = if chars[0] == '-' {
        -magnitude
    } else {
        magnitude
    };
    if 1 <= month && month <= 12 && 1 <= day && day <= days_in_month(year, month) {
        Some((year, month, day))
    } else {
        None
    }
}

/// Reads a time of day: the seconds from midnight and the nanoseconds of the second.
fn read_clock(chars: &Vec<char>) -> (clock: Option<(i64, i64)>)
    ensures
        match clock {
            Some((seconds, nanos)) => parsed_clock(chars@) == Some((seconds as int, nanos as int))
                && 0 <= seconds < 86_400 && 0 <= nanos < 1_000_000_000,
            None => parsed_clock(chars@) is None,
        },
{
    let n: usize = chars.len();
    if n < 8 || chars[2] != ':' || chars[5] != ':' {
        return None;
    }
    let hours: i32 = match pair_at(chars, 0) {
        Some(value) => value,
        None => return None,
    };
    let minutes: i32 = match pair_at(chars, 3) {
        Some(value) => value,
        None => return None,
    };
    let seconds: i32 = match pair_at(chars, 6) {
        Some(value) => value,
        None => return None,
    };
    if hours > 23 || minutes > 59 || seconds > 59 {
        return None;
    }
    let total: i64 = (hours as i64) * 3600 + (minutes as i64) * 60 + (seconds as i64);
    if n == 8 {
        return Some((total, 0));
    }
    if chars[8] != '.' || n == 9 || n > 18 {
        return None;
    }
    let mut nanos: i64 = match number_between(chars, 9, n) {
        Some(value) => value,
        None => return None,
    };
    let ghost fraction = chars@.subrange(9, n as int);
    let ghost start = nanos;
    let mut k: usize = n - 9;
    proof {
        lemma_powers_of_ten();
        lemma_digits_bound(fraction);
    }
    while k < 9
        invariant
            1 <= k <= 9,
            fraction.len() <= k,
            fraction.len() == n - 9,
            start == digits_value(fraction),
            0 <= nanos < power_of_ten(k as nat) <= 1_000_000_000,
            nanos == start * power_of_ten((k - fraction.len()) as nat),
        decreases 9 - k,
    {
        proof {
            lemma_powers_of_ten();
            let p = power_of_ten((k - fraction.len()) as nat);
            assert(power_of_ten((k + 1 - fraction.len()) as nat) == 10 * p);
            assert(start * (10 * p) == (start * p) * 10) by (nonlinear_arith);
        }
        nanos = nanos * 10;
        k += 1;
    }
    Some((total, nanos))
}

/// The date that a text stands for, in days from 1970-01-01.
pub open spec fn date_days(value: Seq<char>) -> core::result::Result<i32, ErrorView> {
    match parsed_date(value) {
        None => Err(data_error("Invalid date default"@)),
        Some((year, month, day)) => {
            let days = day_number(year, month, day);
            if i32::MIN <= days <= i32::MAX {
                Ok(days as i32)
            } else {
                Err(data_error("Date default is out of range"@))
            }
        },
    }
}

/// Reads a date, in days from 1970-01-01.
pub fn iso_date_to_days(value: &str) -> (result: Result<i32, Error>)
    ensures
        outcome(result) == date_days(value@),
{
    match read_date(&chars_of(value)) {
        None => Err(data_invalid("Invalid date default")),
        Some((year, month, day)) => {
            let days: i64 = days_from_epoch(year, month, day);
            if (i32::MIN as i64) <= days && days <= (i32::MAX as i64) {
                Ok(days as i32)
            } else {
                Err(data_invalid("Date default is out of range"))
            }
        },
    }
}

/// The nanoseconds from the epoch of a date and time without a zone, in upper case.
pub open spec fn wall_nanos(upper: Seq<char>) -> core::result::Result<int, ErrorView> {
    if too_precise(upper) {
        Err(precision_error())
    } else {
        let full = full_seconds(upper);
        match find_char(full, 'T', 0) {
            None => Err(data_error("Invalid timestamp default"@)),
            Some(at) => match (
                parsed_date(full.subrange(0, at as int)),
                parsed_clock(full.subrange((at + 1) as int, full.len() as int)),
            ) {
                (Some((year, month, day)), Some((seconds, nanos))) => Ok(
                    (day_number(year, month, day) * 86_400 + seconds) * 1_000_000_000 + nanos,
                ),
                _ => Err(data_error("Invalid timestamp default"@)),
            },
        }
    }
}

/// A part of a text.
fn slice(chars: &Vec<char>, from: usize, to: usize) -> (result: Vec<char>)
    requires
        from <= to <= chars@.len(),
    ensures
        result@ == chars@.subrange(from as int, to as int),
{
    let mut result: Vec<char> = Vec::new();
    let mut i: usize = from;
    while i < to
        invariant
            from <= i <= to <= chars@.len(),
            result@ == chars@.subrange(from as int, i as int),
        decreases to - i,
    {
        result.push(chars[i]);
        i += 1;
        assert(chars@.subrange(from as int, i as int) =~= chars@.subrange(
            from as int,
            i - 1,
        ).push(chars@[i - 1]));
    }
    result
}

/// A number of nanoseconds by its value.
pub open spec fn nanos_outcome(result: Result<i128, Error>) -> core::result::Result<
    int,
    ErrorView,
> {
    match result {
        Ok(nanos) => Ok(nanos as int),
        Err(error) => Err(error@),
    }
}

/// Reads a date and time without a zone, in nanoseconds from the epoch.
fn read_wall_nanos(upper: &Vec<char>) -> (result: Result<i128, Error>)
    ensures
        nanos_outcome(result) == wall_nanos(upper@),
        result matches Ok(nanos) ==> -0x1_0000_0000_0000_0000_0000_0000 < nanos
            < 0x1_0000_0000_0000_0000_0000_0000,
{
    match validate_fractional_precision(upper) {
        Ok(_) => {},
        Err(error) => return Err(error),
    }
    let full = with_default_seconds(upper);
    let at: usize = match index_of_char(&full, 'T', 0) {
        Some(at) => at,
        None => return Err(data_invalid("Invalid timestamp default")),
    };
    let date = read_date(&slice(&full, 0, at));
    let clock = read_clock(&slice(&full, at + 1, full.len()));
    match (date, clock) {
        (Some((year, month, day)), Some((seconds, nanos))) => {
            let days: i64 = days_from_epoch(year, month, day);
            let total: i128 = ((days as i128) * 86_400 + (seconds as i128)) * 1_000_000_000 + (
            nanos as i128);
            Ok(total)
        },
        _ => Err(data_invalid("Invalid timestamp default")),
    }
}

/// Nanoseconds as microseconds, what is left over cut off.
pub open spec fn whole_micros(nanos: int) -> int {
    if nanos >= 0 {
        nanos / 1000
    } else {
        -((-nanos) / 1000)
    }
}

/// Microseconds, where they fit into 64 bits.
pub open spec fn micros_in_range(nanos: int, range_error: Seq<char>) -> core::result::Result<
    i64,
    ErrorView,
> {
    let micros = whole_micros(nanos);
    if i64::MIN <= micros <= i64::MAX {
        Ok(micros as i64)
    } else {
        Err(data_error(range_error))
    }
}

fn checked_micros(nanos: i128, range_error: &str) -> (result: Result<i64, Error>)
    requires
        nanos > i128::MIN,
    ensures
        outcome(result) == micros_in_range(nanos as int, range_error@),
{
    let micros: i128 = if nanos >= 0 {
        nanos / 1000
    } else {
        -((-nanos) / 1000)
    };
    if (i64::MIN as i128) <= micros && micros <= (i64::MAX as i128) {
        Ok(micros as i64)
    } else {
        Err(data_invalid(range_error))
    }
}

/// The date and time without a zone that a text stands for, in microseconds from the epoch.
pub open spec fn timestamp_micros(value: Seq<char>) -> core::result::Result<i64, ErrorView> {
    match wall_nanos(iso_upper(value)) {
        Err(error) => Err(error),
        Ok(nanos) => micros_in_range(nanos, "Timestamp default is out of range"@),
    }
}

/// Reads a date and time without a zone, in microseconds from the epoch.
pub fn iso_datetime_to_microseconds(value: &str) -> (result: Result<i64, Error>)
    ensures
        outcome(result) == timestamp_micros(value@),
{
    match read_wall_nanos(&normalize_iso_case(value)) {
        Ok(nanos) => checked_micros(nanos, "Timestamp default is out of range"),
        Err(error) => Err(error),
    }
}

/// The moment that a text with a zone stands for, in microseconds from the epoch in UTC.
pub open spec fn timestamptz_micros(value: Seq<char>) -> core::result::Result<i64, ErrorView> {
    let upper = iso_upper(value);
    match zone_index(upper) {
        Err(error) => Err(error),
        Ok(at) => match wall_nanos(upper.subrange(0, at as int)) {
            Err(error) => Err(error),
            Ok(nanos) => match utc_offset(upper.subrange(at as int, upper.len() as int)) {
                Err(error) => Err(error),
                Ok(offset) => micros_in_range(
                    nanos - offset * 1_000_000_000,
                    "Timestamptz default is out of range"@,
                ),
            },
        },
    }
}

/// Reads a date and time with a zone, in microseconds from the epoch in UTC.
pub fn iso_offset_datetime_to_microseconds(value: &str) -> (result: Result<i64, Error>)
    ensures
        outcome(result) == timestamptz_micros(value@),
{
    let upper = normalize_iso_case(value);
    let (wall, zone) = match split_zone(&upper) {
        Ok(parts) => parts,
        Err(error) => return Err(error),
    };
    let nanos: i128 = match read_wall_nanos(&wall) {
        Ok(nanos) => nanos,
        Err(error) => return Err(error),
    };
    match parse_utc_offset(&zone) {
        Ok(offset) => {
            let shift: i128 = (offset as i128) * 1_000_000_000;
            checked_micros(nanos - shift, "Timestamptz default is out of range")
        },
        Err(error) => Err(error),
    }
}

/// The date that follows a date.
pub open spec fn next_date(year: int, month: int, day: int) -> (int, int, int) {
    if day < month_days(year, month) {
        (year, month, day + 1)
    } else if month < 12 {
        (year, month + 1, 1)
    } else {
        (year + 1, 1, 1)
    }
}

/// Dates are numbered without gaps: 1970-01-01 has the number 0, and every date has the number
/// after that of the day before.
pub proof fn law_dates_are_numbered_without_gaps(year: int, month: int, day: int)
    requires
        1 <= month <= 12,
        1 <= day <= month_days(year, month),
    ensures
        day_number(1970, 1, 1) == 0,
        ({
            let (y, m, d) = next_date(year, month, day);
            day_number(y, m, d) == day_number(year, month, day) + 1
        }),
{
    if day == month_days(year, month) && month == 12 {
        reveal_with_fuel(days_before_month, 13);
        assert(days_before_month(year, 12) == if is_leap(year) {
            335int
        } else {
            334int
        });
        assert((year + 1 + 3) / 4 - (year + 3) / 4 == if year % 4 == 0 {
            1int
        } else {
            0int
        });
        assert((year + 1 + 99) / 100 - (year + 99) / 100 == if year % 100 == 0 {
            1int
        } else {
            0int
        });
        assert((year + 1 + 399) / 400 - (year + 399) / 400 == if year % 400 == 0 {
            1int
        } else {
            0int
        });
        assert(year % 400 == 0 ==> year % 100 == 0);
        assert(year % 100 == 0 ==> year % 4 == 0);
    }
}

} // verus!
