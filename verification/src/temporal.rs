//! Times, dates and timestamps written as ISO 8601 text.
//!
//! Letters may be in lower case, the seconds may be left out, and a fraction has at most nine
//! digits. Nanosecond timestamps and times of day are read by `chrono`; dates and microsecond
//! timestamps, whose years go far beyond what `chrono` can represent, are read here.

use vstd::prelude::*;

use crate::error::{data_invalid, Error};
#[allow(unused_imports)]
use crate::error::{data_error, data_error_over, outcome, ErrorView};
use crate::text::{cat3, chars_of, text_of};

verus! {

/// What `chrono` reads as a time of day: the seconds from midnight and the nanoseconds of the
/// second, or the text of its error.
pub uninterp spec fn read_time(text: Seq<char>, format: Seq<char>) -> core::result::Result<
    (u32, u32),
    Seq<char>,
>;

/// What was read, with the text of an error by its view.
pub open spec fn reading<T>(result: core::result::Result<T, String>) -> core::result::Result<
    T,
    Seq<char>,
> {
    match result {
        Ok(value) => Ok(value),
        Err(text) => Err(text@),
    }
}

/// Calls `chrono::NaiveTime::parse_from_str`, and reads the result with
/// `num_seconds_from_midnight` and `nanosecond`, or writes the error with `to_string`. The result
/// depends on the text and the format alone; it is an error where the text does not match the
/// format or is no time.
#[verifier::external_body]
fn chrono_time(text: &str, format: &str) -> (result: Result<(u32, u32), String>)
    ensures
        reading(result) == read_time(text@, format@),
{
    match chrono::NaiveTime::parse_from_str(text, format) {
        Ok(time) => Ok(
            (
                chrono::Timelike::num_seconds_from_midnight(&time),
                chrono::Timelike::nanosecond(&time),
            ),
        ),
        Err(error) => Err(error.to_string()),
    }
}

/// What `chrono` reads as a date and time without a zone: the seconds from 1970-01-01T00:00:00 and
/// the nanoseconds of the second, or the text of its error.
pub uninterp spec fn read_datetime(text: Seq<char>, format: Seq<char>) -> core::result::Result<
    (i64, u32),
    Seq<char>,
>;

/// Calls `chrono::NaiveDateTime::parse_from_str`, and reads the result, taken as UTC, with
/// `timestamp` and `nanosecond`, or writes the error with `to_string`. The result depends on the
/// text and the format alone; it is an error where the text does not match the format or is no date
/// and time.
#[verifier::external_body]
fn chrono_datetime(text: &str, format: &str) -> (result: Result<(i64, u32), String>)
    ensures
        reading(result) == read_datetime(text@, format@),
{
    match chrono::NaiveDateTime::parse_from_str(text, format) {
        Ok(time) => Ok((time.and_utc().timestamp(), chrono::Timelike::nanosecond(&time))),
        Err(error) => Err(error.to_string()),
    }
}

/// Whether `c` is a decimal digit.
pub open spec fn is_digit(c: char) -> bool {
    '0' <= c <= '9'
}

/// The value of a decimal digit.
pub open spec fn digit_value(c: char) -> int {
    c as int - 48
}

/// Whether all of `s` are decimal digits.
pub open spec fn all_digits(s: Seq<char>) -> bool {
    forall|i: int| 0 <= i < s.len() ==> is_digit(#[trigger] s[i])
}

/// The number that a string of digits stands for.
pub open spec fn digits_value(s: Seq<char>) -> int
    decreases s.len(),
{
    if s.len() == 0 {
        0
    } else {
        digits_value(s.drop_last()) * 10 + digit_value(s.last())
    }
}

/// The index of the first `c` from `i` on.
pub open spec fn find_char(s: Seq<char>, c: char, i: nat) -> Option<nat>
    decreases s.len() - i,
{
    if i >= s.len() {
        None
    } else if s[i as int] == c {
        Some(i)
    } else {
        find_char(s, c, i + 1)
    }
}

/// Whether `c` begins a zone.
pub open spec fn begins_zone(c: char) -> bool {
    c == 'Z' || c == '+' || c == '-'
}

/// The index from `i` on at which the zone begins.
pub open spec fn find_zone(s: Seq<char>, i: nat) -> Option<nat>
    decreases s.len() - i,
{
    if i >= s.len() {
        None
    } else if begins_zone(s[i as int]) {
        Some(i)
    } else {
        find_zone(s, i + 1)
    }
}

/// The index at which the digits from `i` on end.
pub open spec fn digits_end(s: Seq<char>, i: nat) -> nat
    decreases s.len() - i,
{
    if i >= s.len() || !is_digit(s[i as int]) {
        i
    } else {
        digits_end(s, i + 1)
    }
}

/// How often `c` occurs in `s` from `i` up to `end`.
pub open spec fn count_char(s: Seq<char>, c: char, i: nat, end: nat) -> nat
    decreases end - i,
{
    if i >= end || i >= s.len() {
        0
    } else {
        count_char(s, c, i + 1, end) + (if s[i as int] == c {
            1nat
        } else {
            0nat
        })
    }
}

/// The letters of a timestamp in upper case.
pub open spec fn upper_letter(c: char) -> char {
    if c == 't' {
        'T'
    } else if c == 'z' {
        'Z'
    } else {
        c
    }
}

/// A text with the letters of a timestamp in upper case.
pub open spec fn iso_upper(s: Seq<char>) -> Seq<char> {
    s.map_values(|c: char| upper_letter(c))
}

/// The index at which the time begins.
pub open spec fn time_start(s: Seq<char>) -> nat {
    match find_char(s, 'T', 0) {
        Some(at) => at + 1,
        None => 0,
    }
}

/// Whether the fraction of the seconds has more than nine digits.
pub open spec fn too_precise(s: Seq<char>) -> bool {
    match find_char(s, '.', time_start(s)) {
        Some(point) => digits_end(s, point + 1) - (point + 1) > 9,
        None => false,
    }
}

/// The text with `:00` for the seconds where its time has only hours and minutes.
pub open spec fn full_seconds(s: Seq<char>) -> Seq<char> {
    let start = time_start(s);
    let end = match find_zone(s, start) {
        Some(at) => at,
        None => s.len(),
    };
    if count_char(s, ':', start, end) == 1 {
        s.subrange(0, end as int) + ":00"@ + s.subrange(end as int, s.len() as int)
    } else {
        s
    }
}

pub(crate) fn index_of_char(chars: &Vec<char>, c: char, from: usize) -> (index: Option<usize>)
    requires
        from <= chars@.len(),
    ensures
        match index {
            Some(at) => from <= at < chars@.len() <= usize::MAX && find_char(chars@, c, from as nat) == Some(
                at as nat,
            ),
            None => find_char(chars@, c, from as nat) is None,
        },
{
    let mut i: usize = from;
    while i < chars.len()
        invariant
            from <= i <= chars@.len(),
            find_char(chars@, c, i as nat) == find_char(chars@, c, from as nat),
        decreases chars@.len() - i,
    {
        if chars[i] == c {
            return Some(i);
        }
        i += 1;
    }
    None
}

fn index_of_zone(chars: &Vec<char>, from: usize) -> (index: Option<usize>)
    requires
        from <= chars@.len(),
    ensures
        match index {
            Some(at) => from <= at < chars@.len() && find_zone(chars@, from as nat) == Some(
                at as nat,
            ),
            None => find_zone(chars@, from as nat) is None,
        },
{
    let mut i: usize = from;
    while i < chars.len()
        invariant
            from <= i <= chars@.len(),
            find_zone(chars@, i as nat) == find_zone(chars@, from as nat),
        decreases chars@.len() - i,
    {
        let c = chars[i];
        if c == 'Z' || c == '+' || c == '-' {
            return Some(i);
        }
        i += 1;
    }
    None
}

/// Where the time begins.
fn start_of_time(chars: &Vec<char>) -> (start: usize)
    ensures
        start == time_start(chars@),
        start <= chars@.len(),
{
    match index_of_char(chars, 'T', 0) {
        Some(at) => at + 1,
        None => 0,
    }
}

pub(crate) fn digit_at(c: char) -> (is: bool)
    ensures
        is == is_digit(c),
{
    '0' <= c && c <= '9'
}

/// Puts the letters of a timestamp into upper case.
pub fn normalize_iso_case(value: &str) -> (result: Vec<char>)
    ensures
        result@ == iso_upper(value@),
{
    let chars = chars_of(value);
    let mut result: Vec<char> = Vec::new();
    let mut i: usize = 0;
    while i < chars.len()
        invariant
            i <= chars@.len(),
            chars@ == value@,
            result@ == iso_upper(value@).take(i as int),
        decreases chars@.len() - i,
    {
        let c = chars[i];
        let upper = if c == 't' {
            'T'
        } else if c == 'z' {
            'Z'
        } else {
            c
        };
        result.push(upper);
        i += 1;
        assert(iso_upper(value@).take(i as int) =~= iso_upper(value@).take(i - 1).push(upper));
    }
    assert(iso_upper(value@).take(i as int) =~= iso_upper(value@));
    result
}

/// The error for a fraction that is too long.
pub open spec fn precision_error() -> ErrorView {
    data_error("Temporal defaults support at most 9 fractional-second digits"@)
}

/// Refuses a fraction of more than nine digits.
pub fn validate_fractional_precision(chars: &Vec<char>) -> (result: Result<(), Error>)
    ensures
        outcome(result) == (if too_precise(chars@) {
            Err(precision_error())
        } else {
            Ok(())
        }),
{
    let start: usize = start_of_time(chars);
    match index_of_char(chars, '.', start) {
        None => Ok(()),
        Some(point) => {
            let mut end: usize = point + 1;
            while end < chars.len() && digit_at(chars[end])
                invariant
                    point < end <= chars@.len(),
                    digits_end(chars@, end as nat) == digits_end(chars@, (point + 1) as nat),
                decreases chars@.len() - end,
            {
                end += 1;
            }
            if end - (point + 1) > 9 {
                Err(data_invalid("Temporal defaults support at most 9 fractional-second digits"))
            } else {
                Ok(())
            }
        },
    }
}

proof fn lemma_count_step(s: Seq<char>, c: char, i: nat, end: nat)
    requires
        i <= end < s.len(),
    ensures
        count_char(s, c, i, end + 1) == count_char(s, c, i, end) + (if s[end as int] == c {
            1nat
        } else {
            0nat
        }),
    decreases end - i,
{
    if i < end {
        lemma_count_step(s, c, i + 1, end);
    } else {
        assert(count_char(s, c, i + 1, end + 1) == 0);
    }
}

/// Adds the seconds to a time that has only hours and minutes.
pub fn with_default_seconds(chars: &Vec<char>) -> (result: Vec<char>)
    ensures
        result@ == full_seconds(chars@),
{
    let start: usize = start_of_time(chars);
    let end: usize = match index_of_zone(chars, start) {
        Some(at) => at,
        None => chars.len(),
    };
    let mut colons: usize = 0;
    let mut i: usize = start;
    while i < end
        invariant
            start <= i <= end <= chars@.len(),
            colons == count_char(chars@, ':', start as nat, i as nat),
            colons <= i - start,
        decreases end - i,
    {
        proof {
            lemma_count_step(chars@, ':', start as nat, i as nat);
        }
        if chars[i] == ':' {
            colons += 1;
        }
        i += 1;
    }
    let mut result: Vec<char> = Vec::new();
    i = 0;
    while i < end
        invariant
            i <= end <= chars@.len(),
            result@ == chars@.subrange(0, i as int),
        decreases end - i,
    {
        result.push(chars[i]);
        i += 1;
        assert(chars@.subrange(0, i as int) =~= chars@.subrange(0, i - 1).push(chars@[i - 1]));
    }
    if colons == 1 {
        result.push(':');
        result.push('0');
        result.push('0');
    }
    let ghost head = result@;
    proof {
        reveal_strlit(":00");
        assert(colons == 1 ==> head =~= chars@.subrange(0, end as int) + ":00"@);
    }
    while i < chars.len()
        invariant
            end <= i <= chars@.len(),
            result@ == head + chars@.subrange(end as int, i as int),
        decreases chars@.len() - i,
    {
        result.push(chars[i]);
        i += 1;
        assert(chars@.subrange(end as int, i as int) =~= chars@.subrange(end as int, i - 1).push(
            chars@[i - 1],
        ));
    }
    assert(chars@.subrange(0, end as int) + chars@.subrange(end as int, chars@.len() as int)
        =~= chars@);
    result
}

/// The error for a leap second.
pub open spec fn leap_error(kind: Seq<char>) -> ErrorView {
    data_error("Invalid "@ + kind + " default: leap seconds are not supported"@)
}

/// Refuses a leap second, which is a second of more than a billion nanoseconds.
pub fn reject_leap_second(nanosecond: u32, kind: &str) -> (result: Result<(), Error>)
    ensures
        outcome(result) == (if nanosecond < 1_000_000_000 {
            Ok(())
        } else {
            Err(leap_error(kind@))
        }),
{
    if nanosecond < 1_000_000_000 {
        Ok(())
    } else {
        let message = cat3("Invalid ", kind, " default: leap seconds are not supported");
        Err(data_invalid(message.as_str()))
    }
}

/// A time of day as it was read, if it is one and no leap second.
pub open spec fn checked_time(
    read: core::result::Result<(u32, u32), Seq<char>>,
) -> core::result::Result<(u32, u32), ErrorView> {
    match read {
        Err(text) => Err(data_error_over("Invalid time default"@, text)),
        Ok((seconds, nanos)) => if nanos < 1_000_000_000 {
            Ok((seconds, nanos))
        } else {
            Err(leap_error("time"@))
        },
    }
}

/// Checks a time of day as it was read.
pub fn check_time(read: Result<(u32, u32), String>) -> (result: Result<(u32, u32), Error>)
    ensures
        outcome(result) == checked_time(reading(read)),
{
    match read {
        Err(text) => Err(data_invalid("Invalid time default").with_outside_source(text)),
        Ok((seconds, nanos)) => match reject_leap_second(nanos, "time") {
            Ok(_) => Ok((seconds, nanos)),
            Err(error) => Err(error),
        },
    }
}

/// The format of a time of day.
pub open spec fn time_format() -> Seq<char> {
    "%H:%M:%S%.f"@
}

/// The format of a date and time.
pub open spec fn datetime_format() -> Seq<char> {
    "%Y-%m-%dT%H:%M:%S%.f"@
}

/// The time of day that a text stands for.
pub open spec fn local_time(value: Seq<char>) -> core::result::Result<(u32, u32), ErrorView> {
    let upper = iso_upper(value);
    if too_precise(upper) {
        Err(precision_error())
    } else {
        checked_time(read_time(full_seconds(upper), time_format()))
    }
}

/// Reads a time of day: the seconds from midnight and the nanoseconds of the second.
pub fn parse_local_time(value: &str) -> (result: Result<(u32, u32), Error>)
    ensures
        outcome(result) == local_time(value@),
{
    let upper = normalize_iso_case(value);
    match validate_fractional_precision(&upper) {
        Ok(_) => {},
        Err(error) => return Err(error),
    }
    let full = with_default_seconds(&upper);
    let text = text_of(&full, 0, full.len());
    assert(full@.subrange(0, full@.len() as int) =~= full@);
    check_time(chrono_time(text.as_str(), "%H:%M:%S%.f"))
}

/// A date and time as it was read, if it is one and no leap second.
pub open spec fn checked_datetime(
    read: core::result::Result<(i64, u32), Seq<char>>,
) -> core::result::Result<(i64, u32), ErrorView> {
    match read {
        Err(text) => Err(data_error_over("Invalid timestamp default"@, text)),
        Ok((seconds, nanos)) => if nanos < 1_000_000_000 {
            Ok((seconds, nanos))
        } else {
            Err(leap_error("timestamp"@))
        },
    }
}

/// Checks a date and time as it was read.
pub fn check_datetime(read: Result<(i64, u32), String>) -> (result: Result<(i64, u32), Error>)
    ensures
        outcome(result) == checked_datetime(reading(read)),
{
    match read {
        Err(text) => Err(data_invalid("Invalid timestamp default").with_outside_source(text)),
        Ok((seconds, nanos)) => match reject_leap_second(nanos, "timestamp") {
            Ok(_) => Ok((seconds, nanos)),
            Err(error) => Err(error),
        },
    }
}

/// The date and time that a text in upper case stands for.
pub open spec fn local_datetime(upper: Seq<char>) -> core::result::Result<(i64, u32), ErrorView> {
    if too_precise(upper) {
        Err(precision_error())
    } else {
        checked_datetime(read_datetime(full_seconds(upper), datetime_format()))
    }
}

/// Reads a date and time in upper case: the seconds from the epoch and the nanoseconds of the
/// second.
pub fn parse_local_datetime(upper: &Vec<char>) -> (result: Result<(i64, u32), Error>)
    ensures
        outcome(result) == local_datetime(upper@),
{
    match validate_fractional_precision(upper) {
        Ok(_) => {},
        Err(error) => return Err(error),
    }
    let full = with_default_seconds(upper);
    let text = text_of(&full, 0, full.len());
    assert(full@.subrange(0, full@.len() as int) =~= full@);
    check_datetime(chrono_datetime(text.as_str(), "%Y-%m-%dT%H:%M:%S%.f"))
}

/// The error for a malformed zone.
pub open spec fn offset_error() -> ErrorView {
    data_error("Invalid timestamptz UTC offset"@)
}

/// Whether `s` has two digits from `i` on.
pub open spec fn two_digits(s: Seq<char>, i: int) -> bool {
    is_digit(s[i]) && is_digit(s[i + 1])
}

/// The number of two digits.
pub open spec fn pair_value(s: Seq<char>, i: int) -> int {
    digit_value(s[i]) * 10 + digit_value(s[i + 1])
}

/// Whether a text is a sign and two digits for the hours, two for the minutes and, perhaps, two
/// for the seconds, with colons between them.
pub open spec fn offset_shape(s: Seq<char>) -> bool {
    &&& s.len() == 6 || s.len() == 9
    &&& s[0] == '+' || s[0] == '-'
    &&& two_digits(s, 1) && s[3] == ':' && two_digits(s, 4)
    &&& s.len() == 9 ==> s[6] == ':' && two_digits(s, 7)
}

/// The zone that a text stands for, in seconds east of UTC: `Z`, or an offset of at most 18 hours.
pub open spec fn utc_offset(s: Seq<char>) -> core::result::Result<i32, ErrorView> {
    if s == "Z"@ {
        Ok(0)
    } else if !offset_shape(s) {
        Err(offset_error())
    } else {
        let hours = pair_value(s, 1);
        let minutes = pair_value(s, 4);
        let seconds = if s.len() == 9 {
            pair_value(s, 7)
        } else {
            0
        };
        if hours > 18 || minutes > 59 || seconds > 59 || (hours == 18 && (minutes != 0 || seconds
            != 0)) {
            Err(data_error("Timestamptz UTC offset is out of range"@))
        } else {
            let total = hours * 3600 + minutes * 60 + seconds;
            Ok(
                (if s[0] == '-' {
                    -total
                } else {
                    total
                }) as i32,
            )
        }
    }
}

pub(crate) fn pair_at(chars: &Vec<char>, i: usize) -> (value: Option<i32>)
    requires
        i + 1 < chars@.len(),
        i < 100,
    ensures
        match value {
            Some(v) => two_digits(chars@, i as int) && v == pair_value(chars@, i as int) && 0 <= v
                <= 99,
            None => !two_digits(chars@, i as int),
        },
{
    let a = chars[i];
    let b = chars[i + 1];
    if digit_at(a) && digit_at(b) {
        Some(((a as u32) as i32 - 48) * 10 + ((b as u32) as i32 - 48))
    } else {
        None
    }
}

/// Reads a zone, in seconds east of UTC.
pub fn parse_utc_offset(chars: &Vec<char>) -> (result: Result<i32, Error>)
    ensures
        outcome(result) == utc_offset(chars@),
{
    proof {
        reveal_strlit("Z");
    }
    if chars.len() == 1 && chars[0] == 'Z' {
        assert(chars@ =~= "Z"@);
        return Ok(0);
    }
    assert(chars@ != "Z"@);
    if chars.len() != 6 && chars.len() != 9 {
        return Err(data_invalid("Invalid timestamptz UTC offset"));
    }
    if chars[0] != '+' && chars[0] != '-' || chars[3] != ':' {
        return Err(data_invalid("Invalid timestamptz UTC offset"));
    }
    let hours: i32 = match pair_at(chars, 1) {
        Some(value) => value,
        None => return Err(data_invalid("Invalid timestamptz UTC offset")),
    };
    let minutes: i32 = match pair_at(chars, 4) {
        Some(value) => value,
        None => return Err(data_invalid("Invalid timestamptz UTC offset")),
    };
    let mut seconds: i32 = 0;
    if chars.len() == 9 {
        if chars[6] != ':' {
            return Err(data_invalid("Invalid timestamptz UTC offset"));
        }
        match pair_at(chars, 7) {
            Some(value) => {
                seconds = value;
            },
            None => return Err(data_invalid("Invalid timestamptz UTC offset")),
        }
    }
    if hours > 18 || minutes > 59 || seconds > 59 || (hours == 18 && (minutes != 0 || seconds
        != 0)) {
        return Err(data_invalid("Timestamptz UTC offset is out of range"));
    }
    let total: i32 = hours * 3600 + minutes * 60 + seconds;
    if chars[0] == '-' {
        Ok(-total)
    } else {
        Ok(total)
    }
}

/// Where a text with a zone is cut: the index of its zone, or the error for a missing part.
pub open spec fn zone_index(upper: Seq<char>) -> core::result::Result<nat, ErrorView> {
    match find_char(upper, 'T', 0) {
        None => Err(data_error("Invalid timestamptz default: expected a 'T' separator"@)),
        Some(separator) => match find_zone(upper, separator + 1) {
            None => Err(data_error("Invalid timestamptz default: missing UTC offset"@)),
            Some(at) => Ok(at),
        },
    }
}

/// Splits a text in upper case before its zone.
pub(crate) fn split_zone(upper: &Vec<char>) -> (result: Result<(Vec<char>, Vec<char>), Error>)
    ensures
        match (result, zone_index(upper@)) {
            (Ok(parts), Ok(at)) => at < upper@.len() && parts.0@ == upper@.subrange(0, at as int)
                && parts.1@ == upper@.subrange(at as int, upper@.len() as int),
            (Err(error), Err(e)) => error@ == e,
            _ => false,
        },
{
    let separator: usize = match index_of_char(upper, 'T', 0) {
        Some(at) => at,
        None => return Err(
            data_invalid("Invalid timestamptz default: expected a 'T' separator"),
        ),
    };
    let at: usize = match index_of_zone(upper, separator + 1) {
        Some(at) => at,
        None => return Err(data_invalid("Invalid timestamptz default: missing UTC offset")),
    };
    let mut local: Vec<char> = Vec::new();
    let mut zone: Vec<char> = Vec::new();
    let mut i: usize = 0;
    while i < upper.len()
        invariant
            i <= upper@.len(),
            at < upper@.len(),
            i <= at ==> local@ == upper@.subrange(0, i as int) && zone@.len() == 0,
            i > at ==> local@ == upper@.subrange(0, at as int) && zone@ == upper@.subrange(
                at as int,
                i as int,
            ),
        decreases upper@.len() - i,
    {
        if i < at {
            local.push(upper[i]);
            assert(upper@.subrange(0, i + 1) =~= upper@.subrange(0, i as int).push(
                upper@[i as int],
            ));
        } else {
            zone.push(upper[i]);
            assert(zone@ =~= upper@.subrange(at as int, i + 1));
        }
        i += 1;
    }
    Ok((local, zone))
}

/// The moment that a text with a zone stands for: the seconds from the epoch in UTC and the
/// nanoseconds of the second.
pub open spec fn offset_datetime(value: Seq<char>) -> core::result::Result<(int, u32), ErrorView> {
    let upper = iso_upper(value);
    match zone_index(upper) {
        Err(error) => Err(error),
        Ok(at) => match local_datetime(upper.subrange(0, at as int)) {
            Err(error) => Err(error),
            Ok((seconds, nanos)) => match utc_offset(
                upper.subrange(at as int, upper.len() as int),
            ) {
                Err(error) => Err(error),
                Ok(offset) => Ok((seconds - offset, nanos)),
            },
        },
    }
}

/// A moment by its value.
pub open spec fn moment(result: Result<(i128, u32), Error>) -> core::result::Result<
    (int, u32),
    ErrorView,
> {
    match result {
        Ok((seconds, nanos)) => Ok((seconds as int, nanos)),
        Err(error) => Err(error@),
    }
}

/// Reads a date and time with a zone.
pub fn parse_offset_datetime(value: &str) -> (result: Result<(i128, u32), Error>)
    ensures
        moment(result) == offset_datetime(value@),
        result matches Ok(at) ==> i64::MIN - 0x1_0000_0000 <= at.0 <= i64::MAX + 0x1_0000_0000,
{
    let upper = normalize_iso_case(value);
    let (local_text, zone) = match split_zone(&upper) {
        Ok(parts) => parts,
        Err(error) => return Err(error),
    };
    let (seconds, nanos) = match parse_local_datetime(&local_text) {
        Ok(local) => local,
        Err(error) => return Err(error),
    };
    match parse_utc_offset(&zone) {
        Ok(offset) => Ok(((seconds as i128) - (offset as i128), nanos)),
        Err(error) => Err(error),
    }
}

/// The nanoseconds from the epoch, where they fit into 64 bits.
pub open spec fn epoch_nanos(seconds: int, nanos: u32) -> Option<i64> {
    let total = seconds * 1_000_000_000 + nanos;
    if i64::MIN <= total <= i64::MAX {
        Some(total as i64)
    } else {
        None
    }
}

/// The nanoseconds from the epoch, where they fit into 64 bits.
pub fn nanos_from_epoch(seconds: i128, nanos: u32) -> (result: Option<i64>)
    requires
        -0x1_0000_0000_0000_0000 <= seconds <= 0x1_0000_0000_0000_0000,
    ensures
        result == epoch_nanos(seconds as int, nanos),
{
    let total: i128 = seconds * 1_000_000_000 + (nanos as i128);
    if (i64::MIN as i128) <= total && total <= (i64::MAX as i128) {
        Some(total as i64)
    } else {
        None
    }
}

} // verus!
