//! Values that are read back from the texts that are written for them.

use vstd::arithmetic::power::*;
use vstd::prelude::*;

#[allow(unused_imports)]
use crate::calendar::{
    date_days, day_number, days_before_month, is_leap, law_dates_are_numbered_without_gaps, month_days, parsed_clock, parsed_date, power_of_ten,
    timestamp_micros, timestamptz_micros, wall_nanos,
};
#[allow(unused_imports)]
use crate::defaults::{converted, string_literal};
#[allow(unused_imports)]
use crate::encodings::{
    all_hex, good_group, group_width, hex_bytes, hex_number, hex_value, is_hex, split_dashes, uuid_number,
};
#[allow(unused_imports)]
use crate::error::ErrorView;
#[allow(unused_imports)]
use crate::literal::{LiteralView, PrimitiveView};
#[allow(unused_imports)]
use crate::temporal::{
    all_digits, begins_zone, count_char, digit_value, digits_end, digits_value, find_char, find_zone,
    full_seconds, is_digit, iso_upper, offset_datetime, local_datetime, local_time, pair_value, read_datetime, read_time, time_start,
    too_precise, two_digits, upper_letter, utc_offset, zone_index,
};
#[allow(unused_imports)]
use crate::text::digit_char;
#[allow(unused_imports)]
use crate::types::PrimitiveType;

verus! {

/// A time of day, written with two digits for the hours, the minutes and the seconds.
pub open spec fn clock_text(hours: int, minutes: int, seconds: int) -> Seq<char> {
    seq![
        digit_char(hours / 10),
        digit_char(hours % 10),
        ':',
        digit_char(minutes / 10),
        digit_char(minutes % 10),
        ':',
        digit_char(seconds / 10),
        digit_char(seconds % 10),
    ]
}

/// The month and the day of a date, each after a dash.
pub open spec fn month_and_day(month: int, day: int) -> Seq<char> {
    seq![
        '-',
        digit_char(month / 10),
        digit_char(month % 10),
        '-',
        digit_char(day / 10),
        digit_char(day % 10),
    ]
}

/// A zone, written with its sign, two digits for the hours, the minutes and the seconds.
pub open spec fn zone_text(east: bool, hours: int, minutes: int, seconds: int) -> Seq<char> {
    seq![
        if east {
            '+'
        } else {
            '-'
        },
        digit_char(hours / 10),
        digit_char(hours % 10),
        ':',
        digit_char(minutes / 10),
        digit_char(minutes % 10),
        ':',
        digit_char(seconds / 10),
        digit_char(seconds % 10),
    ]
}

proof fn lemma_digits(n: int)
    requires
        0 <= n <= 99,
    ensures
        is_digit(digit_char(n / 10)),
        is_digit(digit_char(n % 10)),
        digit_value(digit_char(n / 10)) * 10 + digit_value(digit_char(n % 10)) == n,
{
}

/// A time of day is read back from its text, where there is such a time of day.
pub proof fn law_clocks_are_read_back(hours: int, minutes: int, seconds: int)
    requires
        0 <= hours <= 99,
        0 <= minutes <= 99,
        0 <= seconds <= 99,
    ensures
        hours < 24 && minutes < 60 && seconds < 60 ==> parsed_clock(
            clock_text(hours, minutes, seconds),
        ) == Some((((hours * 60) + minutes) * 60 + seconds, 0int)),
        hours >= 24 || minutes >= 60 || seconds >= 60 ==> parsed_clock(
            clock_text(hours, minutes, seconds),
        ) is None,
{
    lemma_digits(hours);
    lemma_digits(minutes);
    lemma_digits(seconds);
}

/// A fraction of nine digits gives the nanoseconds of a time of day; a fraction stays the same with
/// a zero after it. Without digits, or with more than nine, there is no time of day.
pub proof fn law_fractions_are_read_back(clock: Seq<char>, fraction: Seq<char>)
    requires
        clock.len() == 8,
        parsed_clock(clock) is Some,
        all_digits(fraction),
    ensures
        ({
            let text = clock + seq!['.'] + fraction;
            let longer = clock + seq!['.'] + fraction.push('0');
            &&& fraction.len() == 9 ==> parsed_clock(text) == Some(
                (parsed_clock(clock)->Some_0.0, digits_value(fraction)),
            )
            &&& 1 <= fraction.len() < 9 ==> parsed_clock(text) is Some && parsed_clock(text)
                == parsed_clock(longer)
            &&& fraction.len() == 0 || fraction.len() > 9 ==> parsed_clock(text) is None
        }),
{
    let text = clock + seq!['.'] + fraction;
    let zero = fraction.push('0');
    let longer = clock + seq!['.'] + zero;
    assert(forall|i: int| 0 <= i < 8 ==> text[i] == clock[i] && longer[i] == clock[i]);
    assert(text[8] == '.' && longer[8] == '.');
    assert(text.subrange(9, text.len() as int) =~= fraction);
    assert(longer.subrange(9, longer.len() as int) =~= zero);
    assert(all_digits(zero));
    assert(zero.drop_last() =~= fraction);
    if fraction.len() == 9 {
        assert(power_of_ten(0) == 1);
    }
    if 1 <= fraction.len() < 9 {
        let k = (9 - fraction.len()) as nat;
        let less = power_of_ten((k - 1) as nat);
        assert(power_of_ten(k) == 10 * less);
        assert(digits_value(zero) == digits_value(fraction) * 10);
        assert(digits_value(fraction) * (10 * less) == (digits_value(fraction) * 10) * less)
            by (nonlinear_arith);
    }
}

/// A date is read back from its text: the digits of its year, after a sign where they are not four,
/// its month and its day. There is no such date where the year has no such month, or the month no
/// such day.
pub proof fn law_dates_are_read_back(
    sign: Option<bool>,
    digits: Seq<char>,
    month: int,
    day: int,
)
    requires
        all_digits(digits),
        sign is None ==> digits.len() == 4,
        sign is Some ==> 4 <= digits.len() <= 9,
        0 <= month <= 99,
        0 <= day <= 99,
    ensures
        ({
            let year = if sign == Some(false) {
                -digits_value(digits)
            } else {
                digits_value(digits)
            };
            let text = (match sign {
                None => digits,
                Some(true) => seq!['+'] + digits,
                Some(false) => seq!['-'] + digits,
            }) + month_and_day(month, day);
            &&& 1 <= month <= 12 && 1 <= day <= month_days(year, month) ==> parsed_date(text)
                == Some((year, month, day))
            &&& !(1 <= month <= 12 && 1 <= day <= month_days(year, month)) ==> parsed_date(
                text,
            ) is None
        }),
{
    let front = match sign {
        None => digits,
        Some(true) => seq!['+'] + digits,
        Some(false) => seq!['-'] + digits,
    };
    let text = front + month_and_day(month, day);
    let n = text.len() as int;
    lemma_digits(month);
    lemma_digits(day);
    assert(text[n - 6] == '-');
    assert(text[n - 5] == digit_char(month / 10));
    assert(text[n - 4] == digit_char(month % 10));
    assert(text[n - 3] == '-');
    assert(text[n - 2] == digit_char(day / 10));
    assert(text[n - 1] == digit_char(day % 10));
    if sign is None {
        assert(text[0] == digits[0]);
        assert(is_digit(digits[0]));
        assert(text.subrange(0, n - 6) =~= digits);
    } else {
        assert(text[0] == front[0]);
        assert(text.subrange(1, n - 6) =~= digits);
    }
}

/// Months have thirty or thirty-one days, turn and turn about, July and August both thirty-one; only
/// February is shorter.
pub proof fn law_months(year: int, month: int)
    requires
        1 <= month <= 12,
    ensures
        month != 2 ==> month_days(year, month) == 30 + (month + month / 8) % 2,
        month == 2 ==> month_days(year, month) == 28 || month_days(year, month) == 29,
{
}

/// Every fourth year is a leap year, but of the full centuries only every fourth: it has a day more,
/// which is in February.
#[verifier::spinoff_prover]
pub proof fn law_leap_years(year: int)
    ensures
        day_number(year + 1, 1, 1) - day_number(year, 1, 1) == 365 + month_days(year, 2) - 28,
        month_days(year, 2) == (if year % 400 == 0 {
            29int
        } else if year % 100 == 0 {
            28
        } else if year % 4 == 0 {
            29
        } else {
            28
        }),
{
    law_dates_are_numbered_without_gaps(year, 12, 31);
    assert(days_before_month(year, 12) == 306 + month_days(year, 2)) by {
        reveal_with_fuel(days_before_month, 13);
    }
    assert(days_before_month(year, 1) == 0);
    lemma_centuries(year);
}

proof fn lemma_centuries(year: int)
    ensures
        year % 400 == 0 ==> year % 100 == 0,
        year % 100 == 0 ==> year % 4 == 0,
{
}

/// The calendar repeats itself after 400 years, which is after 146097 days.
#[verifier::spinoff_prover]
pub proof fn law_the_calendar_repeats_itself(year: int, month: int, day: int)
    ensures
        day_number(year + 400, month, day) == day_number(year, month, day) + 146_097,
{
    lemma_same_months(year, month);
    assert((year + 400 + 3) / 4 == (year + 3) / 4 + 100);
    assert((year + 400 + 99) / 100 == (year + 99) / 100 + 4);
    assert((year + 400 + 399) / 400 == (year + 399) / 400 + 1);
}

proof fn lemma_same_leap(year: int)
    ensures
        is_leap(year + 400) == is_leap(year),
{
    vstd::arithmetic::div_mod::lemma_mod_multiples_vanish(100, year, 4);
    vstd::arithmetic::div_mod::lemma_mod_multiples_vanish(4, year, 100);
    vstd::arithmetic::div_mod::lemma_mod_multiples_vanish(1, year, 400);
}

#[verifier::spinoff_prover]
proof fn lemma_same_months(year: int, month: int)
    ensures
        days_before_month(year + 400, month) == days_before_month(year, month),
    decreases month,
{
    lemma_same_leap(year);
    if month > 1 {
        lemma_same_months(year, month - 1);
        assert(month_days(year + 400, month - 1) == month_days(year, month - 1));
    }
}

/// A zone is read back from its text, with or without its seconds, as seconds east of UTC; `Z` is
/// UTC itself. There is no zone more than eighteen hours away.
pub proof fn law_zones_are_read_back(east: bool, hours: int, minutes: int, seconds: int)
    requires
        0 <= hours <= 99,
        0 <= minutes < 60,
        0 <= seconds < 60,
    ensures
        ({
            let away = (hours * 60 + minutes) * 60 + seconds;
            let text = zone_text(east, hours, minutes, seconds);
            &&& away <= 18 * 3600 ==> utc_offset(text) is Ok && utc_offset(text)->Ok_0 == (if east {
                away
            } else {
                -away
            })
            &&& away > 18 * 3600 ==> utc_offset(text) is Err
            &&& seconds == 0 ==> utc_offset(text.take(6)) == utc_offset(text)
            &&& utc_offset("Z"@) is Ok && utc_offset("Z"@)->Ok_0 == 0
        }),
{
    reveal_strlit("Z");
    lemma_digits(hours);
    lemma_digits(minutes);
    lemma_digits(seconds);
    let text = zone_text(east, hours, minutes, seconds);
    assert(text.len() == 9);
    assert(text.take(6).len() == 6);
    assert(forall|i: int| 0 <= i < 6 ==> text.take(6)[i] == text[i]);
}

/// The characters of a date.
spec fn in_date(c: char) -> bool {
    is_digit(c) || c == '-' || c == '+'
}

/// The characters of a time of day.
spec fn in_clock(c: char) -> bool {
    is_digit(c) || c == ':' || c == '.'
}

/// The characters of a zone.
spec fn in_zone(c: char) -> bool {
    is_digit(c) || c == ':' || c == 'Z' || c == '+' || c == '-'
}

proof fn lemma_in_date(date: Seq<char>)
    requires
        parsed_date(date) is Some,
    ensures
        forall|i: int| 0 <= i < date.len() ==> in_date(#[trigger] date[i]),
{
    let n = date.len() as int;
    let first = if date[0] == '+' || date[0] == '-' {
        1int
    } else {
        0int
    };
    let digits = date.subrange(first, n - 6);
    assert forall|i: int| 0 <= i < n implies in_date(#[trigger] date[i]) by {
        if first <= i < n - 6 {
            assert(is_digit(digits[i - first]));
            assert(digits[i - first] == date[i]);
        } else if i >= n - 6 {
            assert(i == n - 6 || i == n - 5 || i == n - 5 + 1 || i == n - 3 || i == n - 2 || i == n
                - 2 + 1);
        }
    }
}

proof fn lemma_in_clock(clock: Seq<char>)
    requires
        parsed_clock(clock) is Some,
    ensures
        forall|i: int| 0 <= i < clock.len() ==> in_clock(#[trigger] clock[i]),
        8 <= clock.len() <= 18,
        forall|i: int|
            0 <= i < clock.len() ==> (#[trigger] clock[i] == ':' <==> i == 2 || i == 5),
        forall|i: int| 0 <= i < clock.len() && #[trigger] clock[i] == '.' ==> i == 8,
        forall|i: int| 9 <= i < clock.len() ==> is_digit(#[trigger] clock[i]),
{
    let n = clock.len() as int;
    assert(two_digits(clock, 0) && two_digits(clock, 3) && two_digits(clock, 6));
    assert forall|i: int| 9 <= i < n implies is_digit(#[trigger] clock[i]) by {
        let fraction = clock.subrange(9, n);
        assert(fraction[i - 9] == clock[i]);
    }
    assert forall|i: int| 0 <= i < 8 implies in_clock(#[trigger] clock[i]) && (clock[i] == ':' <==> i
        == 2 || i == 5) && clock[i] != '.' by {
        assert(i == 0 || i == 0 + 1 || i == 2 || i == 3 || i == 3 + 1 || i == 5 || i == 6 || i == 6
            + 1);
    }
}

proof fn lemma_in_zone(zone: Seq<char>)
    requires
        utc_offset(zone) is Ok,
    ensures
        zone.len() > 0,
        begins_zone(zone[0]),
        forall|i: int| 0 <= i < zone.len() ==> in_zone(#[trigger] zone[i]),
{
    reveal_strlit("Z");
    if zone != "Z"@ {
        let n = zone.len() as int;
        assert forall|i: int| 0 <= i < n implies in_zone(#[trigger] zone[i]) by {
            assert(two_digits(zone, 1) && two_digits(zone, 4));
            if n == 9 {
                assert(two_digits(zone, 7));
            }
            assert(i == 0 || i == 1 || i == 1 + 1 || i == 3 || i == 4 || i == 4 + 1 || i == 6 || i
                == 7 || i == 7 + 1);
        }
    }
}

proof fn lemma_find_char(s: Seq<char>, c: char, i: nat, k: nat)
    requires
        i <= k <= s.len(),
        forall|j: int| i <= j < k ==> #[trigger] s[j] != c,
        k < s.len() ==> s[k as int] == c,
    ensures
        find_char(s, c, i) == (if k < s.len() {
            Some(k)
        } else {
            None
        }),
    decreases k - i,
{
    if i < k {
        assert(s[i as int] != c);
        lemma_find_char(s, c, i + 1, k);
    }
}

proof fn lemma_find_zone(s: Seq<char>, i: nat, k: nat)
    requires
        i <= k <= s.len(),
        forall|j: int| i <= j < k ==> !begins_zone(#[trigger] s[j]),
        k < s.len() ==> begins_zone(s[k as int]),
    ensures
        find_zone(s, i) == (if k < s.len() {
            Some(k)
        } else {
            None
        }),
    decreases k - i,
{
    if i < k {
        assert(!begins_zone(s[i as int]));
        lemma_find_zone(s, i + 1, k);
    }
}

proof fn lemma_count_none(s: Seq<char>, c: char, i: nat, end: nat)
    requires
        end <= s.len(),
        forall|j: int| i <= j < end ==> #[trigger] s[j] != c,
    ensures
        count_char(s, c, i, end) == 0,
    decreases end - i,
{
    if i < end {
        assert(s[i as int] != c);
        lemma_count_none(s, c, i + 1, end);
    }
}

proof fn lemma_digits_end(s: Seq<char>, i: nat)
    requires
        i <= s.len(),
    ensures
        i <= digits_end(s, i) <= s.len(),
    decreases s.len() - i,
{
    if i < s.len() && is_digit(s[i as int]) {
        lemma_digits_end(s, i + 1);
    }
}

/// A full time of day at the end of a text is not too precise, and lacks no seconds.
#[verifier::spinoff_prover]
proof fn lemma_time_part(text: Seq<char>, clock: Seq<char>, start: nat)
    requires
        parsed_clock(clock) is Some,
        start + clock.len() == text.len(),
        forall|i: int| start <= i < text.len() ==> #[trigger] text[i] == clock[i - start],
        time_start(text) == start,
    ensures
        !too_precise(text),
        full_seconds(text) == text,
{
    let first = start as int;
    lemma_in_clock(clock);
    assert(!too_precise(text)) by {
        if clock.len() == 8 {
            lemma_find_char(text, '.', start, text.len());
        } else {
            assert(clock[8] == '.');
            assert(text[first + 8] == '.');
            assert forall|j: int| start <= j < start + 8 implies #[trigger] text[j] != '.' by {
                assert(text[j] == clock[j - start]);
            }
            lemma_find_char(text, '.', start, start + 8);
            lemma_digits_end(text, start + 9);
        }
    }
    assert forall|j: int| start <= j < text.len() implies !begins_zone(#[trigger] text[j]) by {
        assert(in_clock(clock[j - start]));
    }
    lemma_find_zone(text, start, text.len());
    assert(count_char(text, ':', start, text.len()) == 2) by {
        assert forall|j: int| start + 6 <= j < text.len() implies #[trigger] text[j] != ':' by {
            assert(text[j] == clock[j - start]);
        }
        lemma_count_none(text, ':', start + 6, text.len());
        assert(text[first + 0] == clock[0] && text[first + 1] == clock[1] && text[first + 2]
            == clock[2] && text[first + 3] == clock[3] && text[first + 4] == clock[4] && text[first
            + 5] == clock[5]);
        reveal_with_fuel(count_char, 8);
    }
}

/// What is read of a date and a time of day with a `T` between them.
#[verifier::spinoff_prover]
proof fn lemma_wall(date: Seq<char>, clock: Seq<char>)
    requires
        parsed_date(date) is Some,
        parsed_clock(clock) is Some,
    ensures
        ({
            let (year, month, day) = parsed_date(date)->Some_0;
            let (seconds, nanos) = parsed_clock(clock)->Some_0;
            let text = date + seq!['T'] + clock;
            &&& wall_nanos(text) is Ok
            &&& wall_nanos(text)->Ok_0 == (day_number(year, month, day) * 86_400 + seconds)
                * 1_000_000_000 + nanos
            &&& iso_upper(text) == text
            &&& !too_precise(text)
            &&& full_seconds(text) == text
        }),
{
    let text = date + seq!['T'] + clock;
    let at = date.len();
    let start = at + 1;
    lemma_in_date(date);
    lemma_in_clock(clock);
    assert(forall|i: int| 0 <= i < at ==> #[trigger] text[i] == date[i]);
    assert(text[at as int] == 'T');
    assert(forall|i: int|
        start <= i < text.len() ==> #[trigger] text[i] == clock[i - start]);
    lemma_find_char(text, 'T', 0, at);
    assert(time_start(text) == start);
    lemma_time_part(text, clock, start);
    assert(text.subrange(0, at as int) =~= date);
    assert(text.subrange(start as int, text.len() as int) =~= clock);
    assert(iso_upper(text) =~= text) by {
        assert forall|i: int| 0 <= i < text.len() implies upper_letter(#[trigger] text[i])
            == text[i] by {
            if i < at {
                assert(in_date(date[i]));
            } else if i > at {
                assert(in_clock(clock[i - start]));
            }
        }
    }
}

/// Whether a number of microseconds is that of a number of nanoseconds, cut off towards zero.
pub open spec fn cut_to_micros(nanos: int, micros: int) -> bool {
    &&& nanos >= 0 ==> micros * 1000 <= nanos < (micros + 1) * 1000
    &&& nanos < 0 ==> (micros - 1) * 1000 < nanos <= micros * 1000
}

/// A date and a time of day with a `T` between them stand for the day and the time of that day, in
/// microseconds, with what is left over cut off. It is read where 64 bits can hold it.
pub proof fn law_timestamps_are_read_back(date: Seq<char>, clock: Seq<char>)
    requires
        parsed_date(date) is Some,
        parsed_clock(clock) is Some,
    ensures
        ({
            let (year, month, day) = parsed_date(date)->Some_0;
            let (seconds, nanos) = parsed_clock(clock)->Some_0;
            let total = (day_number(year, month, day) * 86_400 + seconds) * 1_000_000_000 + nanos;
            let read = timestamp_micros(date + seq!['T'] + clock);
            &&& read is Ok ==> cut_to_micros(total, read->Ok_0 as int)
            &&& i64::MIN * 1000 <= total <= i64::MAX * 1000 ==> read is Ok
            &&& timestamp_micros(date + seq!['t'] + clock) == read
        }),
{
    lemma_wall(date, clock);
    let text = date + seq!['T'] + clock;
    let small = date + seq!['t'] + clock;
    assert(iso_upper(small) =~= text) by {
        assert forall|i: int| 0 <= i < text.len() implies upper_letter(#[trigger] small[i])
            == text[i] by {
            assert(iso_upper(text)[i] == upper_letter(text[i]));
        }
    }
}

/// Where a date and a time of day are cut before a zone.
#[verifier::spinoff_prover]
proof fn lemma_zone_part(date: Seq<char>, clock: Seq<char>, zone: Seq<char>)
    requires
        parsed_date(date) is Some,
        parsed_clock(clock) is Some,
        utc_offset(zone) is Ok,
    ensures
        ({
            let wall = date + seq!['T'] + clock;
            let text = wall + zone;
            &&& iso_upper(text) == text
            &&& zone_index(text) is Ok && zone_index(text)->Ok_0 == wall.len()
            &&& zone_index(wall) is Err
            &&& text.subrange(0, wall.len() as int) == wall
            &&& text.subrange(wall.len() as int, text.len() as int) == zone
        }),
{
    lemma_wall(date, clock);
    lemma_in_date(date);
    lemma_in_clock(clock);
    lemma_in_zone(zone);
    let wall = date + seq!['T'] + clock;
    let text = wall + zone;
    let at = date.len();
    assert(forall|i: int| 0 <= i < at ==> #[trigger] wall[i] == date[i]);
    assert(wall[at as int] == 'T');
    assert(forall|i: int| at + 1 <= i < wall.len() ==> #[trigger] wall[i] == clock[i - at - 1]);
    assert(forall|i: int| 0 <= i < wall.len() ==> #[trigger] text[i] == wall[i]);
    assert(forall|i: int| wall.len() <= i < text.len() ==> #[trigger] text[i] == zone[i
        - wall.len()]);
    assert(iso_upper(text) =~= text) by {
        assert forall|i: int| 0 <= i < text.len() implies upper_letter(#[trigger] text[i])
            == text[i] by {
            if i < wall.len() {
                assert(iso_upper(wall)[i] == upper_letter(wall[i]));
            } else {
                assert(in_zone(zone[i - wall.len()]));
            }
        }
    }
    assert forall|j: int| at + 1 <= j < wall.len() implies !begins_zone(#[trigger] wall[j]) by {
        assert(in_clock(clock[j - at - 1]));
    }
    lemma_find_char(text, 'T', 0, at);
    lemma_find_char(wall, 'T', 0, at);
    assert(text[wall.len() as int] == zone[0]);
    assert forall|j: int| at + 1 <= j < wall.len() implies !begins_zone(#[trigger] text[j]) by {
        assert(text[j] == wall[j]);
    }
    lemma_find_zone(text, at + 1, wall.len());
    lemma_find_zone(wall, at + 1, wall.len());
    assert(zone_index(text) is Ok && zone_index(text)->Ok_0 == wall.len());
    assert(text.subrange(0, wall.len() as int) =~= wall);
    assert(text.subrange(wall.len() as int, text.len() as int) =~= zone);
}

/// A date and a time of day that are followed by a zone stand for the moment at which it is that
/// time there: as many seconds earlier in UTC as the zone lies east of it.
pub proof fn law_moments_are_read_back(date: Seq<char>, clock: Seq<char>, zone: Seq<char>)
    requires
        parsed_date(date) is Some,
        parsed_clock(clock) is Some,
        utc_offset(zone) is Ok,
    ensures
        ({
            let (year, month, day) = parsed_date(date)->Some_0;
            let (seconds, nanos) = parsed_clock(clock)->Some_0;
            let total = (day_number(year, month, day) * 86_400 + seconds - utc_offset(zone)->Ok_0)
                * 1_000_000_000 + nanos;
            let read = timestamptz_micros(date + seq!['T'] + clock + zone);
            &&& read is Ok ==> cut_to_micros(total, read->Ok_0 as int)
            &&& i64::MIN * 1000 <= total <= i64::MAX * 1000 ==> read is Ok
            &&& timestamptz_micros(date + seq!['T'] + clock) is Err
        }),
{
    lemma_wall(date, clock);
    lemma_zone_part(date, clock, zone);
}

/// Hours and minutes alone stand for the full minute.
#[verifier::spinoff_prover]
pub proof fn law_seconds_may_be_left_out(date: Seq<char>, hours: int, minutes: int)
    requires
        parsed_date(date) is Some,
        0 <= hours < 24,
        0 <= minutes < 60,
    ensures
        ({
            let clock = clock_text(hours, minutes, 0);
            timestamp_micros(date + seq!['T'] + clock.take(5)) == timestamp_micros(
                date + seq!['T'] + clock,
            )
        }),
{
    let clock = clock_text(hours, minutes, 0);
    law_clocks_are_read_back(hours, minutes, 0);
    lemma_wall(date, clock);
    lemma_in_date(date);
    lemma_in_clock(clock);
    reveal_strlit(":00");
    let text = date + seq!['T'] + clock;
    let short = date + seq!['T'] + clock.take(5);
    let at = date.len();
    let start = at + 1;
    let first = start as int;
    assert(short =~= text.take(first + 5));
    assert(forall|i: int| 0 <= i < at ==> #[trigger] text[i] == date[i]);
    assert(text[at as int] == 'T');
    assert(forall|i: int|
        start <= i < text.len() ==> #[trigger] text[i] == clock[i - start]);
    assert(forall|i: int| 0 <= i < short.len() ==> #[trigger] short[i] == text[i]);
    assert(iso_upper(short) =~= short) by {
        assert forall|i: int| 0 <= i < short.len() implies upper_letter(#[trigger] short[i])
            == short[i] by {
            assert(iso_upper(text)[i] == upper_letter(text[i]));
        }
    }
    lemma_find_char(short, 'T', 0, at);
    assert(time_start(short) == start);
    assert forall|j: int| start <= j < short.len() implies #[trigger] short[j] != '.'
        && !begins_zone(short[j]) by {
        assert(short[j] == text[j]);
        assert(in_clock(clock[j - start]));
    }
    lemma_find_char(short, '.', start, short.len());
    lemma_find_zone(short, start, short.len());
    assert(count_char(short, ':', start, short.len()) == 1) by {
        assert(short[first + 0] == clock[0] && short[first + 1] == clock[1] && short[first + 2]
            == clock[2] && short[first + 3] == clock[3] && short[first + 4] == clock[4]);
        reveal_with_fuel(count_char, 7);
    }
    assert(clock[5] == ':' && clock[6] == digit_char(0) && clock[7] == digit_char(0));
    assert(digit_char(0) == '0');
    assert(full_seconds(short) =~= text) by {
        let full = short.subrange(0, short.len() as int) + ":00"@ + short.subrange(
            short.len() as int,
            short.len() as int,
        );
        assert(full_seconds(short) == full);
        assert(full.len() == text.len());
        assert forall|i: int| 0 <= i < text.len() implies full[i] == #[trigger] text[i] by {
            if i >= short.len() {
                assert(text[i] == clock[i - start]);
            }
        }
    }
    assert(text.subrange(0, at as int) =~= date);
    assert(text.subrange(start as int, text.len() as int) =~= clock);
    assert(wall_nanos(short) == wall_nanos(text)) by {
        lemma_find_char(text, 'T', 0, at);
        assert(!too_precise(short));
    }
}

/// A hexadecimal digit, in upper or in lower case.
pub open spec fn hex_char(d: int, upper: bool) -> char {
    if d < 10 {
        digit_char(d)
    } else if upper {
        (65 + (d - 10)) as char
    } else {
        (97 + (d - 10)) as char
    }
}

/// Bytes, written with two hexadecimal digits each.
pub open spec fn hex_text(bytes: Seq<u8>, upper: bool) -> Seq<char> {
    Seq::new(
        2 * bytes.len(),
        |i: int|
            hex_char(
                if i % 2 == 0 {
                    bytes[i / 2] as int / 16
                } else {
                    bytes[i / 2] as int % 16
                },
                upper,
            ),
    )
}

proof fn lemma_hex_char(d: int, upper: bool)
    requires
        0 <= d < 16,
    ensures
        is_hex(hex_char(d, upper)),
        hex_value(hex_char(d, upper)) == d,
{
}

/// Bytes are read back from their text, in upper or in lower case. A text of an odd length, or with
/// another character in it, stands for no bytes.
pub proof fn law_bytes_are_read_back(bytes: Seq<u8>, upper: bool, other: Seq<char>)
    ensures
        hex_bytes(hex_text(bytes, upper)) == Some(bytes),
        other.len() % 2 == 1 ==> hex_bytes(other) is None,
        (exists|i: int| 0 <= i < other.len() && !is_hex(#[trigger] other[i])) ==> hex_bytes(
            other,
        ) is None,
{
    let text = hex_text(bytes, upper);
    assert forall|i: int| 0 <= i < text.len() implies is_hex(#[trigger] text[i]) && hex_value(
        text[i],
    ) == (if i % 2 == 0 {
        bytes[i / 2] as int / 16
    } else {
        bytes[i / 2] as int % 16
    }) by {
        lemma_hex_char(bytes[i / 2] as int / 16, upper);
        lemma_hex_char(bytes[i / 2] as int % 16, upper);
    }
    assert(text.len() % 2 == 0 && text.len() / 2 == bytes.len());
    let read = hex_bytes(text)->Some_0;
    assert forall|i: int| 0 <= i < bytes.len() implies #[trigger] read[i] == bytes[i] by {
        assert((2 * i) % 2 == 0 && (2 * i) / 2 == i);
        assert((2 * i + 1) % 2 == 1 && (2 * i + 1) / 2 == i);
        assert(hex_value(text[2 * i]) == bytes[i] as int / 16);
        assert(hex_value(text[2 * i + 1]) == bytes[i] as int % 16);
    }
    assert(read =~= bytes);
}

/// A number, written with `width` hexadecimal digits.
pub open spec fn hex_digits(n: int, width: nat, upper: bool) -> Seq<char>
    decreases width,
{
    if width == 0 {
        Seq::empty()
    } else {
        hex_digits(n / 16, (width - 1) as nat, upper).push(hex_char(n % 16, upper))
    }
}

proof fn lemma_hex_digits(n: int, width: nat, upper: bool)
    requires
        0 <= n < pow(16, width),
    ensures
        hex_digits(n, width, upper).len() == width,
        all_hex(hex_digits(n, width, upper)),
        hex_number(hex_digits(n, width, upper)) == n,
    decreases width,
{
    reveal(pow);
    let text = hex_digits(n, width, upper);
    if width > 0 {
        lemma_hex_digits(n / 16, (width - 1) as nat, upper);
        lemma_hex_char(n % 16, upper);
        assert(text.drop_last() =~= hex_digits(n / 16, (width - 1) as nat, upper));
        assert(text.last() == hex_char(n % 16, upper));
        assert forall|i: int| 0 <= i < text.len() implies is_hex(#[trigger] text[i]) by {
            if i < text.len() - 1 {
                assert(text[i] == text.drop_last()[i]);
            }
        }
    }
}

/// Whether a text has no dash in it.
pub open spec fn without_dash(s: Seq<char>) -> bool {
    forall|i: int| 0 <= i < s.len() ==> #[trigger] s[i] != '-'
}

/// Texts from `i` on with dashes between them.
pub open spec fn dashed(parts: Seq<Seq<char>>, i: nat) -> Seq<char>
    decreases parts.len() - i,
{
    if i + 1 >= parts.len() {
        parts[i as int]
    } else {
        parts[i as int] + seq!['-'] + dashed(parts, i + 1)
    }
}

proof fn lemma_to_dash(s: Seq<char>, start: nat, i: nat, k: nat, done: Seq<Seq<char>>)
    requires
        start <= i <= k <= s.len(),
        forall|j: int| i <= j < k ==> #[trigger] s[j] != '-',
        k < s.len() ==> s[k as int] == '-',
    ensures
        split_dashes(s, start, i, done) == (if k < s.len() {
            split_dashes(s, k + 1, k + 1, done.push(s.subrange(start as int, k as int)))
        } else {
            done.push(s.subrange(start as int, k as int))
        }),
    decreases k - i,
{
    if i < k {
        assert(s[i as int] != '-');
        lemma_to_dash(s, start, i + 1, k, done);
    }
}

/// What is split off a text that ends with a part, a dash and what is left.
#[verifier::spinoff_prover]
proof fn lemma_next_part(
    s: Seq<char>,
    start: nat,
    part: Seq<char>,
    left: Seq<char>,
    done: Seq<Seq<char>>,
)
    requires
        start <= s.len(),
        s.subrange(start as int, s.len() as int) == part + seq!['-'] + left,
        without_dash(part),
    ensures
        start + part.len() + 1 <= s.len(),
        split_dashes(s, start, start, done) == split_dashes(
            s,
            start + part.len() + 1,
            start + part.len() + 1,
            done.push(part),
        ),
        s.subrange((start + part.len() + 1) as int, s.len() as int) == left,
{
    let tail = part + seq!['-'] + left;
    let k = start + part.len();
    assert(tail.len() == s.len() - start);
    assert forall|j: int| start <= j < s.len() implies #[trigger] s[j] == tail[j - start] by {
        assert(s.subrange(start as int, s.len() as int)[j - start] == s[j]);
    }
    assert forall|j: int| start <= j < k implies #[trigger] s[j] != '-' by {
        assert(tail[j - start] == part[j - start]);
    }
    assert(s[k as int] == tail[part.len() as int]);
    assert(tail[part.len() as int] == '-');
    lemma_to_dash(s, start, start, k, done);
    assert(s.subrange(start as int, k as int) =~= part) by {
        assert forall|j: int| 0 <= j < part.len() implies s.subrange(start as int, k as int)[j]
            == part[j] by {
            assert(s[start + j] == tail[j]);
        }
    }
    assert(s.subrange((start + part.len() + 1) as int, s.len() as int) =~= left) by {
        assert forall|j: int| 0 <= j < left.len() implies s.subrange(
            (start + part.len() + 1) as int,
            s.len() as int,
        )[j] == left[j] by {
            assert(s[start + part.len() + 1 + j] == tail[part.len() + 1 + j]);
        }
    }
}

/// What is split off a text that ends with a part.
proof fn lemma_last_part(s: Seq<char>, start: nat, part: Seq<char>, done: Seq<Seq<char>>)
    requires
        start <= s.len(),
        s.subrange(start as int, s.len() as int) == part,
        without_dash(part),
    ensures
        split_dashes(s, start, start, done) == done.push(part),
{
    assert forall|j: int| start <= j < s.len() implies #[trigger] s[j] != '-' by {
        assert(part[j - start] == s[j]);
    }
    lemma_to_dash(s, start, start, s.len(), done);
}

/// A text is split into the parts that it was put together from.
#[verifier::spinoff_prover]
proof fn lemma_parts(s: Seq<char>, start: nat, parts: Seq<Seq<char>>, i: nat)
    requires
        i < parts.len(),
        start <= s.len(),
        s.subrange(start as int, s.len() as int) == dashed(parts, i),
        forall|j: int| 0 <= j < parts.len() ==> without_dash(#[trigger] parts[j]),
    ensures
        split_dashes(s, start, start, parts.take(i as int)) == parts,
    decreases parts.len() - i,
{
    let part = parts[i as int];
    assert(parts.take((i + 1) as int) =~= parts.take(i as int).push(part));
    if i + 1 == parts.len() {
        lemma_last_part(s, start, part, parts.take(i as int));
        assert(parts.take((i + 1) as int) =~= parts);
    } else {
        lemma_next_part(s, start, part, dashed(parts, i + 1), parts.take(i as int));
        lemma_parts(s, start + part.len() + 1, parts, i + 1);
    }
}

proof fn lemma_hex_without_dash(s: Seq<char>)
    requires
        all_hex(s),
    ensures
        without_dash(s),
{
    assert forall|i: int| 0 <= i < s.len() implies #[trigger] s[i] != '-' by {
        assert(is_hex(s[i]));
    }
}

/// Numbers, written with as many hexadecimal digits each as `widths` says.
pub open spec fn hex_groups(numbers: Seq<int>, widths: Seq<nat>, upper: bool) -> Seq<Seq<char>> {
    Seq::new(numbers.len(), |i: int| hex_digits(numbers[i], widths[i], upper))
}

/// A UUID is read back from its five groups of digits, of which leading zeros may be left out: at
/// most eight, four, four, four and twelve. The groups are the digits of one number, the first of
/// them its highest.
#[verifier::spinoff_prover]
pub proof fn law_uuids_are_read_back(numbers: Seq<int>, widths: Seq<nat>, upper: bool)
    requires
        numbers.len() == 5 && widths.len() == 5,
        forall|i: int| 0 <= i < 5 ==> 0 <= #[trigger] numbers[i] < pow(16, widths[i]),
        0 < widths[0] <= 8 && 0 < widths[1] <= 4 && 0 < widths[2] <= 4 && 0 < widths[3] <= 4 && 0
            < widths[4] <= 12,
    ensures
        uuid_number(dashed(hex_groups(numbers, widths, upper), 0)) == Some(
            numbers[0] * 0x1_0000_0000_0000_0000_0000_0000 + numbers[1]
                * 0x1_0000_0000_0000_0000_0000 + numbers[2] * 0x1_0000_0000_0000_0000 + numbers[3]
                * 0x1_0000_0000_0000 + numbers[4],
        ),
{
    let parts = hex_groups(numbers, widths, upper);
    let s = dashed(parts, 0);
    assert forall|i: int| 0 <= i < 5 implies {
        &&& without_dash(#[trigger] parts[i])
        &&& all_hex(parts[i])
        &&& parts[i].len() == widths[i]
        &&& hex_number(parts[i]) == numbers[i]
    } by {
        assert(0 <= numbers[i] < pow(16, widths[i]));
        lemma_hex_digits(numbers[i], widths[i], upper);
        lemma_hex_without_dash(parts[i]);
    }
    assert(s.subrange(0, s.len() as int) =~= s);
    assert(parts.take(0) =~= Seq::empty());
    lemma_parts(s, 0, parts, 0);
    assert forall|i: int| 0 <= i < 5 implies good_group(#[trigger] parts[i], group_width(i)) by {
        assert(i == 0 || i == 1 || i == 2 || i == 3 || i == 4);
    }
}

/// A text is a UUID only where it has five groups, none of them empty or too long, and nothing in
/// them but hexadecimal digits.
pub proof fn law_other_texts_are_no_uuids(parts: Seq<Seq<char>>)
    requires
        parts.len() > 0,
        forall|i: int| 0 <= i < parts.len() ==> without_dash(#[trigger] parts[i]),
    ensures
        uuid_number(dashed(parts, 0)) is Some <==> {
            &&& parts.len() == 5
            &&& forall|i: int| 0 <= i < 5 ==> all_hex(#[trigger] parts[i]) && parts[i].len() > 0
            &&& parts[0].len() <= 8
            &&& parts[1].len() <= 4
            &&& parts[2].len() <= 4
            &&& parts[3].len() <= 4
            &&& parts[4].len() <= 12
        },
{
    let s = dashed(parts, 0);
    assert(s.subrange(0, s.len() as int) =~= s);
    assert(parts.take(0) =~= Seq::empty());
    lemma_parts(s, 0, parts, 0);
    if uuid_number(s) is Some {
        assert(good_group(parts[0], group_width(0)));
        assert(good_group(parts[1], group_width(1)));
        assert(good_group(parts[2], group_width(2)));
        assert(good_group(parts[3], group_width(3)));
        assert(good_group(parts[4], group_width(4)));
    }
}

/// A text becomes the value that it stands for in the type of its column: a date, a moment, a UUID
/// or bytes. A text stays what it is in a column of texts, and becomes nothing else.
pub proof fn law_texts_become_their_values(
    text: Seq<char>,
    length: u64,
    texts: Seq<(u64, Seq<char>)>,
)
    ensures
        ({
            let literal = PrimitiveView::String(text);
            let date = converted(PrimitiveType::Date, literal, texts);
            let local = converted(PrimitiveType::Timestamp, literal, texts);
            let moment = converted(PrimitiveType::Timestamptz, literal, texts);
            let uuid = converted(PrimitiveType::Uuid, literal, texts);
            let bytes = converted(PrimitiveType::Binary, literal, texts);
            &&& date is Ok <==> date_days(text) is Ok
            &&& date_days(text) matches Ok(days) ==> date == Ok::<LiteralView, ErrorView>(
                LiteralView::Primitive(PrimitiveView::Int(days)),
            )
            &&& local is Ok <==> timestamp_micros(text) is Ok
            &&& timestamp_micros(text) matches Ok(micros) ==> local == Ok::<LiteralView, ErrorView>(
                LiteralView::Primitive(PrimitiveView::Long(micros)),
            )
            &&& moment is Ok <==> timestamptz_micros(text) is Ok
            &&& timestamptz_micros(text) matches Ok(micros) ==> moment == Ok::<
                LiteralView,
                ErrorView,
            >(LiteralView::Primitive(PrimitiveView::Long(micros)))
            &&& uuid is Ok <==> uuid_number(text) is Some
            &&& uuid_number(text) matches Some(number) ==> uuid == Ok::<LiteralView, ErrorView>(
                LiteralView::Primitive(PrimitiveView::UInt128(number as u128)),
            )
            &&& bytes is Ok <==> hex_bytes(text) is Some
            &&& hex_bytes(text) matches Some(read) ==> bytes == Ok::<LiteralView, ErrorView>(
                LiteralView::Primitive(PrimitiveView::Binary(read)),
            )
            &&& converted(PrimitiveType::Fixed(length), literal, texts) == bytes
            &&& converted(PrimitiveType::String, literal, texts) == Ok::<LiteralView, ErrorView>(
                LiteralView::Primitive(literal),
            )
            &&& converted(PrimitiveType::Boolean, literal, texts) is Err
            &&& converted(PrimitiveType::Int, literal, texts) is Err
            &&& converted(PrimitiveType::Long, literal, texts) is Err
            &&& converted(PrimitiveType::Float, literal, texts) is Err
            &&& converted(PrimitiveType::Double, literal, texts) is Err
        }),
{
    reveal(converted);
    reveal(string_literal);
}

/// A time of day is what is read of its text by hours, minutes, seconds and a fraction; in
/// microseconds, with what is left over cut off. A leap second is refused.
pub proof fn law_times_of_day(clock: Seq<char>, texts: Seq<(u64, Seq<char>)>)
    requires
        parsed_clock(clock) is Some,
    ensures
        ({
            let read = read_time(clock, "%H:%M:%S%.f"@);
            let time = converted(PrimitiveType::Time, PrimitiveView::String(clock), texts);
            &&& time is Ok <==> read is Ok && read->Ok_0.1 < 1_000_000_000
            &&& time is Ok ==> {
                &&& time matches Ok(LiteralView::Primitive(PrimitiveView::Long(micros)))
                &&& micros as int / 1_000_000 == read->Ok_0.0
                &&& cut_to_micros(read->Ok_0.1 as int, micros as int % 1_000_000)
            }
        }),
{
    reveal(converted);
    reveal(string_literal);
    lemma_in_clock(clock);
    assert forall|i: int| 0 <= i < clock.len() implies #[trigger] clock[i] != 'T' && upper_letter(
        clock[i],
    ) == clock[i] by {
        assert(in_clock(clock[i]));
    }
    assert(iso_upper(clock) =~= clock);
    lemma_find_char(clock, 'T', 0, clock.len());
    lemma_time_part(clock, clock, 0);
}

/// Hours and minutes alone stand for the full minute in a time of day, too.
pub proof fn law_seconds_of_times_may_be_left_out(hours: int, minutes: int)
    requires
        0 <= hours < 24,
        0 <= minutes < 60,
    ensures
        ({
            let clock = clock_text(hours, minutes, 0);
            local_time(clock.take(5)) == local_time(clock)
        }),
{
    let clock = clock_text(hours, minutes, 0);
    let short = clock.take(5);
    law_clocks_are_read_back(hours, minutes, 0);
    lemma_in_clock(clock);
    reveal_strlit(":00");
    assert forall|i: int| 0 <= i < clock.len() implies #[trigger] clock[i] != 'T' && upper_letter(
        clock[i],
    ) == clock[i] && !begins_zone(clock[i]) by {
        assert(in_clock(clock[i]));
    }
    assert(forall|i: int| 0 <= i < 5 ==> #[trigger] short[i] == clock[i]);
    assert(iso_upper(clock) =~= clock);
    assert(iso_upper(short) =~= short);
    lemma_find_char(clock, 'T', 0, clock.len());
    lemma_time_part(clock, clock, 0);
    lemma_find_char(short, 'T', 0, 5);
    lemma_find_char(short, '.', 0, 5);
    lemma_find_zone(short, 0, 5);
    assert(count_char(short, ':', 0, 5) == 1) by {
        assert(short[0] == clock[0] && short[1] == clock[1] && short[2] == clock[2] && short[3]
            == clock[3] && short[4] == clock[4]);
        reveal_with_fuel(count_char, 7);
    }
    assert(digit_char(0) == '0');
    assert(full_seconds(short) =~= clock);
}

/// A date and a time of day in a column of nanoseconds are what is read of their text, with the
/// nanoseconds of the second; with a zone behind them, as many seconds earlier as the zone lies east
/// of UTC. They are read where 64 bits can hold them, and a leap second is refused.
pub proof fn law_nanoseconds(
    date: Seq<char>,
    clock: Seq<char>,
    zone: Seq<char>,
    texts: Seq<(u64, Seq<char>)>,
)
    requires
        parsed_date(date) is Some,
        parsed_clock(clock) is Some,
        utc_offset(zone) is Ok,
    ensures
        ({
            let wall = date + seq!['T'] + clock;
            let read = read_datetime(wall, "%Y-%m-%dT%H:%M:%S%.f"@);
            let local = converted(PrimitiveType::TimestampNs, PrimitiveView::String(wall), texts);
            let moment = converted(
                PrimitiveType::TimestamptzNs,
                PrimitiveView::String(wall + zone),
                texts,
            );
            let (seconds, nanos) = read->Ok_0;
            let total = seconds * 1_000_000_000 + nanos;
            let shifted = (seconds - utc_offset(zone)->Ok_0) * 1_000_000_000 + nanos;
            &&& local is Ok <==> read is Ok && nanos < 1_000_000_000 && i64::MIN <= total
                <= i64::MAX
            &&& local is Ok ==> local == Ok::<LiteralView, ErrorView>(
                LiteralView::Primitive(PrimitiveView::Long(total as i64)),
            )
            &&& moment is Ok <==> read is Ok && nanos < 1_000_000_000 && i64::MIN <= shifted
                <= i64::MAX
            &&& moment is Ok ==> moment == Ok::<LiteralView, ErrorView>(
                LiteralView::Primitive(PrimitiveView::Long(shifted as i64)),
            )
        }),
{
    reveal(converted);
    reveal(string_literal);
    lemma_wall(date, clock);
    lemma_zone_part(date, clock, zone);
}

} // verus!
