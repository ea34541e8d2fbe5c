//! Bytes and UUIDs written as hexadecimal text.

use vstd::prelude::*;

use crate::text::chars_of;

verus! {

/// Whether `c` is a hexadecimal digit.
pub open spec fn is_hex(c: char) -> bool {
    '0' <= c <= '9' || 'a' <= c <= 'f' || 'A' <= c <= 'F'
}

/// The value of a hexadecimal digit.
pub open spec fn hex_value(c: char) -> int {
    if c <= '9' {
        c as int - 48
    } else if c <= 'F' {
        c as int - 55
    } else {
        c as int - 87
    }
}

/// Whether all of `s` are hexadecimal digits.
pub open spec fn all_hex(s: Seq<char>) -> bool {
    forall|i: int| 0 <= i < s.len() ==> is_hex(#[trigger] s[i])
}

/// The number that a string of hexadecimal digits stands for.
pub open spec fn hex_number(s: Seq<char>) -> int
    decreases s.len(),
{
    if s.len() == 0 {
        0
    } else {
        hex_number(s.drop_last()) * 16 + hex_value(s.last())
    }
}

/// The bytes that a text stands for: two digits each.
pub open spec fn hex_bytes(s: Seq<char>) -> Option<Seq<u8>> {
    if s.len() % 2 == 0 && all_hex(s) {
        Some(
            Seq::new(
                s.len() / 2,
                |i: int| (hex_value(s[2 * i]) * 16 + hex_value(s[2 * i + 1])) as u8,
            ),
        )
    } else {
        None
    }
}

/// The value of a hexadecimal digit, if it is one.
fn hex_digit(c: char) -> (value: Option<u8>)
    ensures
        match value {
            Some(v) => is_hex(c) && v == hex_value(c) && v < 16,
            None => !is_hex(c),
        },
{
    if '0' <= c && c <= '9' {
        Some(((c as u32) - 48) as u8)
    } else if 'A' <= c && c <= 'F' {
        Some(((c as u32) - 55) as u8)
    } else if 'a' <= c && c <= 'f' {
        Some(((c as u32) - 87) as u8)
    } else {
        None
    }
}

/// The bytes of an optional byte string.
pub open spec fn opt_bytes(bytes: Option<Vec<u8>>) -> Option<Seq<u8>> {
    match bytes {
        Some(b) => Some(b@),
        None => None,
    }
}

/// Reads bytes.
pub fn bytes_from_hex(text: &str) -> (bytes: Option<Vec<u8>>)
    ensures
        opt_bytes(bytes) == hex_bytes(text@),
{
    let chars = chars_of(text);
    if chars.len() % 2 != 0 {
        return None;
    }
    let mut bytes: Vec<u8> = Vec::new();
    let mut i: usize = 0;
    while i < chars.len()
        invariant
            chars@ == text@,
            chars@.len() % 2 == 0,
            i <= chars@.len(),
            i % 2 == 0,
            bytes@.len() == i / 2,
            forall|j: int| 0 <= j < i ==> is_hex(#[trigger] chars@[j]),
            forall|j: int|
                0 <= j < bytes@.len() ==> #[trigger] bytes@[j] == hex_value(chars@[2 * j]) * 16
                    + hex_value(chars@[2 * j + 1]),
        decreases chars@.len() - i,
    {
        let high: u8 = match hex_digit(chars[i]) {
            Some(value) => value,
            None => return None,
        };
        let low: u8 = match hex_digit(chars[i + 1]) {
            Some(value) => value,
            None => return None,
        };
        bytes.push(high * 16 + low);
        i += 2;
    }
    assert(all_hex(text@));
    assert(bytes@ =~= hex_bytes(text@)->0);
    Some(bytes)
}

/// The parts of `s` between dashes, with the part from `start` on still open at `i`, after those
/// in `done`.
pub open spec fn split_dashes(s: Seq<char>, start: nat, i: nat, done: Seq<Seq<char>>) -> Seq<
    Seq<char>,
>
    decreases s.len() - i,
{
    if i >= s.len() {
        done.push(s.subrange(start as int, s.len() as int))
    } else if s[i as int] == '-' {
        split_dashes(s, i + 1, i + 1, done.push(s.subrange(start as int, i as int)))
    } else {
        split_dashes(s, start, i + 1, done)
    }
}

/// How many digits the groups of a UUID have at most.
pub open spec fn group_width(i: int) -> nat {
    if i == 0 {
        8
    } else if i == 4 {
        12
    } else {
        4
    }
}

/// Whether a group of a UUID has digits, all of them hexadecimal and not too many.
pub open spec fn good_group(group: Seq<char>, width: nat) -> bool {
    0 < group.len() <= width && all_hex(group)
}

/// The UUID that a text stands for: five groups of digits, of which leading zeros may be left out.
pub open spec fn uuid_number(s: Seq<char>) -> Option<int> {
    let groups = split_dashes(s, 0, 0, Seq::empty());
    if groups.len() == 5 && forall|i: int|
        0 <= i < 5 ==> good_group(#[trigger] groups[i], group_width(i)) {
        Some(
            (((hex_number(groups[0]) * 0x1_0000 + hex_number(groups[1])) * 0x1_0000 + hex_number(
                groups[2],
            )) * 0x1_0000 + hex_number(groups[3])) * 0x1_0000_0000_0000 + hex_number(groups[4]),
        )
    } else {
        None
    }
}

/// Sixteen to the power `n`.
pub open spec fn power_of_16(n: nat) -> int
    decreases n,
{
    if n == 0 {
        1
    } else {
        16 * power_of_16((n - 1) as nat)
    }
}

proof fn lemma_hex_bound(s: Seq<char>)
    requires
        all_hex(s),
    ensures
        0 <= hex_number(s) < power_of_16(s.len()),
    decreases s.len(),
{
    if s.len() > 0 {
        assert(all_hex(s.drop_last()));
        lemma_hex_bound(s.drop_last());
        assert(is_hex(s.last()));
        assert(0 <= hex_value(s.last()) < 16);
    }
}

proof fn lemma_power_of_16_grows(a: nat, b: nat)
    requires
        a <= b,
    ensures
        0 < power_of_16(a) <= power_of_16(b),
    decreases b,
{
    if a < b {
        lemma_power_of_16_grows(a, (b - 1) as nat);
    } else if b > 0 {
        lemma_power_of_16_grows((a - 1) as nat, (b - 1) as nat);
    }
}

proof fn lemma_powers_of_16()
    ensures
        power_of_16(4) == 0x1_0000,
        power_of_16(8) == 0x1_0000_0000,
        power_of_16(12) == 0x1_0000_0000_0000,
{
    reveal_with_fuel(power_of_16, 13);
}

/// The views of a list of character lists.
spec fn groups_view(groups: Seq<Vec<char>>) -> Seq<Seq<char>> {
    groups.map_values(|group: Vec<char>| group@)
}

/// The parts of a text between dashes.
fn split_at_dashes(chars: &Vec<char>) -> (groups: Vec<Vec<char>>)
    ensures
        groups_view(groups@) == split_dashes(chars@, 0, 0, Seq::empty()),
{
    let mut groups: Vec<Vec<char>> = Vec::new();
    let mut current: Vec<char> = Vec::new();
    let mut i: usize = 0;
    let ghost mut start: int = 0;
    assert(groups_view(groups@) =~= Seq::empty());
    while i < chars.len()
        invariant
            0 <= start <= i <= chars@.len(),
            current@ == chars@.subrange(start, i as int),
            split_dashes(chars@, start as nat, i as nat, groups_view(groups@)) == split_dashes(
                chars@,
                0,
                0,
                Seq::empty(),
            ),
        decreases chars@.len() - i,
    {
        let c = chars[i];
        if c == '-' {
            let ghost before = groups_view(groups@);
            groups.push(current);
            assert(groups_view(groups@) =~= before.push(chars@.subrange(start, i as int)));
            current = Vec::new();
            proof {
                start = i + 1;
            }
            assert(chars@.subrange(start, i + 1) =~= Seq::empty());
        } else {
            current.push(c);
            assert(chars@.subrange(start, i + 1) =~= chars@.subrange(start, i as int).push(c));
        }
        i += 1;
    }
    let ghost before = groups_view(groups@);
    groups.push(current);
    assert(groups_view(groups@) =~= before.push(chars@.subrange(start, chars@.len() as int)));
    groups
}

/// The number of a group of at most `width` digits.
fn group_number(group: &Vec<char>, width: usize) -> (value: Option<u64>)
    requires
        width <= 12,
    ensures
        match value {
            Some(v) => good_group(group@, width as nat) && v == hex_number(group@) && v
                < power_of_16(width as nat),
            None => !good_group(group@, width as nat),
        },
{
    if group.len() == 0 || group.len() > width {
        return None;
    }
    let mut value: u64 = 0;
    let mut i: usize = 0;
    assert(group@.take(0).len() == 0);
    proof {
        lemma_powers_of_16();
        lemma_power_of_16_grows(0, 12);
    }
    while i < group.len()
        invariant
            i <= group@.len() <= width <= 12,
            all_hex(group@.take(i as int)),
            value == hex_number(group@.take(i as int)),
            value < power_of_16(i as nat) <= power_of_16(12),
            power_of_16(12) == 0x1_0000_0000_0000,
        decreases group@.len() - i,
    {
        match hex_digit(group[i]) {
            Some(digit) => {
                proof {
                    lemma_power_of_16_grows((i + 1) as nat, 12);
                }
                value = value * 16 + (digit as u64);
            },
            None => return None,
        }
        i += 1;
        proof {
            let now = group@.take(i as int);
            assert(now.drop_last() =~= group@.take(i - 1));
            assert(now.last() == group@[i - 1]);
            lemma_hex_bound(now);
        }
    }
    proof {
        assert(group@.take(i as int) =~= group@);
        lemma_power_of_16_grows(i as nat, width as nat);
    }
    Some(value)
}

/// Reads a UUID.
pub fn uuid_from_text(text: &str) -> (value: Option<u128>)
    ensures
        match value {
            Some(v) => uuid_number(text@) == Some(v as int),
            None => uuid_number(text@) is None,
        },
{
    let groups = split_at_dashes(&chars_of(text));
    let ghost view = split_dashes(text@, 0, 0, Seq::empty());
    if groups.len() != 5 {
        return None;
    }
    assert(forall|i: int| 0 <= i < 5 ==> view[i] == groups@[i]@);
    proof {
        lemma_powers_of_16();
    }
    let a: u64 = match group_number(&groups[0], 8) {
        Some(value) => value,
        None => {
            assert(!good_group(view[0], group_width(0)));
            return None;
        },
    };
    let b: u64 = match group_number(&groups[1], 4) {
        Some(value) => value,
        None => {
            assert(!good_group(view[1], group_width(1)));
            return None;
        },
    };
    let c: u64 = match group_number(&groups[2], 4) {
        Some(value) => value,
        None => {
            assert(!good_group(view[2], group_width(2)));
            return None;
        },
    };
    let d: u64 = match group_number(&groups[3], 4) {
        Some(value) => value,
        None => {
            assert(!good_group(view[3], group_width(3)));
            return None;
        },
    };
    let e: u64 = match group_number(&groups[4], 12) {
        Some(value) => value,
        None => {
            assert(!good_group(view[4], group_width(4)));
            return None;
        },
    };
    let high: u128 = (((a as u128) * 0x1_0000 + (b as u128)) * 0x1_0000 + (c as u128)) * 0x1_0000
        + (d as u128);
    Some(high * 0x1_0000_0000_0000 + (e as u128))
}

} // verus!
