//! Decimal defaults: unscaled values within a precision, read and rescaled by `fastnum`.

use vstd::prelude::*;

use crate::error::{data_invalid, Error};
#[allow(unused_imports)]
use crate::error::{data_error, outcome, ErrorView};
use crate::literal::Literal;
#[allow(unused_imports)]
use crate::literal::{LiteralView, PrimitiveView};
use crate::temporal::{digit_at, index_of_char};
#[allow(unused_imports)]
use crate::temporal::{all_digits, digits_value, find_char, is_digit};
use crate::text::{cat2, chars_of, nat_to_text};
#[allow(unused_imports)]
use crate::text::numeral;

verus! {

/// What `fastnum` reads as a 128-bit decimal: whether it is finite, whether it is negative, its
/// coefficient and the number of its fractional digits.
pub uninterp spec fn read_decimal(text: Seq<char>) -> Option<(bool, bool, u128, i16)>;

/// How a number is rounded that has more digits than are kept.
#[derive(Debug, Clone, Copy, PartialEq, Eq, Structural)]
pub enum Rounding {
    /// Away from zero.
    Up,
    /// Towards zero.
    Down,
    /// To the nearest, and from the middle away from zero.
    HalfUp,
    /// To the nearest, and from the middle towards zero.
    HalfDown,
    /// To the nearest, and from the middle to the even one.
    HalfEven,
}

/// What `fastnum` makes of the decimal that a text stands for at another scale, rounded: whether it
/// is finite, whether it is negative, and its coefficient.
pub uninterp spec fn read_rescaled(text: Seq<char>, scale: i16, rounding: Rounding) -> Option<
    (bool, bool, u128),
>;

/// Calls `fastnum::D128::from_str` with the default context and takes the result apart with
/// `is_finite`, `is_sign_negative`, `digits` and `fractional_digits_count`. The result depends on
/// the text alone; nothing comes back where the text is no decimal of at most 128 bits.
///
/// The function counts digits in 32 bits, and takes the number of fractional digits from the
/// exponent as 32-bit numbers: a text with which one of these overflows is left out.
#[verifier::external_body]
fn parse_decimal(text: &str) -> (parts: Option<(bool, bool, u128, i16)>)
    requires
        readable(text@),
    ensures
        parts == read_decimal(text@),
{
    let decimal = fastnum::D128::from_str(text, fastnum::decimal::Context::default()).ok()?;
    let digits = decimal.digits().to_u128().ok()?;
    let scale = decimal.fractional_digits_count();
    Some((decimal.is_finite(), decimal.is_sign_negative(), digits, scale))
}

/// Calls `fastnum::D128::from_str` with the default context, then `with_ctx`, with a context that
/// has no traps and rounds as asked, and `rescale`; and takes the result apart with `is_finite`,
/// `is_sign_negative` and `digits`. The result depends on the text, the scale and the rounding
/// alone; nothing comes back where the text is no decimal of at most 128 bits.
///
/// As in reading a decimal, a text with which a count overflows is left out, and so is a scale that
/// lies further below that of the number than 16 bits can tell.
#[verifier::external_body]
fn rescale_decimal(text: &str, scale: i16, rounding: Rounding) -> (parts: Option<
    (bool, bool, u128),
>)
    requires
        rescalable(text@, scale),
    ensures
        parts == read_rescaled(text@, scale, rounding),
{
    let mode = match rounding {
        Rounding::Up => fastnum::decimal::RoundingMode::Up,
        Rounding::Down => fastnum::decimal::RoundingMode::Down,
        Rounding::HalfUp => fastnum::decimal::RoundingMode::HalfUp,
        Rounding::HalfDown => fastnum::decimal::RoundingMode::HalfDown,
        Rounding::HalfEven => fastnum::decimal::RoundingMode::HalfEven,
    };
    let context = fastnum::decimal::Context::default().without_traps().with_rounding_mode(mode);
    let parsed = fastnum::D128::from_str(text, fastnum::decimal::Context::default()).ok()?;
    let decimal = parsed.with_ctx(context).rescale(scale);
    let digits = decimal.digits().to_u128().ok()?;
    Some((decimal.is_finite(), decimal.is_sign_negative(), digits))
}

/// Whether `c` begins an exponent.
pub open spec fn begins_exponent(c: char) -> bool {
    c == 'e' || c == 'E'
}

/// The index from `i` on at which the exponent begins, or the length of the text.
pub open spec fn exponent_start(text: Seq<char>, i: nat) -> nat
    decreases text.len() - i,
{
    if i >= text.len() {
        text.len()
    } else if begins_exponent(text[i as int]) {
        i
    } else {
        exponent_start(text, i + 1)
    }
}

/// How many digits there are from `i` up to `end`.
pub open spec fn digits_between(text: Seq<char>, i: nat, end: nat) -> nat
    decreases end - i,
{
    if i >= end || i >= text.len() {
        0
    } else {
        digits_between(text, i + 1, end) + (if is_digit(text[i as int]) {
            1nat
        } else {
            0nat
        })
    }
}

/// Where the decimal point is, if there is one before the exponent.
pub open spec fn point_of(text: Seq<char>) -> Option<nat> {
    match find_char(text, '.', 0) {
        Some(at) => if at < exponent_start(text, 0) {
            Some(at)
        } else {
            None
        },
        None => None,
    }
}

/// How many digits follow the decimal point.
pub open spec fn fraction_of(text: Seq<char>) -> nat {
    match point_of(text) {
        Some(at) => digits_between(text, at, exponent_start(text, 0)),
        None => 0,
    }
}

/// The number that an optional sign and at least one digit stand for, where it has 32 bits.
pub open spec fn signed_number(s: Seq<char>) -> Option<int> {
    let negative = s.len() > 0 && s[0] == '-';
    let digits = if s.len() > 0 && (s[0] == '-' || s[0] == '+') {
        s.skip(1)
    } else {
        s
    };
    if digits.len() == 0 || !all_digits(digits) {
        None
    } else {
        let value = if negative {
            -digits_value(digits)
        } else {
            digits_value(digits)
        };
        if i32::MIN <= value <= i32::MAX {
            Some(value)
        } else {
            None
        }
    }
}

/// The exponent of a text: 0 where it has none, and nothing where it is malformed or too large.
pub open spec fn exponent_of(text: Seq<char>) -> Option<int> {
    let start = exponent_start(text, 0);
    if start < text.len() {
        signed_number(text.skip((start + 1) as int))
    } else {
        Some(0)
    }
}

/// Whether the digits of a text can be counted in 32 bits, and its fractional digits taken from its
/// exponent.
pub open spec fn readable(text: Seq<char>) -> bool {
    let digits = digits_between(text, 0, exponent_start(text, 0));
    &&& digits <= u32::MAX
    &&& point_of(text) is Some ==> digits <= i32::MAX
    &&& exponent_of(text) matches Some(exponent) ==> i32::MIN <= exponent - fraction_of(text)
}

/// Whether besides the scale of the number lies within 16 bits of the given one, where that is
/// negative.
pub open spec fn rescalable(text: Seq<char>, scale: i16) -> bool {
    &&& readable(text)
    &&& scale < 0 ==> (exponent_of(text) matches Some(exponent) ==> fraction_of(text) - exponent
        - scale <= i16::MAX)
}

/// Finds where the exponent begins.
fn find_exponent(chars: &Vec<char>) -> (start: usize)
    ensures
        start == exponent_start(chars@, 0),
        start <= chars@.len(),
{
    let mut i: usize = 0;
    while i < chars.len()
        invariant
            i <= chars@.len(),
            exponent_start(chars@, i as nat) == exponent_start(chars@, 0),
        decreases chars@.len() - i,
    {
        if chars[i] == 'e' || chars[i] == 'E' {
            return i;
        }
        i += 1;
    }
    i
}

/// Counts the digits from `from` up to `end`.
fn count_digits_between(chars: &Vec<char>, from: usize, end: usize) -> (count: usize)
    requires
        from <= end <= chars@.len(),
    ensures
        count == digits_between(chars@, from as nat, end as nat),
        count <= end - from,
{
    let mut count: usize = 0;
    let mut i: usize = from;
    while i < end
        invariant
            from <= i <= end <= chars@.len(),
            count <= i - from,
            count + digits_between(chars@, i as nat, end as nat) == digits_between(
                chars@,
                from as nat,
                end as nat,
            ),
        decreases end - i,
    {
        if digit_at(chars[i]) {
            count += 1;
        }
        i += 1;
    }
    count
}

/// More digits make no smaller number.
proof fn lemma_digits_value_grows(s: Seq<char>)
    requires
        all_digits(s),
    ensures
        digits_value(s) >= 0,
    decreases s.len(),
{
    if s.len() > 0 {
        assert forall|i: int| 0 <= i < s.drop_last().len() implies is_digit(
            #[trigger] s.drop_last()[i],
        ) by {
            assert(s.drop_last()[i] == s[i]);
        }
        lemma_digits_value_grows(s.drop_last());
    }
}

/// A number that no signed 32-bit number reaches.
const OUT_OF_RANGE: u64 = 0x1_0000_0000;

/// Reads the digits from `from` on. A number that is too large for 32 bits may come back smaller,
/// but still too large.
fn read_digits(chars: &Vec<char>, from: usize) -> (value: Option<u64>)
    requires
        from <= chars@.len(),
    ensures
        match value {
            Some(v) => {
                let digits = chars@.skip(from as int);
                &&& digits.len() > 0 && all_digits(digits)
                &&& v == (if digits_value(digits) < OUT_OF_RANGE {
                    digits_value(digits)
                } else {
                    OUT_OF_RANGE as int
                })
            },
            None => chars@.skip(from as int).len() == 0 || !all_digits(chars@.skip(from as int)),
        },
{
    let ghost digits = chars@.skip(from as int);
    if from == chars.len() {
        return None;
    }
    let mut value: u64 = 0;
    let mut i: usize = from;
    assert(digits.take(0) =~= Seq::empty());
    while i < chars.len()
        invariant
            from <= i <= chars@.len(),
            digits == chars@.skip(from as int),
            all_digits(digits.take(i - from)),
            value <= OUT_OF_RANGE,
            value == (if digits_value(digits.take(i - from)) < OUT_OF_RANGE {
                digits_value(digits.take(i - from))
            } else {
                OUT_OF_RANGE as int
            }),
        decreases chars@.len() - i,
    {
        let c = chars[i];
        let ghost before = digits.take(i - from);
        let ghost after = digits.take(i + 1 - from);
        assert(digits[i - from] == c);
        if !digit_at(c) {
            return None;
        }
        proof {
            assert(after =~= before.push(c));
            assert(after.drop_last() =~= before);
            assert(after.last() == c);
            lemma_digits_value_grows(before);
        }
        let next: u64 = value * 10 + (c as u64 - 48);
        value = if next < OUT_OF_RANGE {
            next
        } else {
            OUT_OF_RANGE
        };
        i += 1;
    }
    assert(digits.take(i - from) =~= digits);
    Some(value)
}

/// Reads an optional sign and digits from `from` on.
fn read_signed_number(chars: &Vec<char>, from: usize) -> (value: Option<i64>)
    requires
        from <= chars@.len(),
    ensures
        match value {
            Some(v) => signed_number(chars@.skip(from as int)) == Some(v as int) && i32::MIN <= v
                <= i32::MAX,
            None => signed_number(chars@.skip(from as int)) is None,
        },
{
    let ghost s = chars@.skip(from as int);
    let signed = from < chars.len() && (chars[from] == '-' || chars[from] == '+');
    let negative = from < chars.len() && chars[from] == '-';
    let start = if signed {
        from + 1
    } else {
        from
    };
    proof {
        if signed {
            assert(chars@.skip(start as int) =~= s.skip(1));
        }
    }
    match read_digits(chars, start) {
        None => None,
        Some(magnitude) => {
            proof {
                lemma_digits_value_grows(chars@.skip(start as int));
            }
            let value: i64 = if negative {
                -(magnitude as i64)
            } else {
                magnitude as i64
            };
            if (i32::MIN as i64) <= value && value <= (i32::MAX as i64) {
                Some(value)
            } else {
                None
            }
        },
    }
}

/// What the reader of a decimal counts: whether it can, and the scale of the number, unless its
/// exponent is malformed.
fn measure(text: &str) -> (result: (bool, Option<i128>))
    ensures
        result.0 == readable(text@),
        match result.1 {
            Some(scale) => exponent_of(text@) matches Some(exponent) && scale == fraction_of(text@)
                - exponent && -0x1_0000_0000 <= scale <= 0x2_0000_0000_0000_0000,
            None => exponent_of(text@) is None,
        },
{
    let chars = chars_of(text);
    let start = find_exponent(&chars);
    let digits = count_digits_between(&chars, 0, start);
    let point = match index_of_char(&chars, '.', 0) {
        Some(at) => if at < start {
            Some(at)
        } else {
            None
        },
        None => None,
    };
    let fraction: usize = match point {
        Some(at) => count_digits_between(&chars, at, start),
        None => 0,
    };
    let exponent: Option<i64> = if start < chars.len() {
        read_signed_number(&chars, start + 1)
    } else {
        Some(0)
    };
    let counted = (digits as u64) <= (u32::MAX as u64) && (point.is_none() || (digits as u64) <= (
    i32::MAX as u64));
    match exponent {
        None => (counted, None),
        Some(e) => {
            let scale: i128 = (fraction as i128) - (e as i128);
            (counted && scale <= 0x8000_0000, Some(scale))
        },
    }
}

/// The magnitude of an unscaled value.
pub open spec fn magnitude(value: i128) -> nat {
    if value < 0 {
        (-value) as nat
    } else {
        value as nat
    }
}

/// How many decimal digits an unscaled value has.
pub open spec fn precision_of(value: i128) -> nat {
    numeral(magnitude(value)).len()
}

/// How many decimal digits a number has.
fn count_digits(n: u128) -> (count: u32)
    ensures
        count == numeral(n as nat).len(),
{
    let mut count: u32 = 1;
    let mut rest: u128 = n;
    proof {
        lemma_tenths();
    }
    while rest >= 10
        invariant
            numeral(n as nat).len() == count - 1 + numeral(rest as nat).len(),
            1 <= count,
            rest <= tenths(count as nat),
            tenths(39) < 10,
            forall|k: nat| k > 1 ==> #[trigger] tenths(k) == tenths((k - 1) as nat) / 10,
            count <= 39,
        decreases rest,
    {
        rest = rest / 10;
        count += 1;
    }
    count
}

/// The largest 128-bit number, divided by ten once less than `count` times.
spec fn tenths(count: nat) -> int
    decreases count,
{
    if count <= 1 {
        u128::MAX as int
    } else {
        tenths((count - 1) as nat) / 10
    }
}

proof fn lemma_tenths()
    ensures
        tenths(39) < 10,
        forall|k: nat| k > 1 ==> #[trigger] tenths(k) == tenths((k - 1) as nat) / 10,
{
    reveal_with_fuel(tenths, 40);
}

/// The unscaled value of a coefficient and its sign.
pub open spec fn signed_value(negative: bool, digits: u128) -> int {
    if negative {
        -(digits as int)
    } else {
        digits as int
    }
}

/// The error for a value with too many digits.
pub open spec fn precision_exceeded(precision: u32) -> ErrorView {
    data_error("Decimal default exceeds precision "@ + numeral(precision as nat))
}

/// The literal of a coefficient, where it has at most `precision` digits.
pub open spec fn fitted(negative: bool, digits: u128, precision: u32) -> core::result::Result<
    LiteralView,
    ErrorView,
> {
    if numeral(digits as nat).len() > precision || digits > i128::MAX {
        Err(precision_exceeded(precision))
    } else {
        Ok(LiteralView::Primitive(PrimitiveView::Int128(signed_value(negative, digits) as i128)))
    }
}

/// The decimal literal for what was read and rescaled.
pub open spec fn rescaled_literal(
    parts: Option<(bool, bool, u128)>,
    precision: u32,
) -> core::result::Result<LiteralView, ErrorView> {
    match parts {
        None => Err(data_error("Cannot parse decimal default"@)),
        Some((finite, negative, digits)) => if !finite {
            Err(data_error("Decimal default is not finite"@))
        } else {
            fitted(negative, digits, precision)
        },
    }
}

/// The decimal literal for what was read, where it has exactly the scale of its column.
pub open spec fn exact_literal(
    parts: Option<(bool, bool, u128, i16)>,
    precision: u32,
    scale: u32,
) -> core::result::Result<LiteralView, ErrorView> {
    match parts {
        None => Err(data_error("Cannot parse decimal default"@)),
        Some((finite, negative, digits, fractional)) => if !finite || fractional != scale {
            Err(
                data_error("Decimal string default must have scale "@ + numeral(scale as nat)),
            )
        } else {
            fitted(negative, digits, precision)
        },
    }
}

fn fit(negative: bool, digits: u128, precision: u32) -> (result: Result<Literal, Error>)
    ensures
        outcome(result) == fitted(negative, digits, precision),
{
    if count_digits(digits) > precision || digits > (i128::MAX as u128) {
        let message = cat2(
            "Decimal default exceeds precision ",
            nat_to_text(precision as u128).as_str(),
        );
        return Err(data_invalid(message.as_str()));
    }
    let value: i128 = if negative {
        -(digits as i128)
    } else {
        digits as i128
    };
    Ok(Literal::decimal(value))
}

/// Makes what was read and rescaled a decimal literal.
pub fn literal_of_rescaled(parts: Option<(bool, bool, u128)>, precision: u32) -> (result: Result<
    Literal,
    Error,
>)
    ensures
        outcome(result) == rescaled_literal(parts, precision),
{
    match parts {
        None => Err(data_invalid("Cannot parse decimal default")),
        Some((finite, negative, digits)) => if !finite {
            Err(data_invalid("Decimal default is not finite"))
        } else {
            fit(negative, digits, precision)
        },
    }
}

/// Makes what was read a decimal literal, if it has exactly the scale of its column.
pub fn literal_of_exact(
    parts: Option<(bool, bool, u128, i16)>,
    precision: u32,
    scale: u32,
) -> (result: Result<Literal, Error>)
    ensures
        outcome(result) == exact_literal(parts, precision, scale),
{
    match parts {
        None => Err(data_invalid("Cannot parse decimal default")),
        Some((finite, negative, digits, fractional)) => if !finite || (fractional as i64) != (
        scale as i64) {
            let message = cat2(
                "Decimal string default must have scale ",
                nat_to_text(scale as u128).as_str(),
            );
            Err(data_invalid(message.as_str()))
        } else {
            fit(negative, digits, precision)
        },
    }
}

/// The decimal literal for the text of a number, rounded half up to the scale of its column, of
/// which the lowest 16 bits count.
pub open spec fn decimal_from_number(text: Seq<char>, precision: u32, scale: u32) -> core::result::Result<
    LiteralView,
    ErrorView,
> {
    if !readable(text) {
        Err(data_error("Cannot parse decimal default"@))
    } else if !rescalable(text, scale as i16) {
        Err(data_error("Decimal scale is out of range"@))
    } else {
        rescaled_literal(read_rescaled(text, scale as i16, Rounding::HalfUp), precision)
    }
}

/// Reads the text of a number as a decimal of the given scale, rounded half up.
pub fn decimal_default(value: &str, precision: u32, scale: u32) -> (result: Result<Literal, Error>)
    ensures
        outcome(result) == decimal_from_number(value@, precision, scale),
{
    let (can_be_read, own_scale) = measure(value);
    if !can_be_read {
        return Err(data_invalid("Cannot parse decimal default"));
    }
    let new_scale: i16 = scale as i16;
    match own_scale {
        Some(own) => {
            if new_scale < 0 && own - (new_scale as i128) > (i16::MAX as i128) {
                return Err(data_invalid("Decimal scale is out of range"));
            }
        },
        None => {},
    }
    literal_of_rescaled(rescale_decimal(value, new_scale, Rounding::HalfUp), precision)
}

/// The decimal literal for a text that must have exactly the scale of its column.
pub open spec fn decimal_from_string(text: Seq<char>, precision: u32, scale: u32) -> core::result::Result<
    LiteralView,
    ErrorView,
> {
    if !readable(text) {
        Err(data_error("Cannot parse decimal default"@))
    } else {
        exact_literal(read_decimal(text), precision, scale)
    }
}

/// Reads a text as a decimal of exactly the given scale.
pub fn decimal_string_default(value: &str, precision: u32, scale: u32) -> (result: Result<
    Literal,
    Error,
>)
    ensures
        outcome(result) == decimal_from_string(value@, precision, scale),
{
    if !measure(value).0 {
        return Err(data_invalid("Cannot parse decimal default"));
    }
    literal_of_exact(parse_decimal(value), precision, scale)
}

/// Whether an unscaled value has more than `precision` digits.
pub fn exceeds_precision(value: i128, precision: u32) -> (exceeds: bool)
    ensures
        exceeds == (precision_of(value) > precision),
{
    let size: u128 = if value < 0 {
        (-(value + 1)) as u128 + 1
    } else {
        value as u128
    };
    count_digits(size) > precision
}

} // verus!
