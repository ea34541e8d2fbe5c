//! Converted defaults stand for the values that they were converted from.

use vstd::prelude::*;

#[allow(unused_imports)]
use crate::calendar::power_of_ten;
#[allow(unused_imports)]
use crate::decimal::{
    begins_exponent, decimal_from_number, decimal_from_string, digits_between, exponent_of,
    exponent_start, fitted, point_of, precision_of, read_decimal, read_rescaled, readable,
    rescalable, rescaled_literal, Rounding,
};
#[allow(unused_imports)]
use crate::defaults::{
    coerced_default, compatible, converted, decimal_of_double, string_literal, text_of_double,
    unfit,
};
#[allow(unused_imports)]
use crate::error::ErrorView;
#[allow(unused_imports)]
use crate::floats::{
    double_as_float, double_finite, double_magnitude, float_as_double, float_finite,
    float_magnitude, int_as_double, int_as_float, law_integers_as_doubles, law_integers_as_floats,
    law_narrowing_rounds, law_widening_keeps_the_value, nearest_to, unpacked, within_float,
};
#[allow(unused_imports)]
use crate::literal::{LiteralView, PrimitiveView};
#[allow(unused_imports)]
use crate::temporal::{all_digits, digit_value, digits_value, find_char, is_digit};
#[allow(unused_imports)]
use crate::text::{digit_char, int_numeral, numeral};
#[allow(unused_imports)]
use crate::types::{PrimitiveType, TypeView};

verus! {

/// A numeral consists of digits and reads back as the number that it was written for.
pub proof fn law_numerals_read_back(n: nat)
    ensures
        numeral(n).len() > 0,
        all_digits(numeral(n)),
        digits_value(numeral(n)) == n,
    decreases n,
{
    let s = numeral(n);
    if n < 10 {
        assert(s.drop_last() =~= Seq::empty());
        assert(s.last() == digit_char(n as int));
        reveal_with_fuel(digits_value, 2);
    } else {
        law_numerals_read_back(n / 10);
        assert(s.drop_last() =~= numeral(n / 10));
        assert(s.last() == digit_char((n % 10) as int));
        assert forall|i: int| 0 <= i < s.len() implies is_digit(#[trigger] s[i]) by {
            if i < s.len() - 1 {
                assert(s[i] == numeral(n / 10)[i]);
            }
        }
    }
}

/// A number has at most so many digits as the power of ten that it lies below.
pub proof fn law_numerals_are_as_long_as_their_numbers(n: nat, digits: nat)
    requires
        digits > 0,
    ensures
        numeral(n).len() <= digits <==> n < power_of_ten(digits),
    decreases digits,
{
    if digits == 1 {
        reveal_with_fuel(power_of_ten, 3);
        if n >= 10 {
            law_numerals_read_back(n / 10);
        }
    } else {
        law_numerals_are_as_long_as_their_numbers(n / 10, (digits - 1) as nat);
        lemma_power_positive((digits - 1) as nat);
        let p = power_of_ten((digits - 1) as nat);
        if n < 10 {
            assert(p >= 1);
        }
        assert(power_of_ten(digits) == 10 * p);
        assert(n / 10 < p <==> n < 10 * p);
    }
}

proof fn lemma_power_positive(n: nat)
    ensures
        power_of_ten(n) >= 1,
    decreases n,
{
    if n > 0 {
        lemma_power_positive((n - 1) as nat);
    }
}

/// A coefficient with its sign.
pub open spec fn with_sign(negative: bool, digits: u128) -> int {
    if negative {
        0 - digits
    } else {
        digits as int
    }
}

/// A coefficient with a sign becomes an unscaled value exactly where it has no more digits than the
/// precision allows, and keeps its value.
pub proof fn law_decimals_fit_their_precision(negative: bool, digits: u128, precision: u32)
    requires
        precision > 0,
    ensures
        fitted(negative, digits, precision) is Ok <==> digits < power_of_ten(precision as nat)
            && digits <= i128::MAX,
        fitted(negative, digits, precision) matches Ok(literal) ==> literal
            == LiteralView::Primitive(
            PrimitiveView::Int128(with_sign(negative, digits) as i128),
        ),
{
    law_numerals_are_as_long_as_their_numbers(digits as nat, precision as nat);
}

proof fn lemma_no_exponent(s: Seq<char>, i: nat)
    requires
        i <= s.len(),
        forall|j: int| 0 <= j < s.len() ==> is_digit(#[trigger] s[j]) || s[j] == '-',
    ensures
        exponent_start(s, i) == s.len(),
        find_char(s, '.', i) is None,
    decreases s.len() - i,
{
    if i < s.len() {
        assert(is_digit(s[i as int]) || s[i as int] == '-');
        lemma_no_exponent(s, i + 1);
    }
}

proof fn lemma_digit_count(s: Seq<char>, i: nat, end: nat)
    requires
        i <= end,
    ensures
        digits_between(s, i, end) <= end - i,
    decreases end - i,
{
    if i < end && i < s.len() {
        lemma_digit_count(s, i + 1, end);
    }
}

/// The text of an integer can be read as a decimal, at every scale that is not negative.
proof fn lemma_integers_are_readable(n: int)
    requires
        i64::MIN <= n <= i64::MAX,
    ensures
        readable(int_numeral(n)),
        forall|scale: i16| scale >= 0 ==> #[trigger] rescalable(int_numeral(n), scale),
{
    reveal_strlit("-");
    let size = (if n < 0 {
        -n
    } else {
        n
    }) as nat;
    let s = int_numeral(n);
    law_numerals_read_back(size);
    reveal_with_fuel(power_of_ten, 21);
    law_numerals_are_as_long_as_their_numbers(size, 20);
    assert forall|j: int| 0 <= j < s.len() implies is_digit(#[trigger] s[j]) || s[j] == '-' by {
        if n < 0 {
            if j > 0 {
                assert(s[j] == numeral(size)[j - 1]);
            }
        }
    }
    lemma_no_exponent(s, 0);
    lemma_digit_count(s, 0, s.len());
}

/// An integer default, short or long, becomes a decimal by way of its text, brought to the scale of
/// the column and rounded half up.
///
/// Whatever the outside library makes of that text at that scale is the unscaled value: where it
/// gives `n` times ten to the power of the scale, that is the value of the default. One that is not
/// finite, or that has more digits than the precision allows, is refused; no other is.
pub proof fn law_integers_become_decimals(n: i64, precision: u32, scale: u32, texts: Seq<(u64, Seq<char>)>)
    requires
        precision > 0,
        scale <= i16::MAX,
    ensures
        ({
            let column = PrimitiveType::Decimal { precision, scale };
            let long = converted(column, PrimitiveView::Long(n), texts);
            let size = if n < 0 {
                -(n as int)
            } else {
                n as int
            };
            let unscaled = n * power_of_ten(scale as nat);
            let read = read_rescaled(int_numeral(n as int), scale as i16, Rounding::HalfUp);
            &&& i32::MIN <= n <= i32::MAX ==> converted(column, PrimitiveView::Int(n as i32), texts)
                == long
            &&& long is Ok <==> (read matches Some((finite, _, digits)) && finite && digits
                < power_of_ten(precision as nat) && digits <= i128::MAX)
            &&& long matches Ok(literal) ==> (read matches Some((_, negative, digits))
                && literal == LiteralView::Primitive(
                PrimitiveView::Int128(with_sign(negative, digits) as i128),
            ))
            &&& (read matches Some((finite, negative, digits)) && finite && negative == (n < 0)
                && digits == size * power_of_ten(scale as nat) && digits < power_of_ten(
                precision as nat,
            ) && digits <= i128::MAX) ==> long == Ok::<LiteralView, ErrorView>(
                LiteralView::Primitive(PrimitiveView::Int128(unscaled as i128)),
            )
        }),
{
    reveal(converted);
    lemma_integers_are_readable(n as int);
    let read = read_rescaled(int_numeral(n as int), scale as i16, Rounding::HalfUp);
    if let Some((_, negative, digits)) = read {
        law_decimals_fit_their_precision(negative, digits, precision);
    }
    let p = power_of_ten(scale as nat);
    assert((-(n as int)) * p == -(n * p)) by (nonlinear_arith);
}

/// A floating-point default becomes a decimal by way of its shortest text, a 32-bit number by way of
/// that of the same number in 64 bits, brought to the scale of the column and rounded half up.
pub proof fn law_floating_point_numbers_become_decimals(
    bits: u64,
    short_bits: u32,
    precision: u32,
    scale: u32,
    text: Seq<char>,
    texts: Seq<(u64, Seq<char>)>,
)
    requires
        precision > 0,
        scale <= i16::MAX,
        texts.len() > 0,
        texts[0] == (bits, text),
        readable(text),
    ensures
        ({
            let column = PrimitiveType::Decimal { precision, scale };
            let double = converted(column, PrimitiveView::Double(bits), texts);
            let read = read_rescaled(text, scale as i16, Rounding::HalfUp);
            &&& float_as_double(short_bits) == bits ==> converted(
                column,
                PrimitiveView::Float(short_bits),
                texts,
            ) == double
            &&& double is Ok <==> (read matches Some((finite, _, digits)) && finite && digits
                < power_of_ten(precision as nat) && digits <= i128::MAX)
            &&& double matches Ok(literal) ==> (read matches Some((_, negative, digits))
                && literal == LiteralView::Primitive(
                PrimitiveView::Int128(with_sign(negative, digits) as i128),
            ))
        }),
{
    reveal(converted);
    assert(text_of_double(texts, bits, 0) == Some(text));
    let read = read_rescaled(text, scale as i16, Rounding::HalfUp);
    if let Some((_, negative, digits)) = read {
        law_decimals_fit_their_precision(negative, digits, precision);
    }
}

/// A text becomes a decimal exactly where it is a finite one with as many fractional digits as the
/// column has, and no more digits than its precision allows; its coefficient is then the unscaled
/// value.
pub proof fn law_texts_become_decimals(text: Seq<char>, precision: u32, scale: u32)
    requires
        precision > 0,
        readable(text),
    ensures
        ({
            let result = string_literal(text, PrimitiveType::Decimal { precision, scale });
            &&& result is Ok <==> (read_decimal(text) matches Some(
                (finite, _, digits, fractional),
            ) && finite && fractional == scale && digits < power_of_ten(precision as nat) && digits
                <= i128::MAX)
            &&& result matches Ok(literal) ==> (read_decimal(text) matches Some((_, negative, digits, _))
                && literal == LiteralView::Primitive(
                PrimitiveView::Int128(with_sign(negative, digits) as i128),
            ))
        }),
{
    reveal(string_literal);
    if let Some((_, negative, digits, _)) = read_decimal(text) {
        law_decimals_fit_their_precision(negative, digits, precision);
    }
}

/// Integers stay the numbers that they are: a short one as a long one always, and a long one as a
/// short one or as a date exactly where it fits. No literal turns into a boolean, a text, a UUID or
/// bytes, unless it is one, or a text that is read as one.
pub proof fn law_integers_keep_their_values(
    value: i64,
    short: i32,
    literal: PrimitiveView,
    p: PrimitiveType,
    texts: Seq<(u64, Seq<char>)>,
)
    ensures
        converted(PrimitiveType::Long, PrimitiveView::Int(short), texts) == Ok::<
            LiteralView,
            ErrorView,
        >(LiteralView::Primitive(PrimitiveView::Long(short as i64))),
        forall|q: PrimitiveType| #[trigger]
            converted(q, PrimitiveView::Long(value), texts) is Ok && (q is Int || q is Date) <==> (
            q is Int || q is Date) && i32::MIN <= value <= i32::MAX,
        i32::MIN <= value <= i32::MAX ==> {
            &&& converted(PrimitiveType::Int, PrimitiveView::Long(value), texts) == Ok::<
                LiteralView,
                ErrorView,
            >(LiteralView::Primitive(PrimitiveView::Int(value as i32)))
            &&& converted(PrimitiveType::Date, PrimitiveView::Long(value), texts) == Ok::<
                LiteralView,
                ErrorView,
            >(LiteralView::Primitive(PrimitiveView::Int(value as i32)))
        },
        converted(p, literal, texts) is Ok && literal !is String ==> {
            &&& p is Boolean ==> literal is Boolean
            &&& p is String ==> literal is String
            &&& p is Uuid ==> literal is UInt128
            &&& p is Binary || p is Fixed ==> literal is Binary
            &&& p is Time || p is Timestamp || p is Timestamptz || p is TimestampNs
                || p is TimestamptzNs ==> literal is Long
        },
        literal is Boolean || literal is UInt128 || literal is Binary ==> (converted(
            p,
            literal,
            texts,
        ) is Ok ==> converted(p, literal, texts) == Ok::<LiteralView, ErrorView>(
            LiteralView::Primitive(literal),
        )),
{
    reveal(converted);
}

/// A literal that has the form of its type already is kept as it is. The one exception is a decimal
/// with more digits than the precision of its column allows, which is refused.
pub proof fn law_fitting_literals_are_kept(
    p: PrimitiveType,
    literal: PrimitiveView,
    texts: Seq<(u64, Seq<char>)>,
)
    requires
        match literal {
            PrimitiveView::Boolean(_) => p is Boolean,
            PrimitiveView::Int(_) => p is Int || p is Date,
            PrimitiveView::Long(_) => p is Long || p is Time || p is Timestamp || p is Timestamptz
                || p is TimestampNs || p is TimestamptzNs,
            PrimitiveView::Float(_) => p is Float,
            PrimitiveView::Double(_) => p is Double,
            PrimitiveView::Int128(value) => p matches PrimitiveType::Decimal { precision, .. }
                && precision_of(value) <= precision,
            PrimitiveView::String(_) => p is String,
            PrimitiveView::UInt128(_) => p is Uuid,
            PrimitiveView::Binary(_) => p is Fixed || p is Binary,
            _ => false,
        },
    ensures
        converted(p, literal, texts) == Ok::<LiteralView, ErrorView>(
            LiteralView::Primitive(literal),
        ),
{
    reveal(converted);
}

/// What holds of every default that was converted: a time of day lies within a day, bytes of a fixed
/// length have that length, a floating-point number is finite, and a decimal has no more digits than
/// its precision allows. A default of a column that is not primitive is refused, and no default
/// stays none.
pub proof fn law_converted_defaults_fit(
    t: TypeView,
    default: Option<LiteralView>,
    name: Seq<char>,
    texts: Seq<(u64, Seq<char>)>,
)
    ensures
        default is None ==> coerced_default(t, default, name, texts) == Ok::<
            Option<LiteralView>,
            ErrorView,
        >(None),
        default is Some && t !is Primitive ==> coerced_default(t, default, name, texts) is Err,
        coerced_default(t, default, name, texts) matches Ok(Some(literal)) ==> {
            &&& literal matches LiteralView::Primitive(value)
            &&& match t {
                TypeView::Primitive(PrimitiveType::Time) => value matches PrimitiveView::Long(
                    micros,
                ) && 0 <= micros < 24 * 60 * 60 * 1_000_000,
                TypeView::Primitive(
                    PrimitiveType::Fixed(length),
                ) => value matches PrimitiveView::Binary(bytes) && bytes.len() == length,
                TypeView::Primitive(PrimitiveType::Float) => value matches PrimitiveView::Float(
                    bits,
                ) && float_finite(bits),
                TypeView::Primitive(PrimitiveType::Double) => value matches PrimitiveView::Double(
                    bits,
                ) && double_finite(bits),
                TypeView::Primitive(
                    PrimitiveType::Decimal { precision, .. },
                ) => value matches PrimitiveView::Int128(unscaled) && precision_of(unscaled)
                    <= precision,
                _ => true,
            }
        },
{
    reveal(converted);
    reveal(string_literal);
}

/// A number becomes a floating-point number with its sign, and the same value or the one nearest to
/// it: an integer always, a 64-bit number as a 32-bit one exactly where it lies within the range of
/// those. A finite 32-bit number keeps its value as a 64-bit one.
pub proof fn law_numbers_become_floating_point_numbers(
    value: i64,
    short: i32,
    bits: u64,
    half: u32,
    texts: Seq<(u64, Seq<char>)>,
)
    ensures
        converted(PrimitiveType::Double, PrimitiveView::Int(short), texts) == converted(
            PrimitiveType::Double,
            PrimitiveView::Long(short as i64),
            texts,
        ),
        converted(PrimitiveType::Float, PrimitiveView::Int(short), texts) == converted(
            PrimitiveType::Float,
            PrimitiveView::Long(short as i64),
            texts,
        ),
        ({
            let size = (if value < 0 {
                -value
            } else {
                value as int
            }) as nat;
            let wide = converted(PrimitiveType::Double, PrimitiveView::Long(value), texts);
            let narrow = converted(PrimitiveType::Float, PrimitiveView::Long(value), texts);
            &&& wide matches Ok(LiteralView::Primitive(PrimitiveView::Double(d)))
            &&& (d >= 0x8000_0000_0000_0000 <==> value < 0)
            &&& nearest_to(
                unpacked(double_magnitude(d), 53, -1074).0,
                unpacked(double_magnitude(d), 53, -1074).1,
                size,
                0,
            )
            &&& narrow matches Ok(LiteralView::Primitive(PrimitiveView::Float(f)))
            &&& (f >= 0x8000_0000 <==> value < 0)
            &&& nearest_to(
                unpacked(float_magnitude(f), 24, -149).0,
                unpacked(float_magnitude(f), 24, -149).1,
                size,
                0,
            )
        }),
        ({
            let narrow = converted(PrimitiveType::Float, PrimitiveView::Double(bits), texts);
            let (n, e) = unpacked(double_magnitude(bits), 53, -1074);
            &&& narrow is Ok <==> within_float(bits)
            &&& narrow is Ok ==> {
                &&& narrow matches Ok(LiteralView::Primitive(PrimitiveView::Float(f)))
                &&& (f >= 0x8000_0000 <==> bits >= 0x8000_0000_0000_0000)
                &&& n > 0 ==> nearest_to(
                    unpacked(float_magnitude(f), 24, -149).0,
                    unpacked(float_magnitude(f), 24, -149).1,
                    n,
                    e,
                )
            }
        }),
        float_finite(half) ==> ({
            let wide = converted(PrimitiveType::Double, PrimitiveView::Float(half), texts);
            let (n, e) = unpacked(float_magnitude(half), 24, -149);
            &&& wide matches Ok(LiteralView::Primitive(PrimitiveView::Double(d)))
            &&& (d >= 0x8000_0000_0000_0000 <==> half >= 0x8000_0000)
            &&& unpacked(double_magnitude(d), 53, -1074).1 <= e
            &&& nearest_to(
                unpacked(double_magnitude(d), 53, -1074).0,
                unpacked(double_magnitude(d), 53, -1074).1,
                n,
                e,
            )
        }),
{
    reveal(converted);
    law_integers_as_doubles(value as int);
    law_integers_as_floats(value as int);
    if within_float(bits) {
        law_narrowing_rounds(bits);
    }
    if float_finite(half) {
        law_widening_keeps_the_value(half);
    }
}

} // verus!
