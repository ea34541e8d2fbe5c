//! Default values: conversion to the type of their column.

use std::sync::Arc;

use vstd::prelude::*;

use crate::calendar::{
    iso_date_to_days, iso_datetime_to_microseconds, iso_offset_datetime_to_microseconds,
};
#[allow(unused_imports)]
use crate::calendar::{date_days, timestamp_micros, timestamptz_micros};
use crate::decimal::{decimal_default, decimal_string_default, exceeds_precision};
#[allow(unused_imports)]
use crate::decimal::{decimal_from_number, decimal_from_string, precision_exceeded, precision_of};
use crate::encodings::{bytes_from_hex, uuid_from_text};
#[allow(unused_imports)]
use crate::encodings::{hex_bytes, uuid_number};
use crate::error::{data_invalid, precondition, Error};
#[allow(unused_imports)]
use crate::error::{
    data_error, data_error_over, opt_error, outcome, precondition_over, ErrorView,
};
use crate::floats::{double_of_float, double_of_int, float_of_double, float_of_int};
#[allow(unused_imports)]
use crate::floats::{
    double_as_float, double_finite, float_as_double, float_finite, int_as_double, int_as_float,
    within_float,
};
use crate::literal::{Literal, PrimitiveLiteral};
#[allow(unused_imports)]
use crate::literal::{opt_literal, LiteralView, PrimitiveView};
use crate::temporal::{
    nanos_from_epoch, normalize_iso_case, parse_local_datetime, parse_local_time,
    parse_offset_datetime,
};
#[allow(unused_imports)]
use crate::temporal::{epoch_nanos, iso_upper, local_datetime, local_time, offset_datetime};
use crate::text::{cat2, cat4, int_to_text, join_path, nat_to_text};
#[allow(unused_imports)]
use crate::text::{dotted, int_numeral};
#[allow(unused_imports)]
use crate::tree::fields_outcome;
#[allow(unused_imports)]
use crate::type_promotion::default_outcome;
use crate::types::{
    copy_text, opt_literal_same, ListType, MapType, NestedField, PrimitiveType, StructType, Type,
};
#[allow(unused_imports)]
use crate::types::{fields_view, lemma_struct_view, type_text, FieldView, TypeView};

verus! {

/// The shortest decimal texts of 64-bit floating-point numbers, by their bits.
///
/// A floating-point default becomes a decimal by way of its shortest text, which is written
/// outside of this library.
#[derive(Debug)]
pub struct DoubleTexts {
    pub entries: Vec<(u64, String)>,
}

impl View for DoubleTexts {
    type V = Seq<(u64, Seq<char>)>;

    open spec fn view(&self) -> Seq<(u64, Seq<char>)> {
        self.entries@.map_values(|entry: (u64, String)| (entry.0, entry.1@))
    }
}

/// The text of a number from the entry `i` on.
pub open spec fn text_of_double(texts: Seq<(u64, Seq<char>)>, bits: u64, i: nat) -> Option<
    Seq<char>,
>
    decreases texts.len() - i,
{
    if i >= texts.len() {
        None
    } else if texts[i as int].0 == bits {
        Some(texts[i as int].1)
    } else {
        text_of_double(texts, bits, i + 1)
    }
}

impl DoubleTexts {
    /// No texts.
    pub fn new() -> (texts: DoubleTexts)
        ensures
            texts@ == Seq::<(u64, Seq<char>)>::empty(),
    {
        let texts = DoubleTexts { entries: Vec::new() };
        assert(texts@ =~= Seq::empty());
        texts
    }

    /// The text of a number.
    pub fn find(&self, bits: u64) -> (text: Option<&str>)
        ensures
            match text {
                Some(t) => text_of_double(self@, bits, 0) == Some(t@),
                None => text_of_double(self@, bits, 0) is None,
            },
    {
        let ghost view = self@;
        let mut i: usize = 0;
        while i < self.entries.len()
            invariant
                i <= self.entries@.len(),
                view == self@,
                text_of_double(view, bits, i as nat) == text_of_double(view, bits, 0),
            decreases self.entries@.len() - i,
        {
            if self.entries[i].0 == bits {
                assert(view[i as int].1 == self.entries@[i as int].1@);
                return Some(self.entries[i].1.as_str());
            }
            i += 1;
        }
        None
    }
}

/// Whether two optional defaults are the same value.
pub fn defaults_equal(left: &Option<Literal>, right: &Option<Literal>) -> (equal: bool)
    ensures
        equal == (opt_literal(*left) == opt_literal(*right)),
{
    opt_literal_same(left, right)
}

/// Whether a literal has the physical form of a type.
pub open spec fn compatible(p: PrimitiveType, literal: PrimitiveView) -> bool {
    match p {
        PrimitiveType::Boolean => literal is Boolean,
        PrimitiveType::Int | PrimitiveType::Date => literal is Int,
        PrimitiveType::Long | PrimitiveType::Time | PrimitiveType::Timestamp
        | PrimitiveType::Timestamptz | PrimitiveType::TimestampNs
        | PrimitiveType::TimestamptzNs => literal is Long,
        PrimitiveType::Float => literal is Float,
        PrimitiveType::Double => literal is Double,
        PrimitiveType::Decimal { .. } => literal is Int128,
        PrimitiveType::String => literal is String,
        PrimitiveType::Uuid => literal is UInt128,
        PrimitiveType::Fixed(_) | PrimitiveType::Binary => literal is Binary,
    }
}

impl PrimitiveType {
    /// Whether a literal has the physical form of this type.
    pub fn compatible(&self, literal: &PrimitiveLiteral) -> (result: bool)
        ensures
            result == compatible(*self, literal@),
    {
        match (self, literal) {
            (PrimitiveType::Boolean, PrimitiveLiteral::Boolean(_)) => true,
            (PrimitiveType::Int, PrimitiveLiteral::Int(_)) => true,
            (PrimitiveType::Date, PrimitiveLiteral::Int(_)) => true,
            (PrimitiveType::Long, PrimitiveLiteral::Long(_)) => true,
            (PrimitiveType::Time, PrimitiveLiteral::Long(_)) => true,
            (PrimitiveType::Timestamp, PrimitiveLiteral::Long(_)) => true,
            (PrimitiveType::Timestamptz, PrimitiveLiteral::Long(_)) => true,
            (PrimitiveType::TimestampNs, PrimitiveLiteral::Long(_)) => true,
            (PrimitiveType::TimestamptzNs, PrimitiveLiteral::Long(_)) => true,
            (PrimitiveType::Float, PrimitiveLiteral::Float(_)) => true,
            (PrimitiveType::Double, PrimitiveLiteral::Double(_)) => true,
            (PrimitiveType::Decimal { .. }, PrimitiveLiteral::Int128(_)) => true,
            (PrimitiveType::String, PrimitiveLiteral::String(_)) => true,
            (PrimitiveType::Uuid, PrimitiveLiteral::UInt128(_)) => true,
            (PrimitiveType::Fixed(_), PrimitiveLiteral::Binary(_)) => true,
            (PrimitiveType::Binary, PrimitiveLiteral::Binary(_)) => true,
            _ => false,
        }
    }
}

/// The error for a literal that has no counterpart in the type of its column.
pub open spec fn unconvertible() -> ErrorView {
    data_error("Default cannot be converted to the column type"@)
}

/// A literal that consists of a 64-bit integer.
pub open spec fn long_literal(value: int) -> LiteralView {
    LiteralView::Primitive(PrimitiveView::Long(value as i64))
}

/// A literal for what was read, if anything was.
pub open spec fn long_or(value: Option<i64>, error: Seq<char>) -> core::result::Result<
    LiteralView,
    ErrorView,
> {
    match value {
        Some(v) => Ok(long_literal(v as int)),
        None => Err(data_error(error)),
    }
}

/// The literal of a primitive type that a text stands for. Proofs reveal the definition where they
/// need it.
#[verifier::opaque]
pub open spec fn string_literal(value: Seq<char>, p: PrimitiveType) -> core::result::Result<
    LiteralView,
    ErrorView,
> {
    match p {
        PrimitiveType::Time => match local_time(value) {
            Ok((seconds, nanos)) => Ok(long_literal(seconds * 1_000_000 + nanos / 1000)),
            Err(error) => Err(error),
        },
        PrimitiveType::Timestamp => match timestamp_micros(value) {
            Ok(micros) => Ok(long_literal(micros as int)),
            Err(error) => Err(error),
        },
        PrimitiveType::Timestamptz => match timestamptz_micros(value) {
            Ok(micros) => Ok(long_literal(micros as int)),
            Err(error) => Err(error),
        },
        PrimitiveType::TimestampNs => match local_datetime(iso_upper(value)) {
            Ok((seconds, nanos)) => long_or(
                epoch_nanos(seconds as int, nanos),
                "Timestamp default is out of range"@,
            ),
            Err(error) => Err(error),
        },
        PrimitiveType::TimestamptzNs => match offset_datetime(value) {
            Ok((seconds, nanos)) => long_or(
                epoch_nanos(seconds, nanos),
                "Timestamptz default is out of range"@,
            ),
            Err(error) => Err(error),
        },
        PrimitiveType::Decimal { precision, scale } => decimal_from_string(
            value,
            precision,
            scale,
        ),
        PrimitiveType::Uuid => match uuid_number(value) {
            Some(number) => Ok(LiteralView::Primitive(PrimitiveView::UInt128(number as u128))),
            None => Err(data_error("Invalid UUID default"@)),
        },
        PrimitiveType::Date => match date_days(value) {
            Ok(days) => Ok(LiteralView::Primitive(PrimitiveView::Int(days))),
            Err(error) => Err(error),
        },
        PrimitiveType::Fixed(_) | PrimitiveType::Binary => match hex_bytes(value) {
            Some(bytes) => Ok(LiteralView::Primitive(PrimitiveView::Binary(bytes))),
            None => Err(data_error("Invalid hexadecimal default"@)),
        },
        PrimitiveType::String => Ok(LiteralView::Primitive(PrimitiveView::String(value))),
        _ => Err(unconvertible()),
    }
}

/// Reads a text as a literal of a primitive type.
pub fn string_default(value: &str, p: &PrimitiveType) -> (result: Result<Literal, Error>)
    ensures
        outcome(result) == string_literal(value@, *p),
{
    reveal(string_literal);
    match p {
        PrimitiveType::Time => match parse_local_time(value) {
            Ok((seconds, nanos)) => Ok(
                Literal::long((seconds as i64) * 1_000_000 + ((nanos / 1_000) as i64)),
            ),
            Err(error) => Err(error),
        },
        PrimitiveType::Timestamp => match iso_datetime_to_microseconds(value) {
            Ok(micros) => Ok(Literal::long(micros)),
            Err(error) => Err(error),
        },
        PrimitiveType::Timestamptz => match iso_offset_datetime_to_microseconds(value) {
            Ok(micros) => Ok(Literal::long(micros)),
            Err(error) => Err(error),
        },
        PrimitiveType::TimestampNs => match parse_local_datetime(&normalize_iso_case(value)) {
            Ok((seconds, nanos)) => match nanos_from_epoch(seconds as i128, nanos) {
                Some(total) => Ok(Literal::long(total)),
                None => Err(data_invalid("Timestamp default is out of range")),
            },
            Err(error) => Err(error),
        },
        PrimitiveType::TimestamptzNs => match parse_offset_datetime(value) {
            Ok((seconds, nanos)) => match nanos_from_epoch(seconds, nanos) {
                Some(total) => Ok(Literal::long(total)),
                None => Err(data_invalid("Timestamptz default is out of range")),
            },
            Err(error) => Err(error),
        },
        PrimitiveType::Decimal { precision, scale } => decimal_string_default(
            value,
            *precision,
            *scale,
        ),
        PrimitiveType::Uuid => match uuid_from_text(value) {
            Some(number) => Ok(Literal::uuid(number)),
            None => Err(data_invalid("Invalid UUID default")),
        },
        PrimitiveType::Date => match iso_date_to_days(value) {
            Ok(days) => Ok(Literal::date(days)),
            Err(error) => Err(error),
        },
        PrimitiveType::Fixed(_) | PrimitiveType::Binary => match bytes_from_hex(value) {
            Some(bytes) => Ok(Literal::binary(bytes)),
            None => Err(data_invalid("Invalid hexadecimal default")),
        },
        PrimitiveType::String => Ok(Literal::string(value)),
        _ => Err(data_invalid("Default cannot be converted to the column type")),
    }
}

/// The decimal literal for a floating-point number, by way of its text.
pub open spec fn decimal_of_double(
    bits: u64,
    precision: u32,
    scale: u32,
    texts: Seq<(u64, Seq<char>)>,
) -> core::result::Result<LiteralView, ErrorView> {
    match text_of_double(texts, bits, 0) {
        Some(text) => decimal_from_number(text, precision, scale),
        None => Err(data_error("Text of a floating-point default is missing"@)),
    }
}

fn double_to_decimal(bits: u64, precision: u32, scale: u32, texts: &DoubleTexts) -> (result: Result<
    Literal,
    Error,
>)
    ensures
        outcome(result) == decimal_of_double(bits, precision, scale, texts@),
{
    match texts.find(bits) {
        Some(text) => decimal_default(text, precision, scale),
        None => Err(data_invalid("Text of a floating-point default is missing")),
    }
}

/// The text of the error that `i32::try_from` gives for a number out of range.
pub uninterp spec fn narrowing_error(value: i64) -> Seq<char>;

/// Calls `i32::try_from`, and writes its error with `to_string`. The number comes back where it
/// fits into 32 bits, and an error, whose text depends on nothing else, where it does not.
#[verifier::external_body]
fn narrow(value: i64) -> (result: Result<i32, String>)
    ensures
        match result {
            Ok(narrowed) => narrowed == value,
            Err(text) => !(i32::MIN <= value <= i32::MAX) && text@ == narrowing_error(value),
        },
{
    i32::try_from(value).map_err(|error| error.to_string())
}

/// A literal converted to a primitive type.
///
/// One that already has the physical form of the type stays as it is, where a decimal fits its
/// precision. Integers become wider numbers, or narrower ones where they fit; numbers become
/// decimals of the scale of the type, rounded half up; a text is read as the type demands.
///
/// Proofs reveal the definition where they need it.
#[verifier::opaque]
pub open spec fn converted(
    p: PrimitiveType,
    literal: PrimitiveView,
    texts: Seq<(u64, Seq<char>)>,
) -> core::result::Result<LiteralView, ErrorView> {
    if p matches PrimitiveType::Decimal { precision, .. } && literal matches PrimitiveView::Int128(
        value,
    ) && precision_of(value) > precision {
        Err(precision_exceeded(p->precision))
    } else if compatible(p, literal) {
        Ok(LiteralView::Primitive(literal))
    } else {
        match (p, literal) {
            (PrimitiveType::Long, PrimitiveView::Int(value)) => Ok(long_literal(value as int)),
            (PrimitiveType::Float, PrimitiveView::Int(value)) => Ok(
                LiteralView::Primitive(PrimitiveView::Float(int_as_float(value as int) as u32)),
            ),
            (PrimitiveType::Double, PrimitiveView::Int(value)) => Ok(
                LiteralView::Primitive(PrimitiveView::Double(int_as_double(value as int) as u64)),
            ),
            (PrimitiveType::Int, PrimitiveView::Long(value)) => if i32::MIN <= value <= i32::MAX {
                Ok(LiteralView::Primitive(PrimitiveView::Int(value as i32)))
            } else {
                Err(data_error_over("Integer default is out of range"@, narrowing_error(value)))
            },
            (PrimitiveType::Date, PrimitiveView::Long(value)) => if i32::MIN <= value <= i32::MAX {
                Ok(LiteralView::Primitive(PrimitiveView::Int(value as i32)))
            } else {
                Err(data_error_over("Date default is out of range"@, narrowing_error(value)))
            },
            (PrimitiveType::Float, PrimitiveView::Long(value)) => Ok(
                LiteralView::Primitive(PrimitiveView::Float(int_as_float(value as int) as u32)),
            ),
            (PrimitiveType::Double, PrimitiveView::Long(value)) => Ok(
                LiteralView::Primitive(PrimitiveView::Double(int_as_double(value as int) as u64)),
            ),
            (PrimitiveType::Double, PrimitiveView::Float(bits)) => Ok(
                LiteralView::Primitive(PrimitiveView::Double(float_as_double(bits) as u64)),
            ),
            (PrimitiveType::Float, PrimitiveView::Double(bits)) => if within_float(bits) {
                Ok(LiteralView::Primitive(PrimitiveView::Float(double_as_float(bits) as u32)))
            } else {
                Err(unconvertible())
            },
            (
                PrimitiveType::Decimal { precision, scale },
                PrimitiveView::Int(value),
            ) => decimal_from_number(int_numeral(value as int), precision, scale),
            (
                PrimitiveType::Decimal { precision, scale },
                PrimitiveView::Long(value),
            ) => decimal_from_number(int_numeral(value as int), precision, scale),
            (
                PrimitiveType::Decimal { precision, scale },
                PrimitiveView::Float(bits),
            ) => decimal_of_double(float_as_double(bits) as u64, precision, scale, texts),
            (
                PrimitiveType::Decimal { precision, scale },
                PrimitiveView::Double(bits),
            ) => decimal_of_double(bits, precision, scale, texts),
            (_, PrimitiveView::String(value)) => string_literal(value, p),
            _ => Err(unconvertible()),
        }
    }
}

fn convert(p: &PrimitiveType, literal: &PrimitiveLiteral, texts: &DoubleTexts) -> (result: Result<
    Literal,
    Error,
>)
    ensures
        outcome(result) == converted(*p, literal@, texts@),
{
    reveal(converted);
    match (p, literal) {
        (PrimitiveType::Decimal { precision, .. }, PrimitiveLiteral::Int128(value)) => {
            if exceeds_precision(*value, *precision) {
                let message = cat2(
                    "Decimal default exceeds precision ",
                    nat_to_text(*precision as u128).as_str(),
                );
                return Err(data_invalid(message.as_str()));
            }
        },
        _ => {},
    }
    if p.compatible(literal) {
        return Ok(Literal::Primitive(literal.clone()));
    }
    match (p, literal) {
        (PrimitiveType::Long, PrimitiveLiteral::Int(value)) => Ok(Literal::long(*value as i64)),
        (PrimitiveType::Float, PrimitiveLiteral::Int(value)) => Ok(
            Literal::float_bits(float_of_int(*value as i64)),
        ),
        (PrimitiveType::Double, PrimitiveLiteral::Int(value)) => Ok(
            Literal::double_bits(double_of_int(*value as i64)),
        ),
        (PrimitiveType::Int, PrimitiveLiteral::Long(value)) => match narrow(*value) {
            Ok(narrowed) => Ok(Literal::integer(narrowed)),
            Err(text) => Err(
                data_invalid("Integer default is out of range").with_outside_source(text),
            ),
        },
        (PrimitiveType::Date, PrimitiveLiteral::Long(value)) => match narrow(*value) {
            Ok(narrowed) => Ok(Literal::date(narrowed)),
            Err(text) => Err(
                data_invalid("Date default is out of range").with_outside_source(text),
            ),
        },
        (PrimitiveType::Float, PrimitiveLiteral::Long(value)) => Ok(
            Literal::float_bits(float_of_int(*value)),
        ),
        (PrimitiveType::Double, PrimitiveLiteral::Long(value)) => Ok(
            Literal::double_bits(double_of_int(*value)),
        ),
        (PrimitiveType::Double, PrimitiveLiteral::Float(bits)) => Ok(
            Literal::double_bits(double_of_float(*bits)),
        ),
        (PrimitiveType::Float, PrimitiveLiteral::Double(bits)) => if *bits % 0x8000_0000_0000_0000
            <= 0x47ef_ffff_e000_0000 {
            Ok(Literal::float_bits(float_of_double(*bits)))
        } else {
            Err(data_invalid("Default cannot be converted to the column type"))
        },
        (
            PrimitiveType::Decimal { precision, scale },
            PrimitiveLiteral::Int(value),
        ) => decimal_default(int_to_text(*value as i64).as_str(), *precision, *scale),
        (
            PrimitiveType::Decimal { precision, scale },
            PrimitiveLiteral::Long(value),
        ) => decimal_default(int_to_text(*value).as_str(), *precision, *scale),
        (
            PrimitiveType::Decimal { precision, scale },
            PrimitiveLiteral::Float(bits),
        ) => double_to_decimal(double_of_float(*bits), *precision, *scale, texts),
        (
            PrimitiveType::Decimal { precision, scale },
            PrimitiveLiteral::Double(bits),
        ) => double_to_decimal(*bits, *precision, *scale, texts),
        (_, PrimitiveLiteral::String(value)) => string_default(value.as_str(), p),
        _ => Err(data_invalid("Default cannot be converted to the column type")),
    }
}

/// What is wrong with a literal that has the physical form of its type: a time of day must lie
/// within a day, a fixed-length byte string must have its length, and a floating-point number must
/// be finite, as no other can be written as JSON.
pub open spec fn unfit(p: PrimitiveType, literal: LiteralView) -> Option<ErrorView> {
    match (p, literal) {
        (PrimitiveType::Time, LiteralView::Primitive(PrimitiveView::Long(micros))) => if 0
            <= micros < 86_400_000_000 {
            None
        } else {
            Some(data_error("Temporal default is out of range"@))
        },
        (PrimitiveType::Float, LiteralView::Primitive(PrimitiveView::Float(bits))) => if float_finite(
            bits,
        ) {
            None
        } else {
            Some(data_error("Non-null default serialized as null"@))
        },
        (
            PrimitiveType::Double,
            LiteralView::Primitive(PrimitiveView::Double(bits)),
        ) => if double_finite(bits) {
            None
        } else {
            Some(data_error("Non-null default serialized as null"@))
        },
        (
            PrimitiveType::Fixed(length),
            LiteralView::Primitive(PrimitiveView::Binary(bytes)),
        ) => if bytes.len() == length {
            None
        } else {
            Some(data_error("Fixed default has the wrong length"@))
        },
        _ => None,
    }
}

fn check_fit(p: &PrimitiveType, literal: &Literal) -> (problem: Option<Error>)
    ensures
        opt_error(problem) == unfit(*p, literal@),
{
    match (p, literal) {
        (
            PrimitiveType::Time,
            Literal::Primitive(PrimitiveLiteral::Long(micros)),
        ) => if 0 <= *micros && *micros < 86_400_000_000 {
            None
        } else {
            Some(data_invalid("Temporal default is out of range"))
        },
        (
            PrimitiveType::Float,
            Literal::Primitive(PrimitiveLiteral::Float(bits)),
        ) => if *bits % 0x8000_0000 < 0x7f80_0000 {
            None
        } else {
            Some(data_invalid("Non-null default serialized as null"))
        },
        (
            PrimitiveType::Double,
            Literal::Primitive(PrimitiveLiteral::Double(bits)),
        ) => if *bits % 0x8000_0000_0000_0000 < 0x7ff0_0000_0000_0000 {
            None
        } else {
            Some(data_invalid("Non-null default serialized as null"))
        },
        (
            PrimitiveType::Fixed(length),
            Literal::Primitive(PrimitiveLiteral::Binary(bytes)),
        ) => if bytes.len() as u64 == *length {
            None
        } else {
            Some(data_invalid("Fixed default has the wrong length"))
        },
        _ => None,
    }
}

/// The error for a default that does not fit its column.
pub open spec fn invalid_default(name: Seq<char>, t: TypeView, source: ErrorView) -> ErrorView {
    precondition_over(
        "Invalid default for column "@ + name + ": default is incompatible with "@ + type_text(t),
        source,
    )
}

/// The default of the column `name` of type `t`, converted to its type.
pub open spec fn coerced_default(
    t: TypeView,
    default: Option<LiteralView>,
    name: Seq<char>,
    texts: Seq<(u64, Seq<char>)>,
) -> core::result::Result<Option<LiteralView>, ErrorView> {
    match default {
        None => Ok(None),
        Some(literal) => match (t, literal) {
            (TypeView::Primitive(p), LiteralView::Primitive(value)) => match converted(
                p,
                value,
                texts,
            ) {
                Err(error) => Err(invalid_default(name, t, error)),
                Ok(result) => match unfit(p, result) {
                    Some(error) => Err(invalid_default(name, t, error)),
                    None => Ok(Some(result)),
                },
            },
            _ => Err(invalid_default(name, t, unconvertible())),
        },
    }
}

fn invalid(name: &str, field_type: &Type, source: Error) -> (error: Error)
    ensures
        error@ == invalid_default(name@, field_type@, source@),
{
    let message = cat4(
        "Invalid default for column ",
        name,
        ": default is incompatible with ",
        field_type.to_text().as_str(),
    );
    precondition(message).with_source(source)
}

/// Converts a default to the type of its column.
pub fn convert_default(
    field_type: &Type,
    default: &Option<Literal>,
    name: &str,
    texts: &DoubleTexts,
) -> (result: Result<Option<Literal>, Error>)
    ensures
        default_outcome(result) == coerced_default(
            field_type@,
            opt_literal(*default),
            name@,
            texts@,
        ),
{
    let literal = match default {
        None => return Ok(None),
        Some(literal) => literal,
    };
    match (field_type, literal) {
        (Type::Primitive(p), Literal::Primitive(value)) => match convert(p, value, texts) {
            Err(error) => Err(invalid(name, field_type, error)),
            Ok(result) => match check_fit(p, &result) {
                Some(error) => Err(invalid(name, field_type, error)),
                None => Ok(Some(result)),
            },
        },
        _ => Err(
            invalid(
                name,
                field_type,
                data_invalid("Default cannot be converted to the column type"),
            ),
        ),
    }
}

/// A field with its defaults converted, and those of all beneath it. `name` is its full name.
pub open spec fn coerced_field(
    field: FieldView,
    name: Seq<char>,
    texts: Seq<(u64, Seq<char>)>,
) -> core::result::Result<FieldView, ErrorView>
    decreases field, 0nat,
{
    match coerced_default(field.field_type, field.initial_default, name, texts) {
        Err(error) => Err(error),
        Ok(initial_default) => match coerced_default(
            field.field_type,
            field.write_default,
            name,
            texts,
        ) {
            Err(error) => Err(error),
            Ok(write_default) => match coerced_type(field.field_type, name, texts) {
                Err(error) => Err(error),
                Ok(field_type) => Ok(
                    FieldView { field_type, initial_default, write_default, ..field },
                ),
            },
        },
    }
}

/// The fields from `i` on with their defaults converted, after those in `done`.
pub open spec fn coerced_fields(
    fields: Seq<FieldView>,
    i: nat,
    name: Seq<char>,
    texts: Seq<(u64, Seq<char>)>,
    done: Seq<FieldView>,
) -> core::result::Result<Seq<FieldView>, ErrorView>
    decreases fields, fields.len() - i,
{
    if i >= fields.len() {
        Ok(done)
    } else {
        match coerced_field(fields[i as int], dotted(name, fields[i as int].name), texts) {
            Err(error) => Err(error),
            Ok(field) => coerced_fields(fields, i + 1, name, texts, done.push(field)),
        }
    }
}

/// A type with the defaults of all fields within it converted.
pub open spec fn coerced_type(
    t: TypeView,
    name: Seq<char>,
    texts: Seq<(u64, Seq<char>)>,
) -> core::result::Result<TypeView, ErrorView>
    decreases t, 0nat,
{
    match t {
        TypeView::Primitive(_) | TypeView::Variant => Ok(t),
        TypeView::Struct(fields) => match coerced_fields(fields, 0, name, texts, Seq::empty()) {
            Err(error) => Err(error),
            Ok(coerced) => Ok(TypeView::Struct(coerced)),
        },
        TypeView::List(element) => match coerced_field(
            *element,
            dotted(name, element.name),
            texts,
        ) {
            Err(error) => Err(error),
            Ok(coerced) => Ok(TypeView::List(Box::new(coerced))),
        },
        TypeView::MapOf(key, value) => match coerced_field(*key, dotted(name, key.name), texts) {
            Err(error) => Err(error),
            Ok(new_key) => match coerced_field(*value, dotted(name, value.name), texts) {
                Err(error) => Err(error),
                Ok(new_value) => Ok(TypeView::MapOf(Box::new(new_key), Box::new(new_value))),
            },
        },
    }
}

/// Converts the defaults of a field and of all beneath it. `name` is the field's full name.
pub fn coerce_field_defaults(field: &NestedField, name: &str, texts: &DoubleTexts) -> (result:
    Result<Arc<NestedField>, Error>)
    ensures
        outcome(result) == coerced_field(field@, name@, texts@),
    decreases field,
{
    let initial_default = match convert_default(
        &field.field_type,
        &field.initial_default,
        name,
        texts,
    ) {
        Ok(default) => default,
        Err(error) => return Err(error),
    };
    let write_default = match convert_default(
        &field.field_type,
        &field.write_default,
        name,
        texts,
    ) {
        Ok(default) => default,
        Err(error) => return Err(error),
    };
    let field_type = match coerce_type_defaults(&field.field_type, name, texts) {
        Ok(field_type) => field_type,
        Err(error) => return Err(error),
    };
    Ok(
        Arc::new(
            NestedField {
                id: field.id,
                name: field.name.clone(),
                required: field.required,
                field_type: Box::new(field_type),
                doc: copy_text(&field.doc),
                initial_default,
                write_default,
            },
        ),
    )
}

/// Converts the defaults of the fields of a struct. `name` is the full name of the struct.
fn coerce_struct_defaults(fields: &Vec<Arc<NestedField>>, name: &str, texts: &DoubleTexts) -> (result:
    Result<Vec<Arc<NestedField>>, Error>)
    ensures
        fields_outcome(result) == coerced_fields(
            fields_view(fields@),
            0,
            name@,
            texts@,
            Seq::empty(),
        ),
    decreases fields,
{
    let ghost all = fields_view(fields@);
    let mut done: Vec<Arc<NestedField>> = Vec::new();
    let mut i: usize = 0;
    assert(fields_view(done@) =~= Seq::empty());
    while i < fields.len()
        invariant
            i <= fields@.len(),
            all == fields_view(fields@),
            coerced_fields(all, i as nat, name@, texts@, fields_view(done@)) == coerced_fields(
                all,
                0,
                name@,
                texts@,
                Seq::empty(),
            ),
        decreases fields@.len() - i,
    {
        assert(decreases_to!(fields => fields@));
        assert(decreases_to!(fields@ => fields@[i as int]));
        let field = &fields[i];
        assert(all[i as int] == field@);
        let path = join_path(name, field.name.as_str());
        match coerce_field_defaults(field, path.as_str(), texts) {
            Ok(coerced) => {
                let ghost before = fields_view(done@);
                done.push(coerced);
                assert(fields_view(done@) =~= before.push(coerced@));
            },
            Err(error) => return Err(error),
        }
        i += 1;
    }
    Ok(done)
}

fn coerce_type_defaults(field_type: &Type, name: &str, texts: &DoubleTexts) -> (result: Result<
    Type,
    Error,
>)
    ensures
        outcome(result) == coerced_type(field_type@, name@, texts@),
    decreases field_type,
{
    match field_type {
        Type::Primitive(p) => Ok(Type::Primitive(*p)),
        Type::Variant(v) => Ok(Type::Variant(*v)),
        Type::Struct(s) => {
            broadcast use lemma_struct_view;

            match coerce_struct_defaults(&s.fields, name, texts) {
                Ok(fields) => Ok(Type::Struct(StructType::new(fields))),
                Err(error) => Err(error),
            }
        },
        Type::List(l) => {
            let element = &l.element_field;
            let path = join_path(name, element.name.as_str());
            match coerce_field_defaults(element, path.as_str(), texts) {
                Ok(element_field) => Ok(Type::List(ListType { element_field })),
                Err(error) => Err(error),
            }
        },
        Type::MapOf(m) => {
            let key_path = join_path(name, m.key_field.name.as_str());
            let key_field = match coerce_field_defaults(&m.key_field, key_path.as_str(), texts) {
                Ok(key_field) => key_field,
                Err(error) => return Err(error),
            };
            let value_path = join_path(name, m.value_field.name.as_str());
            match coerce_field_defaults(&m.value_field, value_path.as_str(), texts) {
                Ok(value_field) => Ok(Type::MapOf(MapType { key_field, value_field })),
                Err(error) => Err(error),
            }
        },
    }
}

/// A converted literal has the physical form of its type, and a decimal fits its precision.
proof fn lemma_converted(p: PrimitiveType, literal: PrimitiveView, texts: Seq<(u64, Seq<char>)>)
    ensures
        converted(p, literal, texts) matches Ok(result) ==> {
            &&& result matches LiteralView::Primitive(value) && compatible(p, value)
            &&& p matches PrimitiveType::Decimal { precision, .. } ==> precision_of(
                result->Primitive_0->Int128_0,
            ) <= precision
        },
{
    reveal(converted);
    reveal(string_literal);
}

/// Conversion is settled after one step: a converted default is of the type of its column, and
/// converting it again, under whatever name, gives it back.
pub proof fn law_converted_defaults_are_settled(
    t: TypeView,
    default: Option<LiteralView>,
    name: Seq<char>,
    texts: Seq<(u64, Seq<char>)>,
    other_name: Seq<char>,
    other_texts: Seq<(u64, Seq<char>)>,
)
    requires
        coerced_default(t, default, name, texts) is Ok,
    ensures
        ({
            let settled = coerced_default(t, default, name, texts)->Ok_0;
            &&& settled is Some <==> default is Some
            &&& settled matches Some(literal) ==> (t matches TypeView::Primitive(p)
                && literal matches LiteralView::Primitive(value) && compatible(p, value))
            &&& coerced_default(t, settled, other_name, other_texts) == Ok::<
                Option<LiteralView>,
                ErrorView,
            >(settled)
        }),
{
    if let Some(literal) = default {
        if let (TypeView::Primitive(p), LiteralView::Primitive(value)) = (t, literal) {
            lemma_converted(p, value, texts);
            reveal(converted);
        }
    }
}

} // verus!
