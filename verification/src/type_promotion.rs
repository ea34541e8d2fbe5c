//! Widening of primitive types, and of the defaults of the columns that have them.

use vstd::prelude::*;

use crate::error::{data_invalid, precondition, Error};
#[allow(unused_imports)]
use crate::error::{data_error, outcome, precondition_error, precondition_over, ErrorView};
use crate::floats::double_of_float;
#[allow(unused_imports)]
use crate::floats::{
    double_as_float, float_as_double, float_finite, law_narrowing_undoes_widening,
};
use crate::literal::{Literal, PrimitiveLiteral};
#[allow(unused_imports)]
use crate::literal::{opt_literal, LiteralView, PrimitiveView};
use crate::text::{cat2, cat4};
use crate::types::{PrimitiveType, Type};
#[allow(unused_imports)]
use crate::types::{decimal_type, primitive_text, type_text, TypeView};

verus! {

/// A primitive type as a type, or what is wrong with it.
pub open spec fn validated(primitive: PrimitiveType) -> core::result::Result<TypeView, ErrorView> {
    match primitive {
        PrimitiveType::Decimal { precision, scale } => decimal_type(precision, scale),
        _ => Ok(TypeView::Primitive(primitive)),
    }
}

/// Makes a primitive type a type; a decimal must have a valid precision.
pub fn validated_primitive_type(primitive: &PrimitiveType) -> (result: Result<Type, Error>)
    ensures
        outcome(result) == validated(*primitive),
{
    match primitive {
        PrimitiveType::Decimal { precision, scale } => Type::decimal(*precision, *scale),
        _ => Ok(Type::Primitive(*primitive)),
    }
}

/// Whether a column of the first type may become one of the second: `int` to `long`, `float` to
/// `double`, and a decimal to one of a larger precision and the same scale.
pub open spec fn promotes(old: TypeView, new: PrimitiveType) -> bool {
    match (old, new) {
        (TypeView::Primitive(PrimitiveType::Int), PrimitiveType::Long) => true,
        (TypeView::Primitive(PrimitiveType::Float), PrimitiveType::Double) => true,
        (
            TypeView::Primitive(PrimitiveType::Decimal { precision: p, scale: s }),
            PrimitiveType::Decimal { precision, scale },
        ) => precision > p && scale == s,
        _ => false,
    }
}

/// Whether a column of the first type may become one of the second.
pub fn is_promotion_allowed(old_type: &Type, new_type: &PrimitiveType) -> (allowed: bool)
    ensures
        allowed == promotes(old_type@, *new_type),
{
    match (old_type, new_type) {
        (Type::Primitive(PrimitiveType::Int), PrimitiveType::Long) => true,
        (Type::Primitive(PrimitiveType::Float), PrimitiveType::Double) => true,
        (
            Type::Primitive(
                PrimitiveType::Decimal { precision: old_precision, scale: old_scale },
            ),
            PrimitiveType::Decimal { precision: new_precision, scale: new_scale },
        ) => *new_precision > *old_precision && *new_scale == *old_scale,
        _ => false,
    }
}

/// A literal of the old type as one of the new type.
pub open spec fn promoted_literal(
    literal: PrimitiveView,
    old: PrimitiveType,
    new: TypeView,
) -> core::result::Result<PrimitiveView, ErrorView> {
    match (literal, old, new) {
        (
            PrimitiveView::Int(value),
            PrimitiveType::Int,
            TypeView::Primitive(PrimitiveType::Long),
        ) => Ok(PrimitiveView::Long(value as i64)),
        (
            PrimitiveView::Float(bits),
            PrimitiveType::Float,
            TypeView::Primitive(PrimitiveType::Double),
        ) => Ok(PrimitiveView::Double(float_as_double(bits) as u64)),
        (
            PrimitiveView::Int128(value),
            PrimitiveType::Decimal { .. },
            TypeView::Primitive(PrimitiveType::Decimal { .. }),
        ) => Ok(PrimitiveView::Int128(value)),
        _ => Err(data_error("Literal cannot be converted to the promoted type"@)),
    }
}

/// A default of a column of the old type as one of the new type.
pub open spec fn promoted_default(
    default: Option<LiteralView>,
    old: PrimitiveType,
    new: TypeView,
) -> core::result::Result<Option<LiteralView>, ErrorView> {
    match default {
        None => Ok(None),
        Some(LiteralView::Primitive(literal)) => match promoted_literal(literal, old, new) {
            Ok(promoted) => Ok(Some(LiteralView::Primitive(promoted))),
            Err(error) => Err(
                precondition_over(
                    "Cannot promote default from "@ + primitive_text(old) + " to "@ + type_text(
                        new,
                    ),
                    error,
                ),
            ),
        },
        Some(_) => Err(
            precondition_error(
                "Cannot promote non-primitive default for type "@ + primitive_text(old),
            ),
        ),
    }
}

/// An optional default as the result of a fallible step.
pub open spec fn default_outcome(result: Result<Option<Literal>, Error>) -> core::result::Result<
    Option<LiteralView>,
    ErrorView,
> {
    match result {
        Ok(default) => Ok(opt_literal(default)),
        Err(error) => Err(error@),
    }
}

/// Carries the default of a column over to its new type.
pub fn promote_default(
    default: &Option<Literal>,
    old_type: &PrimitiveType,
    new_type: &Type,
) -> (result: Result<Option<Literal>, Error>)
    ensures
        default_outcome(result) == promoted_default(opt_literal(*default), *old_type, new_type@),
{
    let literal = match default {
        None => return Ok(None),
        Some(Literal::Primitive(literal)) => literal,
        Some(_) => {
            return Err(
                precondition(
                    cat2(
                        "Cannot promote non-primitive default for type ",
                        old_type.to_text().as_str(),
                    ),
                ),
            );
        },
    };
    match (literal, old_type, new_type) {
        (
            PrimitiveLiteral::Int(value),
            PrimitiveType::Int,
            Type::Primitive(PrimitiveType::Long),
        ) => Ok(Some(Literal::long(*value as i64))),
        (
            PrimitiveLiteral::Float(bits),
            PrimitiveType::Float,
            Type::Primitive(PrimitiveType::Double),
        ) => Ok(Some(Literal::double_bits(double_of_float(*bits)))),
        (
            PrimitiveLiteral::Int128(value),
            PrimitiveType::Decimal { .. },
            Type::Primitive(PrimitiveType::Decimal { .. }),
        ) => Ok(Some(Literal::decimal(*value))),
        _ => {
            let message = cat4(
                "Cannot promote default from ",
                old_type.to_text().as_str(),
                " to ",
                new_type.to_text().as_str(),
            );
            Err(
                precondition(message).with_source(
                    data_invalid("Literal cannot be converted to the promoted type"),
                ),
            )
        },
    }
}

/// No type can be promoted to itself, and no promotion can be undone by another.
pub proof fn law_promotion_is_a_strict_order(a: PrimitiveType, b: PrimitiveType, c: PrimitiveType)
    ensures
        !promotes(TypeView::Primitive(a), a),
        promotes(TypeView::Primitive(a), b) ==> !promotes(TypeView::Primitive(b), a),
        promotes(TypeView::Primitive(a), b) && promotes(TypeView::Primitive(b), c) ==> promotes(
            TypeView::Primitive(a),
            c,
        ),
{
}

/// Only primitive types are promoted, and every default that is a literal of the old type has a
/// counterpart in the new one.
pub proof fn law_promotion_keeps_fitting_defaults(
    old: PrimitiveType,
    new: PrimitiveType,
    literal: PrimitiveView,
)
    requires
        promotes(TypeView::Primitive(old), new),
        old == PrimitiveType::Int ==> literal is Int,
        old == PrimitiveType::Float ==> literal is Float,
        old is Decimal ==> literal is Int128,
    ensures
        promoted_default(
            Some(LiteralView::Primitive(literal)),
            old,
            TypeView::Primitive(new),
        ) is Ok,
{
}

/// What promotes to what, type by type: `int` to `long` alone, `float` to `double` alone, a decimal
/// to every decimal of the same scale and a larger precision and to nothing else, and no other type
/// to anything.
pub proof fn law_promotion_type_by_type(old: TypeView, new: PrimitiveType, p: u32, q: u32, s: u32)
    ensures
        promotes(TypeView::Primitive(PrimitiveType::Int), new) <==> new == PrimitiveType::Long,
        promotes(TypeView::Primitive(PrimitiveType::Float), new) <==> new == PrimitiveType::Double,
        p < q <==> promotes(
            TypeView::Primitive(PrimitiveType::Decimal { precision: p, scale: s }),
            PrimitiveType::Decimal { precision: q, scale: s },
        ),
        promotes(TypeView::Primitive(PrimitiveType::Decimal { precision: p, scale: s }), new) ==> (
        new matches PrimitiveType::Decimal { scale, .. } && scale == s),
        promotes(old, new) ==> {
            ||| old == TypeView::Primitive(PrimitiveType::Int)
            ||| old == TypeView::Primitive(PrimitiveType::Float)
            ||| old matches TypeView::Primitive(PrimitiveType::Decimal { .. })
        },
{
}

/// A promoted default stands for the same number: an integer stays the integer that it is, a
/// decimal keeps its unscaled value, and a floating-point number that is widened and narrowed again
/// is the number that it was. No default stays no default, and one that is no literal of the old
/// type is turned down.
pub proof fn law_promotion_keeps_the_value(
    literal: PrimitiveView,
    old: PrimitiveType,
    new: PrimitiveType,
)
    requires
        promotes(TypeView::Primitive(old), new),
    ensures
        promoted_default(None, old, TypeView::Primitive(new)) == Ok::<
            Option<LiteralView>,
            ErrorView,
        >(None),
        match promoted_default(
            Some(LiteralView::Primitive(literal)),
            old,
            TypeView::Primitive(new),
        ) {
            Ok(Some(LiteralView::Primitive(promoted))) => match (literal, promoted) {
                (PrimitiveView::Int(a), PrimitiveView::Long(b)) => old is Int && a == b,
                (PrimitiveView::Int128(a), PrimitiveView::Int128(b)) => old is Decimal && a == b,
                (PrimitiveView::Float(a), PrimitiveView::Double(b)) => {
                    &&& old is Float
                    &&& float_finite(a) ==> double_as_float(b) == a
                },
                _ => false,
            },
            Ok(_) => false,
            Err(_) => {
                ||| old is Int && !(literal is Int)
                ||| old is Float && !(literal is Float)
                ||| old is Decimal && !(literal is Int128)
            },
        },
{
    if let PrimitiveView::Float(bits) = literal {
        if float_finite(bits) {
            law_narrowing_undoes_widening(bits);
        }
    }
}

/// Every primitive type is a type, but for decimals with no digits or with more than 38.
pub proof fn law_primitive_types_are_types(p: PrimitiveType)
    ensures
        validated(p) is Ok <==> (p matches PrimitiveType::Decimal { precision, .. } ==> 1
            <= precision <= 38),
        validated(p) matches Ok(t) ==> t == TypeView::Primitive(p),
{
}

} // verus!
