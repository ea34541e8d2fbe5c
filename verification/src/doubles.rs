//! The floating-point defaults within an update, whose texts its replay may need.

use std::sync::Arc;

use vstd::prelude::*;

use crate::action::SchemaOperation;
#[allow(unused_imports)]
use crate::action::{operations_view, OperationView};
#[allow(unused_imports)]
use crate::defaults::{coerced_default, converted, text_of_double};
use crate::floats::double_of_float;
#[allow(unused_imports)]
use crate::floats::float_as_double;
use crate::literal::{Literal, PrimitiveLiteral};
#[allow(unused_imports)]
use crate::literal::{opt_literal, LiteralView, PrimitiveView};
use crate::types::{NestedField, Type};
#[allow(unused_imports)]
use crate::types::{fields_view, lemma_struct_view, FieldView, TypeView};

verus! {

/// The bits of a default as a 64-bit floating-point number, if it is a floating-point number.
pub open spec fn default_bits(default: Option<LiteralView>) -> Option<u64> {
    match default {
        Some(LiteralView::Primitive(PrimitiveView::Double(bits))) => Some(bits),
        Some(LiteralView::Primitive(PrimitiveView::Float(bits))) => Some(
            float_as_double(bits) as u64,
        ),
        _ => None,
    }
}

/// `done`, and after it the bits of a default.
pub open spec fn with_default_bits(default: Option<LiteralView>, done: Seq<u64>) -> Seq<u64> {
    match default_bits(default) {
        Some(bits) => done.push(bits),
        None => done,
    }
}

/// `done`, and after it the floating-point defaults of a field and of all beneath it.
pub open spec fn field_bits(field: FieldView, done: Seq<u64>) -> Seq<u64>
    decreases field, 0nat,
{
    type_bits(
        field.field_type,
        with_default_bits(field.write_default, with_default_bits(field.initial_default, done)),
    )
}

/// `done`, and after it the floating-point defaults of the fields from `i` on.
pub open spec fn fields_bits(fields: Seq<FieldView>, i: nat, done: Seq<u64>) -> Seq<u64>
    decreases fields, fields.len() - i,
{
    if i >= fields.len() {
        done
    } else {
        fields_bits(fields, i + 1, field_bits(fields[i as int], done))
    }
}

/// `done`, and after it the floating-point defaults within a type.
pub open spec fn type_bits(t: TypeView, done: Seq<u64>) -> Seq<u64>
    decreases t, 0nat,
{
    match t {
        TypeView::Primitive(_) | TypeView::Variant => done,
        TypeView::Struct(fields) => fields_bits(fields, 0, done),
        TypeView::List(element) => field_bits(*element, done),
        TypeView::MapOf(key, value) => field_bits(*value, field_bits(*key, done)),
    }
}

/// `done`, and after it the floating-point defaults of an operation.
pub open spec fn operation_bits(operation: OperationView, done: Seq<u64>) -> Seq<u64> {
    match operation {
        OperationView::Add(add) => type_bits(
            add.field_type,
            with_default_bits(add.write_default, with_default_bits(add.initial_default, done)),
        ),
        OperationView::UpdateDefault { default, .. } => with_default_bits(default, done),
        OperationView::UnionByName(schema) => fields_bits(schema.fields, 0, done),
        _ => done,
    }
}

/// `done`, and after it the floating-point defaults of the operations from `i` on.
pub open spec fn operations_bits(operations: Seq<OperationView>, i: nat, done: Seq<u64>) -> Seq<u64>
    decreases operations.len() - i,
{
    if i >= operations.len() {
        done
    } else {
        operations_bits(operations, i + 1, operation_bits(operations[i as int], done))
    }
}

fn note_default(default: &Option<Literal>, bits: &mut Vec<u64>)
    ensures
        final(bits)@ == with_default_bits(opt_literal(*default), old(bits)@),
{
    match default {
        Some(Literal::Primitive(PrimitiveLiteral::Double(double))) => bits.push(*double),
        Some(Literal::Primitive(PrimitiveLiteral::Float(float))) => bits.push(
            double_of_float(*float),
        ),
        _ => {},
    }
}

fn note_field(field: &NestedField, bits: &mut Vec<u64>)
    ensures
        final(bits)@ == field_bits(field@, old(bits)@),
    decreases field,
{
    note_default(&field.initial_default, bits);
    note_default(&field.write_default, bits);
    note_type(&field.field_type, bits);
}

fn note_fields(fields: &Vec<Arc<NestedField>>, bits: &mut Vec<u64>)
    ensures
        final(bits)@ == fields_bits(fields_view(fields@), 0, old(bits)@),
    decreases fields,
{
    let ghost all = fields_view(fields@);
    let mut i: usize = 0;
    while i < fields.len()
        invariant
            i <= fields@.len(),
            all == fields_view(fields@),
            fields_bits(all, i as nat, bits@) == fields_bits(all, 0, old(bits)@),
        decreases fields@.len() - i,
    {
        assert(decreases_to!(fields => fields@));
        assert(decreases_to!(fields@ => fields@[i as int]));
        assert(all[i as int] == fields@[i as int]@);
        note_field(&fields[i], bits);
        i += 1;
    }
}

fn note_type(field_type: &Type, bits: &mut Vec<u64>)
    ensures
        final(bits)@ == type_bits(field_type@, old(bits)@),
    decreases field_type,
{
    broadcast use lemma_struct_view;

    match field_type {
        Type::Primitive(_) | Type::Variant(_) => {},
        Type::Struct(s) => {
            assert(decreases_to!(field_type => s.fields));
            note_fields(&s.fields, bits);
        },
        Type::List(l) => note_field(&l.element_field, bits),
        Type::MapOf(m) => {
            note_field(&m.key_field, bits);
            note_field(&m.value_field, bits);
        },
    }
}

/// The floating-point defaults within an update, as 64-bit numbers.
pub fn floating_point_defaults(operations: &[SchemaOperation]) -> (bits: Vec<u64>)
    ensures
        bits@ == operations_bits(operations_view(operations@), 0, Seq::empty()),
{
    let ghost all = operations_view(operations@);
    let mut bits: Vec<u64> = Vec::new();
    let mut i: usize = 0;
    while i < operations.len()
        invariant
            i <= operations@.len(),
            all == operations_view(operations@),
            operations_bits(all, i as nat, bits@) == operations_bits(all, 0, Seq::empty()),
        decreases operations@.len() - i,
    {
        assert(all[i as int] == operations@[i as int]@);
        match &operations[i] {
            SchemaOperation::Add(add) => {
                note_default(&add.initial_default, &mut bits);
                note_default(&add.write_default, &mut bits);
                note_type(&add.field_type, &mut bits);
            },
            SchemaOperation::UpdateDefault { name: _, default } => note_default(default, &mut bits),
            SchemaOperation::UnionByName(schema) => note_fields(
                &schema.as_struct().fields,
                &mut bits,
            ),
            _ => {},
        }
        i += 1;
    }
    bits
}

/// The conversion of a default reads no text but that of the default itself.
pub proof fn law_conversion_reads_only_its_own_text(
    t: TypeView,
    default: Option<LiteralView>,
    name: Seq<char>,
    texts: Seq<(u64, Seq<char>)>,
    others: Seq<(u64, Seq<char>)>,
)
    requires
        default_bits(default) matches Some(bits) ==> text_of_double(texts, bits, 0)
            == text_of_double(others, bits, 0),
    ensures
        coerced_default(t, default, name, texts) == coerced_default(t, default, name, others),
{
    reveal(converted);
}

} // verus!
