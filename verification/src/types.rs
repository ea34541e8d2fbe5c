//! Column types and fields.

use std::sync::Arc;

use vstd::prelude::*;

use crate::error::{data_invalid, Error};
#[allow(unused_imports)]
use crate::error::{data_error, outcome, ErrorView};
use crate::literal::{copy_default, Literal};
#[allow(unused_imports)]
use crate::literal::{opt_literal, LiteralView};
use crate::text::{cat2, cat3, nat_to_text, opt_text_eq};
#[allow(unused_imports)]
use crate::text::{numeral, opt_text};

verus! {

/// A type without structure.
#[derive(Debug, Clone, Copy, PartialEq, Eq, Structural)]
pub enum PrimitiveType {
    Boolean,
    Int,
    Long,
    Float,
    Double,
    Decimal { precision: u32, scale: u32 },
    Date,
    Time,
    Timestamp,
    Timestamptz,
    TimestampNs,
    TimestamptzNs,
    String,
    Uuid,
    Fixed(u64),
    Binary,
}

/// A semi-structured value.
#[derive(Debug, Clone, Copy, PartialEq, Eq, Structural)]
pub struct VariantType;

/// The type of a column.
#[derive(Debug, PartialEq, Eq)]
pub enum Type {
    Primitive(PrimitiveType),
    Struct(StructType),
    List(ListType),
    MapOf(MapType),
    Variant(VariantType),
}

/// An ordered list of fields.
#[derive(Debug, PartialEq, Eq)]
pub struct StructType {
    pub fields: Vec<Arc<NestedField>>,
}

/// A list, with its elements as a field.
#[derive(Debug, PartialEq, Eq)]
pub struct ListType {
    pub element_field: Arc<NestedField>,
}

/// A map, with its keys and its values as fields.
#[derive(Debug, PartialEq, Eq)]
pub struct MapType {
    pub key_field: Arc<NestedField>,
    pub value_field: Arc<NestedField>,
}

/// A field of a struct, or the elements, keys or values of a collection.
#[derive(Debug, PartialEq, Eq)]
pub struct NestedField {
    pub id: i32,
    pub name: String,
    pub required: bool,
    pub field_type: Box<Type>,
    pub doc: Option<String>,
    pub initial_default: Option<Literal>,
    pub write_default: Option<Literal>,
}

/// The mathematical value of a [`NestedField`].
pub struct FieldView {
    pub id: i32,
    pub name: Seq<char>,
    pub required: bool,
    pub field_type: TypeView,
    pub doc: Option<Seq<char>>,
    pub initial_default: Option<LiteralView>,
    pub write_default: Option<LiteralView>,
}

/// The mathematical value of a [`Type`].
pub enum TypeView {
    Primitive(PrimitiveType),
    Struct(Seq<FieldView>),
    List(Box<FieldView>),
    MapOf(Box<FieldView>, Box<FieldView>),
    Variant,
}

/// The value of a field, all the way down.
pub open spec fn field_view(field: NestedField) -> FieldView
    decreases field,
{
    FieldView {
        id: field.id,
        name: field.name@,
        required: field.required,
        field_type: type_view(*field.field_type),
        doc: opt_text(field.doc),
        initial_default: opt_literal(field.initial_default),
        write_default: opt_literal(field.write_default),
    }
}

/// The value of a type, all the way down.
pub open spec fn type_view(t: Type) -> TypeView
    decreases t,
{
    match t {
        Type::Primitive(p) => TypeView::Primitive(p),
        Type::Struct(s) => TypeView::Struct(
            Seq::new(
                s.fields@.len(),
                |i: int|
                    if 0 <= i < s.fields@.len() {
                        field_view(*s.fields@[i])
                    } else {
                        arbitrary()
                    },
            ),
        ),
        Type::List(l) => TypeView::List(Box::new(field_view(*l.element_field))),
        Type::MapOf(m) => TypeView::MapOf(
            Box::new(field_view(*m.key_field)),
            Box::new(field_view(*m.value_field)),
        ),
        Type::Variant(_) => TypeView::Variant,
    }
}

impl View for NestedField {
    type V = FieldView;

    open spec fn view(&self) -> FieldView {
        field_view(*self)
    }
}

impl View for Type {
    type V = TypeView;

    open spec fn view(&self) -> TypeView {
        type_view(*self)
    }
}

/// The views of a list of fields.
pub open spec fn fields_view(fields: Seq<Arc<NestedField>>) -> Seq<FieldView> {
    fields.map_values(|field: Arc<NestedField>| field_view(*field))
}

impl View for StructType {
    type V = Seq<FieldView>;

    open spec fn view(&self) -> Seq<FieldView> {
        fields_view(self.fields@)
    }
}

/// The view of a struct type is made of the views of its fields.
pub broadcast proof fn lemma_struct_view(s: StructType)
    ensures
        #[trigger] type_view(Type::Struct(s)) == TypeView::Struct(fields_view(s.fields@)),
{
    assert(type_view(Type::Struct(s))->Struct_0 =~= fields_view(s.fields@));
}

/// The name of the element field of a list.
pub open spec fn element_name() -> Seq<char> {
    "element"@
}

/// The name of the key field of a map.
pub open spec fn key_name() -> Seq<char> {
    "key"@
}

/// The name of the value field of a map.
pub open spec fn value_name() -> Seq<char> {
    "value"@
}

/// A field with neither documentation nor defaults.
pub open spec fn bare_field(id: i32, name: Seq<char>, field_type: TypeView, required: bool) -> FieldView {
    FieldView {
        id,
        name,
        required,
        field_type,
        doc: None,
        initial_default: None,
        write_default: None,
    }
}

/// A copy of a shared field.
///
/// Calls `Arc::clone`, which gives another pointer to the same value.
#[verifier::external_body]
pub(crate) fn share(field: &Arc<NestedField>) -> (shared: Arc<NestedField>)
    ensures
        shared == *field,
{
    Arc::clone(field)
}

/// A list of shared fields, copied.
pub(crate) fn share_all(fields: &Vec<Arc<NestedField>>) -> (shared: Vec<Arc<NestedField>>)
    ensures
        shared@ == fields@,
{
    let mut shared: Vec<Arc<NestedField>> = Vec::new();
    let mut i: usize = 0;
    while i < fields.len()
        invariant
            i <= fields@.len(),
            shared@ == fields@.take(i as int),
        decreases fields@.len() - i,
    {
        shared.push(share(&fields[i]));
        i += 1;
        assert(fields@.take(i as int) =~= fields@.take(i - 1).push(fields@[i - 1]));
    }
    assert(fields@.take(i as int) =~= fields@);
    shared
}

/// Whether two lists of fields are the same.
pub fn fields_same(a: &Vec<Arc<NestedField>>, b: &Vec<Arc<NestedField>>) -> (same: bool)
    ensures
        same == (fields_view(a@) == fields_view(b@)),
    decreases a,
{
    if a.len() != b.len() {
        assert(fields_view(a@).len() != fields_view(b@).len());
        return false;
    }
    let mut i: usize = 0;
    while i < a.len()
        invariant
            i <= a@.len(),
            a@.len() == b@.len(),
            forall|j: int| 0 <= j < i ==> field_view(*(#[trigger] a@[j])) == field_view(*b@[j]),
        decreases a@.len() - i,
    {
        assert(decreases_to!(a => a@));
        assert(decreases_to!(a@ => a@[i as int]));
        if !a[i].same(&b[i]) {
            assert(fields_view(a@)[i as int] != fields_view(b@)[i as int]);
            return false;
        }
        i += 1;
    }
    assert(fields_view(a@) =~= fields_view(b@));
    true
}

/// Whether two optional literals are the same.
pub(crate) fn opt_literal_same(a: &Option<Literal>, b: &Option<Literal>) -> (same: bool)
    ensures
        same == (opt_literal(*a) == opt_literal(*b)),
{
    match (a, b) {
        (Some(x), Some(y)) => x.same(y),
        (None, None) => true,
        _ => false,
    }
}

/// A copy of an optional text.
pub(crate) fn copy_text(text: &Option<String>) -> (copy: Option<String>)
    ensures
        opt_text(copy) == opt_text(*text),
{
    match text {
        Some(t) => Some(t.clone()),
        None => None,
    }
}

impl NestedField {
    /// A field with neither documentation nor defaults.
    pub fn new(id: i32, name: &str, field_type: Type, required: bool) -> (field: NestedField)
        ensures
            field@ == bare_field(id, name@, field_type@, required),
    {
        NestedField {
            id,
            name: name.to_owned(),
            required,
            field_type: Box::new(field_type),
            doc: None,
            initial_default: None,
            write_default: None,
        }
    }

    /// An optional field.
    pub fn optional(id: i32, name: &str, field_type: Type) -> (field: NestedField)
        ensures
            field@ == bare_field(id, name@, field_type@, false),
    {
        NestedField::new(id, name, field_type, false)
    }

    /// A required field.
    pub fn required(id: i32, name: &str, field_type: Type) -> (field: NestedField)
        ensures
            field@ == bare_field(id, name@, field_type@, true),
    {
        NestedField::new(id, name, field_type, true)
    }

    /// The element field of a list.
    pub fn list_element(id: i32, field_type: Type, required: bool) -> (field: NestedField)
        ensures
            field@ == bare_field(id, element_name(), field_type@, required),
    {
        NestedField::new(id, "element", field_type, required)
    }

    /// The key field of a map; keys are always required.
    pub fn map_key_element(id: i32, field_type: Type) -> (field: NestedField)
        ensures
            field@ == bare_field(id, key_name(), field_type@, true),
    {
        NestedField::new(id, "key", field_type, true)
    }

    /// The value field of a map.
    pub fn map_value_element(id: i32, field_type: Type, required: bool) -> (field: NestedField)
        ensures
            field@ == bare_field(id, value_name(), field_type@, required),
    {
        NestedField::new(id, "value", field_type, required)
    }

    /// The field with the given documentation.
    pub fn with_doc(self, doc: &str) -> (field: NestedField)
        ensures
            field@ == (FieldView { doc: Some(doc@), ..self@ }),
    {
        NestedField { doc: Some(doc.to_owned()), ..self }
    }

    /// The field with the given initial default.
    pub fn with_initial_default(self, default: Literal) -> (field: NestedField)
        ensures
            field@ == (FieldView { initial_default: Some(default@), ..self@ }),
    {
        NestedField { initial_default: Some(default), ..self }
    }

    /// The field with the given write default.
    pub fn with_write_default(self, default: Literal) -> (field: NestedField)
        ensures
            field@ == (FieldView { write_default: Some(default@), ..self@ }),
    {
        NestedField { write_default: Some(default), ..self }
    }

    /// Whether two fields are the same in every respect.
    pub fn same(&self, other: &NestedField) -> (same: bool)
        ensures
            same == (self@ == other@),
        decreases self,
    {
        self.id == other.id && self.name == other.name && self.required == other.required
            && opt_text_eq(&self.doc, &other.doc) && opt_literal_same(
            &self.initial_default,
            &other.initial_default,
        ) && opt_literal_same(&self.write_default, &other.write_default) && self.field_type.same(
            &other.field_type,
        )
    }
}

impl Clone for NestedField {
    fn clone(&self) -> (copy: NestedField)
        ensures
            copy@ == self@,
    {
        NestedField {
            id: self.id,
            name: self.name.clone(),
            required: self.required,
            field_type: Box::new(self.field_type.copy()),
            doc: copy_text(&self.doc),
            initial_default: copy_default(&self.initial_default),
            write_default: copy_default(&self.write_default),
        }
    }
}

impl StructType {
    /// A struct type with the given fields.
    pub fn new(fields: Vec<Arc<NestedField>>) -> (s: StructType)
        ensures
            s@ == fields_view(fields@),
            s.fields == fields,
    {
        StructType { fields }
    }

    /// The fields, in order.
    pub fn fields(&self) -> (fields: &Vec<Arc<NestedField>>)
        ensures
            fields == self.fields,
            fields_view(fields@) == self@,
    {
        &self.fields
    }
}

/// The largest precision of a decimal.
pub const MAX_DECIMAL_PRECISION: u32 = 38;

/// The decimal type with the given precision and scale, or the error for a precision that is out
/// of range.
pub open spec fn decimal_type(precision: u32, scale: u32) -> core::result::Result<
    TypeView,
    ErrorView,
> {
    if 0 < precision <= 38 {
        Ok(TypeView::Primitive(PrimitiveType::Decimal { precision, scale }))
    } else {
        Err(
            data_error(
                "Decimals with precision larger than 38 are not supported: "@ + numeral(
                    precision as nat,
                ),
            ),
        )
    }
}

impl Type {
    /// A decimal type. Its precision must be positive and at most [`MAX_DECIMAL_PRECISION`].
    pub fn decimal(precision: u32, scale: u32) -> (result: Result<Type, Error>)
        ensures
            outcome(result) == decimal_type(precision, scale),
    {
        if 0 < precision && precision <= MAX_DECIMAL_PRECISION {
            Ok(Type::Primitive(PrimitiveType::Decimal { precision, scale }))
        } else {
            let message = cat2(
                "Decimals with precision larger than 38 are not supported: ",
                nat_to_text(precision as u128).as_str(),
            );
            Err(data_invalid(message.as_str()))
        }
    }

    /// Whether this is a struct type.
    pub fn is_struct(&self) -> (answer: bool)
        ensures
            answer == (self@ is Struct),
    {
        match self {
            Type::Struct(_) => true,
            _ => false,
        }
    }

    /// Whether two types are the same.
    pub fn same(&self, other: &Type) -> (same: bool)
        ensures
            same == (self@ == other@),
        decreases self,
    {
        broadcast use lemma_struct_view;

        match (self, other) {
            (Type::Primitive(a), Type::Primitive(b)) => *a == *b,
            (Type::Struct(a), Type::Struct(b)) => {
                assert(decreases_to!(self => a.fields));
                fields_same(&a.fields, &b.fields)
            },
            (Type::List(a), Type::List(b)) => a.element_field.same(&b.element_field),
            (Type::MapOf(a), Type::MapOf(b)) => a.key_field.same(&b.key_field)
                && a.value_field.same(&b.value_field),
            (Type::Variant(_), Type::Variant(_)) => true,
            _ => false,
        }
    }

    /// A copy of the type; the fields beneath it are shared.
    pub fn copy(&self) -> (copy: Type)
        ensures
            copy@ == self@,
    {
        broadcast use lemma_struct_view;

        match self {
            Type::Primitive(p) => Type::Primitive(*p),
            Type::Struct(s) => Type::Struct(StructType { fields: share_all(&s.fields) }),
            Type::List(l) => Type::List(ListType { element_field: share(&l.element_field) }),
            Type::MapOf(m) => Type::MapOf(
                MapType {
                    key_field: share(&m.key_field),
                    value_field: share(&m.value_field),
                },
            ),
            Type::Variant(v) => Type::Variant(*v),
        }
    }
}

impl Clone for Type {
    fn clone(&self) -> (copy: Type)
        ensures
            copy@ == self@,
    {
        self.copy()
    }
}

/// How a primitive type is written.
pub open spec fn primitive_text(p: PrimitiveType) -> Seq<char> {
    match p {
        PrimitiveType::Boolean => "boolean"@,
        PrimitiveType::Int => "int"@,
        PrimitiveType::Long => "long"@,
        PrimitiveType::Float => "float"@,
        PrimitiveType::Double => "double"@,
        PrimitiveType::Decimal { precision, scale } => "decimal("@ + numeral(precision as nat)
            + ", "@ + numeral(scale as nat) + ")"@,
        PrimitiveType::Date => "date"@,
        PrimitiveType::Time => "time"@,
        PrimitiveType::Timestamp => "timestamp"@,
        PrimitiveType::Timestamptz => "timestamptz"@,
        PrimitiveType::TimestampNs => "timestamp_ns"@,
        PrimitiveType::TimestamptzNs => "timestamptz_ns"@,
        PrimitiveType::String => "string"@,
        PrimitiveType::Uuid => "uuid"@,
        PrimitiveType::Fixed(length) => "fixed("@ + numeral(length as nat) + ")"@,
        PrimitiveType::Binary => "binary"@,
    }
}

/// How a type is written.
pub open spec fn type_text(t: TypeView) -> Seq<char>
    decreases t, 0nat,
{
    match t {
        TypeView::Primitive(p) => primitive_text(p),
        TypeView::Struct(fields) => "struct<"@ + types_text(fields, fields.len()) + ">"@,
        TypeView::List(_) => "list"@,
        TypeView::MapOf(_, _) => "map"@,
        TypeView::Variant => "variant"@,
    }
}

/// The types of the first `n` fields, written one after the other.
pub open spec fn types_text(fields: Seq<FieldView>, n: nat) -> Seq<char>
    decreases fields, n,
{
    if n == 0 || n > fields.len() {
        Seq::empty()
    } else {
        types_text(fields, (n - 1) as nat) + type_text(fields[n - 1].field_type)
    }
}

impl PrimitiveType {
    /// How the type is written.
    pub fn to_text(&self) -> (text: String)
        ensures
            text@ == primitive_text(*self),
    {
        match self {
            PrimitiveType::Boolean => "boolean".to_owned(),
            PrimitiveType::Int => "int".to_owned(),
            PrimitiveType::Long => "long".to_owned(),
            PrimitiveType::Float => "float".to_owned(),
            PrimitiveType::Double => "double".to_owned(),
            PrimitiveType::Decimal { precision, scale } => {
                let precision_text = nat_to_text(*precision as u128);
                let scale_text = nat_to_text(*scale as u128);
                let start = cat3("decimal(", precision_text.as_str(), ", ");
                cat3(start.as_str(), scale_text.as_str(), ")")
            },
            PrimitiveType::Date => "date".to_owned(),
            PrimitiveType::Time => "time".to_owned(),
            PrimitiveType::Timestamp => "timestamp".to_owned(),
            PrimitiveType::Timestamptz => "timestamptz".to_owned(),
            PrimitiveType::TimestampNs => "timestamp_ns".to_owned(),
            PrimitiveType::TimestamptzNs => "timestamptz_ns".to_owned(),
            PrimitiveType::String => "string".to_owned(),
            PrimitiveType::Uuid => "uuid".to_owned(),
            PrimitiveType::Fixed(length) => cat3(
                "fixed(",
                nat_to_text(*length as u128).as_str(),
                ")",
            ),
            PrimitiveType::Binary => "binary".to_owned(),
        }
    }
}

impl Type {
    /// How the type is written.
    pub fn to_text(&self) -> (text: String)
        ensures
            text@ == type_text(self@),
        decreases self,
    {
        broadcast use lemma_struct_view;

        match self {
            Type::Primitive(p) => p.to_text(),
            Type::Struct(s) => {
                let mut inner = String::new();
                let mut i: usize = 0;
                while i < s.fields.len()
                    invariant
                        i <= s.fields@.len(),
                        decreases_to!(self => s.fields),
                        inner@ == types_text(fields_view(s.fields@), i as nat),
                    decreases s.fields@.len() - i,
                {
                    assert(decreases_to!(s.fields => s.fields@));
                    assert(decreases_to!(s.fields@ => s.fields@[i as int]));
                    inner = inner.concat(s.fields[i].field_type.to_text().as_str());
                    i += 1;
                }
                cat3("struct<", inner.as_str(), ">")
            },
            Type::List(_) => "list".to_owned(),
            Type::MapOf(_) => "map".to_owned(),
            Type::Variant(_) => "variant".to_owned(),
        }
    }
}

} // verus!
