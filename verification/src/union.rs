//! Reconciles the fields of another schema into a schema update, by name.

use std::sync::Arc;

use vstd::prelude::*;

use crate::action::AddColumn;
#[allow(unused_imports)]
use crate::action::AddView;
use crate::apply::{validate_case_insensitive_names, PendingSchemaUpdate};
use crate::defaults::defaults_equal;
use crate::error::{precondition, unexpected, Error};
#[allow(unused_imports)]
use crate::error::{outcome, precondition_error, unexpected_error, ErrorView};
use crate::literal::copy_default;
#[allow(unused_imports)]
use crate::pending::{
    add_column, no_collision, set_required, update_default, update_doc, update_type, Outcome,
    PendingView,
};
use crate::schema::Schema;
#[allow(unused_imports)]
use crate::schema::SchemaView;
use crate::text::{cat3, cat6, int_to_text, opt_text_eq, to_lower};
#[allow(unused_imports)]
use crate::text::{int_numeral, lower};
use crate::type_promotion::is_promotion_allowed;
#[allow(unused_imports)]
use crate::type_promotion::promotes;
use crate::types::{copy_text, share, NestedField, Type};
#[allow(unused_imports)]
use crate::types::{fields_view, lemma_struct_view, type_text, type_view, FieldView, TypeView};

verus! {

/// The last of the first `n` of `fields` whose name matches, whatever its case unless names are
/// case-sensitive.
pub open spec fn matching_field(
    fields: Seq<FieldView>,
    n: nat,
    name: Seq<char>,
    case_sensitive: bool,
) -> Option<FieldView>
    decreases n,
{
    if n == 0 || n > fields.len() {
        None
    } else if (if case_sensitive {
        fields[n - 1].name == name
    } else {
        lower(fields[n - 1].name) == lower(name)
    }) {
        Some(fields[n - 1])
    } else {
        matching_field(fields, (n - 1) as nat, name, case_sensitive)
    }
}

/// The column that brings a missing field in: optional, whatever it was, and with its name taken
/// literally at the root.
pub open spec fn missing_column(p: PendingView, parent: Option<i32>, field: FieldView) -> AddView {
    AddView {
        parent: match parent {
            Some(id) => p.schema.name_of(id),
            None => None,
        },
        name: field.name,
        required: false,
        field_type: field.field_type,
        doc: field.doc,
        initial_default: field.initial_default,
        write_default: field.write_default,
        literal_root_name: true,
    }
}

/// Merges the type of a new field into that of an existing one: a wider primitive type is taken
/// over, a narrower one is not, and structures stay as they are.
pub open spec fn merge_type(
    p: PendingView,
    name: Seq<char>,
    existing: FieldView,
    new: FieldView,
) -> (PendingView, Outcome) {
    match (existing.field_type, new.field_type) {
        (TypeView::Primitive(old), TypeView::Primitive(wanted)) => if old != wanted && !promotes(
            TypeView::Primitive(wanted),
            old,
        ) {
            update_type(p, name, wanted)
        } else {
            (p, Ok(()))
        },
        (TypeView::Struct(_), TypeView::Struct(_)) => (p, Ok(())),
        (TypeView::List(_), TypeView::List(_)) => (p, Ok(())),
        (TypeView::MapOf(_, _), TypeView::MapOf(_, _)) => (p, Ok(())),
        (TypeView::Variant, TypeView::Variant) => (p, Ok(())),
        (TypeView::Struct(_), TypeView::Variant) => (p, Ok(())),
        (TypeView::List(_), TypeView::Variant) => (p, Ok(())),
        (TypeView::MapOf(_, _), TypeView::Variant) => (p, Ok(())),
        (old, wanted) => (
            p,
            Err(
                precondition_error(
                    "Cannot merge column "@ + name + ": incompatible types "@ + type_text(old)
                        + " and "@ + type_text(wanted),
                ),
            ),
        ),
    }
}

/// Merges the documentation of a new field into an existing one, unless there is none.
pub open spec fn merge_doc(
    p: PendingView,
    name: Seq<char>,
    existing: FieldView,
    new: FieldView,
) -> (PendingView, Outcome) {
    if new.doc is Some && new.doc != existing.doc {
        update_doc(p, name, new.doc)
    } else {
        (p, Ok(()))
    }
}

/// Merges the write default of a new field into an existing one, unless there is none.
pub open spec fn merge_default(
    p: PendingView,
    name: Seq<char>,
    existing: FieldView,
    new: FieldView,
) -> (PendingView, Outcome) {
    if new.write_default is Some && new.write_default != existing.write_default {
        update_default(p, name, new.write_default)
    } else {
        (p, Ok(()))
    }
}

/// Makes an existing field optional where the new one is.
pub open spec fn merge_nullability(
    p: PendingView,
    name: Seq<char>,
    existing: FieldView,
    new: FieldView,
) -> (PendingView, Outcome) {
    if !new.required && existing.required {
        set_required(p, name, false)
    } else {
        (p, Ok(()))
    }
}

/// Merges a new field into an existing one: nullability, type, documentation and write default, in
/// this order, up to the first that fails.
pub open spec fn merge_field(p: PendingView, existing: FieldView, new: FieldView) -> (
    PendingView,
    Outcome,
) {
    match p.schema.name_of(existing.id) {
        None => (
            p,
            Err(
                unexpected_error(
                    "Field "@ + int_numeral(existing.id as int)
                        + " is missing from the schema name index"@,
                ),
            ),
        ),
        Some(name) => match merge_nullability(p, name, existing, new) {
            (p1, Err(error)) => (p1, Err(error)),
            (p1, Ok(_)) => match merge_type(p1, name, existing, new) {
                (p2, Err(error)) => (p2, Err(error)),
                (p2, Ok(_)) => match merge_doc(p2, name, existing, new) {
                    (p3, Err(error)) => (p3, Err(error)),
                    (p3, Ok(_)) => merge_default(p3, name, existing, new),
                },
            },
        },
    }
}

/// Goes into the new fields from `i` on that exist already.
pub open spec fn union_beneath(
    p: PendingView,
    existing: Seq<FieldView>,
    new: Seq<FieldView>,
    i: nat,
) -> (PendingView, Outcome)
    decreases new, new.len() - i,
{
    if i >= new.len() {
        (p, Ok(()))
    } else {
        match matching_field(existing, existing.len(), new[i as int].name, p.case_sensitive) {
            None => union_beneath(p, existing, new, i + 1),
            Some(field) => match union_field(p, field, new[i as int]) {
                (p1, Err(error)) => (p1, Err(error)),
                (p1, Ok(_)) => union_beneath(p1, existing, new, i + 1),
            },
        }
    }
}

/// Merges the new fields from `i` on that exist already, and adds those that do not.
pub open spec fn union_here(
    p: PendingView,
    parent: Option<i32>,
    existing: Seq<FieldView>,
    new: Seq<FieldView>,
    i: nat,
) -> (PendingView, Outcome)
    decreases new.len() - i,
{
    if i >= new.len() {
        (p, Ok(()))
    } else {
        let step = match matching_field(
            existing,
            existing.len(),
            new[i as int].name,
            p.case_sensitive,
        ) {
            None => add_column(p, missing_column(p, parent, new[i as int])),
            Some(field) => merge_field(p, field, new[i as int]),
        };
        match step {
            (p1, Err(error)) => (p1, Err(error)),
            (p1, Ok(_)) => union_here(p1, parent, existing, new, i + 1),
        }
    }
}

/// Reconciles the fields of a struct: first what lies beneath them, then the fields themselves.
pub open spec fn union_structs(
    p: PendingView,
    parent: Option<i32>,
    existing: Seq<FieldView>,
    new: Seq<FieldView>,
) -> (PendingView, Outcome)
    decreases new, new.len() + 1,
{
    match union_beneath(p, existing, new, 0) {
        (p1, Err(error)) => (p1, Err(error)),
        (p1, Ok(_)) => union_here(p1, parent, existing, new, 0),
    }
}

/// Reconciles what lies beneath a field.
pub open spec fn union_field(p: PendingView, existing: FieldView, new: FieldView) -> (
    PendingView,
    Outcome,
)
    decreases new, 0nat,
{
    match (existing.field_type, new.field_type) {
        (TypeView::Struct(old), TypeView::Struct(wanted)) => union_structs(
            p,
            Some(existing.id),
            old,
            wanted,
        ),
        (TypeView::List(old), TypeView::List(wanted)) => match union_field(p, *old, *wanted) {
            (p1, Err(error)) => (p1, Err(error)),
            (p1, Ok(_)) => merge_field(p1, *old, *wanted),
        },
        (TypeView::MapOf(old_key, old_value), TypeView::MapOf(key, value)) => match union_field(
            p,
            *old_key,
            *key,
        ) {
            (p1, Err(error)) => (p1, Err(error)),
            (p1, Ok(_)) => match union_field(p1, *old_value, *value) {
                (p2, Err(error)) => (p2, Err(error)),
                (p2, Ok(_)) => match merge_field(p2, *old_key, *key) {
                    (p3, Err(error)) => (p3, Err(error)),
                    (p3, Ok(_)) => merge_field(p3, *old_value, *value),
                },
            },
        },
        _ => (p, Ok(())),
    }
}

/// Reconciles a schema into an update.
pub open spec fn union_schema(p: PendingView, new: SchemaView) -> (PendingView, Outcome) {
    let names = if p.case_sensitive {
        Ok(())
    } else {
        match no_collision(p.schema) {
            Err(error) => Err(error),
            Ok(_) => no_collision(new),
        }
    };
    match names {
        Err(error) => (p, Err(error)),
        Ok(_) => union_structs(p, None, p.schema.fields, new.fields),
    }
}

/// Reconciles a schema into an update.
pub fn apply_union_by_name(pending: &mut PendingSchemaUpdate<'_>, new_schema: &Schema) -> (result:
    Result<(), Error>)
    ensures
        (final(pending)@, outcome(result)) == union_schema(old(pending)@, new_schema@),
{
    if !pending.is_case_sensitive() {
        match validate_case_insensitive_names(pending.base_schema()) {
            Ok(_) => {},
            Err(error) => return Err(error),
        }
        match validate_case_insensitive_names(new_schema) {
            Ok(_) => {},
            Err(error) => return Err(error),
        }
    }
    let base = pending.base_schema();
    union_struct(pending, None, &base.as_struct().fields, &new_schema.as_struct().fields)
}

/// The existing field that a new one matches.
fn find_match(
    fields: &Vec<Arc<NestedField>>,
    name: &String,
    case_sensitive: bool,
) -> (field: Option<Arc<NestedField>>)
    ensures
        match field {
            Some(f) => matching_field(
                fields_view(fields@),
                fields@.len(),
                name@,
                case_sensitive,
            ) == Some(f@),
            None => matching_field(
                fields_view(fields@),
                fields@.len(),
                name@,
                case_sensitive,
            ) is None,
        },
{
    let ghost all = fields_view(fields@);
    let mut n: usize = fields.len();
    while n > 0
        invariant
            n <= fields@.len(),
            all == fields_view(fields@),
            matching_field(all, n as nat, name@, case_sensitive) == matching_field(
                all,
                all.len(),
                name@,
                case_sensitive,
            ),
        decreases n,
    {
        let field = &fields[n - 1];
        assert(all[n - 1] == field@);
        let matches = if case_sensitive {
            field.name == *name
        } else {
            to_lower(field.name.as_str()) == to_lower(name.as_str())
        };
        if matches {
            return Some(share(field));
        }
        n -= 1;
    }
    None
}

fn union_struct(
    pending: &mut PendingSchemaUpdate<'_>,
    parent_id: Option<i32>,
    existing: &Vec<Arc<NestedField>>,
    new: &Vec<Arc<NestedField>>,
) -> (result: Result<(), Error>)
    ensures
        (final(pending)@, outcome(result)) == union_structs(
            old(pending)@,
            parent_id,
            fields_view(existing@),
            fields_view(new@),
        ),
    decreases new,
{
    let ghost old_fields = fields_view(existing@);
    let ghost new_fields = fields_view(new@);
    let mut i: usize = 0;
    while i < new.len()
        invariant
            i <= new@.len(),
            old_fields == fields_view(existing@),
            new_fields == fields_view(new@),
            union_beneath(pending@, old_fields, new_fields, i as nat) == union_beneath(
                old(pending)@,
                old_fields,
                new_fields,
                0,
            ),
        decreases new@.len() - i,
    {
        assert(decreases_to!(new => new@));
        assert(decreases_to!(new@ => new@[i as int]));
        let new_field = &new[i];
        assert(new_fields[i as int] == new_field@);
        match find_match(existing, &new_field.name, pending.is_case_sensitive()) {
            Some(existing_field) => {
                match recurse_field(pending, &existing_field, new_field) {
                    Ok(_) => {},
                    Err(error) => return Err(error),
                }
            },
            None => {},
        }
        i += 1;
    }
    let ghost middle = pending@;
    i = 0;
    while i < new.len()
        invariant
            i <= new@.len(),
            old_fields == fields_view(existing@),
            new_fields == fields_view(new@),
            union_beneath(old(pending)@, old_fields, new_fields, 0) == (
                middle,
                Ok::<(), ErrorView>(()),
            ),
            union_here(pending@, parent_id, old_fields, new_fields, i as nat) == union_here(
                middle,
                parent_id,
                old_fields,
                new_fields,
                0,
            ),
        decreases new@.len() - i,
    {
        let new_field = &new[i];
        assert(new_fields[i as int] == new_field@);
        let step = match find_match(existing, &new_field.name, pending.is_case_sensitive()) {
            Some(existing_field) => apply_field_update(pending, &existing_field, new_field),
            None => add_field(pending, parent_id, new_field),
        };
        match step {
            Ok(_) => {},
            Err(error) => return Err(error),
        }
        i += 1;
    }
    Ok(())
}

fn add_field(
    pending: &mut PendingSchemaUpdate<'_>,
    parent_id: Option<i32>,
    new_field: &NestedField,
) -> (result: Result<(), Error>)
    ensures
        (final(pending)@, outcome(result)) == add_column(
            old(pending)@,
            missing_column(old(pending)@, parent_id, new_field@),
        ),
{
    let parent: Option<String> = match parent_id {
        Some(id) => match pending.base_schema().name_by_field_id(id) {
            Some(name) => Some(name.to_owned()),
            None => None,
        },
        None => None,
    };
    let column = AddColumn {
        parent,
        name: new_field.name.clone(),
        required: false,
        field_type: new_field.field_type.copy(),
        doc: copy_text(&new_field.doc),
        initial_default: copy_default(&new_field.initial_default),
        write_default: copy_default(&new_field.write_default),
        literal_root_name: true,
    };
    pending.add_column(&column)
}

fn recurse_field(
    pending: &mut PendingSchemaUpdate<'_>,
    existing_field: &NestedField,
    new_field: &NestedField,
) -> (result: Result<(), Error>)
    ensures
        (final(pending)@, outcome(result)) == union_field(
            old(pending)@,
            existing_field@,
            new_field@,
        ),
    decreases new_field,
{
    broadcast use lemma_struct_view;

    assert(existing_field@.field_type == type_view(*existing_field.field_type));
    assert(new_field@.field_type == type_view(*new_field.field_type));
    match (&*existing_field.field_type, &*new_field.field_type) {
        (Type::Struct(existing), Type::Struct(new)) => {
            assert(decreases_to!(new_field => new.fields));
            union_struct(pending, Some(existing_field.id), &existing.fields, &new.fields)
        },
        (Type::List(existing), Type::List(new)) => {
            match recurse_field(pending, &existing.element_field, &new.element_field) {
                Ok(_) => {},
                Err(error) => return Err(error),
            }
            apply_field_update(pending, &existing.element_field, &new.element_field)
        },
        (Type::MapOf(existing), Type::MapOf(new)) => {
            match recurse_field(pending, &existing.key_field, &new.key_field) {
                Ok(_) => {},
                Err(error) => return Err(error),
            }
            match recurse_field(pending, &existing.value_field, &new.value_field) {
                Ok(_) => {},
                Err(error) => return Err(error),
            }
            match apply_field_update(pending, &existing.key_field, &new.key_field) {
                Ok(_) => {},
                Err(error) => return Err(error),
            }
            apply_field_update(pending, &existing.value_field, &new.value_field)
        },
        _ => Ok(()),
    }
}

fn merge_types(
    pending: &mut PendingSchemaUpdate<'_>,
    name: &str,
    existing_field: &NestedField,
    new_field: &NestedField,
) -> (result: Result<(), Error>)
    ensures
        (final(pending)@, outcome(result)) == merge_type(
            old(pending)@,
            name@,
            existing_field@,
            new_field@,
        ),
{
    match (&*existing_field.field_type, &*new_field.field_type) {
        (Type::Primitive(existing), Type::Primitive(new)) => {
            if *existing != *new && !is_promotion_allowed(&Type::Primitive(*new), existing) {
                pending.update_column_type(name, new)
            } else {
                Ok(())
            }
        },
        (Type::Struct(_), Type::Struct(_)) | (Type::List(_), Type::List(_)) | (
            Type::MapOf(_),
            Type::MapOf(_),
        ) | (Type::Variant(_), Type::Variant(_)) => Ok(()),
        (Type::Struct(_), Type::Variant(_)) | (Type::List(_), Type::Variant(_)) | (
            Type::MapOf(_),
            Type::Variant(_),
        ) => Ok(()),
        (existing, new) => Err(
            precondition(
                cat6(
                    "Cannot merge column ",
                    name,
                    ": incompatible types ",
                    existing.to_text().as_str(),
                    " and ",
                    new.to_text().as_str(),
                ),
            ),
        ),
    }
}

fn apply_field_update(
    pending: &mut PendingSchemaUpdate<'_>,
    existing_field: &NestedField,
    new_field: &NestedField,
) -> (result: Result<(), Error>)
    ensures
        (final(pending)@, outcome(result)) == merge_field(
            old(pending)@,
            existing_field@,
            new_field@,
        ),
{
    let name: String = match pending.base_schema().name_by_field_id(existing_field.id) {
        Some(name) => name.to_owned(),
        None => {
            let message = cat3(
                "Field ",
                int_to_text(existing_field.id as i64).as_str(),
                " is missing from the schema name index",
            );
            return Err(unexpected(message));
        },
    };
    if !new_field.required && existing_field.required {
        match pending.set_required(name.as_str(), false) {
            Ok(_) => {},
            Err(error) => return Err(error),
        }
    }
    match merge_types(pending, name.as_str(), existing_field, new_field) {
        Ok(_) => {},
        Err(error) => return Err(error),
    }
    if new_field.doc.is_some() && !opt_text_eq(&new_field.doc, &existing_field.doc) {
        match pending.update_column_doc(name.as_str(), &new_field.doc) {
            Ok(_) => {},
            Err(error) => return Err(error),
        }
    }
    if new_field.write_default.is_some() && !defaults_equal(
        &new_field.write_default,
        &existing_field.write_default,
    ) {
        match pending.update_column_default(name.as_str(), &new_field.write_default) {
            Ok(_) => {},
            Err(error) => return Err(error),
        }
    }
    Ok(())
}

} // verus!
