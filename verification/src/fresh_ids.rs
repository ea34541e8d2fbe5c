//! Field IDs for new columns.
//!
//! IDs are taken in order from a counter. All fields of a struct get theirs before any of their
//! descendants does, and so do the key and the value of a map.

use std::sync::Arc;

use vstd::prelude::*;

use crate::error::{data_invalid, Error};
#[allow(unused_imports)]
use crate::error::{data_error, outcome, ErrorView};
use crate::literal::copy_default;
use crate::types::{copy_text, ListType, MapType, NestedField, StructType, Type};
#[allow(unused_imports)]
use crate::types::{
    bare_field, element_name, fields_view, key_name, lemma_struct_view, value_name, FieldView,
    TypeView,
};

verus! {

/// The error for a counter that has run out.
pub open spec fn id_overflow() -> ErrorView {
    data_error("Field ID overflowed, cannot add more fields"@)
}

/// The ID that follows `last`, and the counter after it was taken.
pub open spec fn next_id(last: i32) -> (core::result::Result<i32, ErrorView>, i32) {
    if last == i32::MAX {
        (Err(id_overflow()), last)
    } else {
        (Ok((last + 1) as i32), (last + 1) as i32)
    }
}

/// `field` under the ID `id`, with fresh IDs beneath it; and the counter afterwards.
pub open spec fn fresh_under(field: FieldView, id: i32, last: i32) -> (
    core::result::Result<FieldView, ErrorView>,
    i32,
)
    decreases field, 0nat,
{
    match fresh_type(field.field_type, last) {
        (Ok(field_type), last1) => (Ok(FieldView { id, field_type, ..field }), last1),
        (Err(error), last1) => (Err(error), last1),
    }
}

/// The fields from `i` on, under the IDs from `first + i` on, appended to `done`.
pub open spec fn fresh_siblings(
    fields: Seq<FieldView>,
    first: int,
    i: nat,
    done: Seq<FieldView>,
    last: i32,
) -> (core::result::Result<Seq<FieldView>, ErrorView>, i32)
    decreases fields, fields.len() - i,
{
    if i >= fields.len() {
        (Ok(done), last)
    } else {
        match fresh_under(fields[i as int], (first + i) as i32, last) {
            (Ok(field), last1) => fresh_siblings(fields, first, i + 1, done.push(field), last1),
            (Err(error), last1) => (Err(error), last1),
        }
    }
}

/// A type with fresh IDs, and the counter afterwards.
pub open spec fn fresh_type(t: TypeView, last: i32) -> (
    core::result::Result<TypeView, ErrorView>,
    i32,
)
    decreases t, 0nat,
{
    match t {
        TypeView::Primitive(_) | TypeView::Variant => (Ok(t), last),
        TypeView::Struct(fields) => if last + fields.len() > i32::MAX {
            (Err(id_overflow()), i32::MAX)
        } else {
            match fresh_siblings(fields, last + 1, 0, Seq::empty(), (last + fields.len()) as i32) {
                (Ok(fresh), last1) => (Ok(TypeView::Struct(fresh)), last1),
                (Err(error), last1) => (Err(error), last1),
            }
        },
        TypeView::List(element) => if last + 1 > i32::MAX {
            (Err(id_overflow()), i32::MAX)
        } else {
            match fresh_type(element.field_type, (last + 1) as i32) {
                (Ok(inner), last1) => (
                    Ok(
                        TypeView::List(
                            Box::new(
                                bare_field(
                                    (last + 1) as i32,
                                    element_name(),
                                    inner,
                                    element.required,
                                ),
                            ),
                        ),
                    ),
                    last1,
                ),
                (Err(error), last1) => (Err(error), last1),
            }
        },
        TypeView::MapOf(key, value) => if last + 2 > i32::MAX {
            (Err(id_overflow()), i32::MAX)
        } else {
            match fresh_type(key.field_type, (last + 2) as i32) {
                (Ok(key_type), last1) => match fresh_type(value.field_type, last1) {
                    (Ok(value_type), last2) => (
                        Ok(
                            TypeView::MapOf(
                                Box::new(
                                    bare_field((last + 1) as i32, key_name(), key_type, true),
                                ),
                                Box::new(
                                    bare_field(
                                        (last + 2) as i32,
                                        value_name(),
                                        value_type,
                                        value.required,
                                    ),
                                ),
                            ),
                        ),
                        last2,
                    ),
                    (Err(error), last2) => (Err(error), last2),
                },
                (Err(error), last1) => (Err(error), last1),
            }
        },
    }
}

/// A field with fresh IDs for itself and everything beneath it, and the counter afterwards.
pub open spec fn fresh_field(field: FieldView, last: i32) -> (
    core::result::Result<FieldView, ErrorView>,
    i32,
) {
    match next_id(last) {
        (Ok(id), last1) => fresh_under(field, id, last1),
        (Err(error), last1) => (Err(error), last1),
    }
}

/// Gives fresh IDs to a field and to everything beneath it.
///
/// The fields of collections lose whatever is not part of a collection: they get their
/// canonical names and have neither documentation nor defaults.
pub fn assign_fresh_ids(field: &NestedField, last_id: &mut i32) -> (result: Result<
    Arc<NestedField>,
    Error,
>)
    ensures
        outcome(result) == fresh_field(field@, *old(last_id)).0,
        *final(last_id) == fresh_field(field@, *old(last_id)).1,
{
    let id: i32 = match take_next_id(last_id) {
        Ok(id) => id,
        Err(error) => return Err(error),
    };
    rebuild_field(field, id, last_id)
}

fn assign_fresh_ids_to_type(field_type: &Type, last_id: &mut i32) -> (result: Result<Type, Error>)
    ensures
        outcome(result) == fresh_type(field_type@, *old(last_id)).0,
        *final(last_id) == fresh_type(field_type@, *old(last_id)).1,
    decreases field_type,
{
    broadcast use lemma_struct_view;

    match field_type {
        Type::Primitive(p) => Ok(Type::Primitive(*p)),
        Type::Variant(v) => Ok(Type::Variant(*v)),
        Type::Struct(struct_type) => {
            let ghost fields = fields_view(struct_type.fields@);
            let ghost start = *last_id;
            // Every sibling gets its ID before any child type does.
            let mut ids: Vec<i32> = Vec::new();
            while ids.len() < struct_type.fields.len()
                invariant
                    ids@.len() <= struct_type.fields@.len(),
                    *last_id == start + ids@.len(),
                    forall|j: int| 0 <= j < ids@.len() ==> ids@[j] == start + 1 + j,
                    field_type@ == TypeView::Struct(fields),
                    fields.len() == struct_type.fields@.len(),
                    start == *old(last_id),
                decreases struct_type.fields@.len() - ids@.len(),
            {
                match take_next_id(last_id) {
                    Ok(id) => ids.push(id),
                    Err(error) => return Err(error),
                }
            }
            let mut done: Vec<Arc<NestedField>> = Vec::new();
            let mut i: usize = 0;
            assert(fields_view(done@) =~= Seq::empty());
            while i < struct_type.fields.len()
                invariant
                    i <= struct_type.fields@.len(),
                    ids@.len() == struct_type.fields@.len(),
                    forall|j: int| 0 <= j < ids@.len() ==> ids@[j] == start + 1 + j,
                    fields == fields_view(struct_type.fields@),
                    field_type@ == TypeView::Struct(fields),
                    start == *old(last_id),
                    start + fields.len() <= i32::MAX,
                    decreases_to!(field_type => struct_type.fields),
                    fresh_siblings(fields, start + 1, i as nat, fields_view(done@), *last_id)
                        == fresh_siblings(
                        fields,
                        start + 1,
                        0,
                        Seq::empty(),
                        (start + fields.len()) as i32,
                    ),
                decreases struct_type.fields@.len() - i,
            {
                assert(decreases_to!(struct_type.fields => struct_type.fields@));
                assert(decreases_to!(struct_type.fields@ => struct_type.fields@[i as int]));
                let ghost before = done@;
                match rebuild_field(&struct_type.fields[i], ids[i], last_id) {
                    Ok(field) => done.push(field),
                    Err(error) => return Err(error),
                }
                assert(fields_view(done@) =~= fields_view(before).push(fields_view(done@).last()));
                i += 1;
            }
            Ok(Type::Struct(StructType::new(done)))
        },
        Type::List(list_type) => {
            let element_id: i32 = match take_next_id(last_id) {
                Ok(id) => id,
                Err(error) => return Err(error),
            };
            match assign_fresh_ids_to_type(&list_type.element_field.field_type, last_id) {
                Ok(element_type) => Ok(
                    Type::List(
                        ListType {
                            element_field: Arc::new(
                                NestedField::list_element(
                                    element_id,
                                    element_type,
                                    list_type.element_field.required,
                                ),
                            ),
                        },
                    ),
                ),
                Err(error) => Err(error),
            }
        },
        Type::MapOf(map_type) => {
            // Key and value are siblings: both get their IDs first.
            let key_id: i32 = match take_next_id(last_id) {
                Ok(id) => id,
                Err(error) => return Err(error),
            };
            let value_id: i32 = match take_next_id(last_id) {
                Ok(id) => id,
                Err(error) => return Err(error),
            };
            let key_type = match assign_fresh_ids_to_type(&map_type.key_field.field_type, last_id) {
                Ok(key_type) => key_type,
                Err(error) => return Err(error),
            };
            let value_type = match assign_fresh_ids_to_type(
                &map_type.value_field.field_type,
                last_id,
            ) {
                Ok(value_type) => value_type,
                Err(error) => return Err(error),
            };
            Ok(
                Type::MapOf(
                    MapType {
                        key_field: Arc::new(NestedField::map_key_element(key_id, key_type)),
                        value_field: Arc::new(
                            NestedField::map_value_element(
                                value_id,
                                value_type,
                                map_type.value_field.required,
                            ),
                        ),
                    },
                ),
            )
        },
    }
}

fn rebuild_field(field: &NestedField, id: i32, last_id: &mut i32) -> (result: Result<
    Arc<NestedField>,
    Error,
>)
    ensures
        outcome(result) == fresh_under(field@, id, *old(last_id)).0,
        *final(last_id) == fresh_under(field@, id, *old(last_id)).1,
    decreases field,
{
    let field_type = match assign_fresh_ids_to_type(&field.field_type, last_id) {
        Ok(field_type) => field_type,
        Err(error) => return Err(error),
    };
    let mut rebuilt = NestedField::new(id, field.name.as_str(), field_type, field.required);
    rebuilt.doc = copy_text(&field.doc);
    rebuilt.initial_default = copy_default(&field.initial_default);
    rebuilt.write_default = copy_default(&field.write_default);
    Ok(Arc::new(rebuilt))
}

fn take_next_id(last_id: &mut i32) -> (result: Result<i32, Error>)
    ensures
        outcome(result) == next_id(*old(last_id)).0,
        *final(last_id) == next_id(*old(last_id)).1,
{
    match last_id.checked_add(1) {
        Some(id) => {
            *last_id = id;
            Ok(id)
        },
        None => Err(data_invalid("Field ID overflowed, cannot add more fields")),
    }
}

/// How many IDs a type takes.
pub open spec fn type_size(t: TypeView) -> nat
    decreases t, 0nat,
{
    match t {
        TypeView::Primitive(_) | TypeView::Variant => 0,
        TypeView::Struct(fields) => fields_size(fields, fields.len()),
        TypeView::List(element) => 1 + type_size(element.field_type),
        TypeView::MapOf(key, value) => 2 + type_size(key.field_type) + type_size(value.field_type),
    }
}

/// How many IDs the first `n` of `fields` take, those beneath them counted.
pub open spec fn fields_size(fields: Seq<FieldView>, n: nat) -> nat
    decreases fields, n,
{
    if n == 0 || n > fields.len() {
        0
    } else {
        fields_size(fields, (n - 1) as nat) + 1 + type_size(fields[n - 1].field_type)
    }
}

/// How often the ID `id` occurs within a type.
pub open spec fn type_occurs(t: TypeView, id: int) -> nat
    decreases t, 0nat,
{
    match t {
        TypeView::Primitive(_) | TypeView::Variant => 0,
        TypeView::Struct(fields) => fields_occur(fields, fields.len(), id),
        TypeView::List(element) => field_occurs(*element, id),
        TypeView::MapOf(key, value) => field_occurs(*key, id) + field_occurs(*value, id),
    }
}

/// How often the ID `id` occurs in a field and beneath it.
pub open spec fn field_occurs(field: FieldView, id: int) -> nat
    decreases field, 0nat,
{
    (if field.id == id {
        1nat
    } else {
        0nat
    }) + type_occurs(field.field_type, id)
}

/// How often the ID `id` occurs in the first `n` of `fields` and beneath them.
pub open spec fn fields_occur(fields: Seq<FieldView>, n: nat, id: int) -> nat
    decreases fields, n,
{
    if n == 0 || n > fields.len() {
        0
    } else {
        fields_occur(fields, (n - 1) as nat, id) + field_occurs(fields[n - 1], id)
    }
}

/// Pushing a field leaves the occurrences before it as they were.
pub proof fn lemma_occur_push(done: Seq<FieldView>, field: FieldView, n: nat, id: int)
    requires
        n <= done.len(),
    ensures
        fields_occur(done.push(field), n, id) == fields_occur(done, n, id),
    decreases n,
{
    if n > 0 {
        lemma_occur_push(done, field, (n - 1) as nat, id);
        assert(done.push(field)[n - 1] == done[n - 1]);
    }
}

/// The bounds of one interval of integers, each counted once.
spec fn once_within(low: int, high: int, id: int) -> nat {
    if low < id <= high {
        1
    } else {
        0
    }
}

proof fn lemma_fresh_siblings(
    fields: Seq<FieldView>,
    first: int,
    i: nat,
    done: Seq<FieldView>,
    last: i32,
    id: int,
)
    requires
        i <= fields.len(),
        done.len() == i,
        i32::MIN < first,
        first + fields.len() - 1 <= last,
        fields_occur(done, i, id) == once_within(first - 1, first + i - 1, id) + once_within(
            first + fields.len() - 1,
            last as int,
            id,
        ),
    ensures
        ({
            let left = fields_size(fields, fields.len()) - fields_size(fields, i) - (fields.len()
                - i);
            match fresh_siblings(fields, first, i, done, last) {
                (Ok(fresh), last1) => {
                    &&& last1 == last + left
                    &&& fresh.len() == fields.len()
                    &&& fields_occur(fresh, fresh.len(), id) == once_within(
                        first - 1,
                        last1 as int,
                        id,
                    )
                },
                (Err(error), last1) => {
                    &&& last + left > i32::MAX
                    &&& last1 == i32::MAX
                    &&& error == id_overflow()
                },
            }
        }),
    decreases fields, fields.len() - i,
{
    if i < fields.len() {
        lemma_sizes_grow(fields, i + 1, fields.len());
        let field = fields[i as int];
        lemma_fresh_type(field.field_type, last, id);
        match fresh_under(field, (first + i) as i32, last) {
            (Ok(fresh), last1) => {
                lemma_occur_push(done, fresh, i, id);
                assert(done.push(fresh)[i as int] == fresh);
                assert(fresh.id == first + i);
                assert(fields_occur(done.push(fresh), i + 1, id) == fields_occur(done, i, id)
                    + field_occurs(fresh, id));
                lemma_fresh_siblings(fields, first, i + 1, done.push(fresh), last1, id);
            },
            (Err(_), _) => {},
        }
    }
}

/// A longer prefix of the fields takes at least one more ID per further field.
proof fn lemma_sizes_grow(fields: Seq<FieldView>, i: nat, n: nat)
    requires
        i <= n <= fields.len(),
    ensures
        fields_size(fields, n) >= fields_size(fields, i) + (n - i),
    decreases n,
{
    if i < n {
        lemma_sizes_grow(fields, i, (n - 1) as nat);
    }
}

proof fn lemma_fresh_type(t: TypeView, last: i32, id: int)
    ensures
        match fresh_type(t, last) {
            (Ok(fresh), last1) => {
                &&& last1 == last + type_size(t)
                &&& type_occurs(fresh, id) == once_within(last as int, last1 as int, id)
            },
            (Err(error), last1) => {
                &&& last + type_size(t) > i32::MAX
                &&& last1 == i32::MAX
                &&& error == id_overflow()
            },
        },
    decreases t, 0nat,
{
    match t {
        TypeView::Primitive(_) | TypeView::Variant => {},
        TypeView::Struct(fields) => {
            lemma_sizes_grow(fields, 0, fields.len());
            if last + fields.len() <= i32::MAX {
                lemma_fresh_siblings(
                    fields,
                    last + 1,
                    0,
                    Seq::empty(),
                    (last + fields.len()) as i32,
                    id,
                );
            }
        },
        TypeView::List(element) => {
            if last + 1 <= i32::MAX {
                lemma_fresh_type(element.field_type, (last + 1) as i32, id);
            }
        },
        TypeView::MapOf(key, value) => {
            if last + 2 <= i32::MAX {
                lemma_fresh_type(key.field_type, (last + 2) as i32, id);
                if let (Ok(_), last1) = fresh_type(key.field_type, (last + 2) as i32) {
                    lemma_fresh_type(value.field_type, last1, id);
                }
            }
        },
    }
}

/// Fresh IDs are the integers that follow the counter, each used exactly once.
///
/// After a success every ID from the one after the old counter up to the new counter occurs once
/// in the field or beneath it, and no other ID occurs.
pub proof fn law_fresh_ids_are_consecutive(field: FieldView, last: i32, id: int)
    ensures
        fresh_field(field, last) matches (Ok(fresh), last1) ==> field_occurs(fresh, id) == (if last
            < id <= last1 {
            1nat
        } else {
            0nat
        }),
{
    if last < i32::MAX {
        lemma_fresh_type(field.field_type, (last + 1) as i32, id);
    }
}

/// Fresh IDs can be had exactly where the counter does not run out, and it then grows by the
/// number of IDs that the field takes. Otherwise it is left at its maximum.
pub proof fn law_fresh_ids_run_out_only_at_the_end(field: FieldView, last: i32)
    ensures
        fresh_field(field, last).0 is Ok <==> last + 1 + type_size(field.field_type) <= i32::MAX,
        fresh_field(field, last).0 is Ok ==> fresh_field(field, last).1 == last + 1 + type_size(
            field.field_type,
        ),
        fresh_field(field, last).0 is Err ==> fresh_field(field, last) == (
            Err::<FieldView, ErrorView>(id_overflow()),
            i32::MAX,
        ),
{
    if last < i32::MAX {
        lemma_fresh_type(field.field_type, (last + 1) as i32, 0);
    }
}

proof fn lemma_sibling_ids(
    fields: Seq<FieldView>,
    first: int,
    i: nat,
    done: Seq<FieldView>,
    last: i32,
)
    requires
        fresh_siblings(fields, first, i, done, last).0 is Ok,
        done.len() == i,
        i <= fields.len(),
        i32::MIN <= first,
        first + fields.len() <= i32::MAX + 1,
        forall|j: int| 0 <= j < i ==> (#[trigger] done[j]).id == first + j,
    ensures
        ({
            let fresh = fresh_siblings(fields, first, i, done, last).0->Ok_0;
            &&& fresh.len() == fields.len()
            &&& forall|j: int| 0 <= j < fresh.len() ==> (#[trigger] fresh[j]).id == first + j
        }),
    decreases fields.len() - i,
{
    if i < fields.len() {
        let (own, last1) = fresh_under(fields[i as int], (first + i) as i32, last);
        lemma_sibling_ids(fields, first, i + 1, done.push(own->Ok_0), last1);
    }
}

/// IDs are taken in order, and siblings come before what lies beneath them: a field takes the next
/// ID, the columns of a struct the next ones in their order, the element of a list the next one, and
/// the key and the value of a map the next two.
pub proof fn law_siblings_take_their_ids_first(field: FieldView, t: TypeView, last: i32)
    ensures
        fresh_field(field, last).0 matches Ok(fresh) ==> fresh.id == last + 1,
        match (t, fresh_type(t, last).0) {
            (TypeView::Struct(fields), Ok(TypeView::Struct(fresh))) => {
                &&& fresh.len() == fields.len()
                &&& forall|j: int| 0 <= j < fresh.len() ==> (#[trigger] fresh[j]).id == last + 1 + j
            },
            (TypeView::List(_), Ok(TypeView::List(element))) => element.id == last + 1,
            (TypeView::MapOf(_, _), Ok(TypeView::MapOf(key, value))) => key.id == last + 1
                && value.id == last + 2,
            (TypeView::Primitive(_), Ok(same)) => same == t,
            (TypeView::Variant, Ok(same)) => same == t,
            (_, Ok(_)) => false,
            (_, Err(_)) => true,
        },
{
    if let TypeView::Struct(fields) = t {
        if last + fields.len() <= i32::MAX && fresh_type(t, last).0 is Ok {
            lemma_sibling_ids(
                fields,
                last + 1,
                0,
                Seq::empty(),
                (last + fields.len()) as i32,
            );
        }
    }
}

} // verus!
