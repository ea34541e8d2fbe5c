//! Walks over the field tree: who contains whom, and the tree after an update.

use std::collections::HashMap;
use std::sync::Arc;

use vstd::prelude::*;

use crate::changes::Changes;
#[allow(unused_imports)]
use crate::changes::{no_changes, ChangesView};
use crate::error::{precondition, unexpected, Error};
#[allow(unused_imports)]
use crate::error::{outcome, precondition_error, unexpected_error, ErrorView};
use crate::literal::copy_default;
use crate::moves::{apply_moves, moves_of, same_parent};
#[allow(unused_imports)]
use crate::moves::{all_moved, law_moves_keep_every_field, moves_within, PendingMove};
use crate::text::cat2;
use crate::types::{copy_text, share, ListType, MapType, NestedField, StructType, Type};
#[allow(unused_imports)]
use crate::types::{
    bare_field, element_name, fields_view, lemma_struct_view, type_view, value_name, FieldView,
    TypeView,
};

verus! {

broadcast use vstd::std_specs::hash::group_hash_axioms;

/// `parents`, extended by the enclosing field of each of `fields` from `i` on, where they have
/// one, and of all beneath them.
pub open spec fn parents_of_fields(
    fields: Seq<FieldView>,
    i: nat,
    parent: Option<i32>,
    parents: Map<i32, i32>,
) -> Map<i32, i32>
    decreases fields, fields.len() - i,
{
    if i >= fields.len() {
        parents
    } else {
        let field = fields[i as int];
        let own = match parent {
            Some(id) => parents.insert(field.id, id),
            None => parents,
        };
        parents_of_fields(
            fields,
            i + 1,
            parent,
            parents_of_type(field.field_type, field.id, own),
        )
    }
}

/// `parents`, extended by what lies within the type of the field `parent`.
pub open spec fn parents_of_type(t: TypeView, parent: i32, parents: Map<i32, i32>) -> Map<i32, i32>
    decreases t, 0nat,
{
    match t {
        TypeView::Primitive(_) | TypeView::Variant => parents,
        TypeView::Struct(fields) => parents_of_fields(fields, 0, Some(parent), parents),
        TypeView::List(element) => parents_of_type(
            element.field_type,
            element.id,
            parents.insert(element.id, parent),
        ),
        TypeView::MapOf(key, value) => parents_of_type(
            value.field_type,
            value.id,
            parents_of_type(
                key.field_type,
                key.id,
                parents.insert(key.id, parent).insert(value.id, parent),
            ),
        ),
    }
}

/// Records which field contains which.
pub fn index_parent_ids(
    fields: &Vec<Arc<NestedField>>,
    parent_id: Option<i32>,
    result: &mut HashMap<i32, i32>,
)
    ensures
        final(result)@ == parents_of_fields(fields_view(fields@), 0, parent_id, old(result)@),
    decreases fields,
{
    let ghost all = fields_view(fields@);
    let mut i: usize = 0;
    while i < fields.len()
        invariant
            i <= fields@.len(),
            all == fields_view(fields@),
            parents_of_fields(all, i as nat, parent_id, result@) == parents_of_fields(
                all,
                0,
                parent_id,
                old(result)@,
            ),
        decreases fields@.len() - i,
    {
        assert(decreases_to!(fields => fields@));
        assert(decreases_to!(fields@ => fields@[i as int]));
        let field = &fields[i];
        assert(all[i as int] == field@);
        match parent_id {
            Some(id) => {
                result.insert(field.id, id);
            },
            None => {},
        }
        index_type_parent_ids(&field.field_type, field.id, result);
        i += 1;
    }
}

fn index_type_parent_ids(field_type: &Type, parent_id: i32, result: &mut HashMap<i32, i32>)
    ensures
        final(result)@ == parents_of_type(field_type@, parent_id, old(result)@),
    decreases field_type,
{
    broadcast use lemma_struct_view;

    match field_type {
        Type::Struct(struct_type) => {
            assert(decreases_to!(field_type => struct_type.fields));
            index_parent_ids(&struct_type.fields, Some(parent_id), result);
        },
        Type::List(list_type) => {
            let element = &list_type.element_field;
            result.insert(element.id, parent_id);
            index_type_parent_ids(&element.field_type, element.id, result);
        },
        Type::MapOf(map_type) => {
            let key = &map_type.key_field;
            let value = &map_type.value_field;
            result.insert(key.id, parent_id);
            result.insert(value.id, parent_id);
            index_type_parent_ids(&key.field_type, key.id, result);
            index_type_parent_ids(&value.field_type, value.id, result);
        },
        Type::Primitive(_) | Type::Variant(_) => {},
    }
}

/// The field as the updates have it, or as it is where they do not touch it.
pub open spec fn pending_form(field: FieldView, changes: ChangesView) -> FieldView {
    if changes.updates.contains_key(field.id) {
        changes.updates[field.id]
    } else {
        field
    }
}

/// The fields of a struct after the changes: the rebuilt fields that are not deleted, then the
/// added ones, then all of them moved.
pub open spec fn rebuilt_fields(
    fields: Seq<FieldView>,
    changes: ChangesView,
    parent: Option<i32>,
) -> core::result::Result<Seq<FieldView>, ErrorView>
    decreases fields, fields.len() + 1,
{
    match rebuilt_from(fields, 0, changes, Seq::empty()) {
        Err(error) => Err(error),
        Ok(kept) => match with_added(changes, parent, 0, kept) {
            Err(error) => Err(error),
            Ok(all) => match all_moved(all, moves_within(changes.moves, parent, 0, Seq::empty()), 0) {
                (moved, Ok(_)) => Ok(moved),
                (_, Err(error)) => Err(error),
            },
        },
    }
}

/// The fields from `i` on, rebuilt, without those that are deleted, after those in `done`.
pub open spec fn rebuilt_from(
    fields: Seq<FieldView>,
    i: nat,
    changes: ChangesView,
    done: Seq<FieldView>,
) -> core::result::Result<Seq<FieldView>, ErrorView>
    decreases fields, fields.len() - i,
{
    if i >= fields.len() {
        Ok(done)
    } else {
        match rebuilt_field(fields[i as int], changes) {
            Err(error) => Err(error),
            Ok(field) => rebuilt_from(
                fields,
                i + 1,
                changes,
                if changes.deletes.contains(fields[i as int].id) {
                    done
                } else {
                    done.push(field)
                },
            ),
        }
    }
}

/// `done`, and after it the fields that are added to `parent` from the addition `i` on.
pub open spec fn with_added(
    changes: ChangesView,
    parent: Option<i32>,
    i: nat,
    done: Seq<FieldView>,
) -> core::result::Result<Seq<FieldView>, ErrorView>
    decreases changes.additions.len() - i,
{
    if i >= changes.additions.len() {
        Ok(done)
    } else if changes.additions[i as int].0 != parent {
        with_added(changes, parent, i + 1, done)
    } else if changes.updates.contains_key(changes.additions[i as int].1) {
        with_added(
            changes,
            parent,
            i + 1,
            done.push(changes.updates[changes.additions[i as int].1]),
        )
    } else {
        Err(unexpected_error("Added column is missing its field"@))
    }
}

/// A field after the changes. Neither the element of a list nor the key or the value of a map can
/// be deleted, and nothing about a map's key can change: not even a move that would leave its
/// fields in place is accepted there.
pub open spec fn rebuilt_field(field: FieldView, changes: ChangesView) -> core::result::Result<
    FieldView,
    ErrorView,
>
    decreases field, 0nat,
{
    let pending = pending_form(field, changes);
    match field.field_type {
        TypeView::Primitive(_) | TypeView::Variant => Ok(pending),
        TypeView::Struct(fields) => match rebuilt_fields(fields, changes, Some(field.id)) {
            Err(error) => Err(error),
            Ok(rebuilt) => Ok(FieldView { field_type: TypeView::Struct(rebuilt), ..pending }),
        },
        TypeView::List(element) => if changes.deletes.contains(element.id) {
            Err(precondition_error("Cannot delete element type from list: "@ + field.name))
        } else {
            match rebuilt_field(*element, changes) {
                Err(error) => Err(error),
                Ok(inner) => Ok(
                    FieldView {
                        field_type: TypeView::List(
                            Box::new(
                                bare_field(
                                    inner.id,
                                    element_name(),
                                    inner.field_type,
                                    inner.required,
                                ),
                            ),
                        ),
                        ..pending
                    },
                ),
            }
        },
        TypeView::MapOf(key, value) => if changes.deletes.contains(key.id) {
            Err(precondition_error("Cannot delete map keys: "@ + field.name))
        } else if changes.updates.contains_key(key.id) {
            Err(precondition_error("Cannot update map keys: "@ + field.name))
        } else if changes.adds_to(Some(key.id)) {
            Err(precondition_error("Cannot add fields to map keys: "@ + field.name))
        } else if changes.moves_in(Some(key.id)) {
            Err(precondition_error("Cannot alter map keys: "@ + field.name))
        } else {
            match rebuilt_field(*key, changes) {
                Err(error) => Err(error),
                Ok(new_key) => if new_key != *key {
                    Err(precondition_error("Cannot alter map keys: "@ + field.name))
                } else if changes.deletes.contains(value.id) {
                    Err(precondition_error("Cannot delete value type from map: "@ + field.name))
                } else {
                    match rebuilt_field(*value, changes) {
                        Err(error) => Err(error),
                        Ok(inner) => Ok(
                            FieldView {
                                field_type: TypeView::MapOf(
                                    key,
                                    Box::new(
                                        bare_field(
                                            inner.id,
                                            value_name(),
                                            inner.field_type,
                                            inner.required,
                                        ),
                                    ),
                                ),
                                ..pending
                            },
                        ),
                    }
                },
            }
        },
    }
}

/// A list of shared fields as the result of a fallible step.
pub open spec fn fields_outcome(result: Result<Vec<Arc<NestedField>>, Error>) -> core::result::Result<
    Seq<FieldView>,
    ErrorView,
> {
    match result {
        Ok(fields) => Ok(fields_view(fields@)),
        Err(error) => Err(error@),
    }
}

/// The fields of a struct after the changes.
pub fn rebuild_fields(
    fields: &Vec<Arc<NestedField>>,
    changes: &Changes,
    parent_id: Option<i32>,
) -> (result: Result<Vec<Arc<NestedField>>, Error>)
    ensures
        fields_outcome(result) == rebuilt_fields(fields_view(fields@), changes@, parent_id),
    decreases fields,
{
    let ghost all = fields_view(fields@);
    let ghost view = changes@;
    let mut rebuilt: Vec<Arc<NestedField>> = Vec::new();
    let mut i: usize = 0;
    assert(fields_view(rebuilt@) =~= Seq::empty());
    while i < fields.len()
        invariant
            i <= fields@.len(),
            all == fields_view(fields@),
            view == changes@,
            rebuilt_from(all, i as nat, view, fields_view(rebuilt@)) == rebuilt_from(
                all,
                0,
                view,
                Seq::empty(),
            ),
        decreases fields@.len() - i,
    {
        assert(decreases_to!(fields => fields@));
        assert(decreases_to!(fields@ => fields@[i as int]));
        let field = &fields[i];
        assert(all[i as int] == field@);
        let rebuilt_field = match rebuild_field(field, changes) {
            Ok(rebuilt_field) => rebuilt_field,
            Err(error) => return Err(error),
        };
        if !changes.deletes(field.id) {
            let ghost before = fields_view(rebuilt@);
            rebuilt.push(rebuilt_field);
            assert(fields_view(rebuilt@) =~= before.push(rebuilt_field@));
        }
        i += 1;
    }
    let ghost kept = fields_view(rebuilt@);
    let mut j: usize = 0;
    while j < changes.additions.len()
        invariant
            j <= changes.additions@.len(),
            view == changes@,
            rebuilt_from(all, 0, view, Seq::empty()) == Ok::<Seq<FieldView>, ErrorView>(kept),
            all == fields_view(fields@),
            with_added(view, parent_id, j as nat, fields_view(rebuilt@)) == with_added(
                view,
                parent_id,
                0,
                kept,
            ),
        decreases changes.additions@.len() - j,
    {
        if same_parent(changes.additions[j].0, parent_id) {
            match changes.updates.get(changes.additions[j].1) {
                Some(field) => {
                    let ghost before = fields_view(rebuilt@);
                    rebuilt.push(share(field));
                    assert(fields_view(rebuilt@) =~= before.push(field@));
                },
                None => {
                    return Err(unexpected("Added column is missing its field".to_owned()));
                },
            }
        }
        j += 1;
    }
    let moves = moves_of(&changes.moves, parent_id);
    match apply_moves(&mut rebuilt, &moves) {
        Ok(_) => Ok(rebuilt),
        Err(error) => Err(error),
    }
}

/// A field with another type and everything else as in `field`.
fn with_type(field: &NestedField, field_type: Type) -> (result: Arc<NestedField>)
    ensures
        result@ == (FieldView { field_type: field_type@, ..field@ }),
{
    Arc::new(
        NestedField {
            id: field.id,
            name: field.name.clone(),
            required: field.required,
            field_type: Box::new(field_type),
            doc: copy_text(&field.doc),
            initial_default: copy_default(&field.initial_default),
            write_default: copy_default(&field.write_default),
        },
    )
}

fn rebuild_field(field: &Arc<NestedField>, changes: &Changes) -> (result: Result<
    Arc<NestedField>,
    Error,
>)
    ensures
        outcome(result) == rebuilt_field(field@, changes@),
    decreases field,
{
    broadcast use lemma_struct_view;

    let pending = match changes.updates.get(field.id) {
        Some(update) => share(update),
        None => share(field),
    };
    assert(pending@ == pending_form(field@, changes@));
    match &*field.field_type {
        Type::Primitive(_) | Type::Variant(_) => Ok(pending),
        Type::Struct(struct_type) => {
            assert(decreases_to!(field => struct_type.fields));
            match rebuild_fields(&struct_type.fields, changes, Some(field.id)) {
                Ok(fields) => Ok(with_type(&pending, Type::Struct(StructType::new(fields)))),
                Err(error) => Err(error),
            }
        },
        Type::List(list_type) => {
            let element = &list_type.element_field;
            assert(field@.field_type == type_view(*field.field_type));
            assert(field@.field_type == TypeView::List(Box::new(element@)));
            if changes.deletes(element.id) {
                return Err(
                    precondition(
                        cat2("Cannot delete element type from list: ", field.name.as_str()),
                    ),
                );
            }
            match rebuild_field(element, changes) {
                Ok(inner) => {
                    let element_field = Arc::new(
                        NestedField::list_element(
                            inner.id,
                            inner.field_type.copy(),
                            inner.required,
                        ),
                    );
                    Ok(with_type(&pending, Type::List(ListType { element_field })))
                },
                Err(error) => Err(error),
            }
        },
        Type::MapOf(map_type) => {
            let key = &map_type.key_field;
            let value = &map_type.value_field;
            let name = field.name.as_str();
            assert(field@.field_type == type_view(*field.field_type));
            assert(field@.field_type == TypeView::MapOf(Box::new(key@), Box::new(value@)));
            if changes.deletes(key.id) {
                return Err(precondition(cat2("Cannot delete map keys: ", name)));
            }
            if changes.updates.contains(key.id) {
                return Err(precondition(cat2("Cannot update map keys: ", name)));
            }
            if changes.adds_to(Some(key.id)) {
                return Err(precondition(cat2("Cannot add fields to map keys: ", name)));
            }
            if changes.moves_in(Some(key.id)) {
                return Err(precondition(cat2("Cannot alter map keys: ", name)));
            }
            let new_key = match rebuild_field(key, changes) {
                Ok(new_key) => new_key,
                Err(error) => return Err(error),
            };
            if !new_key.same(key) {
                return Err(precondition(cat2("Cannot alter map keys: ", name)));
            }
            if changes.deletes(value.id) {
                return Err(precondition(cat2("Cannot delete value type from map: ", name)));
            }
            match rebuild_field(value, changes) {
                Ok(inner) => {
                    let value_field = Arc::new(
                        NestedField::map_value_element(
                            inner.id,
                            inner.field_type.copy(),
                            inner.required,
                        ),
                    );
                    Ok(
                        with_type(
                            &pending,
                            Type::MapOf(MapType { key_field: share(key), value_field }),
                        ),
                    )
                },
                Err(error) => Err(error),
            }
        },
    }
}

/// Whether the fields of all collections within a type are in canonical form.
pub open spec fn canonical_type(t: TypeView) -> bool
    decreases t,
{
    match t {
        TypeView::Primitive(_) | TypeView::Variant => true,
        TypeView::Struct(fields) => forall|i: int|
            0 <= i < fields.len() ==> canonical_type((#[trigger] fields[i]).field_type),
        TypeView::List(element) => {
            &&& *element == bare_field(
                element.id,
                element_name(),
                element.field_type,
                element.required,
            )
            &&& canonical_type(element.field_type)
        },
        TypeView::MapOf(key, value) => {
            &&& *value == bare_field(value.id, value_name(), value.field_type, value.required)
            &&& canonical_type(key.field_type)
            &&& canonical_type(value.field_type)
        },
    }
}

/// Whether every update stands under the ID of its field.
pub open spec fn well_keyed(updates: Map<i32, FieldView>) -> bool {
    forall|id: i32| #[trigger] updates.contains_key(id) ==> updates[id].id == id
}

proof fn lemma_no_changes_from(fields: Seq<FieldView>, i: nat)
    requires
        i <= fields.len(),
        canonical_type(TypeView::Struct(fields)),
    ensures
        rebuilt_from(fields, i, no_changes(), fields.take(i as int)) == Ok::<
            Seq<FieldView>,
            ErrorView,
        >(fields),
    decreases fields, fields.len() - i,
{
    if i < fields.len() {
        lemma_no_changes_to_field(fields[i as int]);
        assert(fields.take(i as int).push(fields[i as int]) =~= fields.take((i + 1) as int));
        lemma_no_changes_from(fields, i + 1);
    } else {
        assert(fields.take(i as int) =~= fields);
    }
}

proof fn lemma_no_changes_to_field(field: FieldView)
    requires
        canonical_type(field.field_type),
    ensures
        rebuilt_field(field, no_changes()) == Ok::<FieldView, ErrorView>(field),
    decreases field, 0nat,
{
    match field.field_type {
        TypeView::Primitive(_) | TypeView::Variant => {},
        TypeView::Struct(fields) => {
            law_no_changes_rebuild_the_same_fields(fields, Some(field.id));
        },
        TypeView::List(element) => {
            lemma_no_changes_to_field(*element);
        },
        TypeView::MapOf(key, value) => {
            lemma_no_changes_to_field(*key);
            lemma_no_changes_to_field(*value);
        },
    }
}

/// Without changes the fields stay as they are, where the fields of collections are in canonical
/// form.
pub proof fn law_no_changes_rebuild_the_same_fields(fields: Seq<FieldView>, parent: Option<i32>)
    requires
        canonical_type(TypeView::Struct(fields)),
    ensures
        rebuilt_fields(fields, no_changes(), parent) == Ok::<Seq<FieldView>, ErrorView>(fields),
    decreases fields, fields.len() + 1,
{
    assert(fields.take(0) =~= Seq::empty());
    lemma_no_changes_from(fields, 0);
    assert(with_added(no_changes(), parent, 0, fields) == Ok::<Seq<FieldView>, ErrorView>(fields));
    assert(moves_within(no_changes().moves, parent, 0, Seq::empty()) == Seq::<
        PendingMove,
    >::empty());
}

/// A field keeps its ID and the keys of its map through every update that succeeds, and its type
/// stays a struct, a list or a map where it was one.
pub proof fn law_rebuilt_field_keeps_id_and_shape(field: FieldView, changes: ChangesView)
    requires
        well_keyed(changes.updates),
        rebuilt_field(field, changes) is Ok,
    ensures
        ({
            let rebuilt = rebuilt_field(field, changes)->Ok_0;
            &&& rebuilt.id == field.id
            &&& field.field_type is Struct ==> rebuilt.field_type is Struct
            &&& field.field_type is List ==> rebuilt.field_type is List
            &&& field.field_type matches TypeView::MapOf(key, _) ==> (rebuilt.field_type matches TypeView::MapOf(
            new_key,
            _) && new_key == key)
        }),
{
}

/// No field that is to be deleted is among those that a rebuilt struct keeps.
pub proof fn law_deleted_fields_are_gone(
    fields: Seq<FieldView>,
    i: nat,
    changes: ChangesView,
    done: Seq<FieldView>,
)
    requires
        well_keyed(changes.updates),
        rebuilt_from(fields, i, changes, done) is Ok,
        forall|j: int| 0 <= j < done.len() ==> !changes.deletes.contains((#[trigger] done[j]).id),
    ensures
        ({
            let kept = rebuilt_from(fields, i, changes, done)->Ok_0;
            forall|j: int|
                0 <= j < kept.len() ==> !changes.deletes.contains((#[trigger] kept[j]).id)
        }),
    decreases fields.len() - i,
{
    if i < fields.len() {
        law_rebuilt_field_keeps_id_and_shape(fields[i as int], changes);
        let field = rebuilt_field(fields[i as int], changes)->Ok_0;
        if changes.deletes.contains(fields[i as int].id) {
            law_deleted_fields_are_gone(fields, i + 1, changes, done);
        } else {
            law_deleted_fields_are_gone(fields, i + 1, changes, done.push(field));
        }
    }
}

/// What is known of enclosing fields stays finite.
pub proof fn lemma_parents_are_finite(
    fields: Seq<FieldView>,
    i: nat,
    parent: Option<i32>,
    parents: Map<i32, i32>,
)
    requires
        parents.dom().finite(),
    ensures
        parents_of_fields(fields, i, parent, parents).dom().finite(),
    decreases fields, fields.len() - i,
{
    if i < fields.len() {
        let field = fields[i as int];
        let own = match parent {
            Some(id) => parents.insert(field.id, id),
            None => parents,
        };
        lemma_parents_of_type_are_finite(field.field_type, field.id, own);
        lemma_parents_are_finite(
            fields,
            i + 1,
            parent,
            parents_of_type(field.field_type, field.id, own),
        );
    }
}

proof fn lemma_parents_of_type_are_finite(t: TypeView, parent: i32, parents: Map<i32, i32>)
    requires
        parents.dom().finite(),
    ensures
        parents_of_type(t, parent, parents).dom().finite(),
    decreases t, 0nat,
{
    match t {
        TypeView::Primitive(_) | TypeView::Variant => {},
        TypeView::Struct(fields) => lemma_parents_are_finite(fields, 0, Some(parent), parents),
        TypeView::List(element) => lemma_parents_of_type_are_finite(
            element.field_type,
            element.id,
            parents.insert(element.id, parent),
        ),
        TypeView::MapOf(key, value) => {
            let both = parents.insert(key.id, parent).insert(value.id, parent);
            lemma_parents_of_type_are_finite(key.field_type, key.id, both);
            lemma_parents_of_type_are_finite(
                value.field_type,
                value.id,
                parents_of_type(key.field_type, key.id, both),
            );
        },
    }
}

/// The IDs of the fields from `i` on that are not deleted, after those in `done`.
pub open spec fn kept_ids(
    fields: Seq<FieldView>,
    deletes: Set<i32>,
    i: nat,
    done: Seq<i32>,
) -> Seq<i32>
    decreases fields.len() - i,
{
    if i >= fields.len() {
        done
    } else if deletes.contains(fields[i as int].id) {
        kept_ids(fields, deletes, i + 1, done)
    } else {
        kept_ids(fields, deletes, i + 1, done.push(fields[i as int].id))
    }
}

/// `done`, and after it the IDs that are added to `parent` from the addition `i` on.
pub open spec fn added_ids(
    additions: Seq<(Option<i32>, i32)>,
    parent: Option<i32>,
    i: nat,
    done: Seq<i32>,
) -> Seq<i32>
    decreases additions.len() - i,
{
    if i >= additions.len() {
        done
    } else if additions[i as int].0 == parent {
        added_ids(additions, parent, i + 1, done.push(additions[i as int].1))
    } else {
        added_ids(additions, parent, i + 1, done)
    }
}

/// The IDs of fields.
pub open spec fn ids_of(fields: Seq<FieldView>) -> Seq<i32> {
    fields.map_values(|field: FieldView| field.id)
}

proof fn lemma_kept_ids(
    fields: Seq<FieldView>,
    i: nat,
    changes: ChangesView,
    done: Seq<FieldView>,
)
    requires
        well_keyed(changes.updates),
        rebuilt_from(fields, i, changes, done) is Ok,
    ensures
        ids_of(rebuilt_from(fields, i, changes, done)->Ok_0) == kept_ids(
            fields,
            changes.deletes,
            i,
            ids_of(done),
        ),
    decreases fields.len() - i,
{
    if i < fields.len() {
        law_rebuilt_field_keeps_id_and_shape(fields[i as int], changes);
        let field = rebuilt_field(fields[i as int], changes)->Ok_0;
        if changes.deletes.contains(fields[i as int].id) {
            lemma_kept_ids(fields, i + 1, changes, done);
        } else {
            assert(ids_of(done.push(field)) =~= ids_of(done).push(field.id));
            lemma_kept_ids(fields, i + 1, changes, done.push(field));
        }
    }
}

proof fn lemma_added_ids(changes: ChangesView, parent: Option<i32>, i: nat, done: Seq<FieldView>)
    requires
        well_keyed(changes.updates),
        with_added(changes, parent, i, done) is Ok,
    ensures
        ids_of(with_added(changes, parent, i, done)->Ok_0) == added_ids(
            changes.additions,
            parent,
            i,
            ids_of(done),
        ),
    decreases changes.additions.len() - i,
{
    if i < changes.additions.len() {
        let (to, id) = changes.additions[i as int];
        if to == parent {
            let field = changes.updates[id];
            assert(ids_of(done.push(field)) =~= ids_of(done).push(id));
            lemma_added_ids(changes, parent, i + 1, done.push(field));
        } else {
            lemma_added_ids(changes, parent, i + 1, done);
        }
    }
}

proof fn lemma_no_moves_within(moves: Seq<(Option<i32>, PendingMove)>, parent: Option<i32>, i: nat)
    requires
        forall|j: int| 0 <= j < moves.len() ==> (#[trigger] moves[j]).0 != parent,
    ensures
        moves_within(moves, parent, i, Seq::empty()) == Seq::<PendingMove>::empty(),
    decreases moves.len() - i,
{
    if i < moves.len() {
        lemma_no_moves_within(moves, parent, i + 1);
    }
}

/// A rebuilt struct holds the fields that are not deleted, in their order, and after them the added
/// ones, in the order in which they were added. Moves are all that can alter this order, and they
/// add and drop nothing.
pub proof fn law_rebuilt_struct_keeps_the_order(
    fields: Seq<FieldView>,
    changes: ChangesView,
    parent: Option<i32>,
)
    requires
        well_keyed(changes.updates),
        rebuilt_fields(fields, changes, parent) is Ok,
    ensures
        ({
            let rebuilt = ids_of(rebuilt_fields(fields, changes, parent)->Ok_0);
            let expected = added_ids(
                changes.additions,
                parent,
                0,
                kept_ids(fields, changes.deletes, 0, Seq::empty()),
            );
            &&& !changes.moves_in(parent) ==> rebuilt == expected
            &&& rebuilt.to_multiset() == expected.to_multiset()
        }),
{
    let kept = rebuilt_from(fields, 0, changes, Seq::empty())->Ok_0;
    let all = with_added(changes, parent, 0, kept)->Ok_0;
    let moves = moves_within(changes.moves, parent, 0, Seq::empty());
    assert(ids_of(Seq::empty()) =~= Seq::empty());
    lemma_kept_ids(fields, 0, changes, Seq::empty());
    lemma_added_ids(changes, parent, 0, kept);
    law_moves_keep_every_field(all, moves, 0);
    let moved = all_moved(all, moves, 0).0;
    lemma_same_ids(all, moved);
    if !changes.moves_in(parent) {
        lemma_no_moves_within(changes.moves, parent, 0);
    }
}

/// Lists of the same fields hold the same IDs.
proof fn lemma_same_ids(a: Seq<FieldView>, b: Seq<FieldView>)
    requires
        a.to_multiset() == b.to_multiset(),
    ensures
        ids_of(a).to_multiset() == ids_of(b).to_multiset(),
    decreases a.len(),
{
    broadcast use vstd::seq_lib::group_to_multiset_ensures;

    if a.len() == 0 {
        vstd::seq_lib::to_multiset_len(a);
        vstd::seq_lib::to_multiset_len(b);
        assert(ids_of(a) =~= ids_of(b));
    } else {
        let field = a.last();
        assert(a.to_multiset().count(field) > 0) by {
            assert(a.contains(field));
        }
        assert(b.contains(field));
        let at = choose|at: int| 0 <= at < b.len() && b[at] == field;
        let a1 = a.drop_last();
        let b1 = b.remove(at);
        assert(a =~= a1.push(field));
        vstd::seq_lib::to_multiset_remove(b, at);
        assert(a1.to_multiset() =~= b1.to_multiset());
        lemma_same_ids(a1, b1);
        assert(ids_of(a) =~= ids_of(a1).push(field.id));
        assert(ids_of(b).remove(at) =~= ids_of(b1));
        vstd::seq_lib::to_multiset_remove(ids_of(b), at);
        assert(ids_of(b).contains(field.id)) by {
            assert(ids_of(b)[at] == field.id);
        }
        assert(ids_of(a).to_multiset() =~= ids_of(b).to_multiset());
    }
}

} // verus!
