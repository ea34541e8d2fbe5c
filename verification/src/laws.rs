//! What holds of every schema update.

use vstd::prelude::*;

#[allow(unused_imports)]
use crate::action::{AddView, OperationView};
#[allow(unused_imports)]
use crate::changes::{no_changes, ChangesView};
#[allow(unused_imports)]
use crate::column_properties::lemma_properties_stay;
#[allow(unused_imports)]
use crate::commit::{
    all_property_changes, mapping_property, metadata_changes, planned_commit, property_value,
    TableView,
};
#[allow(unused_imports)]
use crate::defaults::coerced_field;
#[allow(unused_imports)]
use crate::error::ErrorView;
#[allow(unused_imports)]
use crate::fresh_ids::{
    fresh_field, law_fresh_ids_are_consecutive, law_fresh_ids_run_out_only_at_the_end, type_occurs,
};
#[allow(unused_imports)]
use crate::mapping_json::read_mapping;
#[allow(unused_imports)]
use crate::moves::PositionView;
#[allow(unused_imports)]
use crate::name_mapping::{
    law_mappings_stay_without_changes, lists_names_once, validated_mapping,
};
#[allow(unused_imports)]
use crate::pending::{
    add_checked, add_column, applied, built_schema, deletion_problem, delete_column,
    enclosing_problem, first_deletion_problem, initial_state, known_identifiers, move_column,
    new_field, set_identifier_fields, updated_identifiers, value_of, PendingView,
};
#[allow(unused_imports)]
use crate::replay::{operated, replayed};
#[allow(unused_imports)]
use crate::schema::{
    checked_schema, distinct_ids, first_problem, identifier_problem, lemma_by_name,
    lemma_fields_have_names, same_ids,
    EntryView, SchemaView,
};
#[allow(unused_imports)]
use crate::tree::{
    canonical_type, law_no_changes_rebuild_the_same_fields, lemma_parents_are_finite, pending_form,
    well_keyed,
};
#[allow(unused_imports)]
use crate::type_promotion::promotes;
#[allow(unused_imports)]
use crate::types::{FieldView, TypeView};
#[allow(unused_imports)]
use crate::union::{
    matching_field, merge_default, merge_doc, merge_field, merge_nullability, merge_type,
    missing_column, union_beneath, union_field, union_here, union_schema, union_structs,
};
#[allow(unused_imports)]
use crate::unique_ids::{
    addition_occurs, distinct_field_ids, is_among, is_at, is_flat, lemma_among_prefix,
    lemma_coerced_field_occurs, lemma_nodes_are_fields, lemma_one_field_per_id,
    lemma_rebuilt_ids_are_distinct, reach_of, spread, stays_flat,
};
#[allow(unused_imports)]
use crate::unique_names::{law_siblings_have_different_names, names_differ, names_differ_within};

verus! {

proof fn lemma_replayed_tail(
    p: PendingView,
    a: Seq<OperationView>,
    i: nat,
    b: Seq<OperationView>,
    j: nat,
)
    requires
        i <= a.len(),
        a.len() - i == b.len() - j,
        forall|k: int| i <= k < a.len() ==> #[trigger] a[k] == b[k - i + j],
    ensures
        replayed(p, a, i) == replayed(p, b, j),
    decreases a.len() - i,
{
    if i < a.len() {
        assert(a[i as int] == b[j as int]);
        let (p1, _) = operated(p, a[i as int]);
        lemma_replayed_tail(p1, a, i + 1, b, j + 1);
    }
}

proof fn lemma_replay_of_both(
    p: PendingView,
    first: Seq<OperationView>,
    second: Seq<OperationView>,
    i: nat,
)
    requires
        i <= first.len(),
    ensures
        replayed(p, first + second, i) == match replayed(p, first, i) {
            (p1, Err(error)) => (p1, Err(error)),
            (p1, Ok(_)) => replayed(p1, second, 0),
        },
    decreases first.len() - i,
{
    if i < first.len() {
        assert((first + second)[i as int] == first[i as int]);
        let (p1, _) = operated(p, first[i as int]);
        lemma_replay_of_both(p1, first, second, i + 1);
    } else {
        lemma_replayed_tail(p, first + second, i, second, 0);
    }
}

/// Operations take effect in the order in which they were recorded: to replay one list and then
/// another is to replay them joined. What comes later, a change of case sensitivity among it,
/// has no influence on what came before.
pub proof fn law_operations_run_in_order(
    p: PendingView,
    first: Seq<OperationView>,
    second: Seq<OperationView>,
)
    ensures
        replayed(p, first + second, 0) == match replayed(p, first, 0) {
            (p1, Err(error)) => (p1, Err(error)),
            (p1, Ok(_)) => replayed(p1, second, 0),
        },
{
    lemma_replay_of_both(p, first, second, 0);
}

/// Whether no field of a schema has an ID above `last`.
pub open spec fn ids_up_to(schema: SchemaView, last: i32) -> bool {
    forall|field: FieldView| #[trigger] schema.has_field(field) ==> field.id <= last
}

/// What holds of the state of an update of a schema whose highest ID is `first` or less:
/// - what encloses what is known of finitely many fields;
/// - updates stand under the IDs of their fields;
/// - a column that is to be deleted is one of the schema, and is neither updated nor added to;
/// - the added columns have new IDs, in increasing order, and all have their fields.
pub open spec fn sound(p: PendingView, first: i32) -> bool {
    &&& ids_up_to(p.schema, first)
    &&& first <= p.last_column_id
    &&& p.parents.dom().finite()
    &&& well_keyed(p.changes.updates)
    &&& forall|id: i32| #[trigger]
        p.changes.deletes.contains(id) ==> {
            &&& id <= first
            &&& !p.changes.updates.contains_key(id)
            &&& !p.changes.adds_to(Some(id))
        }
    &&& forall|i: int|
        0 <= i < p.changes.additions.len() ==> {
            &&& first < (#[trigger] p.changes.additions[i]).1 <= p.last_column_id
            &&& p.changes.updates.contains_key(p.changes.additions[i].1)
        }
    &&& forall|i: int, j: int|
        0 <= i < j < p.changes.additions.len() ==> (#[trigger] p.changes.additions[i]).1 < (
        #[trigger] p.changes.additions[j]).1
}

proof fn lemma_resolved(p: PendingView, name: Seq<char>)
    ensures
        p.resolve(name) matches Ok(Some(field)) ==> p.schema.has_field(field),
{
    lemma_by_name(p.schema, name);
}

/// The field that an update starts from stands under its own ID, and is one of the schema, or one
/// that was updated before.
proof fn lemma_for_update(p: PendingView, name: Seq<char>)
    requires
        well_keyed(p.changes.updates),
    ensures
        p.for_update(name) matches Ok(Some(field)) ==> {
            ||| p.changes.updates.contains_key(field.id) && p.changes.updates[field.id] == field
            ||| !p.changes.updates.contains_key(field.id) && p.schema.has_field(field)
        },
{
    lemma_resolved(p, name);
}

pub proof fn lemma_update_is_sound(p: PendingView, first: i32, id: i32, field: FieldView)
    requires
        sound(p, first),
        field.id == id,
        !p.changes.deletes.contains(id),
    ensures
        sound(p.with_update(id, field), first),
{
    let q = p.with_update(id, field);
    assert forall|other: i32| #[trigger] q.changes.deletes.contains(other) implies {
        &&& other <= first
        &&& !q.changes.updates.contains_key(other)
        &&& !q.changes.adds_to(Some(other))
    } by {
        assert(p.changes.deletes.contains(other));
    }
}

proof fn lemma_added(p: PendingView, add: AddView)
    ensures
        add_checked(p, add) matches Ok((Some(parent), _)) ==> !p.changes.deletes.contains(parent),
        add_column(p, add) matches (q, Ok(_)) ==> {
            let id = (p.last_column_id + 1) as i32;
            &&& p.last_column_id < q.last_column_id
            &&& p.last_column_id + 1 <= i32::MAX
            &&& q.changes.updates.contains_key(id)
            &&& q.changes.updates[id].id == id
            &&& q.changes.updates[id].name == add.name
            &&& q.changes.updates[id].required == add.required
            &&& q.changes.updates[id].doc == add.doc
            &&& q.changes == (ChangesView {
                updates: p.changes.updates.insert(id, q.changes.updates[id]),
                additions: p.changes.additions.push((add_checked(p, add)->Ok_0.0, id)),
                ..p.changes
            })
        },
        p.parents.dom().finite() ==> add_column(p, add).0.parents.dom().finite(),
        add_column(p, add) matches (q, Err(_)) ==> {
            &&& q == (PendingView { last_column_id: q.last_column_id, ..p })
            &&& p.last_column_id <= q.last_column_id
        },
{
    law_fresh_ids_run_out_only_at_the_end(new_field(add), p.last_column_id);
    let (q, outcome) = add_column(p, add);
    if outcome is Ok && p.parents.dom().finite() {
        let (parent, _) = add_checked(p, add)->Ok_0;
        let id = (p.last_column_id + 1) as i32;
        lemma_parents_are_finite(seq![q.changes.updates[id]], 0, parent, p.parents);
    }
}

pub proof fn lemma_add_is_sound(p: PendingView, first: i32, add: AddView)
    requires
        sound(p, first),
    ensures
        sound(add_column(p, add).0, first),
{
    lemma_added(p, add);
    let (q, outcome) = add_column(p, add);
    let n = p.changes.additions.len() as int;
    if outcome is Ok {
        let parent = add_checked(p, add)->Ok_0.0;
        assert(q.changes.additions[n].0 == parent);
        assert forall|other: i32| #[trigger] q.changes.deletes.contains(other) implies {
            &&& other <= first
            &&& !q.changes.updates.contains_key(other)
            &&& !q.changes.adds_to(Some(other))
        } by {
            assert(p.changes.deletes.contains(other));
            assert forall|i: int| 0 <= i < q.changes.additions.len() implies (
            #[trigger] q.changes.additions[i]).0 != Some(other) by {
                if i < n {
                    assert(q.changes.additions[i] == p.changes.additions[i]);
                }
            }
        }
        assert forall|i: int| 0 <= i < q.changes.additions.len() implies {
            &&& first < (#[trigger] q.changes.additions[i]).1 <= q.last_column_id
            &&& q.changes.updates.contains_key(q.changes.additions[i].1)
        } by {
            if i < n {
                assert(q.changes.additions[i] == p.changes.additions[i]);
            }
        }
        assert forall|i: int, j: int| 0 <= i < j < q.changes.additions.len() implies (
        #[trigger] q.changes.additions[i]).1 < (#[trigger] q.changes.additions[j]).1 by {
            assert(q.changes.additions[i] == p.changes.additions[i]);
            if j < n {
                assert(q.changes.additions[j] == p.changes.additions[j]);
            }
        }
    } else {
        assert(q.changes == p.changes);
    }
}

/// Whether an operation changes an attribute of one column.
pub open spec fn updates_a_column(operation: OperationView) -> bool {
    ||| operation is Rename
    ||| operation is SetRequired
    ||| operation is UpdateType
    ||| operation is UpdateDoc
    ||| operation is UpdateDefault
}

/// Whether `after` is `before` but for what the operation is about. A type can only be one that
/// the old one promotes to.
pub open spec fn keeps_the_rest(operation: OperationView, before: FieldView, after: FieldView) -> bool {
    match operation {
        OperationView::Rename { new_name, .. } => after == (FieldView { name: new_name, ..before }),
        OperationView::SetRequired { required, .. } => after == (FieldView { required, ..before }),
        OperationView::UpdateDoc { doc, .. } => after == (FieldView { doc, ..before }),
        OperationView::UpdateDefault { .. } => after == (FieldView {
            write_default: after.write_default,
            ..before
        }),
        OperationView::UpdateType { new_type, .. } => {
            &&& promotes(before.field_type, new_type)
            &&& after == (FieldView {
                field_type: TypeView::Primitive(new_type),
                initial_default: after.initial_default,
                write_default: after.write_default,
                ..before
            })
        },
        _ => false,
    }
}

/// Whether `field` is the current form of a column: as it was updated before, or else as the schema
/// has it.
pub open spec fn is_current(p: PendingView, field: FieldView) -> bool {
    if p.changes.updates.contains_key(field.id) {
        p.changes.updates[field.id] == field
    } else {
        p.schema.has_field(field)
    }
}

/// Whether `q` is `p` with the column `before` in the form `after`, which has the same ID.
pub open spec fn updates_only(
    p: PendingView,
    q: PendingView,
    before: FieldView,
    after: FieldView,
) -> bool {
    &&& is_current(p, before)
    &&& !p.changes.deletes.contains(before.id)
    &&& after.id == before.id
    &&& q == p.with_update(before.id, after)
}

/// An operation on an attribute of a column leaves all other columns alone, and of its own column
/// the ID and everything that it is not about. One that fails changes nothing.
pub proof fn law_column_updates_keep_the_rest(p: PendingView, operation: OperationView)
    requires
        well_keyed(p.changes.updates),
        updates_a_column(operation),
    ensures
        match operated(p, operation) {
            (q, Err(_)) => q == p,
            (q, Ok(_)) => q == p || exists|before: FieldView, after: FieldView| #[trigger]
                updates_only(p, q, before, after) && keeps_the_rest(operation, before, after),
        },
{
    reveal(operated);
    let (q, outcome) = operated(p, operation);
    match operation {
        OperationView::Rename { name, new_name } => {
            lemma_resolved(p, name);
            if outcome is Ok {
                let field = p.resolve(name)->Ok_0->0;
                let before = pending_form(field, p.changes);
                let after = FieldView { name: new_name, ..before };
                assert(updates_only(p, q, before, after));
            }
        },
        OperationView::SetRequired { name, required } => {
            lemma_for_update(p, name);
            if outcome is Ok && q != p {
                let before = p.for_update(name)->Ok_0->0;
                assert(updates_only(p, q, before, FieldView { required, ..before }));
            }
        },
        OperationView::UpdateType { name, new_type } => {
            lemma_for_update(p, name);
            if outcome is Ok && q != p {
                let before = p.for_update(name)->Ok_0->0;
                let after = q.changes.updates[before.id];
                assert(updates_only(p, q, before, after));
            }
        },
        OperationView::UpdateDoc { name, doc } => {
            lemma_for_update(p, name);
            if outcome is Ok && q != p {
                let before = p.for_update(name)->Ok_0->0;
                assert(updates_only(p, q, before, FieldView { doc, ..before }));
            }
        },
        OperationView::UpdateDefault { name, .. } => {
            lemma_for_update(p, name);
            if outcome is Ok && q != p {
                let before = p.for_update(name)->Ok_0->0;
                let after = q.changes.updates[before.id];
                assert(updates_only(p, q, before, after));
            }
        },
        _ => {},
    }
}

proof fn lemma_column_update_is_sound(p: PendingView, first: i32, operation: OperationView)
    requires
        sound(p, first),
        updates_a_column(operation),
    ensures
        sound(operated(p, operation).0, first),
{
    law_column_updates_keep_the_rest(p, operation);
    let (q, outcome) = operated(p, operation);
    if q != p {
        let (before, after) = choose|before: FieldView, after: FieldView| #[trigger]
            updates_only(p, q, before, after) && keeps_the_rest(operation, before, after);
        lemma_update_is_sound(p, first, before.id, after);
    }
}

proof fn lemma_delete_is_sound(p: PendingView, first: i32, name: Seq<char>)
    requires
        sound(p, first),
    ensures
        sound(delete_column(p, name).0, first),
{
    lemma_resolved(p, name);
    let (q, outcome) = delete_column(p, name);
    if outcome is Ok {
        let field = p.resolve(name)->Ok_0->0;
        assert forall|id: i32| #[trigger] q.changes.deletes.contains(id) implies {
            &&& id <= first
            &&& !q.changes.updates.contains_key(id)
            &&& !q.changes.adds_to(Some(id))
        } by {
            if id != field.id {
                assert(p.changes.deletes.contains(id));
            }
        }
    }
}

proof fn lemma_move_is_sound(
    p: PendingView,
    first: i32,
    name: Seq<char>,
    position: PositionView,
)
    requires
        sound(p, first),
    ensures
        sound(move_column(p, name, position).0, first),
{
    let (q, _) = move_column(p, name, position);
    assert forall|id: i32| #[trigger] q.changes.deletes.contains(id) implies {
        &&& id <= first
        &&& !q.changes.updates.contains_key(id)
        &&& !q.changes.adds_to(Some(id))
    } by {
        assert(p.changes.deletes.contains(id));
    }
}

/// Whether `q` comes from the same schema as `p`, with no fewer IDs assigned.
pub open spec fn same_base(p: PendingView, q: PendingView) -> bool {
    &&& q.schema == p.schema
    &&& q.identifier_ids == p.identifier_ids
    &&& q.texts == p.texts
    &&& p.last_column_id <= q.last_column_id
}

/// What holds besides of the state of an update of a schema in which no ID occurs twice: the IDs of
/// the added columns, and of all beneath them, are new and distinct, and a column that holds no
/// fields is not given any.
pub open spec fn traced(p: PendingView, first: i32) -> bool {
    &&& distinct_field_ids(p.schema)
    &&& spread(p.changes, first, p.last_column_id)
    &&& forall|field: FieldView| #[trigger]
        p.schema.has_field(field) ==> stays_flat(field, p.changes)
}

proof fn lemma_update_is_traced(p: PendingView, first: i32, operation: OperationView)
    requires
        sound(p, first),
        traced(p, first),
        updates_a_column(operation),
    ensures
        traced(operated(p, operation).0, first),
{
    law_column_updates_keep_the_rest(p, operation);
    let q = operated(p, operation).0;
    if q != p {
        let (before, after) = choose|before: FieldView, after: FieldView| #[trigger]
            updates_only(p, q, before, after) && keeps_the_rest(operation, before, after);
        assert(is_flat(before.field_type) == is_flat(after.field_type));
        assert forall|id: int| type_occurs(after.field_type, id) == #[trigger] type_occurs(
            before.field_type,
            id,
        ) by {}
        assert forall|k: int, id: int|
            0 <= k < q.changes.additions.len() implies #[trigger] addition_occurs(
            q.changes,
            k,
            id,
        ) <= (if q.changes.additions[k].1 <= id < reach_of(q.changes, k, q.last_column_id) {
            1nat
        } else {
            0nat
        }) by {
            assert(p.changes.updates.contains_key(p.changes.additions[k].1));
            assert(addition_occurs(p.changes, k, id) <= (if p.changes.additions[k].1 <= id
                < reach_of(p.changes, k, p.last_column_id) {
                1nat
            } else {
                0nat
            }));
            assert(type_occurs(after.field_type, id) == type_occurs(before.field_type, id));
        }
        assert forall|field: FieldView| #[trigger]
            q.schema.has_field(field) implies stays_flat(field, q.changes) by {
            assert(p.schema.has_field(field));
            assert(stays_flat(field, p.changes));
            if field.id == before.id && !p.changes.updates.contains_key(field.id) {
                lemma_one_field_per_id(p.schema, field, before);
            }
        }
    }
}

proof fn lemma_add_is_traced(p: PendingView, first: i32, add: AddView)
    requires
        sound(p, first),
        traced(p, first),
    ensures
        traced(add_column(p, add).0, first),
{
    lemma_added(p, add);
    let (q, outcome) = add_column(p, add);
    let n = p.changes.additions.len() as int;
    if outcome is Ok {
        let (parent, full_name) = add_checked(p, add)->Ok_0;
        let own = (p.last_column_id + 1) as i32;
        let fresh = fresh_field(new_field(add), p.last_column_id).0->Ok_0;
        assert(q.changes.updates[own] == coerced_field(fresh, full_name, p.texts)->Ok_0);
        assert forall|k: int, id: int|
            0 <= k < q.changes.additions.len() implies #[trigger] addition_occurs(
            q.changes,
            k,
            id,
        ) <= (if q.changes.additions[k].1 <= id < reach_of(q.changes, k, q.last_column_id) {
            1nat
        } else {
            0nat
        }) by {
            if k < n {
                assert(q.changes.additions[k] == p.changes.additions[k]);
                assert(addition_occurs(q.changes, k, id) == addition_occurs(p.changes, k, id));
                if k + 1 < n {
                    assert(q.changes.additions[k + 1] == p.changes.additions[k + 1]);
                }
                assert(reach_of(q.changes, k, q.last_column_id) == reach_of(
                    p.changes,
                    k,
                    p.last_column_id,
                ));
            } else {
                law_fresh_ids_are_consecutive(new_field(add), p.last_column_id, id);
                lemma_coerced_field_occurs(fresh, full_name, p.texts, id);
            }
        }
        assert forall|k: int| 0 <= k < q.changes.additions.len() implies first < (
        #[trigger] q.changes.additions[k]).1 <= q.last_column_id by {
            if k < n {
                assert(q.changes.additions[k] == p.changes.additions[k]);
            }
        }
        assert forall|i: int, j: int| 0 <= i < j < q.changes.additions.len() implies (
        #[trigger] q.changes.additions[i]).1 < (#[trigger] q.changes.additions[j]).1 by {
            assert(q.changes.additions[i] == p.changes.additions[i]);
            if j < n {
                assert(q.changes.additions[j] == p.changes.additions[j]);
            }
        }
        assert forall|field: FieldView| #[trigger]
            q.schema.has_field(field) implies stays_flat(field, q.changes) by {
            assert(p.schema.has_field(field));
            assert(stays_flat(field, p.changes));
        }
    } else {
        assert(q.changes == p.changes);
        assert forall|k: int, id: int|
            0 <= k < q.changes.additions.len() implies #[trigger] addition_occurs(
            q.changes,
            k,
            id,
        ) <= (if q.changes.additions[k].1 <= id < reach_of(q.changes, k, q.last_column_id) {
            1nat
        } else {
            0nat
        }) by {
            assert(addition_occurs(p.changes, k, id) <= 1);
        }
    }
}

/// What reconciling another schema can do to the state of an update: it changes nothing but the
/// forms of columns and the list of added ones; it makes no column required that was optional; and
/// what it adds is optional.
pub open spec fn widens(p: PendingView, q: PendingView) -> bool {
    &&& q.schema == p.schema
    &&& q.identifier_ids == p.identifier_ids
    &&& q.replacement == p.replacement
    &&& q.case_sensitive == p.case_sensitive
    &&& q.allow_incompatible == p.allow_incompatible
    &&& q.texts == p.texts
    &&& p.last_column_id <= q.last_column_id
    &&& q.changes.deletes == p.changes.deletes
    &&& q.changes.moves == p.changes.moves
    &&& p.changes.additions.len() <= q.changes.additions.len()
    &&& forall|i: int|
        0 <= i < p.changes.additions.len() ==> p.changes.additions[i] == (
        #[trigger] q.changes.additions[i])
    &&& forall|i: int|
        p.changes.additions.len() <= i < q.changes.additions.len() ==> !q.changes.updates[(
        #[trigger] q.changes.additions[i]).1].required
    &&& forall|id: i32| #[trigger]
        q.changes.updates.contains_key(id) && q.changes.updates[id].required
            ==> was_required(p, id)
    &&& forall|id: i32| #[trigger]
        p.changes.updates.contains_key(id) ==> q.changes.updates.contains_key(id)
}

/// Whether the column `id` is required: as it was updated before, or else as the schema has it.
pub open spec fn was_required(p: PendingView, id: i32) -> bool {
    if p.changes.updates.contains_key(id) {
        p.changes.updates[id].required
    } else {
        exists|field: FieldView| #[trigger]
            p.schema.has_field(field) && field.id == id && field.required
    }
}

/// The state after a step of a reconciliation.
pub open spec fn union_step(p: PendingView, q: PendingView, first: i32) -> bool {
    sound(p, first) ==> sound(q, first) && widens(p, q) && (traced(p, first) ==> traced(q, first))
}

proof fn lemma_widens_twice(p: PendingView, q: PendingView, r: PendingView, first: i32)
    requires
        sound(q, first),
        sound(r, first),
        widens(p, q),
        widens(q, r),
    ensures
        widens(p, r),
{
    assert forall|i: int| 0 <= i < p.changes.additions.len() implies p.changes.additions[i] == (
    #[trigger] r.changes.additions[i]) by {
        assert(p.changes.additions[i] == q.changes.additions[i]);
    }
    assert forall|id: i32| #[trigger]
        r.changes.updates.contains_key(id) && r.changes.updates[id].required implies was_required(
        p,
        id,
    ) by {
        assert(was_required(q, id));
        if q.changes.updates.contains_key(id) {
            assert(was_required(p, id));
        } else {
            assert(!p.changes.updates.contains_key(id));
        }
    }
    assert forall|i: int|
        p.changes.additions.len() <= i < r.changes.additions.len() implies !r.changes.updates[(
    #[trigger] r.changes.additions[i]).1].required by {
        if i < q.changes.additions.len() {
            let id = q.changes.additions[i].1;
            assert(r.changes.additions[i] == q.changes.additions[i]);
            assert(q.changes.updates.contains_key(id));
            assert(!q.changes.updates[id].required);
            assert(r.changes.updates.contains_key(id));
            if r.changes.updates[id].required {
                assert(was_required(q, id));
            }
        }
    }
}

/// Nothing at all is a step.
proof fn lemma_no_step(p: PendingView, first: i32)
    ensures
        union_step(p, p, first),
{
    if sound(p, first) {
        assert forall|id: i32| #[trigger]
            p.changes.updates.contains_key(id) && p.changes.updates[id].required implies was_required(
            p,
            id,
        ) by {}
    }
}

proof fn lemma_two_steps(p: PendingView, q: PendingView, r: PendingView, first: i32)
    requires
        union_step(p, q, first),
        union_step(q, r, first),
    ensures
        union_step(p, r, first),
{
    if sound(p, first) {
        lemma_widens_twice(p, q, r, first);
    }
}

proof fn lemma_update_step(p: PendingView, first: i32, operation: OperationView)
    requires
        updates_a_column(operation),
        operation !is Rename,
        operation matches OperationView::SetRequired { required, .. } ==> !required,
    ensures
        union_step(p, operated(p, operation).0, first),
{
    lemma_no_step(p, first);
    let q = operated(p, operation).0;
    if sound(p, first) && q != p {
        lemma_column_update_is_sound(p, first, operation);
        if traced(p, first) {
            lemma_update_is_traced(p, first, operation);
        }
        law_column_updates_keep_the_rest(p, operation);
        let (before, after) = choose|before: FieldView, after: FieldView| #[trigger]
            updates_only(p, q, before, after) && keeps_the_rest(operation, before, after);
        assert(after.required ==> before.required);
        assert forall|id: i32| #[trigger]
            q.changes.updates.contains_key(id) && q.changes.updates[id].required implies was_required(
            p,
            id,
        ) by {
            if id != before.id {
                assert(p.changes.updates.contains_key(id));
            }
        }
    }
}

proof fn lemma_addition_step(p: PendingView, first: i32, add: AddView)
    requires
        !add.required,
    ensures
        union_step(p, add_column(p, add).0, first),
{
    lemma_no_step(p, first);
    if sound(p, first) {
        lemma_add_is_sound(p, first, add);
        if traced(p, first) {
            lemma_add_is_traced(p, first, add);
        }
        lemma_added(p, add);
        let q = add_column(p, add).0;
        assert forall|id: i32| #[trigger]
            q.changes.updates.contains_key(id) && q.changes.updates[id].required implies was_required(
            p,
            id,
        ) by {
            assert(p.changes.updates.contains_key(id));
        }
    }
}

pub proof fn lemma_merge_step(p: PendingView, first: i32, existing: FieldView, new: FieldView)
    ensures
        union_step(p, merge_field(p, existing, new).0, first),
{
    lemma_no_step(p, first);
    if let Some(name) = p.schema.name_of(existing.id) {
        reveal(operated);
        let (p1, outcome1) = merge_nullability(p, name, existing, new);
        lemma_update_step(p, first, OperationView::SetRequired { name, required: false });
        if outcome1 is Ok {
            let (p2, outcome2) = merge_type(p1, name, existing, new);
            lemma_no_step(p1, first);
            if let TypeView::Primitive(new_type) = new.field_type {
                lemma_update_step(p1, first, OperationView::UpdateType { name, new_type });
            }
            lemma_two_steps(p, p1, p2, first);
            if outcome2 is Ok {
                let (p3, outcome3) = merge_doc(p2, name, existing, new);
                lemma_no_step(p2, first);
                lemma_update_step(p2, first, OperationView::UpdateDoc { name, doc: new.doc });
                lemma_two_steps(p, p2, p3, first);
                if outcome3 is Ok {
                    let (p4, _) = merge_default(p3, name, existing, new);
                    lemma_no_step(p3, first);
                    lemma_update_step(
                        p3,
                        first,
                        OperationView::UpdateDefault { name, default: new.write_default },
                    );
                    lemma_two_steps(p, p3, p4, first);
                }
            }
        }
    }
}

proof fn lemma_union_here(
    p: PendingView,
    first: i32,
    parent: Option<i32>,
    existing: Seq<FieldView>,
    new: Seq<FieldView>,
    i: nat,
)
    ensures
        union_step(p, union_here(p, parent, existing, new, i).0, first),
    decreases new.len() - i,
{
    lemma_no_step(p, first);
    if i < new.len() {
        let field = new[i as int];
        let (p1, outcome) = match matching_field(
            existing,
            existing.len(),
            field.name,
            p.case_sensitive,
        ) {
            None => {
                lemma_addition_step(p, first, missing_column(p, parent, field));
                add_column(p, missing_column(p, parent, field))
            },
            Some(old) => {
                lemma_merge_step(p, first, old, field);
                merge_field(p, old, field)
            },
        };
        if outcome is Ok {
            lemma_union_here(p1, first, parent, existing, new, i + 1);
            lemma_two_steps(p, p1, union_here(p1, parent, existing, new, i + 1).0, first);
        }
    }
}

proof fn lemma_union_beneath(
    p: PendingView,
    first: i32,
    existing: Seq<FieldView>,
    new: Seq<FieldView>,
    i: nat,
)
    ensures
        union_step(p, union_beneath(p, existing, new, i).0, first),
    decreases new, new.len() - i,
{
    lemma_no_step(p, first);
    if i < new.len() {
        let field = new[i as int];
        match matching_field(existing, existing.len(), field.name, p.case_sensitive) {
            None => {
                lemma_union_beneath(p, first, existing, new, i + 1);
            },
            Some(old) => {
                lemma_union_field(p, first, old, field);
                let (p1, outcome) = union_field(p, old, field);
                if outcome is Ok {
                    lemma_union_beneath(p1, first, existing, new, i + 1);
                    lemma_two_steps(p, p1, union_beneath(p1, existing, new, i + 1).0, first);
                }
            },
        }
    }
}

proof fn lemma_union_structs(
    p: PendingView,
    first: i32,
    parent: Option<i32>,
    existing: Seq<FieldView>,
    new: Seq<FieldView>,
)
    ensures
        union_step(p, union_structs(p, parent, existing, new).0, first),
    decreases new, new.len() + 1,
{
    lemma_union_beneath(p, first, existing, new, 0);
    let (p1, outcome) = union_beneath(p, existing, new, 0);
    if outcome is Ok {
        lemma_union_here(p1, first, parent, existing, new, 0);
        lemma_two_steps(p, p1, union_here(p1, parent, existing, new, 0).0, first);
    }
}

proof fn lemma_union_field(p: PendingView, first: i32, existing: FieldView, new: FieldView)
    ensures
        union_step(p, union_field(p, existing, new).0, first),
    decreases new, 0nat,
{
    lemma_no_step(p, first);
    match (existing.field_type, new.field_type) {
        (TypeView::Struct(old), TypeView::Struct(wanted)) => {
            lemma_union_structs(p, first, Some(existing.id), old, wanted);
        },
        (TypeView::List(old), TypeView::List(wanted)) => {
            lemma_union_field(p, first, *old, *wanted);
            let (p1, _) = union_field(p, *old, *wanted);
            lemma_merge_step(p1, first, *old, *wanted);
            lemma_two_steps(p, p1, merge_field(p1, *old, *wanted).0, first);
        },
        (TypeView::MapOf(old_key, old_value), TypeView::MapOf(key, value)) => {
            lemma_union_field(p, first, *old_key, *key);
            let (p1, _) = union_field(p, *old_key, *key);
            lemma_union_field(p1, first, *old_value, *value);
            let (p2, _) = union_field(p1, *old_value, *value);
            lemma_two_steps(p, p1, p2, first);
            lemma_merge_step(p2, first, *old_key, *key);
            let (p3, _) = merge_field(p2, *old_key, *key);
            lemma_two_steps(p, p2, p3, first);
            lemma_merge_step(p3, first, *old_value, *value);
            lemma_two_steps(p, p3, merge_field(p3, *old_value, *value).0, first);
        },
        _ => {},
    }
}

/// Reconciling another schema never makes a column required, deletes nothing and moves nothing,
/// brings missing columns in as optional ones, and ignores which fields identify rows in the other
/// schema.
pub proof fn law_union_only_widens(p: PendingView, first: i32, new: SchemaView)
    requires
        sound(p, first),
    ensures
        widens(p, union_schema(p, new).0),
        forall|ids: Seq<i32>| #[trigger]
            union_schema(p, SchemaView { identifier_field_ids: ids, ..new }) == union_schema(p, new),
{
    lemma_no_step(p, first);
    lemma_union_structs(p, first, None, p.schema.fields, new.fields);
}

proof fn lemma_same_additions_are_traced(p: PendingView, q: PendingView, first: i32)
    requires
        traced(p, first),
        q.schema == p.schema,
        q.last_column_id == p.last_column_id,
        q.changes.updates == p.changes.updates,
        q.changes.additions == p.changes.additions,
    ensures
        traced(q, first),
{
    assert forall|k: int, id: int| #[trigger]
        addition_occurs(q.changes, k, id) == addition_occurs(p.changes, k, id) && reach_of(
            q.changes,
            k,
            q.last_column_id,
        ) == reach_of(p.changes, k, p.last_column_id) by {}
    assert forall|field: FieldView| #[trigger] q.schema.has_field(field) implies stays_flat(
        field,
        q.changes,
    ) by {
        assert(p.schema.has_field(field));
        assert(stays_flat(field, p.changes));
    }
}

/// Every operation keeps the state of an update sound, and the schema that it started from; and no
/// operation gives an ID back.
pub proof fn law_operations_keep_updates_sound(p: PendingView, first: i32, operation: OperationView)
    requires
        sound(p, first),
    ensures
        sound(operated(p, operation).0, first),
        same_base(p, operated(p, operation).0),
        traced(p, first) ==> traced(operated(p, operation).0, first),
{
    if updates_a_column(operation) {
        lemma_column_update_is_sound(p, first, operation);
        law_column_updates_keep_the_rest(p, operation);
        if traced(p, first) {
            lemma_update_is_traced(p, first, operation);
        }
    }
    reveal(operated);
    match operation {
        OperationView::Add(add) => {
            lemma_add_is_sound(p, first, add);
            lemma_added(p, add);
            if traced(p, first) {
                lemma_add_is_traced(p, first, add);
            }
        },
        OperationView::Delete(name) => lemma_delete_is_sound(p, first, name),
        OperationView::Move { name, position } => lemma_move_is_sound(p, first, name, position),
        OperationView::UnionByName(new) => {
            lemma_union_structs(p, first, None, p.schema.fields, new.fields);
        },
        _ => {},
    }
    let q = operated(p, operation).0;
    if q.changes == p.changes {
        assert(sound(q, first));
    }
    if traced(p, first) && !updates_a_column(operation) && operation !is Add
        && operation !is UnionByName {
        lemma_same_additions_are_traced(p, q, first);
    }
}

proof fn lemma_matches_itself(fields: Seq<FieldView>, n: nat, i: int)
    requires
        0 <= i < n <= fields.len(),
        forall|j: int, k: int|
            0 <= j < k < fields.len() ==> (#[trigger] fields[j]).name != (
            #[trigger] fields[k]).name,
    ensures
        matching_field(fields, n, fields[i].name, true) == Some(fields[i]),
    decreases n,
{
    if i < n - 1 {
        assert(fields[i].name != fields[n - 1].name);
        lemma_matches_itself(fields, (n - 1) as nat, i);
    }
}

proof fn lemma_merges_with_itself(p: PendingView, field: FieldView)
    requires
        p.schema.has_field(field),
    ensures
        merge_field(p, field, field) == (p, Ok::<(), ErrorView>(())),
{
    lemma_fields_have_names(p.schema, field);
}

proof fn lemma_unites_beneath_itself(p: PendingView, fields: Seq<FieldView>, i: nat)
    requires
        p.case_sensitive,
        names_differ(fields),
        forall|node: FieldView| #[trigger]
            is_among(fields, fields.len(), node) ==> p.schema.has_field(node),
    ensures
        union_beneath(p, fields, fields, i) == (p, Ok::<(), ErrorView>(())),
    decreases fields, fields.len() - i,
{
    if i < fields.len() {
        let field = fields[i as int];
        lemma_matches_itself(fields, fields.len(), i as int);
        assert forall|node: FieldView| #[trigger]
            is_at(field, node) implies p.schema.has_field(node) by {
            lemma_among_prefix(fields, fields.len(), i as int, node);
        }
        lemma_field_unites_with_itself(p, field);
        lemma_unites_beneath_itself(p, fields, i + 1);
    }
}

proof fn lemma_unites_here_with_itself(
    p: PendingView,
    parent: Option<i32>,
    fields: Seq<FieldView>,
    i: nat,
)
    requires
        p.case_sensitive,
        names_differ(fields),
        forall|node: FieldView| #[trigger]
            is_among(fields, fields.len(), node) ==> p.schema.has_field(node),
    ensures
        union_here(p, parent, fields, fields, i) == (p, Ok::<(), ErrorView>(())),
    decreases fields.len() - i,
{
    if i < fields.len() {
        let field = fields[i as int];
        lemma_matches_itself(fields, fields.len(), i as int);
        assert(is_at(field, field));
        lemma_among_prefix(fields, fields.len(), i as int, field);
        lemma_merges_with_itself(p, field);
        lemma_unites_here_with_itself(p, parent, fields, i + 1);
    }
}

proof fn lemma_struct_unites_with_itself(
    p: PendingView,
    parent: Option<i32>,
    fields: Seq<FieldView>,
)
    requires
        p.case_sensitive,
        names_differ(fields),
        forall|node: FieldView| #[trigger]
            is_among(fields, fields.len(), node) ==> p.schema.has_field(node),
    ensures
        union_structs(p, parent, fields, fields) == (p, Ok::<(), ErrorView>(())),
    decreases fields, fields.len() + 1,
{
    lemma_unites_beneath_itself(p, fields, 0);
    lemma_unites_here_with_itself(p, parent, fields, 0);
}

proof fn lemma_field_unites_with_itself(p: PendingView, field: FieldView)
    requires
        p.case_sensitive,
        names_differ_within(field.field_type),
        forall|node: FieldView| #[trigger] is_at(field, node) ==> p.schema.has_field(node),
    ensures
        union_field(p, field, field) == (p, Ok::<(), ErrorView>(())),
    decreases field, 0nat,
{
    match field.field_type {
        TypeView::Primitive(_) | TypeView::Variant => {},
        TypeView::Struct(fields) => {
            assert forall|node: FieldView| #[trigger]
                is_among(fields, fields.len(), node) implies p.schema.has_field(node) by {
                assert(is_at(field, node));
            }
            lemma_struct_unites_with_itself(p, Some(field.id), fields);
        },
        TypeView::List(element) => {
            assert forall|node: FieldView| #[trigger]
                is_at(*element, node) implies p.schema.has_field(node) by {
                assert(is_at(field, node));
            }
            assert(is_at(*element, *element));
            lemma_field_unites_with_itself(p, *element);
            lemma_merges_with_itself(p, *element);
        },
        TypeView::MapOf(key, value) => {
            assert forall|node: FieldView| #[trigger]
                is_at(*key, node) implies p.schema.has_field(node) by {
                assert(is_at(field, node));
            }
            assert forall|node: FieldView| #[trigger]
                is_at(*value, node) implies p.schema.has_field(node) by {
                assert(is_at(field, node));
            }
            assert(is_at(*key, *key));
            assert(is_at(*value, *value));
            lemma_field_unites_with_itself(p, *key);
            lemma_field_unites_with_itself(p, *value);
            lemma_merges_with_itself(p, *key);
            lemma_merges_with_itself(p, *value);
        },
    }
}

/// To reconcile a schema with itself changes nothing, where names are case-sensitive.
pub proof fn law_union_with_itself_changes_nothing(p: PendingView)
    requires
        p.case_sensitive,
        checked_schema(p.schema) is Ok,
    ensures
        union_schema(p, p.schema) == (p, Ok::<(), ErrorView>(())),
{
    law_siblings_have_different_names(p.schema);
    let fields = p.schema.fields;
    assert forall|node: FieldView| #[trigger]
        is_among(fields, fields.len(), node) implies p.schema.has_field(node) by {
        lemma_nodes_are_fields(p.schema, node);
    }
    lemma_struct_unites_with_itself(p, None, fields);
}

/// Names stand for the columns of the schema that the update started from, whatever was renamed,
/// deleted or added since, as long as their case sensitivity stays the same.
pub proof fn law_names_stand_for_original_columns(
    p: PendingView,
    first: i32,
    operation: OperationView,
    name: Seq<char>,
)
    requires
        sound(p, first),
        operation !is SetCaseSensitive,
    ensures
        operated(p, operation).0.resolve(name) == p.resolve(name),
{
    law_operations_keep_updates_sound(p, first, operation);
    if updates_a_column(operation) {
        law_column_updates_keep_the_rest(p, operation);
    }
    reveal(operated);
    match operation {
        OperationView::Add(add) => lemma_added(p, add),
        OperationView::UnionByName(new) => law_union_only_widens(p, first, new),
        _ => {},
    }
}

/// A replay keeps the state of an update sound, whether or not one of its operations fails.
pub proof fn law_replays_keep_updates_sound(
    p: PendingView,
    first: i32,
    operations: Seq<OperationView>,
    i: nat,
)
    requires
        sound(p, first),
    ensures
        sound(replayed(p, operations, i).0, first),
        same_base(p, replayed(p, operations, i).0),
        traced(p, first) ==> traced(replayed(p, operations, i).0, first),
    decreases operations.len() - i,
{
    if i < operations.len() {
        law_operations_keep_updates_sound(p, first, operations[i as int]);
        let (p1, _) = operated(p, operations[i as int]);
        law_replays_keep_updates_sound(p1, first, operations, i + 1);
    }
}

/// The state that any update of a table reaches is sound, where no field of the table's schema has
/// an ID above the last one that the table has assigned. So no column is ever both deleted and
/// changed, nothing is added to a deleted column, and no added column takes the ID of another.
pub proof fn law_updates_of_tables_are_sound(
    schema: SchemaView,
    last_column_id: i32,
    texts: Seq<(u64, Seq<char>)>,
    operations: Seq<OperationView>,
)
    requires
        ids_up_to(schema, last_column_id),
    ensures
        sound(
            replayed(initial_state(schema, last_column_id, texts), operations, 0).0,
            last_column_id,
        ),
{
    let p = initial_state(schema, last_column_id, texts);
    lemma_parents_are_finite(schema.fields, 0, None, Map::empty());
    assert(sound(p, last_column_id));
    law_replays_keep_updates_sound(p, last_column_id, operations, 0);
}

/// An update of a schema in which no ID occurs twice leads to a schema in which none does: no
/// column ever takes the ID of another.
pub proof fn law_updated_schemas_repeat_no_ids(
    schema: SchemaView,
    last_column_id: i32,
    texts: Seq<(u64, Seq<char>)>,
    operations: Seq<OperationView>,
)
    requires
        ids_up_to(schema, last_column_id),
        distinct_field_ids(schema),
    ensures
        replayed(initial_state(schema, last_column_id, texts), operations, 0) matches (p, _) && (
        applied(p) matches Ok(updated) ==> distinct_field_ids(updated)),
{
    let start = initial_state(schema, last_column_id, texts);
    lemma_parents_are_finite(schema.fields, 0, None, Map::empty());
    assert(sound(start, last_column_id));
    assert(traced(start, last_column_id));
    law_replays_keep_updates_sound(start, last_column_id, operations, 0);
    let p = replayed(start, operations, 0).0;
    if let Ok(updated) = applied(p) {
        lemma_rebuilt_ids_are_distinct(
            p.schema,
            p.changes,
            last_column_id,
            p.last_column_id,
            updated,
        );
    }
}

/// An operation that fails leaves nothing behind but the IDs that it took, where it is a single
/// step.
pub proof fn law_failed_operations_change_nothing(p: PendingView, operation: OperationView)
    requires
        operation !is UnionByName,
        operated(p, operation).1 is Err,
    ensures
        operated(p, operation).0 == (PendingView {
            last_column_id: operated(p, operation).0.last_column_id,
            ..p
        }),
{
    reveal(operated);
    if let OperationView::Add(add) = operation {
        lemma_added(p, add);
    }
}

/// The state without the knowledge of what encloses `id`.
spec fn orphaned(p: PendingView, id: i32) -> PendingView {
    PendingView { parents: p.parents.remove(id), ..p }
}

proof fn lemma_doomed_with_more_parents(p: PendingView, id: i32, orphan: i32, n: nat)
    requires
        orphaned(p, orphan).doomed(id, n),
    ensures
        p.doomed(id, n),
    decreases n,
{
    let q = orphaned(p, orphan);
    if !p.changes.deletes.contains(id) {
        lemma_doomed_with_more_parents(p, q.parents[id], orphan, (n - 1) as nat);
    }
}

/// A way up that meets a deleted field either does not pass through `orphan`, or meets it from
/// there.
proof fn lemma_way_up(p: PendingView, id: i32, orphan: i32, n: nat) -> (m: nat)
    requires
        p.doomed(id, n),
    ensures
        m <= n,
        orphaned(p, orphan).doomed(id, n) || p.doomed(orphan, m),
    decreases n,
{
    if p.changes.deletes.contains(id) {
        0
    } else if id == orphan {
        n
    } else {
        lemma_way_up(p, p.parents[id], orphan, (n - 1) as nat)
    }
}

/// The search for a deleted field goes far enough: if one is met on the way up at all, it is met
/// within as many steps as there are nested fields.
pub proof fn law_search_for_deleted_fields_is_complete(p: PendingView, id: i32, n: nat)
    requires
        p.parents.dom().finite(),
    ensures
        p.doomed(id, n) ==> p.will_be_deleted(id),
    decreases p.parents.len(), n,
{
    if p.doomed(id, n) && !p.changes.deletes.contains(id) {
        let parent = p.parents[id];
        let m = lemma_way_up(p, parent, id, (n - 1) as nat);
        let q = orphaned(p, id);
        assert(q.parents.len() == p.parents.len() - 1);
        if q.doomed(parent, (n - 1) as nat) {
            law_search_for_deleted_fields_is_complete(q, parent, (n - 1) as nat);
            lemma_doomed_with_more_parents(p, parent, id, q.parents.len());
        } else {
            law_search_for_deleted_fields_is_complete(p, id, m);
        }
    }
}

proof fn lemma_not_enclosed(p: PendingView, id: i32, name: Seq<char>, n: nat)
    requires
        enclosing_problem(p, Some(id), name, n) is None,
    ensures
        !p.doomed(id, n),
    decreases n,
{
    if n > 0 && p.parents.contains_key(id) {
        lemma_not_enclosed(p, p.parents[id], name, (n - 1) as nat);
    }
}

proof fn lemma_doomed_longer(p: PendingView, id: i32, n: nat)
    requires
        p.doomed(id, n),
    ensures
        p.doomed(id, n + 1),
    decreases n,
{
    if !p.changes.deletes.contains(id) {
        lemma_doomed_longer(p, p.parents[id], (n - 1) as nat);
    }
}

proof fn lemma_no_deletion_problem(p: PendingView, ids: Seq<i32>, i: nat, j: int)
    requires
        first_deletion_problem(p, ids, i) is None,
        i <= j < ids.len(),
    ensures
        deletion_problem(p, ids[j]) is None,
    decreases ids.len() - i,
{
    if i < j {
        lemma_no_deletion_problem(p, ids, i + 1, j);
    }
}

/// An update that succeeds deletes no identifier field of the schema, nor any field that encloses
/// one, however far up.
pub proof fn law_identifier_fields_are_not_deleted(p: PendingView, first: i32, id: i32, n: nat)
    requires
        sound(p, first),
        applied(p) is Ok,
        known_identifiers(p).contains(id),
        p.schema.by_id(id) is Some,
    ensures
        !p.doomed(id, n),
{
    let ids = known_identifiers(p);
    let j = choose|j: int| 0 <= j < ids.len() && ids[j] == id;
    lemma_no_deletion_problem(p, ids, 0, j);
    let name = p.schema.by_id(id)->0.name;
    let steps = p.parents.len();
    if p.doomed(id, n) {
        law_search_for_deleted_fields_is_complete(p, id, n);
        let parent = p.parents[id];
        lemma_not_enclosed(p, parent, name, steps);
        lemma_doomed_longer(p, parent, (steps - 1) as nat);
    }
}

pub proof fn lemma_distinct_ids(ids: Seq<i32>, i: nat, done: Seq<i32>)
    requires
        done.no_duplicates(),
    ensures
        distinct_ids(ids, i, done).no_duplicates(),
        forall|id: i32| #[trigger]
            distinct_ids(ids, i, done).contains(id) <==> done.contains(id) || exists|j: int|
                i <= j < ids.len() && #[trigger] ids[j] == id,
    decreases ids.len() - i,
{
    if i < ids.len() {
        let id = ids[i as int];
        if done.contains(id) {
            lemma_distinct_ids(ids, i + 1, done);
        } else {
            let more = done.push(id);
            assert forall|other: i32| #[trigger] more.contains(other) <==> done.contains(other)
                || other == id by {
                if done.contains(other) {
                    let k = choose|k: int| 0 <= k < done.len() && done[k] == other;
                    assert(more[k] == other);
                }
                if other == id {
                    assert(more[done.len() as int] == other);
                }
            }
            lemma_distinct_ids(ids, i + 1, more);
        }
    }
}

/// The schema that an update leads to is valid: no two fields have the same full name, and every
/// identifier field fits and is listed once. The identifier fields are those from before, unless
/// the update replaced them. Where names are not case-sensitive, none is ambiguous.
pub proof fn law_updated_schemas_are_valid(p: PendingView)
    requires
        applied(p) is Ok,
    ensures
        ({
            let schema = applied(p)->Ok_0;
            &&& checked_schema(schema) == Ok::<SchemaView, ErrorView>(schema)
            &&& schema.identifier_field_ids.no_duplicates()
            &&& p.replacement is None ==> same_ids(schema.identifier_field_ids, p.identifier_ids)
            &&& !p.case_sensitive ==> schema.collision() is None
        }),
{
    let schema = applied(p)->Ok_0;
    let bare = built_schema(schema.fields, Seq::empty())->Ok_0;
    let ids = updated_identifiers(p, bare)->Ok_0;
    assert(bare.fields == schema.fields);
    lemma_distinct_ids(ids, 0, Seq::empty());
    assert(schema.identifier_field_ids == distinct_ids(ids, 0, Seq::empty()));
    if p.replacement is None {
        assert forall|id: i32| #[trigger]
            schema.identifier_field_ids.contains(id) <==> p.identifier_ids.contains(id) by {
            if p.identifier_ids.contains(id) {
                let j = choose|j: int| 0 <= j < ids.len() && ids[j] == id;
                assert(ids[j] == id);
            }
        }
    }
}

/// An update that replaces the identifier fields by none leaves the schema without any.
pub proof fn law_no_names_clear_the_identifier_fields(p: PendingView)
    ensures
        set_identifier_fields(p, Seq::empty()) matches (q, Ok(_)) ==> (applied(q) matches Ok(schema)
            ==> schema.identifier_field_ids.len() == 0),
{
    let (q, outcome) = set_identifier_fields(p, Seq::empty());
    if outcome is Ok && applied(q) is Ok {
        law_updated_schemas_are_valid(q);
        let schema = applied(q)->Ok_0;
        let bare = built_schema(schema.fields, Seq::empty())->Ok_0;
        assert(updated_identifiers(q, bare) == Ok::<Seq<i32>, ErrorView>(Seq::empty()));
        lemma_distinct_ids(Seq::empty(), 0, Seq::empty());
    }
}

proof fn lemma_nothing_encloses(p: PendingView, current: Option<i32>, name: Seq<char>, n: nat)
    requires
        forall|id: i32| !#[trigger] p.changes.deletes.contains(id),
    ensures
        enclosing_problem(p, current, name, n) is None,
    decreases n,
{
    if let Some(id) = current {
        if n > 0 {
            lemma_nothing_encloses(p, value_of(p.parents, id), name, (n - 1) as nat);
        }
    }
}

proof fn lemma_no_deletion_at_all(p: PendingView, ids: Seq<i32>, i: nat)
    requires
        forall|id: i32| !#[trigger] p.changes.deletes.contains(id),
        forall|j: int| 0 <= j < ids.len() ==> p.schema.by_id(#[trigger] ids[j]) is Some,
    ensures
        first_deletion_problem(p, ids, i) is None,
    decreases ids.len() - i,
{
    if i < ids.len() {
        let id = ids[i as int];
        lemma_nothing_encloses(
            p,
            value_of(p.parents, id),
            p.schema.by_id(id)->0.name,
            p.parents.len(),
        );
        lemma_no_deletion_at_all(p, ids, i + 1);
    }
}

pub proof fn lemma_all_fit(entries: Seq<EntryView>, ids: Seq<i32>, i: nat, j: int)
    requires
        first_problem(entries, ids, i) is None,
        i <= j < ids.len(),
    ensures
        identifier_problem(entries, ids[j]) is None,
    decreases ids.len() - i,
{
    if i < j {
        lemma_all_fit(entries, ids, i + 1, j);
    }
}

pub proof fn lemma_no_problem(entries: Seq<EntryView>, ids: Seq<i32>, i: nat)
    requires
        forall|j: int| 0 <= j < ids.len() ==> identifier_problem(entries, #[trigger] ids[j]) is None,
    ensures
        first_problem(entries, ids, i) is None,
    decreases ids.len() - i,
{
    if i < ids.len() {
        lemma_no_problem(entries, ids, i + 1);
    }
}

/// A valid schema whose fields of collections are in canonical form is the outcome of an update
/// that changes nothing.
proof fn lemma_unchanged_schema(p: PendingView)
    requires
        p.changes == no_changes(),
        p.replacement is None,
        p.identifier_ids == p.schema.identifier_field_ids,
        p.case_sensitive || p.schema.collision() is None,
        checked_schema(p.schema) is Ok,
        canonical_type(TypeView::Struct(p.schema.fields)),
    ensures
        applied(p) matches Ok(schema) && schema.same_as(p.schema),
{
    let entries = p.schema.entries();
    let ids = p.schema.identifier_field_ids;
    assert forall|j: int| 0 <= j < ids.len() implies p.schema.by_id(#[trigger] ids[j]) is Some by {
        lemma_all_fit(entries, ids, 0, j);
    }
    lemma_no_deletion_at_all(p, ids, 0);
    law_no_changes_rebuild_the_same_fields(p.schema.fields, None);
    lemma_distinct_ids(ids, 0, Seq::empty());
    let once = distinct_ids(ids, 0, Seq::empty());
    assert forall|j: int| 0 <= j < once.len() implies identifier_problem(
        entries,
        #[trigger] once[j],
    ) is None by {
        assert(once.contains(once[j]));
        let k = choose|k: int| 0 <= k < ids.len() && #[trigger] ids[k] == once[j];
        lemma_all_fit(entries, ids, 0, k);
    }
    lemma_no_problem(entries, once, 0);
    let none = Seq::<i32>::empty();
    assert(distinct_ids(none, 0, none) == none);
    lemma_no_problem(entries, none, 0);
    assert(applied(p) is Ok);
    let schema = applied(p)->Ok_0;
    assert forall|id: i32| #[trigger]
        schema.identifier_field_ids.contains(id) <==> ids.contains(id) by {
        if ids.contains(id) {
            let j = choose|j: int| 0 <= j < ids.len() && ids[j] == id;
            assert(ids[j] == id);
        }
        if once.contains(id) {
            let k = choose|k: int| 0 <= k < ids.len() && #[trigger] ids[k] == id;
        }
    }
}

/// Whether the name mapping of a table, where it has one that can be read, lists no name of a field
/// twice.
pub open spec fn mapping_lists_names_once(table: TableView) -> bool {
    match property_value(table.properties, mapping_property(), 0) {
        Some(raw) => read_mapping(raw) matches Ok(mapping) ==> lists_names_once(mapping),
        None => true,
    }
}

/// Whether a table is one that updates can leave as it is: its schema is valid, the fields of its
/// collections are in canonical form, no field has an ID above the last one assigned, and its name
/// mapping repeats no name.
pub open spec fn well_formed(table: TableView) -> bool {
    &&& checked_schema(table.schema) is Ok
    &&& canonical_type(TypeView::Struct(table.schema.fields))
    &&& ids_up_to(table.schema, table.last_column_id)
    &&& mapping_lists_names_once(table)
}

/// An update whose operations change nothing commits nothing, and asks nothing of the table.
pub proof fn law_unchanged_tables_are_not_committed(
    operations: Seq<OperationView>,
    table: TableView,
    texts: Seq<(u64, Seq<char>)>,
)
    requires
        well_formed(table),
        replayed(
            initial_state(table.schema, table.last_column_id, texts),
            operations,
            0,
        ) matches (p, Ok(_)) && p.changes == no_changes() && p.replacement is None && (
        p.case_sensitive || table.schema.collision() is None),
    ensures
        planned_commit(operations, table, texts) matches Ok(commit) && commit.updates.len() == 0
            && commit.requirements.len() == 0,
{
    let start = initial_state(table.schema, table.last_column_id, texts);
    let p = replayed(start, operations, 0).0;
    lemma_parents_are_finite(table.schema.fields, 0, None, Map::empty());
    assert(sound(start, table.last_column_id));
    law_replays_keep_updates_sound(start, table.last_column_id, operations, 0);
    lemma_unchanged_schema(p);
    let updated = applied(p)->Ok_0;
    lemma_properties_stay(table.properties, table.schema, updated, p.changes);
    if let Some(raw) = property_value(table.properties, mapping_property(), 0) {
        if let Ok(mapping) = read_mapping(raw) {
            if validated_mapping(mapping) is Ok {
                law_mappings_stay_without_changes(mapping, p.changes);
            }
        }
    }
    let (properties, _) = all_property_changes(table, updated, p.changes);
    assert(metadata_changes(table, updated, properties) =~= Seq::empty());
}

/// An update without operations commits nothing.
pub proof fn law_empty_updates_commit_nothing(table: TableView, texts: Seq<(u64, Seq<char>)>)
    requires
        well_formed(table),
    ensures
        planned_commit(Seq::empty(), table, texts) matches Ok(commit) && commit.updates.len() == 0
            && commit.requirements.len() == 0,
{
    law_unchanged_tables_are_not_committed(Seq::empty(), table, texts);
}

} // verus!
