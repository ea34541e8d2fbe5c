//! What an update has recorded shows in the schema that it leads to, at every depth.

use vstd::prelude::*;

#[allow(unused_imports)]
use crate::action::OperationView;
#[allow(unused_imports)]
use crate::changes::ChangesView;
#[allow(unused_imports)]
use crate::defaults::coerced_default;
#[allow(unused_imports)]
use crate::error::ErrorView;
#[allow(unused_imports)]
use crate::literal::LiteralView;
#[allow(unused_imports)]
use crate::moves::{
    all_moved, has_id, law_all_moves_of_a_struct_count, law_move_lands_next_to_its_reference,
    law_moves_keep_every_field, law_moves_take_effect_in_order, moved, moves_within, MoveKind,
    PendingMove,
};
#[allow(unused_imports)]
use crate::pending::{applied, built_schema, updated_identifiers, PendingView};
#[allow(unused_imports)]
use crate::replay::operated;
#[allow(unused_imports)]
use crate::schema::SchemaView;
#[allow(unused_imports)]
use crate::tree::{
    pending_form, rebuilt_field, rebuilt_fields, rebuilt_from, well_keyed, with_added,
};
#[allow(unused_imports)]
use crate::types::{FieldView, TypeView};

verus! {

/// Whether `f` is one of `fields`, or a member of a struct anywhere beneath them.
pub open spec fn lies_within(fields: Seq<FieldView>, f: FieldView) -> bool
    decreases fields, 0nat,
{
    exists|i: int|
        0 <= i < fields.len() && (#[trigger] fields[i] == f || lies_beneath(
            fields[i].field_type,
            f,
        ))
}

/// Whether `f` is a member of a struct anywhere within a type.
pub open spec fn lies_beneath(t: TypeView, f: FieldView) -> bool
    decreases t, 1nat,
{
    match t {
        TypeView::Primitive(_) | TypeView::Variant => false,
        TypeView::Struct(fields) => lies_within(fields, f),
        TypeView::List(element) => lies_beneath(element.field_type, f),
        TypeView::MapOf(key, value) => lies_beneath(key.field_type, f) || lies_beneath(
            value.field_type,
            f,
        ),
    }
}

/// Whether `f` is one of `fields`, or a member of a struct anywhere beneath them, and neither it nor
/// a member that encloses it is deleted.
pub open spec fn survives_within(fields: Seq<FieldView>, deletes: Set<i32>, f: FieldView) -> bool
    decreases fields, 0nat,
{
    exists|i: int|
        0 <= i < fields.len() && !deletes.contains((#[trigger] fields[i]).id) && (fields[i] == f
            || survives_beneath(fields[i].field_type, deletes, f))
}

/// Whether `f` is a member of a struct anywhere within a type, and neither it nor a member that
/// encloses it is deleted.
pub open spec fn survives_beneath(t: TypeView, deletes: Set<i32>, f: FieldView) -> bool
    decreases t, 1nat,
{
    match t {
        TypeView::Primitive(_) | TypeView::Variant => false,
        TypeView::Struct(fields) => survives_within(fields, deletes, f),
        TypeView::List(element) => survives_beneath(element.field_type, deletes, f),
        TypeView::MapOf(key, value) => survives_beneath(key.field_type, deletes, f)
            || survives_beneath(value.field_type, deletes, f),
    }
}

/// Whether `after` is the column `before` with the attributes that were last recorded for it: those
/// of its updated form, where there is one, and else its own. A column that holds no fields has its
/// recorded type too; one that does stays a struct, a list or a map.
pub open spec fn shows(before: FieldView, updates: Map<i32, FieldView>, after: FieldView) -> bool {
    let recorded = if updates.contains_key(before.id) {
        updates[before.id]
    } else {
        before
    };
    &&& after.id == recorded.id
    &&& after.name == recorded.name
    &&& after.required == recorded.required
    &&& after.doc == recorded.doc
    &&& after.initial_default == recorded.initial_default
    &&& after.write_default == recorded.write_default
    &&& match before.field_type {
        TypeView::Primitive(_) | TypeView::Variant => after.field_type == recorded.field_type,
        TypeView::Struct(_) => after.field_type is Struct,
        TypeView::List(_) => after.field_type is List,
        TypeView::MapOf(_, _) => after.field_type is MapOf,
    }
}

/// Whatever the type of a field, its rebuilt form has the name, the nullability, the documentation
/// and the defaults that were last recorded for it.
pub proof fn law_rebuilt_fields_have_their_recorded_attributes(
    field: FieldView,
    changes: ChangesView,
)
    requires
        rebuilt_field(field, changes) is Ok,
    ensures
        shows(field, changes.updates, rebuilt_field(field, changes)->Ok_0),
{
}

/// The fields of a collection have their recorded nullability, and where they hold no fields their
/// recorded type, at whatever depth; the key of a map stays as it is.
pub proof fn law_rebuilt_collections_have_their_recorded_types(
    field: FieldView,
    changes: ChangesView,
)
    requires
        rebuilt_field(field, changes) is Ok,
    ensures
        match (field.field_type, rebuilt_field(field, changes)->Ok_0.field_type) {
            (TypeView::List(before), TypeView::List(after)) => exists|inner: FieldView|
                #![trigger shows(*before, changes.updates, inner)]
                {
                    &&& shows(*before, changes.updates, inner)
                    &&& rebuilt_field(*before, changes) == Ok::<FieldView, ErrorView>(inner)
                    &&& after.id == inner.id
                    &&& after.required == inner.required
                    &&& after.field_type == inner.field_type
                },
            (TypeView::MapOf(key, before), TypeView::MapOf(new_key, after)) => {
                &&& new_key == key
                &&& exists|inner: FieldView|
                    #![trigger shows(*before, changes.updates, inner)]
                    {
                        &&& shows(*before, changes.updates, inner)
                        &&& rebuilt_field(*before, changes) == Ok::<FieldView, ErrorView>(inner)
                        &&& after.id == inner.id
                        &&& after.required == inner.required
                        &&& after.field_type == inner.field_type
                    }
            },
            (TypeView::List(_), _) | (TypeView::MapOf(_, _), _) => false,
            _ => true,
        },
{
    match field.field_type {
        TypeView::List(before) => {
            law_rebuilt_fields_have_their_recorded_attributes(*before, changes);
            assert(shows(*before, changes.updates, rebuilt_field(*before, changes)->Ok_0));
        },
        TypeView::MapOf(_, before) => {
            law_rebuilt_fields_have_their_recorded_attributes(*before, changes);
            assert(shows(*before, changes.updates, rebuilt_field(*before, changes)->Ok_0));
        },
        _ => {},
    }
}

proof fn lemma_kept(
    fields: Seq<FieldView>,
    i: nat,
    changes: ChangesView,
    done: Seq<FieldView>,
)
    requires
        rebuilt_from(fields, i, changes, done) is Ok,
    ensures
        ({
            let kept = rebuilt_from(fields, i, changes, done)->Ok_0;
            &&& forall|j: int| 0 <= j < done.len() ==> kept.contains(#[trigger] done[j])
            &&& forall|j: int|
                i <= j < fields.len() ==> rebuilt_field(#[trigger] fields[j], changes) is Ok && (
                !changes.deletes.contains(fields[j].id) ==> kept.contains(
                    rebuilt_field(fields[j], changes)->Ok_0,
                ))
        }),
    decreases fields.len() - i,
{
    let kept = rebuilt_from(fields, i, changes, done)->Ok_0;
    if i < fields.len() {
        let field = rebuilt_field(fields[i as int], changes)->Ok_0;
        if changes.deletes.contains(fields[i as int].id) {
            lemma_kept(fields, i + 1, changes, done);
        } else {
            let more = done.push(field);
            lemma_kept(fields, i + 1, changes, more);
            assert(kept.contains(more[done.len() as int]));
            assert forall|j: int| 0 <= j < done.len() implies kept.contains(#[trigger] done[j]) by {
                assert(kept.contains(more[j]));
            }
        }
    } else {
        assert forall|j: int| 0 <= j < done.len() implies kept.contains(#[trigger] done[j]) by {
            assert(kept[j] == done[j]);
        }
    }
}

proof fn lemma_with_added(
    changes: ChangesView,
    parent: Option<i32>,
    i: nat,
    done: Seq<FieldView>,
)
    requires
        with_added(changes, parent, i, done) is Ok,
    ensures
        ({
            let all = with_added(changes, parent, i, done)->Ok_0;
            &&& forall|j: int| 0 <= j < done.len() ==> all.contains(#[trigger] done[j])
            &&& forall|k: int|
                i <= k < changes.additions.len() && (#[trigger] changes.additions[k]).0 == parent
                    ==> changes.updates.contains_key(changes.additions[k].1) && all.contains(
                    changes.updates[changes.additions[k].1],
                )
        }),
    decreases changes.additions.len() - i,
{
    let all = with_added(changes, parent, i, done)->Ok_0;
    if i < changes.additions.len() {
        if changes.additions[i as int].0 != parent {
            lemma_with_added(changes, parent, i + 1, done);
        } else {
            let field = changes.updates[changes.additions[i as int].1];
            let more = done.push(field);
            lemma_with_added(changes, parent, i + 1, more);
            assert(all.contains(more[done.len() as int]));
            assert forall|j: int| 0 <= j < done.len() implies all.contains(#[trigger] done[j]) by {
                assert(all.contains(more[j]));
            }
        }
    } else {
        assert forall|j: int| 0 <= j < done.len() implies all.contains(#[trigger] done[j]) by {
            assert(all[j] == done[j]);
        }
    }
}

/// A rebuilt struct holds every field that is not deleted, in its rebuilt form, and every column
/// that was added to it, as it was recorded.
pub proof fn law_rebuilt_structs_hold_their_fields(
    fields: Seq<FieldView>,
    changes: ChangesView,
    parent: Option<i32>,
)
    requires
        rebuilt_fields(fields, changes, parent) is Ok,
    ensures
        ({
            let rebuilt = rebuilt_fields(fields, changes, parent)->Ok_0;
            &&& forall|i: int|
                0 <= i < fields.len() && !changes.deletes.contains((#[trigger] fields[i]).id)
                    ==> rebuilt_field(fields[i], changes) is Ok && rebuilt.contains(
                    rebuilt_field(fields[i], changes)->Ok_0,
                )
            &&& forall|k: int|
                0 <= k < changes.additions.len() && (#[trigger] changes.additions[k]).0 == parent
                    ==> changes.updates.contains_key(changes.additions[k].1) && rebuilt.contains(
                    changes.updates[changes.additions[k].1],
                )
        }),
{
    broadcast use vstd::seq_lib::group_to_multiset_ensures;

    let kept = rebuilt_from(fields, 0, changes, Seq::empty())->Ok_0;
    let all = with_added(changes, parent, 0, kept)->Ok_0;
    let moves = moves_within(changes.moves, parent, 0, Seq::empty());
    let rebuilt = rebuilt_fields(fields, changes, parent)->Ok_0;
    lemma_kept(fields, 0, changes, Seq::empty());
    lemma_with_added(changes, parent, 0, kept);
    law_moves_keep_every_field(all, moves, 0);
    assert forall|f: FieldView| #[trigger] all.contains(f) implies rebuilt.contains(f) by {
        assert(all.to_multiset().count(f) > 0);
        assert(rebuilt.to_multiset().count(f) > 0);
    }
    assert forall|i: int|
        0 <= i < fields.len() && !changes.deletes.contains(
            (#[trigger] fields[i]).id,
        ) implies rebuilt_field(fields[i], changes) is Ok && rebuilt.contains(
        rebuilt_field(fields[i], changes)->Ok_0,
    ) by {
        let field = rebuilt_field(fields[i], changes)->Ok_0;
        assert(kept.contains(field));
        let j = choose|j: int| 0 <= j < kept.len() && kept[j] == field;
        assert(all.contains(kept[j]));
    }
    assert forall|k: int|
        0 <= k < changes.additions.len() && (#[trigger] changes.additions[k]).0
            == parent implies changes.updates.contains_key(changes.additions[k].1)
        && rebuilt.contains(changes.updates[changes.additions[k].1]) by {
        assert(all.contains(changes.updates[changes.additions[k].1]));
    }
}

proof fn lemma_shows_within(
    fields: Seq<FieldView>,
    changes: ChangesView,
    parent: Option<i32>,
    f: FieldView,
)
    requires
        rebuilt_fields(fields, changes, parent) is Ok,
        survives_within(fields, changes.deletes, f),
    ensures
        exists|g: FieldView| #[trigger]
            lies_within(rebuilt_fields(fields, changes, parent)->Ok_0, g) && shows(
                f,
                changes.updates,
                g,
            ),
    decreases fields, fields.len() + 1,
{
    let rebuilt = rebuilt_fields(fields, changes, parent)->Ok_0;
    law_rebuilt_structs_hold_their_fields(fields, changes, parent);
    let i = choose|i: int|
        0 <= i < fields.len() && !changes.deletes.contains((#[trigger] fields[i]).id) && (fields[i]
            == f || survives_beneath(fields[i].field_type, changes.deletes, f));
    let after = rebuilt_field(fields[i], changes)->Ok_0;
    let k = choose|k: int| 0 <= k < rebuilt.len() && rebuilt[k] == after;
    if fields[i] == f {
        law_rebuilt_fields_have_their_recorded_attributes(f, changes);
        assert(rebuilt[k] == after);
        assert(lies_within(rebuilt, after));
    } else {
        lemma_shows_beneath(fields[i], changes, f);
        let g = choose|g: FieldView| #[trigger]
            lies_beneath(after.field_type, g) && shows(f, changes.updates, g);
        assert(lies_beneath(rebuilt[k].field_type, g));
        assert(lies_within(rebuilt, g));
    }
}

proof fn lemma_shows_beneath(field: FieldView, changes: ChangesView, f: FieldView)
    requires
        rebuilt_field(field, changes) is Ok,
        survives_beneath(field.field_type, changes.deletes, f),
    ensures
        exists|g: FieldView| #[trigger]
            lies_beneath(rebuilt_field(field, changes)->Ok_0.field_type, g) && shows(
                f,
                changes.updates,
                g,
            ),
    decreases field, 0nat,
{
    let after = rebuilt_field(field, changes)->Ok_0;
    match field.field_type {
        TypeView::Primitive(_) | TypeView::Variant => {},
        TypeView::Struct(fields) => {
            lemma_shows_within(fields, changes, Some(field.id), f);
            let rebuilt = rebuilt_fields(fields, changes, Some(field.id))->Ok_0;
            let g = choose|g: FieldView| #[trigger]
                lies_within(rebuilt, g) && shows(f, changes.updates, g);
            assert(lies_beneath(after.field_type, g));
        },
        TypeView::List(element) => {
            lemma_shows_beneath(*element, changes, f);
            let inner = rebuilt_field(*element, changes)->Ok_0;
            let g = choose|g: FieldView| #[trigger]
                lies_beneath(inner.field_type, g) && shows(f, changes.updates, g);
            assert(lies_beneath(after.field_type, g));
        },
        TypeView::MapOf(key, value) => {
            if survives_beneath(key.field_type, changes.deletes, f) {
                lemma_shows_beneath(*key, changes, f);
                let g = choose|g: FieldView| #[trigger]
                    lies_beneath(key.field_type, g) && shows(f, changes.updates, g);
                assert(lies_beneath(after.field_type, g));
            } else {
                lemma_shows_beneath(*value, changes, f);
                let inner = rebuilt_field(*value, changes)->Ok_0;
                let g = choose|g: FieldView| #[trigger]
                    lies_beneath(inner.field_type, g) && shows(f, changes.updates, g);
                assert(lies_beneath(after.field_type, g));
            }
        },
    }
}

/// Every column of the original schema that is not deleted, nor within one that is, is in the
/// updated schema, with all that was recorded for it, at whatever depth it lies.
pub proof fn law_recorded_changes_show(p: PendingView, f: FieldView)
    requires
        applied(p) is Ok,
        survives_within(p.schema.fields, p.changes.deletes, f),
    ensures
        exists|g: FieldView| #[trigger]
            lies_within(applied(p)->Ok_0.fields, g) && shows(f, p.changes.updates, g),
{
    lemma_shows_within(p.schema.fields, p.changes, None, f);
}

/// Every column that was added at the root is in the updated schema, as it was recorded.
pub proof fn law_added_columns_show(p: PendingView, k: int)
    requires
        applied(p) is Ok,
        0 <= k < p.changes.additions.len(),
        p.changes.additions[k].0 is None,
    ensures
        p.changes.updates.contains_key(p.changes.additions[k].1),
        applied(p)->Ok_0.fields.contains(p.changes.updates[p.changes.additions[k].1]),
{
    law_rebuilt_structs_hold_their_fields(p.schema.fields, p.changes, None);
    assert(p.changes.additions[k].0 == None::<i32>);
}

/// Whether one of `fields`, or a field anywhere beneath them, is a struct with the given ID and
/// members, where no member of a struct on the way to it is deleted.
pub open spec fn struct_within(
    fields: Seq<FieldView>,
    deletes: Set<i32>,
    id: i32,
    members: Seq<FieldView>,
) -> bool
    decreases fields, 0nat,
{
    exists|i: int|
        0 <= i < fields.len() && !deletes.contains((#[trigger] fields[i]).id) && struct_at(
            fields[i],
            deletes,
            id,
            members,
        )
}

/// Whether a field, or one anywhere beneath it, is a struct with the given ID and members, where no
/// member of a struct on the way to it is deleted.
pub open spec fn struct_at(
    field: FieldView,
    deletes: Set<i32>,
    id: i32,
    members: Seq<FieldView>,
) -> bool
    decreases field, 1nat,
{
    match field.field_type {
        TypeView::Primitive(_) | TypeView::Variant => false,
        TypeView::Struct(fields) => (field.id == id && fields == members) || struct_within(
            fields,
            deletes,
            id,
            members,
        ),
        TypeView::List(element) => struct_at(*element, deletes, id, members),
        TypeView::MapOf(key, value) => struct_at(*key, deletes, id, members) || struct_at(
            *value,
            deletes,
            id,
            members,
        ),
    }
}

proof fn lemma_structs_within(
    fields: Seq<FieldView>,
    changes: ChangesView,
    parent: Option<i32>,
    id: i32,
    members: Seq<FieldView>,
)
    requires
        well_keyed(changes.updates),
        rebuilt_fields(fields, changes, parent) is Ok,
        struct_within(fields, changes.deletes, id, members),
    ensures
        rebuilt_fields(members, changes, Some(id)) is Ok,
        struct_within(
            rebuilt_fields(fields, changes, parent)->Ok_0,
            Set::empty(),
            id,
            rebuilt_fields(members, changes, Some(id))->Ok_0,
        ),
    decreases fields, fields.len() + 1,
{
    let rebuilt = rebuilt_fields(fields, changes, parent)->Ok_0;
    law_rebuilt_structs_hold_their_fields(fields, changes, parent);
    let i = choose|i: int|
        0 <= i < fields.len() && !changes.deletes.contains((#[trigger] fields[i]).id) && struct_at(
            fields[i],
            changes.deletes,
            id,
            members,
        );
    let after = rebuilt_field(fields[i], changes)->Ok_0;
    let k = choose|k: int| 0 <= k < rebuilt.len() && rebuilt[k] == after;
    lemma_structs_at(fields[i], changes, id, members);
    assert(struct_at(
        rebuilt[k],
        Set::empty(),
        id,
        rebuilt_fields(members, changes, Some(id))->Ok_0,
    ));
}

proof fn lemma_structs_at(
    field: FieldView,
    changes: ChangesView,
    id: i32,
    members: Seq<FieldView>,
)
    requires
        well_keyed(changes.updates),
        rebuilt_field(field, changes) is Ok,
        struct_at(field, changes.deletes, id, members),
    ensures
        rebuilt_fields(members, changes, Some(id)) is Ok,
        struct_at(
            rebuilt_field(field, changes)->Ok_0,
            Set::empty(),
            id,
            rebuilt_fields(members, changes, Some(id))->Ok_0,
        ),
    decreases field, 0nat,
{
    match field.field_type {
        TypeView::Primitive(_) | TypeView::Variant => {},
        TypeView::Struct(fields) => {
            if field.id == id && fields == members {
            } else {
                lemma_structs_within(fields, changes, Some(field.id), id, members);
            }
        },
        TypeView::List(element) => {
            lemma_structs_at(*element, changes, id, members);
            let after = rebuilt_field(field, changes)->Ok_0;
            let inner = rebuilt_field(*element, changes)->Ok_0;
            lemma_same_structs(
                inner,
                *after.field_type->List_0,
                id,
                rebuilt_fields(members, changes, Some(id))->Ok_0,
            );
        },
        TypeView::MapOf(key, value) => {
            if struct_at(*key, changes.deletes, id, members) {
                lemma_structs_at(*key, changes, id, members);
            } else {
                lemma_structs_at(*value, changes, id, members);
                let after = rebuilt_field(field, changes)->Ok_0;
                let inner = rebuilt_field(*value, changes)->Ok_0;
                lemma_same_structs(
                    inner,
                    *after.field_type->MapOf_1,
                    id,
                    rebuilt_fields(members, changes, Some(id))->Ok_0,
                );
            }
        },
    }
}

proof fn lemma_same_structs(a: FieldView, b: FieldView, id: i32, members: Seq<FieldView>)
    requires
        a.id == b.id,
        a.field_type == b.field_type,
        struct_at(a, Set::empty(), id, members),
    ensures
        struct_at(b, Set::empty(), id, members),
{
}

/// Every struct of the original schema that is not deleted, nor within a column that is, is in the
/// updated schema under its ID, with its fields rebuilt, at whatever depth it lies: in a struct, in
/// a list or in a map.
pub proof fn law_structs_are_rebuilt_at_every_depth(
    p: PendingView,
    id: i32,
    members: Seq<FieldView>,
)
    requires
        well_keyed(p.changes.updates),
        applied(p) is Ok,
        struct_within(p.schema.fields, p.changes.deletes, id, members),
    ensures
        rebuilt_fields(members, p.changes, Some(id)) is Ok,
        struct_within(
            applied(p)->Ok_0.fields,
            Set::empty(),
            id,
            rebuilt_fields(members, p.changes, Some(id))->Ok_0,
        ),
{
    lemma_structs_within(p.schema.fields, p.changes, None, id, members);
}

/// Every column that was added to a struct that is not deleted is in that struct of the updated
/// schema, as it was recorded, at whatever depth the struct lies.
pub proof fn law_nested_additions_show(
    p: PendingView,
    id: i32,
    members: Seq<FieldView>,
    k: int,
)
    requires
        well_keyed(p.changes.updates),
        applied(p) is Ok,
        struct_within(p.schema.fields, p.changes.deletes, id, members),
        0 <= k < p.changes.additions.len(),
        p.changes.additions[k].0 == Some(id),
    ensures
        p.changes.updates.contains_key(p.changes.additions[k].1),
        exists|after: Seq<FieldView>| #[trigger]
            struct_within(applied(p)->Ok_0.fields, Set::empty(), id, after) && after.contains(
                p.changes.updates[p.changes.additions[k].1],
            ),
{
    law_structs_are_rebuilt_at_every_depth(p, id, members);
    law_rebuilt_structs_hold_their_fields(members, p.changes, Some(id));
    let after = rebuilt_fields(members, p.changes, Some(id))->Ok_0;
    assert(p.changes.additions[k].0 == Some(id));
    assert(struct_within(applied(p)->Ok_0.fields, Set::empty(), id, after));
}

/// Whether a field stands where a move asks for: at the front, or next to its reference.
pub open spec fn in_place(fields: Seq<FieldView>, pending: PendingMove) -> bool {
    exists|at: int|
        {
            &&& 0 <= at < fields.len()
            &&& (#[trigger] fields[at]).id == pending.field_id
            &&& pending.kind == MoveKind::First ==> at == 0
            &&& pending.kind == MoveKind::Before ==> at + 1 < fields.len() && Some(
                fields[at + 1].id,
            ) == pending.reference_field_id
            &&& pending.kind == MoveKind::After ==> at > 0 && Some(fields[at - 1].id)
                == pending.reference_field_id
        }
}

proof fn lemma_last_move(fields: Seq<FieldView>, moves: Seq<PendingMove>)
    requires
        moves.len() > 0,
        all_moved(fields, moves, 0).1 is Ok,
    ensures
        in_place(all_moved(fields, moves, 0).0, moves.last()),
{
    let earlier = moves.drop_last();
    assert(moves =~= earlier.push(moves.last()));
    law_moves_take_effect_in_order(fields, earlier, moves.last());
    let before = all_moved(fields, earlier, 0).0;
    law_move_lands_next_to_its_reference(before, moves.last());
}

/// The last recorded move within a struct has put its field where it was asked to go.
pub proof fn law_the_last_move_of_a_struct_shows(
    fields: Seq<FieldView>,
    changes: ChangesView,
    parent: Option<i32>,
    k: int,
)
    requires
        rebuilt_fields(fields, changes, parent) is Ok,
        0 <= k < changes.moves.len(),
        changes.moves[k].0 == parent,
        forall|j: int| k < j < changes.moves.len() ==> (#[trigger] changes.moves[j]).0 != parent,
    ensures
        in_place(rebuilt_fields(fields, changes, parent)->Ok_0, changes.moves[k].1),
{
    let kept = rebuilt_from(fields, 0, changes, Seq::empty())->Ok_0;
    let all = with_added(changes, parent, 0, kept)->Ok_0;
    let moves = moves_within(changes.moves, parent, 0, Seq::empty());
    law_all_moves_of_a_struct_count(changes.moves, parent);
    lemma_last_of_parent(changes.moves, parent, k);
    lemma_last_move(all, moves);
}

proof fn lemma_last_of_parent(
    moves: Seq<(Option<i32>, PendingMove)>,
    parent: Option<i32>,
    k: int,
)
    requires
        0 <= k < moves.len(),
        moves[k].0 == parent,
        forall|j: int| k < j < moves.len() ==> (#[trigger] moves[j]).0 != parent,
    ensures
        ({
            let mine = moves.filter(
                |recorded: (Option<i32>, PendingMove)| recorded.0 == parent,
            );
            mine.len() > 0 && mine.last() == moves[k]
        }),
    decreases moves.len(),
{
    reveal(Seq::filter);
    let of_parent = |recorded: (Option<i32>, PendingMove)| recorded.0 == parent;
    let earlier = moves.drop_last();
    if k == moves.len() - 1 {
        assert(of_parent(moves.last()));
    } else {
        assert(moves[moves.len() - 1].0 != parent);
        assert forall|j: int| k < j < earlier.len() implies (#[trigger] earlier[j]).0 != parent by {
            assert(earlier[j] == moves[j]);
        }
        assert(earlier[k] == moves[k]);
        lemma_last_of_parent(earlier, parent, k);
    }
}

/// The last recorded move within a struct that is not deleted shows in the updated schema, at
/// whatever depth the struct lies.
pub proof fn law_nested_moves_show(p: PendingView, id: i32, members: Seq<FieldView>, k: int)
    requires
        well_keyed(p.changes.updates),
        applied(p) is Ok,
        struct_within(p.schema.fields, p.changes.deletes, id, members),
        0 <= k < p.changes.moves.len(),
        p.changes.moves[k].0 == Some(id),
        forall|j: int|
            k < j < p.changes.moves.len() ==> (#[trigger] p.changes.moves[j]).0 != Some(id),
    ensures
        exists|after: Seq<FieldView>| #[trigger]
            struct_within(applied(p)->Ok_0.fields, Set::empty(), id, after) && in_place(
                after,
                p.changes.moves[k].1,
            ),
{
    law_structs_are_rebuilt_at_every_depth(p, id, members);
    law_the_last_move_of_a_struct_shows(members, p.changes, Some(id), k);
    let after = rebuilt_fields(members, p.changes, Some(id))->Ok_0;
    assert(struct_within(applied(p)->Ok_0.fields, Set::empty(), id, after));
}

} // verus!
