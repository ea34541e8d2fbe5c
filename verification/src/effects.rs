//! What each operation on a column asks for, when it succeeds, and what comes of it.

use vstd::prelude::*;

#[allow(unused_imports)]
use crate::action::{AddView, OperationView};
#[allow(unused_imports)]
use crate::added_columns::converts_to;
#[allow(unused_imports)]
use crate::changes::ChangesView;
#[allow(unused_imports)]
use crate::defaults::{coerced_default, coerced_field};
#[allow(unused_imports)]
use crate::error::ErrorView;
#[allow(unused_imports)]
use crate::fresh_ids::fresh_field;
#[allow(unused_imports)]
use crate::laws::updates_a_column;
#[allow(unused_imports)]
use crate::literal::LiteralView;
#[allow(unused_imports)]
use crate::moves::{MoveKind, PendingMove, PositionView};
#[allow(unused_imports)]
use crate::pending::{
    add_checked, add_column, applied, delete_column, deletion_problem, enclosing_problem,
    first_deletion_problem, initial_state, known_identifiers, move_column, new_field, rename_column,
    set_required, update_default, update_doc, update_type, PendingView,
};
#[allow(unused_imports)]
use crate::replay::operated;
#[allow(unused_imports)]
use crate::schema::SchemaView;
#[allow(unused_imports)]
use crate::shown_changes::{law_recorded_changes_show, lies_within, shows, survives_within};
#[allow(unused_imports)]
use crate::text::dotted;
#[allow(unused_imports)]
use crate::tree::well_keyed;
#[allow(unused_imports)]
use crate::type_promotion::{promoted_default, promotes};
#[allow(unused_imports)]
use crate::types::{FieldView, PrimitiveType, TypeView};

verus! {

/// The name of the column that an operation on an attribute of a column is about.
pub open spec fn subject(operation: OperationView) -> Seq<char> {
    match operation {
        OperationView::Rename { name, .. } => name,
        OperationView::SetRequired { name, .. } => name,
        OperationView::UpdateType { name, .. } => name,
        OperationView::UpdateDoc { name, .. } => name,
        OperationView::UpdateDefault { name, .. } => name,
        _ => Seq::empty(),
    }
}

/// Whether a column has what an operation asks for: the name, the nullability, the type or the
/// documentation that was given, or the write default that was given, converted to its type.
pub open spec fn as_asked(
    operation: OperationView,
    field: FieldView,
    texts: Seq<(u64, Seq<char>)>,
) -> bool {
    match operation {
        OperationView::Rename { new_name, .. } => field.name == new_name,
        OperationView::SetRequired { required, .. } => field.required == required,
        OperationView::UpdateType { new_type, .. } => field.field_type == TypeView::Primitive(
            new_type,
        ),
        OperationView::UpdateDoc { doc, .. } => field.doc == doc,
        OperationView::UpdateDefault { default, .. } => converts_to(
            field.field_type,
            default,
            field.write_default,
            texts,
        ),
        _ => true,
    }
}

/// The field that was recorded last for a column of the original schema, or the column itself.
pub open spec fn recorded(p: PendingView, field: FieldView) -> FieldView {
    if p.changes.updates.contains_key(field.id) {
        p.changes.updates[field.id]
    } else {
        field
    }
}

/// An operation on an attribute of a column that succeeds has recorded what it asked for, whether
/// the column is one of the original schema or one that was added.
pub proof fn law_column_updates_take_effect(
    p: PendingView,
    operation: OperationView,
    field: FieldView,
)
    requires
        well_keyed(p.changes.updates),
        updates_a_column(operation),
        operated(p, operation).1 is Ok,
    ensures
        ({
            let q = operated(p, operation).0;
            let found = p.resolve(subject(operation));
            let added = if p.case_sensitive {
                subject(operation)
            } else {
                crate::text::lower(subject(operation))
            };
            &&& found is Ok
            &&& found == Ok::<Option<FieldView>, ErrorView>(Some(field)) ==> as_asked(
                operation,
                recorded(q, field),
                p.texts,
            )
            &&& found->Ok_0 is None ==> {
                &&& operation !is Rename
                &&& p.added_names.contains_key(added)
                &&& as_asked(operation, q.changes.updates[p.added_names[added]], p.texts)
            }
        }),
{
    reveal(operated);
    let name = subject(operation);
    if let OperationView::UpdateDefault { default, .. } = operation {
        if let Ok(Some(before)) = p.for_update(name) {
            assert(coerced_default(before.field_type, default, name, p.texts) is Ok);
            let got = coerced_default(before.field_type, default, name, p.texts)->Ok_0;
            assert(converts_to(before.field_type, default, got, p.texts));
        }
    }
}

/// The current form of the column that an operation other than a renaming is about, if there is
/// one: a column of the original schema as it was last recorded, or else an added one.
pub open spec fn current(p: PendingView, name: Seq<char>) -> Option<FieldView> {
    match p.resolve(name) {
        Err(_) => None,
        Ok(Some(field)) => Some(recorded(p, field)),
        Ok(None) => {
            let key = if p.case_sensitive {
                name
            } else {
                crate::text::lower(name)
            };
            if p.added_names.contains_key(key) && p.changes.updates.contains_key(
                p.added_names[key],
            ) {
                Some(p.changes.updates[p.added_names[key]])
            } else {
                None
            }
        },
    }
}

/// When operations on an attribute of a column succeed. There must be such a column, and it must not
/// be one that is to be deleted. Besides, a column becomes required only where that is allowed, or
/// where it was added with an initial default; a type can only be one that the current one promotes
/// to, with the defaults promoted; and a default must be one that can be converted. Nothing else
/// keeps them from succeeding.
pub proof fn law_when_column_updates_succeed(
    p: PendingView,
    name: Seq<char>,
    new_name: Seq<char>,
    doc: Option<Seq<char>>,
    required: bool,
    new_type: PrimitiveType,
    default: Option<LiteralView>,
)
    requires
        well_keyed(p.changes.updates),
    ensures
        rename_column(p, name, new_name).1 is Ok <==> {
            &&& p.resolve(name) matches Ok(Some(field))
            &&& !p.changes.deletes.contains(field.id)
        },
        update_doc(p, name, doc).1 is Ok <==> {
            &&& current(p, name) matches Some(field)
            &&& !p.changes.deletes.contains(field.id)
        },
        set_required(p, name, required).1 is Ok <==> {
            &&& current(p, name) matches Some(field)
            &&& {
                ||| field.required == required
                ||| {
                    &&& !p.changes.deletes.contains(field.id)
                    &&& {
                        ||| !required
                        ||| p.allow_incompatible
                        ||| field.initial_default is Some && exists|full: Seq<char>| #[trigger]
                            p.added_names.contains_key(full) && p.added_names[full] == field.id
                    }
                }
            }
        },
        update_default(p, name, default).1 is Ok <==> {
            &&& current(p, name) matches Some(field)
            &&& !p.changes.deletes.contains(field.id)
            &&& coerced_default(field.field_type, default, name, p.texts) is Ok
        },
        update_type(p, name, new_type).1 is Ok ==> {
            &&& current(p, name) matches Some(field)
            &&& !p.changes.deletes.contains(field.id)
            &&& field.field_type == TypeView::Primitive(new_type) || promotes(
                field.field_type,
                new_type,
            )
        },
        (current(p, name) matches Some(field) && {
            &&& !p.changes.deletes.contains(field.id)
            &&& new_type matches PrimitiveType::Decimal { precision, .. } ==> 1 <= precision <= 38
            &&& field.field_type == TypeView::Primitive(new_type) || (promotes(
                field.field_type,
                new_type,
            ) && field.initial_default is None && field.write_default is None)
        }) ==> update_type(p, name, new_type).1 is Ok,
{
    assert(p.for_update(name) == match current(p, name) {
        Some(field) => Ok::<Option<FieldView>, ErrorView>(Some(field)),
        None => match p.resolve(name) {
            Err(error) => Err(error),
            Ok(_) => Ok(None),
        },
    });
}

/// Deleting a column succeeds exactly where the original schema has it and it was neither updated
/// nor added to. It is then marked, and nothing else changes.
pub proof fn law_deletion(p: PendingView, name: Seq<char>, field: FieldView)
    requires
        p.resolve(name) == Ok::<Option<FieldView>, ErrorView>(Some(field)),
    ensures
        delete_column(p, name).1 is Ok <==> {
            &&& !p.changes.updates.contains_key(field.id)
            &&& forall|k: int|
                0 <= k < p.changes.additions.len() ==> (#[trigger] p.changes.additions[k]).0 != Some(
                    field.id,
                )
        },
        delete_column(p, name).1 is Ok ==> delete_column(p, name).0 == (PendingView {
            changes: ChangesView {
                deletes: p.changes.deletes.insert(field.id),
                ..p.changes
            },
            ..p
        }),
{
}

/// A deletion, a renaming or a move of a column that does not exist fails.
pub proof fn law_missing_columns_are_refused(
    p: PendingView,
    name: Seq<char>,
    new_name: Seq<char>,
)
    requires
        !(p.resolve(name) matches Ok(Some(_))),
    ensures
        delete_column(p, name).1 is Err,
        rename_column(p, name, new_name).1 is Err,
{
}

/// What was recorded for a column of the original schema, by an operation that succeeded, shows in
/// the schema that the update leads to, at whatever depth the column lies, where neither it nor a
/// column that encloses it is deleted.
pub proof fn law_column_updates_show(p: PendingView, operation: OperationView, field: FieldView)
    requires
        well_keyed(p.changes.updates),
        updates_a_column(operation),
        operated(p, operation).1 is Ok,
        p.resolve(subject(operation)) == Ok::<Option<FieldView>, ErrorView>(Some(field)),
        applied(operated(p, operation).0) is Ok,
        survives_within(
            operated(p, operation).0.schema.fields,
            operated(p, operation).0.changes.deletes,
            field,
        ),
    ensures
        exists|after: FieldView|
            {
                &&& #[trigger] lies_within(applied(operated(p, operation).0)->Ok_0.fields, after)
                &&& after.id == field.id
                &&& {
                    ||| field.field_type is Primitive
                    ||| operation is Rename
                    ||| operation is SetRequired
                    ||| operation is UpdateDoc
                } ==> as_asked(operation, after, p.texts)
            },
{
    let q = operated(p, operation).0;
    law_column_updates_take_effect(p, operation, field);
    crate::laws::law_column_updates_keep_the_rest(p, operation);
    law_recorded_changes_show(q, field);
    let after = choose|after: FieldView| #[trigger]
        lies_within(applied(q)->Ok_0.fields, after) && shows(field, q.changes.updates, after);
    assert(lies_within(applied(q)->Ok_0.fields, after));
}

/// The field that a name stands for in a move: an added column of that name, or else a column of the
/// original schema.
pub open spec fn moving(p: PendingView, name: Seq<char>) -> Option<i32> {
    let key = if p.case_sensitive {
        name
    } else {
        crate::text::lower(name)
    };
    if p.added_names.contains_key(key) {
        Some(p.added_names[key])
    } else {
        match p.resolve(name) {
            Ok(Some(field)) => Some(field.id),
            _ => None,
        }
    }
}

/// A move that succeeds is recorded last, for the struct that holds the column, with the place that
/// was asked for: the front, or next to the column that was named, which is another one of the same
/// struct. Nothing else changes.
pub proof fn law_moves_are_recorded(p: PendingView, name: Seq<char>, position: PositionView)
    requires
        move_column(p, name, position).1 is Ok,
    ensures
        ({
            let q = move_column(p, name, position).0;
            let id = moving(p, name)->0;
            let parent = if p.parents.contains_key(id) {
                Some(p.parents[id])
            } else {
                None
            };
            let (at, pending) = q.changes.moves.last();
            &&& moving(p, name) is Some
            &&& q.changes.moves == p.changes.moves.push((parent, pending))
            &&& q == (PendingView {
                changes: ChangesView { moves: q.changes.moves, ..p.changes },
                ..p
            })
            &&& pending.field_id == id
            &&& match position {
                PositionView::First => pending.kind == MoveKind::First,
                PositionView::Before(reference) => {
                    &&& pending.kind == MoveKind::Before
                    &&& pending.reference_field_id == moving(p, reference)
                    &&& pending.reference_field_id is Some
                    &&& pending.reference_field_id != Some(id)
                },
                PositionView::After(reference) => {
                    &&& pending.kind == MoveKind::After
                    &&& pending.reference_field_id == moving(p, reference)
                    &&& pending.reference_field_id is Some
                    &&& pending.reference_field_id != Some(id)
                },
            }
            &&& pending.reference_field_id matches Some(reference) ==> (if p.parents.contains_key(
                reference,
            ) {
                Some(p.parents[reference])
            } else {
                None
            }) == parent
        }),
{
}

/// A move succeeds where the column and its reference, if it has one, are two different columns of
/// the same struct.
pub proof fn law_when_moves_succeed(p: PendingView, name: Seq<char>, position: PositionView)
    requires
        moving(p, name) matches Some(id) && {
            let parent = if p.parents.contains_key(id) {
                Some(p.parents[id])
            } else {
                None
            };
            let reference = match position {
                PositionView::First => None,
                PositionView::Before(other) => Some(other),
                PositionView::After(other) => Some(other),
            };
            &&& parent matches Some(holder) ==> {
                ||| p.changes.updates.contains_key(holder) && p.changes.updates[holder].field_type is Struct
                ||| !p.changes.updates.contains_key(holder) && p.schema.by_id(holder) is Some
                    && p.schema.by_id(holder)->0.field_type is Struct
            }
            &&& reference matches Some(other) ==> {
                &&& moving(p, other) matches Some(other_id)
                &&& other_id != id
                &&& (if p.parents.contains_key(other_id) {
                    Some(p.parents[other_id])
                } else {
                    None
                }) == parent
            }
        },
    ensures
        move_column(p, name, position).1 is Ok,
{
}

/// The two switches take effect at once and change nothing else. At the start names are
/// case-sensitive and incompatible changes are not allowed.
pub proof fn law_switches(
    p: PendingView,
    case_sensitive: bool,
    schema: SchemaView,
    last: i32,
    texts: Seq<(u64, Seq<char>)>,
)
    ensures
        operated(p, OperationView::SetCaseSensitive(case_sensitive)) == (
            PendingView { case_sensitive, ..p },
            Ok::<(), ErrorView>(()),
        ),
        operated(p, OperationView::AllowIncompatibleChanges) == (
            PendingView { allow_incompatible: true, ..p },
            Ok::<(), ErrorView>(()),
        ),
        initial_state(schema, last, texts).case_sensitive,
        !initial_state(schema, last, texts).allow_incompatible,
        initial_state(schema, last, texts).schema == schema,
        initial_state(schema, last, texts).last_column_id == last,
        initial_state(schema, last, texts).replacement is None,
        initial_state(schema, last, texts).identifier_ids == schema.identifier_field_ids,
        initial_state(schema, last, texts).added_names == Map::<Seq<char>, i32>::empty(),
        initial_state(schema, last, texts).added_fields.len() == 0,
        initial_state(schema, last, texts).changes.updates == Map::<i32, FieldView>::empty(),
        initial_state(schema, last, texts).changes.deletes == Set::<i32>::empty(),
        initial_state(schema, last, texts).changes.additions.len() == 0,
        initial_state(schema, last, texts).changes.moves.len() == 0,
{
    reveal(operated);
}

/// The struct that a column is added to under the path of its parent: the column of that name, or
/// what the list or the map of that name holds.
pub open spec fn holder_of(p: PendingView, parent: Seq<char>) -> Option<FieldView> {
    match p.resolve(parent) {
        Ok(Some(field)) => match field.field_type {
            TypeView::Struct(_) => Some(field),
            TypeView::List(element) => if element.field_type is Struct {
                Some(*element)
            } else {
                None
            },
            TypeView::MapOf(_, value) => if value.field_type is Struct {
                Some(*value)
            } else {
                None
            },
            _ => None,
        },
        _ => None,
    }
}

/// A column that is added goes into the struct that was asked for, at the root where no parent was
/// given, and can be found under its full name from then on.
pub proof fn law_columns_are_added_where_asked(p: PendingView, add: AddView)
    requires
        add_column(p, add).1 is Ok,
    ensures
        ({
            let q = add_column(p, add).0;
            let (at, id) = q.changes.additions.last();
            let full = match add.parent {
                None => add.name,
                Some(parent) => match p.schema.name_of(holder_of(p, parent)->0.id) {
                    Some(path) => path + "."@ + add.name,
                    None => parent + "."@ + add.name,
                },
            };
            let key = if p.case_sensitive {
                full
            } else {
                crate::text::lower(full)
            };
            &&& match add.parent {
                None => at is None,
                Some(parent) => {
                    &&& holder_of(p, parent) matches Some(holder)
                    &&& at == Some(holder.id)
                    &&& !p.changes.deletes.contains(holder.id)
                },
            }
            &&& q.added_names == p.added_names.insert(key, id)
            &&& q.schema == p.schema
            &&& q.replacement == p.replacement
            &&& q.identifier_ids == p.identifier_ids
            &&& q.case_sensitive == p.case_sensitive
            &&& q.allow_incompatible == p.allow_incompatible
        }),
{
    let q = add_column(p, add).0;
    let full_name = add_checked(p, add)->Ok_0.1;
    assert(q.changes.additions.last().1 == q.changes.updates[q.changes.additions.last().1].id);
    match add.parent {
        None => {},
        Some(parent) => {
            let holder = holder_of(p, parent)->0;
            match p.schema.name_of(holder.id) {
                Some(path) => assert(full_name =~= path + "."@ + add.name),
                None => assert(full_name =~= parent + "."@ + add.name),
            }
        },
    }
}

/// When a column can be added. At the root it needs a name, without a dot unless the name is meant
/// literally; nested, a struct to go into that is not to be deleted. Its name must be free, or that
/// of a column that is to be deleted; and unless incompatible changes are allowed, a required column
/// needs an initial default. Besides, there must be IDs left, and the defaults must convert.
pub proof fn law_when_columns_can_be_added(p: PendingView, add: AddView)
    ensures
        add_checked(p, add) is Ok <==> {
            let name = match add.parent {
                None => add.name,
                Some(parent) => parent + "."@ + add.name,
            };
            &&& match add.parent {
                None => add.name.len() > 0 && (add.literal_root_name || !add.name.contains('.')),
                Some(parent) => {
                    &&& holder_of(p, parent) matches Some(holder)
                    &&& !p.changes.deletes.contains(holder.id)
                },
            }
            &&& p.resolve(name) matches Ok(taken)
            &&& taken matches Some(field) ==> p.changes.deletes.contains(field.id)
            &&& !add.required || add.initial_default is Some || p.allow_incompatible
        },
        add_column(p, add).1 is Ok <==> {
            let (fresh, _) = fresh_field(new_field(add), p.last_column_id);
            &&& add_checked(p, add) is Ok
            &&& fresh is Ok
            &&& coerced_field(fresh->Ok_0, add_checked(p, add)->Ok_0.1, p.texts) is Ok
        },
{
    if let Some(parent) = add.parent {
        assert(dotted(parent, add.name) =~= parent + "."@ + add.name);
    }
}

/// An updated schema has no ID of its own yet: it is 0 until the schema is added to the table. Where
/// case does not matter, no two of its names differ in case alone.
pub proof fn law_updated_schemas(p: PendingView)
    requires
        applied(p) is Ok,
    ensures
        applied(p)->Ok_0.schema_id == 0,
        p.case_sensitive || applied(p)->Ok_0.collision() is None,
{
}

/// A column whose type changes has both of its defaults carried over to the new type.
pub proof fn law_type_updates_carry_the_defaults(
    p: PendingView,
    name: Seq<char>,
    new_type: PrimitiveType,
    before: FieldView,
)
    requires
        well_keyed(p.changes.updates),
        update_type(p, name, new_type).1 is Ok,
        current(p, name) == Some(before),
    ensures
        ({
            let q = update_type(p, name, new_type).0;
            let wanted = TypeView::Primitive(new_type);
            &&& before.field_type == wanted ==> q == p
            &&& before.field_type != wanted ==> {
                let after = q.changes.updates[before.id];
                &&& before.field_type is Primitive
                &&& q.changes.updates.contains_key(before.id)
                &&& after.field_type == wanted
                &&& promoted_default(
                    before.initial_default,
                    before.field_type->Primitive_0,
                    wanted,
                ) == Ok::<Option<LiteralView>, ErrorView>(after.initial_default)
                &&& promoted_default(
                    before.write_default,
                    before.field_type->Primitive_0,
                    wanted,
                ) == Ok::<Option<LiteralView>, ErrorView>(after.write_default)
            }
        }),
{
}

proof fn lemma_enclosing_problem(p: PendingView, id: i32, name: Seq<char>, fuel: nat)
    ensures
        enclosing_problem(p, Some(id), name, fuel) is None <==> !p.doomed(id, fuel),
    decreases fuel,
{
    if !p.changes.deletes.contains(id) && fuel > 0 && p.parents.contains_key(id) {
        lemma_enclosing_problem(p, p.parents[id], name, (fuel - 1) as nat);
    } else if fuel > 0 {
        assert(enclosing_problem(p, None, name, (fuel - 1) as nat) is None);
    }
}

proof fn lemma_first_deletion_problem(p: PendingView, ids: Seq<i32>, i: nat)
    ensures
        first_deletion_problem(p, ids, i) is None <==> forall|j: int|
            i <= j < ids.len() ==> deletion_problem(p, #[trigger] ids[j]) is None,
    decreases ids.len() - i,
{
    if i < ids.len() {
        lemma_first_deletion_problem(p, ids, i + 1);
    }
}

/// Whether a field that identifies rows stays: it is an added one, or a column of the original schema
/// that is not deleted, nor within one that is.
pub open spec fn stays(p: PendingView, id: i32) -> bool {
    if p.schema.by_id(id) is Some {
        !p.changes.deletes.contains(id) && (p.parents.contains_key(id) ==> !p.will_be_deleted(
            p.parents[id],
        ))
    } else {
        exists|k: int| 0 <= k < p.added_fields.len() && (#[trigger] p.added_fields[k]).1 == id
    }
}

/// The fields that identify rows after an update, as far as they are known before it: those chosen
/// last, or else those of the original schema.
pub open spec fn identifying(p: PendingView) -> Seq<i32> {
    match p.replacement {
        Some(selection) => selection.resolved,
        None => p.identifier_ids,
    }
}

/// Which deletions are refused for the sake of identifier fields: those of fields that identify rows
/// after the update, or that enclose one, and no others.
pub proof fn law_deletions_spare_identifier_fields(p: PendingView)
    ensures
        applied(p) is Ok ==> forall|j: int|
            0 <= j < identifying(p).len() ==> stays(p, #[trigger] identifying(p)[j]),
        (forall|j: int| 0 <= j < identifying(p).len() ==> stays(p, #[trigger] identifying(p)[j]))
            ==> first_deletion_problem(p, known_identifiers(p), 0) is None,
{
    let ids = identifying(p);
    assert(known_identifiers(p) == ids);
    lemma_first_deletion_problem(p, ids, 0);
    assert forall|j: int| 0 <= j < ids.len() implies (stays(p, #[trigger] ids[j]) <==> deletion_problem(
        p,
        ids[j],
    ) is None) by {
        let id = ids[j];
        if p.parents.contains_key(id) {
            if let Some(field) = p.schema.by_id(id) {
                lemma_enclosing_problem(p, p.parents[id], field.name, p.parents.len());
            }
        }
    }
}

} // verus!
