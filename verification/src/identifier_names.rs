//! The names of identifier fields count as a set: neither their order nor repetition matters.

use vstd::prelude::*;

#[allow(unused_imports)]
use crate::action::{distinct_names, AddView, OperationView};
#[allow(unused_imports)]
use crate::changes::ChangesView;
#[allow(unused_imports)]
use crate::column_properties::{
    collected_changes, is_deleted, new_name_of, no_property_changes, property_column,
    PropertyChangesView,
};
#[allow(unused_imports)]
use crate::commit::{
    all_property_changes, commit_of, planned_commit, CommitView, TableView, UpdateView,
};
#[allow(unused_imports)]
use crate::error::ErrorView;
#[allow(unused_imports)]
use crate::laws::{lemma_all_fit, lemma_distinct_ids, lemma_no_problem};
#[allow(unused_imports)]
use crate::literal::LiteralView;
#[allow(unused_imports)]
use crate::moves::PositionView;
#[allow(unused_imports)]
use crate::pending::{
    add_checked, add_column, added_matches, applied, built_schema, delete_column, deletion_problem,
    enclosing_problem, first_deletion_problem, identifier_id, initial_state, known_identifiers,
    move_column, no_selection, rename_column, requested_move, resolved_identifiers,
    selection_of, set_identifier_fields, set_required, struct_parent, update_default, update_doc,
    update_type, updated_identifiers, value_of, Outcome, PendingView, SelectionView,
};
#[allow(unused_imports)]
use crate::replay::{operated, replayed};
#[allow(unused_imports)]
use crate::schema::{
    distinct_ids, first_problem, identifier_problem, same_ids, schema_entries, EntryView,
    SchemaView,
};
#[allow(unused_imports)]
use crate::text::lower;
#[allow(unused_imports)]
use crate::types::{FieldView, PrimitiveType, TypeView};
#[allow(unused_imports)]
use crate::union::{
    matching_field, merge_default, merge_doc, merge_field, merge_nullability, merge_type,
    missing_column, union_beneath, union_field, union_here, union_structs,
};
#[allow(unused_imports)]
use crate::valid_mappings::lemma_same_names;

verus! {

/// Whether two lists hold the same names.
pub open spec fn same_names(a: Seq<Seq<char>>, b: Seq<Seq<char>>) -> bool {
    forall|name: Seq<char>| #[trigger] a.contains(name) <==> b.contains(name)
}

/// Whether two operations are the same, where the names of identifier fields count as a set.
pub open spec fn same_operation(x: OperationView, y: OperationView) -> bool {
    match (x, y) {
        (
            OperationView::SetIdentifierFields(a),
            OperationView::SetIdentifierFields(b),
        ) => same_names(a, b),
        _ => x == y,
    }
}

/// Whether two lists of operations are the same, where the names of identifier fields count as a
/// set.
pub open spec fn same_operations(xs: Seq<OperationView>, ys: Seq<OperationView>) -> bool {
    &&& xs.len() == ys.len()
    &&& forall|i: int| 0 <= i < xs.len() ==> same_operation(#[trigger] xs[i], ys[i])
}

/// Whether two changes to the metadata are the same, where the identifier fields of a schema count
/// as a set.
pub open spec fn same_update(x: UpdateView, y: UpdateView) -> bool {
    match (x, y) {
        (UpdateView::AddSchema(a), UpdateView::AddSchema(b)) => a.schema_id == b.schema_id
            && a.same_as(b),
        _ => x == y,
    }
}

/// Whether two commits are the same, where the identifier fields of a schema count as a set.
pub open spec fn same_commit(x: CommitView, y: CommitView) -> bool {
    &&& x.requirements == y.requirements
    &&& x.warning == y.warning
    &&& x.updates.len() == y.updates.len()
    &&& forall|i: int|
        0 <= i < x.updates.len() ==> same_update(#[trigger] x.updates[i], y.updates[i])
}

/// The same state with another selection of identifier fields.
spec fn beside(p: PendingView, other: Option<SelectionView>) -> PendingView {
    PendingView { replacement: other, ..p }
}

/// Whether a step from `p` led to `result`, and the same step beside another selection to `twin`,
/// the same but for the selection.
spec fn same_step(
    p: PendingView,
    result: (PendingView, Outcome),
    twin: (PendingView, Outcome),
    other: Option<SelectionView>,
) -> bool {
    &&& result.0.replacement == p.replacement
    &&& twin == (beside(result.0, other), result.1)
}

proof fn lemma_add_beside(p: PendingView, add: AddView, other: Option<SelectionView>)
    ensures
        same_step(p, add_column(p, add), add_column(beside(p, other), add), other),
{
    assert(add_checked(beside(p, other), add) == add_checked(p, add));
}

proof fn lemma_delete_beside(
    p: PendingView,
    name: Seq<char>,
    other: Option<SelectionView>,
)
    ensures
        same_step(p, delete_column(p, name), delete_column(beside(p, other), name), other),
{
}

proof fn lemma_rename_beside(
    p: PendingView,
    name: Seq<char>,
    new_name: Seq<char>,
    other: Option<SelectionView>,
)
    ensures
        same_step(p, rename_column(p, name, new_name), rename_column(beside(p, other), name, new_name), other),
{
}

proof fn lemma_set_required_beside(
    p: PendingView,
    name: Seq<char>,
    required: bool,
    other: Option<SelectionView>,
)
    ensures
        same_step(p, set_required(p, name, required), set_required(beside(p, other), name, required), other),
{
}

proof fn lemma_update_type_beside(
    p: PendingView,
    name: Seq<char>,
    new_type: PrimitiveType,
    other: Option<SelectionView>,
)
    ensures
        same_step(p, update_type(p, name, new_type), update_type(beside(p, other), name, new_type), other),
{
}

proof fn lemma_update_doc_beside(
    p: PendingView,
    name: Seq<char>,
    doc: Option<Seq<char>>,
    other: Option<SelectionView>,
)
    ensures
        same_step(p, update_doc(p, name, doc), update_doc(beside(p, other), name, doc), other),
{
}

proof fn lemma_update_default_beside(
    p: PendingView,
    name: Seq<char>,
    default: Option<LiteralView>,
    other: Option<SelectionView>,
)
    ensures
        same_step(p, update_default(p, name, default), update_default(beside(p, other), name, default), other),
{
}

proof fn lemma_merge_nullability_beside(
    p: PendingView,
    name: Seq<char>,
    existing: FieldView,
    new: FieldView,
    other: Option<SelectionView>,
)
    ensures
        same_step(
            p,
            merge_nullability(p, name, existing, new),
            merge_nullability(beside(p, other), name, existing, new),
            other,
        ),
{
    lemma_set_required_beside(p, name, false, other);
}

proof fn lemma_merge_type_beside(
    p: PendingView,
    name: Seq<char>,
    existing: FieldView,
    new: FieldView,
    other: Option<SelectionView>,
)
    ensures
        same_step(
            p,
            merge_type(p, name, existing, new),
            merge_type(beside(p, other), name, existing, new),
            other,
        ),
{
    if let TypeView::Primitive(wanted) = new.field_type {
        lemma_update_type_beside(p, name, wanted, other);
    }
}

proof fn lemma_merge_doc_beside(
    p: PendingView,
    name: Seq<char>,
    existing: FieldView,
    new: FieldView,
    other: Option<SelectionView>,
)
    ensures
        same_step(
            p,
            merge_doc(p, name, existing, new),
            merge_doc(beside(p, other), name, existing, new),
            other,
        ),
{
    lemma_update_doc_beside(p, name, new.doc, other);
}

proof fn lemma_merge_default_beside(
    p: PendingView,
    name: Seq<char>,
    existing: FieldView,
    new: FieldView,
    other: Option<SelectionView>,
)
    ensures
        same_step(
            p,
            merge_default(p, name, existing, new),
            merge_default(beside(p, other), name, existing, new),
            other,
        ),
{
    lemma_update_default_beside(p, name, new.write_default, other);
}

#[verifier::rlimit(40)]
proof fn lemma_merge_beside(
    p: PendingView,
    existing: FieldView,
    new: FieldView,
    other: Option<SelectionView>,
)
    ensures
        same_step(
            p,
            merge_field(p, existing, new),
            merge_field(beside(p, other), existing, new),
            other,
        ),
{
    if let Some(name) = p.schema.name_of(existing.id) {
        lemma_merge_nullability_beside(p, name, existing, new, other);
        let (p1, outcome1) = merge_nullability(p, name, existing, new);
        if outcome1 is Ok {
            lemma_merge_type_beside(p1, name, existing, new, other);
            let (p2, outcome2) = merge_type(p1, name, existing, new);
            if outcome2 is Ok {
                lemma_merge_doc_beside(p2, name, existing, new, other);
                let (p3, outcome3) = merge_doc(p2, name, existing, new);
                if outcome3 is Ok {
                    lemma_merge_default_beside(p3, name, existing, new, other);
                }
            }
        }
    }
}

proof fn lemma_union_here_beside(
    p: PendingView,
    parent: Option<i32>,
    existing: Seq<FieldView>,
    new: Seq<FieldView>,
    i: nat,
    other: Option<SelectionView>,
)
    ensures
        same_step(
            p,
            union_here(p, parent, existing, new, i),
            union_here(beside(p, other), parent, existing, new, i),
            other,
        ),
    decreases new.len() - i,
{
    if i < new.len() {
        let q = beside(p, other);
        let field = new[i as int];
        match matching_field(existing, existing.len(), field.name, p.case_sensitive) {
            None => {
                let add = missing_column(p, parent, field);
                assert(missing_column(q, parent, field) == add);
                lemma_add_beside(p, add, other);
                let (p1, outcome) = add_column(p, add);
                if outcome is Ok {
                    lemma_union_here_beside(p1, parent, existing, new, i + 1, other);
                }
            },
            Some(old) => {
                lemma_merge_beside(p, old, field, other);
                let (p1, outcome) = merge_field(p, old, field);
                if outcome is Ok {
                    lemma_union_here_beside(p1, parent, existing, new, i + 1, other);
                }
            },
        }
    }
}

proof fn lemma_union_beneath_beside(
    p: PendingView,
    existing: Seq<FieldView>,
    new: Seq<FieldView>,
    i: nat,
    other: Option<SelectionView>,
)
    ensures
        same_step(
            p,
            union_beneath(p, existing, new, i),
            union_beneath(beside(p, other), existing, new, i),
            other,
        ),
    decreases new, new.len() - i,
{
    if i < new.len() {
        let field = new[i as int];
        match matching_field(existing, existing.len(), field.name, p.case_sensitive) {
            None => {
                lemma_union_beneath_beside(p, existing, new, i + 1, other);
            },
            Some(old) => {
                lemma_union_field_beside(p, old, field, other);
                let (p1, outcome) = union_field(p, old, field);
                if outcome is Ok {
                    lemma_union_beneath_beside(p1, existing, new, i + 1, other);
                }
            },
        }
    }
}

proof fn lemma_union_structs_beside(
    p: PendingView,
    parent: Option<i32>,
    existing: Seq<FieldView>,
    new: Seq<FieldView>,
    other: Option<SelectionView>,
)
    ensures
        same_step(
            p,
            union_structs(p, parent, existing, new),
            union_structs(beside(p, other), parent, existing, new),
            other,
        ),
    decreases new, new.len() + 1,
{
    lemma_union_beneath_beside(p, existing, new, 0, other);
    let (p1, outcome) = union_beneath(p, existing, new, 0);
    if outcome is Ok {
        lemma_union_here_beside(p1, parent, existing, new, 0, other);
    }
}

proof fn lemma_union_field_beside(
    p: PendingView,
    existing: FieldView,
    new: FieldView,
    other: Option<SelectionView>,
)
    ensures
        same_step(
            p,
            union_field(p, existing, new),
            union_field(beside(p, other), existing, new),
            other,
        ),
    decreases new, 0nat,
{
    match (existing.field_type, new.field_type) {
        (TypeView::Struct(old), TypeView::Struct(wanted)) => {
            lemma_union_structs_beside(p, Some(existing.id), old, wanted, other);
        },
        (TypeView::List(old), TypeView::List(wanted)) => {
            lemma_union_field_beside(p, *old, *wanted, other);
            let (p1, outcome) = union_field(p, *old, *wanted);
            if outcome is Ok {
                lemma_merge_beside(p1, *old, *wanted, other);
            }
        },
        (TypeView::MapOf(old_key, old_value), TypeView::MapOf(key, value)) => {
            lemma_union_field_beside(p, *old_key, *key, other);
            let (p1, outcome1) = union_field(p, *old_key, *key);
            if outcome1 is Ok {
                lemma_union_field_beside(p1, *old_value, *value, other);
                let (p2, outcome2) = union_field(p1, *old_value, *value);
                if outcome2 is Ok {
                    lemma_merge_beside(p2, *old_key, *key, other);
                    let (p3, outcome3) = merge_field(p2, *old_key, *key);
                    if outcome3 is Ok {
                        lemma_merge_beside(p3, *old_value, *value, other);
                    }
                }
            }
        },
        _ => {},
    }
}

proof fn lemma_move_beside(
    p: PendingView,
    name: Seq<char>,
    position: PositionView,
    other: Option<SelectionView>,
)
    ensures
        same_step(
            p,
            move_column(p, name, position),
            move_column(beside(p, other), name, position),
            other,
        ),
{
    let q = beside(p, other);
    assert(q.for_move(name) == p.for_move(name));
    if let Ok(Some(id)) = p.for_move(name) {
        assert(requested_move(q, name, id, position) == requested_move(p, name, id, position));
        let parent = value_of(p.parents, id);
        assert(struct_parent(q, name, parent) == struct_parent(p, name, parent));
    }
}

/// No operation but a selection of identifier fields reads or changes the selection.
#[verifier::rlimit(40)]
proof fn lemma_operation_beside(
    p: PendingView,
    operation: OperationView,
    other: Option<SelectionView>,
)
    requires
        !(operation is SetIdentifierFields),
    ensures
        same_step(p, operated(p, operation), operated(beside(p, other), operation), other),
{
    reveal(operated);
    match operation {
        OperationView::Add(add) => lemma_add_beside(p, add, other),
        OperationView::Delete(name) => lemma_delete_beside(p, name, other),
        OperationView::Rename { name, new_name } => {
            lemma_rename_beside(p, name, new_name, other);
        },
        OperationView::SetRequired { name, required } => {
            lemma_set_required_beside(p, name, required, other);
        },
        OperationView::UpdateType { name, new_type } => {
            lemma_update_type_beside(p, name, new_type, other);
        },
        OperationView::UpdateDoc { name, doc } => lemma_update_doc_beside(p, name, doc, other),
        OperationView::UpdateDefault { name, default } => {
            lemma_update_default_beside(p, name, default, other);
        },
        OperationView::Move { name, position } => lemma_move_beside(p, name, position, other),
        OperationView::UnionByName(new) => {
            lemma_union_structs_beside(p, None, p.schema.fields, new.fields, other);
        },
        _ => {},
    }
}

proof fn lemma_doomed_beside(p: PendingView, id: i32, fuel: nat, other: Option<SelectionView>)
    ensures
        beside(p, other).doomed(id, fuel) == p.doomed(id, fuel),
    decreases fuel,
{
    if fuel > 0 && p.parents.contains_key(id) {
        lemma_doomed_beside(p, p.parents[id], (fuel - 1) as nat, other);
    }
}

proof fn lemma_added_matches_beside(
    p: PendingView,
    name: Seq<char>,
    i: nat,
    live: Option<i32>,
    stale: Option<i32>,
    several: bool,
    other: Option<SelectionView>,
)
    ensures
        added_matches(beside(p, other), name, i, live, stale, several) == added_matches(
            p,
            name,
            i,
            live,
            stale,
            several,
        ),
    decreases p.added_fields.len() - i,
{
    if i < p.added_fields.len() {
        let id = p.added_fields[i as int].1;
        let more = several || live is Some;
        lemma_doomed_beside(p, id, p.parents.len(), other);
        lemma_added_matches_beside(p, name, i + 1, live, stale, several, other);
        lemma_added_matches_beside(p, name, i + 1, live, Some(id), several, other);
        lemma_added_matches_beside(p, name, i + 1, Some(id), stale, more, other);
    }
}

proof fn lemma_identifier_beside(p: PendingView, name: Seq<char>, other: Option<SelectionView>)
    ensures
        identifier_id(beside(p, other), name) == identifier_id(p, name),
{
    lemma_added_matches_beside(p, name, 0, None, None, false, other);
    if let Ok(Some(field)) = p.resolve(name) {
        lemma_doomed_beside(p, field.id, p.parents.len(), other);
    }
}

/// Whether a name is one of `names` from `i` on.
spec fn listed(names: Seq<Seq<char>>, i: nat, name: Seq<char>) -> bool {
    exists|j: int| i <= j < names.len() && #[trigger] names[j] == name
}

/// Whether a name from `i` on stands for the field `id`.
spec fn selects(p: PendingView, names: Seq<Seq<char>>, i: nat, id: i32) -> bool {
    exists|name: Seq<char>| #[trigger]
        listed(names, i, name) && identifier_id(p, name) == core::result::Result::<
            Option<i32>,
            ErrorView,
        >::Ok(Some(id))
}

/// Whether a name from `i` on is left to be resolved.
spec fn defers(p: PendingView, names: Seq<Seq<char>>, i: nat, entry: (Seq<char>, bool)) -> bool {
    &&& listed(names, i, entry.0)
    &&& entry.1 == p.case_sensitive
    &&& identifier_id(p, entry.0) == core::result::Result::<Option<i32>, ErrorView>::Ok(None)
}

proof fn lemma_listed_next(names: Seq<Seq<char>>, i: nat, name: Seq<char>)
    requires
        i < names.len(),
    ensures
        listed(names, i, name) <==> names[i as int] == name || listed(names, i + 1, name),
{
    if listed(names, i, name) {
        let j = choose|j: int| i <= j < names.len() && #[trigger] names[j] == name;
        assert(names[j] == name);
    }
    if listed(names, i + 1, name) {
        let j = choose|j: int| i + 1 <= j < names.len() && #[trigger] names[j] == name;
        assert(names[j] == name);
    }
    if names[i as int] == name {
        assert(listed(names, i, name));
    }
}

/// What a selection holds: it exists where all names can be looked up, and then it holds the fields
/// that they stand for, and the names that stand for none.
proof fn lemma_selection(p: PendingView, names: Seq<Seq<char>>, i: nat, done: SelectionView)
    ensures
        selection_of(p, names, i, done) is Ok <==> forall|name: Seq<char>| #[trigger]
            listed(names, i, name) ==> identifier_id(p, name) is Ok,
        selection_of(p, names, i, done) matches Ok(s) ==> {
            &&& forall|id: i32| #[trigger]
                s.resolved.contains(id) <==> done.resolved.contains(id) || selects(p, names, i, id)
            &&& forall|entry: (Seq<char>, bool)| #[trigger]
                s.unresolved.contains(entry) <==> done.unresolved.contains(entry) || defers(
                    p,
                    names,
                    i,
                    entry,
                )
        },
    decreases names.len() - i,
{
    if i < names.len() {
        let name = names[i as int];
        assert forall|other: Seq<char>|
            #![trigger listed(names, i, other)]
            #![trigger listed(names, i + 1, other)]
            listed(names, i, other) <==> name == other || listed(names, i + 1, other) by {
            lemma_listed_next(names, i, other);
        }
        assert(listed(names, i, name));
        match identifier_id(p, name) {
            Err(_) => {},
            Ok(Some(id)) => {
                let resolved = if done.resolved.contains(id) {
                    done.resolved
                } else {
                    done.resolved.push(id)
                };
                lemma_selection(p, names, i + 1, SelectionView { resolved, ..done });
                assert forall|x: i32| #[trigger] resolved.contains(x) <==> done.resolved.contains(x)
                    || x == id by {
                    if done.resolved.contains(x) {
                        let k = choose|k: int| 0 <= k < done.resolved.len() && done.resolved[k] == x;
                        assert(resolved[k] == x);
                    }
                    if x == id && !done.resolved.contains(id) {
                        assert(resolved[done.resolved.len() as int] == x);
                    }
                }
                assert forall|x: i32| #[trigger] selects(p, names, i, x) <==> x == id || selects(
                    p,
                    names,
                    i + 1,
                    x,
                ) by {
                    lemma_selects_next(p, names, i, x);
                }
            },
            Ok(None) => {
                let entry = (name, p.case_sensitive);
                let unresolved = done.unresolved.push(entry);
                lemma_selection(p, names, i + 1, SelectionView { unresolved, ..done });
                assert forall|x: (Seq<char>, bool)| #[trigger]
                    unresolved.contains(x) <==> done.unresolved.contains(x) || x == entry by {
                    if done.unresolved.contains(x) {
                        let k = choose|k: int|
                            0 <= k < done.unresolved.len() && done.unresolved[k] == x;
                        assert(unresolved[k] == x);
                    }
                    if x == entry {
                        assert(unresolved[done.unresolved.len() as int] == x);
                    }
                }
                assert forall|x: i32| #[trigger] selects(p, names, i, x) <==> selects(
                    p,
                    names,
                    i + 1,
                    x,
                ) by {
                    lemma_selects_next(p, names, i, x);
                }
            },
        }
    }
}

proof fn lemma_selects_next(p: PendingView, names: Seq<Seq<char>>, i: nat, id: i32)
    requires
        i < names.len(),
    ensures
        selects(p, names, i, id) <==> identifier_id(p, names[i as int]) == core::result::Result::<
            Option<i32>,
            ErrorView,
        >::Ok(Some(id)) || selects(p, names, i + 1, id),
{
    let found = core::result::Result::<Option<i32>, ErrorView>::Ok(Some(id));
    if selects(p, names, i, id) {
        let name = choose|name: Seq<char>| #[trigger]
            listed(names, i, name) && identifier_id(p, name) == found;
        lemma_listed_next(names, i, name);
    }
    if selects(p, names, i + 1, id) {
        let name = choose|name: Seq<char>| #[trigger]
            listed(names, i + 1, name) && identifier_id(p, name) == found;
        lemma_listed_next(names, i, name);
        assert(listed(names, i, name));
    }
    if identifier_id(p, names[i as int]) == found {
        lemma_listed_next(names, i, names[i as int]);
    }
}

/// Whether two selections hold the same fields and the same names.
spec fn same_selection(a: Option<SelectionView>, b: Option<SelectionView>) -> bool {
    match (a, b) {
        (None, None) => true,
        (Some(x), Some(y)) => {
            &&& same_ids(x.resolved, y.resolved)
            &&& forall|entry: (Seq<char>, bool)| #[trigger]
                x.unresolved.contains(entry) <==> y.unresolved.contains(entry)
        },
        _ => false,
    }
}

/// Whether two states are the same, where a selection of identifier fields counts as a set.
spec fn alike(p: PendingView, q: PendingView) -> bool {
    q == beside(p, q.replacement) && same_selection(p.replacement, q.replacement)
}

proof fn lemma_same_names_listed(a: Seq<Seq<char>>, b: Seq<Seq<char>>, name: Seq<char>)
    requires
        same_names(a, b),
        listed(a, 0, name),
    ensures
        listed(b, 0, name),
{
    assert(a.contains(name));
    assert(b.contains(name));
    let j = choose|j: int| 0 <= j < b.len() && b[j] == name;
    assert(b[j] == name);
}

proof fn lemma_same_names_select(
    p: PendingView,
    q: PendingView,
    a: Seq<Seq<char>>,
    b: Seq<Seq<char>>,
    id: i32,
)
    requires
        same_names(a, b),
        forall|name: Seq<char>| #[trigger] identifier_id(q, name) == identifier_id(p, name),
        selects(p, a, 0, id),
    ensures
        selects(q, b, 0, id),
{
    let name = choose|name: Seq<char>| #[trigger]
        listed(a, 0, name) && identifier_id(p, name) == core::result::Result::<
            Option<i32>,
            ErrorView,
        >::Ok(Some(id));
    lemma_same_names_listed(a, b, name);
    assert(listed(b, 0, name) && identifier_id(q, name) == identifier_id(p, name));
}

proof fn lemma_set_alike(
    p: PendingView,
    q: PendingView,
    a: Seq<Seq<char>>,
    b: Seq<Seq<char>>,
)
    requires
        alike(p, q),
        same_names(a, b),
    ensures
        set_identifier_fields(p, a).1 is Ok <==> set_identifier_fields(q, b).1 is Ok,
        set_identifier_fields(p, a).1 is Ok ==> alike(
            set_identifier_fields(p, a).0,
            set_identifier_fields(q, b).0,
        ),
{
    assert(same_names(b, a));
    assert forall|name: Seq<char>| #[trigger] identifier_id(q, name) == identifier_id(p, name) by {
        lemma_identifier_beside(p, name, q.replacement);
    }
    assert forall|name: Seq<char>| #[trigger] identifier_id(p, name) == identifier_id(q, name) by {
        lemma_identifier_beside(p, name, q.replacement);
    }
    assert forall|name: Seq<char>|
        #![trigger listed(a, 0, name)]
        #![trigger listed(b, 0, name)]
        listed(a, 0, name) <==> listed(b, 0, name) by {
        if listed(a, 0, name) {
            lemma_same_names_listed(a, b, name);
        }
        if listed(b, 0, name) {
            lemma_same_names_listed(b, a, name);
        }
    }
    lemma_selection(p, a, 0, no_selection());
    lemma_selection(q, b, 0, no_selection());
    let first = selection_of(p, a, 0, no_selection());
    let second = selection_of(q, b, 0, no_selection());
    if first is Ok && second is Ok {
        assert forall|id: i32| #[trigger]
            first->Ok_0.resolved.contains(id) <==> second->Ok_0.resolved.contains(id) by {
            if selects(p, a, 0, id) {
                lemma_same_names_select(p, q, a, b, id);
            }
            if selects(q, b, 0, id) {
                lemma_same_names_select(q, p, b, a, id);
            }
        }
        assert forall|entry: (Seq<char>, bool)| #[trigger]
            first->Ok_0.unresolved.contains(entry) <==> second->Ok_0.unresolved.contains(
                entry,
            ) by {
            assert(defers(p, a, 0, entry) <==> defers(q, b, 0, entry));
        }
    }
}

proof fn lemma_operations_alike(
    p: PendingView,
    q: PendingView,
    x: OperationView,
    y: OperationView,
)
    requires
        alike(p, q),
        same_operation(x, y),
    ensures
        operated(p, x).1 is Ok <==> operated(q, y).1 is Ok,
        operated(p, x).1 is Ok ==> alike(operated(p, x).0, operated(q, y).0),
{
    match x {
        OperationView::SetIdentifierFields(a) => {
            let b = y->SetIdentifierFields_0;
            reveal(operated);
            lemma_set_alike(p, q, a, b);
        },
        _ => {
            lemma_operation_beside(p, x, q.replacement);
        },
    }
}

proof fn lemma_replays_alike(
    p: PendingView,
    q: PendingView,
    xs: Seq<OperationView>,
    ys: Seq<OperationView>,
    i: nat,
)
    requires
        alike(p, q),
        same_operations(xs, ys),
    ensures
        replayed(p, xs, i).1 is Ok <==> replayed(q, ys, i).1 is Ok,
        replayed(p, xs, i).1 is Ok ==> alike(replayed(p, xs, i).0, replayed(q, ys, i).0),
    decreases xs.len() - i,
{
    if i < xs.len() {
        let x = xs[i as int];
        let y = ys[i as int];
        assert(same_operation(x, y));
        lemma_operations_alike(p, q, x, y);
        let (p1, outcome) = operated(p, x);
        if outcome is Ok {
            lemma_replays_alike(p1, operated(q, y).0, xs, ys, i + 1);
        }
    }
}

proof fn lemma_enclosing_beside(
    p: PendingView,
    current: Option<i32>,
    name: Seq<char>,
    fuel: nat,
    other: Option<SelectionView>,
)
    ensures
        enclosing_problem(beside(p, other), current, name, fuel) == enclosing_problem(
            p,
            current,
            name,
            fuel,
        ),
    decreases fuel,
{
    if let Some(id) = current {
        if fuel > 0 {
            lemma_enclosing_beside(p, value_of(p.parents, id), name, (fuel - 1) as nat, other);
        }
    }
}

proof fn lemma_deletion_beside(p: PendingView, id: i32, other: Option<SelectionView>)
    ensures
        deletion_problem(beside(p, other), id) == deletion_problem(p, id),
{
    if let Some(field) = p.schema.by_id(id) {
        let parent = value_of(p.parents, id);
        lemma_enclosing_beside(p, parent, field.name, p.parents.len(), other);
    }
}

proof fn lemma_first_deletion(p: PendingView, ids: Seq<i32>, i: nat)
    ensures
        first_deletion_problem(p, ids, i) is None <==> forall|j: int|
            i <= j < ids.len() ==> deletion_problem(p, #[trigger] ids[j]) is None,
    decreases ids.len() - i,
{
    if i < ids.len() {
        lemma_first_deletion(p, ids, i + 1);
        assert(first_deletion_problem(p, ids, i) is None ==> deletion_problem(
            p,
            ids[i as int],
        ) is None);
    }
}

/// Of two lists with the same IDs, neither or both hold a field that must not be deleted.
proof fn lemma_deletions_alike(p: PendingView, q: PendingView, a: Seq<i32>, b: Seq<i32>)
    requires
        alike(p, q),
        same_ids(a, b),
        first_deletion_problem(p, a, 0) is None,
    ensures
        first_deletion_problem(q, b, 0) is None,
{
    lemma_first_deletion(p, a, 0);
    lemma_first_deletion(q, b, 0);
    assert forall|j: int| 0 <= j < b.len() implies deletion_problem(q, #[trigger] b[j]) is None by {
        assert(b.contains(b[j]));
        assert(a.contains(b[j]));
        let k = choose|k: int| 0 <= k < a.len() && a[k] == b[j];
        assert(deletion_problem(p, a[k]) is None);
        lemma_deletion_beside(p, b[j], q.replacement);
    }
}

/// The field that a name stands for in the updated schema, where it stands for one.
spec fn entry_id(schema: SchemaView, entry: (Seq<char>, bool)) -> Option<i32> {
    if !entry.1 && schema.collision() is Some {
        None
    } else {
        match (if entry.1 {
            schema.by_name(entry.0)
        } else {
            schema.by_lower_name(entry.0)
        }) {
            Some(field) => Some(field.id),
            None => None,
        }
    }
}

/// Whether one of `names` from `i` on stands for the field `id` in the updated schema.
spec fn stands_for(
    schema: SchemaView,
    names: Seq<(Seq<char>, bool)>,
    i: nat,
    id: i32,
) -> bool {
    exists|j: int| i <= j < names.len() && entry_id(schema, #[trigger] names[j]) == Some(id)
}

proof fn lemma_resolved(
    schema: SchemaView,
    names: Seq<(Seq<char>, bool)>,
    i: nat,
    done: Seq<i32>,
)
    ensures
        resolved_identifiers(schema, names, i, done) is Ok <==> forall|j: int|
            i <= j < names.len() ==> entry_id(schema, #[trigger] names[j]) is Some,
        resolved_identifiers(schema, names, i, done) matches Ok(ids) ==> forall|id: i32| #[trigger]
            ids.contains(id) <==> done.contains(id) || stands_for(schema, names, i, id),
    decreases names.len() - i,
{
    if i < names.len() {
        match entry_id(schema, names[i as int]) {
            None => {},
            Some(found) => {
                let more = done.push(found);
                lemma_resolved(schema, names, i + 1, more);
                assert(resolved_identifiers(schema, names, i, done) == resolved_identifiers(
                    schema,
                    names,
                    i + 1,
                    more,
                ));
                assert forall|id: i32| #[trigger] more.contains(id) || stands_for(
                    schema,
                    names,
                    i + 1,
                    id,
                ) <==> done.contains(id) || stands_for(schema, names, i, id) by {
                    if done.contains(id) {
                        let k = choose|k: int| 0 <= k < done.len() && done[k] == id;
                        assert(more[k] == id);
                    }
                    if id == found {
                        assert(more[done.len() as int] == id);
                        assert(entry_id(schema, names[i as int]) == Some(id));
                    }
                    if stands_for(schema, names, i, id) {
                        let j = choose|j: int|
                            i <= j < names.len() && entry_id(schema, #[trigger] names[j]) == Some(id);
                        assert(entry_id(schema, names[j]) == Some(id));
                    }
                }
            },
        }
    }
}

proof fn lemma_entries_stand(
    schema: SchemaView,
    a: Seq<(Seq<char>, bool)>,
    b: Seq<(Seq<char>, bool)>,
    id: i32,
)
    requires
        forall|entry: (Seq<char>, bool)| #[trigger] a.contains(entry) <==> b.contains(entry),
        stands_for(schema, a, 0, id),
    ensures
        stands_for(schema, b, 0, id),
{
    let j = choose|j: int| 0 <= j < a.len() && entry_id(schema, #[trigger] a[j]) == Some(id);
    assert(a.contains(a[j]));
    assert(b.contains(a[j]));
    let k = choose|k: int| 0 <= k < b.len() && b[k] == a[j];
    assert(entry_id(schema, b[k]) == Some(id));
}

proof fn lemma_entries_resolve(
    schema: SchemaView,
    a: Seq<(Seq<char>, bool)>,
    b: Seq<(Seq<char>, bool)>,
    done: Seq<i32>,
    other: Seq<i32>,
)
    requires
        forall|entry: (Seq<char>, bool)| #[trigger] a.contains(entry) <==> b.contains(entry),
        resolved_identifiers(schema, a, 0, done) is Ok,
    ensures
        resolved_identifiers(schema, b, 0, other) is Ok,
{
    lemma_resolved(schema, a, 0, done);
    lemma_resolved(schema, b, 0, other);
    assert forall|j: int| 0 <= j < b.len() implies entry_id(schema, #[trigger] b[j]) is Some by {
        assert(b.contains(b[j]));
        assert(a.contains(b[j]));
        let k = choose|k: int| 0 <= k < a.len() && a[k] == b[j];
        assert(entry_id(schema, a[k]) is Some);
    }
}

/// Two states that are alike lead to the same identifier fields, or both to an error.
proof fn lemma_identifiers_alike(p: PendingView, q: PendingView, schema: SchemaView)
    requires
        alike(p, q),
    ensures
        updated_identifiers(p, schema) is Ok <==> updated_identifiers(q, schema) is Ok,
        updated_identifiers(p, schema) is Ok ==> same_ids(
            updated_identifiers(p, schema)->Ok_0,
            updated_identifiers(q, schema)->Ok_0,
        ),
{
    if let (Some(x), Some(y)) = (p.replacement, q.replacement) {
        let a = x.unresolved;
        let b = y.unresolved;
        assert forall|entry: (Seq<char>, bool)| #[trigger] b.contains(entry) <==> a.contains(
            entry,
        ) by {
            assert(a.contains(entry) <==> b.contains(entry));
        }
        if updated_identifiers(p, schema) is Ok {
            lemma_entries_resolve(schema, a, b, x.resolved, y.resolved);
        }
        if updated_identifiers(q, schema) is Ok {
            lemma_entries_resolve(schema, b, a, y.resolved, x.resolved);
        }
        lemma_resolved(schema, a, 0, x.resolved);
        lemma_resolved(schema, b, 0, y.resolved);
        if updated_identifiers(p, schema) is Ok {
            let ids = updated_identifiers(p, schema)->Ok_0;
            let others = updated_identifiers(q, schema)->Ok_0;
            assert forall|id: i32| #[trigger] ids.contains(id) <==> others.contains(id) by {
                assert(x.resolved.contains(id) <==> y.resolved.contains(id));
                if stands_for(schema, a, 0, id) {
                    lemma_entries_stand(schema, a, b, id);
                }
                if stands_for(schema, b, 0, id) {
                    lemma_entries_stand(schema, b, a, id);
                }
            }
        }
    }
}

proof fn lemma_distinct_same(a: Seq<i32>, b: Seq<i32>)
    requires
        same_ids(a, b),
    ensures
        same_ids(distinct_ids(a, 0, Seq::empty()), distinct_ids(b, 0, Seq::empty())),
{
    lemma_distinct_ids(a, 0, Seq::empty());
    lemma_distinct_ids(b, 0, Seq::empty());
    let x = distinct_ids(a, 0, Seq::empty());
    let y = distinct_ids(b, 0, Seq::empty());
    assert forall|id: i32| #[trigger] x.contains(id) <==> y.contains(id) by {
        assert(a.contains(id) <==> b.contains(id));
        if x.contains(id) {
            let j = choose|j: int| 0 <= j < a.len() && #[trigger] a[j] == id;
            assert(a.contains(id));
            let k = choose|k: int| 0 <= k < b.len() && b[k] == id;
            assert(b[k] == id);
        }
        if y.contains(id) {
            let k = choose|k: int| 0 <= k < b.len() && #[trigger] b[k] == id;
            assert(b.contains(id));
            let j = choose|j: int| 0 <= j < a.len() && a[j] == id;
            assert(a[j] == id);
        }
    }
}

proof fn lemma_problems_alike(entries: Seq<EntryView>, a: Seq<i32>, b: Seq<i32>)
    requires
        same_ids(a, b),
        first_problem(entries, a, 0) is None,
    ensures
        first_problem(entries, b, 0) is None,
{
    assert forall|j: int| 0 <= j < b.len() implies identifier_problem(
        entries,
        #[trigger] b[j],
    ) is None by {
        assert(b.contains(b[j]));
        assert(a.contains(b[j]));
        let k = choose|k: int| 0 <= k < a.len() && a[k] == b[j];
        lemma_all_fit(entries, a, 0, k);
    }
    lemma_no_problem(entries, b, 0);
}

proof fn lemma_built_alike(fields: Seq<FieldView>, a: Seq<i32>, b: Seq<i32>)
    requires
        same_ids(a, b),
        built_schema(fields, a) is Ok,
    ensures
        built_schema(fields, b) is Ok,
        built_schema(fields, b)->Ok_0.schema_id == built_schema(fields, a)->Ok_0.schema_id,
        built_schema(fields, a)->Ok_0.same_as(built_schema(fields, b)->Ok_0),
{
    lemma_distinct_same(a, b);
    lemma_problems_alike(
        schema_entries(fields),
        distinct_ids(a, 0, Seq::empty()),
        distinct_ids(b, 0, Seq::empty()),
    );
}

proof fn lemma_alike_reversed(p: PendingView, q: PendingView)
    requires
        alike(p, q),
    ensures
        alike(q, p),
{
    assert(p == beside(q, p.replacement));
    if let (Some(x), Some(y)) = (p.replacement, q.replacement) {
        assert forall|id: i32| #[trigger] y.resolved.contains(id) <==> x.resolved.contains(id) by {
            assert(x.resolved.contains(id) <==> y.resolved.contains(id));
        }
        assert forall|entry: (Seq<char>, bool)| #[trigger]
            y.unresolved.contains(entry) <==> x.unresolved.contains(entry) by {
            assert(x.unresolved.contains(entry) <==> y.unresolved.contains(entry));
        }
    }
}

proof fn lemma_applied_alike(p: PendingView, q: PendingView)
    requires
        alike(p, q),
        applied(p) is Ok,
    ensures
        applied(q) is Ok,
        applied(q)->Ok_0.schema_id == applied(p)->Ok_0.schema_id,
        applied(p)->Ok_0.same_as(applied(q)->Ok_0),
{
    let schema = applied(p)->Ok_0;
    let fields = schema.fields;
    let bare = built_schema(fields, Seq::empty())->Ok_0;
    lemma_deletions_alike(p, q, known_identifiers(p), known_identifiers(q));
    lemma_identifiers_alike(p, q, bare);
    let ids = updated_identifiers(p, bare)->Ok_0;
    let others = updated_identifiers(q, bare)->Ok_0;
    lemma_built_alike(fields, ids, others);
    assert(built_schema(fields, others)->Ok_0.collision() == schema.collision());
}

proof fn lemma_properties_alike(
    properties: Seq<(Seq<char>, Seq<char>)>,
    base: SchemaView,
    a: SchemaView,
    b: SchemaView,
    changes: ChangesView,
    i: nat,
    done: PropertyChangesView,
)
    requires
        a.fields == b.fields,
    ensures
        collected_changes(properties, base, a, changes, i, done) == collected_changes(
            properties,
            base,
            b,
            changes,
            i,
            done,
        ),
    decreases properties.len() - i,
{
    if i < properties.len() {
        assert forall|id: i32| #[trigger] a.name_of(id) == b.name_of(id) by {}
        let (key, value) = properties[i as int];
        let next = match property_column(key, 0) {
            None => done,
            Some((prefix, column)) => match new_name_of(column, base, a, changes) {
                Some(name) => PropertyChangesView {
                    removals: done.removals.push(key),
                    updates: done.updates.push((prefix + name, value)),
                },
                None => if is_deleted(column, base, changes) {
                    PropertyChangesView { removals: done.removals.push(key), ..done }
                } else {
                    done
                },
            },
        };
        lemma_properties_alike(properties, base, a, b, changes, i + 1, next);
    }
}

proof fn lemma_commits_alike(
    table: TableView,
    a: SchemaView,
    b: SchemaView,
    changes: ChangesView,
)
    requires
        a.schema_id == b.schema_id,
        a.same_as(b),
    ensures
        same_commit(commit_of(table, a, changes), commit_of(table, b, changes)),
{
    lemma_properties_alike(
        table.properties,
        table.schema,
        a,
        b,
        changes,
        0,
        no_property_changes(),
    );
    assert(a.same_as(table.schema) <==> b.same_as(table.schema)) by {
        assert forall|id: i32|
            a.identifier_field_ids.contains(id) <==> b.identifier_field_ids.contains(id) by {}
    }
    assert(all_property_changes(table, a, changes) == all_property_changes(table, b, changes));
}

/// Lists with the same names, in whatever order and with whatever repetitions, select the same
/// identifier fields, or both lead to an error, be it at once or when the update is applied.
pub proof fn law_same_names_select_the_same_fields(
    p: PendingView,
    a: Seq<Seq<char>>,
    b: Seq<Seq<char>>,
)
    requires
        same_names(a, b),
    ensures
        match (set_identifier_fields(p, a), set_identifier_fields(p, b)) {
            ((x, Ok(_)), (y, Ok(_))) => match (applied(x), applied(y)) {
                (Ok(first), Ok(second)) => first.same_as(second),
                (Err(_), Err(_)) => true,
                _ => false,
            },
            ((_, Err(_)), (_, Err(_))) => true,
            _ => false,
        },
{
    lemma_set_alike(p, p, a, b);
    let (x, outcome) = set_identifier_fields(p, a);
    let (y, _) = set_identifier_fields(p, b);
    if outcome is Ok {
        lemma_alike_reversed(x, y);
        if applied(x) is Ok {
            lemma_applied_alike(x, y);
        }
        if applied(y) is Ok {
            lemma_applied_alike(y, x);
        }
    }
}

/// An action records the names that it is given once each, and no others: lists with the same names
/// are recorded as the same operation.
pub proof fn law_recorded_names_are_those_given(a: Seq<Seq<char>>, b: Seq<Seq<char>>)
    requires
        same_names(a, b),
    ensures
        same_operation(
            OperationView::SetIdentifierFields(distinct_names(a, 0, Seq::empty())),
            OperationView::SetIdentifierFields(distinct_names(b, 0, Seq::empty())),
        ),
        distinct_names(a, 0, Seq::empty()).no_duplicates(),
        same_names(distinct_names(a, 0, Seq::empty()), a),
{
    let once = distinct_names(a, 0, Seq::empty());
    let others = distinct_names(b, 0, Seq::empty());
    assert forall|name: Seq<char>| #[trigger] once.contains(name) <==> a.contains(name) by {
        lemma_same_names(a, name);
    }
    assert forall|name: Seq<char>| #[trigger] once.contains(name) <==> others.contains(name) by {
        lemma_same_names(b, name);
    }
    lemma_same_names(a, Seq::empty());
}

/// The names of identifier fields count as a set: updates that differ only in the order and the
/// repetition of such names lead to the same commit, with the same identifier fields, or both to an
/// error.
pub proof fn law_identifier_names_count_as_a_set(
    xs: Seq<OperationView>,
    ys: Seq<OperationView>,
    table: TableView,
    texts: Seq<(u64, Seq<char>)>,
)
    requires
        same_operations(xs, ys),
    ensures
        match (planned_commit(xs, table, texts), planned_commit(ys, table, texts)) {
            (Ok(x), Ok(y)) => same_commit(x, y),
            (Err(_), Err(_)) => true,
            _ => false,
        },
{
    let start = initial_state(table.schema, table.last_column_id, texts);
    lemma_replays_alike(start, start, xs, ys, 0);
    let (p, outcome) = replayed(start, xs, 0);
    let (q, _) = replayed(start, ys, 0);
    if outcome is Ok {
        lemma_alike_reversed(p, q);
        if applied(q) is Ok {
            lemma_applied_alike(q, p);
        }
        if applied(p) is Ok {
            lemma_applied_alike(p, q);
            lemma_commits_alike(table, applied(p)->Ok_0, applied(q)->Ok_0, p.changes);
        }
    }
}

/// Whether a name stands for the field `id` as an identifier field: at once, or else in the updated
/// schema.
pub open spec fn identifies(
    p: PendingView,
    schema: SchemaView,
    name: Seq<char>,
    id: i32,
) -> bool {
    match identifier_id(p, name) {
        Ok(Some(found)) => found == id,
        Ok(None) => (if p.case_sensitive {
            schema.by_name(name)
        } else {
            schema.by_lower_name(name)
        }) matches Some(field) && field.id == id,
        Err(_) => false,
    }
}

/// The identifier fields of the updated schema are the fields that the given names stand for, all of
/// them and no others.
pub proof fn law_identifier_fields_are_those_named(
    p: PendingView,
    names: Seq<Seq<char>>,
    id: i32,
)
    requires
        set_identifier_fields(p, names).1 is Ok,
        applied(set_identifier_fields(p, names).0) is Ok,
    ensures
        ({
            let schema = applied(set_identifier_fields(p, names).0)->Ok_0;
            schema.identifier_field_ids.contains(id) <==> exists|name: Seq<char>| #[trigger]
                names.contains(name) && identifies(p, schema, name, id)
        }),
{
    let q = set_identifier_fields(p, names).0;
    let schema = applied(q)->Ok_0;
    let selection = selection_of(p, names, 0, no_selection())->Ok_0;
    let bare = built_schema(schema.fields, Seq::empty())->Ok_0;
    let ids = updated_identifiers(q, bare)->Ok_0;
    lemma_selection(p, names, 0, no_selection());
    lemma_resolved(bare, selection.unresolved, 0, selection.resolved);
    lemma_distinct_ids(ids, 0, Seq::empty());
    assert(bare.fields == schema.fields);
    if schema.identifier_field_ids.contains(id) {
        let j = choose|j: int| 0 <= j < ids.len() && #[trigger] ids[j] == id;
        assert(ids.contains(id));
        if selection.resolved.contains(id) {
            let name = choose|name: Seq<char>| #[trigger]
                listed(names, 0, name) && identifier_id(p, name) == core::result::Result::<
                    Option<i32>,
                    ErrorView,
                >::Ok(Some(id));
            assert(names.contains(name) && identifies(p, schema, name, id));
        } else {
            let k = choose|k: int|
                0 <= k < selection.unresolved.len() && entry_id(
                    bare,
                    #[trigger] selection.unresolved[k],
                ) == Some(id);
            let entry = selection.unresolved[k];
            assert(selection.unresolved.contains(entry));
            assert(defers(p, names, 0, entry));
            assert(names.contains(entry.0) && identifies(p, schema, entry.0, id));
        }
    }
    if exists|name: Seq<char>| #[trigger]
        names.contains(name) && identifies(p, schema, name, id) {
        let name = choose|name: Seq<char>| #[trigger]
            names.contains(name) && identifies(p, schema, name, id);
        let at = choose|at: int| 0 <= at < names.len() && names[at] == name;
        assert(names[at] == name);
        assert(listed(names, 0, name));
        match identifier_id(p, name) {
            Ok(Some(_)) => {
                assert(selects(p, names, 0, id));
                assert(selection.resolved.contains(id));
            },
            Ok(None) => {
                let entry = (name, p.case_sensitive);
                assert(defers(p, names, 0, entry));
                assert(selection.unresolved.contains(entry));
                let k = choose|k: int|
                    0 <= k < selection.unresolved.len() && selection.unresolved[k] == entry;
                assert(entry_id(bare, selection.unresolved[k]) is Some);
                assert(entry_id(bare, selection.unresolved[k]) == Some(id));
                assert(stands_for(bare, selection.unresolved, 0, id));
            },
            Err(_) => {},
        }
        assert(ids.contains(id));
        let j = choose|j: int| 0 <= j < ids.len() && ids[j] == id;
        assert(ids[j] == id);
    }
}

/// Whether an added field has a name.
pub open spec fn is_named(p: PendingView, k: int, name: Seq<char>) -> bool {
    if p.case_sensitive {
        p.added_fields[k].0 == name
    } else {
        lower(p.added_fields[k].0) == lower(name)
    }
}

proof fn lemma_no_added_match(
    p: PendingView,
    name: Seq<char>,
    i: nat,
    live: Option<i32>,
    stale: Option<i32>,
    several: bool,
)
    requires
        forall|k: int| i <= k < p.added_fields.len() ==> !#[trigger] is_named(p, k, name),
    ensures
        added_matches(p, name, i, live, stale, several) == (live, stale, several),
    decreases p.added_fields.len() - i,
{
    if i < p.added_fields.len() {
        assert(!is_named(p, i as int, name));
        lemma_no_added_match(p, name, i + 1, live, stale, several);
    }
}

proof fn lemma_last_added_match(
    p: PendingView,
    name: Seq<char>,
    i: nat,
    live: Option<i32>,
    stale: Option<i32>,
    several: bool,
    k: int,
)
    requires
        i <= k < p.added_fields.len(),
        is_named(p, k, name),
        !p.will_be_deleted(p.added_fields[k].1),
        forall|j: int|
            k < j < p.added_fields.len() && #[trigger] is_named(p, j, name) ==> p.will_be_deleted(
                p.added_fields[j].1,
            ),
    ensures
        added_matches(p, name, i, live, stale, several).0 == Some(p.added_fields[k].1),
    decreases p.added_fields.len() - i,
{
    let id = p.added_fields[i as int].1;
    if i < k {
        if !is_named(p, i as int, name) {
            lemma_last_added_match(p, name, i + 1, live, stale, several, k);
        } else if p.will_be_deleted(id) {
            let first = if stale is Some {
                stale
            } else {
                Some(id)
            };
            lemma_last_added_match(p, name, i + 1, live, first, several, k);
        } else {
            lemma_last_added_match(p, name, i + 1, Some(id), stale, several || live is Some, k);
        }
    } else {
        lemma_only_stale(p, name, i + 1, Some(id), stale, several || live is Some);
    }
}

proof fn lemma_only_stale(
    p: PendingView,
    name: Seq<char>,
    i: nat,
    live: Option<i32>,
    stale: Option<i32>,
    several: bool,
)
    requires
        forall|j: int|
            i <= j < p.added_fields.len() && #[trigger] is_named(p, j, name) ==> p.will_be_deleted(
                p.added_fields[j].1,
            ),
    ensures
        added_matches(p, name, i, live, stale, several).0 == live,
        added_matches(p, name, i, live, stale, several).2 == several,
    decreases p.added_fields.len() - i,
{
    if i < p.added_fields.len() {
        let id = p.added_fields[i as int].1;
        if !is_named(p, i as int, name) {
            lemma_only_stale(p, name, i + 1, live, stale, several);
        } else {
            assert(is_named(p, i as int, name));
            let first = if stale is Some {
                stale
            } else {
                Some(id)
            };
            lemma_only_stale(p, name, i + 1, live, first, several);
        }
    }
}

/// What a name stands for as an identifier field. Without an added field of that name it is the
/// column of the original schema. Where names are case-sensitive, the last added field of that name
/// that is not to be deleted comes before it; where they are not, an added field and a column of the
/// original schema that both stay must not share a name.
pub proof fn law_identifier_names_are_looked_up(p: PendingView, name: Seq<char>, k: int)
    requires
        p.resolve(name) is Ok,
    ensures
        (forall|j: int| 0 <= j < p.added_fields.len() ==> !#[trigger] is_named(p, j, name))
            ==> identifier_id(p, name) == core::result::Result::<Option<i32>, ErrorView>::Ok(
            match p.resolve(name)->Ok_0 {
                Some(field) => Some(field.id),
                None => None,
            },
        ),
        ({
            &&& 0 <= k < p.added_fields.len()
            &&& is_named(p, k, name)
            &&& !p.will_be_deleted(p.added_fields[k].1)
            &&& forall|j: int|
                k < j < p.added_fields.len() && #[trigger] is_named(p, j, name)
                    ==> p.will_be_deleted(p.added_fields[j].1)
        }) ==> {
            &&& p.case_sensitive ==> identifier_id(p, name) == core::result::Result::<
                Option<i32>,
                ErrorView,
            >::Ok(Some(p.added_fields[k].1))
            &&& !p.case_sensitive && (p.resolve(name)->Ok_0 matches Some(field)
                && !p.will_be_deleted(field.id)) ==> identifier_id(p, name) is Err
        },
{
    if forall|j: int| 0 <= j < p.added_fields.len() ==> !#[trigger] is_named(p, j, name) {
        lemma_no_added_match(p, name, 0, None, None, false);
    }
    if 0 <= k < p.added_fields.len() && is_named(p, k, name) && !p.will_be_deleted(
        p.added_fields[k].1,
    ) && (forall|j: int|
        k < j < p.added_fields.len() && #[trigger] is_named(p, j, name) ==> p.will_be_deleted(
            p.added_fields[j].1,
        )) {
        lemma_last_added_match(p, name, 0, None, None, false, k);
    }
}

} // verus!
