//! An update reads no texts of floating-point numbers but those of its own defaults.

use vstd::prelude::*;

#[allow(unused_imports)]
use crate::action::{AddView, OperationView};
#[allow(unused_imports)]
use crate::commit::{planned_commit, TableView};
#[allow(unused_imports)]
use crate::defaults::{coerced_field, coerced_fields, coerced_type, text_of_double};
#[allow(unused_imports)]
use crate::doubles::{
    default_bits, field_bits, fields_bits, law_conversion_reads_only_its_own_text, operation_bits,
    operations_bits, type_bits, with_default_bits,
};
#[allow(unused_imports)]
use crate::fresh_ids::{fresh_field, fresh_siblings, fresh_type, fresh_under};
#[allow(unused_imports)]
use crate::literal::LiteralView;
#[allow(unused_imports)]
use crate::moves::PositionView;
#[allow(unused_imports)]
use crate::pending::{
    add_checked, add_column, added_matches, applied, delete_column, enclosing_problem,
    first_deletion_problem, identifier_id, initial_state, known_identifiers, move_column,
    new_field, no_selection, rename_column, requested_move, selection_of, set_required,
    struct_parent, update_default, update_doc, update_type, value_of, Outcome, PendingView,
    SelectionView,
};
#[allow(unused_imports)]
use crate::replay::{operated, replayed};
#[allow(unused_imports)]
use crate::text::dotted;
#[allow(unused_imports)]
use crate::types::{FieldView, PrimitiveType, TypeView};
#[allow(unused_imports)]
use crate::union::{
    matching_field, merge_doc, merge_field, merge_nullability, merge_type, missing_column,
    union_beneath, union_field, union_here, union_structs,
};

verus! {

/// Whether two lists give a number the same text, or both none.
pub open spec fn agree_on(
    texts: Seq<(u64, Seq<char>)>,
    others: Seq<(u64, Seq<char>)>,
    bits: u64,
) -> bool {
    text_of_double(texts, bits, 0) == text_of_double(others, bits, 0)
}

/// Whether two lists agree on all the given numbers.
pub open spec fn agree_on_all(
    texts: Seq<(u64, Seq<char>)>,
    others: Seq<(u64, Seq<char>)>,
    all: Seq<u64>,
) -> bool {
    forall|bits: u64| #[trigger] all.contains(bits) ==> agree_on(texts, others, bits)
}

/// Whether two lists agree on a default, where it is a floating-point number.
spec fn agree_on_default(
    default: Option<LiteralView>,
    texts: Seq<(u64, Seq<char>)>,
    others: Seq<(u64, Seq<char>)>,
) -> bool {
    default_bits(default) matches Some(bits) ==> agree_on(texts, others, bits)
}

/// Whether two lists agree on the defaults of `fields` and of all beneath them.
spec fn agree_on_fields(
    fields: Seq<FieldView>,
    texts: Seq<(u64, Seq<char>)>,
    others: Seq<(u64, Seq<char>)>,
) -> bool
    decreases fields, 0nat,
{
    forall|i: int| 0 <= i < fields.len() ==> agree_on_field(#[trigger] fields[i], texts, others)
}

/// Whether two lists agree on the defaults of a field and of all beneath it.
spec fn agree_on_field(
    field: FieldView,
    texts: Seq<(u64, Seq<char>)>,
    others: Seq<(u64, Seq<char>)>,
) -> bool
    decreases field, 1nat,
{
    &&& agree_on_default(field.initial_default, texts, others)
    &&& agree_on_default(field.write_default, texts, others)
    &&& agree_on_type(field.field_type, texts, others)
}

/// Whether two lists agree on the defaults within a type.
spec fn agree_on_type(
    t: TypeView,
    texts: Seq<(u64, Seq<char>)>,
    others: Seq<(u64, Seq<char>)>,
) -> bool
    decreases t, 1nat,
{
    match t {
        TypeView::Primitive(_) | TypeView::Variant => true,
        TypeView::Struct(fields) => agree_on_fields(fields, texts, others),
        TypeView::List(element) => agree_on_field(*element, texts, others),
        TypeView::MapOf(key, value) => agree_on_field(*key, texts, others) && agree_on_field(
            *value,
            texts,
            others,
        ),
    }
}

proof fn lemma_default_listed(
    default: Option<LiteralView>,
    done: Seq<u64>,
    texts: Seq<(u64, Seq<char>)>,
    others: Seq<(u64, Seq<char>)>,
)
    requires
        agree_on_all(texts, others, with_default_bits(default, done)),
    ensures
        agree_on_default(default, texts, others),
        agree_on_all(texts, others, done),
{
    let all = with_default_bits(default, done);
    if let Some(bits) = default_bits(default) {
        assert(all[done.len() as int] == bits);
        assert(all.contains(bits));
        assert forall|other: u64| #[trigger] done.contains(other) implies agree_on(
            texts,
            others,
            other,
        ) by {
            let i = choose|i: int| 0 <= i < done.len() && done[i] == other;
            assert(all[i] == other);
            assert(all.contains(other));
        }
    }
}

proof fn lemma_fields_listed(
    fields: Seq<FieldView>,
    i: nat,
    done: Seq<u64>,
    texts: Seq<(u64, Seq<char>)>,
    others: Seq<(u64, Seq<char>)>,
)
    requires
        agree_on_all(texts, others, fields_bits(fields, i, done)),
    ensures
        forall|j: int| i <= j < fields.len() ==> agree_on_field(#[trigger] fields[j], texts, others),
        agree_on_all(texts, others, done),
    decreases fields, fields.len() - i,
{
    if i < fields.len() {
        let field = fields[i as int];
        lemma_fields_listed(fields, i + 1, field_bits(field, done), texts, others);
        lemma_field_listed(field, done, texts, others);
    }
}

proof fn lemma_field_listed(
    field: FieldView,
    done: Seq<u64>,
    texts: Seq<(u64, Seq<char>)>,
    others: Seq<(u64, Seq<char>)>,
)
    requires
        agree_on_all(texts, others, field_bits(field, done)),
    ensures
        agree_on_field(field, texts, others),
        agree_on_all(texts, others, done),
    decreases field, 0nat,
{
    let with_initial = with_default_bits(field.initial_default, done);
    let with_both = with_default_bits(field.write_default, with_initial);
    lemma_type_listed(field.field_type, with_both, texts, others);
    lemma_default_listed(field.write_default, with_initial, texts, others);
    lemma_default_listed(field.initial_default, done, texts, others);
}

proof fn lemma_type_listed(
    t: TypeView,
    done: Seq<u64>,
    texts: Seq<(u64, Seq<char>)>,
    others: Seq<(u64, Seq<char>)>,
)
    requires
        agree_on_all(texts, others, type_bits(t, done)),
    ensures
        agree_on_type(t, texts, others),
        agree_on_all(texts, others, done),
    decreases t, 0nat,
{
    match t {
        TypeView::Primitive(_) | TypeView::Variant => {},
        TypeView::Struct(fields) => {
            lemma_fields_listed(fields, 0, done, texts, others);
            assert(agree_on_fields(fields, texts, others));
        },
        TypeView::List(element) => {
            lemma_field_listed(*element, done, texts, others);
        },
        TypeView::MapOf(key, value) => {
            lemma_field_listed(*value, field_bits(*key, done), texts, others);
            lemma_field_listed(*key, done, texts, others);
        },
    }
}

proof fn lemma_fresh_siblings_agree(
    fields: Seq<FieldView>,
    first: int,
    i: nat,
    done: Seq<FieldView>,
    last: i32,
    texts: Seq<(u64, Seq<char>)>,
    others: Seq<(u64, Seq<char>)>,
)
    requires
        agree_on_fields(fields, texts, others),
        agree_on_fields(done, texts, others),
    ensures
        fresh_siblings(fields, first, i, done, last).0 matches Ok(fresh) ==> agree_on_fields(
            fresh,
            texts,
            others,
        ),
    decreases fields, fields.len() - i,
{
    if i < fields.len() {
        let field = fields[i as int];
        let id = (first + i) as i32;
        lemma_fresh_agrees(field, id, last, texts, others);
        if let (Ok(fresh), last1) = fresh_under(field, id, last) {
            let more = done.push(fresh);
            assert forall|j: int| 0 <= j < more.len() implies agree_on_field(
                #[trigger] more[j],
                texts,
                others,
            ) by {
                if j < done.len() {
                    assert(more[j] == done[j]);
                }
            }
            lemma_fresh_siblings_agree(fields, first, i + 1, more, last1, texts, others);
        }
    }
}

proof fn lemma_fresh_agrees(
    field: FieldView,
    id: i32,
    last: i32,
    texts: Seq<(u64, Seq<char>)>,
    others: Seq<(u64, Seq<char>)>,
)
    requires
        agree_on_field(field, texts, others),
    ensures
        fresh_under(field, id, last).0 matches Ok(fresh) ==> agree_on_field(fresh, texts, others),
    decreases field, 0nat,
{
    lemma_fresh_type_agrees(field.field_type, last, texts, others);
}

proof fn lemma_fresh_type_agrees(
    t: TypeView,
    last: i32,
    texts: Seq<(u64, Seq<char>)>,
    others: Seq<(u64, Seq<char>)>,
)
    requires
        agree_on_type(t, texts, others),
    ensures
        fresh_type(t, last).0 matches Ok(fresh) ==> agree_on_type(fresh, texts, others),
    decreases t, 0nat,
{
    match t {
        TypeView::Primitive(_) | TypeView::Variant => {},
        TypeView::Struct(fields) => {
            if last + fields.len() <= i32::MAX {
                assert(agree_on_fields(Seq::empty(), texts, others));
                lemma_fresh_siblings_agree(
                    fields,
                    last + 1,
                    0,
                    Seq::empty(),
                    (last + fields.len()) as i32,
                    texts,
                    others,
                );
            }
        },
        TypeView::List(element) => {
            if last + 1 <= i32::MAX {
                lemma_fresh_type_agrees(
                    element.field_type,
                    (last + 1) as i32,
                    texts,
                    others,
                );
                if let Ok(TypeView::List(fresh)) = fresh_type(t, last).0 {
                    assert(agree_on_field(*fresh, texts, others));
                }
            }
        },
        TypeView::MapOf(key, value) => {
            if last + 2 <= i32::MAX {
                lemma_fresh_type_agrees(key.field_type, (last + 2) as i32, texts, others);
                let (_, last1) = fresh_type(key.field_type, (last + 2) as i32);
                lemma_fresh_type_agrees(value.field_type, last1, texts, others);
                if let Ok(TypeView::MapOf(fresh_key, fresh_value)) = fresh_type(t, last).0 {
                    assert(agree_on_field(*fresh_key, texts, others));
                    assert(agree_on_field(*fresh_value, texts, others));
                }
            }
        },
    }
}

proof fn lemma_coerced_fields_agree(
    fields: Seq<FieldView>,
    i: nat,
    name: Seq<char>,
    done: Seq<FieldView>,
    texts: Seq<(u64, Seq<char>)>,
    others: Seq<(u64, Seq<char>)>,
)
    requires
        agree_on_fields(fields, texts, others),
    ensures
        coerced_fields(fields, i, name, texts, done) == coerced_fields(
            fields,
            i,
            name,
            others,
            done,
        ),
    decreases fields, fields.len() - i,
{
    if i < fields.len() {
        let field = fields[i as int];
        let path = dotted(name, field.name);
        lemma_coerced_field_agrees(field, path, texts, others);
        if let Ok(coerced) = coerced_field(field, path, texts) {
            lemma_coerced_fields_agree(fields, i + 1, name, done.push(coerced), texts, others);
        }
    }
}

proof fn lemma_coerced_field_agrees(
    field: FieldView,
    name: Seq<char>,
    texts: Seq<(u64, Seq<char>)>,
    others: Seq<(u64, Seq<char>)>,
)
    requires
        agree_on_field(field, texts, others),
    ensures
        coerced_field(field, name, texts) == coerced_field(field, name, others),
    decreases field, 0nat,
{
    law_conversion_reads_only_its_own_text(
        field.field_type,
        field.initial_default,
        name,
        texts,
        others,
    );
    law_conversion_reads_only_its_own_text(
        field.field_type,
        field.write_default,
        name,
        texts,
        others,
    );
    lemma_coerced_type_agrees(field.field_type, name, texts, others);
}

proof fn lemma_coerced_type_agrees(
    t: TypeView,
    name: Seq<char>,
    texts: Seq<(u64, Seq<char>)>,
    others: Seq<(u64, Seq<char>)>,
)
    requires
        agree_on_type(t, texts, others),
    ensures
        coerced_type(t, name, texts) == coerced_type(t, name, others),
    decreases t, 0nat,
{
    match t {
        TypeView::Primitive(_) | TypeView::Variant => {},
        TypeView::Struct(fields) => {
            lemma_coerced_fields_agree(fields, 0, name, Seq::empty(), texts, others);
        },
        TypeView::List(element) => {
            lemma_coerced_field_agrees(*element, dotted(name, element.name), texts, others);
        },
        TypeView::MapOf(key, value) => {
            lemma_coerced_field_agrees(*key, dotted(name, key.name), texts, others);
            lemma_coerced_field_agrees(*value, dotted(name, value.name), texts, others);
        },
    }
}

/// The same state with other texts.
spec fn twin(p: PendingView, others: Seq<(u64, Seq<char>)>) -> PendingView {
    PendingView { texts: others, ..p }
}

/// Whether a step from `p` led to `result`, and the same step with other texts to `other`, the same
/// but for the texts.
spec fn same_step(
    p: PendingView,
    result: (PendingView, Outcome),
    other: (PendingView, Outcome),
    others: Seq<(u64, Seq<char>)>,
) -> bool {
    &&& result.0.texts == p.texts
    &&& other == (twin(result.0, others), result.1)
}

proof fn lemma_add_agrees(p: PendingView, add: AddView, others: Seq<(u64, Seq<char>)>)
    requires
        agree_on_field(new_field(add), p.texts, others),
    ensures
        same_step(p, add_column(p, add), add_column(twin(p, others), add), others),
{
    let q = twin(p, others);
    assert(add_checked(q, add) == add_checked(p, add));
    if let Ok((parent, full_name)) = add_checked(p, add) {
        let last = p.last_column_id;
        if last < i32::MAX {
            lemma_fresh_agrees(
                new_field(add),
                (last + 1) as i32,
                (last + 1) as i32,
                p.texts,
                others,
            );
        }
        if let Ok(fresh) = fresh_field(new_field(add), last).0 {
            lemma_coerced_field_agrees(fresh, full_name, p.texts, others);
        }
    }
}

proof fn lemma_update_default_agrees(
    p: PendingView,
    name: Seq<char>,
    default: Option<LiteralView>,
    others: Seq<(u64, Seq<char>)>,
)
    requires
        agree_on_default(default, p.texts, others),
    ensures
        same_step(
            p,
            update_default(p, name, default),
            update_default(twin(p, others), name, default),
            others,
        ),
{
    if let Ok(Some(field)) = p.for_update(name) {
        law_conversion_reads_only_its_own_text(field.field_type, default, name, p.texts, others);
    }
}

proof fn lemma_merge_agrees(
    p: PendingView,
    existing: FieldView,
    new: FieldView,
    others: Seq<(u64, Seq<char>)>,
)
    requires
        agree_on_field(new, p.texts, others),
    ensures
        same_step(
            p,
            merge_field(p, existing, new),
            merge_field(twin(p, others), existing, new),
            others,
        ),
{
    let q = twin(p, others);
    if let Some(name) = p.schema.name_of(existing.id) {
        let (p1, outcome1) = merge_nullability(p, name, existing, new);
        assert(same_step(
            p,
            (p1, outcome1),
            merge_nullability(q, name, existing, new),
            others,
        ));
        if outcome1 is Ok {
            let q1 = twin(p1, others);
            let (p2, outcome2) = merge_type(p1, name, existing, new);
            assert(same_step(p1, (p2, outcome2), merge_type(q1, name, existing, new), others));
            if outcome2 is Ok {
                let q2 = twin(p2, others);
                let (p3, outcome3) = merge_doc(p2, name, existing, new);
                assert(same_step(p2, (p3, outcome3), merge_doc(q2, name, existing, new), others));
                if outcome3 is Ok {
                    lemma_update_default_agrees(p3, name, new.write_default, others);
                }
            }
        }
    }
}

proof fn lemma_union_here_agrees(
    p: PendingView,
    parent: Option<i32>,
    existing: Seq<FieldView>,
    new: Seq<FieldView>,
    i: nat,
    others: Seq<(u64, Seq<char>)>,
)
    requires
        agree_on_fields(new, p.texts, others),
    ensures
        same_step(
            p,
            union_here(p, parent, existing, new, i),
            union_here(twin(p, others), parent, existing, new, i),
            others,
        ),
    decreases new.len() - i,
{
    if i < new.len() {
        let q = twin(p, others);
        let field = new[i as int];
        assert(agree_on_field(field, p.texts, others));
        match matching_field(existing, existing.len(), field.name, p.case_sensitive) {
            None => {
                let add = missing_column(p, parent, field);
                assert(missing_column(q, parent, field) == add);
                assert(agree_on_field(new_field(add), p.texts, others));
                lemma_add_agrees(p, add, others);
                let (p1, outcome) = add_column(p, add);
                if outcome is Ok {
                    lemma_union_here_agrees(p1, parent, existing, new, i + 1, others);
                }
            },
            Some(old) => {
                lemma_merge_agrees(p, old, field, others);
                let (p1, outcome) = merge_field(p, old, field);
                if outcome is Ok {
                    lemma_union_here_agrees(p1, parent, existing, new, i + 1, others);
                }
            },
        }
    }
}

proof fn lemma_union_beneath_agrees(
    p: PendingView,
    existing: Seq<FieldView>,
    new: Seq<FieldView>,
    i: nat,
    others: Seq<(u64, Seq<char>)>,
)
    requires
        agree_on_fields(new, p.texts, others),
    ensures
        same_step(
            p,
            union_beneath(p, existing, new, i),
            union_beneath(twin(p, others), existing, new, i),
            others,
        ),
    decreases new, new.len() - i,
{
    if i < new.len() {
        let field = new[i as int];
        assert(agree_on_field(field, p.texts, others));
        match matching_field(existing, existing.len(), field.name, p.case_sensitive) {
            None => {
                lemma_union_beneath_agrees(p, existing, new, i + 1, others);
            },
            Some(old) => {
                lemma_union_field_agrees(p, old, field, others);
                let (p1, outcome) = union_field(p, old, field);
                if outcome is Ok {
                    lemma_union_beneath_agrees(p1, existing, new, i + 1, others);
                }
            },
        }
    }
}

proof fn lemma_union_structs_agree(
    p: PendingView,
    parent: Option<i32>,
    existing: Seq<FieldView>,
    new: Seq<FieldView>,
    others: Seq<(u64, Seq<char>)>,
)
    requires
        agree_on_fields(new, p.texts, others),
    ensures
        same_step(
            p,
            union_structs(p, parent, existing, new),
            union_structs(twin(p, others), parent, existing, new),
            others,
        ),
    decreases new, new.len() + 1,
{
    lemma_union_beneath_agrees(p, existing, new, 0, others);
    let (p1, outcome) = union_beneath(p, existing, new, 0);
    if outcome is Ok {
        lemma_union_here_agrees(p1, parent, existing, new, 0, others);
    }
}

proof fn lemma_union_field_agrees(
    p: PendingView,
    existing: FieldView,
    new: FieldView,
    others: Seq<(u64, Seq<char>)>,
)
    requires
        agree_on_field(new, p.texts, others),
    ensures
        same_step(
            p,
            union_field(p, existing, new),
            union_field(twin(p, others), existing, new),
            others,
        ),
    decreases new, 0nat,
{
    assert(agree_on_type(new.field_type, p.texts, others));
    match (existing.field_type, new.field_type) {
        (TypeView::Struct(old), TypeView::Struct(wanted)) => {
            lemma_union_structs_agree(p, Some(existing.id), old, wanted, others);
        },
        (TypeView::List(old), TypeView::List(wanted)) => {
            lemma_union_field_agrees(p, *old, *wanted, others);
            let (p1, outcome) = union_field(p, *old, *wanted);
            if outcome is Ok {
                lemma_merge_agrees(p1, *old, *wanted, others);
            }
        },
        (TypeView::MapOf(old_key, old_value), TypeView::MapOf(key, value)) => {
            lemma_union_field_agrees(p, *old_key, *key, others);
            let (p1, outcome1) = union_field(p, *old_key, *key);
            if outcome1 is Ok {
                lemma_union_field_agrees(p1, *old_value, *value, others);
                let (p2, outcome2) = union_field(p1, *old_value, *value);
                if outcome2 is Ok {
                    lemma_merge_agrees(p2, *old_key, *key, others);
                    let (p3, outcome3) = merge_field(p2, *old_key, *key);
                    if outcome3 is Ok {
                        lemma_merge_agrees(p3, *old_value, *value, others);
                    }
                }
            }
        },
        _ => {},
    }
}

proof fn lemma_doomed_agrees(p: PendingView, id: i32, fuel: nat, others: Seq<(u64, Seq<char>)>)
    ensures
        twin(p, others).doomed(id, fuel) == p.doomed(id, fuel),
    decreases fuel,
{
    if fuel > 0 && p.parents.contains_key(id) {
        lemma_doomed_agrees(p, p.parents[id], (fuel - 1) as nat, others);
    }
}

proof fn lemma_added_matches_agree(
    p: PendingView,
    name: Seq<char>,
    i: nat,
    live: Option<i32>,
    stale: Option<i32>,
    several: bool,
    others: Seq<(u64, Seq<char>)>,
)
    ensures
        added_matches(twin(p, others), name, i, live, stale, several) == added_matches(
            p,
            name,
            i,
            live,
            stale,
            several,
        ),
    decreases p.added_fields.len() - i,
{
    if i < p.added_fields.len() {
        let id = p.added_fields[i as int].1;
        lemma_doomed_agrees(p, id, p.parents.len(), others);
        lemma_added_matches_agree(p, name, i + 1, live, stale, several, others);
        lemma_added_matches_agree(p, name, i + 1, live, Some(id), several, others);
        lemma_added_matches_agree(
            p,
            name,
            i + 1,
            Some(id),
            stale,
            several || live is Some,
            others,
        );
    }
}

proof fn lemma_selection_agrees(
    p: PendingView,
    names: Seq<Seq<char>>,
    i: nat,
    done: SelectionView,
    others: Seq<(u64, Seq<char>)>,
)
    ensures
        selection_of(twin(p, others), names, i, done) == selection_of(p, names, i, done),
    decreases names.len() - i,
{
    if i < names.len() {
        let name = names[i as int];
        lemma_added_matches_agree(p, name, 0, None, None, false, others);
        if let Ok(Some(field)) = p.resolve(name) {
            lemma_doomed_agrees(p, field.id, p.parents.len(), others);
        }
        assert(identifier_id(twin(p, others), name) == identifier_id(p, name));
        match identifier_id(p, name) {
            Err(_) => {},
            Ok(Some(id)) => {
                let resolved = if done.resolved.contains(id) {
                    done.resolved
                } else {
                    done.resolved.push(id)
                };
                lemma_selection_agrees(
                    p,
                    names,
                    i + 1,
                    SelectionView { resolved, ..done },
                    others,
                );
            },
            Ok(None) => {
                let unresolved = done.unresolved.push((name, p.case_sensitive));
                lemma_selection_agrees(
                    p,
                    names,
                    i + 1,
                    SelectionView { unresolved, ..done },
                    others,
                );
            },
        }
    }
}

proof fn lemma_delete_agrees(p: PendingView, name: Seq<char>, others: Seq<(u64, Seq<char>)>)
    ensures
        same_step(p, delete_column(p, name), delete_column(twin(p, others), name), others),
{
}

proof fn lemma_rename_agrees(
    p: PendingView,
    name: Seq<char>,
    new_name: Seq<char>,
    others: Seq<(u64, Seq<char>)>,
)
    ensures
        same_step(
            p,
            rename_column(p, name, new_name),
            rename_column(twin(p, others), name, new_name),
            others,
        ),
{
}

proof fn lemma_set_required_agrees(
    p: PendingView,
    name: Seq<char>,
    required: bool,
    others: Seq<(u64, Seq<char>)>,
)
    ensures
        same_step(
            p,
            set_required(p, name, required),
            set_required(twin(p, others), name, required),
            others,
        ),
{
}

proof fn lemma_update_type_agrees(
    p: PendingView,
    name: Seq<char>,
    new_type: PrimitiveType,
    others: Seq<(u64, Seq<char>)>,
)
    ensures
        same_step(
            p,
            update_type(p, name, new_type),
            update_type(twin(p, others), name, new_type),
            others,
        ),
{
}

proof fn lemma_update_doc_agrees(
    p: PendingView,
    name: Seq<char>,
    doc: Option<Seq<char>>,
    others: Seq<(u64, Seq<char>)>,
)
    ensures
        same_step(p, update_doc(p, name, doc), update_doc(twin(p, others), name, doc), others),
{
}

proof fn lemma_move_agrees(
    p: PendingView,
    name: Seq<char>,
    position: PositionView,
    others: Seq<(u64, Seq<char>)>,
)
    ensures
        same_step(
            p,
            move_column(p, name, position),
            move_column(twin(p, others), name, position),
            others,
        ),
{
    let q = twin(p, others);
    assert(q.for_move(name) == p.for_move(name));
    if let Ok(Some(id)) = p.for_move(name) {
        assert(requested_move(q, name, id, position) == requested_move(p, name, id, position));
        let parent = value_of(p.parents, id);
        assert(struct_parent(q, name, parent) == struct_parent(p, name, parent));
    }
}

/// Two lists that agree on what an operation adds to a list of numbers agree on its defaults, and
/// on the numbers from before.
proof fn lemma_operation_listed(
    operation: OperationView,
    done: Seq<u64>,
    texts: Seq<(u64, Seq<char>)>,
    others: Seq<(u64, Seq<char>)>,
)
    requires
        agree_on_all(texts, others, operation_bits(operation, done)),
    ensures
        agree_on_all(texts, others, done),
        match operation {
            OperationView::Add(add) => agree_on_field(new_field(add), texts, others),
            OperationView::UpdateDefault { default, .. } => agree_on_default(
                default,
                texts,
                others,
            ),
            OperationView::UnionByName(new) => agree_on_fields(new.fields, texts, others),
            _ => true,
        },
{
    match operation {
        OperationView::Add(add) => {
            let with_initial = with_default_bits(add.initial_default, done);
            let with_both = with_default_bits(add.write_default, with_initial);
            lemma_type_listed(add.field_type, with_both, texts, others);
            lemma_default_listed(add.write_default, with_initial, texts, others);
            lemma_default_listed(add.initial_default, done, texts, others);
            assert(agree_on_field(new_field(add), texts, others));
        },
        OperationView::UpdateDefault { default, .. } => {
            lemma_default_listed(default, done, texts, others);
        },
        OperationView::UnionByName(new) => {
            lemma_fields_listed(new.fields, 0, done, texts, others);
            assert(agree_on_fields(new.fields, texts, others));
        },
        _ => {},
    }
}

#[verifier::rlimit(40)]
proof fn lemma_operation_agrees(
    p: PendingView,
    operation: OperationView,
    others: Seq<(u64, Seq<char>)>,
    done: Seq<u64>,
)
    requires
        agree_on_all(p.texts, others, operation_bits(operation, done)),
    ensures
        same_step(p, operated(p, operation), operated(twin(p, others), operation), others),
{
    reveal(operated);
    lemma_operation_listed(operation, done, p.texts, others);
    match operation {
        OperationView::Add(add) => lemma_add_agrees(p, add, others),
        OperationView::Delete(name) => lemma_delete_agrees(p, name, others),
        OperationView::Rename { name, new_name } => {
            lemma_rename_agrees(p, name, new_name, others);
        },
        OperationView::SetRequired { name, required } => {
            lemma_set_required_agrees(p, name, required, others);
        },
        OperationView::UpdateType { name, new_type } => {
            lemma_update_type_agrees(p, name, new_type, others);
        },
        OperationView::UpdateDoc { name, doc } => lemma_update_doc_agrees(p, name, doc, others),
        OperationView::UpdateDefault { name, default } => {
            lemma_update_default_agrees(p, name, default, others);
        },
        OperationView::Move { name, position } => lemma_move_agrees(p, name, position, others),
        OperationView::SetIdentifierFields(names) => {
            lemma_selection_agrees(p, names, 0, no_selection(), others);
        },
        OperationView::UnionByName(new) => {
            lemma_union_structs_agree(p, None, p.schema.fields, new.fields, others);
        },
        OperationView::SetCaseSensitive(_) | OperationView::AllowIncompatibleChanges => {},
    }
}

proof fn lemma_earlier_listed(
    operations: Seq<OperationView>,
    i: nat,
    done: Seq<u64>,
    texts: Seq<(u64, Seq<char>)>,
    others: Seq<(u64, Seq<char>)>,
)
    requires
        agree_on_all(texts, others, operations_bits(operations, i, done)),
    ensures
        agree_on_all(texts, others, done),
    decreases operations.len() - i,
{
    if i < operations.len() {
        let operation = operations[i as int];
        lemma_earlier_listed(operations, i + 1, operation_bits(operation, done), texts, others);
        lemma_operation_listed(operation, done, texts, others);
    }
}

proof fn lemma_replay_agrees(
    p: PendingView,
    operations: Seq<OperationView>,
    i: nat,
    others: Seq<(u64, Seq<char>)>,
    done: Seq<u64>,
)
    requires
        agree_on_all(p.texts, others, operations_bits(operations, i, done)),
    ensures
        same_step(
            p,
            replayed(p, operations, i),
            replayed(twin(p, others), operations, i),
            others,
        ),
    decreases operations.len() - i,
{
    if i < operations.len() {
        let operation = operations[i as int];
        let more = operation_bits(operation, done);
        lemma_earlier_listed(operations, i + 1, more, p.texts, others);
        lemma_operation_agrees(p, operation, others, done);
        let (p1, outcome) = operated(p, operation);
        if outcome is Ok {
            lemma_replay_agrees(p1, operations, i + 1, others, more);
        }
    }
}

proof fn lemma_enclosing_agrees(
    p: PendingView,
    current: Option<i32>,
    name: Seq<char>,
    fuel: nat,
    others: Seq<(u64, Seq<char>)>,
)
    ensures
        enclosing_problem(twin(p, others), current, name, fuel) == enclosing_problem(
            p,
            current,
            name,
            fuel,
        ),
    decreases fuel,
{
    if let Some(id) = current {
        if fuel > 0 {
            lemma_enclosing_agrees(p, value_of(p.parents, id), name, (fuel - 1) as nat, others);
        }
    }
}

proof fn lemma_deletion_problem_agrees(
    p: PendingView,
    ids: Seq<i32>,
    i: nat,
    others: Seq<(u64, Seq<char>)>,
)
    ensures
        first_deletion_problem(twin(p, others), ids, i) == first_deletion_problem(p, ids, i),
    decreases ids.len() - i,
{
    if i < ids.len() {
        let id = ids[i as int];
        if let Some(field) = p.schema.by_id(id) {
            lemma_enclosing_agrees(
                p,
                value_of(p.parents, id),
                field.name,
                p.parents.len(),
                others,
            );
        }
        lemma_deletion_problem_agrees(p, ids, i + 1, others);
    }
}

/// The floating-point defaults that are listed for an update are all whose texts matter: two lists
/// of texts that agree on them lead to the same commit, or to the same error.
pub proof fn law_listed_texts_are_enough(
    operations: Seq<OperationView>,
    table: TableView,
    texts: Seq<(u64, Seq<char>)>,
    others: Seq<(u64, Seq<char>)>,
)
    requires
        agree_on_all(texts, others, operations_bits(operations, 0, Seq::empty())),
    ensures
        planned_commit(operations, table, texts) == planned_commit(operations, table, others),
{
    let start = initial_state(table.schema, table.last_column_id, texts);
    assert(initial_state(table.schema, table.last_column_id, others) == twin(start, others));
    lemma_replay_agrees(start, operations, 0, others, Seq::empty());
    let (p, outcome) = replayed(start, operations, 0);
    if outcome is Ok {
        lemma_deletion_problem_agrees(p, known_identifiers(p), 0, others);
        assert(applied(twin(p, others)) == applied(p));
    }
}

} // verus!
