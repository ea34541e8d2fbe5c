//! What reconciling another schema brings into a table, at every depth.

use vstd::prelude::*;

#[allow(unused_imports)]
use crate::action::{AddView, OperationView};
#[allow(unused_imports)]
use crate::added_columns::{
    converts_to, law_added_columns_are_what_was_asked_for, same_column, same_type,
};
#[allow(unused_imports)]
use crate::changes::ChangesView;
#[allow(unused_imports)]
use crate::defaults::{coerced_default, law_converted_defaults_are_settled};
#[allow(unused_imports)]
use crate::error::ErrorView;
#[allow(unused_imports)]
use crate::laws::{
    ids_up_to, lemma_add_is_sound, lemma_merge_step, lemma_update_is_sound, sound, union_step,
};
#[allow(unused_imports)]
use crate::literal::LiteralView;
#[allow(unused_imports)]
use crate::pending::{
    add_checked, add_column, parent_target, set_required, update_default, update_doc, update_type,
    Outcome, PendingView,
};
#[allow(unused_imports)]
use crate::schema::{
    checked_schema, clashes, find_full, find_id, find_name, first_clash, law_full_names_identify_fields,
    lemma_by_id, lemma_by_name, lemma_fields_have_names, lemma_find_full, lower_names, named_id, sole_match, EntryView,
    SchemaView,
};
#[allow(unused_imports)]
use crate::text::lower;
#[allow(unused_imports)]
use crate::type_promotion::promotes;
#[allow(unused_imports)]
use crate::types::{FieldView, PrimitiveType, TypeView};
#[allow(unused_imports)]
use crate::union::{
    matching_field, merge_default, merge_doc, merge_field, merge_nullability, merge_type,
    missing_column, union_beneath, union_field, union_here, union_schema, union_structs,
};
#[allow(unused_imports)]
use crate::unique_ids::{
    distinct_field_ids, is_among, is_at, lemma_among_prefix, lemma_nodes_are_fields,
    lemma_one_field_per_id,
};

verus! {

/// Whether two names are the same, whatever their case unless names are case-sensitive.
pub open spec fn same_name(a: Seq<char>, b: Seq<char>, case_sensitive: bool) -> bool {
    if case_sensitive {
        a == b
    } else {
        lower(a) == lower(b)
    }
}

/// Whether none of `fields` has the given name.
pub open spec fn lacks(fields: Seq<FieldView>, name: Seq<char>, case_sensitive: bool) -> bool {
    forall|j: int|
        0 <= j < fields.len() ==> !same_name((#[trigger] fields[j]).name, name, case_sensitive)
}

/// Whether `old` is the last of `fields` with the given name.
pub open spec fn has_last(
    fields: Seq<FieldView>,
    name: Seq<char>,
    case_sensitive: bool,
    old: FieldView,
) -> bool {
    exists|j: int|
        {
            &&& 0 <= j < fields.len()
            &&& #[trigger] fields[j] == old
            &&& same_name(old.name, name, case_sensitive)
            &&& forall|k: int|
                j < k < fields.len() ==> !same_name(
                    (#[trigger] fields[k]).name,
                    name,
                    case_sensitive,
                )
        }
}

/// Whether the struct `at` of the table, where it is one of those with the fields `existing` and the
/// ID `parent` or lies beneath them, lacks the incoming field `n` that stands at the same place
/// among or beneath the fields `new`.
pub open spec fn missing_within(
    parent: Option<i32>,
    existing: Seq<FieldView>,
    new: Seq<FieldView>,
    case_sensitive: bool,
    at: Option<i32>,
    n: FieldView,
) -> bool
    decreases new, 0nat,
{
    exists|i: int|
        0 <= i < new.len() && {
            ||| #[trigger] new[i] == n && at == parent && lacks(existing, n.name, case_sensitive)
            ||| exists|old: FieldView| #[trigger]
                has_last(existing, new[i].name, case_sensitive, old) && missing_beneath(
                    old,
                    new[i],
                    case_sensitive,
                    at,
                    n,
                )
        }
}

/// Whether the struct `at` beneath the field `old` lacks the incoming field `n` that stands at the
/// same place beneath `new`.
pub open spec fn missing_beneath(
    old: FieldView,
    new: FieldView,
    case_sensitive: bool,
    at: Option<i32>,
    n: FieldView,
) -> bool
    decreases new, 1nat,
{
    match (old.field_type, new.field_type) {
        (TypeView::Struct(a), TypeView::Struct(b)) => missing_within(
            Some(old.id),
            a,
            b,
            case_sensitive,
            at,
            n,
        ),
        (TypeView::List(a), TypeView::List(b)) => missing_beneath(*a, *b, case_sensitive, at, n),
        (TypeView::MapOf(a, b), TypeView::MapOf(c, d)) => missing_beneath(
            *a,
            *c,
            case_sensitive,
            at,
            n,
        ) || missing_beneath(*b, *d, case_sensitive, at, n),
        _ => false,
    }
}

/// Whether the column `k` of those that were added is the incoming field `n`, as an optional one:
/// with the same name, documentation and type, whatever its IDs, and with its defaults converted.
pub open spec fn brought_in(p: PendingView, k: int, n: FieldView) -> bool {
    let id = p.changes.additions[k].1;
    &&& 0 <= k < p.changes.additions.len()
    &&& p.changes.updates.contains_key(id)
    &&& !p.changes.updates[id].required
    &&& same_column(FieldView { required: false, ..n }, p.changes.updates[id], p.texts)
}

proof fn lemma_matching(fields: Seq<FieldView>, n: nat, name: Seq<char>, case_sensitive: bool)
    requires
        n <= fields.len(),
        forall|k: int|
            n <= k < fields.len() ==> !same_name(
                (#[trigger] fields[k]).name,
                name,
                case_sensitive,
            ),
    ensures
        match matching_field(fields, n, name, case_sensitive) {
            Some(old) => has_last(fields, name, case_sensitive, old),
            None => lacks(fields, name, case_sensitive),
        },
    decreases n,
{
    if n > 0 {
        if same_name(fields[n - 1].name, name, case_sensitive) {
            assert(has_last(fields, name, case_sensitive, fields[n - 1]));
        } else {
            lemma_matching(fields, (n - 1) as nat, name, case_sensitive);
        }
    }
}

/// The field that an incoming field is merged into is the last one of its name; where there is none,
/// there is no field of that name.
pub proof fn law_fields_match_by_name(
    fields: Seq<FieldView>,
    name: Seq<char>,
    case_sensitive: bool,
    old: FieldView,
)
    ensures
        matching_field(fields, fields.len(), name, case_sensitive) == Some(old) <==> has_last(
            fields,
            name,
            case_sensitive,
            old,
        ),
        matching_field(fields, fields.len(), name, case_sensitive) is None <==> lacks(
            fields,
            name,
            case_sensitive,
        ),
{
    lemma_matching(fields, fields.len(), name, case_sensitive);
    if let Some(found) = matching_field(fields, fields.len(), name, case_sensitive) {
        let k = choose|k: int|
            {
                &&& 0 <= k < fields.len()
                &&& #[trigger] fields[k] == found
                &&& same_name(found.name, name, case_sensitive)
                &&& forall|l: int|
                    k < l < fields.len() ==> !same_name(
                        (#[trigger] fields[l]).name,
                        name,
                        case_sensitive,
                    )
            };
        assert(!lacks(fields, name, case_sensitive)) by {
            assert(same_name(fields[k].name, name, case_sensitive));
        }
        if has_last(fields, name, case_sensitive, old) {
            let j = choose|j: int|
                {
                    &&& 0 <= j < fields.len()
                    &&& #[trigger] fields[j] == old
                    &&& same_name(old.name, name, case_sensitive)
                    &&& forall|l: int|
                        j < l < fields.len() ==> !same_name(
                            (#[trigger] fields[l]).name,
                            name,
                            case_sensitive,
                        )
                };
            assert(same_name(fields[j].name, name, case_sensitive));
            assert(same_name(fields[k].name, name, case_sensitive));
            assert(j == k);
        }
    } else {
        if has_last(fields, name, case_sensitive, old) {
            let j = choose|j: int|
                0 <= j < fields.len() && #[trigger] fields[j] == old && same_name(
                    old.name,
                    name,
                    case_sensitive,
                );
            assert(same_name(fields[j].name, name, case_sensitive));
        }
    }
}

proof fn lemma_lowered(
    entries: Seq<EntryView>,
    i: nat,
    done: Seq<(Seq<char>, i32)>,
    k: int,
)
    requires
        k < entries.len(),
    ensures
        forall|j: int|
            0 <= j < done.len() ==> lower_names(entries, i, done).contains(#[trigger] done[j]),
        i <= k ==> lower_names(entries, i, done).contains(
            (lower(entries[k].full), named_id(entries, entries[k].full)),
        ),
    decreases entries.len() - i,
{
    let all = lower_names(entries, i, done);
    if i < entries.len() {
        let e = entries[i as int];
        let one = done.push((lower(e.full), named_id(entries, e.full)));
        let two = one.push((lower(e.short), named_id(entries, e.short)));
        lemma_lowered(entries, i + 1, two, k);
        assert forall|j: int| 0 <= j < done.len() implies all.contains(#[trigger] done[j]) by {
            assert(all.contains(two[j]));
        }
        assert(all.contains(two[done.len() as int]));
    } else {
        assert forall|j: int| 0 <= j < done.len() implies all.contains(#[trigger] done[j]) by {
            assert(all[j] == done[j]);
        }
    }
}

proof fn lemma_no_clash(names: Seq<(Seq<char>, i32)>, i: nat, a: int, b: int)
    requires
        first_clash(names, i) is None,
        0 <= a < b < names.len(),
        i <= b,
        names[a].0 == names[b].0,
    ensures
        names[a].1 == names[b].1,
    decreases names.len() - i,
{
    if i < b {
        lemma_no_clash(names, i + 1, a, b);
    } else {
        assert(!clashes(names, b));
    }
}

proof fn lemma_sole(
    names: Seq<(Seq<char>, i32)>,
    name: Seq<char>,
    i: nat,
    found: Option<i32>,
    k: int,
)
    requires
        0 <= k < names.len(),
        names[k].0 == name,
        forall|j: int|
            0 <= j < names.len() && (#[trigger] names[j]).0 == name ==> names[j].1 == names[k].1,
        found is Some ==> found == Some(names[k].1),
        k < i ==> found is Some,
    ensures
        sole_match(names, name, i, found) == Some(names[k].1),
    decreases names.len() - i,
{
    if i < names.len() {
        if names[i as int].0 != name {
            lemma_sole(names, name, i + 1, found, k);
        } else {
            lemma_sole(names, name, i + 1, Some(names[i as int].1), k);
        }
    }
}

/// The full name of a column stands for that column, and where case does not matter so does every
/// name that differs from it in case alone.
pub proof fn law_full_names_stand_for_their_columns(p: PendingView, id: i32, name: Seq<char>)
    requires
        checked_schema(p.schema) is Ok,
        p.case_sensitive || p.schema.collision() is None,
        name.len() > 0,
        p.schema.name_of(id) matches Some(full) && same_name(full, name, p.case_sensitive),
    ensures
        p.resolve(name) matches Ok(Some(field)) && field.id == id && p.schema.has_field(field),
{
    let full = p.schema.name_of(id)->0;
    let entries = p.schema.entries();
    law_full_names_identify_fields(p.schema, full, id);
    lemma_by_name(p.schema, name);
    let entry = find_full(entries, full, 0)->0;
    assert(entry.field.id == id);
    lemma_find_full(entries, full, 0);
    if !p.case_sensitive {
        let k = choose|k: int| 0 <= k < entries.len() && #[trigger] entries[k] == entry;
        assert(named_id(entries, full) == id);
        lemma_lowered(entries, 0, Seq::empty(), k);
        let names = p.schema.lowered();
        assert(names.contains((lower(full), id)));
        let at = choose|at: int| 0 <= at < names.len() && names[at] == (lower(full), id);
        assert forall|j: int|
            0 <= j < names.len() && (#[trigger] names[j]).0 == lower(name) implies names[j].1
            == names[at].1 by {
            if j < at {
                lemma_no_clash(names, 0, j, at);
            } else if at < j {
                lemma_no_clash(names, 0, at, j);
            }
        }
        lemma_sole(names, lower(name), 0, None, at);
        lemma_by_id(p.schema, id);
        assert(p.schema.by_id(id) is Some);
    }
}

/// The current form of a column of the original schema.
pub open spec fn form(p: PendingView, field: FieldView) -> FieldView {
    if p.changes.updates.contains_key(field.id) {
        p.changes.updates[field.id]
    } else {
        field
    }
}

/// What holds of the state of an update of a valid schema in which no ID occurs twice, and in which
/// names can be looked up.
pub open spec fn ready(p: PendingView, first: i32) -> bool {
    &&& sound(p, first)
    &&& checked_schema(p.schema) is Ok
    &&& distinct_field_ids(p.schema)
    &&& p.case_sensitive || p.schema.collision() is None
}

/// Whether `q` is `p` but for the form of the column `id`.
spec fn touches_only(p: PendingView, q: PendingView, id: i32) -> bool {
    &&& q == (PendingView {
        changes: ChangesView { updates: q.changes.updates, ..p.changes },
        ..p
    })
    &&& forall|other: i32| #[trigger]
        q.changes.updates.contains_key(other) <==> p.changes.updates.contains_key(other) || (other
            == id && q.changes.updates.contains_key(other))
    &&& forall|other: i32| #[trigger]
        p.changes.updates.contains_key(other) && other != id ==> q.changes.updates[other]
            == p.changes.updates[other]
}

/// The column that the full name of a field of the schema stands for is that field.
proof fn lemma_named(p: PendingView, first: i32, old: FieldView, name: Seq<char>)
    requires
        ready(p, first),
        p.schema.has_field(old),
        p.schema.name_of(old.id) == Some(name),
    ensures
        name.len() > 0 ==> p.resolve(name) == Ok::<Option<FieldView>, ErrorView>(Some(old))
            && p.for_update(name) == Ok::<Option<FieldView>, ErrorView>(Some(form(p, old))),
        name.len() == 0 ==> p.resolve(name) is Err && p.for_update(name) is Err,
        form(p, old).id == old.id,
        old.id <= first,
{
    if name.len() > 0 {
        law_full_names_stand_for_their_columns(p, old.id, name);
        let field = p.resolve(name)->Ok_0->0;
        lemma_one_field_per_id(p.schema, field, old);
    }
}

/// What becomes of the form `a` of a column `old` when the incoming field `new` is merged into it:
/// the form `b`.
pub open spec fn merged(
    old: FieldView,
    a: FieldView,
    new: FieldView,
    b: FieldView,
    texts: Seq<(u64, Seq<char>)>,
) -> bool {
    &&& b.id == a.id
    &&& b.name == a.name
    &&& b.required == (a.required && !(old.required && !new.required))
    &&& b.doc == (if new.doc is Some && new.doc != old.doc {
        new.doc
    } else {
        a.doc
    })
    &&& match (old.field_type, new.field_type) {
        (TypeView::Primitive(have), TypeView::Primitive(wanted)) => if have == wanted || promotes(
            TypeView::Primitive(wanted),
            have,
        ) {
            b.field_type == a.field_type
        } else {
            b.field_type == TypeView::Primitive(wanted) && (a.field_type == b.field_type
                || promotes(a.field_type, wanted))
        },
        _ => b.field_type == a.field_type,
    }
    &&& b.field_type == a.field_type ==> b.initial_default == a.initial_default
    &&& if new.write_default is Some && new.write_default != old.write_default {
        converts_to(b.field_type, new.write_default, b.write_default, texts)
    } else {
        b.field_type == a.field_type ==> b.write_default == a.write_default
    }
}

/// A matching field takes over what the incoming field has to say and keeps the rest: it becomes
/// optional where the incoming one is, takes over a wider primitive type, documentation and a write
/// default, and keeps its ID, its name and its initial default. All other columns stay as they are.
#[verifier::rlimit(40)]
pub proof fn law_merged_fields_take_over_what_is_new(
    p: PendingView,
    first: i32,
    old: FieldView,
    new: FieldView,
)
    requires
        ready(p, first),
        p.schema.has_field(old),
        merge_field(p, old, new).1 is Ok,
    ensures
        ({
            let q = merge_field(p, old, new).0;
            &&& merged(old, form(p, old), new, form(q, old), p.texts)
            &&& forall|other: FieldView|
                other.id != old.id ==> #[trigger] form(q, other) == form(p, other)
            &&& q.changes.additions == p.changes.additions
            &&& q.changes.deletes == p.changes.deletes
            &&& q.changes.moves == p.changes.moves
        }),
{
    let name = p.schema.name_of(old.id)->0;
    lemma_merge_touches(p, first, old, new);
}

proof fn lemma_required_touches(p: PendingView, first: i32, old: FieldView, name: Seq<char>)
    requires
        ready(p, first),
        p.schema.has_field(old),
        p.schema.name_of(old.id) == Some(name),
    ensures
        ({
            let (q, outcome) = set_required(p, name, false);
            &&& touches_only(p, q, old.id)
            &&& ready(q, first)
            &&& outcome is Ok ==> form(q, old) == (FieldView { required: false, ..form(p, old) })
        }),
{
    lemma_named(p, first, old, name);
    let q = set_required(p, name, false).0;
    if q != p {
        lemma_update_is_sound(p, first, old.id, q.changes.updates[old.id]);
    }
}

proof fn lemma_type_touches(
    p: PendingView,
    first: i32,
    old: FieldView,
    name: Seq<char>,
    wanted: PrimitiveType,
)
    requires
        ready(p, first),
        p.schema.has_field(old),
        p.schema.name_of(old.id) == Some(name),
    ensures
        ({
            let (q, outcome) = update_type(p, name, wanted);
            let a = form(p, old);
            let b = form(q, old);
            &&& touches_only(p, q, old.id)
            &&& ready(q, first)
            &&& outcome is Ok ==> {
                &&& b.field_type == TypeView::Primitive(wanted)
                &&& b == (FieldView {
                    field_type: b.field_type,
                    initial_default: b.initial_default,
                    write_default: b.write_default,
                    ..a
                })
                &&& a.field_type == b.field_type ==> b == a
                &&& a.field_type == b.field_type || promotes(a.field_type, wanted)
                &&& a.write_default is Some ==> b.write_default is Some
            }
        }),
{
    lemma_named(p, first, old, name);
    let q = update_type(p, name, wanted).0;
    if q != p {
        lemma_update_is_sound(p, first, old.id, q.changes.updates[old.id]);
    }
}

proof fn lemma_doc_touches(
    p: PendingView,
    first: i32,
    old: FieldView,
    name: Seq<char>,
    doc: Option<Seq<char>>,
)
    requires
        ready(p, first),
        p.schema.has_field(old),
        p.schema.name_of(old.id) == Some(name),
    ensures
        ({
            let (q, outcome) = update_doc(p, name, doc);
            &&& touches_only(p, q, old.id)
            &&& ready(q, first)
            &&& outcome is Ok ==> form(q, old) == (FieldView { doc, ..form(p, old) })
        }),
{
    lemma_named(p, first, old, name);
    let q = update_doc(p, name, doc).0;
    if q != p {
        lemma_update_is_sound(p, first, old.id, q.changes.updates[old.id]);
    }
}

proof fn lemma_default_touches(
    p: PendingView,
    first: i32,
    old: FieldView,
    name: Seq<char>,
    default: Option<LiteralView>,
)
    requires
        ready(p, first),
        p.schema.has_field(old),
        p.schema.name_of(old.id) == Some(name),
    ensures
        ({
            let (q, outcome) = update_default(p, name, default);
            let b = form(q, old);
            &&& touches_only(p, q, old.id)
            &&& ready(q, first)
            &&& outcome is Ok ==> {
                &&& b == (FieldView { write_default: b.write_default, ..form(p, old) })
                &&& converts_to(b.field_type, default, b.write_default, p.texts)
                &&& default is Some ==> b.write_default is Some
            }
        }),
{
    lemma_named(p, first, old, name);
    let (q, outcome) = update_default(p, name, default);
    if q != p {
        lemma_update_is_sound(p, first, old.id, q.changes.updates[old.id]);
    }
    if outcome is Ok {
        let a = form(p, old);
        assert(coerced_default(a.field_type, default, name, p.texts) is Ok);
        law_converted_defaults_are_settled(
            a.field_type,
            default,
            name,
            p.texts,
            name,
            p.texts,
        );
    }
}

proof fn lemma_touches_twice(p: PendingView, q: PendingView, r: PendingView, id: i32)
    requires
        touches_only(p, q, id),
        touches_only(q, r, id),
    ensures
        touches_only(p, r, id),
{
    assert forall|other: i32| #[trigger]
        r.changes.updates.contains_key(other) <==> p.changes.updates.contains_key(other) || (other
            == id && r.changes.updates.contains_key(other)) by {
        assert(q.changes.updates.contains_key(other) <==> p.changes.updates.contains_key(other) || (
        other == id && q.changes.updates.contains_key(other)));
    }
    assert forall|other: i32| #[trigger]
        p.changes.updates.contains_key(other) && other != id implies r.changes.updates[other]
        == p.changes.updates[other] by {
        assert(q.changes.updates.contains_key(other));
    }
}

#[verifier::rlimit(60)]
proof fn lemma_merge_touches(p: PendingView, first: i32, old: FieldView, new: FieldView)
    requires
        ready(p, first),
        p.schema.has_field(old),
    ensures
        ({
            let (q, outcome) = merge_field(p, old, new);
            &&& touches_only(p, q, old.id)
            &&& ready(q, first)
            &&& outcome is Ok ==> {
                &&& merged(old, form(p, old), new, form(q, old), p.texts)
                &&& form(p, old).write_default is Some || (new.write_default is Some
                    && new.write_default != old.write_default) ==> form(q, old).write_default is Some
            }
        }),
{
    if let Some(name) = p.schema.name_of(old.id) {
        lemma_named(p, first, old, name);
        lemma_required_touches(p, first, old, name);
        let (p1, outcome1) = merge_nullability(p, name, old, new);
        if outcome1 is Ok {
            if let TypeView::Primitive(wanted) = new.field_type {
                lemma_type_touches(p1, first, old, name, wanted);
            }
            let (p2, outcome2) = merge_type(p1, name, old, new);
            lemma_touches_twice(p, p1, p2, old.id);
            if outcome2 is Ok {
                lemma_doc_touches(p2, first, old, name, new.doc);
                let (p3, outcome3) = merge_doc(p2, name, old, new);
                lemma_touches_twice(p, p2, p3, old.id);
                if outcome3 is Ok {
                    lemma_default_touches(p3, first, old, name, new.write_default);
                    let (p4, outcome4) = merge_default(p3, name, old, new);
                    lemma_touches_twice(p, p3, p4, old.id);
                }
            }
        }
    }
}

/// Whether the form `b` of a column is at least as wide as the form `a`, and says no less.
pub open spec fn no_less(a: FieldView, b: FieldView) -> bool {
    &&& b.required ==> a.required
    &&& a.doc is Some ==> b.doc is Some
    &&& a.write_default is Some ==> b.write_default is Some
    &&& b.field_type == a.field_type || (b.field_type matches TypeView::Primitive(t) && promotes(
        a.field_type,
        t,
    ))
}

/// Whether `q` comes from `p` by steps of a reconciliation: no column says less than before, and
/// what was added stays as it was added.
spec fn grows(p: PendingView, q: PendingView, first: i32) -> bool {
    &&& ready(q, first)
    &&& q.schema == p.schema
    &&& q.case_sensitive == p.case_sensitive
    &&& q.texts == p.texts
    &&& p.changes.additions.len() <= q.changes.additions.len()
    &&& forall|k: int|
        0 <= k < p.changes.additions.len() ==> {
            &&& p.changes.additions[k] == (#[trigger] q.changes.additions[k])
            &&& q.changes.updates[q.changes.additions[k].1]
                == p.changes.updates[p.changes.additions[k].1]
        }
    &&& forall|field: FieldView| #[trigger]
        p.schema.has_field(field) ==> no_less(form(p, field), form(q, field))
}

proof fn lemma_grows_not(p: PendingView, first: i32)
    requires
        ready(p, first),
    ensures
        grows(p, p, first),
{
}

proof fn lemma_no_less_twice(a: FieldView, b: FieldView, c: FieldView)
    requires
        no_less(a, b),
        no_less(b, c),
    ensures
        no_less(a, c),
{
}

proof fn lemma_grows_twice(p: PendingView, q: PendingView, r: PendingView, first: i32)
    requires
        grows(p, q, first),
        grows(q, r, first),
    ensures
        grows(p, r, first),
{
    assert forall|k: int| 0 <= k < p.changes.additions.len() implies {
        &&& p.changes.additions[k] == (#[trigger] r.changes.additions[k])
        &&& r.changes.updates[r.changes.additions[k].1]
            == p.changes.updates[p.changes.additions[k].1]
    } by {
        assert(p.changes.additions[k] == q.changes.additions[k]);
    }
    assert forall|field: FieldView| #[trigger] p.schema.has_field(field) implies no_less(
        form(p, field),
        form(r, field),
    ) by {
        assert(q.schema.has_field(field));
        lemma_no_less_twice(form(p, field), form(q, field), form(r, field));
    }
}

proof fn lemma_merge_grows(p: PendingView, first: i32, old: FieldView, new: FieldView)
    requires
        ready(p, first),
        p.schema.has_field(old),
        merge_field(p, old, new).1 is Ok,
    ensures
        grows(p, merge_field(p, old, new).0, first),
{
    lemma_merge_touches(p, first, old, new);
    let q = merge_field(p, old, new).0;
    assert forall|field: FieldView| #[trigger] p.schema.has_field(field) implies no_less(
        form(p, field),
        form(q, field),
    ) by {
        if field.id == old.id {
            lemma_one_field_per_id(p.schema, field, old);
        } else {
            assert(q.changes.updates.contains_key(field.id)
                <==> p.changes.updates.contains_key(field.id));
        }
    }
    assert(old.id <= first);
    assert forall|k: int| 0 <= k < p.changes.additions.len() implies {
        &&& p.changes.additions[k] == (#[trigger] q.changes.additions[k])
        &&& q.changes.updates[q.changes.additions[k].1]
            == p.changes.updates[p.changes.additions[k].1]
    } by {
        assert(p.changes.updates.contains_key(p.changes.additions[k].1));
    }
}

/// Whether the column `k` of those that were added was added to the struct `at`.
pub open spec fn added_to(p: PendingView, k: int, at: Option<i32>) -> bool {
    0 <= k < p.changes.additions.len() && p.changes.additions[k].0 == at
}

/// Whether the incoming field `n` was brought into the struct `at`.
pub open spec fn brought_into(p: PendingView, at: Option<i32>, n: FieldView) -> bool {
    exists|k: int| #[trigger] added_to(p, k, at) && brought_in(p, k, n)
}

proof fn lemma_stays_brought(p: PendingView, q: PendingView, first: i32, at: Option<i32>, n: FieldView)
    requires
        ready(p, first),
        grows(p, q, first),
        brought_into(p, at, n),
    ensures
        brought_into(q, at, n),
{
    let k = choose|k: int| #[trigger] added_to(p, k, at) && brought_in(p, k, n);
    assert(p.changes.additions[k] == q.changes.additions[k]);
    assert(q.changes.updates.contains_key(q.changes.additions[k].1));
    assert(added_to(q, k, at) && brought_in(q, k, n));
}

/// Whether `parent` is the ID of a struct of the schema, or none, for the root.
spec fn is_struct(p: PendingView, parent: Option<i32>) -> bool {
    parent matches Some(id) ==> exists|field: FieldView| #[trigger]
        p.schema.has_field(field) && field.id == id && field.field_type is Struct
}

proof fn lemma_missing_brought(
    p: PendingView,
    first: i32,
    parent: Option<i32>,
    n: FieldView,
)
    requires
        ready(p, first),
        is_struct(p, parent),
        add_column(p, missing_column(p, parent, n)).1 is Ok,
    ensures
        grows(p, add_column(p, missing_column(p, parent, n)).0, first),
        brought_into(add_column(p, missing_column(p, parent, n)).0, parent, n),
{
    let add = missing_column(p, parent, n);
    let q = add_column(p, add).0;
    lemma_add_is_sound(p, first, add);
    law_added_columns_are_what_was_asked_for(p, add);
    let k = p.changes.additions.len() as int;
    let id = q.changes.additions[k].1;
    assert forall|j: int| 0 <= j < k implies {
        &&& p.changes.additions[j] == (#[trigger] q.changes.additions[j])
        &&& q.changes.updates[q.changes.additions[j].1]
            == p.changes.updates[p.changes.additions[j].1]
    } by {
        assert(q.changes.additions.take(k)[j] == q.changes.additions[j]);
        assert(p.changes.additions[j].1 <= p.last_column_id);
    }
    if let Some(at) = parent {
        let holder = choose|field: FieldView| #[trigger]
            p.schema.has_field(field) && field.id == at && field.field_type is Struct;
        lemma_fields_have_names(p.schema, holder);
        lemma_named(p, first, holder, p.schema.name_of(at)->0);
    }
    assert(q.changes.additions[k].0 == parent);
    assert forall|field: FieldView| #[trigger] p.schema.has_field(field) implies no_less(
        form(p, field),
        form(q, field),
    ) by {
        assert(field.id <= first);
    }
    assert(same_column(FieldView { required: false, ..n }, q.changes.updates[id], q.texts));
    assert(added_to(q, k, parent) && brought_in(q, k, n));
}

/// Whether `old` is a column of the table among or beneath the fields `existing`, and `n` the
/// incoming field at the same place among or beneath the fields `new`.
pub open spec fn matched_within(
    existing: Seq<FieldView>,
    new: Seq<FieldView>,
    case_sensitive: bool,
    old: FieldView,
    n: FieldView,
) -> bool
    decreases new, 0nat,
{
    exists|i: int|
        0 <= i < new.len() && {
            ||| #[trigger] new[i] == n && has_last(existing, n.name, case_sensitive, old)
            ||| exists|holder: FieldView| #[trigger]
                has_last(existing, new[i].name, case_sensitive, holder) && matched_beneath(
                    holder,
                    new[i],
                    case_sensitive,
                    old,
                    n,
                )
        }
}

/// Whether `old` is a column beneath `holder`, and `n` the incoming field at the same place beneath
/// `new`.
pub open spec fn matched_beneath(
    holder: FieldView,
    new: FieldView,
    case_sensitive: bool,
    old: FieldView,
    n: FieldView,
) -> bool
    decreases new, 1nat,
{
    match (holder.field_type, new.field_type) {
        (TypeView::Struct(a), TypeView::Struct(b)) => matched_within(a, b, case_sensitive, old, n),
        (TypeView::List(a), TypeView::List(b)) => (old == *a && n == *b) || matched_beneath(
            *a,
            *b,
            case_sensitive,
            old,
            n,
        ),
        (TypeView::MapOf(a, b), TypeView::MapOf(c, d)) => {
            ||| old == *a && n == *c
            ||| old == *b && n == *d
            ||| matched_beneath(*a, *c, case_sensitive, old, n)
            ||| matched_beneath(*b, *d, case_sensitive, old, n)
        },
        _ => false,
    }
}

/// Whether a column says at least what the incoming field `n` had to say that was new: it is
/// optional where that made a difference, its type is no narrower, and it has documentation and a
/// write default.
pub open spec fn taken_over(p: PendingView, old: FieldView, n: FieldView) -> bool {
    let now = form(p, old);
    &&& old.required && !n.required ==> !now.required
    &&& n.doc is Some && n.doc != old.doc ==> now.doc is Some
    &&& n.write_default is Some && n.write_default != old.write_default ==> now.write_default is Some
    &&& match (old.field_type, n.field_type) {
        (TypeView::Primitive(have), TypeView::Primitive(wanted)) => {
            ||| have == wanted
            ||| promotes(TypeView::Primitive(wanted), have)
            ||| now.field_type == TypeView::Primitive(wanted)
            ||| now.field_type matches TypeView::Primitive(t) && promotes(
                TypeView::Primitive(wanted),
                t,
            )
        },
        _ => true,
    }
}

proof fn lemma_stays_taken(
    p: PendingView,
    q: PendingView,
    first: i32,
    old: FieldView,
    n: FieldView,
)
    requires
        grows(p, q, first),
        p.schema.has_field(old),
        taken_over(p, old, n),
    ensures
        taken_over(q, old, n),
{
    assert(no_less(form(p, old), form(q, old)));
}

proof fn lemma_merge_takes(p: PendingView, first: i32, old: FieldView, n: FieldView)
    requires
        ready(p, first),
        p.schema.has_field(old),
        merge_field(p, old, n).1 is Ok,
    ensures
        grows(p, merge_field(p, old, n).0, first),
        taken_over(merge_field(p, old, n).0, old, n),
{
    lemma_merge_grows(p, first, old, n);
    lemma_merge_touches(p, first, old, n);
}

proof fn lemma_here(
    p: PendingView,
    first: i32,
    parent: Option<i32>,
    existing: Seq<FieldView>,
    new: Seq<FieldView>,
    i: nat,
)
    requires
        ready(p, first),
        is_struct(p, parent),
        forall|j: int| 0 <= j < existing.len() ==> p.schema.has_field(#[trigger] existing[j]),
        union_here(p, parent, existing, new, i).1 is Ok,
    ensures
        ({
            let q = union_here(p, parent, existing, new, i).0;
            &&& grows(p, q, first)
            &&& forall|j: int|
                i <= j < new.len() && lacks(existing, (#[trigger] new[j]).name, p.case_sensitive)
                    ==> brought_into(q, parent, new[j])
            &&& forall|j: int, old: FieldView|
                i <= j < new.len() && #[trigger] has_last(
                    existing,
                    new[j].name,
                    p.case_sensitive,
                    old,
                ) ==> taken_over(q, old, new[j]) && p.schema.has_field(old)
        }),
    decreases new.len() - i,
{
    let q = union_here(p, parent, existing, new, i).0;
    if i < new.len() {
        let n = new[i as int];
        let cs = p.case_sensitive;
        lemma_matching(existing, existing.len(), n.name, cs);
        let p1 = match matching_field(existing, existing.len(), n.name, cs) {
            None => {
                lemma_missing_brought(p, first, parent, n);
                add_column(p, missing_column(p, parent, n)).0
            },
            Some(old) => {
                lemma_merge_takes(p, first, old, n);
                merge_field(p, old, n).0
            },
        };
        lemma_here(p1, first, parent, existing, new, i + 1);
        lemma_grows_twice(p, p1, q, first);
        if lacks(existing, n.name, cs) {
            law_fields_match_by_name(existing, n.name, cs, n);
            lemma_stays_brought(p1, q, first, parent, n);
        }
        assert forall|j: int, old: FieldView|
            i <= j < new.len() && #[trigger] has_last(
                existing,
                new[j].name,
                cs,
                old,
            ) implies taken_over(q, old, new[j]) && p.schema.has_field(old) by {
            if j == i {
                law_fields_match_by_name(existing, n.name, cs, old);
                lemma_stays_taken(p1, q, first, old, n);
            }
        }
    } else {
        lemma_grows_not(p, first);
    }
}

/// What one step of a reconciliation that goes beneath fields has done for the places asked about.
spec fn reached(
    p: PendingView,
    holder: FieldView,
    new: FieldView,
    q: PendingView,
    at: Option<i32>,
    n: FieldView,
    old: FieldView,
    m: FieldView,
) -> bool {
    &&& missing_beneath(holder, new, p.case_sensitive, at, n) ==> brought_into(q, at, n)
    &&& matched_beneath(holder, new, p.case_sensitive, old, m) ==> taken_over(q, old, m)
        && p.schema.has_field(old)
}

proof fn lemma_beneath(
    p: PendingView,
    first: i32,
    existing: Seq<FieldView>,
    new: Seq<FieldView>,
    i: nat,
    at: Option<i32>,
    n: FieldView,
    old: FieldView,
    m: FieldView,
)
    requires
        ready(p, first),
        forall|node: FieldView| #[trigger]
            is_among(existing, existing.len(), node) ==> p.schema.has_field(node),
        union_beneath(p, existing, new, i).1 is Ok,
    ensures
        ({
            let q = union_beneath(p, existing, new, i).0;
            &&& grows(p, q, first)
            &&& forall|j: int, holder: FieldView|
                i <= j < new.len() && #[trigger] has_last(
                    existing,
                    new[j].name,
                    p.case_sensitive,
                    holder,
                ) ==> reached(p, holder, new[j], q, at, n, old, m)
        }),
    decreases new, new.len() - i,
{
    let q = union_beneath(p, existing, new, i).0;
    if i < new.len() {
        let cs = p.case_sensitive;
        let incoming = new[i as int];
        lemma_matching(existing, existing.len(), incoming.name, cs);
        match matching_field(existing, existing.len(), incoming.name, cs) {
            None => {
                lemma_beneath(p, first, existing, new, i + 1, at, n, old, m);
                assert forall|j: int, holder: FieldView|
                    i <= j < new.len() && #[trigger] has_last(
                        existing,
                        new[j].name,
                        cs,
                        holder,
                    ) implies reached(p, holder, new[j], q, at, n, old, m) by {
                    if j == i {
                        law_fields_match_by_name(existing, incoming.name, cs, holder);
                    }
                }
            },
            Some(found) => {
                let k = choose|k: int| 0 <= k < existing.len() && #[trigger] existing[k] == found;
                assert forall|node: FieldView| #[trigger]
                    is_at(found, node) implies p.schema.has_field(node) by {
                    lemma_among_prefix(existing, existing.len(), k, node);
                }
                lemma_under(p, first, found, incoming, at, n, old, m);
                let p1 = union_field(p, found, incoming).0;
                lemma_beneath(p1, first, existing, new, i + 1, at, n, old, m);
                lemma_grows_twice(p, p1, q, first);
                assert forall|j: int, holder: FieldView|
                    i <= j < new.len() && #[trigger] has_last(
                        existing,
                        new[j].name,
                        cs,
                        holder,
                    ) implies reached(p, holder, new[j], q, at, n, old, m) by {
                    if j == i {
                        law_fields_match_by_name(existing, incoming.name, cs, holder);
                        assert(reached(p, holder, incoming, p1, at, n, old, m));
                        lemma_stays_reached(p, p1, q, first, holder, incoming, at, n, old, m);
                    } else {
                        assert(reached(p1, holder, new[j], q, at, n, old, m));
                    }
                }
            },
        }
    } else {
        lemma_grows_not(p, first);
    }
}

proof fn lemma_stays_reached(
    p: PendingView,
    q: PendingView,
    r: PendingView,
    first: i32,
    holder: FieldView,
    new: FieldView,
    at: Option<i32>,
    n: FieldView,
    old: FieldView,
    m: FieldView,
)
    requires
        ready(q, first),
        q.schema == p.schema,
        grows(q, r, first),
        reached(p, holder, new, q, at, n, old, m),
    ensures
        reached(p, holder, new, r, at, n, old, m),
{
    if missing_beneath(holder, new, p.case_sensitive, at, n) {
        lemma_stays_brought(q, r, first, at, n);
    }
    if matched_beneath(holder, new, p.case_sensitive, old, m) {
        lemma_stays_taken(q, r, first, old, m);
    }
}

proof fn lemma_structs(
    p: PendingView,
    first: i32,
    parent: Option<i32>,
    existing: Seq<FieldView>,
    new: Seq<FieldView>,
    at: Option<i32>,
    n: FieldView,
    old: FieldView,
    m: FieldView,
)
    requires
        ready(p, first),
        is_struct(p, parent),
        forall|node: FieldView| #[trigger]
            is_among(existing, existing.len(), node) ==> p.schema.has_field(node),
        union_structs(p, parent, existing, new).1 is Ok,
    ensures
        ({
            let q = union_structs(p, parent, existing, new).0;
            &&& grows(p, q, first)
            &&& missing_within(parent, existing, new, p.case_sensitive, at, n) ==> brought_into(
                q,
                at,
                n,
            )
            &&& matched_within(existing, new, p.case_sensitive, old, m) ==> taken_over(q, old, m)
                && p.schema.has_field(old)
        }),
    decreases new, new.len() + 1,
{
    let cs = p.case_sensitive;
    let p1 = union_beneath(p, existing, new, 0).0;
    let q = union_structs(p, parent, existing, new).0;
    lemma_beneath(p, first, existing, new, 0, at, n, old, m);
    assert forall|j: int| 0 <= j < existing.len() implies p1.schema.has_field(
        #[trigger] existing[j],
    ) by {
        assert(is_at(existing[j], existing[j]));
        lemma_among_prefix(existing, existing.len(), j, existing[j]);
    }
    assert(is_struct(p1, parent));
    lemma_here(p1, first, parent, existing, new, 0);
    lemma_grows_twice(p, p1, q, first);
    if missing_within(parent, existing, new, cs, at, n) {
        let i = choose|i: int|
            0 <= i < new.len() && {
                ||| #[trigger] new[i] == n && at == parent && lacks(existing, n.name, cs)
                ||| exists|holder: FieldView| #[trigger]
                    has_last(existing, new[i].name, cs, holder) && missing_beneath(
                        holder,
                        new[i],
                        cs,
                        at,
                        n,
                    )
            };
        if !(new[i] == n && at == parent && lacks(existing, n.name, cs)) {
            let holder = choose|holder: FieldView| #[trigger]
                has_last(existing, new[i].name, cs, holder) && missing_beneath(
                    holder,
                    new[i],
                    cs,
                    at,
                    n,
                );
            assert(reached(p, holder, new[i], p1, at, n, old, m));
            lemma_stays_brought(p1, q, first, at, n);
        }
    }
    if matched_within(existing, new, cs, old, m) {
        let i = choose|i: int|
            0 <= i < new.len() && {
                ||| #[trigger] new[i] == m && has_last(existing, m.name, cs, old)
                ||| exists|holder: FieldView| #[trigger]
                    has_last(existing, new[i].name, cs, holder) && matched_beneath(
                        holder,
                        new[i],
                        cs,
                        old,
                        m,
                    )
            };
        if new[i] == m && has_last(existing, m.name, cs, old) {
            assert(has_last(existing, new[i].name, cs, old));
        } else {
            let holder = choose|holder: FieldView| #[trigger]
                has_last(existing, new[i].name, cs, holder) && matched_beneath(
                    holder,
                    new[i],
                    cs,
                    old,
                    m,
                );
            assert(reached(p, holder, new[i], p1, at, n, old, m));
            lemma_stays_taken(p1, q, first, old, m);
        }
    }
}

#[verifier::rlimit(40)]
proof fn lemma_under(
    p: PendingView,
    first: i32,
    holder: FieldView,
    new: FieldView,
    at: Option<i32>,
    n: FieldView,
    old: FieldView,
    m: FieldView,
)
    requires
        ready(p, first),
        forall|node: FieldView| #[trigger] is_at(holder, node) ==> p.schema.has_field(node),
        union_field(p, holder, new).1 is Ok,
    ensures
        grows(p, union_field(p, holder, new).0, first),
        reached(p, holder, new, union_field(p, holder, new).0, at, n, old, m),
    decreases new, 0nat,
{
    let q = union_field(p, holder, new).0;
    match (holder.field_type, new.field_type) {
        (TypeView::Struct(a), TypeView::Struct(b)) => {
            assert forall|node: FieldView| #[trigger]
                is_among(a, a.len(), node) implies p.schema.has_field(node) by {
                assert(is_at(holder, node));
            }
            assert(is_at(holder, holder));
            assert(is_struct(p, Some(holder.id)));
            lemma_structs(p, first, Some(holder.id), a, b, at, n, old, m);
        },
        (TypeView::List(a), TypeView::List(b)) => {
            assert forall|node: FieldView| #[trigger] is_at(*a, node) implies p.schema.has_field(
                node,
            ) by {
                assert(is_at(holder, node));
            }
            assert(is_at(*a, *a));
            lemma_under(p, first, *a, *b, at, n, old, m);
            let p1 = union_field(p, *a, *b).0;
            lemma_merge_takes(p1, first, *a, *b);
            lemma_grows_twice(p, p1, q, first);
            lemma_stays_reached(p, p1, q, first, *a, *b, at, n, old, m);
        },
        (TypeView::MapOf(a, b), TypeView::MapOf(c, d)) => {
            assert forall|node: FieldView| #[trigger] is_at(*a, node) implies p.schema.has_field(
                node,
            ) by {
                assert(is_at(holder, node));
            }
            assert forall|node: FieldView| #[trigger] is_at(*b, node) implies p.schema.has_field(
                node,
            ) by {
                assert(is_at(holder, node));
            }
            assert(is_at(*a, *a));
            assert(is_at(*b, *b));
            lemma_under(p, first, *a, *c, at, n, old, m);
            let p1 = union_field(p, *a, *c).0;
            lemma_under(p1, first, *b, *d, at, n, old, m);
            let p2 = union_field(p1, *b, *d).0;
            lemma_merge_takes(p2, first, *a, *c);
            let p3 = merge_field(p2, *a, *c).0;
            lemma_merge_takes(p3, first, *b, *d);
            lemma_grows_twice(p1, p2, p3, first);
            lemma_grows_twice(p1, p3, q, first);
            lemma_grows_twice(p, p1, q, first);
            lemma_grows_twice(p2, p3, q, first);
            lemma_stays_reached(p, p1, q, first, *a, *c, at, n, old, m);
            lemma_stays_reached(p1, p2, q, first, *b, *d, at, n, old, m);
            if old == *a && m == *c {
                lemma_stays_taken(p3, q, first, old, m);
            }
        },
        _ => {
            lemma_grows_not(p, first);
        },
    }
}

/// Reconciling another schema reaches every field of it, at every depth: in structs, in lists and in
/// maps.
///
/// Every incoming field that its struct of the table lacks is added to that struct, as an optional
/// column with the same name, documentation and type, whatever its IDs, and with its defaults
/// converted. Every column that has a counterpart takes over what that has to say: it becomes
/// optional where the counterpart is, its type becomes no narrower, and it gets documentation and a
/// write default where the counterpart has others. And no column says less than before.
pub proof fn law_union_reaches_every_field(
    p: PendingView,
    first: i32,
    new: SchemaView,
    at: Option<i32>,
    n: FieldView,
    old: FieldView,
    m: FieldView,
    other: FieldView,
)
    requires
        sound(p, first),
        checked_schema(p.schema) is Ok,
        distinct_field_ids(p.schema),
        union_schema(p, new).1 is Ok,
    ensures
        ({
            let q = union_schema(p, new).0;
            let cs = p.case_sensitive;
            &&& missing_within(None, p.schema.fields, new.fields, cs, at, n) ==> brought_into(
                q,
                at,
                n,
            )
            &&& matched_within(p.schema.fields, new.fields, cs, old, m) ==> taken_over(q, old, m)
            &&& p.schema.has_field(other) ==> no_less(form(p, other), form(q, other))
        }),
{
    assert(ready(p, first));
    assert forall|node: FieldView| #[trigger]
        is_among(p.schema.fields, p.schema.fields.len(), node) implies p.schema.has_field(
        node,
    ) by {
        lemma_nodes_are_fields(p.schema, node);
    }
    lemma_structs(p, first, None, p.schema.fields, new.fields, at, n, old, m);
}

/// Which types can be merged. A primitive type is merged with any that it is the same as, or that is
/// narrower, and stays; nested types of the same shape are left to what lies within them. A variant is
/// merged into every nested type. A primitive type and another one never are.
pub proof fn law_when_types_merge(
    p: PendingView,
    name: Seq<char>,
    existing: FieldView,
    new: FieldView,
)
    ensures
        ({
            let (q, outcome) = merge_type(p, name, existing, new);
            let old = existing.field_type;
            let wanted = new.field_type;
            &&& !(old is Primitive && wanted is Primitive) ==> q == p && (outcome is Ok <==> old
                !is Primitive && wanted !is Primitive && {
                ||| wanted is Variant
                ||| old is Struct && wanted is Struct
                ||| old is List && wanted is List
                ||| old is MapOf && wanted is MapOf
            })
            &&& old is Primitive && wanted is Primitive && (old == wanted || promotes(
                wanted,
                old->Primitive_0,
            )) ==> q == p && outcome is Ok
            &&& old is Primitive && wanted is Primitive && old != wanted && !promotes(
                wanted,
                old->Primitive_0,
            ) ==> (q, outcome) == update_type(p, name, wanted->Primitive_0)
        }),
{
}

/// Where case does not matter, neither of the schemas of a union may have names that differ in case
/// alone: the union is refused then, and changes nothing.
pub proof fn law_unions_need_names_that_differ(p: PendingView, new: SchemaView)
    requires
        !p.case_sensitive,
        p.schema.collision() is Some || new.collision() is Some,
    ensures
        union_schema(p, new).1 is Err,
        union_schema(p, new).0 == p,
{
}

} // verus!
