//! Field IDs within a schema: that no two fields share one, and that a rebuilt tree repeats none.

use vstd::prelude::*;

#[allow(unused_imports)]
use crate::changes::ChangesView;
#[allow(unused_imports)]
use crate::defaults::{coerced_field, coerced_fields, coerced_type};
#[allow(unused_imports)]
use crate::error::ErrorView;
#[allow(unused_imports)]
use crate::fresh_ids::{field_occurs, fields_occur, lemma_occur_push, type_occurs};
#[allow(unused_imports)]
use crate::moves::{all_moved, law_moves_keep_every_field, moves_within};
#[allow(unused_imports)]
use crate::schema::{
    barrier_below, entries_of_field, entries_of_fields, entries_of_type, entry_of, short_below,
    under, BarrierView, EntryView, SchemaView,
};
#[allow(unused_imports)]
use crate::text::dotted;
#[allow(unused_imports)]
use crate::tree::{rebuilt_field, rebuilt_fields, rebuilt_from, well_keyed, with_added};
#[allow(unused_imports)]
use crate::types::{bare_field, element_name, value_name, FieldView, TypeView};

verus! {

/// Whether no two fields of a schema, at the root or beneath, have the same ID.
pub open spec fn distinct_field_ids(schema: SchemaView) -> bool {
    forall|i: int, j: int|
        0 <= i < j < schema.entries().len() ==> (#[trigger] schema.entries()[i]).field.id != (
        #[trigger] schema.entries()[j]).field.id
}

/// How many of the first `n` entries have the ID `id`.
spec fn entries_with(entries: Seq<EntryView>, n: nat, id: int) -> nat
    decreases n,
{
    if n == 0 || n > entries.len() {
        0
    } else {
        entries_with(entries, (n - 1) as nat, id) + (if entries[n - 1].field.id == id {
            1nat
        } else {
            0nat
        })
    }
}

/// How many of the entries have the ID `id`.
spec fn all_with(entries: Seq<EntryView>, id: int) -> nat {
    entries_with(entries, entries.len(), id)
}

proof fn lemma_entries_with_push(done: Seq<EntryView>, entry: EntryView, n: nat, id: int)
    requires
        n <= done.len(),
    ensures
        entries_with(done.push(entry), n, id) == entries_with(done, n, id),
    decreases n,
{
    if n > 0 {
        lemma_entries_with_push(done, entry, (n - 1) as nat, id);
        assert(done.push(entry)[n - 1] == done[n - 1]);
    }
}

proof fn lemma_all_with_push(done: Seq<EntryView>, entry: EntryView, id: int)
    ensures
        all_with(done.push(entry), id) == all_with(done, id) + (if entry.field.id == id {
            1nat
        } else {
            0nat
        }),
{
    lemma_entries_with_push(done, entry, done.len(), id);
}

proof fn lemma_entries_of_fields(
    fields: Seq<FieldView>,
    i: nat,
    full: Option<Seq<char>>,
    short: Option<Seq<char>>,
    barrier: Option<BarrierView>,
    done: Seq<EntryView>,
    id: int,
)
    requires
        i <= fields.len(),
    ensures
        all_with(entries_of_fields(fields, i, full, short, barrier, done), id) + fields_occur(
            fields,
            i,
            id,
        ) == all_with(done, id) + fields_occur(fields, fields.len(), id),
    decreases fields, fields.len() - i,
{
    if i < fields.len() {
        let field = fields[i as int];
        lemma_entries_of_field(field, full, short, barrier, done, id);
        lemma_entries_of_fields(
            fields,
            i + 1,
            full,
            short,
            barrier,
            entries_of_field(field, full, short, barrier, done),
            id,
        );
    }
}

proof fn lemma_entries_of_field(
    field: FieldView,
    full: Option<Seq<char>>,
    short: Option<Seq<char>>,
    barrier: Option<BarrierView>,
    done: Seq<EntryView>,
    id: int,
)
    ensures
        all_with(entries_of_field(field, full, short, barrier, done), id) == all_with(done, id)
            + field_occurs(field, id),
    decreases field, 0nat,
{
    let entry = entry_of(field, full, short, barrier);
    lemma_all_with_push(done, entry, id);
    lemma_entries_of_type(
        field.field_type,
        under(full, field.name),
        under(short, field.name),
        barrier_below(field, barrier),
        done.push(entry),
        id,
    );
}

proof fn lemma_entries_of_type(
    t: TypeView,
    full: Seq<char>,
    short: Seq<char>,
    barrier: Option<BarrierView>,
    done: Seq<EntryView>,
    id: int,
)
    ensures
        all_with(entries_of_type(t, full, short, barrier, done), id) == all_with(done, id)
            + type_occurs(t, id),
    decreases t, 0nat,
{
    match t {
        TypeView::Primitive(_) | TypeView::Variant => {},
        TypeView::Struct(fields) => {
            lemma_entries_of_fields(fields, 0, Some(full), Some(short), barrier, done, id);
        },
        TypeView::List(element) => {
            let entry = entry_of(*element, Some(full), Some(short), barrier);
            lemma_all_with_push(done, entry, id);
            lemma_entries_of_type(
                element.field_type,
                dotted(full, element.name),
                short_below(*element, short),
                barrier_below(*element, barrier),
                done.push(entry),
                id,
            );
        },
        TypeView::MapOf(key, value) => {
            let of_key = entry_of(*key, Some(full), Some(short), barrier);
            let of_value = entry_of(*value, Some(full), Some(short), barrier);
            lemma_all_with_push(done, of_key, id);
            lemma_all_with_push(done.push(of_key), of_value, id);
            let both = done.push(of_key).push(of_value);
            lemma_entries_of_type(
                key.field_type,
                dotted(full, key.name),
                dotted(short, key.name),
                barrier_below(*key, barrier),
                both,
                id,
            );
            lemma_entries_of_type(
                value.field_type,
                dotted(full, value.name),
                short_below(*value, short),
                barrier_below(*value, barrier),
                entries_of_type(
                    key.field_type,
                    dotted(full, key.name),
                    dotted(short, key.name),
                    barrier_below(*key, barrier),
                    both,
                ),
                id,
            );
        },
    }
}

/// The entries of a schema count the occurrences of an ID in its fields.
proof fn lemma_schema_counts(schema: SchemaView, id: int)
    ensures
        all_with(schema.entries(), id) == fields_occur(schema.fields, schema.fields.len(), id),
{
    lemma_entries_of_fields(schema.fields, 0, None, None, None, Seq::empty(), id);
}

proof fn lemma_no_entry(entries: Seq<EntryView>, n: nat, id: int)
    requires
        n <= entries.len(),
        forall|i: int| 0 <= i < n ==> (#[trigger] entries[i]).field.id != id,
    ensures
        entries_with(entries, n, id) == 0,
    decreases n,
{
    if n > 0 {
        lemma_no_entry(entries, (n - 1) as nat, id);
    }
}

proof fn lemma_entry_counted(entries: Seq<EntryView>, n: nat, i: int)
    requires
        0 <= i < n <= entries.len(),
    ensures
        entries_with(entries, n, entries[i].field.id as int) >= 1,
    decreases n,
{
    if i < n - 1 {
        lemma_entry_counted(entries, (n - 1) as nat, i);
    }
}

proof fn lemma_two_entries_counted(entries: Seq<EntryView>, n: nat, i: int, j: int)
    requires
        0 <= i < j < n <= entries.len(),
        entries[i].field.id == entries[j].field.id,
    ensures
        entries_with(entries, n, entries[i].field.id as int) >= 2,
    decreases n,
{
    if j < n - 1 {
        lemma_two_entries_counted(entries, (n - 1) as nat, i, j);
    } else {
        lemma_entry_counted(entries, (n - 1) as nat, i);
    }
}

proof fn lemma_entries_once(entries: Seq<EntryView>, n: nat, id: int)
    requires
        n <= entries.len(),
        forall|i: int, j: int|
            0 <= i < j < entries.len() ==> (#[trigger] entries[i]).field.id != (
            #[trigger] entries[j]).field.id,
    ensures
        entries_with(entries, n, id) <= 1,
    decreases n,
{
    if n > 0 {
        lemma_entries_once(entries, (n - 1) as nat, id);
        if entries[n - 1].field.id == id {
            lemma_no_entry(entries, (n - 1) as nat, id);
        }
    }
}

/// In a schema without repeated IDs each ID occurs at most once, and only where a field has it.
pub proof fn lemma_distinct_ids_occur_once(schema: SchemaView, id: int)
    requires
        distinct_field_ids(schema),
    ensures
        fields_occur(schema.fields, schema.fields.len(), id) <= 1,
        fields_occur(schema.fields, schema.fields.len(), id) == 1 ==> exists|field: FieldView|
            #[trigger]
            schema.has_field(field) && field.id == id,
{
    let entries = schema.entries();
    lemma_schema_counts(schema, id);
    lemma_entries_once(entries, entries.len(), id);
    if forall|i: int| 0 <= i < entries.len() ==> (#[trigger] entries[i]).field.id != id {
        lemma_no_entry(entries, entries.len(), id);
    } else {
        let i = choose|i: int|
            0 <= i < entries.len() && (#[trigger] entries[i]).field.id == id;
        assert(schema.has_field(entries[i].field));
    }
}

/// Where each ID occurs at most once, no two fields have the same one.
pub proof fn lemma_single_occurrences_are_distinct(schema: SchemaView)
    requires
        forall|id: int| #[trigger] fields_occur(schema.fields, schema.fields.len(), id) <= 1,
    ensures
        distinct_field_ids(schema),
{
    let entries = schema.entries();
    assert forall|i: int, j: int| 0 <= i < j < entries.len() implies (
    #[trigger] entries[i]).field.id != (#[trigger] entries[j]).field.id by {
        if entries[i].field.id == entries[j].field.id {
            let id = entries[i].field.id as int;
            lemma_two_entries_counted(entries, entries.len(), i, j);
            lemma_schema_counts(schema, id);
        }
    }
}

/// In a schema without repeated IDs an ID belongs to one field.
pub proof fn lemma_one_field_per_id(schema: SchemaView, a: FieldView, b: FieldView)
    requires
        distinct_field_ids(schema),
        schema.has_field(a),
        schema.has_field(b),
        a.id == b.id,
    ensures
        a == b,
{
    let entries = schema.entries();
    let i = choose|i: int| 0 <= i < entries.len() && (#[trigger] entries[i]).field == a;
    let j = choose|j: int| 0 <= j < entries.len() && (#[trigger] entries[j]).field == b;
    assert(entries[i].field.id == entries[j].field.id);
}

/// Whether a type holds no fields.
pub open spec fn is_flat(t: TypeView) -> bool {
    t is Primitive || t is Variant
}

/// Whether `node` is one of the first `n` of `fields`, or beneath one.
pub open spec fn is_among(fields: Seq<FieldView>, n: nat, node: FieldView) -> bool
    decreases fields, n,
{
    if n == 0 || n > fields.len() {
        false
    } else {
        is_among(fields, (n - 1) as nat, node) || is_at(fields[n - 1], node)
    }
}

/// Whether `node` is the field, or beneath it.
pub open spec fn is_at(field: FieldView, node: FieldView) -> bool
    decreases field, 0nat,
{
    field == node || is_within(field.field_type, node)
}

/// Whether `node` is a field within a type.
pub open spec fn is_within(t: TypeView, node: FieldView) -> bool
    decreases t, 0nat,
{
    match t {
        TypeView::Primitive(_) | TypeView::Variant => false,
        TypeView::Struct(fields) => is_among(fields, fields.len(), node),
        TypeView::List(element) => is_at(*element, node),
        TypeView::MapOf(key, value) => is_at(*key, node) || is_at(*value, node),
    }
}

/// Whether one of the entries is that of `node`.
spec fn lists(entries: Seq<EntryView>, node: FieldView) -> bool {
    exists|i: int| 0 <= i < entries.len() && (#[trigger] entries[i]).field == node
}

proof fn lemma_lists_push(done: Seq<EntryView>, entry: EntryView, node: FieldView)
    requires
        lists(done, node) || entry.field == node,
    ensures
        lists(done.push(entry), node),
{
    if lists(done, node) {
        let i = choose|i: int| 0 <= i < done.len() && (#[trigger] done[i]).field == node;
        assert(done.push(entry)[i].field == node);
    } else {
        assert(done.push(entry)[done.len() as int].field == node);
    }
}

/// Whether `node` is among the fields from `i` on.
spec fn is_among_from(fields: Seq<FieldView>, i: nat, node: FieldView) -> bool {
    exists|j: int| i <= j < fields.len() && is_at(#[trigger] fields[j], node)
}

proof fn lemma_among(fields: Seq<FieldView>, n: nat, node: FieldView)
    requires
        n <= fields.len(),
        is_among(fields, n, node),
    ensures
        is_among_from(fields, 0, node),
    decreases n,
{
    if is_at(fields[n - 1], node) {
        assert(is_at(fields[n - 1], node));
    } else {
        lemma_among(fields, (n - 1) as nat, node);
    }
}

/// What lies at a field lies among the fields.
pub proof fn lemma_among_prefix(fields: Seq<FieldView>, n: nat, j: int, node: FieldView)
    requires
        0 <= j < n <= fields.len(),
        is_at(fields[j], node),
    ensures
        is_among(fields, n, node),
    decreases n,
{
    if j < n - 1 {
        lemma_among_prefix(fields, (n - 1) as nat, j, node);
    }
}

proof fn lemma_fields_listed(
    fields: Seq<FieldView>,
    i: nat,
    full: Option<Seq<char>>,
    short: Option<Seq<char>>,
    barrier: Option<BarrierView>,
    done: Seq<EntryView>,
    node: FieldView,
)
    requires
        lists(done, node) || is_among_from(fields, i, node),
    ensures
        lists(entries_of_fields(fields, i, full, short, barrier, done), node),
    decreases fields, fields.len() - i,
{
    if i < fields.len() {
        let field = fields[i as int];
        if lists(done, node) || is_at(field, node) {
            lemma_field_listed(field, full, short, barrier, done, node);
        } else {
            let j = choose|j: int| i <= j < fields.len() && is_at(#[trigger] fields[j], node);
            assert(i + 1 <= j);
        }
        lemma_fields_listed(
            fields,
            i + 1,
            full,
            short,
            barrier,
            entries_of_field(field, full, short, barrier, done),
            node,
        );
    }
}

proof fn lemma_field_listed(
    field: FieldView,
    full: Option<Seq<char>>,
    short: Option<Seq<char>>,
    barrier: Option<BarrierView>,
    done: Seq<EntryView>,
    node: FieldView,
)
    requires
        lists(done, node) || is_at(field, node),
    ensures
        lists(entries_of_field(field, full, short, barrier, done), node),
    decreases field, 0nat,
{
    let entry = entry_of(field, full, short, barrier);
    if lists(done, node) || field == node {
        lemma_lists_push(done, entry, node);
    }
    lemma_type_listed(
        field.field_type,
        under(full, field.name),
        under(short, field.name),
        barrier_below(field, barrier),
        done.push(entry),
        node,
    );
}

proof fn lemma_type_listed(
    t: TypeView,
    full: Seq<char>,
    short: Seq<char>,
    barrier: Option<BarrierView>,
    done: Seq<EntryView>,
    node: FieldView,
)
    requires
        lists(done, node) || is_within(t, node),
    ensures
        lists(entries_of_type(t, full, short, barrier, done), node),
    decreases t, 0nat,
{
    match t {
        TypeView::Primitive(_) | TypeView::Variant => {},
        TypeView::Struct(fields) => {
            if is_within(t, node) {
                lemma_among(fields, fields.len(), node);
            }
            lemma_fields_listed(fields, 0, Some(full), Some(short), barrier, done, node);
        },
        TypeView::List(element) => {
            let entry = entry_of(*element, Some(full), Some(short), barrier);
            if lists(done, node) || *element == node {
                lemma_lists_push(done, entry, node);
            }
            lemma_type_listed(
                element.field_type,
                dotted(full, element.name),
                short_below(*element, short),
                barrier_below(*element, barrier),
                done.push(entry),
                node,
            );
        },
        TypeView::MapOf(key, value) => {
            let of_key = entry_of(*key, Some(full), Some(short), barrier);
            let of_value = entry_of(*value, Some(full), Some(short), barrier);
            if lists(done, node) || *key == node {
                lemma_lists_push(done, of_key, node);
            }
            if lists(done.push(of_key), node) || *value == node {
                lemma_lists_push(done.push(of_key), of_value, node);
            }
            let both = done.push(of_key).push(of_value);
            let with_key = entries_of_type(
                key.field_type,
                dotted(full, key.name),
                dotted(short, key.name),
                barrier_below(*key, barrier),
                both,
            );
            if lists(both, node) || is_within(key.field_type, node) {
                lemma_type_listed(
                    key.field_type,
                    dotted(full, key.name),
                    dotted(short, key.name),
                    barrier_below(*key, barrier),
                    both,
                    node,
                );
            }
            lemma_type_listed(
                value.field_type,
                dotted(full, value.name),
                short_below(*value, short),
                barrier_below(*value, barrier),
                with_key,
                node,
            );
        },
    }
}

/// Every field of the tree is a field of the schema.
pub proof fn lemma_nodes_are_fields(schema: SchemaView, node: FieldView)
    requires
        is_among(schema.fields, schema.fields.len(), node),
    ensures
        schema.has_field(node),
{
    lemma_among(schema.fields, schema.fields.len(), node);
    lemma_fields_listed(schema.fields, 0, None, None, None, Seq::empty(), node);
    let entries = schema.entries();
    let i = choose|i: int| 0 <= i < entries.len() && (#[trigger] entries[i]).field == node;
    assert(schema.entries()[i].field == node);
}

/// How often an ID occurs in the field that the addition `k` appends.
pub open spec fn addition_occurs(changes: ChangesView, k: int, id: int) -> nat {
    field_occurs(changes.updates[changes.additions[k].1], id)
}

/// How often an ID occurs in what the first `n` additions append to `parent`.
spec fn added_occur(changes: ChangesView, parent: Option<i32>, n: nat, id: int) -> nat
    decreases n,
{
    if n == 0 || n > changes.additions.len() {
        0
    } else {
        added_occur(changes, parent, (n - 1) as nat, id) + (if changes.additions[n - 1].0
            == parent {
            addition_occurs(changes, n - 1, id)
        } else {
            0
        })
    }
}

/// A bound for how often an ID occurs in the first `m` of `fields` and beneath them once the first
/// `n` additions are made.
spec fn fields_bound(fields: Seq<FieldView>, m: nat, changes: ChangesView, n: nat, id: int) -> nat
    decreases fields, m,
{
    if m == 0 || m > fields.len() {
        0
    } else {
        fields_bound(fields, (m - 1) as nat, changes, n, id) + field_bound(
            fields[m - 1],
            changes,
            n,
            id,
        )
    }
}

/// The same bound for a field and what lies beneath it.
spec fn field_bound(field: FieldView, changes: ChangesView, n: nat, id: int) -> nat
    decreases field, 0nat,
{
    (if field.id == id {
        1nat
    } else {
        0nat
    }) + type_bound(field.field_type, field.id, changes, n, id)
}

/// The same bound for the type of the field `owner`.
spec fn type_bound(t: TypeView, owner: i32, changes: ChangesView, n: nat, id: int) -> nat
    decreases t, 0nat,
{
    match t {
        TypeView::Primitive(_) | TypeView::Variant => 0,
        TypeView::Struct(fields) => fields_bound(fields, fields.len(), changes, n, id)
            + added_occur(changes, Some(owner), n, id),
        TypeView::List(element) => field_bound(*element, changes, n, id),
        TypeView::MapOf(key, value) => field_bound(*key, changes, n, id) + field_bound(
            *value,
            changes,
            n,
            id,
        ),
    }
}

/// How often an ID occurs in fields and beneath them.
spec fn all_occur(fields: Seq<FieldView>, id: int) -> nat {
    fields_occur(fields, fields.len(), id)
}

proof fn lemma_all_occur_push(done: Seq<FieldView>, field: FieldView, id: int)
    ensures
        all_occur(done.push(field), id) == all_occur(done, id) + field_occurs(field, id),
{
    lemma_occur_push(done, field, done.len(), id);
}

proof fn lemma_added_occur(
    changes: ChangesView,
    parent: Option<i32>,
    i: nat,
    done: Seq<FieldView>,
    id: int,
)
    requires
        i <= changes.additions.len(),
        with_added(changes, parent, i, done) is Ok,
    ensures
        all_occur(with_added(changes, parent, i, done)->Ok_0, id) + added_occur(
            changes,
            parent,
            i,
            id,
        ) == all_occur(done, id) + added_occur(changes, parent, changes.additions.len(), id),
    decreases changes.additions.len() - i,
{
    if i < changes.additions.len() {
        if changes.additions[i as int].0 != parent {
            lemma_added_occur(changes, parent, i + 1, done, id);
        } else {
            let field = changes.updates[changes.additions[i as int].1];
            lemma_all_occur_push(done, field, id);
            lemma_added_occur(changes, parent, i + 1, done.push(field), id);
        }
    }
}

proof fn lemma_occur_without(fields: Seq<FieldView>, at: int, n: nat, id: int)
    requires
        0 <= at < fields.len(),
        at < n <= fields.len(),
    ensures
        fields_occur(fields, n, id) == fields_occur(fields.remove(at), (n - 1) as nat, id)
            + field_occurs(fields[at], id),
    decreases n,
{
    let rest = fields.remove(at);
    if n - 1 > at {
        lemma_occur_without(fields, at, (n - 1) as nat, id);
        assert(rest[n - 2] == fields[n - 1]);
    } else {
        lemma_occur_same(fields, rest, at as nat, id);
    }
}

proof fn lemma_occur_same(a: Seq<FieldView>, b: Seq<FieldView>, n: nat, id: int)
    requires
        n <= a.len(),
        n <= b.len(),
        forall|i: int| 0 <= i < n ==> a[i] == #[trigger] b[i],
    ensures
        fields_occur(a, n, id) == fields_occur(b, n, id),
    decreases n,
{
    if n > 0 {
        assert(a[n - 1] == b[n - 1]);
        lemma_occur_same(a, b, (n - 1) as nat, id);
    }
}

/// Fields in another order hold the same IDs.
proof fn lemma_occur_permuted(a: Seq<FieldView>, b: Seq<FieldView>, id: int)
    requires
        a.to_multiset() == b.to_multiset(),
    ensures
        all_occur(a, id) == all_occur(b, id),
    decreases a.len(),
{
    broadcast use vstd::seq_lib::group_to_multiset_ensures;

    vstd::seq_lib::to_multiset_len(a);
    vstd::seq_lib::to_multiset_len(b);
    if a.len() > 0 {
        let field = a.last();
        assert(a.to_multiset().count(field) > 0) by {
            assert(a.contains(field));
        }
        assert(b.contains(field));
        let at = choose|at: int| 0 <= at < b.len() && b[at] == field;
        let a1 = a.remove(a.len() - 1);
        let b1 = b.remove(at);
        vstd::seq_lib::to_multiset_remove(a, a.len() - 1);
        vstd::seq_lib::to_multiset_remove(b, at);
        assert(a1.to_multiset() =~= b1.to_multiset());
        lemma_occur_permuted(a1, b1, id);
        lemma_occur_without(a, a.len() - 1, a.len(), id);
        lemma_occur_without(b, at, b.len(), id);
    }
}

/// Whether no update gives a field that holds no fields a type that does, for all fields among the
/// first `n`.
spec fn flat_among(fields: Seq<FieldView>, n: nat, changes: ChangesView) -> bool {
    forall|node: FieldView| #[trigger]
        is_among(fields, n, node) ==> stays_flat(node, changes)
}

/// Whether a field that holds no fields has no update with a type that does.
pub open spec fn stays_flat(field: FieldView, changes: ChangesView) -> bool {
    is_flat(field.field_type) && changes.updates.contains_key(field.id) ==> is_flat(
        changes.updates[field.id].field_type,
    )
}

proof fn lemma_rebuilt_fields_bound(
    fields: Seq<FieldView>,
    changes: ChangesView,
    parent: Option<i32>,
    id: int,
)
    requires
        well_keyed(changes.updates),
        flat_among(fields, fields.len(), changes),
        rebuilt_fields(fields, changes, parent) is Ok,
    ensures
        all_occur(rebuilt_fields(fields, changes, parent)->Ok_0, id) <= fields_bound(
            fields,
            fields.len(),
            changes,
            changes.additions.len(),
            id,
        ) + added_occur(changes, parent, changes.additions.len(), id),
    decreases fields, fields.len() + 1,
{
    let kept = rebuilt_from(fields, 0, changes, Seq::empty())->Ok_0;
    let all = with_added(changes, parent, 0, kept)->Ok_0;
    let moves = moves_within(changes.moves, parent, 0, Seq::empty());
    lemma_rebuilt_from_bound(fields, 0, changes, Seq::empty(), id);
    lemma_added_occur(changes, parent, 0, kept, id);
    law_moves_keep_every_field(all, moves, 0);
    lemma_occur_permuted(all, all_moved(all, moves, 0).0, id);
}

proof fn lemma_rebuilt_from_bound(
    fields: Seq<FieldView>,
    i: nat,
    changes: ChangesView,
    done: Seq<FieldView>,
    id: int,
)
    requires
        i <= fields.len(),
        well_keyed(changes.updates),
        flat_among(fields, fields.len(), changes),
        rebuilt_from(fields, i, changes, done) is Ok,
    ensures
        all_occur(rebuilt_from(fields, i, changes, done)->Ok_0, id) + fields_bound(
            fields,
            i,
            changes,
            changes.additions.len(),
            id,
        ) <= all_occur(done, id) + fields_bound(
            fields,
            fields.len(),
            changes,
            changes.additions.len(),
            id,
        ),
    decreases fields, fields.len() - i,
{
    if i < fields.len() {
        let field = fields[i as int];
        let rebuilt = rebuilt_field(field, changes)->Ok_0;
        assert forall|node: FieldView| #[trigger] is_at(field, node) implies stays_flat(
            node,
            changes,
        ) by {
            lemma_among_prefix(fields, fields.len(), i as int, node);
        }
        lemma_rebuilt_field_bound(field, changes, id);
        if changes.deletes.contains(field.id) {
            lemma_rebuilt_from_bound(fields, i + 1, changes, done, id);
        } else {
            lemma_all_occur_push(done, rebuilt, id);
            lemma_rebuilt_from_bound(fields, i + 1, changes, done.push(rebuilt), id);
        }
    }
}

proof fn lemma_rebuilt_field_bound(field: FieldView, changes: ChangesView, id: int)
    requires
        well_keyed(changes.updates),
        forall|node: FieldView| #[trigger] is_at(field, node) ==> stays_flat(node, changes),
        rebuilt_field(field, changes) is Ok,
    ensures
        field_occurs(rebuilt_field(field, changes)->Ok_0, id) <= field_bound(
            field,
            changes,
            changes.additions.len(),
            id,
        ),
    decreases field, 0nat,
{
    assert(is_at(field, field));
    match field.field_type {
        TypeView::Primitive(_) | TypeView::Variant => {
            let rebuilt = rebuilt_field(field, changes)->Ok_0;
            assert(stays_flat(field, changes));
            assert(rebuilt.id == field.id && is_flat(rebuilt.field_type));
            assert(type_occurs(rebuilt.field_type, id) == 0);
        },
        TypeView::Struct(fields) => {
            assert forall|node: FieldView| #[trigger]
                is_among(fields, fields.len(), node) implies stays_flat(node, changes) by {
                assert(is_at(field, node));
            }
            lemma_rebuilt_fields_bound(fields, changes, Some(field.id), id);
        },
        TypeView::List(element) => {
            assert forall|node: FieldView| #[trigger] is_at(*element, node) implies stays_flat(
                node,
                changes,
            ) by {
                assert(is_at(field, node));
            }
            lemma_rebuilt_field_bound(*element, changes, id);
            let inner = rebuilt_field(*element, changes)->Ok_0;
            let bare = bare_field(inner.id, element_name(), inner.field_type, inner.required);
            let rebuilt = rebuilt_field(field, changes)->Ok_0;
            assert(rebuilt.field_type == TypeView::List(Box::new(bare)));
            assert(field_occurs(bare, id) == field_occurs(inner, id));
            assert(type_occurs(rebuilt.field_type, id) == field_occurs(bare, id));
        },
        TypeView::MapOf(key, value) => {
            assert forall|node: FieldView| #[trigger] is_at(*key, node) implies stays_flat(
                node,
                changes,
            ) by {
                assert(is_at(field, node));
            }
            assert forall|node: FieldView| #[trigger] is_at(*value, node) implies stays_flat(
                node,
                changes,
            ) by {
                assert(is_at(field, node));
            }
            lemma_rebuilt_field_bound(*key, changes, id);
            lemma_rebuilt_field_bound(*value, changes, id);
            let inner = rebuilt_field(*value, changes)->Ok_0;
            let bare = bare_field(inner.id, value_name(), inner.field_type, inner.required);
            let rebuilt = rebuilt_field(field, changes)->Ok_0;
            assert(rebuilt.field_type == TypeView::MapOf(key, Box::new(bare)));
            assert(field_occurs(bare, id) == field_occurs(inner, id));
            assert(type_occurs(rebuilt.field_type, id) == field_occurs(*key, id) + field_occurs(
                bare,
                id,
            ));
        },
    }
}

/// How much one more addition can bring, where its parent occurs `count` times and it holds the ID
/// or not.
spec fn share_of(changes: ChangesView, n: nat, id: int, count: nat) -> nat {
    if addition_occurs(changes, n as int, id) == 0 {
        0
    } else {
        count
    }
}

/// How often the parent of an addition occurs.
spec fn parent_in_fields(fields: Seq<FieldView>, m: nat, parent: Option<i32>) -> nat {
    match parent {
        Some(id) => fields_occur(fields, m, id as int),
        None => 0,
    }
}

spec fn parent_in_field(field: FieldView, parent: Option<i32>) -> nat {
    match parent {
        Some(id) => field_occurs(field, id as int),
        None => 0,
    }
}

spec fn parent_in_type(t: TypeView, owner: i32, parent: Option<i32>) -> nat {
    match parent {
        Some(id) => type_occurs(t, id as int) + (if owner == id {
            1nat
        } else {
            0nat
        }),
        None => 0,
    }
}

proof fn lemma_fields_step(fields: Seq<FieldView>, m: nat, changes: ChangesView, n: nat, id: int)
    requires
        m <= fields.len(),
        n < changes.additions.len(),
        addition_occurs(changes, n as int, id) <= 1,
    ensures
        fields_bound(fields, m, changes, n + 1, id) <= fields_bound(fields, m, changes, n, id)
            + share_of(
            changes,
            n,
            id,
            parent_in_fields(fields, m, changes.additions[n as int].0),
        ),
    decreases fields, m,
{
    if m > 0 {
        lemma_fields_step(fields, (m - 1) as nat, changes, n, id);
        lemma_field_step(fields[m - 1], changes, n, id);
    }
}

proof fn lemma_field_step(field: FieldView, changes: ChangesView, n: nat, id: int)
    requires
        n < changes.additions.len(),
        addition_occurs(changes, n as int, id) <= 1,
    ensures
        field_bound(field, changes, n + 1, id) <= field_bound(field, changes, n, id) + share_of(
            changes,
            n,
            id,
            parent_in_field(field, changes.additions[n as int].0),
        ),
    decreases field, 0nat,
{
    lemma_type_step(field.field_type, field.id, changes, n, id);
}

proof fn lemma_type_step(t: TypeView, owner: i32, changes: ChangesView, n: nat, id: int)
    requires
        n < changes.additions.len(),
        addition_occurs(changes, n as int, id) <= 1,
    ensures
        type_bound(t, owner, changes, n + 1, id) <= type_bound(t, owner, changes, n, id)
            + share_of(changes, n, id, parent_in_type(t, owner, changes.additions[n as int].0)),
    decreases t, 0nat,
{
    match t {
        TypeView::Primitive(_) | TypeView::Variant => {},
        TypeView::Struct(fields) => {
            lemma_fields_step(fields, fields.len(), changes, n, id);
        },
        TypeView::List(element) => {
            lemma_field_step(*element, changes, n, id);
        },
        TypeView::MapOf(key, value) => {
            lemma_field_step(*key, changes, n, id);
            lemma_field_step(*value, changes, n, id);
        },
    }
}

proof fn lemma_fields_bound_at_first(fields: Seq<FieldView>, m: nat, changes: ChangesView, id: int)
    ensures
        fields_bound(fields, m, changes, 0, id) == fields_occur(fields, m, id),
    decreases fields, m,
{
    if 0 < m <= fields.len() {
        lemma_fields_bound_at_first(fields, (m - 1) as nat, changes, id);
        lemma_field_bound_at_first(fields[m - 1], changes, id);
    }
}

proof fn lemma_field_bound_at_first(field: FieldView, changes: ChangesView, id: int)
    ensures
        field_bound(field, changes, 0, id) == field_occurs(field, id),
    decreases field, 0nat,
{
    match field.field_type {
        TypeView::Primitive(_) | TypeView::Variant => {},
        TypeView::Struct(fields) => {
            lemma_fields_bound_at_first(fields, fields.len(), changes, id);
        },
        TypeView::List(element) => {
            lemma_field_bound_at_first(*element, changes, id);
        },
        TypeView::MapOf(key, value) => {
            lemma_field_bound_at_first(*key, changes, id);
            lemma_field_bound_at_first(*value, changes, id);
        },
    }
}

/// The ID up to which, itself left out, the IDs of the addition `k` reach: that of the next one, or
/// the one after the last ID assigned.
pub open spec fn reach_of(changes: ChangesView, k: int, last: i32) -> int {
    if k + 1 < changes.additions.len() {
        changes.additions[k + 1].1 as int
    } else {
        last + 1
    }
}

/// Whether the additions hold IDs above `first`, none of them twice: those of each addition lie
/// between its own ID and that of the next one.
pub open spec fn spread(changes: ChangesView, first: i32, last: i32) -> bool {
    &&& forall|k: int|
        0 <= k < changes.additions.len() ==> first < (#[trigger] changes.additions[k]).1 <= last
    &&& forall|i: int, j: int|
        0 <= i < j < changes.additions.len() ==> (#[trigger] changes.additions[i]).1 < (
        #[trigger] changes.additions[j]).1
    &&& forall|k: int, id: int|
        0 <= k < changes.additions.len() ==> #[trigger] addition_occurs(changes, k, id) <= (
        if changes.additions[k].1 <= id < reach_of(changes, k, last) {
            1nat
        } else {
            0nat
        })
}

/// The occurrences of an ID once the first `n` additions are made are at most those of before, and
/// one more where it lies within the additions.
proof fn lemma_total(schema: SchemaView, changes: ChangesView, first: i32, last: i32, n: nat, id: int)
    requires
        distinct_field_ids(schema),
        spread(changes, first, last),
        n <= changes.additions.len(),
    ensures
        fields_bound(schema.fields, schema.fields.len(), changes, n, id) + added_occur(
            changes,
            None,
            n,
            id,
        ) <= fields_occur(schema.fields, schema.fields.len(), id) + (if n > 0 && first < id
            < reach_of(changes, n - 1, last) {
            1nat
        } else {
            0nat
        }),
    decreases n,
{
    let fields = schema.fields;
    if n == 0 {
        lemma_fields_bound_at_first(fields, fields.len(), changes, id);
    } else {
        let k = (n - 1) as nat;
        lemma_total(schema, changes, first, last, k, id);
        let (parent, own) = changes.additions[k as int];
        assert(addition_occurs(changes, k as int, id) <= 1);
        assert(own < reach_of(changes, k as int, last)) by {
            if k + 1 < changes.additions.len() {
                assert(changes.additions[k as int].1 < changes.additions[(k + 1) as int].1);
            }
        }
        lemma_fields_step(fields, fields.len(), changes, k, id);
        if let Some(parent_id) = parent {
            lemma_distinct_ids_occur_once(schema, parent_id as int);
        }
        if k > 0 {
            assert(changes.additions[k - 1].1 < own);
            assert(reach_of(changes, k - 1, last) == own);
        }
        if addition_occurs(changes, k as int, id) > 0 {
            assert(own <= id < reach_of(changes, k as int, last));
        }
    }
}

/// A tree without repeated IDs repeats none after an update whose additions hold new ones.
pub proof fn lemma_rebuilt_ids_are_distinct(
    schema: SchemaView,
    changes: ChangesView,
    first: i32,
    last: i32,
    updated: SchemaView,
)
    requires
        distinct_field_ids(schema),
        forall|field: FieldView| #[trigger] schema.has_field(field) ==> field.id <= first,
        forall|field: FieldView| #[trigger] schema.has_field(field) ==> stays_flat(field, changes),
        well_keyed(changes.updates),
        spread(changes, first, last),
        rebuilt_fields(schema.fields, changes, None) == Ok::<Seq<FieldView>, ErrorView>(
            updated.fields,
        ),
    ensures
        distinct_field_ids(updated),
{
    let n = changes.additions.len();
    assert forall|node: FieldView| #[trigger]
        is_among(schema.fields, schema.fields.len(), node) implies stays_flat(node, changes) by {
        lemma_nodes_are_fields(schema, node);
    }
    assert forall|id: int| #[trigger]
        fields_occur(updated.fields, updated.fields.len(), id) <= 1 by {
        lemma_rebuilt_fields_bound(schema.fields, changes, None, id);
        lemma_total(schema, changes, first, last, n, id);
        lemma_distinct_ids_occur_once(schema, id);
    }
    lemma_single_occurrences_are_distinct(updated);
}

proof fn lemma_coerced_fields_occur(
    fields: Seq<FieldView>,
    i: nat,
    name: Seq<char>,
    texts: Seq<(u64, Seq<char>)>,
    done: Seq<FieldView>,
    id: int,
)
    requires
        i <= fields.len(),
        coerced_fields(fields, i, name, texts, done) is Ok,
    ensures
        all_occur(coerced_fields(fields, i, name, texts, done)->Ok_0, id) + fields_occur(
            fields,
            i,
            id,
        ) == all_occur(done, id) + all_occur(fields, id),
    decreases fields, fields.len() - i,
{
    if i < fields.len() {
        let field = fields[i as int];
        let path = dotted(name, field.name);
        let coerced = coerced_field(field, path, texts)->Ok_0;
        lemma_coerced_field_occurs(field, path, texts, id);
        lemma_all_occur_push(done, coerced, id);
        lemma_coerced_fields_occur(fields, i + 1, name, texts, done.push(coerced), id);
    }
}

/// Converting defaults leaves all IDs as they are.
pub proof fn lemma_coerced_field_occurs(
    field: FieldView,
    name: Seq<char>,
    texts: Seq<(u64, Seq<char>)>,
    id: int,
)
    requires
        coerced_field(field, name, texts) is Ok,
    ensures
        field_occurs(coerced_field(field, name, texts)->Ok_0, id) == field_occurs(field, id),
    decreases field, 0nat,
{
    lemma_coerced_type_occurs(field.field_type, name, texts, id);
}

proof fn lemma_coerced_type_occurs(
    t: TypeView,
    name: Seq<char>,
    texts: Seq<(u64, Seq<char>)>,
    id: int,
)
    requires
        coerced_type(t, name, texts) is Ok,
    ensures
        type_occurs(coerced_type(t, name, texts)->Ok_0, id) == type_occurs(t, id),
    decreases t, 0nat,
{
    match t {
        TypeView::Primitive(_) | TypeView::Variant => {},
        TypeView::Struct(fields) => {
            lemma_coerced_fields_occur(fields, 0, name, texts, Seq::empty(), id);
        },
        TypeView::List(element) => {
            lemma_coerced_field_occurs(*element, dotted(name, element.name), texts, id);
        },
        TypeView::MapOf(key, value) => {
            lemma_coerced_field_occurs(*key, dotted(name, key.name), texts, id);
            lemma_coerced_field_occurs(*value, dotted(name, value.name), texts, id);
        },
    }
}

} // verus!
