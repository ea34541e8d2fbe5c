//! Names within a schema: that no two fields of one struct share one.

use vstd::prelude::*;

#[allow(unused_imports)]
use crate::schema::{
    barrier_below, checked_schema, entries_of_field, entries_of_fields, entries_of_type, entry_of,
    lemma_no_duplicates, short_below, under, BarrierView, EntryView, SchemaView,
};
#[allow(unused_imports)]
use crate::text::dotted;
#[allow(unused_imports)]
use crate::types::{FieldView, TypeView};

verus! {

/// Whether no two of `fields` have the same name, nor any two fields of a struct beneath them.
pub open spec fn names_differ(fields: Seq<FieldView>) -> bool
    decreases fields, 0nat,
{
    &&& forall|i: int, j: int|
        0 <= i < j < fields.len() ==> (#[trigger] fields[i]).name != (#[trigger] fields[j]).name
    &&& forall|i: int| 0 <= i < fields.len() ==> names_differ_within((#[trigger] fields[i]).field_type)
}

/// Whether no two fields of a struct within a type have the same name.
pub open spec fn names_differ_within(t: TypeView) -> bool
    decreases t, 1nat,
{
    match t {
        TypeView::Primitive(_) | TypeView::Variant => true,
        TypeView::Struct(fields) => names_differ(fields),
        TypeView::List(element) => names_differ_within(element.field_type),
        TypeView::MapOf(key, value) => names_differ_within(key.field_type) && names_differ_within(
            value.field_type,
        ),
    }
}

/// How many of the first `n` entries have the full name `name`.
spec fn entries_named(entries: Seq<EntryView>, n: nat, name: Seq<char>) -> nat
    decreases n,
{
    if n == 0 || n > entries.len() {
        0
    } else {
        entries_named(entries, (n - 1) as nat, name) + (if entries[n - 1].full == name {
            1nat
        } else {
            0nat
        })
    }
}

/// How many of the entries have the full name `name`.
spec fn all_named(entries: Seq<EntryView>, name: Seq<char>) -> nat {
    entries_named(entries, entries.len(), name)
}

proof fn lemma_entries_named_push(done: Seq<EntryView>, entry: EntryView, n: nat, name: Seq<char>)
    requires
        n <= done.len(),
    ensures
        entries_named(done.push(entry), n, name) == entries_named(done, n, name),
    decreases n,
{
    if n > 0 {
        lemma_entries_named_push(done, entry, (n - 1) as nat, name);
        assert(done.push(entry)[n - 1] == done[n - 1]);
    }
}

proof fn lemma_all_named_push(done: Seq<EntryView>, entry: EntryView, name: Seq<char>)
    ensures
        all_named(done.push(entry), name) == all_named(done, name) + (if entry.full == name {
            1nat
        } else {
            0nat
        }),
{
    lemma_entries_named_push(done, entry, done.len(), name);
}

/// How many of the fields from `i` on have the full name `name`.
spec fn siblings_named(
    fields: Seq<FieldView>,
    i: nat,
    full: Option<Seq<char>>,
    name: Seq<char>,
) -> nat
    decreases fields.len() - i,
{
    if i >= fields.len() {
        0
    } else {
        siblings_named(fields, i + 1, full, name) + (if under(full, fields[i as int].name)
            == name {
            1nat
        } else {
            0nat
        })
    }
}

proof fn lemma_fields_named(
    fields: Seq<FieldView>,
    i: nat,
    full: Option<Seq<char>>,
    short: Option<Seq<char>>,
    barrier: Option<BarrierView>,
    done: Seq<EntryView>,
    name: Seq<char>,
)
    ensures
        all_named(entries_of_fields(fields, i, full, short, barrier, done), name) >= all_named(
            done,
            name,
        ) + siblings_named(fields, i, full, name),
    decreases fields, fields.len() - i,
{
    if i < fields.len() {
        let field = fields[i as int];
        lemma_field_named(field, full, short, barrier, done, name);
        lemma_fields_named(
            fields,
            i + 1,
            full,
            short,
            barrier,
            entries_of_field(field, full, short, barrier, done),
            name,
        );
    }
}

proof fn lemma_field_named(
    field: FieldView,
    full: Option<Seq<char>>,
    short: Option<Seq<char>>,
    barrier: Option<BarrierView>,
    done: Seq<EntryView>,
    name: Seq<char>,
)
    ensures
        all_named(entries_of_field(field, full, short, barrier, done), name) >= all_named(
            done,
            name,
        ) + (if under(full, field.name) == name {
            1nat
        } else {
            0nat
        }),
    decreases field, 0nat,
{
    let entry = entry_of(field, full, short, barrier);
    lemma_all_named_push(done, entry, name);
    lemma_type_named(
        field.field_type,
        under(full, field.name),
        under(short, field.name),
        barrier_below(field, barrier),
        done.push(entry),
        name,
    );
}

proof fn lemma_type_named(
    t: TypeView,
    full: Seq<char>,
    short: Seq<char>,
    barrier: Option<BarrierView>,
    done: Seq<EntryView>,
    name: Seq<char>,
)
    ensures
        all_named(entries_of_type(t, full, short, barrier, done), name) >= all_named(done, name),
    decreases t, 0nat,
{
    match t {
        TypeView::Primitive(_) | TypeView::Variant => {},
        TypeView::Struct(fields) => {
            lemma_fields_named(fields, 0, Some(full), Some(short), barrier, done, name);
        },
        TypeView::List(element) => {
            let entry = entry_of(*element, Some(full), Some(short), barrier);
            lemma_all_named_push(done, entry, name);
            lemma_type_named(
                element.field_type,
                dotted(full, element.name),
                short_below(*element, short),
                barrier_below(*element, barrier),
                done.push(entry),
                name,
            );
        },
        TypeView::MapOf(key, value) => {
            let of_key = entry_of(*key, Some(full), Some(short), barrier);
            let of_value = entry_of(*value, Some(full), Some(short), barrier);
            lemma_all_named_push(done, of_key, name);
            lemma_all_named_push(done.push(of_key), of_value, name);
            let both = done.push(of_key).push(of_value);
            lemma_type_named(
                key.field_type,
                dotted(full, key.name),
                dotted(short, key.name),
                barrier_below(*key, barrier),
                both,
                name,
            );
            lemma_type_named(
                value.field_type,
                dotted(full, value.name),
                short_below(*value, short),
                barrier_below(*value, barrier),
                entries_of_type(
                    key.field_type,
                    dotted(full, key.name),
                    dotted(short, key.name),
                    barrier_below(*key, barrier),
                    both,
                ),
                name,
            );
        },
    }
}

proof fn lemma_sibling_counted(
    fields: Seq<FieldView>,
    i: nat,
    j: int,
    full: Option<Seq<char>>,
)
    requires
        i <= j < fields.len(),
    ensures
        siblings_named(fields, i, full, under(full, fields[j].name)) >= 1,
    decreases fields.len() - i,
{
    if i < j {
        lemma_sibling_counted(fields, i + 1, j, full);
    }
}

proof fn lemma_two_siblings_counted(
    fields: Seq<FieldView>,
    i: nat,
    j: int,
    k: int,
    full: Option<Seq<char>>,
)
    requires
        i <= j < k < fields.len(),
        fields[j].name == fields[k].name,
    ensures
        siblings_named(fields, i, full, under(full, fields[j].name)) >= 2,
    decreases fields.len() - i,
{
    if i < j {
        lemma_two_siblings_counted(fields, i + 1, j, k, full);
    } else {
        lemma_sibling_counted(fields, i + 1, k, full);
    }
}

/// Whether no full name occurs twice among the entries.
spec fn named_once(entries: Seq<EntryView>) -> bool {
    forall|name: Seq<char>| #[trigger] all_named(entries, name) <= 1
}

proof fn lemma_names_differ_from(
    fields: Seq<FieldView>,
    i: nat,
    full: Option<Seq<char>>,
    short: Option<Seq<char>>,
    barrier: Option<BarrierView>,
    done: Seq<EntryView>,
)
    requires
        named_once(entries_of_fields(fields, i, full, short, barrier, done)),
    ensures
        forall|j: int| i <= j < fields.len() ==> names_differ_within((#[trigger] fields[j]).field_type),
    decreases fields, fields.len() - i,
{
    if i < fields.len() {
        let field = fields[i as int];
        let more = entries_of_field(field, full, short, barrier, done);
        let all = entries_of_fields(fields, i, full, short, barrier, done);
        assert(all == entries_of_fields(fields, i + 1, full, short, barrier, more));
        lemma_names_differ_from(fields, i + 1, full, short, barrier, more);
        assert forall|name: Seq<char>| #[trigger] all_named(more, name) <= 1 by {
            assert(all_named(all, name) <= 1);
            lemma_fields_named(fields, i + 1, full, short, barrier, more, name);
        }
        lemma_names_differ_within(
            field.field_type,
            under(full, field.name),
            under(short, field.name),
            barrier_below(field, barrier),
            done.push(entry_of(field, full, short, barrier)),
        );
    }
}

proof fn lemma_names_differ_within(
    t: TypeView,
    full: Seq<char>,
    short: Seq<char>,
    barrier: Option<BarrierView>,
    done: Seq<EntryView>,
)
    requires
        named_once(entries_of_type(t, full, short, barrier, done)),
    ensures
        names_differ_within(t),
    decreases t, 0nat,
{
    match t {
        TypeView::Primitive(_) | TypeView::Variant => {},
        TypeView::Struct(fields) => {
            lemma_names_differ_from(fields, 0, Some(full), Some(short), barrier, done);
            lemma_siblings_differ(fields, Some(full), Some(short), barrier, done);
            assert(names_differ(fields));
        },
        TypeView::List(element) => {
            lemma_names_differ_within(
                element.field_type,
                dotted(full, element.name),
                short_below(*element, short),
                barrier_below(*element, barrier),
                done.push(entry_of(*element, Some(full), Some(short), barrier)),
            );
        },
        TypeView::MapOf(key, value) => {
            let of_key = entry_of(*key, Some(full), Some(short), barrier);
            let of_value = entry_of(*value, Some(full), Some(short), barrier);
            let both = done.push(of_key).push(of_value);
            let with_key = entries_of_type(
                key.field_type,
                dotted(full, key.name),
                dotted(short, key.name),
                barrier_below(*key, barrier),
                both,
            );
            let all = entries_of_type(t, full, short, barrier, done);
            assert forall|name: Seq<char>| #[trigger] all_named(with_key, name) <= 1 by {
                assert(all_named(all, name) <= 1);
                lemma_type_named(
                    value.field_type,
                    dotted(full, value.name),
                    short_below(*value, short),
                    barrier_below(*value, barrier),
                    with_key,
                    name,
                );
            }
            lemma_names_differ_within(
                key.field_type,
                dotted(full, key.name),
                dotted(short, key.name),
                barrier_below(*key, barrier),
                both,
            );
            lemma_names_differ_within(
                value.field_type,
                dotted(full, value.name),
                short_below(*value, short),
                barrier_below(*value, barrier),
                with_key,
            );
        },
    }
}

proof fn lemma_siblings_differ(
    fields: Seq<FieldView>,
    full: Option<Seq<char>>,
    short: Option<Seq<char>>,
    barrier: Option<BarrierView>,
    done: Seq<EntryView>,
)
    requires
        named_once(entries_of_fields(fields, 0, full, short, barrier, done)),
    ensures
        forall|i: int, j: int|
            0 <= i < j < fields.len() ==> (#[trigger] fields[i]).name != (
            #[trigger] fields[j]).name,
{
    assert forall|i: int, j: int| 0 <= i < j < fields.len() implies (#[trigger] fields[i]).name
        != (#[trigger] fields[j]).name by {
        if fields[i].name == fields[j].name {
            let name = under(full, fields[i].name);
            lemma_two_siblings_counted(fields, 0, i, j, full);
            lemma_fields_named(fields, 0, full, short, barrier, done, name);
        }
    }
}

proof fn lemma_not_named(entries: Seq<EntryView>, n: nat, name: Seq<char>)
    requires
        n <= entries.len(),
        forall|i: int| 0 <= i < n ==> (#[trigger] entries[i]).full != name,
    ensures
        entries_named(entries, n, name) == 0,
    decreases n,
{
    if n > 0 {
        lemma_not_named(entries, (n - 1) as nat, name);
    }
}

proof fn lemma_named_once(entries: Seq<EntryView>, n: nat, name: Seq<char>)
    requires
        n <= entries.len(),
        forall|i: int, j: int|
            0 <= i < j < entries.len() ==> (#[trigger] entries[i]).full != (
            #[trigger] entries[j]).full,
    ensures
        entries_named(entries, n, name) <= 1,
    decreases n,
{
    if n > 0 {
        lemma_named_once(entries, (n - 1) as nat, name);
        if entries[n - 1].full == name {
            lemma_not_named(entries, (n - 1) as nat, name);
        }
    }
}

/// In a valid schema no two fields of one struct have the same name.
pub proof fn law_siblings_have_different_names(schema: SchemaView)
    requires
        checked_schema(schema) is Ok,
    ensures
        names_differ(schema.fields),
{
    let entries = schema.entries();
    lemma_no_duplicates(entries, 0);
    assert forall|name: Seq<char>| #[trigger] all_named(entries, name) <= 1 by {
        lemma_named_once(entries, entries.len(), name);
    }
    lemma_names_differ_from(schema.fields, 0, None, None, None, Seq::empty());
    lemma_siblings_differ(schema.fields, None, None, None, Seq::empty());
}

} // verus!
