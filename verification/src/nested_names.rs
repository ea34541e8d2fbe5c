//! The names under which the fields of a schema, and those of added columns, are found.

use vstd::prelude::*;

#[allow(unused_imports)]
use crate::action::AddView;
#[allow(unused_imports)]
use crate::effects::holder_of;
#[allow(unused_imports)]
use crate::names::{names_of_field, names_of_fields, names_of_type};
#[allow(unused_imports)]
use crate::pending::{add_checked, add_column, PendingView};
#[allow(unused_imports)]
use crate::schema::{
    barrier_below, entries_of_field, entries_of_fields, entries_of_type, entry_of, schema_entries,
    short_below, under, BarrierView, EntryView, SchemaView,
};
#[allow(unused_imports)]
use crate::text::dotted;
#[allow(unused_imports)]
use crate::tree::{parents_of_fields, parents_of_type};
#[allow(unused_imports)]
use crate::types::{FieldView, TypeView};

verus! {

/// A field of a schema with its two names, and whether all fields that enclose it are required
/// structs.
pub struct PlaceView {
    pub full: Seq<char>,
    pub short: Seq<char>,
    pub field: FieldView,
    pub open: bool,
}

/// The place of a field by its entry.
pub open spec fn place_of(entry: EntryView) -> PlaceView {
    PlaceView {
        full: entry.full,
        short: entry.short,
        field: entry.field,
        open: entry.barrier is None,
    }
}

/// Whether `place` is that of the field `f`, which has the names `full` and `short`, or of one
/// beneath it. The short names of what lies beneath begin with `inner`.
pub open spec fn place_in_field(
    f: FieldView,
    full: Seq<char>,
    short: Seq<char>,
    inner: Seq<char>,
    open: bool,
    place: PlaceView,
) -> bool
    decreases f, 1nat,
{
    ||| place == PlaceView { full, short, field: f, open }
    ||| place_in_type(
        f.field_type,
        full,
        inner,
        open && f.required && f.field_type is Struct,
        place,
    )
}

/// Whether `place` is that of one of `fields` of the struct with the names `full` and `short`, or of
/// one beneath them.
pub open spec fn place_in_struct(
    fields: Seq<FieldView>,
    full: Seq<char>,
    short: Seq<char>,
    open: bool,
    place: PlaceView,
) -> bool
    decreases fields, 0nat,
{
    exists|i: int|
        0 <= i < fields.len() && place_in_field(
            #[trigger] fields[i],
            full + "."@ + fields[i].name,
            short + "."@ + fields[i].name,
            short + "."@ + fields[i].name,
            open,
            place,
        )
}

/// Whether `place` lies within the type of a field with the names `full` and `short`. A field has
/// its name after a dot behind those of the field that encloses it; but the short names of what lies
/// in a struct leave out that it is the element of a list or the value of a map.
pub open spec fn place_in_type(
    t: TypeView,
    full: Seq<char>,
    short: Seq<char>,
    open: bool,
    place: PlaceView,
) -> bool
    decreases t, 0nat,
{
    match t {
        TypeView::Primitive(_) | TypeView::Variant => false,
        TypeView::Struct(fields) => place_in_struct(fields, full, short, open, place),
        TypeView::List(element) => place_in_field(
            *element,
            full + "."@ + element.name,
            short + "."@ + element.name,
            if element.field_type is Struct {
                short
            } else {
                short + "."@ + element.name
            },
            open,
            place,
        ),
        TypeView::MapOf(key, value) => place_in_field(
            *key,
            full + "."@ + key.name,
            short + "."@ + key.name,
            short + "."@ + key.name,
            open,
            place,
        ) || place_in_field(
            *value,
            full + "."@ + value.name,
            short + "."@ + value.name,
            if value.field_type is Struct {
                short
            } else {
                short + "."@ + value.name
            },
            open,
            place,
        ),
    }
}

/// Whether the entries from `from` on have a place.
spec fn found(entries: Seq<EntryView>, from: nat, place: PlaceView) -> bool {
    exists|k: int| from <= k < entries.len() && place_of(#[trigger] entries[k]) == place
}

/// Whether `b` is `a`, extended.
spec fn extends<A>(a: Seq<A>, b: Seq<A>) -> bool {
    &&& a.len() <= b.len()
    &&& forall|k: int| 0 <= k < a.len() ==> #[trigger] b[k] == a[k]
}

proof fn lemma_found(
    a: Seq<EntryView>,
    b: Seq<EntryView>,
    from: nat,
    place: PlaceView,
)
    requires
        extends(a, b),
        from <= a.len(),
    ensures
        found(b, from, place) <==> found(a, from, place) || found(b, a.len(), place),
{
    if found(a, from, place) {
        let k = choose|k: int| from <= k < a.len() && place_of(#[trigger] a[k]) == place;
        assert(place_of(b[k]) == place);
    }
    if found(b, from, place) && !found(a, from, place) {
        let k = choose|k: int| from <= k < b.len() && place_of(#[trigger] b[k]) == place;
        if k < a.len() {
            assert(b[k] == a[k]);
        }
        assert(place_of(b[k]) == place);
    }
}

proof fn lemma_found_last(a: Seq<EntryView>, entry: EntryView, place: PlaceView)
    ensures
        extends(a, a.push(entry)),
        found(a.push(entry), a.len(), place) <==> place_of(entry) == place,
{
    if place_of(entry) == place {
        assert(place_of(a.push(entry)[a.len() as int]) == place);
    }
}

proof fn lemma_places_in_fields(
    fields: Seq<FieldView>,
    i: nat,
    full: Seq<char>,
    short: Seq<char>,
    barrier: Option<BarrierView>,
    done: Seq<EntryView>,
    place: PlaceView,
)
    requires
        i <= fields.len(),
    ensures
        ({
            let all = entries_of_fields(fields, i, Some(full), Some(short), barrier, done);
            &&& extends(done, all)
            &&& found(all, done.len(), place) <==> exists|j: int|
                i <= j < fields.len() && place_in_field(
                    #[trigger] fields[j],
                    full + "."@ + fields[j].name,
                    short + "."@ + fields[j].name,
                    short + "."@ + fields[j].name,
                    barrier is None,
                    place,
                )
        }),
    decreases fields, fields.len() - i, 0nat,
{
    if i < fields.len() {
        let field = fields[i as int];
        let next = entries_of_field(field, Some(full), Some(short), barrier, done);
        let all = entries_of_fields(fields, i, Some(full), Some(short), barrier, done);
        lemma_places_in_field(field, Some(full), Some(short), barrier, done, place);
        lemma_places_in_fields(fields, i + 1, full, short, barrier, next, place);
        lemma_found(next, all, done.len(), place);
        if found(next, done.len(), place) {
            assert(place_in_field(
                fields[i as int],
                full + "."@ + field.name,
                short + "."@ + field.name,
                short + "."@ + field.name,
                barrier is None,
                place,
            ));
        }
    }
}

proof fn lemma_places_in_field(
    field: FieldView,
    full: Option<Seq<char>>,
    short: Option<Seq<char>>,
    barrier: Option<BarrierView>,
    done: Seq<EntryView>,
    place: PlaceView,
)
    ensures
        ({
            let all = entries_of_field(field, full, short, barrier, done);
            &&& extends(done, all)
            &&& found(all, done.len(), place) <==> place_in_field(
                field,
                under(full, field.name),
                under(short, field.name),
                under(short, field.name),
                barrier is None,
                place,
            )
        }),
    decreases field, 0nat, 0nat,
{
    let all = entries_of_field(field, full, short, barrier, done);
    let own = done.push(entry_of(field, full, short, barrier));
    lemma_found_last(done, entry_of(field, full, short, barrier), place);
    lemma_places_in_type(
        field.field_type,
        under(full, field.name),
        under(short, field.name),
        barrier_below(field, barrier),
        own,
        place,
    );
    lemma_found(own, all, done.len(), place);
}

proof fn lemma_places_in_type(
    t: TypeView,
    full: Seq<char>,
    short: Seq<char>,
    barrier: Option<BarrierView>,
    done: Seq<EntryView>,
    place: PlaceView,
)
    ensures
        ({
            let all = entries_of_type(t, full, short, barrier, done);
            &&& extends(done, all)
            &&& found(all, done.len(), place) <==> place_in_type(
                t,
                full,
                short,
                barrier is None,
                place,
            )
        }),
    decreases t, 0nat, 0nat,
{
    let all = entries_of_type(t, full, short, barrier, done);
    match t {
        TypeView::Primitive(_) | TypeView::Variant => {},
        TypeView::Struct(fields) => {
            lemma_places_in_fields(fields, 0, full, short, barrier, done, place);
        },
        TypeView::List(element) => {
            let entry = entry_of(*element, Some(full), Some(short), barrier);
            let own = done.push(entry);
            lemma_found_last(done, entry, place);
            lemma_places_in_type(
                element.field_type,
                dotted(full, element.name),
                short_below(*element, short),
                barrier_below(*element, barrier),
                own,
                place,
            );
            lemma_found(own, all, done.len(), place);
        },
        TypeView::MapOf(key, value) => {
            let key_entry = entry_of(*key, Some(full), Some(short), barrier);
            let value_entry = entry_of(*value, Some(full), Some(short), barrier);
            let one = done.push(key_entry);
            let own = one.push(value_entry);
            let keys = entries_of_type(
                key.field_type,
                dotted(full, key.name),
                dotted(short, key.name),
                barrier_below(*key, barrier),
                own,
            );
            lemma_found_last(done, key_entry, place);
            lemma_found_last(one, value_entry, place);
            lemma_found(one, own, done.len(), place);
            lemma_places_in_type(
                key.field_type,
                dotted(full, key.name),
                dotted(short, key.name),
                barrier_below(*key, barrier),
                own,
                place,
            );
            lemma_found(own, keys, done.len(), place);
            lemma_places_in_type(
                value.field_type,
                dotted(full, value.name),
                short_below(*value, short),
                barrier_below(*value, barrier),
                keys,
                place,
            );
            lemma_found(keys, all, done.len(), place);
        },
    }
}

proof fn lemma_places_at_root(
    fields: Seq<FieldView>,
    i: nat,
    done: Seq<EntryView>,
    place: PlaceView,
)
    requires
        i <= fields.len(),
    ensures
        ({
            let all = entries_of_fields(fields, i, None, None, None, done);
            &&& extends(done, all)
            &&& found(all, done.len(), place) <==> exists|j: int|
                i <= j < fields.len() && place_in_field(
                    #[trigger] fields[j],
                    fields[j].name,
                    fields[j].name,
                    fields[j].name,
                    true,
                    place,
                )
        }),
    decreases fields.len() - i,
{
    if i < fields.len() {
        let field = fields[i as int];
        let next = entries_of_field(field, None, None, None, done);
        let all = entries_of_fields(fields, i, None, None, None, done);
        lemma_places_in_field(field, None, None, None, done, place);
        lemma_places_at_root(fields, i + 1, next, place);
        lemma_found(next, all, done.len(), place);
        if found(next, done.len(), place) {
            assert(place_in_field(
                fields[i as int],
                field.name,
                field.name,
                field.name,
                true,
                place,
            ));
        }
    }
}

/// A schema lists its fields, at the root and beneath, each with its full and its short name and
/// with whether all that encloses it are required structs, and lists nothing else.
pub proof fn law_schemas_list_their_fields(schema: SchemaView, place: PlaceView)
    ensures
        (exists|k: int|
            0 <= k < schema.entries().len() && place_of(#[trigger] schema.entries()[k]) == place)
            <==> exists|j: int|
            0 <= j < schema.fields.len() && place_in_field(
                #[trigger] schema.fields[j],
                schema.fields[j].name,
                schema.fields[j].name,
                schema.fields[j].name,
                true,
                place,
            ),
{
    lemma_places_at_root(schema.fields, 0, Seq::empty(), place);
    assert(found(schema.entries(), 0, place) <==> exists|k: int|
        0 <= k < schema.entries().len() && place_of(#[trigger] schema.entries()[k]) == place);
}

/// Whether `name` and `id` are those of the field `f`, which has the full name `full`, or of one
/// beneath it.
pub open spec fn named_in_field(
    f: FieldView,
    full: Seq<char>,
    name: Seq<char>,
    id: i32,
) -> bool
    decreases f, 1nat,
{
    (name == full && id == f.id) || named_in_type(f.field_type, full, name, id)
}

/// Whether `name` and `id` are those of one of `fields` of the struct `full`, or of one beneath
/// them.
pub open spec fn named_in_struct(
    fields: Seq<FieldView>,
    full: Seq<char>,
    name: Seq<char>,
    id: i32,
) -> bool
    decreases fields, 0nat,
{
    exists|i: int|
        0 <= i < fields.len() && named_in_field(
            #[trigger] fields[i],
            full + "."@ + fields[i].name,
            name,
            id,
        )
}

/// Whether `name` and `id` are those of a field within the type of the field `full`.
pub open spec fn named_in_type(t: TypeView, full: Seq<char>, name: Seq<char>, id: i32) -> bool
    decreases t, 0nat,
{
    match t {
        TypeView::Primitive(_) | TypeView::Variant => false,
        TypeView::Struct(fields) => named_in_struct(fields, full, name, id),
        TypeView::List(element) => named_in_field(*element, full + "."@ + element.name, name, id),
        TypeView::MapOf(key, value) => named_in_field(*key, full + "."@ + key.name, name, id)
            || named_in_field(*value, full + "."@ + value.name, name, id),
    }
}

/// Whether `listed` has a name with an ID from `from` on.
pub open spec fn lists_name(
    listed: Seq<(Seq<char>, i32)>,
    from: nat,
    name: Seq<char>,
    id: i32,
) -> bool {
    exists|k: int| from <= k < listed.len() && #[trigger] listed[k] == (name, id)
}

proof fn lemma_lists_name(
    a: Seq<(Seq<char>, i32)>,
    b: Seq<(Seq<char>, i32)>,
    from: nat,
    name: Seq<char>,
    id: i32,
)
    requires
        extends(a, b),
        from <= a.len(),
    ensures
        lists_name(b, from, name, id) <==> lists_name(a, from, name, id) || lists_name(
            b,
            a.len(),
            name,
            id,
        ),
{
    if lists_name(a, from, name, id) {
        let k = choose|k: int| from <= k < a.len() && #[trigger] a[k] == (name, id);
        assert(b[k] == (name, id));
    }
    if lists_name(b, from, name, id) && !lists_name(a, from, name, id) {
        let k = choose|k: int| from <= k < b.len() && #[trigger] b[k] == (name, id);
        if k < a.len() {
            assert(b[k] == a[k]);
        }
        assert(b[k] == (name, id));
    }
}

proof fn lemma_names_in_fields(
    fields: Seq<FieldView>,
    i: nat,
    full: Seq<char>,
    done: Seq<(Seq<char>, i32)>,
    name: Seq<char>,
    id: i32,
)
    requires
        i <= fields.len(),
    ensures
        ({
            let all = names_of_fields(fields, i, full, done);
            &&& extends(done, all)
            &&& lists_name(all, done.len(), name, id) <==> exists|j: int|
                i <= j < fields.len() && named_in_field(
                    #[trigger] fields[j],
                    full + "."@ + fields[j].name,
                    name,
                    id,
                )
        }),
    decreases fields, fields.len() - i, 0nat,
{
    if i < fields.len() {
        let field = fields[i as int];
        let next = names_of_field(field, dotted(full, field.name), done);
        let all = names_of_fields(fields, i, full, done);
        law_added_fields_are_listed(field, dotted(full, field.name), done, name, id);
        lemma_names_in_fields(fields, i + 1, full, next, name, id);
        lemma_lists_name(next, all, done.len(), name, id);
        if lists_name(next, done.len(), name, id) {
            assert(named_in_field(fields[i as int], full + "."@ + field.name, name, id));
        }
    }
}

/// Of an added column, the column itself and all fields beneath it are listed with their full names
/// and their IDs, and nothing else is.
pub proof fn law_added_fields_are_listed(
    field: FieldView,
    full: Seq<char>,
    done: Seq<(Seq<char>, i32)>,
    name: Seq<char>,
    id: i32,
)
    ensures
        ({
            let all = names_of_field(field, full, done);
            &&& done.len() <= all.len()
            &&& forall|k: int| 0 <= k < done.len() ==> #[trigger] all[k] == done[k]
            &&& lists_name(all, done.len(), name, id) <==> named_in_field(field, full, name, id)
        }),
    decreases field, 0nat, 0nat,
{
    let all = names_of_field(field, full, done);
    let own = done.push((full, field.id));
    assert(extends(done, own));
    assert(lists_name(own, done.len(), name, id) <==> name == full && id == field.id) by {
        assert(own[done.len() as int] == (full, field.id));
    }
    lemma_names_in_type(field.field_type, full, own, name, id);
    lemma_lists_name(own, all, done.len(), name, id);
}

proof fn lemma_names_in_type(
    t: TypeView,
    full: Seq<char>,
    done: Seq<(Seq<char>, i32)>,
    name: Seq<char>,
    id: i32,
)
    ensures
        ({
            let all = names_of_type(t, full, done);
            &&& extends(done, all)
            &&& lists_name(all, done.len(), name, id) <==> named_in_type(t, full, name, id)
        }),
    decreases t, 0nat, 0nat,
{
    let all = names_of_type(t, full, done);
    match t {
        TypeView::Primitive(_) | TypeView::Variant => {},
        TypeView::Struct(fields) => {
            lemma_names_in_fields(fields, 0, full, done, name, id);
        },
        TypeView::List(element) => {
            law_added_fields_are_listed(*element, dotted(full, element.name), done, name, id);
        },
        TypeView::MapOf(key, value) => {
            let keys = names_of_field(*key, dotted(full, key.name), done);
            law_added_fields_are_listed(*key, dotted(full, key.name), done, name, id);
            law_added_fields_are_listed(*value, dotted(full, value.name), keys, name, id);
            lemma_lists_name(keys, all, done.len(), name, id);
        },
    }
}

/// An added column, with all fields beneath it, is listed under its full name from then on: its name,
/// behind the full name of the struct that it went into.
pub proof fn law_added_columns_are_listed(
    p: PendingView,
    add: AddView,
    name: Seq<char>,
    id: i32,
)
    requires
        add_column(p, add).1 is Ok,
    ensures
        ({
            let q = add_column(p, add).0;
            let column = q.changes.updates[q.changes.additions.last().1];
            let full = match add.parent {
                None => add.name,
                Some(parent) => match p.schema.name_of(holder_of(p, parent)->0.id) {
                    Some(path) => path + "."@ + add.name,
                    None => parent + "."@ + add.name,
                },
            };
            &&& p.added_fields.len() <= q.added_fields.len()
            &&& forall|k: int|
                0 <= k < p.added_fields.len() ==> #[trigger] q.added_fields[k] == p.added_fields[k]
            &&& lists_name(q.added_fields, p.added_fields.len(), name, id) <==> named_in_field(
                column,
                full,
                name,
                id,
            )
        }),
{
    let q = add_column(p, add).0;
    let column = q.changes.updates[q.changes.additions.last().1];
    let full_name = add_checked(p, add)->Ok_0.1;
    match add.parent {
        None => {},
        Some(parent) => {
            let holder = holder_of(p, parent)->0;
            match p.schema.name_of(holder.id) {
                Some(path) => assert(full_name =~= path + "."@ + add.name),
                None => assert(full_name =~= parent + "."@ + add.name),
            }
        },
    }
    law_added_fields_are_listed(column, full_name, p.added_fields, name, id);
}

/// Whether, beneath a field with the ID `owner` and the type `t`, the field `child` lies directly
/// within the field `parent`, which may be the owner itself.
pub open spec fn holds_in_type(t: TypeView, owner: i32, child: i32, parent: i32) -> bool
    decreases t, 1nat,
{
    match t {
        TypeView::Primitive(_) | TypeView::Variant => false,
        TypeView::Struct(fields) => holds_in_struct(fields, owner, child, parent),
        TypeView::List(element) => {
            ||| (child == element.id && parent == owner)
            ||| holds_in_type(element.field_type, element.id, child, parent)
        },
        TypeView::MapOf(key, value) => {
            ||| (parent == owner && (child == key.id || child == value.id))
            ||| holds_in_type(key.field_type, key.id, child, parent)
            ||| holds_in_type(value.field_type, value.id, child, parent)
        },
    }
}

/// Whether `child` lies directly within `parent`, among the fields of the struct `owner` and beneath
/// them.
pub open spec fn holds_in_struct(
    fields: Seq<FieldView>,
    owner: i32,
    child: i32,
    parent: i32,
) -> bool
    decreases fields, 0nat,
{
    exists|i: int|
        0 <= i < fields.len() && {
            ||| ((#[trigger] fields[i]).id == child && parent == owner)
            ||| holds_in_type(fields[i].field_type, fields[i].id, child, parent)
        }
}

/// Whether a field lies within another one among the fields from `i` on, which lie within `owner`
/// where that is given.
pub open spec fn holds_from(
    fields: Seq<FieldView>,
    i: nat,
    owner: Option<i32>,
    child: i32,
    parent: i32,
) -> bool {
    exists|j: int|
        i <= j < fields.len() && {
            ||| ((#[trigger] fields[j]).id == child && owner == Some(parent))
            ||| holds_in_type(fields[j].field_type, fields[j].id, child, parent)
        }
}

/// The field that directly encloses a field is recorded for each field that has one, and for no
/// other, beyond what was recorded before.
pub proof fn law_parents_are_recorded(
    fields: Seq<FieldView>,
    i: nat,
    owner: Option<i32>,
    parents: Map<i32, i32>,
    child: i32,
    parent: i32,
)
    requires
        i <= fields.len(),
    ensures
        ({
            let all = parents_of_fields(fields, i, owner, parents);
            &&& all.contains_key(child) ==> holds_from(fields, i, owner, child, all[child]) || (
            parents.contains_key(child) && parents[child] == all[child])
            &&& parents.contains_key(child) ==> all.contains_key(child)
            &&& holds_from(fields, i, owner, child, parent) ==> all.contains_key(child)
        }),
    decreases fields, fields.len() - i, 0nat,
{
    if i < fields.len() {
        let field = fields[i as int];
        let own = match owner {
            Some(id) => parents.insert(field.id, id),
            None => parents,
        };
        let next = parents_of_type(field.field_type, field.id, own);
        let all = parents_of_fields(fields, i, owner, parents);
        lemma_parents_in_type(field.field_type, field.id, own, child, parent);
        law_parents_are_recorded(fields, i + 1, owner, next, child, parent);
        if all.contains_key(child) {
            let at = all[child];
            if holds_from(fields, i + 1, owner, child, at) {
                let j = choose|j: int|
                    i + 1 <= j < fields.len() && {
                        ||| ((#[trigger] fields[j]).id == child && owner == Some(at))
                        ||| holds_in_type(fields[j].field_type, fields[j].id, child, at)
                    };
                assert(fields[j].id == fields[j].id);
                assert(holds_from(fields, i, owner, child, at));
            } else {
                assert(fields[i as int] == field);
                if holds_in_type(field.field_type, field.id, child, at) || (field.id == child
                    && owner == Some(at)) {
                    assert(holds_from(fields, i, owner, child, at));
                }
            }
        }
    }
}

proof fn lemma_holds_from(fields: Seq<FieldView>, owner: i32, child: i32, parent: i32)
    ensures
        holds_from(fields, 0, Some(owner), child, parent) <==> holds_in_struct(
            fields,
            owner,
            child,
            parent,
        ),
{
}

proof fn lemma_parents_in_type(
    t: TypeView,
    owner: i32,
    parents: Map<i32, i32>,
    child: i32,
    parent: i32,
)
    ensures
        ({
            let all = parents_of_type(t, owner, parents);
            &&& all.contains_key(child) ==> holds_in_type(t, owner, child, all[child]) || (
            parents.contains_key(child) && parents[child] == all[child])
            &&& parents.contains_key(child) ==> all.contains_key(child)
            &&& holds_in_type(t, owner, child, parent) ==> all.contains_key(child)
        }),
    decreases t, 0nat, 0nat,
{
    let all = parents_of_type(t, owner, parents);
    match t {
        TypeView::Primitive(_) | TypeView::Variant => {},
        TypeView::Struct(fields) => {
            law_parents_are_recorded(fields, 0, Some(owner), parents, child, parent);
            lemma_holds_from(fields, owner, child, parent);
            if all.contains_key(child) {
                lemma_holds_from(fields, owner, child, all[child]);
            }
        },
        TypeView::List(element) => {
            lemma_parents_in_type(
                element.field_type,
                element.id,
                parents.insert(element.id, owner),
                child,
                parent,
            );
        },
        TypeView::MapOf(key, value) => {
            let own = parents.insert(key.id, owner).insert(value.id, owner);
            let keys = parents_of_type(key.field_type, key.id, own);
            lemma_parents_in_type(key.field_type, key.id, own, child, parent);
            lemma_parents_in_type(value.field_type, value.id, keys, child, parent);
        },
    }
}

} // verus!
