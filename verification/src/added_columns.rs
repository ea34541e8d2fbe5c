//! An added column is what was asked for, but for its IDs and for defaults that were converted.

use vstd::prelude::*;

#[allow(unused_imports)]
use crate::action::AddView;
#[allow(unused_imports)]
use crate::changes::ChangesView;
#[allow(unused_imports)]
use crate::defaults::{coerced_default, coerced_field, coerced_fields, coerced_type};
#[allow(unused_imports)]
use crate::error::ErrorView;
#[allow(unused_imports)]
use crate::fresh_ids::{fresh_field, fresh_siblings, fresh_type, fresh_under};
#[allow(unused_imports)]
use crate::literal::LiteralView;
#[allow(unused_imports)]
use crate::pending::{add_checked, add_column, new_field, PendingView};
#[allow(unused_imports)]
use crate::text::dotted;
#[allow(unused_imports)]
use crate::types::{FieldView, TypeView};

verus! {

/// Whether a default is the converted form of another, for a column of type `t`.
pub open spec fn converts_to(
    t: TypeView,
    asked: Option<LiteralView>,
    got: Option<LiteralView>,
    texts: Seq<(u64, Seq<char>)>,
) -> bool {
    exists|name: Seq<char>| #[trigger]
        coerced_default(t, asked, name, texts) == Ok::<Option<LiteralView>, ErrorView>(got)
}

/// Whether two fields have the same name, documentation, nullability and type, whatever their IDs,
/// and the defaults of the second are those of the first, converted.
pub open spec fn same_column(
    asked: FieldView,
    got: FieldView,
    texts: Seq<(u64, Seq<char>)>,
) -> bool
    decreases asked, 0nat,
{
    &&& got.name == asked.name
    &&& got.doc == asked.doc
    &&& got.required == asked.required
    &&& converts_to(got.field_type, asked.initial_default, got.initial_default, texts)
    &&& converts_to(got.field_type, asked.write_default, got.write_default, texts)
    &&& same_type(asked.field_type, got.field_type, texts)
}

/// Whether two types are the same, whatever the IDs within them: the same columns in the same order
/// in a struct, with their defaults converted, and elements, keys and values of the same types.
pub open spec fn same_type(asked: TypeView, got: TypeView, texts: Seq<(u64, Seq<char>)>) -> bool
    decreases asked, 0nat,
{
    match (asked, got) {
        (TypeView::Struct(a), TypeView::Struct(b)) => {
            &&& a.len() == b.len()
            &&& forall|i: int| 0 <= i < a.len() ==> same_column(#[trigger] a[i], b[i], texts)
        },
        (TypeView::List(a), TypeView::List(b)) => {
            &&& b.required == a.required
            &&& b.name == "element"@
            &&& same_type(a.field_type, b.field_type, texts)
        },
        (TypeView::MapOf(a, b), TypeView::MapOf(c, d)) => {
            &&& c.required
            &&& c.name == "key"@
            &&& d.required == b.required
            &&& d.name == "value"@
            &&& same_type(a.field_type, c.field_type, texts)
            &&& same_type(b.field_type, d.field_type, texts)
        },
        (TypeView::Primitive(a), TypeView::Primitive(b)) => a == b,
        (TypeView::Variant, TypeView::Variant) => true,
        _ => false,
    }
}

/// Conversion of defaults looks at the type only where it is primitive.
proof fn lemma_same_conversion(
    a: TypeView,
    b: TypeView,
    asked: Option<LiteralView>,
    got: Option<LiteralView>,
    name: Seq<char>,
    texts: Seq<(u64, Seq<char>)>,
)
    requires
        coerced_default(a, asked, name, texts) == Ok::<Option<LiteralView>, ErrorView>(got),
        a is Primitive || b is Primitive ==> a == b,
    ensures
        coerced_default(b, asked, name, texts) == Ok::<Option<LiteralView>, ErrorView>(got),
{
}

proof fn lemma_siblings_same(
    fields: Seq<FieldView>,
    first: int,
    i: nat,
    done: Seq<FieldView>,
    last: i32,
    name: Seq<char>,
    texts: Seq<(u64, Seq<char>)>,
    converted: Seq<FieldView>,
)
    requires
        i == done.len(),
        i <= fields.len(),
        fresh_siblings(fields, first, i, done, last).0 is Ok,
        coerced_fields(
            fresh_siblings(fields, first, i, done, last).0->Ok_0,
            i,
            name,
            texts,
            converted,
        ) is Ok,
        converted.len() == i,
        forall|j: int| 0 <= j < i ==> same_column(#[trigger] fields[j], converted[j], texts),
    ensures
        ({
            let fresh = fresh_siblings(fields, first, i, done, last).0->Ok_0;
            let all = coerced_fields(fresh, i, name, texts, converted)->Ok_0;
            &&& fresh.len() == fields.len()
            &&& fresh.take(i as int) == done
            &&& all.len() == fields.len()
            &&& forall|j: int| 0 <= j < fields.len() ==> same_column(#[trigger] fields[j], all[j], texts)
        }),
    decreases fields, fields.len() - i,
{
    let fresh = fresh_siblings(fields, first, i, done, last).0->Ok_0;
    if i < fields.len() {
        let id = (first + i) as i32;
        let field = fields[i as int];
        let own = fresh_under(field, id, last).0->Ok_0;
        let last1 = fresh_under(field, id, last).1;
        let more = done.push(own);
        lemma_siblings_prefix(fields, first, i + 1, more, last1);
        assert(fresh.take((i + 1) as int) == more);
        assert(fresh[i as int] == own) by {
            assert(fresh.take((i + 1) as int)[i as int] == more[i as int]);
        }
        let path = dotted(name, own.name);
        let converted_own = coerced_field(own, path, texts)->Ok_0;
        lemma_field_same(field, id, last, path, texts);
        let converted_more = converted.push(converted_own);
        assert forall|j: int| 0 <= j < i + 1 implies same_column(
            #[trigger] fields[j],
            converted_more[j],
            texts,
        ) by {
            if j < i {
                assert(converted_more[j] == converted[j]);
            }
        }
        lemma_siblings_same(fields, first, i + 1, more, last1, name, texts, converted_more);
        assert(fresh.take(i as int) =~= done) by {
            assert(fresh.take((i + 1) as int).take(i as int) =~= fresh.take(i as int));
            assert(more.take(i as int) =~= done);
        }
    } else {
        assert(fresh.take(i as int) =~= done);
    }
}

proof fn lemma_siblings_prefix(
    fields: Seq<FieldView>,
    first: int,
    i: nat,
    done: Seq<FieldView>,
    last: i32,
)
    requires
        i == done.len(),
        i <= fields.len(),
        fresh_siblings(fields, first, i, done, last).0 is Ok,
    ensures
        ({
            let fresh = fresh_siblings(fields, first, i, done, last).0->Ok_0;
            fresh.len() == fields.len() && fresh.take(i as int) == done
        }),
    decreases fields.len() - i,
{
    let fresh = fresh_siblings(fields, first, i, done, last).0->Ok_0;
    if i < fields.len() {
        let (own, last1) = fresh_under(fields[i as int], (first + i) as i32, last);
        let more = done.push(own->Ok_0);
        lemma_siblings_prefix(fields, first, i + 1, more, last1);
        assert(fresh.take((i + 1) as int).take(i as int) =~= fresh.take(i as int));
        assert(more.take(i as int) =~= done);
    } else {
        assert(fresh.take(i as int) =~= done);
    }
}

proof fn lemma_field_same(
    field: FieldView,
    id: i32,
    last: i32,
    name: Seq<char>,
    texts: Seq<(u64, Seq<char>)>,
)
    requires
        fresh_under(field, id, last).0 is Ok,
        coerced_field(fresh_under(field, id, last).0->Ok_0, name, texts) is Ok,
    ensures
        same_column(
            field,
            coerced_field(fresh_under(field, id, last).0->Ok_0, name, texts)->Ok_0,
            texts,
        ),
    decreases field, 0nat,
{
    let fresh = fresh_under(field, id, last).0->Ok_0;
    let got = coerced_field(fresh, name, texts)->Ok_0;
    lemma_type_same(field.field_type, last, name, texts);
    lemma_same_conversion(
        fresh.field_type,
        got.field_type,
        field.initial_default,
        got.initial_default,
        name,
        texts,
    );
    lemma_same_conversion(
        fresh.field_type,
        got.field_type,
        field.write_default,
        got.write_default,
        name,
        texts,
    );
}

proof fn lemma_type_same(t: TypeView, last: i32, name: Seq<char>, texts: Seq<(u64, Seq<char>)>)
    requires
        fresh_type(t, last).0 is Ok,
        coerced_type(fresh_type(t, last).0->Ok_0, name, texts) is Ok,
    ensures
        same_type(t, coerced_type(fresh_type(t, last).0->Ok_0, name, texts)->Ok_0, texts),
    decreases t, 0nat,
{
    let fresh = fresh_type(t, last).0->Ok_0;
    match t {
        TypeView::Primitive(_) | TypeView::Variant => {},
        TypeView::Struct(fields) => {
            lemma_siblings_same(
                fields,
                last + 1,
                0,
                Seq::empty(),
                (last + fields.len()) as i32,
                name,
                texts,
                Seq::empty(),
            );
        },
        TypeView::List(element) => {
            let inner = fresh->List_0;
            lemma_type_same(
                element.field_type,
                (last + 1) as i32,
                dotted(name, inner.name),
                texts,
            );
        },
        TypeView::MapOf(key, value) => {
            let (new_key, last1) = fresh_type(key.field_type, (last + 2) as i32);
            let fresh_key = fresh->MapOf_0;
            let fresh_value = fresh->MapOf_1;
            lemma_type_same(
                key.field_type,
                (last + 2) as i32,
                dotted(name, fresh_key.name),
                texts,
            );
            lemma_type_same(value.field_type, last1, dotted(name, fresh_value.name), texts);
        },
    }
}

/// A column that is added is recorded as what was asked for: with the same name, nullability,
/// documentation and type, whatever its IDs, and with its defaults converted. It is recorded last,
/// under an ID that was not in use, and nothing else is changed.
pub proof fn law_added_columns_are_what_was_asked_for(p: PendingView, add: AddView)
    requires
        add_column(p, add).1 is Ok,
    ensures
        ({
            let q = add_column(p, add).0;
            let n = p.changes.additions.len() as int;
            let id = q.changes.additions[n].1;
            let got = q.changes.updates[id];
            &&& q.changes.additions.len() == n + 1
            &&& q.changes.additions.take(n) == p.changes.additions
            &&& p.last_column_id < id <= q.last_column_id
            &&& q.changes.updates == p.changes.updates.insert(id, got)
            &&& q.changes.deletes == p.changes.deletes
            &&& q.changes.moves == p.changes.moves
            &&& got.id == id
            &&& got.name == add.name
            &&& got.required == add.required
            &&& got.doc == add.doc
            &&& converts_to(got.field_type, add.initial_default, got.initial_default, p.texts)
            &&& converts_to(got.field_type, add.write_default, got.write_default, p.texts)
            &&& same_type(add.field_type, got.field_type, p.texts)
        }),
{
    let q = add_column(p, add).0;
    let n = p.changes.additions.len() as int;
    let (parent, full_name) = add_checked(p, add)->Ok_0;
    let last = p.last_column_id;
    let id = (last + 1) as i32;
    lemma_field_same(new_field(add), id, id, full_name, p.texts);
    crate::fresh_ids::law_fresh_ids_run_out_only_at_the_end(new_field(add), last);
    assert(q.changes.additions.take(n) =~= p.changes.additions);
    assert(q.changes.updates[id].id == id);
}

} // verus!
