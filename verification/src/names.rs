//! Names of added columns.

use vstd::prelude::*;

use crate::schema::named_ids_push;
use crate::text::{join_path, text_eq};
#[allow(unused_imports)]
use crate::text::dotted;
#[allow(unused_imports)]
use crate::schema::named_ids;
use crate::types::{NestedField, Type};
#[allow(unused_imports)]
use crate::types::{fields_view, lemma_struct_view, FieldView, TypeView};

verus! {

/// Column names with the IDs that they stand for. A name that is recorded again stands for the
/// newer ID.
#[derive(Debug)]
pub struct NameMap {
    entries: Vec<(String, i32)>,
}

/// The map that a list of recorded names amounts to.
pub open spec fn recorded(entries: Seq<(Seq<char>, i32)>) -> Map<Seq<char>, i32>
    decreases entries.len(),
{
    if entries.len() == 0 {
        Map::empty()
    } else {
        recorded(entries.drop_last()).insert(entries.last().0, entries.last().1)
    }
}

impl View for NameMap {
    type V = Map<Seq<char>, i32>;

    closed spec fn view(&self) -> Map<Seq<char>, i32> {
        recorded(named_ids(self.entries@))
    }
}

/// Whether the map holds `id`.
pub open spec fn holds_id(map: Map<Seq<char>, i32>, id: i32) -> bool {
    exists|name: Seq<char>| #[trigger] map.contains_key(name) && map[name] == id
}

/// A later name that differs does not matter for an earlier one.
proof fn lemma_recorded_skips(entries: Seq<(Seq<char>, i32)>, n: nat, name: Seq<char>)
    requires
        n <= entries.len(),
        forall|j: int| n <= j < entries.len() ==> (#[trigger] entries[j]).0 != name,
    ensures
        recorded(entries).contains_key(name) == recorded(entries.take(n as int)).contains_key(name),
        recorded(entries).contains_key(name) ==> recorded(entries)[name] == recorded(
            entries.take(n as int),
        )[name],
    decreases entries.len(),
{
    if n < entries.len() {
        lemma_recorded_skips(entries.drop_last(), n, name);
        assert(entries.drop_last().take(n as int) =~= entries.take(n as int));
        assert(entries.last().0 != name);
    } else {
        assert(entries.take(n as int) =~= entries);
    }
}

/// The names in the map are those that were recorded.
proof fn lemma_recorded_names(entries: Seq<(Seq<char>, i32)>, name: Seq<char>)
    ensures
        recorded(entries).contains_key(name) <==> exists|j: int|
            0 <= j < entries.len() && (#[trigger] entries[j]).0 == name,
    decreases entries.len(),
{
    if entries.len() > 0 {
        lemma_recorded_names(entries.drop_last(), name);
        if exists|j: int| 0 <= j < entries.len() && (#[trigger] entries[j]).0 == name {
            let j = choose|j: int| 0 <= j < entries.len() && (#[trigger] entries[j]).0 == name;
            if j < entries.len() - 1 {
                assert(entries.drop_last()[j].0 == name);
            }
        }
        if recorded(entries.drop_last()).contains_key(name) {
            let j = choose|j: int|
                0 <= j < entries.len() - 1 && (#[trigger] entries.drop_last()[j]).0 == name;
            assert(entries[j].0 == name);
        }
        assert(entries[entries.len() - 1] == entries.last());
    }
}

impl NameMap {
    /// A map without names.
    pub fn new() -> (map: NameMap)
        ensures
            map@ == Map::<Seq<char>, i32>::empty(),
    {
        NameMap { entries: Vec::new() }
    }

    /// Records a name.
    pub fn insert(&mut self, name: String, id: i32)
        ensures
            final(self)@ == old(self)@.insert(name@, id),
    {
        let ghost before = named_ids(self.entries@);
        let ghost added = name@;
        self.entries.push((name, id));
        assert(named_ids(self.entries@) =~= before.push((added, id)));
        assert(before.push((added, id)).drop_last() =~= before);
    }

    /// The ID that a name stands for.
    pub fn get(&self, name: &str) -> (id: Option<i32>)
        ensures
            match id {
                Some(i) => self@.contains_key(name@) && self@[name@] == i,
                None => !self@.contains_key(name@),
            },
    {
        let ghost view = named_ids(self.entries@);
        let mut i: usize = self.entries.len();
        while i > 0
            invariant
                i <= self.entries@.len(),
                view == named_ids(self.entries@),
                forall|j: int| i <= j < view.len() ==> (#[trigger] view[j]).0 != name@,
            decreases i,
        {
            i -= 1;
            if text_eq(self.entries[i].0.as_str(), name) {
                proof {
                    lemma_recorded_skips(view, (i + 1) as nat, name@);
                    assert(view.take(i + 1).last() == view[i as int]);
                }
                return Some(self.entries[i].1);
            }
        }
        proof {
            lemma_recorded_skips(view, 0, name@);
            assert(recorded(view.take(0)) =~= Map::empty());
        }
        None
    }

    /// Whether the map holds `id`.
    pub fn holds(&self, id: i32) -> (found: bool)
        ensures
            found == holds_id(self@, id),
    {
        let ghost view = named_ids(self.entries@);
        let mut i: usize = 0;
        while i < self.entries.len()
            invariant
                i <= self.entries@.len(),
                view == named_ids(self.entries@),
                self@ == recorded(view),
                forall|j: int|
                    0 <= j < i ==> !(self@.contains_key((#[trigger] view[j]).0)
                        && self@[view[j].0] == id),
            decreases self.entries@.len() - i,
        {
            match self.get(self.entries[i].0.as_str()) {
                Some(found) => {
                    if found == id {
                        return true;
                    }
                },
                None => {},
            }
            i += 1;
        }
        proof {
            assert forall|name: Seq<char>| #[trigger] self@.contains_key(name) implies self@[name]
                != id by {
                lemma_recorded_names(view, name);
                let j = choose|j: int| 0 <= j < view.len() && (#[trigger] view[j]).0 == name;
                assert(view[j].0 == name);
            }
        }
        false
    }
}

/// The full names of a field and of all beneath it, with their IDs, after those in `done`.
pub open spec fn names_of_field(
    field: FieldView,
    name: Seq<char>,
    done: Seq<(Seq<char>, i32)>,
) -> Seq<(Seq<char>, i32)>
    decreases field, 0nat,
{
    names_of_type(field.field_type, name, done.push((name, field.id)))
}

/// The full names of the fields from `i` on within the field `parent`.
pub open spec fn names_of_fields(
    fields: Seq<FieldView>,
    i: nat,
    parent: Seq<char>,
    done: Seq<(Seq<char>, i32)>,
) -> Seq<(Seq<char>, i32)>
    decreases fields, fields.len() - i,
{
    if i >= fields.len() {
        done
    } else {
        names_of_fields(
            fields,
            i + 1,
            parent,
            names_of_field(fields[i as int], dotted(parent, fields[i as int].name), done),
        )
    }
}

/// The full names of what lies within the type of the field `parent`.
pub open spec fn names_of_type(
    t: TypeView,
    parent: Seq<char>,
    done: Seq<(Seq<char>, i32)>,
) -> Seq<(Seq<char>, i32)>
    decreases t, 0nat,
{
    match t {
        TypeView::Primitive(_) | TypeView::Variant => done,
        TypeView::Struct(fields) => names_of_fields(fields, 0, parent, done),
        TypeView::List(element) => names_of_field(*element, dotted(parent, element.name), done),
        TypeView::MapOf(key, value) => names_of_field(
            *value,
            dotted(parent, value.name),
            names_of_field(*key, dotted(parent, key.name), done),
        ),
    }
}

/// Records the full names of a field and of all beneath it.
pub fn index_field_names(field: &NestedField, full_name: &str, result: &mut Vec<(String, i32)>)
    ensures
        named_ids(final(result)@) == names_of_field(field@, full_name@, named_ids(old(result)@)),
    decreases field,
{
    named_ids_push(result, full_name, field.id);
    index_type_names(&field.field_type, full_name, result);
}

fn index_type_names(field_type: &Type, parent: &str, result: &mut Vec<(String, i32)>)
    ensures
        named_ids(final(result)@) == names_of_type(field_type@, parent@, named_ids(old(result)@)),
    decreases field_type,
{
    broadcast use lemma_struct_view;

    match field_type {
        Type::Struct(s) => {
            let ghost all = fields_view(s.fields@);
            let mut i: usize = 0;
            while i < s.fields.len()
                invariant
                    i <= s.fields@.len(),
                    all == fields_view(s.fields@),
                    field_type@ == TypeView::Struct(all),
                    decreases_to!(field_type => s.fields),
                    names_of_fields(all, i as nat, parent@, named_ids(result@))
                        == names_of_fields(all, 0, parent@, named_ids(old(result)@)),
                decreases s.fields@.len() - i,
            {
                assert(decreases_to!(s.fields => s.fields@));
                assert(decreases_to!(s.fields@ => s.fields@[i as int]));
                let child = &s.fields[i];
                assert(all[i as int] == child@);
                let path = join_path(parent, child.name.as_str());
                index_field_names(child, path.as_str(), result);
                i += 1;
            }
        },
        Type::List(l) => {
            let path = join_path(parent, l.element_field.name.as_str());
            index_field_names(&l.element_field, path.as_str(), result);
        },
        Type::MapOf(m) => {
            let key_path = join_path(parent, m.key_field.name.as_str());
            index_field_names(&m.key_field, key_path.as_str(), result);
            let value_path = join_path(parent, m.value_field.name.as_str());
            index_field_names(&m.value_field, value_path.as_str(), result);
        },
        Type::Primitive(_) | Type::Variant(_) => {},
    }
}

} // verus!
