//! Schemas: named fields, looked up by name and by ID.
//!
//! Every field of a schema has a full name, the names on the way to it joined by dots, and a short
//! name, which leaves out the element of a list and the value of a map where these are structs.
//! A short name never hides a full name.

use std::sync::Arc;

use vstd::prelude::*;

use crate::error::{data_invalid, Error};
#[allow(unused_imports)]
use crate::error::{data_error, opt_error, outcome, ErrorView};
use crate::text::{cat2, cat3, cat4, int_to_text, join_path, text_eq, to_lower};
#[allow(unused_imports)]
use crate::text::{dotted, int_numeral, lower, opt_text};
use crate::types::{fields_same, share, share_all, NestedField, PrimitiveType, StructType, Type};
#[allow(unused_imports)]
use crate::types::{field_view, fields_view, lemma_struct_view, FieldView, TypeView};

verus! {

/// What keeps a field from being an identifier field: the nearest enclosing field that is not a
/// required struct.
#[derive(Debug, PartialEq, Eq)]
pub struct Barrier {
    pub is_struct: bool,
    pub name: String,
}

/// The mathematical value of a [`Barrier`].
pub struct BarrierView {
    pub is_struct: bool,
    pub name: Seq<char>,
}

/// A field of a schema with its names.
#[derive(Debug, PartialEq, Eq)]
pub struct NameEntry {
    pub full: String,
    pub short: String,
    pub field: Arc<NestedField>,
    pub barrier: Option<Barrier>,
}

/// The mathematical value of a [`NameEntry`].
pub struct EntryView {
    pub full: Seq<char>,
    pub short: Seq<char>,
    pub field: FieldView,
    pub barrier: Option<BarrierView>,
}

/// The value of an optional barrier.
pub open spec fn barrier_view(barrier: Option<Barrier>) -> Option<BarrierView> {
    match barrier {
        Some(b) => Some(BarrierView { is_struct: b.is_struct, name: b.name@ }),
        None => None,
    }
}

impl View for NameEntry {
    type V = EntryView;

    open spec fn view(&self) -> EntryView {
        EntryView {
            full: self.full@,
            short: self.short@,
            field: field_view(*self.field),
            barrier: barrier_view(self.barrier),
        }
    }
}

/// The views of a list of entries.
pub open spec fn index_view(index: Seq<NameEntry>) -> Seq<EntryView> {
    index.map_values(|entry: NameEntry| entry@)
}

/// `name` under an optional prefix.
pub open spec fn under(prefix: Option<Seq<char>>, name: Seq<char>) -> Seq<char> {
    match prefix {
        Some(parent) => dotted(parent, name),
        None => name,
    }
}

/// The barrier of what lies beneath `field`, where that of the field itself is `outer`.
pub open spec fn barrier_below(field: FieldView, outer: Option<BarrierView>) -> Option<
    BarrierView,
> {
    if !(field.field_type is Struct) {
        Some(BarrierView { is_struct: false, name: field.name })
    } else if !field.required {
        Some(BarrierView { is_struct: true, name: field.name })
    } else {
        outer
    }
}

/// The entry of one field.
pub open spec fn entry_of(
    field: FieldView,
    full: Option<Seq<char>>,
    short: Option<Seq<char>>,
    barrier: Option<BarrierView>,
) -> EntryView {
    EntryView { full: under(full, field.name), short: under(short, field.name), field, barrier }
}

/// The short prefix of what lies beneath a collection's field: that of the collection itself
/// where the field is a struct.
pub open spec fn short_below(field: FieldView, short: Seq<char>) -> Seq<char> {
    if field.field_type is Struct {
        short
    } else {
        dotted(short, field.name)
    }
}

/// The entries of `fields` from `i` on and of all beneath them, after those in `done`.
pub open spec fn entries_of_fields(
    fields: Seq<FieldView>,
    i: nat,
    full: Option<Seq<char>>,
    short: Option<Seq<char>>,
    barrier: Option<BarrierView>,
    done: Seq<EntryView>,
) -> Seq<EntryView>
    decreases fields, fields.len() - i,
{
    if i >= fields.len() {
        done
    } else {
        entries_of_fields(
            fields,
            i + 1,
            full,
            short,
            barrier,
            entries_of_field(fields[i as int], full, short, barrier, done),
        )
    }
}

/// The entry of a field and those of all beneath it, after those in `done`.
pub open spec fn entries_of_field(
    field: FieldView,
    full: Option<Seq<char>>,
    short: Option<Seq<char>>,
    barrier: Option<BarrierView>,
    done: Seq<EntryView>,
) -> Seq<EntryView>
    decreases field, 0nat,
{
    entries_of_type(
        field.field_type,
        under(full, field.name),
        under(short, field.name),
        barrier_below(field, barrier),
        done.push(entry_of(field, full, short, barrier)),
    )
}

/// The entries of what lies within a type, after those in `done`.
pub open spec fn entries_of_type(
    t: TypeView,
    full: Seq<char>,
    short: Seq<char>,
    barrier: Option<BarrierView>,
    done: Seq<EntryView>,
) -> Seq<EntryView>
    decreases t, 0nat,
{
    match t {
        TypeView::Primitive(_) | TypeView::Variant => done,
        TypeView::Struct(fields) => entries_of_fields(
            fields,
            0,
            Some(full),
            Some(short),
            barrier,
            done,
        ),
        TypeView::List(element) => entries_of_type(
            element.field_type,
            dotted(full, element.name),
            short_below(*element, short),
            barrier_below(*element, barrier),
            done.push(entry_of(*element, Some(full), Some(short), barrier)),
        ),
        TypeView::MapOf(key, value) => entries_of_type(
            value.field_type,
            dotted(full, value.name),
            short_below(*value, short),
            barrier_below(*value, barrier),
            entries_of_type(
                key.field_type,
                dotted(full, key.name),
                dotted(short, key.name),
                barrier_below(*key, barrier),
                done.push(entry_of(*key, Some(full), Some(short), barrier)).push(
                    entry_of(*value, Some(full), Some(short), barrier),
                ),
            ),
        ),
    }
}

/// The entries of all fields of a schema, each before those beneath it.
pub open spec fn schema_entries(fields: Seq<FieldView>) -> Seq<EntryView> {
    entries_of_fields(fields, 0, None, None, None, Seq::empty())
}

/// `name` under an optional prefix.
fn name_under(prefix: &Option<String>, name: &String) -> (result: String)
    ensures
        result@ == under(opt_text(*prefix), name@),
{
    match prefix {
        Some(parent) => join_path(parent.as_str(), name.as_str()),
        None => name.clone(),
    }
}

/// A copy of an optional barrier.
fn copy_barrier(barrier: &Option<Barrier>) -> (copy: Option<Barrier>)
    ensures
        barrier_view(copy) == barrier_view(*barrier),
{
    match barrier {
        Some(b) => Some(Barrier { is_struct: b.is_struct, name: b.name.clone() }),
        None => None,
    }
}

/// The barrier of what lies beneath `field`.
fn barrier_beneath(field: &NestedField, outer: &Option<Barrier>) -> (barrier: Option<Barrier>)
    ensures
        barrier_view(barrier) == barrier_below(field@, barrier_view(*outer)),
{
    if !field.field_type.is_struct() {
        Some(Barrier { is_struct: false, name: field.name.clone() })
    } else if !field.required {
        Some(Barrier { is_struct: true, name: field.name.clone() })
    } else {
        copy_barrier(outer)
    }
}

/// Appends the entry of one field.
fn push_entry(
    index: &mut Vec<NameEntry>,
    field: &Arc<NestedField>,
    full: &Option<String>,
    short: &Option<String>,
    barrier: &Option<Barrier>,
)
    ensures
        index_view(final(index)@) == index_view(old(index)@).push(
            entry_of(
                field@,
                opt_text(*full),
                opt_text(*short),
                barrier_view(*barrier),
            ),
        ),
{
    let entry = NameEntry {
        full: name_under(full, &field.name),
        short: name_under(short, &field.name),
        field: share(field),
        barrier: copy_barrier(barrier),
    };
    let ghost before = index@;
    index.push(entry);
    assert(index_view(index@) =~= index_view(before).push(entry@));
}

fn index_fields(
    fields: &Vec<Arc<NestedField>>,
    full: &Option<String>,
    short: &Option<String>,
    barrier: &Option<Barrier>,
    index: &mut Vec<NameEntry>,
)
    ensures
        index_view(final(index)@) == entries_of_fields(
            fields_view(fields@),
            0,
            opt_text(*full),
            opt_text(*short),
            barrier_view(*barrier),
            index_view(old(index)@),
        ),
    decreases fields,
{
    let ghost all = fields_view(fields@);
    let ghost full_view = opt_text(*full);
    let ghost short_view = opt_text(*short);
    let ghost outer = barrier_view(*barrier);
    let mut i: usize = 0;
    while i < fields.len()
        invariant
            i <= fields@.len(),
            all == fields_view(fields@),
            full_view == opt_text(*full),
            short_view == opt_text(*short),
            outer == barrier_view(*barrier),
            entries_of_fields(all, i as nat, full_view, short_view, outer, index_view(index@))
                == entries_of_fields(
                all,
                0,
                full_view,
                short_view,
                outer,
                index_view(old(index)@),
            ),
        decreases fields@.len() - i,
    {
        assert(decreases_to!(fields => fields@));
        assert(decreases_to!(fields@ => fields@[i as int]));
        let field = &fields[i];
        assert(all[i as int] == field@);
        let ghost before = index_view(index@);
        push_entry(index, field, full, short, barrier);
        index_type(
            &field.field_type,
            &name_under(full, &field.name),
            &name_under(short, &field.name),
            &barrier_beneath(field, barrier),
            index,
        );
        assert(index_view(index@) == entries_of_field(
            all[i as int],
            full_view,
            short_view,
            outer,
            before,
        ));
        i += 1;
    }
}

fn index_type(
    field_type: &Type,
    full: &String,
    short: &String,
    barrier: &Option<Barrier>,
    index: &mut Vec<NameEntry>,
)
    ensures
        index_view(final(index)@) == entries_of_type(
            field_type@,
            full@,
            short@,
            barrier_view(*barrier),
            index_view(old(index)@),
        ),
    decreases field_type,
{
    broadcast use lemma_struct_view;

    match field_type {
        Type::Primitive(_) | Type::Variant(_) => {},
        Type::Struct(s) => {
            assert(decreases_to!(field_type => s.fields));
            index_fields(&s.fields, &Some(full.clone()), &Some(short.clone()), barrier, index);
        },
        Type::List(l) => {
            let element = &l.element_field;
            push_entry(index, element, &Some(full.clone()), &Some(short.clone()), barrier);
            index_type(
                &element.field_type,
                &join_path(full.as_str(), element.name.as_str()),
                &short_name_below(element, short),
                &barrier_beneath(element, barrier),
                index,
            );
        },
        Type::MapOf(m) => {
            let key = &m.key_field;
            let value = &m.value_field;
            push_entry(index, key, &Some(full.clone()), &Some(short.clone()), barrier);
            push_entry(index, value, &Some(full.clone()), &Some(short.clone()), barrier);
            index_type(
                &key.field_type,
                &join_path(full.as_str(), key.name.as_str()),
                &join_path(short.as_str(), key.name.as_str()),
                &barrier_beneath(key, barrier),
                index,
            );
            index_type(
                &value.field_type,
                &join_path(full.as_str(), value.name.as_str()),
                &short_name_below(value, short),
                &barrier_beneath(value, barrier),
                index,
            );
        },
    }
}

fn short_name_below(field: &NestedField, short: &String) -> (result: String)
    ensures
        result@ == short_below(field@, short@),
{
    if field.field_type.is_struct() {
        short.clone()
    } else {
        join_path(short.as_str(), field.name.as_str())
    }
}

/// The first entry from `i` on whose full name is `name`.
pub open spec fn find_full(entries: Seq<EntryView>, name: Seq<char>, i: nat) -> Option<EntryView>
    decreases entries.len() - i,
{
    if i >= entries.len() {
        None
    } else if entries[i as int].full == name {
        Some(entries[i as int])
    } else {
        find_full(entries, name, i + 1)
    }
}

/// The first entry from `i` on whose short name is `name`.
pub open spec fn find_short(entries: Seq<EntryView>, name: Seq<char>, i: nat) -> Option<EntryView>
    decreases entries.len() - i,
{
    if i >= entries.len() {
        None
    } else if entries[i as int].short == name {
        Some(entries[i as int])
    } else {
        find_short(entries, name, i + 1)
    }
}

/// The first entry from `i` on whose field has the given ID.
pub open spec fn find_id(entries: Seq<EntryView>, id: i32, i: nat) -> Option<EntryView>
    decreases entries.len() - i,
{
    if i >= entries.len() {
        None
    } else if entries[i as int].field.id == id {
        Some(entries[i as int])
    } else {
        find_id(entries, id, i + 1)
    }
}

/// The entry that a name stands for: by full name, else by short name.
pub open spec fn find_name(entries: Seq<EntryView>, name: Seq<char>) -> Option<EntryView> {
    match find_full(entries, name, 0) {
        Some(entry) => Some(entry),
        None => find_short(entries, name, 0),
    }
}

/// The field of an optional entry.
pub open spec fn entry_field(entry: Option<EntryView>) -> Option<FieldView> {
    match entry {
        Some(e) => Some(e.field),
        None => None,
    }
}

/// The ID that `name` stands for, where it is the name of an entry.
pub open spec fn named_id(entries: Seq<EntryView>, name: Seq<char>) -> i32 {
    match find_name(entries, name) {
        Some(e) => e.field.id,
        None => 0,
    }
}

/// All names of the entries from `i` on in lower case, each with the ID that it stands for.
pub open spec fn lower_names(entries: Seq<EntryView>, i: nat, done: Seq<(Seq<char>, i32)>) -> Seq<
    (Seq<char>, i32),
>
    decreases entries.len() - i,
{
    if i >= entries.len() {
        done
    } else {
        let e = entries[i as int];
        lower_names(
            entries,
            i + 1,
            done.push((lower(e.full), named_id(entries, e.full))).push(
                (lower(e.short), named_id(entries, e.short)),
            ),
        )
    }
}

/// Whether an earlier name equals the one at `i` and stands for another ID.
pub open spec fn clashes(names: Seq<(Seq<char>, i32)>, i: int) -> bool {
    exists|j: int| 0 <= j < i && (#[trigger] names[j]).0 == names[i].0 && names[j].1 != names[i].1
}

/// The first name from `i` on that clashes with an earlier one.
pub open spec fn first_clash(names: Seq<(Seq<char>, i32)>, i: nat) -> Option<Seq<char>>
    decreases names.len() - i,
{
    if i >= names.len() {
        None
    } else if clashes(names, i as int) {
        Some(names[i as int].0)
    } else {
        first_clash(names, i + 1)
    }
}

/// The one ID that `name` stands for among the names from `i` on, with `found` the ID seen
/// before: nothing where the name does not occur or stands for several IDs.
pub open spec fn sole_match(
    names: Seq<(Seq<char>, i32)>,
    name: Seq<char>,
    i: nat,
    found: Option<i32>,
) -> Option<i32>
    decreases names.len() - i,
{
    if i >= names.len() {
        found
    } else if names[i as int].0 != name {
        sole_match(names, name, i + 1, found)
    } else if found matches Some(id) && id != names[i as int].1 {
        None
    } else {
        sole_match(names, name, i + 1, Some(names[i as int].1))
    }
}

/// The mathematical value of a [`Schema`].
pub struct SchemaView {
    pub schema_id: i32,
    pub fields: Seq<FieldView>,
    pub identifier_field_ids: Seq<i32>,
}

impl SchemaView {
    /// Whether a field is one of the schema, at the root or beneath.
    pub open spec fn has_field(self, field: FieldView) -> bool {
        exists|i: int| 0 <= i < self.entries().len() && (#[trigger] self.entries()[i]).field == field
    }

    /// The entries of all fields.
    pub open spec fn entries(self) -> Seq<EntryView> {
        schema_entries(self.fields)
    }

    /// The field that a name stands for.
    pub open spec fn by_name(self, name: Seq<char>) -> Option<FieldView> {
        entry_field(find_name(self.entries(), name))
    }

    /// The field with the given ID.
    pub open spec fn by_id(self, id: i32) -> Option<FieldView> {
        entry_field(find_id(self.entries(), id, 0))
    }

    /// The full name of the field with the given ID.
    pub open spec fn name_of(self, id: i32) -> Option<Seq<char>> {
        match find_id(self.entries(), id, 0) {
            Some(entry) => Some(entry.full),
            None => None,
        }
    }

    /// The ID of the field with the given full name.
    pub open spec fn full_id(self, name: Seq<char>) -> Option<i32> {
        match find_full(self.entries(), name, 0) {
            Some(entry) => if self.name_of(entry.field.id) == Some(name) {
                Some(entry.field.id)
            } else {
                None
            },
            None => None,
        }
    }

    /// The names of the schema in lower case.
    pub open spec fn lowered(self) -> Seq<(Seq<char>, i32)> {
        lower_names(self.entries(), 0, Seq::empty())
    }

    /// The field that a name stands for whatever its case, where that is a single one.
    pub open spec fn by_lower_name(self, name: Seq<char>) -> Option<FieldView> {
        match sole_match(self.lowered(), lower(name), 0, None) {
            Some(id) => self.by_id(id),
            None => None,
        }
    }

    /// A name in lower case that stands for several fields.
    pub open spec fn collision(self) -> Option<Seq<char>> {
        first_clash(self.lowered(), 0)
    }

    /// Whether two schemas have the same fields and the same identifier fields.
    pub open spec fn same_as(self, other: SchemaView) -> bool {
        self.fields == other.fields && same_ids(
            self.identifier_field_ids,
            other.identifier_field_ids,
        )
    }
}

/// Whether two lists hold the same IDs.
pub open spec fn same_ids(a: Seq<i32>, b: Seq<i32>) -> bool {
    forall|id: i32| #[trigger] a.contains(id) <==> b.contains(id)
}

/// The first full name from `i` on that an earlier entry has too.
pub open spec fn first_duplicate(entries: Seq<EntryView>, i: nat) -> Option<Seq<char>>
    decreases entries.len() - i,
{
    if i >= entries.len() {
        None
    } else if exists|j: int| 0 <= j < i && (#[trigger] entries[j]).full == entries[i as int].full {
        Some(entries[i as int].full)
    } else {
        first_duplicate(entries, i + 1)
    }
}

/// What is wrong with the field `id` as an identifier field, if anything.
pub open spec fn identifier_problem(entries: Seq<EntryView>, id: i32) -> Option<ErrorView> {
    match find_id(entries, id, 0) {
        None => Some(
            data_error(
                "Cannot add identifier field "@ + int_numeral(id as int)
                    + ": field does not exist"@,
            ),
        ),
        Some(entry) => if !entry.field.required {
            Some(
                data_error(
                    "Cannot add identifier field: "@ + entry.field.name + " is an optional field"@,
                ),
            )
        } else {
            match entry.field.field_type {
                TypeView::Primitive(PrimitiveType::Float)
                | TypeView::Primitive(PrimitiveType::Double) => Some(
                    data_error(
                        "Cannot add identifier field "@ + entry.field.name
                            + ": cannot be a float or double type"@,
                    ),
                ),
                TypeView::Primitive(_) => match entry.barrier {
                    None => None,
                    Some(barrier) => Some(
                        data_error(
                            "Cannot add field "@ + entry.field.name + (if barrier.is_struct {
                                " as an identifier field: must not be nested in an optional field "@
                            } else {
                                " as an identifier field: must not be nested in "@
                            }) + barrier.name,
                        ),
                    ),
                },
                _ => Some(
                    data_error(
                        "Cannot add field "@ + entry.field.name
                            + " as an identifier field: not a primitive type field"@,
                    ),
                ),
            }
        },
    }
}

/// The problem with the first unfit identifier field from `i` on.
pub open spec fn first_problem(entries: Seq<EntryView>, ids: Seq<i32>, i: nat) -> Option<ErrorView>
    decreases ids.len() - i,
{
    if i >= ids.len() {
        None
    } else {
        match identifier_problem(entries, ids[i as int]) {
            Some(error) => Some(error),
            None => first_problem(entries, ids, i + 1),
        }
    }
}

/// `done`, and after it those of `ids` from `i` on that are not there yet.
pub open spec fn distinct_ids(ids: Seq<i32>, i: nat, done: Seq<i32>) -> Seq<i32>
    decreases ids.len() - i,
{
    if i >= ids.len() {
        done
    } else if done.contains(ids[i as int]) {
        distinct_ids(ids, i + 1, done)
    } else {
        distinct_ids(ids, i + 1, done.push(ids[i as int]))
    }
}

/// The schema with the given parts, or what is wrong with them.
pub open spec fn checked_schema(parts: SchemaView) -> core::result::Result<SchemaView, ErrorView> {
    let entries = schema_entries(parts.fields);
    match first_duplicate(entries, 0) {
        Some(name) => Err(data_error("Invalid schema: multiple fields for name "@ + name)),
        None => match first_problem(entries, parts.identifier_field_ids, 0) {
            Some(error) => Err(error),
            None => Ok(parts),
        },
    }
}

/// A table schema: a list of fields with distinct full names, of which some may be identifier
/// fields.
#[derive(Debug, PartialEq, Eq)]
pub struct Schema {
    schema_id: i32,
    fields: StructType,
    identifier_field_ids: Vec<i32>,
    index: Vec<NameEntry>,
}

impl View for Schema {
    type V = SchemaView;

    closed spec fn view(&self) -> SchemaView {
        SchemaView {
            schema_id: self.schema_id,
            fields: self.fields@,
            identifier_field_ids: self.identifier_field_ids@,
        }
    }
}

/// The parts of a schema that is being built.
#[derive(Debug)]
pub struct SchemaBuilder {
    schema_id: i32,
    fields: Vec<Arc<NestedField>>,
    identifier_field_ids: Vec<i32>,
}

impl View for SchemaBuilder {
    type V = SchemaView;

    closed spec fn view(&self) -> SchemaView {
        SchemaView {
            schema_id: self.schema_id,
            fields: fields_view(self.fields@),
            identifier_field_ids: self.identifier_field_ids@,
        }
    }
}

/// Whether `id` is one of `ids`.
pub(crate) fn contains_id(ids: &Vec<i32>, id: i32) -> (found: bool)
    ensures
        found == ids@.contains(id),
{
    let mut i: usize = 0;
    while i < ids.len()
        invariant
            i <= ids@.len(),
            forall|j: int| 0 <= j < i ==> ids@[j] != id,
        decreases ids@.len() - i,
    {
        if ids[i] == id {
            return true;
        }
        i += 1;
    }
    false
}

/// Whether every one of `a` is one of `b`.
fn ids_within(a: &Vec<i32>, b: &Vec<i32>) -> (within: bool)
    ensures
        within == (forall|id: i32| #[trigger] a@.contains(id) ==> b@.contains(id)),
{
    let mut i: usize = 0;
    while i < a.len()
        invariant
            i <= a@.len(),
            forall|j: int| 0 <= j < i ==> b@.contains(#[trigger] a@[j]),
        decreases a@.len() - i,
    {
        if !contains_id(b, a[i]) {
            assert(a@.contains(a@[i as int]));
            return false;
        }
        i += 1;
    }
    true
}

impl SchemaBuilder {
    /// Appends fields.
    pub fn with_fields(self, fields: Vec<Arc<NestedField>>) -> (builder: SchemaBuilder)
        ensures
            builder@ == (SchemaView { fields: self@.fields + fields_view(fields@), ..self@ }),
    {
        let mut all = self.fields;
        let mut i: usize = 0;
        while i < fields.len()
            invariant
                i <= fields@.len(),
                all@ == self.fields@ + fields@.take(i as int),
            decreases fields@.len() - i,
        {
            all.push(share(&fields[i]));
            i += 1;
            assert(fields@.take(i as int) =~= fields@.take(i - 1).push(fields@[i - 1]));
        }
        assert(fields@.take(i as int) =~= fields@);
        assert(fields_view(all@) =~= fields_view(self.fields@) + fields_view(fields@));
        SchemaBuilder { fields: all, ..self }
    }

    /// Replaces the schema ID.
    pub fn with_schema_id(self, schema_id: i32) -> (builder: SchemaBuilder)
        ensures
            builder@ == (SchemaView { schema_id, ..self@ }),
    {
        SchemaBuilder { schema_id, ..self }
    }

    /// Adds identifier fields; a repeated ID counts once.
    pub fn with_identifier_field_ids(self, ids: Vec<i32>) -> (builder: SchemaBuilder)
        ensures
            builder@ == (SchemaView {
                identifier_field_ids: distinct_ids(ids@, 0, self@.identifier_field_ids),
                ..self@
            }),
    {
        let mut all = self.identifier_field_ids;
        let mut i: usize = 0;
        while i < ids.len()
            invariant
                i <= ids@.len(),
                distinct_ids(ids@, i as nat, all@) == distinct_ids(
                    ids@,
                    0,
                    self.identifier_field_ids@,
                ),
            decreases ids@.len() - i,
        {
            if !contains_id(&all, ids[i]) {
                all.push(ids[i]);
            }
            i += 1;
        }
        SchemaBuilder { identifier_field_ids: all, ..self }
    }

    /// Checks the parts and makes them a schema.
    ///
    /// No two fields may have the same full name. An identifier field must exist, be required and
    /// of a primitive type other than float and double, and be nested in required structs only.
    pub fn build(self) -> (result: Result<Schema, Error>)
        ensures
            outcome(result) == checked_schema(self@),
    {
        let mut index: Vec<NameEntry> = Vec::new();
        assert(index_view(index@) =~= Seq::empty());
        index_fields(&self.fields, &None, &None, &None, &mut index);
        let ghost entries = index_view(index@);
        let mut i: usize = 0;
        while i < index.len()
            invariant
                i <= index@.len(),
                entries == index_view(index@),
                entries == schema_entries(self@.fields),
                first_duplicate(entries, i as nat) == first_duplicate(entries, 0),
            decreases index@.len() - i,
        {
            let mut j: usize = 0;
            while j < i
                invariant
                    j <= i < index@.len(),
                    entries == index_view(index@),
                    entries == schema_entries(self@.fields),
                    first_duplicate(entries, i as nat) == first_duplicate(entries, 0),
                    forall|k: int|
                        0 <= k < j ==> (#[trigger] entries[k]).full != entries[i as int].full,
                decreases i - j,
            {
                if index[j].full == index[i].full {
                    assert(entries[j as int].full == entries[i as int].full);
                    let message = cat2(
                        "Invalid schema: multiple fields for name ",
                        index[i].full.as_str(),
                    );
                    return Err(data_invalid(message.as_str()));
                }
                j += 1;
            }
            i += 1;
        }
        let mut k: usize = 0;
        while k < self.identifier_field_ids.len()
            invariant
                k <= self.identifier_field_ids@.len(),
                entries == index_view(index@),
                entries == schema_entries(self@.fields),
                first_duplicate(entries, 0) is None,
                first_problem(entries, self.identifier_field_ids@, k as nat) == first_problem(
                    entries,
                    self.identifier_field_ids@,
                    0,
                ),
            decreases self.identifier_field_ids@.len() - k,
        {
            if let Some(error) = check_identifier(&index, self.identifier_field_ids[k]) {
                return Err(error);
            }
            k += 1;
        }
        Ok(
            Schema {
                schema_id: self.schema_id,
                fields: StructType::new(self.fields),
                identifier_field_ids: self.identifier_field_ids,
                index,
            },
        )
    }
}

/// What is wrong with the field `id` as an identifier field, if anything.
fn check_identifier(index: &Vec<NameEntry>, id: i32) -> (problem: Option<Error>)
    ensures
        opt_error(problem) == identifier_problem(index_view(index@), id),
{
    let entry = match position_of_id(index, id) {
        Some(at) => &index[at],
        None => {
            let message = cat3(
                "Cannot add identifier field ",
                int_to_text(id as i64).as_str(),
                ": field does not exist",
            );
            return Some(data_invalid(message.as_str()));
        },
    };
    let name = entry.field.name.as_str();
    if !entry.field.required {
        let message = cat3("Cannot add identifier field: ", name, " is an optional field");
        return Some(data_invalid(message.as_str()));
    }
    match &*entry.field.field_type {
        Type::Primitive(PrimitiveType::Float) | Type::Primitive(PrimitiveType::Double) => {
            let message = cat3(
                "Cannot add identifier field ",
                name,
                ": cannot be a float or double type",
            );
            Some(data_invalid(message.as_str()))
        },
        Type::Primitive(_) => match &entry.barrier {
            None => None,
            Some(barrier) => {
                let nesting = if barrier.is_struct {
                    " as an identifier field: must not be nested in an optional field "
                } else {
                    " as an identifier field: must not be nested in "
                };
                let message = cat4("Cannot add field ", name, nesting, barrier.name.as_str());
                Some(data_invalid(message.as_str()))
            },
        },
        _ => {
            let message = cat3(
                "Cannot add field ",
                name,
                " as an identifier field: not a primitive type field",
            );
            Some(data_invalid(message.as_str()))
        },
    }
}

/// The position of the first entry with the given ID.
fn position_of_id(index: &Vec<NameEntry>, id: i32) -> (position: Option<usize>)
    ensures
        match position {
            Some(at) => at < index@.len() && find_id(index_view(index@), id, 0) == Some(
                index@[at as int]@,
            ),
            None => find_id(index_view(index@), id, 0) is None,
        },
{
    let ghost entries = index_view(index@);
    let mut i: usize = 0;
    while i < index.len()
        invariant
            i <= index@.len(),
            entries == index_view(index@),
            find_id(entries, id, i as nat) == find_id(entries, id, 0),
        decreases index@.len() - i,
    {
        if index[i].field.id == id {
            assert(entries[i as int] == index@[i as int]@);
            return Some(i);
        }
        i += 1;
    }
    None
}

/// The position of the entry that a name stands for.
fn position_of_name(index: &Vec<NameEntry>, name: &str) -> (position: Option<usize>)
    ensures
        match position {
            Some(at) => at < index@.len() && find_name(index_view(index@), name@) == Some(
                index@[at as int]@,
            ),
            None => find_name(index_view(index@), name@) is None,
        },
{
    let ghost entries = index_view(index@);
    let mut i: usize = 0;
    while i < index.len()
        invariant
            i <= index@.len(),
            entries == index_view(index@),
            find_full(entries, name@, i as nat) == find_full(entries, name@, 0),
        decreases index@.len() - i,
    {
        if text_eq(index[i].full.as_str(), name) {
            assert(entries[i as int] == index@[i as int]@);
            return Some(i);
        }
        i += 1;
    }
    i = 0;
    while i < index.len()
        invariant
            i <= index@.len(),
            entries == index_view(index@),
            find_full(entries, name@, 0) is None,
            find_short(entries, name@, i as nat) == find_short(entries, name@, 0),
        decreases index@.len() - i,
    {
        if text_eq(index[i].short.as_str(), name) {
            assert(entries[i as int] == index@[i as int]@);
            return Some(i);
        }
        i += 1;
    }
    None
}

/// The views of a list of names with their IDs.
pub open spec fn named_ids(names: Seq<(String, i32)>) -> Seq<(Seq<char>, i32)> {
    names.map_values(|entry: (String, i32)| (entry.0@, entry.1))
}

/// Appends a name with its ID.
pub(crate) fn named_ids_push(names: &mut Vec<(String, i32)>, name: &str, id: i32)
    ensures
        named_ids(final(names)@) == named_ids(old(names)@).push((name@, id)),
{
    names.push((name.to_owned(), id));
    assert(named_ids(names@) =~= named_ids(old(names)@).push((name@, id)));
}

/// The ID that `name` stands for, where it is the name of an entry.
fn id_of_name(index: &Vec<NameEntry>, name: &str) -> (id: i32)
    ensures
        id == named_id(index_view(index@), name@),
{
    match position_of_name(index, name) {
        Some(at) => index[at].field.id,
        None => 0,
    }
}

/// All names in lower case, each with the ID that it stands for.
fn lowered_names(index: &Vec<NameEntry>) -> (names: Vec<(String, i32)>)
    ensures
        named_ids(names@) == lower_names(index_view(index@), 0, Seq::empty()),
{
    let ghost entries = index_view(index@);
    let mut names: Vec<(String, i32)> = Vec::new();
    let mut i: usize = 0;
    assert(named_ids(names@) =~= Seq::empty());
    while i < index.len()
        invariant
            i <= index@.len(),
            entries == index_view(index@),
            lower_names(entries, i as nat, named_ids(names@)) == lower_names(
                entries,
                0,
                Seq::empty(),
            ),
        decreases index@.len() - i,
    {
        let entry = &index[i];
        assert(entries[i as int] == entry@);
        let ghost before = named_ids(names@);
        let full = entry.full.as_str();
        let short = entry.short.as_str();
        names.push((to_lower(full), id_of_name(index, full)));
        names.push((to_lower(short), id_of_name(index, short)));
        assert(named_ids(names@) =~= before.push(
            (lower(full@), named_id(entries, full@)),
        ).push((lower(short@), named_id(entries, short@))));
        i += 1;
    }
    names
}

impl Schema {
    #[verifier::type_invariant]
    spec fn indexed(self) -> bool {
        index_view(self.index@) == schema_entries(self.fields@)
    }

    /// A builder for a schema without fields, under the schema ID 0.
    pub fn builder() -> (builder: SchemaBuilder)
        ensures
            builder@ == (SchemaView {
                schema_id: 0,
                fields: Seq::empty(),
                identifier_field_ids: Seq::empty(),
            }),
    {
        let builder = SchemaBuilder {
            schema_id: 0,
            fields: Vec::new(),
            identifier_field_ids: Vec::new(),
        };
        assert(builder@.fields =~= Seq::empty());
        builder
    }

    /// A builder that starts from this schema.
    pub fn into_builder(self) -> (builder: SchemaBuilder)
        ensures
            builder@ == self@,
    {
        SchemaBuilder {
            schema_id: self.schema_id,
            fields: share_all(&self.fields.fields),
            identifier_field_ids: copy_ids(&self.identifier_field_ids),
        }
    }

    /// The schema ID.
    pub fn schema_id(&self) -> (id: i32)
        ensures
            id == self@.schema_id,
    {
        self.schema_id
    }

    /// The fields, as a struct type.
    pub fn as_struct(&self) -> (fields: &StructType)
        ensures
            fields@ == self@.fields,
    {
        &self.fields
    }

    /// The IDs of the identifier fields.
    pub fn identifier_field_ids(&self) -> (ids: &Vec<i32>)
        ensures
            ids@ == self@.identifier_field_ids,
    {
        &self.identifier_field_ids
    }

    /// The field that `name` stands for: by its full name, else by its short name.
    pub fn field_by_name(&self, name: &str) -> (field: Option<&Arc<NestedField>>)
        ensures
            opt_field(field) == self@.by_name(name@),
    {
        proof {
            use_type_invariant(self);
        }
        match position_of_name(&self.index, name) {
            Some(at) => Some(&self.index[at].field),
            None => None,
        }
    }

    /// The field that `name` stands for whatever its case; nothing where several fields match.
    pub fn field_by_name_case_insensitive(&self, name: &str) -> (field: Option<&Arc<NestedField>>)
        ensures
            opt_field(field) == self@.by_lower_name(name@),
    {
        proof {
            use_type_invariant(self);
        }
        let lowered = to_lower(name);
        let names = lowered_names(&self.index);
        let ghost view = named_ids(names@);
        let mut found: Option<i32> = None;
        let mut i: usize = 0;
        while i < names.len()
            invariant
                i <= names@.len(),
                view == named_ids(names@),
                view == self@.lowered(),
                lowered@ == lower(name@),
                sole_match(view, lowered@, i as nat, found) == sole_match(view, lowered@, 0, None),
            decreases names@.len() - i,
        {
            if names[i].0 == lowered {
                match found {
                    Some(id) => {
                        if id != names[i].1 {
                            return None;
                        }
                    },
                    None => {},
                }
                found = Some(names[i].1);
            }
            i += 1;
        }
        match found {
            Some(id) => self.field_by_id(id),
            None => None,
        }
    }

    /// The field with the given ID.
    pub fn field_by_id(&self, id: i32) -> (field: Option<&Arc<NestedField>>)
        ensures
            opt_field(field) == self@.by_id(id),
    {
        proof {
            use_type_invariant(self);
        }
        match position_of_id(&self.index, id) {
            Some(at) => Some(&self.index[at].field),
            None => None,
        }
    }

    /// The full name of the field with the given ID.
    pub fn name_by_field_id(&self, id: i32) -> (name: Option<&str>)
        ensures
            match name {
                Some(n) => self@.name_of(id) == Some(n@),
                None => self@.name_of(id) is None,
            },
    {
        proof {
            use_type_invariant(self);
        }
        match position_of_id(&self.index, id) {
            Some(at) => Some(self.index[at].full.as_str()),
            None => None,
        }
    }

    /// The ID of the field with the given full name.
    pub fn id_by_full_name(&self, name: &str) -> (id: Option<i32>)
        ensures
            id == self@.full_id(name@),
    {
        proof {
            use_type_invariant(self);
        }
        let ghost entries = self@.entries();
        let mut i: usize = 0;
        while i < self.index.len()
            invariant
                i <= self.index@.len(),
                entries == index_view(self.index@),
                entries == self@.entries(),
                find_full(entries, name@, i as nat) == find_full(entries, name@, 0),
            decreases self.index@.len() - i,
        {
            if text_eq(self.index[i].full.as_str(), name) {
                assert(entries[i as int] == self.index@[i as int]@);
                let id: i32 = self.index[i].field.id;
                return match self.name_by_field_id(id) {
                    Some(own) => if text_eq(own, name) {
                        Some(id)
                    } else {
                        None
                    },
                    None => None,
                };
            }
            i += 1;
        }
        None
    }

    /// A name in lower case that stands for several fields, if there is one.
    pub fn case_insensitive_name_collision(&self) -> (name: Option<String>)
        ensures
            opt_text(name) == self@.collision(),
    {
        proof {
            use_type_invariant(self);
        }
        let names = lowered_names(&self.index);
        let ghost view = named_ids(names@);
        let mut i: usize = 0;
        while i < names.len()
            invariant
                i <= names@.len(),
                view == named_ids(names@),
                view == self@.lowered(),
                first_clash(view, i as nat) == first_clash(view, 0),
            decreases names@.len() - i,
        {
            let mut j: usize = 0;
            while j < i
                invariant
                    j <= i < names@.len(),
                    view == named_ids(names@),
                    view == self@.lowered(),
                    first_clash(view, i as nat) == first_clash(view, 0),
                    forall|k: int|
                        0 <= k < j ==> !((#[trigger] view[k]).0 == view[i as int].0 && view[k].1
                            != view[i as int].1),
                decreases i - j,
            {
                if names[j].0 == names[i].0 && names[j].1 != names[i].1 {
                    assert(view[j as int].0 == view[i as int].0);
                    assert(clashes(view, i as int));
                    return Some(names[i].0.clone());
                }
                j += 1;
            }
            i += 1;
        }
        None
    }

    /// Whether two schemas have the same fields and the same identifier fields, whatever their
    /// schema IDs.
    pub fn is_same_schema(&self, other: &Schema) -> (same: bool)
        ensures
            same == self@.same_as(other@),
    {
        fields_same(&self.fields.fields, &other.fields.fields) && ids_within(
            &self.identifier_field_ids,
            &other.identifier_field_ids,
        ) && ids_within(&other.identifier_field_ids, &self.identifier_field_ids)
    }
}

impl Clone for Schema {
    fn clone(&self) -> (copy: Schema)
        ensures
            copy@ == self@,
    {
        let fields = share_all(&self.fields.fields);
        let mut index: Vec<NameEntry> = Vec::new();
        assert(index_view(index@) =~= Seq::empty());
        index_fields(&fields, &None, &None, &None, &mut index);
        Schema {
            schema_id: self.schema_id,
            fields: StructType::new(fields),
            identifier_field_ids: copy_ids(&self.identifier_field_ids),
            index,
        }
    }
}

/// An optional field by its view.
pub open spec fn opt_field(field: Option<&Arc<NestedField>>) -> Option<FieldView> {
    match field {
        Some(f) => Some(field_view(**f)),
        None => None,
    }
}

/// A copy of a list of IDs.
pub(crate) fn copy_ids(ids: &Vec<i32>) -> (copy: Vec<i32>)
    ensures
        copy@ == ids@,
{
    let mut copy: Vec<i32> = Vec::new();
    let mut i: usize = 0;
    while i < ids.len()
        invariant
            i <= ids@.len(),
            copy@ == ids@.take(i as int),
        decreases ids@.len() - i,
    {
        copy.push(ids[i]);
        i += 1;
        assert(ids@.take(i as int) =~= ids@.take(i - 1).push(ids@[i - 1]));
    }
    assert(ids@.take(i as int) =~= ids@);
    copy
}

pub proof fn lemma_find_full(entries: Seq<EntryView>, name: Seq<char>, i: nat)
    ensures
        match find_full(entries, name, i) {
            Some(entry) => exists|j: int|
                i <= j < entries.len() && #[trigger] entries[j] == entry && entry.full == name,
            None => forall|j: int| i <= j < entries.len() ==> (#[trigger] entries[j]).full != name,
        },
    decreases entries.len() - i,
{
    if i < entries.len() && entries[i as int].full != name {
        lemma_find_full(entries, name, i + 1);
    }
}

proof fn lemma_find_id(entries: Seq<EntryView>, id: i32, i: nat)
    ensures
        match find_id(entries, id, i) {
            Some(entry) => exists|j: int|
                i <= j < entries.len() && #[trigger] entries[j] == entry && entry.field.id == id,
            None => forall|j: int|
                i <= j < entries.len() ==> (#[trigger] entries[j]).field.id != id,
        },
    decreases entries.len() - i,
{
    if i < entries.len() && entries[i as int].field.id != id {
        lemma_find_id(entries, id, i + 1);
    }
}

proof fn lemma_find_short(entries: Seq<EntryView>, name: Seq<char>, i: nat)
    ensures
        match find_short(entries, name, i) {
            Some(entry) => exists|j: int|
                i <= j < entries.len() && #[trigger] entries[j] == entry && entry.short == name,
            None => forall|j: int| i <= j < entries.len() ==> (#[trigger] entries[j]).short != name,
        },
    decreases entries.len() - i,
{
    if i < entries.len() && entries[i as int].short != name {
        lemma_find_short(entries, name, i + 1);
    }
}

/// What a lookup by ID finds is a field of the schema with that ID.
pub proof fn lemma_by_id(schema: SchemaView, id: i32)
    ensures
        schema.by_id(id) matches Some(field) ==> schema.has_field(field) && field.id == id,
{
    lemma_find_id(schema.entries(), id, 0);
}

/// A field of a schema has a full name.
pub proof fn lemma_fields_have_names(schema: SchemaView, field: FieldView)
    requires
        schema.has_field(field),
    ensures
        schema.name_of(field.id) is Some,
{
    let i = choose|i: int|
        0 <= i < schema.entries().len() && (#[trigger] schema.entries()[i]).field == field;
    lemma_find_id(schema.entries(), field.id, 0);
    assert(schema.entries()[i].field.id == field.id);
}

/// What a lookup by name finds is a field of the schema.
pub proof fn lemma_by_name(schema: SchemaView, name: Seq<char>)
    ensures
        schema.by_name(name) matches Some(field) ==> schema.has_field(field),
        schema.by_lower_name(name) matches Some(field) ==> schema.has_field(field),
{
    lemma_find_full(schema.entries(), name, 0);
    lemma_find_short(schema.entries(), name, 0);
    if let Some(id) = sole_match(schema.lowered(), lower(name), 0, None) {
        lemma_by_id(schema, id);
    }
}

/// Without a first repetition from `i` on, no full name from there on occurs before.
pub proof fn lemma_no_duplicates(entries: Seq<EntryView>, i: nat)
    requires
        first_duplicate(entries, i) is None,
    ensures
        forall|j: int, k: int|
            0 <= j < k < entries.len() && i <= k ==> (#[trigger] entries[j]).full != (
            #[trigger] entries[k]).full,
    decreases entries.len() - i,
{
    if i < entries.len() {
        lemma_no_duplicates(entries, i + 1);
    }
}

/// In a schema that was built, a full name and the ID that it belongs to determine each other.
pub proof fn law_full_names_identify_fields(schema: SchemaView, name: Seq<char>, id: i32)
    requires
        checked_schema(schema) is Ok,
    ensures
        schema.name_of(id) == Some(name) <==> schema.full_id(name) == Some(id),
{
    let entries = schema.entries();
    lemma_no_duplicates(entries, 0);
    lemma_find_id(entries, id, 0);
    lemma_find_full(entries, name, 0);
    if schema.name_of(id) == Some(name) {
        let entry = find_id(entries, id, 0)->0;
        let j = choose|j: int| 0 <= j < entries.len() && #[trigger] entries[j] == entry;
        assert(entries[j].full == name);
        assert(find_full(entries, name, 0) is Some);
        let other = find_full(entries, name, 0)->0;
        let k = choose|k: int| 0 <= k < entries.len() && #[trigger] entries[k] == other;
        assert(j == k);
    }
}

/// A field can identify rows exactly where the schema has it, it is required and of a primitive type
/// other than `float` and `double`, and every field that encloses it is a required struct.
pub proof fn law_identifier_fields_fit(
    schema: SchemaView,
    id: i32,
    field: FieldView,
    outer: Option<BarrierView>,
)
    ensures
        identifier_problem(schema.entries(), id) is None <==> {
            &&& find_id(schema.entries(), id, 0) matches Some(entry)
            &&& entry.field.required
            &&& entry.field.field_type is Primitive
            &&& entry.field.field_type != TypeView::Primitive(PrimitiveType::Float)
            &&& entry.field.field_type != TypeView::Primitive(PrimitiveType::Double)
            &&& entry.barrier is None
        },
        barrier_below(field, outer) is None <==> field.field_type is Struct && field.required
            && outer is None,
{
}

/// What is looked up by an ID is the field of the schema with that ID, where there is one.
pub proof fn law_ids_are_looked_up(schema: SchemaView, id: i32, i: int)
    ensures
        schema.by_id(id) matches Some(field) ==> schema.has_field(field) && field.id == id,
        0 <= i < schema.entries().len() && schema.entries()[i].field.id == id ==> schema.by_id(
            id,
        ) is Some && schema.name_of(id) is Some,
        schema.name_of(id) matches Some(name) ==> exists|j: int|
            0 <= j < schema.entries().len() && (#[trigger] schema.entries()[j]).full == name
                && schema.entries()[j].field.id == id,
{
    lemma_find_id(schema.entries(), id, 0);
    if 0 <= i < schema.entries().len() && schema.entries()[i].field.id == id {
        assert(schema.entries()[i].field.id == id);
    }
}

/// A name stands for the field with that full name, where there is one, else for a field with that
/// short name, and for no field where no field has it.
pub proof fn law_names_are_looked_up(schema: SchemaView, name: Seq<char>, i: int)
    ensures
        schema.by_name(name) matches Some(field) ==> exists|j: int|
            0 <= j < schema.entries().len() && (#[trigger] schema.entries()[j]).field == field && (
            schema.entries()[j].full == name || schema.entries()[j].short == name),
        0 <= i < schema.entries().len() && schema.entries()[i].full == name ==> {
            &&& schema.by_name(name) is Some
            &&& exists|j: int|
                0 <= j <= i && (#[trigger] schema.entries()[j]).full == name
                    && schema.entries()[j].field == schema.by_name(name)->0
        },
        0 <= i < schema.entries().len() && schema.entries()[i].short == name ==> schema.by_name(
            name,
        ) is Some,
{
    let entries = schema.entries();
    lemma_find_full(entries, name, 0);
    lemma_find_short(entries, name, 0);
    if 0 <= i < entries.len() && entries[i].full == name {
        lemma_find_full_first(entries, name, 0, i as nat);
    }
}

proof fn lemma_find_full_first(entries: Seq<EntryView>, name: Seq<char>, from: nat, i: nat)
    requires
        from <= i < entries.len(),
        entries[i as int].full == name,
    ensures
        find_full(entries, name, from) is Some,
        exists|j: int|
            from <= j <= i && (#[trigger] entries[j]).full == name && find_full(
                entries,
                name,
                from,
            ) == Some(entries[j]),
    decreases i - from,
{
    if entries[from as int].full != name {
        lemma_find_full_first(entries, name, from + 1, i);
    }
}

} // verus!
