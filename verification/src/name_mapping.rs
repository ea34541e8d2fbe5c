//! Name mappings: the names that fields go by outside of the table, kept up to date.

use vstd::prelude::*;

use crate::action::deduplicate_names;
#[allow(unused_imports)]
use crate::action::distinct_names;
use crate::changes::Changes;
#[allow(unused_imports)]
use crate::changes::ChangesView;
use crate::moves::same_parent;
use crate::names::NameMap;
use crate::schema::contains_id;
use crate::text::{cat2, cat3, contains_text, int_to_text, join_path};
#[allow(unused_imports)]
use crate::text::{dotted, int_numeral, texts};
use crate::types::{NestedField, Type};
#[allow(unused_imports)]
use crate::types::{fields_view, lemma_struct_view, FieldView, TypeView};
#[allow(unused_imports)]
use crate::tree::well_keyed;

verus! {

/// The names of one field, with those of the fields beneath it.
#[derive(Debug)]
pub struct MappedField {
    pub field_id: Option<i32>,
    pub names: Vec<String>,
    pub fields: Vec<MappedField>,
}

/// The mathematical value of a [`MappedField`].
pub struct MappedView {
    pub field_id: Option<i32>,
    pub names: Seq<Seq<char>>,
    pub fields: Seq<MappedView>,
}

/// The value of a mapped field, all the way down.
pub open spec fn mapped_view(field: MappedField) -> MappedView
    decreases field,
{
    MappedView {
        field_id: field.field_id,
        names: texts(field.names@),
        fields: Seq::new(
            field.fields@.len(),
            |i: int|
                if 0 <= i < field.fields@.len() {
                    mapped_view(field.fields@[i])
                } else {
                    arbitrary()
                },
        ),
    }
}

impl View for MappedField {
    type V = MappedView;

    open spec fn view(&self) -> MappedView {
        mapped_view(*self)
    }
}

/// The values of a list of mapped fields.
pub open spec fn mapping_view(fields: Seq<MappedField>) -> Seq<MappedView> {
    fields.map_values(|field: MappedField| mapped_view(field))
}

/// The value of a mapped field is made of the values of those beneath it.
pub proof fn lemma_mapped_view(field: MappedField)
    ensures
        field@ == (MappedView {
            field_id: field.field_id,
            names: texts(field.names@),
            fields: mapping_view(field.fields@),
        }),
{
    assert(field@.fields =~= mapping_view(field.fields@));
}

/// A step that fails with a message.
pub type MappingResult<T> = core::result::Result<T, Seq<char>>;

/// A list of mapped fields as the result of a fallible step.
pub open spec fn mapping_outcome(result: Result<Vec<MappedField>, String>) -> MappingResult<
    Seq<MappedView>,
> {
    match result {
        Ok(fields) => Ok(mapping_view(fields@)),
        Err(message) => Err(message@),
    }
}

/// A mapped field as the result of a fallible step.
pub open spec fn mapped_outcome(result: Result<MappedField, String>) -> MappingResult<MappedView> {
    match result {
        Ok(field) => Ok(field@),
        Err(message) => Err(message@),
    }
}

/// Copies mapped fields.
fn copy_mapping(fields: &Vec<MappedField>) -> (copy: Vec<MappedField>)
    ensures
        mapping_view(copy@) == mapping_view(fields@),
    decreases fields,
{
    let mut copy: Vec<MappedField> = Vec::new();
    let mut i: usize = 0;
    while i < fields.len()
        invariant
            i <= fields@.len(),
            copy@.len() == i,
            forall|j: int| 0 <= j < i ==> (#[trigger] copy@[j])@ == fields@[j]@,
        decreases fields@.len() - i,
    {
        assert(decreases_to!(fields => fields@));
        assert(decreases_to!(fields@ => fields@[i as int]));
        let field = &fields[i];
        let copied = MappedField {
            field_id: field.field_id,
            names: copy_names(&field.names),
            fields: copy_mapping(&field.fields),
        };
        proof {
            lemma_mapped_view(*field);
            lemma_mapped_view(copied);
        }
        copy.push(copied);
        i += 1;
    }
    assert(mapping_view(copy@) =~= mapping_view(fields@));
    copy
}

/// Copies a list of names.
fn copy_names(names: &Vec<String>) -> (copy: Vec<String>)
    ensures
        texts(copy@) == texts(names@),
{
    let mut copy: Vec<String> = Vec::new();
    let mut i: usize = 0;
    while i < names.len()
        invariant
            i <= names@.len(),
            copy@.len() == i,
            forall|j: int| 0 <= j < i ==> (#[trigger] copy@[j])@ == names@[j]@,
        decreases names@.len() - i,
    {
        copy.push(names[i].clone());
        i += 1;
    }
    assert(texts(copy@) =~= texts(names@));
    copy
}

/// Whether two lists of names are the same.
fn names_same(a: &Vec<String>, b: &Vec<String>) -> (same: bool)
    ensures
        same == (texts(a@) == texts(b@)),
{
    if a.len() != b.len() {
        assert(texts(a@).len() != texts(b@).len());
        return false;
    }
    let mut i: usize = 0;
    while i < a.len()
        invariant
            i <= a@.len(),
            a@.len() == b@.len(),
            forall|j: int| 0 <= j < i ==> (#[trigger] a@[j])@ == b@[j]@,
        decreases a@.len() - i,
    {
        if a[i] != b[i] {
            assert(texts(a@)[i as int] != texts(b@)[i as int]);
            return false;
        }
        i += 1;
    }
    assert(texts(a@) =~= texts(b@));
    true
}

/// Whether two mappings are the same.
pub fn mapping_same(a: &Vec<MappedField>, b: &Vec<MappedField>) -> (same: bool)
    ensures
        same == (mapping_view(a@) == mapping_view(b@)),
    decreases a,
{
    if a.len() != b.len() {
        assert(mapping_view(a@).len() != mapping_view(b@).len());
        return false;
    }
    let mut i: usize = 0;
    while i < a.len()
        invariant
            i <= a@.len(),
            a@.len() == b@.len(),
            forall|j: int| 0 <= j < i ==> (#[trigger] a@[j])@ == b@[j]@,
        decreases a@.len() - i,
    {
        assert(decreases_to!(a => a@));
        assert(decreases_to!(a@ => a@[i as int]));
        proof {
            lemma_mapped_view(a@[i as int]);
            lemma_mapped_view(b@[i as int]);
        }
        if !same_parent(a[i].field_id, b[i].field_id) || !names_same(&a[i].names, &b[i].names)
            || !mapping_same(&a[i].fields, &b[i].fields) {
            assert(mapping_view(a@)[i as int] != mapping_view(b@)[i as int]);
            return false;
        }
        i += 1;
    }
    assert(mapping_view(a@) =~= mapping_view(b@));
    true
}

/// The mapped field of a field: its name, and those of the fields beneath it.
pub open spec fn mapped_of_field(field: FieldView) -> MappedView
    decreases field, 0nat,
{
    MappedView {
        field_id: Some(field.id),
        names: seq![field.name],
        fields: mapped_of_type(field.field_type),
    }
}

/// The mapped fields of the fields from `i` on, after those in `done`.
pub open spec fn mapped_of_fields(fields: Seq<FieldView>, i: nat, done: Seq<MappedView>) -> Seq<
    MappedView,
>
    decreases fields, fields.len() - i,
{
    if i >= fields.len() {
        done
    } else {
        mapped_of_fields(fields, i + 1, done.push(mapped_of_field(fields[i as int])))
    }
}

/// The mapped fields of what lies within a type.
pub open spec fn mapped_of_type(t: TypeView) -> Seq<MappedView>
    decreases t, 0nat,
{
    match t {
        TypeView::Primitive(_) | TypeView::Variant => Seq::empty(),
        TypeView::Struct(fields) => mapped_of_fields(fields, 0, Seq::empty()),
        TypeView::List(element) => seq![mapped_of_field(*element)],
        TypeView::MapOf(key, value) => seq![mapped_of_field(*key), mapped_of_field(*value)],
    }
}

/// The mapped field of a field.
fn mapped_field_from_nested(field: &NestedField) -> (mapped: MappedField)
    ensures
        mapped@ == mapped_of_field(field@),
    decreases field,
{
    let mut names: Vec<String> = Vec::new();
    names.push(field.name.clone());
    assert(texts(names@) =~= seq![field.name@]);
    let mapped = MappedField {
        field_id: Some(field.id),
        names,
        fields: mapped_fields_from_type(&field.field_type),
    };
    proof {
        lemma_mapped_view(mapped);
    }
    mapped
}

fn mapped_fields_from_type(field_type: &Type) -> (mapped: Vec<MappedField>)
    ensures
        mapping_view(mapped@) == mapped_of_type(field_type@),
    decreases field_type,
{
    broadcast use lemma_struct_view;

    let mut mapped: Vec<MappedField> = Vec::new();
    match field_type {
        Type::Struct(s) => {
            let ghost all = fields_view(s.fields@);
            let mut i: usize = 0;
            assert(mapping_view(mapped@) =~= Seq::empty());
            while i < s.fields.len()
                invariant
                    i <= s.fields@.len(),
                    all == fields_view(s.fields@),
                    field_type@ == TypeView::Struct(all),
                    decreases_to!(field_type => s.fields),
                    mapped_of_fields(all, i as nat, mapping_view(mapped@)) == mapped_of_fields(
                        all,
                        0,
                        Seq::empty(),
                    ),
                decreases s.fields@.len() - i,
            {
                assert(decreases_to!(s.fields => s.fields@));
                assert(decreases_to!(s.fields@ => s.fields@[i as int]));
                let ghost before = mapping_view(mapped@);
                let child = mapped_field_from_nested(&s.fields[i]);
                mapped.push(child);
                assert(mapping_view(mapped@) =~= before.push(mapped_of_field(all[i as int])));
                i += 1;
            }
        },
        Type::List(l) => {
            mapped.push(mapped_field_from_nested(&l.element_field));
            assert(mapping_view(mapped@) =~= mapped_of_type(field_type@));
        },
        Type::MapOf(m) => {
            mapped.push(mapped_field_from_nested(&m.key_field));
            mapped.push(mapped_field_from_nested(&m.value_field));
            assert(mapping_view(mapped@) =~= mapped_of_type(field_type@));
        },
        Type::Primitive(_) | Type::Variant(_) => {
            assert(mapping_view(mapped@) =~= Seq::empty());
        },
    }
    mapped
}

/// The field IDs and the full names that a walk over a mapping has seen.
pub struct SeenView {
    pub ids: Seq<i32>,
    pub names: Seq<Seq<char>>,
}

/// The paths of `names` under the parent from `i` on, with the name from `j` on, after those in
/// `done`.
pub open spec fn paths_under(
    parents: Seq<Seq<char>>,
    names: Seq<Seq<char>>,
    i: nat,
    j: nat,
    done: Seq<Seq<char>>,
) -> Seq<Seq<char>>
    decreases parents.len() - i, names.len() - j,
{
    if i >= parents.len() {
        done
    } else if j >= names.len() {
        paths_under(parents, names, i + 1, 0, done)
    } else {
        paths_under(
            parents,
            names,
            i,
            j + 1,
            done.push(dotted(parents[i as int], names[j as int])),
        )
    }
}

/// The full names of a field: its own at the root, else all paths through the names of its parent.
pub open spec fn full_names_of(
    at_root: bool,
    parents: Seq<Seq<char>>,
    names: Seq<Seq<char>>,
) -> Seq<Seq<char>> {
    if at_root {
        names
    } else {
        paths_under(parents, names, 0, 0, Seq::empty())
    }
}

/// `seen`, and after it `names` from `i` on, none of which may have been seen: a message for the
/// first that was.
pub open spec fn all_unseen(
    names: Seq<Seq<char>>,
    i: nat,
    seen: Seq<Seq<char>>,
    start: Seq<char>,
    end: Seq<char>,
) -> MappingResult<Seq<Seq<char>>>
    decreases names.len() - i,
{
    if i >= names.len() {
        Ok(seen)
    } else if seen.contains(names[i as int]) {
        Err(start + names[i as int] + end)
    } else {
        all_unseen(names, i + 1, seen.push(names[i as int]), start, end)
    }
}

/// The check of the fields from `i` on: no two siblings share a name, every field has an ID, and
/// neither an ID nor a full name occurs twice in the whole mapping.
pub open spec fn validated_fields(
    fields: Seq<MappedView>,
    i: nat,
    at_root: bool,
    parents: Seq<Seq<char>>,
    siblings: Seq<Seq<char>>,
    seen: SeenView,
) -> MappingResult<SeenView>
    decreases fields, fields.len() - i,
{
    if i >= fields.len() {
        Ok(seen)
    } else {
        let field = fields[i as int];
        let names = distinct_names(field.names, 0, Seq::empty());
        let full_names = full_names_of(at_root, parents, names);
        match all_unseen(
            names,
            0,
            siblings,
            "Mapped alias "@,
            " is assigned to multiple siblings"@,
        ) {
            Err(message) => Err(message),
            Ok(siblings1) => match field.field_id {
                None => Err("Mapped field ID is missing"@),
                Some(id) => if seen.ids.contains(id) {
                    Err("Mapped field ID "@ + int_numeral(id as int) + " is not unique"@)
                } else {
                    match all_unseen(
                        full_names,
                        0,
                        seen.names,
                        "Mapped full name "@,
                        " is not unique"@,
                    ) {
                        Err(message) => Err(message),
                        Ok(names1) => match validated_fields(
                            field.fields,
                            0,
                            false,
                            full_names,
                            Seq::empty(),
                            SeenView { ids: seen.ids.push(id), names: names1 },
                        ) {
                            Err(message) => Err(message),
                            Ok(seen1) => validated_fields(
                                fields,
                                i + 1,
                                at_root,
                                parents,
                                siblings1,
                                seen1,
                            ),
                        },
                    }
                },
            },
        }
    }
}

/// Whether a mapping is valid, or a message for what is wrong with it.
pub open spec fn validated_mapping(fields: Seq<MappedView>) -> MappingResult<()> {
    match validated_fields(
        fields,
        0,
        true,
        Seq::empty(),
        Seq::empty(),
        SeenView { ids: Seq::empty(), names: Seq::empty() },
    ) {
        Ok(_) => Ok(()),
        Err(message) => Err(message),
    }
}

/// The field IDs and the full names that a walk over a mapping has seen.
struct Seen {
    ids: Vec<i32>,
    names: Vec<String>,
}

impl View for Seen {
    type V = SeenView;

    closed spec fn view(&self) -> SeenView {
        SeenView { ids: self.ids@, names: texts(self.names@) }
    }
}

/// The result of a fallible step that gives nothing back.
pub open spec fn unit_outcome(result: Result<(), String>) -> MappingResult<()> {
    match result {
        Ok(_) => Ok(()),
        Err(message) => Err(message@),
    }
}

/// Appends a name.
pub(crate) fn push_name(list: &mut Vec<String>, name: String)
    ensures
        texts(final(list)@) == texts(old(list)@).push(name@),
{
    let ghost before = texts(list@);
    let ghost added = name@;
    list.push(name);
    assert(texts(list@) =~= before.push(added));
}

fn paths(parents: &Vec<String>, names: &Vec<String>) -> (result: Vec<String>)
    ensures
        texts(result@) == paths_under(texts(parents@), texts(names@), 0, 0, Seq::empty()),
{
    let ghost above = texts(parents@);
    let ghost below = texts(names@);
    let mut result: Vec<String> = Vec::new();
    let mut i: usize = 0;
    assert(texts(result@) =~= Seq::empty());
    while i < parents.len()
        invariant
            i <= parents@.len(),
            above == texts(parents@),
            below == texts(names@),
            paths_under(above, below, i as nat, 0, texts(result@)) == paths_under(
                above,
                below,
                0,
                0,
                Seq::empty(),
            ),
        decreases parents@.len() - i,
    {
        let mut j: usize = 0;
        while j < names.len()
            invariant
                i < parents@.len(),
                j <= names@.len(),
                above == texts(parents@),
                below == texts(names@),
                paths_under(above, below, i as nat, j as nat, texts(result@)) == paths_under(
                    above,
                    below,
                    0,
                    0,
                    Seq::empty(),
                ),
            decreases names@.len() - j,
        {
            push_name(&mut result, join_path(parents[i].as_str(), names[j].as_str()));
            j += 1;
        }
        i += 1;
    }
    result
}

fn note_names(names: &Vec<String>, seen: &mut Vec<String>, start: &str, end: &str) -> (result:
    Result<(), String>)
    ensures
        match (result, all_unseen(texts(names@), 0, texts(old(seen)@), start@, end@)) {
            (Ok(_), Ok(expected)) => texts(final(seen)@) == expected,
            (Err(message), Err(expected)) => message@ == expected,
            _ => false,
        },
{
    let ghost all = texts(names@);
    let mut i: usize = 0;
    while i < names.len()
        invariant
            i <= names@.len(),
            all == texts(names@),
            all_unseen(all, i as nat, texts(seen@), start@, end@) == all_unseen(
                all,
                0,
                texts(old(seen)@),
                start@,
                end@,
            ),
        decreases names@.len() - i,
    {
        let name = &names[i];
        assert(all[i as int] == name@);
        if contains_text(seen, name.as_str()) {
            return Err(cat3(start, name.as_str(), end));
        }
        push_name(seen, name.clone());
        i += 1;
    }
    Ok(())
}

fn validate_mapped_fields(
    fields: &Vec<MappedField>,
    at_root: bool,
    parent_names: &Vec<String>,
    seen: &mut Seen,
) -> (result: Result<(), String>)
    ensures
        match (
            result,
            validated_fields(
                mapping_view(fields@),
                0,
                at_root,
                texts(parent_names@),
                Seq::empty(),
                old(seen)@,
            ),
        ) {
            (Ok(_), Ok(expected)) => final(seen)@ == expected,
            (Err(message), Err(expected)) => message@ == expected,
            _ => false,
        },
    decreases fields,
{
    let ghost all = mapping_view(fields@);
    let ghost above = texts(parent_names@);
    let mut sibling_names: Vec<String> = Vec::new();
    let mut i: usize = 0;
    assert(texts(sibling_names@) =~= Seq::empty());
    while i < fields.len()
        invariant
            i <= fields@.len(),
            all == mapping_view(fields@),
            above == texts(parent_names@),
            validated_fields(all, i as nat, at_root, above, texts(sibling_names@), seen@)
                == validated_fields(all, 0, at_root, above, Seq::empty(), old(seen)@),
        decreases fields@.len() - i,
    {
        assert(decreases_to!(fields => fields@));
        assert(decreases_to!(fields@ => fields@[i as int]));
        let field = &fields[i];
        proof {
            lemma_mapped_view(*field);
        }
        assert(all[i as int] == field@);
        let names = deduplicate_names(&field.names);
        match note_names(
            &names,
            &mut sibling_names,
            "Mapped alias ",
            " is assigned to multiple siblings",
        ) {
            Ok(_) => {},
            Err(message) => return Err(message),
        }
        let id: i32 = match field.field_id {
            Some(id) => id,
            None => return Err("Mapped field ID is missing".to_owned()),
        };
        if contains_id(&seen.ids, id) {
            return Err(
                cat3("Mapped field ID ", int_to_text(id as i64).as_str(), " is not unique"),
            );
        }
        let current_names = if at_root {
            names
        } else {
            paths(parent_names, &names)
        };
        match note_names(&current_names, &mut seen.names, "Mapped full name ", " is not unique") {
            Ok(_) => {},
            Err(message) => return Err(message),
        }
        seen.ids.push(id);
        match validate_mapped_fields(&field.fields, false, &current_names, seen) {
            Ok(_) => {},
            Err(message) => return Err(message),
        }
        i += 1;
    }
    Ok(())
}

/// Checks a mapping.
pub fn validate_name_mapping(fields: &Vec<MappedField>) -> (result: Result<(), String>)
    ensures
        unit_outcome(result) == validated_mapping(mapping_view(fields@)),
{
    let mut seen = Seen { ids: Vec::new(), names: Vec::new() };
    let parents: Vec<String> = Vec::new();
    assert(texts(seen.names@) =~= Seq::empty());
    assert(texts(parents@) =~= Seq::empty());
    validate_mapped_fields(fields, true, &parents, &mut seen)
}

/// The names of a mapped field, with the new name of its field where there is one and it is not
/// among them.
pub open spec fn updated_names(field: MappedView, changes: ChangesView) -> Seq<Seq<char>> {
    let names = distinct_names(field.names, 0, Seq::empty());
    match field.field_id {
        Some(id) => if changes.updates.contains_key(id) && !names.contains(
            changes.updates[id].name,
        ) {
            names.push(changes.updates[id].name)
        } else {
            names
        },
        None => names,
    }
}

/// A mapped field after the changes, before names are taken away from it.
pub open spec fn updated_mapped(field: MappedView, changes: ChangesView) -> MappingResult<
    MappedView,
>
    decreases field, 0nat,
{
    match field.field_id {
        None => Err("Mapped field ID is missing"@),
        Some(id) => match updated_mapping_fields(field.fields, Some(id), changes) {
            Err(message) => Err(message),
            Ok(fields) => Ok(
                MappedView { fields, names: updated_names(field, changes), ..field },
            ),
        },
    }
}

/// The mapped fields from `i` on after the changes, after those in `done`.
pub open spec fn updated_from(
    fields: Seq<MappedView>,
    i: nat,
    changes: ChangesView,
    done: Seq<MappedView>,
) -> MappingResult<Seq<MappedView>>
    decreases fields, fields.len() - i,
{
    if i >= fields.len() {
        Ok(done)
    } else {
        match updated_mapped(fields[i as int], changes) {
            Err(message) => Err(message),
            Ok(field) => updated_from(fields, i + 1, changes, done.push(field)),
        }
    }
}

/// `done`, and after it the mapped fields of what is added to `parent` from the addition `i` on.
pub open spec fn mapping_with_added(
    changes: ChangesView,
    parent: Option<i32>,
    i: nat,
    done: Seq<MappedView>,
) -> MappingResult<Seq<MappedView>>
    decreases changes.additions.len() - i,
{
    if i >= changes.additions.len() {
        Ok(done)
    } else if changes.additions[i as int].0 != parent {
        mapping_with_added(changes, parent, i + 1, done)
    } else {
        let id = changes.additions[i as int].1;
        if changes.updates.contains_key(id) {
            mapping_with_added(
                changes,
                parent,
                i + 1,
                done.push(mapped_of_field(changes.updates[id])),
            )
        } else {
            Err(
                "Added field "@ + int_numeral(id as int) + " is missing its pending update"@,
            )
        }
    }
}

/// The names that the fields from `i` on claim, each being the current name of an updated field.
pub open spec fn assigned_names(
    fields: Seq<MappedView>,
    i: nat,
    changes: ChangesView,
    done: Map<Seq<char>, i32>,
) -> MappingResult<Map<Seq<char>, i32>>
    decreases fields.len() - i,
{
    if i >= fields.len() {
        Ok(done)
    } else {
        match fields[i as int].field_id {
            None => assigned_names(fields, i + 1, changes, done),
            Some(id) => if !changes.updates.contains_key(id) {
                assigned_names(fields, i + 1, changes, done)
            } else {
                let name = changes.updates[id].name;
                if done.contains_key(name) && done[name] != id {
                    Err("Multiple mapped fields assign alias "@ + name)
                } else {
                    assigned_names(fields, i + 1, changes, done.insert(name, id))
                }
            },
        }
    }
}

/// Whether a name is claimed by another field.
pub open spec fn claimed_by_other(
    assigned: Map<Seq<char>, i32>,
    name: Seq<char>,
    field_id: Option<i32>,
) -> bool {
    assigned.contains_key(name) && Some(assigned[name]) != field_id
}

/// The names from `i` on that no other field claims, after those in `done`, and how many others
/// do claim.
pub open spec fn kept_names(
    names: Seq<Seq<char>>,
    i: nat,
    assigned: Map<Seq<char>, i32>,
    field_id: Option<i32>,
    done: Seq<Seq<char>>,
    lost: nat,
) -> (Seq<Seq<char>>, nat)
    decreases names.len() - i,
{
    if i >= names.len() {
        (done, lost)
    } else if claimed_by_other(assigned, names[i as int], field_id) {
        kept_names(names, i + 1, assigned, field_id, done, lost + 1)
    } else {
        kept_names(names, i + 1, assigned, field_id, done.push(names[i as int]), lost)
    }
}

/// How an optional ID is written.
pub open spec fn opt_id_text(id: Option<i32>) -> Seq<char> {
    match id {
        Some(i) => "Some("@ + int_numeral(i as int) + ")"@,
        None => "None"@,
    }
}

/// The fields from `i` on without the names that others claim, after those in `done`. A field can
/// lose one name at most.
pub open spec fn relieved_fields(
    fields: Seq<MappedView>,
    i: nat,
    assigned: Map<Seq<char>, i32>,
    done: Seq<MappedView>,
) -> MappingResult<Seq<MappedView>>
    decreases fields.len() - i,
{
    if i >= fields.len() {
        Ok(done)
    } else {
        let field = fields[i as int];
        let (names, lost) = kept_names(field.names, 0, assigned, field.field_id, Seq::empty(), 0);
        if lost > 1 {
            Err(
                "Cannot reassign multiple aliases from mapped field "@ + opt_id_text(
                    field.field_id,
                ),
            )
        } else {
            relieved_fields(fields, i + 1, assigned, done.push(MappedView { names, ..field }))
        }
    }
}

/// The mapped fields beneath `parent` after the changes.
pub open spec fn updated_mapping_fields(
    fields: Seq<MappedView>,
    parent: Option<i32>,
    changes: ChangesView,
) -> MappingResult<Seq<MappedView>>
    decreases fields, fields.len() + 1,
{
    match updated_from(fields, 0, changes, Seq::empty()) {
        Err(message) => Err(message),
        Ok(updated) => match mapping_with_added(changes, parent, 0, updated) {
            Err(message) => Err(message),
            Ok(all) => match assigned_names(all, 0, changes, Map::empty()) {
                Err(message) => Err(message),
                Ok(assigned) => relieved_fields(all, 0, assigned, Seq::empty()),
            },
        },
    }
}

/// A valid mapping after the changes, which must be valid too.
pub open spec fn updated_mapping(fields: Seq<MappedView>, changes: ChangesView) -> MappingResult<
    Seq<MappedView>,
> {
    match validated_mapping(fields) {
        Err(message) => Err(message),
        Ok(_) => match updated_mapping_fields(fields, None, changes) {
            Err(message) => Err(message),
            Ok(updated) => match validated_mapping(updated) {
                Err(message) => Err(message),
                Ok(_) => Ok(updated),
            },
        },
    }
}

/// Brings a mapping up to date: a renamed field gets its new name beside its old ones, an added
/// field is mapped with all beneath it where its parent is, and a name that is claimed anew is
/// taken away from the field that had it.
pub fn update_name_mapping(fields: &Vec<MappedField>, changes: &Changes) -> (result: Result<
    Vec<MappedField>,
    String,
>)
    ensures
        mapping_outcome(result) == updated_mapping(mapping_view(fields@), changes@),
{
    match validate_name_mapping(fields) {
        Ok(_) => {},
        Err(message) => return Err(message),
    }
    let updated = match update_mapped_fields(fields, None, changes) {
        Ok(updated) => updated,
        Err(message) => return Err(message),
    };
    match validate_name_mapping(&updated) {
        Ok(_) => Ok(updated),
        Err(message) => Err(message),
    }
}

/// Appends a mapped field.
pub(crate) fn push_mapped(list: &mut Vec<MappedField>, field: MappedField)
    ensures
        mapping_view(final(list)@) == mapping_view(old(list)@).push(field@),
{
    let ghost before = mapping_view(list@);
    let ghost added = field@;
    list.push(field);
    assert(mapping_view(list@) =~= before.push(added));
}

fn update_mapped_field(field: &MappedField, changes: &Changes) -> (result: Result<
    MappedField,
    String,
>)
    ensures
        mapped_outcome(result) == updated_mapped(field@, changes@),
    decreases field, 0nat,
{
    proof {
        lemma_mapped_view(*field);
    }
    let id: i32 = match field.field_id {
        Some(id) => id,
        None => return Err("Mapped field ID is missing".to_owned()),
    };
    let mut names = deduplicate_names(&field.names);
    match changes.updates.get(id) {
        Some(update) => {
            if !contains_text(&names, update.name.as_str()) {
                push_name(&mut names, update.name.clone());
            }
        },
        None => {},
    }
    let fields = match update_mapped_fields(&field.fields, Some(id), changes) {
        Ok(fields) => fields,
        Err(message) => return Err(message),
    };
    let updated = MappedField { field_id: Some(id), names, fields };
    proof {
        lemma_mapped_view(updated);
    }
    Ok(updated)
}

/// The names that fields claim.
fn collect_assignments(fields: &Vec<MappedField>, changes: &Changes) -> (result: Result<
    NameMap,
    String,
>)
    ensures
        match (result, assigned_names(mapping_view(fields@), 0, changes@, Map::empty())) {
            (Ok(map), Ok(expected)) => map@ == expected,
            (Err(message), Err(expected)) => message@ == expected,
            _ => false,
        },
{
    let ghost all = mapping_view(fields@);
    let mut assignments = NameMap::new();
    let mut i: usize = 0;
    while i < fields.len()
        invariant
            i <= fields@.len(),
            all == mapping_view(fields@),
            assigned_names(all, i as nat, changes@, assignments@) == assigned_names(
                all,
                0,
                changes@,
                Map::empty(),
            ),
        decreases fields@.len() - i,
    {
        assert(all[i as int] == fields@[i as int]@);
        match fields[i].field_id {
            None => {},
            Some(id) => match changes.updates.get(id) {
                None => {},
                Some(update) => {
                    match assignments.get(update.name.as_str()) {
                        Some(previous) => {
                            if previous != id {
                                return Err(
                                    cat2(
                                        "Multiple mapped fields assign alias ",
                                        update.name.as_str(),
                                    ),
                                );
                            }
                        },
                        None => {},
                    }
                    assignments.insert(update.name.clone(), id);
                },
            },
        }
        i += 1;
    }
    Ok(assignments)
}

/// The names that no other field claims, and how many others do.
fn keep_names(names: &Vec<String>, assignments: &NameMap, field_id: Option<i32>) -> (result: (
    Vec<String>,
    usize,
))
    ensures
        (texts(result.0@), result.1 as nat) == kept_names(
            texts(names@),
            0,
            assignments@,
            field_id,
            Seq::empty(),
            0,
        ),
{
    let ghost all = texts(names@);
    let mut kept: Vec<String> = Vec::new();
    let mut lost: usize = 0;
    let mut i: usize = 0;
    assert(texts(kept@) =~= Seq::empty());
    while i < names.len()
        invariant
            i <= names@.len(),
            lost <= i,
            all == texts(names@),
            kept_names(all, i as nat, assignments@, field_id, texts(kept@), lost as nat)
                == kept_names(all, 0, assignments@, field_id, Seq::empty(), 0),
        decreases names@.len() - i,
    {
        let name = &names[i];
        assert(all[i as int] == name@);
        let claimed = match assignments.get(name.as_str()) {
            Some(id) => !same_parent(Some(id), field_id),
            None => false,
        };
        if claimed {
            lost += 1;
        } else {
            push_name(&mut kept, name.clone());
        }
        i += 1;
    }
    (kept, lost)
}

/// How an optional ID is written.
fn write_opt_id(id: Option<i32>) -> (text: String)
    ensures
        text@ == opt_id_text(id),
{
    match id {
        Some(i) => cat3("Some(", int_to_text(i as i64).as_str(), ")"),
        None => "None".to_owned(),
    }
}

/// The fields without the names that others claim.
fn relieve_fields(fields: &Vec<MappedField>, assignments: &NameMap) -> (result: Result<
    Vec<MappedField>,
    String,
>)
    ensures
        mapping_outcome(result) == relieved_fields(
            mapping_view(fields@),
            0,
            assignments@,
            Seq::empty(),
        ),
{
    let ghost all = mapping_view(fields@);
    let mut done: Vec<MappedField> = Vec::new();
    let mut i: usize = 0;
    assert(mapping_view(done@) =~= Seq::empty());
    while i < fields.len()
        invariant
            i <= fields@.len(),
            all == mapping_view(fields@),
            relieved_fields(all, i as nat, assignments@, mapping_view(done@)) == relieved_fields(
                all,
                0,
                assignments@,
                Seq::empty(),
            ),
        decreases fields@.len() - i,
    {
        let field = &fields[i];
        proof {
            lemma_mapped_view(*field);
        }
        assert(all[i as int] == field@);
        let (names, lost) = keep_names(&field.names, assignments, field.field_id);
        if lost > 1 {
            return Err(
                cat2(
                    "Cannot reassign multiple aliases from mapped field ",
                    write_opt_id(field.field_id).as_str(),
                ),
            );
        }
        let relieved = MappedField {
            field_id: field.field_id,
            names,
            fields: copy_mapping(&field.fields),
        };
        proof {
            lemma_mapped_view(relieved);
        }
        push_mapped(&mut done, relieved);
        i += 1;
    }
    Ok(done)
}

fn update_mapped_fields(fields: &Vec<MappedField>, parent: Option<i32>, changes: &Changes) -> (result:
    Result<Vec<MappedField>, String>)
    ensures
        mapping_outcome(result) == updated_mapping_fields(
            mapping_view(fields@),
            parent,
            changes@,
        ),
    decreases fields, 0nat,
{
    let ghost all = mapping_view(fields@);
    let ghost view = changes@;
    let mut updated: Vec<MappedField> = Vec::new();
    let mut i: usize = 0;
    assert(mapping_view(updated@) =~= Seq::empty());
    while i < fields.len()
        invariant
            i <= fields@.len(),
            all == mapping_view(fields@),
            view == changes@,
            updated_from(all, i as nat, view, mapping_view(updated@)) == updated_from(
                all,
                0,
                view,
                Seq::empty(),
            ),
        decreases fields@.len() - i,
    {
        assert(decreases_to!(fields => fields@));
        assert(decreases_to!(fields@ => fields@[i as int]));
        assert(all[i as int] == fields@[i as int]@);
        match update_mapped_field(&fields[i], changes) {
            Ok(field) => push_mapped(&mut updated, field),
            Err(message) => return Err(message),
        }
        i += 1;
    }
    let ghost kept = mapping_view(updated@);
    let mut j: usize = 0;
    while j < changes.additions.len()
        invariant
            j <= changes.additions@.len(),
            all == mapping_view(fields@),
            view == changes@,
            updated_from(all, 0, view, Seq::empty()) == Ok::<Seq<MappedView>, Seq<char>>(kept),
            mapping_with_added(view, parent, j as nat, mapping_view(updated@))
                == mapping_with_added(view, parent, 0, kept),
        decreases changes.additions@.len() - j,
    {
        if same_parent(changes.additions[j].0, parent) {
            let id: i32 = changes.additions[j].1;
            match changes.updates.get(id) {
                Some(field) => push_mapped(&mut updated, mapped_field_from_nested(field)),
                None => {
                    return Err(
                        cat3(
                            "Added field ",
                            int_to_text(id as i64).as_str(),
                            " is missing its pending update",
                        ),
                    );
                },
            }
        }
        j += 1;
    }
    let assignments = match collect_assignments(&updated, changes) {
        Ok(assignments) => assignments,
        Err(message) => return Err(message),
    };
    relieve_fields(&updated, &assignments)
}

/// Whether no field of a mapping, at the root or beneath, lists a name twice.
pub open spec fn lists_names_once(fields: Seq<MappedView>) -> bool
    decreases fields,
{
    forall|i: int|
        0 <= i < fields.len() ==> (#[trigger] fields[i]).names.no_duplicates() && lists_names_once(
            fields[i].fields,
        )
}

/// Whether all fields of a mapping, at the root and beneath, have IDs.
pub open spec fn has_ids(fields: Seq<MappedView>) -> bool
    decreases fields,
{
    forall|i: int|
        0 <= i < fields.len() ==> (#[trigger] fields[i]).field_id is Some && has_ids(
            fields[i].fields,
        )
}

proof fn lemma_valid_fields_have_ids(
    fields: Seq<MappedView>,
    i: nat,
    at_root: bool,
    parents: Seq<Seq<char>>,
    siblings: Seq<Seq<char>>,
    seen: SeenView,
    j: int,
)
    requires
        validated_fields(fields, i, at_root, parents, siblings, seen) is Ok,
        i <= j < fields.len(),
    ensures
        fields[j].field_id is Some,
        has_ids(fields[j].fields),
    decreases fields, fields.len() - i,
{
    let field = fields[i as int];
    let names = distinct_names(field.names, 0, Seq::empty());
    let full_names = full_names_of(at_root, parents, names);
    let siblings1 = all_unseen(
        names,
        0,
        siblings,
        "Mapped alias "@,
        " is assigned to multiple siblings"@,
    )->Ok_0;
    let names1 = all_unseen(
        full_names,
        0,
        seen.names,
        "Mapped full name "@,
        " is not unique"@,
    )->Ok_0;
    let inner = SeenView { ids: seen.ids.push(field.field_id->0), names: names1 };
    let beneath = validated_fields(field.fields, 0, false, full_names, Seq::empty(), inner);
    if i == j {
        assert forall|k: int| 0 <= k < field.fields.len() implies (
        #[trigger] field.fields[k]).field_id is Some && has_ids(field.fields[k].fields) by {
            lemma_valid_fields_have_ids(
                field.fields,
                0,
                false,
                full_names,
                Seq::empty(),
                inner,
                k,
            );
        }
    } else {
        lemma_valid_fields_have_ids(fields, i + 1, at_root, parents, siblings1, beneath->Ok_0, j);
    }
}

proof fn lemma_names_listed_once(names: Seq<Seq<char>>, i: nat)
    requires
        names.no_duplicates(),
        i <= names.len(),
    ensures
        distinct_names(names, i, names.take(i as int)) == names,
    decreases names.len() - i,
{
    if i < names.len() {
        assert(!names.take(i as int).contains(names[i as int]));
        assert(names.take(i as int).push(names[i as int]) =~= names.take((i + 1) as int));
        lemma_names_listed_once(names, i + 1);
    } else {
        assert(names.take(i as int) =~= names);
    }
}

proof fn lemma_all_names_kept(names: Seq<Seq<char>>, i: nat, field_id: Option<i32>)
    requires
        i <= names.len(),
    ensures
        kept_names(names, i, Map::empty(), field_id, names.take(i as int), 0) == (names, 0nat),
    decreases names.len() - i,
{
    if i < names.len() {
        assert(names.take(i as int).push(names[i as int]) =~= names.take((i + 1) as int));
        lemma_all_names_kept(names, i + 1, field_id);
    } else {
        assert(names.take(i as int) =~= names);
    }
}

proof fn lemma_nothing_relieved(fields: Seq<MappedView>, i: nat)
    requires
        i <= fields.len(),
    ensures
        relieved_fields(fields, i, Map::empty(), fields.take(i as int)) == Ok::<
            Seq<MappedView>,
            Seq<char>,
        >(fields),
    decreases fields.len() - i,
{
    if i < fields.len() {
        let field = fields[i as int];
        assert(field.names.take(0) =~= Seq::empty());
        lemma_all_names_kept(field.names, 0, field.field_id);
        assert(fields.take(i as int).push(field) =~= fields.take((i + 1) as int));
        lemma_nothing_relieved(fields, i + 1);
    } else {
        assert(fields.take(i as int) =~= fields);
    }
}

proof fn lemma_nothing_assigned(fields: Seq<MappedView>, i: nat, changes: ChangesView)
    requires
        forall|id: i32| !#[trigger] changes.updates.contains_key(id),
    ensures
        assigned_names(fields, i, changes, Map::empty()) == Ok::<Map<Seq<char>, i32>, Seq<char>>(
            Map::empty(),
        ),
    decreases fields.len() - i,
{
    if i < fields.len() {
        lemma_nothing_assigned(fields, i + 1, changes);
    }
}

proof fn lemma_unchanged_from(fields: Seq<MappedView>, i: nat, changes: ChangesView)
    requires
        forall|id: i32| !#[trigger] changes.updates.contains_key(id),
        changes.additions.len() == 0,
        has_ids(fields),
        lists_names_once(fields),
        i <= fields.len(),
    ensures
        updated_from(fields, i, changes, fields.take(i as int)) == Ok::<
            Seq<MappedView>,
            Seq<char>,
        >(fields),
    decreases fields, fields.len() - i,
{
    if i < fields.len() {
        let field = fields[i as int];
        lemma_unchanged_fields(field.fields, field.field_id, changes);
        assert(field.names.take(0) =~= Seq::empty());
        lemma_names_listed_once(field.names, 0);
        assert(updated_mapped(field, changes) == Ok::<MappedView, Seq<char>>(field));
        assert(fields.take(i as int).push(field) =~= fields.take((i + 1) as int));
        lemma_unchanged_from(fields, i + 1, changes);
    } else {
        assert(fields.take(i as int) =~= fields);
    }
}

proof fn lemma_unchanged_fields(
    fields: Seq<MappedView>,
    parent: Option<i32>,
    changes: ChangesView,
)
    requires
        forall|id: i32| !#[trigger] changes.updates.contains_key(id),
        changes.additions.len() == 0,
        has_ids(fields),
        lists_names_once(fields),
    ensures
        updated_mapping_fields(fields, parent, changes) == Ok::<Seq<MappedView>, Seq<char>>(fields),
    decreases fields, fields.len() + 1,
{
    assert(fields.take(0) =~= Seq::empty());
    lemma_unchanged_from(fields, 0, changes);
    lemma_nothing_assigned(fields, 0, changes);
    lemma_nothing_relieved(fields, 0);
}

/// Where no column is updated or added, a valid mapping stays as it is, unless it lists a name
/// twice.
pub proof fn law_mappings_stay_without_changes(fields: Seq<MappedView>, changes: ChangesView)
    requires
        forall|id: i32| !#[trigger] changes.updates.contains_key(id),
        changes.additions.len() == 0,
        lists_names_once(fields),
        validated_mapping(fields) is Ok,
    ensures
        updated_mapping(fields, changes) == Ok::<Seq<MappedView>, Seq<char>>(fields),
{
    assert forall|j: int| 0 <= j < fields.len() implies (#[trigger] fields[j]).field_id is Some
        && has_ids(fields[j].fields) by {
        lemma_valid_fields_have_ids(
            fields,
            0,
            true,
            Seq::empty(),
            Seq::empty(),
            SeenView { ids: Seq::empty(), names: Seq::empty() },
            j,
        );
    }
    lemma_unchanged_fields(fields, None, changes);
}

/// An updated mapping is valid.
pub proof fn law_updated_mappings_are_valid(fields: Seq<MappedView>, changes: ChangesView)
    ensures
        updated_mapping(fields, changes) matches Ok(updated) ==> validated_mapping(updated) == Ok::<
            (),
            Seq<char>,
        >(()),
{
}

proof fn lemma_updated_from(
    fields: Seq<MappedView>,
    i: nat,
    changes: ChangesView,
    done: Seq<MappedView>,
)
    requires
        updated_from(fields, i, changes, done) is Ok,
        done.len() == i,
        i <= fields.len(),
    ensures
        ({
            let all = updated_from(fields, i, changes, done)->Ok_0;
            &&& all.len() == fields.len()
            &&& forall|j: int| 0 <= j < i ==> #[trigger] all[j] == done[j]
            &&& forall|j: int|
                i <= j < fields.len() ==> updated_mapped(fields[j], changes) == Ok::<
                    MappedView,
                    Seq<char>,
                >(#[trigger] all[j])
        }),
    decreases fields.len() - i,
{
    if i < fields.len() {
        let field = updated_mapped(fields[i as int], changes)->Ok_0;
        lemma_updated_from(fields, i + 1, changes, done.push(field));
        let all = updated_from(fields, i, changes, done)->Ok_0;
        assert forall|j: int| 0 <= j < i implies #[trigger] all[j] == done[j] by {
            assert(done.push(field)[j] == done[j]);
        }
        assert(all[i as int] == done.push(field)[i as int]);
    }
}

proof fn lemma_with_added_keeps(
    changes: ChangesView,
    parent: Option<i32>,
    i: nat,
    done: Seq<MappedView>,
)
    requires
        mapping_with_added(changes, parent, i, done) is Ok,
    ensures
        ({
            let all = mapping_with_added(changes, parent, i, done)->Ok_0;
            &&& done.len() <= all.len()
            &&& forall|j: int| 0 <= j < done.len() ==> #[trigger] all[j] == done[j]
        }),
    decreases changes.additions.len() - i,
{
    if i < changes.additions.len() {
        if changes.additions[i as int].0 != parent {
            lemma_with_added_keeps(changes, parent, i + 1, done);
        } else {
            let field = mapped_of_field(changes.updates[changes.additions[i as int].1]);
            lemma_with_added_keeps(changes, parent, i + 1, done.push(field));
            let all = mapping_with_added(changes, parent, i, done)->Ok_0;
            assert forall|j: int| 0 <= j < done.len() implies #[trigger] all[j] == done[j] by {
                assert(done.push(field)[j] == done[j]);
            }
        }
    }
}

/// Whether the field is one that an update gives the name `name`.
pub open spec fn gets_name(field: MappedView, name: Seq<char>, changes: ChangesView) -> bool {
    field.field_id matches Some(id) && changes.updates.contains_key(id)
        && changes.updates[id].name == name
}

proof fn lemma_assigned(
    fields: Seq<MappedView>,
    i: nat,
    changes: ChangesView,
    done: Map<Seq<char>, i32>,
)
    requires
        assigned_names(fields, i, changes, done) is Ok,
    ensures
        ({
            let all = assigned_names(fields, i, changes, done)->Ok_0;
            &&& forall|name: Seq<char>| #[trigger]
                done.contains_key(name) ==> all.contains_key(name) && all[name] == done[name]
            &&& forall|j: int, name: Seq<char>|
                i <= j < fields.len() && #[trigger] gets_name(fields[j], name, changes)
                    ==> all.contains_key(name) && Some(all[name]) == fields[j].field_id
            &&& forall|name: Seq<char>| #[trigger]
                all.contains_key(name) ==> done.contains_key(name) || exists|j: int|
                    i <= j < fields.len() && #[trigger] gets_name(fields[j], name, changes)
                        && Some(all[name]) == fields[j].field_id
        }),
    decreases fields.len() - i,
{
    if i < fields.len() {
        let field = fields[i as int];
        let next = match field.field_id {
            None => done,
            Some(id) => if changes.updates.contains_key(id) {
                done.insert(changes.updates[id].name, id)
            } else {
                done
            },
        };
        lemma_assigned(fields, i + 1, changes, next);
        let all = assigned_names(fields, i, changes, done)->Ok_0;
        assert forall|name: Seq<char>| #[trigger] done.contains_key(name) implies all.contains_key(
            name,
        ) && all[name] == done[name] by {
            assert(next.contains_key(name));
        }
        assert forall|j: int, name: Seq<char>|
            i <= j < fields.len() && #[trigger] gets_name(
                fields[j],
                name,
                changes,
            ) implies all.contains_key(name) && Some(all[name]) == fields[j].field_id by {
            if j == i {
                assert(next.contains_key(name));
            }
        }
        assert forall|name: Seq<char>| #[trigger] all.contains_key(name) implies done.contains_key(
            name,
        ) || exists|j: int|
            i <= j < fields.len() && #[trigger] gets_name(fields[j], name, changes) && Some(
                all[name],
            ) == fields[j].field_id by {
            if next.contains_key(name) && !done.contains_key(name) {
                assert(gets_name(fields[i as int], name, changes));
            }
        }
    }
}

proof fn lemma_kept(
    names: Seq<Seq<char>>,
    i: nat,
    assigned: Map<Seq<char>, i32>,
    field_id: Option<i32>,
    done: Seq<Seq<char>>,
    lost: nat,
    name: Seq<char>,
)
    requires
        done.contains(name) || (!claimed_by_other(assigned, name, field_id) && exists|j: int|
            i <= j < names.len() && #[trigger] names[j] == name),
    ensures
        kept_names(names, i, assigned, field_id, done, lost).0.contains(name),
    decreases names.len() - i,
{
    if i < names.len() {
        let own = names[i as int];
        if claimed_by_other(assigned, own, field_id) {
            lemma_kept(names, i + 1, assigned, field_id, done, lost + 1, name);
        } else {
            let more = done.push(own);
            if done.contains(name) {
                let k = choose|k: int| 0 <= k < done.len() && done[k] == name;
                assert(more[k] == name);
            } else if own == name {
                assert(more[done.len() as int] == name);
            }
            lemma_kept(names, i + 1, assigned, field_id, more, lost, name);
        }
    }
}

proof fn lemma_relieved(
    fields: Seq<MappedView>,
    i: nat,
    assigned: Map<Seq<char>, i32>,
    done: Seq<MappedView>,
)
    requires
        relieved_fields(fields, i, assigned, done) is Ok,
        done.len() == i,
        i <= fields.len(),
    ensures
        ({
            let all = relieved_fields(fields, i, assigned, done)->Ok_0;
            &&& all.len() == fields.len()
            &&& forall|j: int| 0 <= j < i ==> #[trigger] all[j] == done[j]
            &&& forall|j: int|
                i <= j < fields.len() ==> #[trigger] all[j] == (MappedView {
                    names: kept_names(
                        fields[j].names,
                        0,
                        assigned,
                        fields[j].field_id,
                        Seq::empty(),
                        0,
                    ).0,
                    ..fields[j]
                })
        }),
    decreases fields.len() - i,
{
    if i < fields.len() {
        let field = fields[i as int];
        let names = kept_names(field.names, 0, assigned, field.field_id, Seq::empty(), 0).0;
        let more = done.push(MappedView { names, ..field });
        lemma_relieved(fields, i + 1, assigned, more);
        let all = relieved_fields(fields, i, assigned, done)->Ok_0;
        assert forall|j: int| 0 <= j < i implies #[trigger] all[j] == done[j] by {
            assert(more[j] == done[j]);
        }
        assert(all[i as int] == more[i as int]);
    }
}

proof fn lemma_distinct_names_contain(
    names: Seq<Seq<char>>,
    i: nat,
    done: Seq<Seq<char>>,
    name: Seq<char>,
)
    requires
        done.contains(name) || exists|j: int| i <= j < names.len() && #[trigger] names[j] == name,
    ensures
        distinct_names(names, i, done).contains(name),
    decreases names.len() - i,
{
    if i < names.len() {
        let own = names[i as int];
        if done.contains(own) {
            lemma_distinct_names_contain(names, i + 1, done, name);
        } else {
            let more = done.push(own);
            if done.contains(name) {
                let k = choose|k: int| 0 <= k < done.len() && done[k] == name;
                assert(more[k] == name);
            } else if own == name {
                assert(more[done.len() as int] == name);
            }
            lemma_distinct_names_contain(names, i + 1, more, name);
        }
    }
}

/// A mapping keeps all its fields, in their order, with their IDs, whatever an update does; those
/// that the update adds come after them. A field that the update renames is mapped by its new name
/// too. And a field loses a name only where the update gives that name to another field.
pub proof fn law_mappings_keep_fields_and_names(
    fields: Seq<MappedView>,
    parent: Option<i32>,
    changes: ChangesView,
    i: int,
    name: Seq<char>,
)
    requires
        updated_mapping_fields(fields, parent, changes) is Ok,
        0 <= i < fields.len(),
    ensures
        ({
            let updated = updated_mapping_fields(fields, parent, changes)->Ok_0;
            &&& fields.len() <= updated.len()
            &&& updated[i].field_id == fields[i].field_id
            &&& gets_name(fields[i], name, changes) ==> updated[i].names.contains(name)
            &&& fields[i].names.contains(name) ==> updated[i].names.contains(name)
                || exists|k: int|
                0 <= k < updated.len() && #[trigger] gets_name(updated[k], name, changes)
                    && updated[k].field_id != fields[i].field_id
        }),
{
    let own = updated_from(fields, 0, changes, Seq::empty())->Ok_0;
    let all = mapping_with_added(changes, parent, 0, own)->Ok_0;
    let assigned = assigned_names(all, 0, changes, Map::empty())->Ok_0;
    let updated = relieved_fields(all, 0, assigned, Seq::empty())->Ok_0;
    lemma_updated_from(fields, 0, changes, Seq::empty());
    lemma_with_added_keeps(changes, parent, 0, own);
    lemma_assigned(all, 0, changes, Map::empty());
    lemma_relieved(all, 0, assigned, Seq::empty());
    assert(all[i] == own[i]);
    assert(updated_mapped(fields[i], changes) == Ok::<MappedView, Seq<char>>(own[i]));
    assert(updated[i].field_id == fields[i].field_id);
    let names = distinct_names(fields[i].names, 0, Seq::empty());
    if fields[i].names.contains(name) {
        let j = choose|j: int| 0 <= j < fields[i].names.len() && fields[i].names[j] == name;
        assert(fields[i].names[j] == name);
        lemma_distinct_names_contain(fields[i].names, 0, Seq::empty(), name);
        let k = choose|k: int| 0 <= k < names.len() && names[k] == name;
        assert(own[i].names[k] == name);
    }
    if gets_name(fields[i], name, changes) && !names.contains(name) {
        assert(own[i].names[names.len() as int] == name);
    }
    if gets_name(fields[i], name, changes) {
        if names.contains(name) {
            let k = choose|k: int| 0 <= k < names.len() && names[k] == name;
            assert(own[i].names[k] == name);
        }
        assert(gets_name(all[i], name, changes));
        assert(!claimed_by_other(assigned, name, all[i].field_id));
    }
    if fields[i].names.contains(name) || gets_name(fields[i], name, changes) {
        if claimed_by_other(assigned, name, all[i].field_id) {
            let k = choose|k: int|
                0 <= k < all.len() && #[trigger] gets_name(all[k], name, changes) && Some(
                    assigned[name],
                ) == all[k].field_id;
            assert(updated[k].field_id == all[k].field_id);
            assert(gets_name(updated[k], name, changes));
        } else {
            lemma_kept(
                all[i].names,
                0,
                assigned,
                all[i].field_id,
                Seq::empty(),
                0,
                name,
            );
        }
    }
}

/// Whether a mapped field mirrors a column: the same ID, its name, and all beneath it.
pub open spec fn mirrors_field(field: FieldView, mapped: MappedView) -> bool
    decreases field, 0nat,
{
    &&& mapped.field_id == Some(field.id)
    &&& mapped.names == seq![field.name]
    &&& mirrors(field.field_type, mapped.fields)
}

/// Whether mapped fields mirror what lies within a type: one for each column of a struct, in order,
/// one for the element of a list, and two for the key and the value of a map.
pub open spec fn mirrors(t: TypeView, mapped: Seq<MappedView>) -> bool
    decreases t, 1nat,
{
    match t {
        TypeView::Primitive(_) | TypeView::Variant => mapped.len() == 0,
        TypeView::Struct(fields) => {
            &&& mapped.len() == fields.len()
            &&& forall|i: int|
                0 <= i < fields.len() ==> mirrors_field(#[trigger] fields[i], mapped[i])
        },
        TypeView::List(element) => mapped.len() == 1 && mirrors_field(*element, mapped[0]),
        TypeView::MapOf(key, value) => mapped.len() == 2 && mirrors_field(*key, mapped[0])
            && mirrors_field(*value, mapped[1]),
    }
}

proof fn lemma_mirrors_from(fields: Seq<FieldView>, i: nat, done: Seq<MappedView>)
    requires
        i <= fields.len(),
        done.len() == i,
        forall|j: int| 0 <= j < i ==> mirrors_field(#[trigger] fields[j], done[j]),
    ensures
        mapped_of_fields(fields, i, done).len() == fields.len(),
        forall|j: int|
            0 <= j < fields.len() ==> mirrors_field(
                #[trigger] fields[j],
                mapped_of_fields(fields, i, done)[j],
            ),
    decreases fields, fields.len() - i,
{
    if i < fields.len() {
        law_added_columns_are_mirrored(fields[i as int]);
        let more = done.push(mapped_of_field(fields[i as int]));
        assert forall|j: int| 0 <= j < i + 1 implies mirrors_field(
            #[trigger] fields[j],
            more[j],
        ) by {
            if j < i {
                assert(more[j] == done[j]);
            }
        }
        lemma_mirrors_from(fields, i + 1, more);
    }
}

/// The mapped field that is made for an added column mirrors it, at every depth.
pub proof fn law_added_columns_are_mirrored(field: FieldView)
    ensures
        mirrors_field(field, mapped_of_field(field)),
    decreases field, 0nat,
{
    match field.field_type {
        TypeView::Primitive(_) | TypeView::Variant => {},
        TypeView::Struct(fields) => {
            lemma_mirrors_from(fields, 0, Seq::empty());
        },
        TypeView::List(element) => {
            law_added_columns_are_mirrored(*element);
        },
        TypeView::MapOf(key, value) => {
            law_added_columns_are_mirrored(*key);
            law_added_columns_are_mirrored(*value);
        },
    }
}

proof fn lemma_added_is_mapped(
    changes: ChangesView,
    parent: Option<i32>,
    i: nat,
    done: Seq<MappedView>,
    k: int,
)
    requires
        mapping_with_added(changes, parent, i, done) is Ok,
        i <= k < changes.additions.len(),
        changes.additions[k].0 == parent,
    ensures
        changes.updates.contains_key(changes.additions[k].1),
        exists|j: int|
            done.len() <= j < mapping_with_added(changes, parent, i, done)->Ok_0.len()
                && #[trigger] mapping_with_added(changes, parent, i, done)->Ok_0[j]
                == mapped_of_field(changes.updates[changes.additions[k].1]),
    decreases changes.additions.len() - i,
{
    if changes.additions[i as int].0 != parent {
        lemma_added_is_mapped(changes, parent, i + 1, done, k);
    } else {
        let own = mapped_of_field(changes.updates[changes.additions[i as int].1]);
        let more = done.push(own);
        if i == k {
            lemma_with_added_keeps(changes, parent, i + 1, more);
            let all = mapping_with_added(changes, parent, i + 1, more)->Ok_0;
            assert(all[done.len() as int] == more[done.len() as int]);
        } else {
            lemma_added_is_mapped(changes, parent, i + 1, more, k);
        }
    }
}

/// Every column that an update adds is mapped, after the fields that were mapped before, by its ID
/// and its name, and so is all beneath it, where its name is not also given to another field.
pub proof fn law_mappings_take_in_added_columns(
    fields: Seq<MappedView>,
    parent: Option<i32>,
    changes: ChangesView,
    k: int,
)
    requires
        updated_mapping_fields(fields, parent, changes) is Ok,
        0 <= k < changes.additions.len(),
        changes.additions[k].0 == parent,
        well_keyed(changes.updates),
    ensures
        ({
            let updated = updated_mapping_fields(fields, parent, changes)->Ok_0;
            let id = changes.additions[k].1;
            &&& changes.updates.contains_key(id)
            &&& exists|j: int|
                {
                    &&& fields.len() <= j < updated.len()
                    &&& (#[trigger] updated[j]).field_id == Some(id)
                    &&& updated[j].names.contains(changes.updates[id].name)
                    &&& mirrors(changes.updates[id].field_type, updated[j].fields)
                }
        }),
{
    let own = updated_from(fields, 0, changes, Seq::empty())->Ok_0;
    let all = mapping_with_added(changes, parent, 0, own)->Ok_0;
    let assigned = assigned_names(all, 0, changes, Map::empty())->Ok_0;
    let updated = relieved_fields(all, 0, assigned, Seq::empty())->Ok_0;
    let id = changes.additions[k].1;
    lemma_updated_from(fields, 0, changes, Seq::empty());
    lemma_added_is_mapped(changes, parent, 0, own, k);
    lemma_assigned(all, 0, changes, Map::empty());
    lemma_relieved(all, 0, assigned, Seq::empty());
    let field = changes.updates[id];
    let j = choose|j: int|
        own.len() <= j < all.len() && #[trigger] all[j] == mapped_of_field(field);
    law_added_columns_are_mirrored(field);
    assert(gets_name(all[j], field.name, changes));
    assert(all[j].names[0] == field.name);
    lemma_kept(all[j].names, 0, assigned, all[j].field_id, Seq::empty(), 0, field.name);
    assert(updated[j].field_id == Some(id));
}

proof fn lemma_names_come_from(
    names: Seq<Seq<char>>,
    i: nat,
    assigned: Map<Seq<char>, i32>,
    field_id: Option<i32>,
    done: Seq<Seq<char>>,
    lost: nat,
    name: Seq<char>,
)
    requires
        kept_names(names, i, assigned, field_id, done, lost).0.contains(name),
    ensures
        done.contains(name) || (names.contains(name) && !claimed_by_other(assigned, name, field_id)),
    decreases names.len() - i,
{
    if i < names.len() {
        let own = names[i as int];
        if claimed_by_other(assigned, own, field_id) {
            lemma_names_come_from(names, i + 1, assigned, field_id, done, lost + 1, name);
        } else {
            let more = done.push(own);
            lemma_names_come_from(names, i + 1, assigned, field_id, more, lost, name);
            if more.contains(name) && !done.contains(name) {
                let k = choose|k: int| 0 <= k < more.len() && more[k] == name;
                assert(k == done.len());
                assert(names[i as int] == name);
            }
        }
    }
}

proof fn lemma_distinct_names_come_from(
    names: Seq<Seq<char>>,
    i: nat,
    done: Seq<Seq<char>>,
    name: Seq<char>,
)
    requires
        distinct_names(names, i, done).contains(name),
    ensures
        done.contains(name) || names.contains(name),
    decreases names.len() - i,
{
    if i < names.len() {
        let own = names[i as int];
        if done.contains(own) {
            lemma_distinct_names_come_from(names, i + 1, done, name);
        } else {
            let more = done.push(own);
            lemma_distinct_names_come_from(names, i + 1, more, name);
            if more.contains(name) && !done.contains(name) {
                let k = choose|k: int| 0 <= k < more.len() && more[k] == name;
                assert(k == done.len());
                assert(names[i as int] == name);
            }
        }
    }
}

/// A mapped field gets no name but the one that an update gives its column, and what lies beneath it
/// is updated in the same way, for the struct that it stands for.
pub proof fn law_mapped_fields_get_no_other_names(
    fields: Seq<MappedView>,
    parent: Option<i32>,
    changes: ChangesView,
    i: int,
    name: Seq<char>,
)
    requires
        updated_mapping_fields(fields, parent, changes) is Ok,
        0 <= i < fields.len(),
    ensures
        ({
            let updated = updated_mapping_fields(fields, parent, changes)->Ok_0;
            &&& fields[i].field_id is Some
            &&& updated_mapping_fields(fields[i].fields, fields[i].field_id, changes) == Ok::<
                Seq<MappedView>,
                Seq<char>,
            >(updated[i].fields)
            &&& updated[i].names.contains(name) ==> fields[i].names.contains(name) || gets_name(
                fields[i],
                name,
                changes,
            )
        }),
{
    let own = updated_from(fields, 0, changes, Seq::empty())->Ok_0;
    let all = mapping_with_added(changes, parent, 0, own)->Ok_0;
    let assigned = assigned_names(all, 0, changes, Map::empty())->Ok_0;
    let updated = relieved_fields(all, 0, assigned, Seq::empty())->Ok_0;
    lemma_updated_from(fields, 0, changes, Seq::empty());
    lemma_with_added_keeps(changes, parent, 0, own);
    lemma_relieved(all, 0, assigned, Seq::empty());
    assert(all[i] == own[i]);
    assert(updated_mapped(fields[i], changes) == Ok::<MappedView, Seq<char>>(own[i]));
    assert(updated[i].fields == own[i].fields);
    if updated[i].names.contains(name) {
        lemma_names_come_from(own[i].names, 0, assigned, own[i].field_id, Seq::empty(), 0, name);
        let names = distinct_names(fields[i].names, 0, Seq::empty());
        let k = choose|k: int| 0 <= k < own[i].names.len() && own[i].names[k] == name;
        if k < names.len() {
            assert(names[k] == name);
            lemma_distinct_names_come_from(fields[i].names, 0, Seq::empty(), name);
        }
    }
}

/// Whether another field claims the name at `a`.
pub open spec fn loses(
    names: Seq<Seq<char>>,
    a: int,
    assigned: Map<Seq<char>, i32>,
    field_id: Option<i32>,
) -> bool {
    assigned.contains_key(names[a]) && Some(assigned[names[a]]) != field_id
}

proof fn lemma_lost_names(
    names: Seq<Seq<char>>,
    i: nat,
    assigned: Map<Seq<char>, i32>,
    field_id: Option<i32>,
    done: Seq<Seq<char>>,
    lost: nat,
)
    ensures
        ({
            let (_, all) = kept_names(names, i, assigned, field_id, done, lost);
            &&& all >= lost
            &&& all > lost <==> exists|a: int|
                i <= a < names.len() && #[trigger] loses(names, a, assigned, field_id)
            &&& all > lost + 1 <==> exists|a: int, b: int|
                i <= a < b < names.len() && #[trigger] loses(names, a, assigned, field_id)
                    && #[trigger] loses(names, b, assigned, field_id)
        }),
    decreases names.len() - i,
{
    if i < names.len() {
        let first = loses(names, i as int, assigned, field_id);
        if first {
            lemma_lost_names(names, i + 1, assigned, field_id, done, lost + 1);
            let (_, all) = kept_names(names, i, assigned, field_id, done, lost);
            if all > lost + 1 {
                let b = choose|b: int|
                    i + 1 <= b < names.len() && #[trigger] loses(names, b, assigned, field_id);
                assert(i <= i < b && loses(names, i as int, assigned, field_id));
            }
            if exists|a: int, b: int|
                i <= a < b < names.len() && #[trigger] loses(names, a, assigned, field_id)
                    && #[trigger] loses(names, b, assigned, field_id) {
                let (a, b) = choose|a: int, b: int|
                    i <= a < b < names.len() && #[trigger] loses(names, a, assigned, field_id)
                        && #[trigger] loses(names, b, assigned, field_id);
                assert(i + 1 <= b && loses(names, b, assigned, field_id));
            }
        } else {
            lemma_lost_names(
                names,
                i + 1,
                assigned,
                field_id,
                done.push(names[i as int]),
                lost,
            );
            if exists|a: int, b: int|
                i <= a < b < names.len() && #[trigger] loses(names, a, assigned, field_id)
                    && #[trigger] loses(names, b, assigned, field_id) {
                let (a, b) = choose|a: int, b: int|
                    i <= a < b < names.len() && #[trigger] loses(names, a, assigned, field_id)
                        && #[trigger] loses(names, b, assigned, field_id);
                assert(a != i);
                assert(i + 1 <= a && loses(names, a, assigned, field_id) && loses(
                    names,
                    b,
                    assigned,
                    field_id,
                ));
            }
        }
    }
}

/// Whether two names of a field are claimed by others.
pub open spec fn loses_two(field: MappedView, assigned: Map<Seq<char>, i32>) -> bool {
    exists|a: int, b: int|
        0 <= a < b < field.names.len() && #[trigger] loses(
            field.names,
            a,
            assigned,
            field.field_id,
        ) && #[trigger] loses(field.names, b, assigned, field.field_id)
}

/// A field may lose one of its names to another field that claims it, but not two: a mapping in which
/// one would is left alone.
pub proof fn law_fields_lose_one_name_at_most(
    fields: Seq<MappedView>,
    i: nat,
    assigned: Map<Seq<char>, i32>,
    done: Seq<MappedView>,
)
    ensures
        relieved_fields(fields, i, assigned, done) is Ok <==> forall|k: int|
            i <= k < fields.len() ==> !loses_two(#[trigger] fields[k], assigned),
    decreases fields.len() - i,
{
    if i < fields.len() {
        let field = fields[i as int];
        let (names, lost) = kept_names(field.names, 0, assigned, field.field_id, Seq::empty(), 0);
        lemma_lost_names(field.names, 0, assigned, field.field_id, Seq::empty(), 0);
        assert(lost > 1 <==> loses_two(field, assigned));
        if lost <= 1 {
            law_fields_lose_one_name_at_most(
                fields,
                i + 1,
                assigned,
                done.push(MappedView { names, ..field }),
            );
        }
    }
}

/// Two mapped fields must not claim the same name, each as its new one; else the name that a field
/// claims is the current one of an updated column.
pub proof fn law_names_are_claimed_once(
    fields: Seq<MappedView>,
    i: nat,
    changes: ChangesView,
    done: Map<Seq<char>, i32>,
    k: int,
)
    requires
        assigned_names(fields, i, changes, done) is Ok,
    ensures
        ({
            let all = assigned_names(fields, i, changes, done)->Ok_0;
            &&& forall|name: Seq<char>| #[trigger]
                done.contains_key(name) ==> all.contains_key(name) && all[name] == done[name]
            &&& i <= k < fields.len() && fields[k].field_id is Some && changes.updates.contains_key(
                fields[k].field_id->0,
            ) ==> {
                let id = fields[k].field_id->0;
                all.contains_key(changes.updates[id].name) && all[changes.updates[id].name] == id
            }
        }),
    decreases fields.len() - i,
{
    if i < fields.len() {
        match fields[i as int].field_id {
            None => law_names_are_claimed_once(fields, i + 1, changes, done, k),
            Some(id) => {
                if !changes.updates.contains_key(id) {
                    law_names_are_claimed_once(fields, i + 1, changes, done, k);
                } else {
                    let name = changes.updates[id].name;
                    let next = done.insert(name, id);
                    law_names_are_claimed_once(fields, i + 1, changes, next, k);
                    assert(next.contains_key(name));
                    assert forall|other: Seq<char>| #[trigger] done.contains_key(other) implies {
                        let all = assigned_names(fields, i, changes, done)->Ok_0;
                        all.contains_key(other) && all[other] == done[other]
                    } by {
                        assert(next.contains_key(other));
                    }
                }
            },
        }
    }
}

} // verus!
