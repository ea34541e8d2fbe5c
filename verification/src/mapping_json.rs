//! Name mappings as JSON text.

use vstd::prelude::*;

use crate::changes::Changes;
#[allow(unused_imports)]
use crate::changes::ChangesView;
use crate::json::{json_integer, json_items, json_member, json_quote, json_string, json_text};
#[allow(unused_imports)]
use crate::json::{
    array_items, integer_value, list_reading, normal_text, object_member, quoted, string_value,
    JsonResult,
};
use crate::name_mapping::{
    mapping_same, push_mapped, push_name, update_name_mapping, MappedField,
};
#[allow(unused_imports)]
use crate::name_mapping::{
    lemma_mapped_view, mapped_outcome, mapping_outcome, mapping_view, updated_mapping, MappedView,
    MappingResult,
};
use crate::text::{cat2, cat3, int_to_text};
#[allow(unused_imports)]
use crate::text::{int_numeral, opt_text, texts};

verus! {

/// How deeply the fields of a mapping may be nested. JSON text is not read beyond this depth
/// either.
pub const MAX_DEPTH: u32 = 128;

/// What is wrong with the shape of the JSON texts from `i` on: each must be an object whose fields,
/// where it has that member, are an array of the same shape.
pub open spec fn checked_items(items: Seq<Seq<char>>, i: nat, depth: nat) -> MappingResult<()>
    decreases depth, 1 + items.len() - i,
{
    if i >= items.len() {
        Ok(())
    } else {
        match object_member(items[i as int], "fields"@) {
            None => Err("Cannot parse non-object mapping field: "@ + items[i as int]),
            Some(None) => checked_items(items, i + 1, depth),
            Some(Some(children)) => match checked_shape(children, depth) {
                Err(message) => Err(message),
                Ok(_) => checked_items(items, i + 1, depth),
            },
        }
    }
}

/// What is wrong with the shape of mapped fields: they must be an array of objects, at every level.
pub open spec fn checked_shape(text: Seq<char>, depth: nat) -> MappingResult<()>
    decreases depth, 0nat,
{
    if depth == 0 {
        Err("Mapped fields are nested too deeply"@)
    } else {
        match array_items(text) {
            Err(_) => Err("Cannot parse non-array mapping fields: "@ + text),
            Ok(items) => checked_items(items, 0, (depth - 1) as nat),
        }
    }
}

/// The names that a list of JSON texts from `i` on stands for, after those in `done`.
pub open spec fn decoded_names(
    items: Seq<Seq<char>>,
    i: nat,
    done: Seq<Seq<char>>,
) -> MappingResult<Seq<Seq<char>>>
    decreases items.len() - i,
{
    if i >= items.len() {
        Ok(done)
    } else {
        match string_value(items[i as int]) {
            Ok(name) => decoded_names(items, i + 1, done.push(name)),
            Err(message) => Err(message),
        }
    }
}

/// The names of a mapped field: none where they are left out.
pub open spec fn names_member(text: Option<Seq<char>>) -> MappingResult<Seq<Seq<char>>> {
    match text {
        None => Ok(Seq::empty()),
        Some(names) => match array_items(names) {
            Err(message) => Err(message),
            Ok(items) => decoded_names(items, 0, Seq::empty()),
        },
    }
}

/// The ID of a mapped field: none where it is left out or null.
pub open spec fn id_member(text: Option<Seq<char>>) -> MappingResult<Option<i32>> {
    match text {
        None => Ok(None),
        Some(id) => integer_value(id),
    }
}

/// The mapped field that a JSON object stands for. Of several members that cannot be read, the ID
/// comes first, then the fields, then the names.
pub open spec fn decoded_field(text: Seq<char>, depth: nat) -> MappingResult<MappedView>
    decreases depth, 1nat,
{
    match (
        object_member(text, "field-id"@),
        object_member(text, "fields"@),
        object_member(text, "names"@),
    ) {
        (Some(id), Some(fields), Some(names)) => match id_member(id) {
            Err(message) => Err(message),
            Ok(field_id) => match (match fields {
                Some(children) => decoded_fields(children, depth),
                None => Ok(Seq::empty()),
            }) {
                Err(message) => Err(message),
                Ok(children) => match names_member(names) {
                    Err(message) => Err(message),
                    Ok(list) => Ok(MappedView { field_id, names: list, fields: children }),
                },
            },
        },
        _ => Err("Cannot parse non-object mapping field: "@ + text),
    }
}

/// The mapped fields that the JSON texts from `i` on stand for, after those in `done`.
pub open spec fn decoded_items(
    items: Seq<Seq<char>>,
    i: nat,
    depth: nat,
    done: Seq<MappedView>,
) -> MappingResult<Seq<MappedView>>
    decreases depth, 2 + items.len() - i,
{
    if i >= items.len() {
        Ok(done)
    } else {
        match decoded_field(items[i as int], depth) {
            Err(message) => Err(message),
            Ok(field) => decoded_items(items, i + 1, depth, done.push(field)),
        }
    }
}

/// The mapped fields that a JSON array stands for.
pub open spec fn decoded_fields(text: Seq<char>, depth: nat) -> MappingResult<Seq<MappedView>>
    decreases depth, 0nat,
{
    if depth == 0 {
        Err("Mapped fields are nested too deeply"@)
    } else {
        match array_items(text) {
            Err(_) => Err("Cannot parse non-array mapping fields: "@ + text),
            Ok(items) => decoded_items(items, 0, (depth - 1) as nat, Seq::empty()),
        }
    }
}

/// The mapping that a text holds: the text must be JSON, of the right shape at every level, and then
/// its members of the right types.
pub open spec fn read_mapping(raw: Seq<char>) -> MappingResult<Seq<MappedView>> {
    match normal_text(raw) {
        Err(message) => Err(message),
        Ok(text) => match checked_shape(text, MAX_DEPTH as nat) {
            Err(message) => Err(message),
            Ok(_) => decoded_fields(text, MAX_DEPTH as nat),
        },
    }
}

/// The JSON texts of names from `i` on, with commas between them, after `done`.
pub open spec fn encoded_names(names: Seq<Seq<char>>, i: nat, done: Seq<char>) -> Seq<char>
    decreases names.len() - i,
{
    if i >= names.len() {
        done
    } else {
        encoded_names(
            names,
            i + 1,
            (if i == 0 {
                done
            } else {
                done + ","@
            }) + quoted(names[i as int]),
        )
    }
}

/// The beginning of a mapped field as JSON: its ID, where it has one.
pub open spec fn encoded_id(id: Option<i32>) -> Seq<char> {
    match id {
        Some(i) => "{\"field-id\":"@ + int_numeral(i as int) + ","@,
        None => "{"@,
    }
}

/// A mapped field as JSON. The ID is left out where there is none, and so are the fields.
pub open spec fn encoded_field(field: MappedView) -> Seq<char>
    decreases field, 0nat,
{
    let start = encoded_id(field.field_id) + "\"names\":["@ + encoded_names(
        field.names,
        0,
        Seq::empty(),
    ) + "]"@;
    if field.fields.len() == 0 {
        start + "}"@
    } else {
        start + ",\"fields\":"@ + encoded_fields(field.fields) + "}"@
    }
}

/// Mapped fields from `i` on as JSON, with commas between them, after `done`.
pub open spec fn encoded_from(fields: Seq<MappedView>, i: nat, done: Seq<char>) -> Seq<char>
    decreases fields, fields.len() - i,
{
    if i >= fields.len() {
        done
    } else {
        encoded_from(
            fields,
            i + 1,
            (if i == 0 {
                done
            } else {
                done + ","@
            }) + encoded_field(fields[i as int]),
        )
    }
}

/// Mapped fields as a JSON array.
pub open spec fn encoded_fields(fields: Seq<MappedView>) -> Seq<char>
    decreases fields, fields.len() + 1,
{
    "["@ + encoded_from(fields, 0, Seq::empty()) + "]"@
}

/// The mapping that a text holds, brought up to date: a new text where it changed, or a message for
/// a mapping that cannot be read or updated.
pub open spec fn updated_json(raw: Seq<char>, changes: ChangesView) -> MappingResult<
    Option<Seq<char>>,
> {
    match read_mapping(raw) {
        Err(message) => Err(message),
        Ok(mapping) => match updated_mapping(mapping, changes) {
            Err(message) => Err(message),
            Ok(updated) => if updated == mapping {
                Ok(None)
            } else {
                Ok(Some(encoded_fields(updated)))
            },
        },
    }
}

/// An optional text as the result of a fallible step.
pub open spec fn json_outcome(result: Result<Option<String>, String>) -> MappingResult<
    Option<Seq<char>>,
> {
    match result {
        Ok(text) => Ok(opt_text(text)),
        Err(message) => Err(message@),
    }
}

/// Brings the mapping that a text holds up to date. Gives a new text back where it changed.
pub fn update_name_mapping_json(raw_mapping: &str, changes: &Changes) -> (result: Result<
    Option<String>,
    String,
>)
    ensures
        json_outcome(result) == updated_json(raw_mapping@, changes@),
{
    let text = match json_text(raw_mapping) {
        Ok(text) => text,
        Err(message) => return Err(message),
    };
    match validate_mapping_json_shape(text.as_str(), MAX_DEPTH) {
        Ok(_) => {},
        Err(message) => return Err(message),
    }
    let mapping = match decode_fields(text.as_str(), MAX_DEPTH) {
        Ok(mapping) => mapping,
        Err(message) => return Err(message),
    };
    match update_name_mapping(&mapping, changes) {
        Err(message) => Err(message),
        Ok(updated) => if mapping_same(&updated, &mapping) {
            Ok(None)
        } else {
            Ok(Some(encode_fields(&updated)))
        },
    }
}

/// A check that gives nothing back as the result of a fallible step.
spec fn check_outcome(result: Result<(), String>) -> MappingResult<()> {
    match result {
        Ok(_) => Ok(()),
        Err(message) => Err(message@),
    }
}

fn validate_mapping_json_shape(text: &str, depth: u32) -> (result: Result<(), String>)
    ensures
        check_outcome(result) == checked_shape(text@, depth as nat),
    decreases depth,
{
    if depth == 0 {
        return Err("Mapped fields are nested too deeply".to_owned());
    }
    let items = match json_items(text) {
        Ok(items) => items,
        Err(_) => return Err(cat2("Cannot parse non-array mapping fields: ", text)),
    };
    let ghost all = texts(items@);
    let ghost below = (depth - 1) as nat;
    let mut i: usize = 0;
    while i < items.len()
        invariant
            i <= items@.len(),
            depth > 0,
            below == depth - 1,
            all == texts(items@),
            array_items(text@) == MappingResult::<Seq<Seq<char>>>::Ok(all),
            checked_items(all, i as nat, below) == checked_items(all, 0, below),
        decreases items@.len() - i,
    {
        assert(all[i as int] == items@[i as int]@);
        match json_member(items[i].as_str(), "fields") {
            None => {
                return Err(
                    cat2("Cannot parse non-object mapping field: ", items[i].as_str()),
                );
            },
            Some(None) => {},
            Some(Some(children)) => match validate_mapping_json_shape(
                children.as_str(),
                depth - 1,
            ) {
                Ok(_) => {},
                Err(message) => return Err(message),
            },
        }
        i += 1;
    }
    Ok(())
}

fn decode_names(text: &Option<String>) -> (result: Result<Vec<String>, String>)
    ensures
        list_reading(result) == names_member(opt_text(*text)),
{
    let mut names: Vec<String> = Vec::new();
    assert(texts(names@) =~= Seq::empty());
    let raw = match text {
        None => return Ok(names),
        Some(raw) => raw,
    };
    let items = match json_items(raw.as_str()) {
        Ok(items) => items,
        Err(message) => return Err(message),
    };
    let ghost all = texts(items@);
    let mut i: usize = 0;
    while i < items.len()
        invariant
            i <= items@.len(),
            all == texts(items@),
            array_items(raw@) == MappingResult::<Seq<Seq<char>>>::Ok(all),
            opt_text(*text) == Some(raw@),
            decoded_names(all, i as nat, texts(names@)) == decoded_names(all, 0, Seq::empty()),
        decreases items@.len() - i,
    {
        assert(all[i as int] == items@[i as int]@);
        match json_string(items[i].as_str()) {
            Ok(name) => push_name(&mut names, name),
            Err(message) => return Err(message),
        }
        i += 1;
    }
    Ok(names)
}

fn decode_id(text: &Option<String>) -> (result: Result<Option<i32>, String>)
    ensures
        match (result, id_member(opt_text(*text))) {
            (Ok(id), Ok(expected)) => id == expected,
            (Err(message), Err(expected)) => message@ == expected,
            _ => false,
        },
{
    match text {
        None => Ok(None),
        Some(id) => json_integer(id.as_str()),
    }
}

fn decode_field(text: &str, depth: u32) -> (result: Result<MappedField, String>)
    ensures
        mapped_outcome(result) == decoded_field(text@, depth as nat),
    decreases depth, 1nat,
{
    match (
        json_member(text, "field-id"),
        json_member(text, "fields"),
        json_member(text, "names"),
    ) {
        (Some(id), Some(fields), Some(names)) => {
            let field_id = match decode_id(&id) {
                Ok(field_id) => field_id,
                Err(message) => return Err(message),
            };
            let children: Vec<MappedField> = match fields {
                Some(raw) => match decode_fields(raw.as_str(), depth) {
                    Ok(children) => children,
                    Err(message) => return Err(message),
                },
                None => {
                    let none: Vec<MappedField> = Vec::new();
                    assert(mapping_view(none@) =~= Seq::empty());
                    none
                },
            };
            let names = match decode_names(&names) {
                Ok(names) => names,
                Err(message) => return Err(message),
            };
            let field = MappedField { field_id, names, fields: children };
            proof {
                lemma_mapped_view(field);
            }
            Ok(field)
        },
        _ => Err(cat2("Cannot parse non-object mapping field: ", text)),
    }
}

fn decode_fields(text: &str, depth: u32) -> (result: Result<Vec<MappedField>, String>)
    ensures
        mapping_outcome(result) == decoded_fields(text@, depth as nat),
    decreases depth, 0nat,
{
    if depth == 0 {
        return Err("Mapped fields are nested too deeply".to_owned());
    }
    let items = match json_items(text) {
        Ok(items) => items,
        Err(_) => return Err(cat2("Cannot parse non-array mapping fields: ", text)),
    };
    let ghost all = texts(items@);
    let ghost below = (depth - 1) as nat;
    let mut fields: Vec<MappedField> = Vec::new();
    let mut i: usize = 0;
    assert(mapping_view(fields@) =~= Seq::empty());
    while i < items.len()
        invariant
            i <= items@.len(),
            depth > 0,
            below == depth - 1,
            all == texts(items@),
            array_items(text@) == MappingResult::<Seq<Seq<char>>>::Ok(all),
            decoded_items(all, i as nat, below, mapping_view(fields@)) == decoded_items(
                all,
                0,
                below,
                Seq::empty(),
            ),
        decreases items@.len() - i,
    {
        assert(all[i as int] == items@[i as int]@);
        match decode_field(items[i].as_str(), depth - 1) {
            Ok(field) => push_mapped(&mut fields, field),
            Err(message) => return Err(message),
        }
        i += 1;
    }
    Ok(fields)
}

fn encode_names(names: &Vec<String>) -> (text: String)
    ensures
        text@ == encoded_names(texts(names@), 0, Seq::empty()),
{
    let ghost all = texts(names@);
    let mut text = String::new();
    let mut i: usize = 0;
    assert(text@ =~= Seq::empty());
    while i < names.len()
        invariant
            i <= names@.len(),
            all == texts(names@),
            encoded_names(all, i as nat, text@) == encoded_names(all, 0, Seq::empty()),
        decreases names@.len() - i,
    {
        assert(all[i as int] == names@[i as int]@);
        if i > 0 {
            text = text.concat(",");
        }
        text = text.concat(json_quote(names[i].as_str()).as_str());
        i += 1;
    }
    text
}

fn encode_field(field: &MappedField) -> (text: String)
    ensures
        text@ == encoded_field(field@),
    decreases field, 0nat,
{
    proof {
        lemma_mapped_view(*field);
    }
    let id = match field.field_id {
        Some(i) => cat3("{\"field-id\":", int_to_text(i as i64).as_str(), ","),
        None => "{".to_owned(),
    };
    let names = encode_names(&field.names);
    let start = id.concat("\"names\":[").concat(names.as_str()).concat("]");
    if field.fields.len() == 0 {
        start.concat("}")
    } else {
        let fields = encode_fields(&field.fields);
        start.concat(",\"fields\":").concat(fields.as_str()).concat("}")
    }
}

fn encode_fields(fields: &Vec<MappedField>) -> (text: String)
    ensures
        text@ == encoded_fields(mapping_view(fields@)),
    decreases fields, 0nat,
{
    let ghost all = mapping_view(fields@);
    let mut text = String::new();
    let mut i: usize = 0;
    assert(text@ =~= Seq::empty());
    while i < fields.len()
        invariant
            i <= fields@.len(),
            all == mapping_view(fields@),
            encoded_from(all, i as nat, text@) == encoded_from(all, 0, Seq::empty()),
        decreases fields@.len() - i,
    {
        assert(decreases_to!(fields => fields@));
        assert(decreases_to!(fields@ => fields@[i as int]));
        assert(all[i as int] == fields@[i as int]@);
        if i > 0 {
            text = text.concat(",");
        }
        text = text.concat(encode_field(&fields[i]).as_str());
        i += 1;
    }
    cat3("[", text.as_str(), "]")
}

proof fn lemma_names_are_read(items: Seq<Seq<char>>, i: nat, done: Seq<Seq<char>>)
    requires
        i == done.len(),
        i <= items.len(),
        decoded_names(items, i, done) is Ok,
    ensures
        ({
            let names = decoded_names(items, i, done)->Ok_0;
            &&& names.len() == items.len()
            &&& forall|k: int| 0 <= k < i ==> #[trigger] names[k] == done[k]
            &&& forall|k: int|
                i <= k < items.len() ==> string_value(#[trigger] items[k]) == JsonResult::Ok(
                    names[k],
                )
        }),
    decreases items.len() - i,
{
    if i < items.len() {
        let name = string_value(items[i as int])->Ok_0;
        lemma_names_are_read(items, i + 1, done.push(name));
        assert(done.push(name)[i as int] == name);
    }
}

proof fn lemma_items_are_read(items: Seq<Seq<char>>, i: nat, depth: nat, done: Seq<MappedView>)
    requires
        i == done.len(),
        i <= items.len(),
        decoded_items(items, i, depth, done) is Ok,
    ensures
        ({
            let fields = decoded_items(items, i, depth, done)->Ok_0;
            &&& fields.len() == items.len()
            &&& forall|k: int| 0 <= k < i ==> #[trigger] fields[k] == done[k]
            &&& forall|k: int|
                i <= k < items.len() ==> decoded_field(#[trigger] items[k], depth)
                    == MappingResult::Ok(fields[k])
        }),
    decreases items.len() - i,
{
    if i < items.len() {
        let field = decoded_field(items[i as int], depth)->Ok_0;
        lemma_items_are_read(items, i + 1, depth, done.push(field));
        assert(done.push(field)[i as int] == field);
    }
}

/// A mapped field is read member by member: its ID from `field-id`, its names from `names` and its
/// fields from `fields`, each in its order. What is left out is read as nothing.
pub proof fn law_mapped_fields_are_read(text: Seq<char>, depth: nat)
    requires
        decoded_field(text, depth) is Ok,
    ensures
        ({
            let field = decoded_field(text, depth)->Ok_0;
            &&& object_member(text, "field-id"@) matches Some(id) && match id {
                None => field.field_id is None,
                Some(number) => integer_value(number) == JsonResult::Ok(field.field_id),
            }
            &&& object_member(text, "names"@) matches Some(names) && match names {
                None => field.names.len() == 0,
                Some(list) => {
                    &&& array_items(list) matches Ok(items)
                    &&& items.len() == field.names.len()
                    &&& forall|k: int|
                        0 <= k < items.len() ==> string_value(#[trigger] items[k])
                            == JsonResult::Ok(field.names[k])
                },
            }
            &&& object_member(text, "fields"@) matches Some(fields) && match fields {
                None => field.fields.len() == 0,
                Some(list) => {
                    &&& depth > 0
                    &&& array_items(list) matches Ok(items)
                    &&& items.len() == field.fields.len()
                    &&& forall|k: int|
                        0 <= k < items.len() ==> decoded_field(
                            #[trigger] items[k],
                            (depth - 1) as nat,
                        ) == MappingResult::Ok(field.fields[k])
                },
            }
        }),
{
    if let Some(Some(list)) = object_member(text, "names"@) {
        if let Ok(items) = array_items(list) {
            lemma_names_are_read(items, 0, Seq::empty());
        }
    }
    if let Some(Some(list)) = object_member(text, "fields"@) {
        if let Ok(items) = array_items(list) {
            lemma_items_are_read(items, 0, (depth - 1) as nat, Seq::empty());
        }
    }
}

proof fn lemma_fields_are_written(fields: Seq<MappedView>, field: MappedView, i: nat, done: Seq<char>)
    requires
        i <= fields.len(),
    ensures
        encoded_from(fields.push(field), i, done) == (if fields.len() == 0 {
            done
        } else {
            encoded_from(fields, i, done) + ","@
        }) + encoded_field(field),
    decreases fields.len() - i,
{
    let longer = fields.push(field);
    if i < fields.len() {
        assert(longer[i as int] == fields[i as int]);
        lemma_fields_are_written(
            fields,
            field,
            i + 1,
            (if i == 0 {
                done
            } else {
                done + ","@
            }) + encoded_field(fields[i as int]),
        );
    } else {
        assert(longer[i as int] == field);
        let last = (if i == 0 {
            done
        } else {
            done + ","@
        }) + encoded_field(field);
        assert(encoded_from(longer, i + 1, last) == last);
    }
}

/// A mapping is written as a JSON array of its fields, in their order.
pub proof fn law_mappings_are_written(fields: Seq<MappedView>, field: MappedView)
    ensures
        encoded_fields(Seq::empty()) == "[]"@,
        encoded_fields(fields.push(field)) == (if fields.len() == 0 {
            "["@
        } else {
            encoded_fields(fields).drop_last() + ","@
        }) + encoded_field(field) + "]"@,
{
    reveal_strlit("[");
    reveal_strlit("]");
    reveal_strlit("[]");
    let none = Seq::<MappedView>::empty();
    assert(encoded_from(none, 0, Seq::empty()) =~= Seq::<char>::empty());
    assert(encoded_fields(none) =~= "[]"@);
    lemma_fields_are_written(fields, field, 0, Seq::empty());
    let written = encoded_from(fields, 0, Seq::empty());
    assert(encoded_fields(fields).drop_last() =~= "["@ + written);
    if fields.len() == 0 {
        assert("["@ + (Seq::<char>::empty() + encoded_field(field)) + "]"@ =~= "["@ + encoded_field(
            field,
        ) + "]"@);
    } else {
        assert("["@ + (written + ","@ + encoded_field(field)) + "]"@ =~= ("["@ + written) + ","@
            + encoded_field(field) + "]"@);
    }
}

/// A mapping that the update does not change is not written again; one that it does is written as it
/// is after the update.
pub proof fn law_mappings_are_written_where_they_change(raw: Seq<char>, changes: ChangesView)
    ensures
        updated_json(raw, changes) is Ok <==> read_mapping(raw) is Ok && updated_mapping(
            read_mapping(raw)->Ok_0,
            changes,
        ) is Ok,
        updated_json(raw, changes) matches Ok(written) ==> {
            let before = read_mapping(raw)->Ok_0;
            let after = updated_mapping(before, changes)->Ok_0;
            written is None <==> after == before
        },
        updated_json(raw, changes) matches Ok(Some(text)) ==> text == encoded_fields(
            updated_mapping(read_mapping(raw)->Ok_0, changes)->Ok_0,
        ),
{
}

} // verus!
