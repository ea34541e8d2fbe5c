//! Table properties that belong to columns, carried along when columns are renamed or deleted.

use vstd::prelude::*;

use crate::changes::Changes;
#[allow(unused_imports)]
use crate::changes::ChangesView;
use crate::order::sort_texts;
#[allow(unused_imports)]
use crate::order::{in_order, law_in_order_is_a_sorted_permutation};
use crate::schema::Schema;
#[allow(unused_imports)]
use crate::schema::SchemaView;
use crate::text::{cat2, chars_of, text_eq, text_of};
#[allow(unused_imports)]
use crate::text::texts;

verus! {

/// The prefixes of properties that end in the name of a column.
pub open spec fn column_prefixes() -> Seq<Seq<char>> {
    seq![
        "write.metadata.metrics.column."@,
        "write.parquet.bloom-filter-enabled.column."@,
        "write.parquet.stats-enabled.column."@,
    ]
}

/// What follows `prefix` in `text`, if it begins with it.
pub open spec fn after_prefix(text: Seq<char>, prefix: Seq<char>) -> Option<Seq<char>> {
    if prefix.len() <= text.len() && text.subrange(0, prefix.len() as int) == prefix {
        Some(text.subrange(prefix.len() as int, text.len() as int))
    } else {
        None
    }
}

/// The first prefix, from the one at `i` on, that a property begins with, and the column that
/// follows it.
pub open spec fn property_column(key: Seq<char>, i: nat) -> Option<(Seq<char>, Seq<char>)>
    decreases 3 - i,
{
    if i >= 3 {
        None
    } else {
        match after_prefix(key, column_prefixes()[i as int]) {
            Some(column) => Some((column_prefixes()[i as int], column)),
            None => property_column(key, i + 1),
        }
    }
}

/// The new full name of a column that an update renames, itself or a field that encloses it, where
/// the column itself was updated.
pub open spec fn new_name_of(
    column: Seq<char>,
    base: SchemaView,
    updated: SchemaView,
    changes: ChangesView,
) -> Option<Seq<char>> {
    match base.full_id(column) {
        None => None,
        Some(id) => if changes.updates.contains_key(id) && !changes.adds(id) {
            match updated.name_of(id) {
                Some(name) => if name != column {
                    Some(name)
                } else {
                    None
                },
                None => None,
            }
        } else {
            None
        },
    }
}

/// Whether an update deletes a column.
pub open spec fn is_deleted(column: Seq<char>, base: SchemaView, changes: ChangesView) -> bool {
    base.full_id(column) matches Some(id) && changes.deletes.contains(id)
}

/// Properties to remove and properties to set.
#[derive(Debug)]
pub struct ColumnPropertyChanges {
    pub removals: Vec<String>,
    pub updates: Vec<(String, String)>,
}

/// The mathematical value of [`ColumnPropertyChanges`].
pub struct PropertyChangesView {
    pub removals: Seq<Seq<char>>,
    pub updates: Seq<(Seq<char>, Seq<char>)>,
}

/// A list of properties by their views.
pub open spec fn properties_view(properties: Seq<(String, String)>) -> Seq<(Seq<char>, Seq<char>)> {
    properties.map_values(|property: (String, String)| (property.0@, property.1@))
}

impl View for ColumnPropertyChanges {
    type V = PropertyChangesView;

    open spec fn view(&self) -> PropertyChangesView {
        PropertyChangesView {
            removals: texts(self.removals@),
            updates: properties_view(self.updates@),
        }
    }
}

/// The changes for the properties from `i` on, after those in `done`: the property of a renamed
/// column moves to its new name, that of a deleted column goes, and all others stay.
pub open spec fn collected_changes(
    properties: Seq<(Seq<char>, Seq<char>)>,
    base: SchemaView,
    updated: SchemaView,
    changes: ChangesView,
    i: nat,
    done: PropertyChangesView,
) -> PropertyChangesView
    decreases properties.len() - i,
{
    if i >= properties.len() {
        done
    } else {
        let (key, value) = properties[i as int];
        let next = match property_column(key, 0) {
            None => done,
            Some((prefix, column)) => match new_name_of(column, base, updated, changes) {
                Some(name) => PropertyChangesView {
                    removals: done.removals.push(key),
                    updates: done.updates.push((prefix + name, value)),
                },
                None => if is_deleted(column, base, changes) {
                    PropertyChangesView { removals: done.removals.push(key), ..done }
                } else {
                    done
                },
            },
        };
        collected_changes(properties, base, updated, changes, i + 1, next)
    }
}

/// No changes to properties.
pub open spec fn no_property_changes() -> PropertyChangesView {
    PropertyChangesView { removals: Seq::empty(), updates: Seq::empty() }
}

/// The changes of the column properties that an update brings, the removals in order.
pub open spec fn property_changes(
    properties: Seq<(Seq<char>, Seq<char>)>,
    base: SchemaView,
    updated: SchemaView,
    changes: ChangesView,
) -> PropertyChangesView {
    let all = collected_changes(properties, base, updated, changes, 0, no_property_changes());
    PropertyChangesView { removals: in_order(all.removals, all.removals.len()), ..all }
}

impl ColumnPropertyChanges {
    /// Whether nothing changes.
    pub fn is_empty(&self) -> (empty: bool)
        ensures
            empty == (self@.removals.len() == 0 && self@.updates.len() == 0),
    {
        self.removals.len() == 0 && self.updates.len() == 0
    }
}

/// What follows `prefix` in `text`, if it begins with it.
fn strip_prefix(text: &str, prefix: &str) -> (rest: Option<String>)
    ensures
        crate::text::opt_text(rest) == after_prefix(text@, prefix@),
{
    let chars = chars_of(text);
    let start = chars_of(prefix);
    if start.len() > chars.len() {
        return None;
    }
    let head = text_of(&chars, 0, start.len());
    if !text_eq(head.as_str(), prefix) {
        return None;
    }
    Some(text_of(&chars, start.len(), chars.len()))
}

/// The prefix that a property begins with, and the column that follows it.
fn split_property(key: &str) -> (result: Option<(String, String)>)
    ensures
        match result {
            Some(parts) => property_column(key@, 0) == Some((parts.0@, parts.1@)),
            None => property_column(key@, 0) is None,
        },
{
    reveal_with_fuel(property_column, 4);
    match strip_prefix(key, "write.metadata.metrics.column.") {
        Some(column) => return Some(("write.metadata.metrics.column.".to_owned(), column)),
        None => {},
    }
    match strip_prefix(key, "write.parquet.bloom-filter-enabled.column.") {
        Some(column) => return Some(
            ("write.parquet.bloom-filter-enabled.column.".to_owned(), column),
        ),
        None => {},
    }
    match strip_prefix(key, "write.parquet.stats-enabled.column.") {
        Some(column) => Some(("write.parquet.stats-enabled.column.".to_owned(), column)),
        None => None,
    }
}

/// The new full name of a column that an update renames.
fn renamed_column<'a>(
    column: &str,
    base_schema: &Schema,
    updated_schema: &'a Schema,
    changes: &Changes,
) -> (name: Option<&'a str>)
    ensures
        match name {
            Some(n) => new_name_of(column@, base_schema@, updated_schema@, changes@) == Some(n@),
            None => new_name_of(column@, base_schema@, updated_schema@, changes@) is None,
        },
{
    let id: i32 = match base_schema.id_by_full_name(column) {
        Some(id) => id,
        None => return None,
    };
    if !changes.updates.contains(id) || changes.adds(id) {
        return None;
    }
    match updated_schema.name_by_field_id(id) {
        Some(name) => if text_eq(name, column) {
            None
        } else {
            Some(name)
        },
        None => None,
    }
}

/// The changes of the column properties that an update brings.
pub fn column_property_changes(
    properties: &Vec<(String, String)>,
    base_schema: &Schema,
    updated_schema: &Schema,
    changes: &Changes,
) -> (result: ColumnPropertyChanges)
    ensures
        result@ == property_changes(
            properties_view(properties@),
            base_schema@,
            updated_schema@,
            changes@,
        ),
{
    let ghost all = properties_view(properties@);
    let ghost base = base_schema@;
    let ghost updated = updated_schema@;
    let ghost view = changes@;
    let mut result = ColumnPropertyChanges { removals: Vec::new(), updates: Vec::new() };
    let mut i: usize = 0;
    assert(result@.removals =~= Seq::empty());
    assert(result@.updates =~= Seq::empty());
    while i < properties.len()
        invariant
            i <= properties@.len(),
            all == properties_view(properties@),
            base == base_schema@,
            updated == updated_schema@,
            view == changes@,
            collected_changes(all, base, updated, view, i as nat, result@) == collected_changes(
                all,
                base,
                updated,
                view,
                0,
                no_property_changes(),
            ),
        decreases properties@.len() - i,
    {
        let key = &properties[i].0;
        let value = &properties[i].1;
        assert(all[i as int] == (key@, value@));
        let ghost before = result@;
        match split_property(key.as_str()) {
            None => {},
            Some((prefix, column)) => {
                match renamed_column(column.as_str(), base_schema, updated_schema, changes) {
                    Some(name) => {
                        result.removals.push(key.clone());
                        result.updates.push((cat2(prefix.as_str(), name), value.clone()));
                        assert(result@.removals =~= before.removals.push(key@));
                        assert(result@.updates =~= before.updates.push((prefix@ + name@, value@)));
                    },
                    None => {
                        let deleted = match base_schema.id_by_full_name(column.as_str()) {
                            Some(id) => changes.deletes(id),
                            None => false,
                        };
                        if deleted {
                            result.removals.push(key.clone());
                            assert(result@.removals =~= before.removals.push(key@));
                        }
                    },
                }
            },
        }
        i += 1;
    }
    let removals = sort_texts(&result.removals);
    ColumnPropertyChanges { removals, updates: result.updates }
}

/// The key under which a property of a column stands after the update, where it moves.
pub open spec fn moved_key(
    key: Seq<char>,
    base: SchemaView,
    updated: SchemaView,
    changes: ChangesView,
) -> Option<Seq<char>> {
    match property_column(key, 0) {
        None => None,
        Some((prefix, column)) => match new_name_of(column, base, updated, changes) {
            Some(name) => Some(prefix + name),
            None => None,
        },
    }
}

/// Whether a property is one of a column that the update renames or deletes.
pub open spec fn is_displaced(
    key: Seq<char>,
    base: SchemaView,
    updated: SchemaView,
    changes: ChangesView,
) -> bool {
    property_column(key, 0) matches Some((_, column)) && (new_name_of(
        column,
        base,
        updated,
        changes,
    ) is Some || is_deleted(column, base, changes))
}

proof fn lemma_contains_after_push<T>(list: Seq<T>, item: T, other: T)
    ensures
        list.push(item).contains(other) <==> list.contains(other) || other == item,
{
    if list.contains(other) {
        let k = choose|k: int| 0 <= k < list.len() && list[k] == other;
        assert(list.push(item)[k] == other);
    }
    if other == item {
        assert(list.push(item)[list.len() as int] == other);
    }
}

proof fn lemma_collected(
    properties: Seq<(Seq<char>, Seq<char>)>,
    base: SchemaView,
    updated: SchemaView,
    changes: ChangesView,
    i: nat,
    done: PropertyChangesView,
    key: Seq<char>,
    value: Seq<char>,
)
    ensures
        ({
            let all = collected_changes(properties, base, updated, changes, i, done);
            &&& all.removals.contains(key) <==> done.removals.contains(key) || (is_displaced(
                key,
                base,
                updated,
                changes,
            ) && exists|j: int| i <= j < properties.len() && (#[trigger] properties[j]).0 == key)
            &&& all.updates.contains((key, value)) <==> done.updates.contains((key, value))
                || exists|j: int|
                i <= j < properties.len() && (#[trigger] properties[j]).1 == value && moved_key(
                    properties[j].0,
                    base,
                    updated,
                    changes,
                ) == Some(key)
        }),
    decreases properties.len() - i,
{
    if i < properties.len() {
        let (old_key, old_value) = properties[i as int];
        let next = match property_column(old_key, 0) {
            None => done,
            Some((prefix, column)) => match new_name_of(column, base, updated, changes) {
                Some(name) => {
                    lemma_contains_after_push(done.removals, old_key, key);
                    lemma_contains_after_push(
                        done.updates,
                        (prefix + name, old_value),
                        (key, value),
                    );
                    PropertyChangesView {
                        removals: done.removals.push(old_key),
                        updates: done.updates.push((prefix + name, old_value)),
                    }
                },
                None => if is_deleted(column, base, changes) {
                    lemma_contains_after_push(done.removals, old_key, key);
                    PropertyChangesView { removals: done.removals.push(old_key), ..done }
                } else {
                    done
                },
            },
        };
        lemma_collected(properties, base, updated, changes, i + 1, next, key, value);
    }
}

/// The properties that go are those of the columns that an update renames or deletes, and no
/// others. The properties that come are those of the renamed columns, each with its value, under
/// the new name.
pub proof fn law_properties_follow_their_columns(
    properties: Seq<(Seq<char>, Seq<char>)>,
    base: SchemaView,
    updated: SchemaView,
    changes: ChangesView,
    key: Seq<char>,
    value: Seq<char>,
)
    ensures
        ({
            let all = property_changes(properties, base, updated, changes);
            &&& all.removals.contains(key) <==> is_displaced(key, base, updated, changes)
                && exists|j: int| 0 <= j < properties.len() && (#[trigger] properties[j]).0 == key
            &&& all.updates.contains((key, value)) <==> exists|j: int|
                0 <= j < properties.len() && (#[trigger] properties[j]).1 == value && moved_key(
                    properties[j].0,
                    base,
                    updated,
                    changes,
                ) == Some(key)
        }),
{
    let done = no_property_changes();
    let all = collected_changes(properties, base, updated, changes, 0, done);
    lemma_collected(properties, base, updated, changes, 0, done, key, value);
    let sorted = in_order(all.removals, all.removals.len());
    law_in_order_is_a_sorted_permutation(all.removals);
    assert(sorted.contains(key) <==> all.removals.contains(key)) by {
        broadcast use vstd::seq_lib::group_to_multiset_ensures;

        assert(sorted.contains(key) <==> sorted.to_multiset().count(key) > 0);
        assert(all.removals.contains(key) <==> all.removals.to_multiset().count(key) > 0);
    }
}

proof fn lemma_nothing_collected(
    properties: Seq<(Seq<char>, Seq<char>)>,
    base: SchemaView,
    updated: SchemaView,
    changes: ChangesView,
    i: nat,
)
    requires
        forall|id: i32| !#[trigger] changes.updates.contains_key(id),
        forall|id: i32| !#[trigger] changes.deletes.contains(id),
    ensures
        collected_changes(properties, base, updated, changes, i, no_property_changes())
            == no_property_changes(),
    decreases properties.len() - i,
{
    if i < properties.len() {
        lemma_nothing_collected(properties, base, updated, changes, i + 1);
    }
}

/// Where no column is updated or deleted, no property changes.
pub proof fn lemma_properties_stay(
    properties: Seq<(Seq<char>, Seq<char>)>,
    base: SchemaView,
    updated: SchemaView,
    changes: ChangesView,
)
    requires
        forall|id: i32| !#[trigger] changes.updates.contains_key(id),
        forall|id: i32| !#[trigger] changes.deletes.contains(id),
    ensures
        property_changes(properties, base, updated, changes) == no_property_changes(),
{
    lemma_nothing_collected(properties, base, updated, changes, 0);
}

proof fn lemma_prefixes_differ()
    ensures
        forall|column: Seq<char>, i: int, j: int|
            0 <= i < 3 && 0 <= j < 3 && i != j ==> after_prefix(
                #[trigger] (column_prefixes()[i] + column),
                #[trigger] column_prefixes()[j],
            ) is None,
{
    reveal_strlit("write.metadata.metrics.column.");
    reveal_strlit("write.parquet.bloom-filter-enabled.column.");
    reveal_strlit("write.parquet.stats-enabled.column.");
    assert forall|column: Seq<char>, i: int, j: int|
        0 <= i < 3 && 0 <= j < 3 && i != j implies after_prefix(
        #[trigger] (column_prefixes()[i] + column),
        #[trigger] column_prefixes()[j],
    ) is None by {
        let text = column_prefixes()[i] + column;
        let prefix = column_prefixes()[j];
        if prefix.len() <= text.len() {
            let start = text.subrange(0, prefix.len() as int);
            if i == 0 || j == 0 {
                assert(start[6] == text[6]);
                assert(start[6] != prefix[6]);
            } else {
                assert(start[14] == text[14]);
                assert(start[14] != prefix[14]);
            }
        }
    }
}

/// Whether a text begins the key of a property of a column.
pub open spec fn begins_column_property(prefix: Seq<char>) -> bool {
    ||| prefix == "write.metadata.metrics.column."@
    ||| prefix == "write.parquet.bloom-filter-enabled.column."@
    ||| prefix == "write.parquet.stats-enabled.column."@
}

/// A property belongs to a column where its key is one of three prefixes and the name of the column:
/// that of the metrics, that of the bloom filters and that of the statistics.
pub proof fn law_properties_of_columns(key: Seq<char>, column: Seq<char>)
    ensures
        property_column("write.metadata.metrics.column."@ + column, 0) == Some(
            ("write.metadata.metrics.column."@, column),
        ),
        property_column("write.parquet.bloom-filter-enabled.column."@ + column, 0) == Some(
            ("write.parquet.bloom-filter-enabled.column."@, column),
        ),
        property_column("write.parquet.stats-enabled.column."@ + column, 0) == Some(
            ("write.parquet.stats-enabled.column."@, column),
        ),
        property_column(key, 0) matches Some((prefix, of)) ==> {
            &&& key == prefix + of
            &&& begins_column_property(prefix)
        },
{
    reveal_with_fuel(property_column, 4);
    lemma_prefixes_differ();
    assert forall|i: int| 0 <= i < 3 implies after_prefix(
        #[trigger] column_prefixes()[i] + column,
        column_prefixes()[i],
    ) == Some(column) by {
        let prefix = column_prefixes()[i];
        let text = prefix + column;
        assert(text.subrange(0, prefix.len() as int) =~= prefix);
        assert(text.subrange(prefix.len() as int, text.len() as int) =~= column);
    }
    assert(column_prefixes()[0] == "write.metadata.metrics.column."@);
    assert(column_prefixes()[1] == "write.parquet.bloom-filter-enabled.column."@);
    assert(column_prefixes()[2] == "write.parquet.stats-enabled.column."@);
    if let Some((prefix, of)) = property_column(key, 0) {
        assert(key =~= prefix + of);
    }
}

/// The property of a column that was updated, and has another full name afterwards, moves to that
/// name with its value. The property of a column that is deleted goes. Of a column that is neither,
/// and of no column, a property stays.
pub proof fn law_properties_of_renamed_and_deleted_columns(
    properties: Seq<(Seq<char>, Seq<char>)>,
    base: SchemaView,
    updated: SchemaView,
    changes: ChangesView,
    j: int,
    prefix: Seq<char>,
    column: Seq<char>,
    id: i32,
)
    requires
        0 <= j < properties.len(),
        properties[j].0 == prefix + column,
        begins_column_property(prefix),
        base.full_id(column) == Some(id),
        forall|k: int|
            0 <= k < changes.additions.len() ==> (#[trigger] changes.additions[k]).1 != id,
    ensures
        ({
            let all = property_changes(properties, base, updated, changes);
            let renamed = changes.updates.contains_key(id) && (updated.name_of(id) matches Some(
                name,
            ) && name != column);
            &&& all.removals.contains(properties[j].0) <==> renamed || changes.deletes.contains(id)
            &&& renamed ==> all.updates.contains(
                (prefix + updated.name_of(id)->0, properties[j].1),
            )
        }),
{
    law_properties_of_columns(properties[j].0, column);
    let value = properties[j].1;
    let to = match updated.name_of(id) {
        Some(name) => prefix + name,
        None => prefix,
    };
    law_properties_follow_their_columns(
        properties,
        base,
        updated,
        changes,
        properties[j].0,
        value,
    );
    law_properties_follow_their_columns(properties, base, updated, changes, to, value);
}

} // verus!
