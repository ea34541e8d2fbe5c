//! From an update and a table to what is to be committed.

use vstd::prelude::*;

use crate::action::UpdateSchemaAction;
#[allow(unused_imports)]
use crate::action::OperationView;
use crate::apply::PendingSchemaUpdate;
use crate::changes::Changes;
#[allow(unused_imports)]
use crate::changes::ChangesView;
use crate::column_properties::{column_property_changes, ColumnPropertyChanges};
#[allow(unused_imports)]
use crate::column_properties::{properties_view, property_changes, PropertyChangesView};
use crate::defaults::DoubleTexts;
use crate::error::Error;
#[allow(unused_imports)]
use crate::error::ErrorView;
use crate::mapping_json::update_name_mapping_json;
#[allow(unused_imports)]
use crate::mapping_json::updated_json;
#[allow(unused_imports)]
use crate::pending::{applied, initial_state};
#[allow(unused_imports)]
use crate::replay::replayed;
use crate::schema::Schema;
#[allow(unused_imports)]
use crate::schema::SchemaView;
use crate::text::text_eq;
#[allow(unused_imports)]
use crate::text::{opt_text, texts};

verus! {

/// The property that holds the name mapping of a table.
pub open spec fn mapping_property() -> Seq<char> {
    "schema.name-mapping.default"@
}

/// What an update reads of a table.
#[derive(Debug)]
pub struct TableState {
    pub uuid: u128,
    pub schema: Schema,
    pub last_column_id: i32,
    pub properties: Vec<(String, String)>,
}

/// The mathematical value of a [`TableState`].
pub struct TableView {
    pub uuid: u128,
    pub schema: SchemaView,
    pub last_column_id: i32,
    pub properties: Seq<(Seq<char>, Seq<char>)>,
}

impl View for TableState {
    type V = TableView;

    open spec fn view(&self) -> TableView {
        TableView {
            uuid: self.uuid,
            schema: self.schema@,
            last_column_id: self.last_column_id,
            properties: properties_view(self.properties@),
        }
    }
}

/// A change to the metadata of a table.
#[derive(Debug, PartialEq, Eq)]
pub enum TableUpdate {
    /// Adds a schema.
    AddSchema { schema: Schema },
    /// Makes a schema the current one; -1 stands for the one that was added last.
    SetCurrentSchema { schema_id: i32 },
    /// Removes properties.
    RemoveProperties { removals: Vec<String> },
    /// Sets properties.
    SetProperties { updates: Vec<(String, String)> },
}

/// The mathematical value of a [`TableUpdate`].
pub enum UpdateView {
    AddSchema(SchemaView),
    SetCurrentSchema(i32),
    RemoveProperties(Seq<Seq<char>>),
    SetProperties(Seq<(Seq<char>, Seq<char>)>),
}

impl View for TableUpdate {
    type V = UpdateView;

    open spec fn view(&self) -> UpdateView {
        match *self {
            TableUpdate::AddSchema { schema } => UpdateView::AddSchema(schema@),
            TableUpdate::SetCurrentSchema { schema_id } => UpdateView::SetCurrentSchema(schema_id),
            TableUpdate::RemoveProperties { removals } => UpdateView::RemoveProperties(
                texts(removals@),
            ),
            TableUpdate::SetProperties { updates } => UpdateView::SetProperties(
                properties_view(updates@),
            ),
        }
    }
}

/// What must hold of a table for a commit to go through.
#[derive(Debug, Clone, Copy, PartialEq, Eq, Structural)]
pub enum TableRequirement {
    /// It is the same table.
    UuidMatch { uuid: u128 },
    /// No field ID was assigned in between.
    LastAssignedFieldIdMatch { last_assigned_field_id: i32 },
    /// Its current schema is the one that the update started from.
    CurrentSchemaIdMatch { current_schema_id: i32 },
}

/// What is to be committed. The warning says why the name mapping could not be updated.
#[derive(Debug)]
pub struct ActionCommit {
    pub updates: Vec<TableUpdate>,
    pub requirements: Vec<TableRequirement>,
    pub warning: Option<String>,
}

/// The mathematical value of an [`ActionCommit`].
pub struct CommitView {
    pub updates: Seq<UpdateView>,
    pub requirements: Seq<TableRequirement>,
    pub warning: Option<Seq<char>>,
}

/// The views of a list of changes.
pub open spec fn updates_view(updates: Seq<TableUpdate>) -> Seq<UpdateView> {
    updates.map_values(|update: TableUpdate| update@)
}

impl View for ActionCommit {
    type V = CommitView;

    open spec fn view(&self) -> CommitView {
        CommitView {
            updates: updates_view(self.updates@),
            requirements: self.requirements@,
            warning: opt_text(self.warning),
        }
    }
}

/// The value of a property, from the one at `i` on.
pub open spec fn property_value(
    properties: Seq<(Seq<char>, Seq<char>)>,
    key: Seq<char>,
    i: nat,
) -> Option<Seq<char>>
    decreases properties.len() - i,
{
    if i >= properties.len() {
        None
    } else if properties[i as int].0 == key {
        Some(properties[i as int].1)
    } else {
        property_value(properties, key, i + 1)
    }
}

/// The properties to change, with the name mapping among those to set where it changed, and the
/// warning where it could not be updated.
pub open spec fn all_property_changes(
    table: TableView,
    updated: SchemaView,
    changes: ChangesView,
) -> (PropertyChangesView, Option<Seq<char>>) {
    let columns = property_changes(table.properties, table.schema, updated, changes);
    match property_value(table.properties, mapping_property(), 0) {
        None => (columns, None),
        Some(raw) => match updated_json(raw, changes) {
            Err(message) => (columns, Some(message)),
            Ok(None) => (columns, None),
            Ok(Some(mapping)) => (
                PropertyChangesView {
                    updates: columns.updates.push((mapping_property(), mapping)),
                    ..columns
                },
                None,
            ),
        },
    }
}

/// The changes to the metadata: the new schema where it differs, then the properties to remove and
/// those to set.
pub open spec fn metadata_changes(
    table: TableView,
    updated: SchemaView,
    properties: PropertyChangesView,
) -> Seq<UpdateView> {
    (if updated.same_as(table.schema) {
        Seq::empty()
    } else {
        seq![UpdateView::AddSchema(updated), UpdateView::SetCurrentSchema(-1i32)]
    }) + (if properties.removals.len() == 0 {
        Seq::empty()
    } else {
        seq![UpdateView::RemoveProperties(properties.removals)]
    }) + (if properties.updates.len() == 0 {
        Seq::empty()
    } else {
        seq![UpdateView::SetProperties(properties.updates)]
    })
}

/// What must hold of the table: nothing where nothing changes; else that it is the same table and,
/// where the schema changes, that neither its field IDs nor its current schema have moved on.
pub open spec fn commit_requirements(
    table: TableView,
    updated: SchemaView,
    properties: PropertyChangesView,
) -> Seq<TableRequirement> {
    if metadata_changes(table, updated, properties).len() == 0 {
        Seq::empty()
    } else if updated.same_as(table.schema) {
        seq![TableRequirement::UuidMatch { uuid: table.uuid }]
    } else {
        seq![
            TableRequirement::UuidMatch { uuid: table.uuid },
            TableRequirement::LastAssignedFieldIdMatch {
                last_assigned_field_id: table.last_column_id,
            },
            TableRequirement::CurrentSchemaIdMatch { current_schema_id: table.schema.schema_id },
        ]
    }
}

/// The commit for an updated schema and the changes that led to it.
pub open spec fn commit_of(table: TableView, updated: SchemaView, changes: ChangesView) -> CommitView {
    let (properties, warning) = all_property_changes(table, updated, changes);
    CommitView {
        updates: metadata_changes(table, updated, properties),
        requirements: commit_requirements(table, updated, properties),
        warning,
    }
}

/// The commit of an update of a table: its operations replayed, the schema rebuilt, and the
/// properties carried along.
pub open spec fn planned_commit(
    operations: Seq<OperationView>,
    table: TableView,
    texts: Seq<(u64, Seq<char>)>,
) -> core::result::Result<CommitView, ErrorView> {
    match replayed(initial_state(table.schema, table.last_column_id, texts), operations, 0) {
        (_, Err(error)) => Err(error),
        (pending, Ok(_)) => match applied(pending) {
            Err(error) => Err(error),
            Ok(updated) => Ok(commit_of(table, updated, pending.changes)),
        },
    }
}

impl TableState {
    /// The value of a property.
    fn property(&self, key: &str) -> (value: Option<&String>)
        ensures
            match value {
                Some(v) => property_value(self@.properties, key@, 0) == Some(v@),
                None => property_value(self@.properties, key@, 0) is None,
            },
    {
        let ghost all = self@.properties;
        let mut i: usize = 0;
        while i < self.properties.len()
            invariant
                i <= self.properties@.len(),
                all == self@.properties,
                property_value(all, key@, i as nat) == property_value(all, key@, 0),
            decreases self.properties@.len() - i,
        {
            assert(all[i as int] == (self.properties@[i as int].0@, self.properties@[i as int].1@));
            if text_eq(self.properties[i].0.as_str(), key) {
                return Some(&self.properties[i].1);
            }
            i += 1;
        }
        None
    }

    /// The properties to change, and the warning where the name mapping could not be updated.
    fn property_changes(&self, updated: &Schema, changes: &Changes) -> (result: (
        ColumnPropertyChanges,
        Option<String>,
    ))
        ensures
            (result.0@, opt_text(result.1)) == all_property_changes(self@, updated@, changes@),
    {
        let mut properties = column_property_changes(
            &self.properties,
            &self.schema,
            updated,
            changes,
        );
        let mut warning: Option<String> = None;
        match self.property("schema.name-mapping.default") {
            None => {},
            Some(raw) => match update_name_mapping_json(raw.as_str(), changes) {
                Ok(Some(mapping)) => {
                    let ghost before = properties@.updates;
                    let ghost added = mapping@;
                    properties.updates.push(("schema.name-mapping.default".to_owned(), mapping));
                    assert(properties@.updates =~= before.push((mapping_property(), added)));
                },
                Ok(None) => {},
                Err(message) => {
                    warning = Some(message);
                },
            },
        }
        (properties, warning)
    }

    /// The commit for an updated schema and the changes that led to it.
    pub fn commit_schema(&self, schema: Schema, changes: &Changes) -> (commit: ActionCommit)
        ensures
            commit@ == commit_of(self@, schema@, changes@),
    {
        let schema_changed = !schema.is_same_schema(&self.schema);
        let (properties, warning) = self.property_changes(&schema, changes);
        let ghost all = properties@;
        let mut updates: Vec<TableUpdate> = Vec::new();
        let mut requirements: Vec<TableRequirement> = Vec::new();
        if !schema_changed && properties.is_empty() {
            assert(metadata_changes(self@, schema@, all) =~= Seq::empty());
            assert(updates_view(updates@) =~= Seq::empty());
            return ActionCommit { updates, requirements, warning };
        }
        let ghost updated = schema@;
        requirements.push(TableRequirement::UuidMatch { uuid: self.uuid });
        if schema_changed {
            updates.push(TableUpdate::AddSchema { schema });
            updates.push(TableUpdate::SetCurrentSchema { schema_id: -1 });
            requirements.push(
                TableRequirement::LastAssignedFieldIdMatch {
                    last_assigned_field_id: self.last_column_id,
                },
            );
            requirements.push(
                TableRequirement::CurrentSchemaIdMatch {
                    current_schema_id: self.schema.schema_id(),
                },
            );
        }
        if properties.removals.len() > 0 {
            updates.push(TableUpdate::RemoveProperties { removals: properties.removals });
        }
        if properties.updates.len() > 0 {
            updates.push(TableUpdate::SetProperties { updates: properties.updates });
        }
        assert(updates_view(updates@) =~= metadata_changes(self@, updated, all));
        assert(requirements@ =~= commit_requirements(self@, updated, all));
        ActionCommit { updates, requirements, warning }
    }
}

/// A commit as the result of a fallible step.
pub open spec fn commit_outcome(result: Result<ActionCommit, Error>) -> core::result::Result<
    CommitView,
    ErrorView,
> {
    match result {
        Ok(commit) => Ok(commit@),
        Err(error) => Err(error@),
    }
}

impl UpdateSchemaAction {
    /// Replays the update against a table, and says what is to be committed.
    ///
    /// The texts are those of the floating-point defaults within the update, of which only the
    /// defaults of decimal columns are read.
    pub fn commit(&self, table: &TableState, texts: DoubleTexts) -> (result: Result<
        ActionCommit,
        Error,
    >)
        ensures
            commit_outcome(result) == planned_commit(self@, table@, texts@),
    {
        let mut pending = PendingSchemaUpdate::new(
            &table.schema,
            table.last_column_id,
        ).with_double_texts(texts);
        match pending.apply_operations(self.operations()) {
            Ok(_) => {},
            Err(error) => return Err(error),
        }
        match pending.apply() {
            Ok(schema) => Ok(table.commit_schema(schema, pending.changes())),
            Err(error) => Err(error),
        }
    }
}

/// A commit that changes anything is tied to the table that the update read; one that brings a new
/// schema also to its current schema and to the last field ID that it assigned. A commit that
/// changes nothing is tied to nothing.
pub proof fn law_commits_are_guarded(table: TableView, updated: SchemaView, changes: ChangesView)
    ensures
        ({
            let commit = commit_of(table, updated, changes);
            &&& commit.updates.len() == 0 <==> commit.requirements.len() == 0
            &&& commit.updates.len() > 0 ==> commit.requirements.contains(
                TableRequirement::UuidMatch { uuid: table.uuid },
            )
            &&& commit.updates.contains(UpdateView::AddSchema(updated)) ==> {
                &&& commit.requirements.contains(
                    TableRequirement::LastAssignedFieldIdMatch {
                        last_assigned_field_id: table.last_column_id,
                    },
                )
                &&& commit.requirements.contains(
                    TableRequirement::CurrentSchemaIdMatch {
                        current_schema_id: table.schema.schema_id,
                    },
                )
            }
            &&& commit.updates.contains(UpdateView::AddSchema(updated)) <==> !updated.same_as(
                table.schema,
            )
        }),
{
    let commit = commit_of(table, updated, changes);
    let (properties, _) = all_property_changes(table, updated, changes);
    if commit.updates.len() > 0 {
        assert(commit.requirements[0] == TableRequirement::UuidMatch { uuid: table.uuid });
    }
    if !updated.same_as(table.schema) {
        assert(commit.updates[0] == UpdateView::AddSchema(updated));
        assert(commit.requirements[1] == TableRequirement::LastAssignedFieldIdMatch {
            last_assigned_field_id: table.last_column_id,
        });
        assert(commit.requirements[2] == TableRequirement::CurrentSchemaIdMatch {
            current_schema_id: table.schema.schema_id,
        });
    }
}

/// What is found under a key is the value of the first property with that key; nothing is found only
/// where no property has it.
pub proof fn law_properties_are_found(
    properties: Seq<(Seq<char>, Seq<char>)>,
    key: Seq<char>,
    i: nat,
)
    ensures
        match property_value(properties, key, i) {
            Some(value) => exists|j: int|
                {
                    &&& i <= j < properties.len()
                    &&& #[trigger] properties[j] == (key, value)
                    &&& forall|k: int| i <= k < j ==> (#[trigger] properties[k]).0 != key
                },
            None => forall|j: int| i <= j < properties.len() ==> (#[trigger] properties[j]).0 != key,
        },
    decreases properties.len() - i,
{
    if i < properties.len() {
        if properties[i as int].0 == key {
            assert(properties[i as int] == (key, properties[i as int].1));
        } else {
            law_properties_are_found(properties, key, i + 1);
        }
    }
}

/// Whether a commit makes a change.
pub open spec fn makes(commit: CommitView, update: UpdateView) -> bool {
    exists|i: int| 0 <= i < commit.updates.len() && #[trigger] commit.updates[i] == update
}

/// A commit adds the updated schema and makes it the current one exactly where it differs from the
/// schema of the table. It removes and sets the properties that go and come with the columns. The
/// name mapping of the table, which is the property `schema.name-mapping.default`, is set where the
/// update changes it; where it cannot be updated, the commit says why and leaves it alone.
pub proof fn law_commits_carry_their_changes(
    table: TableView,
    updated: SchemaView,
    changes: ChangesView,
)
    ensures
        ({
            let commit = commit_of(table, updated, changes);
            let columns = property_changes(table.properties, table.schema, updated, changes);
            let key = "schema.name-mapping.default"@;
            let mapping = match property_value(table.properties, key, 0) {
                Some(raw) => updated_json(raw, changes),
                None => Ok(None),
            };
            let set = match mapping {
                Ok(Some(text)) => columns.updates.push((key, text)),
                _ => columns.updates,
            };
            &&& !updated.same_as(table.schema) ==> commit.updates.len() >= 2 && commit.updates[0]
                == UpdateView::AddSchema(updated) && commit.updates[1]
                == UpdateView::SetCurrentSchema(-1i32)
            &&& updated.same_as(table.schema) ==> forall|i: int|
                0 <= i < commit.updates.len() ==> {
                    &&& (#[trigger] commit.updates[i]) !is AddSchema
                    &&& commit.updates[i] !is SetCurrentSchema
                }
            &&& columns.removals.len() > 0 ==> makes(
                commit,
                UpdateView::RemoveProperties(columns.removals),
            )
            &&& set.len() > 0 ==> makes(commit, UpdateView::SetProperties(set))
            &&& forall|i: int|
                0 <= i < commit.updates.len() ==> match #[trigger] commit.updates[i] {
                    UpdateView::AddSchema(schema) => schema == updated,
                    UpdateView::SetCurrentSchema(id) => id == -1i32,
                    UpdateView::RemoveProperties(keys) => keys == columns.removals && keys.len()
                        > 0,
                    UpdateView::SetProperties(all) => all == set && all.len() > 0,
                }
            &&& commit.warning == (match mapping {
                Err(message) => Some(message),
                Ok(_) => None,
            })
        }),
{
    let commit = commit_of(table, updated, changes);
    let (properties, _) = all_property_changes(table, updated, changes);
    let schema_part: Seq<UpdateView> = if updated.same_as(table.schema) {
        Seq::empty()
    } else {
        seq![UpdateView::AddSchema(updated), UpdateView::SetCurrentSchema(-1i32)]
    };
    let n = schema_part.len() as int;
    if properties.removals.len() > 0 {
        assert(commit.updates[n] == UpdateView::RemoveProperties(properties.removals));
    }
    if properties.updates.len() > 0 {
        let m = if properties.removals.len() > 0 {
            n + 1
        } else {
            n
        };
        assert(commit.updates[m] == UpdateView::SetProperties(properties.updates));
    }
}

/// What is committed for an update is what its operations, replayed on the table in its current
/// state, lead to: the schema that the state after them is applied to, and the changes that were
/// recorded on the way. It fails where an operation fails, or where the schema cannot be built.
pub proof fn law_updates_are_replayed_on_the_table(
    operations: Seq<OperationView>,
    table: TableView,
    texts: Seq<(u64, Seq<char>)>,
)
    ensures
        ({
            let (pending, outcome) = replayed(
                initial_state(table.schema, table.last_column_id, texts),
                operations,
                0,
            );
            let commit = planned_commit(operations, table, texts);
            &&& commit is Ok <==> outcome is Ok && applied(pending) is Ok
            &&& commit is Ok ==> commit->Ok_0 == commit_of(
                table,
                applied(pending)->Ok_0,
                pending.changes,
            )
        }),
{
}

} // verus!
