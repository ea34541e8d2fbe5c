use std::collections::{HashMap, HashSet};
use std::sync::Arc;

use update_schema::action::{AddColumn, SchemaOperation, UpdateSchemaAction};
use update_schema::apply::PendingSchemaUpdate;
use update_schema::commit::{ActionCommit, TableRequirement, TableState, TableUpdate};
use update_schema::defaults::DoubleTexts;
use update_schema::doubles::floating_point_defaults;
use update_schema::error::{Error, ErrorKind, ErrorSource};
use update_schema::fresh_ids::assign_fresh_ids;
use update_schema::literal::{Literal, PrimitiveLiteral};
use update_schema::schema::{Schema, SchemaBuilder};
use update_schema::types::{
    ListType, MapType, NestedField, PrimitiveType, StructType, Type, VariantType,
};

const DEFAULT_FIELD_ID: i32 = 0;
const DEFAULT_SCHEMA_ID: i32 = 0;
const DEFAULT_SCHEMA_NAME_MAPPING: &str = "schema.name-mapping.default";

type NestedFieldRef = Arc<NestedField>;

#[derive(Clone, Debug, PartialEq)]
struct Metadata {
    uuid: u128,
    schema: Arc<Schema>,
    last_column_id: i32,
    properties: HashMap<String, String>,
}

impl Metadata {
    fn current_schema(&self) -> &Arc<Schema> {
        &self.schema
    }

    fn current_schema_id(&self) -> i32 {
        self.schema.schema_id()
    }

    fn last_column_id(&self) -> i32 {
        self.last_column_id
    }

    fn uuid(&self) -> u128 {
        self.uuid
    }

    fn properties(&self) -> &HashMap<String, String> {
        &self.properties
    }

    fn with_schema(&self, schema: Schema) -> Metadata {
        let schema_id = self.schema.schema_id() + 1;
        let mut last_column_id = self.last_column_id;
        for field in schema.as_struct().fields() {
            last_column_id = last_column_id.max(highest_id(field));
        }
        let schema = schema.into_builder().with_schema_id(schema_id).build().unwrap();
        Metadata { schema: Arc::new(schema), last_column_id, ..self.clone() }
    }

    fn with_properties(&self, properties: HashMap<String, String>) -> Metadata {
        let mut metadata = self.clone();
        metadata.properties.extend(properties);
        metadata
    }
}

fn highest_id(field: &NestedField) -> i32 {
    let beneath = match field.field_type.as_ref() {
        Type::Struct(s) => s.fields().iter().map(|child| highest_id(child)).max().unwrap_or(0),
        Type::List(l) => highest_id(&l.element_field),
        Type::MapOf(m) => highest_id(&m.key_field).max(highest_id(&m.value_field)),
        _ => 0,
    };
    beneath.max(field.id)
}

#[derive(Clone, Debug)]
struct Table {
    metadata: Metadata,
}

impl Table {
    fn metadata(&self) -> &Metadata {
        &self.metadata
    }

    fn with_metadata(self, metadata: Metadata) -> Table {
        Table { metadata }
    }

    fn state(&self) -> TableState {
        let mut properties: Vec<(String, String)> = self
            .metadata
            .properties
            .iter()
            .map(|(key, value)| (key.clone(), value.clone()))
            .collect();
        properties.sort();
        TableState {
            uuid: self.metadata.uuid,
            schema: self.metadata.schema.as_ref().clone(),
            last_column_id: self.metadata.last_column_id,
            properties,
        }
    }
}

fn double_texts(action: &UpdateSchemaAction) -> DoubleTexts {
    DoubleTexts {
        entries: floating_point_defaults(action.operations())
            .into_iter()
            .map(|bits| (bits, f64::from_bits(bits).to_string()))
            .collect(),
    }
}

trait CommitTo {
    fn commit_to(&self, table: &Table) -> Result<ActionCommit, Error>;
}

impl CommitTo for UpdateSchemaAction {
    fn commit_to(&self, table: &Table) -> Result<ActionCommit, Error> {
        self.commit(&table.state(), double_texts(self))
    }
}

trait TakeParts {
    fn take_updates(&mut self) -> Vec<TableUpdate>;
    fn take_requirements(&mut self) -> Vec<TableRequirement>;
}

impl TakeParts for ActionCommit {
    fn take_updates(&mut self) -> Vec<TableUpdate> {
        std::mem::take(&mut self.updates)
    }

    fn take_requirements(&mut self) -> Vec<TableRequirement> {
        std::mem::take(&mut self.requirements)
    }
}

trait Identify {
    fn identify<I, S>(self, names: I) -> UpdateSchemaAction
    where
        I: IntoIterator<Item = S>,
        S: ToString;
}

impl Identify for UpdateSchemaAction {
    fn identify<I, S>(self, names: I) -> UpdateSchemaAction
    where
        I: IntoIterator<Item = S>,
        S: ToString,
    {
        self.set_identifier_fields(names.into_iter().map(|name| name.to_string()).collect())
    }
}

trait CollectFields {
    fn fields_from(self, fields: impl IntoIterator<Item = NestedFieldRef>) -> SchemaBuilder;
    fn ids_from(self, ids: impl IntoIterator<Item = i32>) -> SchemaBuilder;
}

impl CollectFields for SchemaBuilder {
    fn fields_from(self, fields: impl IntoIterator<Item = NestedFieldRef>) -> SchemaBuilder {
        self.with_fields(fields.into_iter().collect())
    }

    fn ids_from(self, ids: impl IntoIterator<Item = i32>) -> SchemaBuilder {
        self.with_identifier_field_ids(ids.into_iter().collect())
    }
}

fn property<'a>(properties: &'a [(String, String)], key: &str) -> Option<&'a String> {
    properties.iter().find(|(name, _)| name == key).map(|(_, value)| value)
}

fn full_message(error: &Error) -> String {
    match &error.source {
        Some(ErrorSource::Inner(source)) => {
            format!("{}, source: {}", error.message(), full_message(source))
        }
        Some(ErrorSource::Outside(text)) => format!("{}, source: {text}", error.message()),
        None => error.message().to_string(),
    }
}

fn float(value: f32) -> Literal {
    Literal::float_bits(value.to_bits())
}

fn double(value: f64) -> Literal {
    Literal::double_bits(value.to_bits())
}

fn list_type(element_field: NestedFieldRef) -> ListType {
    ListType { element_field }
}

fn map_type(key_field: NestedFieldRef, value_field: NestedFieldRef) -> MapType {
    MapType { key_field, value_field }
}

fn primitive(id: i32, name: &str, required: bool, primitive: PrimitiveType) -> NestedFieldRef {
    Arc::new(NestedField::new(id, name, Type::Primitive(primitive), required))
}

/// A table with the columns x, y and z, of which x and y are identifier fields.
fn make_v2_table() -> Table {
    let schema = Schema::builder()
        .with_schema_id(1)
        .with_fields(vec![
            primitive(1, "x", true, PrimitiveType::Long),
            primitive(2, "y", true, PrimitiveType::Long).documented("comment"),
            primitive(3, "z", true, PrimitiveType::Long),
        ])
        .with_identifier_field_ids(vec![1, 2])
        .build()
        .unwrap();
    Table {
        metadata: Metadata {
            uuid: 0x9c12d441_03fe_4693_9a96_a0705ddf69c1,
            schema: Arc::new(schema),
            last_column_id: 3,
            properties: HashMap::new(),
        },
    }
}

trait Documented {
    fn documented(self, doc: &str) -> NestedFieldRef;
}

impl Documented for NestedFieldRef {
    fn documented(self, doc: &str) -> NestedFieldRef {
        Arc::new((*self).clone().with_doc(doc))
    }
}

/// A table that also has a struct, a list of structs and a map to structs.
fn make_v2_table_with_nested() -> Table {
    let person = Type::Struct(StructType::new(vec![
        primitive(5, "name", false, PrimitiveType::String),
        primitive(6, "age", true, PrimitiveType::Int),
    ]));
    let tags = Type::List(list_type(Arc::new(NestedField::list_element(
        8,
        Type::Struct(StructType::new(vec![
            primitive(9, "key", false, PrimitiveType::String),
            primitive(10, "value", false, PrimitiveType::String),
        ])),
        true,
    ))));
    let props = Type::MapOf(map_type(
        Arc::new(NestedField::map_key_element(12, Type::Primitive(PrimitiveType::String))),
        Arc::new(NestedField::map_value_element(
            13,
            Type::Struct(StructType::new(vec![primitive(
                14,
                "data",
                false,
                PrimitiveType::String,
            )])),
            true,
        )),
    ));
    let schema = Schema::builder()
        .with_fields(vec![
            primitive(1, "x", true, PrimitiveType::Long),
            primitive(2, "y", true, PrimitiveType::Long),
            primitive(3, "z", true, PrimitiveType::Long),
            Arc::new(NestedField::optional(4, "person", person)),
            Arc::new(NestedField::optional(7, "tags", tags)),
            Arc::new(NestedField::optional(11, "props", props)),
        ])
        .with_identifier_field_ids(vec![1, 2])
        .build()
        .unwrap();
    Table {
        metadata: Metadata {
            uuid: 0x9c12d441_03fe_4693_9a96_a0705ddf69c2,
            schema: Arc::new(schema),
            last_column_id: 14,
            properties: HashMap::new(),
        },
    }
}

/// A table whose map has a struct for its key.
fn table_with_struct_map_key() -> Table {
    let table = make_v2_table();
    let mut fields = table.metadata().current_schema().as_struct().fields().to_vec();
    fields.push(Arc::new(NestedField::optional(
        4,
        "indexed",
        Type::MapOf(map_type(
            Arc::new(NestedField::map_key_element(
                5,
                Type::Struct(StructType::new(vec![primitive(7, "part", true, PrimitiveType::Int)])),
            )),
            Arc::new(NestedField::map_value_element(
                6,
                Type::Primitive(PrimitiveType::String),
                false,
            )),
        )),
    )));
    let schema = Schema::builder()
        .with_fields(fields)
        .with_identifier_field_ids(table.metadata().current_schema().identifier_field_ids().clone())
        .build()
        .unwrap();
    replace_current_schema(&table, schema)
}

fn update(_table: &Table) -> UpdateSchemaAction {
    UpdateSchemaAction::new()
}

fn schema_from_commit(mut commit: ActionCommit) -> Schema {
    match commit.take_updates().remove(0) {
        TableUpdate::AddSchema { schema } => schema,
        update => panic!("expected AddSchema, got {update:?}"),
    }
}

fn updated_schema(table: &Table, action: UpdateSchemaAction) -> Schema {
    schema_from_commit(action.commit_to(table).unwrap())
}

fn apply_schema(table: &Table, action: UpdateSchemaAction) -> Schema {
    let mut commit = action.commit_to(table).unwrap();
    commit
        .take_updates()
        .into_iter()
        .find_map(|update| match update {
            TableUpdate::AddSchema { schema } => Some(schema),
            _ => None,
        })
        .unwrap_or_else(|| table.metadata().current_schema().as_ref().clone())
}

fn commit_error(table: &Table, action: UpdateSchemaAction) -> Error {
    match action.commit_to(table) {
        Err(error) => error,
        Ok(_) => panic!("schema update should fail"),
    }
}

fn assert_no_op(table: &Table, action: Arc<UpdateSchemaAction>) {
    let mut commit = action.commit_to(table).unwrap();
    assert!(commit.take_updates().is_empty());
    assert!(commit.take_requirements().is_empty());
}

fn replace_current_schema(table: &Table, schema: Schema) -> Table {
    table.clone().with_metadata(table.metadata().with_schema(schema))
}

fn with_properties(table: Table, properties: HashMap<String, String>) -> Table {
    let metadata = table.metadata().with_properties(properties);
    table.with_metadata(metadata)
}

fn apply_updates(table: &Table, updates: &[TableUpdate]) -> Table {
    let mut metadata = table.metadata().clone();
    for update in updates {
        match update {
            TableUpdate::AddSchema { schema } => metadata = metadata.with_schema(schema.clone()),
            TableUpdate::SetCurrentSchema { schema_id } => assert_eq!(*schema_id, -1),
            TableUpdate::RemoveProperties { removals } => {
                for key in removals {
                    metadata.properties.remove(key);
                }
            }
            TableUpdate::SetProperties { updates } => {
                metadata.properties.extend(updates.iter().cloned());
            }
        }
    }
    table.clone().with_metadata(metadata)
}

struct MappedField {
    field_id: Option<i32>,
    names: Vec<String>,
    fields: Vec<MappedField>,
}

impl MappedField {
    fn field_id(&self) -> Option<i32> {
        self.field_id
    }

    fn names(&self) -> &[String] {
        &self.names
    }

    fn fields(&self) -> &[MappedField] {
        &self.fields
    }
}

struct NameMapping {
    fields: Vec<MappedField>,
}

impl NameMapping {
    fn fields(&self) -> &[MappedField] {
        &self.fields
    }
}

fn mapped_fields(value: &serde_json::Value) -> Vec<MappedField> {
    value
        .as_array()
        .unwrap()
        .iter()
        .map(|field| MappedField {
            field_id: field.get("field-id").map(|id| id.as_i64().unwrap() as i32),
            names: field["names"]
                .as_array()
                .unwrap()
                .iter()
                .map(|name| name.as_str().unwrap().to_string())
                .collect(),
            fields: field.get("fields").map(mapped_fields).unwrap_or_default(),
        })
        .collect()
}

fn parse_mapping(text: &str) -> NameMapping {
    let value: serde_json::Value = serde_json::from_str(text).unwrap();
    NameMapping { fields: mapped_fields(&value) }
}

// updates in general

fn reassigned_fields(schema: &Schema, last_column_id: i32) -> Vec<NestedFieldRef> {
    let mut next = last_column_id;
    let fields = StructType::new(schema.as_struct().fields().to_vec());
    let whole = NestedField::optional(0, "schema", Type::Struct(fields));
    let whole = assign_fresh_ids(&whole, &mut next).unwrap();
    let Type::Struct(fields) = whole.field_type.as_ref() else {
        panic!("expected a struct")
    };
    fields.fields().to_vec()
}

fn table_with_schema(schema: Schema) -> Table {
    let table = make_v2_table();
    let reassigned = reassigned_fields(&schema, table.metadata().last_column_id());
    let mut fields = table
        .metadata()
        .current_schema()
        .as_struct()
        .fields()
        .to_vec();
    fields.extend(reassigned);
    let schema = Schema::builder()
        .fields_from(fields)
        .ids_from(table.metadata().current_schema().identifier_field_ids().iter().copied())
        .build()
        .unwrap();
    let metadata = table.metadata().with_schema(schema);
    table.with_metadata(metadata)
}

#[test]
fn test_assign_fresh_ids_variant() {
    // Variant carries no sub-fields, so fresh-id assignment only renames the field
    // itself and leaves the type untouched.
    let mut next_id = 10;
    let field = NestedField::optional(1, "data", Type::Variant(VariantType));
    let assigned = assign_fresh_ids(&field, &mut next_id).unwrap();

    assert_eq!(assigned.id, 11);
    assert_eq!(*assigned.field_type, Type::Variant(VariantType));
    assert_eq!(next_id, 11);
}

#[test]
fn test_fresh_ids_are_assigned_to_siblings_before_nested_fields() {
    let table = make_v2_table();
    let schema = apply_schema(
        &table,
        UpdateSchemaAction::new()
            .add_column(AddColumn::optional(
                "outer",
                Type::Struct(StructType::new(vec![
                    NestedField::optional(
                        20,
                        "a",
                        Type::Struct(StructType::new(vec![
                            NestedField::optional(21, "c", Type::Primitive(PrimitiveType::Int))
                                .into(),
                        ])),
                    )
                    .into(),
                    NestedField::optional(22, "b", Type::Primitive(PrimitiveType::Int)).into(),
                ])),
            )),
    );

    assert_eq!(schema.field_by_name("outer").unwrap().id, 4);
    assert_eq!(schema.field_by_name("outer.a").unwrap().id, 5);
    assert_eq!(schema.field_by_name("outer.b").unwrap().id, 6);
    assert_eq!(schema.field_by_name("outer.a.c").unwrap().id, 7);
}

#[test]
fn test_added_collection_fields_are_rebuilt_canonically() {
    let table = make_v2_table();
    let malformed_element =
        NestedField::optional(10, "not_element", Type::Primitive(PrimitiveType::String))
            .with_doc("not retained")
            .with_initial_default(Literal::string("not retained"));
    let malformed_key =
        NestedField::optional(11, "not_key", Type::Primitive(PrimitiveType::String))
            .with_doc("not retained")
            .with_write_default(Literal::string("not retained"));
    let malformed_value =
        NestedField::required(12, "not_value", Type::Primitive(PrimitiveType::Long))
            .with_doc("not retained");
    let schema = apply_schema(
        &table,
        UpdateSchemaAction::new()
            .add_column(AddColumn::optional(
                "items",
                Type::List(ListType {
                    element_field: malformed_element.into(),
                }),
            ))
            .add_column(AddColumn::optional(
                "properties",
                Type::MapOf(MapType {
                    key_field: malformed_key.into(),
                    value_field: malformed_value.into(),
                }),
            )),
    );

    let element = schema.field_by_name("items.element").unwrap();
    assert_eq!(element.name, "element");
    assert_eq!(element.doc, None);
    assert_eq!(element.initial_default, None);
    assert_eq!(element.write_default, None);
    let key = schema.field_by_name("properties.key").unwrap();
    assert_eq!(key.name, "key");
    assert!(key.required);
    assert_eq!(key.doc, None);
    assert_eq!(key.write_default, None);
    let value = schema.field_by_name("properties.value").unwrap();
    assert_eq!(value.name, "value");
    assert!(value.required);
    assert_eq!(value.doc, None);
}

#[test]
fn test_add_column() {
    let table = make_v2_table();
    let action = UpdateSchemaAction::new().add_column(AddColumn::optional(
        "new_col",
        Type::Primitive(PrimitiveType::Int),
    ));

    let mut action_commit = action.commit_to(&table).unwrap();
    let updates = action_commit.take_updates();
    let requirements = action_commit.take_requirements();

    assert_eq!(updates.len(), 2);

    // Extract the new schema from the AddSchema update.
    let new_schema = match &updates[0] {
        TableUpdate::AddSchema { schema } => schema,
        other => panic!("expected AddSchema, got {other:?}"),
    };

    let expected_schema = table
        .metadata()
        .current_schema()
        .as_ref()
        .clone()
        .into_builder()
        .with_schema_id(DEFAULT_SCHEMA_ID)
        .fields_from([
            NestedField::optional(4, "new_col", Type::Primitive(PrimitiveType::Int)).into(),
        ])
        .build()
        .unwrap();
    assert_eq!(new_schema, &expected_schema);

    assert_eq!(updates[1], TableUpdate::SetCurrentSchema { schema_id: -1 });

    // Verify requirement.
    assert_eq!(requirements.len(), 3);
    assert_eq!(requirements[0], TableRequirement::UuidMatch {
        uuid: table.metadata().uuid()
    });
    assert_eq!(
        requirements[1],
        TableRequirement::LastAssignedFieldIdMatch {
            last_assigned_field_id: table.metadata().last_column_id()
        }
    );
    assert_eq!(requirements[2], TableRequirement::CurrentSchemaIdMatch {
        current_schema_id: table.metadata().current_schema().schema_id()
    });
}

#[test]
fn test_commit_replays_operations_against_latest_metadata() {
    let table = make_v2_table();
    let action = Arc::new(UpdateSchemaAction::new().add_column(
        AddColumn::optional("added", Type::Primitive(PrimitiveType::String)),
    ));

    let mut initial_commit = action.clone().commit_to(&table).unwrap();
    let initial_schema = match initial_commit.take_updates().remove(0) {
        TableUpdate::AddSchema { schema } => schema,
        update => panic!("expected AddSchema, got {update:?}"),
    };
    assert_eq!(initial_schema.field_by_name("added").unwrap().id, 4);

    let mut concurrent_fields = table
        .metadata()
        .current_schema()
        .as_struct()
        .fields()
        .to_vec();
    concurrent_fields.push(
        NestedField::optional(4, "concurrent", Type::Primitive(PrimitiveType::Boolean)).into(),
    );
    let concurrent_schema = Schema::builder()
        .fields_from(concurrent_fields)
        .ids_from(table.metadata().current_schema().identifier_field_ids().iter().copied())
        .build()
        .unwrap();
    let refreshed_metadata = table.metadata().with_schema(concurrent_schema);
    let refreshed = table.with_metadata(refreshed_metadata);

    let mut replayed_commit = action.commit_to(&refreshed).unwrap();
    let replayed_schema = match replayed_commit.take_updates().remove(0) {
        TableUpdate::AddSchema { schema } => schema,
        update => panic!("expected AddSchema, got {update:?}"),
    };
    assert_eq!(replayed_schema.field_by_name("concurrent").unwrap().id, 4);
    assert_eq!(replayed_schema.field_by_name("added").unwrap().id, 5);
    assert_eq!(replayed_commit.take_requirements(), vec![
        TableRequirement::UuidMatch {
            uuid: refreshed.metadata().uuid(),
        },
        TableRequirement::LastAssignedFieldIdMatch {
            last_assigned_field_id: 4,
        },
        TableRequirement::CurrentSchemaIdMatch {
            current_schema_id: refreshed.metadata().current_schema_id(),
        },
    ]);
}

#[test]
fn test_add_column_with_doc() {
    let table = make_v2_table();
    let action = UpdateSchemaAction::new().add_column(
        AddColumn::builder()
            .name("documented_col")
            .field_type(Type::Primitive(PrimitiveType::String))
            .doc("A documented column")
            .build(),
    );

    let mut action_commit = action.commit_to(&table).unwrap();
    let updates = action_commit.take_updates();

    let new_schema = match &updates[0] {
        TableUpdate::AddSchema { schema } => schema,
        other => panic!("expected AddSchema, got {other:?}"),
    };

    let field = new_schema
        .field_by_name("documented_col")
        .expect("documented_col should exist");
    assert_eq!(field.id, 4);
    assert!(!field.required);
    assert_eq!(field.doc.as_deref(), Some("A documented column"));
}

#[test]
fn test_add_required_column_with_initial_default() {
    let table = make_v2_table();
    let action = UpdateSchemaAction::new().add_column(AddColumn::required(
        "req_col",
        Type::Primitive(PrimitiveType::Int),
        Literal::integer(0),
    ));

    let mut action_commit = action.commit_to(&table).unwrap();
    let updates = action_commit.take_updates();

    let new_schema = match &updates[0] {
        TableUpdate::AddSchema { schema } => schema,
        other => panic!("expected AddSchema, got {other:?}"),
    };

    let field = new_schema
        .field_by_name("req_col")
        .expect("req_col should exist");
    assert_eq!(field.id, 4);
    assert!(field.required);
    assert_eq!(field.initial_default, Some(Literal::integer(0)));
    assert_eq!(field.write_default, Some(Literal::integer(0)));
}

#[test]
fn test_add_column_name_conflict_fails() {
    let table = make_v2_table();
    // "x" already exists in the V2 test schema.
    let action = UpdateSchemaAction::new().add_column(AddColumn::optional(
        "x",
        Type::Primitive(PrimitiveType::Int),
    ));

    let result = action.commit_to(&table);
    let err = match result {
        Err(e) => e,
        Ok(_) => panic!("should reject adding a column with an existing name"),
    };
    assert_eq!(err.kind(), ErrorKind::PreconditionFailed);
    assert!(
        err.message().contains("already exists"),
        "error should mention name conflict, got: {}",
        err.message()
    );
}

#[test]
fn test_delete_column() {
    let table = make_v2_table();
    // z is not an identifier field, so we can delete it.
    let action = UpdateSchemaAction::new().delete_column("z");

    let mut action_commit = action.commit_to(&table).unwrap();
    let updates = action_commit.take_updates();

    let new_schema = match &updates[0] {
        TableUpdate::AddSchema { schema } => schema,
        other => panic!("expected AddSchema, got {other:?}"),
    };

    assert!(
        new_schema.field_by_name("z").is_none(),
        "z should be deleted"
    );
    assert!(new_schema.field_by_name("x").is_some());
    assert!(new_schema.field_by_name("y").is_some());
}

#[test]
fn test_delete_missing_column_fails() {
    let table = make_v2_table();
    let action = UpdateSchemaAction::new().delete_column("nonexistent");

    let result = action.commit_to(&table);
    let err = match result {
        Err(e) => e,
        Ok(_) => panic!("should reject deleting a non-existent column"),
    };
    assert_eq!(err.kind(), ErrorKind::PreconditionFailed);
    assert!(
        err.message().contains("nonexistent"),
        "error should mention the missing column, got: {}",
        err.message()
    );
}

#[test]
fn test_add_and_delete_combined() {
    let table = make_v2_table();
    // Delete z, add a new column.
    let action = UpdateSchemaAction::new()
        .delete_column("z")
        .add_column(AddColumn::optional(
            "w",
            Type::Primitive(PrimitiveType::Boolean),
        ));

    let mut action_commit = action.commit_to(&table).unwrap();
    let updates = action_commit.take_updates();

    let new_schema = match &updates[0] {
        TableUpdate::AddSchema { schema } => schema,
        other => panic!("expected AddSchema, got {other:?}"),
    };

    assert!(
        new_schema.field_by_name("z").is_none(),
        "z should be deleted"
    );
    let w = new_schema.field_by_name("w").expect("w should exist");
    assert_eq!(w.id, 4);
    assert!(!w.required);
}

#[test]
fn test_delete_and_readd_same_name() {
    let table = make_v2_table();
    // Delete z, then add a new column named z -- should succeed.
    let action = UpdateSchemaAction::new()
        .delete_column("z")
        .add_column(AddColumn::optional(
            "z",
            Type::Primitive(PrimitiveType::Boolean),
        ));

    let mut action_commit = action.commit_to(&table).unwrap();
    let updates = action_commit.take_updates();

    let new_schema = match &updates[0] {
        TableUpdate::AddSchema { schema } => schema,
        other => panic!("expected AddSchema, got {other:?}"),
    };

    let z = new_schema
        .field_by_name("z")
        .expect("z should exist with new type");
    assert_eq!(z.id, 4); // new ID, not the old 3
    assert_eq!(*z.field_type, Type::Primitive(PrimitiveType::Boolean));
}

#[test]
fn test_java_recorded_no_op_updates_conflict_with_delete() {
    let table = make_v2_table();
    let rename_error = commit_error(
        &table,
        UpdateSchemaAction::new()
            .rename_column("z", "z")
            .delete_column("z"),
    );
    assert_eq!(rename_error.kind(), ErrorKind::PreconditionFailed);
    assert!(rename_error.message().contains("has updates"));

    let default_error = commit_error(
        &table,
        UpdateSchemaAction::new()
            .update_column_default("z", None)
            .delete_column("z"),
    );
    assert_eq!(default_error.kind(), ErrorKind::PreconditionFailed);
    assert!(default_error.message().contains("has updates"));
}

#[test]
fn test_add_column_to_struct() {
    let table = make_v2_table_with_nested();
    // Add "email" to the "person" struct.
    let action = UpdateSchemaAction::new().add_column(
        AddColumn::builder()
            .name("email")
            .field_type(Type::Primitive(PrimitiveType::String))
            .parent("person")
            .build(),
    );

    let mut action_commit = action.commit_to(&table).unwrap();
    let updates = action_commit.take_updates();

    let new_schema = match &updates[0] {
        TableUpdate::AddSchema { schema } => schema,
        other => panic!("expected AddSchema, got {other:?}"),
    };

    // "email" should be nested under "person" with ID = last_column_id + 1 = 15.
    let email = new_schema
        .field_by_name("person.email")
        .expect("person.email should exist");
    assert_eq!(email.id, 15);
    assert!(!email.required);
    assert_eq!(*email.field_type, Type::Primitive(PrimitiveType::String));

    // Original nested fields should still be there.
    assert!(new_schema.field_by_name("person.name").is_some());
    assert!(new_schema.field_by_name("person.age").is_some());
}

#[test]
fn test_add_column_to_struct_with_doc() {
    let table = make_v2_table_with_nested();
    let action = UpdateSchemaAction::new().add_column(
        AddColumn::builder()
            .name("phone")
            .field_type(Type::Primitive(PrimitiveType::String))
            .parent("person")
            .doc("Phone number")
            .build(),
    );

    let mut action_commit = action.commit_to(&table).unwrap();
    let updates = action_commit.take_updates();

    let new_schema = match &updates[0] {
        TableUpdate::AddSchema { schema } => schema,
        other => panic!("expected AddSchema, got {other:?}"),
    };

    let phone = new_schema
        .field_by_name("person.phone")
        .expect("person.phone should exist");
    assert_eq!(phone.id, 15);
    assert_eq!(phone.doc.as_deref(), Some("Phone number"));
}

#[test]
fn test_add_column_to_list_element_struct() {
    let table = make_v2_table_with_nested();
    // "tags" is a list<struct{key, value}>. Adding to the list navigates to its
    // element struct automatically.
    let action = UpdateSchemaAction::new().add_column(
        AddColumn::builder()
            .name("score")
            .field_type(Type::Primitive(PrimitiveType::Double))
            .parent("tags")
            .build(),
    );

    let mut action_commit = action.commit_to(&table).unwrap();
    let updates = action_commit.take_updates();

    let new_schema = match &updates[0] {
        TableUpdate::AddSchema { schema } => schema,
        other => panic!("expected AddSchema, got {other:?}"),
    };

    // The list element struct should now contain "score".
    let score = new_schema
        .field_by_name("tags.element.score")
        .expect("tags.element.score should exist");
    assert_eq!(score.id, 15);
    assert!(!score.required);

    // Existing fields preserved.
    assert!(new_schema.field_by_name("tags.element.key").is_some());
    assert!(new_schema.field_by_name("tags.element.value").is_some());
}

#[test]
fn test_add_column_to_map_value_struct() {
    let table = make_v2_table_with_nested();
    // "props" is a map<string, struct{data}>. Adding to the map navigates to its
    // value struct automatically.
    let action = UpdateSchemaAction::new().add_column(
        AddColumn::builder()
            .name("version")
            .field_type(Type::Primitive(PrimitiveType::Int))
            .parent("props")
            .build(),
    );

    let mut action_commit = action.commit_to(&table).unwrap();
    let updates = action_commit.take_updates();

    let new_schema = match &updates[0] {
        TableUpdate::AddSchema { schema } => schema,
        other => panic!("expected AddSchema, got {other:?}"),
    };

    let version = new_schema
        .field_by_name("props.value.version")
        .expect("props.value.version should exist");
    assert_eq!(version.id, 15);

    // Existing map value fields preserved.
    assert!(new_schema.field_by_name("props.value.data").is_some());
}

#[test]
fn test_add_column_to_nonexistent_parent_fails() {
    let table = make_v2_table_with_nested();
    let action = UpdateSchemaAction::new().add_column(
        AddColumn::builder()
            .name("col")
            .field_type(Type::Primitive(PrimitiveType::Int))
            .parent("nonexistent")
            .build(),
    );

    let err = match action.commit_to(&table) {
        Err(e) => e,
        Ok(_) => panic!("should reject adding to a nonexistent parent"),
    };
    assert_eq!(err.kind(), ErrorKind::PreconditionFailed);
    assert!(
        err.message().contains("nonexistent"),
        "error should mention the missing parent, got: {}",
        err.message()
    );
}

#[test]
fn test_add_column_to_primitive_parent_fails() {
    let table = make_v2_table_with_nested();
    // "x" is a primitive (long), not a struct.
    let action = UpdateSchemaAction::new().add_column(
        AddColumn::builder()
            .name("col")
            .field_type(Type::Primitive(PrimitiveType::Int))
            .parent("x")
            .build(),
    );

    let err = match action.commit_to(&table) {
        Err(e) => e,
        Ok(_) => panic!("should reject adding to a primitive parent"),
    };
    assert_eq!(err.kind(), ErrorKind::PreconditionFailed);
    assert!(
        err.message().contains("not a struct"),
        "error should mention type mismatch, got: {}",
        err.message()
    );
}

#[test]
fn test_add_column_to_nested_name_conflict_fails() {
    let table = make_v2_table_with_nested();
    // "name" already exists in the "person" struct.
    let action = UpdateSchemaAction::new().add_column(
        AddColumn::builder()
            .name("name")
            .field_type(Type::Primitive(PrimitiveType::String))
            .parent("person")
            .build(),
    );

    let err = match action.commit_to(&table) {
        Err(e) => e,
        Ok(_) => panic!("should reject adding a column with conflicting name"),
    };
    assert_eq!(err.kind(), ErrorKind::PreconditionFailed);
    assert!(
        err.message().contains("already exists"),
        "error should mention name conflict, got: {}",
        err.message()
    );
}

#[test]
fn test_root_and_nested_add_combined() {
    let table = make_v2_table_with_nested();
    // Add a root column and a nested column in the same action.
    let action = UpdateSchemaAction::new()
        .add_column(AddColumn::optional(
            "root_col",
            Type::Primitive(PrimitiveType::Boolean),
        ))
        .add_column(
            AddColumn::builder()
                .name("email")
                .field_type(Type::Primitive(PrimitiveType::String))
                .parent("person")
                .build(),
        );

    let mut action_commit = action.commit_to(&table).unwrap();
    let updates = action_commit.take_updates();

    let new_schema = match &updates[0] {
        TableUpdate::AddSchema { schema } => schema,
        other => panic!("expected AddSchema, got {other:?}"),
    };

    // Root column gets the first fresh ID.
    let root_col = new_schema
        .field_by_name("root_col")
        .expect("root_col should exist");
    assert_eq!(root_col.id, 15);

    // Nested column gets the next ID.
    let email = new_schema
        .field_by_name("person.email")
        .expect("person.email should exist");
    assert_eq!(email.id, 16);
}

#[test]
fn test_add_nested_struct_type_with_fresh_ids() {
    // Adding a new column whose TYPE contains nested fields (e.g. a struct column). All sub-fields must receive
    // fresh IDs, not placeholder `DEFAULT_FIELD_ID`.
    let table = make_v2_table();
    let action = UpdateSchemaAction::new().add_column(AddColumn::optional(
        "address",
        Type::Struct(StructType::new(vec![
            NestedField::optional(
                DEFAULT_FIELD_ID,
                "street",
                Type::Primitive(PrimitiveType::String),
            )
            .into(),
            NestedField::optional(
                DEFAULT_FIELD_ID,
                "city",
                Type::Primitive(PrimitiveType::String),
            )
            .into(),
        ])),
    ));

    let mut action_commit = action.commit_to(&table).unwrap();
    let updates = action_commit.take_updates();

    let new_schema = match &updates[0] {
        TableUpdate::AddSchema { schema } => schema,
        other => panic!("expected AddSchema, got {other:?}"),
    };

    // "address" gets ID 4 (last_column_id=3, +1).
    let address = new_schema
        .field_by_name("address")
        .expect("address should exist");
    assert_eq!(address.id, 4);

    // Sub-fields get IDs 5 and 6.
    let street = new_schema
        .field_by_name("address.street")
        .expect("address.street should exist");
    assert_eq!(street.id, 5);

    let city = new_schema
        .field_by_name("address.city")
        .expect("address.city should exist");
    assert_eq!(city.id, 6);
}

#[test]
fn test_rename_root_and_nested_columns_preserves_ids() {
    let table = make_v2_table_with_nested();
    let schema = apply_schema(
        &table,
        UpdateSchemaAction::new()
            .rename_column("z", "payload")
            .rename_column("person.name", "full_name"),
    );

    assert!(schema.field_by_name("z").is_none());
    assert_eq!(schema.field_by_name("payload").unwrap().id, 3);
    assert!(schema.field_by_name("person.name").is_none());
    assert_eq!(schema.field_by_name("person.full_name").unwrap().id, 5);
    assert_eq!(schema.field_by_name("person").unwrap().id, 4);
}

#[test]
fn test_update_type_doc_and_default_preserves_metadata() {
    let table = make_v2_table_with_nested();
    let schema = apply_schema(
        &table,
        UpdateSchemaAction::new()
            .update_column_type("person.age", PrimitiveType::Long)
            .update_column_doc("person.age", Some("age in years".to_string()))
            .update_column_default("person.age", Some(Literal::long(18))),
    );

    let age = schema.field_by_name("person.age").unwrap();
    assert_eq!(age.id, 6);
    assert!(age.required);
    assert_eq!(
        age.field_type.as_ref(),
        &Type::Primitive(PrimitiveType::Long)
    );
    assert_eq!(age.doc.as_deref(), Some("age in years"));
    assert_eq!(age.write_default, Some(Literal::long(18)));
    assert_eq!(age.initial_default, None);
}

#[test]
fn test_type_promotion_casts_existing_defaults() {
    let table = make_v2_table();
    let schema = apply_schema(
        &table,
        UpdateSchemaAction::new()
            .add_column(
                AddColumn::builder()
                    .name("count")
                    .field_type(Type::Primitive(PrimitiveType::Int))
                    .initial_default(Literal::integer(7))
                    .write_default(Literal::integer(8))
                    .build(),
            )
            .update_column_type("count", PrimitiveType::Long),
    );

    let count = schema.field_by_name("count").unwrap();
    assert_eq!(
        count.field_type.as_ref(),
        &Type::Primitive(PrimitiveType::Long)
    );
    assert_eq!(count.initial_default, Some(Literal::long(7)));
    assert_eq!(count.write_default, Some(Literal::long(8)));
}

#[test]
fn test_rejects_invalid_type_promotion_and_default() {
    let table = make_v2_table_with_nested();
    let type_error = commit_error(
        &table,
        UpdateSchemaAction::new()
            .update_column_type("person.age", PrimitiveType::String),
    );
    assert_eq!(type_error.kind(), ErrorKind::PreconditionFailed);
    assert!(type_error.message().contains("Cannot change column type"));

    let default_error = commit_error(
        &table,
        UpdateSchemaAction::new()
            .update_column_default("person.age", Some(Literal::string("unknown"))),
    );
    assert_eq!(default_error.kind(), ErrorKind::PreconditionFailed);
    assert!(default_error.message().contains("Invalid default"));

    let nested_default_error = commit_error(
        &table,
        UpdateSchemaAction::new().add_column(
            AddColumn::builder()
                .name("details")
                .field_type(Type::Struct(StructType::new(vec![
                    NestedField::optional(100, "value", Type::Primitive(PrimitiveType::String))
                        .into(),
                ])))
                .initial_default(Literal::Struct((vec![Some(
                    Literal::long(1),
                )])))
                .build(),
        ),
    );
    assert_eq!(nested_default_error.kind(), ErrorKind::PreconditionFailed);
    assert!(nested_default_error.message().contains("Invalid default"));

    let invalid_nested_field_default = commit_error(
        &table,
        UpdateSchemaAction::new()
            .add_column(AddColumn::optional(
                "details",
                Type::Struct(StructType::new(vec![
                    NestedField::optional(100, "value", Type::Primitive(PrimitiveType::Int))
                        .with_initial_default(Literal::string("not an int"))
                        .into(),
                ])),
            )),
    );
    assert_eq!(
        invalid_nested_field_default.kind(),
        ErrorKind::PreconditionFailed
    );
    assert!(
        invalid_nested_field_default
            .message()
            .contains("details.value")
    );
}

#[test]
fn test_nullability_changes_require_explicit_opt_in() {
    let table = make_v2_table_with_nested();
    let error = commit_error(
        &table,
        UpdateSchemaAction::new()
            .require_column("person.name"),
    );
    assert_eq!(error.kind(), ErrorKind::PreconditionFailed);
    assert!(error.message().contains("optional -> required"));

    let schema = apply_schema(
        &table,
        UpdateSchemaAction::new()
            .allow_incompatible_changes()
            .require_column("person.name")
            .make_column_optional("person.age"),
    );
    assert!(schema.field_by_name("person.name").unwrap().required);
    assert!(!schema.field_by_name("person.age").unwrap().required);
}

#[test]
fn test_required_add_without_default_requires_opt_in() {
    fn required_column() -> AddColumn {
        AddColumn::builder()
            .name("required_col")
            .required(true)
            .field_type(Type::Primitive(PrimitiveType::String))
            .build()
    }

    let table = make_v2_table();
    let error = commit_error(
        &table,
        UpdateSchemaAction::new()
            .add_column(required_column()),
    );
    assert_eq!(error.kind(), ErrorKind::PreconditionFailed);

    let schema = apply_schema(
        &table,
        UpdateSchemaAction::new()
            .allow_incompatible_changes()
            .add_column(required_column()),
    );
    assert!(schema.field_by_name("required_col").unwrap().required);
}

#[test]
fn test_incompatible_change_opt_in_only_applies_to_subsequent_operations() {
    let table = make_v2_table();
    let required_column = || {
        AddColumn::builder()
            .name("required_col")
            .required(true)
            .field_type(Type::Primitive(PrimitiveType::String))
            .build()
    };

    let error = commit_error(
        &table,
        UpdateSchemaAction::new()
            .add_column(required_column())
            .allow_incompatible_changes(),
    );
    assert_eq!(error.kind(), ErrorKind::PreconditionFailed);

    let schema = apply_schema(
        &table,
        UpdateSchemaAction::new()
            .allow_incompatible_changes()
            .add_column(required_column()),
    );
    assert!(schema.field_by_name("required_col").unwrap().required);
}

#[test]
fn test_move_columns_at_root_and_nested_levels() {
    let table = make_v2_table_with_nested();
    let schema = apply_schema(
        &table,
        UpdateSchemaAction::new()
            .move_column_first("z")
            .move_column_after("person.name", "person.age"),
    );

    let root_ids: Vec<i32> = schema
        .as_struct()
        .fields()
        .iter()
        .map(|field| field.id)
        .collect();
    assert_eq!(root_ids, vec![3, 1, 2, 4, 7, 11]);
    let Type::Struct(person) = schema.field_by_name("person").unwrap().field_type.as_ref() else {
        panic!("person should remain a struct")
    };
    assert_eq!(person.fields()[0].id, 6);
    assert_eq!(person.fields()[1].id, 5);
}

#[test]
fn test_move_added_replacement_column() {
    let table = make_v2_table();
    let schema = apply_schema(
        &table,
        UpdateSchemaAction::new()
            .delete_column("z")
            .add_column(AddColumn::optional(
                "z",
                Type::Primitive(PrimitiveType::String),
            ))
            .move_column_first("z"),
    );

    assert_eq!(schema.as_struct().fields()[0].name, "z");
    assert_eq!(schema.as_struct().fields()[0].id, 4);
}

#[test]
fn test_move_validation() {
    let table = make_v2_table_with_nested();
    let self_move = commit_error(
        &table,
        UpdateSchemaAction::new()
            .move_column_before("z", "z"),
    );
    assert!(self_move.message().contains("itself"));

    let cross_struct = commit_error(
        &table,
        UpdateSchemaAction::new()
            .move_column_after("person.name", "z"),
    );
    assert!(cross_struct.message().contains("different struct"));

    let list_element = commit_error(
        &table,
        UpdateSchemaAction::new()
            .move_column_first("tags.element"),
    );
    assert!(list_element.message().contains("non-struct"));
}

#[test]
fn test_case_insensitive_resolution() {
    let table = make_v2_table_with_nested();
    let schema = apply_schema(
        &table,
        UpdateSchemaAction::new()
            .case_sensitive(false)
            .rename_column("PERSON.NAME", "full_name")
            .update_column_type("PERSON.AGE", PrimitiveType::Long),
    );
    assert_eq!(schema.field_by_name("person.full_name").unwrap().id, 5);
    assert_eq!(
        schema
            .field_by_name("person.age")
            .unwrap()
            .field_type
            .as_ref(),
        &Type::Primitive(PrimitiveType::Long)
    );
}

#[test]
fn test_case_sensitivity_changes_only_apply_to_subsequent_operations() {
    let table = make_v2_table();
    let error = commit_error(
        &table,
        UpdateSchemaAction::new()
            .rename_column("Z", "renamed_z")
            .case_sensitive(false),
    );
    assert_eq!(error.kind(), ErrorKind::PreconditionFailed);

    let schema = apply_schema(
        &table,
        UpdateSchemaAction::new()
            .case_sensitive(false)
            .rename_column("Z", "renamed_z")
            .case_sensitive(true),
    );
    assert!(schema.field_by_name("renamed_z").is_some());
}

#[test]
fn test_added_names_keep_add_time_case_normalization() {
    let table = make_v2_table();
    let error = commit_error(
        &table,
        UpdateSchemaAction::new()
            .add_column(AddColumn::optional(
                "Added",
                Type::Primitive(PrimitiveType::String),
            ))
            .case_sensitive(false)
            .update_column_doc("added", Some("doc".to_string())),
    );
    assert_eq!(error.kind(), ErrorKind::PreconditionFailed);

    let error = commit_error(
        &table,
        UpdateSchemaAction::new()
            .case_sensitive(false)
            .add_column(AddColumn::optional(
                "Added",
                Type::Primitive(PrimitiveType::String),
            ))
            .case_sensitive(true)
            .update_column_doc("Added", Some("doc".to_string())),
    );
    assert_eq!(error.kind(), ErrorKind::PreconditionFailed);
}

#[test]
fn test_identifier_field_replacement_controls_deletes() {
    let table = make_v2_table();
    let error = commit_error(
        &table,
        UpdateSchemaAction::new().delete_column("x"),
    );
    assert!(error.message().contains("identifier field"));

    let schema = apply_schema(
        &table,
        UpdateSchemaAction::new()
            .delete_column("x")
            .delete_column("y")
            .identify(["z"]),
    );
    assert_eq!(schema.identifier_field_ids().iter().copied().collect::<Vec<_>>(), vec![3]);
    assert!(schema.field_by_name("x").is_none());
}

#[test]
fn test_identifier_field_validation_uses_updated_schema() {
    let table = make_v2_table();
    let error = commit_error(
        &table,
        UpdateSchemaAction::new()
            .add_column(AddColumn::optional(
                "candidate",
                Type::Primitive(PrimitiveType::String),
            ))
            .identify(["candidate"]),
    );
    assert_eq!(error.kind(), ErrorKind::PreconditionFailed);
    assert!(full_message(&error).contains("optional field"));

    let schema = apply_schema(
        &table,
        UpdateSchemaAction::new()
            .add_column(AddColumn::required(
                "candidate",
                Type::Primitive(PrimitiveType::String),
                Literal::string("unknown"),
            ))
            .identify(["candidate"]),
    );
    assert_eq!(schema.identifier_field_ids().iter().copied().collect::<Vec<_>>(), vec![4]);

    let schema = apply_schema(
        &table,
        UpdateSchemaAction::new()
            .identify(["future_candidate"])
            .add_column(AddColumn::required(
                "future_candidate",
                Type::Primitive(PrimitiveType::String),
                Literal::string("unknown"),
            )),
    );
    assert_eq!(schema.identifier_field_ids().iter().copied().collect::<Vec<_>>(), vec![4]);
}

#[test]
fn test_new_required_nested_fields_can_be_identifiers() {
    let table = make_v2_table();
    let action = UpdateSchemaAction::new()
        .allow_incompatible_changes()
        .add_column(
            AddColumn::builder()
                .name("parent")
                .required(true)
                .field_type(Type::Struct(StructType::new(vec![
                    NestedField::required(10, "id", Type::Primitive(PrimitiveType::String)).into(),
                ])))
                .build(),
        )
        .add_column(
            AddColumn::builder()
                .name("multi")
                .required(true)
                .field_type(Type::Struct(StructType::new(vec![
                    NestedField::required(
                        20,
                        "inner",
                        Type::Struct(StructType::new(vec![
                            NestedField::required(21, "id", Type::Primitive(PrimitiveType::String))
                                .into(),
                        ])),
                    )
                    .into(),
                ])))
                .build(),
        )
        .identify(["parent.id", "multi.inner.id"]);

    let schema = apply_schema(&table, action);
    let identifiers = schema
        .identifier_field_ids().iter().copied()
        .collect::<std::collections::HashSet<_>>();
    assert_eq!(
        identifiers,
        std::collections::HashSet::from([
            schema.field_by_name("parent.id").unwrap().id,
            schema.field_by_name("multi.inner.id").unwrap().id,
        ])
    );
}

#[test]
fn test_union_by_name_adds_and_evolves_nested_fields() {
    let table = make_v2_table_with_nested();
    let incoming = Schema::builder()
        .fields_from(vec![
            NestedField::optional(
                100,
                "person",
                Type::Struct(StructType::new(vec![
                    NestedField::optional(101, "age", Type::Primitive(PrimitiveType::Long))
                        .with_doc("age in years")
                        .into(),
                    NestedField::required(102, "country", Type::Primitive(PrimitiveType::String))
                        .into(),
                ])),
            )
            .into(),
        ])
        .build()
        .unwrap();
    let schema = apply_schema(
        &table,
        UpdateSchemaAction::new()
            .union_by_name(incoming),
    );

    let age = schema.field_by_name("person.age").unwrap();
    assert_eq!(age.id, 6);
    assert!(!age.required);
    assert_eq!(
        age.field_type.as_ref(),
        &Type::Primitive(PrimitiveType::Long)
    );
    assert_eq!(age.doc.as_deref(), Some("age in years"));
    let country = schema.field_by_name("person.country").unwrap();
    assert_eq!(country.id, 15);
    assert!(!country.required, "union additions must be optional");
}

#[test]
fn test_union_by_name_promotes_type_before_applying_default() {
    let table = table_with_schema(
        Schema::builder()
            .fields_from([
                NestedField::optional(1, "count", Type::Primitive(PrimitiveType::Int)).into(),
            ])
            .build()
            .unwrap(),
    );
    let incoming = Schema::builder()
        .fields_from([
            NestedField::optional(50, "count", Type::Primitive(PrimitiveType::Long))
                .with_write_default(Literal::long(i64::MAX))
                .into(),
        ])
        .build()
        .unwrap();

    let schema = apply_schema(
        &table,
        UpdateSchemaAction::new()
            .union_by_name(incoming),
    );
    let count = schema.field_by_name("count").unwrap();
    assert_eq!(
        count.field_type.as_ref(),
        &Type::Primitive(PrimitiveType::Long)
    );
    assert_eq!(count.write_default, Some(Literal::long(i64::MAX)));
}

#[test]
fn test_union_by_name_accepts_matching_variant_fields() {
    let table = make_v2_table();
    let action = UpdateSchemaAction::new()
        .add_column(AddColumn::optional("data", Type::Variant(VariantType)))
        .add_column(AddColumn::optional(
            "struct_data",
            Type::Struct(StructType::new(vec![
                NestedField::optional(10, "value", Type::Primitive(PrimitiveType::String)).into(),
            ])),
        ));
    let table = apply_updates(&table, &action.commit_to(&table).unwrap().take_updates());
    let incoming = Schema::builder()
        .fields_from([
            NestedField::optional(50, "data", Type::Variant(VariantType)).into(),
            NestedField::optional(51, "struct_data", Type::Variant(VariantType)).into(),
        ])
        .build()
        .unwrap();

    let schema = apply_schema(
        &table,
        UpdateSchemaAction::new()
            .union_by_name(incoming),
    );
    assert_eq!(
        schema.field_by_name("data").unwrap().field_type.as_ref(),
        &Type::Variant(VariantType)
    );
    assert!(matches!(
        schema
            .field_by_name("struct_data")
            .unwrap()
            .field_type
            .as_ref(),
        Type::Struct(_)
    ));
}

#[test]
fn test_name_mapping_tracks_renames_and_additions() {
    let table = make_v2_table();
    let mapping = r#"[
        {"field-id":1,"names":["x"]},
        {"field-id":2,"names":["y"]},
        {"field-id":3,"names":["z"]}
    ]"#;
    let metadata = table.metadata().with_properties(HashMap::from([(
            DEFAULT_SCHEMA_NAME_MAPPING.to_string(),
            mapping.to_string(),
        )]));
    let table = table.with_metadata(metadata);
    let action = UpdateSchemaAction::new()
        .rename_column("z", "payload")
        .add_column(AddColumn::optional(
            "extra",
            Type::Primitive(PrimitiveType::String),
        ));
    let mut commit = action.commit_to(&table).unwrap();
    let property_update = commit
        .take_updates()
        .into_iter()
        .find_map(|update| match update {
            TableUpdate::SetProperties { updates } => {
                property(&updates, DEFAULT_SCHEMA_NAME_MAPPING).cloned()
            }
            _ => None,
        })
        .expect("schema update should maintain the name mapping");
    let mapping = parse_mapping(&property_update);
    let renamed = mapping
        .fields()
        .iter()
        .find(|field| field.field_id() == Some(3))
        .unwrap();
    assert_eq!(renamed.names(), &["z".to_string(), "payload".to_string()]);
    let added = mapping
        .fields()
        .iter()
        .find(|field| field.field_id() == Some(4))
        .unwrap();
    assert_eq!(added.names(), &["extra".to_string()]);
}

#[test]
fn test_invalid_name_mapping_does_not_block_update() {
    let table = make_v2_table();
    let metadata = table.metadata().with_properties(HashMap::from([(
            DEFAULT_SCHEMA_NAME_MAPPING.to_string(),
            "{not valid json".to_string(),
        )]));
    let table = table.with_metadata(metadata);
    let action = UpdateSchemaAction::new()
        .rename_column("z", "payload");
    let mut commit = action.commit_to(&table).unwrap();

    let updates = commit.take_updates();
    assert!(updates.iter().any(|update| matches!(
        update,
        TableUpdate::AddSchema { schema }
            if schema.field_by_name("payload").is_some()
    )));
    assert!(!updates.iter().any(|update| matches!(
        update,
        TableUpdate::SetProperties { updates }
            if property(&updates, DEFAULT_SCHEMA_NAME_MAPPING).is_some()
    )));
}

#[test]
fn test_column_properties_follow_renames_and_deletes() {
    let table = make_v2_table_with_nested();
    let metrics_key = "write.metadata.metrics.column.z";
    let bloom_key = "write.parquet.bloom-filter-enabled.column.z";
    let deleted_key = "write.parquet.stats-enabled.column.person.name";
    let metadata = table.metadata().with_properties(HashMap::from([
            (metrics_key.to_string(), "full".to_string()),
            (bloom_key.to_string(), "true".to_string()),
            (deleted_key.to_string(), "false".to_string()),
            (
                "write.metadata.metrics.column.x".to_string(),
                "counts".to_string(),
            ),
        ]));
    let table = table.with_metadata(metadata);
    let action = UpdateSchemaAction::new()
        .rename_column("z", "payload")
        .delete_column("person.name");
    let mut commit = action.commit_to(&table).unwrap();

    let updates = commit.take_updates();
    let removals = updates
        .iter()
        .find_map(|update| match update {
            TableUpdate::RemoveProperties { removals } => Some(removals),
            _ => None,
        })
        .unwrap();
    assert_eq!(removals, &vec![
        metrics_key.to_string(),
        bloom_key.to_string(),
        deleted_key.to_string(),
    ]);
    let property_updates = updates
        .iter()
        .find_map(|update| match update {
            TableUpdate::SetProperties { updates } => Some(updates),
            _ => None,
        })
        .unwrap();
    assert_eq!(
        property(property_updates, "write.metadata.metrics.column.payload"),
        Some(&"full".to_string())
    );
    assert_eq!(
        property(property_updates, "write.parquet.bloom-filter-enabled.column.payload"),
        Some(&"true".to_string())
    );
    assert!(!property(property_updates, deleted_key).is_some());
}

#[test]
fn test_rejects_updates_inside_map_keys() {
    let schema = Schema::builder()
        .fields_from([NestedField::optional(
            1,
            "mapped",
            Type::MapOf(MapType {
                key_field: NestedField::map_key_element(
                    2,
                    Type::Struct(StructType::new(vec![
                        NestedField::required(
                            3,
                            "key_part",
                            Type::Primitive(PrimitiveType::String),
                        )
                        .into(),
                    ])),
                )
                .into(),
                value_field: NestedField::map_value_element(
                    4,
                    Type::Primitive(PrimitiveType::String),
                    false,
                )
                .into(),
            }),
        )
        .into()])
        .build()
        .unwrap();
    let table = table_with_schema(schema);
    let action = UpdateSchemaAction::new()
        .rename_column("mapped.key.key_part", "renamed");

    let error = commit_error(&table, action);

    assert_eq!(error.kind(), ErrorKind::PreconditionFailed);
    assert!(error.message().contains("Cannot alter map keys"));
}

#[test]
fn test_identifier_field_names_follow_renames() {
    let table = make_v2_table();
    let action = UpdateSchemaAction::new()
        .identify(["x"])
        .rename_column("x", "renamed_x");

    let schema = apply_schema(&table, action);

    let renamed = schema.field_by_name("renamed_x").unwrap();
    assert_eq!(renamed.id, 1);
    assert_eq!(schema.identifier_field_ids().iter().copied().collect::<Vec<_>>(), vec![1]);
}

#[test]
fn test_identifier_fields_defer_intermediate_name_conflicts() {
    let table = make_v2_table();
    let action = UpdateSchemaAction::new()
        .rename_column("x", "y")
        .identify(["y"])
        .rename_column("y", "renamed_y");

    let schema = apply_schema(&table, action);

    assert_eq!(schema.field_by_name("y").unwrap().id, 1);
    let identifier = schema.field_by_name("renamed_y").unwrap();
    assert_eq!(identifier.id, 2);
    assert_eq!(schema.identifier_field_ids().iter().copied().collect::<Vec<_>>(), vec![
        identifier.id
    ]);
}

#[test]
fn test_collection_pseudo_fields_remain_canonical() {
    let schema = Schema::builder()
        .fields_from([
            NestedField::optional(
                1,
                "items",
                Type::List(ListType {
                    element_field: NestedField::list_element(
                        2,
                        Type::Primitive(PrimitiveType::String),
                        false,
                    )
                    .into(),
                }),
            )
            .into(),
            NestedField::optional(
                3,
                "properties",
                Type::MapOf(MapType {
                    key_field: NestedField::map_key_element(
                        4,
                        Type::Primitive(PrimitiveType::String),
                    )
                    .into(),
                    value_field: NestedField::map_value_element(
                        5,
                        Type::Primitive(PrimitiveType::String),
                        false,
                    )
                    .into(),
                }),
            )
            .into(),
        ])
        .build()
        .unwrap();
    let table = table_with_schema(schema);
    let action = UpdateSchemaAction::new()
        .rename_column("items.element", "renamed_element")
        .update_column_doc("properties.value", Some("not serialized".to_string()));

    let schema = apply_schema(&table, action);

    let element = schema.field_by_name("items.element").unwrap();
    assert_eq!(element.name, "element");
    let value = schema.field_by_name("properties.value").unwrap();
    assert_eq!(value.name, "value");
    assert_eq!(value.doc, None);
}

#[test]
fn test_pseudo_field_mapping_update_does_not_stage_unchanged_schema() {
    let table = make_v2_table_with_nested();
    let mapping = r#"[
        {
            "field-id": 7,
            "names": ["tags"],
            "fields": [
                {"field-id": 8, "names": ["element"]}
            ]
        }
    ]"#;
    let metadata = table.metadata().with_properties(HashMap::from([(
            DEFAULT_SCHEMA_NAME_MAPPING.to_string(),
            mapping.to_string(),
        )]));
    let table = table.with_metadata(metadata);
    let action = UpdateSchemaAction::new()
        .rename_column("tags.element", "renamed_element");

    let mut commit = action.commit_to(&table).unwrap();
    let updates = commit.take_updates();
    let requirements = commit.take_requirements();

    assert_eq!(updates.len(), 1);
    let TableUpdate::SetProperties { updates } = &updates[0] else {
        panic!(
            "expected name-mapping property update, got {:?}",
            updates[0]
        );
    };
    let updated_mapping = parse_mapping(property(&updates, DEFAULT_SCHEMA_NAME_MAPPING).unwrap());
    let element = &updated_mapping.fields()[0].fields()[0];
    assert_eq!(element.names(), &["element", "renamed_element"]);
    assert_eq!(requirements, vec![TableRequirement::UuidMatch {
        uuid: table.metadata().uuid(),
    }]);
}

#[test]
fn test_case_insensitive_updates_reject_name_collisions() {
    let schema = Schema::builder()
        .fields_from([
            NestedField::optional(1, "Foo", Type::Primitive(PrimitiveType::String)).into(),
            NestedField::optional(2, "foo", Type::Primitive(PrimitiveType::String)).into(),
        ])
        .build()
        .unwrap();
    assert!(schema.field_by_name_case_insensitive("FOO").is_none());
    let table = table_with_schema(schema);
    let action = UpdateSchemaAction::new()
        .case_sensitive(false)
        .rename_column("FOO", "renamed");

    let error = commit_error(&table, action);

    assert_eq!(error.kind(), ErrorKind::PreconditionFailed);
    assert!(error.message().contains("multiple fields match"));

    let error = commit_error(
        &table,
        UpdateSchemaAction::new()
            .delete_column("Foo")
            .case_sensitive(false)
            .rename_column("foo", "renamed")
            .case_sensitive(true),
    );
    assert_eq!(error.kind(), ErrorKind::PreconditionFailed);
    assert!(error.message().contains("multiple fields match"));
}

#[test]
fn test_case_insensitive_updates_cannot_create_name_collisions() {
    let schema = Schema::builder()
        .fields_from([
            NestedField::optional(1, "Foo", Type::Primitive(PrimitiveType::String)).into(),
            NestedField::optional(2, "bar", Type::Primitive(PrimitiveType::String)).into(),
        ])
        .build()
        .unwrap();
    let table = table_with_schema(schema);
    let action = UpdateSchemaAction::new()
        .case_sensitive(false)
        .rename_column("bar", "foo");

    let error = commit_error(&table, action);

    assert_eq!(error.kind(), ErrorKind::PreconditionFailed);
    assert!(error.message().contains("multiple fields match"));
}

#[test]
fn test_default_literals_are_coerced_to_column_types() {
    let table = make_v2_table();
    let decimal_type = PrimitiveType::Decimal {
        precision: 9,
        scale: 2,
    };
    let action = UpdateSchemaAction::new()
        .add_column(
            AddColumn::builder()
                .name("float_default")
                .field_type(Type::Primitive(PrimitiveType::Float))
                .initial_default(Literal::integer(1))
                .write_default(Literal::integer(2))
                .build(),
        )
        .add_column(
            AddColumn::builder()
                .name("double_default")
                .field_type(Type::Primitive(PrimitiveType::Double))
                .initial_default(Literal::long(3))
                .write_default(Literal::long(4))
                .build(),
        )
        .add_column(
            AddColumn::builder()
                .name("decimal_default")
                .field_type(Type::Primitive(decimal_type.clone()))
                .initial_default(Literal::integer(5))
                .write_default(double(6.255))
                .build(),
        )
        .add_column(
            AddColumn::builder()
                .name("decimal_string_default")
                .field_type(Type::Primitive(decimal_type))
                .initial_default(Literal::string("1.23"))
                .build(),
        )
        .add_column(
            AddColumn::builder()
                .name("date_default")
                .field_type(Type::Primitive(PrimitiveType::Date))
                .initial_default(Literal::string("2024-01-02"))
                .write_default(Literal::string("2024-01-03"))
                .build(),
        )
        .add_column(
            AddColumn::builder()
                .name("timestamptz_default")
                .field_type(Type::Primitive(PrimitiveType::Timestamptz))
                .initial_default(Literal::string("2024-01-02T03:04:05-05:00"))
                .write_default(Literal::string("2024-01-03T03:04:05+02:00"))
                .build(),
        )
        .add_column(
            AddColumn::builder()
                .name("pre_epoch_timestamptz_default")
                .field_type(Type::Primitive(PrimitiveType::Timestamptz))
                .initial_default(Literal::string("1969-12-31T23:59:59.999999Z"))
                .build(),
        )
        .add_column(
            AddColumn::builder()
                .name("submicro_timestamp_default")
                .field_type(Type::Primitive(PrimitiveType::Timestamp))
                .initial_default(Literal::string("1969-12-31T23:59:59.999999999"))
                .build(),
        )
        .add_column(
            AddColumn::builder()
                .name("submicro_timestamptz_default")
                .field_type(Type::Primitive(PrimitiveType::Timestamptz))
                .initial_default(Literal::string("1969-12-31T23:59:59.999999999Z"))
                .build(),
        )
        .add_column(
            AddColumn::builder()
                .name("pre_epoch_timestamptz_ns_default")
                .field_type(Type::Primitive(PrimitiveType::TimestamptzNs))
                .initial_default(Literal::string("1969-12-31T23:59:59.999999999Z"))
                .build(),
        )
        .add_column(
            AddColumn::builder()
                .name("uuid_default")
                .field_type(Type::Primitive(PrimitiveType::Uuid))
                .initial_default(Literal::string("a1a2a3a4-b1b2-c1c2-d1d2-d3d4d5d6d7d8"))
                .write_default(Literal::string("d8d7d6d5-d4d3-d2d1-c2c1-b2b1a4a3a2a1"))
                .build(),
        );

    let schema = apply_schema(&table, action);

    let float_default = schema.field_by_name("float_default").unwrap();
    assert_eq!(float_default.initial_default, Some(float(1.0)));
    assert_eq!(float_default.write_default, Some(float(2.0)));
    let double_default = schema.field_by_name("double_default").unwrap();
    assert_eq!(double_default.initial_default, Some(double(3.0)));
    assert_eq!(double_default.write_default, Some(double(4.0)));
    let decimal_default = schema.field_by_name("decimal_default").unwrap();
    assert_eq!(decimal_default.initial_default, Some(Literal::decimal(500)));
    assert_eq!(decimal_default.write_default, Some(Literal::decimal(626)));
    let decimal_string_default = schema.field_by_name("decimal_string_default").unwrap();
    assert_eq!(
        decimal_string_default.initial_default,
        Some(Literal::decimal(123))
    );
    let date_default = schema.field_by_name("date_default").unwrap();
    assert_eq!(
        date_default.initial_default,
        Some(Literal::date(19724))
    );
    assert_eq!(
        date_default.write_default,
        Some(Literal::date(19725))
    );
    let timestamptz_default = schema.field_by_name("timestamptz_default").unwrap();
    assert_eq!(
        timestamptz_default.initial_default,
        Some(Literal::long(
            chrono::DateTime::parse_from_rfc3339("2024-01-02T03:04:05-05:00")
                .unwrap()
                .timestamp_micros()
        ))
    );
    assert_eq!(
        timestamptz_default.write_default,
        Some(Literal::long(
            chrono::DateTime::parse_from_rfc3339("2024-01-03T03:04:05+02:00")
                .unwrap()
                .timestamp_micros()
        ))
    );
    let pre_epoch_timestamptz_default = schema
        .field_by_name("pre_epoch_timestamptz_default")
        .unwrap();
    assert_eq!(
        pre_epoch_timestamptz_default.initial_default,
        Some(Literal::long(-1))
    );
    let submicro_timestamp_default = schema.field_by_name("submicro_timestamp_default").unwrap();
    assert_eq!(
        submicro_timestamp_default.initial_default,
        Some(Literal::long(0))
    );
    let submicro_timestamptz_default = schema
        .field_by_name("submicro_timestamptz_default")
        .unwrap();
    assert_eq!(
        submicro_timestamptz_default.initial_default,
        Some(Literal::long(0))
    );
    let pre_epoch_timestamptz_ns_default = schema
        .field_by_name("pre_epoch_timestamptz_ns_default")
        .unwrap();
    assert_eq!(
        pre_epoch_timestamptz_ns_default.initial_default,
        Some(Literal::long(-1))
    );
    let uuid_default = schema.field_by_name("uuid_default").unwrap();
    assert_eq!(
        uuid_default.initial_default,
        Some(Literal::uuid(0xa1a2a3a4_b1b2_c1c2_d1d2_d3d4d5d6d7d8))
    );
    assert_eq!(
        uuid_default.write_default,
        Some(Literal::uuid(0xd8d7d6d5_d4d3_d2d1_c2c1_b2b1a4a3a2a1))
    );
}

#[test]
fn test_java_temporal_and_uuid_string_defaults() {
    let table = make_v2_table();
    let action = UpdateSchemaAction::new()
        .add_column(
            AddColumn::builder()
                .name("time_default")
                .field_type(Type::Primitive(PrimitiveType::Time))
                .initial_default(Literal::string("12:30"))
                .build(),
        )
        .add_column(
            AddColumn::builder()
                .name("timestamp_default")
                .field_type(Type::Primitive(PrimitiveType::Timestamp))
                .initial_default(Literal::string("2024-01-02t12:30"))
                .build(),
        )
        .add_column(
            AddColumn::builder()
                .name("timestamptz_default")
                .field_type(Type::Primitive(PrimitiveType::Timestamptz))
                .initial_default(Literal::string("2024-01-02T12:30+01:02:03"))
                .build(),
        )
        .add_column(
            AddColumn::builder()
                .name("timestamp_ns_default")
                .field_type(Type::Primitive(PrimitiveType::TimestampNs))
                .initial_default(Literal::string("2024-01-02T12:30"))
                .build(),
        )
        .add_column(
            AddColumn::builder()
                .name("timestamptz_ns_default")
                .field_type(Type::Primitive(PrimitiveType::TimestamptzNs))
                .initial_default(Literal::string("2024-01-02t12:30z"))
                .build(),
        )
        .add_column(
            AddColumn::builder()
                .name("uuid_default")
                .field_type(Type::Primitive(PrimitiveType::Uuid))
                .initial_default(Literal::string("1-1-1-1-1"))
                .build(),
        );

    let schema = apply_schema(&table, action);
    assert_eq!(
        schema
            .field_by_name("time_default")
            .unwrap()
            .initial_default,
        Some(Literal::long(45_000_000_000))
    );
    let local = chrono::NaiveDate::from_ymd_opt(2024, 1, 2)
        .unwrap()
        .and_hms_opt(12, 30, 0)
        .unwrap()
        .and_utc();
    assert_eq!(
        schema
            .field_by_name("timestamp_default")
            .unwrap()
            .initial_default,
        Some(Literal::long(local.timestamp_micros()))
    );
    assert_eq!(
        schema
            .field_by_name("timestamptz_default")
            .unwrap()
            .initial_default,
        Some(Literal::long(
            local.timestamp_micros() - 3_723_000_000
        ))
    );
    assert_eq!(
        schema
            .field_by_name("timestamp_ns_default")
            .unwrap()
            .initial_default,
        Some(Literal::long(
            local.timestamp_nanos_opt().unwrap()
        ))
    );
    assert_eq!(
        schema
            .field_by_name("timestamptz_ns_default")
            .unwrap()
            .initial_default,
        Some(Literal::long(
            local.timestamp_nanos_opt().unwrap()
        ))
    );
    assert_eq!(
        schema
            .field_by_name("uuid_default")
            .unwrap()
            .initial_default,
        Some(Literal::uuid(0x00000001_0001_0001_0001_000000000001))
    );
}

#[test]
fn test_signed_zero_default_updates_are_committed() {
    let table = make_v2_table();
    let action = UpdateSchemaAction::new()
        .add_column(
            AddColumn::builder()
                .name("float_zero")
                .field_type(Type::Primitive(PrimitiveType::Float))
                .write_default(float(-0.0))
                .build(),
        )
        .add_column(
            AddColumn::builder()
                .name("double_zero")
                .field_type(Type::Primitive(PrimitiveType::Double))
                .write_default(double(-0.0))
                .build(),
        );
    let table = apply_updates(&table, &action.commit_to(&table).unwrap().take_updates());

    let action = UpdateSchemaAction::new()
        .update_column_default("float_zero", Some(float(0.0)))
        .update_column_default("double_zero", Some(double(0.0)));
    let table = apply_updates(&table, &action.commit_to(&table).unwrap().take_updates());

    let Some(Literal::Primitive(PrimitiveLiteral::Float(float))) = &table
        .metadata()
        .current_schema()
        .field_by_name("float_zero")
        .unwrap()
        .write_default
    else {
        panic!("expected float default");
    };
    assert_eq!(*float, 0.0_f32.to_bits());
    let Some(Literal::Primitive(PrimitiveLiteral::Double(double))) = &table
        .metadata()
        .current_schema()
        .field_by_name("double_zero")
        .unwrap()
        .write_default
    else {
        panic!("expected double default");
    };
    assert_eq!(*double, 0.0_f64.to_bits());
}

#[test]
fn test_invalid_default_coercions_are_rejected() {
    let table = make_v2_table();
    let nan_error = commit_error(
        &table,
        UpdateSchemaAction::new().add_column(
            AddColumn::builder()
                .name("nan_default")
                .field_type(Type::Primitive(PrimitiveType::Float))
                .initial_default(float(f32::NAN))
                .build(),
        ),
    );
    assert_eq!(nan_error.kind(), ErrorKind::PreconditionFailed);
    assert!(nan_error.message().contains("Invalid default"));

    let precision_error = commit_error(
        &table,
        UpdateSchemaAction::new().add_column(
            AddColumn::builder()
                .name("decimal_default")
                .field_type(Type::Primitive(PrimitiveType::Decimal {
                    precision: 2,
                    scale: 0,
                }))
                .initial_default(Literal::integer(123))
                .build(),
        ),
    );
    assert_eq!(precision_error.kind(), ErrorKind::PreconditionFailed);
    assert!(precision_error.message().contains("Invalid default"));

    for value in ["1.2", "1.234"] {
        let error = commit_error(
            &table,
            UpdateSchemaAction::new().add_column(
                AddColumn::builder()
                    .name("decimal_string_default")
                    .field_type(Type::Primitive(PrimitiveType::Decimal {
                        precision: 9,
                        scale: 2,
                    }))
                    .initial_default(Literal::string(value))
                    .build(),
            ),
        );
        assert_eq!(error.kind(), ErrorKind::PreconditionFailed, "{value}");
        assert!(error.message().contains("Invalid default"), "{value}");
    }

    let exponent_error = commit_error(
        &table,
        UpdateSchemaAction::new().add_column(
            AddColumn::builder()
                .name("decimal_exponent_default")
                .field_type(Type::Primitive(PrimitiveType::Decimal {
                    precision: 3,
                    scale: 0,
                }))
                .initial_default(Literal::string("1E+2"))
                .build(),
        ),
    );
    assert_eq!(exponent_error.kind(), ErrorKind::PreconditionFailed);

    let compact_uuid_error = commit_error(
        &table,
        UpdateSchemaAction::new().add_column(
            AddColumn::builder()
                .name("uuid_default")
                .field_type(Type::Primitive(PrimitiveType::Uuid))
                .initial_default(Literal::string("a1a2a3a4b1b2c1c2d1d2d3d4d5d6d7d8"))
                .build(),
        ),
    );
    assert_eq!(compact_uuid_error.kind(), ErrorKind::PreconditionFailed);

    for (field_type, value) in [
        (PrimitiveType::Time, "23:59:60"),
        (PrimitiveType::Timestamp, "2024-01-02T23:59:60"),
        (PrimitiveType::Timestamptz, "2024-01-02T23:59:60Z"),
        (PrimitiveType::TimestampNs, "2024-01-02T23:59:60"),
        (PrimitiveType::TimestamptzNs, "2024-01-02T23:59:60Z"),
        (PrimitiveType::Time, "12:30:00.1234567890"),
        (PrimitiveType::Timestamp, "2024-01-02T12:30:00.1234567890"),
        (
            PrimitiveType::Timestamptz,
            "2024-01-02T12:30:00.1234567890Z",
        ),
        (PrimitiveType::Timestamptz, "2024-01-02 12:30:00Z"),
        (PrimitiveType::Timestamptz, "2024-01-02T12:30:00+18:00:01"),
    ] {
        let error = commit_error(
            &table,
            UpdateSchemaAction::new().add_column(
                AddColumn::builder()
                    .name("temporal_default")
                    .field_type(Type::Primitive(field_type))
                    .initial_default(Literal::string(value))
                    .build(),
            ),
        );
        assert_eq!(error.kind(), ErrorKind::PreconditionFailed, "{value}");
    }

    let time_error = commit_error(
        &table,
        UpdateSchemaAction::new().add_column(
            AddColumn::builder()
                .name("time_default")
                .field_type(Type::Primitive(PrimitiveType::Time))
                .initial_default(Literal::long(i64::MAX))
                .build(),
        ),
    );
    assert_eq!(time_error.kind(), ErrorKind::PreconditionFailed);
    assert!(time_error.message().contains("Invalid default"));
}

#[test]
fn test_full_range_temporal_defaults_round_trip() {
    let table = make_v2_table();
    let action = UpdateSchemaAction::new()
        .add_column(
            AddColumn::builder()
                .name("date_max")
                .field_type(Type::Primitive(PrimitiveType::Date))
                .initial_default(Literal::date(i32::MAX))
                .build(),
        )
        .add_column(
            AddColumn::builder()
                .name("date_min")
                .field_type(Type::Primitive(PrimitiveType::Date))
                .initial_default(Literal::string("-5877641-06-23"))
                .build(),
        )
        .add_column(
            AddColumn::builder()
                .name("timestamp_max")
                .field_type(Type::Primitive(PrimitiveType::Timestamp))
                .initial_default(Literal::long(i64::MAX))
                .build(),
        )
        .add_column(
            AddColumn::builder()
                .name("timestamp_min")
                .field_type(Type::Primitive(PrimitiveType::Timestamp))
                .initial_default(Literal::string("-290308-12-21T19:59:05.224192"))
                .build(),
        )
        .add_column(
            AddColumn::builder()
                .name("timestamptz_max")
                .field_type(Type::Primitive(PrimitiveType::Timestamptz))
                .initial_default(Literal::long(i64::MAX))
                .build(),
        )
        .add_column(
            AddColumn::builder()
                .name("timestamptz_min")
                .field_type(Type::Primitive(PrimitiveType::Timestamptz))
                .initial_default(Literal::string("-290308-12-21T19:59:05.224192+00:00"))
                .build(),
        );

    let schema = apply_schema(&table, action);
    for (name, expected) in [
        ("date_max", Literal::date(i32::MAX)),
        ("date_min", Literal::date(i32::MIN)),
        ("timestamp_max", Literal::long(i64::MAX)),
        ("timestamp_min", Literal::long(i64::MIN)),
        ("timestamptz_max", Literal::long(i64::MAX)),
        ("timestamptz_min", Literal::long(i64::MIN)),
    ] {
        assert_eq!(
            schema.field_by_name(name).unwrap().initial_default,
            Some(expected)
        );
    }
}

/// The table after the commit of each action in turn, each against the state that the ones before
/// it left, and how many of them changed anything.
fn run_in_turn(table: &Table, actions: &[UpdateSchemaAction]) -> (Table, usize) {
    let mut staged = table.clone();
    let mut changes = 0;
    for action in actions {
        let updates = action.commit_to(&staged).unwrap().take_updates();
        if !updates.is_empty() {
            changes += 1;
        }
        staged = apply_updates(&staged, &updates);
    }
    (staged, changes)
}

#[test]
fn test_transaction_commits_multiple_schema_updates() {
    let table = make_v2_table();
    let (updated, _) = run_in_turn(
        &table,
        &[
            UpdateSchemaAction::new().add_column(AddColumn::optional(
                "first",
                Type::Primitive(PrimitiveType::Int),
            )),
            UpdateSchemaAction::new().add_column(AddColumn::optional(
                "second",
                Type::Primitive(PrimitiveType::String),
            )),
        ],
    );

    let schema = updated.metadata().current_schema();
    assert!(schema.field_by_name("first").is_some());
    assert!(schema.field_by_name("second").is_some());
}

#[test]
fn test_no_op_schema_update_skips_catalog_commit() {
    let table = make_v2_table();
    let (result, changes) = run_in_turn(
        &table,
        &[UpdateSchemaAction::new().update_column_type("z", PrimitiveType::Long)],
    );
    assert_eq!(changes, 0);
    assert_eq!(result.metadata(), table.metadata());
}

// case sensitive

const COLUMN_PROPERTY_PREFIXES: [&str; 3] = [
    "write.metadata.metrics.column.",
    "write.parquet.bloom-filter-enabled.column.",
    "write.parquet.stats-enabled.column.",
];

fn with_extra_fields(table: &Table, fields: impl IntoIterator<Item = NestedFieldRef>) -> Table {
    let mut all_fields = table
        .metadata()
        .current_schema()
        .as_struct()
        .fields()
        .to_vec();
    all_fields.extend(fields);
    let schema = Schema::builder()
        .fields_from(all_fields)
        .ids_from(table.metadata().current_schema().identifier_field_ids().iter().copied())
        .build()
        .unwrap();
    replace_current_schema(table, schema)
}

#[test]
fn defaults_to_case_sensitive_resolution() {
    let table = make_v2_table();
    let error = commit_error(
        &table,
        UpdateSchemaAction::new()
            .rename_column("Z", "payload"),
    );

    assert_eq!(error.kind(), ErrorKind::PreconditionFailed);
    assert_eq!(error.message(), "Cannot rename missing column: Z");
}

#[test]
fn resolves_existing_columns_case_insensitively() {
    let table = make_v2_table_with_nested();
    let schema = updated_schema(
        &table,
        UpdateSchemaAction::new()
            .case_sensitive(false)
            .add_column(
                AddColumn::builder()
                    .parent("PERSON")
                    .name("email")
                    .field_type(Type::Primitive(PrimitiveType::String))
                    .build(),
            )
            .delete_column("TAGS")
            .rename_column("PROPS.DATA", "payload"),
    );

    assert!(schema.field_by_name("person.email").is_some());
    assert!(schema.field_by_name("tags").is_none());
    assert_eq!(schema.field_by_id(14).unwrap().name, "payload");
}

#[test]
fn applies_case_sensitivity_toggles_in_order() {
    let table = make_v2_table();
    let schema = updated_schema(
        &table,
        UpdateSchemaAction::new()
            .case_sensitive(false)
            .rename_column("Z", "payload")
            .case_sensitive(true)
            .rename_column("y", "coordinate"),
    );
    assert!(schema.field_by_name("payload").is_some());
    assert!(schema.field_by_name("coordinate").is_some());

    let error = commit_error(
        &table,
        UpdateSchemaAction::new()
            .case_sensitive(false)
            .case_sensitive(true)
            .rename_column("Z", "payload"),
    );
    assert_eq!(error.message(), "Cannot rename missing column: Z");
}

#[test]
fn applies_case_insensitive_conflict_checks() {
    let table = make_v2_table_with_nested();
    let root_error = commit_error(
        &table,
        UpdateSchemaAction::new()
            .case_sensitive(false)
            .add_column(AddColumn::optional(
                "Z",
                Type::Primitive(PrimitiveType::Boolean),
            )),
    );
    assert_eq!(
        root_error.message(),
        "Cannot add column, name already exists: Z"
    );

    let nested_error = commit_error(
        &table,
        UpdateSchemaAction::new()
            .case_sensitive(false)
            .add_column(
                AddColumn::builder()
                    .parent("PERSON")
                    .name("NAME")
                    .field_type(Type::Primitive(PrimitiveType::Boolean))
                    .build(),
            ),
    );
    assert_eq!(
        nested_error.message(),
        "Cannot add column, name already exists: PERSON.NAME"
    );
}

#[test]
fn rejects_unrelated_case_insensitive_name_collisions() {
    let base = make_v2_table();
    let table = with_extra_fields(&base, [
        NestedField::optional(
            4,
            "items",
            Type::List(ListType {
                element_field: NestedField::list_element(
                    5,
                    Type::Struct(StructType::new(vec![
                        NestedField::optional(6, "Code", Type::Primitive(PrimitiveType::String))
                            .into(),
                    ])),
                    false,
                )
                .into(),
            }),
        )
        .into(),
        NestedField::optional(7, "ITEMS.code", Type::Primitive(PrimitiveType::String)).into(),
        NestedField::optional(8, "unrelated", Type::Primitive(PrimitiveType::String)).into(),
    ]);

    let error = commit_error(
        &table,
        UpdateSchemaAction::new()
            .case_sensitive(false)
            .rename_column("UNRELATED", "changed"),
    );

    assert_eq!(error.kind(), ErrorKind::PreconditionFailed);
    assert!(
        error
            .message()
            .contains("multiple fields match: items.code")
    );
}

#[test]
fn validates_the_final_schema_using_the_final_mode() {
    let table = with_extra_fields(&make_v2_table(), [
        NestedField::optional(4, "Foo", Type::Primitive(PrimitiveType::String)).into(),
        NestedField::optional(5, "bar", Type::Primitive(PrimitiveType::String)).into(),
    ]);

    let error = commit_error(
        &table,
        UpdateSchemaAction::new()
            .case_sensitive(false)
            .rename_column("BAR", "foo"),
    );
    assert_eq!(error.kind(), ErrorKind::PreconditionFailed);
    assert!(error.message().contains("multiple fields match: foo"));

    let schema = updated_schema(
        &table,
        UpdateSchemaAction::new()
            .case_sensitive(false)
            .rename_column("BAR", "foo")
            .case_sensitive(true),
    );
    assert_eq!(schema.field_by_name("Foo").unwrap().id, 4);
    assert_eq!(schema.field_by_name("foo").unwrap().id, 5);
}

#[test]
fn final_mode_controls_case_collisions_between_pending_additions() {
    let table = make_v2_table();
    let additions = |table: &Table| {
        UpdateSchemaAction::new()
            .case_sensitive(false)
            .add_column(AddColumn::optional(
                "NewColumn",
                Type::Primitive(PrimitiveType::String),
            ))
            .add_column(AddColumn::optional(
                "newcolumn",
                Type::Primitive(PrimitiveType::String),
            ))
    };

    let error = commit_error(&table, additions(&table));
    assert_eq!(error.kind(), ErrorKind::PreconditionFailed);
    assert!(error.message().contains("multiple fields match: newcolumn"));

    let schema = updated_schema(&table, additions(&table).case_sensitive(true));
    assert_eq!(schema.field_by_name("NewColumn").unwrap().id, 4);
    assert_eq!(schema.field_by_name("newcolumn").unwrap().id, 5);
}

#[test]
fn sensitivity_only_action_is_a_no_op() {
    let table = make_v2_table();
    let mut commit = Arc::new(
        UpdateSchemaAction::new()
            .case_sensitive(false),
    )
    .commit_to(&table)
    .unwrap();

    assert!(commit.take_updates().is_empty());
    assert!(commit.take_requirements().is_empty());
}

#[test]
fn sensitivity_only_action_validates_an_ambiguous_schema() {
    let table = with_extra_fields(&make_v2_table(), [
        NestedField::optional(4, "Foo", Type::Primitive(PrimitiveType::String)).into(),
        NestedField::optional(5, "foo", Type::Primitive(PrimitiveType::String)).into(),
    ]);
    let error = commit_error(
        &table,
        UpdateSchemaAction::new()
            .case_sensitive(false),
    );

    assert_eq!(error.kind(), ErrorKind::PreconditionFailed);
    assert!(error.message().contains("multiple fields match: foo"));
}

#[test]
fn replays_case_sensitivity_against_refreshed_metadata() {
    let table = make_v2_table();
    let action = Arc::new(
        UpdateSchemaAction::new()
            .case_sensitive(false)
            .rename_column("Z", "payload"),
    );

    let mut initial = action.clone().commit_to(&table).unwrap();
    let initial_schema = match initial.take_updates().remove(0) {
        TableUpdate::AddSchema { schema } => schema,
        update => panic!("expected AddSchema, got {update:?}"),
    };
    assert_eq!(initial_schema.field_by_name("payload").unwrap().id, 3);

    let mut concurrent_fields = table
        .metadata()
        .current_schema()
        .as_struct()
        .fields()
        .to_vec();
    let mut renamed_concurrently = (*concurrent_fields[2]).clone();
    renamed_concurrently.name = "Z".to_string();
    concurrent_fields[2] = Arc::new(renamed_concurrently);
    concurrent_fields.push(
        NestedField::optional(4, "concurrent", Type::Primitive(PrimitiveType::Boolean)).into(),
    );
    let concurrent_schema = Schema::builder()
        .fields_from(concurrent_fields)
        .ids_from(table.metadata().current_schema().identifier_field_ids().iter().copied())
        .build()
        .unwrap();
    let refreshed = replace_current_schema(&table, concurrent_schema);

    let mut replayed = action.commit_to(&refreshed).unwrap();
    let replayed_schema = match replayed.take_updates().remove(0) {
        TableUpdate::AddSchema { schema } => schema,
        update => panic!("expected AddSchema, got {update:?}"),
    };
    assert_eq!(replayed_schema.field_by_name("payload").unwrap().id, 3);
    assert_eq!(replayed_schema.field_by_name("concurrent").unwrap().id, 4);
}

#[test]
fn replay_rejects_a_new_unrelated_name_collision() {
    let table = make_v2_table();
    let action = Arc::new(
        UpdateSchemaAction::new()
            .case_sensitive(false)
            .rename_column("Z", "payload"),
    );
    action.clone().commit_to(&table).unwrap();

    let refreshed = with_extra_fields(&table, [
        NestedField::optional(4, "Concurrent", Type::Primitive(PrimitiveType::String)).into(),
        NestedField::optional(5, "concurrent", Type::Primitive(PrimitiveType::String)).into(),
    ]);
    let error = match action.commit_to(&refreshed) {
        Err(error) => error,
        Ok(_) => panic!("replayed schema update should fail"),
    };

    assert_eq!(error.kind(), ErrorKind::PreconditionFailed);
    assert!(
        error
            .message()
            .contains("multiple fields match: concurrent")
    );
}

#[test]
fn migrates_canonical_column_properties_for_case_insensitive_selectors() {
    let mut properties = HashMap::new();
    for prefix in COLUMN_PROPERTY_PREFIXES {
        properties.insert(format!("{prefix}z"), "configured".to_string());
    }
    let table = with_properties(make_v2_table(), properties);
    let mut commit = Arc::new(
        UpdateSchemaAction::new()
            .case_sensitive(false)
            .rename_column("Z", "payload"),
    )
    .commit_to(&table)
    .unwrap();
    let updates = commit.take_updates();

    let removals = updates.iter().find_map(|update| match update {
        TableUpdate::RemoveProperties { removals } => Some(removals),
        _ => None,
    });
    let property_updates = updates.iter().find_map(|update| match update {
        TableUpdate::SetProperties { updates } => Some(updates),
        _ => None,
    });
    for prefix in COLUMN_PROPERTY_PREFIXES {
        assert!(
            removals.unwrap().contains(&format!("{prefix}z")),
            "the canonical source property should be removed"
        );
        assert_eq!(
            property(property_updates.unwrap(), &format!("{prefix}payload")).map(String::as_str),
            Some("configured")
        );
    }
}

// column properties

const SUPPORTED_PREFIXES: [&str; 3] = [
    "write.metadata.metrics.column.",
    "write.parquet.bloom-filter-enabled.column.",
    "write.parquet.stats-enabled.column.",
];

fn updates(table: &Table, action: UpdateSchemaAction) -> Vec<TableUpdate> {
    let mut commit = action.commit_to(table).unwrap();
    commit.take_updates()
}

fn property_removals(updates: &[TableUpdate]) -> Option<&[String]> {
    updates.iter().find_map(|update| match update {
        TableUpdate::RemoveProperties { removals } => Some(removals.as_slice()),
        _ => None,
    })
}

#[test]
fn deletes_exact_supported_column_properties() {
    let mut properties = HashMap::from([
        ("unrelated".to_string(), "keep".to_string()),
        (
            "write.parquet.bloom-filter-fpp.column.z".to_string(),
            "0.01".to_string(),
        ),
    ]);
    for prefix in SUPPORTED_PREFIXES {
        properties.insert(format!("{prefix}z"), "root".to_string());
        properties.insert(format!("{prefix}person.name"), "nested".to_string());
        properties.insert(format!("{prefix}person.age"), "keep".to_string());
    }
    let table = with_properties(make_v2_table_with_nested(), properties);
    let action = UpdateSchemaAction::new()
        .delete_column("z")
        .delete_column("person.name");
    let updates = updates(&table, action);

    let mut expected = vec![
        "write.metadata.metrics.column.person.name".to_string(),
        "write.metadata.metrics.column.z".to_string(),
        "write.parquet.bloom-filter-enabled.column.person.name".to_string(),
        "write.parquet.bloom-filter-enabled.column.z".to_string(),
        "write.parquet.stats-enabled.column.person.name".to_string(),
        "write.parquet.stats-enabled.column.z".to_string(),
    ];
    expected.sort();
    assert_eq!(property_removals(&updates), Some(expected.as_slice()));
    assert!(
        !property_removals(&updates)
            .unwrap()
            .iter()
            .any(|key| key.contains("bloom-filter-fpp") || key.ends_with("person.age"))
    );
}

#[test]
fn skips_property_update_when_deleted_column_has_no_configuration() {
    let table = with_properties(
        make_v2_table_with_nested(),
        HashMap::from([(
            "write.metadata.metrics.column.person.age".to_string(),
            "full".to_string(),
        )]),
    );
    let action = UpdateSchemaAction::new().delete_column("z");
    let updates = updates(&table, action);

    assert_eq!(property_removals(&updates), None);
}

#[test]
fn parent_deletion_only_removes_the_exact_parent_configuration() {
    let prefix = "write.metadata.metrics.column.";
    let table = with_properties(
        make_v2_table_with_nested(),
        HashMap::from([
            (format!("{prefix}person"), "full".to_string()),
            (format!("{prefix}person.name"), "counts".to_string()),
        ]),
    );
    let action = UpdateSchemaAction::new()
        .delete_column("person");
    let updates = updates(&table, action);

    assert_eq!(
        property_removals(&updates),
        Some([format!("{prefix}person")].as_slice())
    );
}

#[test]
fn same_name_replacement_drops_the_deleted_fields_configuration() {
    let prefix = "write.metadata.metrics.column.";
    let table = with_properties(
        make_v2_table_with_nested(),
        HashMap::from([(format!("{prefix}z"), "full".to_string())]),
    );
    let action = UpdateSchemaAction::new()
        .delete_column("z")
        .add_column(AddColumn::optional(
            "z",
            Type::Primitive(PrimitiveType::String),
        ));
    let updates = updates(&table, action);

    assert_eq!(
        property_removals(&updates),
        Some([format!("{prefix}z")].as_slice())
    );
}

#[test]
fn renames_exact_supported_root_and_nested_properties() {
    let unsupported_key = "write.parquet.bloom-filter-fpp.column.z";
    let mut properties = HashMap::from([(unsupported_key.to_string(), "0.01".to_string())]);
    for prefix in SUPPORTED_PREFIXES {
        properties.insert(format!("{prefix}z"), "root".to_string());
        properties.insert(format!("{prefix}person.name"), "nested".to_string());
    }
    let table = with_properties(make_v2_table_with_nested(), properties);
    let action = UpdateSchemaAction::new()
        .rename_column("z", "payload")
        .rename_column("person", "profile")
        .rename_column("person.name", "full_name");
    let updates = updates(&table, action);
    let committed = apply_updates(&table, &updates);

    for prefix in SUPPORTED_PREFIXES {
        assert_eq!(
            committed
                .metadata()
                .properties()
                .get(&format!("{prefix}payload"))
                .map(String::as_str),
            Some("root")
        );
        assert_eq!(
            committed
                .metadata()
                .properties()
                .get(&format!("{prefix}profile.full_name"))
                .map(String::as_str),
            Some("nested")
        );
        assert!(
            !committed
                .metadata()
                .properties()
                .contains_key(&format!("{prefix}z"))
        );
        assert!(
            !committed
                .metadata()
                .properties()
                .contains_key(&format!("{prefix}person.name"))
        );
    }
    assert_eq!(
        committed
            .metadata()
            .properties()
            .get(unsupported_key)
            .map(String::as_str),
        Some("0.01")
    );
}

#[test]
fn swaps_column_property_ownership() {
    let prefix = "write.metadata.metrics.column.";
    let table = with_properties(
        make_v2_table_with_nested(),
        HashMap::from([
            (format!("{prefix}z"), "z-value".to_string()),
            (format!("{prefix}person"), "person-value".to_string()),
        ]),
    );
    let action = UpdateSchemaAction::new()
        .rename_column("z", "person")
        .rename_column("person", "z");
    let updates = updates(&table, action);
    let committed = apply_updates(&table, &updates);

    assert_eq!(
        committed
            .metadata()
            .properties()
            .get(&format!("{prefix}person"))
            .map(String::as_str),
        Some("z-value")
    );
    assert_eq!(
        committed
            .metadata()
            .properties()
            .get(&format!("{prefix}z"))
            .map(String::as_str),
        Some("person-value")
    );
}

#[test]
fn rename_wins_when_the_destination_column_is_deleted() {
    let prefix = "write.metadata.metrics.column.";
    let table = with_properties(
        make_v2_table_with_nested(),
        HashMap::from([
            (format!("{prefix}person.name"), "source".to_string()),
            (format!("{prefix}person.age"), "destination".to_string()),
        ]),
    );
    let action = UpdateSchemaAction::new()
        .delete_column("person.age")
        .rename_column("person.name", "age");
    let updates = updates(&table, action);

    assert_eq!(
        property_removals(&updates),
        Some(
            [
                format!("{prefix}person.age"),
                format!("{prefix}person.name"),
            ]
            .as_slice()
        )
    );
    let committed = apply_updates(&table, &updates);
    assert_eq!(
        committed
            .metadata()
            .properties()
            .get(&format!("{prefix}person.age"))
            .map(String::as_str),
        Some("source")
    );
    assert!(
        !committed
            .metadata()
            .properties()
            .contains_key(&format!("{prefix}person.name"))
    );
}

#[test]
fn parent_rename_does_not_rewrite_descendant_properties() {
    let prefix = "write.metadata.metrics.column.";
    let table = with_properties(
        make_v2_table_with_nested(),
        HashMap::from([
            (format!("{prefix}person"), "parent".to_string()),
            (format!("{prefix}person.name"), "descendant".to_string()),
        ]),
    );
    let action = UpdateSchemaAction::new()
        .rename_column("person", "profile");
    let updates = updates(&table, action);
    let committed = apply_updates(&table, &updates);

    assert_eq!(
        committed
            .metadata()
            .properties()
            .get(&format!("{prefix}profile"))
            .map(String::as_str),
        Some("parent")
    );
    assert_eq!(
        committed
            .metadata()
            .properties()
            .get(&format!("{prefix}person.name"))
            .map(String::as_str),
        Some("descendant")
    );
    assert!(
        !committed
            .metadata()
            .properties()
            .contains_key(&format!("{prefix}profile.name"))
    );
}

// defaults

fn optional_with_defaults(
    name: &str,
    field_type: Type,
    initial_default: Option<Literal>,
    write_default: Option<Literal>,
) -> AddColumn {
    let mut column = AddColumn::optional(name, field_type);
    column.initial_default = initial_default;
    column.write_default = write_default;
    column
}

fn defaults(schema: &Schema, name: &str) -> (Option<Literal>, Option<Literal>) {
    let field = schema
        .field_by_name(name)
        .unwrap_or_else(|| panic!("missing field {name}"));
    (field.initial_default.clone(), field.write_default.clone())
}

#[test]
fn coerces_numeric_defaults_to_the_target_physical_type() {
    let table = make_v2_table();
    let decimal = Type::Primitive(PrimitiveType::Decimal {
        precision: 9,
        scale: 2,
    });
    let action = UpdateSchemaAction::new()
        .add_column(optional_with_defaults(
            "int_value",
            Type::Primitive(PrimitiveType::Int),
            Some(Literal::long(i32::MAX as i64)),
            Some(Literal::long(i32::MIN as i64)),
        ))
        .add_column(optional_with_defaults(
            "long_value",
            Type::Primitive(PrimitiveType::Long),
            Some(Literal::integer(34)),
            Some(Literal::integer(-35)),
        ))
        .add_column(optional_with_defaults(
            "float_value",
            Type::Primitive(PrimitiveType::Float),
            Some(Literal::long(36)),
            Some(double(-37.5)),
        ))
        .add_column(optional_with_defaults(
            "double_value",
            Type::Primitive(PrimitiveType::Double),
            Some(float(38.5)),
            Some(Literal::integer(-39)),
        ))
        .add_column(optional_with_defaults(
            "decimal_value",
            decimal,
            Some(double(6.255)),
            Some(double(-6.255)),
        ))
        .add_column(optional_with_defaults(
            "timestamp_ns_value",
            Type::Primitive(PrimitiveType::TimestampNs),
            Some(Literal::long(-1)),
            Some(Literal::long(1_234)),
        ))
        .add_column(optional_with_defaults(
            "fixed_physical",
            Type::Primitive(PrimitiveType::Fixed(3)),
            Some(Literal::binary(vec![1, 2, 3])),
            Some(Literal::binary(vec![4, 5, 6])),
        ));

    let schema = updated_schema(&table, action);
    assert_eq!(
        defaults(&schema, "int_value"),
        (Some(Literal::integer(i32::MAX)), Some(Literal::integer(i32::MIN)))
    );
    assert_eq!(
        defaults(&schema, "long_value"),
        (Some(Literal::long(34)), Some(Literal::long(-35)))
    );
    assert_eq!(
        defaults(&schema, "float_value"),
        (Some(float(36.0)), Some(float(-37.5)))
    );
    assert_eq!(
        defaults(&schema, "double_value"),
        (Some(double(38.5)), Some(double(-39.0)))
    );
    assert_eq!(
        defaults(&schema, "decimal_value"),
        (Some(Literal::decimal(626)), Some(Literal::decimal(-626)))
    );
    assert_eq!(
        defaults(&schema, "timestamp_ns_value"),
        (
            Some(Literal::long(-1)),
            Some(Literal::long(1_234))
        )
    );
    assert_eq!(
        defaults(&schema, "fixed_physical"),
        (
            Some(Literal::binary(vec![1, 2, 3])),
            Some(Literal::binary(vec![4, 5, 6]))
        )
    );
}

#[test]
fn coerces_java_compatible_string_defaults() {
    let table = make_v2_table();
    let action = UpdateSchemaAction::new()
        .add_column(optional_with_defaults(
            "date_min",
            Type::Primitive(PrimitiveType::Date),
            Some(Literal::string("-5877641-06-23")),
            None,
        ))
        .add_column(optional_with_defaults(
            "time_value",
            Type::Primitive(PrimitiveType::Time),
            Some(Literal::string("12:30")),
            Some(Literal::string("23:59:59.999999999")),
        ))
        .add_column(optional_with_defaults(
            "timestamp_min",
            Type::Primitive(PrimitiveType::Timestamp),
            Some(Literal::string("-290308-12-21T19:59:05.224192")),
            None,
        ))
        .add_column(optional_with_defaults(
            "offset_timestamp",
            Type::Primitive(PrimitiveType::Timestamptz),
            Some(Literal::string("2024-01-02T03:04:05-05:00")),
            None,
        ))
        .add_column(optional_with_defaults(
            "timestamp_ns_value",
            Type::Primitive(PrimitiveType::TimestampNs),
            Some(Literal::string("1969-12-31t23:59:59.999999999")),
            None,
        ))
        .add_column(optional_with_defaults(
            "timestamptz_ns_value",
            Type::Primitive(PrimitiveType::TimestamptzNs),
            Some(Literal::string("1969-12-31t23:59:59.999999999z")),
            None,
        ))
        .add_column(optional_with_defaults(
            "decimal_value",
            Type::Primitive(PrimitiveType::Decimal {
                precision: 9,
                scale: 2,
            }),
            Some(Literal::string("1.23")),
            None,
        ))
        .add_column(optional_with_defaults(
            "decimal_zero",
            Type::Primitive(PrimitiveType::Decimal {
                precision: 9,
                scale: 2,
            }),
            Some(Literal::string("0.00")),
            None,
        ))
        .add_column(optional_with_defaults(
            "uuid_value",
            Type::Primitive(PrimitiveType::Uuid),
            Some(Literal::string("1-1-1-1-1")),
            None,
        ))
        .add_column(optional_with_defaults(
            "fixed_value",
            Type::Primitive(PrimitiveType::Fixed(3)),
            Some(Literal::string("00AaFf")),
            None,
        ))
        .add_column(optional_with_defaults(
            "binary_value",
            Type::Primitive(PrimitiveType::Binary),
            Some(Literal::string("00010FFF")),
            None,
        ));

    let schema = updated_schema(&table, action);
    assert_eq!(
        defaults(&schema, "date_min").0,
        Some(Literal::date(i32::MIN))
    );
    assert_eq!(
        defaults(&schema, "time_value"),
        (
            Some(Literal::long(45_000_000_000)),
            Some(Literal::long(86_399_999_999))
        )
    );
    assert_eq!(
        defaults(&schema, "timestamp_min").0,
        Some(Literal::long(i64::MIN))
    );
    assert_eq!(
        defaults(&schema, "offset_timestamp").0,
        Some(Literal::long(
            chrono::DateTime::parse_from_rfc3339("2024-01-02T03:04:05-05:00")
                .unwrap()
                .timestamp_micros()
        ))
    );
    assert_eq!(
        defaults(&schema, "timestamp_ns_value").0,
        Some(Literal::long(-1))
    );
    assert_eq!(
        defaults(&schema, "timestamptz_ns_value").0,
        Some(Literal::long(-1))
    );
    assert_eq!(
        defaults(&schema, "decimal_value").0,
        Some(Literal::decimal(123))
    );
    assert_eq!(
        defaults(&schema, "decimal_zero").0,
        Some(Literal::decimal(0))
    );
    assert_eq!(
        defaults(&schema, "uuid_value").0,
        Some(Literal::uuid(0x00000001_0001_0001_0001_000000000001))
    );
    assert_eq!(
        defaults(&schema, "fixed_value").0,
        Some(Literal::Primitive(PrimitiveLiteral::Binary(vec![
            0, 170, 255
        ])))
    );
    assert_eq!(
        defaults(&schema, "binary_value").0,
        Some(Literal::Primitive(PrimitiveLiteral::Binary(vec![
            0, 1, 15, 255
        ])))
    );
}

#[test]
fn rejects_incompatible_or_unrepresentable_defaults() {
    let table = make_v2_table();
    let invalid = [
        (
            "int_overflow",
            PrimitiveType::Int,
            Literal::long(i64::from(i32::MAX) + 1),
        ),
        (
            "date_overflow",
            PrimitiveType::Date,
            Literal::long(i64::MAX),
        ),
        (
            "float_overflow",
            PrimitiveType::Float,
            double(f64::MAX),
        ),
        ("float_nan", PrimitiveType::Float, float(f32::NAN)),
        (
            "double_infinity",
            PrimitiveType::Double,
            double(f64::INFINITY),
        ),
        (
            "decimal_precision",
            PrimitiveType::Decimal {
                precision: 2,
                scale: 0,
            },
            Literal::integer(123),
        ),
        (
            "decimal_physical_precision",
            PrimitiveType::Decimal {
                precision: 2,
                scale: 2,
            },
            Literal::decimal(123),
        ),
        (
            "decimal_scale_clamp",
            PrimitiveType::Decimal {
                precision: 38,
                scale: 38,
            },
            Literal::integer(1),
        ),
        (
            "decimal_rounding_overflow",
            PrimitiveType::Decimal {
                precision: 2,
                scale: 1,
            },
            double(9.95),
        ),
        (
            "negative_decimal_rounding_overflow",
            PrimitiveType::Decimal {
                precision: 2,
                scale: 1,
            },
            double(-9.95),
        ),
        (
            "decimal_string_scale",
            PrimitiveType::Decimal {
                precision: 9,
                scale: 2,
            },
            Literal::string("1.2"),
        ),
        (
            "decimal_string_exponent",
            PrimitiveType::Decimal {
                precision: 9,
                scale: 2,
            },
            Literal::string("1E+2"),
        ),
        (
            "fixed_length",
            PrimitiveType::Fixed(2),
            Literal::string("ff"),
        ),
        (
            "fixed_physical_length",
            PrimitiveType::Fixed(2),
            Literal::binary(vec![255]),
        ),
        ("binary_hex", PrimitiveType::Binary, Literal::string("fg")),
        (
            "uuid_format",
            PrimitiveType::Uuid,
            Literal::string("a1a2a3a4b1b2c1c2d1d2d3d4d5d6d7d8"),
        ),
        ("time_range", PrimitiveType::Time, Literal::long(i64::MAX)),
        (
            "time_leap_second",
            PrimitiveType::Time,
            Literal::string("23:59:60"),
        ),
        (
            "timestamp_ns_range",
            PrimitiveType::TimestampNs,
            Literal::string("2262-04-11T23:47:16.854775808"),
        ),
    ];

    for (name, primitive, default) in invalid {
        let action = UpdateSchemaAction::new()
            .add_column(optional_with_defaults(
                name,
                Type::Primitive(primitive),
                Some(default),
                None,
            ));
        let error = commit_error(&table, action);
        assert_eq!(error.kind(), ErrorKind::PreconditionFailed, "{name}");
        assert!(
            error
                .message()
                .starts_with(&format!("Invalid default for column {name}:")),
            "{name}: {error:?}"
        );
    }
}

#[test]
fn coerces_defaults_on_real_nested_fields_and_discards_pseudo_field_defaults() {
    let table = make_v2_table();
    let list_element = NestedField::list_element(
        501,
        Type::Struct(StructType::new(vec![
            NestedField::optional(502, "when", Type::Primitive(PrimitiveType::TimestampNs))
                .with_initial_default(Literal::string("1969-12-31T23:59:59.999999999"))
                .into(),
        ])),
        true,
    )
    .with_initial_default(Literal::string("discarded element default"))
    .with_write_default(Literal::string("discarded element default"))
    .into();
    let map_key = NestedField::map_key_element(503, Type::Primitive(PrimitiveType::String))
        .with_initial_default(Literal::integer(1))
        .with_write_default(Literal::integer(2))
        .into();
    let map_value = NestedField::map_value_element(
        504,
        Type::Struct(StructType::new(vec![
            NestedField::optional(
                505,
                "amount",
                Type::Primitive(PrimitiveType::Decimal {
                    precision: 9,
                    scale: 2,
                }),
            )
            .with_initial_default(double(1.235))
            .with_write_default(double(-1.235))
            .into(),
        ])),
        false,
    )
    .with_initial_default(Literal::string("discarded value default"))
    .with_write_default(Literal::string("discarded value default"))
    .into();
    let nested_type = Type::Struct(StructType::new(vec![
        NestedField::optional(500, "count", Type::Primitive(PrimitiveType::Long))
            .with_initial_default(Literal::integer(7))
            .with_write_default(Literal::integer(8))
            .into(),
        NestedField::optional(501, "entries", Type::List(list_type(list_element))).into(),
        NestedField::optional(503, "mapping", Type::MapOf(map_type(map_key, map_value))).into(),
    ]));

    let action = UpdateSchemaAction::new()
        .add_column(AddColumn::optional("payload", nested_type));
    let schema = updated_schema(&table, action);

    let count = schema.field_by_name("payload.count").unwrap();
    assert_eq!(count.id, 5);
    assert_eq!(
        (count.initial_default.clone(), count.write_default.clone()),
        (Some(Literal::long(7)), Some(Literal::long(8)))
    );
    let when = schema
        .field_by_name("payload.entries.element.when")
        .unwrap();
    assert_eq!(when.id, 9);
    assert_eq!(when.initial_default, Some(Literal::long(-1)));
    let amount = schema
        .field_by_name("payload.mapping.value.amount")
        .unwrap();
    assert_eq!(amount.id, 12);
    assert_eq!(
        (amount.initial_default.clone(), amount.write_default.clone()),
        (Some(Literal::decimal(124)), Some(Literal::decimal(-124)))
    );

    for name in [
        "payload.entries.element",
        "payload.mapping.key",
        "payload.mapping.value",
    ] {
        assert_eq!(defaults(&schema, name), (None, None), "{name}");
    }
}

#[test]
fn nested_default_errors_include_the_canonical_full_path() {
    let table = make_v2_table_with_nested();
    let bad_type = Type::Struct(StructType::new(vec![
        NestedField::optional(
            100,
            "values",
            Type::List(list_type(
                NestedField::list_element(
                    101,
                    Type::Struct(StructType::new(vec![
                        NestedField::optional(102, "bad", Type::Primitive(PrimitiveType::Int))
                            .with_initial_default(Literal::string("not an int"))
                            .into(),
                    ])),
                    true,
                )
                .into(),
            )),
        )
        .into(),
    ]));
    let action = UpdateSchemaAction::new()
        .case_sensitive(false)
        .add_column(
            AddColumn::builder()
                .parent("PERSON")
                .name("details")
                .field_type(bad_type)
                .build(),
        );

    let error = commit_error(&table, action);
    assert_eq!(error.kind(), ErrorKind::PreconditionFailed);
    assert_eq!(
        error.message(),
        "Invalid default for column person.details.values.element.bad: default is incompatible with int"
    );
}

#[test]
fn rejects_non_null_defaults_for_nested_types() {
    let table = make_v2_table();
    let nested_type = Type::Struct(StructType::new(vec![
        NestedField::optional(100, "value", Type::Primitive(PrimitiveType::Int)).into(),
    ]));
    let action = UpdateSchemaAction::new()
        .add_column(optional_with_defaults(
            "details",
            nested_type,
            Some(Literal::Struct((vec![Some(
                Literal::integer(1),
            )]))),
            None,
        ));

    let error = commit_error(&table, action);
    assert_eq!(error.kind(), ErrorKind::PreconditionFailed);
    assert_eq!(
        error.message(),
        "Invalid default for column details: default is incompatible with struct<int>"
    );
}

#[test]
fn add_then_promote_uses_the_coerced_defaults() {
    let table = make_v2_table();
    let action = UpdateSchemaAction::new()
        .add_column(optional_with_defaults(
            "count",
            Type::Primitive(PrimitiveType::Int),
            Some(Literal::long(7)),
            Some(Literal::long(8)),
        ))
        .update_column_type("count", PrimitiveType::Long)
        .add_column(optional_with_defaults(
            "ratio",
            Type::Primitive(PrimitiveType::Float),
            Some(Literal::integer(9)),
            Some(Literal::long(10)),
        ))
        .update_column_type("ratio", PrimitiveType::Double);

    let schema = updated_schema(&table, action);
    assert_eq!(
        defaults(&schema, "count"),
        (Some(Literal::long(7)), Some(Literal::long(8)))
    );
    assert_eq!(
        defaults(&schema, "ratio"),
        (Some(double(9.0)), Some(double(10.0)))
    );
}

#[test]
fn replay_against_refreshed_metadata_reassigns_ids_and_recoerces_defaults() {
    let table = make_v2_table();
    let concurrent_schema = table
        .metadata()
        .current_schema()
        .as_ref()
        .clone()
        .into_builder()
        .fields_from([NestedField::optional(
            20,
            "concurrent",
            Type::Primitive(PrimitiveType::String),
        )
        .into()])
        .build()
        .unwrap();
    let refreshed_metadata = table.metadata().with_schema(concurrent_schema);
    let refreshed = table.clone().with_metadata(refreshed_metadata);
    let action = Arc::new(UpdateSchemaAction::new().add_column(
        optional_with_defaults(
            "value",
            Type::Primitive(PrimitiveType::Long),
            Some(Literal::integer(7)),
            Some(Literal::integer(8)),
        ),
    ));

    let original = schema_from_commit(action.clone().commit_to(&table).unwrap());
    let replayed = schema_from_commit(action.commit_to(&refreshed).unwrap());
    assert_eq!(original.field_by_name("value").unwrap().id, 4);
    assert_eq!(replayed.field_by_name("value").unwrap().id, 21);
    assert_eq!(
        defaults(&original, "value"),
        (Some(Literal::long(7)), Some(Literal::long(8)))
    );
    assert_eq!(defaults(&replayed, "value"), defaults(&original, "value"));
}

// docs

#[test]
fn sets_clears_and_merges_docs_without_changing_other_metadata() {
    let table = make_v2_table();
    let original = table
        .metadata()
        .current_schema()
        .field_by_name("y")
        .unwrap();

    let updated = updated_schema(
        &table,
        UpdateSchemaAction::new()
            .update_column_doc("y", Some("first".to_string()))
            .update_column_doc("y", Some("replacement".to_string())),
    );
    let mut expected = (**original).clone();
    expected.doc = Some("replacement".to_string());
    assert_eq!(updated.field_by_name("y").unwrap().as_ref(), &expected);

    let updated_table = replace_current_schema(&table, updated);
    let cleared = updated_schema(
        &updated_table,
        UpdateSchemaAction::new()
            .update_column_doc("y", None),
    );
    expected.doc = None;
    assert_eq!(cleared.field_by_name("y").unwrap().as_ref(), &expected);
    assert_eq!(
        cleared.identifier_field_ids().iter().copied().collect::<HashSet<_>>(),
        table
            .metadata()
            .current_schema()
            .identifier_field_ids().iter().copied()
            .collect::<HashSet<_>>()
    );
}

#[test]
fn updates_new_columns_using_canonical_added_names() {
    let table = make_v2_table_with_nested();
    let action = UpdateSchemaAction::new()
        .add_column(AddColumn::required(
            "required_col",
            Type::Primitive(PrimitiveType::Long),
            Literal::long(7),
        ))
        .update_column_doc("required_col", Some("root docs".to_string()))
        .add_column(
            AddColumn::builder()
                .parent("tags")
                .name("score")
                .field_type(Type::Primitive(PrimitiveType::Double))
                .build(),
        )
        .update_column_doc("tags.element.score", Some("list docs".to_string()))
        .add_column(
            AddColumn::builder()
                .parent("props")
                .name("version")
                .field_type(Type::Primitive(PrimitiveType::Int))
                .build(),
        )
        .update_column_doc("props.value.version", Some("map docs".to_string()));

    let schema = updated_schema(&table, action);
    let required = schema.field_by_name("required_col").unwrap();
    assert_eq!(required.id, 15);
    assert!(required.required);
    assert_eq!(required.initial_default, Some(Literal::long(7)));
    assert_eq!(required.write_default, Some(Literal::long(7)));
    assert_eq!(required.doc.as_deref(), Some("root docs"));
    assert_eq!(
        schema
            .field_by_name("tags.element.score")
            .unwrap()
            .doc
            .as_deref(),
        Some("list docs")
    );
    assert_eq!(
        schema
            .field_by_name("props.value.version")
            .unwrap()
            .doc
            .as_deref(),
        Some("map docs")
    );

    let short_name_error = commit_error(
        &table,
        UpdateSchemaAction::new()
            .add_column(
                AddColumn::builder()
                    .parent("tags")
                    .name("score")
                    .field_type(Type::Primitive(PrimitiveType::Double))
                    .build(),
            )
            .update_column_doc("tags.score", Some("docs".to_string())),
    );
    assert_eq!(short_name_error.kind(), ErrorKind::PreconditionFailed);
    assert!(
        short_name_error
            .message()
            .contains("Cannot update missing column: tags.score")
    );
}

#[test]
fn enforces_ordered_missing_delete_and_update_conflicts() {
    let table = make_v2_table();

    let before_add = commit_error(
        &table,
        UpdateSchemaAction::new()
            .update_column_doc("later", Some("docs".to_string()))
            .add_column(AddColumn::optional(
                "later",
                Type::Primitive(PrimitiveType::String),
            )),
    );
    assert!(before_add.message().contains("missing column: later"));

    let delete_then_update = commit_error(
        &table,
        UpdateSchemaAction::new()
            .delete_column("z")
            .update_column_doc("z", None),
    );
    assert!(
        delete_then_update
            .message()
            .contains("column that will be deleted: z")
    );

    let update_then_delete = commit_error(
        &table,
        UpdateSchemaAction::new()
            .update_column_doc("z", Some("docs".to_string()))
            .delete_column("z"),
    );
    assert!(
        update_then_delete
            .message()
            .contains("column that has updates: z")
    );

    let reverted_then_delete = commit_error(
        &table,
        UpdateSchemaAction::new()
            .update_column_doc("z", Some("temporary".to_string()))
            .update_column_doc("z", None)
            .delete_column("z"),
    );
    assert!(
        reverted_then_delete
            .message()
            .contains("column that has updates: z")
    );

    let deleted = updated_schema(
        &table,
        UpdateSchemaAction::new()
            .update_column_doc("z", None)
            .delete_column("z"),
    );
    assert!(deleted.field_by_name("z").is_none());
}

#[test]
fn existing_field_lookup_wins_over_same_name_replacement() {
    let table = make_v2_table();
    let error = commit_error(
        &table,
        UpdateSchemaAction::new()
            .delete_column("z")
            .add_column(AddColumn::optional(
                "z",
                Type::Primitive(PrimitiveType::String),
            ))
            .update_column_doc("z", Some("replacement docs".to_string())),
    );

    assert!(
        error
            .message()
            .contains("Cannot update a column that will be deleted: z")
    );
}

#[test]
fn rejects_map_key_doc_updates_but_allows_true_no_ops() {
    let table = make_v2_table_with_nested();
    let direct_key_error = commit_error(
        &table,
        UpdateSchemaAction::new()
            .update_column_doc("props.key", Some("docs".to_string())),
    );
    assert!(
        direct_key_error
            .message()
            .contains("Cannot update map keys")
    );

    let mut no_op = Arc::new(
        UpdateSchemaAction::new()
            .update_column_doc("props.key", None),
    )
    .commit_to(&table)
    .unwrap();
    assert!(no_op.take_updates().is_empty());

    let struct_key_table = table_with_struct_map_key();
    let nested_key_error = commit_error(
        &struct_key_table,
        UpdateSchemaAction::new()
            .update_column_doc("indexed.key.part", Some("docs".to_string())),
    );
    assert!(nested_key_error.message().contains("Cannot alter map keys"));

    let deleted_outer_error = commit_error(
        &struct_key_table,
        UpdateSchemaAction::new()
            .delete_column("indexed")
            .update_column_doc("indexed.key.part", Some("docs".to_string())),
    );
    assert!(
        deleted_outer_error
            .message()
            .contains("Cannot alter map keys")
    );
}

#[test]
fn collection_pseudo_field_docs_follow_java_no_op_semantics() {
    let table = make_v2_table_with_nested();
    for name in ["tags.element", "props.value"] {
        let mut commit = Arc::new(
            UpdateSchemaAction::new()
                .update_column_doc(name, Some("docs".to_string())),
        )
        .commit_to(&table)
        .unwrap();
        assert!(
            commit.take_updates().is_empty(),
            "unexpected update for {name}"
        );
        assert!(
            commit.take_requirements().is_empty(),
            "unexpected requirement for {name}"
        );
    }
}

#[test]
fn doc_updates_under_deleted_ancestors_are_dropped() {
    let table = make_v2_table_with_nested();

    let deleted_nested_error = commit_error(
        &table,
        UpdateSchemaAction::new()
            .delete_column("person.name")
            .update_column_doc("person.name", Some("docs".to_string())),
    );
    assert_eq!(
        deleted_nested_error.message(),
        "Cannot update a column that will be deleted: name"
    );

    let delete_then_update = updated_schema(
        &table,
        UpdateSchemaAction::new()
            .delete_column("person")
            .update_column_doc("person.name", Some("docs".to_string())),
    );
    assert!(delete_then_update.field_by_name("person").is_none());

    let update_then_delete = updated_schema(
        &table,
        UpdateSchemaAction::new()
            .update_column_doc("person.name", Some("docs".to_string()))
            .delete_column("person"),
    );
    assert!(update_then_delete.field_by_name("person").is_none());
}

#[test]
fn empty_update_name_is_invalid() {
    let table = make_v2_table();
    let error = commit_error(
        &table,
        UpdateSchemaAction::new()
            .update_column_doc("", None),
    );
    assert_eq!(error.message(), "Invalid column name: (empty)");
}

#[test]
fn no_op_doc_updates_skip_schema_and_catalog_commits() {
    let table = make_v2_table();
    let unchanged = UpdateSchemaAction::new().update_column_doc("z", None);
    let mut direct_commit = unchanged.commit_to(&table).unwrap();
    assert!(direct_commit.take_updates().is_empty());
    assert!(direct_commit.take_requirements().is_empty());

    let reverted = UpdateSchemaAction::new()
        .update_column_doc("z", Some("temporary".to_string()))
        .update_column_doc("z", None);
    let mut reverted_commit = reverted.commit_to(&table).unwrap();
    assert!(reverted_commit.take_updates().is_empty());
    assert!(reverted_commit.take_requirements().is_empty());

    let (committed, changes) = run_in_turn(
        &table,
        &[UpdateSchemaAction::new().update_column_doc("z", None)],
    );
    assert_eq!(changes, 0);
    assert_eq!(committed.metadata(), table.metadata());
}

// identifier fields

fn identifier_ids(schema: &Schema) -> HashSet<i32> {
    schema.identifier_field_ids().iter().copied().collect()
}

fn required_without_default(name: &str, field_type: Type) -> AddColumn {
    AddColumn::builder()
        .name(name)
        .required(true)
        .field_type(field_type)
        .build()
}

fn table_with_required_nested_fields() -> Table {
    let table = make_v2_table_with_nested();
    let mut fields = table
        .metadata()
        .current_schema()
        .as_struct()
        .fields()
        .to_vec();
    fields.push(
        NestedField::required(
            15,
            "parent",
            Type::Struct(StructType::new(vec![
                NestedField::required(16, "id", Type::Primitive(PrimitiveType::String)).into(),
                NestedField::required(17, "value", Type::Primitive(PrimitiveType::Int)).into(),
            ])),
        )
        .into(),
    );
    let schema = Schema::builder()
        .fields_from(fields)
        .ids_from(table.metadata().current_schema().identifier_field_ids().iter().copied())
        .build()
        .unwrap();
    replace_current_schema(&table, schema)
}

#[test]
fn replaces_deduplicates_and_clears_identifier_fields() {
    let table = make_v2_table_with_nested();
    let schema = updated_schema(&table, update(&table).identify(["z", "z"]));
    assert_eq!(identifier_ids(&schema), HashSet::from([3]));

    let schema = updated_schema(
        &table,
        update(&table)
            .identify(["z"])
            .identify(["x"]),
    );
    assert_eq!(identifier_ids(&schema), HashSet::from([1]));

    assert_no_op(
        &table,
        Arc::new(update(&table).identify(["x", "y"])),
    );

    for action in [
        update(&table)
            .identify(std::iter::empty::<&str>())
            .delete_column("x")
            .delete_column("y"),
        update(&table)
            .delete_column("x")
            .delete_column("y")
            .identify(std::iter::empty::<&str>()),
    ] {
        let schema = updated_schema(&table, action);
        assert!(identifier_ids(&schema).is_empty());
        assert!(schema.field_by_name("x").is_none());
        assert!(schema.field_by_name("y").is_none());
    }
}

#[test]
fn resolves_existing_future_and_nested_added_fields() {
    let table = make_v2_table_with_nested();
    let schema = updated_schema(
        &table,
        update(&table)
            .allow_incompatible_changes()
            .identify(["future"])
            .add_column(required_without_default(
                "future",
                Type::Primitive(PrimitiveType::String),
            )),
    );
    assert_eq!(
        identifier_ids(&schema),
        HashSet::from([schema.field_by_name("future").unwrap().id])
    );

    let schema = updated_schema(
        &table,
        update(&table)
            .allow_incompatible_changes()
            .add_column(required_without_default(
                "parent_added",
                Type::Struct(StructType::new(vec![
                    NestedField::required(100, "id", Type::Primitive(PrimitiveType::String)).into(),
                ])),
            ))
            .identify(["parent_added.id"]),
    );
    assert_eq!(
        identifier_ids(&schema),
        HashSet::from([schema.field_by_name("parent_added.id").unwrap().id])
    );
}

#[test]
fn rejects_missing_or_invalid_identifier_fields() {
    let table = make_v2_table_with_nested();
    let missing = commit_error(&table, update(&table).identify(["missing"]));
    assert_eq!(
        missing.message(),
        "Cannot add field missing as an identifier field: not found in current schema or added columns"
    );

    for name in [
        "person",
        "person.name",
        "person.age",
        "tags.element.key",
        "props.value.data",
    ] {
        let error = commit_error(&table, update(&table).identify([name]));
        assert_eq!(error.kind(), ErrorKind::PreconditionFailed, "{name}");
        assert_eq!(error.message(), "Cannot apply schema update", "{name}");
    }

    for primitive in [PrimitiveType::Float, PrimitiveType::Double] {
        let error = commit_error(
            &table,
            update(&table)
                .allow_incompatible_changes()
                .add_column(required_without_default(
                    "candidate",
                    Type::Primitive(primitive),
                ))
                .identify(["candidate"]),
        );
        assert_eq!(error.message(), "Cannot apply schema update");
    }
}

#[test]
fn replacement_controls_deletion_and_delete_readd_identity() {
    let table = make_v2_table_with_nested();
    let selected_delete = commit_error(&table, update(&table).delete_column("x"));
    assert_eq!(
        selected_delete.message(),
        "Cannot delete identifier field x"
    );

    let schema = updated_schema(
        &table,
        update(&table)
            .delete_column("x")
            .delete_column("y")
            .identify(["z"]),
    );
    assert_eq!(identifier_ids(&schema), HashSet::from([3]));

    let schema = updated_schema(
        &table,
        update(&table)
            .identify(["z"])
            .make_column_optional("x"),
    );
    assert!(!schema.field_by_name("x").unwrap().required);
    assert_eq!(identifier_ids(&schema), HashSet::from([3]));

    let old_selection = commit_error(
        &table,
        update(&table)
            .identify(["z"])
            .delete_column("z")
            .allow_incompatible_changes()
            .add_column(required_without_default(
                "z",
                Type::Primitive(PrimitiveType::String),
            )),
    );
    assert_eq!(old_selection.message(), "Cannot delete identifier field z");

    let schema = updated_schema(
        &table,
        update(&table)
            .delete_column("z")
            .allow_incompatible_changes()
            .add_column(required_without_default(
                "z",
                Type::Primitive(PrimitiveType::String),
            ))
            .identify(["z"]),
    );
    let replacement = schema.field_by_name("z").unwrap();
    assert_ne!(replacement.id, 3);
    assert_eq!(identifier_ids(&schema), HashSet::from([replacement.id]));

    let nested = table_with_required_nested_fields();
    let ancestor = commit_error(
        &nested,
        update(&nested)
            .identify(["parent.id"])
            .delete_column("parent"),
    );
    assert_eq!(
        ancestor.message(),
        "Cannot delete field parent as it will delete nested identifier field id"
    );

    let schema = updated_schema(
        &nested,
        update(&nested)
            .delete_column("parent")
            .allow_incompatible_changes()
            .add_column(required_without_default(
                "parent",
                Type::Struct(StructType::new(vec![
                    NestedField::required(100, "id", Type::Primitive(PrimitiveType::String)).into(),
                ])),
            ))
            .identify(["parent.id"]),
    );
    let replacement = schema.field_by_name("parent.id").unwrap();
    assert_ne!(replacement.id, 16);
    assert_eq!(identifier_ids(&schema), HashSet::from([replacement.id]));

    let schema = updated_schema(
        &table,
        update(&table)
            .allow_incompatible_changes()
            .add_column(
                AddColumn::builder()
                    .parent("tags")
                    .name("id")
                    .required(true)
                    .field_type(Type::Primitive(PrimitiveType::String))
                    .build(),
            )
            .delete_column("tags")
            .add_column(required_without_default(
                "tags",
                Type::Struct(StructType::new(vec![
                    NestedField::required(
                        100,
                        "element",
                        Type::Struct(StructType::new(vec![
                            NestedField::required(
                                101,
                                "id",
                                Type::Primitive(PrimitiveType::String),
                            )
                            .into(),
                        ])),
                    )
                    .into(),
                ])),
            ))
            .case_sensitive(false)
            .identify(["TAGS.ELEMENT.ID"]),
    );
    let replacement = schema.field_by_name("tags.element.id").unwrap();
    assert_ne!(replacement.id, 15);
    assert_eq!(identifier_ids(&schema), HashSet::from([replacement.id]));
}

#[test]
fn identifiers_follow_root_nested_and_case_insensitive_renames() {
    let table = make_v2_table_with_nested();
    let schema = updated_schema(
        &table,
        update(&table)
            .case_sensitive(false)
            .identify(["X"])
            .rename_column("X", "identifier"),
    );
    assert_eq!(identifier_ids(&schema), HashSet::from([1]));
    assert_eq!(schema.field_by_name("identifier").unwrap().id, 1);

    let nested = table_with_required_nested_fields();
    let schema = updated_schema(
        &nested,
        update(&nested)
            .case_sensitive(false)
            .identify(["PARENT.ID"])
            .rename_column("PARENT", "human")
            .rename_column("PARENT.ID", "key")
            .move_column_after("PARENT.ID", "PARENT.VALUE"),
    );
    let identifier = schema.field_by_name("human.key").unwrap();
    assert_eq!(identifier.id, 16);
    assert_eq!(identifier_ids(&schema), HashSet::from([16]));
    let Type::Struct(parent) = schema.field_by_name("human").unwrap().field_type.as_ref() else {
        panic!("human should remain a struct")
    };
    assert_eq!(parent.fields()[1].id, 16);
}

#[test]
fn captures_case_sensitivity_when_identifier_fields_are_set() {
    let table = make_v2_table_with_nested();
    let schema = updated_schema(
        &table,
        update(&table)
            .case_sensitive(false)
            .identify(["Z"])
            .case_sensitive(true),
    );
    assert_eq!(identifier_ids(&schema), HashSet::from([3]));

    let exact_error = commit_error(
        &table,
        update(&table)
            .identify(["Z"])
            .case_sensitive(false),
    );
    assert!(exact_error.message().contains("not found"));

    let schema = updated_schema(
        &table,
        update(&table)
            .case_sensitive(false)
            .identify(["FUTURE"])
            .case_sensitive(true)
            .allow_incompatible_changes()
            .add_column(required_without_default(
                "Future",
                Type::Primitive(PrimitiveType::String),
            )),
    );
    assert_eq!(
        identifier_ids(&schema),
        HashSet::from([schema.field_by_name("Future").unwrap().id])
    );

    let schema = updated_schema(
        &table,
        update(&table)
            .delete_column("z")
            .allow_incompatible_changes()
            .add_column(required_without_default(
                "Z",
                Type::Primitive(PrimitiveType::String),
            ))
            .case_sensitive(false)
            .identify(["Z"]),
    );
    let replacement = schema.field_by_name("Z").unwrap();
    assert_ne!(replacement.id, 3);
    assert_eq!(identifier_ids(&schema), HashSet::from([replacement.id]));

    let ambiguity = commit_error(
        &table,
        update(&table)
            .allow_incompatible_changes()
            .add_column(required_without_default(
                "Z",
                Type::Primitive(PrimitiveType::String),
            ))
            .case_sensitive(false)
            .identify(["z"]),
    );
    assert!(ambiguity.message().contains("multiple fields match: z"));
}

#[test]
fn replays_identifier_selection_against_refreshed_metadata() {
    let table = make_v2_table_with_nested();
    let action = Arc::new(update(&table).identify(["z"]));

    let mut fields = table
        .metadata()
        .current_schema()
        .as_struct()
        .fields()
        .to_vec();
    fields.push(
        NestedField::optional(15, "concurrent", Type::Primitive(PrimitiveType::Boolean)).into(),
    );
    let concurrent = Schema::builder()
        .fields_from(fields)
        .ids_from(table.metadata().current_schema().identifier_field_ids().iter().copied())
        .build()
        .unwrap();
    let refreshed = replace_current_schema(&table, concurrent);

    let mut replayed = action.clone().commit_to(&refreshed).unwrap();
    let replayed = match replayed.take_updates().remove(0) {
        TableUpdate::AddSchema { schema } => schema,
        update => panic!("expected AddSchema, got {update:?}"),
    };
    assert!(replayed.field_by_name("concurrent").is_some());
    assert_eq!(identifier_ids(&replayed), HashSet::from([3]));

    let already_applied = replace_current_schema(&table, replayed);
    assert_no_op(&already_applied, action);
}

// literal root names

#[test]
fn ordinary_root_additions_still_reject_ambiguous_dotted_names() {
    let table = make_v2_table_with_nested();
    let error = commit_error(
        &table,
        update(&table).add_column(AddColumn::optional(
            "dot.field",
            Type::Primitive(PrimitiveType::String),
        )),
    );

    assert_eq!(
        error.message(),
        "Cannot add column with ambiguous name: dot.field, set a parent to add a nested column"
    );
}

#[test]
fn adds_required_literal_dotted_root_name_like_java_explicit_parent() {
    let table = make_v2_table_with_nested();
    let column = AddColumn::builder()
        .name("dot.field")
        .required(true)
        .field_type(Type::Primitive(PrimitiveType::String))
        .build()
        .with_literal_root_name();
    let schema = updated_schema(
        &table,
        update(&table)
            .allow_incompatible_changes()
            .add_column(column)
            .identify(["x", "dot.field"]),
    );

    let field = schema.field_by_id(15).unwrap();
    assert_eq!(field.name, "dot.field");
    assert!(field.required);
    assert_eq!(
        schema.identifier_field_ids().iter().copied().collect::<HashSet<_>>(),
        HashSet::from([1, 15])
    );
}

#[test]
fn literal_root_modifier_composes_with_builder_metadata() {
    let table = make_v2_table_with_nested();
    let column = AddColumn::builder()
        .name("metrics.value")
        .field_type(Type::Primitive(PrimitiveType::Int))
        .doc("metric")
        .write_default(Literal::long(7))
        .build()
        .with_literal_root_name();
    let schema = updated_schema(&table, update(&table).add_column(column));

    let field = schema.field_by_id(15).unwrap();
    assert_eq!(field.name, "metrics.value");
    assert!(!field.required);
    assert_eq!(field.doc.as_deref(), Some("metric"));
    assert_eq!(field.initial_default, None);
    assert_eq!(field.write_default, Some(Literal::integer(7)));
}

// moves

fn root_names(schema: &Schema) -> Vec<&str> {
    schema
        .as_struct()
        .fields()
        .iter()
        .map(|field| field.name.as_str())
        .collect()
}

fn struct_names<'a>(schema: &'a Schema, name: &str) -> Vec<&'a str> {
    let field = schema.field_by_name(name).unwrap();
    let Type::Struct(struct_type) = field.field_type.as_ref() else {
        panic!("{name} should be a struct")
    };
    struct_type
        .fields()
        .iter()
        .map(|field| field.name.as_str())
        .collect()
}

#[test]
fn applies_root_moves_in_call_order_and_preserves_field_ids() {
    let table = make_v2_table_with_nested();
    let schema = updated_schema(
        &table,
        update(&table)
            .move_column_first("props")
            .move_column_first("z")
            .move_column_after("x", "y")
            .move_column_before("props", "person"),
    );

    assert_eq!(root_names(&schema), [
        "z", "y", "x", "props", "person", "tags"
    ]);
    assert_eq!(schema.field_by_name("x").unwrap().id, 1);
    assert_eq!(schema.field_by_name("y").unwrap().id, 2);
    assert_eq!(schema.field_by_name("z").unwrap().id, 3);
    assert_eq!(schema.identifier_field_ids().iter().copied().collect::<Vec<_>>().len(), 2);
}

#[test]
fn moves_fields_in_structs_list_elements_and_map_values() {
    let table = make_v2_table_with_nested();
    let schema = updated_schema(
        &table,
        update(&table)
            .move_column_first("person.age")
            .move_column_first("tags.element.value")
            .add_column(
                AddColumn::builder()
                    .parent("props")
                    .name("note")
                    .field_type(Type::Primitive(PrimitiveType::String))
                    .build(),
            )
            .move_column_before("props.value.note", "props.data"),
    );

    assert_eq!(struct_names(&schema, "person"), ["age", "name"]);
    assert_eq!(struct_names(&schema, "tags.element"), ["value", "key"]);
    assert_eq!(struct_names(&schema, "props.value"), ["note", "data"]);
}

#[test]
fn additions_are_appended_before_moves_and_replacements_win_name_lookup() {
    let table = make_v2_table_with_nested();
    let schema = updated_schema(
        &table,
        update(&table)
            .delete_column("z")
            .add_column(AddColumn::optional(
                "z",
                Type::Primitive(PrimitiveType::String),
            ))
            .add_column(AddColumn::optional(
                "extra",
                Type::Primitive(PrimitiveType::Boolean),
            ))
            .delete_column("person.name")
            .add_column(
                AddColumn::builder()
                    .parent("person")
                    .name("name")
                    .field_type(Type::Primitive(PrimitiveType::String))
                    .build(),
            )
            .move_column_before("extra", "z")
            .move_column_first("z")
            .move_column_after("extra", "x")
            .move_column_after("person.name", "person.age"),
    );

    assert_eq!(root_names(&schema), [
        "z", "x", "extra", "y", "person", "tags", "props"
    ]);
    assert_eq!(schema.field_by_name("z").unwrap().id, 15);
    assert_eq!(schema.field_by_name("extra").unwrap().id, 16);
    assert_eq!(schema.field_by_name("person.name").unwrap().id, 17);
    assert!(schema.field_by_id(3).is_none());
    assert!(schema.field_by_id(5).is_none());
    assert_eq!(struct_names(&schema, "person"), ["age", "name"]);
}

#[test]
fn validates_missing_self_and_cross_struct_moves() {
    let table = make_v2_table_with_nested();
    for (action, message) in [
        (
            update(&table).move_column_first("missing"),
            "Cannot move missing column: missing",
        ),
        (
            update(&table).move_column_before("z", "missing"),
            "Cannot move z before missing column: missing",
        ),
        (
            update(&table).move_column_after("z", "missing"),
            "Cannot move z after missing column: missing",
        ),
        (
            update(&table).move_column_before("tags.element", "missing"),
            "Cannot move tags.element before missing column: missing",
        ),
        (
            update(&table).move_column_before("z", "z"),
            "Cannot move z before itself",
        ),
        (
            update(&table).move_column_after("z", "z"),
            "Cannot move z after itself",
        ),
        (
            update(&table).move_column_before("z", "person.name"),
            "Cannot move field z to a different struct",
        ),
        (
            update(&table).move_column_after("person.name", "tags.element.key"),
            "Cannot move field person.name to a different struct",
        ),
    ] {
        let error = commit_error(&table, action);
        assert_eq!(error.kind(), ErrorKind::PreconditionFailed);
        assert_eq!(error.message(), message);
    }
}

#[test]
fn rejects_collection_pseudo_fields_and_map_key_descendants() {
    let table = make_v2_table_with_nested();
    for action in [
        update(&table).move_column_first("tags.element"),
        update(&table).move_column_before("props.key", "props.value"),
    ] {
        let error = commit_error(&table, action);
        assert!(
            error
                .message()
                .starts_with("Cannot move fields in non-struct type:")
        );
    }

    let struct_key = table_with_struct_map_key();
    let key_error = commit_error(
        &struct_key,
        update(&struct_key).move_column_first("indexed.key.part"),
    );
    assert_eq!(key_error.message(), "Cannot alter map keys: indexed");
}

#[test]
fn move_before_add_fails_and_already_satisfied_moves_are_no_ops() {
    let table = make_v2_table_with_nested();
    let before_add = commit_error(
        &table,
        update(&table)
            .move_column_first("new_col")
            .add_column(AddColumn::optional(
                "new_col",
                Type::Primitive(PrimitiveType::String),
            )),
    );
    assert_eq!(before_add.message(), "Cannot move missing column: new_col");

    assert_no_op(&table, Arc::new(update(&table).move_column_first("x")));
    assert_no_op(
        &table,
        Arc::new(update(&table).move_column_before("x", "y")),
    );
    assert_no_op(&table, Arc::new(update(&table).move_column_after("y", "x")));
}

#[test]
fn moves_resolves_case_insensitively_and_replays_against_refreshed_metadata() {
    let table = make_v2_table_with_nested();
    let added = updated_schema(
        &table,
        update(&table)
            .case_sensitive(false)
            .add_column(AddColumn::optional(
                "Anchor",
                Type::Primitive(PrimitiveType::String),
            ))
            .add_column(AddColumn::optional(
                "Added",
                Type::Primitive(PrimitiveType::String),
            ))
            .move_column_before("ADDED", "ANCHOR"),
    );
    let names = root_names(&added);
    assert_eq!(&names[names.len() - 2..], ["Added", "Anchor"]);

    let action = Arc::new(update(&table).case_sensitive(false).move_column_first("Z"));
    let mut first = action.clone().commit_to(&table).unwrap();
    let first = match first.take_updates().remove(0) {
        TableUpdate::AddSchema { schema } => schema,
        update => panic!("expected AddSchema, got {update:?}"),
    };
    assert_eq!(root_names(&first)[0], "z");

    let mut fields = table
        .metadata()
        .current_schema()
        .as_struct()
        .fields()
        .to_vec();
    fields.push(
        NestedField::optional(15, "concurrent", Type::Primitive(PrimitiveType::Boolean)).into(),
    );
    let concurrent = Schema::builder()
        .fields_from(fields)
        .ids_from(table.metadata().current_schema().identifier_field_ids().iter().copied())
        .build()
        .unwrap();
    let refreshed = replace_current_schema(&table, concurrent);
    let mut replayed = action.clone().commit_to(&refreshed).unwrap();
    let replayed = match replayed.take_updates().remove(0) {
        TableUpdate::AddSchema { schema } => schema,
        update => panic!("expected AddSchema, got {update:?}"),
    };
    assert_eq!(root_names(&replayed)[0], "z");
    assert!(replayed.field_by_name("concurrent").is_some());

    let already_applied = replace_current_schema(&table, first);
    assert_no_op(&already_applied, action);
}

// name mapping

fn commit_parts(
    table: &Table,
    action: UpdateSchemaAction,
) -> (Vec<TableUpdate>, Vec<TableRequirement>) {
    let mut commit = action.commit_to(table).unwrap();
    (commit.take_updates(), commit.take_requirements())
}

fn mapping_json(updates: &[TableUpdate]) -> Option<&str> {
    updates.iter().find_map(|update| match update {
        TableUpdate::SetProperties { updates } => {
            property(&updates, DEFAULT_SCHEMA_NAME_MAPPING).map(String::as_str)
        }
        _ => None,
    })
}

fn mapped_field_by_id(fields: &[MappedField], id: i32) -> Option<&MappedField> {
    for field in fields {
        if let Some(found) = mapped_field_or_descendant(field, id) {
            return Some(found);
        }
    }
    None
}

fn mapped_field_or_descendant(field: &MappedField, id: i32) -> Option<&MappedField> {
    if field.field_id() == Some(id) {
        return Some(field);
    }
    for child in field.fields() {
        if let Some(found) = mapped_field_or_descendant(child, id) {
            return Some(found);
        }
    }
    None
}

fn mapped_names(mapping: &NameMapping, id: i32) -> Vec<String> {
    mapped_field_by_id(mapping.fields(), id)
        .unwrap_or_else(|| panic!("missing mapped field {id}"))
        .names()
        .to_vec()
}

#[test]
fn mapping_tracks_root_and_nested_additions() {
    let raw_mapping = r#"[
        {"field-id":3,"names":["legacy_z","z"]},
        {"field-id":4,"names":["person"],"fields":[
            {"field-id":5,"names":["name"]}
        ]},
        {"field-id":7,"names":["tags"],"fields":[
            {"field-id":8,"names":["element"]}
        ]},
        {"field-id":11,"names":["props"],"fields":[
            {"field-id":12,"names":["key"]},
            {"field-id":13,"names":["value"]}
        ]}
    ]"#;
    let table = with_properties(
        make_v2_table_with_nested(),
        HashMap::from([(
            DEFAULT_SCHEMA_NAME_MAPPING.to_string(),
            raw_mapping.to_string(),
        )]),
    );
    let action = UpdateSchemaAction::new()
        .add_column(AddColumn::optional(
            "extra",
            Type::Primitive(PrimitiveType::String),
        ))
        .add_column(
            AddColumn::builder()
                .parent("tags")
                .name("score")
                .field_type(Type::Primitive(PrimitiveType::Double))
                .build(),
        )
        .add_column(
            AddColumn::builder()
                .parent("props")
                .name("version")
                .field_type(Type::Primitive(PrimitiveType::Int))
                .build(),
        );
    let (updates, _) = commit_parts(&table, action);
    let mapping = parse_mapping(mapping_json(&updates).unwrap());

    assert_eq!(mapped_names(&mapping, 3), ["legacy_z", "z"]);
    assert_eq!(mapped_names(&mapping, 15), ["extra"]);
    assert_eq!(mapped_names(&mapping, 16), ["score"]);
    assert_eq!(mapped_names(&mapping, 17), ["version"]);

    assert!(
        mapping
            .fields()
            .iter()
            .any(|field| field.field_id() == Some(15))
    );
}

#[test]
fn replacement_addition_reassigns_the_deleted_fields_alias() {
    let metrics_key = "write.metadata.metrics.column.z";
    let table = with_properties(
        make_v2_table_with_nested(),
        HashMap::from([
            (
                DEFAULT_SCHEMA_NAME_MAPPING.to_string(),
                r#"[{"field-id":3,"names":["z","legacy_z"]}]"#.to_string(),
            ),
            (metrics_key.to_string(), "full".to_string()),
        ]),
    );
    let action = UpdateSchemaAction::new()
        .delete_column("z")
        .add_column(AddColumn::optional(
            "z",
            Type::Primitive(PrimitiveType::String),
        ));
    let (updates, _) = commit_parts(&table, action);
    let mapping = parse_mapping(mapping_json(&updates).unwrap());

    assert_eq!(mapped_names(&mapping, 3), ["legacy_z"]);
    assert_eq!(mapped_names(&mapping, 15), ["z"]);
    let remove_index = updates
        .iter()
        .position(|update| matches!(update, TableUpdate::RemoveProperties { .. }))
        .unwrap();
    let set_index = updates
        .iter()
        .position(|update| matches!(update, TableUpdate::SetProperties { .. }))
        .unwrap();
    assert!(remove_index < set_index);

    let committed = apply_updates(&table, &updates);
    assert!(!committed.metadata().properties().contains_key(metrics_key));
}

#[test]
fn mapping_adds_all_nested_collection_fields() {
    let table = with_properties(
        make_v2_table(),
        HashMap::from([(DEFAULT_SCHEMA_NAME_MAPPING.to_string(), "[]".to_string())]),
    );
    let complex_type = Type::MapOf(MapType {
        key_field: NestedField::map_key_element(100, Type::Primitive(PrimitiveType::String)).into(),
        value_field: NestedField::map_value_element(
            101,
            Type::List(ListType {
                element_field: NestedField::list_element(
                    102,
                    Type::Struct(StructType::new(vec![
                        NestedField::optional(103, "leaf", Type::Primitive(PrimitiveType::Long))
                            .into(),
                    ])),
                    false,
                )
                .into(),
            }),
            false,
        )
        .into(),
    });
    let action = UpdateSchemaAction::new()
        .add_column(AddColumn::optional("complex", complex_type));
    let (updates, _) = commit_parts(&table, action);
    let mapping = parse_mapping(mapping_json(&updates).unwrap());

    for (id, name) in [
        (4, "complex"),
        (5, "key"),
        (6, "value"),
        (7, "element"),
        (8, "leaf"),
    ] {
        assert_eq!(mapped_names(&mapping, id), [name]);
    }
}

#[test]
fn invalid_mappings_are_left_raw_without_blocking_other_changes() {
    let invalid_mappings = [
        "{not valid json",
        r#"[
            {"field-id":3,"names":["z"]},
            {"field-id":20,"names":["outer"],"fields":[
                {"field-id":3,"names":["inner"]}
            ]}
        ]"#,
        r#"[
            {"field-id":20,"names":["alias"]},
            {"field-id":21,"names":["alias"]}
        ]"#,
        r#"[
            {"field-id":20,"names":["a.b"]},
            {"field-id":21,"names":["a"],"fields":[
                {"field-id":22,"names":["b"]}
            ]}
        ]"#,
        r#"[
            {"names":["first"]},
            {"names":["second"]}
        ]"#,
        r#"[{"names":["idless"]}]"#,
        r#"[{"field-id":3,"names":["z"],"fields":null}]"#,
    ];

    for raw_mapping in invalid_mappings {
        let metrics_key = "write.metadata.metrics.column.z";
        let table = with_properties(
            make_v2_table_with_nested(),
            HashMap::from([
                (
                    DEFAULT_SCHEMA_NAME_MAPPING.to_string(),
                    raw_mapping.to_string(),
                ),
                (metrics_key.to_string(), "full".to_string()),
            ]),
        );
        let action = UpdateSchemaAction::new()
            .delete_column("z")
            .add_column(AddColumn::optional(
                "extra",
                Type::Primitive(PrimitiveType::String),
            ));
        let (updates, _) = commit_parts(&table, action);

        assert!(mapping_json(&updates).is_none());
        let committed = apply_updates(&table, &updates);
        assert_eq!(
            committed
                .metadata()
                .properties()
                .get(DEFAULT_SCHEMA_NAME_MAPPING)
                .map(String::as_str),
            Some(raw_mapping)
        );
        assert!(!committed.metadata().properties().contains_key(metrics_key));
        assert!(
            committed
                .metadata()
                .current_schema()
                .field_by_name("extra")
                .is_some()
        );
    }
}

#[test]
fn output_conflicts_leave_the_mapping_unchanged() {
    let cases = [
        (r#"[{"field-id":15,"names":["future"]}]"#, None, "extra"),
        (
            r#"[
                {"field-id":4,"names":["person"]},
                {"field-id":20,"names":["person.new"]}
            ]"#,
            Some("person"),
            "new",
        ),
    ];

    for (raw_mapping, parent, name) in cases {
        let table = with_properties(
            make_v2_table_with_nested(),
            HashMap::from([(
                DEFAULT_SCHEMA_NAME_MAPPING.to_string(),
                raw_mapping.to_string(),
            )]),
        );
        let add = AddColumn::builder()
            .name(name)
            .field_type(Type::Primitive(PrimitiveType::String));
        let add = match parent {
            Some(parent) => add.parent(parent).build(),
            None => add.build(),
        };
        let action = UpdateSchemaAction::new().add_column(add);
        let (updates, _) = commit_parts(&table, action);

        assert!(mapping_json(&updates).is_none());
        assert_eq!(
            apply_updates(&table, &updates)
                .metadata()
                .properties()
                .get(DEFAULT_SCHEMA_NAME_MAPPING)
                .map(String::as_str),
            Some(raw_mapping)
        );
    }
}

#[test]
fn multiple_alias_reassignments_leave_the_mapping_unchanged() {
    let raw_mapping = r#"[{"field-id":3,"names":["first","second"]}]"#;
    let table = with_properties(
        make_v2_table_with_nested(),
        HashMap::from([(
            DEFAULT_SCHEMA_NAME_MAPPING.to_string(),
            raw_mapping.to_string(),
        )]),
    );
    let action = UpdateSchemaAction::new()
        .add_column(AddColumn::optional(
            "first",
            Type::Primitive(PrimitiveType::String),
        ))
        .add_column(AddColumn::optional(
            "second",
            Type::Primitive(PrimitiveType::String),
        ));
    let (updates, _) = commit_parts(&table, action);

    assert!(mapping_json(&updates).is_none());
    let committed = apply_updates(&table, &updates);
    assert_eq!(
        committed
            .metadata()
            .properties()
            .get(DEFAULT_SCHEMA_NAME_MAPPING)
            .map(String::as_str),
        Some(raw_mapping)
    );
    assert!(
        committed
            .metadata()
            .current_schema()
            .field_by_name("first")
            .is_some()
    );
    assert!(
        committed
            .metadata()
            .current_schema()
            .field_by_name("second")
            .is_some()
    );
}

#[test]
fn deletions_leave_name_mappings_unchanged() {
    let raw_mapping = r#"[{"field-id":3,"names":["z","legacy_z"]}]"#;
    let table = with_properties(
        make_v2_table_with_nested(),
        HashMap::from([(
            DEFAULT_SCHEMA_NAME_MAPPING.to_string(),
            raw_mapping.to_string(),
        )]),
    );
    let action = UpdateSchemaAction::new().delete_column("z");
    let (updates, _) = commit_parts(&table, action);

    assert!(mapping_json(&updates).is_none());
    assert_eq!(
        apply_updates(&table, &updates)
            .metadata()
            .properties()
            .get(DEFAULT_SCHEMA_NAME_MAPPING)
            .map(String::as_str),
        Some(raw_mapping)
    );
}

#[test]
fn valid_omitted_names_are_preserved_when_extending_a_mapping() {
    let table = with_properties(
        make_v2_table_with_nested(),
        HashMap::from([(
            DEFAULT_SCHEMA_NAME_MAPPING.to_string(),
            r#"[{"field-id":3}]"#.to_string(),
        )]),
    );
    let action = UpdateSchemaAction::new()
        .add_column(AddColumn::optional(
            "extra",
            Type::Primitive(PrimitiveType::String),
        ));
    let (updates, _) = commit_parts(&table, action);
    let mapping = parse_mapping(mapping_json(&updates).unwrap());

    assert!(mapped_names(&mapping, 3).is_empty());
    assert_eq!(mapped_names(&mapping, 15), ["extra"]);
}

#[test]
fn nested_additions_are_ignored_when_the_parent_is_not_mapped() {
    let table = with_properties(
        make_v2_table_with_nested(),
        HashMap::from([(DEFAULT_SCHEMA_NAME_MAPPING.to_string(), "[]".to_string())]),
    );
    let action = UpdateSchemaAction::new().add_column(
        AddColumn::builder()
            .parent("person")
            .name("new")
            .field_type(Type::Primitive(PrimitiveType::String))
            .build(),
    );
    let (updates, _) = commit_parts(&table, action);

    assert!(mapping_json(&updates).is_none());
}

// nullability

fn nullability_required_without_default(name: &str) -> AddColumn {
    AddColumn::builder()
        .name(name)
        .required(true)
        .field_type(Type::Primitive(PrimitiveType::String))
        .build()
}

#[test]
fn changes_nullability_and_preserves_pending_metadata_updates() {
    let table = make_v2_table_with_nested();
    let schema = updated_schema(
        &table,
        update(&table)
            .update_column_doc("person.name", Some("full name".to_string()))
            .update_column_default("person.name", Some(Literal::string("unknown")))
            .rename_column("person.name", "full_name")
            .allow_incompatible_changes()
            .require_column("person.name")
            .make_column_optional("person.age")
            .update_column_type("person.age", PrimitiveType::Long),
    );

    assert!(schema.field_by_name("person.name").is_none());
    let name = schema.field_by_name("person.full_name").unwrap();
    assert!(name.required);
    assert_eq!(name.id, 5);
    assert_eq!(name.doc.as_deref(), Some("full name"));
    assert_eq!(name.initial_default, None);
    assert_eq!(name.write_default, Some(Literal::string("unknown")));

    let age = schema.field_by_name("person.age").unwrap();
    assert!(!age.required);
    assert_eq!(age.id, 6);
    assert_eq!(
        age.field_type.as_ref(),
        &Type::Primitive(PrimitiveType::Long)
    );
}

#[test]
fn requires_explicit_permission_for_incompatible_changes() {
    let table = make_v2_table_with_nested();
    let required = commit_error(&table, update(&table).require_column("person.name"));
    assert_eq!(required.kind(), ErrorKind::PreconditionFailed);
    assert_eq!(
        required.message(),
        "Cannot change column nullability: person.name: optional -> required"
    );

    let required_add = commit_error(
        &table,
        update(&table).add_column(nullability_required_without_default("required_col")),
    );
    assert_eq!(
        required_add.message(),
        "Incompatible change: cannot add required column without an initial default: required_col"
    );

    let schema = updated_schema(
        &table,
        update(&table)
            .allow_incompatible_changes()
            .require_column("person.name")
            .add_column(nullability_required_without_default("required_col")),
    );
    assert!(schema.field_by_name("person.name").unwrap().required);
    assert!(schema.field_by_name("required_col").unwrap().required);
}

#[test]
fn incompatible_permission_applies_only_to_subsequent_operations() {
    let table = make_v2_table_with_nested();
    for action in [
        update(&table)
            .require_column("person.name")
            .allow_incompatible_changes(),
        update(&table)
            .add_column(nullability_required_without_default("required_col"))
            .allow_incompatible_changes(),
    ] {
        let error = commit_error(&table, action);
        assert_eq!(error.kind(), ErrorKind::PreconditionFailed);
    }

    assert_no_op(
        &table,
        Arc::new(update(&table).allow_incompatible_changes()),
    );
}

#[test]
fn an_initial_default_but_not_a_write_default_makes_an_add_safe_to_require() {
    let table = make_v2_table_with_nested();
    let schema = updated_schema(
        &table,
        update(&table)
            .add_column(
                AddColumn::builder()
                    .name("defaulted")
                    .field_type(Type::Primitive(PrimitiveType::Int))
                    .initial_default(Literal::integer(7))
                    .write_default(Literal::integer(8))
                    .build(),
            )
            .require_column("defaulted"),
    );
    let defaulted = schema.field_by_name("defaulted").unwrap();
    assert!(defaulted.required);
    assert_eq!(defaulted.initial_default, Some(Literal::integer(7)));
    assert_eq!(defaulted.write_default, Some(Literal::integer(8)));

    let write_only = commit_error(
        &table,
        update(&table)
            .add_column(AddColumn::optional(
                "write_only",
                Type::Primitive(PrimitiveType::String),
            ))
            .update_column_default("write_only", Some(Literal::string("unknown")))
            .require_column("write_only"),
    );
    assert_eq!(
        write_only.message(),
        "Cannot change column nullability: write_only: optional -> required"
    );
}

#[test]
fn validates_missing_deleted_and_exact_no_op_targets_in_java_order() {
    let table = make_v2_table_with_nested();
    let missing = commit_error(&table, update(&table).make_column_optional("missing"));
    assert_eq!(missing.message(), "Cannot update missing column: missing");

    assert_no_op(&table, Arc::new(update(&table).require_column("z")));

    let deleted = updated_schema(
        &table,
        update(&table).delete_column("z").require_column("z"),
    );
    assert!(deleted.field_by_name("z").is_none());

    let incompatible_before_deleted = commit_error(
        &table,
        update(&table)
            .delete_column("person.name")
            .require_column("person.name"),
    );
    assert_eq!(
        incompatible_before_deleted.message(),
        "Cannot change column nullability: person.name: optional -> required"
    );

    let deleted_after_opt_in = commit_error(
        &table,
        update(&table)
            .delete_column("person.name")
            .allow_incompatible_changes()
            .require_column("person.name"),
    );
    assert_eq!(
        deleted_after_opt_in.message(),
        "Cannot update a column that will be deleted: name"
    );
}

#[test]
fn updates_collection_nullability_and_rejects_map_key_changes() {
    let table = make_v2_table_with_nested();
    let schema = updated_schema(
        &table,
        update(&table)
            .make_column_optional("tags.element")
            .make_column_optional("props.value"),
    );
    assert!(!schema.field_by_name("tags.element").unwrap().required);
    assert!(!schema.field_by_name("props.value").unwrap().required);

    let map_key = commit_error(&table, update(&table).make_column_optional("props.key"));
    assert_eq!(map_key.message(), "Cannot update map keys: props");
}

#[test]
fn incompatible_permission_does_not_override_identifier_validation() {
    let table = make_v2_table_with_nested();
    let error = commit_error(
        &table,
        update(&table)
            .allow_incompatible_changes()
            .make_column_optional("x"),
    );
    assert_eq!(error.kind(), ErrorKind::PreconditionFailed);
    assert_eq!(error.message(), "Cannot apply schema update");
}

#[test]
fn nullability_resolves_case_insensitively_and_replays_against_refreshed_metadata() {
    let table = make_v2_table_with_nested();
    let action = Arc::new(
        update(&table)
            .case_sensitive(false)
            .make_column_optional("PERSON.AGE"),
    );
    let mut first = action.clone().commit_to(&table).unwrap();
    let first = match first.take_updates().remove(0) {
        TableUpdate::AddSchema { schema } => schema,
        update => panic!("expected AddSchema, got {update:?}"),
    };
    assert!(!first.field_by_name("person.age").unwrap().required);

    let mut fields = table
        .metadata()
        .current_schema()
        .as_struct()
        .fields()
        .to_vec();
    fields.push(
        NestedField::optional(15, "concurrent", Type::Primitive(PrimitiveType::Boolean)).into(),
    );
    let concurrent = Schema::builder()
        .fields_from(fields)
        .ids_from(table.metadata().current_schema().identifier_field_ids().iter().copied())
        .build()
        .unwrap();
    let refreshed = replace_current_schema(&table, concurrent);
    let mut replayed = action.clone().commit_to(&refreshed).unwrap();
    let replayed = match replayed.take_updates().remove(0) {
        TableUpdate::AddSchema { schema } => schema,
        update => panic!("expected AddSchema, got {update:?}"),
    };
    assert!(replayed.field_by_name("concurrent").is_some());
    assert!(!replayed.field_by_name("person.age").unwrap().required);

    let already_applied = replace_current_schema(&table, first);
    assert_no_op(&already_applied, action);
}

// ordered

fn table_with_nested_identifier() -> Table {
    let table = make_v2_table();
    let mut fields = table
        .metadata()
        .current_schema()
        .as_struct()
        .fields()
        .to_vec();
    fields.push(
        NestedField::required(
            4,
            "identity",
            Type::Struct(StructType::new(vec![
                NestedField::required(5, "code", Type::Primitive(PrimitiveType::String)).into(),
            ])),
        )
        .into(),
    );
    let schema = Schema::builder()
        .fields_from(fields)
        .ids_from([5])
        .build()
        .unwrap();
    replace_current_schema(&table, schema)
}

#[test]
fn replays_operations_against_latest_metadata() {
    let table = make_v2_table();
    let action = Arc::new(UpdateSchemaAction::new().add_column(
        AddColumn::optional("added", Type::Primitive(PrimitiveType::String)),
    ));

    let mut initial_commit = action.clone().commit_to(&table).unwrap();
    let initial_schema = match initial_commit.take_updates().remove(0) {
        TableUpdate::AddSchema { schema } => schema,
        update => panic!("expected AddSchema, got {update:?}"),
    };
    assert_eq!(initial_schema.field_by_name("added").unwrap().id, 4);

    let mut concurrent_fields = table
        .metadata()
        .current_schema()
        .as_struct()
        .fields()
        .to_vec();
    concurrent_fields.push(
        NestedField::optional(4, "concurrent", Type::Primitive(PrimitiveType::Boolean)).into(),
    );
    let concurrent_schema = Schema::builder()
        .fields_from(concurrent_fields)
        .ids_from(table.metadata().current_schema().identifier_field_ids().iter().copied())
        .build()
        .unwrap();
    let refreshed = replace_current_schema(&table, concurrent_schema);

    let mut replayed_commit = action.commit_to(&refreshed).unwrap();
    let replayed_schema = match replayed_commit.take_updates().remove(0) {
        TableUpdate::AddSchema { schema } => schema,
        update => panic!("expected AddSchema, got {update:?}"),
    };
    assert_eq!(replayed_schema.field_by_name("concurrent").unwrap().id, 4);
    assert_eq!(replayed_schema.field_by_name("added").unwrap().id, 5);
    assert_eq!(replayed_commit.take_requirements(), vec![
        TableRequirement::UuidMatch {
            uuid: refreshed.metadata().uuid(),
        },
        TableRequirement::LastAssignedFieldIdMatch {
            last_assigned_field_id: 4,
        },
        TableRequirement::CurrentSchemaIdMatch {
            current_schema_id: refreshed.metadata().current_schema_id(),
        },
    ]);
}

#[test]
fn add_then_delete_new_column_targets_the_base_schema() {
    let table = make_v2_table();
    let error = commit_error(
        &table,
        UpdateSchemaAction::new()
            .add_column(AddColumn::optional(
                "new_col",
                Type::Primitive(PrimitiveType::Boolean),
            ))
            .delete_column("new_col"),
    );
    assert_eq!(error.kind(), ErrorKind::PreconditionFailed);
    assert!(error.message().contains("Cannot delete missing column"));
}

#[test]
fn repeated_deletes_still_target_the_original_field() {
    let table = make_v2_table();
    let deleted = updated_schema(
        &table,
        UpdateSchemaAction::new()
            .delete_column("z")
            .delete_column("z"),
    );
    assert!(deleted.field_by_name("z").is_none());

    let replaced = updated_schema(
        &table,
        UpdateSchemaAction::new()
            .delete_column("z")
            .add_column(AddColumn::optional(
                "z",
                Type::Primitive(PrimitiveType::Boolean),
            ))
            .delete_column("z"),
    );
    assert_eq!(replaced.field_by_name("z").unwrap().id, 4);
}

#[test]
fn rejects_duplicate_pending_additions_when_building_the_schema() {
    let table = make_v2_table();
    let error = commit_error(
        &table,
        UpdateSchemaAction::new()
            .add_column(AddColumn::optional(
                "new_col",
                Type::Primitive(PrimitiveType::Int),
            ))
            .add_column(AddColumn::optional(
                "new_col",
                Type::Primitive(PrimitiveType::Long),
            )),
    );

    assert_eq!(error.kind(), ErrorKind::PreconditionFailed);
    assert!(error.message().contains("Cannot apply schema update"));
}

#[test]
fn rejects_struct_parent_deletion_conflicts_in_both_orders() {
    let table = make_v2_table_with_nested();
    let add_then_delete = commit_error(
        &table,
        UpdateSchemaAction::new()
            .add_column(
                AddColumn::builder()
                    .parent("person")
                    .name("email")
                    .field_type(Type::Primitive(PrimitiveType::String))
                    .build(),
            )
            .delete_column("person"),
    );
    assert!(add_then_delete.message().contains("has additions"));

    let delete_then_add = commit_error(
        &table,
        UpdateSchemaAction::new()
            .delete_column("person")
            .add_column(
                AddColumn::builder()
                    .parent("person")
                    .name("email")
                    .field_type(Type::Primitive(PrimitiveType::String))
                    .build(),
            ),
    );
    assert!(
        delete_then_add
            .message()
            .contains("column that will be deleted")
    );
}

#[test]
fn collection_ancestor_deletes_drop_nested_additions() {
    let table = make_v2_table_with_nested();
    for (parent, child, field_type) in [
        ("tags", "score", PrimitiveType::Double),
        ("props", "version", PrimitiveType::Int),
    ] {
        let delete_then_add = updated_schema(
            &table,
            UpdateSchemaAction::new()
                .delete_column(parent)
                .add_column(
                    AddColumn::builder()
                        .parent(parent)
                        .name(child)
                        .field_type(Type::Primitive(field_type.clone()))
                        .build(),
                ),
        );
        assert!(delete_then_add.field_by_name(parent).is_none());

        let add_then_delete = updated_schema(
            &table,
            UpdateSchemaAction::new()
                .add_column(
                    AddColumn::builder()
                        .parent(parent)
                        .name(child)
                        .field_type(Type::Primitive(field_type))
                        .build(),
                )
                .delete_column(parent),
        );
        assert!(add_then_delete.field_by_name(parent).is_none());
    }
}

#[test]
fn rejects_identifier_and_identifier_ancestor_deletions() {
    let table = table_with_nested_identifier();

    let identifier_error = commit_error(
        &table,
        UpdateSchemaAction::new()
            .delete_column("identity.code"),
    );
    assert!(identifier_error.message().contains("identifier field"));

    let ancestor_error = commit_error(
        &table,
        UpdateSchemaAction::new()
            .delete_column("identity"),
    );
    assert!(
        ancestor_error
            .message()
            .contains("delete nested identifier field")
    );
}

#[test]
fn same_name_replacement_does_not_bypass_identifier_protection() {
    let table = make_v2_table();
    let error = commit_error(
        &table,
        UpdateSchemaAction::new()
            .delete_column("x")
            .add_column(AddColumn::required(
                "x",
                Type::Primitive(PrimitiveType::Long),
                Literal::long(0),
            )),
    );

    assert_eq!(error.kind(), ErrorKind::PreconditionFailed);
    assert!(error.message().contains("Cannot delete identifier field"));
}

#[test]
fn rejects_collection_pseudo_field_deletions() {
    let table = make_v2_table_with_nested();
    for (name, expected) in [
        ("tags.element", "Cannot delete element type from list"),
        ("props.key", "Cannot delete map keys"),
        ("props.value", "Cannot delete value type from map"),
    ] {
        let error = commit_error(
            &table,
            UpdateSchemaAction::new().delete_column(name),
        );
        assert!(
            error.message().contains(expected),
            "unexpected error for {name}: {error:?}"
        );
    }

    let nested_delete_under_deleted_list = commit_error(
        &table,
        UpdateSchemaAction::new()
            .delete_column("tags")
            .delete_column("tags.element"),
    );
    assert!(
        nested_delete_under_deleted_list
            .message()
            .contains("Cannot delete element type from list")
    );
}

#[test]
fn rejects_additions_to_map_keys() {
    let table = table_with_struct_map_key();
    let error = commit_error(
        &table,
        UpdateSchemaAction::new().add_column(
            AddColumn::builder()
                .parent("indexed.key")
                .name("extra")
                .field_type(Type::Primitive(PrimitiveType::Long))
                .build(),
        ),
    );

    assert_eq!(error.kind(), ErrorKind::PreconditionFailed);
    assert!(error.message().contains("Cannot add fields to map keys"));

    let under_deleted_map = commit_error(
        &table,
        UpdateSchemaAction::new()
            .delete_column("indexed")
            .add_column(
                AddColumn::builder()
                    .parent("indexed.key")
                    .name("extra")
                    .field_type(Type::Primitive(PrimitiveType::Long))
                    .build(),
            ),
    );
    assert!(
        under_deleted_map
            .message()
            .contains("Cannot add fields to map keys")
    );
}

#[test]
fn handles_dotted_names_like_java_overloads() {
    let table = make_v2_table_with_nested();
    let empty_root_error = commit_error(
        &table,
        UpdateSchemaAction::new()
            .add_column(AddColumn::optional("", Type::Primitive(PrimitiveType::Int))),
    );
    assert_eq!(empty_root_error.message(), "Invalid column name: (empty)");

    let root_error = commit_error(
        &table,
        UpdateSchemaAction::new()
            .add_column(AddColumn::optional(
                "dot.field",
                Type::Primitive(PrimitiveType::Int),
            )),
    );
    assert!(root_error.message().contains("ambiguous name"));

    let schema = updated_schema(
        &table,
        UpdateSchemaAction::new().add_column(
            AddColumn::builder()
                .parent("person")
                .name("dot.field")
                .field_type(Type::Primitive(PrimitiveType::Int))
                .build(),
        ),
    );
    assert_eq!(schema.field_by_name("person.dot.field").unwrap().id, 15);

    let empty_leaf_schema = updated_schema(
        &table,
        UpdateSchemaAction::new().add_column(
            AddColumn::builder()
                .parent("person")
                .name("")
                .field_type(Type::Primitive(PrimitiveType::Int))
                .build(),
        ),
    );
    assert_eq!(empty_leaf_schema.field_by_name("person.").unwrap().id, 15);

    let collision = commit_error(
        &table,
        UpdateSchemaAction::new().add_column(
            AddColumn::builder()
                .parent("tags")
                .name("element.key")
                .field_type(Type::Primitive(PrimitiveType::String))
                .build(),
        ),
    );
    assert!(collision.message().contains("already exists"));
}

#[test]
fn canonicalizes_collection_parent_paths() {
    let table = make_v2_table_with_nested();
    let list_schema = updated_schema(
        &table,
        UpdateSchemaAction::new().add_column(
            AddColumn::builder()
                .parent("tags")
                .name("score")
                .field_type(Type::Primitive(PrimitiveType::Double))
                .build(),
        ),
    );
    assert_eq!(list_schema.name_by_field_id(15), Some("tags.element.score"));

    let map_schema = updated_schema(
        &table,
        UpdateSchemaAction::new().add_column(
            AddColumn::builder()
                .parent("props")
                .name("version")
                .field_type(Type::Primitive(PrimitiveType::Int))
                .build(),
        ),
    );
    assert_eq!(map_schema.name_by_field_id(15), Some("props.value.version"));
}

#[test]
fn empty_update_skips_the_catalog_commit() {
    let table = make_v2_table();
    let mut direct_commit = UpdateSchemaAction::new().commit_to(&table).unwrap();
    assert!(direct_commit.take_updates().is_empty());
    assert!(direct_commit.take_requirements().is_empty());

    let (committed, changes) = run_in_turn(&table, &[UpdateSchemaAction::new()]);
    assert_eq!(changes, 0);
    assert_eq!(committed.metadata(), table.metadata());
}

#[test]
fn multiple_schema_actions_use_staged_metadata() {
    let table = make_v2_table();
    let (committed, _) = run_in_turn(
        &table,
        &[
            UpdateSchemaAction::new().add_column(AddColumn::optional(
                "first",
                Type::Primitive(PrimitiveType::Int),
            )),
            UpdateSchemaAction::new().add_column(AddColumn::optional(
                "second",
                Type::Primitive(PrimitiveType::String),
            )),
        ],
    );
    assert_eq!(
        committed.metadata().current_schema().field_by_name("first").unwrap().id,
        4
    );
    assert_eq!(
        committed.metadata().current_schema().field_by_name("second").unwrap().id,
        5
    );
}

// rename

#[test]
fn renames_root_and_nested_columns_using_original_paths() {
    let table = make_v2_table_with_nested();
    let original_z = table
        .metadata()
        .current_schema()
        .field_by_name("z")
        .unwrap();
    let schema = updated_schema(
        &table,
        UpdateSchemaAction::new()
            .rename_column("person", "profile")
            .rename_column("person.name", "full_name")
            .rename_column("z", "payload")
            .rename_column("z", "record"),
    );

    assert_eq!(schema.field_by_name("profile").unwrap().id, 4);
    assert_eq!(schema.field_by_name("profile.full_name").unwrap().id, 5);
    let record = schema.field_by_name("record").unwrap();
    let mut expected = (**original_z).clone();
    expected.name = "record".to_string();
    assert_eq!(record.as_ref(), &expected);
    assert!(schema.field_by_name("payload").is_none());
}

#[test]
fn rename_lookup_never_switches_to_pending_or_added_names() {
    let table = make_v2_table();

    let pending_name = commit_error(
        &table,
        UpdateSchemaAction::new()
            .rename_column("z", "payload")
            .rename_column("payload", "record"),
    );
    assert_eq!(
        pending_name.message(),
        "Cannot rename missing column: payload"
    );

    let added_name = commit_error(
        &table,
        UpdateSchemaAction::new()
            .add_column(AddColumn::optional(
                "later",
                Type::Primitive(PrimitiveType::String),
            ))
            .rename_column("later", "renamed"),
    );
    assert_eq!(added_name.message(), "Cannot rename missing column: later");

    let missing = commit_error(
        &table,
        UpdateSchemaAction::new()
            .rename_column("", "renamed"),
    );
    assert_eq!(missing.message(), "Invalid column name: (empty)");
}

#[test]
fn no_op_renames_still_mark_updates_for_conflict_checks() {
    let table = make_v2_table();

    let mut no_op = Arc::new(
        UpdateSchemaAction::new()
            .rename_column("z", "z"),
    )
    .commit_to(&table)
    .unwrap();
    assert!(no_op.take_updates().is_empty());
    assert!(no_op.take_requirements().is_empty());

    let rename_then_delete = commit_error(
        &table,
        UpdateSchemaAction::new()
            .rename_column("z", "z")
            .delete_column("z"),
    );
    assert!(
        rename_then_delete
            .message()
            .contains("column that has updates: z")
    );

    let nested = make_v2_table_with_nested();
    let delete_then_rename = commit_error(
        &nested,
        UpdateSchemaAction::new()
            .delete_column("person.name")
            .rename_column("person.name", "full_name"),
    );
    assert_eq!(
        delete_then_rename.message(),
        "Cannot rename a column that will be deleted: name"
    );
}

#[test]
fn rejects_sibling_name_collisions() {
    let table = make_v2_table_with_nested();
    for (name, new_name) in [("z", "y"), ("person.name", "age")] {
        let error = commit_error(
            &table,
            UpdateSchemaAction::new()
                .rename_column(name, new_name),
        );
        assert_eq!(error.kind(), ErrorKind::PreconditionFailed);
        assert_eq!(error.message(), "Cannot apply schema update");
    }
}

#[test]
fn accepts_empty_and_dotted_leaf_names() {
    let table = make_v2_table_with_nested();
    let empty = updated_schema(
        &table,
        UpdateSchemaAction::new()
            .rename_column("z", ""),
    );
    assert_eq!(empty.field_by_id(3).unwrap().name, "");

    let dotted = updated_schema(
        &table,
        UpdateSchemaAction::new()
            .rename_column("person.name", "full.name"),
    );
    assert_eq!(dotted.field_by_id(5).unwrap().name, "full.name");
}

#[test]
fn preserves_identifier_field_ids() {
    let table = make_v2_table();
    let schema = updated_schema(
        &table,
        UpdateSchemaAction::new()
            .rename_column("x", "identifier"),
    );

    assert_eq!(schema.field_by_name("identifier").unwrap().id, 1);
    assert_eq!(
        schema.identifier_field_ids().iter().copied().collect::<HashSet<_>>(),
        HashSet::from([1, 2])
    );
}

#[test]
fn rejects_map_key_renames() {
    let table = make_v2_table_with_nested();
    let direct = commit_error(
        &table,
        UpdateSchemaAction::new()
            .rename_column("props.key", "lookup"),
    );
    assert!(direct.message().contains("Cannot update map keys"));

    let no_op = commit_error(
        &table,
        UpdateSchemaAction::new()
            .rename_column("props.key", "key"),
    );
    assert!(no_op.message().contains("Cannot update map keys"));

    let struct_key_table = table_with_struct_map_key();
    let nested = commit_error(
        &struct_key_table,
        UpdateSchemaAction::new()
            .rename_column("indexed.key.part", "renamed"),
    );
    assert!(nested.message().contains("Cannot alter map keys"));
}

#[test]
fn swaps_sibling_names_while_preserving_field_ids() {
    let table = make_v2_table_with_nested();
    let schema = updated_schema(
        &table,
        UpdateSchemaAction::new()
            .rename_column("z", "person")
            .rename_column("person", "z"),
    );

    assert_eq!(schema.field_by_name("person").unwrap().id, 3);
    assert_eq!(schema.field_by_name("z").unwrap().id, 4);
}

#[test]
fn renames_under_deleted_ancestors_are_dropped() {
    let table = make_v2_table_with_nested();
    for action in [
        UpdateSchemaAction::new()
            .delete_column("person")
            .rename_column("person.name", "full_name"),
        UpdateSchemaAction::new()
            .rename_column("person.name", "full_name")
            .delete_column("person"),
    ] {
        let schema = updated_schema(&table, action);
        assert!(schema.field_by_name("person").is_none());
        assert!(schema.field_by_id(5).is_none());
    }
}

#[test]
fn collection_pseudo_field_renames_are_structural_no_ops() {
    let table = make_v2_table_with_nested();
    let mut commit = Arc::new(
        UpdateSchemaAction::new()
            .rename_column("tags.element", "item")
            .rename_column("props.value", "entry"),
    )
    .commit_to(&table)
    .unwrap();

    assert!(commit.take_updates().is_empty());
    assert!(commit.take_requirements().is_empty());
    assert_eq!(
        table
            .metadata()
            .current_schema()
            .field_by_name("tags.element")
            .unwrap()
            .name,
        "element"
    );
    assert_eq!(
        table
            .metadata()
            .current_schema()
            .field_by_name("props.value")
            .unwrap()
            .name,
        "value"
    );
}

#[test]
fn replays_rename_against_refreshed_metadata() {
    let table = make_v2_table();
    let action = Arc::new(
        UpdateSchemaAction::new()
            .rename_column("z", "payload"),
    );

    let mut initial_commit = action.clone().commit_to(&table).unwrap();
    let initial_schema = match initial_commit.take_updates().remove(0) {
        TableUpdate::AddSchema { schema } => schema,
        update => panic!("expected AddSchema, got {update:?}"),
    };
    assert_eq!(initial_schema.field_by_name("payload").unwrap().id, 3);

    let mut concurrent_fields = table
        .metadata()
        .current_schema()
        .as_struct()
        .fields()
        .to_vec();
    concurrent_fields.push(
        NestedField::optional(4, "concurrent", Type::Primitive(PrimitiveType::Boolean)).into(),
    );
    let concurrent_schema = Schema::builder()
        .fields_from(concurrent_fields)
        .ids_from(table.metadata().current_schema().identifier_field_ids().iter().copied())
        .build()
        .unwrap();
    let metadata = table.metadata().with_schema(concurrent_schema);
    let refreshed = table.with_metadata(metadata);

    let mut replayed = action.commit_to(&refreshed).unwrap();
    let schema = match replayed.take_updates().remove(0) {
        TableUpdate::AddSchema { schema } => schema,
        update => panic!("expected AddSchema, got {update:?}"),
    };
    assert_eq!(schema.field_by_name("payload").unwrap().id, 3);
    assert_eq!(schema.field_by_name("concurrent").unwrap().id, 4);
    assert_eq!(replayed.take_requirements(), vec![
        TableRequirement::UuidMatch {
            uuid: refreshed.metadata().uuid(),
        },
        TableRequirement::LastAssignedFieldIdMatch {
            last_assigned_field_id: 4,
        },
        TableRequirement::CurrentSchemaIdMatch {
            current_schema_id: refreshed.metadata().current_schema_id(),
        },
    ]);
}

// type promotion

fn table_with_fields(fields: impl IntoIterator<Item = NestedFieldRef>) -> Table {
    let schema = Schema::builder().fields_from(fields).build().unwrap();
    replace_current_schema(&make_v2_table_with_nested(), schema)
}

fn table_with_primitive(primitive: PrimitiveType) -> Table {
    table_with_fields([NestedField::optional(1, "value", Type::Primitive(primitive)).into()])
}

#[test]
fn allows_only_the_standard_primitive_promotions() {
    let primitives = [
        PrimitiveType::Boolean,
        PrimitiveType::Int,
        PrimitiveType::Long,
        PrimitiveType::Float,
        PrimitiveType::Double,
        PrimitiveType::Decimal {
            precision: 9,
            scale: 2,
        },
        PrimitiveType::Decimal {
            precision: 18,
            scale: 2,
        },
        PrimitiveType::Decimal {
            precision: 9,
            scale: 3,
        },
        PrimitiveType::Date,
        PrimitiveType::Time,
        PrimitiveType::Timestamp,
        PrimitiveType::Timestamptz,
        PrimitiveType::TimestampNs,
        PrimitiveType::TimestamptzNs,
        PrimitiveType::String,
        PrimitiveType::Uuid,
        PrimitiveType::Fixed(3),
        PrimitiveType::Fixed(4),
        PrimitiveType::Binary,
    ];

    for from in &primitives {
        let base_schema = Schema::builder()
            .fields_from([NestedField::optional(1, "value", Type::Primitive(from.clone())).into()])
            .build()
            .unwrap();
        for to in &primitives {
            let mut pending = PendingSchemaUpdate::new(&base_schema, 1);
            let result = pending.apply_operations(&[SchemaOperation::UpdateType {
                name: "value".to_string(),
                new_type: to.clone(),
            }]);
            let allowed = matches!(
                (from, to),
                (PrimitiveType::Int, PrimitiveType::Long)
                    | (PrimitiveType::Float, PrimitiveType::Double)
                    | (
                        PrimitiveType::Decimal {
                            precision: 9,
                            scale: 2,
                        },
                        PrimitiveType::Decimal {
                            precision: 18,
                            scale: 2,
                        },
                    )
            );

            if from == to {
                result
                    .unwrap_or_else(|error| panic!("exact update {from:?} -> {to:?} failed: {error:?}"));
                assert!(pending.updates().is_empty(), "{from:?} -> {to:?}");
            } else if allowed {
                result.unwrap_or_else(|error| {
                    panic!("allowed promotion {from:?} -> {to:?} failed: {error:?}")
                });
                let schema = pending.apply().unwrap();
                assert_eq!(
                    schema.field_by_name("value").unwrap().field_type.as_ref(),
                    &Type::Primitive(to.clone())
                );
            } else {
                let error = match result {
                    Err(error) => error,
                    Ok(()) => panic!("unexpectedly allowed {from:?} -> {to:?}"),
                };
                assert_eq!(error.kind(), ErrorKind::PreconditionFailed);
                assert_eq!(
                    error.message(),
                    format!(
                        "Cannot change column type: value: {} -> {}",
                        from.to_text(),
                        to.to_text()
                    )
                );
            }
        }
    }
}

#[test]
fn preserves_field_metadata_and_casts_both_defaults() {
    let base_schema = Schema::builder()
        .fields_from([
            NestedField::required(1, "count", Type::Primitive(PrimitiveType::Int))
                .with_doc("number of records")
                .with_initial_default(Literal::integer(34))
                .with_write_default(Literal::integer(35))
                .into(),
            NestedField::optional(2, "ratio", Type::Primitive(PrimitiveType::Float))
                .with_doc("ratio")
                .with_initial_default(float(1.25_f32))
                .with_write_default(float(2.5_f32))
                .into(),
            NestedField::required(
                3,
                "amount",
                Type::Primitive(PrimitiveType::Decimal {
                    precision: 9,
                    scale: 2,
                }),
            )
            .with_doc("amount")
            .with_initial_default(Literal::decimal(1234))
            .with_write_default(Literal::decimal(5678))
            .into(),
        ])
        .build()
        .unwrap();
    let mut pending = PendingSchemaUpdate::new(&base_schema, 3);
    pending
        .apply_operations(&[
            SchemaOperation::UpdateType {
                name: "count".to_string(),
                new_type: PrimitiveType::Long,
            },
            SchemaOperation::UpdateType {
                name: "ratio".to_string(),
                new_type: PrimitiveType::Double,
            },
            SchemaOperation::UpdateType {
                name: "amount".to_string(),
                new_type: PrimitiveType::Decimal {
                    precision: 18,
                    scale: 2,
                },
            },
        ])
        .unwrap();
    let schema = pending.apply().unwrap();

    let count = schema.field_by_name("count").unwrap();
    assert_eq!(count.id, 1);
    assert!(count.required);
    assert_eq!(count.doc.as_deref(), Some("number of records"));
    assert_eq!(count.initial_default, Some(Literal::long(34)));
    assert_eq!(count.write_default, Some(Literal::long(35)));

    let ratio = schema.field_by_name("ratio").unwrap();
    assert_eq!(ratio.id, 2);
    assert!(!ratio.required);
    assert_eq!(ratio.doc.as_deref(), Some("ratio"));
    assert_eq!(ratio.initial_default, Some(double(1.25_f64)));
    assert_eq!(ratio.write_default, Some(double(2.5_f64)));

    let amount = schema.field_by_name("amount").unwrap();
    assert_eq!(amount.id, 3);
    assert!(amount.required);
    assert_eq!(amount.doc.as_deref(), Some("amount"));
    assert_eq!(amount.initial_default, Some(Literal::decimal(1234)));
    assert_eq!(amount.write_default, Some(Literal::decimal(5678)));
}

#[test]
fn updates_nested_and_renamed_fields_by_original_path() {
    let table = make_v2_table_with_nested();
    let schema = updated_schema(
        &table,
        UpdateSchemaAction::new()
            .rename_column("person.age", "years")
            .update_column_type("person.age", PrimitiveType::Long),
    );

    let years = schema.field_by_name("person.years").unwrap();
    assert_eq!(years.id, 6);
    assert!(years.required);
    assert_eq!(
        years.field_type.as_ref(),
        &Type::Primitive(PrimitiveType::Long)
    );
}

#[test]
fn updates_list_elements_and_map_values() {
    let table = table_with_fields([
        NestedField::optional(
            1,
            "numbers",
            Type::List(ListType {
                element_field: NestedField::list_element(
                    2,
                    Type::Primitive(PrimitiveType::Int),
                    true,
                )
                .into(),
            }),
        )
        .into(),
        NestedField::optional(
            3,
            "lookup",
            Type::MapOf(MapType {
                key_field: NestedField::map_key_element(4, Type::Primitive(PrimitiveType::String))
                    .into(),
                value_field: NestedField::map_value_element(
                    5,
                    Type::Primitive(PrimitiveType::Float),
                    false,
                )
                .into(),
            }),
        )
        .into(),
    ]);

    let schema = updated_schema(
        &table,
        UpdateSchemaAction::new()
            .update_column_type("numbers.element", PrimitiveType::Long)
            .update_column_type("lookup.value", PrimitiveType::Double),
    );

    let element = schema.field_by_name("numbers.element").unwrap();
    assert_eq!(element.id, 2);
    assert!(element.required);
    assert_eq!(
        element.field_type.as_ref(),
        &Type::Primitive(PrimitiveType::Long)
    );
    let value = schema.field_by_name("lookup.value").unwrap();
    assert_eq!(value.id, 5);
    assert!(!value.required);
    assert_eq!(
        value.field_type.as_ref(),
        &Type::Primitive(PrimitiveType::Double)
    );
}

#[test]
fn rejects_map_key_updates_during_structural_rebuild() {
    let table = table_with_fields([NestedField::optional(
        1,
        "lookup",
        Type::MapOf(MapType {
            key_field: NestedField::map_key_element(2, Type::Primitive(PrimitiveType::Int)).into(),
            value_field: NestedField::map_value_element(
                3,
                Type::Primitive(PrimitiveType::String),
                false,
            )
            .into(),
        }),
    )
    .into()]);

    let error = commit_error(
        &table,
        UpdateSchemaAction::new()
            .update_column_type("lookup.key", PrimitiveType::Long),
    );
    assert_eq!(error.kind(), ErrorKind::PreconditionFailed);
    assert_eq!(error.message(), "Cannot update map keys: lookup");

    let mut no_op = Arc::new(
        UpdateSchemaAction::new()
            .update_column_type("lookup.key", PrimitiveType::Int),
    )
    .commit_to(&table)
    .unwrap();
    assert!(no_op.take_updates().is_empty());
    assert!(no_op.take_requirements().is_empty());

    let struct_key_table = table_with_struct_map_key();
    let nested = commit_error(
        &struct_key_table,
        UpdateSchemaAction::new()
            .update_column_type("indexed.key.part", PrimitiveType::Long),
    );
    assert_eq!(nested.kind(), ErrorKind::PreconditionFailed);
    assert_eq!(nested.message(), "Cannot alter map keys: indexed");
}

#[test]
fn updates_root_and_nested_pending_additions() {
    let table = make_v2_table_with_nested();
    let schema = updated_schema(
        &table,
        UpdateSchemaAction::new()
            .add_column(AddColumn::required(
                "count",
                Type::Primitive(PrimitiveType::Int),
                Literal::integer(7),
            ))
            .update_column_type("count", PrimitiveType::Long)
            .add_column(
                AddColumn::builder()
                    .parent("person")
                    .name("score")
                    .field_type(Type::Primitive(PrimitiveType::Float))
                    .build(),
            )
            .update_column_type("person.score", PrimitiveType::Double),
    );

    let count = schema.field_by_name("count").unwrap();
    assert_eq!(
        count.field_type.as_ref(),
        &Type::Primitive(PrimitiveType::Long)
    );
    assert_eq!(count.initial_default, Some(Literal::long(7)));
    assert_eq!(count.write_default, Some(Literal::long(7)));
    let score = schema.field_by_name("person.score").unwrap();
    assert_eq!(
        score.field_type.as_ref(),
        &Type::Primitive(PrimitiveType::Double)
    );
}

#[test]
fn resolves_pending_additions_using_the_mode_at_add_and_lookup_time() {
    let table = make_v2_table();
    let insensitive = updated_schema(
        &table,
        UpdateSchemaAction::new()
            .case_sensitive(false)
            .add_column(AddColumn::optional(
                "MixedCase",
                Type::Primitive(PrimitiveType::Int),
            ))
            .update_column_type("MIXEDCASE", PrimitiveType::Long),
    );
    assert_eq!(
        insensitive
            .field_by_name("MixedCase")
            .unwrap()
            .field_type
            .as_ref(),
        &Type::Primitive(PrimitiveType::Long)
    );

    let normalized_key = updated_schema(
        &table,
        UpdateSchemaAction::new()
            .case_sensitive(false)
            .add_column(AddColumn::optional(
                "MixedCase",
                Type::Primitive(PrimitiveType::Int),
            ))
            .case_sensitive(true)
            .update_column_type("mixedcase", PrimitiveType::Long),
    );
    assert_eq!(
        normalized_key
            .field_by_name("MixedCase")
            .unwrap()
            .field_type
            .as_ref(),
        &Type::Primitive(PrimitiveType::Long)
    );

    let changed_mode = commit_error(
        &table,
        UpdateSchemaAction::new()
            .add_column(AddColumn::optional(
                "MixedCase",
                Type::Primitive(PrimitiveType::Int),
            ))
            .case_sensitive(false)
            .update_column_type("MIXEDCASE", PrimitiveType::Long),
    );
    assert_eq!(
        changed_mode.message(),
        "Cannot update missing column: MIXEDCASE"
    );
}

#[test]
fn base_fields_take_precedence_over_same_named_additions() {
    let table = make_v2_table();
    let error = commit_error(
        &table,
        UpdateSchemaAction::new()
            .delete_column("z")
            .add_column(AddColumn::optional(
                "z",
                Type::Primitive(PrimitiveType::Int),
            ))
            .update_column_type("z", PrimitiveType::Long),
    );

    assert_eq!(
        error.message(),
        "Cannot update a column that will be deleted: z"
    );
}

#[test]
fn duplicate_pending_additions_are_validated_only_in_the_final_schema() {
    let table = make_v2_table();
    let error = commit_error(
        &table,
        UpdateSchemaAction::new()
            .add_column(AddColumn::optional(
                "duplicate",
                Type::Primitive(PrimitiveType::Int),
            ))
            .add_column(AddColumn::optional(
                "duplicate",
                Type::Primitive(PrimitiveType::Int),
            ))
            .update_column_type("duplicate", PrimitiveType::Long),
    );

    assert_eq!(error.kind(), ErrorKind::PreconditionFailed);
    assert_eq!(error.message(), "Cannot apply schema update");
}

#[test]
fn checks_deletion_conflicts_before_exact_no_ops() {
    let table = make_v2_table_with_nested();

    let schema = updated_schema(
        &table,
        UpdateSchemaAction::new()
            .update_column_type("z", PrimitiveType::Long)
            .delete_column("z"),
    );
    assert!(schema.field_by_name("z").is_none());

    let delete_then_no_op = commit_error(
        &table,
        UpdateSchemaAction::new()
            .delete_column("z")
            .update_column_type("z", PrimitiveType::Long),
    );
    assert_eq!(
        delete_then_no_op.message(),
        "Cannot update a column that will be deleted: z"
    );

    let update_then_delete = commit_error(
        &table,
        UpdateSchemaAction::new()
            .update_column_type("person.age", PrimitiveType::Long)
            .delete_column("person.age"),
    );
    assert_eq!(
        update_then_delete.message(),
        "Cannot delete a column that has updates: person.age"
    );
}

#[test]
fn rejects_missing_and_non_primitive_targets() {
    let table = make_v2_table_with_nested();
    let missing = commit_error(
        &table,
        UpdateSchemaAction::new()
            .update_column_type("missing", PrimitiveType::Long),
    );
    assert_eq!(missing.message(), "Cannot update missing column: missing");

    let nested = commit_error(
        &table,
        UpdateSchemaAction::new()
            .update_column_type("person", PrimitiveType::Long),
    );
    assert_eq!(nested.kind(), ErrorKind::PreconditionFailed);
    assert!(
        nested
            .message()
            .starts_with("Cannot change column type: person: struct<")
    );
}

#[test]
fn rejects_invalid_decimal_target_precision_without_defaults() {
    let table = table_with_primitive(PrimitiveType::Decimal {
        precision: 9,
        scale: 2,
    });
    let error = commit_error(
        &table,
        UpdateSchemaAction::new().update_column_type(
            "value",
            PrimitiveType::Decimal {
                precision: 39,
                scale: 2,
            },
        ),
    );

    assert_eq!(error.kind(), ErrorKind::PreconditionFailed);
    assert_eq!(
        error.message(),
        "Cannot change column type: value: decimal(9, 2) -> decimal(39, 2)"
    );
}

#[test]
fn applies_case_sensitivity_in_operation_order() {
    let table = make_v2_table_with_nested();
    let schema = updated_schema(
        &table,
        UpdateSchemaAction::new()
            .case_sensitive(false)
            .update_column_type("PERSON.AGE", PrimitiveType::Long),
    );
    assert_eq!(
        schema
            .field_by_name("person.age")
            .unwrap()
            .field_type
            .as_ref(),
        &Type::Primitive(PrimitiveType::Long)
    );

    let sensitive = commit_error(
        &table,
        UpdateSchemaAction::new()
            .case_sensitive(false)
            .case_sensitive(true)
            .update_column_type("PERSON.AGE", PrimitiveType::Long),
    );
    assert_eq!(
        sensitive.message(),
        "Cannot update missing column: PERSON.AGE"
    );
}

#[test]
fn case_insensitive_lookup_rejects_unrelated_ambiguity() {
    let table = table_with_fields([
        NestedField::optional(1, "target", Type::Primitive(PrimitiveType::Int)).into(),
        NestedField::optional(2, "Foo", Type::Primitive(PrimitiveType::String)).into(),
        NestedField::optional(3, "foo", Type::Primitive(PrimitiveType::String)).into(),
    ]);

    let error = commit_error(
        &table,
        UpdateSchemaAction::new()
            .case_sensitive(false)
            .update_column_type("TARGET", PrimitiveType::Long),
    );
    assert_eq!(error.kind(), ErrorKind::PreconditionFailed);
    assert!(error.message().contains("multiple fields match: foo"));
}

#[test]
fn replays_type_updates_against_refreshed_metadata() {
    let table = table_with_primitive(PrimitiveType::Int);
    let action = Arc::new(
        UpdateSchemaAction::new()
            .update_column_type("value", PrimitiveType::Long),
    );

    let mut first = action.clone().commit_to(&table).unwrap();
    let first_schema = match first.take_updates().remove(0) {
        TableUpdate::AddSchema { schema } => schema,
        update => panic!("expected AddSchema, got {update:?}"),
    };
    assert_eq!(
        first_schema
            .field_by_name("value")
            .unwrap()
            .field_type
            .as_ref(),
        &Type::Primitive(PrimitiveType::Long)
    );

    let refreshed = replace_current_schema(
        &table,
        Schema::builder()
            .fields_from([
                NestedField::optional(1, "value", Type::Primitive(PrimitiveType::Int)).into(),
                NestedField::optional(2, "concurrent", Type::Primitive(PrimitiveType::Boolean))
                    .into(),
            ])
            .build()
            .unwrap(),
    );
    let mut replayed = action.clone().commit_to(&refreshed).unwrap();
    let replayed_schema = match replayed.take_updates().remove(0) {
        TableUpdate::AddSchema { schema } => schema,
        update => panic!("expected AddSchema, got {update:?}"),
    };
    assert_eq!(
        replayed_schema
            .field_by_name("value")
            .unwrap()
            .field_type
            .as_ref(),
        &Type::Primitive(PrimitiveType::Long)
    );
    assert!(replayed_schema.field_by_name("concurrent").is_some());

    let incompatible = table_with_primitive(PrimitiveType::Float);
    let error = match action.clone().commit_to(&incompatible) {
        Err(error) => error,
        Ok(_) => panic!("replayed promotion should use the refreshed source type"),
    };
    assert_eq!(
        error.message(),
        "Cannot change column type: value: float -> long"
    );

    let already_promoted = table_with_primitive(PrimitiveType::Long);
    let mut no_op = action.commit_to(&already_promoted).unwrap();
    assert!(no_op.take_updates().is_empty());
    assert!(no_op.take_requirements().is_empty());
}

#[test]
fn exact_type_update_alone_is_a_no_op() {
    let table = make_v2_table();
    let mut commit = Arc::new(
        UpdateSchemaAction::new()
            .update_column_type("z", PrimitiveType::Long),
    )
    .commit_to(&table)
    .unwrap();

    assert!(commit.take_updates().is_empty());
    assert!(commit.take_requirements().is_empty());
}

// union by name

fn schema(fields: impl IntoIterator<Item = NestedFieldRef>) -> Schema {
    Schema::builder().fields_from(fields).build().unwrap()
}

fn union_by_name_table_with_schema(schema: Schema) -> Table {
    replace_current_schema(&make_v2_table_with_nested(), schema)
}

fn table_with_v3_schema(schema: Schema) -> Table {
    replace_current_schema(&make_v2_table_with_nested(), schema)
}

#[test]
fn assigns_fresh_ids_in_java_postorder_and_adds_dotted_root_names() {
    let table = make_v2_table_with_nested();
    let incoming = schema([
        NestedField::required(100, "new_root", Type::Primitive(PrimitiveType::String)).into(),
        NestedField::optional(101, "literal.dot", Type::Primitive(PrimitiveType::Boolean)).into(),
        NestedField::optional(
            102,
            "person",
            Type::Struct(StructType::new(vec![
                NestedField::optional(103, "name", Type::Primitive(PrimitiveType::String)).into(),
                NestedField::required(104, "age", Type::Primitive(PrimitiveType::Int)).into(),
                NestedField::required(105, "country", Type::Primitive(PrimitiveType::String))
                    .into(),
            ])),
        )
        .into(),
    ]);

    let result = updated_schema(&table, update(&table).union_by_name(incoming));
    let country = result.field_by_name("person.country").unwrap();
    let new_root = result.field_by_name("new_root").unwrap();
    assert_eq!(country.id, 15);
    assert_eq!(new_root.id, 16);
    assert!(!country.required);
    assert!(!new_root.required);
    let dotted = result.field_by_id(17).unwrap();
    assert_eq!(dotted.name, "literal.dot");
}

#[test]
fn reconciles_fields_inside_lists_and_map_values_but_rejects_map_key_changes() {
    let table = make_v2_table_with_nested();
    let incoming = schema([
        NestedField::optional(
            100,
            "tags",
            Type::List(ListType {
                element_field: NestedField::list_element(
                    101,
                    Type::Struct(StructType::new(vec![
                        NestedField::optional(102, "key", Type::Primitive(PrimitiveType::String))
                            .into(),
                        NestedField::optional(103, "value", Type::Primitive(PrimitiveType::String))
                            .into(),
                        NestedField::required(104, "extra", Type::Primitive(PrimitiveType::Int))
                            .into(),
                    ])),
                    false,
                )
                .into(),
            }),
        )
        .into(),
        NestedField::optional(
            105,
            "props",
            Type::MapOf(MapType {
                key_field: NestedField::map_key_element(
                    106,
                    Type::Primitive(PrimitiveType::String),
                )
                .into(),
                value_field: NestedField::map_value_element(
                    107,
                    Type::Struct(StructType::new(vec![
                        NestedField::optional(108, "data", Type::Primitive(PrimitiveType::String))
                            .into(),
                        NestedField::optional(109, "extra", Type::Primitive(PrimitiveType::Long))
                            .into(),
                    ])),
                    false,
                )
                .into(),
            }),
        )
        .into(),
    ]);

    let result = updated_schema(&table, update(&table).union_by_name(incoming));
    assert_eq!(result.field_by_name("tags.element.extra").unwrap().id, 15);
    assert_eq!(result.field_by_name("props.value.extra").unwrap().id, 16);
    assert!(!result.field_by_name("tags.element").unwrap().required);
    assert!(!result.field_by_name("props.value").unwrap().required);

    let invalid_key = schema([NestedField::optional(
        200,
        "props",
        Type::MapOf(MapType {
            key_field: NestedField::map_key_element(201, Type::Primitive(PrimitiveType::Uuid))
                .into(),
            value_field: NestedField::map_value_element(
                202,
                Type::Struct(StructType::new(vec![
                    NestedField::optional(203, "data", Type::Primitive(PrimitiveType::String))
                        .into(),
                ])),
                false,
            )
            .into(),
        }),
    )
    .into()]);
    let error = commit_error(&table, update(&table).union_by_name(invalid_key));
    assert_eq!(error.kind(), ErrorKind::PreconditionFailed);
    assert!(error.message().contains("props.key: string -> uuid"));
}

#[test]
fn promotes_wider_types_ignores_narrower_types_and_checks_categories() {
    let base = schema([
        NestedField::required(1, "count", Type::Primitive(PrimitiveType::Int)).into(),
        NestedField::required(2, "ratio", Type::Primitive(PrimitiveType::Double)).into(),
        NestedField::required(
            3,
            "amount",
            Type::Primitive(PrimitiveType::Decimal {
                precision: 20,
                scale: 2,
            }),
        )
        .into(),
        NestedField::optional(
            4,
            "complex",
            Type::Struct(StructType::new(vec![
                NestedField::optional(5, "value", Type::Primitive(PrimitiveType::String)).into(),
            ])),
        )
        .into(),
        NestedField::optional(6, "variant", Type::Variant(VariantType)).into(),
    ]);
    let table = table_with_v3_schema(base);
    let incoming = schema([
        NestedField::required(101, "count", Type::Primitive(PrimitiveType::Long)).into(),
        NestedField::required(102, "ratio", Type::Primitive(PrimitiveType::Float)).into(),
        NestedField::required(
            103,
            "amount",
            Type::Primitive(PrimitiveType::Decimal {
                precision: 22,
                scale: 2,
            }),
        )
        .into(),
        NestedField::optional(104, "complex", Type::Variant(VariantType)).into(),
        NestedField::optional(105, "variant", Type::Variant(VariantType)).into(),
    ]);

    let result = updated_schema(&table, update(&table).union_by_name(incoming));
    assert_eq!(
        result.field_by_name("count").unwrap().field_type.as_ref(),
        &Type::Primitive(PrimitiveType::Long)
    );
    assert_eq!(
        result.field_by_name("ratio").unwrap().field_type.as_ref(),
        &Type::Primitive(PrimitiveType::Double)
    );
    assert_eq!(
        result.field_by_name("amount").unwrap().field_type.as_ref(),
        &Type::Primitive(PrimitiveType::Decimal {
            precision: 22,
            scale: 2,
        })
    );
    assert!(
        result
            .field_by_name("complex")
            .unwrap()
            .field_type
            .is_struct()
    );

    let incompatible =
        schema([
            NestedField::required(200, "count", Type::Primitive(PrimitiveType::String)).into(),
        ]);
    let error = commit_error(&table, update(&table).union_by_name(incompatible));
    assert!(error.message().contains("Cannot change column type"));
}

#[test]
fn applies_metadata_after_type_promotion_and_never_clears_existing_metadata() {
    let base = schema([
        NestedField::required(1, "metric", Type::Primitive(PrimitiveType::Int))
            .with_doc("old")
            .with_initial_default(Literal::integer(1))
            .with_write_default(Literal::integer(2))
            .into(),
        NestedField::optional(2, "keep", Type::Primitive(PrimitiveType::String))
            .with_doc("keep")
            .with_write_default(Literal::string("old"))
            .into(),
    ]);
    let table = table_with_v3_schema(base);
    let incoming = schema([
        NestedField::optional(101, "metric", Type::Primitive(PrimitiveType::Long))
            .with_doc("new")
            .with_initial_default(Literal::long(9))
            .with_write_default(Literal::integer(7))
            .into(),
        NestedField::required(102, "keep", Type::Primitive(PrimitiveType::String)).into(),
        NestedField::required(103, "added", Type::Primitive(PrimitiveType::String))
            .with_doc("added")
            .with_initial_default(Literal::string("initial"))
            .with_write_default(Literal::string("write"))
            .into(),
        NestedField::required(
            104,
            "container",
            Type::Struct(StructType::new(vec![
                NestedField::required(105, "child", Type::Primitive(PrimitiveType::Int)).into(),
            ])),
        )
        .into(),
    ]);

    let result = updated_schema(&table, update(&table).union_by_name(incoming));
    let metric = result.field_by_name("metric").unwrap();
    assert!(!metric.required);
    assert_eq!(metric.doc.as_deref(), Some("new"));
    assert_eq!(metric.initial_default, Some(Literal::long(1)));
    assert_eq!(metric.write_default, Some(Literal::long(7)));

    let keep = result.field_by_name("keep").unwrap();
    assert!(!keep.required);
    assert_eq!(keep.doc.as_deref(), Some("keep"));
    assert_eq!(keep.write_default, Some(Literal::string("old")));

    let added = result.field_by_name("added").unwrap();
    assert!(!added.required);
    assert_eq!(added.initial_default, Some(Literal::string("initial")));
    assert_eq!(added.write_default, Some(Literal::string("write")));
    assert!(!result.field_by_name("container").unwrap().required);
    assert!(result.field_by_name("container.child").unwrap().required);
}

#[test]
fn captures_case_mode_and_rejects_incoming_case_collisions() {
    let table = union_by_name_table_with_schema(schema([NestedField::required(
        1,
        "Name",
        Type::Primitive(PrimitiveType::Int),
    )
    .into()]));
    let incoming = || {
        schema([NestedField::required(100, "name", Type::Primitive(PrimitiveType::Long)).into()])
    };

    let sensitive = updated_schema(&table, update(&table).union_by_name(incoming()));
    assert!(sensitive.field_by_name("Name").is_some());
    assert!(sensitive.field_by_name("name").is_some());

    let insensitive = updated_schema(
        &table,
        update(&table)
            .case_sensitive(false)
            .union_by_name(incoming())
            .case_sensitive(true),
    );
    assert!(insensitive.field_by_name("name").is_none());
    assert_eq!(
        insensitive
            .field_by_name("Name")
            .unwrap()
            .field_type
            .as_ref(),
        &Type::Primitive(PrimitiveType::Long)
    );

    let collision = schema([
        NestedField::optional(200, "Foo", Type::Primitive(PrimitiveType::String)).into(),
        NestedField::optional(201, "foo", Type::Primitive(PrimitiveType::String)).into(),
    ]);
    let error = commit_error(
        &table,
        update(&table)
            .case_sensitive(false)
            .union_by_name(collision),
    );
    assert!(error.message().contains("multiple fields match: foo"));

    let ambiguous_base = union_by_name_table_with_schema(schema([
        NestedField::optional(300, "Foo", Type::Primitive(PrimitiveType::String)).into(),
        NestedField::optional(301, "foo", Type::Primitive(PrimitiveType::String)).into(),
    ]));
    let error = commit_error(
        &ambiguous_base,
        update(&ambiguous_base)
            .case_sensitive(false)
            .union_by_name(Schema::builder().build().unwrap())
            .case_sensitive(true),
    );
    assert!(error.message().contains("multiple fields match: foo"));
}

#[test]
fn preserves_or_validates_identifier_fields_from_the_existing_schema_only() {
    let table = make_v2_table_with_nested();
    let incoming = Schema::builder()
        .fields_from([
            NestedField::optional(101, "x", Type::Primitive(PrimitiveType::Long)).into(),
            NestedField::required(102, "y", Type::Primitive(PrimitiveType::Long)).into(),
            NestedField::required(103, "z", Type::Primitive(PrimitiveType::Long)).into(),
        ])
        .ids_from([103])
        .build()
        .unwrap();

    let error = commit_error(&table, update(&table).union_by_name(incoming.clone()));
    assert_eq!(error.message(), "Cannot apply schema update");

    let result = updated_schema(
        &table,
        update(&table)
            .identify(["y"])
            .union_by_name(incoming),
    );
    assert!(!result.field_by_name("x").unwrap().required);
    assert_eq!(
        result.identifier_field_ids().iter().copied().collect::<HashSet<_>>(),
        HashSet::from([2])
    );
}

#[test]
fn no_ops_skip_commits_and_retry_replays_fresh_ids() {
    let table = make_v2_table_with_nested();
    let narrower_reordered = schema([
        NestedField::required(100, "z", Type::Primitive(PrimitiveType::Int)).into(),
        NestedField::required(101, "x", Type::Primitive(PrimitiveType::Long)).into(),
    ]);
    assert_no_op(
        &table,
        Arc::new(update(&table).union_by_name(narrower_reordered)),
    );
    assert_no_op(
        &table,
        Arc::new(update(&table).union_by_name(Schema::builder().build().unwrap())),
    );

    let incoming =
        schema([
            NestedField::optional(200, "added", Type::Primitive(PrimitiveType::String)).into(),
        ]);
    let action = Arc::new(update(&table).union_by_name(incoming));
    let mut first = action.clone().commit_to(&table).unwrap();
    let first = match first.take_updates().remove(0) {
        TableUpdate::AddSchema { schema } => schema,
        update => panic!("expected AddSchema, got {update:?}"),
    };
    assert_eq!(first.field_by_name("added").unwrap().id, 15);

    let mut fields = table
        .metadata()
        .current_schema()
        .as_struct()
        .fields()
        .to_vec();
    fields.push(
        NestedField::optional(15, "concurrent", Type::Primitive(PrimitiveType::Boolean)).into(),
    );
    let concurrent = Schema::builder()
        .fields_from(fields)
        .ids_from(table.metadata().current_schema().identifier_field_ids().iter().copied())
        .build()
        .unwrap();
    let refreshed = replace_current_schema(&table, concurrent);
    let mut replayed = action.commit_to(&refreshed).unwrap();
    let replayed = match replayed.take_updates().remove(0) {
        TableUpdate::AddSchema { schema } => schema,
        update => panic!("expected AddSchema, got {update:?}"),
    };
    assert!(replayed.field_by_name("concurrent").is_some());
    assert_eq!(replayed.field_by_name("added").unwrap().id, 16);
}

// write defaults

fn committed_schema(table: &Table, action: UpdateSchemaAction) -> Schema {
    let mut commit = action.commit_to(table).unwrap();
    let updates = commit.take_updates();
    assert_eq!(updates.len(), 2);
    assert!(matches!(updates[1], TableUpdate::SetCurrentSchema { .. }));

    let requirements = commit.take_requirements();
    assert_eq!(requirements.len(), 3);
    assert!(matches!(requirements[0], TableRequirement::UuidMatch { .. }));
    assert!(matches!(requirements[1], TableRequirement::LastAssignedFieldIdMatch { .. }));
    assert!(matches!(requirements[2], TableRequirement::CurrentSchemaIdMatch { .. }));

    match updates.into_iter().next().unwrap() {
        TableUpdate::AddSchema { schema } => schema,
        update => panic!("expected AddSchema, got {update:?}"),
    }
}

fn defaulted_table() -> Table {
    let table = make_v2_table_with_nested();
    let mut fields = table
        .metadata()
        .current_schema()
        .as_struct()
        .fields()
        .to_vec();
    let mut field = (*fields[2]).clone();
    field.doc = Some("description".to_string());
    field.initial_default = Some(Literal::long(34));
    field.write_default = Some(Literal::long(35));
    fields[2] = Arc::new(field);
    let schema = Schema::builder()
        .fields_from(fields)
        .ids_from(table.metadata().current_schema().identifier_field_ids().iter().copied())
        .build()
        .unwrap();
    let metadata = table.metadata().with_schema(schema);
    table.with_metadata(metadata)
}

#[test]
fn sets_replaces_and_clears_only_the_write_default() {
    let table = defaulted_table();
    let original = table
        .metadata()
        .current_schema()
        .field_by_name("z")
        .unwrap();

    let replaced = committed_schema(
        &table,
        update(&table).update_column_default("z", Some(Literal::integer(123))),
    );
    let mut expected = (**original).clone();
    expected.write_default = Some(Literal::long(123));
    assert_eq!(replaced.field_by_name("z").unwrap().as_ref(), &expected);

    let cleared = committed_schema(&table, update(&table).update_column_default("z", None));
    let cleared = cleared.field_by_name("z").unwrap();
    assert_eq!(cleared.initial_default, Some(Literal::long(34)));
    assert_eq!(cleared.write_default, None);
    assert_eq!(cleared.doc.as_deref(), Some("description"));
}

#[test]
fn updates_pending_additions_and_nested_columns_in_operation_order() {
    let table = make_v2_table_with_nested();
    let schema = committed_schema(
        &table,
        update(&table)
            .case_sensitive(false)
            .add_column(AddColumn::optional(
                "Added",
                Type::Primitive(PrimitiveType::Int),
            ))
            .update_column_default("ADDED", Some(Literal::long(7)))
            .rename_column("PERSON.AGE", "years")
            .update_column_type("PERSON.AGE", PrimitiveType::Long)
            .update_column_default("PERSON.AGE", Some(Literal::integer(18))),
    );

    let added = schema.field_by_name("Added").unwrap();
    assert_eq!(added.initial_default, None);
    assert_eq!(added.write_default, Some(Literal::integer(7)));
    assert!(schema.field_by_name("person.age").is_none());
    let years = schema.field_by_name("person.years").unwrap();
    assert_eq!(
        years.field_type.as_ref(),
        &Type::Primitive(PrimitiveType::Long)
    );
    assert_eq!(years.write_default, Some(Literal::long(18)));
}

#[test]
fn validates_targets_and_preserves_java_no_op_ordering() {
    let table = make_v2_table_with_nested();
    let missing = commit_error(
        &table,
        update(&table).update_column_default("missing", None),
    );
    assert_eq!(missing.message(), "Cannot update missing column: missing");

    let deleted = commit_error(
        &table,
        update(&table)
            .delete_column("z")
            .update_column_default("z", Some(Literal::long(1))),
    );
    assert_eq!(
        deleted.message(),
        "Cannot update a column that will be deleted: z"
    );

    // A null update is recorded even when the current default is already null.
    let cleared_then_deleted = commit_error(
        &table,
        update(&table)
            .update_column_default("z", None)
            .delete_column("z"),
    );
    assert_eq!(
        cleared_then_deleted.message(),
        "Cannot delete a column that has updates: z"
    );

    let with_default = defaulted_table();
    let same_default =
        Arc::new(update(&with_default).update_column_default("z", Some(Literal::integer(35))));
    assert_no_op(&with_default, same_default);

    let deleted = committed_schema(
        &with_default,
        update(&with_default)
            .update_column_default("z", Some(Literal::integer(35)))
            .delete_column("z"),
    );
    assert!(deleted.field_by_name("z").is_none());
}

#[test]
fn rejects_incompatible_and_map_key_defaults() {
    let table = make_v2_table_with_nested();
    let incompatible = commit_error(
        &table,
        update(&table).update_column_default("person.age", Some(Literal::string("unknown"))),
    );
    assert_eq!(incompatible.kind(), ErrorKind::PreconditionFailed);
    assert_eq!(
        incompatible.message(),
        "Invalid default for column person.age: default is incompatible with int"
    );

    let nested = commit_error(
        &table,
        update(&table).update_column_default("person", Some(Literal::integer(1))),
    );
    assert!(
        nested
            .message()
            .starts_with("Invalid default for column person:")
    );

    let map_key = commit_error(
        &table,
        update(&table).update_column_default("props.key", None),
    );
    assert_eq!(map_key.message(), "Cannot update map keys: props");
}

#[test]
fn commits_signed_zero_default_changes() {
    let table = make_v2_table_with_nested();
    let mut fields = table
        .metadata()
        .current_schema()
        .as_struct()
        .fields()
        .to_vec();
    fields.extend([
        NestedField::optional(15, "float_zero", Type::Primitive(PrimitiveType::Float))
            .with_write_default(float(-0.0))
            .into(),
        NestedField::optional(16, "double_zero", Type::Primitive(PrimitiveType::Double))
            .with_write_default(double(-0.0))
            .into(),
    ]);
    let schema = Schema::builder()
        .fields_from(fields)
        .ids_from(table.metadata().current_schema().identifier_field_ids().iter().copied())
        .build()
        .unwrap();
    let table = replace_current_schema(&table, schema);

    let schema = committed_schema(
        &table,
        update(&table)
            .update_column_default("float_zero", Some(float(0.0)))
            .update_column_default("double_zero", Some(double(0.0))),
    );

    let Some(Literal::Primitive(PrimitiveLiteral::Float(value))) =
        &schema.field_by_name("float_zero").unwrap().write_default
    else {
        panic!("expected float default");
    };
    assert_eq!(*value, 0.0_f32.to_bits());

    let Some(Literal::Primitive(PrimitiveLiteral::Double(value))) =
        &schema.field_by_name("double_zero").unwrap().write_default
    else {
        panic!("expected double default");
    };
    assert_eq!(*value, 0.0_f64.to_bits());
}

#[test]
fn replays_against_refreshed_metadata_and_detects_an_applied_update() {
    let table = make_v2_table_with_nested();
    let action =
        Arc::new(update(&table).update_column_default("person.age", Some(Literal::integer(18))));
    let mut first = action.clone().commit_to(&table).unwrap();
    let first = match first.take_updates().remove(0) {
        TableUpdate::AddSchema { schema } => schema,
        update => panic!("expected AddSchema, got {update:?}"),
    };

    let mut concurrent_fields = table
        .metadata()
        .current_schema()
        .as_struct()
        .fields()
        .to_vec();
    concurrent_fields.push(
        NestedField::optional(15, "concurrent", Type::Primitive(PrimitiveType::Boolean)).into(),
    );
    let concurrent = Schema::builder()
        .fields_from(concurrent_fields)
        .ids_from(table.metadata().current_schema().identifier_field_ids().iter().copied())
        .build()
        .unwrap();
    let refreshed = replace_current_schema(&table, concurrent);

    let mut replayed = action.clone().commit_to(&refreshed).unwrap();
    let replayed = match replayed.take_updates().remove(0) {
        TableUpdate::AddSchema { schema } => schema,
        update => panic!("expected AddSchema, got {update:?}"),
    };
    assert!(replayed.field_by_name("concurrent").is_some());
    assert_eq!(
        replayed.field_by_name("person.age").unwrap().write_default,
        Some(Literal::integer(18))
    );

    let already_applied = replace_current_schema(&table, first);
    assert_no_op(&already_applied, action);
}
