//! The operations of a schema update, recorded in order.

use vstd::prelude::*;

use crate::literal::Literal;
#[allow(unused_imports)]
use crate::literal::{opt_literal, LiteralView};
use crate::moves::MovePosition;
#[allow(unused_imports)]
use crate::moves::PositionView;
use crate::schema::Schema;
#[allow(unused_imports)]
use crate::schema::SchemaView;
use crate::text::contains_text;
#[allow(unused_imports)]
use crate::text::{opt_text, texts};
use crate::types::{PrimitiveType, Type};
#[allow(unused_imports)]
use crate::types::TypeView;

verus! {

/// Declarative specification for adding a column in an [`UpdateSchemaAction`].
///
/// Use the constructors [`AddColumn::optional`] and [`AddColumn::required`], or the setters of
/// [`AddColumn::builder`], then pass the value to [`UpdateSchemaAction::add_column`].
///
/// Literals share physical variants across logical types. An already compatible numeric default
/// is interpreted in the target type's units: dates use epoch days, microsecond timestamps use
/// epoch microseconds, and nanosecond timestamps use epoch nanoseconds. String defaults are parsed
/// as their target logical type.
#[derive(Debug)]
pub struct AddColumn {
    pub parent: Option<String>,
    pub name: String,
    pub required: bool,
    pub field_type: Type,
    pub doc: Option<String>,
    pub initial_default: Option<Literal>,
    pub write_default: Option<Literal>,
    pub literal_root_name: bool,
}

/// The mathematical value of an [`AddColumn`].
pub struct AddView {
    pub parent: Option<Seq<char>>,
    pub name: Seq<char>,
    pub required: bool,
    pub field_type: TypeView,
    pub doc: Option<Seq<char>>,
    pub initial_default: Option<LiteralView>,
    pub write_default: Option<LiteralView>,
    pub literal_root_name: bool,
}

impl View for AddColumn {
    type V = AddView;

    open spec fn view(&self) -> AddView {
        AddView {
            parent: opt_text(self.parent),
            name: self.name@,
            required: self.required,
            field_type: self.field_type@,
            doc: opt_text(self.doc),
            initial_default: opt_literal(self.initial_default),
            write_default: opt_literal(self.write_default),
            literal_root_name: self.literal_root_name,
        }
    }
}

/// A root-level column with nothing but a name, a type and its nullability.
pub open spec fn root_column(name: Seq<char>, field_type: TypeView, required: bool) -> AddView {
    AddView {
        parent: None,
        name,
        required,
        field_type,
        doc: None,
        initial_default: None,
        write_default: None,
        literal_root_name: false,
    }
}

impl AddColumn {
    /// Creates a root-level optional column specification.
    ///
    /// Empty root-level names are invalid, and names containing `.` are rejected as ambiguous
    /// unless the name is marked with [`AddColumn::with_literal_root_name`]. Use the builder's
    /// `parent` setter to add a nested field, including one whose leaf name contains `.`.
    pub fn optional(name: &str, field_type: Type) -> (column: AddColumn)
        ensures
            column@ == root_column(name@, field_type@, false),
    {
        AddColumn::builder().name(name).field_type(field_type).build()
    }

    /// Creates a root-level required column specification, with the same initial default and
    /// write default.
    ///
    /// Names are subject to the same rules as in [`AddColumn::optional`].
    pub fn required(name: &str, field_type: Type, initial_default: Literal) -> (column: AddColumn)
        ensures
            column@ == (AddView {
                initial_default: Some(initial_default@),
                write_default: Some(initial_default@),
                ..root_column(name@, field_type@, true)
            }),
    {
        AddColumn::builder().name(name).field_type(field_type).required(true).initial_default(
            initial_default.clone(),
        ).write_default(initial_default).build()
    }

    /// A builder for a column specification, optional and at the root unless it is told otherwise.
    pub fn builder() -> (builder: AddColumnBuilder)
        ensures
            builder@ == empty_builder(),
    {
        AddColumnBuilder {
            parent: None,
            name: None,
            required: false,
            field_type: None,
            doc: None,
            initial_default: None,
            write_default: None,
        }
    }

    /// Takes the name of a root-level column literally, dots included.
    pub fn with_literal_root_name(self) -> (column: AddColumn)
        ensures
            column@ == (AddView { literal_root_name: true, ..self@ }),
    {
        AddColumn { literal_root_name: true, ..self }
    }
}

/// Collects the parts of an [`AddColumn`].
#[derive(Debug)]
pub struct AddColumnBuilder {
    pub parent: Option<String>,
    pub name: Option<String>,
    pub required: bool,
    pub field_type: Option<Type>,
    pub doc: Option<String>,
    pub initial_default: Option<Literal>,
    pub write_default: Option<Literal>,
}

/// The mathematical value of an [`AddColumnBuilder`].
pub struct BuilderView {
    pub parent: Option<Seq<char>>,
    pub name: Option<Seq<char>>,
    pub required: bool,
    pub field_type: Option<TypeView>,
    pub doc: Option<Seq<char>>,
    pub initial_default: Option<LiteralView>,
    pub write_default: Option<LiteralView>,
}

impl View for AddColumnBuilder {
    type V = BuilderView;

    open spec fn view(&self) -> BuilderView {
        BuilderView {
            parent: opt_text(self.parent),
            name: opt_text(self.name),
            required: self.required,
            field_type: match self.field_type {
                Some(t) => Some(t@),
                None => None,
            },
            doc: opt_text(self.doc),
            initial_default: opt_literal(self.initial_default),
            write_default: opt_literal(self.write_default),
        }
    }
}

/// A builder to which nothing was told.
pub open spec fn empty_builder() -> BuilderView {
    BuilderView {
        parent: None,
        name: None,
        required: false,
        field_type: None,
        doc: None,
        initial_default: None,
        write_default: None,
    }
}

impl AddColumnBuilder {
    /// Sets the path of the struct, list or map that the column is added to.
    pub fn parent(self, parent: &str) -> (builder: AddColumnBuilder)
        ensures
            builder@ == (BuilderView { parent: Some(parent@), ..self@ }),
    {
        AddColumnBuilder { parent: Some(parent.to_owned()), ..self }
    }

    /// Sets the name.
    pub fn name(self, name: &str) -> (builder: AddColumnBuilder)
        ensures
            builder@ == (BuilderView { name: Some(name@), ..self@ }),
    {
        AddColumnBuilder { name: Some(name.to_owned()), ..self }
    }

    /// Sets whether the column is required.
    pub fn required(self, required: bool) -> (builder: AddColumnBuilder)
        ensures
            builder@ == (BuilderView { required, ..self@ }),
    {
        AddColumnBuilder { required, ..self }
    }

    /// Sets the type.
    pub fn field_type(self, field_type: Type) -> (builder: AddColumnBuilder)
        ensures
            builder@ == (BuilderView { field_type: Some(field_type@), ..self@ }),
    {
        AddColumnBuilder { field_type: Some(field_type), ..self }
    }

    /// Sets the documentation.
    pub fn doc(self, doc: &str) -> (builder: AddColumnBuilder)
        ensures
            builder@ == (BuilderView { doc: Some(doc@), ..self@ }),
    {
        AddColumnBuilder { doc: Some(doc.to_owned()), ..self }
    }

    /// Sets the initial default.
    pub fn initial_default(self, default: Literal) -> (builder: AddColumnBuilder)
        ensures
            builder@ == (BuilderView { initial_default: Some(default@), ..self@ }),
    {
        AddColumnBuilder { initial_default: Some(default), ..self }
    }

    /// Sets the write default.
    pub fn write_default(self, default: Literal) -> (builder: AddColumnBuilder)
        ensures
            builder@ == (BuilderView { write_default: Some(default@), ..self@ }),
    {
        AddColumnBuilder { write_default: Some(default), ..self }
    }

    /// The column specification. Its name and its type must have been set.
    pub fn build(self) -> (column: AddColumn)
        requires
            self@.name is Some,
            self@.field_type is Some,
        ensures
            column@ == (AddView {
                parent: self@.parent,
                name: self@.name->0,
                required: self@.required,
                field_type: self@.field_type->0,
                doc: self@.doc,
                initial_default: self@.initial_default,
                write_default: self@.write_default,
                literal_root_name: false,
            }),
    {
        AddColumn {
            parent: self.parent,
            name: self.name.unwrap(),
            required: self.required,
            field_type: self.field_type.unwrap(),
            doc: self.doc,
            initial_default: self.initial_default,
            write_default: self.write_default,
            literal_root_name: false,
        }
    }
}

/// One recorded operation.
#[derive(Debug)]
pub enum SchemaOperation {
    Add(Box<AddColumn>),
    Delete(String),
    Rename { name: String, new_name: String },
    SetRequired { name: String, required: bool },
    UpdateType { name: String, new_type: PrimitiveType },
    UpdateDoc { name: String, doc: Option<String> },
    UpdateDefault { name: String, default: Option<Literal> },
    Move { name: String, position: MovePosition },
    SetIdentifierFields(Vec<String>),
    UnionByName(Box<Schema>),
    SetCaseSensitive(bool),
    AllowIncompatibleChanges,
}

/// The mathematical value of a [`SchemaOperation`].
pub enum OperationView {
    Add(AddView),
    Delete(Seq<char>),
    Rename { name: Seq<char>, new_name: Seq<char> },
    SetRequired { name: Seq<char>, required: bool },
    UpdateType { name: Seq<char>, new_type: PrimitiveType },
    UpdateDoc { name: Seq<char>, doc: Option<Seq<char>> },
    UpdateDefault { name: Seq<char>, default: Option<LiteralView> },
    Move { name: Seq<char>, position: PositionView },
    SetIdentifierFields(Seq<Seq<char>>),
    UnionByName(SchemaView),
    SetCaseSensitive(bool),
    AllowIncompatibleChanges,
}

impl View for SchemaOperation {
    type V = OperationView;

    open spec fn view(&self) -> OperationView {
        match *self {
            SchemaOperation::Add(add) => OperationView::Add(add@),
            SchemaOperation::Delete(name) => OperationView::Delete(name@),
            SchemaOperation::Rename { name, new_name } => OperationView::Rename {
                name: name@,
                new_name: new_name@,
            },
            SchemaOperation::SetRequired { name, required } => OperationView::SetRequired {
                name: name@,
                required,
            },
            SchemaOperation::UpdateType { name, new_type } => OperationView::UpdateType {
                name: name@,
                new_type,
            },
            SchemaOperation::UpdateDoc { name, doc } => OperationView::UpdateDoc {
                name: name@,
                doc: opt_text(doc),
            },
            SchemaOperation::UpdateDefault { name, default } => OperationView::UpdateDefault {
                name: name@,
                default: opt_literal(default),
            },
            SchemaOperation::Move { name, position } => OperationView::Move {
                name: name@,
                position: position@,
            },
            SchemaOperation::SetIdentifierFields(names) => OperationView::SetIdentifierFields(
                texts(names@),
            ),
            SchemaOperation::UnionByName(schema) => OperationView::UnionByName(schema@),
            SchemaOperation::SetCaseSensitive(flag) => OperationView::SetCaseSensitive(flag),
            SchemaOperation::AllowIncompatibleChanges => OperationView::AllowIncompatibleChanges,
        }
    }
}

/// The views of a list of operations.
pub open spec fn operations_view(operations: Seq<SchemaOperation>) -> Seq<OperationView> {
    operations.map_values(|operation: SchemaOperation| operation@)
}

/// `done`, and after it those of `names` from `i` on that are not there yet.
pub open spec fn distinct_names(names: Seq<Seq<char>>, i: nat, done: Seq<Seq<char>>) -> Seq<
    Seq<char>,
>
    decreases names.len() - i,
{
    if i >= names.len() {
        done
    } else if done.contains(names[i as int]) {
        distinct_names(names, i + 1, done)
    } else {
        distinct_names(names, i + 1, done.push(names[i as int]))
    }
}

/// A list of names without its repetitions, the first of each kept.
pub fn deduplicate_names(names: &Vec<String>) -> (distinct: Vec<String>)
    ensures
        texts(distinct@) == distinct_names(texts(names@), 0, Seq::empty()),
{
    let ghost all = texts(names@);
    let mut distinct: Vec<String> = Vec::new();
    let mut i: usize = 0;
    assert(texts(distinct@) =~= Seq::empty());
    while i < names.len()
        invariant
            i <= names@.len(),
            all == texts(names@),
            distinct_names(all, i as nat, texts(distinct@)) == distinct_names(
                all,
                0,
                Seq::empty(),
            ),
        decreases names@.len() - i,
    {
        if !contains_text(&distinct, names[i].as_str()) {
            let ghost before = texts(distinct@);
            distinct.push(names[i].clone());
            assert(texts(distinct@) =~= before.push(all[i as int]));
        }
        i += 1;
    }
    distinct
}

/// A schema update: a list of operations that are replayed, in order, against the table metadata
/// at every commit attempt.
///
/// This keeps validation and field-ID assignment correct after a concurrent commit.
#[derive(Debug)]
pub struct UpdateSchemaAction {
    operations: Vec<SchemaOperation>,
}

impl View for UpdateSchemaAction {
    type V = Seq<OperationView>;

    closed spec fn view(&self) -> Seq<OperationView> {
        operations_view(self.operations@)
    }
}

impl UpdateSchemaAction {
    /// An update without operations.
    pub fn new() -> (action: UpdateSchemaAction)
        ensures
            action@ == Seq::<OperationView>::empty(),
    {
        let action = UpdateSchemaAction { operations: Vec::new() };
        assert(action@ =~= Seq::empty());
        action
    }

    /// The recorded operations.
    pub fn operations(&self) -> (operations: &[SchemaOperation])
        ensures
            operations_view(operations@) == self@,
    {
        self.operations.as_slice()
    }

    fn push(self, operation: SchemaOperation) -> (action: UpdateSchemaAction)
        ensures
            action@ == self@.push(operation@),
    {
        let ghost before = self.operations@;
        let mut operations = self.operations;
        operations.push(operation);
        assert(operations_view(operations@) =~= operations_view(before).push(operation@));
        UpdateSchemaAction { operations }
    }

    /// Allows subsequent incompatible schema changes.
    ///
    /// This permits required columns without an initial default and optional columns to be made
    /// required. The caller is responsible for ensuring existing data is compatible.
    pub fn allow_incompatible_changes(self) -> (action: UpdateSchemaAction)
        ensures
            action@ == self@.push(OperationView::AllowIncompatibleChanges),
    {
        self.push(SchemaOperation::AllowIncompatibleChanges)
    }

    /// Adds a column to the table schema.
    ///
    /// To add a root-level column, leave [`AddColumn::parent`] as `None`. For nested additions, set
    /// a parent path. If the parent resolves to a map or a list, the column is added to the map's
    /// value or the list's element.
    pub fn add_column(self, add_column: AddColumn) -> (action: UpdateSchemaAction)
        ensures
            action@ == self@.push(OperationView::Add(add_column@)),
    {
        self.push(SchemaOperation::Add(Box::new(add_column)))
    }

    /// Records a column deletion by name.
    ///
    /// At commit time, the column must exist in the current schema.
    pub fn delete_column(self, name: &str) -> (action: UpdateSchemaAction)
        ensures
            action@ == self@.push(OperationView::Delete(name@)),
    {
        self.push(SchemaOperation::Delete(name.to_owned()))
    }

    /// Renames a column while preserving its field ID and other metadata.
    ///
    /// Operations in the same action continue to resolve the column by its original schema name.
    pub fn rename_column(self, name: &str, new_name: &str) -> (action: UpdateSchemaAction)
        ensures
            action@ == self@.push(OperationView::Rename { name: name@, new_name: new_name@ }),
    {
        self.push(
            SchemaOperation::Rename { name: name.to_owned(), new_name: new_name.to_owned() },
        )
    }

    /// Changes an optional column to required.
    ///
    /// This is rejected unless the column was added in this action with an initial default or
    /// [`allow_incompatible_changes`](Self::allow_incompatible_changes) was called first.
    pub fn require_column(self, name: &str) -> (action: UpdateSchemaAction)
        ensures
            action@ == self@.push(OperationView::SetRequired { name: name@, required: true }),
    {
        self.push(SchemaOperation::SetRequired { name: name.to_owned(), required: true })
    }

    /// Changes a required column to optional.
    pub fn make_column_optional(self, name: &str) -> (action: UpdateSchemaAction)
        ensures
            action@ == self@.push(OperationView::SetRequired { name: name@, required: false }),
    {
        self.push(SchemaOperation::SetRequired { name: name.to_owned(), required: false })
    }

    /// Promotes a primitive column to a compatible type.
    ///
    /// Supported promotions are `int` to `long`, `float` to `double`, and increasing decimal
    /// precision without changing scale. The column's field ID and other metadata are preserved.
    pub fn update_column_type(self, name: &str, new_type: PrimitiveType) -> (action:
        UpdateSchemaAction)
        ensures
            action@ == self@.push(OperationView::UpdateType { name: name@, new_type }),
    {
        self.push(SchemaOperation::UpdateType { name: name.to_owned(), new_type })
    }

    /// Sets or clears a column's documentation while preserving its other metadata.
    pub fn update_column_doc(self, name: &str, doc: Option<String>) -> (action: UpdateSchemaAction)
        ensures
            action@ == self@.push(OperationView::UpdateDoc { name: name@, doc: opt_text(doc) }),
    {
        self.push(SchemaOperation::UpdateDoc { name: name.to_owned(), doc })
    }

    /// Sets or clears a column's write default while preserving its initial default.
    ///
    /// Changing the write default affects newly written rows only; it does not alter existing
    /// rows. Long-backed temporal literals use the physical unit of the target column. Decimal
    /// literals use the target scale, while string literals must supply that scale exactly.
    pub fn update_column_default(self, name: &str, default: Option<Literal>) -> (action:
        UpdateSchemaAction)
        ensures
            action@ == self@.push(
                OperationView::UpdateDefault { name: name@, default: opt_literal(default) },
            ),
    {
        self.push(SchemaOperation::UpdateDefault { name: name.to_owned(), default })
    }

    /// Moves a column to the first position in its containing struct.
    pub fn move_column_first(self, name: &str) -> (action: UpdateSchemaAction)
        ensures
            action@ == self@.push(
                OperationView::Move { name: name@, position: PositionView::First },
            ),
    {
        self.push(
            SchemaOperation::Move { name: name.to_owned(), position: MovePosition::First },
        )
    }

    /// Moves a column immediately before a sibling column.
    pub fn move_column_before(self, name: &str, before_name: &str) -> (action: UpdateSchemaAction)
        ensures
            action@ == self@.push(
                OperationView::Move {
                    name: name@,
                    position: PositionView::Before(before_name@),
                },
            ),
    {
        self.push(
            SchemaOperation::Move {
                name: name.to_owned(),
                position: MovePosition::Before(before_name.to_owned()),
            },
        )
    }

    /// Moves a column immediately after a sibling column.
    pub fn move_column_after(self, name: &str, after_name: &str) -> (action: UpdateSchemaAction)
        ensures
            action@ == self@.push(
                OperationView::Move { name: name@, position: PositionView::After(after_name@) },
            ),
    {
        self.push(
            SchemaOperation::Move {
                name: name.to_owned(),
                position: MovePosition::After(after_name.to_owned()),
            },
        )
    }

    /// Replaces the schema's identifier fields with the supplied column names.
    ///
    /// Duplicate names are ignored and an empty list clears the identifier fields. Names use the
    /// case-sensitivity mode active at this point in the action.
    pub fn set_identifier_fields(self, names: Vec<String>) -> (action: UpdateSchemaAction)
        ensures
            action@ == self@.push(
                OperationView::SetIdentifierFields(
                    distinct_names(texts(names@), 0, Seq::empty()),
                ),
            ),
    {
        self.push(SchemaOperation::SetIdentifierFields(deduplicate_names(&names)))
    }

    /// Reconciles fields from `new_schema` into the table schema by name.
    ///
    /// Missing fields are appended with fresh IDs and are optional at the missing-field boundary.
    /// Existing fields may become optional, use a wider compatible primitive type, and adopt
    /// non-null documentation or write defaults from `new_schema`. Incoming identifier fields are
    /// ignored.
    pub fn union_by_name(self, new_schema: Schema) -> (action: UpdateSchemaAction)
        ensures
            action@ == self@.push(OperationView::UnionByName(new_schema@)),
    {
        self.push(SchemaOperation::UnionByName(Box::new(new_schema)))
    }

    /// Configures whether subsequent operations resolve column names case-sensitively.
    ///
    /// Column-name resolution is case-sensitive by default.
    pub fn case_sensitive(self, case_sensitive: bool) -> (action: UpdateSchemaAction)
        ensures
            action@ == self@.push(OperationView::SetCaseSensitive(case_sensitive)),
    {
        self.push(SchemaOperation::SetCaseSensitive(case_sensitive))
    }
}

} // verus!
