//! Replays the operations of an update against a schema.

use std::collections::{HashMap, HashSet};
use std::sync::Arc;

use vstd::prelude::*;

use crate::action::AddColumn;
use crate::changes::{Changes, FieldMap};
use crate::defaults::{coerce_field_defaults, convert_default, defaults_equal, DoubleTexts};
use crate::error::{precondition, unexpected, Error};
#[allow(unused_imports)]
use crate::error::{opt_error, outcome, precondition_error, ErrorView};
use crate::fresh_ids::assign_fresh_ids;
use crate::literal::{copy_default, Literal};
#[allow(unused_imports)]
use crate::literal::opt_literal;
use crate::moves::{same_parent, MovePosition, PendingMove};
use crate::names::{index_field_names, NameMap};
#[allow(unused_imports)]
use crate::pending::{
    add_checked, add_column, add_target, added_matches, applied, delete_column, deletion_problem,
    enclosing_problem, first_deletion_problem, identifier_id, initial_state, is_added,
    known_identifiers, move_column, name_matches, new_field, no_collision, no_selection,
    parent_target, rename_column, requested_move, resolved_identifiers, selection_of,
    set_identifier_fields, set_required, struct_parent, type_change, update_default,
    update_deleted, update_doc, update_type, value_of, PendingView, SelectionView,
};
use crate::schema::{contains_id, copy_ids, Schema};
#[allow(unused_imports)]
use crate::schema::{named_ids, opt_field};
use crate::text::{cat2, cat3, cat4, contains_char, int_to_text, join_path, text_eq, to_lower};
#[allow(unused_imports)]
use crate::text::{opt_text, texts};
use crate::tree::{index_parent_ids, rebuild_fields};
use crate::type_promotion::{is_promotion_allowed, promote_default, validated_primitive_type};
use crate::types::{copy_text, share, NestedField, PrimitiveType, Type};
#[allow(unused_imports)]
use crate::types::{field_view, fields_view, FieldView, TypeView};

verus! {

broadcast use vstd::std_specs::hash::group_hash_axioms;

/// A name of an identifier field that is resolved when the update is applied.
#[derive(Debug)]
struct PendingIdentifierName {
    name: String,
    case_sensitive: bool,
}

/// The identifier fields that an update has chosen.
#[derive(Debug)]
struct IdentifierFieldSelection {
    resolved_ids: Vec<i32>,
    unresolved_names: Vec<PendingIdentifierName>,
}

/// The value of a list of names that are still to be resolved.
closed spec fn unresolved_view(names: Seq<PendingIdentifierName>) -> Seq<(Seq<char>, bool)> {
    names.map_values(|pending: PendingIdentifierName| (pending.name@, pending.case_sensitive))
}

/// The value of a selection.
closed spec fn selection_view(selection: IdentifierFieldSelection) -> SelectionView {
    SelectionView {
        resolved: selection.resolved_ids@,
        unresolved: unresolved_view(selection.unresolved_names@),
    }
}

/// The state of a schema update: the schema that it started from and what was collected since.
#[derive(Debug)]
pub struct PendingSchemaUpdate<'a> {
    schema: &'a Schema,
    changes: Changes,
    added_name_to_id: NameMap,
    added_fields_by_name: Vec<(String, i32)>,
    id_to_parent: HashMap<i32, i32>,
    identifier_field_ids: Vec<i32>,
    identifier_field_replacement: Option<IdentifierFieldSelection>,
    last_column_id: i32,
    case_sensitive: bool,
    allow_incompatible_changes: bool,
    texts: DoubleTexts,
}

impl<'a> View for PendingSchemaUpdate<'a> {
    type V = PendingView;

    closed spec fn view(&self) -> PendingView {
        PendingView {
            schema: self.schema@,
            changes: self.changes@,
            added_names: self.added_name_to_id@,
            added_fields: named_ids(self.added_fields_by_name@),
            parents: self.id_to_parent@,
            identifier_ids: self.identifier_field_ids@,
            replacement: match self.identifier_field_replacement {
                Some(selection) => Some(selection_view(selection)),
                None => None,
            },
            last_column_id: self.last_column_id,
            case_sensitive: self.case_sensitive,
            allow_incompatible: self.allow_incompatible_changes,
            texts: self.texts@,
        }
    }
}

/// An optional field as the result of a fallible lookup.
pub open spec fn field_outcome(result: Result<Option<Arc<NestedField>>, Error>) -> core::result::Result<
    Option<FieldView>,
    ErrorView,
> {
    match result {
        Ok(Some(field)) => Ok(Some(field_view(*field))),
        Ok(None) => Ok(None),
        Err(error) => Err(error@),
    }
}

/// An optional ID as the result of a fallible lookup.
pub open spec fn id_outcome(result: Result<Option<i32>, Error>) -> core::result::Result<
    Option<i32>,
    ErrorView,
> {
    match result {
        Ok(id) => Ok(id),
        Err(error) => Err(error@),
    }
}

/// Refuses a schema in which a name stands for several fields, whatever its case.
pub fn validate_case_insensitive_names(schema: &Schema) -> (result: Result<(), Error>)
    ensures
        outcome(result) == no_collision(schema@),
{
    match schema.case_insensitive_name_collision() {
        Some(name) => Err(
            precondition(
                cat2(
                    "Cannot use case-insensitive schema updates because multiple fields match: ",
                    name.as_str(),
                ),
            ),
        ),
        None => Ok(()),
    }
}

impl AddColumn {
    /// The field that this specification describes. It gets its real ID when it is added.
    fn to_nested_field(&self) -> (field: NestedField)
        ensures
            field@ == new_field(self@),
    {
        NestedField {
            id: 0,
            name: self.name.clone(),
            required: self.required,
            field_type: Box::new(self.field_type.copy()),
            doc: copy_text(&self.doc),
            initial_default: copy_default(&self.initial_default),
            write_default: copy_default(&self.write_default),
        }
    }
}

impl<'a> PendingSchemaUpdate<'a> {
    /// An update of a schema in which field IDs up to `last_column_id` are taken.
    pub fn new(schema: &'a Schema, last_column_id: i32) -> (pending: PendingSchemaUpdate<'a>)
        ensures
            pending@ == initial_state(schema@, last_column_id, Seq::empty()),
    {
        let mut id_to_parent: HashMap<i32, i32> = HashMap::new();
        index_parent_ids(&schema.as_struct().fields, None, &mut id_to_parent);
        let added_fields_by_name: Vec<(String, i32)> = Vec::new();
        assert(named_ids(added_fields_by_name@) =~= Seq::empty());
        PendingSchemaUpdate {
            schema,
            changes: Changes::new(),
            added_name_to_id: NameMap::new(),
            added_fields_by_name,
            id_to_parent,
            identifier_field_ids: copy_ids(schema.identifier_field_ids()),
            identifier_field_replacement: None,
            last_column_id,
            case_sensitive: true,
            allow_incompatible_changes: false,
            texts: DoubleTexts::new(),
        }
    }

    /// The update with the texts of floating-point numbers.
    pub fn with_double_texts(self, texts: DoubleTexts) -> (pending: PendingSchemaUpdate<'a>)
        ensures
            pending@ == (PendingView { texts: texts@, ..self@ }),
    {
        PendingSchemaUpdate { texts, ..self }
    }

    /// The schema that the update started from.
    pub fn base_schema(&self) -> (schema: &'a Schema)
        ensures
            schema@ == self@.schema,
    {
        self.schema
    }

    /// Whether names are case-sensitive.
    pub fn is_case_sensitive(&self) -> (case_sensitive: bool)
        ensures
            case_sensitive == self@.case_sensitive,
    {
        self.case_sensitive
    }

    /// The changes that were collected.
    pub fn changes(&self) -> (changes: &Changes)
        ensures
            changes@ == self@.changes,
    {
        &self.changes
    }

    /// The fields in their new form.
    pub fn updates(&self) -> (updates: &FieldMap)
        ensures
            updates@ == self@.changes.updates,
    {
        &self.changes.updates
    }

    /// The IDs of the fields to delete.
    pub fn deletes(&self) -> (deletes: &HashSet<i32>)
        ensures
            deletes@ == self@.changes.deletes,
    {
        &self.changes.deletes
    }

    /// The fields to append, each with the struct that it is appended to.
    pub fn additions(&self) -> (additions: &Vec<(Option<i32>, i32)>)
        ensures
            additions@ == self@.changes.additions,
    {
        &self.changes.additions
    }

    /// Configures whether names are case-sensitive from here on.
    pub fn set_case_sensitive(&mut self, case_sensitive: bool)
        ensures
            final(self)@ == (PendingView { case_sensitive, ..old(self)@ }),
    {
        self.case_sensitive = case_sensitive;
    }

    /// Allows incompatible changes from here on.
    pub fn allow_incompatible_changes(&mut self)
        ensures
            final(self)@ == (PendingView { allow_incompatible: true, ..old(self)@ }),
    {
        self.allow_incompatible_changes = true;
    }

    fn resolve_field(&self, name: &str) -> (result: Result<Option<Arc<NestedField>>, Error>)
        ensures
            field_outcome(result) == self@.resolve(name@),
    {
        if name.is_empty() {
            return Err(precondition("Invalid column name: (empty)".to_owned()));
        }
        let found = if self.case_sensitive {
            self.schema.field_by_name(name)
        } else {
            match validate_case_insensitive_names(self.schema) {
                Ok(_) => {},
                Err(error) => return Err(error),
            }
            self.schema.field_by_name_case_insensitive(name)
        };
        match found {
            Some(field) => Ok(Some(share(field))),
            None => Ok(None),
        }
    }

    fn case_sensitivity_aware_name(&self, name: &str) -> (result: String)
        ensures
            result@ == self@.aware_name(name@),
    {
        if self.case_sensitive {
            name.to_owned()
        } else {
            to_lower(name)
        }
    }

    fn find_for_update(&self, name: &str) -> (result: Result<Option<Arc<NestedField>>, Error>)
        ensures
            field_outcome(result) == self@.for_update(name@),
    {
        match self.resolve_field(name) {
            Err(error) => Err(error),
            Ok(Some(existing)) => match self.changes.updates.get(existing.id) {
                Some(update) => Ok(Some(share(update))),
                None => Ok(Some(existing)),
            },
            Ok(None) => {
                let aware = self.case_sensitivity_aware_name(name);
                match self.added_name_to_id.get(aware.as_str()) {
                    Some(id) => match self.changes.updates.get(id) {
                        Some(field) => Ok(Some(share(field))),
                        None => Ok(None),
                    },
                    None => Ok(None),
                }
            },
        }
    }

    fn field_id_for_move(&self, name: &str) -> (result: Result<Option<i32>, Error>)
        ensures
            id_outcome(result) == self@.for_move(name@),
    {
        let aware = self.case_sensitivity_aware_name(name);
        match self.added_name_to_id.get(aware.as_str()) {
            Some(id) => Ok(Some(id)),
            None => match self.resolve_field(name) {
                Err(error) => Err(error),
                Ok(Some(field)) => Ok(Some(field.id)),
                Ok(None) => Ok(None),
            },
        }
    }

    fn field_by_id(&self, field_id: i32) -> (field: Option<&Arc<NestedField>>)
        ensures
            opt_field(field) == self@.by_id(field_id),
    {
        match self.changes.updates.get(field_id) {
            Some(field) => Some(field),
            None => self.schema.field_by_id(field_id),
        }
    }

    fn parent_of(&self, field_id: i32) -> (parent: Option<i32>)
        ensures
            parent == value_of(self@.parents, field_id),
    {
        match self.id_to_parent.get(&field_id) {
            Some(parent) => Some(*parent),
            None => None,
        }
    }

    /// Records a field in its new form.
    fn put_update(&mut self, field: NestedField)
        ensures
            final(self)@ == old(self)@.with_update(field@.id, field@),
    {
        let id: i32 = field.id;
        self.changes.updates.insert(id, Arc::new(field));
    }

    fn will_be_deleted(&self, field_id: i32) -> (doomed: bool)
        ensures
            doomed == self@.will_be_deleted(field_id),
    {
        let mut id: i32 = field_id;
        let mut fuel: usize = self.id_to_parent.len();
        loop
            invariant
                self@.doomed(id, fuel as nat) == self@.will_be_deleted(field_id),
            decreases fuel,
        {
            if self.changes.deletes(id) {
                return true;
            }
            if fuel == 0 {
                return false;
            }
            match self.parent_of(id) {
                Some(parent) => {
                    id = parent;
                    fuel -= 1;
                },
                None => return false,
            }
        }
    }

    fn resolve_parent(&self, parent: &str) -> (result: Result<i32, Error>)
        ensures
            outcome(result) == parent_target(self@, parent@),
    {
        let parent_field = match self.resolve_field(parent) {
            Err(error) => return Err(error),
            Ok(Some(field)) => field,
            Ok(None) => return Err(precondition(cat2("Cannot find parent struct: ", parent))),
        };
        let target = match &*parent_field.field_type {
            Type::MapOf(map_type) => share(&map_type.value_field),
            Type::List(list_type) => share(&list_type.element_field),
            _ => share(&parent_field),
        };
        assert(target@ == match parent_field@.field_type {
            TypeView::MapOf(_, value) => *value,
            TypeView::List(element) => *element,
            _ => parent_field@,
        });
        if target.field_type.is_struct() {
            Ok(target.id)
        } else {
            let start = cat3("Cannot add to non-struct column: ", parent, ": ");
            let message = cat3(
                start.as_str(),
                target.field_type.to_text().as_str(),
                " is not a struct",
            );
            Err(precondition(message))
        }
    }

    fn find_add_target(&self, add: &AddColumn) -> (result: Result<
        (Option<i32>, String, String),
        Error,
    >)
        ensures
            match (result, add_target(self@, add@)) {
                (Ok(target), Ok(expected)) => target.0 == expected.0 && target.1@ == expected.1
                    && target.2@ == expected.2,
                (Err(error), Err(expected)) => error@ == expected,
                _ => false,
            },
    {
        match &add.parent {
            None => {
                if add.name.as_str().is_empty() {
                    return Err(precondition("Invalid column name: (empty)".to_owned()));
                }
                if !add.literal_root_name && contains_char(add.name.as_str(), '.') {
                    return Err(
                        precondition(
                            cat3(
                                "Cannot add column with ambiguous name: ",
                                add.name.as_str(),
                                ", set a parent to add a nested column",
                            ),
                        ),
                    );
                }
                Ok((None, add.name.clone(), add.name.clone()))
            },
            Some(parent) => {
                let parent_id: i32 = match self.resolve_parent(parent.as_str()) {
                    Ok(id) => id,
                    Err(error) => return Err(error),
                };
                if self.changes.deletes(parent_id) {
                    return Err(
                        precondition(
                            cat2(
                                "Cannot add to a column that will be deleted: ",
                                parent.as_str(),
                            ),
                        ),
                    );
                }
                let canonical_parent = match self.schema.name_by_field_id(parent_id) {
                    Some(name) => name,
                    None => parent.as_str(),
                };
                Ok(
                    (
                        Some(parent_id),
                        join_path(parent.as_str(), add.name.as_str()),
                        join_path(canonical_parent, add.name.as_str()),
                    ),
                )
            },
        }
    }

    fn check_addition(&self, add: &AddColumn) -> (result: Result<(Option<i32>, String), Error>)
        ensures
            match (result, add_checked(self@, add@)) {
                (Ok(target), Ok(expected)) => target.0 == expected.0 && target.1@ == expected.1,
                (Err(error), Err(expected)) => error@ == expected,
                _ => false,
            },
    {
        let (parent_id, conflict_name, full_name) = match self.find_add_target(add) {
            Ok(target) => target,
            Err(error) => return Err(error),
        };
        match self.resolve_field(conflict_name.as_str()) {
            Err(error) => return Err(error),
            Ok(Some(existing)) => {
                if !self.changes.deletes(existing.id) {
                    return Err(
                        precondition(
                            cat2(
                                "Cannot add column, name already exists: ",
                                conflict_name.as_str(),
                            ),
                        ),
                    );
                }
            },
            Ok(None) => {},
        }
        if add.required && add.initial_default.is_none() && !self.allow_incompatible_changes {
            return Err(
                precondition(
                    cat2(
                        "Incompatible change: cannot add required column without an initial default: ",
                        full_name.as_str(),
                    ),
                ),
            );
        }
        Ok((parent_id, full_name))
    }

    /// Adds a column.
    pub fn add_column(&mut self, add: &AddColumn) -> (result: Result<(), Error>)
        ensures
            (final(self)@, outcome(result)) == add_column(old(self)@, add@),
    {
        let (parent_id, full_name) = match self.check_addition(add) {
            Ok(target) => target,
            Err(error) => return Err(error),
        };
        let field = match assign_fresh_ids(&add.to_nested_field(), &mut self.last_column_id) {
            Ok(field) => field,
            Err(error) => return Err(error),
        };
        let field = match coerce_field_defaults(&field, full_name.as_str(), &self.texts) {
            Ok(field) => field,
            Err(error) => return Err(error),
        };
        let aware = self.case_sensitivity_aware_name(full_name.as_str());
        index_field_names(&field, full_name.as_str(), &mut self.added_fields_by_name);
        let mut fields: Vec<Arc<NestedField>> = Vec::new();
        fields.push(share(&field));
        assert(fields_view(fields@) =~= seq![field@]);
        index_parent_ids(&fields, parent_id, &mut self.id_to_parent);
        self.added_name_to_id.insert(aware, field.id);
        self.changes.additions.push((parent_id, field.id));
        self.changes.updates.insert(field.id, field);
        Ok(())
    }

    /// Marks a column as deleted.
    pub fn delete_column(&mut self, name: &str) -> (result: Result<(), Error>)
        ensures
            (final(self)@, outcome(result)) == delete_column(old(self)@, name@),
    {
        let field = match self.resolve_field(name) {
            Err(error) => return Err(error),
            Ok(Some(field)) => field,
            Ok(None) => return Err(precondition(cat2("Cannot delete missing column: ", name))),
        };
        if self.changes.adds_to(Some(field.id)) {
            return Err(precondition(cat2("Cannot delete a column that has additions: ", name)));
        }
        if self.changes.updates.contains(field.id) {
            return Err(precondition(cat2("Cannot delete a column that has updates: ", name)));
        }
        self.changes.deletes.insert(field.id);
        Ok(())
    }

    /// Renames a column.
    pub fn rename_column(&mut self, name: &str, new_name: &str) -> (result: Result<(), Error>)
        ensures
            (final(self)@, outcome(result)) == rename_column(old(self)@, name@, new_name@),
    {
        let field = match self.resolve_field(name) {
            Err(error) => return Err(error),
            Ok(Some(field)) => field,
            Ok(None) => return Err(precondition(cat2("Cannot rename missing column: ", name))),
        };
        if self.changes.deletes(field.id) {
            return Err(
                precondition(
                    cat2("Cannot rename a column that will be deleted: ", field.name.as_str()),
                ),
            );
        }
        let current = match self.changes.updates.get(field.id) {
            Some(update) => share(update),
            None => field,
        };
        let mut updated = (*current).clone();
        updated.name = new_name.to_owned();
        self.put_update(updated);
        Ok(())
    }

    /// Makes a column required or optional.
    pub fn set_required(&mut self, name: &str, required: bool) -> (result: Result<(), Error>)
        ensures
            (final(self)@, outcome(result)) == set_required(old(self)@, name@, required),
    {
        let field = match self.find_for_update(name) {
            Err(error) => return Err(error),
            Ok(Some(field)) => field,
            Ok(None) => return Err(precondition(cat2("Cannot update missing column: ", name))),
        };
        if field.required == required {
            return Ok(());
        }
        let is_defaulted_add = self.added_name_to_id.holds(field.id)
            && field.initial_default.is_some();
        if required && !is_defaulted_add && !self.allow_incompatible_changes {
            return Err(
                precondition(
                    cat3("Cannot change column nullability: ", name, ": optional -> required"),
                ),
            );
        }
        if self.changes.deletes(field.id) {
            return Err(deleted_update(&field));
        }
        let mut updated = (*field).clone();
        updated.required = required;
        self.put_update(updated);
        Ok(())
    }

    /// Promotes a column to a wider type.
    pub fn update_column_type(&mut self, name: &str, new_type: &PrimitiveType) -> (result: Result<
        (),
        Error,
    >)
        ensures
            (final(self)@, outcome(result)) == update_type(old(self)@, name@, *new_type),
    {
        let field = match self.find_for_update(name) {
            Err(error) => return Err(error),
            Ok(Some(field)) => field,
            Ok(None) => return Err(precondition(cat2("Cannot update missing column: ", name))),
        };
        if self.changes.deletes(field.id) {
            return Err(deleted_update(&field));
        }
        let old_type = &*field.field_type;
        let promoted_type = match validated_primitive_type(new_type) {
            Ok(promoted_type) => promoted_type,
            Err(error) => {
                let message = type_change_message(name, old_type, new_type);
                return Err(precondition(message).with_source(error));
            },
        };
        if old_type.same(&promoted_type) {
            return Ok(());
        }
        if !is_promotion_allowed(old_type, new_type) {
            return Err(precondition(type_change_message(name, old_type, new_type)));
        }
        let old_primitive: PrimitiveType = match old_type {
            Type::Primitive(p) => *p,
            _ => *new_type,
        };
        let initial_default = match promote_default(
            &field.initial_default,
            &old_primitive,
            &promoted_type,
        ) {
            Ok(default) => default,
            Err(error) => return Err(error),
        };
        let write_default = match promote_default(
            &field.write_default,
            &old_primitive,
            &promoted_type,
        ) {
            Ok(default) => default,
            Err(error) => return Err(error),
        };
        let updated = NestedField {
            id: field.id,
            name: field.name.clone(),
            required: field.required,
            field_type: Box::new(promoted_type),
            doc: copy_text(&field.doc),
            initial_default,
            write_default,
        };
        self.put_update(updated);
        Ok(())
    }

    /// Sets or clears the documentation of a column.
    pub fn update_column_doc(&mut self, name: &str, doc: &Option<String>) -> (result: Result<
        (),
        Error,
    >)
        ensures
            (final(self)@, outcome(result)) == update_doc(old(self)@, name@, opt_text(*doc)),
    {
        let field = match self.find_for_update(name) {
            Err(error) => return Err(error),
            Ok(Some(field)) => field,
            Ok(None) => return Err(precondition(cat2("Cannot update missing column: ", name))),
        };
        if self.changes.deletes(field.id) {
            return Err(deleted_update(&field));
        }
        if crate::text::opt_text_eq(&field.doc, doc) {
            return Ok(());
        }
        let mut updated = (*field).clone();
        updated.doc = copy_text(doc);
        self.put_update(updated);
        Ok(())
    }

    /// Sets or clears the write default of a column.
    pub fn update_column_default(&mut self, name: &str, default: &Option<Literal>) -> (result:
        Result<(), Error>)
        ensures
            (final(self)@, outcome(result)) == update_default(
                old(self)@,
                name@,
                opt_literal(*default),
            ),
    {
        let field = match self.find_for_update(name) {
            Err(error) => return Err(error),
            Ok(Some(field)) => field,
            Ok(None) => return Err(precondition(cat2("Cannot update missing column: ", name))),
        };
        if self.changes.deletes(field.id) {
            return Err(deleted_update(&field));
        }
        let write_default = match convert_default(&field.field_type, default, name, &self.texts) {
            Ok(default) => default,
            Err(error) => return Err(error),
        };
        if write_default.is_some() && defaults_equal(&field.write_default, &write_default) {
            return Ok(());
        }
        let mut updated = (*field).clone();
        updated.write_default = write_default;
        self.put_update(updated);
        Ok(())
    }

    fn request_move(&self, name: &str, field_id: i32, position: &MovePosition) -> (result: Result<
        PendingMove,
        Error,
    >)
        ensures
            match (result, requested_move(self@, name@, field_id, position@)) {
                (Ok(pending), Ok(expected)) => pending == expected,
                (Err(error), Err(expected)) => error@ == expected,
                _ => false,
            },
    {
        match position {
            MovePosition::First => Ok(PendingMove::first(field_id)),
            MovePosition::Before(reference) => {
                let reference_id: i32 = match self.field_id_for_move(reference.as_str()) {
                    Err(error) => return Err(error),
                    Ok(Some(id)) => id,
                    Ok(None) => return Err(
                        precondition(
                            cat4(
                                "Cannot move ",
                                name,
                                " before missing column: ",
                                reference.as_str(),
                            ),
                        ),
                    ),
                };
                if field_id == reference_id {
                    return Err(precondition(cat3("Cannot move ", name, " before itself")));
                }
                Ok(PendingMove::before(field_id, reference_id))
            },
            MovePosition::After(reference) => {
                let reference_id: i32 = match self.field_id_for_move(reference.as_str()) {
                    Err(error) => return Err(error),
                    Ok(Some(id)) => id,
                    Ok(None) => return Err(
                        precondition(
                            cat4(
                                "Cannot move ",
                                name,
                                " after missing column: ",
                                reference.as_str(),
                            ),
                        ),
                    ),
                };
                if field_id == reference_id {
                    return Err(precondition(cat3("Cannot move ", name, " after itself")));
                }
                Ok(PendingMove::after(field_id, reference_id))
            },
        }
    }

    fn check_struct_parent(&self, name: &str, parent_id: Option<i32>) -> (result: Result<
        (),
        Error,
    >)
        ensures
            outcome(result) == struct_parent(self@, name@, parent_id),
    {
        let id: i32 = match parent_id {
            Some(id) => id,
            None => return Ok(()),
        };
        match self.field_by_id(id) {
            None => {
                let message = cat4(
                    "Parent field ",
                    int_to_text(id as i64).as_str(),
                    " is missing for column ",
                    name,
                );
                Err(unexpected(message))
            },
            Some(parent) => if parent.field_type.is_struct() {
                Ok(())
            } else {
                Err(
                    precondition(
                        cat2(
                            "Cannot move fields in non-struct type: ",
                            parent.field_type.to_text().as_str(),
                        ),
                    ),
                )
            },
        }
    }

    /// Records the move of a column.
    pub fn move_column(&mut self, name: &str, position: &MovePosition) -> (result: Result<
        (),
        Error,
    >)
        ensures
            (final(self)@, outcome(result)) == move_column(old(self)@, name@, position@),
    {
        let field_id: i32 = match self.field_id_for_move(name) {
            Err(error) => return Err(error),
            Ok(Some(id)) => id,
            Ok(None) => return Err(precondition(cat2("Cannot move missing column: ", name))),
        };
        let parent_id = self.parent_of(field_id);
        let pending_move = match self.request_move(name, field_id, position) {
            Ok(pending_move) => pending_move,
            Err(error) => return Err(error),
        };
        match self.check_struct_parent(name, parent_id) {
            Ok(_) => {},
            Err(error) => return Err(error),
        }
        match pending_move.reference_field_id {
            Some(reference_id) => match self.validate_move_parent(name, parent_id, reference_id) {
                Ok(_) => {},
                Err(error) => return Err(error),
            },
            None => {},
        }
        self.changes.moves.push((parent_id, pending_move));
        Ok(())
    }

    fn validate_move_parent(&self, name: &str, parent_id: Option<i32>, reference_id: i32) -> (result:
        Result<(), Error>)
        ensures
            outcome(result) == (if value_of(self@.parents, reference_id) != parent_id {
                Err(
                    precondition_error(
                        "Cannot move field "@ + name@ + " to a different struct"@,
                    ),
                )
            } else {
                Ok(())
            }),
    {
        if !same_parent(self.parent_of(reference_id), parent_id) {
            return Err(precondition(cat3("Cannot move field ", name, " to a different struct")));
        }
        Ok(())
    }
}

/// The error for an update of a column that is to be deleted.
fn deleted_update(field: &NestedField) -> (error: Error)
    ensures
        error@ == update_deleted(field@),
{
    precondition(cat2("Cannot update a column that will be deleted: ", field.name.as_str()))
}

/// The message for a change of type that is not allowed.
fn type_change_message(name: &str, old_type: &Type, new_type: &PrimitiveType) -> (message: String)
    ensures
        message@ == type_change(name@, old_type@, *new_type),
{
    let start = cat4(
        "Cannot change column type: ",
        name,
        ": ",
        old_type.to_text().as_str(),
    );
    cat3(start.as_str(), " -> ", new_type.to_text().as_str())
}

/// A list of IDs as the result of a fallible step.
pub open spec fn ids_outcome(result: Result<Vec<i32>, Error>) -> core::result::Result<
    Seq<i32>,
    ErrorView,
> {
    match result {
        Ok(ids) => Ok(ids@),
        Err(error) => Err(error@),
    }
}

impl<'a> PendingSchemaUpdate<'a> {
    fn matches_name(&self, added: &str, name: &str) -> (matches: bool)
        ensures
            matches == name_matches(self@, added@, name@),
    {
        if self.case_sensitive {
            text_eq(added, name)
        } else {
            to_lower(added) == to_lower(name)
        }
    }

    fn field_id_for_identifier(&self, name: &str) -> (result: Result<Option<i32>, Error>)
        ensures
            id_outcome(result) == identifier_id(self@, name@),
    {
        let base_field: Option<i32> = match self.resolve_field(name) {
            Err(error) => return Err(error),
            Ok(Some(field)) => Some(field.id),
            Ok(None) => None,
        };
        let ghost view = self@;
        let mut live_added_match: Option<i32> = None;
        let mut stale_added_match: Option<i32> = None;
        let mut multiple_live_matches: bool = false;
        let mut i: usize = 0;
        while i < self.added_fields_by_name.len()
            invariant
                i <= self.added_fields_by_name@.len(),
                view == self@,
                view.added_fields == named_ids(self.added_fields_by_name@),
                added_matches(
                    view,
                    name@,
                    i as nat,
                    live_added_match,
                    stale_added_match,
                    multiple_live_matches,
                ) == added_matches(view, name@, 0, None, None, false),
            decreases self.added_fields_by_name@.len() - i,
        {
            let field_id: i32 = self.added_fields_by_name[i].1;
            if self.matches_name(self.added_fields_by_name[i].0.as_str(), name) {
                if self.will_be_deleted(field_id) {
                    if stale_added_match.is_none() {
                        stale_added_match = Some(field_id);
                    }
                } else {
                    if live_added_match.is_some() {
                        multiple_live_matches = true;
                    }
                    live_added_match = Some(field_id);
                }
            }
            i += 1;
        }
        let live_base: bool = match base_field {
            Some(id) => !self.will_be_deleted(id),
            None => false,
        };
        if !self.case_sensitive && (multiple_live_matches || (live_added_match.is_some()
            && live_base)) {
            return Err(
                precondition(
                    cat2(
                        "Cannot use case-insensitive schema updates because multiple fields match: ",
                        to_lower(name).as_str(),
                    ),
                ),
            );
        }
        if live_added_match.is_some() {
            return Ok(live_added_match);
        }
        if live_base {
            return Ok(base_field);
        }
        if stale_added_match.is_some() {
            return Ok(stale_added_match);
        }
        Ok(base_field)
    }

    /// Replaces the identifier fields.
    pub fn set_identifier_fields(&mut self, names: &Vec<String>) -> (result: Result<(), Error>)
        ensures
            (final(self)@, outcome(result)) == set_identifier_fields(old(self)@, texts(names@)),
    {
        if !self.case_sensitive {
            match validate_case_insensitive_names(self.schema) {
                Ok(_) => {},
                Err(error) => return Err(error),
            }
        }
        let ghost view = self@;
        let ghost all = texts(names@);
        let mut selection = IdentifierFieldSelection {
            resolved_ids: Vec::new(),
            unresolved_names: Vec::new(),
        };
        let mut i: usize = 0;
        assert(unresolved_view(selection.unresolved_names@) =~= Seq::empty());
        while i < names.len()
            invariant
                i <= names@.len(),
                view == self@,
                view == old(self)@,
                all == texts(names@),
                view.case_sensitive || no_collision(view.schema) is Ok,
                selection_of(view, all, i as nat, selection_view(selection)) == selection_of(
                    view,
                    all,
                    0,
                    no_selection(),
                ),
            decreases names@.len() - i,
        {
            let name = &names[i];
            assert(all[i as int] == name@);
            let ghost before = selection_view(selection);
            match self.field_id_for_identifier(name.as_str()) {
                Err(error) => return Err(error),
                Ok(Some(id)) => {
                    if !contains_id(&selection.resolved_ids, id) {
                        selection.resolved_ids.push(id);
                    }
                },
                Ok(None) => {
                    selection.unresolved_names.push(
                        PendingIdentifierName {
                            name: name.clone(),
                            case_sensitive: self.case_sensitive,
                        },
                    );
                    assert(unresolved_view(selection.unresolved_names@) =~= before.unresolved.push(
                        (name@, view.case_sensitive),
                    ));
                },
            }
            i += 1;
        }
        self.identifier_field_replacement = Some(selection);
        Ok(())
    }

    fn resolve_identifier_fields(
        schema: &Schema,
        selection: &IdentifierFieldSelection,
    ) -> (result: Result<Vec<i32>, Error>)
        ensures
            ids_outcome(result) == resolved_identifiers(
                schema@,
                selection_view(*selection).unresolved,
                0,
                selection_view(*selection).resolved,
            ),
    {
        let ghost names = selection_view(*selection).unresolved;
        let mut field_ids = copy_ids(&selection.resolved_ids);
        let mut i: usize = 0;
        while i < selection.unresolved_names.len()
            invariant
                i <= selection.unresolved_names@.len(),
                names == unresolved_view(selection.unresolved_names@),
                resolved_identifiers(schema@, names, i as nat, field_ids@) == resolved_identifiers(
                    schema@,
                    names,
                    0,
                    selection.resolved_ids@,
                ),
            decreases selection.unresolved_names@.len() - i,
        {
            let pending = &selection.unresolved_names[i];
            assert(names[i as int] == (pending.name@, pending.case_sensitive));
            if !pending.case_sensitive {
                match validate_case_insensitive_names(schema) {
                    Ok(_) => {},
                    Err(error) => return Err(error),
                }
            }
            let found = if pending.case_sensitive {
                schema.field_by_name(pending.name.as_str())
            } else {
                schema.field_by_name_case_insensitive(pending.name.as_str())
            };
            match found {
                Some(field) => field_ids.push(field.id),
                None => {
                    return Err(
                        precondition(
                            cat3(
                                "Cannot add field ",
                                pending.name.as_str(),
                                " as an identifier field: not found in current schema or added columns",
                            ),
                        ),
                    );
                },
            }
            i += 1;
        }
        Ok(field_ids)
    }

    fn is_added_field(&self, id: i32) -> (added: bool)
        ensures
            added == is_added(self@.added_fields, id),
    {
        let ghost view = self@.added_fields;
        let mut i: usize = 0;
        while i < self.added_fields_by_name.len()
            invariant
                i <= self.added_fields_by_name@.len(),
                view == self@.added_fields,
                view == named_ids(self.added_fields_by_name@),
                forall|j: int| 0 <= j < i ==> (#[trigger] view[j]).1 != id,
            decreases self.added_fields_by_name@.len() - i,
        {
            if self.added_fields_by_name[i].1 == id {
                assert(view[i as int].1 == id);
                return true;
            }
            i += 1;
        }
        false
    }

    fn check_identifier_deletion(&self, identifier_id: i32) -> (problem: Option<Error>)
        ensures
            opt_error(problem) == deletion_problem(self@, identifier_id),
    {
        let identifier = match self.schema.field_by_id(identifier_id) {
            Some(field) => field,
            None => {
                if self.is_added_field(identifier_id) {
                    return None;
                }
                let message = cat3(
                    "Identifier field ",
                    int_to_text(identifier_id as i64).as_str(),
                    " is missing from the schema",
                );
                return Some(unexpected(message));
            },
        };
        if self.changes.deletes(identifier_id) {
            return Some(
                precondition(cat2("Cannot delete identifier field ", identifier.name.as_str())),
            );
        }
        let ghost name = identifier.name@;
        let mut parent_id = self.parent_of(identifier_id);
        let mut fuel: usize = self.id_to_parent.len();
        loop
            invariant
                name == identifier.name@,
                self@.schema.by_id(identifier_id) == Some(identifier@),
                !self@.changes.deletes.contains(identifier_id),
                enclosing_problem(self@, parent_id, name, fuel as nat) == enclosing_problem(
                    self@,
                    value_of(self@.parents, identifier_id),
                    name,
                    self@.parents.len(),
                ),
            decreases fuel,
        {
            let id: i32 = match parent_id {
                Some(id) => id,
                None => return None,
            };
            if self.changes.deletes(id) {
                return match self.schema.field_by_id(id) {
                    None => Some(
                        unexpected(
                            cat3(
                                "Identifier field parent ",
                                int_to_text(id as i64).as_str(),
                                " is missing from the schema",
                            ),
                        ),
                    ),
                    Some(parent) => Some(
                        precondition(
                            cat4(
                                "Cannot delete field ",
                                parent.name.as_str(),
                                " as it will delete nested identifier field ",
                                identifier.name.as_str(),
                            ),
                        ),
                    ),
                };
            }
            if fuel == 0 {
                return None;
            }
            parent_id = self.parent_of(id);
            fuel -= 1;
        }
    }

    fn validate_identifier_deletions(&self) -> (result: Result<(), Error>)
        ensures
            match first_deletion_problem(self@, known_identifiers(self@), 0) {
                Some(error) => outcome(result) == Err::<(), ErrorView>(error),
                None => result is Ok,
            },
    {
        let ids = match &self.identifier_field_replacement {
            Some(selection) => &selection.resolved_ids,
            None => &self.identifier_field_ids,
        };
        let mut i: usize = 0;
        while i < ids.len()
            invariant
                i <= ids@.len(),
                ids@ == known_identifiers(self@),
                first_deletion_problem(self@, ids@, i as nat) == first_deletion_problem(
                    self@,
                    ids@,
                    0,
                ),
            decreases ids@.len() - i,
        {
            match self.check_identifier_deletion(ids[i]) {
                Some(error) => return Err(error),
                None => {},
            }
            i += 1;
        }
        Ok(())
    }

    /// Builds the schema after the update.
    pub fn apply(&self) -> (result: Result<Schema, Error>)
        ensures
            outcome(result) == applied(self@),
    {
        match self.validate_identifier_deletions() {
            Ok(_) => {},
            Err(error) => return Err(error),
        }
        let fields = match rebuild_fields(&self.schema.as_struct().fields, &self.changes, None) {
            Ok(fields) => fields,
            Err(error) => return Err(error),
        };
        assert(Seq::<FieldView>::empty() + fields_view(fields@) =~= fields_view(fields@));
        let schema_without_identifiers = match Schema::builder().with_fields(fields).build() {
            Ok(schema) => schema,
            Err(error) => {
                return Err(
                    precondition("Cannot apply schema update".to_owned()).with_source(error),
                );
            },
        };
        let identifier_field_ids = match &self.identifier_field_replacement {
            Some(selection) => match Self::resolve_identifier_fields(
                &schema_without_identifiers,
                selection,
            ) {
                Ok(ids) => ids,
                Err(error) => return Err(error),
            },
            None => copy_ids(&self.identifier_field_ids),
        };
        let schema = match schema_without_identifiers.into_builder().with_identifier_field_ids(
            identifier_field_ids,
        ).build() {
            Ok(schema) => schema,
            Err(error) => {
                return Err(
                    precondition("Cannot apply schema update".to_owned()).with_source(error),
                );
            },
        };
        if !self.case_sensitive {
            match validate_case_insensitive_names(&schema) {
                Ok(_) => {},
                Err(error) => return Err(error),
            }
        }
        Ok(schema)
    }
}

} // verus!
