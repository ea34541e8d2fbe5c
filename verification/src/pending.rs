//! The state of a schema update, and what its operations do to it, as mathematics.

use vstd::prelude::*;

#[allow(unused_imports)]
use crate::action::AddView;
#[allow(unused_imports)]
use crate::changes::{no_changes, ChangesView};
#[allow(unused_imports)]
use crate::defaults::{coerced_default, coerced_field};
#[allow(unused_imports)]
use crate::error::{precondition_error, precondition_over, unexpected_error, ErrorView};
#[allow(unused_imports)]
use crate::fresh_ids::fresh_field;
#[allow(unused_imports)]
use crate::literal::LiteralView;
#[allow(unused_imports)]
use crate::moves::{MoveKind, PendingMove, PositionView};
#[allow(unused_imports)]
use crate::names::{holds_id, names_of_field};
#[allow(unused_imports)]
use crate::schema::{checked_schema, distinct_ids, SchemaView};
#[allow(unused_imports)]
use crate::text::{dotted, int_numeral, lower};
#[allow(unused_imports)]
use crate::tree::{parents_of_fields, pending_form, rebuilt_fields};
#[allow(unused_imports)]
use crate::type_promotion::{promoted_default, promotes, validated};
#[allow(unused_imports)]
use crate::types::{primitive_text, type_text, FieldView, PrimitiveType, TypeView};

verus! {

/// The result of an operation that gives nothing back.
pub type Outcome = core::result::Result<(), ErrorView>;

/// The identifier fields that an update has chosen: those whose IDs are known, and the names that
/// are still to be resolved, each with its case sensitivity.
pub struct SelectionView {
    pub resolved: Seq<i32>,
    pub unresolved: Seq<(Seq<char>, bool)>,
}

/// The state of a schema update.
pub struct PendingView {
    /// The schema that the update started from.
    pub schema: SchemaView,
    /// The changes that were collected.
    pub changes: ChangesView,
    /// The added columns by their full names, in lower case where names are not case-sensitive.
    pub added_names: Map<Seq<char>, i32>,
    /// The full names of the added columns and of all beneath them, in order.
    pub added_fields: Seq<(Seq<char>, i32)>,
    /// For each field that is nested in another, the field that it is nested in.
    pub parents: Map<i32, i32>,
    /// The identifier fields of the schema that the update started from.
    pub identifier_ids: Seq<i32>,
    /// The identifier fields that replace them.
    pub replacement: Option<SelectionView>,
    /// The highest field ID that was assigned.
    pub last_column_id: i32,
    /// Whether names are case-sensitive.
    pub case_sensitive: bool,
    /// Whether incompatible changes are allowed.
    pub allow_incompatible: bool,
    /// The texts of floating-point numbers.
    pub texts: Seq<(u64, Seq<char>)>,
}

/// The state before the first operation.
pub open spec fn initial_state(
    schema: SchemaView,
    last_column_id: i32,
    texts: Seq<(u64, Seq<char>)>,
) -> PendingView {
    PendingView {
        schema,
        changes: no_changes(),
        added_names: Map::empty(),
        added_fields: Seq::empty(),
        parents: parents_of_fields(schema.fields, 0, None, Map::empty()),
        identifier_ids: schema.identifier_field_ids,
        replacement: None,
        last_column_id,
        case_sensitive: true,
        allow_incompatible: false,
        texts,
    }
}

/// The error for a name that stands for several fields.
pub open spec fn collision_error(name: Seq<char>) -> ErrorView {
    precondition_error(
        "Cannot use case-insensitive schema updates because multiple fields match: "@ + name,
    )
}

/// Nothing, where names can be looked up in a schema whatever their case.
pub open spec fn no_collision(schema: SchemaView) -> Outcome {
    match schema.collision() {
        Some(name) => Err(collision_error(name)),
        None => Ok(()),
    }
}

/// The value of a map, if it has one.
pub open spec fn value_of<K, V>(map: Map<K, V>, key: K) -> Option<V> {
    if map.contains_key(key) {
        Some(map[key])
    } else {
        None
    }
}

impl PendingView {
    /// The field of the original schema that a name stands for.
    pub open spec fn resolve(self, name: Seq<char>) -> core::result::Result<
        Option<FieldView>,
        ErrorView,
    > {
        if name.len() == 0 {
            Err(precondition_error("Invalid column name: (empty)"@))
        } else if self.case_sensitive {
            Ok(self.schema.by_name(name))
        } else {
            match no_collision(self.schema) {
                Err(error) => Err(error),
                Ok(_) => Ok(self.schema.by_lower_name(name)),
            }
        }
    }

    /// A name as added columns are recorded under it.
    pub open spec fn aware_name(self, name: Seq<char>) -> Seq<char> {
        if self.case_sensitive {
            name
        } else {
            lower(name)
        }
    }

    /// The field that an update of the column `name` starts from: one of the original schema in its
    /// current form, or else an added one.
    pub open spec fn for_update(self, name: Seq<char>) -> core::result::Result<
        Option<FieldView>,
        ErrorView,
    > {
        match self.resolve(name) {
            Err(error) => Err(error),
            Ok(Some(field)) => Ok(Some(pending_form(field, self.changes))),
            Ok(None) => Ok(
                match value_of(self.added_names, self.aware_name(name)) {
                    Some(id) => value_of(self.changes.updates, id),
                    None => None,
                },
            ),
        }
    }

    /// The field that a move of the column `name` is about: an added one, or else one of the
    /// original schema.
    pub open spec fn for_move(self, name: Seq<char>) -> core::result::Result<
        Option<i32>,
        ErrorView,
    > {
        match value_of(self.added_names, self.aware_name(name)) {
            Some(id) => Ok(Some(id)),
            None => match self.resolve(name) {
                Err(error) => Err(error),
                Ok(Some(field)) => Ok(Some(field.id)),
                Ok(None) => Ok(None),
            },
        }
    }

    /// The field with an ID: in its new form, or as the original schema has it.
    pub open spec fn by_id(self, id: i32) -> Option<FieldView> {
        match value_of(self.changes.updates, id) {
            Some(field) => Some(field),
            None => self.schema.by_id(id),
        }
    }

    /// The state with a field in its new form.
    pub open spec fn with_update(self, id: i32, field: FieldView) -> PendingView {
        PendingView {
            changes: ChangesView {
                updates: self.changes.updates.insert(id, field),
                ..self.changes
            },
            ..self
        }
    }

    /// Whether a field or one that encloses it, within `fuel` steps, is to be deleted.
    pub open spec fn doomed(self, id: i32, fuel: nat) -> bool
        decreases fuel,
    {
        if self.changes.deletes.contains(id) {
            true
        } else if fuel == 0 || !self.parents.contains_key(id) {
            false
        } else {
            self.doomed(self.parents[id], (fuel - 1) as nat)
        }
    }

    /// Whether a field or one that encloses it is to be deleted.
    pub open spec fn will_be_deleted(self, id: i32) -> bool {
        self.doomed(id, self.parents.len())
    }
}

/// The error for an update of a column that is not there.
pub open spec fn update_missing(name: Seq<char>) -> ErrorView {
    precondition_error("Cannot update missing column: "@ + name)
}

/// The error for an update of a column that is to be deleted.
pub open spec fn update_deleted(field: FieldView) -> ErrorView {
    precondition_error("Cannot update a column that will be deleted: "@ + field.name)
}

/// The struct that columns are added to under the path `parent`: the field itself, the value of a
/// map or the element of a list.
pub open spec fn parent_target(p: PendingView, parent: Seq<char>) -> core::result::Result<
    i32,
    ErrorView,
> {
    match p.resolve(parent) {
        Err(error) => Err(error),
        Ok(None) => Err(precondition_error("Cannot find parent struct: "@ + parent)),
        Ok(Some(field)) => {
            let target = match field.field_type {
                TypeView::MapOf(_, value) => *value,
                TypeView::List(element) => *element,
                _ => field,
            };
            if target.field_type is Struct {
                Ok(target.id)
            } else {
                Err(
                    precondition_error(
                        "Cannot add to non-struct column: "@ + parent + ": "@ + type_text(
                            target.field_type,
                        ) + " is not a struct"@,
                    ),
                )
            }
        },
    }
}

/// The field that an [`AddView`] describes, before it has IDs.
pub open spec fn new_field(add: AddView) -> FieldView {
    FieldView {
        id: 0,
        name: add.name,
        required: add.required,
        field_type: add.field_type,
        doc: add.doc,
        initial_default: add.initial_default,
        write_default: add.write_default,
    }
}

/// Where a column is added: the ID of the struct, the name that must not be taken, and the full
/// name of the column.
pub open spec fn add_target(p: PendingView, add: AddView) -> core::result::Result<
    (Option<i32>, Seq<char>, Seq<char>),
    ErrorView,
> {
    match add.parent {
        None => if add.name.len() == 0 {
            Err(precondition_error("Invalid column name: (empty)"@))
        } else if !add.literal_root_name && add.name.contains('.') {
            Err(
                precondition_error(
                    "Cannot add column with ambiguous name: "@ + add.name
                        + ", set a parent to add a nested column"@,
                ),
            )
        } else {
            Ok((None, add.name, add.name))
        },
        Some(parent) => match parent_target(p, parent) {
            Err(error) => Err(error),
            Ok(id) => if p.changes.deletes.contains(id) {
                Err(
                    precondition_error(
                        "Cannot add to a column that will be deleted: "@ + parent,
                    ),
                )
            } else {
                let canonical = match p.schema.name_of(id) {
                    Some(name) => name,
                    None => parent,
                };
                Ok((Some(id), dotted(parent, add.name), dotted(canonical, add.name)))
            },
        },
    }
}

/// Whether a column can be added, and where: its name must be free, or taken by a column that is
/// to be deleted, and a required column needs an initial default unless incompatible changes are
/// allowed.
pub open spec fn add_checked(p: PendingView, add: AddView) -> core::result::Result<
    (Option<i32>, Seq<char>),
    ErrorView,
> {
    match add_target(p, add) {
        Err(error) => Err(error),
        Ok((parent, taken, full_name)) => match p.resolve(taken) {
            Err(error) => Err(error),
            Ok(existing) => if existing matches Some(field) && !p.changes.deletes.contains(
                field.id,
            ) {
                Err(precondition_error("Cannot add column, name already exists: "@ + taken))
            } else if add.required && add.initial_default is None && !p.allow_incompatible {
                Err(
                    precondition_error(
                        "Incompatible change: cannot add required column without an initial default: "@
                            + full_name,
                    ),
                )
            } else {
                Ok((parent, full_name))
            },
        },
    }
}

/// The state with a column, under its full name, in the struct `parent`.
pub open spec fn with_column(
    p: PendingView,
    parent: Option<i32>,
    full_name: Seq<char>,
    field: FieldView,
) -> PendingView {
    PendingView {
        changes: ChangesView {
            updates: p.changes.updates.insert(field.id, field),
            additions: p.changes.additions.push((parent, field.id)),
            ..p.changes
        },
        added_names: p.added_names.insert(p.aware_name(full_name), field.id),
        added_fields: names_of_field(field, full_name, p.added_fields),
        parents: parents_of_fields(seq![field], 0, parent, p.parents),
        ..p
    }
}

/// Adds a column with fresh IDs and converted defaults.
pub open spec fn add_column(p: PendingView, add: AddView) -> (PendingView, Outcome) {
    match add_checked(p, add) {
        Err(error) => (p, Err(error)),
        Ok((parent, full_name)) => {
            let (fresh, last_column_id) = fresh_field(new_field(add), p.last_column_id);
            let p1 = PendingView { last_column_id, ..p };
            match fresh {
                Err(error) => (p1, Err(error)),
                Ok(field) => match coerced_field(field, full_name, p.texts) {
                    Err(error) => (p1, Err(error)),
                    Ok(coerced) => (with_column(p1, parent, full_name, coerced), Ok(())),
                },
            }
        },
    }
}

/// Marks a column of the original schema as deleted, unless it was changed or added to.
pub open spec fn delete_column(p: PendingView, name: Seq<char>) -> (PendingView, Outcome) {
    match p.resolve(name) {
        Err(error) => (p, Err(error)),
        Ok(None) => (p, Err(precondition_error("Cannot delete missing column: "@ + name))),
        Ok(Some(field)) => if p.changes.adds_to(Some(field.id)) {
            (p, Err(precondition_error("Cannot delete a column that has additions: "@ + name)))
        } else if p.changes.updates.contains_key(field.id) {
            (p, Err(precondition_error("Cannot delete a column that has updates: "@ + name)))
        } else {
            (
                PendingView {
                    changes: ChangesView {
                        deletes: p.changes.deletes.insert(field.id),
                        ..p.changes
                    },
                    ..p
                },
                Ok(()),
            )
        },
    }
}

/// Gives a column of the original schema another name.
pub open spec fn rename_column(p: PendingView, name: Seq<char>, new_name: Seq<char>) -> (
    PendingView,
    Outcome,
) {
    match p.resolve(name) {
        Err(error) => (p, Err(error)),
        Ok(None) => (p, Err(precondition_error("Cannot rename missing column: "@ + name))),
        Ok(Some(field)) => if p.changes.deletes.contains(field.id) {
            (
                p,
                Err(
                    precondition_error(
                        "Cannot rename a column that will be deleted: "@ + field.name,
                    ),
                ),
            )
        } else {
            let current = pending_form(field, p.changes);
            (p.with_update(current.id, FieldView { name: new_name, ..current }), Ok(()))
        },
    }
}

/// Makes a column required or optional.
pub open spec fn set_required(p: PendingView, name: Seq<char>, required: bool) -> (
    PendingView,
    Outcome,
) {
    match p.for_update(name) {
        Err(error) => (p, Err(error)),
        Ok(None) => (p, Err(update_missing(name))),
        Ok(Some(field)) => if field.required == required {
            (p, Ok(()))
        } else if required && !(holds_id(p.added_names, field.id) && field.initial_default is Some)
            && !p.allow_incompatible {
            (
                p,
                Err(
                    precondition_error(
                        "Cannot change column nullability: "@ + name
                            + ": optional -> required"@,
                    ),
                ),
            )
        } else if p.changes.deletes.contains(field.id) {
            (p, Err(update_deleted(field)))
        } else {
            (p.with_update(field.id, FieldView { required, ..field }), Ok(()))
        },
    }
}

/// The error for a change of type that is not allowed.
pub open spec fn type_change(name: Seq<char>, old: TypeView, new: PrimitiveType) -> Seq<char> {
    "Cannot change column type: "@ + name + ": "@ + type_text(old) + " -> "@ + primitive_text(new)
}

/// Promotes a column to a wider type, its defaults with it.
pub open spec fn update_type(p: PendingView, name: Seq<char>, new_type: PrimitiveType) -> (
    PendingView,
    Outcome,
) {
    match p.for_update(name) {
        Err(error) => (p, Err(error)),
        Ok(None) => (p, Err(update_missing(name))),
        Ok(Some(field)) => if p.changes.deletes.contains(field.id) {
            (p, Err(update_deleted(field)))
        } else {
            let message = type_change(name, field.field_type, new_type);
            match validated(new_type) {
                Err(error) => (p, Err(precondition_over(message, error))),
                Ok(promoted) => if field.field_type == promoted {
                    (p, Ok(()))
                } else if !promotes(field.field_type, new_type) {
                    (p, Err(precondition_error(message)))
                } else {
                    let old = field.field_type->Primitive_0;
                    match promoted_default(field.initial_default, old, promoted) {
                        Err(error) => (p, Err(error)),
                        Ok(initial_default) => match promoted_default(
                            field.write_default,
                            old,
                            promoted,
                        ) {
                            Err(error) => (p, Err(error)),
                            Ok(write_default) => (
                                p.with_update(
                                    field.id,
                                    FieldView {
                                        field_type: promoted,
                                        initial_default,
                                        write_default,
                                        ..field
                                    },
                                ),
                                Ok(()),
                            ),
                        },
                    }
                },
            }
        },
    }
}

/// Sets or clears the documentation of a column.
pub open spec fn update_doc(p: PendingView, name: Seq<char>, doc: Option<Seq<char>>) -> (
    PendingView,
    Outcome,
) {
    match p.for_update(name) {
        Err(error) => (p, Err(error)),
        Ok(None) => (p, Err(update_missing(name))),
        Ok(Some(field)) => if p.changes.deletes.contains(field.id) {
            (p, Err(update_deleted(field)))
        } else if field.doc == doc {
            (p, Ok(()))
        } else {
            (p.with_update(field.id, FieldView { doc, ..field }), Ok(()))
        },
    }
}

/// Sets or clears the write default of a column. Clearing it is recorded even where there is none.
pub open spec fn update_default(
    p: PendingView,
    name: Seq<char>,
    default: Option<LiteralView>,
) -> (PendingView, Outcome) {
    match p.for_update(name) {
        Err(error) => (p, Err(error)),
        Ok(None) => (p, Err(update_missing(name))),
        Ok(Some(field)) => if p.changes.deletes.contains(field.id) {
            (p, Err(update_deleted(field)))
        } else {
            match coerced_default(field.field_type, default, name, p.texts) {
                Err(error) => (p, Err(error)),
                Ok(write_default) => if write_default is Some && field.write_default
                    == write_default {
                    (p, Ok(()))
                } else {
                    (p.with_update(field.id, FieldView { write_default, ..field }), Ok(()))
                },
            }
        },
    }
}

/// The move of a field that a position asks for.
pub open spec fn requested_move(
    p: PendingView,
    name: Seq<char>,
    field_id: i32,
    position: PositionView,
) -> core::result::Result<PendingMove, ErrorView> {
    match position {
        PositionView::First => Ok(
            PendingMove { field_id, reference_field_id: None, kind: MoveKind::First },
        ),
        PositionView::Before(reference) => match p.for_move(reference) {
            Err(error) => Err(error),
            Ok(None) => Err(
                precondition_error(
                    "Cannot move "@ + name + " before missing column: "@ + reference,
                ),
            ),
            Ok(Some(id)) => if id == field_id {
                Err(precondition_error("Cannot move "@ + name + " before itself"@))
            } else {
                Ok(
                    PendingMove {
                        field_id,
                        reference_field_id: Some(id),
                        kind: MoveKind::Before,
                    },
                )
            },
        },
        PositionView::After(reference) => match p.for_move(reference) {
            Err(error) => Err(error),
            Ok(None) => Err(
                precondition_error(
                    "Cannot move "@ + name + " after missing column: "@ + reference,
                ),
            ),
            Ok(Some(id)) => if id == field_id {
                Err(precondition_error("Cannot move "@ + name + " after itself"@))
            } else {
                Ok(
                    PendingMove {
                        field_id,
                        reference_field_id: Some(id),
                        kind: MoveKind::After,
                    },
                )
            },
        },
    }
}

/// Nothing, where the field `parent` is a struct or there is none.
pub open spec fn struct_parent(p: PendingView, name: Seq<char>, parent: Option<i32>) -> Outcome {
    match parent {
        None => Ok(()),
        Some(id) => match p.by_id(id) {
            None => Err(
                unexpected_error(
                    "Parent field "@ + int_numeral(id as int) + " is missing for column "@ + name,
                ),
            ),
            Some(field) => if field.field_type is Struct {
                Ok(())
            } else {
                Err(
                    precondition_error(
                        "Cannot move fields in non-struct type: "@ + type_text(field.field_type),
                    ),
                )
            },
        },
    }
}

/// Records the move of a column within its struct.
pub open spec fn move_column(p: PendingView, name: Seq<char>, position: PositionView) -> (
    PendingView,
    Outcome,
) {
    match p.for_move(name) {
        Err(error) => (p, Err(error)),
        Ok(None) => (p, Err(precondition_error("Cannot move missing column: "@ + name))),
        Ok(Some(field_id)) => {
            let parent = value_of(p.parents, field_id);
            match requested_move(p, name, field_id, position) {
                Err(error) => (p, Err(error)),
                Ok(pending) => match struct_parent(p, name, parent) {
                    Err(error) => (p, Err(error)),
                    Ok(_) => if pending.reference_field_id matches Some(reference) && value_of(
                        p.parents,
                        reference,
                    ) != parent {
                        (
                            p,
                            Err(
                                precondition_error(
                                    "Cannot move field "@ + name + " to a different struct"@,
                                ),
                            ),
                        )
                    } else {
                        (
                            PendingView {
                                changes: ChangesView {
                                    moves: p.changes.moves.push((parent, pending)),
                                    ..p.changes
                                },
                                ..p
                            },
                            Ok(()),
                        )
                    },
                },
            }
        },
    }
}

/// Whether the name of an added field matches, by the case sensitivity of the update.
pub open spec fn name_matches(p: PendingView, added: Seq<char>, name: Seq<char>) -> bool {
    if p.case_sensitive {
        added == name
    } else {
        lower(added) == lower(name)
    }
}

/// The added fields from `i` on that a name stands for: the last one that stays, the first one that
/// is to be deleted, and whether several stay.
pub open spec fn added_matches(
    p: PendingView,
    name: Seq<char>,
    i: nat,
    live: Option<i32>,
    stale: Option<i32>,
    several: bool,
) -> (Option<i32>, Option<i32>, bool)
    decreases p.added_fields.len() - i,
{
    if i >= p.added_fields.len() {
        (live, stale, several)
    } else {
        let (added, id) = p.added_fields[i as int];
        if !name_matches(p, added, name) {
            added_matches(p, name, i + 1, live, stale, several)
        } else if p.will_be_deleted(id) {
            added_matches(
                p,
                name,
                i + 1,
                live,
                if stale is Some {
                    stale
                } else {
                    Some(id)
                },
                several,
            )
        } else {
            added_matches(p, name, i + 1, Some(id), stale, several || live is Some)
        }
    }
}

/// The field that a name stands for as an identifier field: one that stays rather than one that is
/// to be deleted, and an added one rather than one of the original schema.
pub open spec fn identifier_id(p: PendingView, name: Seq<char>) -> core::result::Result<
    Option<i32>,
    ErrorView,
> {
    match p.resolve(name) {
        Err(error) => Err(error),
        Ok(base) => {
            let (live, stale, several) = added_matches(p, name, 0, None, None, false);
            let base_id = match base {
                Some(field) => Some(field.id),
                None => None,
            };
            let live_base = base matches Some(field) && !p.will_be_deleted(field.id);
            if !p.case_sensitive && (several || (live is Some && live_base)) {
                Err(collision_error(lower(name)))
            } else if live is Some {
                Ok(live)
            } else if live_base {
                Ok(base_id)
            } else if stale is Some {
                Ok(stale)
            } else {
                Ok(base_id)
            }
        },
    }
}

/// The selection that `names` from `i` on make, after what was selected before.
pub open spec fn selection_of(
    p: PendingView,
    names: Seq<Seq<char>>,
    i: nat,
    done: SelectionView,
) -> core::result::Result<SelectionView, ErrorView>
    decreases names.len() - i,
{
    if i >= names.len() {
        Ok(done)
    } else {
        match identifier_id(p, names[i as int]) {
            Err(error) => Err(error),
            Ok(Some(id)) => selection_of(
                p,
                names,
                i + 1,
                SelectionView {
                    resolved: if done.resolved.contains(id) {
                        done.resolved
                    } else {
                        done.resolved.push(id)
                    },
                    ..done
                },
            ),
            Ok(None) => selection_of(
                p,
                names,
                i + 1,
                SelectionView {
                    unresolved: done.unresolved.push((names[i as int], p.case_sensitive)),
                    ..done
                },
            ),
        }
    }
}

/// An empty selection.
pub open spec fn no_selection() -> SelectionView {
    SelectionView { resolved: Seq::empty(), unresolved: Seq::empty() }
}

/// Replaces the identifier fields.
pub open spec fn set_identifier_fields(p: PendingView, names: Seq<Seq<char>>) -> (
    PendingView,
    Outcome,
) {
    match (if p.case_sensitive {
        Ok(())
    } else {
        no_collision(p.schema)
    }) {
        Err(error) => (p, Err(error)),
        Ok(_) => match selection_of(p, names, 0, no_selection()) {
            Err(error) => (p, Err(error)),
            Ok(selection) => (PendingView { replacement: Some(selection), ..p }, Ok(())),
        },
    }
}

/// The error for deleting a field that encloses the identifier field `name`, where `current` or one
/// that encloses it, within `fuel` steps, is to be deleted.
pub open spec fn enclosing_problem(
    p: PendingView,
    current: Option<i32>,
    name: Seq<char>,
    fuel: nat,
) -> Option<ErrorView>
    decreases fuel,
{
    match current {
        None => None,
        Some(id) => if p.changes.deletes.contains(id) {
            match p.schema.by_id(id) {
                None => Some(
                    unexpected_error(
                        "Identifier field parent "@ + int_numeral(id as int)
                            + " is missing from the schema"@,
                    ),
                ),
                Some(parent) => Some(
                    precondition_error(
                        "Cannot delete field "@ + parent.name
                            + " as it will delete nested identifier field "@ + name,
                    ),
                ),
            }
        } else if fuel == 0 {
            None
        } else {
            enclosing_problem(p, value_of(p.parents, id), name, (fuel - 1) as nat)
        },
    }
}

/// Whether a field is an added one or beneath one.
pub open spec fn is_added(added_fields: Seq<(Seq<char>, i32)>, id: i32) -> bool {
    exists|i: int| 0 <= i < added_fields.len() && (#[trigger] added_fields[i]).1 == id
}

/// What is wrong with the identifier field `id`: it must be one of the original schema, of which
/// neither it nor a field that encloses it is to be deleted, or an added one.
pub open spec fn deletion_problem(p: PendingView, id: i32) -> Option<ErrorView> {
    match p.schema.by_id(id) {
        None => if is_added(p.added_fields, id) {
            None
        } else {
            Some(
                unexpected_error(
                    "Identifier field "@ + int_numeral(id as int)
                        + " is missing from the schema"@,
                ),
            )
        },
        Some(field) => if p.changes.deletes.contains(id) {
            Some(precondition_error("Cannot delete identifier field "@ + field.name))
        } else {
            enclosing_problem(p, value_of(p.parents, id), field.name, p.parents.len())
        },
    }
}

/// What is wrong with the first unfit identifier field from `i` on.
pub open spec fn first_deletion_problem(p: PendingView, ids: Seq<i32>, i: nat) -> Option<ErrorView>
    decreases ids.len() - i,
{
    if i >= ids.len() {
        None
    } else {
        match deletion_problem(p, ids[i as int]) {
            Some(error) => Some(error),
            None => first_deletion_problem(p, ids, i + 1),
        }
    }
}

/// The identifier fields whose IDs are known.
pub open spec fn known_identifiers(p: PendingView) -> Seq<i32> {
    match p.replacement {
        Some(selection) => selection.resolved,
        None => p.identifier_ids,
    }
}

/// The IDs of a selection in the updated schema: those that are known, and after them those of the
/// names from `i` on.
pub open spec fn resolved_identifiers(
    schema: SchemaView,
    names: Seq<(Seq<char>, bool)>,
    i: nat,
    done: Seq<i32>,
) -> core::result::Result<Seq<i32>, ErrorView>
    decreases names.len() - i,
{
    if i >= names.len() {
        Ok(done)
    } else {
        let (name, case_sensitive) = names[i as int];
        match (if case_sensitive {
            Ok(())
        } else {
            no_collision(schema)
        }) {
            Err(error) => Err(error),
            Ok(_) => match (if case_sensitive {
                schema.by_name(name)
            } else {
                schema.by_lower_name(name)
            }) {
                None => Err(
                    precondition_error(
                        "Cannot add field "@ + name
                            + " as an identifier field: not found in current schema or added columns"@,
                    ),
                ),
                Some(field) => resolved_identifiers(schema, names, i + 1, done.push(field.id)),
            },
        }
    }
}

/// The identifier fields of the updated schema.
pub open spec fn updated_identifiers(p: PendingView, schema: SchemaView) -> core::result::Result<
    Seq<i32>,
    ErrorView,
> {
    match p.replacement {
        Some(selection) => resolved_identifiers(
            schema,
            selection.unresolved,
            0,
            selection.resolved,
        ),
        None => Ok(p.identifier_ids),
    }
}

/// A schema with the given fields and identifier fields, under the schema ID 0.
pub open spec fn built_schema(fields: Seq<FieldView>, ids: Seq<i32>) -> core::result::Result<
    SchemaView,
    ErrorView,
> {
    match checked_schema(
        SchemaView {
            schema_id: 0,
            fields,
            identifier_field_ids: distinct_ids(ids, 0, Seq::empty()),
        },
    ) {
        Ok(schema) => Ok(schema),
        Err(error) => Err(precondition_over("Cannot apply schema update"@, error)),
    }
}

/// The schema after the update.
pub open spec fn applied(p: PendingView) -> core::result::Result<SchemaView, ErrorView> {
    match first_deletion_problem(p, known_identifiers(p), 0) {
        Some(error) => Err(error),
        None => match rebuilt_fields(p.schema.fields, p.changes, None) {
            Err(error) => Err(error),
            Ok(fields) => match built_schema(fields, Seq::empty()) {
                Err(error) => Err(error),
                Ok(bare) => match updated_identifiers(p, bare) {
                    Err(error) => Err(error),
                    Ok(ids) => match built_schema(fields, ids) {
                        Err(error) => Err(error),
                        Ok(schema) => if p.case_sensitive {
                            Ok(schema)
                        } else {
                            match no_collision(schema) {
                                Err(error) => Err(error),
                                Ok(_) => Ok(schema),
                            }
                        },
                    },
                },
            },
        },
    }
}

} // verus!
