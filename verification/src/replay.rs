//! Runs the operations of an update, in order.

use vstd::prelude::*;

use crate::action::SchemaOperation;
#[allow(unused_imports)]
use crate::action::{operations_view, OperationView};
use crate::apply::PendingSchemaUpdate;
use crate::error::Error;
#[allow(unused_imports)]
use crate::error::outcome;
#[allow(unused_imports)]
use crate::pending::{
    add_column, delete_column, move_column, rename_column, set_identifier_fields, set_required,
    update_default, update_doc, update_type, Outcome, PendingView,
};
use crate::union::apply_union_by_name;
#[allow(unused_imports)]
use crate::union::union_schema;

verus! {

/// One operation.
#[verifier::opaque]
pub open spec fn operated(p: PendingView, operation: OperationView) -> (PendingView, Outcome) {
    match operation {
        OperationView::Add(add) => add_column(p, add),
        OperationView::Delete(name) => delete_column(p, name),
        OperationView::Rename { name, new_name } => rename_column(p, name, new_name),
        OperationView::SetRequired { name, required } => set_required(p, name, required),
        OperationView::UpdateType { name, new_type } => update_type(p, name, new_type),
        OperationView::UpdateDoc { name, doc } => update_doc(p, name, doc),
        OperationView::UpdateDefault { name, default } => update_default(p, name, default),
        OperationView::Move { name, position } => move_column(p, name, position),
        OperationView::SetIdentifierFields(names) => set_identifier_fields(p, names),
        OperationView::UnionByName(schema) => union_schema(p, schema),
        OperationView::SetCaseSensitive(case_sensitive) => (
            PendingView { case_sensitive, ..p },
            Ok(()),
        ),
        OperationView::AllowIncompatibleChanges => (
            PendingView { allow_incompatible: true, ..p },
            Ok(()),
        ),
    }
}

/// The operations from `i` on, one after the other, up to the first that fails.
pub open spec fn replayed(p: PendingView, operations: Seq<OperationView>, i: nat) -> (
    PendingView,
    Outcome,
)
    decreases operations.len() - i,
{
    if i >= operations.len() {
        (p, Ok(()))
    } else {
        match operated(p, operations[i as int]) {
            (p1, Err(error)) => (p1, Err(error)),
            (p1, Ok(_)) => replayed(p1, operations, i + 1),
        }
    }
}

impl<'a> PendingSchemaUpdate<'a> {
    fn apply_operation(&mut self, operation: &SchemaOperation) -> (result: Result<(), Error>)
        ensures
            (final(self)@, outcome(result)) == operated(old(self)@, operation@),
    {
        reveal(operated);
        match operation {
            SchemaOperation::Add(add) => self.add_column(add),
            SchemaOperation::Delete(name) => self.delete_column(name.as_str()),
            SchemaOperation::Rename { name, new_name } => self.rename_column(
                name.as_str(),
                new_name.as_str(),
            ),
            SchemaOperation::SetRequired { name, required } => self.set_required(
                name.as_str(),
                *required,
            ),
            SchemaOperation::UpdateType { name, new_type } => self.update_column_type(
                name.as_str(),
                new_type,
            ),
            SchemaOperation::UpdateDoc { name, doc } => self.update_column_doc(name.as_str(), doc),
            SchemaOperation::UpdateDefault { name, default } => self.update_column_default(
                name.as_str(),
                default,
            ),
            SchemaOperation::Move { name, position } => self.move_column(name.as_str(), position),
            SchemaOperation::SetIdentifierFields(names) => self.set_identifier_fields(names),
            SchemaOperation::UnionByName(schema) => apply_union_by_name(self, schema),
            SchemaOperation::SetCaseSensitive(case_sensitive) => {
                self.set_case_sensitive(*case_sensitive);
                Ok(())
            },
            SchemaOperation::AllowIncompatibleChanges => {
                self.allow_incompatible_changes();
                Ok(())
            },
        }
    }

    /// Runs operations in order, up to the first that fails.
    pub fn apply_operations(&mut self, operations: &[SchemaOperation]) -> (result: Result<(), Error>)
        ensures
            (final(self)@, outcome(result)) == replayed(
                old(self)@,
                operations_view(operations@),
                0,
            ),
    {
        let ghost all = operations_view(operations@);
        let mut i: usize = 0;
        while i < operations.len()
            invariant
                i <= operations@.len(),
                all == operations_view(operations@),
                replayed(self@, all, i as nat) == replayed(old(self)@, all, 0),
            decreases operations@.len() - i,
        {
            assert(all[i as int] == operations@[i as int]@);
            match self.apply_operation(&operations[i]) {
                Ok(_) => {},
                Err(error) => return Err(error),
            }
            i += 1;
        }
        Ok(())
    }
}

} // verus!
