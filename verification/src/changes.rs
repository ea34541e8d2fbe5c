//! The changes that a schema update has collected.

use std::collections::{HashMap, HashSet};
use std::sync::Arc;

use vstd::prelude::*;

use crate::moves::{same_parent, PendingMove};
use crate::types::NestedField;
#[allow(unused_imports)]
use crate::types::{field_view, FieldView};

verus! {

broadcast use vstd::std_specs::hash::group_hash_axioms;

/// Fields by their IDs.
#[derive(Debug)]
pub struct FieldMap {
    fields: HashMap<i32, Arc<NestedField>>,
}

impl View for FieldMap {
    type V = Map<i32, FieldView>;

    closed spec fn view(&self) -> Map<i32, FieldView> {
        self.fields@.map_values(|field: Arc<NestedField>| field_view(*field))
    }
}

impl FieldMap {
    /// A map without fields.
    pub fn new() -> (map: FieldMap)
        ensures
            map@ == Map::<i32, FieldView>::empty(),
    {
        let map = FieldMap { fields: HashMap::new() };
        assert(map@ =~= Map::empty());
        map
    }

    /// The field with the given ID.
    pub fn get(&self, id: i32) -> (field: Option<&Arc<NestedField>>)
        ensures
            match field {
                Some(f) => self@.contains_key(id) && self@[id] == f@,
                None => !self@.contains_key(id),
            },
    {
        self.fields.get(&id)
    }

    /// Whether the map holds no field.
    pub fn is_empty(&self) -> (empty: bool)
        ensures
            empty == (self@ == Map::<i32, FieldView>::empty()),
    {
        let empty = self.fields.is_empty();
        proof {
            if empty {
                assert(self.fields@.dom() =~= Set::empty());
                assert(self@ =~= Map::empty());
            } else if self@ == Map::<i32, FieldView>::empty() {
                assert(self.fields@.dom() =~= self@.dom());
            }
        }
        empty
    }

    /// Whether there is a field with the given ID.
    pub fn contains(&self, id: i32) -> (found: bool)
        ensures
            found == self@.contains_key(id),
    {
        self.fields.contains_key(&id)
    }

    /// Puts a field under the given ID, in place of the one that was there.
    pub fn insert(&mut self, id: i32, field: Arc<NestedField>)
        ensures
            final(self)@ == old(self)@.insert(id, field@),
    {
        let ghost before = self.fields@;
        self.fields.insert(id, field);
        assert(self@ =~= old(self)@.insert(id, field@));
    }
}

/// What an update has collected: fields in their new form, fields to delete, and for each struct,
/// by its ID or `None` for the root, the fields to append and the moves to make, in order.
#[derive(Debug)]
pub struct Changes {
    pub updates: FieldMap,
    pub deletes: HashSet<i32>,
    pub additions: Vec<(Option<i32>, i32)>,
    pub moves: Vec<(Option<i32>, PendingMove)>,
}

/// The mathematical value of [`Changes`].
#[verifier::ext_equal]
pub struct ChangesView {
    pub updates: Map<i32, FieldView>,
    pub deletes: Set<i32>,
    pub additions: Seq<(Option<i32>, i32)>,
    pub moves: Seq<(Option<i32>, PendingMove)>,
}

impl View for Changes {
    type V = ChangesView;

    open spec fn view(&self) -> ChangesView {
        ChangesView {
            updates: self.updates@,
            deletes: self.deletes@,
            additions: self.additions@,
            moves: self.moves@,
        }
    }
}

/// No changes at all.
pub open spec fn no_changes() -> ChangesView {
    ChangesView {
        updates: Map::empty(),
        deletes: Set::empty(),
        additions: Seq::empty(),
        moves: Seq::empty(),
    }
}

impl ChangesView {
    /// Whether fields are appended to the struct `parent`.
    pub open spec fn adds_to(self, parent: Option<i32>) -> bool {
        exists|i: int| 0 <= i < self.additions.len() && (#[trigger] self.additions[i]).0 == parent
    }

    /// Whether fields are moved within the struct `parent`.
    pub open spec fn moves_in(self, parent: Option<i32>) -> bool {
        exists|i: int| 0 <= i < self.moves.len() && (#[trigger] self.moves[i]).0 == parent
    }

    /// Whether the field `id` is appended somewhere.
    pub open spec fn adds(self, id: i32) -> bool {
        exists|i: int| 0 <= i < self.additions.len() && (#[trigger] self.additions[i]).1 == id
    }
}

impl Changes {
    /// No changes at all.
    pub fn new() -> (changes: Changes)
        ensures
            changes@ == no_changes(),
    {
        Changes {
            updates: FieldMap::new(),
            deletes: HashSet::new(),
            additions: Vec::new(),
            moves: Vec::new(),
        }
    }

    /// Whether the field `id` is to be deleted.
    pub fn deletes(&self, id: i32) -> (deleted: bool)
        ensures
            deleted == self@.deletes.contains(id),
    {
        self.deletes.contains(&id)
    }

    /// Whether fields are appended to the struct `parent`.
    pub fn adds_to(&self, parent: Option<i32>) -> (found: bool)
        ensures
            found == self@.adds_to(parent),
    {
        let mut i: usize = 0;
        while i < self.additions.len()
            invariant
                i <= self.additions@.len(),
                forall|j: int| 0 <= j < i ==> (#[trigger] self@.additions[j]).0 != parent,
            decreases self.additions@.len() - i,
        {
            if same_parent(self.additions[i].0, parent) {
                assert(self@.additions[i as int].0 == parent);
                return true;
            }
            i += 1;
        }
        false
    }

    /// Whether fields are moved within the struct `parent`.
    pub fn moves_in(&self, parent: Option<i32>) -> (found: bool)
        ensures
            found == self@.moves_in(parent),
    {
        let mut i: usize = 0;
        while i < self.moves.len()
            invariant
                i <= self.moves@.len(),
                forall|j: int| 0 <= j < i ==> (#[trigger] self@.moves[j]).0 != parent,
            decreases self.moves@.len() - i,
        {
            if same_parent(self.moves[i].0, parent) {
                assert(self@.moves[i as int].0 == parent);
                return true;
            }
            i += 1;
        }
        false
    }

    /// Whether the field `id` is appended somewhere.
    pub fn adds(&self, id: i32) -> (found: bool)
        ensures
            found == self@.adds(id),
    {
        let mut i: usize = 0;
        while i < self.additions.len()
            invariant
                i <= self.additions@.len(),
                forall|j: int| 0 <= j < i ==> (#[trigger] self@.additions[j]).1 != id,
            decreases self.additions@.len() - i,
        {
            if self.additions[i].1 == id {
                assert(self@.additions[i as int].1 == id);
                return true;
            }
            i += 1;
        }
        false
    }
}

} // verus!
