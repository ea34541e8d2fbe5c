//! Moving fields within their struct.

use std::sync::Arc;

use vstd::prelude::*;

use crate::error::{precondition, unexpected, Error};
#[allow(unused_imports)]
use crate::error::{outcome, precondition_error, unexpected_error, ErrorView};
use crate::types::NestedField;
#[allow(unused_imports)]
use crate::types::{fields_view, FieldView};

verus! {

/// Where a column is to be moved, by the names that the caller gave.
#[derive(Debug)]
pub enum MovePosition {
    First,
    Before(String),
    After(String),
}

/// The mathematical value of a [`MovePosition`].
pub enum PositionView {
    First,
    Before(Seq<char>),
    After(Seq<char>),
}

impl View for MovePosition {
    type V = PositionView;

    open spec fn view(&self) -> PositionView {
        match *self {
            MovePosition::First => PositionView::First,
            MovePosition::Before(name) => PositionView::Before(name@),
            MovePosition::After(name) => PositionView::After(name@),
        }
    }
}

/// How a field is moved.
#[derive(Debug, Clone, Copy, PartialEq, Eq, Structural)]
pub enum MoveKind {
    First,
    Before,
    After,
}

/// A move whose names were resolved to field IDs.
#[derive(Debug, Clone, Copy, PartialEq, Eq, Structural)]
pub struct PendingMove {
    pub field_id: i32,
    pub reference_field_id: Option<i32>,
    pub kind: MoveKind,
}

impl PendingMove {
    /// A move to the front.
    pub fn first(field_id: i32) -> (pending: PendingMove)
        ensures
            pending == (PendingMove {
                field_id,
                reference_field_id: None,
                kind: MoveKind::First,
            }),
    {
        PendingMove { field_id, reference_field_id: None, kind: MoveKind::First }
    }

    /// A move to the place before another field.
    pub fn before(field_id: i32, reference_field_id: i32) -> (pending: PendingMove)
        ensures
            pending == (PendingMove {
                field_id,
                reference_field_id: Some(reference_field_id),
                kind: MoveKind::Before,
            }),
    {
        PendingMove {
            field_id,
            reference_field_id: Some(reference_field_id),
            kind: MoveKind::Before,
        }
    }

    /// A move to the place after another field.
    pub fn after(field_id: i32, reference_field_id: i32) -> (pending: PendingMove)
        ensures
            pending == (PendingMove {
                field_id,
                reference_field_id: Some(reference_field_id),
                kind: MoveKind::After,
            }),
    {
        PendingMove {
            field_id,
            reference_field_id: Some(reference_field_id),
            kind: MoveKind::After,
        }
    }
}

/// The index of the first field from `i` on that has the given ID.
pub open spec fn index_of_id(fields: Seq<FieldView>, id: i32, i: nat) -> Option<nat>
    decreases fields.len() - i,
{
    if i >= fields.len() {
        None
    } else if fields[i as int].id == id {
        Some(i)
    } else {
        index_of_id(fields, id, i + 1)
    }
}

/// The index at which a field taken out of a struct goes back in among the `others`.
pub open spec fn target_index(others: Seq<FieldView>, pending: PendingMove) -> core::result::Result<
    nat,
    ErrorView,
> {
    if pending.kind == MoveKind::First {
        Ok(0)
    } else {
        match pending.reference_field_id {
            None => Err(unexpected_error("Relative move is missing its reference field"@)),
            Some(reference) => match index_of_id(others, reference, 0) {
                None => Err(
                    precondition_error(
                        "Cannot move relative to a column that is not in the updated struct"@,
                    ),
                ),
                Some(at) => Ok(
                    if pending.kind == MoveKind::After {
                        at + 1
                    } else {
                        at
                    },
                ),
            },
        }
    }
}

/// One move: the fields afterwards, and whether it succeeded.
pub open spec fn moved(fields: Seq<FieldView>, pending: PendingMove) -> (
    Seq<FieldView>,
    core::result::Result<(), ErrorView>,
) {
    match index_of_id(fields, pending.field_id, 0) {
        None => (
            fields,
            Err(precondition_error("Cannot move a column that is not in the updated struct"@)),
        ),
        Some(from) => {
            let others = fields.remove(from as int);
            match target_index(others, pending) {
                Ok(at) => (others.insert(at as int, fields[from as int]), Ok(())),
                Err(error) => (others, Err(error)),
            }
        },
    }
}

/// The moves from `i` on, one after the other, up to the first that fails.
pub open spec fn all_moved(fields: Seq<FieldView>, moves: Seq<PendingMove>, i: nat) -> (
    Seq<FieldView>,
    core::result::Result<(), ErrorView>,
)
    decreases moves.len() - i,
{
    if i >= moves.len() {
        (fields, Ok(()))
    } else {
        match moved(fields, moves[i as int]) {
            (fields1, Ok(_)) => all_moved(fields1, moves, i + 1),
            (fields1, Err(error)) => (fields1, Err(error)),
        }
    }
}

/// The moves from `i` on that belong to the struct `parent`, after those in `done`.
pub open spec fn moves_within(
    moves: Seq<(Option<i32>, PendingMove)>,
    parent: Option<i32>,
    i: nat,
    done: Seq<PendingMove>,
) -> Seq<PendingMove>
    decreases moves.len() - i,
{
    if i >= moves.len() {
        done
    } else if moves[i as int].0 == parent {
        moves_within(moves, parent, i + 1, done.push(moves[i as int].1))
    } else {
        moves_within(moves, parent, i + 1, done)
    }
}

/// Whether two optional IDs are the same.
pub(crate) fn same_parent(a: Option<i32>, b: Option<i32>) -> (same: bool)
    ensures
        same == (a == b),
{
    match (a, b) {
        (Some(x), Some(y)) => x == y,
        (None, None) => true,
        _ => false,
    }
}

/// The moves that belong to the struct `parent`, in order.
pub(crate) fn moves_of(moves: &Vec<(Option<i32>, PendingMove)>, parent: Option<i32>) -> (result: Vec<
    PendingMove,
>)
    ensures
        result@ == moves_within(moves@, parent, 0, Seq::empty()),
{
    let mut result: Vec<PendingMove> = Vec::new();
    let mut i: usize = 0;
    while i < moves.len()
        invariant
            i <= moves@.len(),
            moves_within(moves@, parent, i as nat, result@) == moves_within(
                moves@,
                parent,
                0,
                Seq::empty(),
            ),
        decreases moves@.len() - i,
    {
        if same_parent(moves[i].0, parent) {
            result.push(moves[i].1);
        }
        i += 1;
    }
    result
}

/// The index of the first field with the given ID.
fn position(fields: &Vec<Arc<NestedField>>, id: i32) -> (index: Option<usize>)
    ensures
        match index {
            Some(at) => at < fields@.len() <= usize::MAX && index_of_id(fields_view(fields@), id, 0)
                == Some(at as nat),
            None => index_of_id(fields_view(fields@), id, 0) is None,
        },
{
    let ghost view = fields_view(fields@);
    let mut i: usize = 0;
    while i < fields.len()
        invariant
            i <= fields@.len(),
            view == fields_view(fields@),
            index_of_id(view, id, i as nat) == index_of_id(view, id, 0),
        decreases fields@.len() - i,
    {
        if fields[i].id == id {
            assert(view[i as int].id == id);
            return Some(i);
        }
        i += 1;
    }
    None
}

/// Applies moves to the fields of one struct, in order, up to the first that fails.
pub fn apply_moves(fields: &mut Vec<Arc<NestedField>>, moves: &Vec<PendingMove>) -> (result: Result<
    (),
    Error,
>)
    ensures
        (fields_view(final(fields)@), outcome(result)) == all_moved(
            fields_view(old(fields)@),
            moves@,
            0,
        ),
{
    let ghost start = fields_view(fields@);
    let mut i: usize = 0;
    while i < moves.len()
        invariant
            i <= moves@.len(),
            start == fields_view(old(fields)@),
            all_moved(fields_view(fields@), moves@, i as nat) == all_moved(start, moves@, 0),
        decreases moves@.len() - i,
    {
        let pending_move = moves[i];
        let ghost before = fields_view(fields@);
        let from: usize = match position(fields, pending_move.field_id) {
            Some(from) => from,
            None => return Err(
                precondition(
                    "Cannot move a column that is not in the updated struct".to_owned(),
                ),
            ),
        };
        let field = fields.remove(from);
        let ghost others = fields_view(fields@);
        assert(others =~= before.remove(from as int));
        let index: usize = match pending_move.kind {
            MoveKind::First => 0,
            MoveKind::Before | MoveKind::After => {
                let reference_id: i32 = match pending_move.reference_field_id {
                    Some(id) => id,
                    None => return Err(
                        unexpected("Relative move is missing its reference field".to_owned()),
                    ),
                };
                let reference: usize = match position(fields, reference_id) {
                    Some(at) => at,
                    None => return Err(
                        precondition(
                            "Cannot move relative to a column that is not in the updated struct".to_owned(),
                        ),
                    ),
                };
                if pending_move.kind == MoveKind::After {
                    reference + 1
                } else {
                    reference
                }
            },
        };
        fields.insert(index, field);
        assert(fields_view(fields@) =~= others.insert(index as int, before[from as int]));
        i += 1;
    }
    Ok(())
}

proof fn lemma_index_of_id(fields: Seq<FieldView>, id: i32, i: nat)
    ensures
        match index_of_id(fields, id, i) {
            Some(at) => i <= at < fields.len() && fields[at as int].id == id && forall|j: int|
                i <= j < at ==> (#[trigger] fields[j]).id != id,
            None => forall|j: int| i <= j < fields.len() ==> (#[trigger] fields[j]).id != id,
        },
    decreases fields.len() - i,
{
    if i < fields.len() && fields[i as int].id != id {
        lemma_index_of_id(fields, id, i + 1);
    }
}

/// A move keeps every field: the struct holds the same fields before and after it.
pub proof fn law_moves_keep_every_field(fields: Seq<FieldView>, moves: Seq<PendingMove>, i: nat)
    requires
        all_moved(fields, moves, i).1 is Ok,
    ensures
        all_moved(fields, moves, i).0.to_multiset() == fields.to_multiset(),
    decreases moves.len() - i,
{
    if i < moves.len() {
        let pending = moves[i as int];
        lemma_index_of_id(fields, pending.field_id, 0);
        let from = index_of_id(fields, pending.field_id, 0)->0;
        let others = fields.remove(from as int);
        if let Some(reference) = pending.reference_field_id {
            lemma_index_of_id(others, reference, 0);
        }
        let at = target_index(others, pending)->Ok_0;
        let field = fields[from as int];
        vstd::seq_lib::to_multiset_insert(others, at as int, field);
        vstd::seq_lib::to_multiset_remove(fields, from as int);
        let fields1 = moved(fields, pending).0;
        assert(fields.to_multiset().count(field) > 0) by {
            broadcast use vstd::seq_lib::group_to_multiset_ensures;

            assert(fields.contains(field));
        }
        assert(fields1.to_multiset() =~= fields.to_multiset());
        law_moves_keep_every_field(fields1, moves, i + 1);
    }
}

/// A move puts the field where it was asked to go, and leaves the order of the others alone.
///
/// After a move to the front the field is first; after a relative move it stands immediately
/// before or after its reference. Taking it out again gives what taking it out gave before.
pub proof fn law_move_lands_next_to_its_reference(fields: Seq<FieldView>, pending: PendingMove)
    requires
        moved(fields, pending).1 is Ok,
    ensures
        ({
            let from = index_of_id(fields, pending.field_id, 0)->0;
            let after = moved(fields, pending).0;
            exists|at: int|
                {
                    &&& 0 <= at < after.len()
                    &&& #[trigger] after[at] == fields[from as int]
                    &&& after[at].id == pending.field_id
                    &&& after.remove(at) == fields.remove(from as int)
                    &&& pending.kind == MoveKind::First ==> at == 0
                    &&& pending.kind == MoveKind::Before ==> at + 1 < after.len() && Some(
                        after[at + 1].id,
                    ) == pending.reference_field_id
                    &&& pending.kind == MoveKind::After ==> at > 0 && Some(after[at - 1].id)
                        == pending.reference_field_id
                }
        }),
{
    lemma_index_of_id(fields, pending.field_id, 0);
    let from = index_of_id(fields, pending.field_id, 0)->0;
    let others = fields.remove(from as int);
    if let Some(reference) = pending.reference_field_id {
        lemma_index_of_id(others, reference, 0);
    }
    let at = target_index(others, pending)->Ok_0;
    let after = moved(fields, pending).0;
    assert(after.remove(at as int) =~= others);
    assert(after[at as int] == fields[from as int]);
}

proof fn lemma_moves_within(
    moves: Seq<(Option<i32>, PendingMove)>,
    parent: Option<i32>,
    i: nat,
    done: Seq<PendingMove>,
)
    requires
        i <= moves.len(),
    ensures
        moves_within(moves, parent, i, done) == done + moves.skip(i as int).filter(
            |recorded: (Option<i32>, PendingMove)| recorded.0 == parent,
        ).map_values(|recorded: (Option<i32>, PendingMove)| recorded.1),
    decreases moves.len() - i,
{
    let of_parent = |recorded: (Option<i32>, PendingMove)| recorded.0 == parent;
    let the_move = |recorded: (Option<i32>, PendingMove)| recorded.1;
    let rest = moves.skip(i as int);
    if i < moves.len() {
        let next = moves[i as int];
        let more = moves.skip((i + 1) as int);
        assert(rest =~= seq![next] + more);
        Seq::filter_distributes_over_add(seq![next], more, of_parent);
        assert(seq![next].filter(of_parent) =~= if of_parent(next) {
            seq![next]
        } else {
            Seq::empty()
        }) by {
            reveal_with_fuel(Seq::filter, 2);
            let before = seq![next].drop_last();
            assert(before.len() == 0);
            assert(before.filter(of_parent) =~= Seq::empty());
            assert(seq![next].last() == next);
        }
        let kept = more.filter(of_parent);
        if of_parent(next) {
            lemma_moves_within(moves, parent, i + 1, done.push(next.1));
            assert(done.push(next.1) + kept.map_values(the_move) =~= done + rest.filter(
                of_parent,
            ).map_values(the_move));
        } else {
            lemma_moves_within(moves, parent, i + 1, done);
            assert(rest.filter(of_parent) =~= kept);
        }
    } else {
        assert(rest =~= Seq::empty());
        reveal(Seq::filter);
        assert(done + rest.filter(of_parent).map_values(the_move) =~= done);
    }
}

/// The moves of a struct, at the root or nested, are all the recorded moves within it, in the order
/// in which they were recorded, and no others.
pub proof fn law_all_moves_of_a_struct_count(
    moves: Seq<(Option<i32>, PendingMove)>,
    parent: Option<i32>,
)
    ensures
        moves_within(moves, parent, 0, Seq::empty()) == moves.filter(
            |recorded: (Option<i32>, PendingMove)| recorded.0 == parent,
        ).map_values(|recorded: (Option<i32>, PendingMove)| recorded.1),
{
    lemma_moves_within(moves, parent, 0, Seq::empty());
    assert(moves.skip(0) =~= moves);
}

/// A move that is recorded last is the last of its struct, and is no move of any other.
pub proof fn law_a_recorded_move_comes_last(
    moves: Seq<(Option<i32>, PendingMove)>,
    parent: Option<i32>,
    pending: PendingMove,
    other: Option<i32>,
)
    ensures
        moves_within(moves.push((parent, pending)), parent, 0, Seq::empty()) == moves_within(
            moves,
            parent,
            0,
            Seq::empty(),
        ).push(pending),
        other != parent ==> moves_within(moves.push((parent, pending)), other, 0, Seq::empty())
            == moves_within(moves, other, 0, Seq::empty()),
{
    let more = moves.push((parent, pending));
    assert(more.drop_last() =~= moves);
    reveal(Seq::filter);
    law_all_moves_of_a_struct_count(moves, parent);
    law_all_moves_of_a_struct_count(more, parent);
    law_all_moves_of_a_struct_count(moves, other);
    law_all_moves_of_a_struct_count(more, other);
    assert(moves_within(more, parent, 0, Seq::empty()) =~= moves_within(
        moves,
        parent,
        0,
        Seq::empty(),
    ).push(pending));
}

proof fn lemma_one_more_move(
    fields: Seq<FieldView>,
    moves: Seq<PendingMove>,
    pending: PendingMove,
    i: nat,
)
    requires
        i <= moves.len(),
    ensures
        all_moved(fields, moves.push(pending), i) == match all_moved(fields, moves, i) {
            (fields1, Ok(_)) => moved(fields1, pending),
            (fields1, Err(error)) => (fields1, Err(error)),
        },
    decreases moves.len() - i,
{
    let more = moves.push(pending);
    if i < moves.len() {
        assert(more[i as int] == moves[i as int]);
        if let (fields1, Ok(_)) = moved(fields, moves[i as int]) {
            lemma_one_more_move(fields1, moves, pending, i + 1);
        }
    } else {
        assert(more[i as int] == pending);
        let (fields1, outcome) = moved(fields, pending);
        if outcome is Ok {
            assert(all_moved(fields1, more, i + 1) == (fields1, outcome));
        }
    }
}

/// Every move takes effect, one after the other: no moves leave the fields as they are, and one more
/// move starts from where those before it led, unless one of them failed.
pub proof fn law_moves_take_effect_in_order(
    fields: Seq<FieldView>,
    moves: Seq<PendingMove>,
    pending: PendingMove,
)
    ensures
        all_moved(fields, Seq::empty(), 0) == (fields, Ok::<(), ErrorView>(())),
        all_moved(fields, moves.push(pending), 0) == match all_moved(fields, moves, 0) {
            (fields1, Ok(_)) => moved(fields1, pending),
            (fields1, Err(error)) => (fields1, Err(error)),
        },
{
    lemma_one_more_move(fields, moves, pending, 0);
}

/// Whether one of `fields` has the given ID.
pub open spec fn has_id(fields: Seq<FieldView>, id: i32) -> bool {
    exists|i: int| 0 <= i < fields.len() && (#[trigger] fields[i]).id == id
}

/// A move succeeds exactly where the struct holds the field and, unless the field goes to the front,
/// the reference besides it.
pub proof fn law_moves_within_a_struct_succeed(fields: Seq<FieldView>, pending: PendingMove)
    requires
        pending.reference_field_id != Some(pending.field_id),
    ensures
        moved(fields, pending).1 is Ok <==> {
            &&& has_id(fields, pending.field_id)
            &&& pending.kind == MoveKind::First || (
            pending.reference_field_id matches Some(reference) && has_id(fields, reference))
        },
{
    lemma_index_of_id(fields, pending.field_id, 0);
    if let Some(from) = index_of_id(fields, pending.field_id, 0) {
        let others = fields.remove(from as int);
        if let Some(reference) = pending.reference_field_id {
            lemma_index_of_id(others, reference, 0);
            if has_id(fields, reference) {
                let k = choose|k: int| 0 <= k < fields.len() && (#[trigger] fields[k]).id
                    == reference;
                assert(others[if k < from {
                    k
                } else {
                    k - 1
                }] == fields[k]);
            }
            if has_id(others, reference) {
                let k = choose|k: int| 0 <= k < others.len() && (#[trigger] others[k]).id
                    == reference;
                assert(others[k] == fields[if k < from {
                    k
                } else {
                    k + 1
                }]);
            }
        }
    }
}

} // verus!
