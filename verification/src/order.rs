//! The order of texts, and lists of texts in order.

use vstd::prelude::*;

use crate::text::chars_of;
#[allow(unused_imports)]
use crate::text::texts;

verus! {

/// Whether `a` stands before `b` in a dictionary, where both agree before `i`.
pub open spec fn precedes_from(a: Seq<char>, b: Seq<char>, i: nat) -> bool
    decreases a.len() - i,
{
    if i >= b.len() {
        false
    } else if i >= a.len() {
        true
    } else if a[i as int] != b[i as int] {
        a[i as int] < b[i as int]
    } else {
        precedes_from(a, b, i + 1)
    }
}

/// Whether `a` stands before `b` in a dictionary.
pub open spec fn precedes(a: Seq<char>, b: Seq<char>) -> bool {
    precedes_from(a, b, 0)
}

/// Whether `a` stands before `b` in a dictionary.
pub fn text_precedes(a: &str, b: &str) -> (result: bool)
    ensures
        result == precedes(a@, b@),
{
    let x = chars_of(a);
    let y = chars_of(b);
    let mut i: usize = 0;
    while i < x.len() && i < y.len()
        invariant
            x@ == a@,
            y@ == b@,
            i <= x@.len(),
            i <= y@.len(),
            precedes_from(a@, b@, i as nat) == precedes(a@, b@),
        decreases x@.len() - i,
    {
        if x[i] != y[i] {
            return x[i] < y[i];
        }
        i += 1;
    }
    i < y.len()
}

/// The index from `i` on of the first text that `text` stands before, or the end.
pub open spec fn place_of(list: Seq<Seq<char>>, text: Seq<char>, i: nat) -> nat
    decreases list.len() - i,
{
    if i >= list.len() {
        list.len()
    } else if precedes(text, list[i as int]) {
        i
    } else {
        place_of(list, text, i + 1)
    }
}

/// The first `n` texts of a list in order.
pub open spec fn in_order(list: Seq<Seq<char>>, n: nat) -> Seq<Seq<char>>
    decreases n,
{
    if n == 0 || n > list.len() {
        Seq::empty()
    } else {
        let before = in_order(list, (n - 1) as nat);
        before.insert(place_of(before, list[n - 1], 0) as int, list[n - 1])
    }
}

proof fn lemma_place(list: Seq<Seq<char>>, text: Seq<char>, i: nat)
    requires
        i <= list.len(),
    ensures
        i <= place_of(list, text, i) <= list.len(),
        place_of(list, text, i) < list.len() ==> precedes(
            text,
            list[place_of(list, text, i) as int],
        ),
        forall|j: int|
            i <= j < place_of(list, text, i) ==> !precedes(text, #[trigger] list[j]),
    decreases list.len() - i,
{
    if i < list.len() && !precedes(text, list[i as int]) {
        lemma_place(list, text, i + 1);
    }
}

/// Puts a list of texts in order.
pub fn sort_texts(list: &Vec<String>) -> (sorted: Vec<String>)
    ensures
        texts(sorted@) == in_order(texts(list@), list@.len()),
{
    let ghost all = texts(list@);
    let mut sorted: Vec<String> = Vec::new();
    let mut n: usize = 0;
    assert(texts(sorted@) =~= Seq::empty());
    while n < list.len()
        invariant
            n <= list@.len(),
            all == texts(list@),
            texts(sorted@) == in_order(all, n as nat),
        decreases list@.len() - n,
    {
        let ghost before = texts(sorted@);
        let mut at: usize = 0;
        while at < sorted.len() && !text_precedes(list[n].as_str(), sorted[at].as_str())
            invariant
                at <= sorted@.len(),
                n < list@.len(),
                all == texts(list@),
                before == texts(sorted@),
                place_of(before, all[n as int], at as nat) == place_of(before, all[n as int], 0),
            decreases sorted@.len() - at,
        {
            at += 1;
        }
        sorted.insert(at, list[n].clone());
        assert(texts(sorted@) =~= before.insert(at as int, all[n as int]));
        n += 1;
    }
    sorted
}

proof fn lemma_order_from(a: Seq<char>, b: Seq<char>, c: Seq<char>, i: nat)
    ensures
        !precedes_from(a, a, i),
        precedes_from(a, b, i) ==> !precedes_from(b, a, i),
        precedes_from(a, b, i) && precedes_from(b, c, i) ==> precedes_from(a, c, i),
        !precedes_from(b, a, i) && !precedes_from(c, b, i) ==> !precedes_from(c, a, i),
    decreases a.len() + b.len() + c.len() - i,
{
    if i < a.len() || i < b.len() || i < c.len() {
        lemma_order_from(a, b, c, i + 1);
        lemma_order_single(a, i);
    }
}

proof fn lemma_order_single(a: Seq<char>, i: nat)
    ensures
        !precedes_from(a, a, i),
    decreases a.len() - i,
{
    if i < a.len() {
        lemma_order_single(a, i + 1);
    }
}

proof fn lemma_in_order(list: Seq<Seq<char>>, n: nat)
    requires
        n <= list.len(),
    ensures
        in_order(list, n).to_multiset() == list.take(n as int).to_multiset(),
        forall|i: int, j: int|
            0 <= i < j < in_order(list, n).len() ==> !precedes(
                #[trigger] in_order(list, n)[j],
                #[trigger] in_order(list, n)[i],
            ),
    decreases n,
{
    if n > 0 {
        lemma_in_order(list, (n - 1) as nat);
        let before = in_order(list, (n - 1) as nat);
        let text = list[n - 1];
        let at = place_of(before, text, 0);
        let after = in_order(list, n);
        lemma_place(before, text, 0);
        vstd::seq_lib::to_multiset_insert(before, at as int, text);
        assert(list.take(n as int) =~= list.take(n - 1).push(text));
        assert(list.take(n as int).to_multiset() =~= list.take(n - 1).to_multiset().insert(text))
            by {
            broadcast use vstd::seq_lib::group_to_multiset_ensures;

        }
        assert forall|i: int, j: int| 0 <= i < j < after.len() implies !precedes(
            #[trigger] after[j],
            #[trigger] after[i],
        ) by {
            let x = if i < at {
                before[i]
            } else if i == at {
                text
            } else {
                before[i - 1]
            };
            let y = if j < at {
                before[j]
            } else if j == at {
                text
            } else {
                before[j - 1]
            };
            assert(after[i] == x);
            assert(after[j] == y);
            if i == at {
                // Everything from the place on comes after the new text.
                let first = before[at as int];
                lemma_order_from(text, first, y, 0);
                if j - 1 != at {
                    assert(!precedes(before[j - 1], before[at as int]));
                }
            }
        }
    } else {
        assert(list.take(0) =~= Seq::empty());
    }
}

/// A list put in order holds the same texts, none of them before an earlier one.
pub proof fn law_in_order_is_a_sorted_permutation(list: Seq<Seq<char>>)
    ensures
        in_order(list, list.len()).to_multiset() == list.to_multiset(),
        forall|i: int, j: int|
            0 <= i < j < in_order(list, list.len()).len() ==> !precedes(
                #[trigger] in_order(list, list.len())[j],
                #[trigger] in_order(list, list.len())[i],
            ),
{
    lemma_in_order(list, list.len());
    assert(list.take(list.len() as int) =~= list);
}

} // verus!
