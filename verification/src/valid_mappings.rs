//! What it takes for a name mapping to be valid.

use vstd::prelude::*;

#[allow(unused_imports)]
use crate::action::distinct_names;
#[allow(unused_imports)]
use crate::name_mapping::{
    all_unseen, full_names_of, has_ids, paths_under, validated_fields, validated_mapping,
    MappedView, SeenView,
};
#[allow(unused_imports)]
use crate::text::dotted;

verus! {

/// The dotted paths of a field: its names, each once, under every path of its parent.
pub open spec fn paths_of(field: MappedView, at_root: bool, parents: Seq<Seq<char>>) -> Seq<
    Seq<char>,
> {
    full_names_of(at_root, parents, distinct_names(field.names, 0, Seq::empty()))
}

/// The dotted paths of the fields from `i` on and of all beneath them.
pub open spec fn paths_within(
    fields: Seq<MappedView>,
    i: nat,
    at_root: bool,
    parents: Seq<Seq<char>>,
) -> Seq<Seq<char>>
    decreases fields, fields.len() - i,
{
    if i >= fields.len() {
        Seq::empty()
    } else {
        let own = paths_of(fields[i as int], at_root, parents);
        own + paths_within(fields[i as int].fields, 0, false, own) + paths_within(
            fields,
            i + 1,
            at_root,
            parents,
        )
    }
}

/// The IDs of the fields from `i` on and of all beneath them, where they have one.
pub open spec fn ids_within(fields: Seq<MappedView>, i: nat) -> Seq<i32>
    decreases fields, fields.len() - i,
{
    if i >= fields.len() {
        Seq::empty()
    } else {
        (match fields[i as int].field_id {
            Some(id) => seq![id],
            None => Seq::empty(),
        }) + ids_within(fields[i as int].fields, 0) + ids_within(fields, i + 1)
    }
}

/// Whether no two of `fields` share a name, nor any two siblings beneath them.
pub open spec fn siblings_share_no_name(fields: Seq<MappedView>) -> bool
    decreases fields,
{
    &&& forall|i: int, j: int, name: Seq<char>|
        0 <= i < j < fields.len() && #[trigger] fields[i].names.contains(name)
            ==> !#[trigger] fields[j].names.contains(name)
    &&& forall|i: int| 0 <= i < fields.len() ==> siblings_share_no_name((#[trigger] fields[i]).fields)
}

proof fn lemma_prefix_distinct<T>(a: Seq<T>, b: Seq<T>)
    requires
        (a + b).no_duplicates(),
    ensures
        a.no_duplicates(),
        b.no_duplicates(),
        forall|x: T| #[trigger] a.contains(x) ==> !b.contains(x),
{
    assert forall|i: int, j: int| 0 <= i < a.len() && 0 <= j < a.len() && i != j implies a[i]
        != a[j] by {
        assert((a + b)[i] == a[i] && (a + b)[j] == a[j]);
    }
    assert forall|i: int, j: int| 0 <= i < b.len() && 0 <= j < b.len() && i != j implies b[i]
        != b[j] by {
        assert((a + b)[a.len() + i] == b[i] && (a + b)[a.len() + j] == b[j]);
    }
    assert forall|x: T| #[trigger] a.contains(x) implies !b.contains(x) by {
        if b.contains(x) {
            let i = choose|i: int| 0 <= i < a.len() && a[i] == x;
            let j = choose|j: int| 0 <= j < b.len() && b[j] == x;
            assert((a + b)[i] == x && (a + b)[a.len() + j] == x);
        }
    }
}

proof fn lemma_joined_distinct<T>(a: Seq<T>, b: Seq<T>)
    requires
        a.no_duplicates(),
        b.no_duplicates(),
        forall|x: T| #[trigger] a.contains(x) ==> !b.contains(x),
    ensures
        (a + b).no_duplicates(),
{
    let all = a + b;
    assert forall|i: int, j: int| 0 <= i < all.len() && 0 <= j < all.len() && i != j implies all[i]
        != all[j] by {
        if i < a.len() && j >= a.len() {
            assert(a.contains(all[i]));
            assert(all[j] == b[j - a.len()]);
            assert(b.contains(b[j - a.len()]));
        }
        if j < a.len() && i >= a.len() {
            assert(a.contains(all[j]));
            assert(all[i] == b[i - a.len()]);
            assert(b.contains(b[i - a.len()]));
        }
    }
}

proof fn lemma_all_unseen(
    names: Seq<Seq<char>>,
    i: nat,
    seen: Seq<Seq<char>>,
    start: Seq<char>,
    end: Seq<char>,
)
    requires
        seen.no_duplicates(),
        i <= names.len(),
    ensures
        all_unseen(names, i, seen, start, end) is Ok <==> (seen + names.skip(
            i as int,
        )).no_duplicates(),
        all_unseen(names, i, seen, start, end) matches Ok(all) ==> all == seen + names.skip(
            i as int,
        ),
    decreases names.len() - i,
{
    let rest = names.skip(i as int);
    if i >= names.len() {
        assert(seen + rest =~= seen);
    } else {
        let name = names[i as int];
        assert(rest[0] == name);
        if seen.contains(name) {
            if (seen + rest).no_duplicates() {
                lemma_prefix_distinct(seen, rest);
                assert(rest.contains(name));
            }
        } else {
            let more = seen.push(name);
            assert(more + names.skip((i + 1) as int) =~= seen + rest);
            lemma_all_unseen(names, i + 1, more, start, end);
        }
    }
}

/// The names of the fields from `i` on, each once for every field that has it.
spec fn names_from(fields: Seq<MappedView>, i: nat) -> Seq<Seq<char>>
    decreases fields.len() - i,
{
    if i >= fields.len() {
        Seq::empty()
    } else {
        distinct_names(fields[i as int].names, 0, Seq::empty()) + names_from(fields, i + 1)
    }
}

/// Whether the names of siblings, listed one after the other, repeat none.
spec fn lists_differ(fields: Seq<MappedView>) -> bool
    decreases fields,
{
    &&& names_from(fields, 0).no_duplicates()
    &&& forall|i: int| 0 <= i < fields.len() ==> lists_differ((#[trigger] fields[i]).fields)
}

/// Whether the walk over the fields from `i` on finds nothing wrong.
spec fn walk_succeeds(
    fields: Seq<MappedView>,
    i: nat,
    at_root: bool,
    parents: Seq<Seq<char>>,
    siblings: Seq<Seq<char>>,
    seen: SeenView,
) -> bool {
    &&& forall|j: int|
        i <= j < fields.len() ==> (#[trigger] fields[j]).field_id is Some && has_ids(
            fields[j].fields,
        ) && lists_differ(fields[j].fields)
    &&& (seen.ids + ids_within(fields, i)).no_duplicates()
    &&& (seen.names + paths_within(fields, i, at_root, parents)).no_duplicates()
    &&& (siblings + names_from(fields, i)).no_duplicates()
}

proof fn lemma_walk(
    fields: Seq<MappedView>,
    i: nat,
    at_root: bool,
    parents: Seq<Seq<char>>,
    siblings: Seq<Seq<char>>,
    seen: SeenView,
)
    requires
        i <= fields.len(),
        seen.ids.no_duplicates(),
        seen.names.no_duplicates(),
        siblings.no_duplicates(),
    ensures
        validated_fields(fields, i, at_root, parents, siblings, seen) is Ok <==> walk_succeeds(
            fields,
            i,
            at_root,
            parents,
            siblings,
            seen,
        ),
        validated_fields(fields, i, at_root, parents, siblings, seen) matches Ok(after)
            ==> after.ids == seen.ids + ids_within(fields, i) && after.names == seen.names
            + paths_within(fields, i, at_root, parents),
    decreases fields, fields.len() - i,
{
    if i >= fields.len() {
        assert(seen.ids + ids_within(fields, i) =~= seen.ids);
        assert(seen.names + paths_within(fields, i, at_root, parents) =~= seen.names);
        assert(siblings + names_from(fields, i) =~= siblings);
    } else {
        let field = fields[i as int];
        let names = distinct_names(field.names, 0, Seq::empty());
        let own = paths_of(field, at_root, parents);
        let start = "Mapped alias "@;
        let end = " is assigned to multiple siblings"@;
        lemma_all_unseen(names, 0, siblings, start, end);
        assert(names.skip(0) =~= names);
        lemma_all_unseen(own, 0, seen.names, "Mapped full name "@, " is not unique"@);
        assert(own.skip(0) =~= own);
        let later_names = names_from(fields, i + 1);
        let child_paths = paths_within(field.fields, 0, false, own);
        let later_paths = paths_within(fields, i + 1, at_root, parents);
        let child_ids = ids_within(field.fields, 0);
        let later_ids = ids_within(fields, i + 1);
        assert(siblings + names_from(fields, i) =~= siblings + names + later_names);
        assert(seen.names + paths_within(fields, i, at_root, parents) =~= seen.names + own
            + child_paths + later_paths);
        if walk_succeeds(fields, i, at_root, parents, siblings, seen) {
            lemma_prefix_distinct(siblings + names, later_names);
            lemma_prefix_distinct(seen.names + own + child_paths, later_paths);
            lemma_prefix_distinct(seen.names + own, child_paths);
        }
        if let Some(id) = field.field_id {
            let ids = seen.ids.push(id);
            assert(seen.ids + ids_within(fields, i) =~= ids + child_ids + later_ids);
            if walk_succeeds(fields, i, at_root, parents, siblings, seen) {
                lemma_prefix_distinct(ids + child_ids, later_ids);
                lemma_prefix_distinct(ids, child_ids);
                assert(!seen.ids.contains(id)) by {
                    if seen.ids.contains(id) {
                        let k = choose|k: int| 0 <= k < seen.ids.len() && seen.ids[k] == id;
                        assert(ids[k] == id && ids[seen.ids.len() as int] == id);
                    }
                }
            }
            if (siblings + names).no_duplicates() && !seen.ids.contains(id) && (seen.names
                + own).no_duplicates() {
                let inner = SeenView { ids, names: seen.names + own };
                lemma_walk(field.fields, 0, false, own, Seq::empty(), inner);
                assert(Seq::<Seq<char>>::empty() + names_from(field.fields, 0) =~= names_from(
                    field.fields,
                    0,
                ));
                lemma_child(field, own, inner);
                if let Ok(seen1) = validated_fields(
                    field.fields,
                    0,
                    false,
                    own,
                    Seq::empty(),
                    inner,
                ) {
                    lemma_walk(fields, i + 1, at_root, parents, siblings + names, seen1);
                    lemma_rest(fields, i, at_root, parents, siblings, seen, seen1);
                }
            }
        }
    }
}

/// The walk beneath a field succeeds where its children have IDs and different names, and bring
/// nothing that was seen.
proof fn lemma_child(field: MappedView, own: Seq<Seq<char>>, inner: SeenView)
    ensures
        walk_succeeds(field.fields, 0, false, own, Seq::empty(), inner) <==> has_ids(field.fields)
            && lists_differ(field.fields) && (inner.ids + ids_within(
            field.fields,
            0,
        )).no_duplicates() && (inner.names + paths_within(
            field.fields,
            0,
            false,
            own,
        )).no_duplicates(),
{
    assert(Seq::<Seq<char>>::empty() + names_from(field.fields, 0) =~= names_from(
        field.fields,
        0,
    ));
}

/// The walk from a field on succeeds where that of the later ones does, after all that the field
/// brings was seen.
proof fn lemma_rest(
    fields: Seq<MappedView>,
    i: nat,
    at_root: bool,
    parents: Seq<Seq<char>>,
    siblings: Seq<Seq<char>>,
    seen: SeenView,
    seen1: SeenView,
)
    requires
        i < fields.len(),
        fields[i as int].field_id is Some,
        has_ids(fields[i as int].fields),
        lists_differ(fields[i as int].fields),
        seen1.ids == seen.ids.push(fields[i as int].field_id->0) + ids_within(
            fields[i as int].fields,
            0,
        ),
        seen1.names == seen.names + paths_of(fields[i as int], at_root, parents) + paths_within(
            fields[i as int].fields,
            0,
            false,
            paths_of(fields[i as int], at_root, parents),
        ),
    ensures
        walk_succeeds(fields, i, at_root, parents, siblings, seen) <==> walk_succeeds(
            fields,
            i + 1,
            at_root,
            parents,
            siblings + distinct_names(fields[i as int].names, 0, Seq::empty()),
            seen1,
        ),
        seen1.ids + ids_within(fields, i + 1) == seen.ids + ids_within(fields, i),
        seen1.names + paths_within(fields, i + 1, at_root, parents) == seen.names + paths_within(
            fields,
            i,
            at_root,
            parents,
        ),
{
    let names = distinct_names(fields[i as int].names, 0, Seq::empty());
    assert(seen1.ids + ids_within(fields, i + 1) =~= seen.ids + ids_within(fields, i));
    assert(seen1.names + paths_within(fields, i + 1, at_root, parents) =~= seen.names
        + paths_within(fields, i, at_root, parents));
    assert(siblings + names + names_from(fields, i + 1) =~= siblings + names_from(fields, i));
}

proof fn lemma_distinct_names(
    names: Seq<Seq<char>>,
    i: nat,
    done: Seq<Seq<char>>,
    name: Seq<char>,
)
    requires
        done.no_duplicates(),
    ensures
        distinct_names(names, i, done).no_duplicates(),
        distinct_names(names, i, done).contains(name) <==> done.contains(name) || exists|j: int|
            i <= j < names.len() && #[trigger] names[j] == name,
    decreases names.len() - i,
{
    if i < names.len() {
        let own = names[i as int];
        if done.contains(own) {
            lemma_distinct_names(names, i + 1, done, name);
        } else {
            let more = done.push(own);
            if done.contains(name) {
                let k = choose|k: int| 0 <= k < done.len() && done[k] == name;
                assert(more[k] == name);
            }
            if own == name {
                assert(more[done.len() as int] == name);
            }
            lemma_distinct_names(names, i + 1, more, name);
        }
    }
}

/// A list of names without repetitions holds the same names.
pub proof fn lemma_same_names(names: Seq<Seq<char>>, name: Seq<char>)
    ensures
        distinct_names(names, 0, Seq::empty()).no_duplicates(),
        distinct_names(names, 0, Seq::empty()).contains(name) <==> names.contains(name),
{
    lemma_distinct_names(names, 0, Seq::empty(), name);
    if names.contains(name) {
        let j = choose|j: int| 0 <= j < names.len() && names[j] == name;
        assert(names[j] == name);
    }
}

proof fn lemma_names_from_contains(fields: Seq<MappedView>, i: nat, name: Seq<char>)
    ensures
        names_from(fields, i).contains(name) <==> exists|j: int|
            i <= j < fields.len() && #[trigger] fields[j].names.contains(name),
    decreases fields.len() - i,
{
    if i < fields.len() {
        let own = distinct_names(fields[i as int].names, 0, Seq::empty());
        let later = names_from(fields, i + 1);
        lemma_same_names(fields[i as int].names, name);
        lemma_names_from_contains(fields, i + 1, name);
        let all = own + later;
        if own.contains(name) {
            let k = choose|k: int| 0 <= k < own.len() && own[k] == name;
            assert(all[k] == name);
        }
        if later.contains(name) {
            let k = choose|k: int| 0 <= k < later.len() && later[k] == name;
            assert(all[own.len() + k] == name);
        }
        if all.contains(name) {
            let k = choose|k: int| 0 <= k < all.len() && all[k] == name;
            if k < own.len() {
                assert(own[k] == name);
                assert(own.contains(name));
            } else {
                assert(later[k - own.len()] == name);
                assert(later.contains(name));
            }
        }
    }
}

/// Whether no two of the fields from `i` on share a name.
spec fn disjoint_from(fields: Seq<MappedView>, i: nat) -> bool {
    forall|j: int, k: int, name: Seq<char>|
        i <= j < k < fields.len() && #[trigger] fields[j].names.contains(name)
            ==> !#[trigger] fields[k].names.contains(name)
}

proof fn lemma_names_from_differ(fields: Seq<MappedView>, i: nat)
    ensures
        names_from(fields, i).no_duplicates() <==> disjoint_from(fields, i),
    decreases fields.len() - i,
{
    if i < fields.len() {
        let own = distinct_names(fields[i as int].names, 0, Seq::empty());
        let later = names_from(fields, i + 1);
        lemma_names_from_differ(fields, i + 1);
        lemma_same_names(fields[i as int].names, Seq::empty());
        if names_from(fields, i).no_duplicates() {
            lemma_prefix_distinct(own, later);
            assert forall|j: int, k: int, name: Seq<char>|
                i <= j < k < fields.len() && #[trigger] fields[j].names.contains(
                    name,
                ) implies !#[trigger] fields[k].names.contains(name) by {
                if j == i {
                    lemma_same_names(fields[i as int].names, name);
                    assert(own.contains(name));
                    lemma_names_from_contains(fields, i + 1, name);
                }
            }
        }
        if disjoint_from(fields, i) {
            assert forall|name: Seq<char>| #[trigger] own.contains(name) implies !later.contains(
                name,
            ) by {
                lemma_same_names(fields[i as int].names, name);
                lemma_names_from_contains(fields, i + 1, name);
                assert(fields[i as int].names.contains(name));
            }
            lemma_joined_distinct(own, later);
        }
    }
}

proof fn lemma_lists_differ(fields: Seq<MappedView>)
    ensures
        lists_differ(fields) <==> siblings_share_no_name(fields),
    decreases fields,
{
    lemma_names_from_differ(fields, 0);
    assert forall|i: int| 0 <= i < fields.len() implies lists_differ((#[trigger] fields[i]).fields)
        == siblings_share_no_name(fields[i].fields) by {
        lemma_lists_differ(fields[i].fields);
    }
}

/// A mapping is valid exactly where every field has an ID, no ID occurs twice, no two siblings
/// share a name, and no dotted path occurs twice.
pub proof fn law_valid_mappings(fields: Seq<MappedView>)
    ensures
        validated_mapping(fields) is Ok <==> {
            &&& has_ids(fields)
            &&& ids_within(fields, 0).no_duplicates()
            &&& siblings_share_no_name(fields)
            &&& paths_within(fields, 0, true, Seq::empty()).no_duplicates()
        },
{
    let seen = SeenView { ids: Seq::empty(), names: Seq::empty() };
    lemma_walk(fields, 0, true, Seq::empty(), Seq::empty(), seen);
    lemma_lists_differ(fields);
    assert(seen.ids + ids_within(fields, 0) =~= ids_within(fields, 0));
    assert(seen.names + paths_within(fields, 0, true, Seq::empty()) =~= paths_within(
        fields,
        0,
        true,
        Seq::empty(),
    ));
    assert(Seq::<Seq<char>>::empty() + names_from(fields, 0) =~= names_from(fields, 0));
}

proof fn lemma_paths_under(
    parents: Seq<Seq<char>>,
    names: Seq<Seq<char>>,
    i: nat,
    j: nat,
    done: Seq<Seq<char>>,
    path: Seq<char>,
)
    ensures
        paths_under(parents, names, i, j, done).contains(path) <==> done.contains(path)
            || exists|a: int, b: int|
            i <= a < parents.len() && 0 <= b < names.len() && (a == i ==> j <= b)
                && #[trigger] dotted(parents[a], names[b]) == path,
    decreases parents.len() - i, names.len() - j,
{
    if i < parents.len() {
        if j >= names.len() {
            lemma_paths_under(parents, names, i + 1, 0, done, path);
        } else {
            let own = dotted(parents[i as int], names[j as int]);
            let more = done.push(own);
            lemma_paths_under(parents, names, i, j + 1, more, path);
            if done.contains(path) {
                let k = choose|k: int| 0 <= k < done.len() && done[k] == path;
                assert(more[k] == path);
            }
            if own == path {
                assert(more[done.len() as int] == path);
            }
        }
    }
}

/// The dotted paths of a field at the root are its names. Those of a nested field join a path of
/// its parent and one of its names, in every combination.
pub proof fn law_paths_join_names(
    field: MappedView,
    at_root: bool,
    parents: Seq<Seq<char>>,
    path: Seq<char>,
)
    ensures
        paths_of(field, at_root, parents).contains(path) <==> if at_root {
            field.names.contains(path)
        } else {
            exists|parent: Seq<char>, name: Seq<char>| #[trigger]
                parents.contains(parent) && #[trigger] field.names.contains(name) && dotted(
                    parent,
                    name,
                ) == path
        },
{
    let names = distinct_names(field.names, 0, Seq::empty());
    lemma_same_names(field.names, path);
    if !at_root {
        lemma_paths_under(parents, names, 0, 0, Seq::empty(), path);
        if paths_of(field, at_root, parents).contains(path) {
            let (a, b) = choose|a: int, b: int|
                0 <= a < parents.len() && 0 <= b < names.len() && #[trigger] dotted(
                    parents[a],
                    names[b],
                ) == path;
            assert(parents.contains(parents[a]));
            assert(names.contains(names[b]));
            lemma_same_names(field.names, names[b]);
        }
        if exists|parent: Seq<char>, name: Seq<char>| #[trigger]
            parents.contains(parent) && #[trigger] field.names.contains(name) && dotted(
                parent,
                name,
            ) == path {
            let (parent, name) = choose|parent: Seq<char>, name: Seq<char>| #[trigger]
                parents.contains(parent) && #[trigger] field.names.contains(name) && dotted(
                    parent,
                    name,
                ) == path;
            lemma_same_names(field.names, name);
            let a = choose|a: int| 0 <= a < parents.len() && parents[a] == parent;
            let b = choose|b: int| 0 <= b < names.len() && names[b] == name;
            assert(dotted(parents[a], names[b]) == path);
        }
    }
}

} // verus!
