//! What a listing reads and what it makes of it: the fanout directories and nothing
//! else, and of each entry what its own name and those above it spell, in their order.

use vstd::prelude::*;

use crate::listing::{
    after_root, after_tree, collected, entries_listing, entry_listing, index_listing, is_directory,
    leaf_listing, list_step, name_or_empty, unbegun, Awaited, Course,
};
use crate::listing_course_laws::{
    law_collecting_keeps_the_outcome, law_root_keeps_the_outcome, law_tree_keeps_the_outcome,
    outcome,
};
use crate::oid::{hex, is_hex_digit, law_oid_round_trip};
use crate::step::{Request, Step};
use crate::tree::{Entry, ObjectKind};

verus! {

/// Whether an entry is a tree that is called by two hexadecimal digits.
pub open spec fn is_two_digit_tree(entry: Entry) -> bool {
    &&& entry.kind == Some(ObjectKind::Tree)
    &&& entry.name matches Some(name)
    &&& name.len() == 2
    &&& forall|i: int|
        0 <= i < 2 ==> '0' <= #[trigger] name[i] <= '9' || 'a' <= name[i] <= 'f' || 'A' <= name[i]
            <= 'F'
}

/// Whether fanout directories lead from the tree `from`, to which `spelt` digits lead,
/// to the tree `id`, to which `at` digits lead.
pub open spec fn is_reached(
    trees: Map<Seq<u8>, Seq<Entry>>,
    from: Seq<u8>,
    spelt: nat,
    id: Seq<u8>,
    at: nat,
) -> bool
    decreases 40 - spelt,
{
    (from == id && spelt == at) || (trees.contains_key(from) && spelt < 38 && exists|i: int|
        0 <= i < trees[from].len() && is_two_digit_tree(#[trigger] trees[from][i]) && is_reached(
            trees,
            trees[from][i].id,
            spelt + 2,
            id,
            at,
        ))
}

/// A fanout directory is a tree called by two hexadecimal digits, of either case, with
/// which no id is spelled in full yet.
pub proof fn law_fanout_directories_have_two_digits(prefix: Seq<char>, entry: Entry)
    ensures
        is_directory(prefix, entry) <==> is_two_digit_tree(entry) && prefix.len() < 38,
{
    let name = name_or_empty(entry);
    if entry.name is Some && name.len() == 2 {
        assert(is_hex_digit(name[0]) && is_hex_digit(name[1]) <==> forall|i: int|
            0 <= i < 2 ==> '0' <= #[trigger] name[i] <= '9' || 'a' <= name[i] <= 'f' || 'A'
                <= name[i] <= 'F');
    }
}

/// An entry that is no fanout directory lists a pair just where it is a tree, the
/// pair's tree, and the digits that lead to it and its name are the written form of
/// the pair's target. It lists no other.
pub proof fn law_an_entry_lists_what_its_name_spells(
    prefix: Seq<char>,
    entry: Entry,
    item: (Seq<u8>, Seq<u8>),
)
    ensures
        leaf_listing(prefix, entry).len() <= 1,
        leaf_listing(prefix, entry).contains(item) <==> {
            &&& entry.kind == Some(ObjectKind::Tree)
            &&& item.1 == entry.id
            &&& item.0.len() == 20
            &&& hex(item.0) == prefix + (match entry.name {
                Some(name) => name,
                None => Seq::empty(),
            })
        },
{
    let full = prefix + name_or_empty(entry);
    if item.0.len() == 20 && hex(item.0) == full {
        law_oid_round_trip(item.0);
    }
    let list = leaf_listing(prefix, entry);
    if list.len() == 1 && list[0] == item {
        assert(list.contains(item));
    }
}

/// A tree lists what its entries list, one after the other: what the first of them
/// list comes first. A fanout directory lists what its own tree lists, below the
/// digits of its name.
pub proof fn law_list_follows_the_trees(
    trees: Map<Seq<u8>, Seq<Entry>>,
    prefix: Seq<char>,
    tree: Seq<Entry>,
    k: int,
)
    requires
        0 <= k <= tree.len(),
    ensures
        entries_listing(trees, tree, prefix) == entries_listing(trees, tree.take(k), prefix)
            + entries_listing(trees, tree.skip(k), prefix),
        tree.len() == 1 ==> entries_listing(trees, tree, prefix) == if is_two_digit_tree(tree[0])
            && prefix.len() < 38 {
            if trees.contains_key(tree[0].id) {
                entries_listing(trees, trees[tree[0].id], prefix + tree[0].name->0)
            } else {
                Seq::empty()
            }
        } else {
            leaf_listing(prefix, tree[0])
        },
    decreases tree.len(),
{
    reveal_with_fuel(entries_listing, 2);
    if tree.len() == 1 {
        law_fanout_directories_have_two_digits(prefix, tree[0]);
        assert(entries_listing(trees, tree, prefix) =~= entry_listing(trees, prefix, tree[0]));
    }
    if k == 0 {
        assert(tree.skip(0) =~= tree);
        assert(entries_listing(trees, tree.take(0), prefix) =~= Seq::empty());
        assert(Seq::<(Seq<u8>, Seq<u8>)>::empty() + entries_listing(trees, tree, prefix)
            =~= entries_listing(trees, tree, prefix));
    } else {
        let rest = tree.drop_first();
        law_list_follows_the_trees(trees, prefix, rest, k - 1);
        assert(tree.take(k).drop_first() =~= rest.take(k - 1));
        assert(tree.take(k)[0] == tree[0]);
        assert(rest.skip(k - 1) =~= tree.skip(k));
        assert(entries_listing(trees, tree, prefix) =~= entries_listing(
            trees,
            tree.take(k),
            prefix,
        ) + entries_listing(trees, tree.skip(k), prefix));
    }
}

/// The list of an index is that of its root tree, below no digits.
pub proof fn law_list_begins_at_the_root(
    trees: Map<Seq<u8>, Seq<Entry>>,
    root: Option<Seq<u8>>,
)
    ensures
        index_listing(trees, root) == match root {
            Some(id) => if trees.contains_key(id) {
                entries_listing(trees, trees[id], Seq::empty())
            } else {
                Seq::empty()
            },
            None => Seq::empty(),
        },
{
}

/// What is reached goes on by one directory.
proof fn lemma_reached_goes_on(
    trees: Map<Seq<u8>, Seq<Entry>>,
    from: Seq<u8>,
    spelt: nat,
    id: Seq<u8>,
    at: nat,
    i: int,
)
    requires
        is_reached(trees, from, spelt, id, at),
        trees.contains_key(id),
        0 <= i < trees[id].len(),
        is_two_digit_tree(trees[id][i]),
        at < 38,
    ensures
        is_reached(trees, from, spelt, trees[id][i].id, at + 2),
    decreases 40 - spelt,
{
    reveal_with_fuel(is_reached, 2);
    if !(from == id && spelt == at) {
        let j = choose|j: int|
            0 <= j < trees[from].len() && is_two_digit_tree(#[trigger] trees[from][j])
                && is_reached(trees, trees[from][j].id, spelt + 2, id, at);
        lemma_reached_goes_on(trees, trees[from][j].id, spelt + 2, id, at, i);
    } else {
        assert(is_reached(trees, trees[from][i].id, spelt + 2, trees[id][i].id, at + 2));
    }
}

/// Whether `states` are the states of a listing, from the beginning on, action by
/// action.
pub open spec fn is_list_run(
    states: Seq<Course>,
    trees: Map<Seq<u8>, Seq<Entry>>,
    root: Option<Seq<u8>>,
) -> bool {
    &&& states.len() > 0
    &&& states[0] == unbegun()
    &&& forall|i: int|
        0 <= i < states.len() - 1 ==> match list_step(collected(#[trigger] states[i])) {
            Step::Do(Request::ResolveRoot) => states[i + 1] == after_root(
                collected(states[i]),
                root,
            ),
            Step::Do(Request::FindTree(id)) => trees.contains_key(id) && states[i + 1]
                == after_tree(collected(states[i]), trees[id]),
            _ => false,
        }
}

/// Whether all that a listing waits for or will, as far as it knows, is reached from
/// the root by fanout directories.
spec fn is_within(
    trees: Map<Seq<u8>, Seq<Entry>>,
    root: Option<Seq<u8>>,
    course: Course,
) -> bool {
    &&& course.wanted matches Awaited::Tree { prefix, id } ==> root is Some && is_reached(
        trees,
        root->0,
        0,
        id,
        prefix.len(),
    )
    &&& forall|i: int|
        0 <= i < course.pending.len() && is_directory(
            (#[trigger] course.pending[i]).0,
            course.pending[i].1,
        ) ==> root is Some && is_reached(
            trees,
            root->0,
            0,
            course.pending[i].1.id,
            course.pending[i].0.len() + 2,
        )
}

/// Looking at entries leads nowhere else.
proof fn lemma_collecting_stays_within(
    trees: Map<Seq<u8>, Seq<Entry>>,
    root: Option<Seq<u8>>,
    course: Course,
)
    requires
        is_within(trees, root, course),
    ensures
        is_within(trees, root, collected(course)),
        collected(course).wanted is Root ==> course.wanted is Root,
    decreases course.pending.len(),
{
    if course.wanted is Nothing && course.pending.len() > 0 {
        let (prefix, entry) = course.pending.last();
        let pending = course.pending.drop_last();
        let next = if is_directory(prefix, entry) {
            assert(course.pending[course.pending.len() - 1] == (prefix, entry));
            collected(course)
        } else {
            Course {
                wanted: Awaited::Nothing,
                pending,
                found: course.found + leaf_listing(prefix, entry),
            }
        };
        assert(is_within(trees, root, next)) by {
            assert forall|i: int|
                0 <= i < next.pending.len() && is_directory(
                    (#[trigger] next.pending[i]).0,
                    next.pending[i].1,
                ) implies root is Some && is_reached(
                trees,
                root->0,
                0,
                next.pending[i].1.id,
                next.pending[i].0.len() + 2,
            ) by {
                assert(next.pending[i] == course.pending[i]);
            }
        }
        if !is_directory(prefix, entry) {
            lemma_collecting_stays_within(trees, root, next);
        }
    }
}

/// The states of a listing.
proof fn lemma_list_run(
    states: Seq<Course>,
    trees: Map<Seq<u8>, Seq<Entry>>,
    root: Option<Seq<u8>>,
    i: int,
)
    requires
        is_list_run(states, trees, root),
        0 <= i < states.len(),
    ensures
        is_within(trees, root, states[i]),
        outcome(trees, root, states[i]) == index_listing(trees, root),
        states[i].wanted is Root ==> i == 0,
    decreases i,
{
    if i == 0 {
        assert(outcome(trees, root, unbegun()) =~= index_listing(trees, root));
    } else {
        lemma_list_run(states, trees, root, i - 1);
        let before = states[i - 1];
        let now = collected(before);
        let next = states[i];
        assert(states[i - 1 + 1] == next);
        lemma_collecting_stays_within(trees, root, before);
        law_collecting_keeps_the_outcome(trees, root, before);
        match now.wanted {
            Awaited::Root => {
                law_root_keeps_the_outcome(trees, root, now);
                assert(next.pending == now.pending);
            },
            Awaited::Tree { prefix, id } => {
                law_tree_keeps_the_outcome(trees, root, now);
                let tree = trees[id];
                assert forall|j: int|
                    0 <= j < next.pending.len() && is_directory(
                        (#[trigger] next.pending[j]).0,
                        next.pending[j].1,
                    ) implies root is Some && is_reached(
                    trees,
                    root->0,
                    0,
                    next.pending[j].1.id,
                    next.pending[j].0.len() + 2,
                ) by {
                    let n = now.pending.len();
                    if j < n {
                        assert(next.pending[j] == now.pending[j]);
                    } else {
                        let k = tree.len() - 1 - (j - n);
                        assert(next.pending[j] == (prefix, tree[k]));
                        law_fanout_directories_have_two_digits(prefix, tree[k]);
                        lemma_reached_goes_on(trees, root->0, 0, id, prefix.len(), k);
                    }
                }
            },
            Awaited::Nothing => {},
        }
    }
}

/// What a listing asks for in its course: the root of the index, first, and then only
/// trees that fanout directories lead to from there. What it answers is what the
/// index lists.
pub proof fn law_course_of_list(
    states: Seq<Course>,
    trees: Map<Seq<u8>, Seq<Entry>>,
    root: Option<Seq<u8>>,
    i: int,
)
    requires
        is_list_run(states, trees, root),
        0 <= i < states.len(),
    ensures
        match list_step(collected(states[i])) {
            Step::Do(Request::ResolveRoot) => i == 0,
            Step::Do(Request::FindTree(id)) => root matches Some(top) && exists|at: nat|
                at < 40 && #[trigger] is_reached(trees, top, 0, id, at),
            Step::Do(_) => false,
            Step::Return(found) => found == index_listing(trees, root),
        },
{
    lemma_list_run(states, trees, root, i);
    lemma_collecting_stays_within(trees, root, states[i]);
    law_collecting_keeps_the_outcome(trees, root, states[i]);
    if let Awaited::Tree { prefix, id } = collected(states[i]).wanted {
        lemma_reached_is_short(trees, root->0, 0, id, prefix.len());
    }
}

/// Fewer digits than an id has lead to a fanout directory.
proof fn lemma_reached_is_short(
    trees: Map<Seq<u8>, Seq<Entry>>,
    from: Seq<u8>,
    spelt: nat,
    id: Seq<u8>,
    at: nat,
)
    requires
        spelt < 40,
        is_reached(trees, from, spelt, id, at),
    ensures
        at < 40,
    decreases 40 - spelt,
{
    if !(from == id && spelt == at) {
        let j = choose|j: int|
            0 <= j < trees[from].len() && is_two_digit_tree(#[trigger] trees[from][j])
                && is_reached(trees, trees[from][j].id, spelt + 2, id, at);
        lemma_reached_is_short(trees, trees[from][j].id, spelt + 2, id, at);
    }
}

/// A listing succeeds where every tree exists that fanout directories lead to from the
/// root, whatever else does not: whatever it asks for can be done, and it answers with
/// what the index lists.
pub proof fn law_list_succeeds(
    states: Seq<Course>,
    trees: Map<Seq<u8>, Seq<Entry>>,
    root: Option<Seq<u8>>,
    i: int,
)
    requires
        is_list_run(states, trees, root),
        0 <= i < states.len(),
        root matches Some(top) ==> forall|id: Seq<u8>, at: nat|
            #[trigger] is_reached(trees, top, 0, id, at) ==> trees.contains_key(id),
    ensures
        match list_step(collected(states[i])) {
            Step::Do(Request::ResolveRoot) => i == 0,
            Step::Do(Request::FindTree(id)) => trees.contains_key(id),
            Step::Do(_) => false,
            Step::Return(found) => found == index_listing(trees, root),
        },
{
    law_course_of_list(states, trees, root, i);
}

} // verus!
