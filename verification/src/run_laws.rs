//! What an operation has done once it has answered, told from its whole course: from
//! nothing known on, with every action that it asked for carried out.

use vstd::prelude::*;

use crate::course_laws::{law_remove_ends_as_planned, law_set_ends_as_planned};
use crate::ending_laws::{
    is_get_run, is_remove_run, is_set_run, lemma_get_run, lemma_remove_run, lemma_set_run,
};
use crate::index::{get_step, lookup, remove_step, set_step, Error, Known, MetadataOptions};
use crate::laws::{cell, law_get_answers_what_is_held, law_set_refuses_to_overwrite, only_reads};
use crate::need_laws::{
    is_on_the_way, law_get_asks_on_the_way, law_only_trees_are_attached,
    law_remove_needs_only_its_way, law_set_needs_only_its_way, law_unforced_set_needs_the_search,
};
use crate::oid::hex;
use crate::operation_laws::{
    law_remove_answers_whether_held, law_remove_keeps_other_targets, law_remove_leaves_nothing,
    law_set_keeps_other_targets, law_set_leaves_one_entry,
};
use crate::step::{Request, Step};
use crate::tree::Entry;

verus! {

/// Whether the index with root tree `after` is the one with root tree `root`, but for
/// one entry of `target`, at the depth `level`, with the tree `tree`.
pub open spec fn is_set_in(
    trees: Map<Seq<u8>, Seq<Entry>>,
    root: Option<Seq<u8>>,
    target: Seq<u8>,
    level: nat,
    tree: Seq<u8>,
    after: Seq<u8>,
) -> bool {
    forall|other: Seq<u8>, depth: nat|
        other.len() == 20 && depth < 20 ==> #[trigger] cell(trees, Some(after), other, depth)
            == if other == target && depth == level {
            Ok(Some(tree))
        } else if other == target && cell(trees, root, other, depth) is Ok {
            Ok(None)
        } else {
            cell(trees, root, other, depth)
        }
}

/// Whether the index with root tree `after` is the one with root tree `root`, but that
/// it holds nothing for `target`.
pub open spec fn is_taken_from(
    trees: Map<Seq<u8>, Seq<Entry>>,
    root: Option<Seq<u8>>,
    target: Seq<u8>,
    after: Option<Seq<u8>>,
) -> bool {
    forall|other: Seq<u8>, depth: nat|
        other.len() == 20 && depth < 20 ==> #[trigger] cell(trees, after, other, depth)
            == if other == target && cell(trees, root, other, depth) is Ok {
            Ok(None)
        } else {
            cell(trees, root, other, depth)
        }
}

/// Whether a step asks for the reference to be moved or deleted.
pub open spec fn concludes<Answer>(step: Step<Request, Answer>) -> bool {
    step matches Step::Do(request) && (request is Commit || request is DeleteReference)
}

/// Once the reference was moved, writing an entry answers.
proof fn lemma_set_concludes(
    states: Seq<Known>,
    trees: Map<Seq<u8>, Seq<Entry>>,
    root: Option<Seq<u8>>,
    target: Seq<u8>,
    tree: Seq<u8>,
    options: MetadataOptions,
    i: int,
)
    requires
        target.len() == 20,
        options.shard_level <= 20,
        trees.dom().finite(),
        is_set_run(states, trees, root, target, tree, options),
        0 <= i < states.len(),
    ensures
        concludes(set_step(states[i], target, tree, options)) ==> i >= states.len() - 2,
        states[i].concluded ==> i > 0 && concludes(set_step(states[i - 1], target, tree, options)),
    decreases i,
{
    lemma_set_run(states, trees, root, target, tree, options, i);
    law_set_ends_as_planned(states[i], trees, root, target, tree, options);
    if i > 0 {
        lemma_set_concludes(states, trees, root, target, tree, options, i - 1);
        assert(states[i - 1 + 1] == states[i]);
        if states[i - 1].concluded {
            assert(states[i - 2 + 1] == states[i - 1]);
            lemma_set_run(states, trees, root, target, tree, options, i - 2);
            law_set_ends_as_planned(states[i - 2], trees, root, target, tree, options);
        }
    }
    if i < states.len() - 2 {
        assert(set_step(states[i + 1], target, tree, options) is Do);
    }
}

/// Once the reference was moved or deleted, removing an entry answers.
proof fn lemma_remove_concludes(
    states: Seq<Known>,
    trees: Map<Seq<u8>, Seq<Entry>>,
    root: Option<Seq<u8>>,
    target: Seq<u8>,
    i: int,
)
    requires
        target.len() == 20,
        trees.dom().finite(),
        is_remove_run(states, trees, root, target),
        0 <= i < states.len(),
    ensures
        concludes(remove_step(states[i], target)) ==> i >= states.len() - 2,
        states[i].concluded ==> i > 0 && concludes(remove_step(states[i - 1], target)),
    decreases i,
{
    lemma_remove_run(states, trees, root, target, i);
    law_remove_ends_as_planned(states[i], trees, root, target);
    if i > 0 {
        lemma_remove_concludes(states, trees, root, target, i - 1);
        assert(states[i - 1 + 1] == states[i]);
        if states[i - 1].concluded {
            assert(states[i - 2 + 1] == states[i - 1]);
            lemma_remove_run(states, trees, root, target, i - 2);
            law_remove_ends_as_planned(states[i - 2], trees, root, target);
        }
    }
    if i < states.len() - 2 {
        assert(remove_step(states[i + 1], target) is Do);
    }
}

/// What the reading of an entry asks for in its course: the root of the index, and
/// the trees on the target's way through it. What it answers is what the index holds.
pub proof fn law_course_of_get(
    states: Seq<Known>,
    trees: Map<Seq<u8>, Seq<Entry>>,
    root: Option<Seq<u8>>,
    target: Seq<u8>,
    i: int,
)
    requires
        target.len() == 20,
        trees.dom().finite(),
        is_get_run(states, trees, root, target),
        0 <= i < states.len(),
    ensures
        match get_step(states[i], target) {
            Step::Do(Request::ResolveRoot) => true,
            Step::Do(Request::FindTree(id)) => is_on_the_way(trees, root, target, id),
            Step::Do(_) => false,
            Step::Return(None) => lookup(trees, root, hex(target)) == Ok::<
                Option<(nat, Seq<u8>)>,
                Seq<u8>,
            >(None),
            Step::Return(Some(tree)) => lookup(trees, root, hex(target)) matches Ok(
                Some((_, held)),
            ) && held == tree,
        },
{
    lemma_get_run(states, trees, root, target, i);
    law_get_asks_on_the_way(states[i], trees, root, target);
    law_get_answers_what_is_held(states[i], trees, root, target);
}

/// What the writing of an entry needs in its course: a tree that it has to read and
/// that does not exist is the tree to attach, or one on the target's way through the
/// index. Where such a tree is lacking that a search for the target needs, and the
/// entry is not to be overwritten, nothing is changed.
pub proof fn law_course_of_set(
    states: Seq<Known>,
    trees: Map<Seq<u8>, Seq<Entry>>,
    root: Option<Seq<u8>>,
    target: Seq<u8>,
    tree: Seq<u8>,
    options: MetadataOptions,
    i: int,
)
    requires
        target.len() == 20,
        options.shard_level < 20,
        trees.dom().finite(),
        is_set_run(states, trees, root, target, tree, options),
        0 <= i < states.len(),
    ensures
        match set_step(states[i], target, tree, options) {
            Step::Do(Request::FindTree(id)) => trees.contains_key(id) || id == tree
                || is_on_the_way(trees, root, target, id),
            Step::Do(Request::TryTree(id)) => is_on_the_way(trees, root, target, id),
            Step::Do(Request::ResolveRoot) => true,
            Step::Do(_) => trees.contains_key(tree) && (options.force || lookup(
                trees,
                root,
                hex(target),
            ) == Ok::<Option<(nat, Seq<u8>)>, Seq<u8>>(None)),
            Step::Return(Ok(_)) => trees.contains_key(tree) && (options.force || lookup(
                trees,
                root,
                hex(target),
            ) == Ok::<Option<(nat, Seq<u8>)>, Seq<u8>>(None)),
            Step::Return(Err(Error::AlreadyExists)) => trees.contains_key(tree) && !options.force
                && (lookup(trees, root, hex(target)) matches Ok(Some(_))),
        },
{
    lemma_set_run(states, trees, root, target, tree, options, i);
    law_set_needs_only_its_way(states[i], trees, root, target, tree, options);
    law_only_trees_are_attached(states[i], target, tree, options);
    law_set_refuses_to_overwrite(states[i], trees, root, target, tree, options);
    if !options.force && lookup(trees, root, hex(target)) is Err {
        law_unforced_set_needs_the_search(states[i], trees, root, target, tree, options);
    }
    if states[i].trees.contains_key(tree) {
        assert(states[i].trees.dom().contains(tree));
        assert(trees.dom().contains(tree));
    }
}

/// What the removal of an entry needs in its course: where it has to read a tree that
/// does not exist, a search for the target fails for want of the same tree, which is
/// on the target's way through the index. Nothing is changed but where the index
/// holds an entry for the target.
pub proof fn law_course_of_remove(
    states: Seq<Known>,
    trees: Map<Seq<u8>, Seq<Entry>>,
    root: Option<Seq<u8>>,
    target: Seq<u8>,
    i: int,
)
    requires
        target.len() == 20,
        trees.dom().finite(),
        is_remove_run(states, trees, root, target),
        0 <= i < states.len(),
    ensures
        match remove_step(states[i], target) {
            Step::Do(Request::FindTree(id)) => trees.contains_key(id) || (is_on_the_way(
                trees,
                root,
                target,
                id,
            ) && lookup(trees, root, hex(target)) == Err::<Option<(nat, Seq<u8>)>, Seq<u8>>(id)),
            Step::Do(Request::TryTree(id)) => is_on_the_way(trees, root, target, id),
            Step::Do(Request::ResolveRoot) => true,
            Step::Do(_) => lookup(trees, root, hex(target)) matches Ok(Some(_)),
            Step::Return(true) => lookup(trees, root, hex(target)) matches Ok(Some(_)),
            Step::Return(false) => lookup(trees, root, hex(target)) == Ok::<
                Option<(nat, Seq<u8>)>,
                Seq<u8>,
            >(None),
        },
{
    lemma_remove_run(states, trees, root, target, i);
    law_remove_needs_only_its_way(states[i], trees, root, target);
    law_remove_answers_whether_held(states[i], trees, root, target);
}

/// Once the writing of an entry has answered with a root tree, its last action was to
/// commit that tree, with the message that says what was set, and it is the only one
/// that moved the reference. That tree is an index that differs from the one before
/// in the entry of the target alone.
pub proof fn law_set_commits_the_new_index(
    states: Seq<Known>,
    trees: Map<Seq<u8>, Seq<Entry>>,
    root: Option<Seq<u8>>,
    target: Seq<u8>,
    tree: Seq<u8>,
    options: MetadataOptions,
    answer: Seq<u8>,
)
    requires
        target.len() == 20,
        options.shard_level < 20,
        trees.dom().finite(),
        is_set_run(states, trees, root, target, tree, options),
        set_step(states.last(), target, tree, options) == Step::<
            Request,
            Result<Seq<u8>, Error>,
        >::Return(Ok(answer)),
    ensures
        states.len() >= 2,
        set_step(states[states.len() - 2], target, tree, options) == Step::<
            Request,
            Result<Seq<u8>, Error>,
        >::Do(
            Request::Commit {
                tree: answer,
                message: "metadata: set "@ + hex(target) + " -> "@ + hex(tree),
            },
        ),
        forall|i: int|
            0 <= i < states.len() - 2 ==> !concludes(
                set_step(#[trigger] states[i], target, tree, options),
            ),
        is_set_in(trees, root, target, options.shard_level as nat, tree, answer),
{
    let last = states.last();
    let n = states.len() - 1;
    lemma_set_run(states, trees, root, target, tree, options, n);
    law_set_ends_as_planned(last, trees, root, target, tree, options);
    lemma_set_concludes(states, trees, root, target, tree, options, n);
    lemma_set_run(states, trees, root, target, tree, options, n - 1);
    law_set_ends_as_planned(states[n - 1], trees, root, target, tree, options);
    assert(states[n - 1 + 1] == states[n]);
    assert forall|i: int| 0 <= i < states.len() - 2 implies !concludes(
        set_step(#[trigger] states[i], target, tree, options),
    ) by {
        lemma_set_concludes(states, trees, root, target, tree, options, i);
    }
    assert forall|other: Seq<u8>, depth: nat|
        other.len() == 20 && depth < 20 implies #[trigger] cell(
        trees,
        Some(answer),
        other,
        depth,
    ) == (if other == target && depth == options.shard_level {
        Ok(Some(tree))
    } else if other == target && cell(trees, root, other, depth) is Ok {
        Ok(None)
    } else {
        cell(trees, root, other, depth)
    }) by {
        if other == target {
            law_set_leaves_one_entry(
                last,
                trees,
                root,
                target,
                tree,
                options,
                answer,
                depth,
            );
        } else {
            law_set_keeps_other_targets(
                last,
                trees,
                root,
                target,
                tree,
                options,
                answer,
                other,
            );
        }
    }
}

/// Where the writing of an entry has answered that there is one already, it has done
/// nothing but read.
pub proof fn law_refused_set_changes_nothing(
    states: Seq<Known>,
    trees: Map<Seq<u8>, Seq<Entry>>,
    root: Option<Seq<u8>>,
    target: Seq<u8>,
    tree: Seq<u8>,
    options: MetadataOptions,
    i: int,
)
    requires
        target.len() == 20,
        options.shard_level <= 20,
        trees.dom().finite(),
        is_set_run(states, trees, root, target, tree, options),
        set_step(states.last(), target, tree, options) matches Step::Return(Err(_)),
        0 <= i < states.len() - 1,
    ensures
        set_step(states[i], target, tree, options) matches Step::Do(request) && only_reads(request),
{
    lemma_set_run(states, trees, root, target, tree, options, states.len() - 1);
    law_set_refuses_to_overwrite(states.last(), trees, root, target, tree, options);
    lemma_set_run(states, trees, root, target, tree, options, i);
    law_set_refuses_to_overwrite(states[i], trees, root, target, tree, options);
}

/// Once the removal of an entry has answered that there was one, its last action was
/// to commit an index, with the message that says what was removed, or to delete the
/// reference, and it is the only one of these. The index that is committed, or having
/// none, differs from the one before in that it holds nothing for the target.
pub proof fn law_remove_commits_the_new_index(
    states: Seq<Known>,
    trees: Map<Seq<u8>, Seq<Entry>>,
    root: Option<Seq<u8>>,
    target: Seq<u8>,
)
    requires
        target.len() == 20,
        trees.dom().finite(),
        is_remove_run(states, trees, root, target),
        remove_step(states.last(), target) == Step::<Request, bool>::Return(true),
    ensures
        states.len() >= 2,
        match remove_step(states[states.len() - 2], target) {
            Step::Do(Request::Commit { tree, message }) => {
                &&& message == "metadata: remove "@ + hex(target)
                &&& is_taken_from(trees, root, target, Some(tree))
            },
            Step::Do(Request::DeleteReference) => is_taken_from(trees, root, target, None),
            _ => false,
        },
        forall|i: int|
            0 <= i < states.len() - 2 ==> !concludes(remove_step(#[trigger] states[i], target)),
{
    let last = states.last();
    let n = states.len() - 1;
    lemma_remove_run(states, trees, root, target, n);
    law_remove_ends_as_planned(last, trees, root, target);
    lemma_remove_concludes(states, trees, root, target, n);
    lemma_remove_run(states, trees, root, target, n - 1);
    law_remove_ends_as_planned(states[n - 1], trees, root, target);
    assert(states[n - 1 + 1] == states[n]);
    assert forall|i: int| 0 <= i < states.len() - 2 implies !concludes(
        remove_step(#[trigger] states[i], target),
    ) by {
        lemma_remove_concludes(states, trees, root, target, i);
    }
    let after = match remove_step(states[n - 1], target) {
        Step::Do(Request::Commit { tree, .. }) => Some(tree),
        _ => None,
    };
    assert forall|other: Seq<u8>, depth: nat|
        other.len() == 20 && depth < 20 implies #[trigger] cell(
        trees,
        after,
        other,
        depth,
    ) == (if other == target && cell(trees, root, other, depth) is Ok {
        Ok(None)
    } else {
        cell(trees, root, other, depth)
    }) by {
        if other == target {
            law_remove_leaves_nothing(last, trees, root, target, after, depth);
        } else {
            law_remove_keeps_other_targets(last, trees, root, target, after, other);
        }
    }
}

/// Where the removal of an entry has answered that there was none, it has done nothing
/// but read.
pub proof fn law_void_remove_changes_nothing(
    states: Seq<Known>,
    trees: Map<Seq<u8>, Seq<Entry>>,
    root: Option<Seq<u8>>,
    target: Seq<u8>,
    i: int,
)
    requires
        target.len() == 20,
        trees.dom().finite(),
        is_remove_run(states, trees, root, target),
        remove_step(states.last(), target) == Step::<Request, bool>::Return(false),
        0 <= i < states.len() - 1,
    ensures
        remove_step(states[i], target) matches Step::Do(request) && only_reads(request),
{
    lemma_remove_run(states, trees, root, target, states.len() - 1);
    law_remove_answers_whether_held(states.last(), trees, root, target);
    lemma_remove_run(states, trees, root, target, i);
    law_remove_answers_whether_held(states[i], trees, root, target);
}

} // verus!
