//! What holds in the course of an operation: where each action that is asked for is
//! carried out and its outcome noted, the operation ends with what it planned.

use vstd::prelude::*;

use crate::fanout::{detect, leaf, segments};
use crate::index::{
    edit_child, occupied, progress, remove_plan, remove_step, replaced, set_plan, set_step, Error,
    Known, MetadataOptions, Progress,
};
use crate::laws::{
    fits, is_lacking, is_written, lemma_detect_grows, lemma_existing_grows, lemma_removal_grows,
    lemma_sweep_grows,
};
use crate::oid::hex;
use crate::operation_laws::{is_begun, is_kept_to, remove_carried_out, set_carried_out};
use crate::rebuild::{Change, Edit, RemoveResult};
use crate::step::{Request, Step};
use crate::tree::Entry;

verus! {

/// Whether `request`, carried out in a repository with these trees, in which the
/// index had the root tree `root`, and noted, makes `next` of what was known.
pub open spec fn is_noted(
    known: Known,
    request: Request,
    next: Known,
    trees: Map<Seq<u8>, Seq<Entry>>,
    root: Option<Seq<u8>>,
) -> bool {
    match request {
        Request::ResolveRoot => next == (Known { root: Some(root), ..known }),
        Request::FindTree(id) => trees.contains_key(id) && next == (Known {
            trees: known.trees.insert(id, trees[id]),
            ..known
        }),
        Request::TryTree(id) => next == (if trees.contains_key(id) {
            Known { trees: known.trees.insert(id, trees[id]), ..known }
        } else {
            Known { lacking: known.lacking.push(id), ..known }
        }),
        Request::WriteTree { base, name, child } => {
            let change = match child {
                Some(id) => Change::Insert(id),
                None => Change::Remove,
            };
            &&& next.written.len() == known.written.len() + 1
            &&& is_written(trees, Edit { base, name, change }, child, next.written.last())
            &&& next == (Known { written: known.written.push(next.written.last()), ..known })
        },
        Request::Commit { .. } => next == (Known { concluded: true, ..known }),
        Request::DeleteReference => next == (Known { concluded: true, ..known }),
    }
}

/// Whether the writing of an entry is under way, or has ended: nothing was written
/// yet, or what was written is what was planned, all of it where the commit was made.
pub open spec fn set_under_way(
    known: Known,
    trees: Map<Seq<u8>, Seq<Entry>>,
    root: Option<Seq<u8>>,
    target: Seq<u8>,
    tree: Seq<u8>,
    options: MetadataOptions,
) -> bool {
    &&& fits(known, trees, root)
    &&& {
        ||| known.written.len() == 0 && !known.concluded
        ||| {
            &&& known.trees.contains_key(tree)
            &&& set_carried_out(known, trees, target, tree, options)
            &&& known.concluded ==> progress(
                known.trees,
                root,
                target,
                replaced(known, root, target, options)->Ok_0->0,
                Some((options.shard_level as nat, tree)),
                known.written,
            ) is Done
        }
    }
}

/// Whether the removal of an entry is under way, or has ended.
pub open spec fn remove_under_way(
    known: Known,
    trees: Map<Seq<u8>, Seq<Entry>>,
    root: Option<Seq<u8>>,
    target: Seq<u8>,
) -> bool {
    &&& fits(known, trees, root)
    &&& {
        ||| known.written.len() == 0 && !known.concluded
        ||| {
            &&& known.root is Some
            &&& occupied(known, root, target) matches Ok(depths)
            &&& depths.len() > 0
            &&& is_kept_to(known.trees, trees, root, target, depths, None, known.written)
            &&& known.concluded ==> progress(
                known.trees,
                root,
                target,
                depths,
                None,
                known.written,
            ) is Done
        }
    }
}

/// One more edit of a plan that has begun.
proof fn lemma_begun_goes_on(
    trees: Map<Seq<u8>, Seq<Entry>>,
    plan: Seq<Edit>,
    written: Seq<Seq<u8>>,
    id: Seq<u8>,
)
    requires
        is_begun(trees, plan, written),
        written.len() < plan.len(),
        is_written(
            trees,
            plan[written.len() as int],
            edit_child(plan[written.len() as int], written),
            id,
        ),
    ensures
        is_begun(trees, plan, written.push(id)),
{
    let n = written.len() as int;
    let more = written.push(id);
    let begun = plan.take(n + 1);
    assert forall|k: int| 0 <= k < begun.len() implies is_written(
        trees,
        #[trigger] begun[k],
        edit_child(begun[k], more.take(k)),
        more[k],
    ) by {
        if k < n {
            assert(plan.take(n)[k] == begun[k]);
            assert(more.take(k) =~= written.take(k));
        } else {
            assert(more.take(k) =~= written);
        }
    }
}

/// Where nothing was written, nothing was written that was not to be.
pub proof fn lemma_nothing_is_kept_to(
    known: Map<Seq<u8>, Seq<Entry>>,
    trees: Map<Seq<u8>, Seq<Entry>>,
    root: Option<Seq<u8>>,
    target: Seq<u8>,
    depths: Seq<nat>,
    entry: Option<(nat, Seq<u8>)>,
    written: Seq<Seq<u8>>,
)
    requires
        written.len() == 0,
    ensures
        is_kept_to(known, trees, root, target, depths, entry, written),
    decreases depths.len(),
{
    if depths.len() > 0 {
        let rest = depths.drop_first();
        lemma_nothing_is_kept_to(known, trees, root, target, rest, entry, written);
        lemma_nothing_is_kept_to(known, trees, None, target, rest, entry, written);
    }
}

/// What was written as planned was so where more trees are read.
proof fn lemma_kept_to_grows(
    some: Map<Seq<u8>, Seq<Entry>>,
    more: Map<Seq<u8>, Seq<Entry>>,
    trees: Map<Seq<u8>, Seq<Entry>>,
    root: Option<Seq<u8>>,
    target: Seq<u8>,
    depths: Seq<nat>,
    entry: Option<(nat, Seq<u8>)>,
    written: Seq<Seq<u8>>,
)
    requires
        some.submap_of(more),
        is_kept_to(some, trees, root, target, depths, entry, written),
    ensures
        is_kept_to(more, trees, root, target, depths, entry, written),
    decreases depths.len(),
{
    let digits = hex(target);
    if written.len() == 0 {
        lemma_nothing_is_kept_to(more, trees, root, target, depths, entry, written);
    } else if depths.len() == 0 {
        if let Some((level, tree)) = entry {
            lemma_existing_grows(some, more, root, segments(digits, level));
        }
    } else {
        let rest = depths.drop_first();
        match root {
            None => {
                lemma_kept_to_grows(some, more, trees, root, target, rest, entry, written);
            },
            Some(id) => {
                let depth = depths[0];
                lemma_removal_grows(some, more, id, segments(digits, depth), leaf(digits, depth));
                match remove_plan(some, id, target, depth) {
                    Err(_) => {},
                    Ok(RemoveResult::NotFound) => {
                        lemma_kept_to_grows(some, more, trees, root, target, rest, entry, written);
                    },
                    Ok(RemoveResult::Empty) => {
                        lemma_kept_to_grows(some, more, trees, None, target, rest, entry, written);
                    },
                    Ok(RemoveResult::Removed(plan)) => {
                        if written.len() >= plan.len() {
                            lemma_kept_to_grows(
                                some,
                                more,
                                trees,
                                Some(written[plan.len() - 1]),
                                target,
                                rest,
                                entry,
                                written.skip(plan.len() as int),
                            );
                        }
                    },
                }
            },
        }
    }
}

/// One more tree that was to be written.
proof fn lemma_kept_to_goes_on(
    known: Map<Seq<u8>, Seq<Entry>>,
    trees: Map<Seq<u8>, Seq<Entry>>,
    root: Option<Seq<u8>>,
    target: Seq<u8>,
    depths: Seq<nat>,
    entry: Option<(nat, Seq<u8>)>,
    written: Seq<Seq<u8>>,
    edit: Edit,
    child: Option<Seq<u8>>,
    id: Seq<u8>,
)
    requires
        is_kept_to(known, trees, root, target, depths, entry, written),
        progress(known, root, target, depths, entry, written) == (Progress::Write {
            base: edit.base,
            name: edit.name,
            child,
        }),
        is_written(trees, edit, child, id),
    ensures
        is_kept_to(known, trees, root, target, depths, entry, written.push(id)),
    decreases depths.len(),
{
    let more = written.push(id);
    if depths.len() == 0 {
        let (level, tree) = entry->0;
        let plan = set_plan(known, root, target, tree, level)->Ok_0;
        assert(is_written(trees, plan[written.len() as int], child, id));
        lemma_begun_goes_on(trees, plan, written, id);
    } else {
        let rest = depths.drop_first();
        match root {
            None => {
                lemma_kept_to_goes_on(
                    known,
                    trees,
                    root,
                    target,
                    rest,
                    entry,
                    written,
                    edit,
                    child,
                    id,
                );
            },
            Some(top) => match remove_plan(known, top, target, depths[0])->Ok_0 {
                RemoveResult::NotFound => {
                    lemma_kept_to_goes_on(
                        known,
                        trees,
                        root,
                        target,
                        rest,
                        entry,
                        written,
                        edit,
                        child,
                        id,
                    );
                },
                RemoveResult::Empty => {
                    lemma_kept_to_goes_on(
                        known,
                        trees,
                        None,
                        target,
                        rest,
                        entry,
                        written,
                        edit,
                        child,
                        id,
                    );
                },
                RemoveResult::Removed(plan) => {
                    let n = plan.len() as int;
                    if written.len() < n {
                        assert(is_written(trees, plan[written.len() as int], child, id));
                        lemma_begun_goes_on(trees, plan, written, id);
                        if more.len() == n {
                            assert(plan.take(n) =~= plan);
                            assert(more.take(n) =~= more);
                            lemma_nothing_is_kept_to(
                                known,
                                trees,
                                Some(more[n - 1]),
                                target,
                                rest,
                                entry,
                                more.skip(n),
                            );
                        }
                    } else {
                        assert(more.take(n) =~= written.take(n));
                        assert(more.skip(n) =~= written.skip(n).push(id));
                        lemma_kept_to_goes_on(
                            known,
                            trees,
                            Some(written[n - 1]),
                            target,
                            rest,
                            entry,
                            written.skip(n),
                            edit,
                            child,
                            id,
                        );
                    }
                },
            },
        }
    }
}

/// A session in which nothing is known yet is the beginning of any operation.
pub proof fn law_operations_begin(
    trees: Map<Seq<u8>, Seq<Entry>>,
    root: Option<Seq<u8>>,
    target: Seq<u8>,
    tree: Seq<u8>,
    options: MetadataOptions,
)
    ensures
        ({
            let known = Known {
                root: None,
                trees: Map::empty(),
                lacking: Seq::empty(),
                written: Seq::empty(),
                concluded: false,
            };
            &&& set_under_way(known, trees, root, target, tree, options)
            &&& remove_under_way(known, trees, root, target)
        }),
{
}

/// Writing an entry stays under way with every action that it asks for.
pub proof fn law_set_goes_on(
    known: Known,
    request: Request,
    next: Known,
    trees: Map<Seq<u8>, Seq<Entry>>,
    root: Option<Seq<u8>>,
    target: Seq<u8>,
    tree: Seq<u8>,
    options: MetadataOptions,
)
    requires
        set_under_way(known, trees, root, target, tree, options),
        set_step(known, target, tree, options) == Step::<Request, Result<Seq<u8>, Error>>::Do(
            request,
        ),
        is_noted(known, request, next, trees, root),
    ensures
        set_under_way(next, trees, root, target, tree, options),
{
    let level = options.shard_level as nat;
    let entry = Some((level, tree));
    let written = known.written;
    if request is FindTree || request is TryTree {
        lemma_lacking_goes_on(known, next, trees, root, request);
        if !(written.len() == 0 && !known.concluded) {
            if let Some(top) = root {
                lemma_detect_grows(known.trees, next.trees, top, hex(target), 0);
                lemma_sweep_grows(
                    known.trees,
                    known.lacking,
                    next.trees,
                    next.lacking,
                    top,
                    hex(target),
                    0,
                    Some(level),
                );
            }
            let depths = replaced(known, root, target, options)->Ok_0->0;
            lemma_kept_to_grows(
                known.trees,
                next.trees,
                trees,
                root,
                target,
                depths,
                entry,
                written,
            );
        }
    }
    if request is WriteTree || request is Commit {
        let depths = replaced(known, root, target, options)->Ok_0->0;
        if written.len() == 0 {
            lemma_nothing_is_kept_to(known.trees, trees, root, target, depths, entry, written);
        }
        if let Request::WriteTree { base, name, child } = request {
            let change = match child {
                Some(id) => Change::Insert(id),
                None => Change::Remove,
            };
            lemma_kept_to_goes_on(
                known.trees,
                trees,
                root,
                target,
                depths,
                entry,
                written,
                Edit { base, name, change },
                child,
                next.written.last(),
            );
        }
    }
}

/// What could not be read before cannot be read with one tree more either.
pub proof fn lemma_lacking_goes_on(
    known: Known,
    next: Known,
    trees: Map<Seq<u8>, Seq<Entry>>,
    root: Option<Seq<u8>>,
    request: Request,
)
    requires
        fits(known, trees, root),
        request is FindTree || request is TryTree,
        is_noted(known, request, next, trees, root),
    ensures
        fits(next, trees, root),
        known.trees.submap_of(next.trees),
        is_lacking(known.lacking, next.trees),
        forall|id: Seq<u8>| #[trigger]
            known.lacking.contains(id) ==> next.lacking.contains(id),
{
    assert forall|id: Seq<u8>| #[trigger]
        known.lacking.contains(id) implies next.lacking.contains(id) by {
        let i = choose|i: int| 0 <= i < known.lacking.len() && known.lacking[i] == id;
        assert(next.lacking[i] == id);
    }
    assert forall|id: Seq<u8>| #[trigger]
        next.lacking.contains(id) implies !trees.contains_key(id) by {
        let i = choose|i: int| 0 <= i < next.lacking.len() && next.lacking[i] == id;
        if i < known.lacking.len() {
            assert(known.lacking[i] == id);
            assert(known.lacking.contains(id));
        }
    }
    assert forall|id: Seq<u8>| #[trigger]
        known.lacking.contains(id) implies !next.trees.contains_key(id) by {
        if next.trees.contains_key(id) {
            assert(next.trees.dom().contains(id));
            assert(trees.dom().contains(id));
        }
    }
}

/// Writing an entry ends with what was planned: the root tree that it commits is the
/// last of the trees that it had to write, all of them written, and once it is
/// committed that root tree is the answer.
pub proof fn law_set_ends_as_planned(
    known: Known,
    trees: Map<Seq<u8>, Seq<Entry>>,
    root: Option<Seq<u8>>,
    target: Seq<u8>,
    tree: Seq<u8>,
    options: MetadataOptions,
)
    requires
        set_under_way(known, trees, root, target, tree, options),
    ensures
        match set_step(known, target, tree, options) {
            Step::Do(Request::Commit { tree: committed, .. }) => {
                let next = Known { concluded: true, ..known };
                &&& set_carried_out(next, trees, target, tree, options)
                &&& set_step(next, target, tree, options) == Step::<
                    Request,
                    Result<Seq<u8>, Error>,
                >::Return(Ok(committed))
            },
            Step::Do(Request::DeleteReference) => false,
            Step::Return(Ok(_)) => {
                &&& set_carried_out(known, trees, target, tree, options)
                &&& known.concluded
            },
            _ => true,
        },
{
    if known.root is Some {
        if let Ok(Some(depths)) = replaced(known, root, target, options) {
            if known.written.len() == 0 {
                lemma_nothing_is_kept_to(
                    known.trees,
                    trees,
                    root,
                    target,
                    depths,
                    Some((options.shard_level as nat, tree)),
                    known.written,
                );
            }
        }
    }
}

/// Removing an entry stays under way with every action that it asks for.
pub proof fn law_remove_goes_on(
    known: Known,
    request: Request,
    next: Known,
    trees: Map<Seq<u8>, Seq<Entry>>,
    root: Option<Seq<u8>>,
    target: Seq<u8>,
)
    requires
        remove_under_way(known, trees, root, target),
        remove_step(known, target) == Step::<Request, bool>::Do(request),
        is_noted(known, request, next, trees, root),
    ensures
        remove_under_way(next, trees, root, target),
{
    let written = known.written;
    if request is FindTree || request is TryTree {
        lemma_lacking_goes_on(known, next, trees, root, request);
        if !(written.len() == 0 && !known.concluded) {
            let top = root->0;
            lemma_detect_grows(known.trees, next.trees, top, hex(target), 0);
            let first = (detect(known.trees, top, hex(target), 0)->Ok_0->0).0;
            lemma_sweep_grows(
                known.trees,
                known.lacking,
                next.trees,
                next.lacking,
                top,
                hex(target),
                first + 1,
                None,
            );
            let depths = occupied(known, root, target)->Ok_0;
            lemma_kept_to_grows(
                known.trees,
                next.trees,
                trees,
                root,
                target,
                depths,
                None,
                written,
            );
        }
    }
    if request is WriteTree || request is Commit || request is DeleteReference {
        let depths = occupied(known, root, target)->Ok_0;
        if written.len() == 0 {
            lemma_nothing_is_kept_to(known.trees, trees, root, target, depths, None, written);
        }
        if let Request::WriteTree { base, name, child } = request {
            let change = match child {
                Some(id) => Change::Insert(id),
                None => Change::Remove,
            };
            lemma_kept_to_goes_on(
                known.trees,
                trees,
                root,
                target,
                depths,
                None,
                written,
                Edit { base, name, change },
                child,
                next.written.last(),
            );
        }
    }
}

/// Removing an entry ends as planned: where it commits a root tree, that is the
/// last of the trees that it had to write, all of them written, where it deletes
/// the reference no tree is left, and it answers that the entry was removed once
/// one of the two was done.
pub proof fn law_remove_ends_as_planned(
    known: Known,
    trees: Map<Seq<u8>, Seq<Entry>>,
    root: Option<Seq<u8>>,
    target: Seq<u8>,
)
    requires
        remove_under_way(known, trees, root, target),
    ensures
        match remove_step(known, target) {
            Step::Do(Request::Commit { tree: committed, .. }) => {
                let next = Known { concluded: true, ..known };
                &&& remove_carried_out(next, trees, target, Some(committed))
                &&& remove_step(next, target) == Step::<Request, bool>::Return(true)
            },
            Step::Do(Request::DeleteReference) => {
                let next = Known { concluded: true, ..known };
                &&& remove_carried_out(next, trees, target, None)
                &&& remove_step(next, target) == Step::<Request, bool>::Return(true)
            },
            Step::Return(true) => {
                &&& known.concluded
                &&& exists|after: Option<Seq<u8>>| #[trigger]
                    remove_carried_out(known, trees, target, after)
            },
            _ => true,
        },
{
    if known.root is Some {
        if let Ok(depths) = occupied(known, root, target) {
            if known.written.len() == 0 {
                lemma_nothing_is_kept_to(
                    known.trees,
                    trees,
                    root,
                    target,
                    depths,
                    None,
                    known.written,
                );
            }
            if let Progress::Done(after) = progress(
                known.trees,
                root,
                target,
                depths,
                None,
                known.written,
            ) {
                if depths.len() > 0 && known.concluded {
                    assert(remove_carried_out(known, trees, target, after));
                }
            }
        }
    }
}

} // verus!
