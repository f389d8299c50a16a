//! What holds of the operations: what was written is read back, what was removed is
//! gone, and nothing else changes.
//!
//! Here `trees` are all the trees of a repository, those among them that an
//! operation wrote.

use vstd::prelude::*;

use crate::fanout::{detect, leaf, segments, sweep};
use crate::index::{
    edit_child, lookup, occupied, progress, remove_plan, remove_step, replaced, set_plan, set_step,
    Error, Known, MetadataOptions, Progress,
};
use crate::laws::{
    carried_out, cell, fits, is_lacking, is_written, law_lookup_is_least_depth,
    law_remove_changes_one_cell, law_same_cells_same_lookup, law_set_changes_one_cell,
    lemma_detect_grows, lemma_detect_is_least, lemma_existing_grows, lemma_found_is_removed,
    lemma_nothing_survives, lemma_removal_grows, lemma_sweep_finds, lemma_sweep_range,
    lemma_walk_is_last, lemma_way_to_level, lemma_written_alone, lemma_written_chain, only_reads,
};
use crate::oid::{hex, lemma_hex_digits};
use crate::rebuild::{existing, lemma_existing, plan, Change, Edit, RemoveResult};
use crate::step::{Request, Step};
use crate::tree::{has_others, Entry};

verus! {

/// Whether `written` are the trees that carrying out the beginning of `plan` writes.
pub open spec fn is_begun(
    trees: Map<Seq<u8>, Seq<Entry>>,
    plan: Seq<Edit>,
    written: Seq<Seq<u8>>,
) -> bool {
    written.len() <= plan.len() && carried_out(trees, plan.take(written.len() as int), written)
}

/// Whether `written` are the trees that were to be written so far to take the entries
/// of `target` at `depths` out of the index with root tree `root`, and then to put
/// in `entry`.
pub open spec fn is_kept_to(
    known: Map<Seq<u8>, Seq<Entry>>,
    trees: Map<Seq<u8>, Seq<Entry>>,
    root: Option<Seq<u8>>,
    target: Seq<u8>,
    depths: Seq<nat>,
    entry: Option<(nat, Seq<u8>)>,
    written: Seq<Seq<u8>>,
) -> bool
    decreases depths.len(),
{
    if depths.len() == 0 {
        match entry {
            None => written.len() == 0,
            Some((level, tree)) => match set_plan(known, root, target, tree, level) {
                Err(_) => written.len() == 0,
                Ok(plan) => is_begun(trees, plan, written),
            },
        }
    } else {
        let rest = depths.drop_first();
        match root {
            None => is_kept_to(known, trees, root, target, rest, entry, written),
            Some(id) => match remove_plan(known, id, target, depths[0]) {
                Err(_) => written.len() == 0,
                Ok(RemoveResult::NotFound) => is_kept_to(
                    known,
                    trees,
                    root,
                    target,
                    rest,
                    entry,
                    written,
                ),
                Ok(RemoveResult::Empty) => is_kept_to(
                    known,
                    trees,
                    None,
                    target,
                    rest,
                    entry,
                    written,
                ),
                Ok(RemoveResult::Removed(plan)) => if written.len() < plan.len() {
                    is_begun(trees, plan, written)
                } else {
                    &&& carried_out(trees, plan, written.take(plan.len() as int))
                    &&& is_kept_to(
                        known,
                        trees,
                        Some(written[plan.len() - 1]),
                        target,
                        rest,
                        entry,
                        written.skip(plan.len() as int),
                    )
                },
            },
        }
    }
}

/// What is not found holds no tree.
proof fn lemma_not_found(
    known: Map<Seq<u8>, Seq<Entry>>,
    trees: Map<Seq<u8>, Seq<Entry>>,
    root: Seq<u8>,
    target: Seq<u8>,
    depth: nat,
)
    requires
        known.submap_of(trees),
        remove_plan(known, root, target, depth) == Ok::<RemoveResult<Seq<Edit>>, Seq<u8>>(
            RemoveResult::NotFound,
        ),
    ensures
        cell(trees, Some(root), target, depth) == Ok::<Option<Seq<u8>>, Seq<u8>>(None),
{
    let path = segments(hex(target), depth);
    let name = leaf(hex(target), depth);
    lemma_removal_grows(known, trees, root, path, name);
    lemma_existing(trees, Some(root), path);
    lemma_walk_is_last(trees, root, path);
}

/// What the index holds once all is written: at the depth of the new entry its tree,
/// at the other depths that were taken out nothing, and everywhere else, and for
/// every other target, what it held before.
pub proof fn lemma_done_cells(
    known: Map<Seq<u8>, Seq<Entry>>,
    trees: Map<Seq<u8>, Seq<Entry>>,
    root: Option<Seq<u8>>,
    target: Seq<u8>,
    depths: Seq<nat>,
    entry: Option<(nat, Seq<u8>)>,
    written: Seq<Seq<u8>>,
    other: Seq<u8>,
    depth: nat,
)
    requires
        known.submap_of(trees),
        target.len() == 20,
        other.len() == 20,
        depth < 20,
        forall|i: int| 0 <= i < depths.len() ==> #[trigger] depths[i] < 20,
        entry matches Some((level, _)) ==> level < 20,
        is_kept_to(known, trees, root, target, depths, entry, written),
        progress(known, root, target, depths, entry, written) is Done,
    ensures
        cell(
            trees,
            progress(known, root, target, depths, entry, written)->Done_0,
            other,
            depth,
        ) == if other == target && entry is Some && (entry->0).0 == depth {
            Ok(Some((entry->0).1))
        } else if other == target && depths.contains(depth) {
            Ok(None)
        } else {
            cell(trees, root, other, depth)
        },
    decreases depths.len(),
{
    if depths.len() == 0 {
        if let Some((level, tree)) = entry {
            let plan = set_plan(known, root, target, tree, level)->Ok_0;
            assert(plan.take(plan.len() as int) =~= plan);
            law_set_changes_one_cell(
                known,
                trees,
                root,
                target,
                tree,
                level,
                written,
                other,
                depth,
            );
        }
    } else {
        let rest = depths.drop_first();
        assert forall|i: int| 0 <= i < rest.len() implies #[trigger] rest[i] < 20 by {
            assert(rest[i] == depths[i + 1]);
        }
        assert(depths.contains(depth) <==> depths[0] == depth || rest.contains(depth)) by {
            if depths.contains(depth) {
                let i = choose|i: int| 0 <= i < depths.len() && depths[i] == depth;
                if i > 0 {
                    assert(rest[i - 1] == depth);
                }
            }
            if rest.contains(depth) {
                let i = choose|i: int| 0 <= i < rest.len() && rest[i] == depth;
                assert(depths[i + 1] == depth);
            }
        }
        match root {
            None => {
                lemma_done_cells(
                    known,
                    trees,
                    root,
                    target,
                    rest,
                    entry,
                    written,
                    other,
                    depth,
                );
            },
            Some(id) => match remove_plan(known, id, target, depths[0])->Ok_0 {
                RemoveResult::NotFound => {
                    lemma_not_found(known, trees, id, target, depths[0]);
                    lemma_done_cells(
                        known,
                        trees,
                        root,
                        target,
                        rest,
                        entry,
                        written,
                        other,
                        depth,
                    );
                },
                RemoveResult::Empty => {
                    law_remove_changes_one_cell(
                        known,
                        trees,
                        id,
                        target,
                        depths[0],
                        written,
                        None,
                        other,
                        depth,
                    );
                    lemma_done_cells(
                        known,
                        trees,
                        None,
                        target,
                        rest,
                        entry,
                        written,
                        other,
                        depth,
                    );
                },
                RemoveResult::Removed(plan) => {
                    let n = plan.len() as int;
                    let top = Some(written[n - 1]);
                    assert(n > 0);
                    assert(written.take(n).last() == written[n - 1]);
                    law_remove_changes_one_cell(
                        known,
                        trees,
                        id,
                        target,
                        depths[0],
                        written.take(n),
                        top,
                        other,
                        depth,
                    );
                    lemma_done_cells(
                        known,
                        trees,
                        top,
                        target,
                        rest,
                        entry,
                        written.skip(n),
                        other,
                        depth,
                    );
                },
            },
        }
    }
}

/// Whether the writing of an entry was carried out as it was asked for.
pub open spec fn set_carried_out(
    known: Known,
    trees: Map<Seq<u8>, Seq<Entry>>,
    target: Seq<u8>,
    tree: Seq<u8>,
    options: MetadataOptions,
) -> bool {
    &&& known.root is Some
    &&& replaced(known, known.root->0, target, options) matches Ok(Some(depths))
    &&& is_kept_to(
        known.trees,
        trees,
        known.root->0,
        target,
        depths,
        Some((options.shard_level as nat, tree)),
        known.written,
    )
}

/// The depths at which entries give way to a new one.
pub proof fn lemma_replaced(
    known: Known,
    trees: Map<Seq<u8>, Seq<Entry>>,
    root: Option<Seq<u8>>,
    target: Seq<u8>,
    options: MetadataOptions,
    depth: nat,
)
    requires
        fits(known, trees, root),
        target.len() == 20,
        replaced(known, root, target, options) matches Ok(Some(_)),
        depth < 20,
    ensures
        forall|i: int|
            0 <= i < replaced(known, root, target, options)->Ok_0->0.len() ==> #[trigger] replaced(
                known,
                root,
                target,
                options,
            )->Ok_0->0[i] < 20,
        depth != options.shard_level && (cell(
            trees,
            root,
            target,
            depth,
        ) matches Ok(Some(_))) ==> replaced(known, root, target, options)->Ok_0->0.contains(depth),
        !options.force ==> cell(trees, root, target, depth) == Ok::<Option<Seq<u8>>, Seq<u8>>(None),
        replaced(known, root, target, options)->Ok_0->0.contains(depth) ==> depth
            != options.shard_level && (cell(trees, root, target, depth) matches Ok(Some(_))),
{
    lemma_hex_digits(target);
    if let Some(id) = root {
        if options.force {
            let keep = Some(options.shard_level as nat);
            lemma_sweep_range(known.trees, known.lacking, id, hex(target), 0, keep);
            lemma_sweep_finds(known.trees, known.lacking, trees, id, target, 0, keep, depth);
        } else {
            lemma_detect_grows(known.trees, trees, id, hex(target), 0);
            lemma_detect_is_least(trees, id, target, 0);
        }
    }
}

/// Writing an entry leaves the target one entry: at the depth that was asked for the
/// index holds the new tree, and at every other depth nothing. A way that was not
/// readable before is not readable then.
pub proof fn law_set_leaves_one_entry(
    known: Known,
    trees: Map<Seq<u8>, Seq<Entry>>,
    root: Option<Seq<u8>>,
    target: Seq<u8>,
    tree: Seq<u8>,
    options: MetadataOptions,
    answer: Seq<u8>,
    depth: nat,
)
    requires
        target.len() == 20,
        options.shard_level < 20,
        depth < 20,
        fits(known, trees, root),
        set_carried_out(known, trees, target, tree, options),
        set_step(known, target, tree, options) == Step::<Request, Result<Seq<u8>, Error>>::Return(
            Ok(answer),
        ),
    ensures
        cell(trees, Some(answer), target, depth) == if depth == options.shard_level {
            Ok(Some(tree))
        } else if cell(trees, root, target, depth) is Ok {
            Ok(None)
        } else {
            cell(trees, root, target, depth)
        },
        depth <= options.shard_level ==> cell(trees, Some(answer), target, depth) is Ok,
{
    lemma_set_done(known, trees, root, target, tree, options, answer);
    lemma_replaced(known, trees, root, target, options, depth);
    let depths = replaced(known, root, target, options)->Ok_0->0;
    lemma_done_cells(
        known.trees,
        trees,
        root,
        target,
        depths,
        Some((options.shard_level as nat, tree)),
        known.written,
        target,
        depth,
    );
    if depth <= options.shard_level {
        lemma_done_way(
            known.trees,
            trees,
            root,
            target,
            depths,
            options.shard_level as nat,
            tree,
            known.written,
            depth,
        );
    }
}

/// An entry that was not to overwrite was written where the target had none.
pub proof fn lemma_unforced_had_none(
    known: Known,
    trees: Map<Seq<u8>, Seq<Entry>>,
    root: Option<Seq<u8>>,
    target: Seq<u8>,
    tree: Seq<u8>,
    options: MetadataOptions,
    depth: nat,
)
    requires
        target.len() == 20,
        depth < 20,
        !options.force,
        fits(known, trees, root),
        set_carried_out(known, trees, target, tree, options),
    ensures
        cell(trees, root, target, depth) == Ok::<Option<Seq<u8>>, Seq<u8>>(None),
{
    lemma_replaced(known, trees, root, target, options, depth);
}

/// Above the depth at which an entry was written the way was readable.
proof fn lemma_done_way(
    known: Map<Seq<u8>, Seq<Entry>>,
    trees: Map<Seq<u8>, Seq<Entry>>,
    root: Option<Seq<u8>>,
    target: Seq<u8>,
    depths: Seq<nat>,
    level: nat,
    tree: Seq<u8>,
    written: Seq<Seq<u8>>,
    depth: nat,
)
    requires
        known.submap_of(trees),
        target.len() == 20,
        depth <= level < 20,
        is_kept_to(known, trees, root, target, depths, Some((level, tree)), written),
        progress(known, root, target, depths, Some((level, tree)), written) is Done,
    ensures
        cell(
            trees,
            progress(known, root, target, depths, Some((level, tree)), written)->Done_0,
            target,
            depth,
        ) is Ok,
    decreases depths.len(),
{
    let entry = Some((level, tree));
    if depths.len() == 0 {
        let plan = set_plan(known, root, target, tree, level)->Ok_0;
        assert(plan.take(plan.len() as int) =~= plan);
        lemma_way_to_level(known, trees, root, target, tree, level, depth);
        law_set_changes_one_cell(
            known,
            trees,
            root,
            target,
            tree,
            level,
            written,
            target,
            depth,
        );
    } else {
        let rest = depths.drop_first();
        match root {
            None => {
                lemma_done_way(known, trees, root, target, rest, level, tree, written, depth);
            },
            Some(id) => match remove_plan(known, id, target, depths[0])->Ok_0 {
                RemoveResult::NotFound => {
                    lemma_done_way(known, trees, root, target, rest, level, tree, written, depth);
                },
                RemoveResult::Empty => {
                    lemma_done_way(known, trees, None, target, rest, level, tree, written, depth);
                },
                RemoveResult::Removed(plan) => {
                    let n = plan.len() as int;
                    lemma_done_way(
                        known,
                        trees,
                        Some(written[n - 1]),
                        target,
                        rest,
                        level,
                        tree,
                        written.skip(n),
                        depth,
                    );
                },
            },
        }
    }
}

/// What writing an entry answers is what was written last.
pub proof fn lemma_set_done(
    known: Known,
    trees: Map<Seq<u8>, Seq<Entry>>,
    root: Option<Seq<u8>>,
    target: Seq<u8>,
    tree: Seq<u8>,
    options: MetadataOptions,
    answer: Seq<u8>,
)
    requires
        fits(known, trees, root),
        set_carried_out(known, trees, target, tree, options),
        set_step(known, target, tree, options) == Step::<Request, Result<Seq<u8>, Error>>::Return(
            Ok(answer),
        ),
    ensures
        known.root == Some(root),
        replaced(known, root, target, options) matches Ok(Some(depths)) && progress(
            known.trees,
            root,
            target,
            depths,
            Some((options.shard_level as nat, tree)),
            known.written,
        ) == Progress::Done(Some(answer)),
{
    let depths = replaced(known, root, target, options)->Ok_0->0;
    lemma_done_is_some(
        known.trees,
        root,
        target,
        depths,
        (options.shard_level as nat, tree),
        known.written,
    );
}

/// Once an entry is put in there is a root tree.
pub proof fn lemma_done_is_some(
    known: Map<Seq<u8>, Seq<Entry>>,
    root: Option<Seq<u8>>,
    target: Seq<u8>,
    depths: Seq<nat>,
    entry: (nat, Seq<u8>),
    written: Seq<Seq<u8>>,
)
    ensures
        progress(known, root, target, depths, Some(entry), written) matches Progress::Done(after)
            ==> after is Some,
    decreases depths.len(),
{
    if depths.len() > 0 {
        let rest = depths.drop_first();
        lemma_done_is_some(known, root, target, rest, entry, written);
        if let Some(id) = root {
            match remove_plan(known, id, target, depths[0]) {
                Ok(RemoveResult::Empty) => {
                    lemma_done_is_some(known, None, target, rest, entry, written);
                },
                Ok(RemoveResult::Removed(plan)) => {
                    lemma_done_is_some(
                        known,
                        Some(written[plan.len() - 1]),
                        target,
                        rest,
                        entry,
                        written.skip(plan.len() as int),
                    );
                },
                _ => {},
            }
        }
    }
}

/// What was written is read back: once writing an entry has answered with a root
/// tree, reading the target in the index with that root tree finds the tree that
/// was written, at the depth that was asked for.
pub proof fn law_get_after_set(
    known: Known,
    trees: Map<Seq<u8>, Seq<Entry>>,
    root: Option<Seq<u8>>,
    target: Seq<u8>,
    tree: Seq<u8>,
    options: MetadataOptions,
    answer: Seq<u8>,
)
    requires
        target.len() == 20,
        options.shard_level < 20,
        fits(known, trees, root),
        set_carried_out(known, trees, target, tree, options),
        set_step(known, target, tree, options) == Step::<Request, Result<Seq<u8>, Error>>::Return(
            Ok(answer),
        ),
    ensures
        lookup(trees, Some(answer), hex(target)) == Ok::<Option<(nat, Seq<u8>)>, Seq<u8>>(
            Some((options.shard_level as nat, tree)),
        ),
{
    let level = options.shard_level as nat;
    law_lookup_is_least_depth(trees, Some(answer), target);
    assert forall|depth: nat| depth <= level implies #[trigger] cell(
        trees,
        Some(answer),
        target,
        depth,
    ) == Ok::<Option<Seq<u8>>, Seq<u8>>(
        if depth == level {
            Some(tree)
        } else {
            None
        },
    ) by {
        law_set_leaves_one_entry(known, trees, root, target, tree, options, answer, depth);
    }
    assert(cell(trees, Some(answer), target, level) == Ok::<Option<Seq<u8>>, Seq<u8>>(Some(tree)));
}

/// Writing an entry for one target leaves what the index holds for every other as it
/// was, at every depth, and so what is read for it.
pub proof fn law_set_keeps_other_targets(
    known: Known,
    trees: Map<Seq<u8>, Seq<Entry>>,
    root: Option<Seq<u8>>,
    target: Seq<u8>,
    tree: Seq<u8>,
    options: MetadataOptions,
    answer: Seq<u8>,
    other: Seq<u8>,
)
    requires
        target.len() == 20,
        other.len() == 20,
        other != target,
        options.shard_level < 20,
        fits(known, trees, root),
        set_carried_out(known, trees, target, tree, options),
        set_step(known, target, tree, options) == Step::<Request, Result<Seq<u8>, Error>>::Return(
            Ok(answer),
        ),
    ensures
        forall|depth: nat|
            depth < 20 ==> #[trigger] cell(trees, Some(answer), other, depth) == cell(
                trees,
                root,
                other,
                depth,
            ),
        lookup(trees, Some(answer), hex(other)) == lookup(trees, root, hex(other)),
{
    lemma_set_done(known, trees, root, target, tree, options, answer);
    lemma_replaced(known, trees, root, target, options, 0);
    let depths = replaced(known, root, target, options)->Ok_0->0;
    assert forall|depth: nat| depth < 20 implies #[trigger] cell(
        trees,
        Some(answer),
        other,
        depth,
    ) == cell(trees, root, other, depth) by {
        lemma_done_cells(
            known.trees,
            trees,
            root,
            target,
            depths,
            Some((options.shard_level as nat, tree)),
            known.written,
            other,
            depth,
        );
    }
    law_same_cells_same_lookup(trees, Some(answer), root, other);
}

/// Removing an entry answers whether there was one. Where there was none, the
/// repository is only read.
pub proof fn law_remove_answers_whether_held(
    known: Known,
    trees: Map<Seq<u8>, Seq<Entry>>,
    root: Option<Seq<u8>>,
    target: Seq<u8>,
)
    requires
        fits(known, trees, root),
    ensures
        match remove_step(known, target) {
            Step::Return(removed) => lookup(trees, root, hex(target)) matches Ok(held) && removed
                == (held is Some),
            Step::Do(request) => only_reads(request) || (lookup(
                trees,
                root,
                hex(target),
            ) matches Ok(Some(_))),
        },
{
    if let Some(Some(id)) = known.root {
        lemma_detect_grows(known.trees, trees, id, hex(target), 0);
    }
}

/// Whether the removal of an entry was carried out as it was asked for, so that
/// the root tree of the index is `after` now.
pub open spec fn remove_carried_out(
    known: Known,
    trees: Map<Seq<u8>, Seq<Entry>>,
    target: Seq<u8>,
    after: Option<Seq<u8>>,
) -> bool {
    &&& known.root matches Some(root)
    &&& occupied(known, root, target) matches Ok(depths)
    &&& depths.len() > 0
    &&& is_kept_to(known.trees, trees, root, target, depths, None, known.written)
    &&& progress(known.trees, root, target, depths, None, known.written) == Progress::Done(after)
}

/// The depths at which a target has entries.
pub proof fn lemma_occupied(
    known: Known,
    trees: Map<Seq<u8>, Seq<Entry>>,
    root: Option<Seq<u8>>,
    target: Seq<u8>,
    depth: nat,
)
    requires
        fits(known, trees, root),
        target.len() == 20,
        occupied(known, root, target) is Ok,
        depth < 20,
    ensures
        forall|i: int|
            0 <= i < occupied(known, root, target)->Ok_0.len() ==> #[trigger] occupied(
                known,
                root,
                target,
            )->Ok_0[i] < 20,
        (cell(trees, root, target, depth) matches Ok(Some(_))) ==> occupied(
            known,
            root,
            target,
        )->Ok_0.contains(depth),
        occupied(known, root, target)->Ok_0.contains(depth) ==> (cell(
            trees,
            root,
            target,
            depth,
        ) matches Ok(Some(_))),
{
    lemma_hex_digits(target);
    if let Some(id) = root {
        lemma_detect_grows(known.trees, trees, id, hex(target), 0);
        lemma_detect_is_least(trees, id, target, 0);
        if let Ok(Some((first, _))) = detect(known.trees, id, hex(target), 0) {
            let all = occupied(known, root, target)->Ok_0;
            let deeper = sweep(
                known.trees,
                known.lacking,
                id,
                hex(target),
                first + 1,
                None,
            )->Ok_0;
            lemma_sweep_range(known.trees, known.lacking, id, hex(target), first + 1, None);
            assert(all[0] == first);
            if deeper.contains(depth) {
                let i = choose|i: int| 0 <= i < deeper.len() && deeper[i] == depth;
                assert(all[i + 1] == depth);
            }
            if all.contains(depth) {
                let i = choose|i: int| 0 <= i < all.len() && all[i] == depth;
                if i > 0 {
                    assert(deeper[i - 1] == depth);
                }
            }
            if depth > first {
                lemma_sweep_finds(
                    known.trees,
                    known.lacking,
                    trees,
                    id,
                    target,
                    first + 1,
                    None,
                    depth,
                );
            } else if depth < first {
                assert(cell(trees, root, target, depth) == Ok::<Option<Seq<u8>>, Seq<u8>>(None));
            }
        }
    }
}

/// What was removed is gone: the index holds nothing for the target at any depth. A
/// way that was not readable before is not readable then.
pub proof fn law_remove_leaves_nothing(
    known: Known,
    trees: Map<Seq<u8>, Seq<Entry>>,
    root: Option<Seq<u8>>,
    target: Seq<u8>,
    after: Option<Seq<u8>>,
    depth: nat,
)
    requires
        target.len() == 20,
        depth < 20,
        fits(known, trees, root),
        remove_carried_out(known, trees, target, after),
    ensures
        cell(trees, after, target, depth) == if cell(trees, root, target, depth) is Ok {
            Ok(None)
        } else {
            cell(trees, root, target, depth)
        },
{
    lemma_occupied(known, trees, root, target, depth);
    let depths = occupied(known, root, target)->Ok_0;
    lemma_done_cells(
        known.trees,
        trees,
        root,
        target,
        depths,
        None,
        known.written,
        target,
        depth,
    );
}

/// Reading a target that was removed finds nothing, unless it fails for want of a tree
/// that was wanting before.
pub proof fn law_get_after_remove(
    known: Known,
    trees: Map<Seq<u8>, Seq<Entry>>,
    root: Option<Seq<u8>>,
    target: Seq<u8>,
    after: Option<Seq<u8>>,
)
    requires
        target.len() == 20,
        fits(known, trees, root),
        remove_carried_out(known, trees, target, after),
    ensures
        match lookup(trees, after, hex(target)) {
            Ok(found) => found is None,
            Err(missing) => exists|depth: nat|
                depth < 20 && #[trigger] cell(trees, root, target, depth) == Err::<
                    Option<Seq<u8>>,
                    Seq<u8>,
                >(missing),
        },
        (forall|depth: nat| depth < 20 ==> #[trigger] cell(trees, root, target, depth) is Ok)
            ==> lookup(trees, after, hex(target)) == Ok::<Option<(nat, Seq<u8>)>, Seq<u8>>(None),
{
    law_lookup_is_least_depth(trees, after, target);
    match lookup(trees, after, hex(target)) {
        Ok(Some((depth, _))) => {
            law_remove_leaves_nothing(known, trees, root, target, after, depth);
        },
        Ok(None) => {},
        Err(missing) => {
            let depth = choose|depth: nat|
                depth < 20 && #[trigger] cell(trees, after, target, depth) == Err::<
                    Option<Seq<u8>>,
                    Seq<u8>,
                >(missing);
            law_remove_leaves_nothing(known, trees, root, target, after, depth);
            assert(cell(trees, root, target, depth) == Err::<Option<Seq<u8>>, Seq<u8>>(missing));
        },
    }
}

/// Removing the entry of one target leaves what the index holds for every other as it
/// was, at every depth, and so what is read for it.
pub proof fn law_remove_keeps_other_targets(
    known: Known,
    trees: Map<Seq<u8>, Seq<Entry>>,
    root: Option<Seq<u8>>,
    target: Seq<u8>,
    after: Option<Seq<u8>>,
    other: Seq<u8>,
)
    requires
        target.len() == 20,
        other.len() == 20,
        other != target,
        fits(known, trees, root),
        remove_carried_out(known, trees, target, after),
    ensures
        forall|depth: nat|
            depth < 20 ==> #[trigger] cell(trees, after, other, depth) == cell(
                trees,
                root,
                other,
                depth,
            ),
        lookup(trees, after, hex(other)) == lookup(trees, root, hex(other)),
{
    lemma_occupied(known, trees, root, target, 0);
    let depths = occupied(known, root, target)->Ok_0;
    assert forall|depth: nat| depth < 20 implies #[trigger] cell(trees, after, other, depth)
        == cell(trees, root, other, depth) by {
        lemma_done_cells(
            known.trees,
            trees,
            root,
            target,
            depths,
            None,
            known.written,
            other,
            depth,
        );
    }
    law_same_cells_same_lookup(trees, after, root, other);
}

/// Removing undoes writing: an entry written for a target that had none, and then
/// removed, leaves the index holding for every target and depth what it held
/// before both.
pub proof fn law_remove_undoes_set(
    before: Known,
    between: Known,
    trees: Map<Seq<u8>, Seq<Entry>>,
    root: Option<Seq<u8>>,
    target: Seq<u8>,
    tree: Seq<u8>,
    options: MetadataOptions,
    answer: Seq<u8>,
    after: Option<Seq<u8>>,
    other: Seq<u8>,
    depth: nat,
)
    requires
        target.len() == 20,
        other.len() == 20,
        depth < 20,
        options.shard_level < 20,
        lookup(trees, root, hex(target)) == Ok::<Option<(nat, Seq<u8>)>, Seq<u8>>(None),
        fits(before, trees, root),
        set_carried_out(before, trees, target, tree, options),
        set_step(before, target, tree, options) == Step::<Request, Result<Seq<u8>, Error>>::Return(
            Ok(answer),
        ),
        fits(between, trees, Some(answer)),
        remove_carried_out(between, trees, target, after),
    ensures
        cell(trees, after, other, depth) == cell(trees, root, other, depth),
{
    if other == target {
        law_lookup_is_least_depth(trees, root, target);
        assert(cell(trees, root, target, depth) == Ok::<Option<Seq<u8>>, Seq<u8>>(None));
        law_set_leaves_one_entry(before, trees, root, target, tree, options, answer, depth);
        law_remove_leaves_nothing(between, trees, Some(answer), target, after, depth);
    } else {
        law_set_keeps_other_targets(before, trees, root, target, tree, options, answer, other);
        law_remove_keeps_other_targets(between, trees, Some(answer), target, after, other);
        assert(cell(trees, Some(answer), other, depth) == cell(trees, root, other, depth));
    }
}

/// An index with one entry for a target is swept in vain for others.
pub proof fn lemma_one_entry_is_occupied(
    known: Known,
    trees: Map<Seq<u8>, Seq<Entry>>,
    root: Seq<u8>,
    target: Seq<u8>,
    level: nat,
    tree: Seq<u8>,
)
    requires
        known.trees.submap_of(trees),
        is_lacking(known.lacking, trees),
        target.len() == 20,
        level < 20,
        lookup(trees, Some(root), hex(target)) == Ok::<Option<(nat, Seq<u8>)>, Seq<u8>>(
            Some((level, tree)),
        ),
        forall|depth: nat|
            depth < 20 && depth != level ==> !(#[trigger] cell(
                trees,
                Some(root),
                target,
                depth,
            ) matches Ok(Some(_))),
    ensures
        occupied(known, Some(root), target) matches Ok(depths) ==> depths =~= seq![level],
{
    lemma_detect_grows(known.trees, trees, root, hex(target), 0);
    lemma_hex_digits(target);
    if let Ok(depths) = occupied(known, Some(root), target) {
        let deeper = sweep(
            known.trees,
            known.lacking,
            root,
            hex(target),
            level + 1,
            None,
        )->Ok_0;
        lemma_sweep_range(known.trees, known.lacking, root, hex(target), level + 1, None);
        if deeper.len() > 0 {
            let depth = deeper[0];
            assert(deeper.contains(depth));
            lemma_sweep_finds(
                known.trees,
                known.lacking,
                trees,
                root,
                target,
                level + 1,
                None,
                depth,
            );
            assert(!(cell(trees, Some(root), target, depth) matches Ok(Some(_))));
        }
    }
}

/// Removing the last entry removes the index: where the entry was written when
/// there was no index yet, its removal writes no tree and makes no commit, but
/// deletes the reference.
pub proof fn law_last_removal_deletes_the_reference(
    before: Known,
    between: Known,
    trees: Map<Seq<u8>, Seq<Entry>>,
    target: Seq<u8>,
    tree: Seq<u8>,
    options: MetadataOptions,
    answer: Seq<u8>,
)
    requires
        target.len() == 20,
        options.shard_level < 20,
        fits(before, trees, None),
        set_carried_out(before, trees, target, tree, options),
        set_step(before, target, tree, options) == Step::<Request, Result<Seq<u8>, Error>>::Return(
            Ok(answer),
        ),
        fits(between, trees, Some(answer)),
    ensures
        match remove_step(between, target) {
            Step::Do(request) => only_reads(request) || request is DeleteReference,
            Step::Return(removed) => removed && between.concluded,
        },
{
    let level = options.shard_level as nat;
    let path = segments(hex(target), level);
    let name = leaf(hex(target), level);
    let names = path.push(name);
    assert(path.len() == level);
    law_get_after_set(before, trees, None, target, tree, options, answer);
    assert forall|depth: nat| depth < 20 && depth != level implies !(#[trigger] cell(
        trees,
        Some(answer),
        target,
        depth,
    ) matches Ok(Some(_))) by {
        law_set_leaves_one_entry(before, trees, None, target, tree, options, answer, depth);
    }
    lemma_one_entry_is_occupied(between, trees, answer, target, level, tree);
    lemma_detect_grows(between.trees, trees, answer, hex(target), 0);
    let none = existing(before.trees, None, path)->Ok_0;
    let edits = plan(none, names, level, Change::Insert(tree));
    assert(edits.take(edits.len() as int) =~= edits);
    lemma_written_chain(trees, none, path, name, Change::Insert(tree), before.written, 0);
    assert(path.skip(0) =~= path);
    lemma_existing_grows(between.trees, trees, Some(answer), path);
    lemma_existing(between.trees, Some(answer), path);
    if let Ok(chain) = existing(between.trees, Some(answer), path) {
        assert forall|i: int| 0 <= i < chain.len() implies !has_others(
            between.trees[(#[trigger] chain[i])->0],
            names[i],
        ) by {
            let edit = edits[level - i];
            assert(chain[i] == Some(before.written[level - i]));
            assert(is_written(
                trees,
                edit,
                edit_child(edit, before.written.take(level - i)),
                before.written[level - i],
            ));
            lemma_written_alone(
                trees,
                edit,
                edit_child(edit, before.written.take(level - i)),
                before.written[level - i],
            );
            assert(between.trees.contains_key(chain[i]->0));
        }
        lemma_nothing_survives(between.trees, chain, names, names.len());
        if detect(between.trees, answer, hex(target), 0) is Ok {
            lemma_detect_is_least(between.trees, answer, target, 0);
            lemma_found_is_removed(between.trees, answer, target, level);
        }
    }
    if let Ok(depths) = occupied(between, Some(answer), target) {
        assert(depths == seq![level]);
        assert(depths.drop_first() =~= Seq::empty());
        reveal_with_fuel(progress, 2);
        match remove_plan(between.trees, answer, target, level) {
            Ok(removal) => {
                assert(removal is Empty);
            },
            Err(_) => {},
        }
    }
}

} // verus!
