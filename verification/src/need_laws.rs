//! What operations need of a repository: the trees on a target's own way through the
//! index, and the tree to attach. Where these are there, an operation succeeds.

use vstd::prelude::*;

use crate::course_laws::{
    is_noted, lemma_nothing_is_kept_to, remove_under_way, set_under_way,
};
use crate::ending_laws::{
    is_get_run, is_remove_run, is_set_run, lemma_get_run, lemma_remove_run, lemma_set_run,
};
use crate::fanout::{detect, held, leaf, segments, sweep, walk};
use crate::fanout_laws::{lemma_existing_is_walk, lemma_inserted_is_held};
use crate::index::{
    edit_child, get_step, lookup, occupied, progress, remove_plan, remove_step, replaced, set_plan,
    set_step, Error, Known, MetadataOptions, Progress,
};
use crate::laws::{
    cell, fits, is_sound, law_get_answers_what_is_held, law_lookup_is_least_depth,
    law_remove_changes_one_cell, law_set_refuses_to_overwrite, lemma_detect_grows,
    lemma_detect_is_least, lemma_existing_grows, lemma_found_entry, lemma_found_is_removed,
    lemma_removal_grows, lemma_surviving_holds, lemma_surviving_level, lemma_sweep_range,
    only_reads, removed_to,
};
use crate::oid::{hex, is_hex_digit, lemma_hex_digits};
use crate::operation_laws::{
    is_begun, is_kept_to, law_remove_answers_whether_held, lemma_occupied, lemma_replaced,
    lemma_set_done, set_carried_out,
};
use crate::rebuild::{
    child, existing, lemma_existing, lemma_existing_above, plan, surviving, Change, RemoveResult,
};
use crate::rebuild_laws::{lemma_done_inserts, lemma_way_below};
use crate::settle_laws::lemma_replaced_ascends;
use crate::step::{Request, Step};
use crate::tidy_laws::{is_digits, is_tidy, is_tidy_index};
use crate::tree::{
    entry_named, has_others, is_first_named, law_the_first_of_a_name_is_found, Entry,
};

verus! {

/// Whether directories, each named by the next two of `digits`, lead from the tree
/// `from` to the tree `id`.
pub open spec fn leads(
    trees: Map<Seq<u8>, Seq<Entry>>,
    from: Seq<u8>,
    digits: Seq<char>,
    id: Seq<u8>,
) -> bool
    decreases digits.len(),
{
    from == id || (trees.contains_key(from) && digits.len() > 2 && exists|i: int|
        0 <= i < trees[from].len() && (#[trigger] trees[from][i]).name == Some(
            digits.subrange(0, 2),
        ) && leads(trees, trees[from][i].id, digits.subrange(2, digits.len() as int), id))
}

/// Whether the tree `id` lies on the way through the index to an entry of `target`: it
/// is the root tree or one of the directories that the digits of `target` name.
pub open spec fn is_on_the_way(
    trees: Map<Seq<u8>, Seq<Entry>>,
    root: Option<Seq<u8>>,
    target: Seq<u8>,
    id: Seq<u8>,
) -> bool {
    root matches Some(top) && leads(trees, top, hex(target), id)
}

/// Whether every tree on the way to an entry of `target` exists.
pub open spec fn is_passable(
    trees: Map<Seq<u8>, Seq<Entry>>,
    root: Option<Seq<u8>>,
    target: Seq<u8>,
) -> bool {
    forall|id: Seq<u8>| #[trigger]
        is_on_the_way(trees, root, target, id) ==> trees.contains_key(id)
}

/// A walk that lacks a tree lacks one on its way.
proof fn lemma_walk_lacks_on_the_way(
    known: Map<Seq<u8>, Seq<Entry>>,
    trees: Map<Seq<u8>, Seq<Entry>>,
    from: Seq<u8>,
    digits: Seq<char>,
    depth: nat,
)
    requires
        known.submap_of(trees),
        2 * depth < digits.len(),
        digits.len() % 2 == 0,
    ensures
        walk(known, from, segments(digits, depth)) matches Err(missing) ==> leads(
            trees,
            from,
            digits,
            missing,
        ) && !known.contains_key(missing),
    decreases depth,
{
    if depth > 0 && known.contains_key(from) {
        lemma_way_below(digits, depth);
        assert(known.dom().contains(from));
        assert(trees.dom().contains(from));
        assert(trees[from] == known[from]);
        assert(digits.subrange(0, 2) =~= digits.take(2));
        assert(digits.subrange(2, digits.len() as int) =~= digits.skip(2));
        if entry_named(known[from], digits.take(2)) is Some {
            let i = lemma_found_entry(known[from], digits.take(2));
            assert(trees[from][i].name == Some(digits.subrange(0, 2)));
            lemma_walk_lacks_on_the_way(
                known,
                trees,
                trees[from][i].id,
                digits.skip(2),
                (depth - 1) as nat,
            );
        }
    }
}

/// A search that lacks a tree lacks one on the target's way.
proof fn lemma_detect_lacks_on_the_way(
    known: Map<Seq<u8>, Seq<Entry>>,
    trees: Map<Seq<u8>, Seq<Entry>>,
    root: Seq<u8>,
    target: Seq<u8>,
    from: nat,
)
    requires
        known.submap_of(trees),
        target.len() == 20,
    ensures
        detect(known, root, hex(target), from) matches Err(missing) ==> is_on_the_way(
            trees,
            Some(root),
            target,
            missing,
        ) && !known.contains_key(missing),
    decreases 20 - from,
{
    lemma_hex_digits(target);
    if from < 20 {
        lemma_walk_lacks_on_the_way(known, trees, root, hex(target), from);
        lemma_detect_lacks_on_the_way(known, trees, root, target, from + 1);
    }
}

/// A sweep that lacks a tree lacks one on the target's way.
proof fn lemma_sweep_lacks_on_the_way(
    known: Map<Seq<u8>, Seq<Entry>>,
    lacking: Seq<Seq<u8>>,
    trees: Map<Seq<u8>, Seq<Entry>>,
    root: Seq<u8>,
    target: Seq<u8>,
    from: nat,
    keep: Option<nat>,
)
    requires
        known.submap_of(trees),
        target.len() == 20,
    ensures
        sweep(known, lacking, root, hex(target), from, keep) matches Err(missing)
            ==> is_on_the_way(trees, Some(root), target, missing) && !known.contains_key(missing),
    decreases 20 - from,
{
    lemma_hex_digits(target);
    if from < 20 {
        lemma_walk_lacks_on_the_way(known, trees, root, hex(target), from);
        lemma_sweep_lacks_on_the_way(known, lacking, trees, root, target, from + 1, keep);
    }
}

/// Reading a target fails only for want of a tree on its own way through the index.
pub proof fn law_search_fails_on_the_way(
    trees: Map<Seq<u8>, Seq<Entry>>,
    root: Option<Seq<u8>>,
    target: Seq<u8>,
)
    requires
        target.len() == 20,
    ensures
        lookup(trees, root, hex(target)) matches Err(missing) ==> is_on_the_way(
            trees,
            root,
            target,
            missing,
        ) && !trees.contains_key(missing),
{
    if let Some(id) = root {
        lemma_detect_lacks_on_the_way(trees, trees, id, target, 0);
    }
}

/// Where directories lead to a tree, a walk comes there.
proof fn lemma_what_leads_is_walked(
    trees: Map<Seq<u8>, Seq<Entry>>,
    from: Seq<u8>,
    digits: Seq<char>,
    id: Seq<u8>,
) -> (depth: nat)
    requires
        is_sound(trees),
        digits.len() % 2 == 0,
        digits.len() > 0,
        leads(trees, from, digits, id),
    ensures
        2 * depth < digits.len(),
        walk(trees, from, segments(digits, depth)) == if trees.contains_key(id) {
            Ok::<Option<Seq<u8>>, Seq<u8>>(Some(id))
        } else {
            Err(id)
        },
    decreases digits.len(),
{
    if from == id {
        0
    } else {
        let rest = digits.subrange(2, digits.len() as int);
        let name = digits.subrange(0, 2);
        let tree = trees[from];
        let i = choose|i: int|
            0 <= i < tree.len() && (#[trigger] tree[i]).name == Some(name) && leads(
                trees,
                tree[i].id,
                rest,
                id,
            );
        let depth = lemma_what_leads_is_walked(trees, tree[i].id, rest, id);
        assert(digits.take(2) =~= name);
        assert(digits.skip(2) =~= rest);
        lemma_way_below(digits, depth + 1);
        assert(is_first_named(tree, i, name)) by {
            assert forall|j: int| 0 <= j < i implies (#[trigger] tree[j]).name != Some(name) by {
                assert(trees[from][j].name is Some ==> trees[from][j].name != trees[from][i].name);
            }
        }
        law_the_first_of_a_name_is_found(tree, i, name);
        assert(segments(rest, depth) == segments(digits.skip(2), depth));
        depth + 1
    }
}

/// Where a search finds nothing, it has left out nothing: all trees on the target's
/// way exist.
pub proof fn law_nothing_is_found_only_where_all_was_searched(
    trees: Map<Seq<u8>, Seq<Entry>>,
    root: Option<Seq<u8>>,
    target: Seq<u8>,
)
    requires
        target.len() == 20,
        is_sound(trees),
        lookup(trees, root, hex(target)) == Ok::<Option<(nat, Seq<u8>)>, Seq<u8>>(None),
    ensures
        is_passable(trees, root, target),
{
    lemma_hex_digits(target);
    law_lookup_is_least_depth(trees, root, target);
    assert forall|id: Seq<u8>| #[trigger]
        is_on_the_way(trees, root, target, id) implies trees.contains_key(id) by {
        let depth = lemma_what_leads_is_walked(trees, root->0, hex(target), id);
        assert(cell(trees, root, target, depth) == Ok::<Option<Seq<u8>>, Seq<u8>>(None));
    }
}

/// Reading an entry asks for nothing but the root of the index and the trees on the
/// target's own way through it.
pub proof fn law_get_asks_on_the_way(
    known: Known,
    trees: Map<Seq<u8>, Seq<Entry>>,
    root: Option<Seq<u8>>,
    target: Seq<u8>,
)
    requires
        target.len() == 20,
        fits(known, trees, root),
    ensures
        match get_step(known, target) {
            Step::Return(_) => true,
            Step::Do(Request::ResolveRoot) => known.root is None,
            Step::Do(Request::FindTree(id)) => is_on_the_way(trees, root, target, id)
                && !known.trees.contains_key(id),
            Step::Do(_) => false,
        },
{
    if let Some(id) = root {
        lemma_detect_lacks_on_the_way(known.trees, trees, id, target, 0);
    }
}

/// What has to be read to write trees exists, or the way to the new entry is broken.
proof fn lemma_reads_exist(
    known: Map<Seq<u8>, Seq<Entry>>,
    trees: Map<Seq<u8>, Seq<Entry>>,
    root: Option<Seq<u8>>,
    target: Seq<u8>,
    depths: Seq<nat>,
    entry: Option<(nat, Seq<u8>)>,
    written: Seq<Seq<u8>>,
    id: Seq<u8>,
)
    requires
        known.submap_of(trees),
        target.len() == 20,
        entry matches Some((level, _)) ==> level < 20,
        forall|i: int|
            0 <= i < depths.len() ==> #[trigger] depths[i] < 20 && (cell(
                trees,
                root,
                target,
                depths[i],
            ) matches Ok(Some(_))),
        forall|i: int, j: int|
            0 <= i < j < depths.len() ==> #[trigger] depths[i] < #[trigger] depths[j],
        is_kept_to(known, trees, root, target, depths, entry, written),
        progress(known, root, target, depths, entry, written) == Progress::Read(id),
    ensures
        trees.contains_key(id) || (entry is Some && cell(trees, root, target, (entry->0).0)
            == Err::<Option<Seq<u8>>, Seq<u8>>(id)),
    decreases depths.len(),
{
    let digits = hex(target);
    if depths.len() == 0 {
        let (level, tree) = entry->0;
        let path = segments(digits, level);
        lemma_existing_grows(known, trees, root, path);
        if let Some(top) = root {
            lemma_existing_is_walk(trees, top, path);
        }
    } else {
        let depth = depths[0];
        let rest = depths.drop_first();
        let path = segments(digits, depth);
        let name = leaf(digits, depth);
        assert(cell(trees, root, target, depths[0]) matches Ok(Some(_)));
        let top = root->0;
        lemma_removal_grows(known, trees, top, path, name);
        lemma_existing_is_walk(trees, top, path);
        lemma_existing_grows(known, trees, root, path);
        match remove_plan(known, top, target, depth) {
            Err(_) => {},
            Ok(result) => {
                lemma_found_is_removed(trees, top, target, depth);
                let n = match result {
                    RemoveResult::Removed(plan) => plan.len() as int,
                    _ => 0,
                };
                let next = match result {
                    RemoveResult::Removed(_) => Some(written[n - 1]),
                    _ => None,
                };
                assert(result is Removed ==> written.take(n).last() == written[n - 1]);
                assert(removed_to(trees, result, written.take(n), next));
                assert forall|i: int| 0 <= i < rest.len() implies #[trigger] rest[i] < 20 && (cell(
                    trees,
                    next,
                    target,
                    rest[i],
                ) matches Ok(Some(_))) by {
                    assert(rest[i] == depths[i + 1]);
                    assert(depths[0] < depths[i + 1]);
                    law_remove_changes_one_cell(
                        known,
                        trees,
                        top,
                        target,
                        depth,
                        written.take(n),
                        next,
                        target,
                        rest[i],
                    );
                }
                assert forall|i: int, j: int| 0 <= i < j < rest.len() implies #[trigger] rest[i]
                    < #[trigger] rest[j] by {
                    assert(rest[i] == depths[i + 1] && rest[j] == depths[j + 1]);
                }
                assert(written.skip(0) =~= written);
                lemma_reads_exist(
                    known,
                    trees,
                    next,
                    target,
                    rest,
                    entry,
                    written.skip(n),
                    id,
                );
                if let Some((level, _)) = entry {
                    law_remove_changes_one_cell(
                        known,
                        trees,
                        top,
                        target,
                        depth,
                        written.take(n),
                        next,
                        target,
                        level,
                    );
                }
            },
        }
    }
}

/// Writing an entry needs nothing but the tree to attach and the trees on the target's
/// own way through the index: where it has to read a tree that does not exist, that
/// is one of these. What it tries to read beyond that is on the target's way too.
pub proof fn law_set_needs_only_its_way(
    known: Known,
    trees: Map<Seq<u8>, Seq<Entry>>,
    root: Option<Seq<u8>>,
    target: Seq<u8>,
    tree: Seq<u8>,
    options: MetadataOptions,
)
    requires
        target.len() == 20,
        options.shard_level < 20,
        set_under_way(known, trees, root, target, tree, options),
    ensures
        match set_step(known, target, tree, options) {
            Step::Do(Request::FindTree(id)) => trees.contains_key(id) || id == tree
                || is_on_the_way(trees, root, target, id),
            Step::Do(Request::TryTree(id)) => is_on_the_way(trees, root, target, id),
            _ => true,
        },
{
    let level = options.shard_level as nat;
    lemma_hex_digits(target);
    if let Some(top) = root {
        lemma_detect_lacks_on_the_way(known.trees, trees, top, target, 0);
        lemma_sweep_lacks_on_the_way(
            known.trees,
            known.lacking,
            trees,
            top,
            target,
            0,
            Some(level),
        );
        lemma_walk_lacks_on_the_way(trees, trees, top, hex(target), level);
    }
    if known.root is Some {
        if let Ok(Some(depths)) = replaced(known, root, target, options) {
            let entry = Some((level, tree));
            if known.written.len() == 0 {
                lemma_nothing_is_kept_to(
                    known.trees,
                    trees,
                    root,
                    target,
                    depths,
                    entry,
                    known.written,
                );
            }
            lemma_replaced_ascends(known, root, target, options);
            lemma_replaced(known, trees, root, target, options, 0);
            assert forall|i: int| 0 <= i < depths.len() implies #[trigger] depths[i] < 20 && (cell(
                trees,
                root,
                target,
                depths[i],
            ) matches Ok(Some(_))) by {
                assert(depths.contains(depths[i]));
                lemma_replaced(known, trees, root, target, options, depths[i]);
            }
            if let Progress::Read(id) = progress(
                known.trees,
                root,
                target,
                depths,
                entry,
                known.written,
            ) {
                lemma_reads_exist(
                    known.trees,
                    trees,
                    root,
                    target,
                    depths,
                    entry,
                    known.written,
                    id,
                );
            }
        }
    }
}

/// Removing an entry needs nothing but the trees on the target's own way through the
/// index: where it has to read a tree that does not exist, reading the target fails
/// for want of that tree too. What it tries to read beyond that is on the target's
/// way as well.
pub proof fn law_remove_needs_only_its_way(
    known: Known,
    trees: Map<Seq<u8>, Seq<Entry>>,
    root: Option<Seq<u8>>,
    target: Seq<u8>,
)
    requires
        target.len() == 20,
        remove_under_way(known, trees, root, target),
    ensures
        match remove_step(known, target) {
            Step::Do(Request::FindTree(id)) => trees.contains_key(id) || (is_on_the_way(
                trees,
                root,
                target,
                id,
            ) && lookup(trees, root, hex(target)) == Err::<Option<(nat, Seq<u8>)>, Seq<u8>>(id)),
            Step::Do(Request::TryTree(id)) => is_on_the_way(trees, root, target, id),
            _ => true,
        },
{
    lemma_hex_digits(target);
    if let Some(Some(top)) = known.root {
        lemma_detect_lacks_on_the_way(known.trees, trees, top, target, 0);
        lemma_detect_grows(known.trees, trees, top, hex(target), 0);
        if let Ok(Some((first, _))) = detect(known.trees, top, hex(target), 0) {
            lemma_sweep_lacks_on_the_way(
                known.trees,
                known.lacking,
                trees,
                top,
                target,
                first + 1,
                None,
            );
            lemma_detect_is_least(trees, top, target, 0);
            lemma_sweep_range(known.trees, known.lacking, top, hex(target), first + 1, None);
        }
        if let Ok(depths) = occupied(known, root, target) {
            if known.written.len() == 0 {
                lemma_nothing_is_kept_to(
                    known.trees,
                    trees,
                    root,
                    target,
                    depths,
                    None,
                    known.written,
                );
            }
            lemma_occupied(known, trees, root, target, 0);
            assert forall|i: int| 0 <= i < depths.len() implies #[trigger] depths[i] < 20 && (cell(
                trees,
                root,
                target,
                depths[i],
            ) matches Ok(Some(_))) by {
                assert(depths.contains(depths[i]));
                lemma_occupied(known, trees, root, target, depths[i]);
            }
            if let Progress::Read(id) = progress(
                known.trees,
                root,
                target,
                depths,
                None,
                known.written,
            ) {
                lemma_reads_exist(
                    known.trees,
                    trees,
                    root,
                    target,
                    depths,
                    None,
                    known.written,
                    id,
                );
            }
        }
    }
}

/// Whether a tree can be written from that of `base`, with the entry `name` changed to
/// name the tree `child`, or taken out: all these exist, the name is a proper one, and
/// an entry is left.
pub open spec fn is_writable(
    trees: Map<Seq<u8>, Seq<Entry>>,
    base: Option<Seq<u8>>,
    name: Seq<char>,
    child: Option<Seq<u8>>,
) -> bool {
    &&& base matches Some(id) ==> trees.contains_key(id)
    &&& 0 < name.len() <= 40
    &&& is_digits(name)
    &&& match child {
        Some(id) => trees.contains_key(id),
        None => base matches Some(id) && (exists|i: int|
            0 <= i < trees[id].len() && (#[trigger] trees[id][i]).name == Some(name)) && (exists|
            i: int,
        |
            0 <= i < trees[id].len() && (#[trigger] trees[id][i]).name != Some(name)),
    }
}

/// The names along the way of a target are made of digits.
proof fn lemma_names_are_digits(target: Seq<u8>, depth: nat, i: int)
    requires
        target.len() == 20,
        depth < 20,
        0 <= i <= depth,
    ensures
        ({
            let name = segments(hex(target), depth).push(leaf(hex(target), depth))[i];
            0 < name.len() <= 40 && is_digits(name)
        }),
{
    let digits = hex(target);
    lemma_hex_digits(target);
    let name = segments(digits, depth).push(leaf(digits, depth))[i];
    assert forall|j: int| 0 <= j < name.len() implies is_hex_digit(#[trigger] name[j]) by {
        assert(name[j] == digits[2 * i + j]);
    }
}

/// Every tree that a plan asks for can be written.
proof fn lemma_plan_is_writable(
    known: Map<Seq<u8>, Seq<Entry>>,
    trees: Map<Seq<u8>, Seq<Entry>>,
    root: Option<Seq<u8>>,
    target: Seq<u8>,
    depth: nat,
    level: nat,
    change: Change<Seq<u8>>,
    written: Seq<Seq<u8>>,
)
    requires
        known.submap_of(trees),
        target.len() == 20,
        depth < 20,
        level <= depth,
        existing(known, root, segments(hex(target), depth)) is Ok,
        match change {
            Change::Insert(id) => trees.contains_key(id),
            Change::InsertWritten => false,
            Change::Remove => {
                let path = segments(hex(target), depth);
                let chain = existing(known, root, path)->Ok_0;
                &&& chain.last() matches Some(id)
                &&& entry_named(known[id], leaf(hex(target), depth)) is Some
                &&& has_others(
                    known[chain[level as int]->0],
                    path.push(leaf(hex(target), depth))[level as int],
                )
            },
        },
        ({
            let path = segments(hex(target), depth);
            let edits = plan(
                existing(known, root, path)->Ok_0,
                path.push(leaf(hex(target), depth)),
                level,
                change,
            );
            written.len() < edits.len() && is_begun(trees, edits, written)
        }),
    ensures
        ({
            let path = segments(hex(target), depth);
            let edit = plan(
                existing(known, root, path)->Ok_0,
                path.push(leaf(hex(target), depth)),
                level,
                change,
            )[written.len() as int];
            is_writable(trees, edit.base, edit.name, edit_child(edit, written))
        }),
{
    let path = segments(hex(target), depth);
    let names = path.push(leaf(hex(target), depth));
    let chain = existing(known, root, path)->Ok_0;
    let edits = plan(chain, names, level, change);
    let n = written.len() as int;
    let edit = edits[n];
    lemma_existing(known, root, path);
    lemma_names_are_digits(target, depth, level - n);
    assert(edit.base == chain[level - n]);
    if let Some(id) = edit.base {
        assert(known.dom().contains(id));
        assert(trees.dom().contains(id));
    }
    if n > 0 {
        assert(edits.take(n)[n - 1] == edits[n - 1]);
        assert(trees.contains_key(written[n - 1]));
    } else if change is Remove {
        lemma_existing_above(known, root, path, level as int);
        let id = chain[level as int]->0;
        assert(trees[id] == known[id]);
        assert(entry_named(known[id], names[level as int]) is Some) by {
            if level < depth {
                lemma_existing_above(known, root, path, level as int + 1);
                assert(chain[level as int + 1] == child(known[id], path[level as int]));
            }
        }
        let i = lemma_found_entry(known[id], names[level as int]);
        assert(trees[id][i].name == Some(edit.name));
    }
}

/// Every tree that is asked for can be written.
proof fn lemma_writes_are_writable(
    known: Map<Seq<u8>, Seq<Entry>>,
    trees: Map<Seq<u8>, Seq<Entry>>,
    root: Option<Seq<u8>>,
    target: Seq<u8>,
    depths: Seq<nat>,
    entry: Option<(nat, Seq<u8>)>,
    written: Seq<Seq<u8>>,
)
    requires
        known.submap_of(trees),
        target.len() == 20,
        entry matches Some((level, tree)) ==> level < 20 && trees.contains_key(tree),
        forall|i: int| 0 <= i < depths.len() ==> #[trigger] depths[i] < 20,
        is_kept_to(known, trees, root, target, depths, entry, written),
    ensures
        progress(known, root, target, depths, entry, written) matches Progress::Write {
            base,
            name,
            child,
        } ==> is_writable(trees, base, name, child),
    decreases depths.len(),
{
    if depths.len() == 0 {
        if let Some((level, tree)) = entry {
            if let Ok(edits) = set_plan(known, root, target, tree, level) {
                if written.len() < edits.len() {
                    lemma_plan_is_writable(
                        known,
                        trees,
                        root,
                        target,
                        level,
                        level,
                        Change::Insert(tree),
                        written,
                    );
                }
            }
        }
    } else {
        let rest = depths.drop_first();
        let depth = depths[0];
        assert(depths[0] < 20);
        assert forall|i: int| 0 <= i < rest.len() implies #[trigger] rest[i] < 20 by {
            assert(rest[i] == depths[i + 1]);
        }
        match root {
            None => {
                lemma_writes_are_writable(known, trees, root, target, rest, entry, written);
            },
            Some(id) => match remove_plan(known, id, target, depth) {
                Err(_) => {},
                Ok(RemoveResult::NotFound) => {
                    lemma_writes_are_writable(known, trees, root, target, rest, entry, written);
                },
                Ok(RemoveResult::Empty) => {
                    lemma_writes_are_writable(known, trees, None, target, rest, entry, written);
                },
                Ok(RemoveResult::Removed(edits)) => if written.len() < edits.len() {
                    let path = segments(hex(target), depth);
                    let names = path.push(leaf(hex(target), depth));
                    let chain = existing(known, root, path)->Ok_0;
                    lemma_surviving_level(known, chain, names, names.len());
                    lemma_surviving_holds(known, chain, names, names.len());
                    lemma_plan_is_writable(
                        known,
                        trees,
                        root,
                        target,
                        depth,
                        surviving(known, chain, names, names.len())->0,
                        Change::Remove,
                        written,
                    );
                } else {
                    lemma_writes_are_writable(
                        known,
                        trees,
                        Some(written[edits.len() - 1]),
                        target,
                        rest,
                        entry,
                        written.skip(edits.len() as int),
                    );
                },
            },
        }
    }
}

/// Every tree that the writing of an entry asks to be written can be: it is made of
/// trees that exist.
pub proof fn law_set_writes_what_can_be_written(
    known: Known,
    trees: Map<Seq<u8>, Seq<Entry>>,
    root: Option<Seq<u8>>,
    target: Seq<u8>,
    tree: Seq<u8>,
    options: MetadataOptions,
)
    requires
        target.len() == 20,
        options.shard_level < 20,
        set_under_way(known, trees, root, target, tree, options),
    ensures
        set_step(known, target, tree, options) matches Step::Do(
            Request::WriteTree { base, name, child },
        ) ==> is_writable(trees, base, name, child),
{
    if known.root is Some && known.trees.contains_key(tree) {
        assert(known.trees.dom().contains(tree));
        assert(trees.dom().contains(tree));
        if let Ok(Some(depths)) = replaced(known, root, target, options) {
            let entry = Some((options.shard_level as nat, tree));
            if known.written.len() == 0 {
                lemma_nothing_is_kept_to(
                    known.trees,
                    trees,
                    root,
                    target,
                    depths,
                    entry,
                    known.written,
                );
            }
            lemma_replaced(known, trees, root, target, options, 0);
            lemma_writes_are_writable(
                known.trees,
                trees,
                root,
                target,
                depths,
                entry,
                known.written,
            );
        }
    }
}

/// Every tree that the removal of an entry asks to be written can be: it is made of
/// trees that exist, takes out what is there, and leaves something.
pub proof fn law_remove_writes_what_can_be_written(
    known: Known,
    trees: Map<Seq<u8>, Seq<Entry>>,
    root: Option<Seq<u8>>,
    target: Seq<u8>,
)
    requires
        target.len() == 20,
        remove_under_way(known, trees, root, target),
    ensures
        remove_step(known, target) matches Step::Do(Request::WriteTree { base, name, child })
            ==> is_writable(trees, base, name, child),
{
    if known.root is Some {
        if let Ok(depths) = occupied(known, root, target) {
            if known.written.len() == 0 {
                lemma_nothing_is_kept_to(
                    known.trees,
                    trees,
                    root,
                    target,
                    depths,
                    None,
                    known.written,
                );
            }
            assert forall|i: int| 0 <= i < depths.len() implies #[trigger] depths[i] < 20 by {
                lemma_occupied(known, trees, root, target, 0);
            }
            lemma_writes_are_writable(
                known.trees,
                trees,
                root,
                target,
                depths,
                None,
                known.written,
            );
        }
    }
}

/// Whether `request`, asked for where this is known, can be carried out.
pub open spec fn can_be_done(
    known: Known,
    request: Request,
    trees: Map<Seq<u8>, Seq<Entry>>,
    root: Option<Seq<u8>>,
) -> bool {
    exists|next: Known| #[trigger] is_noted(known, request, next, trees, root)
}

/// Whether an operation has come as far as it can with its next step, in a repository
/// where every tree that can be written is written when it is asked for: it answers,
/// or asks for what cannot be done.
pub open spec fn is_at_its_end<Answer>(
    known: Known,
    step: Step<Request, Answer>,
    trees: Map<Seq<u8>, Seq<Entry>>,
    root: Option<Seq<u8>>,
) -> bool {
    step matches Step::Do(request) ==> !can_be_done(known, request, trees, root) && (
    request matches Request::WriteTree { base, name, child } ==> !is_writable(
        trees,
        base,
        name,
        child,
    ))
}

/// All that is not the writing of a tree can be done, if only a tree to read exists.
proof fn lemma_can_be_done(
    known: Known,
    request: Request,
    trees: Map<Seq<u8>, Seq<Entry>>,
    root: Option<Seq<u8>>,
)
    ensures
        match request {
            Request::FindTree(id) => trees.contains_key(id) ==> can_be_done(
                known,
                request,
                trees,
                root,
            ),
            Request::WriteTree { .. } => true,
            _ => can_be_done(known, request, trees, root),
        },
{
    let next = match request {
        Request::ResolveRoot => Known { root: Some(root), ..known },
        Request::FindTree(id) => Known { trees: known.trees.insert(id, trees[id]), ..known },
        Request::TryTree(id) => if trees.contains_key(id) {
            Known { trees: known.trees.insert(id, trees[id]), ..known }
        } else {
            Known { lacking: known.lacking.push(id), ..known }
        },
        Request::WriteTree { .. } => known,
        Request::Commit { .. } => Known { concluded: true, ..known },
        Request::DeleteReference => Known { concluded: true, ..known },
    };
    match request {
        Request::WriteTree { .. } => {},
        Request::FindTree(id) => {
            if trees.contains_key(id) {
                assert(is_noted(known, request, next, trees, root));
            }
        },
        _ => {
            assert(is_noted(known, request, next, trees, root));
        },
    }
}

/// Where the way of a target is passable, searching it does not fail.
proof fn lemma_passable_is_searched(
    trees: Map<Seq<u8>, Seq<Entry>>,
    root: Option<Seq<u8>>,
    target: Seq<u8>,
)
    requires
        target.len() == 20,
        is_passable(trees, root, target),
    ensures
        lookup(trees, root, hex(target)) is Ok,
{
    law_search_fails_on_the_way(trees, root, target);
}

/// Reading an entry succeeds where the trees on the target's way exist, whatever else
/// does not: once nothing more can be done, it has answered with the tree that the
/// index holds for the target, or that there is none.
pub proof fn law_get_succeeds(
    states: Seq<Known>,
    trees: Map<Seq<u8>, Seq<Entry>>,
    root: Option<Seq<u8>>,
    target: Seq<u8>,
)
    requires
        target.len() == 20,
        trees.dom().finite(),
        is_passable(trees, root, target),
        is_get_run(states, trees, root, target),
        is_at_its_end(states.last(), get_step(states.last(), target), trees, root),
    ensures
        lookup(trees, root, hex(target)) matches Ok(found) && get_step(states.last(), target)
            == Step::<Request, Option<Seq<u8>>>::Return(
            match found {
                Some((_, tree)) => Some(tree),
                None => None,
            },
        ),
{
    let last = states.last();
    lemma_get_run(states, trees, root, target, states.len() - 1);
    lemma_passable_is_searched(trees, root, target);
    law_get_asks_on_the_way(last, trees, root, target);
    law_get_answers_what_is_held(last, trees, root, target);
    if let Step::Do(request) = get_step(last, target) {
        lemma_can_be_done(last, request, trees, root);
    }
}

/// Writing an entry succeeds where the tree to attach and the trees on the target's way
/// exist, whatever these hold and whatever else does not exist, and where the target
/// has no entry or may be overwritten: once nothing more can be done,
/// it has answered with a root tree.
pub proof fn law_set_succeeds(
    states: Seq<Known>,
    trees: Map<Seq<u8>, Seq<Entry>>,
    root: Option<Seq<u8>>,
    target: Seq<u8>,
    tree: Seq<u8>,
    options: MetadataOptions,
)
    requires
        target.len() == 20,
        options.shard_level < 20,
        trees.dom().finite(),
        trees.contains_key(tree),
        is_passable(trees, root, target),
        options.force || lookup(trees, root, hex(target)) == Ok::<
            Option<(nat, Seq<u8>)>,
            Seq<u8>,
        >(None),
        is_set_run(states, trees, root, target, tree, options),
        is_at_its_end(states.last(), set_step(states.last(), target, tree, options), trees, root),
    ensures
        set_step(states.last(), target, tree, options) matches Step::Return(Ok(_)),
{
    let last = states.last();
    lemma_set_run(states, trees, root, target, tree, options, states.len() - 1);
    law_set_needs_only_its_way(last, trees, root, target, tree, options);
    law_set_writes_what_can_be_written(last, trees, root, target, tree, options);
    law_set_refuses_to_overwrite(last, trees, root, target, tree, options);
    if let Step::Do(request) = set_step(last, target, tree, options) {
        lemma_can_be_done(last, request, trees, root);
    }
}

/// Removing an entry succeeds where the trees on the target's way exist, whatever the
/// attached trees hold and whatever else does not exist: once nothing more can be
/// done, it has answered whether the target had an
/// entry.
pub proof fn law_remove_succeeds(
    states: Seq<Known>,
    trees: Map<Seq<u8>, Seq<Entry>>,
    root: Option<Seq<u8>>,
    target: Seq<u8>,
)
    requires
        target.len() == 20,
        trees.dom().finite(),
        is_passable(trees, root, target),
        is_remove_run(states, trees, root, target),
        is_at_its_end(states.last(), remove_step(states.last(), target), trees, root),
    ensures
        lookup(trees, root, hex(target)) matches Ok(found) && remove_step(states.last(), target)
            == Step::<Request, bool>::Return(found is Some),
{
    let last = states.last();
    lemma_remove_run(states, trees, root, target, states.len() - 1);
    lemma_passable_is_searched(trees, root, target);
    law_remove_needs_only_its_way(last, trees, root, target);
    law_remove_writes_what_can_be_written(last, trees, root, target);
    law_remove_answers_whether_held(last, trees, root, target);
    if let Step::Do(request) = remove_step(last, target) {
        lemma_can_be_done(last, request, trees, root);
    }
}

/// Every directory on a way through a tidy tree exists.
proof fn lemma_tidy_is_passable(
    trees: Map<Seq<u8>, Seq<Entry>>,
    from: Seq<u8>,
    digits: Seq<char>,
    id: Seq<u8>,
    spelt: nat,
)
    requires
        is_tidy(trees, from, spelt),
        digits.len() == 40 - spelt,
        leads(trees, from, digits, id),
    ensures
        trees.contains_key(id),
    decreases digits.len(),
{
    if from != id {
        let rest = digits.subrange(2, digits.len() as int);
        let i = choose|i: int|
            0 <= i < trees[from].len() && (#[trigger] trees[from][i]).name == Some(
                digits.subrange(0, 2),
            ) && leads(trees, trees[from][i].id, rest, id);
        assert(trees[from][i].name->0.len() == 2);
        lemma_tidy_is_passable(trees, trees[from][i].id, rest, id, spelt + 2);
    }
}

/// The way of every target through a tidy index is passable.
pub proof fn law_tidy_index_is_passable(
    trees: Map<Seq<u8>, Seq<Entry>>,
    root: Option<Seq<u8>>,
    target: Seq<u8>,
)
    requires
        target.len() == 20,
        is_tidy_index(trees, root),
    ensures
        is_passable(trees, root, target),
        lookup(trees, root, hex(target)) is Ok,
{
    lemma_hex_digits(target);
    assert forall|id: Seq<u8>| #[trigger]
        is_on_the_way(trees, root, target, id) implies trees.contains_key(id) by {
        lemma_tidy_is_passable(trees, root->0, hex(target), id, 0);
    }
    lemma_passable_is_searched(trees, root, target);
}

/// Reading an entry of a tidy index succeeds: once nothing more can be done, it has
/// answered with what the index holds for the target, however the attached trees look.
pub proof fn law_get_from_a_tidy_index_succeeds(
    states: Seq<Known>,
    trees: Map<Seq<u8>, Seq<Entry>>,
    root: Option<Seq<u8>>,
    target: Seq<u8>,
)
    requires
        target.len() == 20,
        trees.dom().finite(),
        is_tidy_index(trees, root),
        is_get_run(states, trees, root, target),
        is_at_its_end(states.last(), get_step(states.last(), target), trees, root),
    ensures
        lookup(trees, root, hex(target)) matches Ok(found) && get_step(states.last(), target)
            == Step::<Request, Option<Seq<u8>>>::Return(
            match found {
                Some((_, tree)) => Some(tree),
                None => None,
            },
        ),
{
    law_tidy_index_is_passable(trees, root, target);
    law_get_succeeds(states, trees, root, target);
}

/// Writing an entry into a tidy index, or where there is none yet, succeeds where the
/// tree to attach exists and the target has no entry or may be overwritten: once
/// nothing more can be done, it has answered with a root tree, however the tree to
/// attach and those attached before look.
pub proof fn law_set_in_a_tidy_index_succeeds(
    states: Seq<Known>,
    trees: Map<Seq<u8>, Seq<Entry>>,
    root: Option<Seq<u8>>,
    target: Seq<u8>,
    tree: Seq<u8>,
    options: MetadataOptions,
)
    requires
        target.len() == 20,
        options.shard_level < 20,
        trees.dom().finite(),
        trees.contains_key(tree),
        is_tidy_index(trees, root),
        options.force || !(lookup(trees, root, hex(target)) matches Ok(Some(_))),
        is_set_run(states, trees, root, target, tree, options),
        is_at_its_end(states.last(), set_step(states.last(), target, tree, options), trees, root),
    ensures
        set_step(states.last(), target, tree, options) matches Step::Return(Ok(_)),
{
    law_tidy_index_is_passable(trees, root, target);
    law_set_succeeds(states, trees, root, target, tree, options);
}

/// Removing an entry of a tidy index succeeds: once nothing more can be done, it has
/// answered that there was one where the index holds the target, and else that there
/// was none, however the attached trees look.
pub proof fn law_remove_from_a_tidy_index_succeeds(
    states: Seq<Known>,
    trees: Map<Seq<u8>, Seq<Entry>>,
    root: Option<Seq<u8>>,
    target: Seq<u8>,
)
    requires
        target.len() == 20,
        trees.dom().finite(),
        is_tidy_index(trees, root),
        is_remove_run(states, trees, root, target),
        is_at_its_end(states.last(), remove_step(states.last(), target), trees, root),
    ensures
        remove_step(states.last(), target) == Step::<Request, bool>::Return(
            lookup(trees, root, hex(target)) matches Ok(Some(_)),
        ),
{
    law_tidy_index_is_passable(trees, root, target);
    law_remove_succeeds(states, trees, root, target);
}

/// Nothing is written, committed or answered before the tree to attach was read: only
/// a tree is ever attached.
pub proof fn law_only_trees_are_attached(
    known: Known,
    target: Seq<u8>,
    tree: Seq<u8>,
    options: MetadataOptions,
)
    ensures
        match set_step(known, target, tree, options) {
            Step::Do(request) => only_reads(request) || known.trees.contains_key(tree),
            Step::Return(_) => known.trees.contains_key(tree),
        },
{
}

/// A write that is not to overwrite changes nothing where the search for the target
/// fails: it cannot be told whether there is an entry.
pub proof fn law_unforced_set_needs_the_search(
    known: Known,
    trees: Map<Seq<u8>, Seq<Entry>>,
    root: Option<Seq<u8>>,
    target: Seq<u8>,
    tree: Seq<u8>,
    options: MetadataOptions,
)
    requires
        fits(known, trees, root),
        !options.force,
        lookup(trees, root, hex(target)) is Err,
    ensures
        set_step(known, target, tree, options) matches Step::Do(request) && only_reads(request),
{
    if let Some(id) = root {
        lemma_detect_grows(known.trees, trees, id, hex(target), 0);
    }
}

/// An entry is written at the place that the shard level gives, at whatever level: in
/// so many directories, each named by two digits of the target, under the digits that
/// are left.
pub proof fn law_set_writes_at_its_place(
    known: Known,
    trees: Map<Seq<u8>, Seq<Entry>>,
    root: Option<Seq<u8>>,
    target: Seq<u8>,
    tree: Seq<u8>,
    options: MetadataOptions,
    answer: Seq<u8>,
    path: Seq<Seq<char>>,
    name: Seq<char>,
)
    requires
        target.len() == 20,
        options.shard_level <= 20,
        fits(known, trees, root),
        set_carried_out(known, trees, target, tree, options),
        set_step(known, target, tree, options) == Step::<Request, Result<Seq<u8>, Error>>::Return(
            Ok(answer),
        ),
        path.len() == options.shard_level,
        forall|i: int|
            0 <= i < path.len() ==> #[trigger] path[i] == hex(target).subrange(2 * i, 2 * i + 2),
        name == hex(target).subrange(2 * options.shard_level as int, 40),
    ensures
        held(trees, answer, path, name) == Ok::<Option<Seq<u8>>, Seq<u8>>(Some(tree)),
{
    let level = options.shard_level as nat;
    lemma_hex_digits(target);
    lemma_set_done(known, trees, root, target, tree, options, answer);
    let depths = replaced(known, root, target, options)->Ok_0->0;
    let base = lemma_done_inserts(
        known.trees,
        trees,
        root,
        target,
        depths,
        level,
        tree,
        known.written,
        answer,
    );
    assert(path =~= segments(hex(target), level));
    assert(name == leaf(hex(target), level));
    lemma_inserted_is_held(trees, base, path, name, tree, answer);
}

} // verus!
