//! That operations end: where every action that is asked for is carried out, an
//! operation answers after so many of them at most.

use vstd::prelude::*;

use crate::course_laws::{
    is_noted, law_operations_begin, law_remove_goes_on, law_set_goes_on, lemma_lacking_goes_on,
    remove_under_way, set_under_way,
};
use crate::fanout::{detect, leaf, segments};
use crate::index::{
    get_step, occupied, progress, remove_plan, remove_step, replaced, set_step, Error, Known,
    MetadataOptions,
};
use crate::laws::{
    fits, law_get_answers_what_is_held, law_no_tree_is_read_twice, lemma_detect_grows,
    lemma_detect_is_least, lemma_surviving_level, lemma_sweep_grows, lemma_sweep_range,
};
use crate::oid::{hex, lemma_hex_digits};
use crate::operation_laws::{is_kept_to, lemma_occupied, lemma_replaced};
use crate::rebuild::{existing, RemoveResult};
use crate::step::{Request, Step};
use crate::tree::Entry;

verus! {

/// What is known at the beginning.
pub open spec fn nothing_known() -> Known {
    Known {
        root: None,
        trees: Map::empty(),
        lacking: Seq::empty(),
        written: Seq::empty(),
        concluded: false,
    }
}

/// How many trees of the repository were not read yet.
pub open spec fn unread(known: Known, trees: Map<Seq<u8>, Seq<Entry>>) -> nat {
    trees.dom().difference(known.trees.dom()).len()
}

/// 1 where something is still open, else 0.
pub open spec fn counts(open: bool) -> nat {
    if open {
        1
    } else {
        0
    }
}

/// Reading a tree leaves one less to read.
proof fn lemma_reading_counts(
    known: Known,
    next: Known,
    trees: Map<Seq<u8>, Seq<Entry>>,
    id: Seq<u8>,
)
    requires
        trees.dom().finite(),
        trees.contains_key(id),
        !known.trees.contains_key(id),
        next.trees == known.trees.insert(id, trees[id]),
    ensures
        unread(next, trees) + 1 == unread(known, trees),
{
    let before = trees.dom().difference(known.trees.dom());
    let after = trees.dom().difference(next.trees.dom());
    assert(after =~= before.remove(id));
    assert(before.contains(id));
}

/// How many steps reading an entry has still to take at most.
pub open spec fn get_steps_left(known: Known, trees: Map<Seq<u8>, Seq<Entry>>) -> nat {
    unread(known, trees) + counts(known.root is None)
}

/// Every action that is carried out brings the reading of an entry closer to its end.
pub proof fn law_get_comes_closer(
    known: Known,
    request: Request,
    next: Known,
    trees: Map<Seq<u8>, Seq<Entry>>,
    root: Option<Seq<u8>>,
    target: Seq<u8>,
)
    requires
        trees.dom().finite(),
        fits(known, trees, root),
        get_step(known, target) == Step::<Request, Option<Seq<u8>>>::Do(request),
        is_noted(known, request, next, trees, root),
    ensures
        fits(next, trees, root),
        get_steps_left(next, trees) < get_steps_left(known, trees),
{
    law_get_answers_what_is_held(known, trees, root, target);
    if let Request::FindTree(id) = request {
        lemma_lacking_goes_on(known, next, trees, root, request);
        lemma_reading_counts(known, next, trees, id);
    }
}

/// Whether `states` is what is known in the course of reading an entry, from the
/// beginning on, action by action.
pub open spec fn is_get_run(
    states: Seq<Known>,
    trees: Map<Seq<u8>, Seq<Entry>>,
    root: Option<Seq<u8>>,
    target: Seq<u8>,
) -> bool {
    &&& states.len() > 0
    &&& states[0] == nothing_known()
    &&& forall|i: int|
        0 <= i < states.len() - 1 ==> (get_step(#[trigger] states[i], target) matches Step::Do(
            request,
        ) && is_noted(states[i], request, states[i + 1], trees, root))
}

pub proof fn lemma_get_run(
    states: Seq<Known>,
    trees: Map<Seq<u8>, Seq<Entry>>,
    root: Option<Seq<u8>>,
    target: Seq<u8>,
    i: int,
)
    requires
        trees.dom().finite(),
        is_get_run(states, trees, root, target),
        0 <= i < states.len(),
    ensures
        fits(states[i], trees, root),
        get_steps_left(states[i], trees) + i <= trees.dom().len() + 1,
    decreases i,
{
    if i == 0 {
        assert(trees.dom().difference(states[0].trees.dom()) =~= trees.dom());
    } else {
        lemma_get_run(states, trees, root, target, i - 1);
        let request = get_step(states[i - 1], target)->Do_0;
        assert(states[i - 1 + 1] == states[i]);
        law_get_comes_closer(states[i - 1], request, states[i], trees, root, target);
    }
}

/// Reading an entry ends: after as many actions as the repository has trees, and one
/// more, at the latest, it answers, or asks for what cannot be done.
pub proof fn law_get_ends(
    states: Seq<Known>,
    trees: Map<Seq<u8>, Seq<Entry>>,
    root: Option<Seq<u8>>,
    target: Seq<u8>,
)
    requires
        trees.dom().finite(),
        is_get_run(states, trees, root, target),
    ensures
        states.len() - 1 <= trees.dom().len() + 1,
        states.len() - 1 == trees.dom().len() + 1 ==> match get_step(states.last(), target) {
            Step::Return(_) => true,
            Step::Do(request) => forall|next: Known| !#[trigger]
                is_noted(states.last(), request, next, trees, root),
        },
{
    let last = states.len() - 1;
    lemma_get_run(states, trees, root, target, last);
    if last == trees.dom().len() + 1 {
        if let Step::Do(request) = get_step(states.last(), target) {
            assert forall|next: Known| !#[trigger]
                is_noted(states.last(), request, next, trees, root) by {
                if is_noted(states.last(), request, next, trees, root) {
                    law_get_comes_closer(states.last(), request, next, trees, root, target);
                }
            }
        }
    }
}

/// How many trees an operation writes at most: a tree for the root and for each of
/// twenty directories, to take an entry out at each of twenty depths and to put one in.
pub open spec fn most_written() -> nat {
    21 * 21
}

/// An operation writes no more than a plan has edits, for each plan.
proof fn lemma_written_is_bounded(
    known: Map<Seq<u8>, Seq<Entry>>,
    trees: Map<Seq<u8>, Seq<Entry>>,
    root: Option<Seq<u8>>,
    target: Seq<u8>,
    depths: Seq<nat>,
    entry: Option<(nat, Seq<u8>)>,
    written: Seq<Seq<u8>>,
)
    requires
        forall|i: int| 0 <= i < depths.len() ==> #[trigger] depths[i] < 20,
        entry matches Some((level, _)) ==> level <= 20,
        is_kept_to(known, trees, root, target, depths, entry, written),
    ensures
        written.len() <= 21 * (depths.len() + 1),
        progress(known, root, target, depths, entry, written) is Write ==> written.len() < 21 * (
        depths.len() + 1),
    decreases depths.len(),
{
    if depths.len() > 0 {
        let rest = depths.drop_first();
        assert forall|i: int| 0 <= i < rest.len() implies #[trigger] rest[i] < 20 by {
            assert(rest[i] == depths[i + 1]);
        }
        match root {
            None => {
                lemma_written_is_bounded(known, trees, root, target, rest, entry, written);
            },
            Some(id) => match remove_plan(known, id, target, depths[0]) {
                Err(_) => {},
                Ok(RemoveResult::NotFound) => {
                    lemma_written_is_bounded(known, trees, root, target, rest, entry, written);
                },
                Ok(RemoveResult::Empty) => {
                    lemma_written_is_bounded(known, trees, None, target, rest, entry, written);
                },
                Ok(RemoveResult::Removed(plan)) => {
                    let path = segments(hex(target), depths[0]);
                    let names = path.push(leaf(hex(target), depths[0]));
                    let chain = existing(known, Some(id), path)->Ok_0;
                    assert(depths[0] < 20);
                    lemma_surviving_level(known, chain, names, names.len());
                    assert(plan.len() <= 20);
                    if written.len() >= plan.len() {
                        lemma_written_is_bounded(
                            known,
                            trees,
                            Some(written[plan.len() - 1]),
                            target,
                            rest,
                            entry,
                            written.skip(plan.len() as int),
                        );
                    }
                },
            },
        }
    }
}

/// How many steps writing an entry has still to take at most.
pub open spec fn set_steps_left(
    known: Known,
    trees: Map<Seq<u8>, Seq<Entry>>,
    root: Option<Seq<u8>>,
    target: Seq<u8>,
    options: MetadataOptions,
) -> int {
    unread(known, trees) + counts(known.root is None) + counts(
        known.root is None || replaced(known, root, target, options) is Err,
    ) + (most_written() - known.written.len()) + counts(!known.concluded)
}

/// What writing an entry has written is bounded.
proof fn lemma_set_is_bounded(
    known: Known,
    trees: Map<Seq<u8>, Seq<Entry>>,
    root: Option<Seq<u8>>,
    target: Seq<u8>,
    tree: Seq<u8>,
    options: MetadataOptions,
)
    requires
        target.len() == 20,
        options.shard_level <= 20,
        set_under_way(known, trees, root, target, tree, options),
    ensures
        known.written.len() <= most_written(),
        set_step(known, target, tree, options) matches Step::Do(Request::WriteTree { .. })
            ==> known.written.len() < most_written(),
{
    if known.written.len() > 0 || known.concluded {
        let depths = replaced(known, root, target, options)->Ok_0->0;
        lemma_replaced(known, trees, root, target, options, 0);
        lemma_replaced_is_short(known, root, target, options);
        lemma_written_is_bounded(
            known.trees,
            trees,
            root,
            target,
            depths,
            Some((options.shard_level as nat, tree)),
            known.written,
        );
    }
}

proof fn lemma_replaced_is_short(
    known: Known,
    root: Option<Seq<u8>>,
    target: Seq<u8>,
    options: MetadataOptions,
)
    requires
        target.len() == 20,
        replaced(known, root, target, options) matches Ok(Some(_)),
    ensures
        replaced(known, root, target, options)->Ok_0->0.len() <= 20,
{
    lemma_hex_digits(target);
    if let Some(id) = root {
        let keep = Some(options.shard_level as nat);
        lemma_sweep_range(known.trees, known.lacking, id, hex(target), 0, keep);
    }
}

/// Once it is known which entries give way, that stays known, and it is known where
/// a tree that was tried turns out to be lacking.
proof fn lemma_replaced_stays(
    known: Known,
    request: Request,
    next: Known,
    trees: Map<Seq<u8>, Seq<Entry>>,
    root: Option<Seq<u8>>,
    target: Seq<u8>,
    options: MetadataOptions,
)
    requires
        fits(known, trees, root),
        request is FindTree || request is TryTree,
        is_noted(known, request, next, trees, root),
    ensures
        replaced(known, root, target, options) is Ok ==> replaced(
            next,
            root,
            target,
            options,
        ) is Ok,
        replaced(known, root, target, options) == Err::<Option<Seq<nat>>, Request>(request)
            && next.trees == known.trees ==> replaced(next, root, target, options) is Ok || !(
        request is TryTree),
{
    lemma_lacking_goes_on(known, next, trees, root, request);
    if let Some(id) = root {
        let keep = Some(options.shard_level as nat);
        lemma_detect_grows(known.trees, next.trees, id, hex(target), 0);
        lemma_sweep_grows(
            known.trees,
            known.lacking,
            next.trees,
            next.lacking,
            id,
            hex(target),
            0,
            keep,
        );
        if let Request::TryTree(missing) = request {
            if next.trees == known.trees && replaced(known, root, target, options) == Err::<
                Option<Seq<nat>>,
                Request,
            >(request) {
                lemma_tried_is_lacking(known, next, trees, root, missing);
            }
        }
    }
}

/// A tree that was tried and not read is noted as lacking.
proof fn lemma_tried_is_lacking(
    known: Known,
    next: Known,
    trees: Map<Seq<u8>, Seq<Entry>>,
    root: Option<Seq<u8>>,
    id: Seq<u8>,
)
    requires
        is_noted(known, Request::TryTree(id), next, trees, root),
        !known.trees.contains_key(id),
        next.trees == known.trees,
    ensures
        next.lacking.contains(id),
        !trees.contains_key(id),
{
    if trees.contains_key(id) {
        assert(next.trees.contains_key(id));
    } else {
        assert(next.lacking[known.lacking.len() as int] == id);
    }
}

/// Every action that is carried out brings the writing of an entry closer to its end.
pub proof fn law_set_comes_closer(
    known: Known,
    request: Request,
    next: Known,
    trees: Map<Seq<u8>, Seq<Entry>>,
    root: Option<Seq<u8>>,
    target: Seq<u8>,
    tree: Seq<u8>,
    options: MetadataOptions,
)
    requires
        target.len() == 20,
        options.shard_level <= 20,
        trees.dom().finite(),
        set_under_way(known, trees, root, target, tree, options),
        set_step(known, target, tree, options) == Step::<Request, Result<Seq<u8>, Error>>::Do(
            request,
        ),
        is_noted(known, request, next, trees, root),
    ensures
        set_under_way(next, trees, root, target, tree, options),
        0 <= set_steps_left(next, trees, root, target, options) < set_steps_left(
            known,
            trees,
            root,
            target,
            options,
        ),
{
    law_set_goes_on(known, request, next, trees, root, target, tree, options);
    law_no_tree_is_read_twice(known, trees, root, target, tree, options);
    lemma_set_is_bounded(known, trees, root, target, tree, options);
    lemma_set_is_bounded(next, trees, root, target, tree, options);
    match request {
        Request::FindTree(id) => {
            lemma_reading_counts(known, next, trees, id);
            lemma_replaced_stays(known, request, next, trees, root, target, options);
        },
        Request::TryTree(id) => {
            lemma_replaced_stays(known, request, next, trees, root, target, options);
            if trees.contains_key(id) {
                lemma_reading_counts(known, next, trees, id);
            }
        },
        _ => {},
    }
}

/// Whether `states` is what is known in the course of writing an entry, from the
/// beginning on, action by action.
pub open spec fn is_set_run(
    states: Seq<Known>,
    trees: Map<Seq<u8>, Seq<Entry>>,
    root: Option<Seq<u8>>,
    target: Seq<u8>,
    tree: Seq<u8>,
    options: MetadataOptions,
) -> bool {
    &&& states.len() > 0
    &&& states[0] == nothing_known()
    &&& forall|i: int|
        0 <= i < states.len() - 1 ==> (set_step(
            #[trigger] states[i],
            target,
            tree,
            options,
        ) matches Step::Do(request) && is_noted(states[i], request, states[i + 1], trees, root))
}

pub proof fn lemma_set_run(
    states: Seq<Known>,
    trees: Map<Seq<u8>, Seq<Entry>>,
    root: Option<Seq<u8>>,
    target: Seq<u8>,
    tree: Seq<u8>,
    options: MetadataOptions,
    i: int,
)
    requires
        target.len() == 20,
        options.shard_level <= 20,
        trees.dom().finite(),
        is_set_run(states, trees, root, target, tree, options),
        0 <= i < states.len(),
    ensures
        set_under_way(states[i], trees, root, target, tree, options),
        0 <= set_steps_left(states[i], trees, root, target, options),
        set_steps_left(states[i], trees, root, target, options) + i <= trees.dom().len()
            + most_written() + 3,
    decreases i,
{
    if i == 0 {
        law_operations_begin(trees, root, target, tree, options);
        assert(trees.dom().difference(states[0].trees.dom()) =~= trees.dom());
    } else {
        lemma_set_run(states, trees, root, target, tree, options, i - 1);
        let request = set_step(states[i - 1], target, tree, options)->Do_0;
        assert(states[i - 1 + 1] == states[i]);
        law_set_comes_closer(
            states[i - 1],
            request,
            states[i],
            trees,
            root,
            target,
            tree,
            options,
        );
    }
}

/// Writing an entry ends: after so many actions at the latest it answers, or asks for
/// what cannot be done.
pub proof fn law_set_ends(
    states: Seq<Known>,
    trees: Map<Seq<u8>, Seq<Entry>>,
    root: Option<Seq<u8>>,
    target: Seq<u8>,
    tree: Seq<u8>,
    options: MetadataOptions,
)
    requires
        target.len() == 20,
        options.shard_level <= 20,
        trees.dom().finite(),
        is_set_run(states, trees, root, target, tree, options),
    ensures
        states.len() - 1 <= trees.dom().len() + most_written() + 3,
        states.len() - 1 == trees.dom().len() + most_written() + 3 ==> match set_step(
            states.last(),
            target,
            tree,
            options,
        ) {
            Step::Return(_) => true,
            Step::Do(request) => forall|next: Known| !#[trigger]
                is_noted(states.last(), request, next, trees, root),
        },
{
    let last = states.len() - 1;
    lemma_set_run(states, trees, root, target, tree, options, last);
    if last == trees.dom().len() + most_written() + 3 {
        if let Step::Do(request) = set_step(states.last(), target, tree, options) {
            assert forall|next: Known| !#[trigger]
                is_noted(states.last(), request, next, trees, root) by {
                if is_noted(states.last(), request, next, trees, root) {
                    law_set_comes_closer(
                        states.last(),
                        request,
                        next,
                        trees,
                        root,
                        target,
                        tree,
                        options,
                    );
                }
            }
        }
    }
}

/// How many steps removing an entry has still to take at most.
pub open spec fn remove_steps_left(
    known: Known,
    trees: Map<Seq<u8>, Seq<Entry>>,
    root: Option<Seq<u8>>,
    target: Seq<u8>,
) -> int {
    unread(known, trees) + counts(known.root is None) + counts(
        known.root is None || occupied(known, root, target) is Err,
    ) + (most_written() - known.written.len()) + counts(!known.concluded)
}

/// What removing an entry has written is bounded.
proof fn lemma_remove_is_bounded(
    known: Known,
    trees: Map<Seq<u8>, Seq<Entry>>,
    root: Option<Seq<u8>>,
    target: Seq<u8>,
)
    requires
        target.len() == 20,
        remove_under_way(known, trees, root, target),
    ensures
        known.written.len() <= most_written(),
        remove_step(known, target) matches Step::Do(Request::WriteTree { .. })
            ==> known.written.len() < most_written(),
{
    if known.written.len() > 0 || known.concluded {
        let depths = occupied(known, root, target)->Ok_0;
        lemma_occupied(known, trees, root, target, 0);
        lemma_occupied_is_short(known, trees, root, target);
        lemma_written_is_bounded(
            known.trees,
            trees,
            root,
            target,
            depths,
            None,
            known.written,
        );
    }
}

proof fn lemma_occupied_is_short(
    known: Known,
    trees: Map<Seq<u8>, Seq<Entry>>,
    root: Option<Seq<u8>>,
    target: Seq<u8>,
)
    requires
        target.len() == 20,
        fits(known, trees, root),
        occupied(known, root, target) is Ok,
    ensures
        occupied(known, root, target)->Ok_0.len() <= 20,
{
    lemma_hex_digits(target);
    if let Some(id) = root {
        lemma_detect_is_least(known.trees, id, target, 0);
        if let Ok(Some((depth, _))) = detect(known.trees, id, hex(target), 0) {
            lemma_sweep_range(known.trees, known.lacking, id, hex(target), depth + 1, None);
        }
    }
}

/// Once it is known which entries there are, that stays known, and it is known where
/// a tree that was tried turns out to be lacking.
proof fn lemma_occupied_stays(
    known: Known,
    request: Request,
    next: Known,
    trees: Map<Seq<u8>, Seq<Entry>>,
    root: Option<Seq<u8>>,
    target: Seq<u8>,
)
    requires
        fits(known, trees, root),
        request is FindTree || request is TryTree,
        is_noted(known, request, next, trees, root),
    ensures
        occupied(known, root, target) is Ok ==> occupied(next, root, target) is Ok,
        occupied(known, root, target) == Err::<Seq<nat>, Request>(request) && next.trees
            == known.trees ==> occupied(next, root, target) is Ok || !(request is TryTree),
{
    lemma_lacking_goes_on(known, next, trees, root, request);
    if let Some(id) = root {
        lemma_detect_grows(known.trees, next.trees, id, hex(target), 0);
        if let Ok(Some((depth, _))) = detect(known.trees, id, hex(target), 0) {
            lemma_sweep_grows(
                known.trees,
                known.lacking,
                next.trees,
                next.lacking,
                id,
                hex(target),
                depth + 1,
                None,
            );
        }
        if let Request::TryTree(missing) = request {
            if next.trees == known.trees && occupied(known, root, target) == Err::<
                Seq<nat>,
                Request,
            >(request) {
                lemma_tried_is_lacking(known, next, trees, root, missing);
            }
        }
    }
}

/// Every action that is carried out brings the removal of an entry closer to its end.
pub proof fn law_remove_comes_closer(
    known: Known,
    request: Request,
    next: Known,
    trees: Map<Seq<u8>, Seq<Entry>>,
    root: Option<Seq<u8>>,
    target: Seq<u8>,
)
    requires
        target.len() == 20,
        trees.dom().finite(),
        remove_under_way(known, trees, root, target),
        remove_step(known, target) == Step::<Request, bool>::Do(request),
        is_noted(known, request, next, trees, root),
    ensures
        remove_under_way(next, trees, root, target),
        0 <= remove_steps_left(next, trees, root, target) < remove_steps_left(
            known,
            trees,
            root,
            target,
        ),
{
    law_remove_goes_on(known, request, next, trees, root, target);
    let options = MetadataOptions { shard_level: 0, force: false };
    law_no_tree_is_read_twice(known, trees, root, target, target, options);
    lemma_remove_is_bounded(known, trees, root, target);
    lemma_remove_is_bounded(next, trees, root, target);
    match request {
        Request::FindTree(id) => {
            lemma_reading_counts(known, next, trees, id);
            lemma_occupied_stays(known, request, next, trees, root, target);
        },
        Request::TryTree(id) => {
            lemma_occupied_stays(known, request, next, trees, root, target);
            if trees.contains_key(id) {
                lemma_reading_counts(known, next, trees, id);
            }
        },
        _ => {},
    }
}

/// Whether `states` is what is known in the course of removing an entry, from the
/// beginning on, action by action.
pub open spec fn is_remove_run(
    states: Seq<Known>,
    trees: Map<Seq<u8>, Seq<Entry>>,
    root: Option<Seq<u8>>,
    target: Seq<u8>,
) -> bool {
    &&& states.len() > 0
    &&& states[0] == nothing_known()
    &&& forall|i: int|
        0 <= i < states.len() - 1 ==> (remove_step(#[trigger] states[i], target) matches Step::Do(
            request,
        ) && is_noted(states[i], request, states[i + 1], trees, root))
}

pub proof fn lemma_remove_run(
    states: Seq<Known>,
    trees: Map<Seq<u8>, Seq<Entry>>,
    root: Option<Seq<u8>>,
    target: Seq<u8>,
    i: int,
)
    requires
        target.len() == 20,
        trees.dom().finite(),
        is_remove_run(states, trees, root, target),
        0 <= i < states.len(),
    ensures
        remove_under_way(states[i], trees, root, target),
        0 <= remove_steps_left(states[i], trees, root, target),
        remove_steps_left(states[i], trees, root, target) + i <= trees.dom().len()
            + most_written() + 3,
    decreases i,
{
    if i == 0 {
        let options = MetadataOptions { shard_level: 0, force: false };
        law_operations_begin(trees, root, target, target, options);
        assert(trees.dom().difference(states[0].trees.dom()) =~= trees.dom());
    } else {
        lemma_remove_run(states, trees, root, target, i - 1);
        let request = remove_step(states[i - 1], target)->Do_0;
        assert(states[i - 1 + 1] == states[i]);
        law_remove_comes_closer(states[i - 1], request, states[i], trees, root, target);
    }
}

/// Removing an entry ends: after so many actions at the latest it answers, or asks for
/// what cannot be done.
pub proof fn law_remove_ends(
    states: Seq<Known>,
    trees: Map<Seq<u8>, Seq<Entry>>,
    root: Option<Seq<u8>>,
    target: Seq<u8>,
)
    requires
        target.len() == 20,
        trees.dom().finite(),
        is_remove_run(states, trees, root, target),
    ensures
        states.len() - 1 <= trees.dom().len() + most_written() + 3,
        states.len() - 1 == trees.dom().len() + most_written() + 3 ==> match remove_step(
            states.last(),
            target,
        ) {
            Step::Return(_) => true,
            Step::Do(request) => forall|next: Known| !#[trigger]
                is_noted(states.last(), request, next, trees, root),
        },
{
    let last = states.len() - 1;
    lemma_remove_run(states, trees, root, target, last);
    if last == trees.dom().len() + most_written() + 3 {
        if let Step::Do(request) = remove_step(states.last(), target) {
            assert forall|next: Known| !#[trigger]
                is_noted(states.last(), request, next, trees, root) by {
                if is_noted(states.last(), request, next, trees, root) {
                    law_remove_comes_closer(states.last(), request, next, trees, root, target);
                }
            }
        }
    }
}

} // verus!
