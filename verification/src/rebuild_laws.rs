//! What holds of rebuilding the fanout tree: which root tree comes out.
//!
//! A tree is addressed by what it holds, so trees that hold the same are one tree.

use vstd::prelude::*;

use crate::fanout::{leaf, segments};
use crate::index::{
    edit_child, lookup, occupied, progress, remove_plan, replaced, set_plan, set_step, Error, Known,
    MetadataOptions, Progress,
};
use crate::laws::{
    carried_out, cell, entries_of, fits, is_sound, is_written, law_lookup_is_least_depth,
    lemma_entry_is_found, lemma_existing_grows, lemma_found_entry, lemma_removal_grows,
    lemma_surviving, lemma_surviving_holds, lemma_surviving_level, lemma_sweep_is_held,
    lemma_written_chain,
};
use crate::oid::{hex, law_hex_is_injective, lemma_hex_digits};
use crate::operation_laws::{
    is_kept_to, law_get_after_set, law_set_leaves_one_entry, lemma_one_entry_is_occupied,
    lemma_replaced, lemma_set_done, remove_carried_out, set_carried_out,
};
use crate::rebuild::{
    child, existing, insertion, lemma_existing, lemma_existing_above, plan, removal, surviving,
    Change, Edit, RemoveResult,
};
use crate::step::{Request, Step};
use crate::tree::{directory, entry_named, has_others, is_tree, Entry};

verus! {

/// Whether trees are addressed by what they hold: two that hold the same entries are
/// one.
pub open spec fn is_addressed(trees: Map<Seq<u8>, Seq<Entry>>) -> bool {
    forall|one: Seq<u8>, other: Seq<u8>|
        #![trigger trees[one], trees[other]]
        trees.contains_key(one) && trees.contains_key(other) && same_entries(
            trees[one],
            trees[other],
        ) ==> one == other
}

/// Whether two trees hold the same entries.
pub open spec fn same_entries(one: Seq<Entry>, other: Seq<Entry>) -> bool {
    forall|entry: Entry| #[trigger] one.contains(entry) <==> other.contains(entry)
}

/// Whether the tree `id` is written by giving the entry `name` of `base` the tree
/// `child`, or by taking it out.
pub open spec fn puts(
    trees: Map<Seq<u8>, Seq<Entry>>,
    base: Option<Seq<u8>>,
    name: Seq<char>,
    child: Option<Seq<u8>>,
    id: Seq<u8>,
) -> bool {
    is_written(trees, Edit { base, name, change: Change::Remove }, child, id)
}

/// The tree that the entry `name` of a tree that may be missing leads to.
pub open spec fn below(
    trees: Map<Seq<u8>, Seq<Entry>>,
    base: Option<Seq<u8>>,
    name: Seq<char>,
) -> Option<Seq<u8>> {
    match base {
        Some(id) => child(trees[id], name),
        None => None,
    }
}

/// Whether the tree `id` comes out where `value` is put in under `name` in the
/// directory `path` of `base`.
pub open spec fn inserted(
    trees: Map<Seq<u8>, Seq<Entry>>,
    base: Option<Seq<u8>>,
    path: Seq<Seq<char>>,
    name: Seq<char>,
    value: Seq<u8>,
    id: Seq<u8>,
) -> bool
    decreases path.len(),
{
    if path.len() == 0 {
        puts(trees, base, name, Some(value), id)
    } else {
        exists|next: Seq<u8>|
            inserted(
                trees,
                below(trees, base, path[0]),
                path.drop_first(),
                name,
                value,
                next,
            ) && #[trigger] puts(trees, base, path[0], Some(next), id)
    }
}

/// Whether the tree `after` comes out where what is under `name` in the directory
/// `path` of `base` is taken out.
pub open spec fn taken_out(
    trees: Map<Seq<u8>, Seq<Entry>>,
    base: Seq<u8>,
    path: Seq<Seq<char>>,
    name: Seq<char>,
    after: Option<Seq<u8>>,
) -> bool
    decreases path.len(),
{
    if path.len() == 0 {
        is_without(trees, base, name, after)
    } else {
        exists|next: Option<Seq<u8>>|
            taken_out(
                trees,
                child(trees[base], path[0])->0,
                path.drop_first(),
                name,
                next,
            ) && #[trigger] replaces(trees, base, path[0], next, after)
    }
}

/// Whether the tree `after` is `base` with the tree `next` under the name `name`, or
/// without that entry where there is no such tree.
pub open spec fn replaces(
    trees: Map<Seq<u8>, Seq<Entry>>,
    base: Seq<u8>,
    name: Seq<char>,
    next: Option<Seq<u8>>,
    after: Option<Seq<u8>>,
) -> bool {
    match next {
        Some(_) => after is Some && puts(trees, Some(base), name, next, after->0),
        None => is_without(trees, base, name, after),
    }
}

/// Whether the tree `after` is `base` without the entry `name`, or is missing where
/// nothing would be left.
pub open spec fn is_without(
    trees: Map<Seq<u8>, Seq<Entry>>,
    base: Seq<u8>,
    name: Seq<char>,
    after: Option<Seq<u8>>,
) -> bool {
    match after {
        Some(id) => has_others(trees[base], name) && puts(trees, Some(base), name, None, id),
        None => !has_others(trees[base], name),
    }
}

/// An edit that is carried out puts in what it says.
proof fn lemma_edit_puts(
    trees: Map<Seq<u8>, Seq<Entry>>,
    edit: Edit,
    child: Option<Seq<u8>>,
    id: Seq<u8>,
)
    requires
        is_written(trees, edit, child, id),
    ensures
        puts(trees, edit.base, edit.name, child, id),
{
    let bare = Edit { base: edit.base, name: edit.name, change: Change::Remove };
    assert forall|name: Seq<char>| #[trigger]
        entry_named(trees[id], name) == if name == bare.name {
            match child {
                Some(child) => Some(directory(name, child)),
                None => None,
            }
        } else {
            entry_named(entries_of(trees, bare.base), name)
        } by {}
}

/// Carrying out the plan of an insertion puts the entry in.
proof fn lemma_carried_is_inserted(
    trees: Map<Seq<u8>, Seq<Entry>>,
    chain: Seq<Option<Seq<u8>>>,
    path: Seq<Seq<char>>,
    name: Seq<char>,
    value: Seq<u8>,
    written: Seq<Seq<u8>>,
    j: int,
)
    requires
        0 <= j <= path.len(),
        chain.len() == path.len() + 1,
        forall|i: int|
            0 <= i < path.len() ==> #[trigger] chain[i + 1] == (match chain[i] {
                Some(id) => child(trees[id], path[i]),
                None => None,
            }),
        carried_out(
            trees,
            plan(chain, path.push(name), path.len(), Change::Insert(value)),
            written,
        ),
    ensures
        inserted(trees, chain[j], path.skip(j), name, value, written[path.len() - j]),
    decreases path.len() - j,
{
    let n = path.len();
    let edits = plan(chain, path.push(name), n, Change::Insert(value));
    let edit = edits[n - j];
    let rest = path.skip(j);
    assert(is_written(trees, edit, edit_child(edit, written.take(n - j)), written[n - j]));
    lemma_edit_puts(trees, edit, edit_child(edit, written.take(n - j)), written[n - j]);
    if j < n {
        lemma_carried_is_inserted(trees, chain, path, name, value, written, j + 1);
        assert(written.take(n - j).last() == written[n - j - 1]);
        assert(rest[0] == path[j] && edit.name == path[j]);
        assert(rest.drop_first() =~= path.skip(j + 1));
        assert(chain[j + 1] == below(trees, chain[j], path[j]));
        assert(inserted(
            trees,
            below(trees, chain[j], rest[0]),
            rest.drop_first(),
            name,
            value,
            written[n - j - 1],
        ));
    }
}

/// Carrying out a planned insertion puts the entry in.
pub proof fn lemma_insertion_inserts(
    known: Map<Seq<u8>, Seq<Entry>>,
    trees: Map<Seq<u8>, Seq<Entry>>,
    root: Option<Seq<u8>>,
    path: Seq<Seq<char>>,
    name: Seq<char>,
    value: Seq<u8>,
    written: Seq<Seq<u8>>,
)
    requires
        known.submap_of(trees),
        insertion(known, root, path, name, value) matches Ok(plan) && carried_out(
            trees,
            plan,
            written,
        ),
    ensures
        inserted(trees, root, path, name, value, written.last()),
{
    lemma_existing_grows(known, trees, root, path);
    lemma_existing(trees, root, path);
    let chain = existing(trees, root, path)->Ok_0;
    lemma_carried_is_inserted(trees, chain, path, name, value, written, 0);
    assert(path.skip(0) =~= path);
}

/// What is put in the same way gives the same tree.
proof fn lemma_inserted_once(
    trees: Map<Seq<u8>, Seq<Entry>>,
    base: Option<Seq<u8>>,
    path: Seq<Seq<char>>,
    name: Seq<char>,
    value: Seq<u8>,
    one: Seq<u8>,
    other: Seq<u8>,
)
    requires
        is_addressed(trees),
        inserted(trees, base, path, name, value, one),
        inserted(trees, base, path, name, value, other),
    ensures
        one == other,
    decreases path.len(),
{
    if path.len() > 0 {
        let from = below(trees, base, path[0]);
        let rest = path.drop_first();
        let a = choose|next: Seq<u8>|
            inserted(trees, from, rest, name, value, next) && #[trigger] puts(
                trees,
                base,
                path[0],
                Some(next),
                one,
            );
        let b = choose|next: Seq<u8>|
            inserted(trees, from, rest, name, value, next) && #[trigger] puts(
                trees,
                base,
                path[0],
                Some(next),
                other,
            );
        lemma_inserted_once(trees, from, rest, name, value, a, b);
    }
    assert(same_entries(trees[one], trees[other]));
}

/// Putting in a second value under the same name leaves no trace of the first.
proof fn lemma_inserted_again(
    trees: Map<Seq<u8>, Seq<Entry>>,
    base: Option<Seq<u8>>,
    path: Seq<Seq<char>>,
    name: Seq<char>,
    first: Seq<u8>,
    second: Seq<u8>,
    between: Seq<u8>,
    after: Seq<u8>,
    alone: Seq<u8>,
)
    requires
        is_addressed(trees),
        inserted(trees, base, path, name, first, between),
        inserted(trees, Some(between), path, name, second, after),
        inserted(trees, base, path, name, second, alone),
    ensures
        after == alone,
    decreases path.len(),
{
    if path.len() > 0 {
        let from = below(trees, base, path[0]);
        let rest = path.drop_first();
        let a = choose|next: Seq<u8>|
            inserted(trees, from, rest, name, first, next) && #[trigger] puts(
                trees,
                base,
                path[0],
                Some(next),
                between,
            );
        assert(entry_named(trees[between], path[0]) == Some(directory(path[0], a)));
        assert(below(trees, Some(between), path[0]) == Some(a));
        let b = choose|next: Seq<u8>|
            inserted(trees, Some(a), rest, name, second, next) && #[trigger] puts(
                trees,
                Some(between),
                path[0],
                Some(next),
                after,
            );
        let c = choose|next: Seq<u8>|
            inserted(trees, from, rest, name, second, next) && #[trigger] puts(
                trees,
                base,
                path[0],
                Some(next),
                alone,
            );
        lemma_inserted_again(trees, from, rest, name, first, second, a, b, c);
    }
    assert(same_entries(trees[after], trees[alone]));
}

/// The last write wins and leaves no trace of an earlier one: putting in a second
/// value at the same path gives the root tree that it gives alone. In particular
/// putting in the same value again gives the same root tree.
pub proof fn law_last_insertion_wins(
    known: Map<Seq<u8>, Seq<Entry>>,
    known_between: Map<Seq<u8>, Seq<Entry>>,
    known_alone: Map<Seq<u8>, Seq<Entry>>,
    trees: Map<Seq<u8>, Seq<Entry>>,
    root: Option<Seq<u8>>,
    path: Seq<Seq<char>>,
    name: Seq<char>,
    first: Seq<u8>,
    second: Seq<u8>,
    written: Seq<Seq<u8>>,
    written_then: Seq<Seq<u8>>,
    written_alone: Seq<Seq<u8>>,
)
    requires
        is_addressed(trees),
        known.submap_of(trees),
        known_between.submap_of(trees),
        known_alone.submap_of(trees),
        insertion(known, root, path, name, first) matches Ok(plan) && carried_out(
            trees,
            plan,
            written,
        ),
        insertion(known_between, Some(written.last()), path, name, second) matches Ok(plan)
            && carried_out(trees, plan, written_then),
        insertion(known_alone, root, path, name, second) matches Ok(plan) && carried_out(
            trees,
            plan,
            written_alone,
        ),
    ensures
        written_then.last() == written_alone.last(),
        first == second ==> written_then.last() == written.last(),
{
    lemma_insertion_inserts(known, trees, root, path, name, first, written);
    lemma_insertion_inserts(
        known_between,
        trees,
        Some(written.last()),
        path,
        name,
        second,
        written_then,
    );
    lemma_insertion_inserts(known_alone, trees, root, path, name, second, written_alone);
    lemma_inserted_again(
        trees,
        root,
        path,
        name,
        first,
        second,
        written.last(),
        written_then.last(),
        written_alone.last(),
    );
    if first == second {
        lemma_inserted_once(
            trees,
            root,
            path,
            name,
            first,
            written.last(),
            written_alone.last(),
        );
    }
}

/// The name that a path and an entry begin with.
spec fn first_name(path: Seq<Seq<char>>, name: Seq<char>) -> Seq<char> {
    if path.len() == 0 {
        name
    } else {
        path[0]
    }
}

/// Whether two entries stand at places of which neither lies below the other.
pub open spec fn diverges(
    path: Seq<Seq<char>>,
    name: Seq<char>,
    other: Seq<Seq<char>>,
    called: Seq<char>,
) -> bool
    decreases path.len(),
{
    let one = if path.len() == 0 {
        name
    } else {
        path[0]
    };
    let two = if other.len() == 0 {
        called
    } else {
        other[0]
    };
    one != two || path.len() > 0 && other.len() > 0 && diverges(
        path.drop_first(),
        name,
        other.drop_first(),
        called,
    )
}

/// What is put in at the beginning of a path.
proof fn lemma_inserted_puts(
    trees: Map<Seq<u8>, Seq<Entry>>,
    base: Option<Seq<u8>>,
    path: Seq<Seq<char>>,
    name: Seq<char>,
    value: Seq<u8>,
    id: Seq<u8>,
) -> (next: Seq<u8>)
    requires
        inserted(trees, base, path, name, value, id),
    ensures
        puts(trees, base, first_name(path, name), Some(next), id),
        if path.len() == 0 {
            next == value
        } else {
            inserted(
                trees,
                below(trees, base, path[0]),
                path.drop_first(),
                name,
                value,
                next,
            )
        },
{
    if path.len() == 0 {
        value
    } else {
        choose|next: Seq<u8>|
            inserted(
                trees,
                below(trees, base, path[0]),
                path.drop_first(),
                name,
                value,
                next,
            ) && #[trigger] puts(trees, base, path[0], Some(next), id)
    }
}

/// Two entries that are put in at different places give the same tree in either order.
proof fn lemma_inserted_in_either_order(
    trees: Map<Seq<u8>, Seq<Entry>>,
    base: Option<Seq<u8>>,
    path: Seq<Seq<char>>,
    name: Seq<char>,
    value: Seq<u8>,
    other: Seq<Seq<char>>,
    called: Seq<char>,
    worth: Seq<u8>,
    a: Seq<u8>,
    ab: Seq<u8>,
    b: Seq<u8>,
    ba: Seq<u8>,
)
    requires
        is_addressed(trees),
        diverges(path, name, other, called),
        inserted(trees, base, path, name, value, a),
        inserted(trees, Some(a), other, called, worth, ab),
        inserted(trees, base, other, called, worth, b),
        inserted(trees, Some(b), path, name, value, ba),
    ensures
        ab == ba,
    decreases path.len(),
{
    let one = first_name(path, name);
    let two = first_name(other, called);
    let in_a = lemma_inserted_puts(trees, base, path, name, value, a);
    let in_ab = lemma_inserted_puts(trees, Some(a), other, called, worth, ab);
    let in_b = lemma_inserted_puts(trees, base, other, called, worth, b);
    let in_ba = lemma_inserted_puts(trees, Some(b), path, name, value, ba);
    assert(entry_named(trees[a], one) == Some(directory(one, in_a)));
    assert(entry_named(trees[b], two) == Some(directory(two, in_b)));
    if one != two {
        assert(entry_named(trees[a], two) == entry_named(entries_of(trees, base), two));
        assert(entry_named(trees[b], one) == entry_named(entries_of(trees, base), one));
        assert(below(trees, Some(a), two) == below(trees, base, two));
        assert(below(trees, Some(b), one) == below(trees, base, one));
        if path.len() > 0 {
            lemma_inserted_once(
                trees,
                below(trees, base, one),
                path.drop_first(),
                name,
                value,
                in_a,
                in_ba,
            );
        }
        if other.len() > 0 {
            lemma_inserted_once(
                trees,
                below(trees, base, two),
                other.drop_first(),
                called,
                worth,
                in_b,
                in_ab,
            );
        }
        assert(in_a == in_ba && in_b == in_ab);
    } else {
        assert(below(trees, Some(a), one) == Some(in_a));
        assert(below(trees, Some(b), one) == Some(in_b));
        lemma_inserted_in_either_order(
            trees,
            below(trees, base, one),
            path.drop_first(),
            name,
            value,
            other.drop_first(),
            called,
            worth,
            in_a,
            in_ab,
            in_b,
            in_ba,
        );
    }
    assert(same_entries(trees[ab], trees[ba]));
}

/// Entries at places of which neither lies below the other can be put in in either
/// order: the same root tree comes out.
pub proof fn law_insertions_commute(
    knowns: Seq<Map<Seq<u8>, Seq<Entry>>>,
    trees: Map<Seq<u8>, Seq<Entry>>,
    root: Option<Seq<u8>>,
    path: Seq<Seq<char>>,
    name: Seq<char>,
    value: Seq<u8>,
    other: Seq<Seq<char>>,
    called: Seq<char>,
    worth: Seq<u8>,
    a: Seq<Seq<u8>>,
    ab: Seq<Seq<u8>>,
    b: Seq<Seq<u8>>,
    ba: Seq<Seq<u8>>,
)
    requires
        is_addressed(trees),
        diverges(path, name, other, called),
        knowns.len() == 4,
        forall|i: int| 0 <= i < 4 ==> (#[trigger] knowns[i]).submap_of(trees),
        insertion(knowns[0], root, path, name, value) matches Ok(plan) && carried_out(
            trees,
            plan,
            a,
        ),
        insertion(knowns[1], Some(a.last()), other, called, worth) matches Ok(plan) && carried_out(
            trees,
            plan,
            ab,
        ),
        insertion(knowns[2], root, other, called, worth) matches Ok(plan) && carried_out(
            trees,
            plan,
            b,
        ),
        insertion(knowns[3], Some(b.last()), path, name, value) matches Ok(plan) && carried_out(
            trees,
            plan,
            ba,
        ),
    ensures
        ab.last() == ba.last(),
{
    lemma_insertion_inserts(knowns[0], trees, root, path, name, value, a);
    lemma_insertion_inserts(knowns[1], trees, Some(a.last()), other, called, worth, ab);
    lemma_insertion_inserts(knowns[2], trees, root, other, called, worth, b);
    lemma_insertion_inserts(knowns[3], trees, Some(b.last()), path, name, value, ba);
    lemma_inserted_in_either_order(
        trees,
        root,
        path,
        name,
        value,
        other,
        called,
        worth,
        a.last(),
        ab.last(),
        b.last(),
        ba.last(),
    );
}

/// One directory down, the way to an entry is that of the digits after the first two.
pub proof fn lemma_way_below(digits: Seq<char>, depth: nat)
    requires
        depth > 0,
        2 * depth <= digits.len(),
    ensures
        segments(digits, depth)[0] == digits.take(2),
        segments(digits, depth).drop_first() == segments(digits.skip(2), (depth - 1) as nat),
        leaf(digits, depth) == leaf(digits.skip(2), (depth - 1) as nat),
{
    let path = segments(digits, depth);
    let rest = digits.skip(2);
    assert(path[0] =~= digits.take(2));
    assert(path.drop_first() =~= segments(rest, (depth - 1) as nat)) by {
        assert forall|k: int| 0 <= k < depth - 1 implies path.drop_first()[k] == segments(
            rest,
            (depth - 1) as nat,
        )[k] by {
            assert(digits.subrange(2 * (k + 1), 2 * (k + 1) + 2) =~= rest.subrange(
                2 * k,
                2 * k + 2,
            ));
        }
    }
    assert(leaf(digits, depth) =~= leaf(rest, (depth - 1) as nat));
}

/// Different digits lead to places of which neither lies below the other.
proof fn lemma_ways_diverge(one: Seq<char>, depth: nat, other: Seq<char>, other_depth: nat)
    requires
        one != other,
        one.len() == other.len(),
        2 * depth < one.len(),
        2 * other_depth < one.len(),
    ensures
        diverges(
            segments(one, depth),
            leaf(one, depth),
            segments(other, other_depth),
            leaf(other, other_depth),
        ),
    decreases depth,
{
    if depth == 0 {
        assert(leaf(one, 0) =~= one);
    } else {
        lemma_way_below(one, depth);
    }
    if other_depth == 0 {
        assert(leaf(other, 0) =~= other);
    } else {
        lemma_way_below(other, other_depth);
    }
    if depth > 0 && other_depth > 0 && one.take(2) == other.take(2) {
        if one.skip(2) == other.skip(2) {
            assert(one =~= one.take(2) + one.skip(2));
            assert(other =~= other.take(2) + other.skip(2));
        }
        lemma_ways_diverge(
            one.skip(2),
            (depth - 1) as nat,
            other.skip(2),
            (other_depth - 1) as nat,
        );
    } else if depth > 0 && other_depth == 0 {
        assert(one.take(2).len() == 2 && other.len() > 2);
    } else if depth == 0 && other_depth > 0 {
        assert(other.take(2).len() == 2 && one.len() > 2);
    }
}

/// Entries of two targets can be put in in either order, at whatever depths: the same
/// root tree comes out.
pub proof fn law_insertions_for_two_targets_commute(
    knowns: Seq<Map<Seq<u8>, Seq<Entry>>>,
    trees: Map<Seq<u8>, Seq<Entry>>,
    root: Option<Seq<u8>>,
    target: Seq<u8>,
    tree: Seq<u8>,
    level: nat,
    other: Seq<u8>,
    other_tree: Seq<u8>,
    other_level: nat,
    a: Seq<Seq<u8>>,
    ab: Seq<Seq<u8>>,
    b: Seq<Seq<u8>>,
    ba: Seq<Seq<u8>>,
)
    requires
        is_addressed(trees),
        target.len() == 20,
        other.len() == 20,
        target != other,
        level < 20,
        other_level < 20,
        knowns.len() == 4,
        forall|i: int| 0 <= i < 4 ==> (#[trigger] knowns[i]).submap_of(trees),
        set_plan(knowns[0], root, target, tree, level) matches Ok(plan) && carried_out(
            trees,
            plan,
            a,
        ),
        set_plan(knowns[1], Some(a.last()), other, other_tree, other_level) matches Ok(plan)
            && carried_out(trees, plan, ab),
        set_plan(knowns[2], root, other, other_tree, other_level) matches Ok(plan) && carried_out(
            trees,
            plan,
            b,
        ),
        set_plan(knowns[3], Some(b.last()), target, tree, level) matches Ok(plan) && carried_out(
            trees,
            plan,
            ba,
        ),
    ensures
        ab.last() == ba.last(),
{
    lemma_hex_digits(target);
    lemma_hex_digits(other);
    if hex(target) == hex(other) {
        law_hex_is_injective(target, other);
    }
    lemma_ways_diverge(hex(target), level, hex(other), other_level);
    law_insertions_commute(
        knowns,
        trees,
        root,
        segments(hex(target), level),
        leaf(hex(target), level),
        tree,
        segments(hex(other), other_level),
        leaf(hex(other), other_level),
        other_tree,
        a,
        ab,
        b,
        ba,
    );
}

/// Carrying out the plan of a removal takes the entry out.
proof fn lemma_carried_is_taken_out(
    trees: Map<Seq<u8>, Seq<Entry>>,
    chain: Seq<Option<Seq<u8>>>,
    path: Seq<Seq<char>>,
    name: Seq<char>,
    kept: Option<nat>,
    written: Seq<Seq<u8>>,
    j: int,
)
    requires
        0 <= j <= path.len(),
        chain.len() == path.len() + 1,
        forall|i: int| 0 <= i < chain.len() ==> #[trigger] chain[i] is Some,
        forall|i: int|
            0 <= i < path.len() ==> #[trigger] chain[i + 1] == (match chain[i] {
                Some(id) => child(trees[id], path[i]),
                None => None,
            }),
        kept == surviving(trees, chain, path.push(name), path.len() + 1),
        kept matches Some(level) ==> carried_out(
            trees,
            plan(chain, path.push(name), level, Change::Remove),
            written,
        ),
    ensures
        taken_out(
            trees,
            chain[j]->0,
            path.skip(j),
            name,
            if kept is Some && j <= kept->0 {
                Some(written[kept->0 - j])
            } else {
                None
            },
        ),
    decreases path.len() - j,
{
    let n = path.len();
    let names = path.push(name);
    let rest = path.skip(j);
    assert(chain[j] is Some);
    lemma_surviving_level(trees, chain, names, n + 1);
    lemma_surviving_holds(trees, chain, names, n + 1);
    if kept is None || j > kept->0 {
        lemma_surviving(trees, chain, names, n + 1, j);
    } else {
        let level = kept->0;
        let edits = plan(chain, names, level, Change::Remove);
        let edit = edits[level - j];
        let child = edit_child(edit, written.take(level - j));
        assert(is_written(trees, edit, child, written[level - j]));
        lemma_edit_puts(trees, edit, child, written[level - j]);
    }
    if j < n {
        lemma_carried_is_taken_out(trees, chain, path, name, kept, written, j + 1);
        assert(rest[0] == path[j]);
        assert(rest.drop_first() =~= path.skip(j + 1));
        assert(chain[j + 1] == child(trees[chain[j]->0], path[j]));
        let next = if kept is Some && j + 1 <= kept->0 {
            Some(written[kept->0 - (j + 1)])
        } else {
            None
        };
        let after = if kept is Some && j <= kept->0 {
            Some(written[kept->0 - j])
        } else {
            None
        };
        if kept is Some && j < kept->0 {
            let level = kept->0;
            assert(written.take(level - j).last() == written[level - j - 1]);
        }
        assert(replaces(trees, chain[j]->0, rest[0], next, after));
    }
}

/// Carrying out a planned removal takes the entry out.
pub proof fn lemma_removal_takes_out(
    known: Map<Seq<u8>, Seq<Entry>>,
    trees: Map<Seq<u8>, Seq<Entry>>,
    root: Seq<u8>,
    path: Seq<Seq<char>>,
    name: Seq<char>,
    written: Seq<Seq<u8>>,
)
    requires
        known.submap_of(trees),
        removal(known, root, path, name) matches Ok(result) && (
        result matches RemoveResult::Removed(plan) ==> carried_out(trees, plan, written)),
    ensures
        match removal(known, root, path, name)->Ok_0 {
            RemoveResult::NotFound => true,
            RemoveResult::Empty => taken_out(trees, root, path, name, None),
            RemoveResult::Removed(_) => taken_out(
                trees,
                root,
                path,
                name,
                Some(written.last()),
            ),
        },
{
    lemma_removal_grows(known, trees, root, path, name);
    lemma_existing(trees, Some(root), path);
    let chain = existing(trees, Some(root), path)->Ok_0;
    let names = path.push(name);
    if !(removal(trees, root, path, name)->Ok_0 is NotFound) {
        assert forall|i: int| 0 <= i < chain.len() implies #[trigger] chain[i] is Some by {
            lemma_existing_above(trees, Some(root), path, i);
        }
        let kept = surviving(trees, chain, names, path.len() + 1);
        lemma_carried_is_taken_out(trees, chain, path, name, kept, written, 0);
        assert(path.skip(0) =~= path);
    }
}

/// Whether there is a place in the index with root tree `root` for an entry `name` in
/// the directory `path`: there is no such entry yet, and no directory on the way to
/// it that exists is empty.
pub open spec fn is_clear(
    trees: Map<Seq<u8>, Seq<Entry>>,
    root: Option<Seq<u8>>,
    path: Seq<Seq<char>>,
    name: Seq<char>,
) -> bool
    decreases path.len(),
{
    match root {
        None => true,
        Some(id) => trees.contains_key(id) && if path.len() == 0 {
            entry_named(trees[id], name) is None
        } else {
            match entry_named(trees[id], path[0]) {
                None => true,
                Some(entry) => trees.contains_key(entry.id) && trees[entry.id].len() > 0
                    && is_clear(trees, Some(entry.id), path.drop_first(), name),
            }
        },
    }
}

/// A tree without an entry of some name has others if and only if it has any.
proof fn lemma_others(tree: Seq<Entry>, name: Seq<char>)
    requires
        entry_named(tree, name) is None,
    ensures
        forall|entry: Entry| tree.contains(entry) ==> entry.name != Some(name),
{
    assert forall|entry: Entry| tree.contains(entry) implies entry.name != Some(name) by {
        let i = choose|i: int| 0 <= i < tree.len() && tree[i] == entry;
        if entry.name == Some(name) {
            lemma_entry_is_found(tree, i, name);
        }
    }
}

/// What was put in and is taken out again leaves the tree that was there before.
proof fn lemma_in_and_out(
    trees: Map<Seq<u8>, Seq<Entry>>,
    base: Option<Seq<u8>>,
    path: Seq<Seq<char>>,
    name: Seq<char>,
    value: Seq<u8>,
    between: Seq<u8>,
    after: Option<Seq<u8>>,
)
    requires
        is_sound(trees),
        is_addressed(trees),
        is_clear(trees, base, path, name),
        inserted(trees, base, path, name, value, between),
        taken_out(trees, between, path, name, after),
    ensures
        after == if entries_of(trees, base).len() == 0 {
            None
        } else {
            base
        },
    decreases path.len(),
{
    let old = entries_of(trees, base);
    let new = trees[between];
    let first = first_name(path, name);
    let put = lemma_inserted_puts(trees, base, path, name, value, between);
    assert(entry_named(new, first) == Some(directory(first, put)));
    if path.len() > 0 && entry_named(old, first) is Some {
        // The way leads on, and back to the same tree.
        let entry = entry_named(old, first)->0;
        let i = lemma_found_entry(old, first);
        assert(old[i] == entry);
        assert(trees[base->0][i] == entry);
        assert(is_tree(trees[base->0][i]));
        assert(entry == directory(first, entry.id));
        let next = choose|next: Option<Seq<u8>>|
            taken_out(trees, child(new, path[0])->0, path.drop_first(), name, next)
                && #[trigger] replaces(trees, between, path[0], next, after);
        lemma_in_and_out(
            trees,
            Some(entry.id),
            path.drop_first(),
            name,
            value,
            put,
            next,
        );
        assert(next == Some(entry.id));
        let back = after->0;
        assert forall|item: Entry| #[trigger]
            trees[back].contains(item) <==> trees[base->0].contains(item) by {
            if item.name == Some(first) && old.contains(item) {
                let k = choose|k: int| 0 <= k < old.len() && old[k] == item;
                assert(trees[base->0][k].name == trees[base->0][i].name);
            }
            if item == directory(first, entry.id) {
                assert(old.contains(old[i]));
            }
            assert(new.contains(item) <==> if item.name == Some(first) {
                item == directory(first, put)
            } else {
                old.contains(item)
            });
        }
        assert(same_entries(trees[back], trees[base->0]));
    } else {
        // There was no entry of that name, and there is none again.
        assert(entry_named(old, first) is None);
        lemma_others(old, first);
        if path.len() > 0 {
            let next = choose|next: Option<Seq<u8>>|
                taken_out(trees, child(new, path[0])->0, path.drop_first(), name, next)
                    && #[trigger] replaces(trees, between, path[0], next, after);
            assert(below(trees, base, path[0]) is None);
            lemma_in_and_out(trees, None, path.drop_first(), name, value, put, next);
            assert(next is None);
        }
        assert(is_without(trees, between, first, after));
        if old.len() > 0 {
            assert(old.contains(old[0]));
            assert(new.contains(old[0]));
            let k = choose|k: int| 0 <= k < new.len() && new[k] == old[0];
            assert(new[k].name != Some(first));
            assert(has_others(new, first));
            let back = after->0;
            assert forall|item: Entry| #[trigger]
                trees[back].contains(item) <==> trees[base->0].contains(item) by {
                assert(new.contains(item) <==> if item.name == Some(first) {
                    item == directory(first, put)
                } else {
                    old.contains(item)
                });
            }
            assert(same_entries(trees[back], trees[base->0]));
        } else {
            assert(!has_others(new, first)) by {
                assert forall|k: int| 0 <= k < new.len() implies (#[trigger] new[k]).name == Some(
                    first,
                ) by {
                    assert(new.contains(new[k]));
                }
            }
        }
    }
}

/// Removing what was just inserted gives back the very same root tree: nothing is left
/// where there was no root tree, or an empty one. The entry is put in where there was
/// none, and no directory on the way was empty.
pub proof fn law_removal_undoes_insertion(
    known: Map<Seq<u8>, Seq<Entry>>,
    known_then: Map<Seq<u8>, Seq<Entry>>,
    trees: Map<Seq<u8>, Seq<Entry>>,
    root: Option<Seq<u8>>,
    path: Seq<Seq<char>>,
    name: Seq<char>,
    value: Seq<u8>,
    written: Seq<Seq<u8>>,
    written_then: Seq<Seq<u8>>,
)
    requires
        is_sound(trees),
        is_addressed(trees),
        known.submap_of(trees),
        known_then.submap_of(trees),
        is_clear(trees, root, path, name),
        insertion(known, root, path, name, value) matches Ok(plan) && carried_out(
            trees,
            plan,
            written,
        ),
        removal(known_then, written.last(), path, name) matches Ok(result) && (
        result matches RemoveResult::Removed(plan) ==> carried_out(trees, plan, written_then)),
    ensures
        match removal(known_then, written.last(), path, name)->Ok_0 {
            RemoveResult::NotFound => false,
            RemoveResult::Empty => entries_of(trees, root).len() == 0,
            RemoveResult::Removed(_) => entries_of(trees, root).len() > 0 && root == Some(
                written_then.last(),
            ),
        },
{
    let between = written.last();
    lemma_insertion_inserts(known, trees, root, path, name, value, written);
    lemma_removal_takes_out(known_then, trees, between, path, name, written_then);
    let result = removal(known_then, between, path, name)->Ok_0;
    match result {
        RemoveResult::NotFound => {
            lemma_inserted_is_found(known, known_then, trees, root, path, name, value, written);
        },
        RemoveResult::Empty => {
            lemma_in_and_out(trees, root, path, name, value, between, None);
        },
        RemoveResult::Removed(_) => {
            lemma_in_and_out(
                trees,
                root,
                path,
                name,
                value,
                between,
                Some(written_then.last()),
            );
        },
    }
}

/// What was put in is found.
proof fn lemma_inserted_is_found(
    known: Map<Seq<u8>, Seq<Entry>>,
    known_then: Map<Seq<u8>, Seq<Entry>>,
    trees: Map<Seq<u8>, Seq<Entry>>,
    root: Option<Seq<u8>>,
    path: Seq<Seq<char>>,
    name: Seq<char>,
    value: Seq<u8>,
    written: Seq<Seq<u8>>,
)
    requires
        known.submap_of(trees),
        known_then.submap_of(trees),
        insertion(known, root, path, name, value) matches Ok(plan) && carried_out(
            trees,
            plan,
            written,
        ),
        removal(known_then, written.last(), path, name) is Ok,
    ensures
        !(removal(known_then, written.last(), path, name)->Ok_0 is NotFound),
{
    let n = path.len();
    lemma_removal_grows(known_then, trees, written.last(), path, name);
    lemma_existing_grows(known, trees, root, path);
    lemma_existing(trees, root, path);
    let chain = existing(trees, root, path)->Ok_0;
    let edits = plan(chain, path.push(name), n, Change::Insert(value));
    lemma_written_chain(trees, chain, path, name, Change::Insert(value), written, 0);
    assert(path.skip(0) =~= path);
    assert(is_written(trees, edits[0], edit_child(edits[0], written.take(0)), written[0]));
    assert(entry_named(trees[written[0]], name) == Some(directory(name, value)));
}

/// Writing an entry puts it in, after what it takes out.
pub proof fn lemma_done_inserts(
    known: Map<Seq<u8>, Seq<Entry>>,
    trees: Map<Seq<u8>, Seq<Entry>>,
    root: Option<Seq<u8>>,
    target: Seq<u8>,
    depths: Seq<nat>,
    level: nat,
    tree: Seq<u8>,
    written: Seq<Seq<u8>>,
    answer: Seq<u8>,
) -> (base: Option<Seq<u8>>)
    requires
        known.submap_of(trees),
        is_kept_to(known, trees, root, target, depths, Some((level, tree)), written),
        progress(known, root, target, depths, Some((level, tree)), written) == Progress::Done(
            Some(answer),
        ),
    ensures
        inserted(
            trees,
            base,
            segments(hex(target), level),
            leaf(hex(target), level),
            tree,
            answer,
        ),
        depths.len() == 0 ==> base == root,
    decreases depths.len(),
{
    let entry = Some((level, tree));
    if depths.len() == 0 {
        let plan = set_plan(known, root, target, tree, level)->Ok_0;
        assert(plan.take(plan.len() as int) =~= plan);
        lemma_insertion_inserts(
            known,
            trees,
            root,
            segments(hex(target), level),
            leaf(hex(target), level),
            tree,
            written,
        );
        root
    } else {
        let rest = depths.drop_first();
        match root {
            None => lemma_done_inserts(
                known,
                trees,
                root,
                target,
                rest,
                level,
                tree,
                written,
                answer,
            ),
            Some(id) => match remove_plan(known, id, target, depths[0])->Ok_0 {
                RemoveResult::NotFound => lemma_done_inserts(
                    known,
                    trees,
                    root,
                    target,
                    rest,
                    level,
                    tree,
                    written,
                    answer,
                ),
                RemoveResult::Empty => lemma_done_inserts(
                    known,
                    trees,
                    None,
                    target,
                    rest,
                    level,
                    tree,
                    written,
                    answer,
                ),
                RemoveResult::Removed(plan) => lemma_done_inserts(
                    known,
                    trees,
                    Some(written[plan.len() - 1]),
                    target,
                    rest,
                    level,
                    tree,
                    written.skip(plan.len() as int),
                    answer,
                ),
            },
        }
    }
}

/// Writing the same entry once more, with `force`, changes nothing: the same root tree
/// is the answer.
pub proof fn law_repeated_set_changes_nothing(
    known: Known,
    known_then: Known,
    trees: Map<Seq<u8>, Seq<Entry>>,
    root: Option<Seq<u8>>,
    target: Seq<u8>,
    tree: Seq<u8>,
    options: MetadataOptions,
    options_then: MetadataOptions,
    answer: Seq<u8>,
    answer_then: Seq<u8>,
)
    requires
        target.len() == 20,
        options.shard_level < 20,
        options_then.force,
        options_then.shard_level == options.shard_level,
        is_addressed(trees),
        fits(known, trees, root),
        set_carried_out(known, trees, target, tree, options),
        set_step(known, target, tree, options) == Step::<Request, Result<Seq<u8>, Error>>::Return(
            Ok(answer),
        ),
        fits(known_then, trees, Some(answer)),
        set_carried_out(known_then, trees, target, tree, options_then),
        set_step(known_then, target, tree, options_then) == Step::<
            Request,
            Result<Seq<u8>, Error>,
        >::Return(Ok(answer_then)),
    ensures
        answer_then == answer,
{
    let level = options.shard_level as nat;
    let path = segments(hex(target), level);
    let name = leaf(hex(target), level);
    lemma_set_done(known, trees, root, target, tree, options, answer);
    lemma_set_done(known_then, trees, Some(answer), target, tree, options_then, answer_then);
    let depths = replaced(known, root, target, options)->Ok_0->0;
    let depths_then = replaced(known_then, Some(answer), target, options_then)->Ok_0->0;
    if depths_then.len() > 0 {
        let depth = depths_then[0];
        lemma_replaced(known_then, trees, Some(answer), target, options_then, 0);
        assert(depths_then.contains(depth));
        lemma_replaced(known_then, trees, Some(answer), target, options_then, depth);
        law_set_leaves_one_entry(known, trees, root, target, tree, options, answer, depth);
    }
    let base = lemma_done_inserts(
        known.trees,
        trees,
        root,
        target,
        depths,
        level,
        tree,
        known.written,
        answer,
    );
    let then = lemma_done_inserts(
        known_then.trees,
        trees,
        Some(answer),
        target,
        depths_then,
        level,
        tree,
        known_then.written,
        answer_then,
    );
    lemma_inserted_again(
        trees,
        base,
        path,
        name,
        tree,
        tree,
        answer,
        answer_then,
        answer,
    );
}

/// Carrying out a plan writes the same trees whenever it is done.
proof fn lemma_carried_once(
    trees: Map<Seq<u8>, Seq<Entry>>,
    plan: Seq<Edit>,
    one: Seq<Seq<u8>>,
    other: Seq<Seq<u8>>,
    k: int,
)
    requires
        is_addressed(trees),
        carried_out(trees, plan, one),
        carried_out(trees, plan, other),
        0 <= k <= plan.len(),
    ensures
        one.take(k) == other.take(k),
    decreases k,
{
    if k > 0 {
        let edit = plan[k - 1];
        lemma_carried_once(trees, plan, one, other, k - 1);
        assert(is_written(trees, edit, edit_child(edit, one.take(k - 1)), one[k - 1]));
        assert(is_written(trees, edit, edit_child(edit, other.take(k - 1)), other[k - 1]));
        assert(same_entries(trees[one[k - 1]], trees[other[k - 1]]));
        assert(one.take(k) =~= one.take(k - 1).push(one[k - 1]));
        assert(other.take(k) =~= other.take(k - 1).push(other[k - 1]));
    }
}

/// Two writes that take out the same put in their entries on the same tree.
proof fn lemma_inserted_on_one_base(
    known: Map<Seq<u8>, Seq<Entry>>,
    known_alone: Map<Seq<u8>, Seq<Entry>>,
    trees: Map<Seq<u8>, Seq<Entry>>,
    root: Option<Seq<u8>>,
    target: Seq<u8>,
    depths: Seq<nat>,
    level: nat,
    first: Seq<u8>,
    second: Seq<u8>,
    written: Seq<Seq<u8>>,
    written_alone: Seq<Seq<u8>>,
    answer: Seq<u8>,
    answer_alone: Seq<u8>,
) -> (base: Option<Seq<u8>>)
    requires
        is_addressed(trees),
        known.submap_of(trees),
        known_alone.submap_of(trees),
        is_kept_to(known, trees, root, target, depths, Some((level, first)), written),
        progress(known, root, target, depths, Some((level, first)), written) == Progress::Done(
            Some(answer),
        ),
        is_kept_to(
            known_alone,
            trees,
            root,
            target,
            depths,
            Some((level, second)),
            written_alone,
        ),
        progress(known_alone, root, target, depths, Some((level, second)), written_alone)
            == Progress::Done(Some(answer_alone)),
    ensures
        inserted(
            trees,
            base,
            segments(hex(target), level),
            leaf(hex(target), level),
            first,
            answer,
        ),
        inserted(
            trees,
            base,
            segments(hex(target), level),
            leaf(hex(target), level),
            second,
            answer_alone,
        ),
    decreases depths.len(),
{
    let path = segments(hex(target), level);
    let name = leaf(hex(target), level);
    if depths.len() == 0 {
        let plan = set_plan(known, root, target, first, level)->Ok_0;
        let plan_alone = set_plan(known_alone, root, target, second, level)->Ok_0;
        assert(plan.take(plan.len() as int) =~= plan);
        assert(plan_alone.take(plan_alone.len() as int) =~= plan_alone);
        lemma_insertion_inserts(known, trees, root, path, name, first, written);
        lemma_insertion_inserts(known_alone, trees, root, path, name, second, written_alone);
        root
    } else {
        let rest = depths.drop_first();
        let (top, n) = match root {
            None => (None, 0),
            Some(id) => {
                let way = segments(hex(target), depths[0]);
                let called = leaf(hex(target), depths[0]);
                lemma_removal_grows(known, trees, id, way, called);
                lemma_removal_grows(known_alone, trees, id, way, called);
                match remove_plan(known, id, target, depths[0])->Ok_0 {
                    RemoveResult::NotFound => (root, 0),
                    RemoveResult::Empty => (None, 0),
                    RemoveResult::Removed(plan) => {
                        let n = plan.len() as int;
                        let one = written.take(n);
                        let other = written_alone.take(n);
                        lemma_carried_once(trees, plan, one, other, n);
                        assert(one.take(n) =~= one && other.take(n) =~= other);
                        assert(one[n - 1] == written[n - 1]);
                        assert(other[n - 1] == written_alone[n - 1]);
                        (Some(written[n - 1]), n)
                    },
                }
            },
        };
        assert(written.skip(0) =~= written);
        assert(written_alone.skip(0) =~= written_alone);
        lemma_inserted_on_one_base(
            known,
            known_alone,
            trees,
            top,
            target,
            rest,
            level,
            first,
            second,
            written.skip(n),
            written_alone.skip(n),
            answer,
            answer_alone,
        )
    }
}

/// The last write of an entry wins: written with `force` over an entry of the same
/// depth, it gives the root tree that it gives alone.
pub proof fn law_last_set_wins(
    known: Known,
    known_then: Known,
    known_alone: Known,
    trees: Map<Seq<u8>, Seq<Entry>>,
    root: Option<Seq<u8>>,
    target: Seq<u8>,
    first: Seq<u8>,
    second: Seq<u8>,
    options: MetadataOptions,
    answer: Seq<u8>,
    answer_then: Seq<u8>,
    answer_alone: Seq<u8>,
)
    requires
        target.len() == 20,
        options.shard_level < 20,
        options.force,
        is_addressed(trees),
        fits(known, trees, root),
        set_carried_out(known, trees, target, first, options),
        set_step(known, target, first, options) == Step::<Request, Result<Seq<u8>, Error>>::Return(
            Ok(answer),
        ),
        fits(known_then, trees, Some(answer)),
        set_carried_out(known_then, trees, target, second, options),
        set_step(known_then, target, second, options) == Step::<
            Request,
            Result<Seq<u8>, Error>,
        >::Return(Ok(answer_then)),
        fits(known_alone, trees, root),
        set_carried_out(known_alone, trees, target, second, options),
        set_step(known_alone, target, second, options) == Step::<
            Request,
            Result<Seq<u8>, Error>,
        >::Return(Ok(answer_alone)),
    ensures
        answer_then == answer_alone,
{
    let level = options.shard_level as nat;
    lemma_set_done(known, trees, root, target, first, options, answer);
    lemma_set_done(known_then, trees, Some(answer), target, second, options, answer_then);
    lemma_set_done(known_alone, trees, root, target, second, options, answer_alone);
    let depths = replaced(known, root, target, options)->Ok_0->0;
    if let Some(id) = root {
        let keep = Some(level);
        lemma_sweep_is_held(known.trees, known.lacking, trees, id, target, 0, keep);
        lemma_sweep_is_held(known_alone.trees, known_alone.lacking, trees, id, target, 0, keep);
    }
    let depths_then = replaced(known_then, Some(answer), target, options)->Ok_0->0;
    if depths_then.len() > 0 {
        let depth = depths_then[0];
        lemma_replaced(known_then, trees, Some(answer), target, options, 0);
        assert(depths_then.contains(depth));
        lemma_replaced(known_then, trees, Some(answer), target, options, depth);
        law_set_leaves_one_entry(known, trees, root, target, first, options, answer, depth);
    }
    let base = lemma_inserted_on_one_base(
        known.trees,
        known_alone.trees,
        trees,
        root,
        target,
        depths,
        level,
        first,
        second,
        known.written,
        known_alone.written,
        answer,
        answer_alone,
    );
    let then = lemma_done_inserts(
        known_then.trees,
        trees,
        Some(answer),
        target,
        depths_then,
        level,
        second,
        known_then.written,
        answer_then,
    );
    lemma_inserted_again(
        trees,
        base,
        segments(hex(target), level),
        leaf(hex(target), level),
        first,
        second,
        answer,
        answer_then,
        answer_alone,
    );
}

/// Removing undoes writing in full: an entry written for a target that had none, and
/// then removed, leaves the root tree that was there before, and no index where there
/// was none, or an empty one. At the place of the entry there was nothing else, and
/// no directory on the way was empty.
pub proof fn law_remove_gives_back_the_root(
    before: Known,
    between: Known,
    trees: Map<Seq<u8>, Seq<Entry>>,
    root: Option<Seq<u8>>,
    target: Seq<u8>,
    tree: Seq<u8>,
    options: MetadataOptions,
    answer: Seq<u8>,
    after: Option<Seq<u8>>,
)
    requires
        target.len() == 20,
        options.shard_level < 20,
        is_sound(trees),
        is_addressed(trees),
        lookup(trees, root, hex(target)) == Ok::<Option<(nat, Seq<u8>)>, Seq<u8>>(None),
        is_clear(
            trees,
            root,
            segments(hex(target), options.shard_level as nat),
            leaf(hex(target), options.shard_level as nat),
        ),
        fits(before, trees, root),
        set_carried_out(before, trees, target, tree, options),
        set_step(before, target, tree, options) == Step::<Request, Result<Seq<u8>, Error>>::Return(
            Ok(answer),
        ),
        fits(between, trees, Some(answer)),
        remove_carried_out(between, trees, target, after),
    ensures
        after == if entries_of(trees, root).len() == 0 {
            None
        } else {
            root
        },
{
    let level = options.shard_level as nat;
    let path = segments(hex(target), level);
    let name = leaf(hex(target), level);
    law_lookup_is_least_depth(trees, root, target);
    lemma_set_done(before, trees, root, target, tree, options, answer);
    lemma_replaced(before, trees, root, target, options, 0);
    let depths = replaced(before, root, target, options)->Ok_0->0;
    if depths.len() > 0 {
        let depth = depths[0];
        assert(depths.contains(depth));
        lemma_replaced(before, trees, root, target, options, depth);
        assert(cell(trees, root, target, depth) == Ok::<Option<Seq<u8>>, Seq<u8>>(None));
    }
    let plan = set_plan(before.trees, root, target, tree, level)->Ok_0;
    assert(plan.take(plan.len() as int) =~= plan);
    assert(before.written.last() == answer);
    law_get_after_set(before, trees, root, target, tree, options, answer);
    assert forall|depth: nat| depth < 20 && depth != level implies !(#[trigger] cell(
        trees,
        Some(answer),
        target,
        depth,
    ) matches Ok(Some(_))) by {
        law_set_leaves_one_entry(before, trees, root, target, tree, options, answer, depth);
    }
    lemma_one_entry_is_occupied(between, trees, answer, target, level, tree);
    let held = occupied(between, Some(answer), target)->Ok_0;
    assert(held == seq![level]);
    assert(held.drop_first() =~= Seq::empty());
    reveal_with_fuel(progress, 2);
    reveal_with_fuel(is_kept_to, 2);
    let result = remove_plan(between.trees, answer, target, level)->Ok_0;
    let written_then = match result {
        RemoveResult::Removed(edits) => between.written.take(edits.len() as int),
        _ => Seq::empty(),
    };
    law_removal_undoes_insertion(
        before.trees,
        between.trees,
        trees,
        root,
        path,
        name,
        tree,
        before.written,
        written_then,
    );
}

} // verus!
