//! What listing the index has to do with reading it.

use vstd::prelude::*;

use crate::fanout::{is_fanout, leaf, probe, segments};
use crate::index::{lookup, set_step, Error, Known, MetadataOptions};
use crate::laws::{cell, fits, is_sound, law_lookup_is_least_depth, lemma_found_entry};
use crate::listing::{
    entries_listing, entry_listing, index_listing, is_canonical, is_directory, listing,
    name_or_empty,
};
use crate::oid::{hex, law_oid_round_trip, lemma_hex_digits, spelled};
use crate::operation_laws::{
    law_remove_keeps_other_targets, law_remove_leaves_nothing, law_set_keeps_other_targets,
    law_set_leaves_one_entry, lemma_unforced_had_none, remove_carried_out, set_carried_out,
};
use crate::step::{Request, Step};
use crate::tree::{entry_named, is_tree, Entry};

verus! {

/// At how many depths from `from` on the index with root tree `root` holds the tree
/// `tree` for `target`.
pub open spec fn held_count(
    trees: Map<Seq<u8>, Seq<Entry>>,
    root: Option<Seq<u8>>,
    target: Seq<u8>,
    tree: Seq<u8>,
    from: nat,
) -> nat
    decreases 20 - from,
{
    if from >= 20 {
        0
    } else {
        let here: nat = if cell(trees, root, target, from) == Ok::<Option<Seq<u8>>, Seq<u8>>(
            Some(tree),
        ) {
            1
        } else {
            0
        };
        here + held_count(trees, root, target, tree, from + 1)
    }
}

/// How often `items` holds `item`.
pub open spec fn occurrences(items: Seq<(Seq<u8>, Seq<u8>)>, item: (Seq<u8>, Seq<u8>)) -> nat {
    items.to_multiset().count(item)
}

/// What an entry that is found under the digits that are left counts for.
spec fn leaf_part(entry: Option<Entry>, tree: Seq<u8>) -> nat {
    match entry {
        Some(entry) => if is_tree(entry) && entry.id == tree {
            1
        } else {
            0
        },
        None => 0,
    }
}

/// What an entry that is found under the next two digits counts for.
spec fn directory_part(
    trees: Map<Seq<u8>, Seq<Entry>>,
    entry: Option<Entry>,
    digits: Seq<char>,
    tree: Seq<u8>,
) -> nat
    decreases digits.len(), 2nat,
{
    match entry {
        Some(entry) => if is_tree(entry) {
            places(trees, entry.id, digits, tree)
        } else {
            0
        },
        None => 0,
    }
}

/// At how many places below the tree `id` the tree `tree` stands under `digits`.
spec fn places(
    trees: Map<Seq<u8>, Seq<Entry>>,
    id: Seq<u8>,
    digits: Seq<char>,
    tree: Seq<u8>,
) -> nat
    decreases digits.len(), 1nat,
{
    if !trees.contains_key(id) {
        0
    } else {
        leaf_part(entry_named(trees[id], digits), tree) + if digits.len() > 2 {
            directory_part(
                trees,
                entry_named(trees[id], digits.take(2)),
                digits.skip(2),
                tree,
            )
        } else {
            0
        }
    }
}

/// Whether `digits` begin with `prefix`.
spec fn follows(digits: Seq<char>, prefix: Seq<char>) -> bool {
    prefix.len() <= digits.len() && digits.take(prefix.len() as int) == prefix
}

/// Whether no two entries have the same name.
spec fn is_distinct(entries: Seq<Entry>) -> bool {
    forall|i: int, j: int|
        0 <= i < j < entries.len() && (#[trigger] entries[i]).name is Some ==> entries[i].name != (
        #[trigger] entries[j]).name
}

proof fn lemma_occurrences_add(
    one: Seq<(Seq<u8>, Seq<u8>)>,
    other: Seq<(Seq<u8>, Seq<u8>)>,
    item: (Seq<u8>, Seq<u8>),
)
    ensures
        occurrences(one + other, item) == occurrences(one, item) + occurrences(other, item),
{
    vstd::seq_lib::lemma_multiset_commutative(one, other);
}

proof fn lemma_occurrences_none(item: (Seq<u8>, Seq<u8>))
    ensures
        occurrences(Seq::empty(), item) == 0,
{
    broadcast use vstd::seq_lib::group_to_multiset_ensures;

    assert(!Seq::<(Seq<u8>, Seq<u8>)>::empty().contains(item));
}

proof fn lemma_occurrences_one(only: (Seq<u8>, Seq<u8>), item: (Seq<u8>, Seq<u8>))
    ensures
        occurrences(seq![only], item) == if only == item {
            1nat
        } else {
            0
        },
{
    broadcast use vstd::seq_lib::group_to_multiset_ensures;

    assert(seq![only] =~= Seq::<(Seq<u8>, Seq<u8>)>::empty().push(only));
    lemma_occurrences_none(item);
}

proof fn lemma_occurs_if_contained(items: Seq<(Seq<u8>, Seq<u8>)>, item: (Seq<u8>, Seq<u8>))
    ensures
        items.contains(item) <==> occurrences(items, item) > 0,
{
    broadcast use vstd::seq_lib::group_to_multiset_ensures;

}

/// How often one entry lists a pair.
proof fn lemma_entry_count(
    trees: Map<Seq<u8>, Seq<Entry>>,
    prefix: Seq<char>,
    entry: Entry,
    target: Seq<u8>,
    tree: Seq<u8>,
)
    requires
        is_sound(trees),
        target.len() == 20,
        prefix.len() <= 38,
        prefix.len() % 2 == 0,
    ensures
        occurrences(entry_listing(trees, prefix, entry), (target, tree)) == if !follows(
            hex(target),
            prefix,
        ) || entry.name is None {
            0nat
        } else {
            let rest = hex(target).skip(prefix.len() as int);
            if entry.name->0 == rest {
                leaf_part(Some(entry), tree)
            } else if rest.len() > 2 && entry.name->0 == rest.take(2) {
                directory_part(trees, Some(entry), rest.skip(2), tree)
            } else {
                0
            }
        },
    decreases 40 - prefix.len(), 0nat, 0nat,
{
    let pair = (target, tree);
    let digits = hex(target);
    let rest = digits.skip(prefix.len() as int);
    let name = name_or_empty(entry);
    let full = prefix + name;
    lemma_hex_digits(target);
    law_oid_round_trip(target);
    lemma_occurrences_none(pair);
    if is_directory(prefix, entry) {
        lemma_listing_count(trees, entry.id, full, target, tree);
        if follows(digits, full) {
            assert(digits.take(prefix.len() as int) =~= full.take(prefix.len() as int));
            assert(full.take(prefix.len() as int) =~= prefix);
            assert(rest.take(2) =~= name) by {
                assert forall|i: int| 0 <= i < 2 implies rest[i] == name[i] by {
                    assert(digits.take(full.len() as int)[prefix.len() + i] == full[prefix.len()
                        + i]);
                }
            }
            assert(rest.skip(2) =~= digits.skip(full.len() as int));
        }
        if follows(digits, prefix) && rest.take(2) == name {
            assert(digits.take(full.len() as int) =~= full) by {
                assert forall|i: int| 0 <= i < full.len() implies digits[i] == full[i] by {
                    if i < prefix.len() {
                        assert(digits.take(prefix.len() as int)[i] == prefix[i]);
                    } else {
                        assert(rest.take(2)[i - prefix.len()] == name[i - prefix.len()]);
                    }
                }
            }
            assert(rest.skip(2) =~= digits.skip(full.len() as int));
        }
        assert(entry.name is Some);
        assert(name != rest);
    } else {
        lemma_occurrences_one((spelled(full), entry.id), pair);
        if is_canonical(full) {
            lemma_hex_digits(spelled(full));
            assert(full.len() == 40);
            assert(entry.name is Some);
            if spelled(full) == target {
                assert(digits == full);
                assert(full.take(prefix.len() as int) =~= prefix);
                assert(full.skip(prefix.len() as int) =~= name);
            }
        }
        if follows(digits, prefix) && entry.name is Some && name == rest {
            assert(full =~= digits);
        }
        if follows(digits, prefix) && rest.len() > 2 && entry.name is Some && name == rest.take(2) {
            assert(rest.take(2)[0] == digits[prefix.len() as int] && rest.take(2)[1]
                == digits[prefix.len() as int + 1]);
            assert(is_fanout(name));
            assert(!is_tree(entry));
        }
    }
}

/// How often some entries list a pair.
proof fn lemma_entries_count(
    trees: Map<Seq<u8>, Seq<Entry>>,
    entries: Seq<Entry>,
    prefix: Seq<char>,
    target: Seq<u8>,
    tree: Seq<u8>,
)
    requires
        is_sound(trees),
        is_distinct(entries),
        target.len() == 20,
        prefix.len() <= 38,
        prefix.len() % 2 == 0,
    ensures
        occurrences(entries_listing(trees, entries, prefix), (target, tree)) == if !follows(
            hex(target),
            prefix,
        ) {
            0nat
        } else {
            let rest = hex(target).skip(prefix.len() as int);
            leaf_part(entry_named(entries, rest), tree) + if rest.len() > 2 {
                directory_part(trees, entry_named(entries, rest.take(2)), rest.skip(2), tree)
            } else {
                0
            }
        },
    decreases 40 - prefix.len(), 1nat, entries.len(),
{
    let pair = (target, tree);
    if entries.len() == 0 {
        lemma_occurrences_none(pair);
    } else {
        let rest = hex(target).skip(prefix.len() as int);
        let tail = entries.drop_first();
        let first = entries[0];
        assert(is_distinct(tail)) by {
            assert forall|i: int, j: int|
                0 <= i < j < tail.len() && (#[trigger] tail[i]).name is Some implies tail[i].name
                != (#[trigger] tail[j]).name by {
                assert(tail[i] == entries[i + 1] && tail[j] == entries[j + 1]);
            }
        }
        lemma_entry_count(trees, prefix, first, target, tree);
        lemma_entries_count(trees, tail, prefix, target, tree);
        lemma_occurrences_add(
            entry_listing(trees, prefix, first),
            entries_listing(trees, tail, prefix),
            pair,
        );
        lemma_hex_digits(target);
        if let Some(name) = first.name {
            if entry_named(tail, name) is Some {
                let i = lemma_found_entry(tail, name);
                assert(entries[i + 1] == tail[i]);
                assert(entries[0].name != entries[i + 1].name);
            }
        }
    }
}

/// How often a tree lists a pair.
proof fn lemma_listing_count(
    trees: Map<Seq<u8>, Seq<Entry>>,
    id: Seq<u8>,
    prefix: Seq<char>,
    target: Seq<u8>,
    tree: Seq<u8>,
)
    requires
        is_sound(trees),
        target.len() == 20,
        prefix.len() <= 38,
        prefix.len() % 2 == 0,
    ensures
        occurrences(listing(trees, id, prefix), (target, tree)) == if !follows(
            hex(target),
            prefix,
        ) {
            0nat
        } else {
            places(trees, id, hex(target).skip(prefix.len() as int), tree)
        },
    decreases 40 - prefix.len(), 2nat, 0nat,
{
    if trees.contains_key(id) {
        assert(is_distinct(trees[id]));
        lemma_entries_count(trees, trees[id], prefix, target, tree);
    } else {
        lemma_occurrences_none((target, tree));
    }
}

/// At how many depths from `from` on `tree` stands for `digits`.
spec fn probe_count(
    trees: Map<Seq<u8>, Seq<Entry>>,
    id: Seq<u8>,
    digits: Seq<char>,
    tree: Seq<u8>,
    from: nat,
) -> nat
    decreases digits.len() / 2 - from,
{
    if from >= digits.len() / 2 {
        0
    } else {
        let here: nat = if probe(trees, id, digits, from) == Ok::<Option<Seq<u8>>, Seq<u8>>(
            Some(tree),
        ) {
            1
        } else {
            0
        };
        here + probe_count(trees, id, digits, tree, from + 1)
    }
}

/// One directory down, what stands for `digits` stands for the digits after the
/// first two.
pub proof fn lemma_probe_below(
    trees: Map<Seq<u8>, Seq<Entry>>,
    id: Seq<u8>,
    digits: Seq<char>,
    depth: nat,
)
    requires
        trees.contains_key(id),
        2 * (depth + 1) <= digits.len(),
    ensures
        probe(trees, id, digits, depth + 1) == (match entry_named(trees[id], digits.take(2)) {
            Some(entry) => probe(trees, entry.id, digits.skip(2), depth),
            None => Ok(None),
        }),
{
    let path = segments(digits, depth + 1);
    let rest = digits.skip(2);
    assert(path[0] =~= digits.take(2));
    assert(path.drop_first() =~= segments(rest, depth)) by {
        assert forall|k: int| 0 <= k < depth implies path.drop_first()[k] == segments(
            rest,
            depth,
        )[k] by {
            assert(digits.subrange(2 * (k + 1), 2 * (k + 1) + 2) =~= rest.subrange(
                2 * k,
                2 * k + 2,
            ));
        }
    }
    assert(leaf(digits, depth + 1) =~= leaf(rest, depth));
}

proof fn lemma_probe_count_below(
    trees: Map<Seq<u8>, Seq<Entry>>,
    id: Seq<u8>,
    digits: Seq<char>,
    tree: Seq<u8>,
    from: nat,
)
    requires
        trees.contains_key(id),
        digits.len() >= 2,
        digits.len() % 2 == 0,
    ensures
        probe_count(trees, id, digits, tree, from + 1) == (match entry_named(
            trees[id],
            digits.take(2),
        ) {
            Some(entry) => probe_count(trees, entry.id, digits.skip(2), tree, from),
            None => 0,
        }),
    decreases digits.len() / 2 - from,
{
    if from + 1 < digits.len() / 2 {
        lemma_probe_below(trees, id, digits, from);
        lemma_probe_count_below(trees, id, digits, tree, from + 1);
    }
}

proof fn lemma_probe_count_missing(
    trees: Map<Seq<u8>, Seq<Entry>>,
    id: Seq<u8>,
    digits: Seq<char>,
    tree: Seq<u8>,
    from: nat,
)
    requires
        !trees.contains_key(id),
    ensures
        probe_count(trees, id, digits, tree, from) == 0,
    decreases digits.len() / 2 - from,
{
    if from < digits.len() / 2 {
        lemma_probe_count_missing(trees, id, digits, tree, from + 1);
    }
}

/// There is a place for every depth at which a tree stands.
proof fn lemma_places_are_depths(
    trees: Map<Seq<u8>, Seq<Entry>>,
    id: Seq<u8>,
    digits: Seq<char>,
    tree: Seq<u8>,
)
    requires
        is_sound(trees),
        digits.len() >= 2,
        digits.len() % 2 == 0,
    ensures
        places(trees, id, digits, tree) == probe_count(trees, id, digits, tree, 0),
    decreases digits.len(),
{
    if trees.contains_key(id) {
        assert(segments(digits, 0) =~= Seq::empty());
        assert(leaf(digits, 0) =~= digits);
        lemma_probe_count_below(trees, id, digits, tree, 0);
        let next = entry_named(trees[id], digits.take(2));
        if digits.len() > 2 {
            if let Some(entry) = next {
                let i = lemma_found_entry(trees[id], digits.take(2));
                assert(trees[id][i] == entry);
                lemma_places_are_depths(trees, entry.id, digits.skip(2), tree);
                if !trees.contains_key(entry.id) {
                    lemma_probe_count_missing(trees, entry.id, digits.skip(2), tree, 0);
                }
            }
        } else {
            assert(probe_count(trees, id, digits, tree, 1) == 0);
        }
    } else {
        lemma_probe_count_missing(trees, id, digits, tree, 0);
    }
}

proof fn lemma_probes_are_cells(
    trees: Map<Seq<u8>, Seq<Entry>>,
    root: Seq<u8>,
    target: Seq<u8>,
    tree: Seq<u8>,
    from: nat,
)
    requires
        target.len() == 20,
    ensures
        probe_count(trees, root, hex(target), tree, from) == held_count(
            trees,
            Some(root),
            target,
            tree,
            from,
        ),
    decreases 20 - from,
{
    lemma_hex_digits(target);
    if from < 20 {
        lemma_probes_are_cells(trees, root, target, tree, from + 1);
    }
}

/// Listing gives what the index holds: the list of an index holds a target and a
/// tree once for every depth at which the index holds that tree for that target.
pub proof fn law_listed_once_per_depth(
    trees: Map<Seq<u8>, Seq<Entry>>,
    root: Option<Seq<u8>>,
    target: Seq<u8>,
    tree: Seq<u8>,
)
    requires
        target.len() == 20,
        is_sound(trees),
    ensures
        occurrences(index_listing(trees, root), (target, tree)) == held_count(
            trees,
            root,
            target,
            tree,
            0,
        ),
{
    lemma_hex_digits(target);
    match root {
        Some(id) => {
            lemma_listing_count(trees, id, Seq::empty(), target, tree);
            assert(hex(target).take(0) =~= Seq::empty());
            assert(hex(target).skip(0) =~= hex(target));
            lemma_places_are_depths(trees, id, hex(target), tree);
            lemma_probes_are_cells(trees, id, target, tree, 0);
        },
        None => {
            lemma_occurrences_none((target, tree));
            lemma_held_count_none(trees, root, target, tree, 0);
        },
    }
}

/// Where an index holds a tree at no depth, it holds it at none.
proof fn lemma_held_count_none(
    trees: Map<Seq<u8>, Seq<Entry>>,
    root: Option<Seq<u8>>,
    target: Seq<u8>,
    tree: Seq<u8>,
    from: nat,
)
    requires
        forall|depth: nat|
            from <= depth < 20 ==> #[trigger] cell(trees, root, target, depth) != Ok::<
                Option<Seq<u8>>,
                Seq<u8>,
            >(Some(tree)),
    ensures
        held_count(trees, root, target, tree, from) == 0,
    decreases 20 - from,
{
    if from < 20 {
        lemma_held_count_none(trees, root, target, tree, from + 1);
    }
}

/// Where an index holds a tree at some depth, it holds it at one at least.
proof fn lemma_held_count_some(
    trees: Map<Seq<u8>, Seq<Entry>>,
    root: Option<Seq<u8>>,
    target: Seq<u8>,
    tree: Seq<u8>,
    from: nat,
    depth: nat,
)
    requires
        from <= depth < 20,
        cell(trees, root, target, depth) == Ok::<Option<Seq<u8>>, Seq<u8>>(Some(tree)),
    ensures
        held_count(trees, root, target, tree, from) >= 1,
        (forall|other: nat|
            from <= other < 20 && other != depth ==> #[trigger] cell(trees, root, target, other)
                != Ok::<Option<Seq<u8>>, Seq<u8>>(Some(tree))) ==> held_count(
            trees,
            root,
            target,
            tree,
            from,
        ) == 1,
    decreases 20 - from,
{
    if from < depth {
        lemma_held_count_some(trees, root, target, tree, from + 1, depth);
    } else if forall|other: nat|
        from <= other < 20 && other != depth ==> #[trigger] cell(trees, root, target, other)
            != Ok::<Option<Seq<u8>>, Seq<u8>>(Some(tree)) {
        lemma_held_count_none(trees, root, target, tree, from + 1);
    }
}

/// Two indexes that hold the same for a target hold a tree at as many depths.
proof fn lemma_held_count_same(
    trees: Map<Seq<u8>, Seq<Entry>>,
    one: Option<Seq<u8>>,
    other: Option<Seq<u8>>,
    target: Seq<u8>,
    tree: Seq<u8>,
    from: nat,
)
    requires
        forall|depth: nat|
            from <= depth < 20 ==> #[trigger] cell(trees, one, target, depth) == cell(
                trees,
                other,
                target,
                depth,
            ),
    ensures
        held_count(trees, one, target, tree, from) == held_count(trees, other, target, tree, from),
    decreases 20 - from,
{
    if from < 20 {
        assert(cell(trees, one, target, from) == cell(trees, other, target, from));
        lemma_held_count_same(trees, one, other, target, tree, from + 1);
    }
}

/// The list of an index holds a target and a tree if and only if the index holds that
/// tree for that target at some depth.
pub proof fn law_listed_if_and_only_if_held(
    trees: Map<Seq<u8>, Seq<Entry>>,
    root: Option<Seq<u8>>,
    target: Seq<u8>,
    tree: Seq<u8>,
)
    requires
        target.len() == 20,
        is_sound(trees),
    ensures
        index_listing(trees, root).contains((target, tree)) <==> exists|depth: nat|
            depth < 20 && #[trigger] cell(trees, root, target, depth) == Ok::<
                Option<Seq<u8>>,
                Seq<u8>,
            >(Some(tree)),
{
    law_listed_once_per_depth(trees, root, target, tree);
    lemma_occurs_if_contained(index_listing(trees, root), (target, tree));
    if exists|depth: nat|
        depth < 20 && #[trigger] cell(trees, root, target, depth) == Ok::<
            Option<Seq<u8>>,
            Seq<u8>,
        >(Some(tree)) {
        let depth = choose|depth: nat|
            depth < 20 && #[trigger] cell(trees, root, target, depth) == Ok::<
                Option<Seq<u8>>,
                Seq<u8>,
            >(Some(tree));
        lemma_held_count_some(trees, root, target, tree, 0, depth);
    } else {
        lemma_held_count_none(trees, root, target, tree, 0);
    }
}

/// What reading a target finds is listed.
pub proof fn law_what_is_found_is_listed(
    trees: Map<Seq<u8>, Seq<Entry>>,
    root: Option<Seq<u8>>,
    target: Seq<u8>,
)
    requires
        target.len() == 20,
        is_sound(trees),
    ensures
        lookup(trees, root, hex(target)) matches Ok(Some((_, tree))) ==> index_listing(
            trees,
            root,
        ).contains((target, tree)),
{
    law_lookup_is_least_depth(trees, root, target);
    if let Ok(Some((depth, tree))) = lookup(trees, root, hex(target)) {
        law_listed_if_and_only_if_held(trees, root, target, tree);
        assert(cell(trees, root, target, depth) == Ok::<Option<Seq<u8>>, Seq<u8>>(Some(tree)));
    }
}

/// Only ids are listed.
proof fn lemma_targets_are_ids(
    trees: Map<Seq<u8>, Seq<Entry>>,
    id: Seq<u8>,
    prefix: Seq<char>,
    item: (Seq<u8>, Seq<u8>),
)
    requires
        item.0.len() != 20,
    ensures
        occurrences(listing(trees, id, prefix), item) == 0,
    decreases 40 - prefix.len(), 1nat, 0nat,
{
    lemma_occurrences_none(item);
    if trees.contains_key(id) {
        lemma_entries_targets_are_ids(trees, trees[id], prefix, item);
    }
}

proof fn lemma_entries_targets_are_ids(
    trees: Map<Seq<u8>, Seq<Entry>>,
    entries: Seq<Entry>,
    prefix: Seq<char>,
    item: (Seq<u8>, Seq<u8>),
)
    requires
        item.0.len() != 20,
    ensures
        occurrences(entries_listing(trees, entries, prefix), item) == 0,
    decreases 40 - prefix.len(), 0nat, entries.len(),
{
    lemma_occurrences_none(item);
    if entries.len() > 0 {
        let first = entries[0];
        let tail = entries.drop_first();
        lemma_entries_targets_are_ids(trees, tail, prefix, item);
        lemma_occurrences_add(
            entry_listing(trees, prefix, first),
            entries_listing(trees, tail, prefix),
            item,
        );
        let full = prefix + name_or_empty(first);
        if is_directory(prefix, first) {
            lemma_targets_are_ids(trees, first.id, full, item);
        } else {
            lemma_occurrences_one((spelled(full), first.id), item);
        }
    }
}

/// Writing an entry changes the list for its target alone: it holds the target once,
/// with the tree that was written, and every other target as often as before, with
/// the trees that it had.
pub proof fn law_list_after_set(
    known: Known,
    trees: Map<Seq<u8>, Seq<Entry>>,
    root: Option<Seq<u8>>,
    target: Seq<u8>,
    tree: Seq<u8>,
    options: MetadataOptions,
    answer: Seq<u8>,
    item: (Seq<u8>, Seq<u8>),
)
    requires
        target.len() == 20,
        options.shard_level < 20,
        is_sound(trees),
        fits(known, trees, root),
        set_carried_out(known, trees, target, tree, options),
        set_step(known, target, tree, options) == Step::<Request, Result<Seq<u8>, Error>>::Return(
            Ok(answer),
        ),
    ensures
        occurrences(index_listing(trees, Some(answer)), item) == if item.0 == target {
            if item.1 == tree {
                1nat
            } else {
                0
            }
        } else {
            occurrences(index_listing(trees, root), item)
        },
{
    let level = options.shard_level as nat;
    if item.0.len() != 20 {
        lemma_targets_are_ids(trees, answer, Seq::empty(), item);
        lemma_occurrences_none(item);
        if let Some(id) = root {
            lemma_targets_are_ids(trees, id, Seq::empty(), item);
        }
    } else {
        law_listed_once_per_depth(trees, Some(answer), item.0, item.1);
        law_listed_once_per_depth(trees, root, item.0, item.1);
        if item.0 == target {
            assert forall|depth: nat| depth < 20 && depth != level implies #[trigger] cell(
                trees,
                Some(answer),
                target,
                depth,
            ) != Ok::<Option<Seq<u8>>, Seq<u8>>(Some(item.1)) by {
                law_set_leaves_one_entry(
                    known,
                    trees,
                    root,
                    target,
                    tree,
                    options,
                    answer,
                    depth,
                );
            }
            law_set_leaves_one_entry(known, trees, root, target, tree, options, answer, level);
            if item.1 == tree {
                lemma_held_count_some(trees, Some(answer), target, tree, 0, level);
            } else {
                lemma_held_count_none(trees, Some(answer), target, item.1, 0);
            }
        } else {
            law_set_keeps_other_targets(
                known,
                trees,
                root,
                target,
                tree,
                options,
                answer,
                item.0,
            );
            lemma_held_count_same(trees, Some(answer), root, item.0, item.1, 0);
        }
    }
}

/// Writing an entry that is not to overwrite adds one pair to the list and changes
/// nothing else about it but the order.
pub proof fn law_unforced_set_adds_one_pair(
    known: Known,
    trees: Map<Seq<u8>, Seq<Entry>>,
    root: Option<Seq<u8>>,
    target: Seq<u8>,
    tree: Seq<u8>,
    options: MetadataOptions,
    answer: Seq<u8>,
)
    requires
        target.len() == 20,
        options.shard_level < 20,
        !options.force,
        is_sound(trees),
        fits(known, trees, root),
        set_carried_out(known, trees, target, tree, options),
        set_step(known, target, tree, options) == Step::<Request, Result<Seq<u8>, Error>>::Return(
            Ok(answer),
        ),
    ensures
        index_listing(trees, Some(answer)).to_multiset() == index_listing(
            trees,
            root,
        ).to_multiset().insert((target, tree)),
{
    let after = index_listing(trees, Some(answer)).to_multiset();
    let before = index_listing(trees, root).to_multiset();
    assert forall|item: (Seq<u8>, Seq<u8>)| #[trigger]
        after.count(item) == before.insert((target, tree)).count(item) by {
        law_list_after_set(known, trees, root, target, tree, options, answer, item);
        if item.0 == target {
            law_listed_once_per_depth(trees, root, target, item.1);
            assert forall|depth: nat| depth < 20 implies #[trigger] cell(trees, root, target, depth)
                != Ok::<Option<Seq<u8>>, Seq<u8>>(Some(item.1)) by {
                lemma_unforced_had_none(
                    known,
                    trees,
                    root,
                    target,
                    tree,
                    options,
                    depth,
                );
            }
            lemma_held_count_none(trees, root, target, item.1, 0);
        }
    }
    assert(after =~= before.insert((target, tree)));
}

/// Removing an entry changes the list for its target alone: it does not hold the
/// target any more, and every other target as often as before, with the trees that
/// it had.
pub proof fn law_list_after_remove(
    known: Known,
    trees: Map<Seq<u8>, Seq<Entry>>,
    root: Option<Seq<u8>>,
    target: Seq<u8>,
    after: Option<Seq<u8>>,
    item: (Seq<u8>, Seq<u8>),
)
    requires
        target.len() == 20,
        is_sound(trees),
        fits(known, trees, root),
        remove_carried_out(known, trees, target, after),
    ensures
        occurrences(index_listing(trees, after), item) == if item.0 == target {
            0
        } else {
            occurrences(index_listing(trees, root), item)
        },
{
    if item.0.len() != 20 {
        lemma_occurrences_none(item);
        if let Some(id) = after {
            lemma_targets_are_ids(trees, id, Seq::empty(), item);
        }
        if let Some(id) = root {
            lemma_targets_are_ids(trees, id, Seq::empty(), item);
        }
    } else {
        law_listed_once_per_depth(trees, after, item.0, item.1);
        law_listed_once_per_depth(trees, root, item.0, item.1);
        if item.0 == target {
            assert forall|depth: nat| depth < 20 implies #[trigger] cell(
                trees,
                after,
                target,
                depth,
            ) != Ok::<Option<Seq<u8>>, Seq<u8>>(Some(item.1)) by {
                law_remove_leaves_nothing(known, trees, root, target, after, depth);
            }
            lemma_held_count_none(trees, after, target, item.1, 0);
        } else {
            law_remove_keeps_other_targets(known, trees, root, target, after, item.0);
            lemma_held_count_same(trees, after, root, item.0, item.1, 0);
        }
    }
}

} // verus!
