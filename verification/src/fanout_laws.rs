//! What the layout of the index is, told entry by entry: where something stands for a
//! target, what a walk passes, and what putting in and taking out do to a place.

use vstd::prelude::*;

use crate::fanout::{held, leaf, segments, walk};
use crate::laws::{
    carried_out, lemma_found_entry, lemma_surviving, lemma_surviving_holds, lemma_surviving_level,
    lemma_walk_is_last,
};
use crate::oid::{hex, lemma_hex_digits};
use crate::rebuild::{
    child, existing, insertion, lemma_existing, lemma_existing_above, removal, surviving,
    RemoveResult,
};
use crate::rebuild_laws::{
    below, inserted, is_without, lemma_insertion_inserts, lemma_removal_takes_out, puts, replaces,
    taken_out,
};
use crate::tree::{
    directory, entry_named, is_first_named, law_the_first_of_a_name_is_found, Entry, ObjectKind,
};

verus! {

/// Whether directories called as `path` says lead from the tree `from` to one in which
/// an entry called `name` names the tree `tree`. Of several entries with one name the
/// first counts.
pub open spec fn stands_at(
    trees: Map<Seq<u8>, Seq<Entry>>,
    from: Seq<u8>,
    path: Seq<Seq<char>>,
    name: Seq<char>,
    tree: Seq<u8>,
) -> bool
    decreases path.len(),
{
    if path.len() == 0 {
        trees.contains_key(from) && exists|i: int|
            #[trigger] is_first_named(trees[from], i, name) && trees[from][i].kind == Some(
                ObjectKind::Tree,
            ) && trees[from][i].id == tree
    } else {
        trees.contains_key(from) && exists|i: int|
            #[trigger] is_first_named(trees[from], i, path[0]) && stands_at(
                trees,
                trees[from][i].id,
                path.drop_first(),
                name,
                tree,
            )
    }
}

/// Whether the entry at `i` of `tree` is one that is not called `name`.
pub open spec fn is_another(tree: Seq<Entry>, i: int, name: Seq<char>) -> bool {
    0 <= i < tree.len() && tree[i].name != Some(name)
}

/// Where an entry is found, it is the first of its name.
proof fn lemma_first_of_a_name(tree: Seq<Entry>, name: Seq<char>) -> (i: int)
    requires
        entry_named(tree, name) is Some,
    ensures
        is_first_named(tree, i, name),
        entry_named(tree, name) == Some(tree[i]),
    decreases tree.len(),
{
    if tree[0].name == Some(name) {
        0
    } else {
        let rest = tree.drop_first();
        let i = lemma_first_of_a_name(rest, name);
        assert(rest[i] == tree[i + 1]);
        assert forall|j: int| 0 <= j < i + 1 implies (#[trigger] tree[j]).name != Some(name) by {
            if j > 0 {
                assert(rest[j - 1] == tree[j]);
            }
        }
        i + 1
    }
}

/// What a place holds is what stands there.
pub proof fn law_a_place_holds_what_stands_there(
    trees: Map<Seq<u8>, Seq<Entry>>,
    from: Seq<u8>,
    path: Seq<Seq<char>>,
    name: Seq<char>,
    tree: Seq<u8>,
)
    ensures
        held(trees, from, path, name) == Ok::<Option<Seq<u8>>, Seq<u8>>(Some(tree)) <==> stands_at(
            trees,
            from,
            path,
            name,
            tree,
        ),
    decreases path.len(),
{
    if trees.contains_key(from) {
        let here = if path.len() == 0 {
            name
        } else {
            path[0]
        };
        assert forall|i: int| #[trigger] is_first_named(trees[from], i, here) implies entry_named(
            trees[from],
            here,
        ) == Some(trees[from][i]) by {
            law_the_first_of_a_name_is_found(trees[from], i, here);
        }
        if entry_named(trees[from], here) is Some {
            let i = lemma_first_of_a_name(trees[from], here);
            if path.len() > 0 {
                law_a_place_holds_what_stands_there(
                    trees,
                    trees[from][i].id,
                    path.drop_first(),
                    name,
                    tree,
                );
            }
        }
    }
}

/// The place of a target spells it: the names of the directories and that of the
/// entry, one after the other, are the digits of the id, and each directory has two.
pub proof fn law_a_place_spells_its_target(target: Seq<u8>, depth: nat, k: int)
    requires
        target.len() == 20,
        depth <= 20,
        0 <= k < 40,
    ensures
        segments(hex(target), depth).len() == depth,
        k < 2 * depth ==> segments(hex(target), depth)[k / 2].len() == 2 && segments(
            hex(target),
            depth,
        )[k / 2][k % 2] == hex(target)[k],
        leaf(hex(target), depth).len() == 40 - 2 * depth,
        k >= 2 * depth ==> leaf(hex(target), depth)[k - 2 * depth] == hex(target)[k],
{
    lemma_hex_digits(target);
    if k < 2 * depth {
        assert(0 <= k / 2 < depth);
        assert(2 * (k / 2) + k % 2 == k);
    }
}

/// A walk goes on from where it came to: by one directory more it comes to the tree
/// that the first entry of that name names.
pub proof fn law_a_walk_goes_on(
    trees: Map<Seq<u8>, Seq<Entry>>,
    root: Seq<u8>,
    path: Seq<Seq<char>>,
    name: Seq<char>,
)
    ensures
        walk(trees, root, Seq::empty()) == if trees.contains_key(root) {
            Ok::<Option<Seq<u8>>, Seq<u8>>(Some(root))
        } else {
            Err(root)
        },
        match walk(trees, root, path) {
            Ok(Some(here)) => trees.contains_key(here) && forall|i: int|
                #[trigger] is_first_named(trees[here], i, name) ==> walk(
                    trees,
                    root,
                    path.push(name),
                ) == if trees.contains_key(trees[here][i].id) {
                    Ok::<Option<Seq<u8>>, Seq<u8>>(Some(trees[here][i].id))
                } else {
                    Err(trees[here][i].id)
                },
            Ok(None) => walk(trees, root, path.push(name)) == Ok::<Option<Seq<u8>>, Seq<u8>>(None),
            Err(missing) => !trees.contains_key(missing) && walk(trees, root, path.push(name))
                == Err::<Option<Seq<u8>>, Seq<u8>>(missing),
        },
        walk(trees, root, path) matches Ok(Some(here)) && (forall|i: int|
            0 <= i < trees[here].len() ==> (#[trigger] trees[here][i]).name != Some(name)) ==> walk(
            trees,
            root,
            path.push(name),
        ) == Ok::<Option<Seq<u8>>, Seq<u8>>(None),
    decreases path.len(),
{
    reveal_with_fuel(walk, 2);
    let more = path.push(name);
    if path.len() == 0 {
        assert(more.drop_first() =~= Seq::empty());
        if trees.contains_key(root) {
            assert forall|i: int| #[trigger] is_first_named(
                trees[root],
                i,
                name,
            ) implies entry_named(trees[root], name) == Some(trees[root][i]) by {
                law_the_first_of_a_name_is_found(trees[root], i, name);
            }
            if entry_named(trees[root], name) is Some {
                let i = lemma_found_entry(trees[root], name);
            }
        }
    } else {
        assert(more[0] == path[0]);
        assert(more.drop_first() =~= path.drop_first().push(name));
        if trees.contains_key(root) {
            if let Some(entry) = entry_named(trees[root], path[0]) {
                law_a_walk_goes_on(trees, entry.id, path.drop_first(), name);
            }
        }
    }
}

/// What was put in is held at its place.
pub proof fn lemma_inserted_is_held(
    trees: Map<Seq<u8>, Seq<Entry>>,
    base: Option<Seq<u8>>,
    path: Seq<Seq<char>>,
    name: Seq<char>,
    value: Seq<u8>,
    id: Seq<u8>,
)
    requires
        inserted(trees, base, path, name, value, id),
    ensures
        held(trees, id, path, name) == Ok::<Option<Seq<u8>>, Seq<u8>>(Some(value)),
    decreases path.len(),
{
    if path.len() == 0 {
        assert(entry_named(trees[id], name) == Some(directory(name, value)));
    } else {
        let next = choose|next: Seq<u8>|
            inserted(
                trees,
                below(trees, base, path[0]),
                path.drop_first(),
                name,
                value,
                next,
            ) && #[trigger] puts(trees, base, path[0], Some(next), id);
        lemma_inserted_is_held(
            trees,
            below(trees, base, path[0]),
            path.drop_first(),
            name,
            value,
            next,
        );
        assert(entry_named(trees[id], path[0]) == Some(directory(path[0], next)));
    }
}

/// What was taken out is held no more.
proof fn lemma_taken_out_is_not_held(
    trees: Map<Seq<u8>, Seq<Entry>>,
    base: Seq<u8>,
    path: Seq<Seq<char>>,
    name: Seq<char>,
    id: Seq<u8>,
)
    requires
        taken_out(trees, base, path, name, Some(id)),
    ensures
        held(trees, id, path, name) == Ok::<Option<Seq<u8>>, Seq<u8>>(None),
    decreases path.len(),
{
    if path.len() == 0 {
        assert(is_without(trees, base, name, Some(id)));
        assert(entry_named(trees[id], name) is None);
    } else {
        let next = choose|next: Option<Seq<u8>>|
            taken_out(
                trees,
                child(trees[base], path[0])->0,
                path.drop_first(),
                name,
                next,
            ) && #[trigger] replaces(trees, base, path[0], next, Some(id));
        match next {
            Some(below) => {
                lemma_taken_out_is_not_held(
                    trees,
                    child(trees[base], path[0])->0,
                    path.drop_first(),
                    name,
                    below,
                );
                assert(entry_named(trees[id], path[0]) == Some(directory(path[0], below)));
            },
            None => {
                assert(entry_named(trees[id], path[0]) is None);
            },
        }
    }
}

/// Once what an insertion asks for was written, the tree that was written last holds
/// the value at its place, whatever that is.
pub proof fn law_insertion_is_held(
    known: Map<Seq<u8>, Seq<Entry>>,
    trees: Map<Seq<u8>, Seq<Entry>>,
    root: Option<Seq<u8>>,
    path: Seq<Seq<char>>,
    name: Seq<char>,
    value: Seq<u8>,
    written: Seq<Seq<u8>>,
)
    requires
        known.submap_of(trees),
        insertion(known, root, path, name, value) matches Ok(plan) && carried_out(
            trees,
            plan,
            written,
        ),
    ensures
        stands_at(trees, written.last(), path, name, value),
{
    lemma_insertion_inserts(known, trees, root, path, name, value, written);
    lemma_inserted_is_held(trees, root, path, name, value, written.last());
    law_a_place_holds_what_stands_there(trees, written.last(), path, name, value);
}

/// Once what a removal asks for was written, nothing stands at the place any more in
/// the tree that was written last, whatever the place is.
pub proof fn law_removal_leaves_nothing_at_its_place(
    known: Map<Seq<u8>, Seq<Entry>>,
    trees: Map<Seq<u8>, Seq<Entry>>,
    root: Seq<u8>,
    path: Seq<Seq<char>>,
    name: Seq<char>,
    written: Seq<Seq<u8>>,
    value: Seq<u8>,
)
    requires
        known.submap_of(trees),
        removal(known, root, path, name) matches Ok(RemoveResult::Removed(plan)) && carried_out(
            trees,
            plan,
            written,
        ),
    ensures
        !stands_at(trees, written.last(), path, name, value),
{
    lemma_removal_takes_out(known, trees, root, path, name, written);
    lemma_taken_out_is_not_held(trees, root, path, name, written.last());
    law_a_place_holds_what_stands_there(trees, written.last(), path, name, value);
}

/// A removal finds nothing just where a directory is missing on the way, or the last
/// one has no entry of that name, of whatever kind.
pub proof fn law_removal_finds_what_is_there(
    trees: Map<Seq<u8>, Seq<Entry>>,
    root: Seq<u8>,
    path: Seq<Seq<char>>,
    name: Seq<char>,
)
    ensures
        match removal(trees, root, path, name) {
            Ok(found) => found is NotFound <==> match walk(trees, root, path) {
                Ok(Some(last)) => forall|i: int|
                    0 <= i < trees[last].len() ==> (#[trigger] trees[last][i]).name != Some(name),
                _ => true,
            },
            Err(missing) => walk(trees, root, path) == Err::<Option<Seq<u8>>, Seq<u8>>(missing),
        },
{
    if existing(trees, Some(root), path) is Ok {
        lemma_walk_is_last(trees, root, path);
        lemma_existing(trees, Some(root), path);
        let chain = existing(trees, Some(root), path)->Ok_0;
        if let Some(last) = chain.last() {
            if entry_named(trees[last], name) is Some {
                let i = lemma_found_entry(trees[last], name);
                assert(trees[last][i].name == Some(name));
            } else {
                assert forall|i: int| 0 <= i < trees[last].len() implies (
                #[trigger] trees[last][i]).name != Some(name) by {
                    law_the_first_of_a_name_is_found(trees[last], i, name);
                }
            }
        }
    } else {
        lemma_existing_is_walk(trees, root, path);
    }
}

/// The trees along a path are those that walks along it come to.
proof fn lemma_chain_is_walked(
    trees: Map<Seq<u8>, Seq<Entry>>,
    root: Seq<u8>,
    path: Seq<Seq<char>>,
    k: int,
)
    requires
        existing(trees, Some(root), path) is Ok,
        0 <= k <= path.len(),
        existing(trees, Some(root), path)->Ok_0[k] is Some,
    ensures
        walk(trees, root, path.take(k)) == Ok::<Option<Seq<u8>>, Seq<u8>>(
            existing(trees, Some(root), path)->Ok_0[k],
        ),
    decreases path.len(),
{
    reveal_with_fuel(existing, 2);
    lemma_existing(trees, Some(root), path);
    if k > 0 {
        let rest = path.drop_first();
        let chain = existing(trees, Some(root), path)->Ok_0;
        assert(path.take(k).drop_first() =~= rest.take(k - 1));
        assert(path.take(k)[0] == path[0]);
        if let Some(next) = child(trees[root], path[0]) {
            let below = existing(trees, Some(next), rest)->Ok_0;
            assert(chain[k] == below[k - 1]);
            lemma_chain_is_walked(trees, next, rest, k - 1);
        } else {
            let below = existing(trees, None, rest)->Ok_0;
            assert(chain[k] == below[k - 1]);
        }
    }
}

/// A removal leaves no tree at all just where no tree along the path holds anything
/// but what leads to the entry.
pub proof fn law_removal_empties_what_holds_nothing_else(
    trees: Map<Seq<u8>, Seq<Entry>>,
    root: Seq<u8>,
    path: Seq<Seq<char>>,
    name: Seq<char>,
)
    ensures
        removal(trees, root, path, name) matches Ok(RemoveResult::Empty) ==> forall|k: int|
            0 <= k <= path.len() ==> (walk(trees, root, #[trigger] path.take(k)) matches Ok(
                Some(here),
            ) && forall|i: int|
                0 <= i < trees[here].len() ==> (#[trigger] trees[here][i]).name == Some(
                    path.push(name)[k],
                )),
        removal(trees, root, path, name) matches Ok(RemoveResult::Removed(_)) ==> exists|
            k: int,
        |
            0 <= k <= path.len() && (walk(trees, root, #[trigger] path.take(k)) matches Ok(
                Some(here),
            ) && exists|i: int| #[trigger] is_another(trees[here], i, path.push(name)[k])),
{
    if existing(trees, Some(root), path) is Ok {
        let chain = existing(trees, Some(root), path)->Ok_0;
        let names = path.push(name);
        lemma_existing(trees, Some(root), path);
        if let Ok(RemoveResult::Empty) = removal(trees, root, path, name) {
            assert forall|k: int| 0 <= k <= path.len() implies (walk(
                trees,
                root,
                #[trigger] path.take(k),
            ) matches Ok(Some(here)) && forall|i: int|
                0 <= i < trees[here].len() ==> (#[trigger] trees[here][i]).name == Some(
                    names[k],
                )) by {
                lemma_existing_above(trees, Some(root), path, k);
                lemma_chain_is_walked(trees, root, path, k);
                lemma_surviving(trees, chain, names, names.len(), k);
            }
        }
        if let Ok(RemoveResult::Removed(_)) = removal(trees, root, path, name) {
            lemma_surviving_level(trees, chain, names, names.len());
            lemma_surviving_holds(trees, chain, names, names.len());
            let k = surviving(trees, chain, names, names.len())->0 as int;
            lemma_existing_above(trees, Some(root), path, k);
            lemma_chain_is_walked(trees, root, path, k);
            let here = chain[k]->0;
            let i = choose|i: int|
                0 <= i < trees[here].len() && (#[trigger] trees[here][i]).name != Some(names[k]);
            assert(is_another(trees[here], i, names[k]));
            assert(walk(trees, root, path.take(k)) == Ok::<Option<Seq<u8>>, Seq<u8>>(Some(here)));
        }
    }
}

/// Planning an insertion fails only for want of a tree along the path.
pub proof fn law_insertion_needs_its_path(
    trees: Map<Seq<u8>, Seq<Entry>>,
    root: Option<Seq<u8>>,
    path: Seq<Seq<char>>,
    name: Seq<char>,
    value: Seq<u8>,
)
    ensures
        insertion(trees, root, path, name, value) matches Err(missing) ==> root is Some && walk(
            trees,
            root->0,
            path,
        ) == Err::<Option<Seq<u8>>, Seq<u8>>(missing),
{
    if let Some(id) = root {
        lemma_existing_is_walk(trees, id, path);
    }
}

/// Where the trees along a path cannot all be gathered, a walk along it ends there.
pub proof fn lemma_existing_is_walk(
    trees: Map<Seq<u8>, Seq<Entry>>,
    root: Seq<u8>,
    path: Seq<Seq<char>>,
)
    ensures
        existing(trees, Some(root), path) matches Err(missing) ==> walk(trees, root, path) == Err::<
            Option<Seq<u8>>,
            Seq<u8>,
        >(missing),
    decreases path.len(),
{
    reveal_with_fuel(existing, 2);
    if trees.contains_key(root) && path.len() > 0 {
        if let Some(id) = child(trees[root], path[0]) {
            lemma_existing_is_walk(trees, id, path.drop_first());
        }
    }
}

} // verus!
