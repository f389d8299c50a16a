//! What holds of the index as a whole.
//!
//! The index is a table: for each target and each depth it holds a tree or none.
//! Putting an entry in changes one place of the table and no other, and so does
//! taking one out. Reading finds the least depth at which a target has a tree.
//!
//! Here `trees` are all the trees of a repository, those among them that an
//! operation wrote. What a session knows is part of that: trees never change.

use vstd::prelude::*;

use crate::fanout::{detect, held, leaf, lemma_walk_ends, probe, segments, sweep, walk};
use crate::index::{
    edit_child, get_step, lookup, occupied, progress, remove_plan, remove_step, replaced, set_plan,
    set_step, Error, Known, MetadataOptions, Progress,
};
use crate::oid::{hex, law_hex_is_injective, lemma_hex_digits};
use crate::rebuild::{
    child, existing, lemma_existing, lemma_existing_above, plan, removal, surviving, Change, Edit,
    RemoveResult,
};
use crate::step::{Request, Step};
use crate::tree::{directory, entry_named, has_others, is_tree, Entry};

verus! {

/// The tree that the index with root tree `root` holds for the target `target` at
/// depth `depth`.
pub open spec fn cell(
    trees: Map<Seq<u8>, Seq<Entry>>,
    root: Option<Seq<u8>>,
    target: Seq<u8>,
    depth: nat,
) -> Result<Option<Seq<u8>>, Seq<u8>> {
    match root {
        Some(id) => probe(trees, id, hex(target), depth),
        None => Ok(None),
    }
}

/// The entries of a tree, none where there is no tree.
pub open spec fn entries_of(trees: Map<Seq<u8>, Seq<Entry>>, id: Option<Seq<u8>>) -> Seq<Entry> {
    match id {
        Some(id) => trees[id],
        None => Seq::empty(),
    }
}

/// Whether the tree `id` is what an edit that puts in `child` writes: the entries
/// of its base, with the one that it names changed.
pub open spec fn is_written(
    trees: Map<Seq<u8>, Seq<Entry>>,
    edit: Edit,
    child: Option<Seq<u8>>,
    id: Seq<u8>,
) -> bool {
    &&& trees.contains_key(id)
    &&& forall|name: Seq<char>| #[trigger]
        entry_named(trees[id], name) == if name == edit.name {
            match child {
                Some(child) => Some(directory(name, child)),
                None => None,
            }
        } else {
            entry_named(entries_of(trees, edit.base), name)
        }
    &&& forall|entry: Entry| #[trigger]
        trees[id].contains(entry) <==> if entry.name == Some(edit.name) {
            child is Some && entry == directory(edit.name, child->0)
        } else {
            entries_of(trees, edit.base).contains(entry)
        }
}

/// Whether trees are as trees in a repository are: no two entries of one have the
/// same name, an entry that leads to a tree says so, and the entry of a tree is
/// told by its name and the tree.
pub open spec fn is_sound(trees: Map<Seq<u8>, Seq<Entry>>) -> bool {
    &&& forall|id: Seq<u8>, i: int, j: int|
        trees.contains_key(id) && 0 <= i < j < trees[id].len() && (
        #[trigger] trees[id][i]).name is Some ==> trees[id][i].name != (
        #[trigger] trees[id][j]).name
    &&& forall|id: Seq<u8>, i: int|
        trees.contains_key(id) && 0 <= i < trees[id].len() && trees.contains_key(
            (#[trigger] trees[id][i]).id,
        ) ==> is_tree(trees[id][i])
    &&& forall|id: Seq<u8>, i: int|
        trees.contains_key(id) && 0 <= i < trees[id].len() && is_tree(#[trigger] trees[id][i]) && (
        trees[id][i].name matches Some(name)) ==> trees[id][i] == directory(
            trees[id][i].name->0,
            trees[id][i].id,
        )
}

/// Whether `written` are the trees that carrying out `plan` writes.
pub open spec fn carried_out(
    trees: Map<Seq<u8>, Seq<Entry>>,
    plan: Seq<Edit>,
    written: Seq<Seq<u8>>,
) -> bool {
    &&& written.len() == plan.len()
    &&& forall|k: int|
        0 <= k < plan.len() ==> is_written(
            trees,
            #[trigger] plan[k],
            edit_child(plan[k], written.take(k)),
            written[k],
        )
}

/// Whether none of the trees `lacking` exists.
pub open spec fn is_lacking(lacking: Seq<Seq<u8>>, trees: Map<Seq<u8>, Seq<Entry>>) -> bool {
    forall|id: Seq<u8>| #[trigger] lacking.contains(id) ==> !trees.contains_key(id)
}

/// Whether what is known fits a repository with these trees, in which the index
/// has the root tree `root`.
pub open spec fn fits(
    known: Known,
    trees: Map<Seq<u8>, Seq<Entry>>,
    root: Option<Seq<u8>>,
) -> bool {
    &&& known.trees.submap_of(trees)
    &&& is_lacking(known.lacking, trees)
    &&& known.root matches Some(seen) ==> seen == root
}

/// As `held`, for a tree that may be missing.
spec fn sought(
    trees: Map<Seq<u8>, Seq<Entry>>,
    root: Option<Seq<u8>>,
    path: Seq<Seq<char>>,
    name: Seq<char>,
) -> Result<Option<Seq<u8>>, Seq<u8>> {
    match root {
        Some(id) => held(trees, id, path, name),
        None => Ok(None),
    }
}

proof fn lemma_walk_grows(
    some: Map<Seq<u8>, Seq<Entry>>,
    trees: Map<Seq<u8>, Seq<Entry>>,
    root: Seq<u8>,
    path: Seq<Seq<char>>,
)
    requires
        some.submap_of(trees),
    ensures
        walk(some, root, path) is Ok ==> walk(trees, root, path) == walk(some, root, path),
        walk(some, root, path) matches Err(missing) ==> (!trees.contains_key(missing) ==> walk(
            trees,
            root,
            path,
        ) == walk(some, root, path)),
    decreases path.len(),
{
    if some.contains_key(root) {
        assert(trees.contains_key(root) && trees[root] == some[root]);
        if path.len() > 0 {
            if let Some(entry) = entry_named(some[root], path[0]) {
                lemma_walk_grows(some, trees, entry.id, path.drop_first());
            }
        }
    }
}

proof fn lemma_probe_grows(
    some: Map<Seq<u8>, Seq<Entry>>,
    trees: Map<Seq<u8>, Seq<Entry>>,
    root: Seq<u8>,
    digits: Seq<char>,
    depth: nat,
)
    requires
        some.submap_of(trees),
    ensures
        probe(some, root, digits, depth) is Ok ==> probe(trees, root, digits, depth) == probe(
            some,
            root,
            digits,
            depth,
        ),
        probe(some, root, digits, depth) matches Err(missing) ==> {
            &&& !some.contains_key(missing)
            &&& !trees.contains_key(missing) ==> probe(trees, root, digits, depth) == probe(
                some,
                root,
                digits,
                depth,
            )
        },
{
    lemma_walk_grows(some, trees, root, segments(digits, depth));
    lemma_walk_ends(some, root, segments(digits, depth));
    if let Ok(Some(directory)) = walk(some, root, segments(digits, depth)) {
        assert(trees.contains_key(directory) && trees[directory] == some[directory]);
    }
}

/// Reading more trees does not change what a search finds, and a search that lacks
/// a tree lacks one that was not read.
pub proof fn lemma_detect_grows(
    some: Map<Seq<u8>, Seq<Entry>>,
    trees: Map<Seq<u8>, Seq<Entry>>,
    root: Seq<u8>,
    digits: Seq<char>,
    depth: nat,
)
    requires
        some.submap_of(trees),
    ensures
        detect(some, root, digits, depth) is Ok ==> detect(trees, root, digits, depth) == detect(
            some,
            root,
            digits,
            depth,
        ),
        detect(some, root, digits, depth) matches Err(missing) ==> {
            &&& !some.contains_key(missing)
            &&& !trees.contains_key(missing) ==> detect(trees, root, digits, depth) == detect(
                some,
                root,
                digits,
                depth,
            )
        },
    decreases digits.len() / 2 - depth,
{
    if depth < digits.len() / 2 {
        lemma_probe_grows(some, trees, root, digits, depth);
        if probe(some, root, digits, depth) == Ok::<Option<Seq<u8>>, Seq<u8>>(None) {
            lemma_detect_grows(some, trees, root, digits, depth + 1);
        }
    }
}

pub proof fn lemma_existing_grows(
    some: Map<Seq<u8>, Seq<Entry>>,
    trees: Map<Seq<u8>, Seq<Entry>>,
    root: Option<Seq<u8>>,
    path: Seq<Seq<char>>,
)
    requires
        some.submap_of(trees),
    ensures
        existing(some, root, path) is Ok ==> existing(trees, root, path) == existing(
            some,
            root,
            path,
        ),
        existing(some, root, path) matches Err(missing) ==> {
            &&& !some.contains_key(missing)
            &&& !trees.contains_key(missing) ==> existing(trees, root, path) == existing(
                some,
                root,
                path,
            )
        },
    decreases path.len(),
{
    if let Some(id) = root {
        if some.contains_key(id) {
            assert(trees.contains_key(id) && trees[id] == some[id]);
            if path.len() > 0 {
                lemma_existing_grows(some, trees, child(some[id], path[0]), path.drop_first());
            }
        }
    }
}

/// Whether a path of two-digit directories and a name of at least two digits have
/// `digits` digits in all.
spec fn spans(path: Seq<Seq<char>>, name: Seq<char>, digits: int) -> bool {
    &&& forall|i: int| 0 <= i < path.len() ==> (#[trigger] path[i]).len() == 2
    &&& name.len() >= 2
    &&& 2 * path.len() + name.len() == digits
}

/// Whether the tree `node` holds `result` at the place that `path` and `name` lead
/// to, and at every other place of as many digits what the tree `base` holds there.
spec fn differs_at(
    trees: Map<Seq<u8>, Seq<Entry>>,
    node: Option<Seq<u8>>,
    base: Option<Seq<u8>>,
    path: Seq<Seq<char>>,
    name: Seq<char>,
    result: Option<Seq<u8>>,
    digits: int,
) -> bool {
    forall|other: Seq<Seq<char>>, called: Seq<char>|
        spans(other, called, digits) ==> #[trigger] sought(trees, node, other, called) == if other
            == path && called == name {
            Ok(result)
        } else {
            sought(trees, base, other, called)
        }
}

/// The names of a tree that holds nothing but `name`.
proof fn lemma_no_others(tree: Seq<Entry>, name: Seq<char>, other: Seq<char>)
    requires
        !has_others(tree, name),
        other != name,
    ensures
        entry_named(tree, other) is None,
    decreases tree.len(),
{
    if tree.len() > 0 {
        assert(tree[0].name == Some(name));
        assert forall|i: int| 0 <= i < tree.drop_first().len() implies (
        #[trigger] tree.drop_first()[i]).name == Some(name) by {
            assert(tree.drop_first()[i] == tree[i + 1]);
        }
        lemma_no_others(tree.drop_first(), name, other);
    }
}

/// The directory itself: the entry is written there, or taken out, and where no
/// other entry is left the directory is no more.
proof fn lemma_differs_in_directory(
    trees: Map<Seq<u8>, Seq<Entry>>,
    node: Option<Seq<u8>>,
    edit: Edit,
    result: Option<Seq<u8>>,
    digits: int,
)
    requires
        edit.name.len() == digits,
        edit.base matches Some(id) ==> trees.contains_key(id),
        match node {
            Some(id) => is_written(trees, edit, result, id),
            None => result is None && edit.base is Some && !has_others(
                trees[edit.base->0],
                edit.name,
            ),
        },
    ensures
        differs_at(trees, node, edit.base, Seq::empty(), edit.name, result, digits),
{
    assert forall|other: Seq<Seq<char>>, called: Seq<char>|
        spans(other, called, digits) implies #[trigger] sought(trees, node, other, called)
        == if other == Seq::<Seq<char>>::empty() && called == edit.name {
        Ok(result)
    } else {
        sought(trees, edit.base, other, called)
    } by {
        if other.len() == 0 {
            assert(other =~= Seq::empty());
            if node is None && called != edit.name {
                lemma_no_others(trees[edit.base->0], edit.name, called);
            }
        } else {
            assert(other[0].len() == 2);
            assert(other[0] != edit.name);
            if node is None {
                lemma_no_others(trees[edit.base->0], edit.name, other[0]);
            }
        }
    }
}

/// A tree above the directory: its entry for the way down is written anew, or taken
/// out where nothing is left below, and where no other entry is left it is no more.
proof fn lemma_differs_above(
    trees: Map<Seq<u8>, Seq<Entry>>,
    node: Option<Seq<u8>>,
    edit: Edit,
    below: Option<Seq<u8>>,
    path: Seq<Seq<char>>,
    name: Seq<char>,
    result: Option<Seq<u8>>,
    digits: int,
)
    requires
        path.len() > 0,
        spans(path, name, digits),
        below is None ==> result is None,
        edit.name == path[0],
        edit.base matches Some(id) ==> trees.contains_key(id),
        match node {
            Some(id) => is_written(trees, edit, below, id),
            None => below is None && edit.base is Some && !has_others(
                trees[edit.base->0],
                edit.name,
            ),
        },
        differs_at(
            trees,
            below,
            match edit.base {
                Some(id) => child(trees[id], path[0]),
                None => None,
            },
            path.drop_first(),
            name,
            result,
            digits - 2,
        ),
    ensures
        differs_at(trees, node, edit.base, path, name, result, digits),
{
    let base_below = match edit.base {
        Some(id) => child(trees[id], path[0]),
        None => None,
    };
    assert(path[0].len() == 2);
    assert forall|other: Seq<Seq<char>>, called: Seq<char>|
        spans(other, called, digits) implies #[trigger] sought(trees, node, other, called)
        == if other == path && called == name {
        Ok(result)
    } else {
        sought(trees, edit.base, other, called)
    } by {
        if other.len() == 0 {
            assert(called.len() != 2);
            if node is None {
                lemma_no_others(trees[edit.base->0], edit.name, called);
            }
        } else if other[0] != path[0] {
            if node is None {
                lemma_no_others(trees[edit.base->0], edit.name, other[0]);
            }
        } else {
            let rest = other.drop_first();
            assert forall|i: int| 0 <= i < rest.len() implies (#[trigger] rest[i]).len() == 2 by {
                assert(rest[i] == other[i + 1]);
            }
            assert(spans(rest, called, digits - 2));
            assert(sought(trees, below, rest, called) == if rest == path.drop_first() && called
                == name {
                Ok(result)
            } else {
                sought(trees, base_below, rest, called)
            });
            assert(rest == path.drop_first() ==> other =~= path) by {
                if rest == path.drop_first() {
                    assert forall|i: int| 0 <= i < other.len() implies other[i] == path[i] by {
                        if i > 0 {
                            assert(other[i] == rest[i - 1]);
                            assert(path[i] == path.drop_first()[i - 1]);
                        }
                    }
                    assert(other.len() == rest.len() + 1);
                }
            }
            assert(sought(trees, edit.base, other, called) == sought(
                trees,
                base_below,
                rest,
                called,
            ));
            assert(sought(trees, node, other, called) == sought(trees, below, rest, called));
        }
    }
}

/// From the level of the first edit of a plan up to the root.
proof fn lemma_differs_at_root(
    trees: Map<Seq<u8>, Seq<Entry>>,
    chain: Seq<Option<Seq<u8>>>,
    path: Seq<Seq<char>>,
    name: Seq<char>,
    level: nat,
    change: Change<Seq<u8>>,
    written: Seq<Seq<u8>>,
    result: Option<Seq<u8>>,
    digits: int,
    j: int,
)
    requires
        0 <= j <= level <= path.len(),
        spans(path, name, digits),
        chain.len() == path.len() + 1,
        forall|i: int|
            0 <= i < chain.len() ==> (#[trigger] chain[i] matches Some(id) ==> trees.contains_key(
                id,
            )),
        forall|i: int|
            0 <= i < path.len() ==> #[trigger] chain[i + 1] == (match chain[i] {
                Some(id) => child(trees[id], path[i]),
                None => None,
            }),
        carried_out(trees, plan(chain, path.push(name), level, change), written),
        differs_at(
            trees,
            Some(written[0]),
            chain[level as int],
            path.skip(level as int),
            name,
            result,
            digits - 2 * level,
        ),
    ensures
        differs_at(
            trees,
            Some(written[level - j]),
            chain[j],
            path.skip(j),
            name,
            result,
            digits - 2 * j,
        ),
    decreases level - j,
{
    if j < level {
        lemma_differs_at_root(
            trees,
            chain,
            path,
            name,
            level,
            change,
            written,
            result,
            digits,
            j + 1,
        );
        let rest = path.skip(j);
        let edit = plan(chain, path.push(name), level, change)[level - j];
        assert(edit.name == path[j] && edit.base == chain[j] && edit.change is InsertWritten);
        assert(written.take(level - j).last() == written[level - j - 1]);
        assert(is_written(trees, edit, Some(written[level - j - 1]), written[level - j]));
        assert(rest[0] == path[j]);
        assert(rest.drop_first() =~= path.skip(j + 1));
        assert forall|i: int| 0 <= i < rest.len() implies (#[trigger] rest[i]).len() == 2 by {
            assert(rest[i] == path[i + j]);
        }
        assert(chain[j + 1] == (match chain[j] {
            Some(id) => child(trees[id], path[j]),
            None => None,
        }));
        lemma_differs_above(
            trees,
            Some(written[level - j]),
            edit,
            Some(written[level - j - 1]),
            rest,
            name,
            result,
            digits - 2 * j,
        );
    }
}

/// The way to a target's entry at some depth spells the target.
proof fn lemma_place(target: Seq<u8>, depth: nat)
    requires
        target.len() == 20,
        depth < 20,
    ensures
        spans(segments(hex(target), depth), leaf(hex(target), depth), 40),
{
    lemma_hex_digits(target);
}

/// Different targets, and different depths of one target, have different places.
proof fn lemma_places_differ(one: Seq<u8>, other: Seq<u8>, depth: nat, other_depth: nat)
    requires
        one.len() == 20,
        other.len() == 20,
        depth < 20,
        other_depth < 20,
        segments(hex(one), depth) == segments(hex(other), other_depth),
        leaf(hex(one), depth) == leaf(hex(other), other_depth),
    ensures
        one == other,
        depth == other_depth,
{
    lemma_hex_digits(one);
    lemma_hex_digits(other);
    assert(segments(hex(one), depth).len() == depth);
    assert(segments(hex(other), other_depth).len() == other_depth);
    assert forall|i: int| 0 <= i < 40 implies hex(one)[i] == hex(other)[i] by {
        if i < 2 * depth {
            assert(segments(hex(one), depth)[i / 2] == segments(hex(other), depth)[i / 2]);
            assert(segments(hex(one), depth)[i / 2][i % 2] == hex(one)[i]);
            assert(segments(hex(other), depth)[i / 2][i % 2] == hex(other)[i]);
        } else {
            assert(leaf(hex(one), depth)[i - 2 * depth] == hex(one)[i]);
            assert(leaf(hex(other), depth)[i - 2 * depth] == hex(other)[i]);
        }
    }
    assert(hex(one) =~= hex(other));
    law_hex_is_injective(one, other);
}

/// What differs at one place of the fanout tree differs in one cell of the table.
proof fn lemma_cell_differs(
    trees: Map<Seq<u8>, Seq<Entry>>,
    after: Option<Seq<u8>>,
    before: Option<Seq<u8>>,
    target: Seq<u8>,
    depth: nat,
    result: Option<Seq<u8>>,
    other: Seq<u8>,
    other_depth: nat,
)
    requires
        target.len() == 20,
        other.len() == 20,
        depth < 20,
        other_depth < 20,
        differs_at(
            trees,
            after,
            before,
            segments(hex(target), depth),
            leaf(hex(target), depth),
            result,
            40,
        ),
    ensures
        cell(trees, after, other, other_depth) == if other == target && other_depth == depth {
            Ok(result)
        } else {
            cell(trees, before, other, other_depth)
        },
{
    lemma_place(other, other_depth);
    let path = segments(hex(other), other_depth);
    let name = leaf(hex(other), other_depth);
    assert(sought(trees, after, path, name) == cell(trees, after, other, other_depth));
    assert(sought(trees, before, path, name) == cell(trees, before, other, other_depth));
    if path == segments(hex(target), depth) && name == leaf(hex(target), depth) {
        lemma_places_differ(other, target, other_depth, depth);
    }
}

/// Putting an entry in changes the table in one place: there the index holds the new
/// tree, and for every other target, and for the same target at any other depth,
/// what it held before.
pub proof fn law_set_changes_one_cell(
    known: Map<Seq<u8>, Seq<Entry>>,
    trees: Map<Seq<u8>, Seq<Entry>>,
    root: Option<Seq<u8>>,
    target: Seq<u8>,
    tree: Seq<u8>,
    level: nat,
    written: Seq<Seq<u8>>,
    other: Seq<u8>,
    depth: nat,
)
    requires
        target.len() == 20,
        other.len() == 20,
        level < 20,
        depth < 20,
        known.submap_of(trees),
        set_plan(known, root, target, tree, level) matches Ok(plan) && carried_out(
            trees,
            plan,
            written,
        ),
    ensures
        cell(trees, Some(written.last()), other, depth) == if other == target && depth == level {
            Ok(Some(tree))
        } else {
            cell(trees, root, other, depth)
        },
{
    let path = segments(hex(target), level);
    let name = leaf(hex(target), level);
    lemma_place(target, level);
    lemma_existing_grows(known, trees, root, path);
    lemma_existing(trees, root, path);
    let chain = existing(trees, root, path)->Ok_0;
    let edits = plan(chain, path.push(name), level, Change::Insert(tree));
    assert(path.len() == level);
    assert(set_plan(known, root, target, tree, level) == Ok::<Seq<Edit>, Seq<u8>>(edits));
    assert(is_written(trees, edits[0], edit_child(edits[0], written.take(0)), written[0]));
    lemma_differs_in_directory(trees, Some(written[0]), edits[0], Some(tree), 40 - 2 * level);
    assert(path.skip(level as int) =~= Seq::empty());
    lemma_differs_at_root(
        trees,
        chain,
        path,
        name,
        level,
        Change::Insert(tree),
        written,
        Some(tree),
        40,
        0,
    );
    assert(path.skip(0) =~= path);
    lemma_cell_differs(
        trees,
        Some(written.last()),
        root,
        target,
        level,
        Some(tree),
        other,
        depth,
    );
}

/// Every level below the deepest one that survives a removal is left empty.
pub proof fn lemma_surviving(
    trees: Map<Seq<u8>, Seq<Entry>>,
    chain: Seq<Option<Seq<u8>>>,
    names: Seq<Seq<char>>,
    levels: nat,
    i: int,
)
    requires
        levels <= names.len(),
        0 <= i < levels,
        match surviving(trees, chain, names, levels) {
            Some(level) => level < i,
            None => true,
        },
    ensures
        !has_others(trees[chain[i]->0], names[i]),
    decreases levels,
{
    if i < levels - 1 {
        lemma_surviving(trees, chain, names, (levels - 1) as nat, i);
    }
}

/// The level that survives a removal is one that is not left empty.
pub proof fn lemma_surviving_holds(
    trees: Map<Seq<u8>, Seq<Entry>>,
    chain: Seq<Option<Seq<u8>>>,
    names: Seq<Seq<char>>,
    levels: nat,
)
    ensures
        surviving(trees, chain, names, levels) matches Some(level) ==> has_others(
            trees[chain[level as int]->0],
            names[level as int],
        ),
    decreases levels,
{
    if levels > 0 {
        lemma_surviving_holds(trees, chain, names, (levels - 1) as nat);
    }
}

pub proof fn lemma_surviving_level(
    trees: Map<Seq<u8>, Seq<Entry>>,
    chain: Seq<Option<Seq<u8>>>,
    names: Seq<Seq<char>>,
    levels: nat,
)
    ensures
        surviving(trees, chain, names, levels) matches Some(level) ==> level < levels,
    decreases levels,
{
    if levels > 0 {
        lemma_surviving_level(trees, chain, names, (levels - 1) as nat);
    }
}

/// A tree of which nothing is left once the entry is gone held nothing else.
proof fn lemma_emptied(
    trees: Map<Seq<u8>, Seq<Entry>>,
    chain: Seq<Option<Seq<u8>>>,
    path: Seq<Seq<char>>,
    name: Seq<char>,
    digits: int,
    i: int,
)
    requires
        0 <= i <= path.len(),
        spans(path, name, digits),
        chain.len() == path.len() + 1,
        forall|k: int| 0 <= k < chain.len() ==> #[trigger] chain[k] is Some,
        forall|k: int| 0 <= k < chain.len() ==> trees.contains_key((#[trigger] chain[k])->0),
        forall|k: int|
            0 <= k < path.len() ==> #[trigger] chain[k + 1] == (match chain[k] {
                Some(id) => child(trees[id], path[k]),
                None => None,
            }),
        forall|k: int|
            i <= k < chain.len() ==> !has_others(
                trees[(#[trigger] chain[k])->0],
                path.push(name)[k],
            ),
    ensures
        differs_at(trees, None, chain[i], path.skip(i), name, None, digits - 2 * i),
    decreases path.len() - i,
{
    let rest = path.skip(i);
    let edit = Edit { base: chain[i], name: path.push(name)[i], change: Change::Remove };
    assert(!has_others(trees[chain[i]->0], path.push(name)[i]));
    if i == path.len() {
        assert(rest =~= Seq::empty());
        lemma_differs_in_directory(trees, None, edit, None, digits - 2 * i);
    } else {
        lemma_emptied(trees, chain, path, name, digits, i + 1);
        assert(rest[0] == path[i]);
        assert(rest.drop_first() =~= path.skip(i + 1));
        assert forall|k: int| 0 <= k < rest.len() implies (#[trigger] rest[k]).len() == 2 by {
            assert(rest[k] == path[k + i]);
        }
        assert(chain[i + 1] == child(trees[chain[i]->0], path[i]));
        lemma_differs_above(trees, None, edit, None, rest, name, None, digits - 2 * i);
    }
}

/// Whether `after` is the root tree once a removal is carried out.
pub open spec fn removed_to(
    trees: Map<Seq<u8>, Seq<Entry>>,
    removal: RemoveResult<Seq<Edit>>,
    written: Seq<Seq<u8>>,
    after: Option<Seq<u8>>,
) -> bool {
    match removal {
        RemoveResult::NotFound => false,
        RemoveResult::Empty => after is None,
        RemoveResult::Removed(plan) => carried_out(trees, plan, written) && after == Some(
            written.last(),
        ),
    }
}

/// Taking an entry out changes the table in one place: there the index holds nothing,
/// and for every other target, and for the same target at any other depth, what
/// it held before.
pub proof fn law_remove_changes_one_cell(
    known: Map<Seq<u8>, Seq<Entry>>,
    trees: Map<Seq<u8>, Seq<Entry>>,
    root: Seq<u8>,
    target: Seq<u8>,
    depth: nat,
    written: Seq<Seq<u8>>,
    after: Option<Seq<u8>>,
    other: Seq<u8>,
    other_depth: nat,
)
    requires
        target.len() == 20,
        other.len() == 20,
        depth < 20,
        other_depth < 20,
        known.submap_of(trees),
        remove_plan(known, root, target, depth) matches Ok(removal) && removed_to(
            trees,
            removal,
            written,
            after,
        ),
    ensures
        cell(trees, after, other, other_depth) == if other == target && other_depth == depth {
            Ok(None)
        } else {
            cell(trees, Some(root), other, other_depth)
        },
{
    let path = segments(hex(target), depth);
    let name = leaf(hex(target), depth);
    let names = path.push(name);
    lemma_place(target, depth);
    lemma_existing_grows(known, trees, Some(root), path);
    lemma_existing(trees, Some(root), path);
    lemma_existing(known, Some(root), path);
    let chain = existing(trees, Some(root), path)->Ok_0;
    assert(path.len() == depth);
    assert forall|k: int| 0 <= k < chain.len() implies #[trigger] chain[k] is Some
        && known.contains_key(chain[k]->0) && trees.contains_key(chain[k]->0) && trees[chain[k]->0]
        == known[chain[k]->0] by {
        lemma_existing_above(known, Some(root), path, k);
    }
    let kept = surviving(known, chain, names, names.len());
    lemma_surviving_level(known, chain, names, names.len());
    let first: int = match kept {
        Some(level) => level as int + 1,
        None => 0,
    };
    assert forall|k: int| first <= k < chain.len() implies !has_others(
        trees[(#[trigger] chain[k])->0],
        names[k],
    ) by {
        lemma_surviving(known, chain, names, names.len(), k);
    }
    match kept {
        None => {
            lemma_emptied(trees, chain, path, name, 40, 0);
            assert(path.skip(0) =~= path);
        },
        Some(level) => {
            let edits = plan(chain, names, level, Change::Remove);
            assert(is_written(trees, edits[0], edit_child(edits[0], written.take(0)), written[0]));
            let rest = path.skip(level as int);
            if level == path.len() {
                assert(rest =~= Seq::empty());
                lemma_differs_in_directory(
                    trees,
                    Some(written[0]),
                    edits[0],
                    None,
                    40 - 2 * level,
                );
            } else {
                lemma_emptied(trees, chain, path, name, 40, level as int + 1);
                assert(rest[0] == path[level as int]);
                assert(rest.drop_first() =~= path.skip(level as int + 1));
                assert forall|k: int| 0 <= k < rest.len() implies (#[trigger] rest[k]).len()
                    == 2 by {
                    assert(rest[k] == path[k + level]);
                }
                assert(chain[level as int + 1] == child(
                    trees[chain[level as int]->0],
                    path[level as int],
                ));
                lemma_differs_above(
                    trees,
                    Some(written[0]),
                    edits[0],
                    None,
                    rest,
                    name,
                    None,
                    40 - 2 * level,
                );
            }
            lemma_differs_at_root(
                trees,
                chain,
                path,
                name,
                level,
                Change::Remove,
                written,
                None,
                40,
                0,
            );
            assert(path.skip(0) =~= path);
        },
    }
    lemma_cell_differs(trees, after, Some(root), target, depth, None, other, other_depth);
}

/// A search that starts at some depth finds the least depth from there on at which
/// the index holds a tree, and that tree, and nothing if there is no such depth.
pub proof fn lemma_detect_is_least(
    trees: Map<Seq<u8>, Seq<Entry>>,
    root: Seq<u8>,
    target: Seq<u8>,
    from: nat,
)
    requires
        target.len() == 20,
        from <= 20,
    ensures
        match detect(trees, root, hex(target), from) {
            Ok(Some((depth, id))) => {
                &&& from <= depth < 20
                &&& cell(trees, Some(root), target, depth) == Ok::<Option<Seq<u8>>, Seq<u8>>(
                    Some(id),
                )
                &&& forall|less: nat|
                    from <= less < depth ==> #[trigger] cell(trees, Some(root), target, less)
                        == Ok::<Option<Seq<u8>>, Seq<u8>>(None)
            },
            Ok(None) => forall|depth: nat|
                from <= depth < 20 ==> #[trigger] cell(trees, Some(root), target, depth) == Ok::<
                    Option<Seq<u8>>,
                    Seq<u8>,
                >(None),
            Err(missing) => exists|depth: nat|
                from <= depth < 20 && #[trigger] cell(trees, Some(root), target, depth) == Err::<
                    Option<Seq<u8>>,
                    Seq<u8>,
                >(missing) && forall|less: nat|
                    from <= less < depth ==> #[trigger] cell(trees, Some(root), target, less)
                        == Ok::<Option<Seq<u8>>, Seq<u8>>(None),
        },
    decreases 20 - from,
{
    lemma_hex_digits(target);
    if from < 20 {
        let here = cell(trees, Some(root), target, from);
        assert(here == probe(trees, root, hex(target), from));
        if here == Ok::<Option<Seq<u8>>, Seq<u8>>(None) {
            lemma_detect_is_least(trees, root, target, from + 1);
            if let Err(missing) = detect(trees, root, hex(target), from) {
                let depth = choose|depth: nat|
                    from + 1 <= depth < 20 && #[trigger] cell(trees, Some(root), target, depth)
                        == Err::<Option<Seq<u8>>, Seq<u8>>(missing) && forall|less: nat|
                        from + 1 <= less < depth ==> #[trigger] cell(
                            trees,
                            Some(root),
                            target,
                            less,
                        ) == Ok::<Option<Seq<u8>>, Seq<u8>>(None);
                assert(cell(trees, Some(root), target, depth) == Err::<Option<Seq<u8>>, Seq<u8>>(
                    missing,
                ));
            }
        }
    }
}

/// Reading a target finds the least depth at which the index holds a tree for it,
/// and that tree; it finds nothing if and only if the index holds none at any
/// depth; and it fails at the least depth at which the way is not readable, if
/// nothing is held above that.
pub proof fn law_lookup_is_least_depth(
    trees: Map<Seq<u8>, Seq<Entry>>,
    root: Option<Seq<u8>>,
    target: Seq<u8>,
)
    requires
        target.len() == 20,
    ensures
        match lookup(trees, root, hex(target)) {
            Ok(Some((depth, id))) => {
                &&& depth < 20
                &&& cell(trees, root, target, depth) == Ok::<Option<Seq<u8>>, Seq<u8>>(Some(id))
                &&& forall|less: nat|
                    less < depth ==> #[trigger] cell(trees, root, target, less) == Ok::<
                        Option<Seq<u8>>,
                        Seq<u8>,
                    >(None)
            },
            Ok(None) => forall|depth: nat|
                depth < 20 ==> #[trigger] cell(trees, root, target, depth) == Ok::<
                    Option<Seq<u8>>,
                    Seq<u8>,
                >(None),
            Err(missing) => exists|depth: nat|
                depth < 20 && #[trigger] cell(trees, root, target, depth) == Err::<
                    Option<Seq<u8>>,
                    Seq<u8>,
                >(missing) && forall|less: nat|
                    less < depth ==> #[trigger] cell(trees, root, target, less) == Ok::<
                        Option<Seq<u8>>,
                        Seq<u8>,
                    >(None),
        },
{
    if let Some(id) = root {
        lemma_detect_is_least(trees, id, target, 0);
        if let Err(missing) = lookup(trees, root, hex(target)) {
            let depth = choose|depth: nat|
                0 <= depth < 20 && #[trigger] cell(trees, root, target, depth) == Err::<
                    Option<Seq<u8>>,
                    Seq<u8>,
                >(missing) && forall|less: nat|
                    0 <= less < depth ==> #[trigger] cell(trees, root, target, less) == Ok::<
                        Option<Seq<u8>>,
                        Seq<u8>,
                    >(None);
            assert(cell(trees, root, target, depth) == Err::<Option<Seq<u8>>, Seq<u8>>(missing));
        }
    }
}

/// Two indexes that hold the same for a target from some depth on are searched
/// alike from there on.
proof fn lemma_same_cells_same_search(
    trees: Map<Seq<u8>, Seq<Entry>>,
    one: Seq<u8>,
    other: Seq<u8>,
    target: Seq<u8>,
    from: nat,
)
    requires
        target.len() == 20,
        forall|depth: nat|
            from <= depth < 20 ==> #[trigger] cell(trees, Some(one), target, depth) == cell(
                trees,
                Some(other),
                target,
                depth,
            ),
    ensures
        detect(trees, one, hex(target), from) == detect(trees, other, hex(target), from),
    decreases 20 - from,
{
    lemma_hex_digits(target);
    if from < 20 {
        assert(cell(trees, Some(one), target, from) == cell(trees, Some(other), target, from));
        lemma_same_cells_same_search(trees, one, other, target, from + 1);
    }
}

/// An index that holds nothing for a target from some depth on is searched in vain.
pub proof fn lemma_no_cells_no_find(
    trees: Map<Seq<u8>, Seq<Entry>>,
    root: Seq<u8>,
    target: Seq<u8>,
    from: nat,
)
    requires
        target.len() == 20,
        forall|depth: nat|
            from <= depth < 20 ==> #[trigger] cell(trees, Some(root), target, depth) == Ok::<
                Option<Seq<u8>>,
                Seq<u8>,
            >(None),
    ensures
        detect(trees, root, hex(target), from) == Ok::<Option<(nat, Seq<u8>)>, Seq<u8>>(None),
    decreases 20 - from,
{
    lemma_hex_digits(target);
    if from < 20 {
        assert(cell(trees, Some(root), target, from) == Ok::<Option<Seq<u8>>, Seq<u8>>(None));
        lemma_no_cells_no_find(trees, root, target, from + 1);
    }
}

/// Two indexes that hold the same for a target give the same on reading it.
pub proof fn law_same_cells_same_lookup(
    trees: Map<Seq<u8>, Seq<Entry>>,
    one: Option<Seq<u8>>,
    other: Option<Seq<u8>>,
    target: Seq<u8>,
)
    requires
        target.len() == 20,
        forall|depth: nat|
            depth < 20 ==> #[trigger] cell(trees, one, target, depth) == cell(
                trees,
                other,
                target,
                depth,
            ),
    ensures
        lookup(trees, one, hex(target)) == lookup(trees, other, hex(target)),
{
    assert forall|depth: nat| depth < 20 implies #[trigger] cell(trees, other, target, depth)
        == cell(trees, one, target, depth) by {
        assert(cell(trees, one, target, depth) == cell(trees, other, target, depth));
    }
    match (one, other) {
        (Some(a), Some(b)) => {
            lemma_same_cells_same_search(trees, a, b, target, 0);
        },
        (Some(a), None) => {
            lemma_no_cells_no_find(trees, a, target, 0);
        },
        (None, Some(b)) => {
            lemma_no_cells_no_find(trees, b, target, 0);
        },
        (None, None) => {},
    }
}

/// What reading a target answers is what the index holds for it. Before that the
/// repository is only read, never a tree twice, and where a tree that is asked
/// for does not exist, reading the index fails for want of that tree.
pub proof fn law_get_answers_what_is_held(
    known: Known,
    trees: Map<Seq<u8>, Seq<Entry>>,
    root: Option<Seq<u8>>,
    target: Seq<u8>,
)
    requires
        fits(known, trees, root),
    ensures
        match get_step(known, target) {
            Step::Return(found) => lookup(trees, root, hex(target)) matches Ok(held) && found == (
            match held {
                Some((_, id)) => Some(id),
                None => None,
            }),
            Step::Do(Request::ResolveRoot) => known.root is None,
            Step::Do(Request::FindTree(id)) => {
                &&& !known.trees.contains_key(id)
                &&& !trees.contains_key(id) ==> lookup(trees, root, hex(target)) == Err::<
                    Option<(nat, Seq<u8>)>,
                    Seq<u8>,
                >(id)
            },
            Step::Do(_) => false,
        },
{
    if let Some(id) = root {
        lemma_detect_grows(known.trees, trees, id, hex(target), 0);
    }
}

/// Whether a request only reads.
pub open spec fn only_reads(request: Request) -> bool {
    request is ResolveRoot || request is FindTree || request is TryTree
}

/// An entry that exists is not overwritten unless that is asked for: whatever is
/// known, the repository is only read, and the answer is that the entry exists.
/// That is the answer in no other case.
pub proof fn law_set_refuses_to_overwrite(
    known: Known,
    trees: Map<Seq<u8>, Seq<Entry>>,
    root: Option<Seq<u8>>,
    target: Seq<u8>,
    tree: Seq<u8>,
    options: MetadataOptions,
)
    requires
        fits(known, trees, root),
    ensures
        !options.force && (lookup(trees, root, hex(target)) matches Ok(Some(_)))
            ==> match set_step(known, target, tree, options) {
            Step::Do(request) => only_reads(request),
            Step::Return(answer) => answer == Err::<Seq<u8>, Error>(Error::AlreadyExists),
        },
        set_step(known, target, tree, options) matches Step::Return(Err(_)) ==> !options.force && (
        lookup(trees, root, hex(target)) matches Ok(Some(_))),
{
    if let Some(id) = root {
        lemma_detect_grows(known.trees, trees, id, hex(target), 0);
    }
}

/// The entry that is found by a name stands somewhere in the tree.
pub proof fn lemma_found_entry(tree: Seq<Entry>, name: Seq<char>) -> (i: int)
    requires
        entry_named(tree, name) is Some,
    ensures
        0 <= i < tree.len(),
        entry_named(tree, name) == Some(tree[i]),
        tree[i].name == Some(name),
    decreases tree.len(),
{
    if tree[0].name == Some(name) {
        0
    } else {
        let i = lemma_found_entry(tree.drop_first(), name);
        assert(tree.drop_first()[i] == tree[i + 1]);
        i + 1
    }
}

/// Below where a walk lacks a tree no walk leads on.
proof fn lemma_lacking_below(
    trees: Map<Seq<u8>, Seq<Entry>>,
    root: Seq<u8>,
    path: Seq<Seq<char>>,
    n: int,
)
    requires
        0 <= n <= path.len(),
        walk(trees, root, path.take(n)) is Err,
    ensures
        walk(trees, root, path) == walk(trees, root, path.take(n)),
    decreases path.len(),
{
    if trees.contains_key(root) {
        assert(path.take(n)[0] == path[0]);
        assert(path.take(n).drop_first() =~= path.drop_first().take(n - 1));
        let entry = entry_named(trees[root], path[0])->0;
        lemma_lacking_below(trees, entry.id, path.drop_first(), n - 1);
    }
}

/// Reading more trees, and finding more of them lacking, does not change what a sweep
/// finds, and a sweep that lacks a tree lacks one that was not read.
pub proof fn lemma_sweep_grows(
    some: Map<Seq<u8>, Seq<Entry>>,
    lacking: Seq<Seq<u8>>,
    trees: Map<Seq<u8>, Seq<Entry>>,
    more: Seq<Seq<u8>>,
    root: Seq<u8>,
    digits: Seq<char>,
    from: nat,
    keep: Option<nat>,
)
    requires
        some.submap_of(trees),
        is_lacking(lacking, trees),
        forall|id: Seq<u8>| #[trigger] lacking.contains(id) ==> more.contains(id),
    ensures
        sweep(some, lacking, root, digits, from, keep) is Ok ==> sweep(
            trees,
            more,
            root,
            digits,
            from,
            keep,
        ) == sweep(some, lacking, root, digits, from, keep),
        sweep(some, lacking, root, digits, from, keep) matches Err(missing) ==> {
            &&& !some.contains_key(missing)
            &&& !lacking.contains(missing)
            &&& !trees.contains_key(missing) && more.contains(missing) ==> sweep(
                trees,
                more,
                root,
                digits,
                from,
                keep,
            ) is Ok
        },
    decreases digits.len() / 2 - from,
{
    if from < digits.len() / 2 {
        lemma_probe_grows(some, trees, root, digits, from);
        lemma_sweep_grows(some, lacking, trees, more, root, digits, from + 1, keep);
    }
}

/// A sweep finds every depth from where it starts at which the index holds a tree,
/// and no other.
pub proof fn lemma_sweep_finds(
    some: Map<Seq<u8>, Seq<Entry>>,
    lacking: Seq<Seq<u8>>,
    trees: Map<Seq<u8>, Seq<Entry>>,
    root: Seq<u8>,
    target: Seq<u8>,
    from: nat,
    keep: Option<nat>,
    depth: nat,
)
    requires
        target.len() == 20,
        some.submap_of(trees),
        is_lacking(lacking, trees),
        sweep(some, lacking, root, hex(target), from, keep) is Ok,
        from <= depth < 20,
    ensures
        sweep(some, lacking, root, hex(target), from, keep)->Ok_0.contains(depth) <==> keep != Some(
            depth,
        ) && (cell(trees, Some(root), target, depth) matches Ok(Some(_))),
    decreases 20 - from,
{
    let digits = hex(target);
    lemma_hex_digits(target);
    lemma_probe_grows(some, trees, root, digits, from);
    let all = sweep(some, lacking, root, digits, from, keep)->Ok_0;
    match probe(some, root, digits, from) {
        Ok(here) => {
            let deeper = sweep(some, lacking, root, digits, from + 1, keep)->Ok_0;
            if depth > from {
                lemma_sweep_finds(some, lacking, trees, root, target, from + 1, keep, depth);
                if all.len() > deeper.len() {
                    if deeper.contains(depth) {
                        let i = choose|i: int| 0 <= i < deeper.len() && deeper[i] == depth;
                        assert(all[i + 1] == depth);
                    }
                    if all.contains(depth) {
                        let i = choose|i: int| 0 <= i < all.len() && all[i] == depth;
                        assert(deeper[i - 1] == depth);
                    }
                }
            } else {
                lemma_sweep_range(some, lacking, root, digits, from + 1, keep);
                if here is Some && keep != Some(from) {
                    assert(all[0] == from);
                }
            }
        },
        Err(missing) => {
            assert(segments(digits, depth).take(from as int) =~= segments(digits, from));
            lemma_lacking_below(trees, root, segments(digits, depth), from as int);
        },
    }
}

/// A sweep gives depths from where it starts on, in ascending order.
pub proof fn lemma_sweep_range(
    trees: Map<Seq<u8>, Seq<Entry>>,
    lacking: Seq<Seq<u8>>,
    root: Seq<u8>,
    digits: Seq<char>,
    from: nat,
    keep: Option<nat>,
)
    ensures
        sweep(trees, lacking, root, digits, from, keep) matches Ok(depths) ==> {
            &&& forall|i: int|
                0 <= i < depths.len() ==> from <= #[trigger] depths[i] < digits.len() / 2
            &&& forall|i: int, j: int|
                0 <= i < j < depths.len() ==> #[trigger] depths[i] < #[trigger] depths[j]
            &&& from <= digits.len() / 2 ==> depths.len() <= digits.len() / 2 - from
        },
    decreases digits.len() / 2 - from,
{
    if from < digits.len() / 2 {
        lemma_sweep_range(trees, lacking, root, digits, from + 1, keep);
    }
}

/// The depths from `from` on, other than `keep`, at which the index holds a tree for
/// the target, in their order.
pub open spec fn held_depths(
    trees: Map<Seq<u8>, Seq<Entry>>,
    root: Option<Seq<u8>>,
    target: Seq<u8>,
    from: nat,
    keep: Option<nat>,
) -> Seq<nat>
    decreases 20 - from,
{
    if from >= 20 {
        Seq::empty()
    } else {
        let deeper = held_depths(trees, root, target, from + 1, keep);
        if keep != Some(from) && (cell(trees, root, target, from) matches Ok(Some(_))) {
            seq![from] + deeper
        } else {
            deeper
        }
    }
}

/// Where the index holds nothing from some depth on, there are no such depths.
pub proof fn lemma_no_held_depths(
    trees: Map<Seq<u8>, Seq<Entry>>,
    root: Option<Seq<u8>>,
    target: Seq<u8>,
    from: nat,
    keep: Option<nat>,
)
    requires
        forall|depth: nat|
            from <= depth < 20 && keep != Some(depth) ==> !(#[trigger] cell(
                trees,
                root,
                target,
                depth,
            ) matches Ok(Some(_))),
    ensures
        held_depths(trees, root, target, from, keep) == Seq::<nat>::empty(),
    decreases 20 - from,
{
    if from < 20 {
        lemma_no_held_depths(trees, root, target, from + 1, keep);
    }
}

/// Two indexes that hold the same for a target hold it at the same depths.
pub proof fn lemma_same_held_depths(
    trees: Map<Seq<u8>, Seq<Entry>>,
    one: Option<Seq<u8>>,
    other: Option<Seq<u8>>,
    target: Seq<u8>,
    from: nat,
    keep: Option<nat>,
)
    requires
        forall|depth: nat|
            from <= depth < 20 ==> #[trigger] cell(trees, one, target, depth) == cell(
                trees,
                other,
                target,
                depth,
            ),
    ensures
        held_depths(trees, one, target, from, keep) == held_depths(
            trees,
            other,
            target,
            from,
            keep,
        ),
    decreases 20 - from,
{
    if from < 20 {
        assert(cell(trees, one, target, from) == cell(trees, other, target, from));
        lemma_same_held_depths(trees, one, other, target, from + 1, keep);
    }
}

/// A sweep finds the depths at which the index holds a tree, whatever was read for it.
pub proof fn lemma_sweep_is_held(
    some: Map<Seq<u8>, Seq<Entry>>,
    lacking: Seq<Seq<u8>>,
    trees: Map<Seq<u8>, Seq<Entry>>,
    root: Seq<u8>,
    target: Seq<u8>,
    from: nat,
    keep: Option<nat>,
)
    requires
        target.len() == 20,
        some.submap_of(trees),
        is_lacking(lacking, trees),
        sweep(some, lacking, root, hex(target), from, keep) is Ok,
    ensures
        sweep(some, lacking, root, hex(target), from, keep)->Ok_0 == held_depths(
            trees,
            Some(root),
            target,
            from,
            keep,
        ),
    decreases 20 - from,
{
    let digits = hex(target);
    lemma_hex_digits(target);
    if from < 20 {
        lemma_probe_grows(some, trees, root, digits, from);
        match probe(some, root, digits, from) {
            Ok(_) => {
                lemma_sweep_is_held(some, lacking, trees, root, target, from + 1, keep);
            },
            Err(_) => {
                assert forall|depth: nat|
                    from <= depth < 20 && keep != Some(depth) implies !(#[trigger] cell(
                    trees,
                    Some(root),
                    target,
                    depth,
                ) matches Ok(Some(_))) by {
                    assert(segments(digits, depth).take(from as int) =~= segments(digits, from));
                    lemma_lacking_below(trees, root, segments(digits, depth), from as int);
                }
                lemma_no_held_depths(trees, Some(root), target, from, keep);
            },
        }
    }
}

/// Planning a removal does not change where more trees are read.
pub proof fn lemma_removal_grows(
    some: Map<Seq<u8>, Seq<Entry>>,
    trees: Map<Seq<u8>, Seq<Entry>>,
    root: Seq<u8>,
    path: Seq<Seq<char>>,
    name: Seq<char>,
)
    requires
        some.submap_of(trees),
    ensures
        removal(some, root, path, name) is Ok ==> removal(trees, root, path, name) == removal(
            some,
            root,
            path,
            name,
        ),
        removal(some, root, path, name) matches Err(missing) ==> {
            &&& !some.contains_key(missing)
            &&& !trees.contains_key(missing) ==> removal(trees, root, path, name) == removal(
                some,
                root,
                path,
                name,
            )
        },
{
    lemma_existing_grows(some, trees, Some(root), path);
    lemma_existing(some, Some(root), path);
    if let Ok(chain) = existing(some, Some(root), path) {
        assert(chain.last() == chain[path.len() as int]);
        if chain.last() is Some {
            assert forall|i: int| 0 <= i < chain.len() implies some.contains_key(
                (#[trigger] chain[i])->0,
            ) by {
                lemma_existing_above(some, Some(root), path, i);
            }
            lemma_surviving_grows(some, trees, chain, path.push(name), path.len() + 1);
            let last = chain[path.len() as int]->0;
            assert(some.dom().contains(last));
            assert(trees.dom().contains(last));
            assert(trees[last] == some[last]);
        }
    }
}

proof fn lemma_surviving_grows(
    some: Map<Seq<u8>, Seq<Entry>>,
    trees: Map<Seq<u8>, Seq<Entry>>,
    chain: Seq<Option<Seq<u8>>>,
    names: Seq<Seq<char>>,
    levels: nat,
)
    requires
        some.submap_of(trees),
        levels <= chain.len(),
        forall|i: int| 0 <= i < chain.len() ==> some.contains_key((#[trigger] chain[i])->0),
    ensures
        surviving(trees, chain, names, levels) == surviving(some, chain, names, levels),
    decreases levels,
{
    if levels > 0 {
        let id = chain[levels - 1]->0;
        assert(some.contains_key(id)) by {
            assert(some.contains_key(chain[levels - 1]->0));
        }
        assert(some.dom().contains(id));
        assert(trees.contains_key(id) && trees[id] == some[id]);
        lemma_surviving_grows(some, trees, chain, names, (levels - 1) as nat);
    }
}

/// Reading more trees does not change how far the writing of trees has come, and
/// where a tree has to be read it was not read yet.
pub proof fn lemma_progress_grows(
    some: Map<Seq<u8>, Seq<Entry>>,
    trees: Map<Seq<u8>, Seq<Entry>>,
    root: Option<Seq<u8>>,
    target: Seq<u8>,
    depths: Seq<nat>,
    entry: Option<(nat, Seq<u8>)>,
    written: Seq<Seq<u8>>,
)
    requires
        some.submap_of(trees),
    ensures
        match progress(some, root, target, depths, entry, written) {
            Progress::Read(missing) => {
                &&& !some.contains_key(missing)
                &&& !trees.contains_key(missing) ==> progress(
                    trees,
                    root,
                    target,
                    depths,
                    entry,
                    written,
                ) == Progress::Read(missing)
            },
            reached => progress(trees, root, target, depths, entry, written) == reached,
        },
    decreases depths.len(),
{
    let digits = hex(target);
    if depths.len() == 0 {
        if let Some((level, tree)) = entry {
            lemma_existing_grows(some, trees, root, segments(digits, level));
        }
    } else {
        let rest = depths.drop_first();
        match root {
            None => {
                lemma_progress_grows(some, trees, root, target, rest, entry, written);
            },
            Some(id) => {
                let depth = depths[0];
                lemma_removal_grows(some, trees, id, segments(digits, depth), leaf(digits, depth));
                match remove_plan(some, id, target, depth) {
                    Err(_) => {},
                    Ok(RemoveResult::NotFound) => {
                        lemma_progress_grows(some, trees, root, target, rest, entry, written);
                    },
                    Ok(RemoveResult::Empty) => {
                        lemma_progress_grows(some, trees, None, target, rest, entry, written);
                    },
                    Ok(RemoveResult::Removed(plan)) => {
                        if written.len() >= plan.len() {
                            lemma_progress_grows(
                                some,
                                trees,
                                Some(written[plan.len() - 1]),
                                target,
                                rest,
                                entry,
                                written.skip(plan.len() as int),
                            );
                        }
                    },
                }
            },
        }
    }
}

/// A tree is asked for only where it was not read yet, and tried only where it was
/// not found lacking.
pub proof fn law_no_tree_is_read_twice(
    known: Known,
    trees: Map<Seq<u8>, Seq<Entry>>,
    root: Option<Seq<u8>>,
    target: Seq<u8>,
    tree: Seq<u8>,
    options: MetadataOptions,
)
    requires
        fits(known, trees, root),
    ensures
        match set_step(known, target, tree, options) {
            Step::Do(Request::FindTree(id)) => !known.trees.contains_key(id),
            Step::Do(Request::TryTree(id)) => !known.trees.contains_key(id)
                && !known.lacking.contains(id),
            _ => true,
        },
        match remove_step(known, target) {
            Step::Do(Request::FindTree(id)) => !known.trees.contains_key(id),
            Step::Do(Request::TryTree(id)) => !known.trees.contains_key(id)
                && !known.lacking.contains(id),
            _ => true,
        },
{
    assert(is_lacking(known.lacking, known.trees)) by {
        assert forall|id: Seq<u8>| known.lacking.contains(id) implies !known.trees.contains_key(
            id,
        ) by {
            if known.trees.contains_key(id) {
                assert(known.trees.dom().contains(id));
                assert(trees.dom().contains(id));
            }
        }
    }
    lemma_steps_grow(known, known.trees, target, tree, options);
}

/// Where a tree that writing or removing an entry has to read does not exist, the
/// operation cannot be done for want of that tree: it asks for it all the same
/// where every tree of the repository was read.
pub proof fn law_missing_trees_are_needed(
    known: Known,
    trees: Map<Seq<u8>, Seq<Entry>>,
    root: Option<Seq<u8>>,
    target: Seq<u8>,
    tree: Seq<u8>,
    options: MetadataOptions,
)
    requires
        fits(known, trees, root),
    ensures
        set_step(known, target, tree, options) matches Step::Do(Request::FindTree(id))
            ==> (!trees.contains_key(id) ==> set_step(
            Known { trees, ..known },
            target,
            tree,
            options,
        ) == set_step(known, target, tree, options)),
        remove_step(known, target) matches Step::Do(Request::FindTree(id))
            ==> (!trees.contains_key(id) ==> remove_step(Known { trees, ..known }, target)
            == remove_step(known, target)),
{
    lemma_steps_grow(known, trees, target, tree, options);
}

proof fn lemma_steps_grow(
    known: Known,
    trees: Map<Seq<u8>, Seq<Entry>>,
    target: Seq<u8>,
    tree: Seq<u8>,
    options: MetadataOptions,
)
    requires
        known.trees.submap_of(trees),
        is_lacking(known.lacking, trees),
    ensures
        match set_step(known, target, tree, options) {
            Step::Do(Request::FindTree(id)) => {
                &&& !known.trees.contains_key(id)
                &&& !trees.contains_key(id) ==> set_step(
                    Known { trees, ..known },
                    target,
                    tree,
                    options,
                ) == set_step(known, target, tree, options)
            },
            Step::Do(Request::TryTree(id)) => !known.trees.contains_key(id)
                && !known.lacking.contains(id),
            _ => true,
        },
        match remove_step(known, target) {
            Step::Do(Request::FindTree(id)) => {
                &&& !known.trees.contains_key(id)
                &&& !trees.contains_key(id) ==> remove_step(Known { trees, ..known }, target)
                    == remove_step(known, target)
            },
            Step::Do(Request::TryTree(id)) => !known.trees.contains_key(id)
                && !known.lacking.contains(id),
            _ => true,
        },
{
    let some = known.trees;
    let gone = known.lacking;
    let digits = hex(target);
    let level = options.shard_level as nat;
    if let Some(root) = known.root {
        if let Some(id) = root {
            lemma_detect_grows(some, trees, id, digits, 0);
            lemma_sweep_grows(some, gone, trees, gone, id, digits, 0, Some(level));
            if let Ok(Some((depth, _))) = detect(some, id, digits, 0) {
                lemma_sweep_grows(some, gone, trees, gone, id, digits, depth + 1, None);
            }
        }
        if let Ok(Some(depths)) = replaced(known, root, target, options) {
            lemma_progress_grows(
                some,
                trees,
                root,
                target,
                depths,
                Some((level, tree)),
                known.written,
            );
        }
        if let Ok(depths) = occupied(known, root, target) {
            lemma_progress_grows(some, trees, root, target, depths, None, known.written);
        }
    }
}

/// Above the depth at which an entry can be written the way is readable.
pub proof fn lemma_way_to_level(
    known: Map<Seq<u8>, Seq<Entry>>,
    trees: Map<Seq<u8>, Seq<Entry>>,
    root: Option<Seq<u8>>,
    target: Seq<u8>,
    tree: Seq<u8>,
    level: nat,
    depth: nat,
)
    requires
        known.submap_of(trees),
        target.len() == 20,
        depth <= level < 20,
        set_plan(known, root, target, tree, level) is Ok,
    ensures
        cell(trees, root, target, depth) is Ok,
{
    let path = segments(hex(target), level);
    lemma_existing_grows(known, trees, root, path);
    if let Some(id) = root {
        lemma_walk_along(trees, id, path, depth as int);
        assert(path.take(depth as int) =~= segments(hex(target), depth));
    }
}

/// Where the trees along a path were read, so were those along its beginning.
proof fn lemma_walk_along(
    trees: Map<Seq<u8>, Seq<Entry>>,
    root: Seq<u8>,
    path: Seq<Seq<char>>,
    n: int,
)
    requires
        existing(trees, Some(root), path) is Ok,
        0 <= n <= path.len(),
    ensures
        walk(trees, root, path.take(n)) is Ok,
    decreases n,
{
    if n > 0 {
        assert(path.take(n)[0] == path[0]);
        assert(path.take(n).drop_first() =~= path.drop_first().take(n - 1));
        if let Some(id) = child(trees[root], path[0]) {
            lemma_walk_along(trees, id, path.drop_first(), n - 1);
        }
    }
}

/// What a search found can be removed.
pub proof fn lemma_found_is_removed(
    trees: Map<Seq<u8>, Seq<Entry>>,
    root: Seq<u8>,
    target: Seq<u8>,
    depth: nat,
)
    requires
        cell(trees, Some(root), target, depth) matches Ok(Some(_)),
        remove_plan(trees, root, target, depth) is Ok,
    ensures
        !(remove_plan(trees, root, target, depth)->Ok_0 is NotFound),
{
    let path = segments(hex(target), depth);
    lemma_walk_is_last(trees, root, path);
}

/// A walk along a path ends in the last of the trees that stand along it.
pub proof fn lemma_walk_is_last(
    trees: Map<Seq<u8>, Seq<Entry>>,
    root: Seq<u8>,
    path: Seq<Seq<char>>,
)
    requires
        existing(trees, Some(root), path) is Ok,
    ensures
        walk(trees, root, path) == Ok::<Option<Seq<u8>>, Seq<u8>>(
            existing(trees, Some(root), path)->Ok_0.last(),
        ),
    decreases path.len(),
{
    lemma_existing(trees, Some(root), path);
    if path.len() > 0 {
        let next = child(trees[root], path[0]);
        lemma_existing(trees, next, path.drop_first());
        if let Some(id) = next {
            lemma_walk_is_last(trees, id, path.drop_first());
        }
    }
}

/// A tree that was written without a base holds its one entry and no other.
pub proof fn lemma_written_alone(
    trees: Map<Seq<u8>, Seq<Entry>>,
    edit: Edit,
    child: Option<Seq<u8>>,
    id: Seq<u8>,
)
    requires
        edit.base is None,
        is_written(trees, edit, child, id),
    ensures
        !has_others(trees[id], edit.name),
{
    let tree = trees[id];
    assert forall|i: int| 0 <= i < tree.len() implies (#[trigger] tree[i]).name == Some(
        edit.name,
    ) by {
        match tree[i].name {
            None => {
                assert(tree.contains(tree[i]));
                assert(entries_of(trees, edit.base).contains(tree[i]));
            },
            Some(name) => {
                lemma_entry_is_found(tree, i, name);
                assert(entry_named(tree, name) is Some);
                if name != edit.name {
                    assert(entry_named(tree, name) == entry_named(
                        entries_of(trees, edit.base),
                        name,
                    ));
                }
            },
        }
    }
}

/// A name that some entry has is found.
pub proof fn lemma_entry_is_found(tree: Seq<Entry>, i: int, name: Seq<char>)
    requires
        0 <= i < tree.len(),
        tree[i].name == Some(name),
    ensures
        entry_named(tree, name) is Some,
    decreases tree.len(),
{
    if tree[0].name != Some(name) {
        assert(tree.drop_first()[i - 1] == tree[i]);
        lemma_entry_is_found(tree.drop_first(), i - 1, name);
    }
}

/// The trees that writing an entry wrote stand along the way to it.
pub proof fn lemma_written_chain(
    trees: Map<Seq<u8>, Seq<Entry>>,
    chain: Seq<Option<Seq<u8>>>,
    path: Seq<Seq<char>>,
    name: Seq<char>,
    change: Change<Seq<u8>>,
    written: Seq<Seq<u8>>,
    j: int,
)
    requires
        0 <= j <= path.len(),
        carried_out(trees, plan(chain, path.push(name), path.len(), change), written),
    ensures
        existing(trees, Some(written[path.len() - j]), path.skip(j)) == Ok::<
            Seq<Option<Seq<u8>>>,
            Seq<u8>,
        >(Seq::new((path.len() - j + 1) as nat, |i: int| Some(written[path.len() - j - i]))),
    decreases path.len() - j,
{
    let level = path.len();
    let edits = plan(chain, path.push(name), level, change);
    let node = written[level - j];
    let edit = edits[level - j];
    let whole = Seq::new((level - j + 1) as nat, |i: int| Some(written[level - j - i]));
    assert(is_written(trees, edit, edit_child(edit, written.take(level - j)), node));
    if j < level {
        lemma_written_chain(trees, chain, path, name, change, written, j + 1);
        let rest = path.skip(j);
        assert(rest[0] == path[j] && edit.name == path[j]);
        assert(rest.drop_first() =~= path.skip(j + 1));
        assert(written.take(level - j).last() == written[level - j - 1]);
        assert(child(trees[node], path[j]) == Some(written[level - j - 1]));
        let below = Seq::new((level - j) as nat, |i: int| Some(written[level - (j + 1) - i]));
        assert(seq![Some(node)] + below =~= whole);
    } else {
        assert(seq![Some(node)] =~= whole);
    }
}

pub proof fn lemma_nothing_survives(
    trees: Map<Seq<u8>, Seq<Entry>>,
    chain: Seq<Option<Seq<u8>>>,
    names: Seq<Seq<char>>,
    levels: nat,
)
    requires
        levels <= chain.len(),
        forall|i: int|
            0 <= i < levels ==> !has_others(trees[(#[trigger] chain[i])->0], names[i]),
    ensures
        surviving(trees, chain, names, levels) is None,
    decreases levels,
{
    if levels > 0 {
        assert(!has_others(trees[chain[levels - 1]->0], names[levels - 1]));
        lemma_nothing_survives(trees, chain, names, (levels - 1) as nat);
    }
}

} // verus!
