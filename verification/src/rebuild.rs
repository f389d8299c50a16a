//! How the fanout tree is rebuilt when an entry is put in or taken out.
//!
//! Trees never change: a new entry means a new tree in place of the directory
//! that holds it, and so on up to the root. What has to be written is planned
//! here, from the deepest directory up.

use vstd::prelude::*;

use crate::fanout::contents;
use crate::oid::Oid;
use crate::tree::{entry_named, has_others, Entry, Trees};

verus! {

/// What happens to one entry of a tree.
pub enum Change<Id> {
    /// The entry names the tree with this id from now on.
    Insert(Id),
    /// The entry names the tree that the edit before this one wrote.
    InsertWritten,
    /// The entry goes.
    Remove,
}

/// A tree to write: the entries of `base`, or none, with one of them changed.
pub struct TreeEdit {
    pub base: Option<Oid>,
    pub name: String,
    pub change: Change<Oid>,
}

/// A tree to write, as contracts see it.
pub struct Edit {
    pub base: Option<Seq<u8>>,
    pub name: Seq<char>,
    pub change: Change<Seq<u8>>,
}

/// Result of a fanout removal operation.
pub enum RemoveResult<Plan> {
    /// The entry was not found in the tree.
    NotFound,
    /// The entry was removed; the root tree is now empty.
    Empty,
    /// The entry was removed; here is how the new root tree comes about.
    Removed(Plan),
}

/// An optional id, as contracts see it.
pub open spec fn id_view(id: Option<Oid>) -> Option<Seq<u8>> {
    match id {
        Some(id) => Some(id@),
        None => None,
    }
}

/// Optional ids, as contracts see them.
pub open spec fn ids_view(ids: Seq<Option<Oid>>) -> Seq<Option<Seq<u8>>> {
    ids.map_values(|id: Option<Oid>| id_view(id))
}

/// A change, as contracts see it.
pub open spec fn change_view(change: Change<Oid>) -> Change<Seq<u8>> {
    match change {
        Change::Insert(id) => Change::Insert(id@),
        Change::InsertWritten => Change::InsertWritten,
        Change::Remove => Change::Remove,
    }
}

impl View for TreeEdit {
    type V = Edit;

    open spec fn view(&self) -> Edit {
        Edit { base: id_view(self.base), name: self.name@, change: change_view(self.change) }
    }
}

/// A plan, as contracts see it.
pub open spec fn plan_view(plan: Seq<TreeEdit>) -> Seq<Edit> {
    plan.map_values(|edit: TreeEdit| edit@)
}

/// The id that the first entry of `tree` called `name` holds.
pub open spec fn child(tree: Seq<Entry>, name: Seq<char>) -> Option<Seq<u8>> {
    match entry_named(tree, name) {
        Some(entry) => Some(entry.id),
        None => None,
    }
}

/// The trees that stand along `path` from the tree `root`, that one first: `None`
/// from the first directory on that is missing. The error is the id of the first
/// tree on the way that `trees` does not hold.
pub open spec fn existing(
    trees: Map<Seq<u8>, Seq<Entry>>,
    root: Option<Seq<u8>>,
    path: Seq<Seq<char>>,
) -> Result<Seq<Option<Seq<u8>>>, Seq<u8>>
    decreases path.len(),
{
    match root {
        None => Ok(Seq::new(path.len() + 1, |i: int| None::<Seq<u8>>)),
        Some(id) => if !trees.contains_key(id) {
            Err(id)
        } else if path.len() == 0 {
            Ok(seq![Some(id)])
        } else {
            match existing(trees, child(trees[id], path[0]), path.drop_first()) {
                Ok(below) => Ok(seq![Some(id)] + below),
                Err(missing) => Err(missing),
            }
        },
    }
}

/// What has to be written for a change to the entry `names[level]` of the tree
/// `chain[level]`: that tree, then each tree above it, up to the root.
pub open spec fn plan(
    chain: Seq<Option<Seq<u8>>>,
    names: Seq<Seq<char>>,
    level: nat,
    change: Change<Seq<u8>>,
) -> Seq<Edit> {
    Seq::new(
        level + 1,
        |k: int|
            Edit {
                base: chain[level - k],
                name: names[level - k],
                change: if k == 0 {
                    change
                } else {
                    Change::InsertWritten
                },
            },
    )
}

/// The deepest of the first `levels` trees of `chain` that still holds an entry
/// once the one that `names` gives for it is gone.
pub open spec fn surviving(
    trees: Map<Seq<u8>, Seq<Entry>>,
    chain: Seq<Option<Seq<u8>>>,
    names: Seq<Seq<char>>,
    levels: nat,
) -> Option<nat>
    decreases levels,
{
    if levels == 0 {
        None
    } else if has_others(trees[chain[levels - 1]->0], names[levels - 1]) {
        Some((levels - 1) as nat)
    } else {
        surviving(trees, chain, names, (levels - 1) as nat)
    }
}

/// What has to be written so that the entry `leaf` in the directory `path` of the
/// tree `root` names the tree `value`.
pub open spec fn insertion(
    trees: Map<Seq<u8>, Seq<Entry>>,
    root: Option<Seq<u8>>,
    path: Seq<Seq<char>>,
    leaf: Seq<char>,
    value: Seq<u8>,
) -> Result<Seq<Edit>, Seq<u8>> {
    match existing(trees, root, path) {
        Ok(chain) => Ok(plan(chain, path.push(leaf), path.len(), Change::Insert(value))),
        Err(missing) => Err(missing),
    }
}

/// What has to be written so that the directory `path` of the tree `root` has no
/// entry `leaf`. A tree that would be left without entries is not written: its
/// own entry goes instead.
pub open spec fn removal(
    trees: Map<Seq<u8>, Seq<Entry>>,
    root: Seq<u8>,
    path: Seq<Seq<char>>,
    leaf: Seq<char>,
) -> Result<RemoveResult<Seq<Edit>>, Seq<u8>> {
    match existing(trees, Some(root), path) {
        Ok(chain) => {
            let names = path.push(leaf);
            Ok(
                if chain.last() is None || entry_named(trees[chain.last()->0], leaf) is None {
                    RemoveResult::NotFound
                } else {
                    match surviving(trees, chain, names, names.len()) {
                        Some(level) => RemoveResult::Removed(
                            plan(chain, names, level, Change::Remove),
                        ),
                        None => RemoveResult::Empty,
                    }
                },
            )
        },
        Err(missing) => Err(missing),
    }
}

/// The outcome of planning an insertion, as contracts see it.
pub open spec fn insertion_view(r: Result<Vec<TreeEdit>, Oid>) -> Result<Seq<Edit>, Seq<u8>> {
    match r {
        Ok(edits) => Ok(plan_view(edits@)),
        Err(missing) => Err(missing@),
    }
}

/// The outcome of planning a removal, as contracts see it.
pub open spec fn removal_view(r: Result<RemoveResult<Vec<TreeEdit>>, Oid>) -> Result<
    RemoveResult<Seq<Edit>>,
    Seq<u8>,
> {
    match r {
        Ok(RemoveResult::NotFound) => Ok(RemoveResult::NotFound),
        Ok(RemoveResult::Empty) => Ok(RemoveResult::Empty),
        Ok(RemoveResult::Removed(edits)) => Ok(RemoveResult::Removed(plan_view(edits@))),
        Err(missing) => Err(missing@),
    }
}

/// The trees along a path are one more than its directories; those that stand
/// were all read, and below one that is missing all are missing.
pub proof fn lemma_existing(
    trees: Map<Seq<u8>, Seq<Entry>>,
    root: Option<Seq<u8>>,
    path: Seq<Seq<char>>,
)
    ensures
        existing(trees, root, path) matches Ok(chain) ==> {
            &&& chain.len() == path.len() + 1
            &&& chain[0] == root
            &&& forall|i: int|
                0 <= i < chain.len() ==> (#[trigger] chain[i] matches Some(id)
                    ==> trees.contains_key(id))
            &&& forall|i: int|
                0 <= i < path.len() ==> #[trigger] chain[i + 1] == (match chain[i] {
                    Some(id) => child(trees[id], path[i]),
                    None => None,
                })
        },
        existing(trees, root, path) matches Err(missing) ==> !trees.contains_key(missing),
    decreases path.len(),
{
    if let Some(id) = root {
        if trees.contains_key(id) && path.len() > 0 {
            let next = child(trees[id], path[0]);
            let rest = path.drop_first();
            lemma_existing(trees, next, rest);
            if let Ok(chain) = existing(trees, root, path) {
                let below = existing(trees, next, rest)->Ok_0;
                assert forall|i: int| 0 <= i < path.len() implies #[trigger] chain[i + 1] == (
                match chain[i] {
                    Some(id) => child(trees[id], path[i]),
                    None => None,
                }) by {
                    if i > 0 {
                        assert(chain[i + 1] == below[(i - 1) + 1]);
                        assert(chain[i] == below[i - 1]);
                        assert(rest[i - 1] == path[i]);
                    }
                }
            }
        }
    }
}

/// Where every tree along a path stands, so does each one above the last.
pub proof fn lemma_existing_above(
    trees: Map<Seq<u8>, Seq<Entry>>,
    root: Option<Seq<u8>>,
    path: Seq<Seq<char>>,
    i: int,
)
    requires
        existing(trees, root, path) is Ok,
        existing(trees, root, path)->Ok_0.last() is Some,
        0 <= i <= path.len(),
    ensures
        existing(trees, root, path)->Ok_0[i] is Some,
    decreases path.len() - i,
{
    lemma_existing(trees, root, path);
    if i < path.len() {
        lemma_existing_above(trees, root, path, i + 1);
        assert(existing(trees, root, path)->Ok_0[i + 1] is Some);
    }
}

/// Gathers the trees that stand along `path`.
fn gather(trees: &Trees, root: Option<Oid>, path: &Vec<String>) -> (r: Result<
    Vec<Option<Oid>>,
    Oid,
>)
    ensures
        match r {
            Ok(chain) => existing(trees@, id_view(root), contents(path@)) == Ok::<
                Seq<Option<Seq<u8>>>,
                Seq<u8>,
            >(ids_view(chain@)),
            Err(missing) => existing(trees@, id_view(root), contents(path@)) == Err::<
                Seq<Option<Seq<u8>>>,
                Seq<u8>,
            >(missing@),
        },
{
    let ghost whole = existing(trees@, id_view(root), contents(path@));
    let mut chain: Vec<Option<Oid>> = Vec::new();
    let mut current: Option<Oid> = root;
    assert(contents(path@).skip(0) =~= contents(path@));
    assert(whole is Ok ==> ids_view(chain@) + whole->Ok_0 =~= whole->Ok_0);
    while chain.len() < path.len()
        invariant
            chain.len() <= path.len(),
            whole == existing(trees@, id_view(root), contents(path@)),
            whole == (match existing(
                trees@,
                id_view(current),
                contents(path@).skip(chain.len() as int),
            ) {
                Ok(below) => Ok(ids_view(chain@) + below),
                Err(missing) => Err(missing),
            }),
        decreases path.len() - chain.len(),
    {
        let i: usize = chain.len();
        let ghost rest = contents(path@).skip(i as int);
        let ghost before = chain@;
        assert(rest[0] == path@[i as int]@);
        assert(rest.drop_first() =~= contents(path@).skip(i + 1));
        match current {
            None => {
                chain.push(None);
                proof {
                    let below = existing(trees@, None, rest.drop_first())->Ok_0;
                    assert(ids_view(before) + existing(trees@, None, rest)->Ok_0 =~= ids_view(
                        chain@,
                    ) + below);
                }
            },
            Some(id) => match trees.find_tree(&id) {
                None => {
                    return Err(id);
                },
                Some(tree) => {
                    chain.push(Some(id));
                    current = match tree.get_name(&path[i]) {
                        Some(entry) => Some(entry.id),
                        None => None,
                    };
                    proof {
                        if let Ok(below) = existing(trees@, id_view(current), rest.drop_first()) {
                            assert(ids_view(before) + (seq![Some(id@)] + below) =~= ids_view(chain@)
                                + below);
                        }
                    }
                },
            },
        }
    }
    if let Some(id) = current {
        if trees.find_tree(&id).is_none() {
            return Err(id);
        }
    }
    let ghost before = chain@;
    chain.push(current);
    assert(ids_view(chain@) =~= ids_view(before) + seq![id_view(current)]);
    assert(id_view(current) is None ==> existing(
        trees@,
        None,
        contents(path@).skip(path.len() as int),
    )->Ok_0 =~= seq![None]);
    Ok(chain)
}

/// Plans the trees to write from level `level` up to the root.
fn climb(
    chain: &Vec<Option<Oid>>,
    path: &Vec<String>,
    leaf: &str,
    level: usize,
    change: Change<Oid>,
) -> (r: Vec<TreeEdit>)
    requires
        chain@.len() == path@.len() + 1,
        level <= path@.len(),
    ensures
        plan_view(r@) == plan(
            ids_view(chain@),
            contents(path@).push(leaf@),
            level as nat,
            change_view(change),
        ),
{
    let ghost names = contents(path@).push(leaf@);
    let name = if level < path.len() {
        path[level].clone()
    } else {
        leaf.to_owned()
    };
    let first = TreeEdit { base: chain[level], name, change };
    let mut edits: Vec<TreeEdit> = Vec::new();
    let ghost all = plan(ids_view(chain@), names, level as nat, change_view(change));
    edits.push(first);
    let mut i: usize = level;
    assert(plan_view(edits@) =~= all.take(1));
    while i > 0
        invariant
            i <= level <= path.len(),
            chain@.len() == path@.len() + 1,
            names == contents(path@).push(leaf@),
            all == plan(ids_view(chain@), names, level as nat, change_view(change)),
            plan_view(edits@) == all.take(level - i + 1),
        decreases i,
    {
        i = i - 1;
        let ghost before = edits@;
        edits.push(
            TreeEdit { base: chain[i], name: path[i].clone(), change: Change::InsertWritten },
        );
        assert(plan_view(edits@) =~= plan_view(before).push(edits@.last()@));
        assert(edits@.last()@ == all[level - i]);
        assert(all.take(level - i + 1) =~= all.take(level - i).push(all[level - i]));
    }
    assert(all.take(level + 1) =~= all);
    edits
}

/// Plans the nested fanout tree for an upsert. `existing_root` is the current
/// root tree (if any). The error is the id of a tree that has to be read first.
pub fn build_fanout(
    trees: &Trees,
    existing_root: Option<Oid>,
    path: &Vec<String>,
    leaf: &str,
    value_tree_oid: &Oid,
) -> (r: Result<Vec<TreeEdit>, Oid>)
    ensures
        insertion_view(r) == insertion(
            trees@,
            id_view(existing_root),
            contents(path@),
            leaf@,
            value_tree_oid@,
        ),
{
    let chain = match gather(trees, existing_root, path) {
        Ok(chain) => chain,
        Err(missing) => {
            return Err(missing);
        },
    };
    proof {
        lemma_existing(trees@, id_view(existing_root), contents(path@));
    }
    Ok(climb(&chain, path, leaf, path.len(), Change::Insert(*value_tree_oid)))
}

/// Plans the nested fanout tree for a removal. The error is the id of a tree that
/// has to be read first.
pub fn build_fanout_remove(trees: &Trees, root: &Oid, path: &Vec<String>, leaf: &str) -> (r: Result<
    RemoveResult<Vec<TreeEdit>>,
    Oid,
>)
    ensures
        removal_view(r) == removal(trees@, root@, contents(path@), leaf@),
{
    let chain = match gather(trees, Some(*root), path) {
        Ok(chain) => chain,
        Err(missing) => {
            return Err(missing);
        },
    };
    let ghost names = contents(path@).push(leaf@);
    proof {
        lemma_existing(trees@, Some(root@), contents(path@));
    }
    let name = leaf.to_owned();
    let found = match chain[path.len()] {
        None => false,
        Some(deepest) => match trees.find_tree(&deepest) {
            None => false,
            Some(tree) => tree.get_name(&name).is_some(),
        },
    };
    assert(chain@.last() == chain@[path@.len() as int]);
    assert(ids_view(chain@).last() == id_view(chain@[path@.len() as int]));
    if !found {
        return Ok(RemoveResult::NotFound);
    }
    let mut levels: usize = chain.len();
    while levels > 0
        invariant
            levels <= chain@.len() == path@.len() + 1 == names.len(),
            names == contents(path@).push(leaf@),
            name@ == leaf@,
            existing(trees@, Some(root@), contents(path@)) == Ok::<
                Seq<Option<Seq<u8>>>,
                Seq<u8>,
            >(ids_view(chain@)),
            ids_view(chain@).last() is Some,
            entry_named(trees@[ids_view(chain@).last()->0], leaf@) is Some,
            surviving(trees@, ids_view(chain@), names, names.len()) == surviving(
                trees@,
                ids_view(chain@),
                names,
                levels as nat,
            ),
        decreases levels,
    {
        levels = levels - 1;
        let at = if levels < path.len() {
            &path[levels]
        } else {
            &name
        };
        proof {
            lemma_existing(trees@, Some(root@), contents(path@));
            lemma_existing_above(trees@, Some(root@), contents(path@), levels as int);
            assert(at@ == names[levels as int]);
            assert(ids_view(chain@)[levels as int] == id_view(chain@[levels as int]));
        }
        if let Some(id) = chain[levels] {
            if let Some(tree) = trees.find_tree(&id) {
                if tree.has_others(at) {
                    return Ok(
                        RemoveResult::Removed(climb(&chain, path, leaf, levels, Change::Remove)),
                    );
                }
            }
        }
    }
    Ok(RemoveResult::Empty)
}

} // verus!
