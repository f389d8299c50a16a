//! Where an entry stands in the fanout tree, and how it is found there.
//!
//! An entry for a target stands at some depth: that many directories, each
//! named by two hexadecimal digits of the target's id, and in the last of them
//! an entry named by the digits that are left.

use vstd::prelude::*;

use crate::oid::{hex, is_hex_digit, lemma_hex_digits, Oid};
use crate::tree::{entry_named, is_tree, Entry, Trees};

verus! {

/// Whether `name` is that of a fanout directory: two hexadecimal digits.
pub open spec fn is_fanout(name: Seq<char>) -> bool {
    &&& name.len() == 2
    &&& is_hex_digit(name[0])
    &&& is_hex_digit(name[1])
}

/// The directories that lead to depth `depth`: the first pairs of digits of `digits`.
pub open spec fn segments(digits: Seq<char>, depth: nat) -> Seq<Seq<char>> {
    Seq::new(depth, |i: int| digits.subrange(2 * i, 2 * i + 2))
}

/// The name of an entry at depth `depth`: the digits that the directories leave over.
pub open spec fn leaf(digits: Seq<char>, depth: nat) -> Seq<char> {
    digits.subrange(2 * depth as int, digits.len() as int)
}

/// What the strings of `texts` hold.
pub open spec fn contents(texts: Seq<String>) -> Seq<Seq<char>> {
    texts.map_values(|text: String| text@)
}

/// The tree that the directories `path` lead to from the tree `root`: `None` where
/// one of them is missing, and the id of the first tree on the way that `trees`
/// does not hold, where there is one.
pub open spec fn walk(
    trees: Map<Seq<u8>, Seq<Entry>>,
    root: Seq<u8>,
    path: Seq<Seq<char>>,
) -> Result<Option<Seq<u8>>, Seq<u8>>
    decreases path.len(),
{
    if !trees.contains_key(root) {
        Err(root)
    } else if path.len() == 0 {
        Ok(Some(root))
    } else {
        match entry_named(trees[root], path[0]) {
            Some(entry) => walk(trees, entry.id, path.drop_first()),
            None => Ok(None),
        }
    }
}

/// The tree that the entry `name` names in the directory `path` of the tree
/// `root`, where there is such an entry and it names a tree.
pub open spec fn held(
    trees: Map<Seq<u8>, Seq<Entry>>,
    root: Seq<u8>,
    path: Seq<Seq<char>>,
    name: Seq<char>,
) -> Result<Option<Seq<u8>>, Seq<u8>> {
    match walk(trees, root, path) {
        Ok(Some(directory)) => match entry_named(trees[directory], name) {
            Some(entry) => Ok(
                if is_tree(entry) {
                    Some(entry.id)
                } else {
                    None
                },
            ),
            None => Ok(None),
        },
        Ok(None) => Ok(None),
        Err(missing) => Err(missing),
    }
}

/// The tree that stands for the id `digits` at depth `depth`, where one does.
pub open spec fn probe(
    trees: Map<Seq<u8>, Seq<Entry>>,
    root: Seq<u8>,
    digits: Seq<char>,
    depth: nat,
) -> Result<Option<Seq<u8>>, Seq<u8>> {
    held(trees, root, segments(digits, depth), leaf(digits, depth))
}

/// The least depth from `depth` on at which something stands for the id
/// `digits`, and what stands there. Depths end where two digits are left.
pub open spec fn detect(
    trees: Map<Seq<u8>, Seq<Entry>>,
    root: Seq<u8>,
    digits: Seq<char>,
    depth: nat,
) -> Result<Option<(nat, Seq<u8>)>, Seq<u8>>
    decreases digits.len() / 2 - depth,
{
    if depth >= digits.len() / 2 {
        Ok(None)
    } else {
        match probe(trees, root, digits, depth) {
            Ok(Some(id)) => Ok(Some((depth, id))),
            Ok(None) => detect(trees, root, digits, depth + 1),
            Err(missing) => Err(missing),
        }
    }
}

/// All depths from `from` on, other than `keep`, at which something stands for the
/// id `digits`, in their order. Below a tree that is among `lacking` nothing stands.
pub open spec fn sweep(
    trees: Map<Seq<u8>, Seq<Entry>>,
    lacking: Seq<Seq<u8>>,
    root: Seq<u8>,
    digits: Seq<char>,
    from: nat,
    keep: Option<nat>,
) -> Result<Seq<nat>, Seq<u8>>
    decreases digits.len() / 2 - from,
{
    if from >= digits.len() / 2 {
        Ok(Seq::empty())
    } else {
        match probe(trees, root, digits, from) {
            Ok(here) => match sweep(trees, lacking, root, digits, from + 1, keep) {
                Ok(deeper) => Ok(
                    if here is Some && keep != Some(from) {
                        seq![from] + deeper
                    } else {
                        deeper
                    },
                ),
                Err(missing) => Err(missing),
            },
            Err(missing) => if lacking.contains(missing) {
                Ok(Seq::empty())
            } else {
                Err(missing)
            },
        }
    }
}

/// Ids, as contracts see them.
pub open spec fn oids_view(ids: Seq<Oid>) -> Seq<Seq<u8>> {
    ids.map_values(|id: Oid| id@)
}

/// Depths, as contracts see them.
pub open spec fn depths_view(depths: Seq<usize>) -> Seq<nat> {
    depths.map_values(|depth: usize| depth as nat)
}

/// The outcome of a sweep, as contracts see it.
pub open spec fn sweep_view(r: Result<Vec<usize>, Oid>) -> Result<Seq<nat>, Seq<u8>> {
    match r {
        Ok(depths) => Ok(depths_view(depths@)),
        Err(missing) => Err(missing@),
    }
}

/// An optional depth, as contracts see it.
pub open spec fn depth_view(depth: Option<usize>) -> Option<nat> {
    match depth {
        Some(depth) => Some(depth as nat),
        None => None,
    }
}

/// The outcome of a walk, as contracts see it.
pub open spec fn directory_view(r: Result<Option<Oid>, Oid>) -> Result<Option<Seq<u8>>, Seq<u8>> {
    match r {
        Ok(Some(directory)) => Ok(Some(directory@)),
        Ok(None) => Ok(None),
        Err(missing) => Err(missing@),
    }
}

/// Where something stands for the id `digits`, at the least depth, and what stands
/// there: the directories, the name and the tree.
pub open spec fn detected(
    trees: Map<Seq<u8>, Seq<Entry>>,
    root: Seq<u8>,
    digits: Seq<char>,
) -> Result<Option<(Seq<Seq<char>>, Seq<char>, Seq<u8>)>, Seq<u8>> {
    match detect(trees, root, digits, 0) {
        Ok(Some((depth, id))) => Ok(Some((segments(digits, depth), leaf(digits, depth), id))),
        Ok(None) => Ok(None),
        Err(missing) => Err(missing),
    }
}

/// The outcome of a search, as contracts see it.
pub open spec fn detected_view(r: Result<Option<(Vec<String>, String, Oid)>, Oid>) -> Result<
    Option<(Seq<Seq<char>>, Seq<char>, Seq<u8>)>,
    Seq<u8>,
> {
    match r {
        Ok(Some((path, name, id))) => Ok(Some((contents(path@), name@, id@))),
        Ok(None) => Ok(None),
        Err(missing) => Err(missing@),
    }
}

/// A walk ends in a tree that was read, or at the id of one that was not.
pub proof fn lemma_walk_ends(
    trees: Map<Seq<u8>, Seq<Entry>>,
    root: Seq<u8>,
    path: Seq<Seq<char>>,
)
    ensures
        walk(trees, root, path) matches Ok(Some(directory)) ==> trees.contains_key(directory),
        walk(trees, root, path) matches Err(missing) ==> !trees.contains_key(missing),
    decreases path.len(),
{
    if trees.contains_key(root) && path.len() > 0 {
        if let Some(entry) = entry_named(trees[root], path[0]) {
            lemma_walk_ends(trees, entry.id, path.drop_first());
        }
    }
}

/// The directories of a way, one by one.
proof fn lemma_way_in_words(path: Seq<String>, digits: Seq<char>, depth: nat)
    requires
        contents(path) == segments(digits, depth),
    ensures
        path.len() == depth,
        forall|i: int|
            0 <= i < depth ==> (#[trigger] path[i])@ == digits.subrange(2 * i, 2 * i + 2),
{
    assert(contents(path).len() == depth);
    assert forall|i: int| 0 <= i < depth implies (#[trigger] path[i])@ == digits.subrange(
        2 * i,
        2 * i + 2,
    ) by {
        assert(contents(path)[i] == segments(digits, depth)[i]);
    }
}

/// Whether `c` is a hexadecimal digit, of either case.
fn is_ascii_hexdigit(c: char) -> (r: bool)
    ensures
        r == is_hex_digit(c),
{
    ('0' <= c && c <= '9') || ('a' <= c && c <= 'f') || ('A' <= c && c <= 'F')
}

/// Returns `true` if `name` is a 2-char hex string (fanout directory name).
pub fn is_fanout_segment(name: &str) -> (r: bool)
    ensures
        r == is_fanout(name@),
        r == (name@.len() == 2 && forall|i: int|
            0 <= i < 2 ==> '0' <= #[trigger] name@[i] <= '9' || 'a' <= name@[i] <= 'f' || 'A'
                <= name@[i] <= 'F'),
{
    name.unicode_len() == 2 && is_ascii_hexdigit(name.get_char(0)) && is_ascii_hexdigit(
        name.get_char(1),
    )
}

/// Splits the digits of an id into `shard_level` directory names of two digits
/// each and the name of the entry, which is the rest.
fn shard_digits(digits: &String, shard_level: usize) -> (r: (Vec<String>, String))
    requires
        digits.is_ascii(),
        2 * shard_level <= digits@.len(),
        digits@.len() == 40,
    ensures
        contents(r.0@) == segments(digits@, shard_level as nat),
        r.1@ == leaf(digits@, shard_level as nat),
{
    let mut directories: Vec<String> = Vec::new();
    let mut pos: usize = 0;
    while directories.len() < shard_level
        invariant
            digits.is_ascii(),
            directories.len() <= shard_level,
            2 * shard_level <= digits@.len(),
            digits@.len() == 40,
            pos == 2 * directories.len(),
            contents(directories@) == segments(digits@, directories.len() as nat),
        decreases shard_level - directories.len(),
    {
        let ghost before = directories@;
        directories.push(digits.as_str().substring_ascii(pos, pos + 2).to_owned());
        pos = pos + 2;
        assert(contents(directories@) =~= contents(before).push(directories@.last()@));
        assert(segments(digits@, directories.len() as nat) =~= segments(
            digits@,
            before.len(),
        ).push(directories@.last()@));
    }
    let rest = digits.as_str().substring_ascii(pos, 40).to_owned();
    (directories, rest)
}

/// Split a hex OID string into `(prefix_segments, leaf)` according to `shard_level`.
/// Each segment is 2 hex chars. `shard_level` is the number of 2-char directory
/// segments; the remainder is the leaf name.
pub fn shard_oid(oid: &Oid, shard_level: u8) -> (r: (Vec<String>, String))
    requires
        shard_level <= 20,
    ensures
        contents(r.0@) == segments(hex(oid@), shard_level as nat),
        r.1@ == leaf(hex(oid@), shard_level as nat),
        r.0@.len() == shard_level,
        forall|i: int|
            0 <= i < shard_level ==> (#[trigger] r.0@[i])@ == hex(oid@).subrange(2 * i, 2 * i + 2),
        r.1@ == hex(oid@).subrange(2 * shard_level as int, 40),
{
    let r = shard_digits(&oid.to_string(), shard_level as usize);
    proof {
        lemma_hex_digits(oid@);
        lemma_way_in_words(r.0@, hex(oid@), shard_level as nat);
    }
    r
}

/// Walks into a tree following `path`: the id of the tree that it leads to, if
/// every directory on it exists. The error is the id of a tree that has to be
/// read first.
pub fn walk_tree(trees: &Trees, root: &Oid, path: &Vec<String>) -> (r: Result<Option<Oid>, Oid>)
    ensures
        directory_view(r) == walk(trees@, root@, contents(path@)),
        match r {
            Ok(Some(directory)) => trees@.contains_key(directory@),
            Ok(None) => path@.len() > 0,
            Err(missing) => !trees@.contains_key(missing@),
        },
        path@.len() == 0 ==> r == (if trees@.contains_key(root@) {
            Ok(Some(*root))
        } else {
            Err(*root)
        }),
{
    let mut current: Oid = *root;
    let mut i: usize = 0;
    assert(contents(path@).skip(0) =~= contents(path@));
    while i < path.len()
        invariant
            i <= path.len(),
            walk(trees@, root@, contents(path@)) == walk(
                trees@,
                current@,
                contents(path@).skip(i as int),
            ),
            path@.len() == 0 ==> current == *root,
        decreases path.len() - i,
    {
        let ghost rest = contents(path@).skip(i as int);
        assert(rest[0] == path@[i as int]@);
        assert(rest.drop_first() =~= contents(path@).skip(i + 1));
        match trees.find_tree(&current) {
            None => {
                return Err(current);
            },
            Some(tree) => match tree.get_name(&path[i]) {
                None => {
                    return Ok(None);
                },
                Some(entry) => {
                    current = entry.id;
                },
            },
        }
        i = i + 1;
    }
    match trees.find_tree(&current) {
        None => Err(current),
        Some(_) => Ok(Some(current)),
    }
}

/// Detects the fanout path for `target` in `root` by probing all possible depths.
/// Returns `Some((segments, leaf, entry_oid))` if found, `None` otherwise. The
/// error is the id of a tree that has to be read first.
pub fn detect_fanout(trees: &Trees, root: &Oid, target: &Oid) -> (r: Result<
    Option<(Vec<String>, String, Oid)>,
    Oid,
>)
    ensures
        detected_view(r) == detected(trees@, root@, hex(target@)),
        r matches Ok(Some((path, _, _))) ==> path@.len() < 20,
        match r {
            Ok(Some((path, name, id))) => {
                &&& held(trees@, root@, contents(path@), name@) == Ok::<
                    Option<Seq<u8>>,
                    Seq<u8>,
                >(Some(id@))
                &&& forall|i: int|
                    0 <= i < path@.len() ==> (#[trigger] path@[i])@ == hex(target@).subrange(
                        2 * i,
                        2 * i + 2,
                    )
                &&& name@ == hex(target@).subrange(2 * path@.len() as int, 40)
            },
            Ok(None) => true,
            Err(missing) => !trees@.contains_key(missing@),
        },
{
    let digits = target.to_string();
    let mut depth: usize = 0;
    while depth < 20
        invariant
            depth <= 20,
            digits.is_ascii(),
            digits@ == hex(target@),
            digits@.len() == 40,
            detect(trees@, root@, digits@, 0) == detect(trees@, root@, digits@, depth as nat),
        decreases 20 - depth,
    {
        let (path, name) = shard_digits(&digits, depth);
        proof {
            lemma_walk_ends(trees@, root@, contents(path@));
        }
        match walk_tree(trees, root, &path) {
            Err(missing) => {
                return Err(missing);
            },
            Ok(None) => {},
            Ok(Some(directory)) => match trees.find_tree(&directory) {
                None => {
                    return Err(directory);
                },
                Some(tree) => match tree.get_name(&name) {
                    None => {},
                    Some(entry) => {
                        if entry.is_tree() {
                            assert(contents(path@).len() == path@.len());
                            proof {
                                lemma_way_in_words(path@, hex(target@), depth as nat);
                            }
                            return Ok(Some((path, name, entry.id)));
                        }
                    },
                },
            },
        }
        depth = depth + 1;
    }
    Ok(None)
}

/// Whether `id` is among `ids`.
fn is_among(ids: &Vec<Oid>, id: &Oid) -> (r: bool)
    ensures
        r == oids_view(ids@).contains(id@),
{
    let mut i: usize = 0;
    while i < ids.len()
        invariant
            i <= ids.len(),
            forall|j: int| 0 <= j < i ==> #[trigger] oids_view(ids@)[j] != id@,
        decreases ids.len() - i,
    {
        assert(oids_view(ids@)[i as int] == ids@[i as int]@);
        if ids[i] == *id {
            return true;
        }
        i = i + 1;
    }
    false
}

/// All depths from `from` on, other than `keep`, at which `root` holds an entry for
/// `target`. Trees among `lacking` cannot be read, and count for nothing. The error is
/// the id of a tree that has to be read first, if it can be.
pub fn sweep_fanout(
    trees: &Trees,
    lacking: &Vec<Oid>,
    root: &Oid,
    target: &Oid,
    from: usize,
    keep: Option<usize>,
) -> (r: Result<Vec<usize>, Oid>)
    ensures
        sweep_view(r) == sweep(
            trees@,
            oids_view(lacking@),
            root@,
            hex(target@),
            from as nat,
            depth_view(keep),
        ),
        r matches Ok(depths) ==> forall|i: int|
            0 <= i < depths@.len() ==> #[trigger] depths@[i] < 20,
{
    let digits = target.to_string();
    let mut depths: Vec<usize> = Vec::new();
    let mut depth: usize = from;
    let ghost gone = oids_view(lacking@);
    let ghost whole = sweep(trees@, gone, root@, hex(target@), from as nat, depth_view(keep));
    assert(depths_view(depths@) =~= Seq::empty());
    assert(whole is Ok ==> depths_view(depths@) + whole->Ok_0 =~= whole->Ok_0);
    while depth < 20
        invariant
            digits.is_ascii(),
            digits@ == hex(target@),
            digits@.len() == 40,
            forall|i: int| 0 <= i < depths@.len() ==> #[trigger] depths@[i] < 20,
            gone == oids_view(lacking@),
            whole == sweep(trees@, gone, root@, hex(target@), from as nat, depth_view(keep)),
            whole == (match sweep(trees@, gone, root@, digits@, depth as nat, depth_view(keep)) {
                Ok(deeper) => Ok(depths_view(depths@) + deeper),
                Err(missing) => Err(missing),
            }),
        decreases 20 - depth,
    {
        let ghost before = depths@;
        let ghost deeper = sweep(
            trees@,
            gone,
            root@,
            digits@,
            (depth + 1) as nat,
            depth_view(keep),
        );
        let (path, name) = shard_digits(&digits, depth);
        proof {
            lemma_walk_ends(trees@, root@, contents(path@));
        }
        let here = match walk_tree(trees, root, &path) {
            Err(missing) => {
                if is_among(lacking, &missing) {
                    assert(depths_view(depths@) + Seq::empty() =~= depths_view(depths@));
                    return Ok(depths);
                }
                return Err(missing);
            },
            Ok(None) => false,
            Ok(Some(directory)) => match trees.find_tree(&directory) {
                None => false,
                Some(tree) => match tree.get_name(&name) {
                    None => false,
                    Some(entry) => entry.is_tree(),
                },
            },
        };
        let kept = match keep {
            Some(kept) => kept == depth,
            None => false,
        };
        if here && !kept {
            depths.push(depth);
            assert(depths_view(depths@) =~= depths_view(before).push(depth as nat));
            assert(deeper is Ok ==> depths_view(depths@) + deeper->Ok_0 =~= depths_view(before) + (
            seq![depth as nat] + deeper->Ok_0));
        }
        depth = depth + 1;
    }
    assert(depths_view(depths@) + Seq::empty() =~= depths_view(depths@));
    Ok(depths)
}

} // verus!
