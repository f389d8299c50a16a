//! Tree objects as the index reads them, and the trees that were read so far.

use vstd::prelude::*;
use vstd::utf8::encode_utf8;

use crate::oid::Oid;

verus! {

/// The kind of the object that a tree entry names.
#[derive(Clone, Copy, Debug, PartialEq, Eq, Structural)]
pub enum ObjectKind {
    Any,
    Commit,
    Tree,
    Blob,
    Tag,
}

/// One entry of a tree object.
#[derive(Debug)]
pub struct TreeEntry {
    /// The entry's name, `None` where it is not valid UTF-8.
    pub name: Option<String>,
    /// The bytes of the entry's name.
    pub name_bytes: Vec<u8>,
    /// The entry's mode.
    pub mode: i32,
    /// The kind of the object, where the entry's mode tells one.
    pub kind: Option<ObjectKind>,
    /// The id of the object.
    pub id: Oid,
}

/// A tree object: its entries, in the order in which it holds them.
#[derive(Debug)]
pub struct Tree {
    pub entries: Vec<TreeEntry>,
}

/// A tree entry, as contracts see it.
pub struct Entry {
    pub name: Option<Seq<char>>,
    pub name_bytes: Seq<u8>,
    pub mode: i32,
    pub kind: Option<ObjectKind>,
    pub id: Seq<u8>,
}

impl View for TreeEntry {
    type V = Entry;

    open spec fn view(&self) -> Entry {
        Entry {
            name: match self.name {
                Some(name) => Some(name@),
                None => None,
            },
            name_bytes: self.name_bytes@,
            mode: self.mode,
            kind: self.kind,
            id: self.id@,
        }
    }
}

impl View for Tree {
    type V = Seq<Entry>;

    open spec fn view(&self) -> Seq<Entry> {
        self.entries@.map_values(|entry: TreeEntry| entry@)
    }
}

/// The first entry of `tree` that is called `name`.
pub open spec fn entry_named(tree: Seq<Entry>, name: Seq<char>) -> Option<Entry>
    decreases tree.len(),
{
    if tree.len() == 0 {
        None
    } else if tree[0].name == Some(name) {
        Some(tree[0])
    } else {
        entry_named(tree.drop_first(), name)
    }
}

/// Whether the entry at `i` of `tree` is the first that is called `name`.
pub open spec fn is_first_named(tree: Seq<Entry>, i: int, name: Seq<char>) -> bool {
    &&& 0 <= i < tree.len()
    &&& tree[i].name == Some(name)
    &&& forall|j: int| 0 <= j < i ==> (#[trigger] tree[j]).name != Some(name)
}

/// The entry that is found under a name is the first that is called so, and one is
/// found wherever there is one.
pub proof fn law_the_first_of_a_name_is_found(tree: Seq<Entry>, i: int, name: Seq<char>)
    ensures
        is_first_named(tree, i, name) ==> entry_named(tree, name) == Some(tree[i]),
        entry_named(tree, name) is None ==> !(0 <= i < tree.len() && tree[i].name == Some(name)),
    decreases tree.len(),
{
    if tree.len() > 0 && i > 0 {
        let rest = tree.drop_first();
        law_the_first_of_a_name_is_found(rest, i - 1, name);
        if is_first_named(tree, i, name) {
            assert(tree[0].name != Some(name));
            assert forall|j: int| 0 <= j < i - 1 implies (#[trigger] rest[j]).name != Some(
                name,
            ) by {
                assert(rest[j] == tree[j + 1]);
            }
            assert(rest[i - 1] == tree[i]);
        }
    }
}

/// Whether `tree` holds an entry that is not called `name`.
pub open spec fn has_others(tree: Seq<Entry>, name: Seq<char>) -> bool {
    exists|i: int| 0 <= i < tree.len() && (#[trigger] tree[i]).name != Some(name)
}

/// Whether an entry names a tree.
pub open spec fn is_tree(entry: Entry) -> bool {
    entry.kind == Some(ObjectKind::Tree)
}

/// The entry that stands for the tree `id` under the name `name`.
pub open spec fn directory(name: Seq<char>, id: Seq<u8>) -> Entry {
    Entry {
        name: Some(name),
        name_bytes: encode_utf8(name),
        mode: 0o040000,
        kind: Some(ObjectKind::Tree),
        id,
    }
}

impl TreeEntry {
    /// Whether the entry is called `name`.
    pub fn is_named(&self, name: &String) -> (r: bool)
        ensures
            r == (self@.name == Some(name@)),
    {
        match &self.name {
            Some(own) => *own == *name,
            None => false,
        }
    }

    /// Whether the entry names a tree.
    pub fn is_tree(&self) -> (r: bool)
        ensures
            r == is_tree(self@),
            r == (self.kind == Some(ObjectKind::Tree)),
    {
        match self.kind {
            Some(kind) => kind == ObjectKind::Tree,
            None => false,
        }
    }
}

impl Tree {
    /// The entry called `name`.
    pub fn get_name(&self, name: &String) -> (r: Option<&TreeEntry>)
        ensures
            match r {
                Some(entry) => entry_named(self@, name@) == Some(entry@),
                None => entry_named(self@, name@) is None,
            },
            match r {
                Some(entry) => exists|i: int|
                    0 <= i < self.entries@.len() && *entry == #[trigger] self.entries@[i]
                        && is_first_named(self@, i, name@),
                None => forall|i: int|
                    0 <= i < self.entries@.len() ==> (#[trigger] self.entries@[i])@.name != Some(
                        name@,
                    ),
            },
    {
        let mut i: usize = 0;
        assert(self@.skip(0) =~= self@);
        while i < self.entries.len()
            invariant
                i <= self.entries.len(),
                forall|j: int|
                    0 <= j < i ==> (#[trigger] self.entries@[j])@.name != Some(name@),
                entry_named(self@, name@) == entry_named(self@.skip(i as int), name@),
            decreases self.entries.len() - i,
        {
            assert(self@.skip(i as int)[0] == self.entries@[i as int]@);
            if self.entries[i].is_named(name) {
                assert(is_first_named(self@, i as int, name@)) by {
                    assert forall|j: int| 0 <= j < i implies (#[trigger] self@[j]).name != Some(
                        name@,
                    ) by {
                        assert(self@[j] == self.entries@[j]@);
                    }
                }
                return Some(&self.entries[i]);
            }
            assert(self@.skip(i as int).drop_first() =~= self@.skip(i + 1));
            i = i + 1;
        }
        None
    }

    /// Whether an entry would be left without the one called `name`.
    pub fn has_others(&self, name: &String) -> (r: bool)
        ensures
            r == has_others(self@, name@),
            r == exists|i: int|
                0 <= i < self.entries@.len() && (#[trigger] self.entries@[i])@.name != Some(name@),
    {
        let mut i: usize = 0;
        while i < self.entries.len()
            invariant
                i <= self.entries.len(),
                forall|j: int| 0 <= j < i ==> (#[trigger] self@[j]).name == Some(name@),
                forall|j: int|
                    0 <= j < i ==> (#[trigger] self.entries@[j])@.name == Some(name@),
            decreases self.entries.len() - i,
        {
            assert(self@[i as int] == self.entries@[i as int]@);
            if !self.entries[i].is_named(name) {
                return true;
            }
            i = i + 1;
        }
        false
    }
}

/// Trees that were read from a repository, by id.
#[derive(Debug)]
pub struct Trees {
    pub read: Vec<(Oid, Tree)>,
}

/// The table that the readings make: the last one of an id stands.
pub open spec fn table(read: Seq<(Oid, Tree)>) -> Map<Seq<u8>, Seq<Entry>>
    decreases read.len(),
{
    if read.len() == 0 {
        Map::empty()
    } else {
        table(read.drop_last()).insert(read.last().0@, read.last().1@)
    }
}

impl View for Trees {
    type V = Map<Seq<u8>, Seq<Entry>>;

    open spec fn view(&self) -> Map<Seq<u8>, Seq<Entry>> {
        table(self.read@)
    }
}

impl Trees {
    /// No tree was read yet.
    pub fn new() -> (r: Trees)
        ensures
            r@ == Map::<Seq<u8>, Seq<Entry>>::empty(),
    {
        Trees { read: Vec::new() }
    }

    /// Takes note of the tree that was read under `id`.
    pub fn add(&mut self, id: Oid, tree: Tree)
        ensures
            final(self)@ == old(self)@.insert(id@, tree@),
    {
        self.read.push((id, tree));
        assert(self.read@.drop_last() =~= old(self).read@);
    }

    /// The tree with id `id`, where it was read.
    pub fn find_tree(&self, id: &Oid) -> (r: Option<&Tree>)
        ensures
            match r {
                Some(tree) => self@.contains_key(id@) && tree@ == self@[id@],
                None => !self@.contains_key(id@),
            },
    {
        let mut i: usize = self.read.len();
        assert(self.read@.take(i as int) =~= self.read@);
        while i > 0
            invariant
                i <= self.read.len(),
                self@.contains_key(id@) == table(self.read@.take(i as int)).contains_key(id@),
                self@.contains_key(id@) ==> self@[id@] == table(self.read@.take(i as int))[id@],
            decreases i,
        {
            assert(self.read@.take(i as int).drop_last() =~= self.read@.take(i - 1));
            assert(self.read@.take(i as int).last() == self.read@[i - 1]);
            i = i - 1;
            if self.read[i].0 == *id {
                return Some(&self.read[i].1);
            }
        }
        None
    }
}

} // verus!
