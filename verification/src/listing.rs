//! Listing the index: every entry of the fanout tree, in the order of its trees.

use vstd::prelude::*;

use crate::fanout::{is_fanout, is_fanout_segment};
use crate::oid::{hex, is_oid_text, spelled, Oid};
use crate::rebuild::id_view;
use crate::step::{Action, Request, Step};
use crate::tree::{is_tree, Entry, Tree, TreeEntry};

verus! {

/// The name of an entry, empty where it has none that can be read.
pub open spec fn name_or_empty(entry: Entry) -> Seq<char> {
    match entry.name {
        Some(name) => name,
        None => Seq::empty(),
    }
}

/// Whether `text` is an id in full, written as ids are written.
pub open spec fn is_canonical(text: Seq<char>) -> bool {
    is_oid_text(text) && hex(spelled(text)) == text
}

/// Whether an entry, below the directories that spell `prefix`, is a fanout
/// directory: a tree named by two digits, with which no id is spelled in full yet.
pub open spec fn is_directory(prefix: Seq<char>, entry: Entry) -> bool {
    is_tree(entry) && is_fanout(name_or_empty(entry)) && prefix.len() + 2 < 40
}

/// What an entry that is no fanout directory lists, below the directories that spell
/// `prefix`: a tree its id under the target that `prefix` and its name spell, if
/// they spell one.
pub open spec fn leaf_listing(prefix: Seq<char>, entry: Entry) -> Seq<(Seq<u8>, Seq<u8>)> {
    let full = prefix + name_or_empty(entry);
    if is_tree(entry) && is_canonical(full) {
        seq![(spelled(full), entry.id)]
    } else {
        Seq::empty()
    }
}

/// What the tree with id `id` lists, below the directories that spell `prefix`.
pub open spec fn listing(
    trees: Map<Seq<u8>, Seq<Entry>>,
    id: Seq<u8>,
    prefix: Seq<char>,
) -> Seq<(Seq<u8>, Seq<u8>)>
    decreases 40 - prefix.len(), 2nat, 0nat,
{
    if trees.contains_key(id) {
        entries_listing(trees, trees[id], prefix)
    } else {
        Seq::empty()
    }
}

/// What the entries `tree` list, below the directories that spell `prefix`.
pub open spec fn entries_listing(
    trees: Map<Seq<u8>, Seq<Entry>>,
    tree: Seq<Entry>,
    prefix: Seq<char>,
) -> Seq<(Seq<u8>, Seq<u8>)>
    decreases 40 - prefix.len(), 1nat, tree.len(),
{
    if tree.len() == 0 {
        Seq::empty()
    } else {
        entry_listing(trees, prefix, tree[0]) + entries_listing(trees, tree.drop_first(), prefix)
    }
}

/// What one entry lists, below the directories that spell `prefix`: a fanout
/// directory what it holds, any other entry its target, if it has one.
pub open spec fn entry_listing(
    trees: Map<Seq<u8>, Seq<Entry>>,
    prefix: Seq<char>,
    entry: Entry,
) -> Seq<(Seq<u8>, Seq<u8>)>
    decreases 40 - prefix.len(), 0nat, 0nat,
{
    if is_directory(prefix, entry) {
        listing(trees, entry.id, prefix + name_or_empty(entry))
    } else {
        leaf_listing(prefix, entry)
    }
}

/// What the index with root tree `root` lists.
pub open spec fn index_listing(
    trees: Map<Seq<u8>, Seq<Entry>>,
    root: Option<Seq<u8>>,
) -> Seq<(Seq<u8>, Seq<u8>)> {
    match root {
        Some(id) => listing(trees, id, Seq::empty()),
        None => Seq::empty(),
    }
}

/// What a listing waits for.
#[derive(Debug)]
pub enum Wanted {
    /// The id of the root tree.
    Root,
    /// The tree with this id, below the directories that spell `prefix`.
    Tree { prefix: String, id: Oid },
    Nothing,
}

/// A listing under way.
#[derive(Debug)]
pub struct Listing {
    /// What it waits for.
    pub wanted: Wanted,
    /// Entries still to look at, each with the digits that lead to it. The next
    /// one is the last.
    pub pending: Vec<(String, TreeEntry)>,
    /// Targets found so far, each with its tree.
    pub found: Vec<(Oid, Oid)>,
}

/// What a listing waits for, as contracts see it.
pub enum Awaited {
    Root,
    Tree { prefix: Seq<char>, id: Seq<u8> },
    Nothing,
}

/// A listing under way, as contracts see it.
pub struct Course {
    pub wanted: Awaited,
    pub pending: Seq<(Seq<char>, Entry)>,
    pub found: Seq<(Seq<u8>, Seq<u8>)>,
}

/// Targets and their trees, as contracts see them.
pub open spec fn pairs(found: Seq<(Oid, Oid)>) -> Seq<(Seq<u8>, Seq<u8>)> {
    found.map_values(|pair: (Oid, Oid)| (pair.0@, pair.1@))
}

/// Entries to look at, as contracts see them.
pub open spec fn pending_view(pending: Seq<(String, TreeEntry)>) -> Seq<(Seq<char>, Entry)> {
    pending.map_values(|item: (String, TreeEntry)| (item.0@, item.1@))
}

impl View for Wanted {
    type V = Awaited;

    open spec fn view(&self) -> Awaited {
        match *self {
            Wanted::Root => Awaited::Root,
            Wanted::Tree { prefix, id } => Awaited::Tree { prefix: prefix@, id: id@ },
            Wanted::Nothing => Awaited::Nothing,
        }
    }
}

impl View for Listing {
    type V = Course;

    open spec fn view(&self) -> Course {
        Course {
            wanted: self.wanted@,
            pending: pending_view(self.pending@),
            found: pairs(self.found@),
        }
    }
}

/// A listing that has not begun.
pub open spec fn unbegun() -> Course {
    Course { wanted: Awaited::Root, pending: Seq::empty(), found: Seq::empty() }
}

/// A listing that waited for the root tree, once that is `root`.
pub open spec fn after_root(course: Course, root: Option<Seq<u8>>) -> Course {
    if course.wanted is Root {
        Course {
            wanted: match root {
                Some(id) => Awaited::Tree { prefix: Seq::empty(), id },
                None => Awaited::Nothing,
            },
            ..course
        }
    } else {
        course
    }
}

/// The entries of a tree to look at, the first of them last.
pub open spec fn to_look_at(prefix: Seq<char>, tree: Seq<Entry>) -> Seq<(Seq<char>, Entry)> {
    Seq::new(tree.len(), |i: int| (prefix, tree[tree.len() - 1 - i]))
}

/// A listing that waited for a tree, once that is `tree`.
pub open spec fn after_tree(course: Course, tree: Seq<Entry>) -> Course {
    match course.wanted {
        Awaited::Tree { prefix, id } => Course {
            wanted: Awaited::Nothing,
            pending: course.pending + to_look_at(prefix, tree),
            found: course.found,
        },
        _ => course,
    }
}

/// A listing that waits for nothing, once it has looked at entries up to the next
/// fanout directory, for which it waits then, or to the end.
pub open spec fn collected(course: Course) -> Course
    decreases course.pending.len(),
{
    if !(course.wanted is Nothing) || course.pending.len() == 0 {
        course
    } else {
        let (prefix, entry) = course.pending.last();
        let pending = course.pending.drop_last();
        if is_directory(prefix, entry) {
            Course {
                wanted: Awaited::Tree { prefix: prefix + name_or_empty(entry), id: entry.id },
                pending,
                found: course.found,
            }
        } else {
            collected(
                Course {
                    wanted: Awaited::Nothing,
                    pending,
                    found: course.found + leaf_listing(prefix, entry),
                },
            )
        }
    }
}

/// The next step of a listing that has looked at what it could.
pub open spec fn list_step(course: Course) -> Step<Request, Seq<(Seq<u8>, Seq<u8>)>> {
    match course.wanted {
        Awaited::Root => Step::Do(Request::ResolveRoot),
        Awaited::Tree { prefix, id } => Step::Do(Request::FindTree(id)),
        Awaited::Nothing => Step::Return(course.found),
    }
}

/// A step of a listing, as contracts see it.
pub open spec fn list_view(step: Step<Action, Vec<(Oid, Oid)>>) -> Step<
    Request,
    Seq<(Seq<u8>, Seq<u8>)>,
> {
    match step {
        Step::Do(action) => Step::Do(action@),
        Step::Return(entries) => Step::Return(pairs(entries@)),
    }
}

impl Listing {
    /// A listing that has not begun.
    pub fn new() -> (r: Listing)
        ensures
            r@ == unbegun(),
    {
        let r = Listing { wanted: Wanted::Root, pending: Vec::new(), found: Vec::new() };
        assert(r@.pending =~= Seq::empty());
        assert(r@.found =~= Seq::empty());
        r
    }

    /// Takes the root tree that the listing asked for.
    pub fn resolved(&mut self, root: Option<Oid>)
        ensures
            final(self)@ == after_root(old(self)@, id_view(root)),
    {
        if let Wanted::Root = self.wanted {
            self.wanted = match root {
                Some(id) => {
                    let prefix = String::new();
                    assert(prefix@ =~= Seq::empty());
                    Wanted::Tree { prefix, id }
                },
                None => Wanted::Nothing,
            };
        }
    }

    /// Takes the tree that the listing asked for.
    pub fn loaded(&mut self, tree: Tree)
        ensures
            final(self)@ == after_tree(old(self)@, tree@),
    {
        let below = match &self.wanted {
            Wanted::Tree { prefix, id: _ } => prefix.clone(),
            _ => {
                return ;
            },
        };
        self.wanted = Wanted::Nothing;
        let ghost whole = to_look_at(below@, tree@);
        let ghost all = tree@;
        let ghost before = self.pending@;
        let mut entries = tree.entries;
        assert(pending_view(self.pending@) =~= pending_view(before) + whole.take(0));
        assert(all.take(all.len() as int) =~= all);
        while entries.len() > 0
            invariant
                entries.len() <= all.len(),
                all.take(entries.len() as int) == entries@.map_values(|entry: TreeEntry| entry@),
                whole == to_look_at(below@, all),
                self.wanted is Nothing,
                self.found == old(self).found,
                pending_view(self.pending@) == pending_view(before) + whole.take(
                    all.len() - entries.len(),
                ),
            decreases entries.len(),
        {
            let ghost left = entries@;
            let ghost held = self.pending@;
            if let Some(entry) = entries.pop() {
                let ghost n = entries.len() as int;
                assert(all.take(n + 1)[n] == left[n]@);
                assert(all.take(n) =~= entries@.map_values(|entry: TreeEntry| entry@)) by {
                    assert forall|i: int| 0 <= i < n implies all.take(n)[i] == entries@[i]@ by {
                        assert(all.take(n + 1)[i] == left[i]@);
                    }
                }
                self.pending.push((below.clone(), entry));
                assert(whole[all.len() - n - 1] == (below@, entry@));
                assert(pending_view(self.pending@) =~= pending_view(held).push((below@, entry@)));
                assert(whole.take(all.len() - n) =~= whole.take(all.len() - n - 1).push(
                    whole[all.len() - n - 1],
                ));
                assert(pending_view(self.pending@) =~= pending_view(before) + whole.take(
                    all.len() - n,
                ));
            }
        }
        assert(whole.take(all.len() as int) =~= whole);
    }

    /// Collects `(target_oid, tree_oid)` entries from a fanout tree, up to the next
    /// fanout directory, which has to be read, or to the end.
    pub fn collect_entries(&mut self)
        ensures
            final(self)@ == collected(old(self)@),
    {
        if let Wanted::Nothing = self.wanted {
        } else {
            return ;
        }
        while self.pending.len() > 0
            invariant
                self.wanted is Nothing,
                collected(self@) == collected(old(self)@),
            decreases self.pending.len(),
        {
            let ghost before = *self;
            if let Some((prefix, entry)) = self.pending.pop() {
                assert(self@.pending =~= before@.pending.drop_last());
                assert(before@.pending.last() == (prefix@, entry@));
                if entry.is_tree() {
                    let name = match &entry.name {
                        Some(name) => name.clone(),
                        None => {
                            let none = String::new();
                            assert(none@ =~= Seq::empty());
                            none
                        },
                    };
                    let full = prefix.concat(name.as_str());
                    // Forty digits are an id in full, and no way to one.
                    if is_fanout_segment(name.as_str()) && full.as_str().unicode_len() < 40 {
                        self.wanted = Wanted::Tree { prefix: full, id: entry.id };
                        return ;
                    } else if let Ok(oid) = Oid::from_str(full.as_str()) {
                        // A short text would be read too, filled up with zeros.
                        if oid.to_string() == full {
                            self.found.push((oid, entry.id));
                            assert(self@.found =~= before@.found + seq![(oid@, entry.id@)]);
                        }
                    }
                }
                assert(self@.found =~= before@.found + leaf_listing(prefix@, entry@));
            }
        }
    }

    /// Lists all entries in the index: `(target_oid, tree_oid)` pairs, or what has to
    /// be done in the repository before the listing can go on.
    pub fn metadata_list(&mut self) -> (r: Step<Action, Vec<(Oid, Oid)>>)
        ensures
            list_view(r) == list_step(collected(old(self)@)),
            final(self)@ == (if r is Return {
                Course { found: Seq::empty(), ..collected(old(self)@) }
            } else {
                collected(old(self)@)
            }),
    {
        self.collect_entries();
        match &self.wanted {
            Wanted::Root => Step::Do(Action::ResolveRoot),
            Wanted::Tree { prefix: _, id } => Step::Do(Action::FindTree(*id)),
            Wanted::Nothing => {
                let mut entries: Vec<(Oid, Oid)> = Vec::new();
                std::mem::swap(&mut entries, &mut self.found);
                assert(self@.found =~= Seq::empty());
                Step::Return(entries)
            },
        }
    }
}

} // verus!
