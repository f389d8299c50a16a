//! The operations on the index: reading, writing and removing the entry of a target.
//!
//! An operation is carried out in steps. Each call says, from what is known of
//! the repository so far, what to do there next, or what the operation answers.
//! What was done there is then noted in the session, and the call made again.

use vstd::prelude::*;

use crate::fanout::{
    contents, depths_view, detect, detect_fanout, leaf, oids_view, segments, shard_oid, sweep,
    sweep_fanout,
};
use crate::oid::{hex, Oid};
use crate::rebuild::{
    build_fanout, build_fanout_remove, id_view, insertion, plan_view, removal, Change, Edit,
    RemoveResult, TreeEdit,
};
use crate::step::{Action, Request, Step};
use crate::tree::{Entry, Tree, Trees};

verus! {

/// Options that control mutating metadata operations.
#[derive(Debug, Clone)]
pub struct MetadataOptions {
    /// Fanout depth (number of 2-hex-char directory segments).
    /// 1 means `ab/cdef01...` (like git-notes), 2 means `ab/cd/ef01...`.
    pub shard_level: u8,
    /// Overwrite an existing entry without error.
    pub force: bool,
}

impl Default for MetadataOptions {
    fn default() -> (r: Self)
        ensures
            r.shard_level == 1,
            !r.force,
    {
        MetadataOptions { shard_level: 1, force: false }
    }
}

/// Why an entry was not written.
#[derive(Clone, Copy, Debug, PartialEq, Eq, Structural)]
pub enum Error {
    /// The target has an entry already, and it was not to be overwritten.
    AlreadyExists,
}

impl Error {
    /// The error in words.
    pub fn message(&self) -> (r: String)
        ensures
            r@ == "metadata entry already exists (use force to overwrite)"@,
    {
        "metadata entry already exists (use force to overwrite)".to_owned()
    }
}

/// Why a reference was not found.
#[derive(Clone, Copy, Debug, PartialEq, Eq, Structural)]
pub enum LookupFailure {
    /// There is no such reference.
    NotFound,
    /// Looking for it failed.
    Other,
}

/// A commit to make.
#[derive(Debug)]
pub struct Commit {
    /// The reference to move to it.
    pub reference: String,
    pub tree: Oid,
    pub message: String,
    pub parents: Vec<Oid>,
}

/// The existing root tree under a reference, if it exists: `lookup` is the id of
/// the tree of the commit that the reference leads to, or why there is none.
pub fn resolve_root_tree(lookup: Result<Oid, LookupFailure>) -> (r: Result<
    Option<Oid>,
    LookupFailure,
>)
    ensures
        r == (match lookup {
            Ok(root) => Ok(Some(root)),
            Err(LookupFailure::NotFound) => Ok(None),
            Err(LookupFailure::Other) => Err(LookupFailure::Other),
        }),
{
    match lookup {
        Ok(root) => Ok(Some(root)),
        Err(LookupFailure::NotFound) => Ok(None),
        Err(failure) => Err(failure),
    }
}

/// The commit of a new root tree under `ref_name`, parenting on the existing
/// commit (if any): `tip` is the id of the commit that the reference leads to, or
/// why there is none.
pub fn commit_index(
    ref_name: &str,
    tree_oid: Oid,
    message: &str,
    tip: Result<Oid, LookupFailure>,
) -> (r: Result<Commit, LookupFailure>)
    ensures
        match r {
            Ok(commit) => {
                &&& tip != Err::<Oid, LookupFailure>(LookupFailure::Other)
                &&& commit.reference@ == ref_name@
                &&& commit.tree == tree_oid
                &&& commit.message@ == message@
                &&& commit.parents@ == (match tip {
                    Ok(parent) => seq![parent],
                    Err(_) => Seq::empty(),
                })
            },
            Err(failure) => tip == Err::<Oid, LookupFailure>(LookupFailure::Other) && failure
                == LookupFailure::Other,
        },
{
    let mut parents: Vec<Oid> = Vec::new();
    match tip {
        Ok(parent) => {
            parents.push(parent);
        },
        Err(LookupFailure::NotFound) => {},
        Err(failure) => {
            return Err(failure);
        },
    }
    Ok(
        Commit {
            reference: ref_name.to_owned(),
            tree: tree_oid,
            message: message.to_owned(),
            parents,
        },
    )
}

/// What is known of the repository in the course of an operation, and what was
/// done there.
#[derive(Debug)]
pub struct Session {
    /// The root tree of the index, once that was asked for.
    pub root: Option<Option<Oid>>,
    /// The trees that were read.
    pub trees: Trees,
    /// The ids of trees that could not be read.
    pub lacking: Vec<Oid>,
    /// The trees that were written, in their order.
    pub written: Vec<Oid>,
    /// Whether the reference was moved or deleted.
    pub concluded: bool,
}

/// A session, as contracts see it.
pub struct Known {
    pub root: Option<Option<Seq<u8>>>,
    pub trees: Map<Seq<u8>, Seq<Entry>>,
    pub lacking: Seq<Seq<u8>>,
    pub written: Seq<Seq<u8>>,
    pub concluded: bool,
}

impl View for Session {
    type V = Known;

    open spec fn view(&self) -> Known {
        Known {
            root: match self.root {
                Some(root) => Some(id_view(root)),
                None => None,
            },
            trees: self.trees@,
            lacking: oids_view(self.lacking@),
            written: oids_view(self.written@),
            concluded: self.concluded,
        }
    }
}

/// The depth at which the index with root tree `root` holds an entry for the id
/// `digits`, the least one, and the tree that the entry names.
pub open spec fn lookup(
    trees: Map<Seq<u8>, Seq<Entry>>,
    root: Option<Seq<u8>>,
    digits: Seq<char>,
) -> Result<Option<(nat, Seq<u8>)>, Seq<u8>> {
    match root {
        Some(id) => detect(trees, id, digits, 0),
        None => Ok(None),
    }
}

/// The message of the commit that writes an entry.
pub open spec fn set_message(target: Seq<u8>, tree: Seq<u8>) -> Seq<char> {
    "metadata: set "@ + hex(target) + " -> "@ + hex(tree)
}

/// The message of the commit that removes an entry.
pub open spec fn remove_message(target: Seq<u8>) -> Seq<char> {
    "metadata: remove "@ + hex(target)
}

/// The tree that an edit puts in, where `before` was written before it.
pub open spec fn edit_child(edit: Edit, before: Seq<Seq<u8>>) -> Option<Seq<u8>> {
    match edit.change {
        Change::Insert(id) => Some(id),
        Change::InsertWritten => Some(before.last()),
        Change::Remove => None,
    }
}

/// The next step of reading the entry of `target`.
pub open spec fn get_step(known: Known, target: Seq<u8>) -> Step<Request, Option<Seq<u8>>> {
    match known.root {
        None => Step::Do(Request::ResolveRoot),
        Some(root) => match lookup(known.trees, root, hex(target)) {
            Ok(Some((_, id))) => Step::Return(Some(id)),
            Ok(None) => Step::Return(None),
            Err(missing) => Step::Do(Request::FindTree(missing)),
        },
    }
}

/// What has to be written for an entry for `target` at depth `level` that names `tree`.
pub open spec fn set_plan(
    trees: Map<Seq<u8>, Seq<Entry>>,
    root: Option<Seq<u8>>,
    target: Seq<u8>,
    tree: Seq<u8>,
    level: nat,
) -> Result<Seq<Edit>, Seq<u8>> {
    insertion(trees, root, segments(hex(target), level), leaf(hex(target), level), tree)
}

/// What has to be written so that the entry for `target` at depth `depth` is gone.
pub open spec fn remove_plan(
    trees: Map<Seq<u8>, Seq<Entry>>,
    root: Seq<u8>,
    target: Seq<u8>,
    depth: nat,
) -> Result<RemoveResult<Seq<Edit>>, Seq<u8>> {
    removal(trees, root, segments(hex(target), depth), leaf(hex(target), depth))
}

/// How far the writing of trees has come.
pub enum Progress {
    /// This tree has to be read first.
    Read(Seq<u8>),
    /// This tree is to be written next.
    Write { base: Option<Seq<u8>>, name: Seq<char>, child: Option<Seq<u8>> },
    /// All is written, and the root tree of the index is this one now.
    Done(Option<Seq<u8>>),
}

/// The tree to write next, where `plan` is carried out as far as `written`.
pub open spec fn next_write(plan: Seq<Edit>, written: Seq<Seq<u8>>) -> Progress {
    let edit = plan[written.len() as int];
    Progress::Write { base: edit.base, name: edit.name, child: edit_child(edit, written) }
}

/// How far it has come to take the entries of `target` at `depths` out of the index
/// with root tree `root`, one after the other, and then to put in the entry `entry`,
/// a depth and a tree. `written` are the trees that were written for it.
pub open spec fn progress(
    trees: Map<Seq<u8>, Seq<Entry>>,
    root: Option<Seq<u8>>,
    target: Seq<u8>,
    depths: Seq<nat>,
    entry: Option<(nat, Seq<u8>)>,
    written: Seq<Seq<u8>>,
) -> Progress
    decreases depths.len(),
{
    if depths.len() == 0 {
        match entry {
            None => Progress::Done(root),
            Some((level, tree)) => match set_plan(trees, root, target, tree, level) {
                Err(missing) => Progress::Read(missing),
                Ok(plan) => if written.len() < plan.len() {
                    next_write(plan, written)
                } else {
                    Progress::Done(Some(written[plan.len() - 1]))
                },
            },
        }
    } else {
        let rest = depths.drop_first();
        match root {
            None => progress(trees, root, target, rest, entry, written),
            Some(id) => match remove_plan(trees, id, target, depths[0]) {
                Err(missing) => Progress::Read(missing),
                Ok(RemoveResult::NotFound) => progress(trees, root, target, rest, entry, written),
                Ok(RemoveResult::Empty) => progress(trees, None, target, rest, entry, written),
                Ok(RemoveResult::Removed(plan)) => if written.len() < plan.len() {
                    next_write(plan, written)
                } else {
                    progress(
                        trees,
                        Some(written[plan.len() - 1]),
                        target,
                        rest,
                        entry,
                        written.skip(plan.len() as int),
                    )
                },
            },
        }
    }
}

/// The depths at which entries of `target` give way to a new one at the depth that
/// `options` ask for. Without `force` there must be none at all: `None` where there is
/// one. The error is what has to be read first: with `force`, a tree that counts for
/// nothing where it cannot be read.
pub open spec fn replaced(
    known: Known,
    root: Option<Seq<u8>>,
    target: Seq<u8>,
    options: MetadataOptions,
) -> Result<Option<Seq<nat>>, Request> {
    match root {
        None => Ok(Some(Seq::empty())),
        Some(id) => if options.force {
            match sweep(
                known.trees,
                known.lacking,
                id,
                hex(target),
                0,
                Some(options.shard_level as nat),
            ) {
                Ok(depths) => Ok(Some(depths)),
                Err(missing) => Err(Request::TryTree(missing)),
            }
        } else {
            match detect(known.trees, id, hex(target), 0) {
                Ok(Some(_)) => Ok(None),
                Ok(None) => Ok(Some(Seq::empty())),
                Err(missing) => Err(Request::FindTree(missing)),
            }
        },
    }
}

/// The next step of writing the entry of `target`.
pub open spec fn set_step(
    known: Known,
    target: Seq<u8>,
    tree: Seq<u8>,
    options: MetadataOptions,
) -> Step<Request, Result<Seq<u8>, Error>> {
    if !known.trees.contains_key(tree) {
        Step::Do(Request::FindTree(tree))
    } else {
        match known.root {
            None => Step::Do(Request::ResolveRoot),
            Some(root) => match replaced(known, root, target, options) {
                Err(request) => Step::Do(request),
                Ok(None) => Step::Return(Err(Error::AlreadyExists)),
                Ok(Some(depths)) => match progress(
                    known.trees,
                    root,
                    target,
                    depths,
                    Some((options.shard_level as nat, tree)),
                    known.written,
                ) {
                    Progress::Read(missing) => Step::Do(Request::FindTree(missing)),
                    Progress::Write { base, name, child } => Step::Do(
                        Request::WriteTree { base, name, child },
                    ),
                    Progress::Done(after) => if known.concluded {
                        Step::Return(Ok(after->0))
                    } else {
                        Step::Do(
                            Request::Commit { tree: after->0, message: set_message(target, tree) },
                        )
                    },
                },
            },
        }
    }
}

/// The depths at which the index with root tree `root` holds an entry for `target`.
/// The error is what has to be read first: below the first entry, a tree that counts
/// for nothing where it cannot be read.
pub open spec fn occupied(
    known: Known,
    root: Option<Seq<u8>>,
    target: Seq<u8>,
) -> Result<Seq<nat>, Request> {
    match root {
        None => Ok(Seq::empty()),
        Some(id) => match detect(known.trees, id, hex(target), 0) {
            Err(missing) => Err(Request::FindTree(missing)),
            Ok(None) => Ok(Seq::empty()),
            Ok(Some((depth, _))) => match sweep(
                known.trees,
                known.lacking,
                id,
                hex(target),
                depth + 1,
                None,
            ) {
                Err(missing) => Err(Request::TryTree(missing)),
                Ok(deeper) => Ok(seq![depth] + deeper),
            },
        },
    }
}

/// The next step of removing the entry of `target`.
pub open spec fn remove_step(known: Known, target: Seq<u8>) -> Step<Request, bool> {
    match known.root {
        None => Step::Do(Request::ResolveRoot),
        Some(root) => match occupied(known, root, target) {
            Err(request) => Step::Do(request),
            Ok(depths) => if depths.len() == 0 {
                Step::Return(false)
            } else {
                match progress(known.trees, root, target, depths, None, known.written) {
                    Progress::Read(missing) => Step::Do(Request::FindTree(missing)),
                    Progress::Write { base, name, child } => Step::Do(
                        Request::WriteTree { base, name, child },
                    ),
                    Progress::Done(after) => if known.concluded {
                        Step::Return(true)
                    } else {
                        Step::Do(
                            match after {
                                // All entries removed; delete the ref entirely.
                                None => Request::DeleteReference,
                                Some(tree) => Request::Commit {
                                    tree,
                                    message: remove_message(target),
                                },
                            },
                        )
                    },
                }
            },
        },
    }
}

/// A step of a reading, as contracts see it.
pub open spec fn get_view(step: Step<Action, Option<Oid>>) -> Step<Request, Option<Seq<u8>>> {
    match step {
        Step::Do(action) => Step::Do(action@),
        Step::Return(found) => Step::Return(id_view(found)),
    }
}

/// A step of a writing, as contracts see it.
pub open spec fn set_view(step: Step<Action, Result<Oid, Error>>) -> Step<
    Request,
    Result<Seq<u8>, Error>,
> {
    match step {
        Step::Do(action) => Step::Do(action@),
        Step::Return(Ok(root)) => Step::Return(Ok(root@)),
        Step::Return(Err(error)) => Step::Return(Err(error)),
    }
}

/// A step of a removal, as contracts see it.
pub open spec fn remove_view(step: Step<Action, bool>) -> Step<Request, bool> {
    match step {
        Step::Do(action) => Step::Do(action@),
        Step::Return(removed) => Step::Return(removed),
    }
}

/// How far the writing of trees has come.
enum Written {
    Read(Oid),
    Write(Action),
    Done(Option<Oid>),
}

/// How far the writing of trees has come, as contracts see it.
spec fn written_view(written: Written) -> Progress {
    match written {
        Written::Read(id) => Progress::Read(id@),
        Written::Write(action) => match action@ {
            Request::WriteTree { base, name, child } => Progress::Write { base, name, child },
            _ => Progress::Done(None),
        },
        Written::Done(root) => Progress::Done(id_view(root)),
    }
}

/// An entry to put in, as contracts see it.
spec fn entry_view(entry: Option<(u8, Oid)>) -> Option<(nat, Seq<u8>)> {
    match entry {
        Some((level, tree)) => Some((level as nat, tree@)),
        None => None,
    }
}

impl Session {
    /// A session in which nothing is known yet.
    pub fn new() -> (r: Session)
        ensures
            r@ == (Known {
                root: None,
                trees: Map::empty(),
                lacking: Seq::empty(),
                written: Seq::empty(),
                concluded: false,
            }),
    {
        let r = Session {
            root: None,
            trees: Trees::new(),
            lacking: Vec::new(),
            written: Vec::new(),
            concluded: false,
        };
        assert(r@.written =~= Seq::empty());
        assert(r@.lacking =~= Seq::empty());
        r
    }

    /// Notes the root tree of the index, if there is one.
    pub fn resolved(&mut self, root: Option<Oid>)
        ensures
            final(self)@ == (Known { root: Some(id_view(root)), ..old(self)@ }),
    {
        self.root = Some(root);
    }

    /// Notes the tree that was read under `id`.
    pub fn loaded(&mut self, id: Oid, tree: Tree)
        ensures
            final(self)@ == (Known { trees: old(self)@.trees.insert(id@, tree@), ..old(self)@ }),
    {
        self.trees.add(id, tree);
    }

    /// Notes that the tree `id` could not be read.
    pub fn lacked(&mut self, id: Oid)
        ensures
            final(self)@ == (Known { lacking: old(self)@.lacking.push(id@), ..old(self)@ }),
    {
        self.lacking.push(id);
        assert(self@.lacking =~= old(self)@.lacking.push(id@));
    }

    /// Notes the id of a tree that was written.
    pub fn wrote(&mut self, id: Oid)
        ensures
            final(self)@ == (Known { written: old(self)@.written.push(id@), ..old(self)@ }),
    {
        self.written.push(id);
        assert(self@.written =~= old(self)@.written.push(id@));
    }

    /// Notes that the reference was moved or deleted.
    pub fn conclude(&mut self)
        ensures
            final(self)@ == (Known { concluded: true, ..old(self)@ }),
    {
        self.concluded = true;
    }

    /// The tree to write next, where `edits` are carried out as far as the trees that
    /// were written from position `from` on.
    fn next_write(&self, edits: &Vec<TreeEdit>, from: usize) -> (r: Action)
        requires
            from <= self.written@.len(),
            self.written@.len() - from < edits@.len(),
            !(plan_view(edits@)[0].change is InsertWritten),
        ensures
            r is WriteTree,
            written_view(Written::Write(r)) == next_write(
                plan_view(edits@),
                self@.written.skip(from as int),
            ),
    {
        let done: usize = self.written.len() - from;
        let edit = &edits[done];
        assert(plan_view(edits@)[done as int] == edit@);
        assert(done > 0 ==> self@.written.skip(from as int).last()
            == self.written@[self.written@.len() - 1]@);
        let child = match edit.change {
            Change::Insert(id) => Some(id),
            Change::InsertWritten => Some(self.written[self.written.len() - 1]),
            Change::Remove => None,
        };
        Action::WriteTree { base: edit.base, name: edit.name.clone(), child }
    }

    /// How far it has come to take the entries of `target` at `depths` out of the
    /// index with root tree `root`, and then to put in `entry`.
    fn proceed(
        &self,
        root: Option<Oid>,
        target: &Oid,
        depths: &Vec<usize>,
        entry: Option<(u8, Oid)>,
    ) -> (r: Written)
        requires
            forall|i: int| 0 <= i < depths@.len() ==> #[trigger] depths@[i] < 20,
            entry matches Some((level, _)) ==> level <= 20,
        ensures
            written_view(r) == progress(
                self@.trees,
                id_view(root),
                target@,
                depths_view(depths@),
                entry_view(entry),
                self@.written,
            ),
            r matches Written::Write(action) ==> action is WriteTree,
            r matches Written::Done(after) ==> (entry is Some ==> after is Some),
    {
        let ghost whole = progress(
            self@.trees,
            id_view(root),
            target@,
            depths_view(depths@),
            entry_view(entry),
            self@.written,
        );
        let mut current: Option<Oid> = root;
        let mut from: usize = 0;
        let mut i: usize = 0;
        assert(depths_view(depths@).skip(0) =~= depths_view(depths@));
        assert(self@.written.skip(0) =~= self@.written);
        while i < depths.len()
            invariant
                i <= depths.len(),
                from <= self.written@.len(),
                forall|i: int| 0 <= i < depths@.len() ==> #[trigger] depths@[i] < 20,
                whole == progress(
                    self@.trees,
                    id_view(root),
                    target@,
                    depths_view(depths@),
                    entry_view(entry),
                    self@.written,
                ),
                whole == progress(
                    self@.trees,
                    id_view(current),
                    target@,
                    depths_view(depths@).skip(i as int),
                    entry_view(entry),
                    self@.written.skip(from as int),
                ),
            decreases depths.len() - i,
        {
            let ghost left = depths_view(depths@).skip(i as int);
            assert(left[0] == depths@[i as int] as nat);
            assert(left.drop_first() =~= depths_view(depths@).skip(i + 1));
            if let Some(id) = current {
                let (path, name) = shard_oid(target, depths[i] as u8);
                match build_fanout_remove(&self.trees, &id, &path, name.as_str()) {
                    Err(missing) => {
                        return Written::Read(missing);
                    },
                    Ok(RemoveResult::NotFound) => {},
                    Ok(RemoveResult::Empty) => {
                        current = None;
                    },
                    Ok(RemoveResult::Removed(edits)) => {
                        assert(plan_view(edits@).len() == edits@.len());
                        if self.written.len() - from < edits.len() {
                            return Written::Write(self.next_write(&edits, from));
                        }
                        let ghost before = from;
                        from = from + edits.len();
                        current = Some(self.written[from - 1]);
                        assert(self@.written.skip(before as int)[edits.len() - 1]
                            == self.written@[from - 1]@);
                        assert(self@.written.skip(before as int).skip(edits.len() as int)
                            =~= self@.written.skip(from as int));
                    },
                }
            }
            i = i + 1;
        }
        let (level, tree) = match entry {
            None => {
                return Written::Done(current);
            },
            Some(entry) => entry,
        };
        let (path, name) = shard_oid(target, level);
        match build_fanout(&self.trees, current, &path, name.as_str(), &tree) {
            Err(missing) => Written::Read(missing),
            Ok(edits) => {
                assert(plan_view(edits@).len() == edits@.len());
                if self.written.len() - from < edits.len() {
                    Written::Write(self.next_write(&edits, from))
                } else {
                    assert(self@.written.skip(from as int)[edits.len() - 1] == self.written@[from
                        + edits.len() - 1]@);
                    Written::Done(Some(self.written[from + edits.len() - 1]))
                }
            },
        }
    }

    /// Reads the metadata tree OID attached to `target`: `None` if no entry exists.
    pub fn metadata_get(&self, target: &Oid) -> (r: Step<Action, Option<Oid>>)
        ensures
            get_view(r) == get_step(self@, target@),
    {
        let root = match self.root {
            None => {
                return Step::Do(Action::ResolveRoot);
            },
            Some(None) => {
                return Step::Return(None);
            },
            Some(Some(root)) => root,
        };
        match detect_fanout(&self.trees, &root, target) {
            Err(missing) => Step::Do(Action::FindTree(missing)),
            Ok(None) => Step::Return(None),
            Ok(Some((_, _, id))) => Step::Return(Some(id)),
        }
    }

    /// Writes or overwrites the metadata tree for `target`, so that it has one entry,
    /// with that tree. Answers with the new root tree OID that was committed.
    pub fn metadata_set(&self, target: &Oid, tree: &Oid, options: &MetadataOptions) -> (r: Step<
        Action,
        Result<Oid, Error>,
    >)
        requires
            self@.trees.contains_key(tree@) ==> options.shard_level <= 20,
        ensures
            set_view(r) == set_step(self@, target@, tree@, *options),
            r matches Step::Do(Action::Commit { message, .. }) ==> message@ == "metadata: set "@
                + hex(target@) + " -> "@ + hex(tree@),
    {
        // Validate that `tree` actually points to a tree object.
        if self.trees.find_tree(tree).is_none() {
            return Step::Do(Action::FindTree(*tree));
        }
        let existing_root = match self.root {
            None => {
                return Step::Do(Action::ResolveRoot);
            },
            Some(root) => root,
        };
        let mut depths: Vec<usize> = Vec::new();
        assert(depths_view(depths@) =~= Seq::empty());
        if let Some(root) = existing_root {
            if options.force {
                match sweep_fanout(
                    &self.trees,
                    &self.lacking,
                    &root,
                    target,
                    0,
                    Some(options.shard_level as usize),
                ) {
                    Err(missing) => {
                        return Step::Do(Action::TryTree(missing));
                    },
                    Ok(found) => {
                        depths = found;
                    },
                }
            } else {
                // Check for existing entry when force is false.
                match detect_fanout(&self.trees, &root, target) {
                    Err(missing) => {
                        return Step::Do(Action::FindTree(missing));
                    },
                    Ok(Some(_)) => {
                        return Step::Return(Err(Error::AlreadyExists));
                    },
                    Ok(None) => {},
                }
            }
        }
        match self.proceed(existing_root, target, &depths, Some((options.shard_level, *tree))) {
            Written::Read(missing) => Step::Do(Action::FindTree(missing)),
            Written::Write(action) => Step::Do(action),
            Written::Done(Some(root)) => {
                if self.concluded {
                    return Step::Return(Ok(root));
                }
                let message = "metadata: set ".to_owned().concat(
                    target.to_string().as_str(),
                ).concat(" -> ").concat(tree.to_string().as_str());
                Step::Do(Action::Commit { tree: root, message })
            },
            // Once an entry is put in there is a root tree.
            Written::Done(None) => Step::Do(Action::ResolveRoot),
        }
    }

    /// Removes the metadata entry for `target`. The fanout depth is auto-detected
    /// from the tree structure. Answers `true` if removed, `false` if no entry existed.
    pub fn metadata_remove(&self, target: &Oid) -> (r: Step<Action, bool>)
        ensures
            remove_view(r) == remove_step(self@, target@),
            r matches Step::Do(Action::Commit { message, .. }) ==> message@ == "metadata: remove "@
                + hex(target@),
    {
        let root = match self.root {
            None => {
                return Step::Do(Action::ResolveRoot);
            },
            Some(None) => {
                return Step::Return(false);
            },
            Some(Some(root)) => root,
        };
        let depth: usize = match detect_fanout(&self.trees, &root, target) {
            Err(missing) => {
                return Step::Do(Action::FindTree(missing));
            },
            Ok(None) => {
                return Step::Return(false);
            },
            Ok(Some((path, _, _))) => {
                assert(contents(path@).len() == path@.len());
                path.len()
            },
        };
        let mut depths: Vec<usize> = Vec::new();
        depths.push(depth);
        // An entry at another depth is an entry of the target too.
        match sweep_fanout(&self.trees, &self.lacking, &root, target, depth + 1, None) {
            Err(missing) => {
                return Step::Do(Action::TryTree(missing));
            },
            Ok(mut deeper) => {
                let ghost others = deeper@;
                depths.append(&mut deeper);
                assert(depths_view(depths@) =~= seq![depth as nat] + depths_view(others));
            },
        }
        match self.proceed(Some(root), target, &depths, None) {
            Written::Read(missing) => Step::Do(Action::FindTree(missing)),
            Written::Write(action) => Step::Do(action),
            Written::Done(after) => {
                if self.concluded {
                    return Step::Return(true);
                }
                match after {
                    // All entries removed; delete the ref entirely.
                    None => Step::Do(Action::DeleteReference),
                    Some(tree) => {
                        let message = "metadata: remove ".to_owned().concat(
                            target.to_string().as_str(),
                        );
                        Step::Do(Action::Commit { tree, message })
                    },
                }
            },
        }
    }
}

} // verus!
