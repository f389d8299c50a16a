//! The operations, carried out on trees in a git object database held in memory.

use git_metadata::index::{
    commit_index, resolve_root_tree, Error, LookupFailure, MetadataOptions, Session,
};
use git_metadata::listing::Listing;
use git_metadata::oid::Oid;
use git_metadata::step::{Action, Step};
use git_metadata::tree::{ObjectKind, Tree, TreeEntry};

const A: &str = "abcdef0123456789abcdef0123456789abcdef01";
const B: &str = "abcd000000000000000000000000000000000002";
const C: &str = "0123456789012345678901234567890123456789";

fn repository() -> git2::Repository {
    let odb = git2::Odb::new().unwrap();
    odb.add_new_mempack_backend(1).unwrap();
    git2::Repository::from_odb(odb).unwrap()
}

fn theirs(id: &Oid) -> git2::Oid {
    git2::Oid::from_bytes(&id.bytes).unwrap()
}

fn ours(id: git2::Oid) -> Oid {
    Oid { bytes: id.as_bytes().try_into().unwrap() }
}

fn oid(text: &str) -> Oid {
    Oid::from_str(text).unwrap()
}

fn options(shard_level: u8, force: bool) -> MetadataOptions {
    MetadataOptions { shard_level, force }
}

/// A tree with one file of the given content, to attach to targets.
fn value(repo: &git2::Repository, content: &str) -> Oid {
    let blob = repo.blob(content.as_bytes()).unwrap();
    let mut builder = repo.treebuilder(None).unwrap();
    builder.insert("content", blob, 0o100644).unwrap();
    ours(builder.write().unwrap())
}

fn read(repo: &git2::Repository, id: &Oid) -> Tree {
    try_read(repo, id).unwrap()
}

fn try_read(repo: &git2::Repository, id: &Oid) -> Option<Tree> {
    let tree = repo.find_tree(theirs(id)).ok()?;
    let entries = tree
        .iter()
        .map(|entry| TreeEntry {
            name: entry.name().map(|name| name.to_string()),
            name_bytes: entry.name_bytes().to_vec(),
            mode: entry.filemode_raw(),
            kind: entry.kind().map(|kind| match kind {
                git2::ObjectType::Any => ObjectKind::Any,
                git2::ObjectType::Commit => ObjectKind::Commit,
                git2::ObjectType::Tree => ObjectKind::Tree,
                git2::ObjectType::Blob => ObjectKind::Blob,
                git2::ObjectType::Tag => ObjectKind::Tag,
            }),
            id: ours(entry.id()),
        })
        .collect();
    Some(Tree { entries })
}

/// Carries out an action. The reference is the variable `root`, and trees in `hidden`
/// cannot be read.
fn perform(
    repo: &git2::Repository,
    root: &mut Option<Oid>,
    hidden: &Vec<Oid>,
    messages: &mut Vec<String>,
    session: &mut Session,
    action: Action,
) {
    match action {
        Action::ResolveRoot => session.resolved(*root),
        Action::FindTree(id) => {
            assert!(!hidden.contains(&id));
            let tree = read(repo, &id);
            session.loaded(id, tree)
        }
        Action::TryTree(id) => match try_read(repo, &id) {
            Some(tree) if !hidden.contains(&id) => session.loaded(id, tree),
            _ => session.lacked(id),
        },
        Action::WriteTree { base, name, child } => {
            let base = base.map(|id| repo.find_tree(theirs(&id)).unwrap());
            let mut builder = repo.treebuilder(base.as_ref()).unwrap();
            match child {
                Some(child) => {
                    builder.insert(name.as_str(), theirs(&child), 0o040000).unwrap();
                }
                None => builder.remove(name.as_str()).unwrap(),
            }
            session.wrote(ours(builder.write().unwrap()))
        }
        Action::Commit { tree, message } => {
            *root = Some(tree);
            messages.push(message);
            session.conclude()
        }
        Action::DeleteReference => {
            *root = None;
            messages.push("deleted".to_string());
            session.conclude()
        }
    }
}

struct Index {
    repo: git2::Repository,
    root: Option<Oid>,
    hidden: Vec<Oid>,
    messages: Vec<String>,
}

impl Index {
    fn new() -> Index {
        Index { repo: repository(), root: None, hidden: Vec::new(), messages: Vec::new() }
    }

    fn get(&mut self, target: &str) -> Option<Oid> {
        let target = oid(target);
        let mut session = Session::new();
        loop {
            match session.metadata_get(&target) {
                Step::Return(found) => return found,
                Step::Do(action) => {
                    perform(
                        &self.repo,
                        &mut self.root,
                        &self.hidden,
                        &mut self.messages,
                        &mut session,
                        action,
                    )
                }
            }
        }
    }

    fn put(&mut self, target: &str, tree: &Oid, options: MetadataOptions) -> Result<Oid, Error> {
        let target = oid(target);
        let mut session = Session::new();
        loop {
            match session.metadata_set(&target, tree, &options) {
                Step::Return(answer) => return answer,
                Step::Do(action) => {
                    perform(
                        &self.repo,
                        &mut self.root,
                        &self.hidden,
                        &mut self.messages,
                        &mut session,
                        action,
                    )
                }
            }
        }
    }

    fn remove(&mut self, target: &str) -> bool {
        let target = oid(target);
        let mut session = Session::new();
        loop {
            match session.metadata_remove(&target) {
                Step::Return(removed) => return removed,
                Step::Do(action) => {
                    perform(
                        &self.repo,
                        &mut self.root,
                        &self.hidden,
                        &mut self.messages,
                        &mut session,
                        action,
                    )
                }
            }
        }
    }

    fn list(&mut self) -> Vec<(String, String)> {
        let mut listing = Listing::new();
        loop {
            match listing.metadata_list() {
                Step::Return(entries) => {
                    return entries
                        .iter()
                        .map(|(target, tree)| (target.to_string(), tree.to_string()))
                        .collect()
                }
                Step::Do(Action::ResolveRoot) => listing.resolved(self.root),
                Step::Do(Action::FindTree(id)) => listing.loaded(read(&self.repo, &id)),
                Step::Do(other) => panic!("{other:?}"),
            }
        }
    }
}

#[test]
fn default_options() {
    let options = MetadataOptions::default();
    assert_eq!(options.shard_level, 1);
    assert!(!options.force);
}

#[test]
fn index_that_does_not_exist_is_empty() {
    let mut index = Index::new();
    assert_eq!(index.get(A), None);
    assert!(index.list().is_empty());
    assert!(!index.remove(A));
    assert!(index.messages.is_empty());
}

#[test]
fn what_is_set_is_read_back_at_every_shard_level() {
    for level in 0..20 {
        let mut index = Index::new();
        let tree = value(&index.repo, "one");
        let root = index.put(A, &tree, options(level, false)).unwrap();
        assert_eq!(index.root, Some(root));
        assert_eq!(index.get(A), Some(tree));
        assert_eq!(index.get(B), None);
        assert_eq!(index.get(C), None);
    }
}

#[test]
fn set_writes_the_fanout_path() {
    let mut index = Index::new();
    let tree = value(&index.repo, "one");
    let root = index.put(A, &tree, options(2, false)).unwrap();
    let top = index.repo.find_tree(theirs(&root)).unwrap();
    let first = index.repo.find_tree(top.get_name("ab").unwrap().id()).unwrap();
    let second = index.repo.find_tree(first.get_name("cd").unwrap().id()).unwrap();
    assert_eq!(second.get_name(&A[4..]).unwrap().id(), theirs(&tree));
    assert_eq!(top.len() + first.len() + second.len(), 3);
    assert_eq!(index.messages, [format!("metadata: set {} -> {}", A, tree.to_string())]);
}

#[test]
fn set_refuses_to_overwrite_without_force() {
    let mut index = Index::new();
    let one = value(&index.repo, "one");
    let two = value(&index.repo, "two");
    let root = index.put(A, &one, options(1, false)).unwrap();
    for level in [0, 1, 2] {
        let refused = index.put(A, &two, options(level, false)).unwrap_err();
        assert_eq!(refused, Error::AlreadyExists);
        assert_eq!(
            refused.message(),
            "metadata entry already exists (use force to overwrite)"
        );
    }
    assert_eq!(index.root, Some(root));
    assert_eq!(index.get(A), Some(one));
    assert_eq!(index.messages.len(), 1);
}

#[test]
fn force_overwrites_at_the_same_level() {
    let mut index = Index::new();
    let one = value(&index.repo, "one");
    let two = value(&index.repo, "two");
    index.put(A, &one, options(1, false)).unwrap();
    index.put(A, &two, options(1, true)).unwrap();
    assert_eq!(index.get(A), Some(two));
    assert_eq!(index.list().len(), 1);
}

#[test]
fn force_overwrites_at_every_other_depth() {
    for (before, after) in [(1, 2), (2, 1), (0, 19), (19, 0), (5, 1)] {
        let mut index = Index::new();
        let one = value(&index.repo, "one");
        let two = value(&index.repo, "two");
        index.put(A, &one, options(before, false)).unwrap();
        index.put(A, &two, options(after, true)).unwrap();
        assert_eq!(index.get(A), Some(two));
        assert_eq!(index.list(), [(A.to_string(), two.to_string())]);
        assert!(index.remove(A));
        assert_eq!(index.get(A), None);
        assert!(index.list().is_empty());
        assert_eq!(index.root, None);
    }
}

/// An index that holds a target at several depths, and another target.
fn crowded() -> Index {
    let mut index = Index::new();
    let one = value(&index.repo, "one");
    let two = value(&index.repo, "two");
    let root = {
        let mut deep = index.repo.treebuilder(None).unwrap();
        deep.insert(&A[4..], theirs(&two), 0o040000).unwrap();
        deep.insert(&B[4..], theirs(&two), 0o040000).unwrap();
        let deep = deep.write().unwrap();
        let mut middle = index.repo.treebuilder(None).unwrap();
        middle.insert("cd", deep, 0o040000).unwrap();
        middle.insert(&A[2..], theirs(&one), 0o040000).unwrap();
        let middle = middle.write().unwrap();
        let mut top = index.repo.treebuilder(None).unwrap();
        top.insert("ab", middle, 0o040000).unwrap();
        top.insert(A, theirs(&one), 0o040000).unwrap();
        top.write().unwrap()
    };
    index.root = Some(ours(root));
    index
}

#[test]
fn force_takes_out_every_other_copy() {
    let mut index = crowded();
    let two = value(&index.repo, "two");
    let three = value(&index.repo, "three");
    index.put(A, &three, options(1, true)).unwrap();
    assert_eq!(index.get(A), Some(three));
    assert_eq!(index.get(B), Some(two));
    assert_eq!(
        index.list(),
        [(B.to_string(), two.to_string()), (A.to_string(), three.to_string())]
    );
    assert_eq!(index.messages.len(), 1);
}

#[test]
fn remove_takes_out_every_copy() {
    let mut index = crowded();
    let two = value(&index.repo, "two");
    assert!(index.remove(A));
    assert_eq!(index.get(A), None);
    assert_eq!(index.list(), [(B.to_string(), two.to_string())]);
    assert_eq!(index.messages, [format!("metadata: remove {A}")]);
    assert!(!index.remove(A));
}

#[test]
fn what_is_no_directory_is_passed_over() {
    let mut index = Index::new();
    let one = value(&index.repo, "one");
    let two = value(&index.repo, "two");
    let blob = index.repo.blob(b"x").unwrap();
    let root = {
        let mut top = index.repo.treebuilder(None).unwrap();
        top.insert("ab", blob, 0o100644).unwrap();
        top.insert(A, theirs(&one), 0o040000).unwrap();
        ours(top.write().unwrap())
    };
    index.root = Some(root);
    index.put(A, &two, options(0, true)).unwrap();
    assert_eq!(index.get(A), Some(two));
    assert!(index.remove(A));
    let left = index.repo.find_tree(theirs(&index.root.unwrap())).unwrap();
    assert_eq!(left.len(), 1);
    assert!(left.get_name("ab").is_some());
}

#[test]
fn directory_that_cannot_be_read_is_passed_over() {
    for remove in [false, true] {
        let mut index = Index::new();
        let one = value(&index.repo, "one");
        let two = value(&index.repo, "two");
        index.put(B, &two, options(2, false)).unwrap();
        index.put(A, &one, options(1, false)).unwrap();
        let top = index.repo.find_tree(theirs(&index.root.unwrap())).unwrap().id();
        let deep = {
            let top = index.repo.find_tree(top).unwrap();
            let first = index.repo.find_tree(top.get_name("ab").unwrap().id()).unwrap();
            let deep = first.get_name("cd").unwrap().id();
            ours(deep)
        };
        index.hidden.push(deep);
        if remove {
            assert!(index.remove(A));
        } else {
            index.put(A, &two, options(1, true)).unwrap();
            assert_eq!(index.get(A), Some(two));
        }
        index.hidden.clear();
        assert_eq!(index.get(B), Some(two));
        assert_eq!(index.get(A), if remove { None } else { Some(two) });
    }
}

#[test]
fn forced_writes_to_two_targets_commute() {
    for (level, other) in [(0, 2), (1, 1), (2, 0), (19, 3)] {
        let mut ab = crowded();
        let mut ba = crowded();
        let three = value(&ab.repo, "three");
        let four = value(&ab.repo, "four");
        value(&ba.repo, "three");
        value(&ba.repo, "four");
        ab.put(A, &three, options(level, true)).unwrap();
        ab.put(B, &four, options(other, true)).unwrap();
        ba.put(B, &four, options(other, true)).unwrap();
        ba.put(A, &three, options(level, true)).unwrap();
        assert_eq!(ab.root, ba.root);
        assert!(ab.remove(A) && ab.remove(B));
        assert!(ba.remove(B) && ba.remove(A));
        assert_eq!(ab.root, None);
        assert_eq!(ba.root, None);
    }
}

#[test]
fn repeated_forced_set_changes_nothing() {
    let mut index = Index::new();
    let one = value(&index.repo, "one");
    let two = value(&index.repo, "two");
    index.put(B, &two, options(3, false)).unwrap();
    let root = index.put(A, &one, options(2, false)).unwrap();
    assert_eq!(index.put(A, &one, options(2, true)).unwrap(), root);
    let other = index.put(A, &two, options(2, true)).unwrap();
    assert!(other != root);
    assert_eq!(index.put(A, &one, options(2, true)).unwrap(), root);
}

#[test]
fn writes_to_two_targets_commute() {
    for (level, other) in [(0, 0), (1, 1), (2, 2), (2, 5), (19, 0)] {
        let mut ab = Index::new();
        let mut ba = Index::new();
        let one = value(&ab.repo, "one");
        let two = value(&ab.repo, "two");
        value(&ba.repo, "one");
        value(&ba.repo, "two");
        ab.put(A, &one, options(level, false)).unwrap();
        ab.put(B, &two, options(other, false)).unwrap();
        ba.put(B, &two, options(other, false)).unwrap();
        ba.put(A, &one, options(level, false)).unwrap();
        assert_eq!(ab.root, ba.root);
    }
}

#[test]
fn list_ascends_where_all_entries_have_one_depth() {
    for level in 0..20 {
        let mut index = Index::new();
        let one = value(&index.repo, "one");
        for target in [A, C, B] {
            index.put(target, &one, options(level, false)).unwrap();
        }
        let targets: Vec<String> = index.list().into_iter().map(|(target, _)| target).collect();
        assert_eq!(targets, [C, B, A]);
    }
}

#[test]
fn set_keeps_other_targets() {
    let mut index = Index::new();
    let one = value(&index.repo, "one");
    let two = value(&index.repo, "two");
    let three = value(&index.repo, "three");
    index.put(A, &one, options(2, false)).unwrap();
    index.put(B, &two, options(2, false)).unwrap();
    index.put(C, &three, options(1, false)).unwrap();
    assert_eq!(index.get(A), Some(one));
    assert_eq!(index.get(B), Some(two));
    assert_eq!(index.get(C), Some(three));
}

#[test]
fn remove_keeps_other_targets() {
    let mut index = Index::new();
    let one = value(&index.repo, "one");
    let two = value(&index.repo, "two");
    index.put(A, &one, options(2, false)).unwrap();
    index.put(B, &two, options(2, false)).unwrap();
    assert!(index.remove(A));
    assert_eq!(index.get(A), None);
    assert_eq!(index.get(B), Some(two));
    assert!(!index.remove(A));
    assert_eq!(index.messages.last().unwrap(), &format!("metadata: remove {A}"));
}

#[test]
fn remove_undoes_set_down_to_the_same_root_tree() {
    let mut index = Index::new();
    let one = value(&index.repo, "one");
    let two = value(&index.repo, "two");
    let root = index.put(B, &one, options(1, false)).unwrap();
    for level in 0..20 {
        index.put(A, &two, options(level, false)).unwrap();
        assert!(index.root != Some(root));
        assert!(index.remove(A));
        assert_eq!(index.root, Some(root));
    }
}

#[test]
fn removing_the_last_entry_deletes_the_reference() {
    for level in 0..20 {
        let mut index = Index::new();
        let one = value(&index.repo, "one");
        index.put(A, &one, options(level, false)).unwrap();
        assert!(index.remove(A));
        assert_eq!(index.root, None);
        assert_eq!(index.messages.last().unwrap(), "deleted");
    }
}

#[test]
fn list_gives_every_entry_in_tree_order() {
    let mut index = Index::new();
    let one = value(&index.repo, "one");
    let two = value(&index.repo, "two");
    let three = value(&index.repo, "three");
    index.put(A, &one, options(1, false)).unwrap();
    index.put(B, &two, options(2, false)).unwrap();
    index.put(C, &three, options(0, false)).unwrap();
    assert_eq!(
        index.list(),
        [
            (C.to_string(), three.to_string()),
            (B.to_string(), two.to_string()),
            (A.to_string(), one.to_string()),
        ]
    );
}

#[test]
fn list_covers_every_level() {
    for level in 0..20 {
        let mut index = Index::new();
        let one = value(&index.repo, "one");
        index.put(A, &one, options(level, false)).unwrap();
        assert_eq!(index.list(), [(A.to_string(), one.to_string())]);
    }
}

#[test]
fn list_skips_paths_in_upper_case() {
    let mut index = Index::new();
    let one = value(&index.repo, "one");
    let root = {
        let mut below = index.repo.treebuilder(None).unwrap();
        below.insert(&A[2..], theirs(&one), 0o040000).unwrap();
        let below = below.write().unwrap();
        let mut top = index.repo.treebuilder(None).unwrap();
        top.insert("AB", below, 0o040000).unwrap();
        top.insert("ABCDEF0123456789ABCDEF0123456789ABCDEF02", theirs(&one), 0o040000).unwrap();
        ours(top.write().unwrap())
    };
    index.root = Some(root);
    assert!(index.list().is_empty());
}

#[test]
fn value_that_is_no_tree_is_asked_for_at_any_level() {
    let session = Session::new();
    match session.metadata_set(&oid(A), &oid("0a"), &options(200, true)) {
        Step::Do(Action::FindTree(id)) => assert_eq!(id, oid("0a")),
        other => panic!("{other:?}"),
    }
}

#[test]
fn list_skips_what_is_no_entry() {
    let mut index = Index::new();
    let one = value(&index.repo, "one");
    let blob = index.repo.blob(b"x").unwrap();
    let mut builder = index.repo.treebuilder(None).unwrap();
    builder.insert(A, blob, 0o100644).unwrap();
    builder.insert("abcdef", theirs(&one), 0o040000).unwrap();
    builder.insert("ABCDEF0123456789ABCDEF0123456789ABCDEF01", theirs(&one), 0o040000).unwrap();
    builder.insert("readme", theirs(&one), 0o040000).unwrap();
    builder.insert(C, theirs(&one), 0o040000).unwrap();
    let root = ours(builder.write().unwrap());
    drop(builder);
    index.root = Some(root);
    assert_eq!(index.list(), [(C.to_string(), one.to_string())]);
}

#[test]
fn missing_reference_is_no_root_tree() {
    assert_eq!(resolve_root_tree(Ok(oid(A))), Ok(Some(oid(A))));
    assert_eq!(resolve_root_tree(Err(LookupFailure::NotFound)), Ok(None));
    assert_eq!(resolve_root_tree(Err(LookupFailure::Other)), Err(LookupFailure::Other));
}

#[test]
fn commit_parents_on_the_tip() {
    let commit = commit_index("refs/x", oid(A), "hello", Ok(oid(B))).unwrap();
    assert_eq!(commit.reference, "refs/x");
    assert_eq!(commit.tree, oid(A));
    assert_eq!(commit.message, "hello");
    assert_eq!(commit.parents, [oid(B)]);
    let first = commit_index("refs/x", oid(A), "hello", Err(LookupFailure::NotFound)).unwrap();
    assert!(first.parents.is_empty());
    assert_eq!(
        commit_index("refs/x", oid(A), "hello", Err(LookupFailure::Other)).unwrap_err(),
        LookupFailure::Other
    );
}

#[test]
fn set_runs_through_its_steps() {
    let target = oid(A);
    let tree = oid("0a");
    let options = options(1, false);
    let mut session = Session::new();
    match session.metadata_set(&target, &tree, &options) {
        Step::Do(Action::FindTree(id)) => assert_eq!(id, tree),
        other => panic!("{other:?}"),
    }
    session.loaded(tree, Tree { entries: vec![] });
    assert!(matches!(
        session.metadata_set(&target, &tree, &options),
        Step::Do(Action::ResolveRoot)
    ));
    session.resolved(None);
    match session.metadata_set(&target, &tree, &options) {
        Step::Do(Action::WriteTree { base, name, child }) => {
            assert_eq!(base, None);
            assert_eq!(name, &A[2..]);
            assert_eq!(child, Some(tree));
        }
        other => panic!("{other:?}"),
    }
    session.wrote(oid("0b"));
    match session.metadata_set(&target, &tree, &options) {
        Step::Do(Action::WriteTree { base, name, child }) => {
            assert_eq!(base, None);
            assert_eq!(name, "ab");
            assert_eq!(child, Some(oid("0b")));
        }
        other => panic!("{other:?}"),
    }
    session.wrote(oid("0c"));
    match session.metadata_set(&target, &tree, &options) {
        Step::Do(Action::Commit { tree: root, message }) => {
            assert_eq!(root, oid("0c"));
            assert_eq!(message, format!("metadata: set {} -> {}", A, tree.to_string()));
        }
        other => panic!("{other:?}"),
    }
    session.conclude();
    match session.metadata_set(&target, &tree, &options) {
        Step::Return(Ok(root)) => assert_eq!(root, oid("0c")),
        other => panic!("{other:?}"),
    }
}

#[test]
fn trees_on_the_way_are_asked_for_once() {
    let target = oid(A);
    let mut session = Session::new();
    assert!(matches!(session.metadata_get(&target), Step::Do(Action::ResolveRoot)));
    assert!(matches!(session.metadata_remove(&target), Step::Do(Action::ResolveRoot)));
    session.resolved(Some(oid("01")));
    match session.metadata_get(&target) {
        Step::Do(Action::FindTree(id)) => assert_eq!(id, oid("01")),
        other => panic!("{other:?}"),
    }
    match session.metadata_remove(&target) {
        Step::Do(Action::FindTree(id)) => assert_eq!(id, oid("01")),
        other => panic!("{other:?}"),
    }
    session.loaded(oid("01"), Tree { entries: vec![] });
    assert!(matches!(session.metadata_get(&target), Step::Return(None)));
    assert!(matches!(session.metadata_remove(&target), Step::Return(false)));
}

#[test]
fn listing_follows_writing_and_removing() {
    let mut index = Index::new();
    let one = value(&index.repo, "one");
    let two = value(&index.repo, "two");
    index.put(A, &one, options(2, false)).unwrap();
    index.put(B, &two, options(2, false)).unwrap();
    assert!(index.list().contains(&(A.to_string(), one.to_string())));
    assert!(index.list().contains(&(B.to_string(), two.to_string())));
    assert!(index.remove(A));
    assert_eq!(index.list(), [(B.to_string(), two.to_string())]);
}
