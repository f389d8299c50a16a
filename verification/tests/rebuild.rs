use git_metadata::listing::{Listing, Wanted};
use git_metadata::oid::Oid;
use git_metadata::rebuild::{build_fanout, build_fanout_remove, Change, RemoveResult, TreeEdit};
use git_metadata::step::{Action, Step};
use git_metadata::tree::{ObjectKind, Tree, TreeEntry, Trees};

const LEAF: &str = "cdef0123456789abcdef0123456789abcdef01";

fn oid(text: &str) -> Oid {
    Oid::from_str(text).unwrap()
}

fn directory(name: &str, id: &str) -> TreeEntry {
    TreeEntry {
        name: Some(name.to_string()),
        name_bytes: name.as_bytes().to_vec(),
        mode: 0o040000,
        kind: Some(ObjectKind::Tree),
        id: oid(id),
    }
}

fn path() -> Vec<String> {
    vec!["ab".to_string()]
}

fn shown(edit: &TreeEdit) -> (Option<Oid>, &str, String) {
    let change = match edit.change {
        Change::Insert(id) => id.to_string(),
        Change::InsertWritten => "written".to_string(),
        Change::Remove => "removed".to_string(),
    };
    (edit.base, edit.name.as_str(), change)
}

#[test]
fn last_reading_of_a_tree_stands() {
    let mut trees = Trees::new();
    assert!(trees.find_tree(&oid("01")).is_none());
    trees.add(oid("01"), Tree { entries: vec![] });
    trees.add(oid("01"), Tree { entries: vec![directory("ab", "02")] });
    assert_eq!(trees.find_tree(&oid("01")).unwrap().entries.len(), 1);
}

#[test]
fn entries_are_found_by_name() {
    let tree = Tree {
        entries: vec![
            TreeEntry {
                name: None,
                name_bytes: vec![0xff],
                mode: 0o100644,
                kind: Some(ObjectKind::Blob),
                id: oid("09"),
            },
            directory("ab", "02"),
            directory("ab", "03"),
        ],
    };
    assert_eq!(tree.get_name(&"ab".to_string()).unwrap().id, oid("02"));
    assert!(tree.get_name(&"cd".to_string()).is_none());
    assert!(tree.has_others(&"ab".to_string()));
    let tree = Tree { entries: vec![directory("ab", "02")] };
    assert!(!tree.has_others(&"ab".to_string()));
    assert!(tree.has_others(&"cd".to_string()));
}

#[test]
fn insertion_without_a_root_starts_from_nothing() {
    let trees = Trees::new();
    let edits = build_fanout(&trees, None, &path(), LEAF, &oid("0a")).ok().unwrap();
    assert_eq!(edits.len(), 2);
    assert_eq!(shown(&edits[0]), (None, LEAF, oid("0a").to_string()));
    assert_eq!(shown(&edits[1]), (None, "ab", "written".to_string()));
}

#[test]
fn insertion_builds_on_the_trees_that_exist() {
    let mut trees = Trees::new();
    let root = oid("01");
    assert!(build_fanout(&trees, Some(root), &path(), LEAF, &oid("0a")).err() == Some(root));
    trees.add(root, Tree { entries: vec![directory("ab", "02")] });
    assert!(build_fanout(&trees, Some(root), &path(), LEAF, &oid("0a")).err() == Some(oid("02")));
    trees.add(oid("02"), Tree { entries: vec![] });
    let edits = build_fanout(&trees, Some(root), &path(), LEAF, &oid("0a")).ok().unwrap();
    assert_eq!(shown(&edits[0]), (Some(oid("02")), LEAF, oid("0a").to_string()));
    assert_eq!(shown(&edits[1]), (Some(root), "ab", "written".to_string()));
}

#[test]
fn removal_of_the_only_entry_leaves_nothing() {
    let mut trees = Trees::new();
    trees.add(oid("01"), Tree { entries: vec![directory("ab", "02")] });
    trees.add(oid("02"), Tree { entries: vec![directory(LEAF, "0a")] });
    assert!(matches!(
        build_fanout_remove(&trees, &oid("01"), &path(), LEAF),
        Ok(RemoveResult::Empty)
    ));
}

#[test]
fn removal_prunes_directories_that_are_left_empty() {
    let mut trees = Trees::new();
    trees.add(oid("01"), Tree { entries: vec![directory("ab", "02"), directory("cd", "03")] });
    trees.add(oid("02"), Tree { entries: vec![directory(LEAF, "0a")] });
    match build_fanout_remove(&trees, &oid("01"), &path(), LEAF) {
        Ok(RemoveResult::Removed(edits)) => {
            assert_eq!(edits.len(), 1);
            assert_eq!(shown(&edits[0]), (Some(oid("01")), "ab", "removed".to_string()));
        }
        _ => panic!("not removed"),
    }
}

#[test]
fn removal_keeps_the_other_entries_of_a_directory() {
    let mut trees = Trees::new();
    trees.add(oid("01"), Tree { entries: vec![directory("ab", "02")] });
    trees.add(oid("02"), Tree { entries: vec![directory(LEAF, "0a"), directory("x", "0b")] });
    match build_fanout_remove(&trees, &oid("01"), &path(), LEAF) {
        Ok(RemoveResult::Removed(edits)) => {
            assert_eq!(edits.len(), 2);
            assert_eq!(shown(&edits[0]), (Some(oid("02")), LEAF, "removed".to_string()));
            assert_eq!(shown(&edits[1]), (Some(oid("01")), "ab", "written".to_string()));
        }
        _ => panic!("not removed"),
    }
}

#[test]
fn removal_of_what_is_not_there_finds_nothing() {
    let mut trees = Trees::new();
    trees.add(oid("01"), Tree { entries: vec![directory("ab", "02")] });
    trees.add(oid("02"), Tree { entries: vec![directory("x", "0b")] });
    assert!(matches!(
        build_fanout_remove(&trees, &oid("01"), &path(), LEAF),
        Ok(RemoveResult::NotFound)
    ));
    assert!(matches!(
        build_fanout_remove(&trees, &oid("01"), &vec!["cd".to_string()], LEAF),
        Ok(RemoveResult::NotFound)
    ));
    let missing = build_fanout_remove(&trees, &oid("09"), &path(), LEAF).err();
    assert!(missing == Some(oid("09")));
}

#[test]
fn listing_asks_for_the_root_and_then_for_directories() {
    let mut listing = Listing::new();
    assert!(matches!(listing.metadata_list(), Step::Do(Action::ResolveRoot)));
    listing.loaded(Tree { entries: vec![] });
    assert!(matches!(listing.wanted, Wanted::Root));
    listing.resolved(Some(oid("01")));
    match listing.metadata_list() {
        Step::Do(Action::FindTree(id)) => assert_eq!(id, oid("01")),
        other => panic!("{other:?}"),
    }
    listing.loaded(Tree { entries: vec![directory("ab", "02")] });
    listing.collect_entries();
    match listing.metadata_list() {
        Step::Do(Action::FindTree(id)) => assert_eq!(id, oid("02")),
        other => panic!("{other:?}"),
    }
    listing.resolved(None);
    listing.loaded(Tree { entries: vec![directory(LEAF, "0a")] });
    match listing.metadata_list() {
        Step::Return(entries) => {
            assert_eq!(entries.len(), 1);
            assert_eq!(entries[0].0.to_string(), format!("ab{LEAF}"));
            assert_eq!(entries[0].1, oid("0a"));
        }
        other => panic!("{other:?}"),
    }
}

#[test]
fn listing_takes_the_last_two_digits_for_an_entry() {
    let digits = format!("ab{LEAF}");
    let mut listing = Listing::new();
    listing.resolved(Some(oid("01")));
    for i in 0..19 {
        listing.loaded(Tree { entries: vec![directory(&digits[2 * i..2 * i + 2], "01")] });
        listing.collect_entries();
    }
    listing.loaded(Tree { entries: vec![directory(&digits[38..], "0a")] });
    match listing.metadata_list() {
        Step::Return(entries) => {
            assert_eq!(entries.len(), 1);
            assert_eq!(entries[0].0.to_string(), digits);
            assert_eq!(entries[0].1, oid("0a"));
        }
        other => panic!("{other:?}"),
    }
}

#[test]
fn listing_without_a_root_tree_is_empty() {
    let mut listing = Listing::new();
    listing.resolved(None);
    match listing.metadata_list() {
        Step::Return(entries) => assert!(entries.is_empty()),
        other => panic!("{other:?}"),
    }
}

#[test]
fn listing_skips_names_that_spell_no_id() {
    let nameless = TreeEntry {
        name: None,
        name_bytes: vec![0xff],
        mode: 0o040000,
        kind: Some(ObjectKind::Tree),
        id: oid("0a"),
    };
    let mut listing = Listing::new();
    listing.resolved(Some(oid("01")));
    listing.loaded(Tree { entries: vec![directory("1234", "0a"), nameless, directory("notes", "0b")] });
    match listing.metadata_list() {
        Step::Return(entries) => assert!(entries.is_empty()),
        other => panic!("{other:?}"),
    }
}
