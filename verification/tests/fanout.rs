use git_metadata::fanout::{
    detect_fanout, is_fanout_segment, shard_oid, sweep_fanout, walk_tree,
};
use git_metadata::oid::Oid;
use git_metadata::tree::{ObjectKind, Tree, TreeEntry, Trees};

const TARGET: &str = "abcdef0123456789abcdef0123456789abcdef01";

fn oid(text: &str) -> Oid {
    Oid::from_str(text).unwrap()
}

fn entry(name: &str, kind: ObjectKind, id: &str) -> TreeEntry {
    TreeEntry {
        name: Some(name.to_string()),
        name_bytes: name.as_bytes().to_vec(),
        mode: if kind == ObjectKind::Tree { 0o040000 } else { 0o100644 },
        kind: Some(kind),
        id: oid(id),
    }
}

fn strings(parts: &[&str]) -> Vec<String> {
    parts.iter().map(|p| p.to_string()).collect()
}

#[test]
fn fanout_segments_are_two_hex_digits() {
    assert!(is_fanout_segment("ab"));
    assert!(is_fanout_segment("0F"));
    assert!(!is_fanout_segment("a"));
    assert!(!is_fanout_segment("abc"));
    assert!(!is_fanout_segment("ag"));
    assert!(!is_fanout_segment(""));
    assert!(!is_fanout_segment("é"));
    assert!(!is_fanout_segment("éa"));
}

#[test]
fn shard_levels_split_the_digits() {
    let target = oid(TARGET);
    assert_eq!(shard_oid(&target, 0), (strings(&[]), TARGET.to_string()));
    assert_eq!(shard_oid(&target, 1), (strings(&["ab"]), TARGET[2..].to_string()));
    assert_eq!(shard_oid(&target, 2), (strings(&["ab", "cd"]), TARGET[4..].to_string()));
    let (segments, leaf) = shard_oid(&target, 19);
    assert_eq!(segments.len(), 19);
    assert_eq!(leaf, "01");
    let (segments, leaf) = shard_oid(&target, 20);
    assert_eq!(segments.len(), 20);
    assert_eq!(leaf, "");
}

#[test]
fn walking_follows_directories() {
    let mut trees = Trees::new();
    let root = oid("01");
    assert_eq!(walk_tree(&trees, &root, &strings(&[])), Err(root));
    trees.add(root, Tree { entries: vec![entry("ab", ObjectKind::Tree, "02")] });
    assert_eq!(walk_tree(&trees, &root, &strings(&[])), Ok(Some(root)));
    assert_eq!(walk_tree(&trees, &root, &strings(&["cd"])), Ok(None));
    assert_eq!(walk_tree(&trees, &root, &strings(&["ab"])), Err(oid("02")));
    trees.add(oid("02"), Tree { entries: vec![] });
    assert_eq!(walk_tree(&trees, &root, &strings(&["ab"])), Ok(Some(oid("02"))));
    assert_eq!(walk_tree(&trees, &root, &strings(&["ab", "cd"])), Ok(None));
}

#[test]
fn detection_prefers_the_least_depth() {
    let root = oid("01");
    let target = oid(TARGET);
    let mut trees = Trees::new();
    trees.add(root, Tree { entries: vec![entry("ab", ObjectKind::Tree, "02")] });
    trees.add(
        oid("02"),
        Tree {
            entries: vec![
                entry("cd", ObjectKind::Tree, "03"),
                entry(&TARGET[2..], ObjectKind::Tree, "0a"),
            ],
        },
    );
    trees.add(oid("03"), Tree { entries: vec![entry(&TARGET[4..], ObjectKind::Tree, "0b")] });
    assert_eq!(
        detect_fanout(&trees, &root, &target),
        Ok(Some((strings(&["ab"]), TARGET[2..].to_string(), oid("0a"))))
    );
}

#[test]
fn detection_goes_on_past_an_entry_that_is_no_tree() {
    let root = oid("01");
    let target = oid(TARGET);
    let mut trees = Trees::new();
    trees.add(
        root,
        Tree {
            entries: vec![
                entry(TARGET, ObjectKind::Blob, "09"),
                entry("ab", ObjectKind::Tree, "02"),
            ],
        },
    );
    trees.add(oid("02"), Tree { entries: vec![entry(&TARGET[2..], ObjectKind::Tree, "0a")] });
    assert_eq!(
        detect_fanout(&trees, &root, &target),
        Ok(Some((strings(&["ab"]), TARGET[2..].to_string(), oid("0a"))))
    );
}

#[test]
fn detection_reaches_depth_nineteen() {
    let target = oid(TARGET);
    let (segments, leaf) = shard_oid(&target, 19);
    let mut trees = Trees::new();
    for (i, segment) in segments.iter().enumerate() {
        let here = oid(&format!("{:02x}", i + 1));
        let next = format!("{:02x}", i + 2);
        trees.add(here, Tree { entries: vec![entry(segment, ObjectKind::Tree, &next)] });
    }
    trees.add(oid("14"), Tree { entries: vec![entry(&leaf, ObjectKind::Tree, "ff")] });
    assert_eq!(
        detect_fanout(&trees, &oid("01"), &target),
        Ok(Some((segments, leaf, oid("ff"))))
    );
}

#[test]
fn nothing_is_detected_in_an_empty_tree() {
    let mut trees = Trees::new();
    trees.add(oid("01"), Tree { entries: vec![] });
    assert_eq!(detect_fanout(&trees, &oid("01"), &oid(TARGET)), Ok(None));
}

#[test]
fn sweep_finds_every_other_depth() {
    let root = oid("01");
    let target = oid(TARGET);
    let mut trees = Trees::new();
    trees.add(
        root,
        Tree {
            entries: vec![
                entry("ab", ObjectKind::Tree, "02"),
                entry(TARGET, ObjectKind::Tree, "09"),
            ],
        },
    );
    assert_eq!(sweep_fanout(&trees, &vec![], &root, &target, 0, None), Err(oid("02")));
    trees.add(
        oid("02"),
        Tree {
            entries: vec![
                entry("cd", ObjectKind::Tree, "03"),
                entry(&TARGET[2..], ObjectKind::Blob, "0a"),
            ],
        },
    );
    trees.add(
        oid("03"),
        Tree {
            entries: vec![
                entry("ef", ObjectKind::Blob, "0c"),
                entry(&TARGET[4..], ObjectKind::Tree, "0b"),
            ],
        },
    );
    let none = Vec::new();
    assert_eq!(sweep_fanout(&trees, &none, &root, &target, 0, None), Err(oid("0c")));
    let lacking = vec![oid("0c")];
    assert_eq!(sweep_fanout(&trees, &lacking, &root, &target, 0, None), Ok(vec![0, 2]));
    assert_eq!(sweep_fanout(&trees, &lacking, &root, &target, 1, None), Ok(vec![2]));
    assert_eq!(sweep_fanout(&trees, &lacking, &root, &target, 0, Some(2)), Ok(vec![0]));
    assert_eq!(sweep_fanout(&trees, &lacking, &root, &target, 3, None), Ok(vec![]));
}
