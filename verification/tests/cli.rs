use git_metadata::cli::{
    parse_oid, report_get, report_list, report_remove, report_set, run, Cli, Command, Operation,
};
use git_metadata::man::{
    default_man_dir, generate_man_page_report, manpath_covers, parse_generate_man_flag, ManFlag,
};
use git_metadata::oid::Oid;

const A: &str = "aaaaaaaaaaaaaaaaaaaaaaaaaaaaaaaaaaaaaaaa";
const B: &str = "bbbbbbbbbbbbbbbbbbbbbbbbbbbbbbbbbbbbbbbb";

fn cli(command: Command) -> Cli {
    Cli { repo: None, ref_name: "refs/metadata/commits".to_string(), command }
}

fn oid(text: &str) -> Oid {
    Oid::from_str(text).unwrap()
}

fn components(path: &str) -> Vec<Vec<u8>> {
    path.split('/').map(|part| part.as_bytes().to_vec()).collect()
}

#[test]
fn invalid_oid_is_reported_with_its_cause() {
    assert_eq!(
        parse_oid("nope").unwrap_err(),
        "invalid OID 'nope': unable to parse OID - contains invalid characters; class=Invalid (3)"
    );
}

#[test]
fn commands_name_operations() {
    assert!(matches!(run(&cli(Command::List)), Ok(Operation::List)));
    match run(&cli(Command::Get { target: A.to_string() })) {
        Ok(Operation::Get { target }) => assert_eq!(target.to_string(), A),
        other => panic!("{other:?}"),
    }
    match run(&cli(Command::Put {
        target: A.to_string(),
        tree: B.to_string(),
        force: true,
        shard_level: 3,
    })) {
        Ok(Operation::Put { target, tree, options }) => {
            assert_eq!(target.to_string(), A);
            assert_eq!(tree.to_string(), B);
            assert!(options.force);
            assert_eq!(options.shard_level, 3);
        }
        other => panic!("{other:?}"),
    }
    match run(&cli(Command::Remove { target: A.to_string() })) {
        Ok(Operation::Remove { target }) => assert_eq!(target.to_string(), A),
        other => panic!("{other:?}"),
    }
}

#[test]
fn first_bad_id_of_a_command_is_reported() {
    let fault = run(&cli(Command::Put {
        target: "".to_string(),
        tree: "zz".to_string(),
        force: false,
        shard_level: 1,
    }))
    .unwrap_err();
    assert_eq!(fault, "invalid OID '': unable to parse OID - too short; class=Invalid (3)");
    let fault = run(&cli(Command::Put {
        target: A.to_string(),
        tree: "zz".to_string(),
        force: false,
        shard_level: 1,
    }))
    .unwrap_err();
    assert_eq!(
        fault,
        "invalid OID 'zz': unable to parse OID - contains invalid characters; class=Invalid (3)"
    );
    assert!(run(&cli(Command::Get { target: "x".to_string() })).is_err());
    assert!(run(&cli(Command::Remove { target: "x".to_string() })).is_err());
}

#[test]
fn list_report() {
    let report = report_list("refs/metadata/commits", &vec![]);
    assert_eq!(report.stdout, ["No entries in refs/metadata/commits."]);
    assert!(report.stderr.is_empty());
    assert!(report.success);
    let report = report_list("r", &vec![(oid(A), oid(B)), (oid(B), oid(A))]);
    assert_eq!(report.stdout, [format!("{A} {B}"), format!("{B} {A}")]);
}

#[test]
fn get_report() {
    let report = report_get("abc", &Some(oid(B)));
    assert_eq!(report.stdout, [B]);
    assert!(report.success);
    let report = report_get("abc", &None);
    assert_eq!(report.stderr, ["No metadata entry for abc."]);
    assert!(report.stdout.is_empty());
    assert!(!report.success);
}

#[test]
fn set_report() {
    let report = report_set("aa", "bb", &oid(B));
    assert_eq!(report.stderr, [format!("Set aa -> bb (root tree {B}).")]);
    assert!(report.stdout.is_empty());
    assert!(report.success);
}

#[test]
fn remove_report() {
    let report = report_remove("aa", true);
    assert_eq!(report.stderr, ["Removed metadata entry for aa."]);
    assert!(report.success);
    let report = report_remove("aa", false);
    assert_eq!(report.stderr, ["No metadata entry for aa."]);
    assert!(!report.success);
}

#[test]
fn man_flag_is_found_anywhere() {
    let args = |list: &[&str]| list.iter().map(|s| s.to_string()).collect::<Vec<String>>();
    assert!(matches!(parse_generate_man_flag(&args(&["git-metadata", "list"])), ManFlag::Absent));
    assert!(matches!(
        parse_generate_man_flag(&args(&["git-metadata", "--generate-man"])),
        ManFlag::Default
    ));
    match parse_generate_man_flag(&args(&["x", "list", "--generate-man", "out", "--generate-man"])) {
        ManFlag::Directory(directory) => assert_eq!(directory, "out"),
        other => panic!("{other:?}"),
    }
}

#[test]
fn manpath_covers_equal_and_deeper_directories() {
    let dir = components("/usr/share/man");
    assert!(manpath_covers(&dir, &vec![components("/opt"), components("/usr/share/man")]));
    assert!(manpath_covers(&dir, &vec![components("/usr")]));
    assert!(!manpath_covers(&dir, &vec![components("/usr/share/man/man1")]));
    assert!(!manpath_covers(&dir, &vec![components("/usr/sha")]));
    assert!(!manpath_covers(&dir, &vec![]));
}

#[test]
fn man_page_report_lines() {
    assert_eq!(generate_man_page_report("/m/man1/x.1", "/m", true), ["Wrote man page to /m/man1/x.1"]);
    assert_eq!(
        generate_man_page_report("/m/man1/x.1", "/m", false),
        [
            "Wrote man page to /m/man1/x.1",
            "",
            "You may need to add this to your shell environment:",
            "",
            "  export MANPATH=\"/m:$MANPATH\"",
        ]
    );
}

#[test]
fn default_man_dir_follows_the_environment() {
    let parts = |list: &[&str]| list.iter().map(|s| s.to_string()).collect::<Vec<String>>();
    assert_eq!(default_man_dir(Some("/data"), Some("/home")), Some(("/data", parts(&["man"]))));
    assert_eq!(
        default_man_dir(None, Some("/home")),
        Some(("/home", parts(&[".local/share", "man"])))
    );
    assert_eq!(default_man_dir::<&str>(None, None), None);
}
