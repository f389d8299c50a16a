//! The command line: what a command asks for, and what it prints.

use vstd::prelude::*;

use crate::index::MetadataOptions;
use crate::listing::pairs;
use crate::oid::{
    digit_value, hex, is_hex_digit, is_oid_text, law_canonical_text_round_trip,
    law_hex_is_injective, law_oid_round_trip, law_read_id_spells_its_text, lemma_hex_digits,
    lemma_hex_is_lower_case, oid_failure, spelled, Oid,
};

verus! {

/// `std::path::PathBuf`: a path is only carried from the command line to where the
/// repository is opened.
#[verifier::external_type_specification]
#[verifier::external_body]
pub struct ExPathBuf(std::path::PathBuf);

/// Manage Git object metadata stored in a fanout ref tree.
pub struct Cli {
    /// Path to the git repository. Defaults to the current directory.
    pub repo: Option<std::path::PathBuf>,
    /// The ref under which metadata is stored (e.g. `refs/metadata/commits`).
    pub ref_name: String,
    pub command: Command,
}

pub enum Command {
    /// List all entries in the metadata index.
    List,
    /// Read the metadata tree OID attached to a target object.
    Get {
        /// The OID of the target object to look up.
        target: String,
    },
    /// Write or overwrite the metadata tree for a target object.
    Put {
        /// The OID of the target object.
        target: String,
        /// The OID of the tree to associate with the target.
        tree: String,
        /// Overwrite an existing entry without error.
        force: bool,
        /// Fanout depth: number of 2-hex-char directory segments.
        /// 1 means `ab/cdef01...` (like git-notes). 2 means `ab/cd/ef01...`.
        shard_level: u8,
    },
    /// Remove the metadata entry for a target object.
    Remove {
        /// The OID of the target object to remove.
        target: String,
    },
}

/// An operation on the index, with the ids that a command names.
#[derive(Debug)]
pub enum Operation {
    List,
    Get { target: Oid },
    Put { target: Oid, tree: Oid, options: MetadataOptions },
    Remove { target: Oid },
}

/// What a command prints, line by line, and whether it succeeded.
#[derive(Debug)]
pub struct Report {
    pub stdout: Vec<String>,
    pub stderr: Vec<String>,
    pub success: bool,
}

/// An operation, as contracts see it.
pub enum Asked {
    List,
    Get { target: Seq<u8> },
    Put { target: Seq<u8>, tree: Seq<u8>, force: bool, shard_level: u8 },
    Remove { target: Seq<u8> },
}

impl View for Operation {
    type V = Asked;

    open spec fn view(&self) -> Asked {
        match *self {
            Operation::List => Asked::List,
            Operation::Get { target } => Asked::Get { target: target@ },
            Operation::Put { target, tree, options } => Asked::Put {
                target: target@,
                tree: tree@,
                force: options.force,
                shard_level: options.shard_level,
            },
            Operation::Remove { target } => Asked::Remove { target: target@ },
        }
    }
}

/// The id that a command names, or why it names none.
pub open spec fn named_oid(text: Seq<char>) -> Result<Seq<u8>, Seq<char>> {
    if is_oid_text(text) {
        Ok(spelled(text))
    } else {
        Err("invalid OID '"@ + text + "': "@ + oid_failure(text))
    }
}

/// The operation that a command asks for, or why it asks for none.
pub open spec fn asked(command: Command) -> Result<Asked, Seq<char>> {
    match command {
        Command::List => Ok(Asked::List),
        Command::Get { target } => match named_oid(target@) {
            Ok(target) => Ok(Asked::Get { target }),
            Err(fault) => Err(fault),
        },
        Command::Put { target, tree, force, shard_level } => match (
            named_oid(target@),
            named_oid(tree@),
        ) {
            (Ok(target), Ok(tree)) => Ok(Asked::Put { target, tree, force, shard_level }),
            (Err(fault), _) => Err(fault),
            (_, Err(fault)) => Err(fault),
        },
        Command::Remove { target } => match named_oid(target@) {
            Ok(target) => Ok(Asked::Remove { target }),
            Err(fault) => Err(fault),
        },
    }
}

/// The outcome of reading an id, as contracts see it.
pub open spec fn oid_view(r: Result<Oid, String>) -> Result<Seq<u8>, Seq<char>> {
    match r {
        Ok(oid) => Ok(oid@),
        Err(fault) => Err(fault@),
    }
}

/// The outcome of reading a command, as contracts see it.
pub open spec fn operation_view(r: Result<Operation, String>) -> Result<Asked, Seq<char>> {
    match r {
        Ok(operation) => Ok(operation@),
        Err(fault) => Err(fault@),
    }
}

/// What the lines of `lines` hold.
pub open spec fn lines(lines: Seq<String>) -> Seq<Seq<char>> {
    lines.map_values(|line: String| line@)
}

/// Whether `text` names the id `id`: written out, the id begins with the digits of
/// `text`, of whichever case, and goes on with zeros.
pub open spec fn names(text: Seq<char>, id: Seq<u8>) -> bool {
    &&& id.len() == 20
    &&& 0 < text.len() <= 40
    &&& forall|i: int|
        0 <= i < text.len() ==> is_hex_digit(#[trigger] text[i]) && digit_value(text[i])
            == digit_value(hex(id)[i])
    &&& forall|i: int| text.len() <= i < 40 ==> #[trigger] hex(id)[i] == '0'
}

/// A text names the id that is read from it.
proof fn lemma_names_what_is_read(text: Seq<char>)
    requires
        is_oid_text(text),
    ensures
        names(text, spelled(text)),
        text.len() == 40 && (forall|i: int|
            0 <= i < 40 ==> '0' <= #[trigger] text[i] <= '9' || 'a' <= text[i] <= 'f') ==> hex(
            spelled(text),
        ) == text,
{
    assert forall|i: int| text.len() <= i < 40 implies #[trigger] hex(spelled(text))[i] == '0' by {
        law_read_id_spells_its_text(text, i);
    }
    assert forall|i: int| 0 <= i < text.len() implies is_hex_digit(#[trigger] text[i])
        && digit_value(text[i]) == digit_value(hex(spelled(text))[i]) by {
        law_read_id_spells_its_text(text, i);
    }
    if text.len() == 40 && (forall|i: int|
        0 <= i < 40 ==> '0' <= #[trigger] text[i] <= '9' || 'a' <= text[i] <= 'f') {
        law_canonical_text_round_trip(text);
    }
}

/// Two ids that the same text names are the same.
pub proof fn law_a_text_names_one_id(text: Seq<char>, one: Seq<u8>, other: Seq<u8>)
    requires
        names(text, one),
        names(text, other),
    ensures
        one == other,
{
    lemma_hex_digits(one);
    lemma_hex_digits(other);
    assert forall|i: int| 0 <= i < 40 implies #[trigger] hex(one)[i] == hex(other)[i] by {
        lemma_hex_is_lower_case(one, i);
        lemma_hex_is_lower_case(other, i);
        if i < text.len() {
            assert(is_hex_digit(text[i]));
        }
    }
    assert(hex(one) =~= hex(other));
    law_hex_is_injective(one, other);
}

/// The written form of an id names it.
pub proof fn law_an_id_is_named_by_its_digits(id: Seq<u8>)
    requires
        id.len() == 20,
    ensures
        names(hex(id), id),
        named_oid(hex(id)) == Ok::<Seq<u8>, Seq<char>>(id),
{
    lemma_hex_digits(id);
    law_oid_round_trip(id);
}

/// An id that is read from a text is one that the text names, and a text of 40
/// lower-case digits is the written form of the id. What names no id is refused, with
/// a message that quotes it.
pub proof fn law_an_id_is_read_from_its_name(text: Seq<char>)
    ensures
        match named_oid(text) {
            Ok(id) => names(text, id),
            Err(fault) => (forall|id: Seq<u8>| !#[trigger] names(text, id)) && fault
                == "invalid OID '"@ + text + "': "@ + oid_failure(text),
        },
        text.len() == 40 && (forall|i: int|
            0 <= i < 40 ==> '0' <= #[trigger] text[i] <= '9' || 'a' <= text[i] <= 'f') ==> (
        named_oid(text) matches Ok(id) && hex(id) == text),
{
    if is_oid_text(text) {
        lemma_names_what_is_read(text);
    }
    if text.len() == 40 && (forall|i: int|
        0 <= i < 40 ==> '0' <= #[trigger] text[i] <= '9' || 'a' <= text[i] <= 'f') {
        law_canonical_text_round_trip(text);
    }
}

/// A command asks for the operation that it is called by, on the ids that it names,
/// and a write for just the force and the shard level that it gives.
pub proof fn law_a_command_asks_for_what_it_says(command: Command)
    ensures
        match (command, asked(command)) {
            (Command::List, Ok(Asked::List)) => true,
            (Command::Get { target }, Ok(Asked::Get { target: id })) => names(target@, id),
            (
                Command::Put { target, tree, force, shard_level },
                Ok(Asked::Put { target: id, tree: attached, force: forced, shard_level: level }),
            ) => names(target@, id) && names(tree@, attached) && forced == force && level
                == shard_level,
            (Command::Remove { target }, Ok(Asked::Remove { target: id })) => names(target@, id),
            (Command::Get { target }, Err(_)) => forall|id: Seq<u8>| !#[trigger] names(target@, id),
            (Command::Put { target, tree, .. }, Err(_)) => (forall|id: Seq<u8>|
                !#[trigger] names(target@, id)) || (forall|id: Seq<u8>|
                !#[trigger] names(tree@, id)),
            (Command::Remove { target }, Err(_)) => forall|id: Seq<u8>|
                !#[trigger] names(target@, id),
            _ => false,
        },
{
    match command {
        Command::List => {},
        Command::Get { target } => {
            law_an_id_is_read_from_its_name(target@);
        },
        Command::Put { target, tree, .. } => {
            law_an_id_is_read_from_its_name(target@);
            law_an_id_is_read_from_its_name(tree@);
        },
        Command::Remove { target } => {
            law_an_id_is_read_from_its_name(target@);
        },
    }
}

/// Reads an id that a command names.
pub fn parse_oid(s: &str) -> (r: Result<Oid, String>)
    ensures
        oid_view(r) == named_oid(s@),
        match r {
            Ok(oid) => names(s@, oid@),
            Err(fault) => (forall|id: Seq<u8>| !#[trigger] names(s@, id)) && fault@
                == "invalid OID '"@ + s@ + "': "@ + oid_failure(s@),
        },
        forall|id: Seq<u8>|
            id.len() == 20 && s@ == #[trigger] hex(id) ==> (r matches Ok(oid) && oid@ == id),
        s@.len() == 40 && (forall|i: int|
            0 <= i < 40 ==> '0' <= #[trigger] s@[i] <= '9' || 'a' <= s@[i] <= 'f') ==> (
        r matches Ok(oid) && hex(oid@) == s@),
{
    proof {
        law_an_id_is_read_from_its_name(s@);
    }
    match Oid::from_str(s) {
        Ok(oid) => Ok(oid),
        Err(failure) => Err(
            "invalid OID '".to_owned().concat(s).concat("': ").concat(failure.as_str()),
        ),
    }
}

/// The operation that a command line asks for.
pub fn run(cli: &Cli) -> (r: Result<Operation, String>)
    ensures
        operation_view(r) == asked(cli.command),
        match (cli.command, r) {
            (Command::List, Ok(Operation::List)) => true,
            (Command::Get { target }, Ok(Operation::Get { target: id })) => names(target@, id@),
            (
                Command::Put { target, tree, force, shard_level },
                Ok(Operation::Put { target: id, tree: attached, options }),
            ) => {
                &&& names(target@, id@)
                &&& names(tree@, attached@)
                &&& options.force == force
                &&& options.shard_level == shard_level
            },
            (Command::Remove { target }, Ok(Operation::Remove { target: id })) => names(
                target@,
                id@,
            ),
            (Command::Get { target }, Err(fault)) => {
                &&& forall|id: Seq<u8>| !#[trigger] names(target@, id)
                &&& fault@ == "invalid OID '"@ + target@ + "': "@ + oid_failure(target@)
            },
            (Command::Put { target, tree, .. }, Err(fault)) => {
                ||| {
                    &&& forall|id: Seq<u8>| !#[trigger] names(target@, id)
                    &&& fault@ == "invalid OID '"@ + target@ + "': "@ + oid_failure(target@)
                }
                ||| {
                    &&& exists|id: Seq<u8>| #[trigger] names(target@, id)
                    &&& forall|id: Seq<u8>| !#[trigger] names(tree@, id)
                    &&& fault@ == "invalid OID '"@ + tree@ + "': "@ + oid_failure(tree@)
                }
            },
            (Command::Remove { target }, Err(fault)) => {
                &&& forall|id: Seq<u8>| !#[trigger] names(target@, id)
                &&& fault@ == "invalid OID '"@ + target@ + "': "@ + oid_failure(target@)
            },
            _ => false,
        },
        r matches Ok(Operation::Put { options, .. }) ==> (cli.command matches Command::Put {
            force,
            shard_level,
            ..
        } && options.force == force && options.shard_level == shard_level),
        forall|id: Seq<u8>|
            id.len() == 20 ==> match cli.command {
                Command::List => true,
                Command::Get { target } => target@ == #[trigger] hex(id) ==> (r matches Ok(
                    Operation::Get { target: read },
                ) && read@ == id),
                Command::Put { target, tree, .. } => {
                    &&& target@ == hex(id) ==> (r matches Ok(Operation::Put { target: read, .. })
                        ==> read@ == id)
                    &&& tree@ == hex(id) ==> (r matches Ok(Operation::Put { tree: read, .. })
                        ==> read@ == id)
                },
                Command::Remove { target } => target@ == hex(id) ==> (r matches Ok(
                    Operation::Remove { target: read },
                ) && read@ == id),
            },
{
    match &cli.command {
        Command::List => Ok(Operation::List),
        Command::Get { target } => match parse_oid(target.as_str()) {
            Ok(target) => Ok(Operation::Get { target }),
            Err(fault) => Err(fault),
        },
        Command::Put { target, tree, force, shard_level } => match parse_oid(target.as_str()) {
            Err(fault) => Err(fault),
            Ok(target) => match parse_oid(tree.as_str()) {
                Err(fault) => Err(fault),
                Ok(tree) => Ok(
                    Operation::Put {
                        target,
                        tree,
                        options: MetadataOptions { shard_level: *shard_level, force: *force },
                    },
                ),
            },
        },
        Command::Remove { target } => match parse_oid(target.as_str()) {
            Ok(target) => Ok(Operation::Remove { target }),
            Err(fault) => Err(fault),
        },
    }
}

/// What is printed for the entries of the index: a line for each, or that there are none.
pub fn report_list(ref_name: &str, entries: &Vec<(Oid, Oid)>) -> (r: Report)
    ensures
        lines(r.stdout@) == if entries@.len() == 0 {
            seq!["No entries in "@ + ref_name@ + "."@]
        } else {
            pairs(entries@).map_values(
                |pair: (Seq<u8>, Seq<u8>)| hex(pair.0) + " "@ + hex(pair.1),
            )
        },
        entries@.len() > 0 ==> r.stdout@.len() == entries@.len() && forall|i: int|
            0 <= i < entries@.len() ==> (#[trigger] r.stdout@[i])@ == hex(entries@[i].0@) + " "@
                + hex(entries@[i].1@),
        r.stderr@.len() == 0,
        r.success,
{
    let mut stdout: Vec<String> = Vec::new();
    if entries.len() == 0 {
        stdout.push("No entries in ".to_owned().concat(ref_name).concat("."));
        assert(lines(stdout@) =~= seq!["No entries in "@ + ref_name@ + "."@]);
    } else {
        let ghost line = |pair: (Seq<u8>, Seq<u8>)| hex(pair.0) + " "@ + hex(pair.1);
        while stdout.len() < entries.len()
            invariant
                stdout.len() <= entries.len(),
                line == (|pair: (Seq<u8>, Seq<u8>)| hex(pair.0) + " "@ + hex(pair.1)),
                lines(stdout@) == pairs(entries@).take(stdout.len() as int).map_values(line),
                forall|j: int|
                    0 <= j < stdout@.len() ==> (#[trigger] stdout@[j])@ == hex(entries@[j].0@)
                        + " "@ + hex(entries@[j].1@),
            decreases entries.len() - stdout.len(),
        {
            let i: usize = stdout.len();
            let ghost before = stdout@;
            stdout.push(
                entries[i].0.to_string().concat(" ").concat(entries[i].1.to_string().as_str()),
            );
            assert(lines(stdout@) =~= lines(before).push(line(pairs(entries@)[i as int])));
            assert(pairs(entries@).take(i + 1).map_values(line) =~= pairs(entries@).take(
                i as int,
            ).map_values(line).push(line(pairs(entries@)[i as int])));
        }
        assert(pairs(entries@).take(entries.len() as int) =~= pairs(entries@));
    }
    Report { stdout, stderr: Vec::new(), success: true }
}

/// What is printed for the entry of `target`: its tree, or that it has none, which
/// is a failure.
pub fn report_get(target: &str, found: &Option<Oid>) -> (r: Report)
    ensures
        match *found {
            Some(tree) => {
                &&& lines(r.stdout@) == seq![hex(tree@)]
                &&& r.stderr@.len() == 0
                &&& r.success
            },
            None => {
                &&& r.stdout@.len() == 0
                &&& lines(r.stderr@) == seq!["No metadata entry for "@ + target@ + "."@]
                &&& !r.success
            },
        },
{
    let mut stdout: Vec<String> = Vec::new();
    let mut stderr: Vec<String> = Vec::new();
    match found {
        Some(tree) => {
            stdout.push(tree.to_string());
            assert(lines(stdout@) =~= seq![hex(tree@)]);
        },
        None => {
            stderr.push("No metadata entry for ".to_owned().concat(target).concat("."));
            assert(lines(stderr@) =~= seq!["No metadata entry for "@ + target@ + "."@]);
        },
    }
    Report { stdout, stderr, success: found.is_some() }
}

/// What is printed once an entry was written.
pub fn report_set(target: &str, tree: &str, root: &Oid) -> (r: Report)
    ensures
        r.stdout@.len() == 0,
        lines(r.stderr@) == seq![
            "Set "@ + target@ + " -> "@ + tree@ + " (root tree "@ + hex(root@) + ")."@,
        ],
        r.success,
{
    let mut stderr: Vec<String> = Vec::new();
    stderr.push(
        "Set ".to_owned().concat(target).concat(" -> ").concat(tree).concat(" (root tree ").concat(
            root.to_string().as_str(),
        ).concat(")."),
    );
    assert(lines(stderr@) =~= seq![
        "Set "@ + target@ + " -> "@ + tree@ + " (root tree "@ + hex(root@) + ")."@,
    ]);
    Report { stdout: Vec::new(), stderr, success: true }
}

/// What is printed once the entry of `target` was removed, or where there was none,
/// which is a failure.
pub fn report_remove(target: &str, removed: bool) -> (r: Report)
    ensures
        r.stdout@.len() == 0,
        lines(r.stderr@) == if removed {
            seq!["Removed metadata entry for "@ + target@ + "."@]
        } else {
            seq!["No metadata entry for "@ + target@ + "."@]
        },
        r.success == removed,
{
    let mut stderr: Vec<String> = Vec::new();
    if removed {
        stderr.push("Removed metadata entry for ".to_owned().concat(target).concat("."));
        assert(lines(stderr@) =~= seq!["Removed metadata entry for "@ + target@ + "."@]);
    } else {
        stderr.push("No metadata entry for ".to_owned().concat(target).concat("."));
        assert(lines(stderr@) =~= seq!["No metadata entry for "@ + target@ + "."@]);
    }
    Report { stdout: Vec::new(), stderr, success: removed }
}

} // verus!
