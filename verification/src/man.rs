//! The manual page: when it is asked for, and what is said once it was written.

use vstd::prelude::*;

use crate::cli::lines;

verus! {

/// What the command line says of the manual page.
#[derive(Debug)]
pub enum ManFlag {
    /// It is not asked for.
    Absent,
    /// It is asked for, in the directory where it goes by default.
    Default,
    /// It is asked for, in this directory.
    Directory(String),
}

/// Whether the argument at `i` is the first that asks for the manual page.
pub open spec fn is_first_flag(args: Seq<Seq<char>>, i: int) -> bool {
    &&& 0 <= i < args.len()
    &&& args[i] == "--generate-man"@
    &&& forall|j: int| 0 <= j < i ==> #[trigger] args[j] != "--generate-man"@
}

/// Check for `--generate-man <DIR>` before the other arguments are read, so it
/// doesn't conflict with the required subcommand.
pub fn parse_generate_man_flag(args: &Vec<String>) -> (r: ManFlag)
    ensures
        match r {
            ManFlag::Absent => forall|i: int|
                0 <= i < args@.len() ==> #[trigger] lines(args@)[i] != "--generate-man"@,
            ManFlag::Default => is_first_flag(lines(args@), args@.len() - 1),
            ManFlag::Directory(directory) => exists|i: int|
                #[trigger] is_first_flag(lines(args@), i) && i + 1 < args@.len() && lines(
                    args@,
                )[i + 1] == directory@,
        },
        match r {
            ManFlag::Absent => forall|i: int|
                0 <= i < args@.len() ==> (#[trigger] args@[i])@ != "--generate-man"@,
            ManFlag::Default => {
                &&& args@.len() > 0
                &&& args@.last()@ == "--generate-man"@
                &&& forall|i: int|
                    0 <= i < args@.len() - 1 ==> (#[trigger] args@[i])@ != "--generate-man"@
            },
            ManFlag::Directory(directory) => exists|i: int|
                0 <= i < args@.len() - 1 && (#[trigger] args@[i])@ == "--generate-man"@ && args@[i
                    + 1]@ == directory@ && forall|j: int|
                    0 <= j < i ==> (#[trigger] args@[j])@ != "--generate-man"@,
        },
{
    let flag = "--generate-man".to_owned();
    let mut i: usize = 0;
    while i < args.len()
        invariant
            i <= args.len(),
            flag@ == "--generate-man"@,
            forall|j: int| 0 <= j < i ==> #[trigger] lines(args@)[j] != "--generate-man"@,
            forall|j: int| 0 <= j < i ==> (#[trigger] args@[j])@ != "--generate-man"@,
        decreases args.len() - i,
    {
        assert(lines(args@)[i as int] == args@[i as int]@);
        if args[i] == flag {
            assert(is_first_flag(lines(args@), i as int));
            if i + 1 < args.len() {
                assert(lines(args@)[i + 1] == args@[i + 1]@);
                return ManFlag::Directory(args[i + 1].clone());
            }
            return ManFlag::Default;
        }
        i = i + 1;
    }
    ManFlag::Absent
}

/// The directory where the manual page goes by default: a directory that the
/// environment names, and what to join to it. `data_home` is the one for data,
/// `home` that of the user, which counts where there is no other. `None` where there
/// is neither.
pub fn default_man_dir<P>(data_home: Option<P>, home: Option<P>) -> (r: Option<(P, Vec<String>)>)
    ensures
        match (data_home, home) {
            (Some(base), _) => r matches Some((from, parts)) && from == base && lines(parts@)
                == seq!["man"@],
            (None, Some(base)) => r matches Some((from, parts)) && from == base && lines(parts@)
                == seq![".local/share"@, "man"@],
            (None, None) => r is None,
        },
{
    let mut parts: Vec<String> = Vec::new();
    match data_home {
        Some(base) => {
            parts.push("man".to_owned());
            assert(lines(parts@) =~= seq!["man"@]);
            Some((base, parts))
        },
        None => match home {
            Some(base) => {
                parts.push(".local/share".to_owned());
                parts.push("man".to_owned());
                assert(lines(parts@) =~= seq![".local/share"@, "man"@]);
                Some((base, parts))
            },
            None => None,
        },
    }
}

/// Whether the path `dir` is `component`, or lies below it.
pub open spec fn is_below(dir: Seq<Vec<u8>>, component: Seq<Vec<u8>>) -> bool {
    &&& component.len() <= dir.len()
    &&& forall|i: int| 0 <= i < component.len() ==> (#[trigger] component[i])@ == dir[i]@
}

/// Whether two names of path components are the same.
fn same_name(one: &Vec<u8>, other: &Vec<u8>) -> (r: bool)
    ensures
        r == (one@ == other@),
{
    if one.len() != other.len() {
        return false;
    }
    let mut i: usize = 0;
    while i < one.len()
        invariant
            i <= one.len() == other.len(),
            forall|j: int| 0 <= j < i ==> one@[j] == other@[j],
        decreases one.len() - i,
    {
        if one[i] != other[i] {
            return false;
        }
        i = i + 1;
    }
    assert(one@ =~= other@);
    true
}

/// Whether the path `dir` is `component`, or lies below it.
fn starts_with(dir: &Vec<Vec<u8>>, component: &Vec<Vec<u8>>) -> (r: bool)
    ensures
        r == is_below(dir@, component@),
{
    if component.len() > dir.len() {
        return false;
    }
    let mut i: usize = 0;
    while i < component.len()
        invariant
            i <= component.len() <= dir.len(),
            forall|j: int| 0 <= j < i ==> (#[trigger] component@[j])@ == dir@[j]@,
        decreases component.len() - i,
    {
        if !same_name(&component[i], &dir[i]) {
            return false;
        }
        i = i + 1;
    }
    true
}

/// Returns `true` if `dir` is equal to, or a subdirectory of, any path in
/// `manpath`. Paths are given by the names of their components.
pub fn manpath_covers(dir: &Vec<Vec<u8>>, manpath: &Vec<Vec<Vec<u8>>>) -> (r: bool)
    ensures
        r == exists|i: int| 0 <= i < manpath@.len() && is_below(dir@, (#[trigger] manpath@[i])@),
        r == exists|i: int|
            0 <= i < manpath@.len() && (#[trigger] manpath@[i])@.len() <= dir@.len() && forall|
                j: int,
            |
                0 <= j < manpath@[i]@.len() ==> (#[trigger] manpath@[i]@[j])@ == dir@[j]@,
{
    let mut i: usize = 0;
    while i < manpath.len()
        invariant
            i <= manpath.len(),
            forall|j: int| 0 <= j < i ==> !is_below(dir@, (#[trigger] manpath@[j])@),
        decreases manpath.len() - i,
    {
        if starts_with(dir, &manpath[i]) {
            return true;
        }
        i = i + 1;
    }
    false
}

/// What is said once the manual page was written to `page`, in a directory below
/// `dir`: where it is, and what to set where it would not be found there.
pub fn generate_man_page_report(page: &str, dir: &str, covered: bool) -> (r: Vec<String>)
    ensures
        lines(r@) == if covered {
            seq!["Wrote man page to "@ + page@]
        } else {
            seq![
                "Wrote man page to "@ + page@,
                Seq::empty(),
                "You may need to add this to your shell environment:"@,
                Seq::empty(),
                "  export MANPATH=\""@ + dir@ + ":$MANPATH\""@,
            ]
        },
{
    let mut r: Vec<String> = Vec::new();
    r.push("Wrote man page to ".to_owned().concat(page));
    if !covered {
        r.push(String::new());
        r.push("You may need to add this to your shell environment:".to_owned());
        r.push(String::new());
        r.push("  export MANPATH=\"".to_owned().concat(dir).concat(":$MANPATH\""));
        assert(lines(r@) =~= seq![
            "Wrote man page to "@ + page@,
            Seq::empty(),
            "You may need to add this to your shell environment:"@,
            Seq::empty(),
            "  export MANPATH=\""@ + dir@ + ":$MANPATH\""@,
        ]);
    } else {
        assert(lines(r@) =~= seq!["Wrote man page to "@ + page@]);
    }
    r
}

} // verus!
