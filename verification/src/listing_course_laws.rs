//! What holds in the course of a listing: each fanout directory is asked for once,
//! and once all are read the listing answers with what the index lists.

use vstd::prelude::*;

use crate::listing::{
    after_root, after_tree, collected, entries_listing, entry_listing, index_listing, is_directory,
    leaf_listing, list_step, listing, name_or_empty, to_look_at, unbegun, Awaited, Course,
};
use crate::step::{Request, Step};
use crate::tree::Entry;

verus! {

/// Whether the tree `id`, to which `prefix` leads, and every fanout directory
/// below it is there to be read.
pub open spec fn is_complete(
    trees: Map<Seq<u8>, Seq<Entry>>,
    id: Seq<u8>,
    prefix: Seq<char>,
) -> bool
    decreases 40 - prefix.len(),
{
    trees.contains_key(id) && forall|i: int|
        0 <= i < trees[id].len() && is_directory(prefix, #[trigger] trees[id][i]) ==> is_complete(
            trees,
            trees[id][i].id,
            prefix + name_or_empty(trees[id][i]),
        )
}

/// How many trees are read to list the tree `id`: itself and the fanout directories
/// below it.
pub open spec fn readings(trees: Map<Seq<u8>, Seq<Entry>>, id: Seq<u8>, prefix: Seq<char>) -> nat
    decreases 40 - prefix.len(), 2nat, 0nat,
{
    if trees.contains_key(id) {
        1 + entries_readings(trees, trees[id], prefix)
    } else {
        1
    }
}

/// How many trees are read to list the entries `tree`.
pub open spec fn entries_readings(
    trees: Map<Seq<u8>, Seq<Entry>>,
    tree: Seq<Entry>,
    prefix: Seq<char>,
) -> nat
    decreases 40 - prefix.len(), 1nat, tree.len(),
{
    if tree.len() == 0 {
        0
    } else {
        entry_readings(trees, prefix, tree[0]) + entries_readings(trees, tree.drop_first(), prefix)
    }
}

/// How many trees are read to list one entry.
pub open spec fn entry_readings(
    trees: Map<Seq<u8>, Seq<Entry>>,
    prefix: Seq<char>,
    entry: Entry,
) -> nat
    decreases 40 - prefix.len(), 0nat, 0nat,
{
    if is_directory(prefix, entry) {
        readings(trees, entry.id, prefix + name_or_empty(entry))
    } else {
        0
    }
}

/// What entries that are still to be looked at will list.
pub open spec fn pending_listing(
    trees: Map<Seq<u8>, Seq<Entry>>,
    pending: Seq<(Seq<char>, Entry)>,
) -> Seq<(Seq<u8>, Seq<u8>)>
    decreases pending.len(),
{
    if pending.len() == 0 {
        Seq::empty()
    } else {
        entry_listing(trees, pending.last().0, pending.last().1) + pending_listing(
            trees,
            pending.drop_last(),
        )
    }
}

/// How many trees are read for entries that are still to be looked at.
pub open spec fn pending_readings(
    trees: Map<Seq<u8>, Seq<Entry>>,
    pending: Seq<(Seq<char>, Entry)>,
) -> nat
    decreases pending.len(),
{
    if pending.len() == 0 {
        0
    } else {
        entry_readings(trees, pending.last().0, pending.last().1) + pending_readings(
            trees,
            pending.drop_last(),
        )
    }
}

/// What a listing comes to in the end, where the root tree is `root` and the trees of
/// the repository are `trees`.
pub open spec fn outcome(
    trees: Map<Seq<u8>, Seq<Entry>>,
    root: Option<Seq<u8>>,
    course: Course,
) -> Seq<(Seq<u8>, Seq<u8>)> {
    let wanted = match course.wanted {
        Awaited::Root => index_listing(trees, root),
        Awaited::Tree { prefix, id } => listing(trees, id, prefix),
        Awaited::Nothing => Seq::empty(),
    };
    course.found + wanted + pending_listing(trees, course.pending)
}

/// How many trees a listing that knows the root tree has still to read.
pub open spec fn remaining(trees: Map<Seq<u8>, Seq<Entry>>, course: Course) -> nat {
    let wanted = match course.wanted {
        Awaited::Tree { prefix, id } => readings(trees, id, prefix),
        _ => 0,
    };
    wanted + pending_readings(trees, course.pending)
}

/// Whether every tree that a listing will ask for is there to be read.
pub open spec fn is_readable(trees: Map<Seq<u8>, Seq<Entry>>, course: Course) -> bool {
    &&& course.wanted matches Awaited::Tree { prefix, id } ==> is_complete(trees, id, prefix)
    &&& forall|i: int|
        0 <= i < course.pending.len() && is_directory(
            (#[trigger] course.pending[i]).0,
            course.pending[i].1,
        ) ==> is_complete(
            trees,
            course.pending[i].1.id,
            course.pending[i].0 + name_or_empty(course.pending[i].1),
        )
}

/// Entries that are to be looked at list what the tree lists that they stand in, and
/// ask for as many trees.
proof fn lemma_to_look_at(
    trees: Map<Seq<u8>, Seq<Entry>>,
    pending: Seq<(Seq<char>, Entry)>,
    prefix: Seq<char>,
    tree: Seq<Entry>,
)
    ensures
        pending_listing(trees, pending + to_look_at(prefix, tree)) == entries_listing(
            trees,
            tree,
            prefix,
        ) + pending_listing(trees, pending),
        pending_readings(trees, pending + to_look_at(prefix, tree)) == entries_readings(
            trees,
            tree,
            prefix,
        ) + pending_readings(trees, pending),
    decreases tree.len(),
{
    let more = pending + to_look_at(prefix, tree);
    if tree.len() == 0 {
        assert(more =~= pending);
        assert(entries_listing(trees, tree, prefix) + pending_listing(trees, pending)
            =~= pending_listing(trees, pending));
    } else {
        let tail = tree.drop_first();
        assert(more.last() == (prefix, tree[0]));
        assert(to_look_at(prefix, tree).drop_last() =~= to_look_at(prefix, tail));
        assert(more.drop_last() =~= pending + to_look_at(prefix, tail));
        lemma_to_look_at(trees, pending, prefix, tail);
        assert(pending_listing(trees, more) =~= entries_listing(trees, tree, prefix)
            + pending_listing(trees, pending));
    }
}

/// Looking at entries changes neither what a listing comes to nor what it has still
/// to read, and where it then waits for nothing all is found.
pub proof fn law_collecting_keeps_the_outcome(
    trees: Map<Seq<u8>, Seq<Entry>>,
    root: Option<Seq<u8>>,
    course: Course,
)
    ensures
        outcome(trees, root, collected(course)) == outcome(trees, root, course),
        remaining(trees, collected(course)) == remaining(trees, course),
        is_readable(trees, course) ==> is_readable(trees, collected(course)),
        collected(course).wanted is Nothing ==> {
            &&& collected(course).pending.len() == 0
            &&& collected(course).found == outcome(trees, root, course)
            &&& remaining(trees, course) == 0
        },
        course.wanted is Nothing && !(collected(course).wanted is Nothing) ==> {
            &&& collected(course).wanted is Tree
            &&& collected(course).pending.len() < course.pending.len()
        },
    decreases course.pending.len(),
{
    if course.wanted is Nothing && course.pending.len() > 0 {
        let (prefix, entry) = course.pending.last();
        let pending = course.pending.drop_last();
        let rest = pending_listing(trees, pending);
        assert(course.pending[course.pending.len() - 1] == (prefix, entry));
        assert forall|i: int| 0 <= i < pending.len() implies pending[i] == course.pending[i] by {}
        if is_directory(prefix, entry) {
            let next = collected(course);
            assert(outcome(trees, root, next) =~= outcome(trees, root, course));
            if is_readable(trees, course) {
                assert(is_complete(trees, entry.id, prefix + name_or_empty(entry)));
                assert(is_readable(trees, next)) by {
                    assert forall|i: int|
                        0 <= i < next.pending.len() && is_directory(
                            (#[trigger] next.pending[i]).0,
                            next.pending[i].1,
                        ) implies is_complete(
                        trees,
                        next.pending[i].1.id,
                        next.pending[i].0 + name_or_empty(next.pending[i].1),
                    ) by {
                        assert(next.pending[i] == course.pending[i]);
                    }
                }
            }
        } else {
            let next = Course {
                wanted: Awaited::Nothing,
                pending,
                found: course.found + leaf_listing(prefix, entry),
            };
            assert(outcome(trees, root, next) =~= outcome(trees, root, course));
            if is_readable(trees, course) {
                assert(is_readable(trees, next)) by {
                    assert forall|i: int|
                        0 <= i < next.pending.len() && is_directory(
                            (#[trigger] next.pending[i]).0,
                            next.pending[i].1,
                        ) implies is_complete(
                        trees,
                        next.pending[i].1.id,
                        next.pending[i].0 + name_or_empty(next.pending[i].1),
                    ) by {
                        assert(next.pending[i] == course.pending[i]);
                    }
                }
            }
            law_collecting_keeps_the_outcome(trees, root, next);
        }
    } else if course.wanted is Nothing {
        assert(outcome(trees, root, course) =~= course.found);
    }
}

/// Knowing the root tree does not change what a listing comes to.
pub proof fn law_root_keeps_the_outcome(
    trees: Map<Seq<u8>, Seq<Entry>>,
    root: Option<Seq<u8>>,
    course: Course,
)
    requires
        course.wanted is Root,
    ensures
        outcome(trees, root, after_root(course, root)) == outcome(trees, root, course),
{
}

/// Reading the tree that a listing waits for does not change what it comes to, and
/// leaves one tree less to read.
pub proof fn law_tree_keeps_the_outcome(
    trees: Map<Seq<u8>, Seq<Entry>>,
    root: Option<Seq<u8>>,
    course: Course,
)
    requires
        course.wanted matches Awaited::Tree { id, .. } && trees.contains_key(id),
    ensures
        course.wanted matches Awaited::Tree { id, .. } ==> {
            let next = after_tree(course, trees[id]);
            &&& outcome(trees, root, next) == outcome(trees, root, course)
            &&& remaining(trees, next) + 1 == remaining(trees, course)
            &&& is_readable(trees, course) ==> is_readable(trees, next)
        },
{
    if let Awaited::Tree { prefix, id } = course.wanted {
        let next = after_tree(course, trees[id]);
        let tree = trees[id];
        lemma_to_look_at(trees, course.pending, prefix, tree);
        assert(outcome(trees, root, next) =~= outcome(trees, root, course));
        if is_readable(trees, course) {
            assert forall|i: int|
                0 <= i < next.pending.len() && is_directory(
                    (#[trigger] next.pending[i]).0,
                    next.pending[i].1,
                ) implies is_complete(
                trees,
                next.pending[i].1.id,
                next.pending[i].0 + name_or_empty(next.pending[i].1),
            ) by {
                let n = course.pending.len();
                if i < n {
                    assert(next.pending[i] == course.pending[i]);
                } else {
                    let k = tree.len() - 1 - (i - n);
                    assert(next.pending[i] == (prefix, tree[k]));
                    assert(is_directory(prefix, trees[id][k]));
                }
            }
        }
    }
}

/// A listing that has read `n` more trees, or has ended before that, with what it
/// could look at looked at.
pub open spec fn read_on(trees: Map<Seq<u8>, Seq<Entry>>, course: Course, n: nat) -> Course
    decreases n,
{
    if n == 0 {
        collected(course)
    } else {
        match collected(course).wanted {
            Awaited::Tree { prefix, id } => read_on(
                trees,
                after_tree(collected(course), trees[id]),
                (n - 1) as nat,
            ),
            _ => collected(course),
        }
    }
}

/// A listing asks for one tree after the other, each of them there to be read, until
/// it has read as many as it had to, and then answers with what it comes to.
proof fn lemma_listing_ends(
    trees: Map<Seq<u8>, Seq<Entry>>,
    root: Option<Seq<u8>>,
    course: Course,
    n: nat,
)
    requires
        !(course.wanted is Root),
        is_readable(trees, course),
    ensures
        n < remaining(trees, course) ==> (list_step(read_on(trees, course, n)) matches Step::Do(
            Request::FindTree(id),
        ) && trees.contains_key(id)),
        n >= remaining(trees, course) ==> list_step(read_on(trees, course, n)) == Step::<
            Request,
            Seq<(Seq<u8>, Seq<u8>)>,
        >::Return(outcome(trees, root, course)),
    decreases n,
{
    law_collecting_keeps_the_outcome(trees, root, course);
    let now = collected(course);
    if let Awaited::Tree { prefix, id } = now.wanted {
        assert(is_complete(trees, id, prefix));
        assert(remaining(trees, now) >= 1);
        if n > 0 {
            law_tree_keeps_the_outcome(trees, root, now);
            lemma_listing_ends(trees, root, after_tree(now, trees[id]), (n - 1) as nat);
        }
    }
}

/// A listing ends: where the root tree is `root` and all fanout directories below it
/// are there to be read, it asks for as many trees as there are of these, the root
/// tree among them, and then answers with what the index lists.
pub proof fn law_listing_ends(
    trees: Map<Seq<u8>, Seq<Entry>>,
    root: Option<Seq<u8>>,
    n: nat,
)
    requires
        root matches Some(id) ==> is_complete(trees, id, Seq::empty()),
    ensures
        list_step(collected(unbegun())) == Step::<Request, Seq<(Seq<u8>, Seq<u8>)>>::Do(
            Request::ResolveRoot,
        ),
        ({
            let begun = after_root(unbegun(), root);
            let all = match root {
                Some(id) => readings(trees, id, Seq::empty()),
                None => 0,
            };
            &&& n < all ==> (list_step(read_on(trees, begun, n)) matches Step::Do(
                Request::FindTree(id),
            ) && trees.contains_key(id))
            &&& n >= all ==> list_step(read_on(trees, begun, n)) == Step::<
                Request,
                Seq<(Seq<u8>, Seq<u8>)>,
            >::Return(index_listing(trees, root))
        }),
{
    let begun = after_root(unbegun(), root);
    lemma_listing_ends(trees, root, begun, n);
    assert(outcome(trees, root, begun) =~= index_listing(trees, root));
}

} // verus!
