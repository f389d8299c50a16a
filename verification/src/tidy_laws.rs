//! What holds of every index that only writing and removing entries have made: it
//! has no empty directory, and nothing in it but entries and the way to them.

use vstd::prelude::*;

use crate::fanout::{is_fanout, leaf, probe, segments};
use crate::index::{lookup, set_step, Error, Known, MetadataOptions};
use crate::laws::{
    cell, entries_of, fits, held_depths, is_sound, law_lookup_is_least_depth, lemma_found_entry,
};
use crate::listing::{is_directory, name_or_empty};
use crate::listing_course_laws::is_complete;
use crate::listing_laws::lemma_probe_below;
use crate::oid::{hex, is_hex_digit, lemma_hex_digits};
use crate::operation_laws::{remove_carried_out, set_carried_out};
use crate::rebuild_laws::{
    below, is_addressed, is_clear, law_remove_gives_back_the_root, lemma_way_below,
};
use crate::settle_laws::{
    comes_to, goes_deeper, lemma_remove_settles, lemma_set_settles, new_holds, settled, shifted,
    wishes_of, Wishes,
};
use crate::step::{Request, Step};
use crate::tree::{directory, entry_named, is_tree, Entry};

verus! {

/// Whether `text` is made of hexadecimal digits alone.
pub open spec fn is_digits(text: Seq<char>) -> bool {
    forall|i: int| 0 <= i < text.len() ==> is_hex_digit(#[trigger] text[i])
}

/// Whether the tree `id`, to which `spelt` digits lead, and every directory below it
/// exists and holds something, and holds nothing but directories and entries: trees
/// named by two digits, and trees named by all the digits that are left of an id.
pub open spec fn is_tidy(trees: Map<Seq<u8>, Seq<Entry>>, id: Seq<u8>, spelt: nat) -> bool
    decreases 40 - spelt,
{
    spelt < 40 && trees.contains_key(id) && trees[id].len() > 0 && forall|i: int|
        0 <= i < trees[id].len() ==> ((#[trigger] trees[id][i]).name is Some && trees[id][i]
            == directory(trees[id][i].name->0, trees[id][i].id) && is_digits(
            trees[id][i].name->0,
        ) && (trees[id][i].name->0.len() == 40 - spelt || (trees[id][i].name->0.len() == 2 && spelt
            + 2 < 40 && is_tidy(trees, trees[id][i].id, spelt + 2))))
}

/// Whether the index with root tree `root` is tidy. One that does not exist is.
pub open spec fn is_tidy_index(trees: Map<Seq<u8>, Seq<Entry>>, root: Option<Seq<u8>>) -> bool {
    root matches Some(id) ==> is_tidy(trees, id, 0)
}

/// What comes of a tidy tree is tidy.
proof fn lemma_settled_is_tidy(
    trees: Map<Seq<u8>, Seq<Entry>>,
    base: Option<Seq<u8>>,
    digits: Seq<char>,
    wishes: Wishes,
    after: Option<Seq<u8>>,
    spelt: nat,
)
    requires
        spelt < 40,
        digits.len() == 40 - spelt,
        digits.len() % 2 == 0,
        is_digits(digits),
        base matches Some(id) ==> is_tidy(trees, id, spelt),
        settled(trees, base, digits, wishes, after),
    ensures
        after matches Some(id) ==> is_tidy(trees, id, spelt),
    decreases digits.len(),
{
    let name = digits.take(2);
    let rest = digits.skip(2);
    let from = below(trees, base, name);
    let deep = digits.len() > 2 && goes_deeper(wishes);
    let next = choose|next: Option<Seq<u8>>|
        (deep ==> settled(trees, from, rest, shifted(wishes), next)) && #[trigger] comes_to(
            trees,
            base,
            digits,
            wishes,
            next,
            after,
        );
    assert(is_digits(name)) by {
        assert forall|i: int| 0 <= i < name.len() implies is_hex_digit(#[trigger] name[i]) by {
            assert(name[i] == digits[i]);
        }
    }
    if deep {
        assert(is_digits(rest)) by {
            assert forall|i: int| 0 <= i < rest.len() implies is_hex_digit(#[trigger] rest[i]) by {
                assert(rest[i] == digits[i + 2]);
            }
        }
        if let Some(id) = base {
            if entry_named(trees[id], name) is Some {
                let i = lemma_found_entry(trees[id], name);
                assert(trees[id][i].name == Some(name));
                assert(is_tidy(trees, trees[id][i].id, spelt + 2));
            }
        }
        lemma_settled_is_tidy(trees, from, rest, shifted(wishes), next, spelt + 2);
    }
    if let Some(id) = after {
        assert forall|i: int| 0 <= i < trees[id].len() implies ((
        #[trigger] trees[id][i]).name is Some && trees[id][i] == directory(
            trees[id][i].name->0,
            trees[id][i].id,
        ) && is_digits(trees[id][i].name->0) && (trees[id][i].name->0.len() == 40 - spelt || (
        trees[id][i].name->0.len() == 2 && spelt + 2 < 40 && is_tidy(
            trees,
            trees[id][i].id,
            spelt + 2,
        )))) by {
            let entry = trees[id][i];
            assert(trees[id].contains(entry));
            assert(new_holds(trees, base, digits, wishes, next, entry));
            if entries_of(trees, base).contains(entry) {
                let top = base->0;
                let k = choose|k: int| 0 <= k < trees[top].len() && trees[top][k] == entry;
                assert(trees[top][k].name is Some);
            }
        }
    }
}

/// The digits of an id are digits.
proof fn lemma_hex_is_digits(target: Seq<u8>)
    requires
        target.len() == 20,
    ensures
        is_digits(hex(target)),
        hex(target).len() == 40,
{
    lemma_hex_digits(target);
}

/// Writing an entry keeps the index tidy.
pub proof fn law_set_keeps_the_index_tidy(
    known: Known,
    trees: Map<Seq<u8>, Seq<Entry>>,
    root: Option<Seq<u8>>,
    target: Seq<u8>,
    tree: Seq<u8>,
    options: MetadataOptions,
    answer: Seq<u8>,
)
    requires
        target.len() == 20,
        options.shard_level < 20,
        is_tidy_index(trees, root),
        fits(known, trees, root),
        set_carried_out(known, trees, target, tree, options),
        set_step(known, target, tree, options) == Step::<Request, Result<Seq<u8>, Error>>::Return(
            Ok(answer),
        ),
    ensures
        is_tidy_index(trees, Some(answer)),
{
    lemma_hex_is_digits(target);
    lemma_set_settles(known, trees, root, target, tree, options, answer);
    let level = options.shard_level as nat;
    lemma_settled_is_tidy(
        trees,
        root,
        hex(target),
        wishes_of(
            held_depths(trees, root, target, 0, Some(level)),
            Some((level, tree)),
        ),
        Some(answer),
        0,
    );
}

/// Removing an entry keeps the index tidy.
pub proof fn law_remove_keeps_the_index_tidy(
    known: Known,
    trees: Map<Seq<u8>, Seq<Entry>>,
    root: Option<Seq<u8>>,
    target: Seq<u8>,
    after: Option<Seq<u8>>,
)
    requires
        target.len() == 20,
        is_tidy_index(trees, root),
        fits(known, trees, root),
        remove_carried_out(known, trees, target, after),
    ensures
        is_tidy_index(trees, after),
{
    lemma_hex_is_digits(target);
    lemma_remove_settles(known, trees, root, target, after);
    lemma_settled_is_tidy(
        trees,
        root,
        hex(target),
        wishes_of(
            held_depths(trees, root, target, 0, None),
            None,
        ),
        after,
        0,
    );
}

/// In a tidy tree there is nothing where nothing is held.
proof fn lemma_tidy_is_clear(
    trees: Map<Seq<u8>, Seq<Entry>>,
    id: Seq<u8>,
    digits: Seq<char>,
    level: nat,
    spelt: nat,
)
    requires
        is_tidy(trees, id, spelt),
        digits.len() == 40 - spelt,
        2 * level < digits.len(),
        !(probe(trees, id, digits, level) matches Ok(Some(_))),
    ensures
        is_clear(trees, Some(id), segments(digits, level), leaf(digits, level)),
    decreases level,
{
    if level == 0 {
        assert(segments(digits, 0) =~= Seq::empty());
        assert(leaf(digits, 0) =~= digits);
        if entry_named(trees[id], digits) is Some {
            let i = lemma_found_entry(trees[id], digits);
            assert(trees[id][i] == directory(digits, trees[id][i].id));
            assert(is_tree(trees[id][i]));
        }
    } else {
        lemma_way_below(digits, level);
        lemma_probe_below(trees, id, digits, (level - 1) as nat);
        let name = digits.take(2);
        if entry_named(trees[id], name) is Some {
            let i = lemma_found_entry(trees[id], name);
            assert(trees[id][i].name == Some(name));
            assert(is_tidy(trees, trees[id][i].id, spelt + 2));
            lemma_tidy_is_clear(
                trees,
                trees[id][i].id,
                digits.skip(2),
                (level - 1) as nat,
                spelt + 2,
            );
        }
    }
}

/// In a tidy index there is a place for an entry of every target that has none.
pub proof fn law_tidy_index_is_clear(
    trees: Map<Seq<u8>, Seq<Entry>>,
    root: Option<Seq<u8>>,
    target: Seq<u8>,
    level: nat,
)
    requires
        target.len() == 20,
        level < 20,
        is_tidy_index(trees, root),
        lookup(trees, root, hex(target)) == Ok::<Option<(nat, Seq<u8>)>, Seq<u8>>(None),
    ensures
        is_clear(trees, root, segments(hex(target), level), leaf(hex(target), level)),
{
    lemma_hex_is_digits(target);
    law_lookup_is_least_depth(trees, root, target);
    if let Some(id) = root {
        assert(cell(trees, root, target, level) == Ok::<Option<Seq<u8>>, Seq<u8>>(None));
        lemma_tidy_is_clear(trees, id, hex(target), level, 0);
    }
}

/// In a tidy index removing undoes writing in full: an entry written for a target that
/// had none, and then removed, leaves the very same root tree, or no index where there
/// was none.
pub proof fn law_remove_gives_back_a_tidy_index(
    before: Known,
    between: Known,
    trees: Map<Seq<u8>, Seq<Entry>>,
    root: Option<Seq<u8>>,
    target: Seq<u8>,
    tree: Seq<u8>,
    options: MetadataOptions,
    answer: Seq<u8>,
    after: Option<Seq<u8>>,
)
    requires
        target.len() == 20,
        options.shard_level < 20,
        is_sound(trees),
        is_addressed(trees),
        is_tidy_index(trees, root),
        lookup(trees, root, hex(target)) == Ok::<Option<(nat, Seq<u8>)>, Seq<u8>>(None),
        fits(before, trees, root),
        set_carried_out(before, trees, target, tree, options),
        set_step(before, target, tree, options) == Step::<Request, Result<Seq<u8>, Error>>::Return(
            Ok(answer),
        ),
        fits(between, trees, Some(answer)),
        remove_carried_out(between, trees, target, after),
    ensures
        after == root,
{
    law_tidy_index_is_clear(trees, root, target, options.shard_level as nat);
    law_remove_gives_back_the_root(
        before,
        between,
        trees,
        root,
        target,
        tree,
        options,
        answer,
        after,
    );
}

/// Every directory of a tidy tree is there to be read.
proof fn lemma_tidy_is_complete(
    trees: Map<Seq<u8>, Seq<Entry>>,
    id: Seq<u8>,
    prefix: Seq<char>,
)
    requires
        is_tidy(trees, id, prefix.len()),
    ensures
        is_complete(trees, id, prefix),
    decreases 40 - prefix.len(),
{
    assert forall|i: int|
        0 <= i < trees[id].len() && is_directory(
            prefix,
            #[trigger] trees[id][i],
        ) implies is_complete(
        trees,
        trees[id][i].id,
        prefix + name_or_empty(trees[id][i]),
    ) by {
        let entry = trees[id][i];
        assert(is_fanout(name_or_empty(entry)));
        assert(is_tidy(trees, entry.id, prefix.len() + 2));
        lemma_tidy_is_complete(trees, entry.id, prefix + name_or_empty(entry));
    }
}

/// Every directory of a tidy index is there to be read, so that it can be listed.
pub proof fn law_tidy_index_is_complete(trees: Map<Seq<u8>, Seq<Entry>>, root: Option<Seq<u8>>)
    requires
        is_tidy_index(trees, root),
    ensures
        root matches Some(id) ==> is_complete(trees, id, Seq::empty()),
{
    if let Some(id) = root {
        lemma_tidy_is_complete(trees, id, Seq::empty());
    }
}

} // verus!
