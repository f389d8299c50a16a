//! In which order the index is listed.

use vstd::prelude::*;
use vstd::utf8::{encode_utf8, is_ascii_chars, is_ascii_chars_encode_utf8};

use crate::fanout::{leaf, lemma_walk_ends, segments, walk};
use crate::index::{set_step, Error, Known, MetadataOptions};
use crate::laws::{cell, fits, is_sound};
use crate::listing::{
    entries_listing, entry_listing, index_listing, is_directory, leaf_listing, listing,
    name_or_empty,
};
use crate::oid::{hex, hex_digit, is_hex_digit, lemma_hex_digits, spelled};
use crate::operation_laws::{
    law_remove_keeps_other_targets, law_remove_leaves_nothing, law_set_keeps_other_targets,
    law_set_leaves_one_entry, remove_carried_out, set_carried_out,
};
use crate::step::{Request, Step};
use crate::tree::{directory, entry_named, is_tree, Entry};

verus! {

/// Whether `one` comes before `other` because of what stands at position `k`.
pub open spec fn first_differs(one: Seq<u8>, other: Seq<u8>, k: int) -> bool {
    &&& 0 <= k <= one.len()
    &&& k < other.len()
    &&& forall|i: int| 0 <= i < k ==> #[trigger] one[i] == other[i]
    &&& k == one.len() || one[k] < other[k]
}

/// Whether `one` comes before `other` in the order of bytes.
pub open spec fn comes_before(one: Seq<u8>, other: Seq<u8>) -> bool {
    exists|k: int| #[trigger] first_differs(one, other, k)
}

/// What an entry is sorted by in its tree: its name, which ends in a slash where it
/// names a tree.
pub open spec fn sort_key(entry: Entry) -> Seq<u8> {
    if is_tree(entry) {
        entry.name_bytes.push(0x2f)
    } else {
        entry.name_bytes
    }
}

/// Whether the entries of trees are sorted as in a repository.
pub open spec fn is_sorted(trees: Map<Seq<u8>, Seq<Entry>>) -> bool {
    forall|id: Seq<u8>, i: int, j: int|
        trees.contains_key(id) && 0 <= i < j < trees[id].len() ==> comes_before(
            sort_key(#[trigger] trees[id][i]),
            sort_key(#[trigger] trees[id][j]),
        )
}

/// Whether the index with root tree `root` holds entries at depth `depth` alone.
pub open spec fn has_one_depth(
    trees: Map<Seq<u8>, Seq<Entry>>,
    root: Option<Seq<u8>>,
    depth: nat,
) -> bool {
    forall|target: Seq<u8>, other: nat|
        target.len() == 20 && other < 20 && (#[trigger] cell(
            trees,
            root,
            target,
            other,
        ) matches Ok(Some(_))) ==> other == depth
}

/// Whether a list is in ascending order of its targets, each of which it holds once.
pub open spec fn is_ascending(items: Seq<(Seq<u8>, Seq<u8>)>) -> bool {
    forall|i: int, j: int|
        0 <= i < j < items.len() ==> comes_before(
            (#[trigger] items[i]).0,
            (#[trigger] items[j]).0,
        )
}

/// Whether digits that begin with `prefix` lead from the tree `root` to the tree `id`.
spec fn leads_to(
    trees: Map<Seq<u8>, Seq<Entry>>,
    root: Seq<u8>,
    prefix: Seq<char>,
    id: Seq<u8>,
) -> bool {
    &&& prefix.len() % 2 == 0
    &&& prefix.len() <= 38
    &&& walk(trees, root, segments(prefix, prefix.len() / 2)) == Ok::<Option<Seq<u8>>, Seq<u8>>(
        Some(id),
    )
}

/// Ids are in the order of their digits.
proof fn lemma_digits_order(one: Seq<u8>, other: Seq<u8>, k: int)
    requires
        one.len() == 20,
        other.len() == 20,
        0 <= k < 40,
        forall|i: int| 0 <= i < k ==> #[trigger] hex(one)[i] == hex(other)[i],
        hex(one)[k] < hex(other)[k],
    ensures
        comes_before(one, other),
{
    let at = k / 2;
    assert forall|i: int| 0 <= i < at implies #[trigger] one[i] == other[i] by {
        lemma_digits_of_byte(one, i);
        lemma_digits_of_byte(other, i);
        assert(hex(one)[2 * i] == hex(other)[2 * i]);
        assert(hex(one)[2 * i + 1] == hex(other)[2 * i + 1]);
    }
    lemma_digits_of_byte(one, at);
    lemma_digits_of_byte(other, at);
    if k % 2 == 1 {
        assert(hex(one)[2 * at] == hex(other)[2 * at]);
        assert(k == 2 * at + 1);
    } else {
        assert(k == 2 * at);
    }
    assert(first_differs(one, other, at));
}

/// The two digits of a byte.
proof fn lemma_digits_of_byte(id: Seq<u8>, i: int)
    requires
        0 <= i < id.len(),
    ensures
        hex(id)[2 * i] == hex_digit(id[i] as int / 16),
        hex(id)[2 * i + 1] == hex_digit(id[i] as int % 16),
        id[i] as int == 16 * (id[i] as int / 16) + id[i] as int % 16,
        0 <= id[i] as int / 16 < 16,
{
    assert((2 * i) % 2 == 0 && (2 * i) / 2 == i);
    assert((2 * i + 1) % 2 == 1 && (2 * i + 1) / 2 == i);
}

/// A walk goes on by one directory.
proof fn lemma_walk_on(
    trees: Map<Seq<u8>, Seq<Entry>>,
    root: Seq<u8>,
    path: Seq<Seq<char>>,
    name: Seq<char>,
    id: Seq<u8>,
)
    requires
        walk(trees, root, path) == Ok::<Option<Seq<u8>>, Seq<u8>>(Some(id)),
        entry_named(trees[id], name) matches Some(entry) && trees.contains_key(entry.id),
    ensures
        walk(trees, root, path.push(name)) == Ok::<Option<Seq<u8>>, Seq<u8>>(
            Some(entry_named(trees[id], name)->0.id),
        ),
    decreases path.len(),
{
    let on = path.push(name);
    if path.len() == 0 {
        let entry = entry_named(trees[id], name)->0;
        assert(on[0] == name);
        assert(on.drop_first() =~= Seq::empty());
        assert(walk(trees, entry.id, on.drop_first()) == Ok::<Option<Seq<u8>>, Seq<u8>>(
            Some(entry.id),
        ));
    } else {
        let entry = entry_named(trees[root], path[0])->0;
        assert(on[0] == path[0]);
        assert(on.drop_first() =~= path.drop_first().push(name));
        lemma_walk_on(trees, entry.id, path.drop_first(), name, id);
    }
}

/// The first entry of a name is the only one.
proof fn lemma_only_entry(trees: Map<Seq<u8>, Seq<Entry>>, id: Seq<u8>, i: int, from: int)
    requires
        is_sound(trees),
        trees.contains_key(id),
        0 <= from <= i < trees[id].len(),
        trees[id][i].name is Some,
    ensures
        entry_named(trees[id].skip(from), trees[id][i].name->0) == Some(trees[id][i]),
    decreases i - from,
{
    let tree = trees[id];
    assert(tree.skip(from)[0] == tree[from]);
    if from < i {
        assert(tree[from].name != tree[i].name);
        assert(tree.skip(from).drop_first() =~= tree.skip(from + 1));
        lemma_only_entry(trees, id, i, from + 1);
    }
}

/// An entry that lists something by itself stands at the one depth.
proof fn lemma_leaf_depth(
    trees: Map<Seq<u8>, Seq<Entry>>,
    root: Seq<u8>,
    depth: nat,
    id: Seq<u8>,
    prefix: Seq<char>,
    i: int,
)
    requires
        is_sound(trees),
        has_one_depth(trees, Some(root), depth),
        leads_to(trees, root, prefix, id),
        0 <= i < trees[id].len(),
        leaf_listing(prefix, trees[id][i]).len() > 0,
    ensures
        prefix.len() == 2 * depth,
        trees[id][i].name is Some,
        name_or_empty(trees[id][i]).len() == 40 - prefix.len(),
{
    let entry = trees[id][i];
    let name = name_or_empty(entry);
    let full = prefix + name;
    let target = spelled(full);
    let at = prefix.len() / 2;
    lemma_walk_ends(trees, root, segments(prefix, at));
    lemma_hex_digits(target);
    assert(hex(target) == full);
    lemma_only_entry(trees, id, i, 0);
    assert(trees[id].skip(0) =~= trees[id]);
    assert(segments(full, at) =~= segments(prefix, at)) by {
        assert forall|k: int| 0 <= k < at implies segments(full, at)[k] == segments(
            prefix,
            at,
        )[k] by {
            assert(full.subrange(2 * k, 2 * k + 2) =~= prefix.subrange(2 * k, 2 * k + 2));
        }
    }
    assert(leaf(full, at) =~= name);
    assert(cell(trees, Some(root), target, at) == Ok::<Option<Seq<u8>>, Seq<u8>>(Some(entry.id)));
}

/// A fanout directory is led to by its digits.
proof fn lemma_leads_below(
    trees: Map<Seq<u8>, Seq<Entry>>,
    root: Seq<u8>,
    id: Seq<u8>,
    prefix: Seq<char>,
    i: int,
)
    requires
        is_sound(trees),
        leads_to(trees, root, prefix, id),
        0 <= i < trees[id].len(),
        is_directory(prefix, trees[id][i]),
        trees.contains_key(trees[id][i].id),
    ensures
        leads_to(trees, root, prefix + name_or_empty(trees[id][i]), trees[id][i].id),
{
    let entry = trees[id][i];
    let name = name_or_empty(entry);
    let full = prefix + name;
    let at = prefix.len() / 2;
    lemma_walk_ends(trees, root, segments(prefix, at));
    lemma_only_entry(trees, id, i, 0);
    assert(trees[id].skip(0) =~= trees[id]);
    lemma_walk_on(trees, root, segments(prefix, at), name, id);
    assert(segments(full, at + 1) =~= segments(prefix, at).push(name)) by {
        assert forall|k: int| 0 <= k < at + 1 implies segments(full, at + 1)[k] == segments(
            prefix,
            at,
        ).push(name)[k] by {
            if k < at {
                assert(full.subrange(2 * k, 2 * k + 2) =~= prefix.subrange(2 * k, 2 * k + 2));
            } else {
                assert(full.subrange(2 * k, 2 * k + 2) =~= name);
            }
        }
    }
    assert(full.len() / 2 == at + 1);
}

/// What some entries list is listed by one of them.
proof fn lemma_listed_by_one(
    trees: Map<Seq<u8>, Seq<Entry>>,
    entries: Seq<Entry>,
    prefix: Seq<char>,
    k: int,
) -> (q: int)
    requires
        0 <= k < entries_listing(trees, entries, prefix).len(),
    ensures
        0 <= q < entries.len(),
        entry_listing(trees, prefix, entries[q]).contains(
            entries_listing(trees, entries, prefix)[k],
        ),
    decreases entries.len(),
{
    let own = entry_listing(trees, prefix, entries[0]);
    let all = entries_listing(trees, entries, prefix);
    if k < own.len() {
        assert(all[k] == own[k]);
        0
    } else {
        let tail = entries.drop_first();
        assert(all[k] == entries_listing(trees, tail, prefix)[k - own.len()]);
        let q = lemma_listed_by_one(trees, tail, prefix, k - own.len());
        assert(tail[q] == entries[q + 1]);
        q + 1
    }
}

/// What is listed below a prefix begins with it, and stands at the one depth.
proof fn lemma_listed_below(
    trees: Map<Seq<u8>, Seq<Entry>>,
    root: Seq<u8>,
    depth: nat,
    id: Seq<u8>,
    prefix: Seq<char>,
    k: int,
)
    requires
        is_sound(trees),
        has_one_depth(trees, Some(root), depth),
        leads_to(trees, root, prefix, id),
        0 <= k < listing(trees, id, prefix).len(),
    ensures
        prefix.len() <= 2 * depth,
        listing(trees, id, prefix)[k].0.len() == 20,
        hex(listing(trees, id, prefix)[k].0).take(prefix.len() as int) == prefix,
    decreases 40 - prefix.len(),
{
    let item = listing(trees, id, prefix)[k];
    let q = lemma_listed_by_one(trees, trees[id], prefix, k);
    lemma_listed_by_entry(trees, root, depth, id, prefix, q, item);
    let full = prefix + name_or_empty(trees[id][q]);
    assert(full.take(prefix.len() as int) =~= prefix);
    assert(hex(item.0).take(full.len() as int).take(prefix.len() as int) =~= hex(item.0).take(
        prefix.len() as int,
    ));
}

/// What one entry lists begins with its digits, and stands at the one depth.
proof fn lemma_listed_by_entry(
    trees: Map<Seq<u8>, Seq<Entry>>,
    root: Seq<u8>,
    depth: nat,
    id: Seq<u8>,
    prefix: Seq<char>,
    q: int,
    item: (Seq<u8>, Seq<u8>),
)
    requires
        is_sound(trees),
        has_one_depth(trees, Some(root), depth),
        leads_to(trees, root, prefix, id),
        0 <= q < trees[id].len(),
        entry_listing(trees, prefix, trees[id][q]).contains(item),
    ensures
        is_tree(trees[id][q]),
        trees[id][q].name is Some,
        item.0.len() == 20,
        prefix.len() + name_or_empty(trees[id][q]).len() <= 40,
        hex(item.0).take((prefix + name_or_empty(trees[id][q])).len() as int) == prefix
            + name_or_empty(trees[id][q]),
        forall|i: int|
            0 <= i < name_or_empty(trees[id][q]).len() ==> is_hex_digit(
                #[trigger] name_or_empty(trees[id][q])[i],
            ),
        if is_directory(prefix, trees[id][q]) {
            prefix.len() < 2 * depth && name_or_empty(trees[id][q]).len() == 2
        } else {
            prefix.len() == 2 * depth && name_or_empty(trees[id][q]).len() == 40 - prefix.len()
        },
    decreases 40 - prefix.len(), 0nat,
{
    let entry = trees[id][q];
    let name = name_or_empty(entry);
    let full = prefix + name;
    let own = entry_listing(trees, prefix, entry);
    let k = choose|k: int| 0 <= k < own.len() && own[k] == item;
    if is_directory(prefix, entry) {
        lemma_leads_below(trees, root, id, prefix, q);
        lemma_listed_below(trees, root, depth, entry.id, full, k);
    } else {
        lemma_leaf_depth(trees, root, depth, id, prefix, q);
        lemma_hex_digits(spelled(full));
        assert(item == (spelled(full), entry.id));
        assert(hex(item.0) == full);
        assert(full.take(full.len() as int) =~= full);
        assert forall|i: int| 0 <= i < name.len() implies is_hex_digit(#[trigger] name[i]) by {
            assert(full[prefix.len() + i] == name[i]);
        }
    }
}

/// What is listed by an entry comes before what is listed by a later one.
proof fn lemma_entries_in_order(
    trees: Map<Seq<u8>, Seq<Entry>>,
    root: Seq<u8>,
    depth: nat,
    id: Seq<u8>,
    prefix: Seq<char>,
    p: int,
    q: int,
    one: (Seq<u8>, Seq<u8>),
    other: (Seq<u8>, Seq<u8>),
)
    requires
        is_sound(trees),
        is_sorted(trees),
        has_one_depth(trees, Some(root), depth),
        leads_to(trees, root, prefix, id),
        0 <= p < q < trees[id].len(),
        entry_listing(trees, prefix, trees[id][p]).contains(one),
        entry_listing(trees, prefix, trees[id][q]).contains(other),
    ensures
        comes_before(one.0, other.0),
{
    let former = name_or_empty(trees[id][p]);
    let latter = name_or_empty(trees[id][q]);
    lemma_walk_ends(trees, root, segments(prefix, prefix.len() / 2));
    lemma_listed_by_entry(trees, root, depth, id, prefix, p, one);
    lemma_listed_by_entry(trees, root, depth, id, prefix, q, other);
    assert(former.len() == latter.len());
    assert(is_ascii_chars(former));
    assert(is_ascii_chars(latter));
    is_ascii_chars_encode_utf8(former);
    is_ascii_chars_encode_utf8(latter);
    assert(trees[id][p] == directory(former, trees[id][p].id));
    assert(trees[id][q] == directory(latter, trees[id][q].id));
    let a = sort_key(trees[id][p]);
    let b = sort_key(trees[id][q]);
    let k = choose|k: int| #[trigger] first_differs(a, b, k);
    let n = former.len();
    assert(a == encode_utf8(former).push(0x2f) && b == encode_utf8(latter).push(0x2f));
    assert(k < n) by {
        if k == n {
            assert(a[n as int] == 0x2f && b[n as int] == 0x2f);
        }
    }
    assert(a[k] == former[k] as u8 && b[k] == latter[k] as u8);
    let at = prefix.len() + k;
    let one_full = prefix + former;
    let other_full = prefix + latter;
    lemma_hex_digits(one.0);
    lemma_hex_digits(other.0);
    assert forall|i: int| 0 <= i < one_full.len() implies #[trigger] hex(one.0)[i]
        == one_full[i] by {
        assert(hex(one.0).take(one_full.len() as int)[i] == hex(one.0)[i]);
    }
    assert forall|i: int| 0 <= i < other_full.len() implies #[trigger] hex(other.0)[i]
        == other_full[i] by {
        assert(hex(other.0).take(other_full.len() as int)[i] == hex(other.0)[i]);
    }
    assert forall|i: int| 0 <= i < at implies #[trigger] hex(one.0)[i] == hex(other.0)[i] by {
        if i >= prefix.len() {
            let m = i - prefix.len();
            assert(a[m] == b[m]);
            assert(a[m] == former[m] as u8 && b[m] == latter[m] as u8);
            assert(is_hex_digit(former[m]) && is_hex_digit(latter[m]));
            assert(former[m] == latter[m]);
            assert(one_full[i] == former[m] && other_full[i] == latter[m]);
        } else {
            assert(one_full[i] == prefix[i] && other_full[i] == prefix[i]);
        }
    }
    assert(is_hex_digit(former[k]) && is_hex_digit(latter[k]));
    assert(former[k] < latter[k]);
    assert(one_full[at] == former[k] && other_full[at] == latter[k]);
    assert(hex(one.0)[at] == former[k] && hex(other.0)[at] == latter[k]);
    lemma_digits_order(one.0, other.0, at);
}

/// The list of a tree is in ascending order.
proof fn lemma_listing_ascends(
    trees: Map<Seq<u8>, Seq<Entry>>,
    root: Seq<u8>,
    depth: nat,
    id: Seq<u8>,
    prefix: Seq<char>,
)
    requires
        is_sound(trees),
        is_sorted(trees),
        has_one_depth(trees, Some(root), depth),
        leads_to(trees, root, prefix, id),
    ensures
        is_ascending(listing(trees, id, prefix)),
    decreases 40 - prefix.len(), 1nat, 0nat,
{
    lemma_walk_ends(trees, root, segments(prefix, prefix.len() / 2));
    assert(trees[id].skip(0) =~= trees[id]);
    lemma_entries_ascend(trees, root, depth, id, prefix, 0);
}

/// The list of the entries of a tree from some one on is in ascending order.
proof fn lemma_entries_ascend(
    trees: Map<Seq<u8>, Seq<Entry>>,
    root: Seq<u8>,
    depth: nat,
    id: Seq<u8>,
    prefix: Seq<char>,
    from: int,
)
    requires
        is_sound(trees),
        is_sorted(trees),
        has_one_depth(trees, Some(root), depth),
        leads_to(trees, root, prefix, id),
        0 <= from <= trees[id].len(),
    ensures
        is_ascending(entries_listing(trees, trees[id].skip(from), prefix)),
    decreases 40 - prefix.len(), 0nat, trees[id].len() - from,
{
    let entries = trees[id].skip(from);
    let all = entries_listing(trees, entries, prefix);
    if from < trees[id].len() {
        let entry = trees[id][from];
        let own = entry_listing(trees, prefix, entry);
        let tail = trees[id].skip(from + 1);
        let more = entries_listing(trees, tail, prefix);
        assert(entries[0] == entry);
        assert(entries.drop_first() =~= tail);
        lemma_entries_ascend(trees, root, depth, id, prefix, from + 1);
        assert(is_ascending(own)) by {
            if is_directory(prefix, entry) {
                if trees.contains_key(entry.id) {
                    lemma_leads_below(trees, root, id, prefix, from);
                    lemma_listing_ascends(
                        trees,
                        root,
                        depth,
                        entry.id,
                        prefix + name_or_empty(entry),
                    );
                }
            }
        }
        assert forall|i: int, j: int| 0 <= i < j < all.len() implies comes_before(
            (#[trigger] all[i]).0,
            (#[trigger] all[j]).0,
        ) by {
            if j < own.len() {
                assert(all[i] == own[i] && all[j] == own[j]);
            } else if i >= own.len() {
                assert(all[i] == more[i - own.len()] && all[j] == more[j - own.len()]);
            } else {
                assert(all[i] == own[i] && all[j] == more[j - own.len()]);
                let q = lemma_listed_by_one(trees, tail, prefix, j - own.len());
                assert(tail[q] == trees[id][from + 1 + q]);
                lemma_entries_in_order(
                    trees,
                    root,
                    depth,
                    id,
                    prefix,
                    from,
                    from + 1 + q,
                    all[i],
                    all[j],
                );
            }
        }
    }
}

/// Where all entries of the index stand at one depth, it is listed in ascending order
/// of the targets, each of them once.
pub proof fn law_list_is_ascending(
    trees: Map<Seq<u8>, Seq<Entry>>,
    root: Option<Seq<u8>>,
    depth: nat,
)
    requires
        is_sound(trees),
        is_sorted(trees),
        has_one_depth(trees, root, depth),
    ensures
        is_ascending(index_listing(trees, root)),
{
    if let Some(id) = root {
        if trees.contains_key(id) {
            assert(segments(Seq::empty(), 0) =~= Seq::empty());
            lemma_listing_ascends(trees, id, depth, id, Seq::empty());
        }
    }
}

/// Where one depth is written at, all entries stand at it: there is none in an index
/// that does not exist, and writing at that depth keeps it so.
pub proof fn law_set_keeps_one_depth(
    known: Known,
    trees: Map<Seq<u8>, Seq<Entry>>,
    root: Option<Seq<u8>>,
    target: Seq<u8>,
    tree: Seq<u8>,
    options: MetadataOptions,
    answer: Seq<u8>,
)
    requires
        target.len() == 20,
        options.shard_level < 20,
        has_one_depth(trees, root, options.shard_level as nat),
        fits(known, trees, root),
        set_carried_out(known, trees, target, tree, options),
        set_step(known, target, tree, options) == Step::<Request, Result<Seq<u8>, Error>>::Return(
            Ok(answer),
        ),
    ensures
        has_one_depth(trees, None, options.shard_level as nat),
        has_one_depth(trees, Some(answer), options.shard_level as nat),
{
    assert forall|one: Seq<u8>, depth: nat|
        one.len() == 20 && depth < 20 && (#[trigger] cell(
            trees,
            Some(answer),
            one,
            depth,
        ) matches Ok(Some(_))) implies depth == options.shard_level by {
        if one == target {
            law_set_leaves_one_entry(known, trees, root, target, tree, options, answer, depth);
        } else {
            law_set_keeps_other_targets(known, trees, root, target, tree, options, answer, one);
            assert(cell(trees, Some(answer), one, depth) == cell(trees, root, one, depth));
        }
    }
}

/// Removing an entry leaves the others at their depth.
pub proof fn law_remove_keeps_one_depth(
    known: Known,
    trees: Map<Seq<u8>, Seq<Entry>>,
    root: Option<Seq<u8>>,
    target: Seq<u8>,
    after: Option<Seq<u8>>,
    depth: nat,
)
    requires
        target.len() == 20,
        has_one_depth(trees, root, depth),
        fits(known, trees, root),
        remove_carried_out(known, trees, target, after),
    ensures
        has_one_depth(trees, after, depth),
{
    assert forall|one: Seq<u8>, at: nat|
        one.len() == 20 && at < 20 && (#[trigger] cell(trees, after, one, at) matches Ok(
            Some(_),
        )) implies at == depth by {
        if one == target {
            law_remove_leaves_nothing(known, trees, root, target, after, at);
        } else {
            law_remove_keeps_other_targets(known, trees, root, target, after, one);
            assert(cell(trees, after, one, at) == cell(trees, root, one, at));
        }
    }
}

} // verus!
