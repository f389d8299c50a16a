//! What an operation on the index comes to as a whole, and that operations on
//! different targets can be done in either order.

use vstd::prelude::*;

use crate::fanout::{detect, leaf, segments, walk};
use crate::index::{
    occupied, progress, remove_plan, replaced, set_plan, set_step, Error, Known, MetadataOptions,
    Progress,
};
use crate::laws::{
    cell, entries_of, fits, held_depths, law_remove_changes_one_cell, lemma_detect_grows,
    lemma_detect_is_least, lemma_found_entry, lemma_found_is_removed, lemma_no_held_depths,
    lemma_removal_grows, lemma_same_held_depths, lemma_sweep_is_held, lemma_sweep_range, removed_to,
};
use crate::oid::{hex, law_hex_is_injective, lemma_hex_digits};
use crate::operation_laws::{
    is_kept_to, law_remove_keeps_other_targets, law_set_keeps_other_targets, lemma_occupied,
    lemma_replaced, lemma_set_done, remove_carried_out, set_carried_out,
};
use crate::rebuild::{child, RemoveResult};
use crate::rebuild_laws::{
    below, inserted, is_addressed, is_without, lemma_insertion_inserts, lemma_removal_takes_out,
    lemma_way_below, puts, replaces, same_entries, taken_out,
};
use crate::step::{Request, Step};
use crate::tree::{directory, entry_named, Entry};

verus! {

/// What is to become of a target: at some depths a tree is to stand, at some others
/// nothing is.
pub type Wishes = Map<nat, Option<Seq<u8>>>;

/// The same wishes, one directory down.
pub open spec fn shifted(wishes: Wishes) -> Wishes {
    Map::new(|depth: nat| wishes.contains_key(depth + 1), |depth: nat| wishes[depth + 1])
}

/// Whether wishes reach below the tree itself.
pub open spec fn goes_deeper(wishes: Wishes) -> bool {
    exists|depth: nat| depth > 0 && #[trigger] wishes.contains_key(depth)
}

/// The entry called `name` once wishes are met for the digits `digits` and the tree
/// below is `next`.
pub open spec fn new_named(
    trees: Map<Seq<u8>, Seq<Entry>>,
    base: Option<Seq<u8>>,
    digits: Seq<char>,
    wishes: Wishes,
    next: Option<Seq<u8>>,
    name: Seq<char>,
) -> Option<Entry> {
    if name == digits && wishes.contains_key(0) {
        match wishes[0] {
            Some(tree) => Some(directory(name, tree)),
            None => None,
        }
    } else if digits.len() > 2 && goes_deeper(wishes) && name == digits.take(2) {
        match next {
            Some(tree) => Some(directory(name, tree)),
            None => None,
        }
    } else {
        entry_named(entries_of(trees, base), name)
    }
}

/// Whether an entry is there once wishes are met for the digits `digits` and the tree
/// below is `next`.
pub open spec fn new_holds(
    trees: Map<Seq<u8>, Seq<Entry>>,
    base: Option<Seq<u8>>,
    digits: Seq<char>,
    wishes: Wishes,
    next: Option<Seq<u8>>,
    entry: Entry,
) -> bool {
    if entry.name == Some(digits) && wishes.contains_key(0) {
        wishes[0] is Some && entry == directory(digits, wishes[0]->0)
    } else if digits.len() > 2 && goes_deeper(wishes) && entry.name == Some(digits.take(2)) {
        next is Some && entry == directory(digits.take(2), next->0)
    } else {
        entries_of(trees, base).contains(entry)
    }
}

/// Whether `after` is the tree once wishes are met for the digits `digits` and the tree
/// below is `next`: there is none where it would hold nothing.
pub open spec fn comes_to(
    trees: Map<Seq<u8>, Seq<Entry>>,
    base: Option<Seq<u8>>,
    digits: Seq<char>,
    wishes: Wishes,
    next: Option<Seq<u8>>,
    after: Option<Seq<u8>>,
) -> bool {
    match after {
        Some(id) => {
            &&& trees.contains_key(id)
            &&& trees[id].len() > 0
            &&& forall|name: Seq<char>| #[trigger]
                entry_named(trees[id], name) == new_named(trees, base, digits, wishes, next, name)
            &&& forall|entry: Entry| #[trigger]
                trees[id].contains(entry) <==> new_holds(
                    trees,
                    base,
                    digits,
                    wishes,
                    next,
                    entry,
                )
        },
        None => forall|entry: Entry| !#[trigger]
            new_holds(trees, base, digits, wishes, next, entry),
    }
}

/// Whether `after` is what comes of the tree `base` where wishes are met for the
/// target that `digits` spell from there on.
pub open spec fn settled(
    trees: Map<Seq<u8>, Seq<Entry>>,
    base: Option<Seq<u8>>,
    digits: Seq<char>,
    wishes: Wishes,
    after: Option<Seq<u8>>,
) -> bool
    decreases digits.len(),
{
    exists|next: Option<Seq<u8>>|
        (digits.len() > 2 && goes_deeper(wishes) ==> settled(
            trees,
            below(trees, base, digits.take(2)),
            digits.skip(2),
            shifted(wishes),
            next,
        )) && #[trigger] comes_to(trees, base, digits, wishes, next, after)
}

/// What comes of a tree holds what it is to hold, also where that is nothing.
proof fn lemma_comes_to(
    trees: Map<Seq<u8>, Seq<Entry>>,
    base: Option<Seq<u8>>,
    digits: Seq<char>,
    wishes: Wishes,
    next: Option<Seq<u8>>,
    after: Option<Seq<u8>>,
)
    requires
        comes_to(trees, base, digits, wishes, next, after),
    ensures
        forall|name: Seq<char>| #[trigger]
            entry_named(entries_of(trees, after), name) == new_named(
                trees,
                base,
                digits,
                wishes,
                next,
                name,
            ),
        forall|entry: Entry| #[trigger]
            entries_of(trees, after).contains(entry) <==> new_holds(
                trees,
                base,
                digits,
                wishes,
                next,
                entry,
            ),
{
    if after is None {
        assert forall|name: Seq<char>| #[trigger]
            entry_named(entries_of(trees, after), name) == new_named(
                trees,
                base,
                digits,
                wishes,
                next,
                name,
            ) by {
            if let Some(entry) = new_named(trees, base, digits, wishes, next, name) {
                if entries_of(trees, base).len() > 0 && entry_named(
                    entries_of(trees, base),
                    name,
                ) == Some(entry) {
                    let i = lemma_found_entry(entries_of(trees, base), name);
                    assert(entries_of(trees, base).contains(entries_of(trees, base)[i]));
                }
                assert(new_holds(trees, base, digits, wishes, next, entry));
            }
        }
    }
}

/// Two trees that hold the same, or are both missing, are the same.
proof fn lemma_same_outcome(
    trees: Map<Seq<u8>, Seq<Entry>>,
    one: Option<Seq<u8>>,
    other: Option<Seq<u8>>,
)
    requires
        is_addressed(trees),
        one matches Some(id) ==> trees.contains_key(id) && trees[id].len() > 0,
        other matches Some(id) ==> trees.contains_key(id) && trees[id].len() > 0,
        forall|entry: Entry| #[trigger]
            entries_of(trees, one).contains(entry) <==> entries_of(trees, other).contains(entry),
    ensures
        one == other,
{
    match (one, other) {
        (Some(a), Some(b)) => {
            assert forall|entry: Entry| #[trigger]
                trees[a].contains(entry) <==> trees[b].contains(entry) by {
                assert(entries_of(trees, one).contains(entry) <==> entries_of(
                    trees,
                    other,
                ).contains(entry));
            }
            assert(same_entries(trees[a], trees[b]));
        },
        (Some(a), None) => {
            assert(entries_of(trees, one).contains(trees[a][0]));
        },
        (None, Some(b)) => {
            assert(trees[b].contains(trees[b][0]));
            assert(entries_of(trees, other).contains(trees[b][0]));
            assert(entries_of(trees, one).contains(trees[b][0]));
        },
        (None, None) => {},
    }
}

/// What comes of a tree is one tree.
proof fn lemma_settled_once(
    trees: Map<Seq<u8>, Seq<Entry>>,
    base: Option<Seq<u8>>,
    digits: Seq<char>,
    wishes: Wishes,
    one: Option<Seq<u8>>,
    other: Option<Seq<u8>>,
)
    requires
        is_addressed(trees),
        settled(trees, base, digits, wishes, one),
        settled(trees, base, digits, wishes, other),
    ensures
        one == other,
    decreases digits.len(),
{
    let from = below(trees, base, digits.take(2));
    let rest = digits.skip(2);
    let deep = digits.len() > 2 && goes_deeper(wishes);
    let a = choose|next: Option<Seq<u8>>|
        (deep ==> settled(trees, from, rest, shifted(wishes), next)) && #[trigger] comes_to(
            trees,
            base,
            digits,
            wishes,
            next,
            one,
        );
    let b = choose|next: Option<Seq<u8>>|
        (deep ==> settled(trees, from, rest, shifted(wishes), next)) && #[trigger] comes_to(
            trees,
            base,
            digits,
            wishes,
            next,
            other,
        );
    if deep {
        lemma_settled_once(trees, from, rest, shifted(wishes), a, b);
    }
    lemma_comes_to(trees, base, digits, wishes, a, one);
    lemma_comes_to(trees, base, digits, wishes, b, other);
    assert forall|entry: Entry| #[trigger]
        entries_of(trees, one).contains(entry) <==> entries_of(trees, other).contains(entry) by {
        assert(new_holds(trees, base, digits, wishes, a, entry) == new_holds(
            trees,
            base,
            digits,
            wishes,
            b,
            entry,
        ));
    }
    lemma_same_outcome(trees, one, other);
}

/// What comes of a tree in two turns comes of it in one.
proof fn lemma_settled_in_one(
    trees: Map<Seq<u8>, Seq<Entry>>,
    base: Option<Seq<u8>>,
    digits: Seq<char>,
    first: Wishes,
    second: Wishes,
    between: Option<Seq<u8>>,
    after: Option<Seq<u8>>,
)
    requires
        settled(trees, base, digits, first, between),
        settled(trees, between, digits, second, after),
    ensures
        settled(trees, base, digits, first.union_prefer_right(second), after),
    decreases digits.len(),
{
    let both = first.union_prefer_right(second);
    let name = digits.take(2);
    let rest = digits.skip(2);
    let from = below(trees, base, name);
    let deep = digits.len() > 2 && goes_deeper(first);
    let deep_then = digits.len() > 2 && goes_deeper(second);
    let a = choose|next: Option<Seq<u8>>|
        (deep ==> settled(trees, from, rest, shifted(first), next)) && #[trigger] comes_to(
            trees,
            base,
            digits,
            first,
            next,
            between,
        );
    let b = choose|next: Option<Seq<u8>>|
        (deep_then ==> settled(
            trees,
            below(trees, between, name),
            rest,
            shifted(second),
            next,
        )) && #[trigger] comes_to(trees, between, digits, second, next, after);
    lemma_comes_to(trees, base, digits, first, a, between);
    lemma_comes_to(trees, between, digits, second, b, after);
    assert(goes_deeper(both) <==> goes_deeper(first) || goes_deeper(second)) by {
        if goes_deeper(first) {
            let d = choose|d: nat| d > 0 && #[trigger] first.contains_key(d);
            assert(both.contains_key(d));
        }
        if goes_deeper(second) {
            let d = choose|d: nat| d > 0 && #[trigger] second.contains_key(d);
            assert(both.contains_key(d));
        }
        if goes_deeper(both) {
            let d = choose|d: nat| d > 0 && #[trigger] both.contains_key(d);
            assert(first.contains_key(d) || second.contains_key(d));
        }
    }
    assert(entry_named(entries_of(trees, between), name) == new_named(
        trees,
        base,
        digits,
        first,
        a,
        name,
    ));
    assert(shifted(both) =~= shifted(first).union_prefer_right(shifted(second)));
    let next = if deep_then {
        b
    } else {
        a
    };
    if digits.len() > 2 {
        assert(name != digits);
        if deep {
            assert(below(trees, between, name) == a);
        } else {
            assert(below(trees, between, name) == from);
        }
        if deep && deep_then {
            lemma_settled_in_one(trees, from, rest, shifted(first), shifted(second), a, b);
        } else if deep {
            lemma_no_wishes(second);
            assert(shifted(both) =~= shifted(first));
        } else if deep_then {
            lemma_no_wishes(first);
            assert(shifted(both) =~= shifted(second));
        }
    }
    assert forall|called: Seq<char>| #[trigger]
        entry_named(entries_of(trees, after), called) == new_named(
            trees,
            base,
            digits,
            both,
            next,
            called,
        ) by {
        assert(entry_named(entries_of(trees, between), called) == new_named(
            trees,
            base,
            digits,
            first,
            a,
            called,
        ));
    }
    assert forall|entry: Entry| #[trigger]
        entries_of(trees, after).contains(entry) <==> new_holds(
            trees,
            base,
            digits,
            both,
            next,
            entry,
        ) by {
        assert(entries_of(trees, between).contains(entry) <==> new_holds(
            trees,
            base,
            digits,
            first,
            a,
            entry,
        ));
    }
    assert(comes_to(trees, base, digits, both, next, after)) by {
        match after {
            Some(id) => {
                assert forall|called: Seq<char>| #[trigger]
                    entry_named(trees[id], called) == new_named(
                        trees,
                        base,
                        digits,
                        both,
                        next,
                        called,
                    ) by {
                    assert(entry_named(entries_of(trees, after), called) == new_named(
                        trees,
                        base,
                        digits,
                        both,
                        next,
                        called,
                    ));
                }
                assert forall|entry: Entry| #[trigger]
                    trees[id].contains(entry) <==> new_holds(
                        trees,
                        base,
                        digits,
                        both,
                        next,
                        entry,
                    ) by {
                    assert(entries_of(trees, after).contains(entry) <==> new_holds(
                        trees,
                        base,
                        digits,
                        both,
                        next,
                        entry,
                    ));
                }
            },
            None => {
                assert forall|entry: Entry| !#[trigger]
                    new_holds(trees, base, digits, both, next, entry) by {
                    assert(!entries_of(trees, after).contains(entry));
                }
            },
        }
    }
}

/// Where wishes do not reach below, there are none there.
proof fn lemma_no_wishes(wishes: Wishes)
    requires
        !goes_deeper(wishes),
    ensures
        forall|depth: nat| !#[trigger] shifted(wishes).contains_key(depth),
{
    assert forall|depth: nat| !#[trigger] shifted(wishes).contains_key(depth) by {
        assert(!wishes.contains_key(depth + 1));
    }
}

/// Where wishes are met for two targets, the order makes no difference.
proof fn lemma_settled_in_either_order(
    trees: Map<Seq<u8>, Seq<Entry>>,
    base: Option<Seq<u8>>,
    one: Seq<char>,
    wishes: Wishes,
    other: Seq<char>,
    others: Wishes,
    a: Option<Seq<u8>>,
    ab: Option<Seq<u8>>,
    b: Option<Seq<u8>>,
    ba: Option<Seq<u8>>,
)
    requires
        is_addressed(trees),
        one != other,
        one.len() == other.len(),
        one.len() >= 2,
        one.len() % 2 == 0,
        settled(trees, base, one, wishes, a),
        settled(trees, a, other, others, ab),
        settled(trees, base, other, others, b),
        settled(trees, b, one, wishes, ba),
    ensures
        ab == ba,
    decreases one.len(),
{
    let name = one.take(2);
    let called = other.take(2);
    let deep = one.len() > 2 && goes_deeper(wishes);
    let deep_other = one.len() > 2 && goes_deeper(others);
    let in_a = choose|next: Option<Seq<u8>>|
        (deep ==> settled(
            trees,
            below(trees, base, name),
            one.skip(2),
            shifted(wishes),
            next,
        )) && #[trigger] comes_to(trees, base, one, wishes, next, a);
    let in_ab = choose|next: Option<Seq<u8>>|
        (deep_other ==> settled(
            trees,
            below(trees, a, called),
            other.skip(2),
            shifted(others),
            next,
        )) && #[trigger] comes_to(trees, a, other, others, next, ab);
    let in_b = choose|next: Option<Seq<u8>>|
        (deep_other ==> settled(
            trees,
            below(trees, base, called),
            other.skip(2),
            shifted(others),
            next,
        )) && #[trigger] comes_to(trees, base, other, others, next, b);
    let in_ba = choose|next: Option<Seq<u8>>|
        (deep ==> settled(
            trees,
            below(trees, b, name),
            one.skip(2),
            shifted(wishes),
            next,
        )) && #[trigger] comes_to(trees, b, one, wishes, next, ba);
    lemma_comes_to(trees, base, one, wishes, in_a, a);
    lemma_comes_to(trees, a, other, others, in_ab, ab);
    lemma_comes_to(trees, base, other, others, in_b, b);
    lemma_comes_to(trees, b, one, wishes, in_ba, ba);
    if one.len() > 2 {
        assert(entry_named(entries_of(trees, a), called) == new_named(
            trees,
            base,
            one,
            wishes,
            in_a,
            called,
        ));
        assert(entry_named(entries_of(trees, b), name) == new_named(
            trees,
            base,
            other,
            others,
            in_b,
            name,
        ));
        if name != called {
            assert(below(trees, a, called) == below(trees, base, called));
            assert(below(trees, b, name) == below(trees, base, name));
        } else {
            if one.skip(2) == other.skip(2) {
                assert(one =~= one.take(2) + one.skip(2));
                assert(other =~= other.take(2) + other.skip(2));
            }
            assert(deep ==> below(trees, a, called) == in_a);
            assert(deep_other ==> below(trees, b, name) == in_b);
            assert(!deep ==> below(trees, a, called) == below(trees, base, called));
            assert(!deep_other ==> below(trees, b, name) == below(trees, base, name));
        }
        if name == called && deep && deep_other {
            lemma_settled_in_either_order(
                trees,
                below(trees, base, name),
                one.skip(2),
                shifted(wishes),
                other.skip(2),
                shifted(others),
                in_a,
                in_ab,
                in_b,
                in_ba,
            );
        } else {
            if deep {
                lemma_settled_once(
                    trees,
                    below(trees, base, name),
                    one.skip(2),
                    shifted(wishes),
                    in_a,
                    in_ba,
                );
            }
            if deep_other {
                lemma_settled_once(
                    trees,
                    below(trees, base, called),
                    other.skip(2),
                    shifted(others),
                    in_b,
                    in_ab,
                );
            }
        }
    }
    assert forall|entry: Entry| #[trigger]
        entries_of(trees, ab).contains(entry) <==> entries_of(trees, ba).contains(entry) by {
        assert(entries_of(trees, a).contains(entry) <==> new_holds(
            trees,
            base,
            one,
            wishes,
            in_a,
            entry,
        ));
        assert(entries_of(trees, b).contains(entry) <==> new_holds(
            trees,
            base,
            other,
            others,
            in_b,
            entry,
        ));
    }
    lemma_same_outcome(trees, ab, ba);
}

/// What is put in is what is wished for.
proof fn lemma_inserted_settles(
    trees: Map<Seq<u8>, Seq<Entry>>,
    base: Option<Seq<u8>>,
    digits: Seq<char>,
    level: nat,
    value: Seq<u8>,
    id: Seq<u8>,
)
    requires
        2 * level < digits.len(),
        digits.len() % 2 == 0,
        inserted(trees, base, segments(digits, level), leaf(digits, level), value, id),
    ensures
        settled(trees, base, digits, map![level => Some(value)], Some(id)),
    decreases level,
{
    let wishes: Wishes = map![level => Some(value)];
    if level == 0 {
        assert(leaf(digits, 0) =~= digits);
        assert(!goes_deeper(wishes));
        assert(puts(trees, base, digits, Some(value), id));
        assert(trees[id].contains(directory(digits, value)));
        assert(comes_to(trees, base, digits, wishes, None, Some(id)));
    } else {
        lemma_way_below(digits, level);
        let path = segments(digits, level);
        let name = digits.take(2);
        let next = choose|next: Seq<u8>|
            inserted(
                trees,
                below(trees, base, path[0]),
                path.drop_first(),
                leaf(digits, level),
                value,
                next,
            ) && #[trigger] puts(trees, base, path[0], Some(next), id);
        lemma_inserted_settles(
            trees,
            below(trees, base, name),
            digits.skip(2),
            (level - 1) as nat,
            value,
            next,
        );
        assert(shifted(wishes) =~= map![(level - 1) as nat => Some(value)]);
        assert(wishes.contains_key(level));
        assert(goes_deeper(wishes));
        assert(trees[id].contains(directory(name, next)));
        assert(comes_to(trees, base, digits, wishes, Some(next), Some(id)));
    }
}

/// A tree from which an entry is taken out holds what is left.
proof fn lemma_without_comes_to(
    trees: Map<Seq<u8>, Seq<Entry>>,
    base: Seq<u8>,
    name: Seq<char>,
    after: Option<Seq<u8>>,
)
    requires
        is_without(trees, base, name, after),
    ensures
        match after {
            Some(id) => {
                &&& trees.contains_key(id)
                &&& trees[id].len() > 0
                &&& forall|called: Seq<char>| #[trigger]
                    entry_named(trees[id], called) == if called == name {
                        None
                    } else {
                        entry_named(trees[base], called)
                    }
                &&& forall|entry: Entry| #[trigger]
                    trees[id].contains(entry) <==> entry.name != Some(name)
                        && trees[base].contains(entry)
            },
            None => forall|entry: Entry| #[trigger]
                trees[base].contains(entry) ==> entry.name == Some(name),
        },
{
    match after {
        Some(id) => {
            let i = choose|i: int|
                0 <= i < trees[base].len() && (#[trigger] trees[base][i]).name != Some(name);
            assert(trees[base].contains(trees[base][i]));
            assert(entries_of(trees, Some(base)) == trees[base]);
            assert(trees[id].contains(trees[base][i]));
        },
        None => {
            assert forall|entry: Entry| #[trigger]
                trees[base].contains(entry) implies entry.name == Some(name) by {
                let i = choose|i: int| 0 <= i < trees[base].len() && trees[base][i] == entry;
                assert(trees[base][i].name == Some(name));
            }
        },
    }
}

/// What is taken out is what is wished away.
proof fn lemma_taken_out_settles(
    trees: Map<Seq<u8>, Seq<Entry>>,
    base: Seq<u8>,
    digits: Seq<char>,
    depth: nat,
    after: Option<Seq<u8>>,
)
    requires
        2 * depth < digits.len(),
        digits.len() % 2 == 0,
        walk(trees, base, segments(digits, depth)) matches Ok(Some(_)),
        taken_out(trees, base, segments(digits, depth), leaf(digits, depth), after),
    ensures
        settled(trees, Some(base), digits, map![depth => None::<Seq<u8>>], after),
    decreases depth,
{
    let wishes: Wishes = map![depth => None::<Seq<u8>>];
    if depth == 0 {
        assert(leaf(digits, 0) =~= digits);
        assert(!goes_deeper(wishes));
        lemma_without_comes_to(trees, base, digits, after);
        assert(comes_to(trees, Some(base), digits, wishes, None, after));
    } else {
        lemma_way_below(digits, depth);
        let path = segments(digits, depth);
        let name = digits.take(2);
        let next = choose|next: Option<Seq<u8>>|
            taken_out(
                trees,
                child(trees[base], path[0])->0,
                path.drop_first(),
                leaf(digits, depth),
                next,
            ) && #[trigger] replaces(trees, base, path[0], next, after);
        let entry = entry_named(trees[base], name)->0;
        lemma_taken_out_settles(trees, entry.id, digits.skip(2), (depth - 1) as nat, next);
        assert(shifted(wishes) =~= map![(depth - 1) as nat => None::<Seq<u8>>]);
        assert(wishes.contains_key(depth));
        assert(goes_deeper(wishes));
        assert(below(trees, Some(base), name) == Some(entry.id));
        match next {
            Some(tree) => {
                assert(trees[after->0].contains(directory(name, tree)));
            },
            None => {
                lemma_without_comes_to(trees, base, name, after);
            },
        }
        assert(comes_to(trees, Some(base), digits, wishes, next, after));
    }
}

/// The wishes of an operation that takes out the entries at `depths` and puts in
/// `entry`.
pub open spec fn wishes_of(depths: Seq<nat>, entry: Option<(nat, Seq<u8>)>) -> Wishes
    decreases depths.len(),
{
    if depths.len() == 0 {
        match entry {
            Some((level, tree)) => map![level => Some(tree)],
            None => Map::empty(),
        }
    } else {
        map![depths[0] => None::<Seq<u8>>].union_prefer_right(
            wishes_of(depths.drop_first(), entry),
        )
    }
}

/// An operation that is carried out does what is wished.
proof fn lemma_done_settles(
    known: Map<Seq<u8>, Seq<Entry>>,
    trees: Map<Seq<u8>, Seq<Entry>>,
    root: Option<Seq<u8>>,
    target: Seq<u8>,
    depths: Seq<nat>,
    entry: Option<(nat, Seq<u8>)>,
    written: Seq<Seq<u8>>,
    after: Option<Seq<u8>>,
)
    requires
        known.submap_of(trees),
        target.len() == 20,
        depths.len() > 0 || entry is Some,
        entry matches Some((level, _)) ==> level < 20,
        forall|i: int|
            0 <= i < depths.len() ==> #[trigger] depths[i] < 20 && (cell(
                trees,
                root,
                target,
                depths[i],
            ) matches Ok(Some(_))),
        forall|i: int, j: int|
            0 <= i < j < depths.len() ==> #[trigger] depths[i] < #[trigger] depths[j],
        is_kept_to(known, trees, root, target, depths, entry, written),
        progress(known, root, target, depths, entry, written) == Progress::Done(after),
    ensures
        settled(trees, root, hex(target), wishes_of(depths, entry), after),
    decreases depths.len(),
{
    let digits = hex(target);
    lemma_hex_digits(target);
    if depths.len() == 0 {
        let (level, tree) = entry->0;
        let plan = set_plan(known, root, target, tree, level)->Ok_0;
        assert(plan.take(plan.len() as int) =~= plan);
        let path = segments(digits, level);
        let name = leaf(digits, level);
        lemma_insertion_inserts(known, trees, root, path, name, tree, written);
        lemma_inserted_settles(trees, root, digits, level, tree, written.last());
    } else {
        let depth = depths[0];
        let rest = depths.drop_first();
        let path = segments(digits, depth);
        let name = leaf(digits, depth);
        assert(cell(trees, root, target, depths[0]) matches Ok(Some(_)));
        let id = root->0;
        assert(root is Some);
        lemma_removal_grows(known, trees, id, path, name);
        lemma_found_is_removed(trees, id, target, depth);
        let result = remove_plan(known, id, target, depth)->Ok_0;
        let n = match result {
            RemoveResult::Removed(plan) => plan.len() as int,
            _ => 0,
        };
        let top = match result {
            RemoveResult::Removed(_) => Some(written[n - 1]),
            _ => None,
        };
        assert(result is Removed ==> written.take(n).last() == written[n - 1]);
        assert(removed_to(trees, result, written.take(n), top));
        lemma_removal_takes_out(known, trees, id, path, name, written.take(n));
        lemma_taken_out_settles(trees, id, digits, depth, top);
        assert(settled(trees, root, digits, map![depth => None::<Seq<u8>>], top));
        assert forall|i: int| 0 <= i < rest.len() implies #[trigger] rest[i] < 20 && (cell(
            trees,
            top,
            target,
            rest[i],
        ) matches Ok(Some(_))) by {
            assert(rest[i] == depths[i + 1]);
            assert(depths[0] < depths[i + 1]);
            law_remove_changes_one_cell(
                known,
                trees,
                id,
                target,
                depth,
                written.take(n),
                top,
                target,
                rest[i],
            );
        }
        assert forall|i: int, j: int| 0 <= i < j < rest.len() implies #[trigger] rest[i]
            < #[trigger] rest[j] by {
            assert(rest[i] == depths[i + 1] && rest[j] == depths[j + 1]);
        }
        assert(written.skip(0) =~= written);
        if rest.len() == 0 && entry is None {
            assert(wishes_of(rest, entry) =~= Map::empty());
            assert(wishes_of(depths, entry) =~= map![depth => None::<Seq<u8>>]);
        } else {
            lemma_done_settles(known, trees, top, target, rest, entry, written.skip(n), after);
            lemma_settled_in_one(
                trees,
                root,
                digits,
                map![depth => None::<Seq<u8>>],
                wishes_of(rest, entry),
                top,
                after,
            );
        }
    }
}

/// The depths that a write takes out are in ascending order.
pub proof fn lemma_replaced_ascends(
    known: Known,
    root: Option<Seq<u8>>,
    target: Seq<u8>,
    options: MetadataOptions,
)
    requires
        replaced(known, root, target, options) matches Ok(Some(_)),
    ensures
        forall|i: int, j: int|
            0 <= i < j < replaced(known, root, target, options)->Ok_0->0.len()
                ==> #[trigger] replaced(known, root, target, options)->Ok_0->0[i]
                < #[trigger] replaced(known, root, target, options)->Ok_0->0[j],
{
    if let Some(id) = root {
        let keep = Some(options.shard_level as nat);
        lemma_sweep_range(known.trees, known.lacking, id, hex(target), 0, keep);
    }
}

/// What writing an entry comes to: at the depth that was asked for the tree, and
/// nothing at the depths at which the target had entries.
pub proof fn lemma_set_settles(
    known: Known,
    trees: Map<Seq<u8>, Seq<Entry>>,
    root: Option<Seq<u8>>,
    target: Seq<u8>,
    tree: Seq<u8>,
    options: MetadataOptions,
    answer: Seq<u8>,
)
    requires
        target.len() == 20,
        options.shard_level < 20,
        fits(known, trees, root),
        set_carried_out(known, trees, target, tree, options),
        set_step(known, target, tree, options) == Step::<Request, Result<Seq<u8>, Error>>::Return(
            Ok(answer),
        ),
    ensures
        settled(
            trees,
            root,
            hex(target),
            wishes_of(
                held_depths(trees, root, target, 0, Some(options.shard_level as nat)),
                Some((options.shard_level as nat, tree)),
            ),
            Some(answer),
        ),
{
    let level = options.shard_level as nat;
    lemma_set_done(known, trees, root, target, tree, options, answer);
    lemma_replaced_ascends(known, root, target, options);
    lemma_replaced(known, trees, root, target, options, 0);
    let depths = replaced(known, root, target, options)->Ok_0->0;
    assert forall|i: int| 0 <= i < depths.len() implies #[trigger] depths[i] < 20 && (cell(
        trees,
        root,
        target,
        depths[i],
    ) matches Ok(Some(_))) by {
        assert(depths.contains(depths[i]));
        lemma_replaced(known, trees, root, target, options, depths[i]);
    }
    assert(depths == held_depths(trees, root, target, 0, Some(level))) by {
        if options.force && root is Some {
            lemma_sweep_is_held(
                known.trees,
                known.lacking,
                trees,
                root->0,
                target,
                0,
                Some(level),
            );
        } else {
            assert forall|depth: nat| depth < 20 implies !(#[trigger] cell(
                trees,
                root,
                target,
                depth,
            ) matches Ok(Some(_))) by {
                if root is Some {
                    lemma_replaced(known, trees, root, target, options, depth);
                }
            }
            lemma_no_held_depths(trees, root, target, 0, Some(level));
        }
    }
    lemma_done_settles(
        known.trees,
        trees,
        root,
        target,
        depths,
        Some((level, tree)),
        known.written,
        Some(answer),
    );
}

/// What removing an entry comes to: nothing at the depths at which the target had
/// entries.
pub proof fn lemma_remove_settles(
    known: Known,
    trees: Map<Seq<u8>, Seq<Entry>>,
    root: Option<Seq<u8>>,
    target: Seq<u8>,
    after: Option<Seq<u8>>,
)
    requires
        target.len() == 20,
        fits(known, trees, root),
        remove_carried_out(known, trees, target, after),
    ensures
        settled(
            trees,
            root,
            hex(target),
            wishes_of(held_depths(trees, root, target, 0, None), None),
            after,
        ),
{
    let depths = occupied(known, root, target)->Ok_0;
    let id = root->0;
    lemma_hex_digits(target);
    lemma_detect_grows(known.trees, trees, id, hex(target), 0);
    lemma_detect_is_least(trees, id, target, 0);
    let first = (detect(known.trees, id, hex(target), 0)->Ok_0->0).0;
    lemma_sweep_range(known.trees, known.lacking, id, hex(target), first + 1, None);
    lemma_sweep_is_held(known.trees, known.lacking, trees, id, target, first + 1, None);
    lemma_held_from_first(trees, root, target, first, 0);
    assert(depths == held_depths(trees, root, target, 0, None));
    lemma_occupied(known, trees, root, target, 0);
    assert forall|i: int| 0 <= i < depths.len() implies #[trigger] depths[i] < 20 && (cell(
        trees,
        root,
        target,
        depths[i],
    ) matches Ok(Some(_))) by {
        assert(depths.contains(depths[i]));
        lemma_occupied(known, trees, root, target, depths[i]);
    }
    lemma_done_settles(
        known.trees,
        trees,
        root,
        target,
        depths,
        None,
        known.written,
        after,
    );
}

/// The depths at which something is held begin with the first of them.
proof fn lemma_held_from_first(
    trees: Map<Seq<u8>, Seq<Entry>>,
    root: Option<Seq<u8>>,
    target: Seq<u8>,
    first: nat,
    from: nat,
)
    requires
        from <= first < 20,
        cell(trees, root, target, first) matches Ok(Some(_)),
        forall|depth: nat|
            depth < first ==> #[trigger] cell(trees, root, target, depth) == Ok::<
                Option<Seq<u8>>,
                Seq<u8>,
            >(None),
    ensures
        held_depths(trees, root, target, from, None) == seq![first] + held_depths(
            trees,
            root,
            target,
            first + 1,
            None,
        ),
    decreases first - from,
{
    if from < first {
        assert(cell(trees, root, target, from) == Ok::<Option<Seq<u8>>, Seq<u8>>(None));
        lemma_held_from_first(trees, root, target, first, from + 1);
    }
}

/// Different targets have different digits.
proof fn lemma_digits_differ(target: Seq<u8>, other: Seq<u8>)
    requires
        target.len() == 20,
        other.len() == 20,
        target != other,
    ensures
        hex(target) != hex(other),
        hex(target).len() == 40,
        hex(other).len() == 40,
{
    lemma_hex_digits(target);
    lemma_hex_digits(other);
    if hex(target) == hex(other) {
        law_hex_is_injective(target, other);
    }
}

/// Writes to different targets commute: from one and the same index, writing the entry
/// of one and then that of another answers with the same root tree as writing them
/// in the other order, with whatever options.
pub proof fn law_sets_commute(
    known_a: Known,
    known_ab: Known,
    known_b: Known,
    known_ba: Known,
    trees: Map<Seq<u8>, Seq<Entry>>,
    root: Option<Seq<u8>>,
    target: Seq<u8>,
    tree: Seq<u8>,
    options: MetadataOptions,
    other: Seq<u8>,
    other_tree: Seq<u8>,
    other_options: MetadataOptions,
    a: Seq<u8>,
    ab: Seq<u8>,
    b: Seq<u8>,
    ba: Seq<u8>,
)
    requires
        is_addressed(trees),
        target.len() == 20,
        other.len() == 20,
        target != other,
        options.shard_level < 20,
        other_options.shard_level < 20,
        fits(known_a, trees, root),
        set_carried_out(known_a, trees, target, tree, options),
        set_step(known_a, target, tree, options) == Step::<
            Request,
            Result<Seq<u8>, Error>,
        >::Return(Ok(a)),
        fits(known_ab, trees, Some(a)),
        set_carried_out(known_ab, trees, other, other_tree, other_options),
        set_step(known_ab, other, other_tree, other_options) == Step::<
            Request,
            Result<Seq<u8>, Error>,
        >::Return(Ok(ab)),
        fits(known_b, trees, root),
        set_carried_out(known_b, trees, other, other_tree, other_options),
        set_step(known_b, other, other_tree, other_options) == Step::<
            Request,
            Result<Seq<u8>, Error>,
        >::Return(Ok(b)),
        fits(known_ba, trees, Some(b)),
        set_carried_out(known_ba, trees, target, tree, options),
        set_step(known_ba, target, tree, options) == Step::<
            Request,
            Result<Seq<u8>, Error>,
        >::Return(Ok(ba)),
    ensures
        ab == ba,
{
    let level = options.shard_level as nat;
    let other_level = other_options.shard_level as nat;
    lemma_digits_differ(target, other);
    lemma_set_settles(known_a, trees, root, target, tree, options, a);
    lemma_set_settles(known_ab, trees, Some(a), other, other_tree, other_options, ab);
    lemma_set_settles(known_b, trees, root, other, other_tree, other_options, b);
    lemma_set_settles(known_ba, trees, Some(b), target, tree, options, ba);
    law_set_keeps_other_targets(known_a, trees, root, target, tree, options, a, other);
    law_set_keeps_other_targets(
        known_b,
        trees,
        root,
        other,
        other_tree,
        other_options,
        b,
        target,
    );
    lemma_same_held_depths(trees, Some(a), root, other, 0, Some(other_level));
    lemma_same_held_depths(trees, Some(b), root, target, 0, Some(level));
    lemma_settled_in_either_order(
        trees,
        root,
        hex(target),
        wishes_of(held_depths(trees, root, target, 0, Some(level)), Some((level, tree))),
        hex(other),
        wishes_of(
            held_depths(trees, root, other, 0, Some(other_level)),
            Some((other_level, other_tree)),
        ),
        Some(a),
        Some(ab),
        Some(b),
        Some(ba),
    );
}

/// Writing the entry of one target and removing that of another commute: the root tree
/// of the index is the same in the end, in whichever order they are done.
pub proof fn law_set_and_remove_commute(
    known_a: Known,
    known_ab: Known,
    known_b: Known,
    known_ba: Known,
    trees: Map<Seq<u8>, Seq<Entry>>,
    root: Option<Seq<u8>>,
    target: Seq<u8>,
    tree: Seq<u8>,
    options: MetadataOptions,
    other: Seq<u8>,
    a: Seq<u8>,
    ab: Option<Seq<u8>>,
    b: Option<Seq<u8>>,
    ba: Seq<u8>,
)
    requires
        is_addressed(trees),
        target.len() == 20,
        other.len() == 20,
        target != other,
        options.shard_level < 20,
        fits(known_a, trees, root),
        set_carried_out(known_a, trees, target, tree, options),
        set_step(known_a, target, tree, options) == Step::<
            Request,
            Result<Seq<u8>, Error>,
        >::Return(Ok(a)),
        fits(known_ab, trees, Some(a)),
        remove_carried_out(known_ab, trees, other, ab),
        fits(known_b, trees, root),
        remove_carried_out(known_b, trees, other, b),
        fits(known_ba, trees, b),
        set_carried_out(known_ba, trees, target, tree, options),
        set_step(known_ba, target, tree, options) == Step::<
            Request,
            Result<Seq<u8>, Error>,
        >::Return(Ok(ba)),
    ensures
        ab == Some(ba),
{
    let level = options.shard_level as nat;
    lemma_digits_differ(target, other);
    lemma_set_settles(known_a, trees, root, target, tree, options, a);
    lemma_remove_settles(known_ab, trees, Some(a), other, ab);
    lemma_remove_settles(known_b, trees, root, other, b);
    lemma_set_settles(known_ba, trees, b, target, tree, options, ba);
    law_set_keeps_other_targets(known_a, trees, root, target, tree, options, a, other);
    law_remove_keeps_other_targets(known_b, trees, root, other, b, target);
    lemma_same_held_depths(trees, Some(a), root, other, 0, None);
    lemma_same_held_depths(trees, b, root, target, 0, Some(level));
    lemma_settled_in_either_order(
        trees,
        root,
        hex(target),
        wishes_of(held_depths(trees, root, target, 0, Some(level)), Some((level, tree))),
        hex(other),
        wishes_of(held_depths(trees, root, other, 0, None), None),
        Some(a),
        ab,
        b,
        Some(ba),
    );
}

/// Removals of the entries of two targets commute: the root tree of the index is the
/// same in the end, in whichever order they are done.
pub proof fn law_removes_commute(
    known_a: Known,
    known_ab: Known,
    known_b: Known,
    known_ba: Known,
    trees: Map<Seq<u8>, Seq<Entry>>,
    root: Option<Seq<u8>>,
    target: Seq<u8>,
    other: Seq<u8>,
    a: Option<Seq<u8>>,
    ab: Option<Seq<u8>>,
    b: Option<Seq<u8>>,
    ba: Option<Seq<u8>>,
)
    requires
        is_addressed(trees),
        target.len() == 20,
        other.len() == 20,
        target != other,
        fits(known_a, trees, root),
        remove_carried_out(known_a, trees, target, a),
        fits(known_ab, trees, a),
        remove_carried_out(known_ab, trees, other, ab),
        fits(known_b, trees, root),
        remove_carried_out(known_b, trees, other, b),
        fits(known_ba, trees, b),
        remove_carried_out(known_ba, trees, target, ba),
    ensures
        ab == ba,
{
    lemma_digits_differ(target, other);
    lemma_remove_settles(known_a, trees, root, target, a);
    lemma_remove_settles(known_ab, trees, a, other, ab);
    lemma_remove_settles(known_b, trees, root, other, b);
    lemma_remove_settles(known_ba, trees, b, target, ba);
    law_remove_keeps_other_targets(known_a, trees, root, target, a, other);
    law_remove_keeps_other_targets(known_b, trees, root, other, b, target);
    lemma_same_held_depths(trees, a, root, other, 0, None);
    lemma_same_held_depths(trees, b, root, target, 0, None);
    lemma_settled_in_either_order(
        trees,
        root,
        hex(target),
        wishes_of(held_depths(trees, root, target, 0, None), None),
        hex(other),
        wishes_of(held_depths(trees, root, other, 0, None), None),
        a,
        ab,
        b,
        ba,
    );
}

} // verus!
