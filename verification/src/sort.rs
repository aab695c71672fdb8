//! Ordering a listing by name.

use crate::entry::{listing_view, DirectoryEntry, EntryView};
use crate::order::{
    lemma_bytes_before_asymmetric, lemma_bytes_before_transitive,
    lemma_bytes_not_before_transitive, lemma_name_before_total, name_before, name_lt,
};
use vstd::prelude::*;
use vstd::utf8::encode_utf8;

verus! {

/// How many entries at the front of `s` have a name that sorts before `name`.
pub open spec fn rank(s: Seq<EntryView>, name: Seq<char>) -> nat
    decreases s.len(),
{
    if s.len() > 0 && name_before(s[0].name, name) {
        1 + rank(s.drop_first(), name)
    } else {
        0
    }
}

/// `s` with `item` put in front of the first entry whose name does not sort
/// before its own.
pub open spec fn place(s: Seq<EntryView>, item: EntryView) -> Seq<EntryView> {
    s.insert(rank(s, item.name) as int, item)
}

/// A listing in display order: by the entries' own names, not their paths.
/// Each entry is placed in front of the first one whose name does not sort
/// before its own, so entries with equal names keep the order they came in.
pub open spec fn sort_listing(s: Seq<EntryView>) -> Seq<EntryView>
    decreases s.len(),
{
    if s.len() == 0 {
        s
    } else {
        place(sort_listing(s.drop_first()), s[0])
    }
}

/// No entry is followed, anywhere later, by one whose name sorts before its own.
pub open spec fn in_name_order(s: Seq<EntryView>) -> bool {
    forall|i: int, j: int| 0 <= i < j < s.len() ==> !name_before(s[j].name, s[i].name)
}

/// The entries that `rank` counts sort before `name`, and the one behind
/// them does not.
pub proof fn lemma_rank_bounds(s: Seq<EntryView>, name: Seq<char>)
    ensures
        rank(s, name) <= s.len(),
        forall|i: int| 0 <= i < rank(s, name) ==> name_before(#[trigger] s[i].name, name),
        rank(s, name) < s.len() ==> !name_before(s[rank(s, name) as int].name, name),
    decreases s.len(),
{
    if s.len() > 0 && name_before(s[0].name, name) {
        let t = s.drop_first();
        lemma_rank_bounds(t, name);
        assert forall|i: int| 0 <= i < rank(s, name) implies name_before(
            #[trigger] s[i].name,
            name,
        ) by {
            if i > 0 {
                assert(s[i] == t[i - 1]);
            }
        }
    }
}

/// Sorting keeps every entry, as often as it occurred.
pub proof fn lemma_sort_permutes(s: Seq<EntryView>)
    ensures
        sort_listing(s).len() == s.len(),
        sort_listing(s).to_multiset() == s.to_multiset(),
    decreases s.len(),
{
    if s.len() > 0 {
        let t = s.drop_first();
        let rest = sort_listing(t);
        let at = rank(rest, s[0].name) as int;
        lemma_sort_permutes(t);
        lemma_rank_bounds(rest, s[0].name);
        vstd::seq_lib::to_multiset_insert(rest, at, s[0]);
        vstd::seq_lib::to_multiset_insert(t, 0, s[0]);
        assert(s == t.insert(0, s[0]));
    }
}

/// Sorting puts the names in order.
pub proof fn lemma_sort_orders(s: Seq<EntryView>)
    ensures
        in_name_order(sort_listing(s)),
    decreases s.len(),
{
    if s.len() > 0 {
        let t = s.drop_first();
        let rest = sort_listing(t);
        let name = s[0].name;
        let at = rank(rest, name) as int;
        let out = sort_listing(s);
        lemma_sort_orders(t);
        lemma_rank_bounds(rest, name);
        assert(out.len() == rest.len() + 1);
        assert forall|i: int, j: int| 0 <= i < j < out.len() implies !name_before(
            out[j].name,
            out[i].name,
        ) by {
            if j == at {
                lemma_bytes_before_asymmetric(encode_utf8(rest[i].name), encode_utf8(name));
            } else if i == at {
                if at < j - 1 {
                    assert(!name_before(rest[j - 1].name, rest[at].name));
                } else {
                    lemma_bytes_before_asymmetric(
                        encode_utf8(rest[at].name),
                        encode_utf8(rest[at].name),
                    );
                }
                lemma_bytes_not_before_transitive(
                    encode_utf8(name),
                    encode_utf8(rest[at].name),
                    encode_utf8(rest[j - 1].name),
                );
            }
        }
    }
}

/// Sorting is stable: of two entries, the one that came first stays first
/// unless the other's name sorts before its own.
pub proof fn lemma_sort_is_stable(s: Seq<EntryView>, i: int, j: int)
    requires
        0 <= i < j < s.len(),
        !name_before(s[j].name, s[i].name),
    ensures
        exists|p: int, q: int|
            0 <= p < q < s.len() && #[trigger] sort_listing(s)[p] == s[i]
                && #[trigger] sort_listing(s)[q] == s[j],
    decreases s.len(),
{
    let t = s.drop_first();
    let rest = sort_listing(t);
    let out = sort_listing(s);
    let at = rank(rest, s[0].name) as int;
    lemma_sort_permutes(t);
    lemma_rank_bounds(rest, s[0].name);
    if i == 0 {
        vstd::seq_lib::to_multiset_contains(t, t[j - 1]);
        vstd::seq_lib::to_multiset_contains(rest, t[j - 1]);
        assert(t.contains(t[j - 1]));
        let k = choose|k: int| 0 <= k < rest.len() && rest[k] == s[j];
        assert(out[at] == s[0] && out[k + 1] == s[j]);
    } else {
        lemma_sort_is_stable(t, i - 1, j - 1);
        let (p, q) = choose|p: int, q: int|
            0 <= p < q < t.len() && #[trigger] rest[p] == t[i - 1] && #[trigger] rest[q] == t[j
                - 1];
        let moved_p = if p < at {
            p
        } else {
            p + 1
        };
        let moved_q = if q < at {
            q
        } else {
            q + 1
        };
        assert(out[moved_p] == s[i] && out[moved_q] == s[j]);
    }
}

/// Entries of the same name are the same entry, as in every listing of a
/// directory.
pub open spec fn told_apart_by_name(s: Seq<EntryView>) -> bool {
    forall|i: int, j: int|
        0 <= i < s.len() && 0 <= j < s.len() && s[i].name == s[j].name ==> s[i] == s[j]
}

/// There is one way only to put entries in the order of their names, where
/// the names tell them apart.
pub proof fn lemma_name_order_is_unique(a: Seq<EntryView>, b: Seq<EntryView>)
    requires
        in_name_order(a),
        in_name_order(b),
        told_apart_by_name(a),
        a.to_multiset() == b.to_multiset(),
    ensures
        a == b,
    decreases a.len(),
{
    vstd::seq_lib::to_multiset_len(a);
    vstd::seq_lib::to_multiset_len(b);
    if a.len() > 0 {
        vstd::seq_lib::to_multiset_contains(a, b[0]);
        vstd::seq_lib::to_multiset_contains(b, b[0]);
        vstd::seq_lib::to_multiset_contains(a, a[0]);
        vstd::seq_lib::to_multiset_contains(b, a[0]);
        let k = choose|k: int| 0 <= k < a.len() && a[k] == b[0];
        let m = choose|m: int| 0 <= m < b.len() && b[m] == a[0];
        if k > 0 && m > 0 {
            lemma_name_before_total(a[0].name, a[k].name);
        }
        assert(a[0] == b[0]);
        let a_rest = a.drop_first();
        let b_rest = b.drop_first();
        vstd::seq_lib::to_multiset_remove(a, 0);
        vstd::seq_lib::to_multiset_remove(b, 0);
        assert(in_name_order(a_rest)) by {
            assert forall|i: int, j: int| 0 <= i < j < a_rest.len() implies !name_before(
                a_rest[j].name,
                a_rest[i].name,
            ) by {
                assert(a_rest[i] == a[i + 1] && a_rest[j] == a[j + 1]);
            }
        }
        assert(in_name_order(b_rest)) by {
            assert forall|i: int, j: int| 0 <= i < j < b_rest.len() implies !name_before(
                b_rest[j].name,
                b_rest[i].name,
            ) by {
                assert(b_rest[i] == b[i + 1] && b_rest[j] == b[j + 1]);
            }
        }
        assert(told_apart_by_name(a_rest)) by {
            assert forall|i: int, j: int|
                0 <= i < a_rest.len() && 0 <= j < a_rest.len() && a_rest[i].name
                    == a_rest[j].name implies a_rest[i] == a_rest[j] by {
                assert(a_rest[i] == a[i + 1] && a_rest[j] == a[j + 1]);
            }
        }
        lemma_name_order_is_unique(a_rest, b_rest);
        assert(a == seq![a[0]] + a_rest);
    }
}

/// The order in which the system lists a directory makes no difference to
/// the order in which its entries are shown.
pub proof fn lemma_sort_ignores_listing_order(a: Seq<EntryView>, b: Seq<EntryView>)
    requires
        told_apart_by_name(a),
        a.to_multiset() == b.to_multiset(),
    ensures
        sort_listing(a) == sort_listing(b),
{
    let x = sort_listing(a);
    let y = sort_listing(b);
    lemma_sort_permutes(a);
    lemma_sort_permutes(b);
    lemma_sort_orders(a);
    lemma_sort_orders(b);
    assert forall|i: int, j: int|
        0 <= i < x.len() && 0 <= j < x.len() && x[i].name == x[j].name implies x[i] == x[j] by {
        vstd::seq_lib::to_multiset_contains(x, x[i]);
        vstd::seq_lib::to_multiset_contains(a, x[i]);
        vstd::seq_lib::to_multiset_contains(x, x[j]);
        vstd::seq_lib::to_multiset_contains(a, x[j]);
        let p = choose|p: int| 0 <= p < a.len() && a[p] == x[i];
        let q = choose|q: int| 0 <= q < a.len() && a[q] == x[j];
        assert(a[p] == a[q]);
    }
    lemma_name_order_is_unique(x, y);
}

/// Two sequences run together by name: the one whose first item sorts
/// strictly before the other's gives its first item, and on a tie `left` does.
pub open spec fn merge_by_name(left: Seq<EntryView>, right: Seq<EntryView>) -> Seq<EntryView>
    decreases left.len() + right.len(),
{
    if left.len() == 0 {
        right
    } else if right.len() == 0 {
        left
    } else if name_before(right[0].name, left[0].name) {
        seq![right[0]] + merge_by_name(left, right.drop_first())
    } else {
        seq![left[0]] + merge_by_name(left.drop_first(), right)
    }
}

/// Placing goes past the first entry if that sorts before the item, and
/// else puts the item first.
proof fn lemma_place_unfolds(s: Seq<EntryView>, item: EntryView)
    ensures
        place(s, item) == if s.len() > 0 && name_before(s[0].name, item.name) {
            seq![s[0]] + place(s.drop_first(), item)
        } else {
            seq![item] + s
        },
{
    if s.len() > 0 && name_before(s[0].name, item.name) {
        let t = s.drop_first();
        lemma_rank_bounds(t, item.name);
        assert(s.insert(1 + rank(t, item.name) as int, item) == seq![s[0]] + t.insert(
            rank(t, item.name) as int,
            item,
        ));
    } else {
        assert(s.insert(0, item) == seq![item] + s);
    }
}

/// Placing an item into the left of two sequences and running them
/// together is the same as running them together and placing it then.
proof fn lemma_place_into_merge(left: Seq<EntryView>, right: Seq<EntryView>, item: EntryView)
    ensures
        merge_by_name(place(left, item), right) == place(merge_by_name(left, right), item),
    decreases left.len() + right.len(),
{
    let name = encode_utf8(item.name);
    let placed = place(left, item);
    let merged = merge_by_name(left, right);
    lemma_place_unfolds(left, item);
    lemma_place_unfolds(merged, item);
    if right.len() > 0 && left.len() == 0 {
        if name_before(right[0].name, item.name) {
            lemma_place_into_merge(left, right.drop_first(), item);
        } else {
            assert(placed.drop_first() == left);
        }
    } else if right.len() > 0 {
        let l = encode_utf8(left[0].name);
        let r = encode_utf8(right[0].name);
        if name_before(right[0].name, left[0].name) {
            let rest = right.drop_first();
            assert(merged.drop_first() == merge_by_name(left, rest));
            if name_before(right[0].name, item.name) {
                lemma_place_into_merge(left, rest, item);
            } else {
                if name_before(left[0].name, item.name) {
                    lemma_bytes_before_transitive(r, l, name);
                }
                assert(placed.drop_first() == left);
            }
        } else {
            let rest = left.drop_first();
            assert(merged.drop_first() == merge_by_name(rest, right));
            if name_before(left[0].name, item.name) {
                lemma_place_into_merge(rest, right, item);
                assert(placed.drop_first() == place(rest, item));
            } else {
                lemma_bytes_not_before_transitive(name, l, r);
                assert(placed.drop_first() == left);
            }
        }
    }
}

/// Sorting two sequences and running them together sorts the two laid end
/// to end.
pub proof fn lemma_merge_of_sorted(left: Seq<EntryView>, right: Seq<EntryView>)
    ensures
        merge_by_name(sort_listing(left), sort_listing(right)) == sort_listing(left + right),
    decreases left.len(),
{
    if left.len() > 0 {
        let rest = left.drop_first();
        lemma_merge_of_sorted(rest, right);
        lemma_place_into_merge(sort_listing(rest), sort_listing(right), left[0]);
        assert((left + right).drop_first() == rest + right);
    } else {
        assert(left + right == right);
    }
}

/// Moves the entries into a new vector, the last one first.
fn reversed(entries: Vec<DirectoryEntry>) -> (turned: Vec<DirectoryEntry>)
    ensures
        turned@ == entries@.reverse(),
{
    let ghost all = entries@;
    let mut rest = entries;
    let mut turned: Vec<DirectoryEntry> = Vec::new();
    while rest.len() > 0
        invariant
            rest@ == all.take(rest@.len() as int),
            rest@.len() <= all.len(),
            turned@ == all.skip(rest@.len() as int).reverse(),
        decreases rest@.len(),
    {
        let entry = rest.pop().unwrap();
        turned.push(entry);
    }
    assert(all.skip(0) == all);
    turned
}

/// The view of a vector read from its end: its first entry is the
/// vector's last, and the rest is the view of what is left when that one is
/// taken off.
proof fn lemma_view_from_the_end(entries: Seq<DirectoryEntry>)
    requires
        entries.len() > 0,
    ensures
        listing_view(entries).reverse()[0] == entries.last()@,
        listing_view(entries).reverse().drop_first() == listing_view(entries.drop_last()).reverse(),
{
}

/// What running two sequences together begins with.
proof fn lemma_merge_unfolds(left: Seq<EntryView>, right: Seq<EntryView>)
    requires
        left.len() > 0 || right.len() > 0,
    ensures
        merge_by_name(left, right) == if left.len() == 0 || (right.len() > 0 && name_before(
            right[0].name,
            left[0].name,
        )) {
            seq![right[0]] + merge_by_name(left, right.drop_first())
        } else {
            seq![left[0]] + merge_by_name(left.drop_first(), right)
        },
{
    if left.len() == 0 {
        assert(right == seq![right[0]] + right.drop_first());
    } else if right.len() == 0 {
        assert(left == seq![left[0]] + left.drop_first());
    }
}

/// Runs two listings together by name.
fn merge(left: Vec<DirectoryEntry>, right: Vec<DirectoryEntry>) -> (merged: Vec<DirectoryEntry>)
    ensures
        listing_view(merged@) == merge_by_name(listing_view(left@), listing_view(right@)),
{
    let ghost goal = merge_by_name(listing_view(left@), listing_view(right@));
    proof {
        assert(listing_view(left@.reverse()).reverse() == listing_view(left@));
        assert(listing_view(right@.reverse()).reverse() == listing_view(right@));
    }
    let mut left = reversed(left);
    let mut right = reversed(right);
    let mut merged: Vec<DirectoryEntry> = Vec::new();
    assert(listing_view(merged@) + goal == goal);
    while left.len() > 0 || right.len() > 0
        invariant
            listing_view(merged@) + merge_by_name(
                listing_view(left@).reverse(),
                listing_view(right@).reverse(),
            ) == goal,
        decreases left@.len() + right@.len(),
    {
        let ghost heads = listing_view(left@).reverse();
        let ghost tails = listing_view(right@).reverse();
        let ghost done = listing_view(merged@);
        proof {
            lemma_merge_unfolds(heads, tails);
            if left@.len() > 0 {
                lemma_view_from_the_end(left@);
            }
            if right@.len() > 0 {
                lemma_view_from_the_end(right@);
            }
        }
        let from_right = if left.len() == 0 {
            true
        } else if right.len() == 0 {
            false
        } else {
            name_lt(right[right.len() - 1].name.as_str(), left[left.len() - 1].name.as_str())
        };
        let entry = if from_right {
            right.pop().unwrap()
        } else {
            left.pop().unwrap()
        };
        let ghost rest = merge_by_name(
            listing_view(left@).reverse(),
            listing_view(right@).reverse(),
        );
        assert(merge_by_name(heads, tails) == seq![entry@] + rest);
        merged.push(entry);
        assert(listing_view(merged@) == done.push(entry@));
        assert(done.push(entry@) + rest == done + (seq![entry@] + rest));
    }
    assert(listing_view(merged@) + Seq::<EntryView>::empty() == listing_view(merged@));
    merged
}

/// Puts a listing into display order.
pub fn sort_entries(entries: Vec<DirectoryEntry>) -> (sorted: Vec<DirectoryEntry>)
    ensures
        listing_view(sorted@) == sort_listing(listing_view(entries@)),
    decreases entries@.len(),
{
    let ghost all = listing_view(entries@);
    let mut left = entries;
    if left.len() < 2 {
        assert(all.len() == 1 ==> sort_listing(all.drop_first()) == Seq::<EntryView>::empty());
        return left;
    }
    let right = left.split_off(left.len() / 2);
    proof {
        lemma_merge_of_sorted(listing_view(left@), listing_view(right@));
        assert(listing_view(left@) + listing_view(right@) == all);
    }
    merge(sort_entries(left), sort_entries(right))
}

} // verus!
