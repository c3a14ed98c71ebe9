//! The order in which candidates are listed: largest first, then by path.

use vstd::prelude::*;
use vstd::relations::*;
use vstd::seq_lib::*;

use crate::candidate;
use crate::candidate::Candidate;
use crate::path;
use crate::path::{Component, Relation};

verus! {

/// Whether `left` is listed before `right`: it is larger, or as large and its
/// path comes first.
pub open spec fn listed_before(left: candidate::Entry, right: candidate::Entry) -> bool {
    left.size > right.size || (left.size == right.size && path::parts_before(
        path::parts(left.path),
        path::parts(right.path),
    ))
}

/// `order` with `index` put behind everything that it is not listed before.
pub open spec fn placed(all: Seq<candidate::Entry>, order: Seq<int>, index: int) -> Seq<int>
    decreases order.len(),
{
    if order.len() == 0 || !listed_before(all[index], all[order.last()]) {
        order.push(index)
    } else {
        placed(all, order.drop_last(), index).push(order.last())
    }
}

/// The positions below `count` in the order of the listing; among equals the
/// one that came first stays first.
pub open spec fn listing_order(all: Seq<candidate::Entry>, count: int) -> Seq<int>
    decreases count,
{
    if count <= 0 {
        Seq::empty()
    } else {
        placed(all, listing_order(all, count - 1), count - 1)
    }
}

/// The entries in the order of the listing.
pub open spec fn listing(all: Seq<candidate::Entry>) -> Seq<candidate::Entry> {
    candidate::picked(all, listing_order(all, all.len() as int))
}

// --------------------------------------------------------- the order is total

/// Whether position `i` goes before position `j`, or is the same.
spec fn index_leq(all: Seq<candidate::Entry>, i: int, j: int) -> bool {
    ||| i == j
    ||| listed_before(all[i], all[j])
    ||| !listed_before(all[j], all[i]) && i < j
}

spec fn index_order(all: Seq<candidate::Entry>) -> spec_fn(int, int) -> bool {
    |i: int, j: int| index_leq(all, i, j)
}

/// Nothing is listed before itself or before what is listed before it.
pub proof fn law_listing_is_an_order(left: candidate::Entry, right: candidate::Entry)
    ensures
        !listed_before(left, left),
        !(listed_before(left, right) && listed_before(right, left)),
        !listed_before(left, right) && !listed_before(right, left) ==> left.size == right.size
            && path::parts(left.path) == path::parts(right.path),
{
    path::law_path_order_is_total(path::parts(left.path), path::parts(right.path));
}

proof fn lemma_listed_transitive(a: candidate::Entry, b: candidate::Entry, c: candidate::Entry)
    ensures
        listed_before(a, b) && listed_before(b, c) ==> listed_before(a, c),
        listed_before(a, b) && !listed_before(c, b) ==> listed_before(a, c),
        !listed_before(b, a) && listed_before(b, c) ==> listed_before(a, c),
        !listed_before(b, a) && !listed_before(c, b) ==> !listed_before(c, a),
{
    law_listing_is_an_order(a, b);
    law_listing_is_an_order(b, c);
    law_listing_is_an_order(a, c);
    let (x, y, z) = (path::parts(a.path), path::parts(b.path), path::parts(c.path));
    if path::parts_before(x, y) && path::parts_before(y, z) {
        path::law_path_order_is_transitive(x, y, z);
    }
    path::law_path_order_is_total(x, y);
    path::law_path_order_is_total(y, z);
    path::law_path_order_is_total(x, z);
}

proof fn lemma_index_order_total(all: Seq<candidate::Entry>)
    ensures
        total_ordering(index_order(all)),
{
    let leq = index_order(all);
    assert forall|i: int, j: int| #[trigger] leq(i, j) && #[trigger] leq(j, i) implies i == j by {
        law_listing_is_an_order(all[i], all[j]);
    }
    assert forall|i: int, j: int, k: int| #[trigger]
        leq(i, j) && #[trigger] leq(j, k) implies leq(i, k) by {
        lemma_listed_transitive(all[i], all[j], all[k]);
        law_listing_is_an_order(all[i], all[j]);
        law_listing_is_an_order(all[j], all[k]);
        law_listing_is_an_order(all[i], all[k]);
    }
    assert forall|i: int, j: int| #[trigger] leq(i, j) || #[trigger] leq(j, i) by {
        law_listing_is_an_order(all[i], all[j]);
    }
}

/// The positions below `count`.
spec fn positions(count: int) -> Seq<int> {
    Seq::new(count as nat, |i: int| i)
}

proof fn lemma_placed(all: Seq<candidate::Entry>, order: Seq<int>, index: int)
    requires
        sorted_by(order, index_order(all)),
        forall|k: int| 0 <= k < order.len() ==> #[trigger] order[k] < index,
    ensures
        sorted_by(placed(all, order, index), index_order(all)),
        placed(all, order, index).to_multiset() == order.to_multiset().insert(index),
        placed(all, order, index).len() == order.len() + 1,
        forall|k: int|
            0 <= k < placed(all, order, index).len() ==> (#[trigger] placed(all, order, index)[k]
                == index || order.contains(placed(all, order, index)[k])),
    decreases order.len(),
{
    broadcast use vstd::multiset::group_multiset_axioms;
    broadcast use group_to_multiset_ensures;

    let leq = index_order(all);
    let result = placed(all, order, index);
    if order.len() == 0 || !listed_before(all[index], all[order.last()]) {
        to_multiset_build(order, index);
        assert forall|i: int, j: int| 0 <= i < j < result.len() implies #[trigger] leq(
            result[i],
            result[j],
        ) by {
            if j == order.len() {
                assert(leq(order.last(), index));
                if i < order.len() - 1 {
                    assert(leq(order[i], order[order.len() - 1]));
                    lemma_index_order_total(all);
                    assert(leq(order[i], order.last()) && leq(order.last(), index));
                }
            } else {
                assert(leq(order[i], order[j]));
            }
        }
        assert forall|k: int| 0 <= k < result.len() implies (#[trigger] result[k] == index
            || order.contains(result[k])) by {
            if k < order.len() {
                assert(order[k] == result[k]);
            }
        }
    } else {
        let shorter = order.drop_last();
        assert forall|i: int, j: int| 0 <= i < j < shorter.len() implies #[trigger] leq(
            shorter[i],
            shorter[j],
        ) by {
            assert(leq(order[i], order[j]));
        }
        lemma_placed(all, shorter, index);
        let inner = placed(all, shorter, index);
        to_multiset_build(inner, order.last());
        to_multiset_build(shorter, order.last());
        assert(shorter.push(order.last()) =~= order);
        assert(result.to_multiset() =~= order.to_multiset().insert(index));
        assert forall|i: int, j: int| 0 <= i < j < result.len() implies #[trigger] leq(
            result[i],
            result[j],
        ) by {
            if j < inner.len() {
                assert(leq(inner[i], inner[j]));
            } else {
                assert(inner[i] == index || shorter.contains(inner[i]));
                if inner[i] != index {
                    let k = choose|k: int| 0 <= k < shorter.len() && shorter[k] == inner[i];
                    assert(leq(order[k], order[order.len() - 1]));
                }
            }
        }
        assert forall|k: int| 0 <= k < result.len() implies (#[trigger] result[k] == index
            || order.contains(result[k])) by {
            if k < inner.len() {
                assert(inner[k] == index || shorter.contains(inner[k]));
                if inner[k] != index {
                    let m = choose|m: int| 0 <= m < shorter.len() && shorter[m] == inner[k];
                    assert(order[m] == inner[k]);
                }
            } else {
                assert(order[order.len() - 1] == result[k]);
            }
        }
    }
}

proof fn lemma_listing_order(all: Seq<candidate::Entry>, count: int)
    requires
        0 <= count,
    ensures
        sorted_by(listing_order(all, count), index_order(all)),
        listing_order(all, count).to_multiset() == positions(count).to_multiset(),
        listing_order(all, count).len() == count,
        forall|k: int|
            0 <= k < listing_order(all, count).len() ==> 0 <= #[trigger] listing_order(all, count)[k]
                < count,
    decreases count,
{
    if count > 0 {
        lemma_listing_order(all, count - 1);
        let order = listing_order(all, count - 1);
        lemma_placed(all, order, count - 1);
        to_multiset_build(positions(count - 1), count - 1);
        assert(positions(count - 1).push(count - 1) =~= positions(count));
        let result = listing_order(all, count);
        assert forall|k: int| 0 <= k < result.len() implies 0 <= #[trigger] result[k] < count by {
            assert(result[k] == count - 1 || order.contains(result[k]));
        }
    } else {
        assert(listing_order(all, count) =~= positions(count));
    }
}

/// The listing runs from the largest to the smallest, and entries of the same
/// size are in the order of their paths.
pub proof fn law_listing_is_sorted(all: Seq<candidate::Entry>)
    ensures
        listing(all).len() == all.len(),
        forall|i: int, j: int|
            0 <= i < j < listing(all).len() ==> !listed_before(
                #[trigger] listing(all)[j],
                #[trigger] listing(all)[i],
            ),
        forall|i: int, j: int|
            0 <= i < j < listing(all).len() ==> (#[trigger] listing(all)[i]).size >= (
            #[trigger] listing(all)[j]).size,
{
    let order = listing_order(all, all.len() as int);
    let leq = index_order(all);
    lemma_listing_order(all, all.len() as int);
    assert forall|i: int, j: int| 0 <= i < j < listing(all).len() implies !listed_before(
        #[trigger] listing(all)[j],
        #[trigger] listing(all)[i],
    ) by {
        assert(leq(order[i], order[j]));
        law_listing_is_an_order(all[order[i]], all[order[j]]);
    }
    assert forall|i: int, j: int| 0 <= i < j < listing(all).len() implies (
    #[trigger] listing(all)[i]).size >= (#[trigger] listing(all)[j]).size by {
        assert(leq(order[i], order[j]));
        law_listing_is_an_order(all[order[i]], all[order[j]]);
    }
}

proof fn lemma_picked_placed(all: Seq<candidate::Entry>, order: Seq<int>, index: int)
    ensures
        candidate::picked(all, placed(all, order, index)).to_multiset() == candidate::picked(
            all,
            order,
        ).to_multiset().insert(all[index]),
    decreases order.len(),
{
    broadcast use vstd::multiset::group_multiset_axioms;

    if order.len() == 0 || !listed_before(all[index], all[order.last()]) {
        assert(candidate::picked(all, order.push(index)) =~= candidate::picked(all, order).push(
            all[index],
        ));
        to_multiset_build(candidate::picked(all, order), all[index]);
    } else {
        let shorter = order.drop_last();
        lemma_picked_placed(all, shorter, index);
        let inner = placed(all, shorter, index);
        let last = all[order.last()];
        assert(candidate::picked(all, inner.push(order.last())) =~= candidate::picked(
            all,
            inner,
        ).push(last));
        assert(candidate::picked(all, order) =~= candidate::picked(all, shorter).push(last));
        to_multiset_build(candidate::picked(all, inner), last);
        to_multiset_build(candidate::picked(all, shorter), last);
        assert(candidate::picked(all, placed(all, order, index)).to_multiset()
            =~= candidate::picked(all, order).to_multiset().insert(all[index]));
    }
}

proof fn lemma_listing_keeps(all: Seq<candidate::Entry>, count: int)
    requires
        0 <= count <= all.len(),
    ensures
        candidate::picked(all, listing_order(all, count)).to_multiset() == all.take(
            count,
        ).to_multiset(),
    decreases count,
{
    if count > 0 {
        lemma_listing_keeps(all, count - 1);
        lemma_picked_placed(all, listing_order(all, count - 1), count - 1);
        assert(all.take(count) =~= all.take(count - 1).push(all[count - 1]));
        to_multiset_build(all.take(count - 1), all[count - 1]);
    } else {
        assert(candidate::picked(all, listing_order(all, count)) =~= all.take(count));
    }
}

/// The listing holds the same entries, each as often as before.
pub proof fn law_listing_keeps_every_entry(all: Seq<candidate::Entry>)
    ensures
        listing(all).to_multiset() == all.to_multiset(),
{
    lemma_listing_keeps(all, all.len() as int);
    assert(all.take(all.len() as int) =~= all);
}

/// Whether each entry is listed before all that follow it.
pub open spec fn is_strictly_listed(all: Seq<candidate::Entry>) -> bool {
    forall|i: int, j: int|
        0 <= i < j < all.len() ==> listed_before(#[trigger] all[i], #[trigger] all[j])
}

/// Among entries of different paths, each one of the listing is listed before
/// all that follow it, and each path is there once.
pub proof fn law_listing_is_strict(all: Seq<candidate::Entry>)
    requires
        candidate::has_distinct_paths(all),
    ensures
        is_strictly_listed(listing(all)),
        candidate::has_distinct_paths(listing(all)),
{
    let count = all.len() as int;
    let order = listing_order(all, count);
    lemma_listing_order(all, count);
    law_listing_is_sorted(all);
    positions(count).lemma_multiset_has_no_duplicates();
    order.lemma_multiset_has_no_duplicates_conv();
    assert forall|i: int, j: int| 0 <= i < j < listing(all).len() implies listed_before(
        #[trigger] listing(all)[i],
        #[trigger] listing(all)[j],
    ) && path::parts(listing(all)[i].path) != path::parts(listing(all)[j].path) by {
        assert(order[i] != order[j]);
        law_listing_is_an_order(all[order[i]], all[order[j]]);
    }
}

/// Entries in strict order are determined by which ones they are.
pub proof fn law_strict_order_determines_the_listing(
    left: Seq<candidate::Entry>,
    right: Seq<candidate::Entry>,
)
    requires
        is_strictly_listed(left),
        is_strictly_listed(right),
        forall|entry: candidate::Entry| left.contains(entry) <==> right.contains(entry),
    ensures
        left == right,
    decreases left.len(),
{
    if left.len() == 0 {
        if right.len() > 0 {
            assert(right.contains(right[0]));
        }
        assert(left =~= right);
    } else {
        assert(left.contains(left[0]));
        let k = choose|k: int| 0 <= k < right.len() && right[k] == left[0];
        assert(right.contains(right[0]));
        let m = choose|m: int| 0 <= m < left.len() && left[m] == right[0];
        law_listing_is_an_order(left[0], right[0]);
        if k > 0 {
            assert(listed_before(right[0], right[k]));
            if m > 0 {
                assert(listed_before(left[0], left[m]));
            }
        }
        assert(left[0] == right[0]);
        let l = left.drop_first();
        let r = right.drop_first();
        assert forall|entry: candidate::Entry| l.contains(entry) <==> r.contains(entry) by {
            lemma_rest_holds(left, right, entry);
            lemma_rest_holds(right, left, entry);
        }
        assert(is_strictly_listed(l)) by {
            assert forall|i: int, j: int| 0 <= i < j < l.len() implies listed_before(
                #[trigger] l[i],
                #[trigger] l[j],
            ) by {
                assert(listed_before(left[i + 1], left[j + 1]));
            }
        }
        assert(is_strictly_listed(r)) by {
            assert forall|i: int, j: int| 0 <= i < j < r.len() implies listed_before(
                #[trigger] r[i],
                #[trigger] r[j],
            ) by {
                assert(listed_before(right[i + 1], right[j + 1]));
            }
        }
        law_strict_order_determines_the_listing(l, r);
        assert(left =~= seq![left[0]] + l);
        assert(right =~= seq![right[0]] + r);
    }
}

/// What the rest of one list holds, the rest of the other holds.
proof fn lemma_rest_holds(
    left: Seq<candidate::Entry>,
    right: Seq<candidate::Entry>,
    entry: candidate::Entry,
)
    requires
        left.len() > 0,
        right.len() > 0,
        left[0] == right[0],
        is_strictly_listed(left),
        left.contains(entry) ==> right.contains(entry),
    ensures
        left.drop_first().contains(entry) ==> right.drop_first().contains(entry),
{
    if left.drop_first().contains(entry) {
        let k = choose|k: int| 0 <= k < left.len() - 1 && left.drop_first()[k] == entry;
        assert(left[k + 1] == entry);
        assert(listed_before(left[0], left[k + 1]));
        law_listing_is_an_order(left[0], entry);
        let m = choose|m: int| 0 <= m < right.len() && right[m] == entry;
        assert(m > 0);
        assert(right.drop_first()[m - 1] == entry);
    }
}

proof fn lemma_placed_total(all: Seq<candidate::Entry>, order: Seq<int>, index: int)
    ensures
        candidate::total_bytes(candidate::picked(all, placed(all, order, index)))
            == candidate::total_bytes(candidate::picked(all, order)) + all[index].size,
    decreases order.len(),
{
    if order.len() == 0 || !listed_before(all[index], all[order.last()]) {
        assert(candidate::picked(all, order.push(index)).drop_last() =~= candidate::picked(
            all,
            order,
        ));
    } else {
        let shorter = order.drop_last();
        let inner = placed(all, shorter, index);
        lemma_placed_total(all, shorter, index);
        assert(candidate::picked(all, inner.push(order.last())).drop_last() =~= candidate::picked(
            all,
            inner,
        ));
        assert(candidate::picked(all, order).drop_last() =~= candidate::picked(all, shorter));
    }
}

proof fn lemma_listing_total(all: Seq<candidate::Entry>, count: int)
    requires
        0 <= count <= all.len(),
    ensures
        candidate::total_bytes(candidate::picked(all, listing_order(all, count)))
            == candidate::total_bytes(all.take(count)),
    decreases count,
{
    if count > 0 {
        lemma_listing_total(all, count - 1);
        lemma_placed_total(all, listing_order(all, count - 1), count - 1);
        assert(all.take(count).drop_last() =~= all.take(count - 1));
    }
}

/// The listing takes as many bytes as what it lists.
pub proof fn law_listing_keeps_the_total(all: Seq<candidate::Entry>)
    ensures
        candidate::total_bytes(listing(all)) == candidate::total_bytes(all),
{
    lemma_listing_total(all, all.len() as int);
    assert(all.take(all.len() as int) =~= all);
}

// ---------------------------------------------------------------- computing

/// What a candidate is ordered by.
struct SortKey {
    size: u64,
    components: Vec<Component>,
}

impl SortKey {
    spec fn matches(&self, entry: candidate::Entry) -> bool {
        &&& self.size == entry.size
        &&& path::views(self.components@) == path::parts(entry.path)
    }
}

/// Whether the keys belong to the entries.
spec fn keys_match(keys: Seq<SortKey>, all: Seq<candidate::Entry>) -> bool {
    &&& keys.len() == all.len()
    &&& forall|i: int| 0 <= i < keys.len() ==> (#[trigger] keys[i]).matches(all[i])
}

/// Whether the candidate at `i` goes before the one at `j`, where `i < j`
/// decides between equals.
fn goes_first(keys: &Vec<SortKey>, i: usize, j: usize, Ghost(all): Ghost<Seq<candidate::Entry>>) -> (
    first: bool)
    requires
        keys_match(keys@, all),
        i < keys@.len(),
        j < keys@.len(),
    ensures
        first == index_leq(all, i as int, j as int),
{
    let left: &SortKey = &keys[i];
    let right: &SortKey = &keys[j];
    assert(keys@[i as int].matches(all[i as int]));
    assert(keys@[j as int].matches(all[j as int]));
    proof {
        law_listing_is_an_order(all[i as int], all[j as int]);
        path::law_path_order_is_total(
            path::parts(all[i as int].path),
            path::parts(all[j as int].path),
        );
    }
    if left.size != right.size {
        left.size > right.size
    } else {
        match path::order_paths(&left.components, &right.components) {
            Relation::Before => true,
            Relation::Same => i <= j,
            Relation::After => false,
        }
    }
}

/// Positions as integers.
spec fn ints(order: Seq<usize>) -> Seq<int> {
    order.map_values(|i: usize| i as int)
}

/// Whether every position is one of `count`.
spec fn all_below(order: Seq<usize>, count: int) -> bool {
    forall|k: int| 0 <= k < order.len() ==> #[trigger] order[k] < count
}

proof fn lemma_ints_push(order: Seq<usize>, index: usize)
    ensures
        ints(order.push(index)) == ints(order).push(index as int),
        ints(order.push(index)).to_multiset() == ints(order).to_multiset().insert(index as int),
{
    assert(ints(order.push(index)) =~= ints(order).push(index as int));
    to_multiset_build(ints(order), index as int);
}

/// Merges two ordered lists of positions.
fn merge(
    keys: &Vec<SortKey>,
    left: &Vec<usize>,
    right: &Vec<usize>,
    Ghost(all): Ghost<Seq<candidate::Entry>>,
) -> (merged: Vec<usize>)
    requires
        keys_match(keys@, all),
        all_below(left@, keys@.len() as int),
        all_below(right@, keys@.len() as int),
        sorted_by(ints(left@), index_order(all)),
        sorted_by(ints(right@), index_order(all)),
    ensures
        all_below(merged@, keys@.len() as int),
        sorted_by(ints(merged@), index_order(all)),
        ints(merged@).to_multiset() == ints(left@).to_multiset().add(ints(right@).to_multiset()),
{
    broadcast use vstd::multiset::group_multiset_axioms;

    let ghost leq = index_order(all);
    let mut merged: Vec<usize> = Vec::new();
    let mut i: usize = 0;
    let mut j: usize = 0;
    proof {
        lemma_index_order_total(all);
        assert(ints(merged@).to_multiset() =~= ints(left@.take(0)).to_multiset().add(
            ints(right@.take(0)).to_multiset(),
        )) by {
            assert(ints(merged@) =~= Seq::<int>::empty());
            assert(ints(left@.take(0)) =~= Seq::<int>::empty());
            assert(ints(right@.take(0)) =~= Seq::<int>::empty());
            broadcast use group_to_multiset_ensures;

        }
    }
    while i < left.len() || j < right.len()
        invariant
            keys_match(keys@, all),
            leq == index_order(all),
            total_ordering(leq),
            all_below(left@, keys@.len() as int),
            all_below(right@, keys@.len() as int),
            all_below(merged@, keys@.len() as int),
            sorted_by(ints(left@), leq),
            sorted_by(ints(right@), leq),
            sorted_by(ints(merged@), leq),
            i <= left@.len(),
            j <= right@.len(),
            forall|m: int, k: int|
                0 <= m < merged@.len() && i <= k < left@.len() ==> leq(
                    #[trigger] merged@[m] as int,
                    #[trigger] left@[k] as int,
                ),
            forall|m: int, k: int|
                0 <= m < merged@.len() && j <= k < right@.len() ==> leq(
                    #[trigger] merged@[m] as int,
                    #[trigger] right@[k] as int,
                ),
            ints(merged@).to_multiset() == ints(left@.take(i as int)).to_multiset().add(
                ints(right@.take(j as int)).to_multiset(),
            ),
        decreases left@.len() - i + right@.len() - j,
    {
        let ghost before = merged@;
        let take_left: bool = if i == left.len() {
            false
        } else if j == right.len() {
            true
        } else {
            goes_first(keys, left[i], right[j], Ghost(all))
        };
        let next: usize = if take_left {
            left[i]
        } else {
            right[j]
        };
        proof {
            if i < left@.len() && j < right@.len() {
                assert(leq(left@[i as int] as int, right@[j as int] as int) || leq(
                    right@[j as int] as int,
                    left@[i as int] as int,
                ));
            }
            assert forall|k: int| i <= k < left@.len() implies leq(
                next as int,
                #[trigger] left@[k] as int,
            ) by {
                assert(leq(next as int, left@[i as int] as int));
                if i < k {
                    assert(leq(ints(left@)[i as int], ints(left@)[k]));
                    assert(leq(left@[i as int] as int, left@[k] as int));
                }
            }
            assert forall|k: int| j <= k < right@.len() implies leq(
                next as int,
                #[trigger] right@[k] as int,
            ) by {
                assert(leq(next as int, right@[j as int] as int));
                if j < k {
                    assert(leq(ints(right@)[j as int], ints(right@)[k]));
                    assert(leq(right@[j as int] as int, right@[k] as int));
                }
            }
            lemma_ints_push(before, next);
            if take_left {
                assert(left@.take(i + 1) =~= left@.take(i as int).push(next));
                lemma_ints_push(left@.take(i as int), next);
            } else {
                assert(right@.take(j + 1) =~= right@.take(j as int).push(next));
                lemma_ints_push(right@.take(j as int), next);
            }
        }
        merged.push(next);
        if take_left {
            i = i + 1;
        } else {
            j = j + 1;
        }
        proof {
            assert(ints(merged@).to_multiset() =~= ints(left@.take(i as int)).to_multiset().add(
                ints(right@.take(j as int)).to_multiset(),
            ));
            assert forall|a: int, b: int| 0 <= a < b < ints(merged@).len() implies #[trigger] leq(
                ints(merged@)[a],
                ints(merged@)[b],
            ) by {
                if b < before.len() {
                    assert(leq(ints(before)[a], ints(before)[b]));
                } else {
                    assert(leq(before[a] as int, next as int));
                }
            }
        }
    }
    assert(left@.take(left@.len() as int) =~= left@);
    assert(right@.take(right@.len() as int) =~= right@);
    merged
}

/// The positions from `start` up to `end` in the order of the listing.
fn sort_positions(
    keys: &Vec<SortKey>,
    start: usize,
    end: usize,
    Ghost(all): Ghost<Seq<candidate::Entry>>,
) -> (order: Vec<usize>)
    requires
        keys_match(keys@, all),
        start <= end <= keys@.len(),
    ensures
        all_below(order@, keys@.len() as int),
        sorted_by(ints(order@), index_order(all)),
        ints(order@).to_multiset() == Seq::new(
            (end - start) as nat,
            |i: int| start + i,
        ).to_multiset(),
    decreases end - start,
{
    if end - start <= 1 {
        let mut order: Vec<usize> = Vec::new();
        if start < end {
            order.push(start);
        }
        assert(ints(order@) =~= Seq::new((end - start) as nat, |i: int| start + i));
        return order;
    }
    let middle: usize = start + (end - start) / 2;
    let left: Vec<usize> = sort_positions(keys, start, middle, Ghost(all));
    let right: Vec<usize> = sort_positions(keys, middle, end, Ghost(all));
    let order: Vec<usize> = merge(keys, &left, &right, Ghost(all));
    proof {
        let low = Seq::new((middle - start) as nat, |i: int| start + i);
        let high = Seq::new((end - middle) as nat, |i: int| middle + i);
        assert(low + high =~= Seq::new((end - start) as nat, |i: int| start + i));
        lemma_multiset_commutative(low, high);
    }
    order
}

/// Sorts candidates for display: largest first, then by path, and among equals
/// in the order in which they came.
pub fn sort_candidates(candidates: &Vec<Candidate>) -> (sorted: Vec<Candidate>)
    ensures
        candidate::entries(sorted@) == listing(candidate::entries(candidates@)),
{
    let ghost all = candidate::entries(candidates@);
    let count: usize = candidates.len();
    let mut keys: Vec<SortKey> = Vec::new();
    for i in 0..count
        invariant
            count == candidates@.len(),
            all == candidate::entries(candidates@),
            keys@.len() == i,
            forall|k: int| 0 <= k < i ==> (#[trigger] keys@[k]).matches(all[k]),
    {
        let key: SortKey = SortKey {
            size: candidates[i].size_bytes,
            components: path::components(&candidates[i].path),
        };
        assert(key.matches(all[i as int]));
        keys.push(key);
    }
    let order: Vec<usize> = sort_positions(&keys, 0, count, Ghost(all));
    proof {
        lemma_index_order_total(all);
        lemma_listing_order(all, count as int);
        assert(positions(count as int) =~= Seq::new((count - 0) as nat, |i: int| 0 + i));
        lemma_sorted_unique(ints(order@), listing_order(all, count as int), index_order(all));
    }
    let mut sorted: Vec<Candidate> = Vec::new();
    for k in 0..order.len()
        invariant
            count == candidates@.len(),
            count == keys@.len(),
            all == candidate::entries(candidates@),
            all_below(order@, keys@.len() as int),
            candidate::entries(sorted@) == candidate::picked(all, ints(order@).take(k as int)),
    {
        let index: usize = order[k];
        let ghost before = sorted@;
        sorted.push(candidates[index].clone());
        assert(candidate::entries(sorted@) =~= candidate::entries(before).push(all[index as int]));
        assert(candidate::entries(sorted@) =~= candidate::picked(all, ints(order@).take(k + 1)));
    }
    assert(candidate::entries(sorted@) == candidate::picked(all, ints(order@).take(order@.len() as int)));
    assert(ints(order@).take(order@.len() as int) =~= ints(order@));
    sorted
}

// -------------------------------------------------------------- repetitions

/// `all` without each entry that names the same path as the one kept before it.
pub open spec fn without_repeats(all: Seq<candidate::Entry>) -> Seq<candidate::Entry>
    decreases all.len(),
{
    if all.len() == 0 {
        Seq::empty()
    } else {
        let before = without_repeats(all.drop_last());
        if before.len() > 0 && path::parts(before.last().path) == path::parts(all.last().path) {
            before
        } else {
            before.push(all.last())
        }
    }
}

/// Drops each candidate that names the same path as its predecessor.
pub fn drop_repeats(candidates: Vec<Candidate>) -> (kept: Vec<Candidate>)
    ensures
        candidate::entries(kept@) == without_repeats(candidate::entries(candidates@)),
{
    let ghost all = candidate::entries(candidates@);
    let mut kept: Vec<Candidate> = Vec::new();
    assert(candidate::entries(kept@) =~= without_repeats(all.take(0)));
    for candidate in it: candidates
        invariant
            it.seq() == candidates@,
            all == candidate::entries(candidates@),
            candidate::entries(kept@) == without_repeats(all.take(it.index() as int)),
    {
        let ghost at = it.index() as int;
        let ghost before = kept@;
        assert(all[at] == candidate@);
        assert(all.take(at + 1).drop_last() =~= all.take(at));
        let count: usize = kept.len();
        let repeated: bool = count > 0 && path::same_path(&kept[count - 1].path, &candidate.path);
        proof {
            if count > 0 {
                assert(candidate::entries(before).last() == before.last()@);
            }
        }
        if !repeated {
            kept.push(candidate);
            assert(candidate::entries(kept@) =~= candidate::entries(before).push(all[at]));
        }
    }
    assert(all.take(all.len() as int) =~= all);
    kept
}

/// An entry that is left is one of all, and it names another path than the one
/// left before it.
pub proof fn law_what_is_left_was_there(all: Seq<candidate::Entry>, k: int)
    requires
        0 <= k < without_repeats(all).len(),
    ensures
        all.contains(without_repeats(all)[k]),
        k > 0 ==> path::parts(without_repeats(all)[k].path) != path::parts(
            without_repeats(all)[k - 1].path,
        ),
    decreases all.len(),
{
    let shorter = all.drop_last();
    let before = without_repeats(shorter);
    let after = without_repeats(all);
    if k < before.len() {
        law_what_is_left_was_there(shorter, k);
        assert(after[k] == before[k]);
        let i = choose|i: int| 0 <= i < shorter.len() && shorter[i] == before[k];
        assert(all[i] == after[k]);
    } else {
        assert(all[all.len() - 1] == after[k]);
    }
}

/// Every path that was there is left.
pub proof fn law_every_path_is_left(all: Seq<candidate::Entry>, i: int)
    requires
        0 <= i < all.len(),
    ensures
        exists|k: int|
            0 <= k < without_repeats(all).len() && path::parts(
                (#[trigger] without_repeats(all)[k]).path,
            ) == path::parts(all[i].path),
    decreases all.len(),
{
    let shorter = all.drop_last();
    let before = without_repeats(shorter);
    let after = without_repeats(all);
    if i < shorter.len() {
        law_every_path_is_left(shorter, i);
        let k = choose|k: int|
            0 <= k < before.len() && path::parts((#[trigger] before[k]).path) == path::parts(
                shorter[i].path,
            );
        assert(after[k] == before[k]);
    } else {
        assert(path::parts(after[after.len() - 1].path) == path::parts(all[i].path));
    }
}

/// Among entries from the largest to the smallest, what is left keeps that
/// order.
pub proof fn law_what_is_left_is_in_order(all: Seq<candidate::Entry>, i: int, j: int)
    requires
        forall|a: int, b: int|
            0 <= a < b < all.len() ==> (#[trigger] all[a]).size >= (#[trigger] all[b]).size,
        0 <= i < j < without_repeats(all).len(),
    ensures
        without_repeats(all)[i].size >= without_repeats(all)[j].size,
    decreases all.len(),
{
    let shorter = all.drop_last();
    let before = without_repeats(shorter);
    let after = without_repeats(all);
    assert(after[i] == before[i]);
    if j < before.len() {
        assert(after[j] == before[j]);
        law_what_is_left_is_in_order(shorter, i, j);
    } else {
        law_what_is_left_was_there(shorter, i);
        let k = choose|k: int| 0 <= k < shorter.len() && shorter[k] == before[i];
        assert(all[k] == after[i]);
        assert(all[all.len() - 1] == after[j]);
    }
}

proof fn lemma_left_is_sorted(all: Seq<candidate::Entry>, i: int, j: int)
    requires
        forall|a: int, b: int|
            0 <= a < b < all.len() ==> !listed_before(#[trigger] all[b], #[trigger] all[a]),
        0 <= i < j < without_repeats(all).len(),
    ensures
        !listed_before(without_repeats(all)[j], without_repeats(all)[i]),
    decreases all.len(),
{
    let shorter = all.drop_last();
    let before = without_repeats(shorter);
    let after = without_repeats(all);
    assert(after[i] == before[i]);
    if j < before.len() {
        assert(after[j] == before[j]);
        lemma_left_is_sorted(shorter, i, j);
    } else {
        law_what_is_left_was_there(shorter, i);
        let k = choose|k: int| 0 <= k < shorter.len() && shorter[k] == before[i];
        assert(all[k] == after[i]);
        assert(all[all.len() - 1] == after[j]);
    }
}

/// Among entries in the order of the listing, each one left is listed before
/// all that follow it.
pub proof fn law_what_is_left_is_strict(all: Seq<candidate::Entry>)
    requires
        forall|a: int, b: int|
            0 <= a < b < all.len() ==> !listed_before(#[trigger] all[b], #[trigger] all[a]),
    ensures
        is_strictly_listed(without_repeats(all)),
{
    let left = without_repeats(all);
    assert forall|i: int, j: int| 0 <= i < j < left.len() implies listed_before(
        #[trigger] left[i],
        #[trigger] left[j],
    ) by {
        lemma_left_is_sorted(all, i, i + 1);
        law_what_is_left_was_there(all, i + 1);
        law_listing_is_an_order(left[i], left[i + 1]);
        if i + 1 < j {
            lemma_left_is_sorted(all, i + 1, j);
            lemma_listed_transitive(left[i], left[i + 1], left[j]);
        }
    }
}

/// Larger entries come first, and entries of one size in the order of their
/// paths.
pub proof fn law_larger_entries_come_first(left: candidate::Entry, right: candidate::Entry)
    ensures
        left.size > right.size ==> listed_before(left, right) && !listed_before(right, left),
        left.size == right.size ==> listed_before(left, right) == path::parts_before(
            path::parts(left.path),
            path::parts(right.path),
        ),
{
}

/// The listing is a rearrangement of the entries, each unchanged and each once.
/// No entry stands behind one that is to be listed after it, and entries that
/// the order does not tell apart stay as they came.
pub proof fn law_listing_rearranges(all: Seq<candidate::Entry>)
    ensures
        exists|order: Seq<int>|
            {
                &&& order.len() == all.len()
                &&& #[trigger] order.no_duplicates()
                &&& listing(all).len() == all.len()
                &&& forall|k: int|
                    0 <= k < order.len() ==> 0 <= #[trigger] order[k] < all.len() && listing(all)[k]
                        == all[order[k]]
                &&& forall|i: int, j: int|
                    0 <= i < j < order.len() ==> listed_before(
                        all[#[trigger] order[i]],
                        all[#[trigger] order[j]],
                    ) || (!listed_before(all[order[j]], all[order[i]]) && order[i] < order[j])
            },
{
    let count = all.len() as int;
    let order = listing_order(all, count);
    let leq = index_order(all);
    lemma_listing_order(all, count);
    positions(count).lemma_multiset_has_no_duplicates();
    order.lemma_multiset_has_no_duplicates_conv();
    assert forall|i: int, j: int| 0 <= i < j < order.len() implies listed_before(
        all[#[trigger] order[i]],
        all[#[trigger] order[j]],
    ) || (!listed_before(all[order[j]], all[order[i]]) && order[i] < order[j]) by {
        assert(leq(order[i], order[j]));
        assert(order[i] != order[j]);
    }
    assert(order.no_duplicates());
}

proof fn lemma_last_kept(all: Seq<candidate::Entry>)
    requires
        all.len() > 0,
    ensures
        without_repeats(all).len() > 0,
        path::parts(without_repeats(all).last().path) == path::parts(all.last().path),
{
}

proof fn lemma_repeats_selection(all: Seq<candidate::Entry>) -> (at: Seq<int>)
    ensures
        candidate::is_selection(all, without_repeats(all), at),
        forall|i: int| #[trigger]
            at.contains(i) <==> 0 <= i < all.len() && (i == 0 || path::parts(all[i].path)
                != path::parts(all[i - 1].path)),
    decreases all.len(),
{
    if all.len() == 0 {
        Seq::empty()
    } else {
        let shorter = all.drop_last();
        let before = without_repeats(shorter);
        let at = lemma_repeats_selection(shorter);
        let taken = !(before.len() > 0 && path::parts(before.last().path) == path::parts(
            all.last().path,
        ));
        let longer = candidate::lemma_selection_grows(all, before, at, taken);
        if shorter.len() > 0 {
            lemma_last_kept(shorter);
            assert(shorter.last() == all[all.len() - 2]);
        }
        assert forall|i: int| #[trigger]
            longer.contains(i) <==> 0 <= i < all.len() && (i == 0 || path::parts(all[i].path)
                != path::parts(all[i - 1].path)) by {
            assert(longer.contains(i) <==> at.contains(i) || (taken && i == all.len() - 1));
            if 0 <= i < shorter.len() {
                assert(shorter[i] == all[i]);
                if i > 0 {
                    assert(shorter[i - 1] == all[i - 1]);
                }
            }
        }
        longer
    }
}

/// Dropping repeats keeps, unchanged and in order, just the entries that name
/// another path than the entry right before them.
pub proof fn law_dropping_repeats_selects(all: Seq<candidate::Entry>)
    ensures
        exists|at: Seq<int>| #[trigger]
            candidate::is_selection(all, without_repeats(all), at) && forall|i: int|
                0 <= i < all.len() ==> (#[trigger] at.contains(i) <==> i == 0 || path::parts(
                    all[i].path,
                ) != path::parts(all[i - 1].path)),
{
    let at = lemma_repeats_selection(all);
    assert(candidate::is_selection(all, without_repeats(all), at));
}

} // verus!
