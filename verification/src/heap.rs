//! The nearest candidates of a search: a bounded heap of distances and IDs.

use crate::float;
use crate::sort;
use vstd::prelude::*;
use vstd::seq_lib;

verus! {

/// The position among `i` and its children with the largest distance. A child
/// has to be larger to be preferred, the left one to the right one too.
pub open spec fn largest_of(h: Seq<(u32, i64)>, i: int) -> int {
    let left = 2 * i + 1;
    let right = 2 * i + 2;
    let first = if left < h.len() && float::below(h[i].0, h[left].0) {
        left
    } else {
        i
    };
    if right < h.len() && float::below(h[first].0, h[right].0) {
        right
    } else {
        first
    }
}

/// `h` with two items exchanged.
pub open spec fn exchanged(h: Seq<(u32, i64)>, i: int, j: int) -> Seq<(u32, i64)> {
    h.update(i, h[j]).update(j, h[i])
}

/// `h` after the item at `i` sank until no child was larger.
pub open spec fn sifted(h: Seq<(u32, i64)>, i: int) -> Seq<(u32, i64)>
    decreases h.len() - i,
{
    if 0 <= i < h.len() && largest_of(h, i) != i {
        sifted(exchanged(h, i, largest_of(h, i)), largest_of(h, i))
    } else {
        h
    }
}

/// `h` after the items at the first `n` positions sank, the last of them first.
pub open spec fn heapified(h: Seq<(u32, i64)>, n: nat) -> Seq<(u32, i64)>
    decreases n,
{
    if n == 0 {
        h
    } else {
        heapified(sifted(h, n - 1), (n - 1) as nat)
    }
}

/// What a heap of capacity `k` holds after `item` was offered to it.
pub open spec fn offered(k: nat, data: Seq<(u32, i64)>, item: (u32, i64)) -> Seq<(u32, i64)> {
    if k == 0 {
        data
    } else if data.len() < k {
        let grown = data.push(item);
        if grown.len() == k {
            heapified(grown, k / 2)
        } else {
            grown
        }
    } else if float::below(item.0, data[0].0) {
        sifted(data.update(0, item), 0)
    } else {
        data
    }
}

/// What a heap of capacity `k` holds after all of `items` were offered to one
/// that held `data`.
pub open spec fn offered_all(
    k: nat,
    data: Seq<(u32, i64)>,
    items: Seq<(u32, i64)>,
) -> Seq<(u32, i64)>
    decreases items.len(),
{
    if items.len() == 0 {
        data
    } else {
        offered(k, offered_all(k, data, items.drop_last()), items.last())
    }
}

/// What an empty heap of capacity `k` keeps of `items`.
pub open spec fn kept(k: nat, items: Seq<(u32, i64)>) -> Seq<(u32, i64)> {
    offered_all(k, Seq::empty(), items)
}

/// Items can be put in order by distance: any two of them can be compared.
pub open spec fn sortable(items: Seq<(u32, i64)>) -> bool {
    items.len() < 2 || all_numbers(items)
}

/// Every distance is a number.
pub open spec fn all_numbers(items: Seq<(u32, i64)>) -> bool {
    forall|i: int| 0 <= i < items.len() ==> !float::is_nan((#[trigger] items[i]).0)
}

/// The places of the distances.
pub open spec fn ranks(items: Seq<(u32, i64)>) -> Seq<i64> {
    items.map_values(|item: (u32, i64)| float::rank(item.0) as i64)
}

/// `items` by ascending distance. Equal distances keep their order.
pub open spec fn by_distance(items: Seq<(u32, i64)>) -> Seq<(u32, i64)> {
    sort::sorted_order(ranks(items)).map_values(|i: int| items[i])
}

/// The answer to a search that asks for `k` neighbours among `items`.
pub open spec fn nearest(k: nat, items: Seq<(u32, i64)>) -> Seq<(u32, i64)> {
    by_distance(kept(k, items))
}

/// No item is larger than its parent, as far as the parent's position is at
/// least `lo` and not `hole`.
pub open spec fn heap_from(h: Seq<(u32, i64)>, lo: int, hole: int) -> bool {
    forall|c: int|
        #![trigger h[c]]
        1 <= c < h.len() && (c - 1) / 2 >= lo && (c - 1) / 2 != hole ==> float::rank(h[c].0)
            <= float::rank(h[(c - 1) / 2].0)
}

/// No item is larger than its parent.
pub open spec fn is_heap(h: Seq<(u32, i64)>) -> bool {
    heap_from(h, 0, -1)
}

/// No child of `i` is larger than the parent of `i`, if that is at `lo` or
/// behind it.
spec fn bridged(h: Seq<(u32, i64)>, lo: int, i: int) -> bool {
    forall|c: int|
        #![trigger h[c]]
        1 <= c < h.len() && (c - 1) / 2 == i && i >= 1 && (i - 1) / 2 >= lo ==> float::rank(h[c].0)
            <= float::rank(h[(i - 1) / 2].0)
}

proof fn lemma_exchanged_multiset(h: Seq<(u32, i64)>, i: int, j: int)
    requires
        0 <= i < h.len(),
        0 <= j < h.len(),
        i != j,
    ensures
        exchanged(h, i, j).to_multiset() == h.to_multiset(),
{
    broadcast use {seq_lib::group_to_multiset_ensures, vstd::multiset::group_multiset_axioms};

    let once = h.update(i, h[j]);
    seq_lib::to_multiset_update(h, i, h[j]);
    seq_lib::to_multiset_update(once, j, h[i]);
    assert(h.contains(h[i]));
    assert(h.to_multiset().remove(h[i]).insert(h[j]).remove(h[j]).insert(h[i])
        =~= h.to_multiset());
}

proof fn lemma_sifted_keeps(h: Seq<(u32, i64)>, i: int)
    ensures
        sifted(h, i).len() == h.len(),
        sifted(h, i).to_multiset() == h.to_multiset(),
    decreases h.len() - i,
{
    if 0 <= i < h.len() && largest_of(h, i) != i {
        let c = largest_of(h, i);
        lemma_exchanged_multiset(h, i, c);
        lemma_sifted_keeps(exchanged(h, i, c), c);
    }
}

proof fn lemma_heapified_keeps(h: Seq<(u32, i64)>, n: nat)
    ensures
        heapified(h, n).len() == h.len(),
        heapified(h, n).to_multiset() == h.to_multiset(),
    decreases n,
{
    if n > 0 {
        lemma_sifted_keeps(h, n - 1);
        lemma_heapified_keeps(sifted(h, n - 1), (n - 1) as nat);
    }
}

/// Items that are the same up to their order are all numbers, or none are.
proof fn lemma_same_numbers(a: Seq<(u32, i64)>, b: Seq<(u32, i64)>)
    requires
        a.to_multiset() == b.to_multiset(),
        all_numbers(a),
    ensures
        all_numbers(b),
{
    broadcast use {seq_lib::group_to_multiset_ensures, vstd::multiset::group_multiset_axioms};

    assert forall|i: int| 0 <= i < b.len() implies !float::is_nan((#[trigger] b[i]).0) by {
        assert(b.contains(b[i]));
        assert(a.to_multiset().count(b[i]) > 0);
        assert(a.contains(b[i]));
    }
}

proof fn lemma_sifted_heap(h: Seq<(u32, i64)>, lo: int, i: int)
    requires
        0 <= lo <= i < h.len(),
        all_numbers(h),
        heap_from(h, lo, i),
        bridged(h, lo, i),
    ensures
        heap_from(sifted(h, i), lo, -1),
    decreases h.len() - i,
{
    let c = largest_of(h, i);
    if c != i {
        let next = exchanged(h, i, c);
        assert(i < c < h.len());
        assert((c - 1) / 2 == i);
        assert(float::rank(h[i].0) <= float::rank(h[c].0));
        assert forall|x: int|
            #![trigger next[x]]
            1 <= x < next.len() && (x - 1) / 2 >= lo && (x - 1) / 2 != c implies float::rank(
            next[x].0,
        ) <= float::rank(next[(x - 1) / 2].0) by {
            let p = (x - 1) / 2;
            assert(h[x] == h[x] && h[p] == h[p]);
            if p == i {
                if x != c {
                    assert(next[x] == h[x]);
                }
            } else {
                assert(next[p] == h[p]);
                if x == i {
                    assert(next[x] == h[c]);
                } else {
                    assert(next[x] == h[x]);
                }
            }
        }
        assert forall|x: int|
            #![trigger next[x]]
            1 <= x < next.len() && (x - 1) / 2 == c && c >= 1 && (c - 1) / 2
                >= lo implies float::rank(next[x].0) <= float::rank(next[(c - 1) / 2].0) by {
            assert(next[x] == h[x]);
        }
        assert(all_numbers(next));
        lemma_sifted_heap(next, lo, c);
    }
}

proof fn lemma_heapified_heap(h: Seq<(u32, i64)>, n: nat)
    requires
        n <= h.len(),
        all_numbers(h),
        heap_from(h, n as int, -1),
    ensures
        is_heap(heapified(h, n)),
    decreases n,
{
    if n > 0 {
        let i: int = n - 1;
        assert(heap_from(h, i, i));
        assert(bridged(h, i, i));
        lemma_sifted_heap(h, i, i);
        lemma_sifted_keeps(h, i);
        lemma_same_numbers(h, sifted(h, i));
        lemma_heapified_heap(sifted(h, i), (n - 1) as nat);
    }
}

/// The first item of a heap is the largest.
pub proof fn lemma_heap_root(h: Seq<(u32, i64)>, i: int)
    requires
        is_heap(h),
        0 <= i < h.len(),
    ensures
        float::rank(h[i].0) <= float::rank(h[0].0),
    decreases i,
{
    if i > 0 {
        lemma_heap_root(h, (i - 1) / 2);
    }
}

/// Nothing is lost and nothing is made up: as long as there is room the heap
/// holds what was offered, and then as many items as it can hold, in heap order.
proof fn lemma_offered(k: nat, data: Seq<(u32, i64)>, item: (u32, i64))
    requires
        data.len() <= k,
        all_numbers(data),
        !float::is_nan(item.0),
        k > 0 && data.len() == k ==> is_heap(data),
    ensures
        offered(k, data, item).len() == if data.len() < k {
            data.len() + 1
        } else {
            data.len()
        },
        all_numbers(offered(k, data, item)),
        k > 0 && offered(k, data, item).len() == k ==> is_heap(offered(k, data, item)),
        data.len() < k ==> offered(k, data, item).to_multiset() == data.push(item).to_multiset(),
        data.len() == k && k > 0 && float::below(item.0, data[0].0) ==> offered(
            k,
            data,
            item,
        ).to_multiset() == data.update(0, item).to_multiset(),
{
    if k == 0 {
    } else if data.len() < k {
        let grown = data.push(item);
        assert(all_numbers(grown));
        if grown.len() == k {
            assert(heap_from(grown, (k / 2) as int, -1));
            lemma_heapified_heap(grown, k / 2);
            lemma_heapified_keeps(grown, k / 2);
            lemma_same_numbers(grown, heapified(grown, k / 2));
        }
    } else if float::below(item.0, data[0].0) {
        let replaced = data.update(0, item);
        assert(all_numbers(replaced));
        assert forall|c: int|
            #![trigger replaced[c]]
            1 <= c < replaced.len() && (c - 1) / 2 >= 0 && (c - 1) / 2 != 0 implies float::rank(
            replaced[c].0,
        ) <= float::rank(replaced[(c - 1) / 2].0) by {
            assert(replaced[c] == data[c]);
        }
        lemma_sifted_heap(replaced, 0, 0);
        lemma_sifted_keeps(replaced, 0);
        lemma_same_numbers(replaced, sifted(replaced, 0));
    }
}

/// A heap keeps as many items as were offered, up to its capacity; once it is
/// full, no item is larger than its parent.
pub proof fn lemma_kept(k: nat, items: Seq<(u32, i64)>)
    requires
        all_numbers(items),
    ensures
        kept(k, items).len() == if items.len() < k {
            items.len()
        } else {
            k
        },
        all_numbers(kept(k, items)),
        k > 0 && kept(k, items).len() == k ==> is_heap(kept(k, items)),
    decreases items.len(),
{
    if items.len() > 0 {
        assert(all_numbers(items.drop_last()));
        lemma_kept(k, items.drop_last());
        assert(!float::is_nan(items[items.len() - 1].0));
        lemma_offered(k, kept(k, items.drop_last()), items.last());
    }
}

/// How often `item` was kept, it was offered at least as often.
pub proof fn lemma_kept_offered(k: nat, items: Seq<(u32, i64)>, item: (u32, i64))
    ensures
        kept(k, items).len() <= k,
        kept(k, items).to_multiset().count(item) <= items.to_multiset().count(item),
    decreases items.len(),
{
    broadcast use {seq_lib::group_to_multiset_ensures, vstd::multiset::group_multiset_axioms};

    if items.len() > 0 {
        let before = items.drop_last();
        let last = items.last();
        lemma_kept_offered(k, before, item);
        assert(items =~= before.push(last));
        seq_lib::to_multiset_build(before, last);
        let data = kept(k, before);
        if k == 0 {
        } else if data.len() < k {
            seq_lib::to_multiset_build(data, last);
            lemma_heapified_keeps(data.push(last), k / 2);
        } else if float::below(last.0, data[0].0) {
            seq_lib::to_multiset_update(data, 0, last);
            lemma_sifted_keeps(data.update(0, last), 0);
        }
    }
}

/// How many of the items lie within the distance that has place `t`.
pub open spec fn within(items: Seq<(u32, i64)>, t: int) -> nat
    decreases items.len(),
{
    if items.len() == 0 {
        0
    } else {
        within(items.drop_last(), t) + if float::rank(items.last().0) <= t {
            1nat
        } else {
            0nat
        }
    }
}

proof fn lemma_within_push(items: Seq<(u32, i64)>, item: (u32, i64), t: int)
    ensures
        within(items.push(item), t) == within(items, t) + if float::rank(item.0) <= t {
            1nat
        } else {
            0nat
        },
{
    assert(items.push(item).drop_last() =~= items);
}

proof fn lemma_within_remove(items: Seq<(u32, i64)>, i: int, t: int)
    requires
        0 <= i < items.len(),
    ensures
        within(items, t) == within(items.remove(i), t) + if float::rank(items[i].0) <= t {
            1nat
        } else {
            0nat
        },
    decreases items.len(),
{
    if i == items.len() - 1 {
        assert(items.remove(i) =~= items.drop_last());
    } else {
        lemma_within_remove(items.drop_last(), i, t);
        assert(items.remove(i).drop_last() =~= items.drop_last().remove(i));
    }
}

/// The count does not depend on the order.
pub proof fn lemma_within_multiset(a: Seq<(u32, i64)>, b: Seq<(u32, i64)>, t: int)
    requires
        a.to_multiset() == b.to_multiset(),
    ensures
        within(a, t) == within(b, t),
    decreases a.len(),
{
    broadcast use {seq_lib::group_to_multiset_ensures, vstd::multiset::group_multiset_axioms};

    seq_lib::to_multiset_len(a);
    seq_lib::to_multiset_len(b);
    if a.len() > 0 {
        let x = a.last();
        assert(a.contains(x));
        assert(b.to_multiset().count(x) > 0);
        assert(b.contains(x));
        let j = b.index_of(x);
        seq_lib::to_multiset_remove(b, j);
        seq_lib::to_multiset_remove(a, a.len() - 1);
        assert(a.remove(a.len() - 1) =~= a.drop_last());
        lemma_within_multiset(a.drop_last(), b.remove(j), t);
        lemma_within_remove(b, j, t);
    }
}

proof fn lemma_within_update(items: Seq<(u32, i64)>, i: int, item: (u32, i64), t: int)
    requires
        0 <= i < items.len(),
    ensures
        within(items.update(i, item), t) + (if float::rank(items[i].0) <= t {
            1nat
        } else {
            0nat
        }) == within(items, t) + (if float::rank(item.0) <= t {
            1nat
        } else {
            0nat
        }),
{
    lemma_within_remove(items, i, t);
    lemma_within_remove(items.update(i, item), i, t);
    assert(items.update(i, item).remove(i) =~= items.remove(i));
}

/// As many items lie within a distance as there are, if all do, and fewer, if
/// one does not.
pub proof fn lemma_within_bound(items: Seq<(u32, i64)>, t: int)
    ensures
        within(items, t) <= items.len(),
        (forall|i: int| 0 <= i < items.len() ==> float::rank((#[trigger] items[i]).0) <= t)
            ==> within(items, t) == items.len(),
        (exists|i: int| 0 <= i < items.len() && float::rank((#[trigger] items[i]).0) > t)
            ==> within(items, t) < items.len(),
    decreases items.len(),
{
    if items.len() > 0 {
        lemma_within_bound(items.drop_last(), t);
        if forall|i: int| 0 <= i < items.len() ==> float::rank((#[trigger] items[i]).0) <= t {
            assert forall|i: int| 0 <= i < items.drop_last().len() implies float::rank(
                (#[trigger] items.drop_last()[i]).0,
            ) <= t by {
                assert(items[i] == items.drop_last()[i]);
            }
            assert(float::rank(items[items.len() - 1].0) <= t);
        } else {
            let i = choose|i: int|
                0 <= i < items.len() && float::rank((#[trigger] items[i]).0) > t;
            if i < items.len() - 1 {
                assert(float::rank(items.drop_last()[i].0) > t);
            }
        }
    }
}

/// One offer: if the heap counted right up to its capacity before, it does so
/// after.
proof fn lemma_offered_within(k: nat, data: Seq<(u32, i64)>, item: (u32, i64), t: int)
    requires
        data.len() <= k,
        all_numbers(data),
        !float::is_nan(item.0),
        k > 0 && data.len() == k ==> is_heap(data),
    ensures
        within(data, t) <= data.len(),
        within(offered(k, data, item), t) == if within(data, t) == k {
            k
        } else {
            within(data, t) + if float::rank(item.0) <= t {
                1nat
            } else {
                0nat
            }
        },
{
    lemma_offered(k, data, item);
    lemma_within_bound(data, t);
    if k == 0 {
    } else if data.len() < k {
        lemma_within_push(data, item, t);
        lemma_within_multiset(data.push(item), offered(k, data, item), t);
    } else {
        if float::rank(data[0].0) <= t {
            assert forall|i: int| 0 <= i < data.len() implies float::rank((#[trigger] data[i]).0)
                <= t by {
                lemma_heap_root(data, i);
            }
        }
        if float::below(item.0, data[0].0) {
            lemma_within_update(data, 0, item, t);
            lemma_within_multiset(data.update(0, item), offered(k, data, item), t);
        } else {
            assert(!float::is_nan(data[0].0));
        }
    }
}

/// The heap keeps the nearest: within any distance lie as many kept items as
/// offered ones, up to the capacity.
pub proof fn lemma_kept_nearest(k: nat, items: Seq<(u32, i64)>, t: int)
    requires
        all_numbers(items),
    ensures
        within(kept(k, items), t) == if within(items, t) < k {
            within(items, t)
        } else {
            k
        },
    decreases items.len(),
{
    if items.len() > 0 {
        let before = items.drop_last();
        assert(all_numbers(before));
        assert(!float::is_nan(items[items.len() - 1].0));
        lemma_kept_nearest(k, before, t);
        lemma_kept(k, before);
        lemma_offered_within(k, kept(k, before), items.last(), t);
    }
}

/// Putting items in order by distance keeps the items.
pub proof fn lemma_by_distance(items: Seq<(u32, i64)>)
    ensures
        by_distance(items).len() == items.len(),
        by_distance(items).to_multiset() == items.to_multiset(),
        forall|i: int, j: int|
            #![trigger by_distance(items)[i], by_distance(items)[j]]
            0 <= i < j < items.len() ==> float::rank(by_distance(items)[i].0) <= float::rank(
                by_distance(items)[j].0,
            ),
{
    let keys = ranks(items);
    let order = sort::sorted_order(keys);
    let all = sort::positions(0, items.len() as int);
    sort::lemma_sorted_order(keys);
    let pick = |i: int| items[i];
    assert(all.map_values(pick) =~= items);
    lemma_map_multiset(order, all, pick);
    assert forall|i: int, j: int|
        #![trigger by_distance(items)[i], by_distance(items)[j]]
        0 <= i < j < items.len() implies float::rank(by_distance(items)[i].0) <= float::rank(
        by_distance(items)[j].0,
    ) by {
        let a = order[i];
        let b = order[j];
        assert(keys[a] == float::rank(items[a].0));
        assert(keys[b] == float::rank(items[b].0));
    }
}

/// In items by ascending distance, more than `i` lie within a distance just if
/// the one at `i` does.
pub proof fn lemma_sorted_within(items: Seq<(u32, i64)>, t: int, i: int)
    requires
        ascending(items),
        0 <= i < items.len(),
    ensures
        within(items, t) > i <==> float::rank(items[i].0) <= t,
    decreases items.len(),
{
    let front = items.drop_last();
    let last: int = items.len() - 1;
    assert(ascending(front)) by {
        assert forall|a: int, b: int|
            #![trigger front[a], front[b]]
            0 <= a < b < front.len() implies float::rank(front[a].0) <= float::rank(front[b].0) by {
            assert(front[a] == items[a] && front[b] == items[b]);
        }
    }
    lemma_within_bound(front, t);
    if i < last {
        lemma_sorted_within(front, t, i);
        assert(front[i] == items[i]);
        assert(float::rank(items[i].0) <= float::rank(items[last].0));
    } else if float::rank(items[last].0) <= t {
        assert forall|a: int| 0 <= a < front.len() implies float::rank((#[trigger] front[a]).0)
            <= t by {
            assert(front[a] == items[a]);
            assert(float::rank(items[a].0) <= float::rank(items[last].0));
        }
    }
}

/// Items come by ascending distance.
pub open spec fn ascending(items: Seq<(u32, i64)>) -> bool {
    forall|i: int, j: int|
        #![trigger items[i], items[j]]
        0 <= i < j < items.len() ==> float::rank(items[i].0) <= float::rank(items[j].0)
}

/// The same distances, one by one.
pub open spec fn same_distances(a: Seq<(u32, i64)>, b: Seq<(u32, i64)>) -> bool {
    &&& a.len() == b.len()
    &&& forall|i: int|
        #![trigger a[i], b[i]]
        0 <= i < a.len() ==> float::rank(a[i].0) == float::rank(b[i].0)
}

/// Counting determines the distances of items in order.
pub proof fn lemma_same_counts(a: Seq<(u32, i64)>, b: Seq<(u32, i64)>)
    requires
        ascending(a),
        ascending(b),
        a.len() == b.len(),
        forall|t: int| #[trigger] within(a, t) == within(b, t),
    ensures
        same_distances(a, b),
{
    assert forall|i: int| #![trigger a[i], b[i]] 0 <= i < a.len() implies float::rank(a[i].0)
        == float::rank(b[i].0) by {
        let x = float::rank(a[i].0);
        let y = float::rank(b[i].0);
        assert(within(a, x) == within(b, x));
        assert(within(a, y) == within(b, y));
        lemma_sorted_within(a, x, i);
        lemma_sorted_within(b, x, i);
        lemma_sorted_within(a, y, i);
        lemma_sorted_within(b, y, i);
    }
}

/// Mapping two orders of the same positions gives two orders of the same items.
proof fn lemma_map_multiset(a: Seq<int>, b: Seq<int>, f: spec_fn(int) -> (u32, i64))
    requires
        a.to_multiset() == b.to_multiset(),
    ensures
        a.map_values(f).to_multiset() == b.map_values(f).to_multiset(),
    decreases a.len(),
{
    broadcast use {seq_lib::group_to_multiset_ensures, vstd::multiset::group_multiset_axioms};

    seq_lib::to_multiset_len(a);
    seq_lib::to_multiset_len(b);
    if a.len() > 0 {
        let x = a.last();
        assert(a.contains(x));
        assert(b.to_multiset().count(x) > 0);
        assert(b.contains(x));
        let j = b.index_of(x);
        seq_lib::to_multiset_remove(b, j);
        seq_lib::to_multiset_remove(a, a.len() - 1);
        assert(a.remove(a.len() - 1) =~= a.drop_last());
        lemma_map_multiset(a.drop_last(), b.remove(j), f);
        let ma = a.map_values(f);
        let mb = b.map_values(f);
        assert(ma.drop_last() =~= a.drop_last().map_values(f));
        assert(mb.remove(j) =~= b.remove(j).map_values(f));
        assert(ma =~= ma.drop_last().push(f(x)));
        seq_lib::to_multiset_build(ma.drop_last(), f(x));
        seq_lib::to_multiset_remove(mb, j);
        assert(mb.contains(mb[j]));
        assert(mb.to_multiset() =~= mb.remove(j).to_multiset().insert(f(x)));
    } else {
        assert(a.map_values(f) =~= b.map_values(f));
    }
}

/// Whether the items can be put in order by distance.
pub fn can_sort(items: &Vec<(u32, i64)>) -> (yes: bool)
    ensures
        yes == sortable(items@),
{
    if items.len() < 2 {
        return true;
    }
    let mut i: usize = 0;
    while i < items.len()
        invariant
            i <= items@.len(),
            items@.len() >= 2,
            forall|j: int| 0 <= j < i ==> !float::is_nan((#[trigger] items@[j]).0),
        decreases items@.len() - i,
    {
        if float::nan(items[i].0) {
            assert(float::is_nan(items@[i as int].0));
            return false;
        }
        i = i + 1;
    }
    true
}

/// Lets the item at `start` sink until no child is larger.
pub fn sift_down(heap: &mut Vec<(u32, i64)>, start: usize)
    requires
        start < old(heap)@.len(),
    ensures
        final(heap)@ == sifted(old(heap)@, start as int),
{
    let n: usize = heap.len();
    let mut i: usize = start;
    loop
        invariant
            n == heap@.len(),
            i < n,
            sifted(heap@, i as int) == sifted(old(heap)@, start as int),
        ensures
            heap@ == sifted(old(heap)@, start as int),
        decreases n - i,
    {
        if i >= n / 2 {
            assert(largest_of(heap@, i as int) == i);
            break;
        }
        let mut largest: usize = i;
        let left: usize = 2 * i + 1;
        if float::less(heap[i].0, heap[left].0) {
            largest = left;
        }
        if left < n - 1 && float::less(heap[largest].0, heap[left + 1].0) {
            largest = left + 1;
        }
        assert(largest == largest_of(heap@, i as int));
        if largest == i {
            break;
        }
        let ghost before = heap@;
        let a: (u32, i64) = heap[i];
        let b: (u32, i64) = heap[largest];
        heap.set(i, b);
        heap.set(largest, a);
        assert(heap@ == exchanged(before, i as int, largest as int));
        i = largest;
    }
}

/// Lets the items of the upper half sink, the last of them first.
pub fn build_max_heap(heap: &mut Vec<(u32, i64)>)
    ensures
        final(heap)@ == heapified(old(heap)@, (old(heap)@.len() / 2) as nat),
{
    let n: usize = heap.len();
    let mut i: usize = n / 2;
    while i > 0
        invariant
            n == heap@.len(),
            i <= n / 2,
            heapified(heap@, i as nat) == heapified(old(heap)@, (n / 2) as nat),
        decreases i,
    {
        i = i - 1;
        proof {
            lemma_sifted_keeps(heap@, i as int);
        }
        sift_down(heap, i);
    }
}

/// Items by ascending distance.
pub fn sort_items(items: &Vec<(u32, i64)>) -> (sorted: Vec<(u32, i64)>)
    requires
        sortable(items@),
    ensures
        sorted@ == by_distance(items@),
{
    let n: usize = items.len();
    let mut keys: Vec<i64> = Vec::new();
    let mut i: usize = 0;
    while i < n
        invariant
            i <= n,
            n == items@.len(),
            keys@ == ranks(items@).take(i as int),
        decreases n - i,
    {
        keys.push(float::rank_of(items[i].0));
        i = i + 1;
        assert(keys@ =~= ranks(items@).take(i as int));
    }
    assert(keys@ =~= ranks(items@));
    let order: Vec<usize> = sort::sort_order(keys.as_slice());
    proof {
        sort::lemma_sorted_order(keys@);
    }
    let mut sorted: Vec<(u32, i64)> = Vec::new();
    let mut j: usize = 0;
    while j < n
        invariant
            j <= n,
            n == items@.len(),
            sort::ints(order@) == sort::sorted_order(ranks(items@)),
            sort::sorted_order(ranks(items@)).len() == n,
            forall|x: int|
                0 <= x < n ==> 0 <= #[trigger] sort::sorted_order(ranks(items@))[x] < n,
            sorted@ == by_distance(items@).take(j as int),
        decreases n - j,
    {
        assert(sort::ints(order@)[j as int] == order@[j as int]);
        sorted.push(items[order[j]]);
        j = j + 1;
        assert(sorted@ =~= by_distance(items@).take(j as int));
    }
    assert(by_distance(items@).take(n as int) =~= by_distance(items@));
    sorted
}

/// A heap that keeps the `k` items with the smallest distances.
pub struct TopKHeap {
    pub k: usize,
    pub data: Vec<(u32, i64)>,
    pub built: bool,
}

impl TopKHeap {
    /// The heap is not over its capacity, and marked as built once it is full.
    pub open spec fn wf(&self) -> bool {
        &&& self.data@.len() <= self.k
        &&& self.built == (self.k > 0 && self.data@.len() == self.k)
    }

    /// An empty heap.
    pub fn new(k: usize) -> (heap: Self)
        ensures
            heap.wf(),
            heap.k == k,
            heap.data@ == Seq::<(u32, i64)>::empty(),
    {
        TopKHeap { k, data: Vec::new(), built: false }
    }

    /// Offers an item.
    pub fn push(&mut self, dist: u32, id: i64)
        requires
            old(self).wf(),
        ensures
            final(self).wf(),
            final(self).k == old(self).k,
            final(self).data@ == offered(old(self).k as nat, old(self).data@, (dist, id)),
    {
        if self.k == 0 {
            return;
        }
        if self.data.len() < self.k {
            self.data.push((dist, id));
            if self.data.len() == self.k {
                proof {
                    lemma_heapified_keeps(self.data@, (self.data@.len() / 2) as nat);
                }
                build_max_heap(&mut self.data);
                self.built = true;
            }
        } else if float::less(dist, self.data[0].0) {
            self.data.set(0, (dist, id));
            proof {
                lemma_sifted_keeps(self.data@, 0);
            }
            sift_down(&mut self.data, 0);
        }
    }

    /// What the heap holds, by ascending distance.
    pub fn into_sorted(self) -> (sorted: Vec<(u32, i64)>)
        requires
            sortable(self.data@),
        ensures
            sorted@ == by_distance(self.data@),
    {
        sort_items(&self.data)
    }
}

/// Sinking an item moves items within the part below it, and none gets lost. If
/// neither child is larger nothing moves; else the larger child rises, the left
/// one if the right one is not larger than it.
pub proof fn lemma_sift_step(h: Seq<(u32, i64)>, i: int)
    requires
        0 <= i < h.len(),
    ensures
        sifted(h, i).len() == h.len(),
        sifted(h, i).to_multiset() == h.to_multiset(),
        forall|x: int| 0 <= x < i ==> #[trigger] sifted(h, i)[x] == h[x],
        ({
            let left = 2 * i + 1;
            let right = 2 * i + 2;
            let goes_left = left < h.len() && float::below(h[i].0, h[left].0);
            let goes_right = right < h.len() && (if goes_left {
                float::below(h[left].0, h[right].0)
            } else {
                float::below(h[i].0, h[right].0)
            });
            &&& goes_right ==> sifted(h, i)[i] == h[right] && sifted(h, i) == sifted(
                h.update(i, h[right]).update(right, h[i]),
                right,
            )
            &&& goes_left && !goes_right ==> sifted(h, i)[i] == h[left] && sifted(h, i) == sifted(
                h.update(i, h[left]).update(left, h[i]),
                left,
            )
            &&& !goes_left && !goes_right ==> sifted(h, i) == h
        }),
    decreases h.len() - i,
{
    lemma_sifted_keeps(h, i);
    let m = largest_of(h, i);
    if m != i {
        lemma_sift_step(exchanged(h, i, m), m);
    }
}

/// A heap of capacity `k` takes what it is offered until it is full, and then
/// only what is nearer than the farthest item that it holds, which leaves; that
/// one stands first.
#[verifier::rlimit(30)]
pub proof fn lemma_push(k: nat, data: Seq<(u32, i64)>, item: (u32, i64))
    requires
        data.len() <= k,
        forall|i: int| 0 <= i < data.len() ==> !float::is_nan((#[trigger] data[i]).0),
        !float::is_nan(item.0),
        k > 0 && data.len() == k ==> forall|c: int|
            #![trigger data[c]]
            1 <= c < data.len() ==> float::rank(data[c].0) <= float::rank(data[(c - 1) / 2].0),
    ensures
        k == 0 ==> offered(k, data, item) == data,
        data.len() + 1 < k ==> offered(k, data, item) == data.push(item),
        data.len() + 1 == k ==> offered(k, data, item).to_multiset() == data.to_multiset().insert(
            item,
        ),
        k > 0 && data.len() == k && float::rank(item.0) >= float::rank(data[0].0) ==> offered(
            k,
            data,
            item,
        ) == data,
        k > 0 && data.len() == k && float::rank(item.0) < float::rank(data[0].0) ==> offered(
            k,
            data,
            item,
        ).to_multiset() == data.to_multiset().remove(data[0]).insert(item),
        k > 0 && offered(k, data, item).len() == k ==> forall|c: int|
            #![trigger offered(k, data, item)[c]]
            0 <= c < k ==> float::rank(offered(k, data, item)[c].0) <= float::rank(
                offered(k, data, item)[0].0,
            ),
{
    broadcast use {seq_lib::group_to_multiset_ensures, vstd::multiset::group_multiset_axioms};

    assert(all_numbers(data));
    lemma_offered(k, data, item);
    let after = offered(k, data, item);
    if k > 0 && after.len() == k {
        assert forall|c: int| #![trigger after[c]] 0 <= c < k implies float::rank(after[c].0)
            <= float::rank(after[0].0) by {
            lemma_heap_root(after, c);
        }
    }
    if data.len() < k {
        seq_lib::to_multiset_build(data, item);
    } else if k > 0 {
        seq_lib::to_multiset_update(data, 0, item);
        assert(data.update(0, item).to_multiset() =~= data.to_multiset().remove(data[0]).insert(
            item,
        ));
    }
}

/// Sorting by distance keeps every item, and those of one distance in their
/// order.
pub proof fn lemma_by_distance_stable(items: Seq<(u32, i64)>)
    ensures
        by_distance(items).len() == items.len(),
        exists|order: Seq<int>|
            {
                &&& order.len() == items.len()
                &&& #[trigger] order.no_duplicates()
                &&& forall|i: int|
                    #![trigger order[i]]
                    0 <= i < items.len() ==> 0 <= order[i] < items.len() && by_distance(items)[i]
                        == items[order[i]]
                &&& forall|i: int, j: int|
                    #![trigger order[i], order[j]]
                    0 <= i < j < items.len() ==> float::rank(items[order[i]].0) < float::rank(
                        items[order[j]].0,
                    ) || (float::rank(items[order[i]].0) == float::rank(items[order[j]].0)
                        && order[i] < order[j])
            },
{
    let keys = ranks(items);
    let order = sort::sorted_order(keys);
    sort::lemma_sorted_order(keys);
    assert(forall|i: int|
        0 <= i < items.len() ==> #[trigger] keys[i] == float::rank(items[i].0));
    assert(order.no_duplicates());
    assert forall|i: int, j: int|
        #![trigger order[i], order[j]]
        0 <= i < j < items.len() implies float::rank(items[order[i]].0) < float::rank(
        items[order[j]].0,
    ) || (float::rank(items[order[i]].0) == float::rank(items[order[j]].0) && order[i]
        < order[j]) by {
        assert(keys[order[i]] == float::rank(items[order[i]].0));
        assert(keys[order[j]] == float::rank(items[order[j]].0));
    }
}

/// Building a heap keeps every item and puts none below a nearer one. It lets
/// the items sink one after the other, from the last that has a child to the
/// first.
pub proof fn lemma_built(h: Seq<(u32, i64)>, n: nat)
    requires
        n < h.len(),
    ensures
        heapified(h, 0) == h,
        heapified(h, n + 1) == heapified(sifted(h, n as int), n),
        heapified(h, h.len() / 2).len() == h.len(),
        heapified(h, h.len() / 2).to_multiset() == h.to_multiset(),
        (forall|i: int| 0 <= i < h.len() ==> !float::is_nan((#[trigger] h[i]).0)) ==> forall|c: int|
            #![trigger heapified(h, h.len() / 2)[c]]
            1 <= c < h.len() ==> float::rank(heapified(h, h.len() / 2)[c].0) <= float::rank(
                heapified(h, h.len() / 2)[(c - 1) / 2].0,
            ),
{
    lemma_heapified_keeps(h, h.len() / 2);
    if forall|i: int| 0 <= i < h.len() ==> !float::is_nan((#[trigger] h[i]).0) {
        assert(all_numbers(h));
        assert(heap_from(h, (h.len() / 2) as int, -1));
        lemma_heapified_heap(h, h.len() / 2);
    }
}

/// A full heap takes nothing that is no number, and nothing at all if what
/// stands first is none.
pub proof fn lemma_push_full(k: nat, data: Seq<(u32, i64)>, item: (u32, i64))
    requires
        0 < k,
        data.len() == k,
        float::is_nan(item.0) || float::is_nan(data[0].0),
    ensures
        offered(k, data, item) == data,
{
}

/// Offering items is offering them one after the other, the first of them first.
/// The one that makes a heap full has it built; a nearer one that comes later
/// takes the first place and sinks. A heap that was empty keeps of no items none.
pub proof fn lemma_offered_next(
    k: nat,
    data: Seq<(u32, i64)>,
    items: Seq<(u32, i64)>,
    item: (u32, i64),
)
    ensures
        offered_all(k, data, Seq::empty()) == data,
        offered_all(k, data, seq![item]) == offered(k, data, item),
        offered_all(k, data, items.push(item)) == offered(k, offered_all(k, data, items), item),
        data.len() + 1 == k ==> offered(k, data, item) == heapified(data.push(item), k / 2),
        k > 0 && data.len() == k && float::below(item.0, data[0].0) ==> offered(k, data, item)
            == sifted(data.update(0, item), 0),
        kept(k, Seq::empty()).len() == 0,
        kept(k, items.push(item)) == offered(k, kept(k, items), item),
{
    assert(items.push(item).drop_last() =~= items);
    let one = seq![item];
    assert(one.drop_last() =~= Seq::empty());
    assert(offered_all(k, data, one.drop_last()) == data);
}

/// Items can be put in order if there is one at most, or if every distance is a
/// number.
pub proof fn lemma_sortable(items: Seq<(u32, i64)>, i: int)
    ensures
        items.len() < 2 ==> sortable(items),
        (forall|x: int| 0 <= x < items.len() ==> !float::is_nan((#[trigger] items[x]).0))
            ==> sortable(items),
        items.len() >= 2 && 0 <= i < items.len() && float::is_nan(items[i].0) ==> !sortable(items),
{
}

} // verus!
