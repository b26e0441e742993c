//! What a search in memory answers, in terms of the lists, the probes and the
//! distances alone.

use crate::file_search;
use crate::float;
use crate::heap;
use crate::ivfpq::IVFPQIndex;
use crate::search;
use crate::search::Scan;
use vstd::prelude::*;

verus! {

/// A scan finds every vector that it looks at, with its own distance and ID, in
/// the order of the list; with a filter, just those whose ID is in it.
pub proof fn lemma_candidates(ids: Seq<i64>, dists: Seq<u32>, n: nat, allowed: Set<i64>)
    ensures
        search::candidates(ids, dists, n, None) == Seq::new(n, |g: int| (dists[g], ids[g])),
        search::candidates(ids, dists, n, Some(allowed)) == Seq::new(
            n,
            |g: int| (dists[g], ids[g]),
        ).filter(|p: (u32, i64)| allowed.contains(p.1)),
    decreases n,
{
    let all = Seq::new(n, |g: int| (dists[g], ids[g]));
    let pred = |p: (u32, i64)| allowed.contains(p.1);
    reveal(Seq::filter);
    if n > 0 {
        let m = (n - 1) as nat;
        lemma_candidates(ids, dists, m, allowed);
        let front = Seq::new(m, |g: int| (dists[g], ids[g]));
        assert(all.drop_last() =~= front);
        assert(all =~= front.push((dists[n - 1], ids[n - 1])));
    } else {
        assert(search::candidates(ids, dists, n, None) =~= all);
        assert(all.filter(pred) =~= all);
    }
}

/// What a plan finds with a filter is what it finds without one, less what the
/// filter does not contain.
pub proof fn lemma_found_filtered(
    ids: Seq<Vec<i64>>,
    plan: Seq<Scan>,
    dists: Seq<Vec<u32>>,
    allowed: Set<i64>,
)
    ensures
        search::found(ids, plan, dists, Some(allowed)) == search::found(
            ids,
            plan,
            dists,
            None,
        ).filter(|p: (u32, i64)| allowed.contains(p.1)),
    decreases plan.len(),
{
    let pred = |p: (u32, i64)| allowed.contains(p.1);
    if plan.len() > 0 {
        let scan = plan.last();
        let front = plan.drop_last();
        lemma_found_filtered(ids, front, dists, allowed);
        lemma_candidates(
            ids[scan.list_id as int]@,
            dists[plan.len() - 1]@,
            scan.count as nat,
            allowed,
        );
        Seq::filter_distributes_over_add(
            search::found(ids, front, dists, None),
            search::candidates(
                ids[scan.list_id as int]@,
                dists[plan.len() - 1]@,
                scan.count as nat,
                None,
            ),
            pred,
        );
    } else {
        reveal(Seq::filter);
    }
}

/// Without a limit every probed list that is not empty is scanned from its first
/// vector to its last, in the order of the probes, and nothing else is: the
/// scans look at as many vectors as the probed lists hold together.
pub proof fn lemma_plan_complete(ids: Seq<Vec<i64>>, probes: Seq<usize>)
    requires
        probes.len() <= usize::MAX,
    ensures
        ({
            let plan = search::scan_plan_of(ids, probes, None);
            let lists = probes.filter(|l: usize| ids[l as int]@.len() > 0);
            &&& plan.len() == lists.len()
            &&& forall|j: int|
                #![trigger plan[j]]
                0 <= j < plan.len() ==> plan[j].list_id == lists[j] && plan[j].count
                    == ids[lists[j] as int]@.len() && plan[j].rank < probes.len()
                    && probes[plan[j].rank as int] == lists[j]
            &&& forall|i: int, j: int|
                #![trigger plan[i], plan[j]]
                0 <= i < j < plan.len() ==> plan[i].rank < plan[j].rank
            &&& forall|r: int|
                #![trigger probes[r]]
                0 <= r < probes.len() && ids[probes[r] as int]@.len() > 0 ==> exists|j: int|
                    0 <= j < plan.len() && (#[trigger] plan[j]).rank == r && plan[j].list_id
                        == probes[r] && plan[j].count == ids[probes[r] as int]@.len()
            &&& plan.map_values(|s: Scan| s.count as int).fold_left(
                0int,
                |a: int, b: int| a + b,
            ) == probes.map_values(|l: usize| ids[l as int]@.len() as int).fold_left(
                0int,
                |a: int, b: int| a + b,
            )
        }),
    decreases probes.len(),
{
    reveal(Seq::filter);
    let plan = search::scan_plan_of(ids, probes, None);
    let nonempty = |l: usize| ids[l as int]@.len() > 0;
    let lists = probes.filter(nonempty);
    let count_of = |s: Scan| s.count as int;
    let len_of = |l: usize| ids[l as int]@.len() as int;
    let plus = |a: int, b: int| a + b;
    if probes.len() > 0 {
        let front = probes.drop_last();
        lemma_plan_complete(ids, front);
        let before = search::scan_plan_of(ids, front, None);
        let list = ids[probes.last() as int];
        assert(list@.len() == list.len());
        assert(probes.map_values(len_of).drop_last() =~= front.map_values(len_of));
        if list@.len() > 0 {
            assert(plan.map_values(count_of).drop_last() =~= before.map_values(count_of));
            assert(plan.drop_last() =~= before);
        }
        assert forall|r: int|
            #![trigger probes[r]]
            0 <= r < probes.len() && ids[probes[r] as int]@.len() > 0 implies exists|j: int|
            0 <= j < plan.len() && (#[trigger] plan[j]).rank == r && plan[j].list_id == probes[r]
                && plan[j].count == ids[probes[r] as int]@.len() by {
            if r < front.len() {
                assert(front[r] == probes[r]);
                let j = choose|j: int|
                    0 <= j < before.len() && (#[trigger] before[j]).rank == r && before[j].list_id
                        == front[r] && before[j].count == ids[front[r] as int]@.len();
                assert(plan[j] == before[j]);
            } else {
                assert(plan[plan.len() - 1].rank == r);
            }
        }
        assert forall|j: int| #![trigger plan[j]] 0 <= j < plan.len() implies plan[j].list_id
            == lists[j] && plan[j].count == ids[lists[j] as int]@.len() && plan[j].rank
            < probes.len() && probes[plan[j].rank as int] == lists[j] by {
            if j < before.len() {
                assert(plan[j] == before[j]);
                assert(front[before[j].rank as int] == probes[before[j].rank as int]);
            }
        }
        assert forall|i: int, j: int|
            #![trigger plan[i], plan[j]]
            0 <= i < j < plan.len() implies plan[i].rank < plan[j].rank by {
            assert(plan[i] == before[i]);
            if j < before.len() {
                assert(plan[j] == before[j]);
            }
        }
    }
}

/// A limit cuts the scans off: they are the first of those without a limit, all
/// but the last of them to the end of their list, and together they look at as
/// many vectors as the limit allows, or at all of them.
pub proof fn lemma_plan_limited(ids: Seq<Vec<i64>>, probes: Seq<usize>, max: usize)
    ensures
        ({
            let plan = search::scan_plan_of(ids, probes, Some(max));
            let full = search::scan_plan_of(ids, probes, None);
            let total = full.map_values(|s: Scan| s.count as int).fold_left(
                0int,
                |a: int, b: int| a + b,
            );
            &&& plan.len() <= full.len()
            &&& forall|j: int|
                #![trigger plan[j]]
                0 <= j < plan.len() ==> plan[j].rank == full[j].rank && plan[j].list_id
                    == full[j].list_id && 0 < plan[j].count <= full[j].count
            &&& forall|j: int|
                #![trigger plan[j]]
                0 <= j < plan.len() - 1 ==> plan[j].count == full[j].count
            &&& plan.map_values(|s: Scan| s.count as int).fold_left(0int, |a: int, b: int| a + b)
                == if max < total {
                max as int
            } else {
                total
            }
        }),
{
    search::lemma_limited_plan(ids, probes, max);
    search::lemma_plan_total(ids, probes, None);
    search::lemma_plan_total(ids, probes, Some(max));
    lemma_plan_sum(search::scan_plan_of(ids, probes, None));
    lemma_plan_sum(search::scan_plan_of(ids, probes, Some(max)));
    lemma_plan_counts(ids, probes, max);
}

proof fn lemma_plan_sum(plan: Seq<Scan>)
    ensures
        plan.map_values(|s: Scan| s.count as int).fold_left(0int, |a: int, b: int| a + b)
            == search::scanned(plan),
    decreases plan.len(),
{
    let count_of = |s: Scan| s.count as int;
    if plan.len() > 0 {
        lemma_plan_sum(plan.drop_last());
        assert(plan.map_values(count_of).drop_last() =~= plan.drop_last().map_values(count_of));
    }
}

proof fn lemma_plan_counts(ids: Seq<Vec<i64>>, probes: Seq<usize>, max: usize)
    ensures
        forall|j: int|
            #![trigger search::scan_plan_of(ids, probes, Some(max))[j]]
            0 <= j < search::scan_plan_of(ids, probes, Some(max)).len() ==> search::scan_plan_of(
                ids,
                probes,
                Some(max),
            )[j].count > 0,
    decreases probes.len(),
{
    if probes.len() > 0 {
        let list = ids[probes.last() as int];
        assert(list@.len() == list.len());
        lemma_plan_counts(ids, probes.drop_last(), max);
        let plan = search::scan_plan_of(ids, probes, Some(max));
        let before = search::scan_plan_of(ids, probes.drop_last(), Some(max));
        assert forall|j: int| #![trigger plan[j]] 0 <= j < plan.len() implies plan[j].count > 0 by {
            if j < before.len() {
                assert(plan[j] == before[j]);
            }
        }
    }
}

/// What a search finds are all vectors of the probed lists that are not empty,
/// list after list in the order of the probes, each with its own distance and
/// ID; with a filter, those whose ID is in it; with a limit, the first of them,
/// as many as the limit allows.
pub proof fn lemma_found(
    ids: Seq<Vec<i64>>,
    probes: Seq<usize>,
    max: usize,
    dists: Seq<Vec<u32>>,
    allowed: Set<i64>,
)
    requires
        probes.len() <= usize::MAX,
    ensures
        ({
            let lists = probes.filter(|l: usize| ids[l as int]@.len() > 0);
            let pool = Seq::new(
                lists.len(),
                |j: int|
                    Seq::new(
                        ids[lists[j] as int]@.len(),
                        |g: int| (dists[j]@[g], ids[lists[j] as int]@[g]),
                    ),
            ).flatten();
            &&& search::found(ids, search::scan_plan_of(ids, probes, None), dists, None) == pool
            &&& search::found(
                ids,
                search::scan_plan_of(ids, probes, None),
                dists,
                Some(allowed),
            ) == pool.filter(|p: (u32, i64)| allowed.contains(p.1))
            &&& search::found(ids, search::scan_plan_of(ids, probes, Some(max)), dists, None)
                == pool.take(
                if max < pool.len() {
                    max as int
                } else {
                    pool.len() as int
                },
            )
        }),
{
    let full = search::scan_plan_of(ids, probes, None);
    let cut = search::scan_plan_of(ids, probes, Some(max));
    lemma_found_all(ids, probes, dists);
    lemma_found_filtered(ids, full, dists, allowed);
    let pool = search::found(ids, full, dists, None);
    let part = search::found(ids, cut, dists, None);
    search::lemma_limited_found(ids, probes, max, dists, dists, None);
    search::lemma_found_len(ids, full, dists);
    search::lemma_found_len(ids, cut, dists);
    search::lemma_plan_total(ids, probes, None);
    search::lemma_plan_total(ids, probes, Some(max));
    assert(part =~= pool.take(part.len() as int));
}

proof fn lemma_found_all(ids: Seq<Vec<i64>>, probes: Seq<usize>, dists: Seq<Vec<u32>>)
    requires
        probes.len() <= usize::MAX,
    ensures
        ({
            let lists = probes.filter(|l: usize| ids[l as int]@.len() > 0);
            search::found(ids, search::scan_plan_of(ids, probes, None), dists, None) == Seq::new(
                lists.len(),
                |j: int|
                    Seq::new(
                        ids[lists[j] as int]@.len(),
                        |g: int| (dists[j]@[g], ids[lists[j] as int]@[g]),
                    ),
            ).flatten()
        }),
    decreases probes.len(),
{
    reveal(Seq::filter);
    let nonempty = |l: usize| ids[l as int]@.len() > 0;
    let lists = probes.filter(nonempty);
    let nested = Seq::new(
        lists.len(),
        |j: int|
            Seq::new(
                ids[lists[j] as int]@.len(),
                |g: int| (dists[j]@[g], ids[lists[j] as int]@[g]),
            ),
    );
    lemma_plan_complete(ids, probes);
    if probes.len() > 0 {
        let front = probes.drop_last();
        lemma_found_all(ids, front, dists);
        lemma_plan_complete(ids, front);
        let list = ids[probes.last() as int];
        assert(list@.len() == list.len());
        let plan = search::scan_plan_of(ids, probes, None);
        let before = search::scan_plan_of(ids, front, None);
        let old_lists = front.filter(nonempty);
        let old_nested = Seq::new(
            old_lists.len(),
            |j: int|
                Seq::new(
                    ids[old_lists[j] as int]@.len(),
                    |g: int| (dists[j]@[g], ids[old_lists[j] as int]@[g]),
                ),
        );
        if list@.len() > 0 {
            let j: int = old_lists.len() as int;
            let last = Seq::new(list@.len(), |g: int| (dists[j]@[g], list@[g]));
            assert(nested =~= old_nested.push(last)) by {
                assert forall|x: int| 0 <= x < nested.len() implies nested[x] == old_nested.push(
                    last,
                )[x] by {
                    if x < j {
                        assert(lists[x] == old_lists[x]);
                    }
                    assert(nested[x] =~= old_nested.push(last)[x]);
                }
            }
            old_nested.lemma_flatten_push(last);
            assert(plan.drop_last() =~= before);
            lemma_candidates(list@, dists[j]@, list@.len(), Set::empty());
        } else {
            assert(nested =~= old_nested) by {
                assert(lists =~= old_lists);
            }
        }
    } else {
        assert(nested =~= Seq::<Seq<(u32, i64)>>::empty());
    }
}

/// The `k` nearest of some items, by ascending distance: as many as there are,
/// up to `k`; each of them one of the items, and none more often than it is among
/// them; and of the items, at most `i` are nearer than answer `i`.
pub proof fn lemma_nearest(k: nat, items: Seq<(u32, i64)>)
    requires
        forall|i: int| 0 <= i < items.len() ==> !float::is_nan((#[trigger] items[i]).0),
    ensures
        heap::nearest(k, items).len() == if items.len() < k {
            items.len()
        } else {
            k
        },
        forall|i: int, j: int|
            #![trigger heap::nearest(k, items)[i], heap::nearest(k, items)[j]]
            0 <= i < j < heap::nearest(k, items).len() ==> float::rank(
                heap::nearest(k, items)[i].0,
            ) <= float::rank(heap::nearest(k, items)[j].0),
        forall|p: (u32, i64)| #[trigger]
            heap::nearest(k, items).to_multiset().count(p) <= items.to_multiset().count(p),
        forall|i: int|
            #![trigger heap::nearest(k, items)[i]]
            0 <= i < heap::nearest(k, items).len() ==> items.filter(
                |p: (u32, i64)| float::rank(p.0) < float::rank(heap::nearest(k, items)[i].0),
            ).len() <= i,
{
    let result = heap::nearest(k, items);
    search::lemma_result_sorted(k, items);
    heap::lemma_by_distance(heap::kept(k, items));
    assert forall|p: (u32, i64)| #[trigger] result.to_multiset().count(p)
        <= items.to_multiset().count(p) by {
        heap::lemma_kept_offered(k, items, p);
    }
    assert forall|i: int| #![trigger result[i]] 0 <= i < result.len() implies items.filter(
        |p: (u32, i64)| float::rank(p.0) < float::rank(result[i].0),
    ).len() <= i by {
        let t: int = float::rank(result[i].0) - 1;
        search::lemma_nearest_within(k, items, t);
        heap::lemma_sorted_within(result, t, i);
        lemma_within(items, t);
        assert((|p: (u32, i64)| float::rank(p.0) < float::rank(result[i].0)) =~= (|p: (u32, i64)|
            float::rank(p.0) <= t));
    }
}

/// Counting the items within a distance.
pub proof fn lemma_within(items: Seq<(u32, i64)>, t: int)
    ensures
        heap::within(items, t) == items.filter(|p: (u32, i64)| float::rank(p.0) <= t).len(),
    decreases items.len(),
{
    reveal(Seq::filter);
    if items.len() > 0 {
        lemma_within(items.drop_last(), t);
    }
}

/// The answers to a query: the `k` nearest of the vectors of the probed lists,
/// each with its own distance and ID, where with a limit only the first vectors
/// count, and with a filter only those whose ID is in it. There are as many as
/// such vectors, up to `k`; none is answered more often than it is there; they
/// come by ascending distance; and at most `i` of those vectors are nearer than
/// answer `i`.
pub proof fn lemma_query_answers(
    index: &IVFPQIndex,
    probes: Seq<usize>,
    max_codes: Option<usize>,
    dists: Seq<Vec<u32>>,
    filter: Option<Set<i64>>,
    k: nat,
    all: Seq<(u32, i64)>,
    pool: Seq<(u32, i64)>,
)
    requires
        probes.len() <= usize::MAX,
        ({
            let lists = probes.filter(|l: usize| index.ids@[l as int]@.len() > 0);
            all == Seq::new(
                lists.len(),
                |j: int|
                    Seq::new(
                        index.ids@[lists[j] as int]@.len(),
                        |g: int| (dists[j]@[g], index.ids@[lists[j] as int]@[g]),
                    ),
            ).flatten()
        }),
        ({
            let first = if max_codes is Some && max_codes->0 < all.len() {
                all.take(max_codes->0 as int)
            } else {
                all
            };
            pool == match filter {
                Some(f) => first.filter(|p: (u32, i64)| f.contains(p.1)),
                None => first,
            }
        }),
        forall|i: int| 0 <= i < pool.len() ==> !float::is_nan((#[trigger] pool[i]).0),
    ensures
        ({
            let row = index.query_result(probes, max_codes, dists, filter, k);
            &&& row.len() == if pool.len() < k {
                pool.len()
            } else {
                k
            }
            &&& forall|i: int, j: int|
                #![trigger row[i], row[j]]
                0 <= i < j < row.len() ==> float::rank(row[i].0) <= float::rank(row[j].0)
            &&& forall|p: (u32, i64)| #[trigger]
                row.to_multiset().count(p) <= pool.to_multiset().count(p)
            &&& forall|i: int|
                #![trigger row[i]]
                0 <= i < row.len() ==> pool.filter(
                    |p: (u32, i64)| float::rank(p.0) < float::rank(row[i].0),
                ).len() <= i
        }),
{
    let ids = index.ids@;
    let max: usize = match max_codes {
        Some(max) => max,
        None => 0,
    };
    let allowed = match filter {
        Some(f) => f,
        None => Set::empty(),
    };
    let plan = search::scan_plan_of(ids, probes, max_codes);
    lemma_found(ids, probes, max, dists, allowed);
    lemma_found_filtered(ids, plan, dists, allowed);
    assert(search::found(ids, search::scan_plan_of(ids, probes, None), dists, None) =~= all);
    let first = if max_codes is Some && max_codes->0 < all.len() {
        all.take(max_codes->0 as int)
    } else {
        all
    };
    assert(search::found(ids, plan, dists, None) =~= first);
    assert(search::found(ids, plan, dists, filter) =~= pool);
    lemma_nearest(k, pool);
}

/// The answers of a batch: row `qi` of the output holds the answers to query
/// `qi`, distances and IDs apart, and behind them the greatest finite number and
/// the ID -1; nothing behind the last row changes.
pub proof fn lemma_rows(
    results: Seq<Seq<(u32, i64)>>,
    k: nat,
    before: (Seq<u32>, Seq<i64>),
    after: (Seq<u32>, Seq<i64>),
)
    requires
        search::written_to(results, k, before, after),
        results.len() * k <= before.0.len(),
        results.len() * k <= before.1.len(),
    ensures
        after.0.len() == before.0.len(),
        after.1.len() == before.1.len(),
        forall|qi: int, i: int|
            #![trigger results[qi][i]]
            0 <= qi < results.len() && 0 <= i < k && i < results[qi].len() ==> after.0[qi * k + i]
                == results[qi][i].0 && after.1[qi * k + i] == results[qi][i].1,
        forall|qi: int, i: int|
            #![trigger after.0[qi * k + i]]
            #![trigger after.1[qi * k + i]]
            0 <= qi < results.len() && results[qi].len() <= i < k ==> after.0[qi * k + i]
                == 0x7f7f_ffff && after.1[qi * k + i] == -1,
        forall|x: int|
            #![trigger after.0[x]]
            results.len() * k <= x < before.0.len() ==> after.0[x] == before.0[x],
        forall|x: int|
            #![trigger after.1[x]]
            results.len() * k <= x < before.1.len() ==> after.1[x] == before.1[x],
{
    search::lemma_answers_len(results, k);
    assert forall|qi: int, i: int|
        #![trigger results[qi][i]]
        0 <= qi < results.len() && 0 <= i < k && i < results[qi].len() implies after.0[qi * k + i]
        == results[qi][i].0 && after.1[qi * k + i] == results[qi][i].1 by {
        search::lemma_answers_at(results, k, qi, i);
    }
    assert forall|qi: int, i: int|
        #![trigger after.0[qi * k + i]]
        #![trigger after.1[qi * k + i]]
        0 <= qi < results.len() && results[qi].len() <= i < k implies after.0[qi * k + i]
        == 0x7f7f_ffff && after.1[qi * k + i] == -1 by {
        search::lemma_answers_at(results, k, qi, i);
    }
}

/// The answers of a batch by themselves: `k` for each query, answer `i` to query
/// `qi` at `qi * k + i`, and where there is none the greatest finite number and
/// the ID -1.
pub proof fn lemma_flat_rows(results: Seq<Seq<(u32, i64)>>, k: nat, qi: int, i: int)
    ensures
        search::distances_of(search::answers(results, k)).len() == results.len() * k,
        search::labels_of(search::answers(results, k)).len() == results.len() * k,
        0 <= qi < results.len() && 0 <= i < k && i < results[qi].len() ==> search::distances_of(
            search::answers(results, k),
        )[qi * k + i] == results[qi][i].0 && search::labels_of(search::answers(results, k))[qi * k
            + i] == results[qi][i].1,
        0 <= qi < results.len() && results[qi].len() <= i < k ==> search::distances_of(
            search::answers(results, k),
        )[qi * k + i] == 0x7f7f_ffff && search::labels_of(search::answers(results, k))[qi * k + i]
            == -1,
{
    search::lemma_answers_len(results, k);
    if 0 <= qi < results.len() && 0 <= i < k {
        search::lemma_answers_at(results, k, qi, i);
    }
}

/// An answer in two parts holds the ID and the distance of every answer, in
/// order.
pub proof fn lemma_parts(parts: (Vec<i64>, Vec<u32>), result: Seq<(u32, i64)>)
    ensures
        file_search::result_is(parts, result) <==> {
            &&& parts.0@.len() == result.len()
            &&& parts.1@.len() == result.len()
            &&& forall|i: int|
                #![trigger result[i]]
                0 <= i < result.len() ==> parts.0@[i] == result[i].1 && parts.1@[i] == result[i].0
        },
{
    if {
        &&& parts.0@.len() == result.len()
        &&& parts.1@.len() == result.len()
        &&& forall|i: int|
            #![trigger result[i]]
            0 <= i < result.len() ==> parts.0@[i] == result[i].1 && parts.1@[i] == result[i].0
    } {
        assert(parts.0@ =~= search::labels_of(result));
        assert(parts.1@ =~= search::distances_of(result));
    }
    if file_search::result_is(parts, result) {
        assert forall|i: int| #![trigger result[i]] 0 <= i < result.len() implies parts.0@[i]
            == result[i].1 && parts.1@[i] == result[i].0 by {
            assert(search::labels_of(result)[i] == result[i].1);
            assert(search::distances_of(result)[i] == result[i].0);
        }
    }
}

/// Every query of a batch is answered by itself: the answers to query `qi` are
/// those that it gets alone, from its own probes and its own distances.
pub proof fn lemma_batch_rows(
    index: &IVFPQIndex,
    nq: nat,
    probes: Seq<Vec<usize>>,
    max_codes: Option<usize>,
    dists: Seq<Vec<Vec<u32>>>,
    filter: Option<Set<i64>>,
    k: nat,
)
    ensures
        index.batch_results(nq, probes, max_codes, dists, filter, k).len() == nq,
        forall|qi: int|
            #![trigger index.batch_results(nq, probes, max_codes, dists, filter, k)[qi]]
            0 <= qi < nq ==> index.batch_results(nq, probes, max_codes, dists, filter, k)[qi]
                == index.query_result(probes[qi]@, max_codes, dists[qi]@, filter, k),
{
}

/// Once as many numbers were found as are asked for, what is no number is passed
/// over: the answers are those to the numbers alone.
pub proof fn lemma_passed_over(k: nat, items: Seq<(u32, i64)>)
    requires
        0 < k <= items.len(),
        forall|i: int| 0 <= i < k ==> !float::is_nan((#[trigger] items[i]).0),
    ensures
        heap::kept(k, items) == heap::kept(
            k,
            items.filter(|p: (u32, i64)| !float::is_nan(p.0)),
        ),
        heap::nearest(k, items) == heap::nearest(
            k,
            items.filter(|p: (u32, i64)| !float::is_nan(p.0)),
        ),
        items.filter(|p: (u32, i64)| !float::is_nan(p.0)).len() >= k,
    decreases items.len(),
{
    reveal(Seq::filter);
    let number = |p: (u32, i64)| !float::is_nan(p.0);
    let numbers = items.filter(number);
    if items.len() == k {
        lemma_all_pass(items);
    } else {
        let front = items.drop_last();
        let last = items.last();
        assert forall|i: int| 0 <= i < k implies !float::is_nan((#[trigger] front[i]).0) by {
            assert(front[i] == items[i]);
        }
        lemma_passed_over(k, front);
        let before = front.filter(number);
        assert forall|i: int| 0 <= i < before.len() implies !float::is_nan(
            (#[trigger] before[i]).0,
        ) by {
            front.lemma_filter_pred(number, i);
        }
        heap::lemma_kept(k, before);
        assert(items =~= front.push(last));
        heap::lemma_offered_next(k, Seq::empty(), front, last);
        if number(last) {
            heap::lemma_offered_next(k, Seq::empty(), before, last);
            assert(numbers =~= before.push(last));
        } else {
            heap::lemma_push_full(k, heap::kept(k, front), last);
            assert(numbers =~= before);
        }
    }
}

proof fn lemma_all_pass(items: Seq<(u32, i64)>)
    requires
        forall|i: int| 0 <= i < items.len() ==> !float::is_nan((#[trigger] items[i]).0),
    ensures
        items.filter(|p: (u32, i64)| !float::is_nan(p.0)) == items,
    decreases items.len(),
{
    reveal(Seq::filter);
    if items.len() > 0 {
        let front = items.drop_last();
        assert forall|i: int| 0 <= i < front.len() implies !float::is_nan(
            (#[trigger] front[i]).0,
        ) by {
            assert(front[i] == items[i]);
        }
        lemma_all_pass(front);
        assert(!float::is_nan(items[items.len() - 1].0));
        assert(items =~= front.push(items.last()));
    }
}

/// No answer is given where none is asked for, and a single vector is answered
/// whatever its distance is.
pub proof fn lemma_few(items: Seq<(u32, i64)>, k: nat)
    ensures
        heap::nearest(0, items).len() == 0,
        items.len() == 0 ==> heap::nearest(k, items).len() == 0,
        items.len() == 1 && k > 0 ==> heap::nearest(k, items) == items,
{
    heap::lemma_by_distance(heap::kept(0, items));
    heap::lemma_by_distance(heap::kept(k, items));
    heap::lemma_kept_offered(0, items, (0, 0));
    heap::lemma_kept_offered(k, items, (0, 0));
    if items.len() == 1 && k > 0 {
        assert(items =~= seq![items[0]]);
        heap::lemma_offered_next(k, Seq::empty(), Seq::empty(), items[0]);
        assert(Seq::<(u32, i64)>::empty().push(items[0]) =~= items);
        assert(heap::heapified(items, 0) == items);
        assert(heap::kept(k, items) == items);
        let result = heap::nearest(k, items);
        result.to_multiset_ensures();
        items.to_multiset_ensures();
        assert(result.contains(result[0]));
        assert(items.to_multiset().count(result[0]) > 0);
        assert(items.contains(result[0]));
        assert(result =~= items);
    }
}

} // verus!
