//! What the searches in memory return, in terms of their arguments.

use crate::float;
use crate::heap;
use crate::heap::TopKHeap;
use crate::ivfpq::IVFPQIndex;
use crate::query_laws;
use crate::search;
use crate::search::{Scan, TableSource};
use crate::search_laws;
use std::collections::HashSet;
use vstd::prelude::*;

verus! {

/// Without a limit the scans cover every probed list that is not empty from its
/// first vector to its last, in the order of the probes; together they look at
/// as many vectors as the probed lists hold.
pub proof fn lemma_scan_plan(index: &IVFPQIndex, probes: &[usize], plan: Vec<Scan>)
    requires
        call_ensures(IVFPQIndex::scan_plan, (index, probes, None::<usize>), plan),
    ensures
        ({
            let lists = probes@.filter(|l: usize| index.ids@[l as int]@.len() > 0);
            &&& plan@.len() == lists.len()
            &&& forall|j: int|
                #![trigger plan@[j]]
                0 <= j < plan@.len() ==> plan@[j].list_id == lists[j] && plan@[j].count
                    == index.ids@[lists[j] as int]@.len() && plan@[j].rank < probes@.len()
                    && probes@[plan@[j].rank as int] == lists[j]
            &&& forall|i: int, j: int|
                #![trigger plan@[i], plan@[j]]
                0 <= i < j < plan@.len() ==> plan@[i].rank < plan@[j].rank
            &&& forall|r: int|
                #![trigger probes@[r]]
                0 <= r < probes@.len() && index.ids@[probes@[r] as int]@.len() > 0
                    ==> exists|j: int|
                    0 <= j < plan@.len() && (#[trigger] plan@[j]).rank == r && plan@[j].list_id
                        == probes@[r] && plan@[j].count == index.ids@[probes@[r] as int]@.len()
            &&& plan@.map_values(|s: Scan| s.count as int).fold_left(
                0int,
                |a: int, b: int| a + b,
            ) == probes@.map_values(|l: usize| index.ids@[l as int]@.len() as int).fold_left(
                0int,
                |a: int, b: int| a + b,
            )
        }),
{
    assert(probes@.len() == probes.len());
    search_laws::lemma_plan_complete(index.ids@, probes@);
}

/// A limit cuts the scans off: they are the first of those without a limit, all
/// but the last of them to the end of their list, and together they look at as
/// many vectors as the limit allows, or at all of them.
pub proof fn lemma_limited_scan_plan(
    index: &IVFPQIndex,
    probes: &[usize],
    max: usize,
    plan: Vec<Scan>,
    full: Vec<Scan>,
)
    requires
        call_ensures(IVFPQIndex::scan_plan, (index, probes, Some(max)), plan),
        call_ensures(IVFPQIndex::scan_plan, (index, probes, None::<usize>), full),
    ensures
        plan@.len() <= full@.len(),
        forall|j: int|
            #![trigger plan@[j]]
            0 <= j < plan@.len() ==> plan@[j].rank == full@[j].rank && plan@[j].list_id
                == full@[j].list_id && 0 < plan@[j].count <= full@[j].count,
        forall|j: int|
            #![trigger plan@[j]]
            0 <= j < plan@.len() - 1 ==> plan@[j].count == full@[j].count,
        ({
            let total = full@.map_values(|s: Scan| s.count as int).fold_left(
                0int,
                |a: int, b: int| a + b,
            );
            plan@.map_values(|s: Scan| s.count as int).fold_left(0int, |a: int, b: int| a + b)
                == if max < total {
                max as int
            } else {
                total
            }
        }),
{
    assert(probes@.len() == probes.len());
    search_laws::lemma_plan_limited(index.ids@, probes@, max);
}

/// A filter lets every vector pass whose ID it contains, with its own distance,
/// and no other: what is offered to the heap are the first vectors of the list,
/// each with its own distance, less those that the filter does not contain.
pub proof fn lemma_push_candidates(
    ids: &[i64],
    dists: &[u32],
    count: usize,
    filter: &HashSet<i64>,
)
    ensures
        forall|heap: &mut TopKHeap| #[trigger]
            call_ensures(search::push_candidates, (heap, ids, dists, count, Some(filter)), ())
                ==> final(heap).k == heap.k && final(heap).data@ == heap::offered_all(
                heap.k as nat,
                heap.data@,
                Seq::new(count as nat, |g: int| (dists@[g], ids@[g])).filter(
                    |p: (u32, i64)| filter@.contains(p.1),
                ),
            ),
        forall|heap: &mut TopKHeap| #[trigger]
            call_ensures(
                search::push_candidates,
                (heap, ids, dists, count, None::<&HashSet<i64>>),
                (),
            ) ==> final(heap).k == heap.k && final(heap).data@ == heap::offered_all(
                heap.k as nat,
                heap.data@,
                Seq::new(count as nat, |g: int| (dists@[g], ids@[g])),
            ),
{
    search_laws::lemma_candidates(ids@, dists@, count as nat, filter@);
}

/// The answers to one query: the `k` nearest of the vectors of the probed lists,
/// each with its own distance and ID, where with a limit only the first vectors
/// count, and with a filter only those whose ID is in it.
pub proof fn lemma_search_one(
    index: &IVFPQIndex,
    probes: &[usize],
    max_codes: Option<usize>,
    dists: &[Vec<u32>],
    filter: Option<&HashSet<i64>>,
    k: usize,
    result: Vec<(u32, i64)>,
    all: Seq<(u32, i64)>,
    pool: Seq<(u32, i64)>,
)
    requires
        call_ensures(
            IVFPQIndex::search_one,
            (index, probes, max_codes, dists, filter, k),
            result,
        ),
        ({
            let lists = probes@.filter(|l: usize| index.ids@[l as int]@.len() > 0);
            all == Seq::new(
                lists.len(),
                |j: int|
                    Seq::new(
                        index.ids@[lists[j] as int]@.len(),
                        |g: int| (dists@[j]@[g], index.ids@[lists[j] as int]@[g]),
                    ),
            ).flatten()
        }),
        ({
            let first = if max_codes is Some && max_codes->0 < all.len() {
                all.take(max_codes->0 as int)
            } else {
                all
            };
            pool == match filter {
                Some(f) => first.filter(|p: (u32, i64)| f@.contains(p.1)),
                None => first,
            }
        }),
        forall|i: int| 0 <= i < pool.len() ==> !float::is_nan((#[trigger] pool[i]).0),
    ensures
        ({
            let row = result@;
            &&& row.len() == if pool.len() < k {
                pool.len()
            } else {
                k as nat
            }
            &&& forall|i: int, j: int|
                #![trigger row[i], row[j]]
                0 <= i < j < row.len() ==> float::rank(row[i].0) <= float::rank(row[j].0)
            &&& forall|p: (u32, i64)| #[trigger]
                row.to_multiset().count(p) <= pool.to_multiset().count(p)
            &&& forall|i: int|
                #![trigger row[i]]
                0 <= i < row.len() ==> pool.filter(
                    |p: (u32, i64)| float::rank(p.0) < float::rank(row[i].0),
                ).len() <= i
        }),
{
    assert(probes@.len() == probes.len());
    let f = match filter {
        Some(f) => Some(f@),
        None => None,
    };
    search_laws::lemma_query_answers(index, probes@, max_codes, dists@, f, k as nat, all, pool);
}

/// The answers to query `qi` of a batch stand in row `qi` of the output: the `k`
/// nearest of the vectors of the lists that it probes, each with its own distance
/// and ID, by ascending distance. Where there are fewer, the greatest finite
/// number and the ID -1 follow. Nothing behind the last row changes.
pub proof fn lemma_search(
    index: &IVFPQIndex,
    nq: usize,
    k: usize,
    probes: &[Vec<usize>],
    dists: &[Vec<Vec<u32>>],
    before: (Seq<u32>, Seq<i64>),
    after: (Seq<u32>, Seq<i64>),
    qi: int,
    all: Seq<(u32, i64)>,
    pool: Seq<(u32, i64)>,
    row: Seq<(u32, i64)>,
)
    requires
        exists|d: &mut [u32], l: &mut [i64]|
            #[trigger] call_ensures(
                IVFPQIndex::search,
                (index, nq, k, probes, dists, d, l),
                (),
            ) && d@ == before.0 && l@ == before.1 && final(d)@ == after.0 && final(l)@ == after.1,
        nq * k <= before.0.len(),
        nq * k <= before.1.len(),
        0 <= qi < nq,
        ({
            let lists = probes@[qi]@.filter(|l: usize| index.ids@[l as int]@.len() > 0);
            all == Seq::new(
                lists.len(),
                |j: int|
                    Seq::new(
                        index.ids@[lists[j] as int]@.len(),
                        |g: int| (dists@[qi]@[j]@[g], index.ids@[lists[j] as int]@[g]),
                    ),
            ).flatten()
        }),
        pool == all,
        forall|i: int| 0 <= i < pool.len() ==> !float::is_nan((#[trigger] pool[i]).0),
        row == Seq::new(
            if pool.len() < k {
                pool.len()
            } else {
                k as nat
            },
            |i: int| (after.0[qi * k + i], after.1[qi * k + i]),
        ),
    ensures
        forall|i: int, j: int|
            #![trigger row[i], row[j]]
            0 <= i < j < row.len() ==> float::rank(row[i].0) <= float::rank(row[j].0),
        forall|p: (u32, i64)| #[trigger]
            row.to_multiset().count(p) <= pool.to_multiset().count(p),
        forall|i: int|
            #![trigger row[i]]
            0 <= i < row.len() ==> pool.filter(
                |p: (u32, i64)| float::rank(p.0) < float::rank(row[i].0),
            ).len() <= i,
        forall|i: int|
            #![trigger after.0[qi * k + i]]
            #![trigger after.1[qi * k + i]]
            row.len() <= i < k ==> after.0[qi * k + i] == 0x7f7f_ffff && after.1[qi * k + i] == -1,
        after.0.len() == before.0.len(),
        after.1.len() == before.1.len(),
        forall|x: int|
            #![trigger after.0[x]]
            nq * k <= x < before.0.len() ==> after.0[x] == before.0[x],
        forall|x: int|
            #![trigger after.1[x]]
            nq * k <= x < before.1.len() ==> after.1[x] == before.1[x],
{
    let max_codes = None::<usize>;
    let f = None::<Set<i64>>;
    let results = index.batch_results(nq as nat, probes@, max_codes, dists@, f, k as nat);
    assert(probes@[qi]@.len() == probes@[qi].len());
    search_laws::lemma_query_answers(
        index,
        probes@[qi]@,
        max_codes,
        dists@[qi]@,
        f,
        k as nat,
        all,
        pool,
    );
    search_laws::lemma_batch_rows(index, nq as nat, probes@, max_codes, dists@, f, k as nat);
    assert(search::written_to(results, k as nat, before, after));
    search_laws::lemma_rows(results, k as nat, before, after);
    assert forall|i: int| 0 <= i < row.len() implies row[i] == results[qi][i] by {
        assert(after.0[qi * k + i] == results[qi][i].0);
    }
    assert(row =~= results[qi]);
}

/// With a filter the answers to a query are the nearest of those vectors whose
/// ID is in it.
pub proof fn lemma_search_with_filter(
    index: &IVFPQIndex,
    nq: usize,
    k: usize,
    probes: &[Vec<usize>],
    dists: &[Vec<Vec<u32>>],
    filter: &HashSet<i64>,
    before: (Seq<u32>, Seq<i64>),
    after: (Seq<u32>, Seq<i64>),
    qi: int,
    all: Seq<(u32, i64)>,
    pool: Seq<(u32, i64)>,
    row: Seq<(u32, i64)>,
)
    requires
        exists|d: &mut [u32], l: &mut [i64]|
            #[trigger] call_ensures(
                IVFPQIndex::search_with_filter,
                (index, nq, k, probes, dists, Some(filter), d, l),
                (),
            ) && d@ == before.0 && l@ == before.1 && final(d)@ == after.0 && final(l)@ == after.1,
        nq * k <= before.0.len(),
        nq * k <= before.1.len(),
        0 <= qi < nq,
        ({
            let lists = probes@[qi]@.filter(|l: usize| index.ids@[l as int]@.len() > 0);
            all == Seq::new(
                lists.len(),
                |j: int|
                    Seq::new(
                        index.ids@[lists[j] as int]@.len(),
                        |g: int| (dists@[qi]@[j]@[g], index.ids@[lists[j] as int]@[g]),
                    ),
            ).flatten()
        }),
        pool == all.filter(|p: (u32, i64)| filter@.contains(p.1)),
        forall|i: int| 0 <= i < pool.len() ==> !float::is_nan((#[trigger] pool[i]).0),
        row == Seq::new(
            if pool.len() < k {
                pool.len()
            } else {
                k as nat
            },
            |i: int| (after.0[qi * k + i], after.1[qi * k + i]),
        ),
    ensures
        forall|i: int, j: int|
            #![trigger row[i], row[j]]
            0 <= i < j < row.len() ==> float::rank(row[i].0) <= float::rank(row[j].0),
        forall|p: (u32, i64)| #[trigger]
            row.to_multiset().count(p) <= pool.to_multiset().count(p),
        forall|i: int|
            #![trigger row[i]]
            0 <= i < row.len() ==> pool.filter(
                |p: (u32, i64)| float::rank(p.0) < float::rank(row[i].0),
            ).len() <= i,
        forall|i: int|
            #![trigger after.0[qi * k + i]]
            #![trigger after.1[qi * k + i]]
            row.len() <= i < k ==> after.0[qi * k + i] == 0x7f7f_ffff && after.1[qi * k + i] == -1,
        after.0.len() == before.0.len(),
        after.1.len() == before.1.len(),
        forall|x: int|
            #![trigger after.0[x]]
            nq * k <= x < before.0.len() ==> after.0[x] == before.0[x],
        forall|x: int|
            #![trigger after.1[x]]
            nq * k <= x < before.1.len() ==> after.1[x] == before.1[x],
{
    let max_codes = None::<usize>;
    let f = Some(filter@);
    let results = index.batch_results(nq as nat, probes@, max_codes, dists@, f, k as nat);
    assert(probes@[qi]@.len() == probes@[qi].len());
    search_laws::lemma_query_answers(
        index,
        probes@[qi]@,
        max_codes,
        dists@[qi]@,
        f,
        k as nat,
        all,
        pool,
    );
    search_laws::lemma_batch_rows(index, nq as nat, probes@, max_codes, dists@, f, k as nat);
    assert(search::written_to(results, k as nat, before, after));
    search_laws::lemma_rows(results, k as nat, before, after);
    assert forall|i: int| 0 <= i < row.len() implies row[i] == results[qi][i] by {
        assert(after.0[qi * k + i] == results[qi][i].0);
    }
    assert(row =~= results[qi]);
}

/// With a limit the answers to a query are the nearest of the first vectors that
/// it comes to, as many as the limit allows.
pub proof fn lemma_search_with_max_codes(
    index: &IVFPQIndex,
    nq: usize,
    k: usize,
    probes: &[Vec<usize>],
    dists: &[Vec<Vec<u32>>],
    max: usize,
    before: (Seq<u32>, Seq<i64>),
    after: (Seq<u32>, Seq<i64>),
    qi: int,
    all: Seq<(u32, i64)>,
    pool: Seq<(u32, i64)>,
    row: Seq<(u32, i64)>,
)
    requires
        exists|d: &mut [u32], l: &mut [i64]|
            #[trigger] call_ensures(
                IVFPQIndex::search_with_max_codes,
                (index, nq, k, probes, max, dists, d, l),
                (),
            ) && d@ == before.0 && l@ == before.1 && final(d)@ == after.0 && final(l)@ == after.1,
        nq * k <= before.0.len(),
        nq * k <= before.1.len(),
        0 <= qi < nq,
        ({
            let lists = probes@[qi]@.filter(|l: usize| index.ids@[l as int]@.len() > 0);
            all == Seq::new(
                lists.len(),
                |j: int|
                    Seq::new(
                        index.ids@[lists[j] as int]@.len(),
                        |g: int| (dists@[qi]@[j]@[g], index.ids@[lists[j] as int]@[g]),
                    ),
            ).flatten()
        }),
        pool == if max < all.len() {
            all.take(max as int)
        } else {
            all
        },
        forall|i: int| 0 <= i < pool.len() ==> !float::is_nan((#[trigger] pool[i]).0),
        row == Seq::new(
            if pool.len() < k {
                pool.len()
            } else {
                k as nat
            },
            |i: int| (after.0[qi * k + i], after.1[qi * k + i]),
        ),
    ensures
        forall|i: int, j: int|
            #![trigger row[i], row[j]]
            0 <= i < j < row.len() ==> float::rank(row[i].0) <= float::rank(row[j].0),
        forall|p: (u32, i64)| #[trigger]
            row.to_multiset().count(p) <= pool.to_multiset().count(p),
        forall|i: int|
            #![trigger row[i]]
            0 <= i < row.len() ==> pool.filter(
                |p: (u32, i64)| float::rank(p.0) < float::rank(row[i].0),
            ).len() <= i,
        forall|i: int|
            #![trigger after.0[qi * k + i]]
            #![trigger after.1[qi * k + i]]
            row.len() <= i < k ==> after.0[qi * k + i] == 0x7f7f_ffff && after.1[qi * k + i] == -1,
        after.0.len() == before.0.len(),
        after.1.len() == before.1.len(),
        forall|x: int|
            #![trigger after.0[x]]
            nq * k <= x < before.0.len() ==> after.0[x] == before.0[x],
        forall|x: int|
            #![trigger after.1[x]]
            nq * k <= x < before.1.len() ==> after.1[x] == before.1[x],
{
    let max_codes = Some(max);
    let f = None::<Set<i64>>;
    let results = index.batch_results(nq as nat, probes@, max_codes, dists@, f, k as nat);
    assert(probes@[qi]@.len() == probes@[qi].len());
    search_laws::lemma_query_answers(
        index,
        probes@[qi]@,
        max_codes,
        dists@[qi]@,
        f,
        k as nat,
        all,
        pool,
    );
    search_laws::lemma_batch_rows(index, nq as nat, probes@, max_codes, dists@, f, k as nat);
    assert(search::written_to(results, k as nat, before, after));
    search_laws::lemma_rows(results, k as nat, before, after);
    assert forall|i: int| 0 <= i < row.len() implies row[i] == results[qi][i] by {
        assert(after.0[qi * k + i] == results[qi][i].0);
    }
    assert(row =~= results[qi]);
}

/// A query whose lists exist can be answered, if there is a distance for every
/// vector of those that are not empty, and every distance is a number.
pub proof fn lemma_can_answer(
    index: &IVFPQIndex,
    probes: &[usize],
    dists: &[Vec<u32>],
    filter: Option<&HashSet<i64>>,
    k: usize,
    lists: Seq<usize>,
    yes: bool,
)
    requires
        call_ensures(
            IVFPQIndex::can_answer,
            (index, probes, None::<usize>, dists, filter, k),
            yes,
        ),
        lists == probes@.filter(|l: usize| index.ids@[l as int]@.len() > 0),
        forall|r: int| 0 <= r < probes@.len() ==> #[trigger] probes@[r] < index.nlist,
        dists@.len() == lists.len(),
        forall|j: int|
            #![trigger dists@[j]]
            0 <= j < lists.len() ==> dists@[j]@.len() >= index.ids@[lists[j] as int]@.len(),
        forall|j: int, g: int|
            #![trigger dists@[j]@[g]]
            0 <= j < lists.len() && 0 <= g < dists@[j]@.len() ==> !float::is_nan(dists@[j]@[g]),
    ensures
        yes,
{
    assert(probes@.len() == probes.len());
    query_laws::lemma_answerable(
        index,
        probes@,
        dists@,
        search::filter_view(filter),
        k as nat,
        lists,
    );
}

/// Where a distance table comes from.
pub proof fn lemma_table_source(precomputed: bool, by_residual: bool, source: TableSource)
    requires
        call_ensures(search::table_source, (precomputed, by_residual), source),
    ensures
        source is Precomputed <==> precomputed,
        source is Residual <==> !precomputed && by_residual,
        source is Query <==> !precomputed && !by_residual,
{
}

} // verus!
