//! Searching: which vectors are compared with a query, and which are answered.
//!
//! The distances come from outside; what is done with them is decided here.

use crate::float;
use crate::float::F32_MAX;
use crate::heap;
use crate::heap::TopKHeap;
use crate::ivfpq::IVFPQIndex;
use std::collections::HashSet;
use vstd::prelude::*;

verus! {

broadcast use vstd::std_specs::hash::group_hash_axioms;

/// A part of a search: the first `count` vectors of a list, which was the
/// `rank`-th of those that the query probes.
#[derive(Debug, Clone, Copy, PartialEq, Eq, Structural)]
pub struct Scan {
    pub rank: usize,
    pub list_id: usize,
    pub count: usize,
}

/// Where the distance table of a query and a list comes from.
#[derive(Debug, Clone, Copy, PartialEq, Eq, Structural)]
pub enum TableSource {
    /// From the table of precomputed distances and the inner products of the
    /// query. The coarse distance has to be added.
    Precomputed,
    /// From the difference of the query and the coarse centroid.
    Residual,
    /// From the query alone.
    Query,
}

/// Where the distance table of a query and a list comes from.
pub fn table_source(precomputed: bool, by_residual: bool) -> (source: TableSource)
    ensures
        source == if precomputed {
            TableSource::Precomputed
        } else if by_residual {
            TableSource::Residual
        } else {
            TableSource::Query
        },
{
    if precomputed {
        TableSource::Precomputed
    } else if by_residual {
        TableSource::Residual
    } else {
        TableSource::Query
    }
}

/// The IDs that a filter lets pass.
pub open spec fn filter_view(filter: Option<&HashSet<i64>>) -> Option<Set<i64>> {
    match filter {
        Some(f) => Some(f@),
        None => None,
    }
}

/// Whether an ID may be answered.
pub open spec fn admitted(filter: Option<Set<i64>>, id: i64) -> bool {
    match filter {
        Some(f) => f.contains(id),
        None => true,
    }
}

/// The first `n` vectors of a list with their distances, without those that
/// may not be answered.
pub open spec fn candidates(
    ids: Seq<i64>,
    dists: Seq<u32>,
    n: nat,
    filter: Option<Set<i64>>,
) -> Seq<(u32, i64)>
    decreases n,
{
    if n == 0 {
        Seq::empty()
    } else {
        let before = candidates(ids, dists, (n - 1) as nat, filter);
        if admitted(filter, ids[n - 1]) {
            before.push((dists[n - 1], ids[n - 1]))
        } else {
            before
        }
    }
}

/// How many vectors the scans look at.
pub open spec fn scanned(plan: Seq<Scan>) -> nat
    decreases plan.len(),
{
    if plan.len() == 0 {
        0
    } else {
        scanned(plan.drop_last()) + plan.last().count as nat
    }
}

/// How many of `len` vectors a search still looks at after `done` others.
pub open spec fn allowance(len: nat, done: nat, max_codes: Option<usize>) -> nat {
    match max_codes {
        None => len,
        Some(max) => if done >= max {
            0
        } else if len < max - done {
            len
        } else {
            (max - done) as nat
        },
    }
}

/// The scans of a query that probes the lists `probes`, one after the other,
/// and looks at `max_codes` vectors at most.
pub open spec fn scan_plan_of(
    ids: Seq<Vec<i64>>,
    probes: Seq<usize>,
    max_codes: Option<usize>,
) -> Seq<Scan>
    decreases probes.len(),
{
    if probes.len() == 0 {
        Seq::empty()
    } else {
        let before = scan_plan_of(ids, probes.drop_last(), max_codes);
        let list_id = probes.last();
        let count = allowance(ids[list_id as int]@.len(), scanned(before), max_codes);
        if count == 0 {
            before
        } else {
            before.push(Scan { rank: (probes.len() - 1) as usize, list_id, count: count as usize })
        }
    }
}

/// What the scans find, in their order. `dists` holds the distances of every
/// scan.
pub open spec fn found(
    ids: Seq<Vec<i64>>,
    plan: Seq<Scan>,
    dists: Seq<Vec<u32>>,
    filter: Option<Set<i64>>,
) -> Seq<(u32, i64)>
    decreases plan.len(),
{
    if plan.len() == 0 {
        Seq::empty()
    } else {
        let scan = plan.last();
        found(ids, plan.drop_last(), dists, filter) + candidates(
            ids[scan.list_id as int]@,
            dists[plan.len() - 1]@,
            scan.count as nat,
            filter,
        )
    }
}

/// There is a distance for every vector that the scans look at.
pub open spec fn scored(plan: Seq<Scan>, dists: Seq<Vec<u32>>) -> bool {
    &&& dists.len() == plan.len()
    &&& forall|j: int|
        #![trigger plan[j]]
        0 <= j < plan.len() ==> plan[j].count <= dists[j]@.len()
}

/// `k` answers: the found ones, and what stands for no answer behind them.
pub open spec fn padded(result: Seq<(u32, i64)>, k: nat) -> Seq<(u32, i64)> {
    Seq::new(
        k,
        |i: int|
            if i < result.len() {
                result[i]
            } else {
                (F32_MAX, -1i64)
            },
    )
}

/// `k` answers for every query, one query after the other.
pub open spec fn answers(results: Seq<Seq<(u32, i64)>>, k: nat) -> Seq<(u32, i64)>
    decreases results.len(),
{
    if results.len() == 0 {
        Seq::empty()
    } else {
        answers(results.drop_last(), k) + padded(results.last(), k)
    }
}

/// The distances of answers.
pub open spec fn distances_of(items: Seq<(u32, i64)>) -> Seq<u32> {
    items.map_values(|item: (u32, i64)| item.0)
}

/// The IDs of answers.
pub open spec fn labels_of(items: Seq<(u32, i64)>) -> Seq<i64> {
    items.map_values(|item: (u32, i64)| item.1)
}

/// The answers stand at the front of the output, distances and IDs apart; what
/// lies behind them is untouched.
pub open spec fn written_to(
    results: Seq<Seq<(u32, i64)>>,
    k: nat,
    before: (Seq<u32>, Seq<i64>),
    after: (Seq<u32>, Seq<i64>),
) -> bool {
    let n = (results.len() * k) as int;
    &&& after.0 == distances_of(answers(results, k)) + before.0.skip(n)
    &&& after.1 == labels_of(answers(results, k)) + before.1.skip(n)
}

proof fn lemma_offered_all_push(
    k: nat,
    data: Seq<(u32, i64)>,
    items: Seq<(u32, i64)>,
    item: (u32, i64),
)
    ensures
        heap::offered_all(k, data, items.push(item)) == heap::offered(
            k,
            heap::offered_all(k, data, items),
            item,
        ),
{
    assert(items.push(item).drop_last() =~= items);
}

/// Offering items in two steps is offering them in one.
pub proof fn lemma_offered_all_concat(
    k: nat,
    data: Seq<(u32, i64)>,
    a: Seq<(u32, i64)>,
    b: Seq<(u32, i64)>,
)
    ensures
        heap::offered_all(k, data, a + b) == heap::offered_all(
            k,
            heap::offered_all(k, data, a),
            b,
        ),
    decreases b.len(),
{
    if b.len() == 0 {
        assert(a + b =~= a);
    } else {
        lemma_offered_all_concat(k, data, a, b.drop_last());
        assert((a + b).drop_last() =~= a + b.drop_last());
    }
}

/// Whether an ID may be answered.
fn is_admitted(filter: Option<&HashSet<i64>>, id: i64) -> (yes: bool)
    ensures
        yes == admitted(filter_view(filter), id),
{
    match filter {
        Some(f) => f.contains(&id),
        None => true,
    }
}

/// Offers the first `count` vectors of a list to a heap.
pub fn push_candidates(
    heap: &mut TopKHeap,
    ids: &[i64],
    dists: &[u32],
    count: usize,
    filter: Option<&HashSet<i64>>,
)
    requires
        old(heap).wf(),
        count <= ids@.len(),
        count <= dists@.len(),
    ensures
        final(heap).wf(),
        final(heap).k == old(heap).k,
        final(heap).data@ == heap::offered_all(
            old(heap).k as nat,
            old(heap).data@,
            candidates(ids@, dists@, count as nat, filter_view(filter)),
        ),
{
    let ghost f = filter_view(filter);
    let ghost k = heap.k as nat;
    let ghost data = heap.data@;
    let mut i: usize = 0;
    while i < count
        invariant
            i <= count,
            count <= ids@.len(),
            count <= dists@.len(),
            f == filter_view(filter),
            heap.wf(),
            heap.k == k,
            k == old(heap).k,
            data == old(heap).data@,
            heap.data@ == heap::offered_all(k, data, candidates(ids@, dists@, i as nat, f)),
        decreases count - i,
    {
        let id: i64 = ids[i];
        if is_admitted(filter, id) {
            proof {
                lemma_offered_all_push(
                    k,
                    data,
                    candidates(ids@, dists@, i as nat, f),
                    (dists@[i as int], id),
                );
            }
            heap.push(dists[i], id);
        }
        i = i + 1;
    }
}

/// Puts `k` answers behind the answers to earlier queries.
fn write_answers(
    result: &Vec<(u32, i64)>,
    k: usize,
    base: usize,
    result_distances: &mut [u32],
    result_labels: &mut [i64],
)
    requires
        base + k <= old(result_distances)@.len(),
        base + k <= old(result_labels)@.len(),
    ensures
        final(result_distances)@ == old(result_distances)@.take(base as int) + distances_of(
            padded(result@, k as nat),
        ) + old(result_distances)@.skip(base + k),
        final(result_labels)@ == old(result_labels)@.take(base as int) + labels_of(
            padded(result@, k as nat),
        ) + old(result_labels)@.skip(base + k),
{
    let ghost p = padded(result@, k as nat);
    let total: usize = result_distances.len();
    let mut i: usize = 0;
    while i < k
        invariant
            i <= k,
            total == result_distances@.len(),
            base + k <= total,
            base + k <= result_labels@.len(),
            p == padded(result@, k as nat),
            result_distances@.len() == old(result_distances)@.len(),
            result_labels@.len() == old(result_labels)@.len(),
            forall|j: int|
                #![trigger result_distances@[j]]
                0 <= j < result_distances@.len() ==> result_distances@[j] == if base <= j < base
                    + i {
                    p[j - base].0
                } else {
                    old(result_distances)@[j]
                },
            forall|j: int|
                #![trigger result_labels@[j]]
                0 <= j < result_labels@.len() ==> result_labels@[j] == if base <= j < base + i {
                    p[j - base].1
                } else {
                    old(result_labels)@[j]
                },
        decreases k - i,
    {
        if i < result.len() {
            result_distances[base + i] = result[i].0;
            result_labels[base + i] = result[i].1;
        } else {
            result_distances[base + i] = F32_MAX;
            result_labels[base + i] = -1;
        }
        i = i + 1;
    }
    assert(result_distances@ =~= old(result_distances)@.take(base as int) + distances_of(p)
        + old(result_distances)@.skip(base + k));
    assert(result_labels@ =~= old(result_labels)@.take(base as int) + labels_of(p)
        + old(result_labels)@.skip(base + k));
}

/// `k` answers for every query.
pub proof fn lemma_answers_len(results: Seq<Seq<(u32, i64)>>, k: nat)
    ensures
        answers(results, k).len() == results.len() * k,
    decreases results.len(),
{
    if results.len() > 0 {
        lemma_answers_len(results.drop_last(), k);
        assert((results.len() - 1) * k + k == results.len() * k) by (nonlinear_arith);
    } else {
        assert(0 * k == 0) by (nonlinear_arith);
    }
}

/// Answer `i` to query `qi` stands at `qi * k + i`.
pub proof fn lemma_answers_at(results: Seq<Seq<(u32, i64)>>, k: nat, qi: int, i: int)
    requires
        0 <= qi < results.len(),
        0 <= i < k,
    ensures
        0 <= qi * k + i < answers(results, k).len(),
        answers(results, k)[qi * k + i] == padded(results[qi], k)[i],
    decreases results.len(),
{
    let front = results.drop_last();
    let n: int = results.len() as int;
    lemma_answers_len(front, k);
    lemma_answers_len(results, k);
    assert((n - 1) * k + k == n * k) by (nonlinear_arith);
    if qi < n - 1 {
        lemma_answers_at(front, k, qi, i);
    }
}

impl IVFPQIndex {
    /// The probed lists exist.
    pub open spec fn probes_valid(&self, probes: Seq<usize>) -> bool {
        forall|i: int| 0 <= i < probes.len() ==> #[trigger] probes[i] < self.nlist
    }

    /// The answer to one query.
    pub open spec fn query_result(
        &self,
        probes: Seq<usize>,
        max_codes: Option<usize>,
        dists: Seq<Vec<u32>>,
        filter: Option<Set<i64>>,
        k: nat,
    ) -> Seq<(u32, i64)> {
        heap::nearest(
            k,
            found(self.ids@, scan_plan_of(self.ids@, probes, max_codes), dists, filter),
        )
    }

    /// A query can be answered: its lists exist, its scans have distances, and
    /// the distances that are kept can be compared.
    pub open spec fn answerable(
        &self,
        probes: Seq<usize>,
        max_codes: Option<usize>,
        dists: Seq<Vec<u32>>,
        filter: Option<Set<i64>>,
        k: nat,
    ) -> bool {
        let plan = scan_plan_of(self.ids@, probes, max_codes);
        &&& self.probes_valid(probes)
        &&& scored(plan, dists)
        &&& heap::sortable(heap::kept(k, found(self.ids@, plan, dists, filter)))
    }

    /// The scans of a query that probes the lists `probes`: those that are not
    /// empty, until `max_codes` vectors are reached.
    pub fn scan_plan(&self, probes: &[usize], max_codes: Option<usize>) -> (plan: Vec<Scan>)
        requires
            self.wf(),
            self.probes_valid(probes@),
        ensures
            plan@ == scan_plan_of(self.ids@, probes@, max_codes),
    {
        let mut plan: Vec<Scan> = Vec::new();
        let mut left: usize = match max_codes {
            Some(max) => max,
            None => 0,
        };
        let mut rank: usize = 0;
        while rank < probes.len()
            invariant
                rank <= probes@.len(),
                self.wf(),
                self.probes_valid(probes@),
                plan@ == scan_plan_of(self.ids@, probes@.take(rank as int), max_codes),
                max_codes matches Some(max) ==> left + scanned(plan@) == max,
            decreases probes@.len() - rank,
        {
            let list_id: usize = probes[rank];
            let len: usize = self.ids[list_id].len();
            let count: usize = if max_codes.is_some() && len >= left {
                left
            } else {
                len
            };
            proof {
                assert(probes@.take(rank + 1).drop_last() =~= probes@.take(rank as int));
                assert(count == allowance(
                    self.ids@[list_id as int]@.len(),
                    scanned(plan@),
                    max_codes,
                ));
            }
            if count > 0 {
                let ghost before = plan@;
                plan.push(Scan { rank, list_id, count });
                assert(plan@.drop_last() =~= before);
                if max_codes.is_some() {
                    left = left - count;
                }
            }
            rank = rank + 1;
        }
        assert(probes@.take(rank as int) =~= probes@);
        plan
    }

    /// The nearest of the vectors that one query comes to, from the distances
    /// of its scans.
    fn collect(
        &self,
        probes: &[usize],
        max_codes: Option<usize>,
        dists: &[Vec<u32>],
        filter: Option<&HashSet<i64>>,
        k: usize,
    ) -> (heap: TopKHeap)
        requires
            self.wf(),
            self.probes_valid(probes@),
            scored(scan_plan_of(self.ids@, probes@, max_codes), dists@),
        ensures
            heap.data@ == heap::kept(
                k as nat,
                found(
                    self.ids@,
                    scan_plan_of(self.ids@, probes@, max_codes),
                    dists@,
                    filter_view(filter),
                ),
            ),
    {
        let ghost f = filter_view(filter);
        let plan: Vec<Scan> = self.scan_plan(probes, max_codes);
        let mut heap: TopKHeap = TopKHeap::new(k);
        let mut j: usize = 0;
        let total: usize = probes.len();
        proof {
            lemma_plan_bounds(self, probes@, max_codes);
        }
        while j < plan.len()
            invariant
                j <= plan@.len(),
                self.wf(),
                scored(plan@, dists@),
                forall|x: int|
                    #![trigger plan@[x]]
                    0 <= x < plan@.len() ==> plan@[x].list_id < self.nlist && plan@[x].count
                        <= self.ids@[plan@[x].list_id as int]@.len(),
                f == filter_view(filter),
                heap.wf(),
                heap.k == k,
                heap.data@ == heap::kept(
                    k as nat,
                    found(self.ids@, plan@.take(j as int), dists@, f),
                ),
            decreases plan@.len() - j,
        {
            let scan: Scan = plan[j];
            let ghost before = found(self.ids@, plan@.take(j as int), dists@, f);
            push_candidates(
                &mut heap,
                self.ids[scan.list_id].as_slice(),
                dists[j].as_slice(),
                scan.count,
                filter,
            );
            proof {
                assert(plan@.take(j + 1).drop_last() =~= plan@.take(j as int));
                lemma_offered_all_concat(
                    k as nat,
                    Seq::empty(),
                    before,
                    candidates(
                        self.ids@[scan.list_id as int]@,
                        dists@[j as int]@,
                        scan.count as nat,
                        f,
                    ),
                );
            }
            j = j + 1;
        }
        assert(plan@.take(j as int) =~= plan@);
        heap
    }

    /// The answer to one query, from the distances of its scans.
    pub fn search_one(
        &self,
        probes: &[usize],
        max_codes: Option<usize>,
        dists: &[Vec<u32>],
        filter: Option<&HashSet<i64>>,
        k: usize,
    ) -> (result: Vec<(u32, i64)>)
        requires
            self.wf(),
            self.answerable(probes@, max_codes, dists@, filter_view(filter), k as nat),
        ensures
            result@ == self.query_result(
                probes@,
                max_codes,
                dists@,
                filter_view(filter),
                k as nat,
            ),
    {
        let heap: TopKHeap = self.collect(probes, max_codes, dists, filter, k);
        heap.into_sorted()
    }

    /// Whether one query can be answered.
    pub fn can_answer(
        &self,
        probes: &[usize],
        max_codes: Option<usize>,
        dists: &[Vec<u32>],
        filter: Option<&HashSet<i64>>,
        k: usize,
    ) -> (yes: bool)
        requires
            self.wf(),
        ensures
            yes == self.answerable(probes@, max_codes, dists@, filter_view(filter), k as nat),
    {
        let mut i: usize = 0;
        while i < probes.len()
            invariant
                i <= probes@.len(),
                forall|x: int| 0 <= x < i ==> #[trigger] probes@[x] < self.nlist,
            decreases probes@.len() - i,
        {
            if probes[i] >= self.nlist {
                assert(probes@[i as int] >= self.nlist);
                return false;
            }
            i = i + 1;
        }
        let plan: Vec<Scan> = self.scan_plan(probes, max_codes);
        if dists.len() != plan.len() {
            return false;
        }
        let mut j: usize = 0;
        while j < plan.len()
            invariant
                j <= plan@.len(),
                plan@.len() == dists@.len(),
                plan@ == scan_plan_of(self.ids@, probes@, max_codes),
                forall|x: int|
                    #![trigger plan@[x]]
                    0 <= x < j ==> plan@[x].count <= dists@[x]@.len(),
            decreases plan@.len() - j,
        {
            if plan[j].count > dists[j].len() {
                assert(plan@[j as int].count > dists@[j as int]@.len());
                return false;
            }
            j = j + 1;
        }
        let heap: TopKHeap = self.collect(probes, max_codes, dists, filter, k);
        heap::can_sort(&heap.data)
    }

    /// The answers to `nq` queries.
    pub open spec fn batch_results(
        &self,
        nq: nat,
        probes: Seq<Vec<usize>>,
        max_codes: Option<usize>,
        dists: Seq<Vec<Vec<u32>>>,
        filter: Option<Set<i64>>,
        k: nat,
    ) -> Seq<Seq<(u32, i64)>> {
        Seq::new(
            nq,
            |qi: int| self.query_result(probes[qi]@, max_codes, dists[qi]@, filter, k),
        )
    }

    /// All of `nq` queries can be answered.
    pub open spec fn batch_answerable(
        &self,
        nq: nat,
        probes: Seq<Vec<usize>>,
        max_codes: Option<usize>,
        dists: Seq<Vec<Vec<u32>>>,
        filter: Option<Set<i64>>,
        k: nat,
    ) -> bool {
        &&& nq <= probes.len()
        &&& nq <= dists.len()
        &&& forall|qi: int|
            #![trigger probes[qi]]
            0 <= qi < nq ==> self.answerable(probes[qi]@, max_codes, dists[qi]@, filter, k)
    }

    /// Answers `nq` queries with the `k` nearest vectors each.
    pub fn search(
        &self,
        nq: usize,
        k: usize,
        probes: &[Vec<usize>],
        dists: &[Vec<Vec<u32>>],
        result_distances: &mut [u32],
        result_labels: &mut [i64],
    )
        requires
            self.wf(),
            self.batch_answerable(nq as nat, probes@, None, dists@, None, k as nat),
            nq * k <= old(result_distances)@.len(),
            nq * k <= old(result_labels)@.len(),
        ensures
            written_to(
                self.batch_results(nq as nat, probes@, None, dists@, None, k as nat),
                k as nat,
                (old(result_distances)@, old(result_labels)@),
                (final(result_distances)@, final(result_labels)@),
            ),
    {
        self.search_with_filter(nq, k, probes, dists, None, result_distances, result_labels)
    }

    /// Answers `nq` queries with the `k` nearest vectors each that the filter
    /// lets pass.
    pub fn search_with_filter(
        &self,
        nq: usize,
        k: usize,
        probes: &[Vec<usize>],
        dists: &[Vec<Vec<u32>>],
        filter: Option<&HashSet<i64>>,
        result_distances: &mut [u32],
        result_labels: &mut [i64],
    )
        requires
            self.wf(),
            self.batch_answerable(
                nq as nat,
                probes@,
                None,
                dists@,
                filter_view(filter),
                k as nat,
            ),
            nq * k <= old(result_distances)@.len(),
            nq * k <= old(result_labels)@.len(),
        ensures
            written_to(
                self.batch_results(
                    nq as nat,
                    probes@,
                    None,
                    dists@,
                    filter_view(filter),
                    k as nat,
                ),
                k as nat,
                (old(result_distances)@, old(result_labels)@),
                (final(result_distances)@, final(result_labels)@),
            ),
    {
        self.search_all(nq, k, probes, None, dists, filter, result_distances, result_labels)
    }

    /// Answers `nq` queries with the `k` nearest vectors each, among the first
    /// `max_codes` vectors that each query comes to.
    pub fn search_with_max_codes(
        &self,
        nq: usize,
        k: usize,
        probes: &[Vec<usize>],
        max_codes: usize,
        dists: &[Vec<Vec<u32>>],
        result_distances: &mut [u32],
        result_labels: &mut [i64],
    )
        requires
            self.wf(),
            self.batch_answerable(nq as nat, probes@, Some(max_codes), dists@, None, k as nat),
            nq * k <= old(result_distances)@.len(),
            nq * k <= old(result_labels)@.len(),
        ensures
            written_to(
                self.batch_results(nq as nat, probes@, Some(max_codes), dists@, None, k as nat),
                k as nat,
                (old(result_distances)@, old(result_labels)@),
                (final(result_distances)@, final(result_labels)@),
            ),
    {
        self.search_all(
            nq,
            k,
            probes,
            Some(max_codes),
            dists,
            None,
            result_distances,
            result_labels,
        )
    }

    fn search_all(
        &self,
        nq: usize,
        k: usize,
        probes: &[Vec<usize>],
        max_codes: Option<usize>,
        dists: &[Vec<Vec<u32>>],
        filter: Option<&HashSet<i64>>,
        result_distances: &mut [u32],
        result_labels: &mut [i64],
    )
        requires
            self.wf(),
            self.batch_answerable(
                nq as nat,
                probes@,
                max_codes,
                dists@,
                filter_view(filter),
                k as nat,
            ),
            nq * k <= old(result_distances)@.len(),
            nq * k <= old(result_labels)@.len(),
        ensures
            written_to(
                self.batch_results(
                    nq as nat,
                    probes@,
                    max_codes,
                    dists@,
                    filter_view(filter),
                    k as nat,
                ),
                k as nat,
                (old(result_distances)@, old(result_labels)@),
                (final(result_distances)@, final(result_labels)@),
            ),
    {
        let ghost f = filter_view(filter);
        let ghost all = self.batch_results(nq as nat, probes@, max_codes, dists@, f, k as nat);
        let total: usize = result_distances.len();
        let mut qi: usize = 0;
        proof {
            assert(0 * k == 0) by (nonlinear_arith);
            assert(all.take(0) =~= Seq::<Seq<(u32, i64)>>::empty());
            assert(result_distances@ =~= distances_of(answers(all.take(0), k as nat))
                + old(result_distances)@.skip(0));
            assert(result_labels@ =~= labels_of(answers(all.take(0), k as nat))
                + old(result_labels)@.skip(0));
        }
        while qi < nq
            invariant
                qi <= nq,
                self.wf(),
                f == filter_view(filter),
                self.batch_answerable(nq as nat, probes@, max_codes, dists@, f, k as nat),
                all == self.batch_results(nq as nat, probes@, max_codes, dists@, f, k as nat),
                total == old(result_distances)@.len(),
                nq * k <= total,
                nq * k <= old(result_labels)@.len(),
                result_distances@.len() == old(result_distances)@.len(),
                result_labels@.len() == old(result_labels)@.len(),
                result_distances@ == distances_of(answers(all.take(qi as int), k as nat)) + old(
                    result_distances,
                )@.skip(qi * k),
                result_labels@ == labels_of(answers(all.take(qi as int), k as nat)) + old(
                    result_labels,
                )@.skip(qi * k),
            decreases nq - qi,
        {
            proof {
                assert(qi * k + k == (qi + 1) * k) by (nonlinear_arith);
                assert((qi + 1) * k <= nq * k) by (nonlinear_arith)
                    requires
                        qi + 1 <= nq,
                ;
                assert(self.answerable(
                    probes@[qi as int]@,
                    max_codes,
                    dists@[qi as int]@,
                    f,
                    k as nat,
                ));
                lemma_answers_len(all.take(qi as int), k as nat);
            }
            let result: Vec<(u32, i64)> = self.search_one(
                probes[qi].as_slice(),
                max_codes,
                dists[qi].as_slice(),
                filter,
                k,
            );
            let ghost done = answers(all.take(qi as int), k as nat);
            let ghost before_d = result_distances@;
            let ghost before_l = result_labels@;
            write_answers(&result, k, qi * k, result_distances, result_labels);
            proof {
                let p = padded(result@, k as nat);
                assert(all.take(qi + 1).drop_last() =~= all.take(qi as int));
                assert(all.take(qi + 1).last() == result@);
                assert(answers(all.take(qi + 1), k as nat) == done + p);
                assert(before_d.take(qi * k) =~= distances_of(done));
                assert(before_d.skip(qi * k + k) =~= old(result_distances)@.skip((qi + 1) * k));
                assert(before_l.take(qi * k) =~= labels_of(done));
                assert(before_l.skip(qi * k + k) =~= old(result_labels)@.skip((qi + 1) * k));
                assert(distances_of(done + p) =~= distances_of(done) + distances_of(p));
                assert(labels_of(done + p) =~= labels_of(done) + labels_of(p));
            }
            qi = qi + 1;
        }
        assert(all.take(qi as int) =~= all);
    }
}

/// Every scan stays within its list, and no list is scanned in vain.
pub proof fn lemma_plan_bounds(index: &IVFPQIndex, probes: Seq<usize>, max_codes: Option<usize>)
    requires
        index.wf(),
        probes.len() <= usize::MAX,
        index.probes_valid(probes),
    ensures
        forall|x: int|
            #![trigger scan_plan_of(index.ids@, probes, max_codes)[x]]
            0 <= x < scan_plan_of(index.ids@, probes, max_codes).len() ==> {
                let scan = scan_plan_of(index.ids@, probes, max_codes)[x];
                &&& scan.rank < probes.len()
                &&& scan.list_id == probes[scan.rank as int]
                &&& scan.list_id < index.nlist
                &&& 0 < scan.count <= index.ids@[scan.list_id as int]@.len()
            },
    decreases probes.len(),
{
    if probes.len() > 0 {
        let front = probes.drop_last();
        assert(index.probes_valid(front)) by {
            assert forall|i: int| 0 <= i < front.len() implies #[trigger] front[i] < index.nlist by {
                assert(probes[i] < index.nlist);
            }
        }
        lemma_plan_bounds(index, front, max_codes);
        assert(probes[probes.len() - 1] < index.nlist);
        let list = index.ids@[probes.last() as int];
        assert(list@.len() == list.len());
        let before = scan_plan_of(index.ids@, front, max_codes);
        let plan = scan_plan_of(index.ids@, probes, max_codes);
        assert forall|x: int| #![trigger plan[x]] 0 <= x < plan.len() implies plan[x].rank
            < probes.len() && plan[x].list_id == probes[plan[x].rank as int] && plan[x].list_id
            < index.nlist && 0 < plan[x].count <= index.ids@[plan[x].list_id as int]@.len() by {
            if x < before.len() {
                assert(plan[x] == before[x]);
                assert(front[before[x].rank as int] == probes[before[x].rank as int]);
            }
        }
    }
}


/// A scan finds only what may be answered, and only vectors of its list.
pub proof fn lemma_candidates_admitted(
    ids: Seq<i64>,
    dists: Seq<u32>,
    n: nat,
    filter: Option<Set<i64>>,
)
    requires
        n <= ids.len(),
    ensures
        forall|i: int|
            #![trigger candidates(ids, dists, n, filter)[i]]
            0 <= i < candidates(ids, dists, n, filter).len() ==> admitted(
                filter,
                candidates(ids, dists, n, filter)[i].1,
            ),
    decreases n,
{
    if n > 0 {
        lemma_candidates_admitted(ids, dists, (n - 1) as nat, filter);
        let before = candidates(ids, dists, (n - 1) as nat, filter);
        let all = candidates(ids, dists, n, filter);
        assert forall|i: int| #![trigger all[i]] 0 <= i < all.len() implies admitted(
            filter,
            all[i].1,
        ) by {
            if i < before.len() {
                assert(all[i] == before[i]);
            }
        }
    }
}

proof fn lemma_found_admitted(
    ids: Seq<Vec<i64>>,
    plan: Seq<Scan>,
    dists: Seq<Vec<u32>>,
    filter: Option<Set<i64>>,
)
    requires
        forall|x: int|
            #![trigger plan[x]]
            0 <= x < plan.len() ==> plan[x].count <= ids[plan[x].list_id as int]@.len(),
    ensures
        forall|i: int|
            #![trigger found(ids, plan, dists, filter)[i]]
            0 <= i < found(ids, plan, dists, filter).len() ==> admitted(
                filter,
                found(ids, plan, dists, filter)[i].1,
            ),
    decreases plan.len(),
{
    if plan.len() > 0 {
        let front = plan.drop_last();
        let scan = plan.last();
        assert(plan[plan.len() - 1].count <= ids[scan.list_id as int]@.len());
        assert forall|x: int| #![trigger front[x]] 0 <= x < front.len() implies front[x].count
            <= ids[front[x].list_id as int]@.len() by {
            assert(plan[x] == front[x]);
        }
        lemma_found_admitted(ids, front, dists, filter);
        let a = found(ids, front, dists, filter);
        let b = candidates(
            ids[scan.list_id as int]@,
            dists[plan.len() - 1]@,
            scan.count as nat,
            filter,
        );
        lemma_candidates_admitted(
            ids[scan.list_id as int]@,
            dists[plan.len() - 1]@,
            scan.count as nat,
            filter,
        );
        let all = found(ids, plan, dists, filter);
        assert forall|i: int| #![trigger all[i]] 0 <= i < all.len() implies admitted(
            filter,
            all[i].1,
        ) by {
            if i < a.len() {
                assert(all[i] == a[i]);
            } else {
                assert(all[i] == b[i - a.len()]);
            }
        }
    }
}

/// What a search answers was offered to it.
pub proof fn lemma_nearest_offered(k: nat, items: Seq<(u32, i64)>, i: int)
    requires
        0 <= i < heap::nearest(k, items).len(),
    ensures
        heap::nearest(k, items).len() <= k,
        items.contains(heap::nearest(k, items)[i]),
{
    broadcast use {
        vstd::seq_lib::group_to_multiset_ensures,
        vstd::multiset::group_multiset_axioms,
    };

    let kept = heap::kept(k, items);
    let result = heap::nearest(k, items);
    heap::lemma_by_distance(kept);
    let item = result[i];
    assert(result.contains(item));
    assert(result.to_multiset().count(item) > 0);
    heap::lemma_kept_offered(k, items, item);
    assert(items.to_multiset().count(item) > 0);
}

/// No search answers an ID that the filter does not let pass.
pub proof fn lemma_filter_obeyed(
    index: &IVFPQIndex,
    probes: Seq<usize>,
    max_codes: Option<usize>,
    dists: Seq<Vec<u32>>,
    filter: Option<Set<i64>>,
    k: nat,
    i: int,
)
    requires
        index.wf(),
        probes.len() <= usize::MAX,
        index.answerable(probes, max_codes, dists, filter, k),
        0 <= i < index.query_result(probes, max_codes, dists, filter, k).len(),
    ensures
        admitted(filter, index.query_result(probes, max_codes, dists, filter, k)[i].1),
{
    let plan = scan_plan_of(index.ids@, probes, max_codes);
    let items = found(index.ids@, plan, dists, filter);
    lemma_plan_bounds(index, probes, max_codes);
    lemma_found_admitted(index.ids@, plan, dists, filter);
    lemma_nearest_offered(k, items, i);
    let j = items.index_of(heap::nearest(k, items)[i]);
    assert(admitted(filter, items[j].1));
}

/// The answers to a query come by ascending distance, and there are as many as
/// were asked for, if that many vectors were found.
pub proof fn lemma_result_sorted(k: nat, items: Seq<(u32, i64)>)
    requires
        heap::all_numbers(items),
    ensures
        heap::nearest(k, items).len() == if items.len() < k {
            items.len()
        } else {
            k
        },
        heap::ascending(heap::nearest(k, items)),
        heap::sortable(heap::kept(k, items)),
{
    heap::lemma_kept(k, items);
    heap::lemma_by_distance(heap::kept(k, items));
}

/// The number of vectors in the probed lists.
pub open spec fn probed_len(ids: Seq<Vec<i64>>, probes: Seq<usize>) -> nat
    decreases probes.len(),
{
    if probes.len() == 0 {
        0
    } else {
        probed_len(ids, probes.drop_last()) + ids[probes.last() as int]@.len()
    }
}

/// A limited search looks at as many vectors as it may, if there are that many.
pub proof fn lemma_plan_total(ids: Seq<Vec<i64>>, probes: Seq<usize>, max_codes: Option<usize>)
    ensures
        scanned(scan_plan_of(ids, probes, max_codes)) == allowance(
            probed_len(ids, probes),
            0,
            max_codes,
        ),
    decreases probes.len(),
{
    if probes.len() > 0 {
        lemma_plan_total(ids, probes.drop_last(), max_codes);
        let before = scan_plan_of(ids, probes.drop_last(), max_codes);
        let list = ids[probes.last() as int];
        assert(list@.len() == list.len());
        let plan = scan_plan_of(ids, probes, max_codes);
        if plan.len() > before.len() {
            assert(plan.drop_last() =~= before);
        }
    }
}

proof fn lemma_candidates_prefix(
    ids: Seq<i64>,
    dists: Seq<u32>,
    n: nat,
    m: nat,
    filter: Option<Set<i64>>,
)
    requires
        n <= m,
    ensures
        candidates(ids, dists, n, filter).is_prefix_of(candidates(ids, dists, m, filter)),
    decreases m,
{
    let a = candidates(ids, dists, n, filter);
    if n < m {
        lemma_candidates_prefix(ids, dists, n, (m - 1) as nat, filter);
        let b = candidates(ids, dists, (m - 1) as nat, filter);
        let c = candidates(ids, dists, m, filter);
        assert forall|i: int| 0 <= i < a.len() implies a[i] == c[i] by {
            assert(a[i] == b.subrange(0, a.len() as int)[i]);
        }
        assert(a =~= c.subrange(0, a.len() as int));
    } else {
        assert(a =~= a.subrange(0, a.len() as int));
    }
}

/// How a limited plan lies within the whole one: the same scans in the same
/// order, the last of them cut short, and nothing behind it.
pub proof fn lemma_limited_plan(ids: Seq<Vec<i64>>, probes: Seq<usize>, max: usize)
    ensures
        ({
            let full = scan_plan_of(ids, probes, None);
            let cut = scan_plan_of(ids, probes, Some(max));
            &&& cut.len() <= full.len()
            &&& scanned(cut) <= max
            &&& scanned(cut) < max ==> cut == full
            &&& forall|j: int|
                #![trigger cut[j]]
                0 <= j < cut.len() ==> cut[j].rank == full[j].rank && cut[j].list_id
                    == full[j].list_id && cut[j].count <= full[j].count
            &&& forall|j: int|
                #![trigger cut[j]]
                0 <= j < cut.len() - 1 ==> cut[j] == full[j]
        }),
    decreases probes.len(),
{
    if probes.len() > 0 {
        let front = probes.drop_last();
        lemma_limited_plan(ids, front, max);
        let list = ids[probes.last() as int];
        assert(list@.len() == list.len());
        let full0 = scan_plan_of(ids, front, None);
        let cut0 = scan_plan_of(ids, front, Some(max));
        let full = scan_plan_of(ids, probes, None);
        let cut = scan_plan_of(ids, probes, Some(max));
        if cut.len() > cut0.len() {
            assert(cut.drop_last() =~= cut0);
            assert(full.drop_last() =~= full0);
        }
        assert forall|j: int| #![trigger cut[j]] 0 <= j < cut.len() implies cut[j].rank
            == full[j].rank && cut[j].list_id == full[j].list_id && cut[j].count <= full[j].count
            && (j < cut.len() - 1 ==> cut[j] == full[j]) by {
            if j < cut0.len() {
                assert(cut[j] == cut0[j]);
                assert(full[j] == full0[j]);
            }
        }
    }
}

proof fn lemma_limited_prefix(
    ids: Seq<Vec<i64>>,
    probes: Seq<usize>,
    max: usize,
    dists: Seq<Vec<u32>>,
    filter: Option<Set<i64>>,
)
    ensures
        found(ids, scan_plan_of(ids, probes, Some(max)), dists, filter).is_prefix_of(
            found(ids, scan_plan_of(ids, probes, None), dists, filter),
        ),
{
    let full = scan_plan_of(ids, probes, None);
    let cut = scan_plan_of(ids, probes, Some(max));
    lemma_limited_plan(ids, probes, max);
    let n = cut.len();
    let a = found(ids, cut, dists, filter);
    if n == 0 {
        assert(a =~= found(ids, full, dists, filter).subrange(0, 0));
    } else {
        let front = cut.drop_last();
        assert(front =~= full.take(n - 1));
        assert(full.take(n as int).drop_last() =~= front);
        let scan = full[n - 1];
        assert(cut.last().list_id == scan.list_id);
        let list = ids[scan.list_id as int]@;
        let d = dists[n - 1]@;
        lemma_candidates_prefix(list, d, cut.last().count as nat, scan.count as nat, filter);
        let b = found(ids, full.take(n as int), dists, filter);
        let x = found(ids, front, dists, filter);
        let short = candidates(list, d, cut.last().count as nat, filter);
        let long = candidates(list, d, scan.count as nat, filter);
        assert forall|i: int| 0 <= i < a.len() implies a[i] == b[i] by {
            if i >= x.len() {
                assert(short[i - x.len()] == long.subrange(0, short.len() as int)[i - x.len()]);
            }
        }
        lemma_found_prefix(ids, full, dists, filter, n as int);
        let all = found(ids, full, dists, filter);
        assert forall|i: int| 0 <= i < a.len() implies a[i] == all[i] by {
            assert(b[i] == all.subrange(0, b.len() as int)[i]);
        }
        assert(a =~= all.subrange(0, a.len() as int));
    }
}

proof fn lemma_found_prefix(
    ids: Seq<Vec<i64>>,
    plan: Seq<Scan>,
    dists: Seq<Vec<u32>>,
    filter: Option<Set<i64>>,
    n: int,
)
    requires
        0 <= n <= plan.len(),
    ensures
        found(ids, plan.take(n), dists, filter).is_prefix_of(found(ids, plan, dists, filter)),
    decreases plan.len(),
{
    let a = found(ids, plan.take(n), dists, filter);
    let c = found(ids, plan, dists, filter);
    if n < plan.len() {
        lemma_found_prefix(ids, plan.drop_last(), dists, filter, n);
        assert(plan.drop_last().take(n) =~= plan.take(n));
        let b = found(ids, plan.drop_last(), dists, filter);
        assert forall|i: int| 0 <= i < a.len() implies a[i] == c[i] by {
            assert(a[i] == b.subrange(0, a.len() as int)[i]);
        }
        assert(a =~= c.subrange(0, a.len() as int));
    } else {
        assert(plan.take(n) =~= plan);
        assert(a =~= c.subrange(0, a.len() as int));
    }
}

/// Counting goes list by list.
pub proof fn lemma_within_concat(a: Seq<(u32, i64)>, b: Seq<(u32, i64)>, t: int)
    ensures
        heap::within(a + b, t) == heap::within(a, t) + heap::within(b, t),
    decreases b.len(),
{
    if b.len() == 0 {
        assert(a + b =~= a);
    } else {
        assert((a + b).drop_last() =~= a + b.drop_last());
        lemma_within_concat(a, b.drop_last(), t);
    }
}

/// `part` holds the first of the distances that `whole` holds, as many as the
/// scans of `plan` look at.
pub open spec fn first_scores(plan: Seq<Scan>, part: Seq<Vec<u32>>, whole: Seq<Vec<u32>>) -> bool {
    forall|j: int, x: int|
        #![trigger part[j]@[x]]
        0 <= j < plan.len() && 0 <= x < plan[j].count ==> part[j]@[x] == whole[j]@[x]
}

proof fn lemma_candidates_scores(
    ids: Seq<i64>,
    a: Seq<u32>,
    b: Seq<u32>,
    n: nat,
    filter: Option<Set<i64>>,
)
    requires
        forall|x: int| 0 <= x < n ==> #[trigger] a[x] == b[x],
    ensures
        candidates(ids, a, n, filter) == candidates(ids, b, n, filter),
    decreases n,
{
    if n > 0 {
        lemma_candidates_scores(ids, a, b, (n - 1) as nat, filter);
        assert(a[n - 1] == b[n - 1]);
    }
}

proof fn lemma_found_scores(
    ids: Seq<Vec<i64>>,
    plan: Seq<Scan>,
    a: Seq<Vec<u32>>,
    b: Seq<Vec<u32>>,
    filter: Option<Set<i64>>,
)
    requires
        first_scores(plan, a, b),
    ensures
        found(ids, plan, a, filter) == found(ids, plan, b, filter),
    decreases plan.len(),
{
    if plan.len() > 0 {
        let front = plan.drop_last();
        let j: int = plan.len() - 1;
        assert forall|i: int, x: int|
            #![trigger a[i]@[x]]
            0 <= i < front.len() && 0 <= x < front[i].count implies a[i]@[x] == b[i]@[x] by {
            assert(plan[i] == front[i]);
        }
        lemma_found_scores(ids, front, a, b, filter);
        assert forall|x: int| 0 <= x < plan[j].count implies #[trigger] a[j]@[x] == b[j]@[x] by {}
        lemma_candidates_scores(
            ids[plan[j].list_id as int]@,
            a[j]@,
            b[j]@,
            plan[j].count as nat,
            filter,
        );
    }
}

/// A limited search finds the first part of what an unlimited one finds.
pub proof fn lemma_limited_found(
    ids: Seq<Vec<i64>>,
    probes: Seq<usize>,
    max: usize,
    cut_dists: Seq<Vec<u32>>,
    dists: Seq<Vec<u32>>,
    filter: Option<Set<i64>>,
)
    requires
        first_scores(scan_plan_of(ids, probes, Some(max)), cut_dists, dists),
    ensures
        found(ids, scan_plan_of(ids, probes, Some(max)), cut_dists, filter).is_prefix_of(
            found(ids, scan_plan_of(ids, probes, None), dists, filter),
        ),
{
    lemma_found_scores(ids, scan_plan_of(ids, probes, Some(max)), cut_dists, dists, filter);
    lemma_limited_prefix(ids, probes, max, dists, filter);
}

/// A search without a filter finds every vector that it looks at.
pub proof fn lemma_found_len(ids: Seq<Vec<i64>>, plan: Seq<Scan>, dists: Seq<Vec<u32>>)
    ensures
        found(ids, plan, dists, None).len() == scanned(plan),
    decreases plan.len(),
{
    if plan.len() > 0 {
        lemma_found_len(ids, plan.drop_last(), dists);
        lemma_candidates_len(
            ids[plan.last().list_id as int]@,
            dists[plan.len() - 1]@,
            plan.last().count as nat,
        );
    }
}

proof fn lemma_candidates_len(ids: Seq<i64>, dists: Seq<u32>, n: nat)
    ensures
        candidates(ids, dists, n, None).len() == n,
    decreases n,
{
    if n > 0 {
        lemma_candidates_len(ids, dists, (n - 1) as nat);
    }
}

/// A query without a filter gets as many answers as it asked for, as it may look
/// at, or as there are vectors in the probed lists, whatever is least; they come
/// by ascending distance.
pub proof fn lemma_answer_count(
    index: &IVFPQIndex,
    probes: Seq<usize>,
    max_codes: Option<usize>,
    dists: Seq<Vec<u32>>,
    k: nat,
)
    requires
        heap::all_numbers(
            found(index.ids@, scan_plan_of(index.ids@, probes, max_codes), dists, None),
        ),
    ensures
        ({
            let seen = allowance(probed_len(index.ids@, probes), 0, max_codes);
            index.query_result(probes, max_codes, dists, None, k).len() == if seen < k {
                seen
            } else {
                k
            }
        }),
        heap::ascending(index.query_result(probes, max_codes, dists, None, k)),
{
    let plan = scan_plan_of(index.ids@, probes, max_codes);
    lemma_found_len(index.ids@, plan, dists);
    lemma_plan_total(index.ids@, probes, max_codes);
    lemma_result_sorted(k, found(index.ids@, plan, dists, None));
}

/// A limit that is not reached changes nothing.
pub proof fn lemma_limit_not_reached(
    index: &IVFPQIndex,
    probes: Seq<usize>,
    max: usize,
    dists: Seq<Vec<u32>>,
    filter: Option<Set<i64>>,
    k: nat,
)
    requires
        max >= probed_len(index.ids@, probes),
    ensures
        scan_plan_of(index.ids@, probes, Some(max)) == scan_plan_of(index.ids@, probes, None),
        index.query_result(probes, Some(max), dists, filter, k) == index.query_result(
            probes,
            None,
            dists,
            filter,
            k,
        ),
{
    lemma_plan_unlimited(index.ids@, probes, max);
}

proof fn lemma_plan_unlimited(ids: Seq<Vec<i64>>, probes: Seq<usize>, max: usize)
    requires
        max >= probed_len(ids, probes),
    ensures
        scan_plan_of(ids, probes, Some(max)) == scan_plan_of(ids, probes, None),
    decreases probes.len(),
{
    if probes.len() > 0 {
        lemma_plan_unlimited(ids, probes.drop_last(), max);
        lemma_plan_total(ids, probes.drop_last(), None);
    }
}

/// At every rank, the answer to an unlimited search is at least as near as the
/// answer to a limited one.
pub proof fn lemma_limited_not_nearer(
    index: &IVFPQIndex,
    probes: Seq<usize>,
    max: usize,
    cut_dists: Seq<Vec<u32>>,
    dists: Seq<Vec<u32>>,
    k: nat,
)
    requires
        first_scores(scan_plan_of(index.ids@, probes, Some(max)), cut_dists, dists),
        heap::all_numbers(found(index.ids@, scan_plan_of(index.ids@, probes, None), dists, None)),
    ensures
        ({
            let cut = index.query_result(probes, Some(max), cut_dists, None, k);
            let full = index.query_result(probes, None, dists, None, k);
            &&& cut.len() <= full.len()
            &&& forall|i: int|
                #![trigger cut[i]]
                #![trigger full[i]]
                0 <= i < cut.len() ==> float::rank(full[i].0) <= float::rank(cut[i].0)
        }),
{
    let ids = index.ids@;
    let all = found(ids, scan_plan_of(ids, probes, None), dists, None);
    let part = found(ids, scan_plan_of(ids, probes, Some(max)), cut_dists, None);
    let cut = heap::nearest(k, part);
    let full = heap::nearest(k, all);
    lemma_limited_found(ids, probes, max, cut_dists, dists, None);
    let rest = all.skip(part.len() as int);
    assert(all =~= part + rest) by {
        assert(part =~= all.subrange(0, part.len() as int));
    }
    assert(heap::all_numbers(part)) by {
        assert forall|i: int| 0 <= i < part.len() implies !float::is_nan((#[trigger] part[i]).0) by {
            assert(all[i] == part[i]);
        }
    }
    lemma_result_sorted(k, part);
    lemma_result_sorted(k, all);
    assert forall|i: int|
        #![trigger cut[i]]
        #![trigger full[i]]
        0 <= i < cut.len() implies float::rank(full[i].0) <= float::rank(cut[i].0) by {
        let t = float::rank(cut[i].0);
        lemma_within_concat(part, rest, t);
        lemma_nearest_within(k, part, t);
        lemma_nearest_within(k, all, t);
        heap::lemma_sorted_within(cut, t, i);
        heap::lemma_sorted_within(full, t, i);
    }
}

/// The same for the rows that are handed out, if every distance is finite: at
/// every place, the unlimited search holds nothing farther than the limited one.
pub proof fn lemma_limited_row_not_nearer(
    index: &IVFPQIndex,
    probes: Seq<usize>,
    max: usize,
    cut_dists: Seq<Vec<u32>>,
    dists: Seq<Vec<u32>>,
    k: nat,
    i: int,
)
    requires
        first_scores(scan_plan_of(index.ids@, probes, Some(max)), cut_dists, dists),
        heap::all_numbers(found(index.ids@, scan_plan_of(index.ids@, probes, None), dists, None)),
        forall|x: int|
            #![trigger found(index.ids@, scan_plan_of(index.ids@, probes, None), dists, None)[x]]
            0 <= x < found(
                index.ids@,
                scan_plan_of(index.ids@, probes, None),
                dists,
                None,
            ).len() ==> float::rank(
                found(index.ids@, scan_plan_of(index.ids@, probes, None), dists, None)[x].0,
            ) <= float::rank(F32_MAX),
        0 <= i < k,
    ensures
        float::rank(padded(index.query_result(probes, None, dists, None, k), k)[i].0)
            <= float::rank(
            padded(index.query_result(probes, Some(max), cut_dists, None, k), k)[i].0,
        ),
{
    let all = found(index.ids@, scan_plan_of(index.ids@, probes, None), dists, None);
    let cut = index.query_result(probes, Some(max), cut_dists, None, k);
    let full = index.query_result(probes, None, dists, None, k);
    lemma_limited_not_nearer(index, probes, max, cut_dists, dists, k);
    if i < cut.len() {
        assert(float::rank(full[i].0) <= float::rank(cut[i].0));
    } else if i < full.len() {
        lemma_nearest_offered(k, all, i);
        let x = all.index_of(full[i]);
        assert(float::rank(all[x].0) <= float::rank(F32_MAX));
    }
}

/// Within any distance there are as many answers as found vectors, up to the
/// number that was asked for.
pub proof fn lemma_nearest_within(k: nat, items: Seq<(u32, i64)>, t: int)
    requires
        heap::all_numbers(items),
    ensures
        heap::within(heap::nearest(k, items), t) == if heap::within(items, t) < k {
            heap::within(items, t)
        } else {
            k
        },
{
    heap::lemma_kept_nearest(k, items, t);
    heap::lemma_by_distance(heap::kept(k, items));
    heap::lemma_within_multiset(heap::nearest(k, items), heap::kept(k, items), t);
}

} // verus!
