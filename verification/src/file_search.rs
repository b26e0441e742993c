//! Searching an index file: the probed lists are read, and the nearest of their
//! vectors are answered.

use crate::error::Error;
use crate::float;
use crate::heap;
use crate::heap::TopKHeap;
use crate::pq;
use crate::reader;
use crate::reader::{Header, IVFPQIndexReader};
use crate::search;
use crate::stream;
use crate::stream::SeekRead;
use std::collections::HashSet;
use vstd::prelude::*;

verus! {

broadcast use vstd::std_specs::hash::group_hash_axioms;

/// Whether a query can be searched for, or why not. The first reason counts.
pub open spec fn query_check(c: Seq<u8>, h: Header, len: usize, k: usize, nprobe: usize) -> Result<
    (),
    Error,
> {
    match reader::sections_error(c, h) {
        Some(e) => Err(e),
        None => if len != h.d {
            Err(Error::QueryLength { len, d: h.d })
        } else if k == 0 {
            Err(Error::ZeroK)
        } else if nprobe == 0 {
            Err(Error::ZeroNprobe)
        } else {
            Ok(())
        },
    }
}

/// Whether a batch of queries can be searched for, or why not.
pub open spec fn batch_check(
    c: Seq<u8>,
    h: Header,
    len: usize,
    nq: usize,
    k: usize,
    nprobe: usize,
) -> Result<(), Error> {
    match reader::sections_error(c, h) {
        Some(e) => Err(e),
        None => if nq == 0 {
            Err(Error::ZeroQueries)
        } else if nq * h.d > usize::MAX {
            Err(Error::QueryCountOverflow)
        } else if len != nq * h.d {
            Err(Error::QueriesLength { len, expected: (nq * h.d) as usize })
        } else if k == 0 {
            Err(Error::ZeroK)
        } else if nprobe == 0 {
            Err(Error::ZeroNprobe)
        } else {
            Ok(())
        },
    }
}

/// Loads the sections and checks a query of `len` components.
pub fn check_query<
    R: SeekRead,
    F: Fn(&Vec<u32>, usize, usize, usize) -> Vec<u32>,
>(
    reader: &mut IVFPQIndexReader<R>,
    len: usize,
    k: usize,
    nprobe: usize,
    norms: F,
) -> (result: Result<(), Error>)
    requires
        old(reader).wf(),
        pq::takes_all(norms),
    ensures
        final(reader).wf(),
        final(reader).same_file(old(reader)),
        old(reader).loaded ==> *final(reader) == *old(reader),
        result is Ok ==> final(reader).loaded,
        final(reader).loaded && !old(reader).loaded ==> {
            &&& final(reader).pq.measured_by(norms)
            &&& final(reader).reader.reads() == old(reader).reader.reads()
                + reader::section_reads(old(reader).header())
        },
        final(reader).loaded || final(reader).partly_loaded(old(reader)),
        final(reader).preads == old(reader).preads,
        reader::size_error(old(reader).header()) is Some ==> *final(reader) == *old(reader),
        result matches Err(e) ==> (e is Io ==> e == final(reader).reader.failure()),
        stream::agrees(
            result,
            query_check(old(reader).contents(), old(reader).header(), len, k, nprobe),
            old(reader).reader.reliable(),
        ),
{
    match reader.ensure_loaded(norms) {
        Ok(_) => {},
        Err(e) => {
            return Err(e);
        },
    }
    let d: usize = reader.d;
    if len != d {
        return Err(Error::QueryLength { len, d });
    }
    if k == 0 {
        return Err(Error::ZeroK);
    }
    if nprobe == 0 {
        return Err(Error::ZeroNprobe);
    }
    Ok(())
}

/// Loads the sections and checks a batch of `nq` queries of `len` components
/// together.
pub fn check_batch<
    R: SeekRead,
    F: Fn(&Vec<u32>, usize, usize, usize) -> Vec<u32>,
>(
    reader: &mut IVFPQIndexReader<R>,
    len: usize,
    nq: usize,
    k: usize,
    nprobe: usize,
    norms: F,
) -> (result: Result<(), Error>)
    requires
        old(reader).wf(),
        pq::takes_all(norms),
    ensures
        final(reader).wf(),
        final(reader).same_file(old(reader)),
        old(reader).loaded ==> *final(reader) == *old(reader),
        result is Ok ==> final(reader).loaded,
        final(reader).loaded && !old(reader).loaded ==> {
            &&& final(reader).pq.measured_by(norms)
            &&& final(reader).reader.reads() == old(reader).reader.reads()
                + reader::section_reads(old(reader).header())
        },
        final(reader).loaded || final(reader).partly_loaded(old(reader)),
        final(reader).preads == old(reader).preads,
        reader::size_error(old(reader).header()) is Some ==> *final(reader) == *old(reader),
        result matches Err(e) ==> (e is Io ==> e == final(reader).reader.failure()),
        stream::agrees(
            result,
            batch_check(old(reader).contents(), old(reader).header(), len, nq, k, nprobe),
            old(reader).reader.reliable(),
        ),
{
    match reader.ensure_loaded(norms) {
        Ok(_) => {},
        Err(e) => {
            return Err(e);
        },
    }
    let d: usize = reader.d;
    if nq == 0 {
        return Err(Error::ZeroQueries);
    }
    let expected: usize = match nq.checked_mul(d) {
        Some(n) => n,
        None => {
            return Err(Error::QueryCountOverflow);
        },
    };
    if len != expected {
        return Err(Error::QueriesLength { len, expected });
    }
    if k == 0 {
        return Err(Error::ZeroK);
    }
    if nprobe == 0 {
        return Err(Error::ZeroNprobe);
    }
    Ok(())
}

/// A list that was read for a query.
pub struct PreReadList {
    pub list_id: usize,
    /// The place of the list among those that the query probes.
    pub rank: usize,
    pub count: usize,
    pub ids: Vec<i64>,
    pub codes: Vec<u8>,
}

/// What a list that was read holds.
pub struct ListView {
    pub list_id: usize,
    pub rank: nat,
    pub count: nat,
    pub ids: Seq<i64>,
    pub codes: Seq<u8>,
}

impl PreReadList {
    /// What the list holds.
    pub open spec fn list_view(&self) -> ListView {
        ListView {
            list_id: self.list_id,
            rank: self.rank as nat,
            count: self.count as nat,
            ids: self.ids@,
            codes: self.codes@,
        }
    }
}

/// What lists hold.
pub open spec fn views(lists: Seq<PreReadList>) -> Seq<ListView> {
    lists.map_values(|l: PreReadList| l.list_view())
}

/// What lists hold, or why they could not be read.
pub open spec fn lists_view(r: Result<Vec<PreReadList>, Error>) -> Result<Seq<ListView>, Error> {
    match r {
        Ok(lists) => Ok(views(lists@)),
        Err(e) => Err(e),
    }
}

/// The probed lists that are not empty, in order, or the first failure.
pub open spec fn probed_lists(c: Seq<u8>, h: Header, probes: Seq<usize>) -> Result<
    Seq<ListView>,
    Error,
>
    decreases probes.len(),
{
    if probes.len() == 0 {
        Ok(Seq::empty())
    } else {
        let list_id = probes.last();
        let count = reader::entry_count(c, reader::table_at(h), list_id as int) as nat;
        match probed_lists(c, h, probes.drop_last()) {
            Err(e) => Err(e),
            Ok(before) => if count == 0 {
                Ok(before)
            } else {
                match reader::stored_list(c, h, list_id as int) {
                    Err(e) => Err(e),
                    Ok((ids, codes)) => Ok(
                        before.push(
                            ListView {
                                list_id,
                                rank: (probes.len() - 1) as nat,
                                count,
                                ids,
                                codes,
                            },
                        ),
                    ),
                }
            },
        }
    }
}

/// The reads that fetch the lists, one list after the other.
pub open spec fn lists_reads(c: Seq<u8>, h: Header, lists: Seq<ListView>) -> Seq<(nat, nat)>
    decreases lists.len(),
{
    if lists.len() == 0 {
        Seq::empty()
    } else {
        lists_reads(c, h, lists.drop_last()) + reader::list_reads(
            c,
            h,
            lists.last().list_id as int,
        )
    }
}

/// Reads the probed lists that are not empty, and nothing else.
pub fn read_probed_lists<R: SeekRead>(
    reader: &mut IVFPQIndexReader<R>,
    probes: &[usize],
) -> (result: Result<Vec<PreReadList>, Error>)
    requires
        old(reader).wf(),
        old(reader).loaded,
        forall|i: int| 0 <= i < probes@.len() ==> #[trigger] probes@[i] < old(reader).nlist,
    ensures
        final(reader).wf(),
        final(reader).same_file(old(reader)),
        final(reader).same_sections(old(reader)),
        stream::agrees(
            lists_view(result),
            probed_lists(old(reader).contents(), old(reader).header(), probes@),
            old(reader).reader.reliable(),
        ),
        result matches Ok(lists) ==> final(reader).reader.reads() == old(reader).reader.reads()
            + lists_reads(old(reader).contents(), old(reader).header(), views(lists@)),
        result matches Ok(lists) ==> final(reader).preads.preads() == old(reader).preads.preads()
            + lists_reads(old(reader).contents(), old(reader).header(), views(lists@)),
        result matches Err(e) ==> (e is Io ==> e == final(reader).reader.failure()),
        result matches Ok(lists) ==> forall|j: int|
            #![trigger lists@[j]]
            0 <= j < lists@.len() ==> lists@[j].ids@.len() == lists@[j].count,
{
    let ghost c = reader.contents();
    let ghost h = reader.header();
    let ghost start = reader.reader.reads();
    let ghost asked = reader.preads.preads();
    let mut lists: Vec<PreReadList> = Vec::new();
    let mut rank: usize = 0;
    assert(views(lists@) =~= Seq::<ListView>::empty());
    assert(start + lists_reads(c, h, views(lists@)) =~= start);
    assert(asked + lists_reads(c, h, views(lists@)) =~= asked);
    while rank < probes.len()
        invariant
            rank <= probes@.len(),
            reader.wf(),
            reader.loaded,
            reader.same_file(old(reader)),
            reader.same_sections(old(reader)),
            c == old(reader).contents(),
            h == old(reader).header(),
            forall|i: int| 0 <= i < probes@.len() ==> #[trigger] probes@[i] < reader.nlist,
            start == old(reader).reader.reads(),
            reader.reader.reads() == start + lists_reads(c, h, views(lists@)),
            asked == old(reader).preads.preads(),
            reader.preads.preads() == asked + lists_reads(c, h, views(lists@)),
            probed_lists(c, h, probes@.take(rank as int)) == Ok::<Seq<ListView>, Error>(
                views(lists@),
            ),
            forall|j: int|
                #![trigger lists@[j]]
                0 <= j < lists@.len() ==> lists@[j].ids@.len() == lists@[j].count,
        decreases probes@.len() - rank,
    {
        let list_id: usize = probes[rank];
        proof {
            assert(probes@.take(rank + 1).drop_last() =~= probes@.take(rank as int));
            reader::lemma_table_counts(
                c,
                reader::table_at(h),
                reader.nlist as nat,
                list_id as int,
            );
            lemma_probed_first(c, h, probes@, rank + 1);
        }
        let count: usize = reader.list_counts[list_id] as usize;
        if count > 0 {
            match reader.read_loaded_list(list_id) {
                Ok((ids, codes)) => {
                    let ghost before = lists@;
                    proof {
                        reader::lemma_list_lengths(c, h, list_id as int);
                    }
                    lists.push(PreReadList { list_id, rank, count, ids, codes });
                    assert(views(lists@) =~= views(before).push(lists@.last().list_view()));
                    assert(views(lists@).drop_last() =~= views(before));
                    assert(reader.reader.reads() =~= start + lists_reads(c, h, views(lists@)));
                    assert(reader.preads.preads() =~= asked + lists_reads(c, h, views(lists@)));
                },
                Err(e) => {
                    return Err(e);
                },
            }
        }
        rank = rank + 1;
    }
    assert(probes@.take(rank as int) =~= probes@);
    Ok(lists)
}

/// The first failure decides.
proof fn lemma_probed_first(c: Seq<u8>, h: Header, probes: Seq<usize>, n: int)
    requires
        0 <= n <= probes.len(),
    ensures
        probed_lists(c, h, probes.take(n)) matches Err(e) ==> probed_lists(c, h, probes) == Err::<
            Seq<ListView>,
            Error,
        >(e),
    decreases probes.len(),
{
    if n < probes.len() {
        assert(probes.drop_last().take(n) =~= probes.take(n));
        lemma_probed_first(c, h, probes.drop_last(), n);
    } else {
        assert(probes.take(n) =~= probes);
    }
}

/// What list `j` of those that were read contributes.
pub open spec fn list_candidates(
    lists: Seq<ListView>,
    dists: Seq<Vec<u32>>,
    filter: Option<Set<i64>>,
    j: int,
) -> Seq<(u32, i64)> {
    search::candidates(lists[j].ids, dists[j]@, lists[j].count, filter)
}

/// What the first `n` lists contribute, in their order.
pub open spec fn lists_found(
    lists: Seq<ListView>,
    dists: Seq<Vec<u32>>,
    filter: Option<Set<i64>>,
    n: nat,
) -> Seq<(u32, i64)>
    decreases n,
{
    if n == 0 {
        Seq::empty()
    } else {
        lists_found(lists, dists, filter, (n - 1) as nat) + list_candidates(
            lists,
            dists,
            filter,
            n - 1,
        )
    }
}

/// What the first `n` lists contribute if only the `k` nearest of each list are
/// taken.
pub open spec fn lists_found_apart(
    lists: Seq<ListView>,
    dists: Seq<Vec<u32>>,
    filter: Option<Set<i64>>,
    k: nat,
    n: nat,
) -> Seq<(u32, i64)>
    decreases n,
{
    if n == 0 {
        Seq::empty()
    } else {
        lists_found_apart(lists, dists, filter, k, (n - 1) as nat) + heap::nearest(
            k,
            list_candidates(lists, dists, filter, n - 1),
        )
    }
}

/// The answer to a query. `apart` says whether the lists were searched each on
/// its own before their answers were put together.
pub open spec fn lists_result(
    lists: Seq<ListView>,
    dists: Seq<Vec<u32>>,
    filter: Option<Set<i64>>,
    k: nat,
    apart: bool,
) -> Seq<(u32, i64)> {
    heap::nearest(
        k,
        if apart {
            lists_found_apart(lists, dists, filter, k, lists.len())
        } else {
            lists_found(lists, dists, filter, lists.len())
        },
    )
}

/// Offers all of some items to a heap.
fn push_all(heap: &mut TopKHeap, items: &Vec<(u32, i64)>)
    requires
        old(heap).wf(),
    ensures
        final(heap).wf(),
        final(heap).k == old(heap).k,
        final(heap).data@ == heap::offered_all(old(heap).k as nat, old(heap).data@, items@),
{
    let mut i: usize = 0;
    assert(items@.take(0) =~= Seq::<(u32, i64)>::empty());
    while i < items.len()
        invariant
            i <= items@.len(),
            heap.wf(),
            heap.k == old(heap).k,
            heap.data@ == heap::offered_all(
                old(heap).k as nat,
                old(heap).data@,
                items@.take(i as int),
            ),
        decreases items@.len() - i,
    {
        assert(items@.take(i + 1).drop_last() =~= items@.take(i as int));
        heap.push(items[i].0, items[i].1);
        i = i + 1;
    }
    assert(items@.take(i as int) =~= items@);
}

/// The IDs and the distances of a result.
fn split(result: &Vec<(u32, i64)>) -> (parts: (Vec<i64>, Vec<u32>))
    ensures
        parts.0@ == search::labels_of(result@),
        parts.1@ == search::distances_of(result@),
{
    let mut labels: Vec<i64> = Vec::new();
    let mut distances: Vec<u32> = Vec::new();
    let mut i: usize = 0;
    while i < result.len()
        invariant
            i <= result@.len(),
            labels@ == search::labels_of(result@).take(i as int),
            distances@ == search::distances_of(result@).take(i as int),
        decreases result@.len() - i,
    {
        labels.push(result[i].1);
        distances.push(result[i].0);
        i = i + 1;
        assert(labels@ =~= search::labels_of(result@).take(i as int));
        assert(distances@ =~= search::distances_of(result@).take(i as int));
    }
    assert(labels@ =~= search::labels_of(result@));
    assert(distances@ =~= search::distances_of(result@));
    (labels, distances)
}

/// The distances fit the lists.
pub open spec fn lists_scored(lists: Seq<ListView>, dists: Seq<Vec<u32>>) -> bool {
    &&& dists.len() == lists.len()
    &&& forall|j: int|
        #![trigger lists[j]]
        0 <= j < lists.len() ==> lists[j].count <= lists[j].ids.len() && lists[j].count
            <= dists[j]@.len()
}

/// The distances that are kept can be compared.
pub open spec fn lists_comparable(
    lists: Seq<ListView>,
    dists: Seq<Vec<u32>>,
    filter: Option<Set<i64>>,
    k: nat,
    apart: bool,
) -> bool {
    if apart {
        &&& forall|j: int|
            #![trigger lists[j]]
            0 <= j < lists.len() ==> heap::sortable(
                heap::kept(k, list_candidates(lists, dists, filter, j)),
            )
        &&& heap::sortable(heap::kept(k, lists_found_apart(lists, dists, filter, k, lists.len())))
    } else {
        heap::sortable(heap::kept(k, lists_found(lists, dists, filter, lists.len())))
    }
}

/// The nearest vectors in the lists, or nothing, if the lists are searched each
/// on its own and the answer to one of them cannot be put in order.
fn collect_lists(
    lists: &Vec<PreReadList>,
    dists: &[Vec<u32>],
    filter: Option<&HashSet<i64>>,
    k: usize,
    apart: bool,
) -> (heap: Option<TopKHeap>)
    requires
        lists_scored(views(lists@), dists@),
    ensures
        ({
            let f = search::filter_view(filter);
            let vs = views(lists@);
            match heap {
                Some(heap) => if apart {
                    &&& forall|j: int|
                        #![trigger vs[j]]
                        0 <= j < vs.len() ==> heap::sortable(
                            heap::kept(k as nat, list_candidates(vs, dists@, f, j)),
                        )
                    &&& heap.data@ == heap::kept(
                        k as nat,
                        lists_found_apart(vs, dists@, f, k as nat, vs.len()),
                    )
                } else {
                    heap.data@ == heap::kept(k as nat, lists_found(vs, dists@, f, vs.len()))
                },
                None => !lists_comparable(vs, dists@, f, k as nat, apart),
            }
        }),
{
    let ghost f = search::filter_view(filter);
    let ghost vs = views(lists@);
    let mut heap: TopKHeap = TopKHeap::new(k);
    let mut j: usize = 0;
    while j < lists.len()
        invariant
            j <= lists@.len(),
            vs == views(lists@),
            f == search::filter_view(filter),
            lists_scored(vs, dists@),
            heap.wf(),
            heap.k == k,
            apart ==> forall|x: int|
                #![trigger vs[x]]
                0 <= x < j ==> heap::sortable(
                    heap::kept(k as nat, list_candidates(vs, dists@, f, x)),
                ),
            heap.data@ == heap::kept(
                k as nat,
                if apart {
                    lists_found_apart(vs, dists@, f, k as nat, j as nat)
                } else {
                    lists_found(vs, dists@, f, j as nat)
                },
            ),
        decreases lists@.len() - j,
    {
        let list: &PreReadList = &lists[j];
        assert(vs[j as int] == list.list_view());
        let ghost one = list_candidates(vs, dists@, f, j as int);
        if apart {
            let mut local: TopKHeap = TopKHeap::new(k);
            search::push_candidates(
                &mut local,
                list.ids.as_slice(),
                dists[j].as_slice(),
                list.count,
                filter,
            );
            if !heap::can_sort(&local.data) {
                return None;
            }
            let sorted: Vec<(u32, i64)> = local.into_sorted();
            push_all(&mut heap, &sorted);
            proof {
                search::lemma_offered_all_concat(
                    k as nat,
                    Seq::empty(),
                    lists_found_apart(vs, dists@, f, k as nat, j as nat),
                    sorted@,
                );
            }
        } else {
            search::push_candidates(
                &mut heap,
                list.ids.as_slice(),
                dists[j].as_slice(),
                list.count,
                filter,
            );
            proof {
                search::lemma_offered_all_concat(
                    k as nat,
                    Seq::empty(),
                    lists_found(vs, dists@, f, j as nat),
                    one,
                );
            }
        }
        j = j + 1;
    }
    Some(heap)
}

/// The IDs and the distances of the `k` nearest vectors in the lists that were
/// read, from the distances of all their vectors.
pub fn rank_lists(
    lists: &Vec<PreReadList>,
    dists: &[Vec<u32>],
    filter: Option<&HashSet<i64>>,
    k: usize,
    apart: bool,
) -> (result: (Vec<i64>, Vec<u32>))
    requires
        lists_scored(views(lists@), dists@),
        lists_comparable(views(lists@), dists@, search::filter_view(filter), k as nat, apart),
    ensures
        result.0@ == search::labels_of(
            lists_result(views(lists@), dists@, search::filter_view(filter), k as nat, apart),
        ),
        result.1@ == search::distances_of(
            lists_result(views(lists@), dists@, search::filter_view(filter), k as nat, apart),
        ),
{
    match collect_lists(lists, dists, filter, k, apart) {
        Some(heap) => {
            let sorted: Vec<(u32, i64)> = heap.into_sorted();
            split(&sorted)
        },
        None => (Vec::new(), Vec::new()),
    }
}

/// Whether the lists that were read can be ranked.
pub fn can_rank_lists(
    lists: &Vec<PreReadList>,
    dists: &[Vec<u32>],
    filter: Option<&HashSet<i64>>,
    k: usize,
    apart: bool,
) -> (yes: bool)
    ensures
        yes == (lists_scored(views(lists@), dists@) && lists_comparable(
            views(lists@),
            dists@,
            search::filter_view(filter),
            k as nat,
            apart,
        )),
{
    let ghost vs = views(lists@);
    if dists.len() != lists.len() {
        return false;
    }
    let mut j: usize = 0;
    while j < lists.len()
        invariant
            j <= lists@.len(),
            vs == views(lists@),
            lists@.len() == dists@.len(),
            forall|x: int|
                #![trigger vs[x]]
                0 <= x < j ==> vs[x].count <= vs[x].ids.len() && vs[x].count <= dists@[x]@.len(),
        decreases lists@.len() - j,
    {
        assert(vs[j as int] == lists@[j as int].list_view());
        if lists[j].count > lists[j].ids.len() || lists[j].count > dists[j].len() {
            return false;
        }
        j = j + 1;
    }
    match collect_lists(lists, dists, filter, k, apart) {
        Some(heap) => heap::can_sort(&heap.data),
        None => false,
    }
}

/// The answer to a query that the filter applies to. Where the file can be read
/// at several places at the same time, the lists were searched each on its own.
pub fn search_with_reader_filter<R: SeekRead>(
    reader: &IVFPQIndexReader<R>,
    lists: &Vec<PreReadList>,
    dists: &[Vec<u32>],
    k: usize,
    filter: Option<&HashSet<i64>>,
) -> (result: (Vec<i64>, Vec<u32>))
    requires
        lists_scored(views(lists@), dists@),
        forall|apart: bool|
            #[trigger] call_ensures(R::supports_concurrent_pread, (&reader.reader,), apart)
                ==> lists_comparable(
                views(lists@),
                dists@,
                search::filter_view(filter),
                k as nat,
                apart,
            ),
    ensures
        exists|apart: bool|
            call_ensures(R::supports_concurrent_pread, (&reader.reader,), apart) && result_is(
                result,
                #[trigger] lists_result(
                    views(lists@),
                    dists@,
                    search::filter_view(filter),
                    k as nat,
                    apart,
                ),
            ),
{
    let apart: bool = reader.supports_concurrent_pread();
    assert(lists_comparable(views(lists@), dists@, search::filter_view(filter), k as nat, apart));
    let result: (Vec<i64>, Vec<u32>) = rank_lists(lists, dists, filter, k, apart);
    assert(result_is(
        result,
        lists_result(views(lists@), dists@, search::filter_view(filter), k as nat, apart),
    ));
    result
}

/// IDs and distances of a result.
pub open spec fn result_is(parts: (Vec<i64>, Vec<u32>), result: Seq<(u32, i64)>) -> bool {
    parts.0@ == search::labels_of(result) && parts.1@ == search::distances_of(result)
}

/// The answer to a query.
pub fn search_with_reader<R: SeekRead>(
    reader: &IVFPQIndexReader<R>,
    lists: &Vec<PreReadList>,
    dists: &[Vec<u32>],
    k: usize,
) -> (result: (Vec<i64>, Vec<u32>))
    requires
        lists_scored(views(lists@), dists@),
        forall|apart: bool|
            #[trigger] call_ensures(R::supports_concurrent_pread, (&reader.reader,), apart)
                ==> lists_comparable(views(lists@), dists@, None, k as nat, apart),
    ensures
        exists|apart: bool|
            call_ensures(R::supports_concurrent_pread, (&reader.reader,), apart) && result_is(
                result,
                #[trigger] lists_result(views(lists@), dists@, None, k as nat, apart),
            ),
{
    search_with_reader_filter(reader, lists, dists, k, None)
}

impl<R: SeekRead> IVFPQIndexReader<R> {
    /// The answer to a query, from the lists that were read for it and the
    /// distances of their vectors.
    pub fn search(&self, lists: &Vec<PreReadList>, dists: &[Vec<u32>], k: usize) -> (result: (
        Vec<i64>,
        Vec<u32>,
    ))
        requires
            lists_scored(views(lists@), dists@),
            forall|apart: bool|
                #[trigger] call_ensures(R::supports_concurrent_pread, (&self.reader,), apart)
                    ==> lists_comparable(views(lists@), dists@, None, k as nat, apart),
        ensures
            exists|apart: bool|
                call_ensures(R::supports_concurrent_pread, (&self.reader,), apart) && result_is(
                    result,
                    #[trigger] lists_result(views(lists@), dists@, None, k as nat, apart),
                ),
    {
        search_with_reader(self, lists, dists, k)
    }
}

/// What is nearest of some items are numbers, if all items are.
proof fn lemma_nearest_numbers(k: nat, items: Seq<(u32, i64)>)
    requires
        heap::all_numbers(items),
    ensures
        heap::all_numbers(heap::nearest(k, items)),
{
    let result = heap::nearest(k, items);
    assert forall|i: int| 0 <= i < result.len() implies !float::is_nan((#[trigger] result[i]).0) by {
        search::lemma_nearest_offered(k, items, i);
        let j = items.index_of(result[i]);
        assert(!float::is_nan(items[j].0));
    }
}

proof fn lemma_numbers_concat(a: Seq<(u32, i64)>, b: Seq<(u32, i64)>)
    requires
        heap::all_numbers(a),
        heap::all_numbers(b),
    ensures
        heap::all_numbers(a + b),
{
    let c = a + b;
    assert forall|i: int| 0 <= i < c.len() implies !float::is_nan((#[trigger] c[i]).0) by {
        if i < a.len() {
            assert(c[i] == a[i]);
        } else {
            assert(c[i] == b[i - a.len()]);
        }
    }
}

proof fn lemma_found_apart_within(
    lists: Seq<ListView>,
    dists: Seq<Vec<u32>>,
    filter: Option<Set<i64>>,
    k: nat,
    n: nat,
    t: int,
)
    requires
        n <= lists.len(),
        forall|j: int|
            0 <= j < lists.len() ==> heap::all_numbers(
                #[trigger] list_candidates(lists, dists, filter, j),
            ),
    ensures
        heap::all_numbers(lists_found(lists, dists, filter, n)),
        heap::all_numbers(lists_found_apart(lists, dists, filter, k, n)),
        ({
            let together = heap::within(lists_found(lists, dists, filter, n), t);
            let apart = heap::within(lists_found_apart(lists, dists, filter, k, n), t);
            apart <= together && (apart < k ==> apart == together)
        }),
        ({
            let together = lists_found(lists, dists, filter, n).len();
            let apart = lists_found_apart(lists, dists, filter, k, n).len();
            apart <= together && (apart < k ==> apart == together)
        }),
    decreases n,
{
    if n > 0 {
        let one = list_candidates(lists, dists, filter, n - 1);
        lemma_found_apart_within(lists, dists, filter, k, (n - 1) as nat, t);
        assert(heap::all_numbers(one));
        lemma_nearest_numbers(k, one);
        search::lemma_nearest_within(k, one, t);
        search::lemma_result_sorted(k, one);
        search::lemma_within_concat(lists_found(lists, dists, filter, (n - 1) as nat), one, t);
        search::lemma_within_concat(
            lists_found_apart(lists, dists, filter, k, (n - 1) as nat),
            heap::nearest(k, one),
            t,
        );
        lemma_numbers_concat(lists_found(lists, dists, filter, (n - 1) as nat), one);
        lemma_numbers_concat(
            lists_found_apart(lists, dists, filter, k, (n - 1) as nat),
            heap::nearest(k, one),
        );
    }
}

/// Searching the lists each on its own and putting the answers together gives
/// the same distances as searching them one after the other.
pub proof fn lemma_apart_same_distances(
    lists: Seq<ListView>,
    dists: Seq<Vec<u32>>,
    filter: Option<Set<i64>>,
    k: nat,
)
    requires
        forall|j: int|
            0 <= j < lists.len() ==> heap::all_numbers(
                #[trigger] list_candidates(lists, dists, filter, j),
            ),
    ensures
        heap::same_distances(
            lists_result(lists, dists, filter, k, true),
            lists_result(lists, dists, filter, k, false),
        ),
{
    let n = lists.len();
    let together = lists_found(lists, dists, filter, n);
    let apart = lists_found_apart(lists, dists, filter, k, n);
    lemma_found_apart_within(lists, dists, filter, k, n, 0);
    search::lemma_result_sorted(k, together);
    search::lemma_result_sorted(k, apart);
    assert forall|t: int| #[trigger]
        heap::within(heap::nearest(k, apart), t) == heap::within(heap::nearest(k, together), t) by {
        lemma_found_apart_within(lists, dists, filter, k, n, t);
        search::lemma_nearest_within(k, together, t);
        search::lemma_nearest_within(k, apart, t);
    }
    heap::lemma_same_counts(heap::nearest(k, apart), heap::nearest(k, together));
}

/// Every item may be answered.
spec fn all_admitted(filter: Option<Set<i64>>, items: Seq<(u32, i64)>) -> bool {
    forall|i: int| 0 <= i < items.len() ==> search::admitted(filter, (#[trigger] items[i]).1)
}

proof fn lemma_nearest_admitted(filter: Option<Set<i64>>, k: nat, items: Seq<(u32, i64)>)
    requires
        all_admitted(filter, items),
    ensures
        all_admitted(filter, heap::nearest(k, items)),
{
    let result = heap::nearest(k, items);
    assert forall|i: int| 0 <= i < result.len() implies search::admitted(
        filter,
        (#[trigger] result[i]).1,
    ) by {
        search::lemma_nearest_offered(k, items, i);
        let j = items.index_of(result[i]);
        assert(search::admitted(filter, items[j].1));
    }
}

proof fn lemma_admitted_concat(
    filter: Option<Set<i64>>,
    a: Seq<(u32, i64)>,
    b: Seq<(u32, i64)>,
)
    requires
        all_admitted(filter, a),
        all_admitted(filter, b),
    ensures
        all_admitted(filter, a + b),
{
    let c = a + b;
    assert forall|i: int| 0 <= i < c.len() implies search::admitted(filter, (#[trigger] c[i]).1) by {
        if i < a.len() {
            assert(c[i] == a[i]);
        } else {
            assert(c[i] == b[i - a.len()]);
        }
    }
}

proof fn lemma_lists_admitted(
    lists: Seq<ListView>,
    dists: Seq<Vec<u32>>,
    filter: Option<Set<i64>>,
    k: nat,
    n: nat,
)
    requires
        n <= lists.len(),
        lists_scored(lists, dists),
    ensures
        all_admitted(filter, lists_found(lists, dists, filter, n)),
        all_admitted(filter, lists_found_apart(lists, dists, filter, k, n)),
    decreases n,
{
    if n > 0 {
        let one = list_candidates(lists, dists, filter, n - 1);
        assert(lists[n - 1].count <= lists[n - 1].ids.len());
        search::lemma_candidates_admitted(
            lists[n - 1].ids,
            dists[n - 1]@,
            lists[n - 1].count,
            filter,
        );
        lemma_lists_admitted(lists, dists, filter, k, (n - 1) as nat);
        assert(all_admitted(filter, one));
        lemma_nearest_admitted(filter, k, one);
        lemma_admitted_concat(filter, lists_found(lists, dists, filter, (n - 1) as nat), one);
        lemma_admitted_concat(
            filter,
            lists_found_apart(lists, dists, filter, k, (n - 1) as nat),
            heap::nearest(k, one),
        );
    }
}

/// No search of a file answers an ID that the filter does not let pass.
pub proof fn lemma_file_filter_obeyed(
    lists: Seq<ListView>,
    dists: Seq<Vec<u32>>,
    filter: Option<Set<i64>>,
    k: nat,
    apart: bool,
    i: int,
)
    requires
        lists_scored(lists, dists),
        0 <= i < lists_result(lists, dists, filter, k, apart).len(),
    ensures
        search::admitted(filter, lists_result(lists, dists, filter, k, apart)[i].1),
{
    lemma_lists_admitted(lists, dists, filter, k, lists.len());
    if apart {
        lemma_nearest_admitted(
            filter,
            k,
            lists_found_apart(lists, dists, filter, k, lists.len()),
        );
    } else {
        lemma_nearest_admitted(filter, k, lists_found(lists, dists, filter, lists.len()));
    }
}

/// A search whose probed lists are not all empty reads from the stream. The
/// reads are the positional ones of [`read_probed_lists`].
pub proof fn lemma_probed_lists_read(c: Seq<u8>, h: Header, probes: Seq<usize>)
    ensures
        probed_lists(c, h, probes) matches Ok(lists) ==> (lists_reads(c, h, lists).len() == 0
            <==> forall|i: int|
            0 <= i < probes.len() ==> reader::entry_count(
                c,
                reader::table_at(h),
                #[trigger] probes[i] as int,
            ) as nat == 0),
    decreases probes.len(),
{
    if probes.len() > 0 {
        let front = probes.drop_last();
        lemma_probed_lists_read(c, h, front);
        if let Ok(lists) = probed_lists(c, h, probes) {
            let at = reader::table_at(h);
            let before = probed_lists(c, h, front)->Ok_0;
            reader::lemma_list_reads(c, h, probes.last() as int);
            assert(forall|i: int| 0 <= i < front.len() ==> #[trigger] front[i] == probes[i]);
            assert(probes[probes.len() - 1] == probes.last());
            if lists.len() > before.len() {
                assert(lists.drop_last() =~= before);
                assert(reader::entry_count(c, at, probes[probes.len() - 1] as int) as nat != 0);
            } else {
                assert(lists == before);
                if lists_reads(c, h, lists).len() == 0 {
                    assert forall|i: int| 0 <= i < probes.len() implies reader::entry_count(
                        c,
                        at,
                        #[trigger] probes[i] as int,
                    ) as nat == 0 by {
                        if i < front.len() {
                            assert(reader::entry_count(c, at, front[i] as int) as nat == 0);
                        }
                    }
                } else {
                    let i = choose|i: int|
                        0 <= i < front.len() && reader::entry_count(
                            c,
                            at,
                            #[trigger] front[i] as int,
                        ) as nat != 0;
                    assert(reader::entry_count(c, at, probes[i] as int) as nat != 0);
                }
            }
        }
    }
}

/// The distances of two searches are the same, list by list.
pub open spec fn same_scores(a: Seq<Vec<u32>>, b: Seq<Vec<u32>>) -> bool {
    a.len() == b.len() && forall|j: int| #![trigger a[j]] 0 <= j < a.len() ==> a[j]@ == b[j]@
}

proof fn lemma_same_found(
    lists: Seq<ListView>,
    a: Seq<Vec<u32>>,
    b: Seq<Vec<u32>>,
    filter: Option<Set<i64>>,
    k: nat,
    n: nat,
)
    requires
        same_scores(a, b),
        n <= a.len(),
    ensures
        lists_found(lists, a, filter, n) == lists_found(lists, b, filter, n),
        lists_found_apart(lists, a, filter, k, n) == lists_found_apart(lists, b, filter, k, n),
    decreases n,
{
    if n > 0 {
        lemma_same_found(lists, a, b, filter, k, (n - 1) as nat);
        assert(a[n - 1]@ == b[n - 1]@);
    }
}

/// Two streams with the same bytes give the same answers, however they read: if
/// both searches can read their lists, the lists are the same; and where the
/// distances of the vectors are the same, so are the answers. If one of them
/// searched the lists each on its own and the other did not, the distances of
/// the answers still are the same.
pub proof fn lemma_same_bytes_same_answers<R: SeekRead, S: SeekRead>(
    a: IVFPQIndexReader<R>,
    b: IVFPQIndexReader<S>,
    probes: Seq<usize>,
    a_lists: Seq<ListView>,
    b_lists: Seq<ListView>,
    a_dists: Seq<Vec<u32>>,
    b_dists: Seq<Vec<u32>>,
    filter: Option<Set<i64>>,
    k: nat,
)
    requires
        a.wf(),
        b.wf(),
        a.contents() == b.contents(),
        stream::agrees(
            Ok::<Seq<ListView>, Error>(a_lists),
            probed_lists(a.contents(), a.header(), probes),
            a.reader.reliable(),
        ),
        stream::agrees(
            Ok::<Seq<ListView>, Error>(b_lists),
            probed_lists(b.contents(), b.header(), probes),
            b.reader.reliable(),
        ),
        a_dists.len() == a_lists.len(),
        same_scores(a_dists, b_dists),
    ensures
        a_lists == b_lists,
        forall|apart: bool|
            lists_result(a_lists, a_dists, filter, k, apart) == #[trigger] lists_result(
                b_lists,
                b_dists,
                filter,
                k,
                apart,
            ),
        (forall|j: int|
            0 <= j < a_lists.len() ==> heap::all_numbers(
                #[trigger] list_candidates(a_lists, a_dists, filter, j),
            )) ==> heap::same_distances(
            lists_result(a_lists, a_dists, filter, k, true),
            lists_result(b_lists, b_dists, filter, k, false),
        ),
{
    lemma_same_found(a_lists, a_dists, b_dists, filter, k, a_lists.len());
    if forall|j: int|
        0 <= j < a_lists.len() ==> heap::all_numbers(
            #[trigger] list_candidates(a_lists, a_dists, filter, j),
        ) {
        lemma_apart_same_distances(a_lists, a_dists, filter, k);
    }
}

} // verus!
