//! Searching an index file for many queries at once: every list is read once
//! for all queries that probe it.

use crate::error::Error;
use crate::file_search;
use crate::file_search::ListView;
use crate::float::F32_MAX;
use crate::heap;
use crate::heap::TopKHeap;
use crate::reader;
use crate::reader::{Header, IVFPQIndexReader};
use crate::search;
use crate::stream;
use crate::stream::SeekRead;
use vstd::prelude::*;

verus! {

/// Where query `qi` probes `list`: the query with each rank of the list among
/// the lists that it probes.
pub open spec fn ranks_of(probe: Seq<usize>, qi: usize, list: int) -> Seq<(usize, usize)>
    decreases probe.len(),
{
    if probe.len() == 0 {
        Seq::empty()
    } else {
        let before = ranks_of(probe.drop_last(), qi, list);
        if probe.last() == list {
            before.push((qi, (probe.len() - 1) as usize))
        } else {
            before
        }
    }
}

/// The queries among the first `nq` that probe `list`, with the rank of the
/// list for each.
pub open spec fn queries_of(probes: Seq<Vec<usize>>, nq: nat, list: int) -> Seq<(usize, usize)>
    decreases nq,
{
    if nq == 0 {
        Seq::empty()
    } else {
        queries_of(probes, (nq - 1) as nat, list) + ranks_of(
            probes[nq - 1]@,
            (nq - 1) as usize,
            list,
        )
    }
}

/// The probed lists of the first `nq` queries exist.
pub open spec fn probes_valid(probes: Seq<Vec<usize>>, nq: nat, nlist: nat) -> bool {
    &&& nq <= probes.len()
    &&& forall|qi: int, r: int|
        #![trigger probes[qi]@[r]]
        0 <= qi < nq && 0 <= r < probes[qi]@.len() ==> probes[qi]@[r] < nlist
}

/// The groups are the queries of every list.
pub open spec fn grouped(
    groups: Seq<Vec<(usize, usize)>>,
    probes: Seq<Vec<usize>>,
    nq: nat,
    nlist: nat,
) -> bool {
    &&& groups.len() == nlist
    &&& forall|l: int| 0 <= l < nlist ==> (#[trigger] groups[l])@ == queries_of(probes, nq, l)
}

/// Groups the queries by the lists that they probe.
pub fn group_probes(probes: &[Vec<usize>], nq: usize, nlist: usize) -> (groups: Vec<
    Vec<(usize, usize)>,
>)
    requires
        probes_valid(probes@, nq as nat, nlist as nat),
    ensures
        grouped(groups@, probes@, nq as nat, nlist as nat),
{
    let mut groups: Vec<Vec<(usize, usize)>> = Vec::new();
    let mut l: usize = 0;
    while l < nlist
        invariant
            l <= nlist,
            groups@.len() == l,
            forall|x: int| 0 <= x < l ==> (#[trigger] groups@[x])@ == queries_of(probes@, 0, x),
        decreases nlist - l,
    {
        let group: Vec<(usize, usize)> = Vec::new();
        groups.push(group);
        assert(group@ =~= queries_of(probes@, 0, l as int));
        l = l + 1;
    }
    let mut qi: usize = 0;
    while qi < nq
        invariant
            qi <= nq,
            probes_valid(probes@, nq as nat, nlist as nat),
            grouped(groups@, probes@, qi as nat, nlist as nat),
        decreases nq - qi,
    {
        let ghost before = groups@;
        let probe: &Vec<usize> = &probes[qi];
        let mut rank: usize = 0;
        proof {
            assert forall|x: int| 0 <= x < nlist implies (#[trigger] groups@[x])@ == queries_of(
                probes@,
                qi as nat,
                x,
            ) + ranks_of(probe@.take(0), qi, x) by {
                assert(groups@[x]@ =~= queries_of(probes@, qi as nat, x) + ranks_of(
                    probe@.take(0),
                    qi,
                    x,
                ));
            }
        }
        while rank < probe.len()
            invariant
                rank <= probe@.len(),
                qi < nq,
                probes_valid(probes@, nq as nat, nlist as nat),
                probe@ == probes@[qi as int]@,
                groups@.len() == nlist,
                forall|x: int|
                    0 <= x < nlist ==> (#[trigger] groups@[x])@ == queries_of(
                        probes@,
                        qi as nat,
                        x,
                    ) + ranks_of(probe@.take(rank as int), qi, x),
            decreases probe@.len() - rank,
        {
            let list_id: usize = probe[rank];
            assert(probes@[qi as int]@[rank as int] < nlist);
            let ghost now = groups@;
            groups[list_id].push((qi, rank));
            proof {
                assert(probe@.take(rank + 1).drop_last() =~= probe@.take(rank as int));
                assert forall|x: int| 0 <= x < nlist implies (#[trigger] groups@[x])@
                    == queries_of(probes@, qi as nat, x) + ranks_of(
                    probe@.take(rank + 1),
                    qi,
                    x,
                ) by {
                    assert(now[x]@ == queries_of(probes@, qi as nat, x) + ranks_of(
                        probe@.take(rank as int),
                        qi,
                        x,
                    ));
                    assert(groups@[x]@ =~= queries_of(probes@, qi as nat, x) + ranks_of(
                        probe@.take(rank + 1),
                        qi,
                        x,
                    ));
                }
            }
            rank = rank + 1;
        }
        assert(probe@.take(rank as int) =~= probe@);
        qi = qi + 1;
    }
    groups
}

/// A list that was read for a batch.
pub struct BatchList {
    pub list_id: usize,
    pub count: usize,
    pub ids: Vec<i64>,
    pub codes: Vec<u8>,
}

/// What a list that was read for a batch holds.
pub struct BatchView {
    pub list_id: usize,
    pub count: nat,
    pub ids: Seq<i64>,
    pub codes: Seq<u8>,
}

impl BatchList {
    /// What the list holds.
    pub open spec fn list_view(&self) -> BatchView {
        BatchView {
            list_id: self.list_id,
            count: self.count as nat,
            ids: self.ids@,
            codes: self.codes@,
        }
    }
}

/// What lists hold.
pub open spec fn views(lists: Seq<BatchList>) -> Seq<BatchView> {
    lists.map_values(|l: BatchList| l.list_view())
}

/// What lists hold, or why they could not be read.
pub open spec fn lists_view(r: Result<Vec<BatchList>, Error>) -> Result<Seq<BatchView>, Error> {
    match r {
        Ok(lists) => Ok(views(lists@)),
        Err(e) => Err(e),
    }
}

/// Those of the first `n` lists that some query probes and that are not empty,
/// or the first failure.
pub open spec fn batch_lists(
    c: Seq<u8>,
    h: Header,
    groups: Seq<Vec<(usize, usize)>>,
    n: nat,
) -> Result<Seq<BatchView>, Error>
    decreases n,
{
    if n == 0 {
        Ok(Seq::empty())
    } else {
        let count = reader::entry_count(c, reader::table_at(h), n - 1) as nat;
        match batch_lists(c, h, groups, (n - 1) as nat) {
            Err(e) => Err(e),
            Ok(before) => if groups[n - 1]@.len() == 0 || count == 0 {
                Ok(before)
            } else {
                match reader::stored_list(c, h, n - 1) {
                    Err(e) => Err(e),
                    Ok((ids, codes)) => Ok(
                        before.push(
                            BatchView { list_id: (n - 1) as usize, count, ids, codes },
                        ),
                    ),
                }
            },
        }
    }
}

/// The first failure decides.
proof fn lemma_batch_first(
    c: Seq<u8>,
    h: Header,
    groups: Seq<Vec<(usize, usize)>>,
    i: nat,
    n: nat,
)
    requires
        i <= n,
    ensures
        batch_lists(c, h, groups, i) matches Err(e) ==> batch_lists(c, h, groups, n) == Err::<
            Seq<BatchView>,
            Error,
        >(e),
    decreases n,
{
    if i < n {
        lemma_batch_first(c, h, groups, i, (n - 1) as nat);
    }
}

/// The reads that fetch the lists, one list after the other.
pub open spec fn lists_reads(c: Seq<u8>, h: Header, lists: Seq<BatchView>) -> Seq<(nat, nat)>
    decreases lists.len(),
{
    if lists.len() == 0 {
        Seq::empty()
    } else {
        lists_reads(c, h, lists.drop_last()) + reader::list_reads(
            c,
            h,
            lists.last().list_id as int,
        )
    }
}

/// Reads every list that some query probes and that is not empty, once, and
/// nothing else.
pub fn read_batch_lists<R: SeekRead>(
    reader: &mut IVFPQIndexReader<R>,
    groups: &Vec<Vec<(usize, usize)>>,
) -> (result: Result<Vec<BatchList>, Error>)
    requires
        old(reader).wf(),
        old(reader).loaded,
        groups@.len() == old(reader).nlist,
    ensures
        final(reader).wf(),
        final(reader).same_file(old(reader)),
        final(reader).same_sections(old(reader)),
        stream::agrees(
            lists_view(result),
            batch_lists(
                old(reader).contents(),
                old(reader).header(),
                groups@,
                old(reader).nlist as nat,
            ),
            old(reader).reader.reliable(),
        ),
        result matches Ok(lists) ==> final(reader).reader.reads() == old(reader).reader.reads()
            + lists_reads(old(reader).contents(), old(reader).header(), views(lists@)),
        result matches Ok(lists) ==> final(reader).preads.preads() == old(reader).preads.preads()
            + lists_reads(old(reader).contents(), old(reader).header(), views(lists@)),
        result matches Err(e) ==> (e is Io ==> e == final(reader).reader.failure()),
        result matches Ok(lists) ==> forall|j: int|
            #![trigger lists@[j]]
            0 <= j < lists@.len() ==> lists@[j].ids@.len() == lists@[j].count && lists@[j].list_id
                < groups@.len(),
{
    let ghost c = reader.contents();
    let ghost h = reader.header();
    let nlist: usize = reader.nlist;
    let mut lists: Vec<BatchList> = Vec::new();
    let mut list_id: usize = 0;
    let ghost start = reader.reader.reads();
    let ghost asked = reader.preads.preads();
    assert(views(lists@) =~= Seq::<BatchView>::empty());
    assert(start + lists_reads(c, h, views(lists@)) =~= start);
    assert(asked + lists_reads(c, h, views(lists@)) =~= asked);
    while list_id < nlist
        invariant
            list_id <= nlist,
            nlist == reader.nlist,
            groups@.len() == nlist,
            reader.wf(),
            reader.loaded,
            reader.same_file(old(reader)),
            reader.same_sections(old(reader)),
            c == old(reader).contents(),
            h == old(reader).header(),
            start == old(reader).reader.reads(),
            reader.reader.reads() == start + lists_reads(c, h, views(lists@)),
            asked == old(reader).preads.preads(),
            reader.preads.preads() == asked + lists_reads(c, h, views(lists@)),
            batch_lists(c, h, groups@, list_id as nat) == Ok::<Seq<BatchView>, Error>(
                views(lists@),
            ),
            forall|j: int|
                #![trigger lists@[j]]
                0 <= j < lists@.len() ==> lists@[j].ids@.len() == lists@[j].count
                    && lists@[j].list_id < groups@.len(),
        decreases nlist - list_id,
    {
        proof {
            reader::lemma_table_counts(c, reader::table_at(h), nlist as nat, list_id as int);
            lemma_batch_first(c, h, groups@, (list_id + 1) as nat, nlist as nat);
        }
        let count: usize = reader.list_counts[list_id] as usize;
        if groups[list_id].len() > 0 && count > 0 {
            match reader.read_loaded_list(list_id) {
                Ok((ids, codes)) => {
                    let ghost before = lists@;
                    proof {
                        reader::lemma_list_lengths(c, h, list_id as int);
                    }
                    lists.push(BatchList { list_id, count, ids, codes });
                    assert(views(lists@) =~= views(before).push(lists@.last().list_view()));
                    assert(views(lists@).drop_last() =~= views(before));
                    assert(reader.reader.reads() =~= start + lists_reads(c, h, views(lists@)));
                    assert(reader.preads.preads() =~= asked + lists_reads(c, h, views(lists@)));
                },
                Err(e) => {
                    return Err(e);
                },
            }
        }
        list_id = list_id + 1;
    }
    Ok(lists)
}

/// Every list that some query probes and that is not empty is read once, however
/// many queries probe it; no other list is read.
pub proof fn lemma_batch_lists_once(
    c: Seq<u8>,
    h: Header,
    groups: Seq<Vec<(usize, usize)>>,
    n: nat,
)
    requires
        n <= usize::MAX,
    ensures
        batch_lists(c, h, groups, n) matches Ok(lists) ==> {
            &&& forall|j: int|
                0 <= j < lists.len() ==> is_wanted(
                    c,
                    h,
                    groups,
                    (#[trigger] lists[j]).list_id as int,
                ) && lists[j].list_id < n
            &&& forall|i: int, j: int|
                #![trigger lists[i], lists[j]]
                0 <= i < j < lists.len() ==> lists[i].list_id < lists[j].list_id
            &&& forall|l: int|
                0 <= l < n && #[trigger] is_wanted(c, h, groups, l) ==> is_among(lists, l)
        },
    decreases n,
{
    if n > 0 {
        lemma_batch_lists_once(c, h, groups, (n - 1) as nat);
        if let Ok(lists) = batch_lists(c, h, groups, n) {
            let before = batch_lists(c, h, groups, (n - 1) as nat)->Ok_0;
            assert forall|l: int| 0 <= l < n && #[trigger] is_wanted(c, h, groups, l) implies
                is_among(lists, l) by {
                if l < n - 1 {
                    assert(is_among(before, l));
                    let j = choose|j: int|
                        0 <= j < before.len() && (#[trigger] before[j]).list_id == l;
                    assert(lists[j] == before[j]);
                } else {
                    assert(lists[lists.len() - 1].list_id == l);
                }
            }
        }
    }
}

/// Some query probes the list, and it is not empty.
pub open spec fn is_wanted(
    c: Seq<u8>,
    h: Header,
    groups: Seq<Vec<(usize, usize)>>,
    list: int,
) -> bool {
    groups[list]@.len() > 0 && reader::entry_count(c, reader::table_at(h), list) as nat != 0
}

/// The list is one of `lists`.
pub open spec fn is_among(lists: Seq<BatchView>, list: int) -> bool {
    exists|j: int| 0 <= j < lists.len() && (#[trigger] lists[j]).list_id == list
}

/// What a list contributes to query `qi`, from the first `n` entries of its
/// group. `dists` holds the distances for every entry.
pub open spec fn group_found(
    list: BatchView,
    group: Seq<(usize, usize)>,
    dists: Seq<Vec<u32>>,
    qi: int,
    n: nat,
) -> Seq<(u32, i64)>
    decreases n,
{
    if n == 0 {
        Seq::empty()
    } else {
        let before = group_found(list, group, dists, qi, (n - 1) as nat);
        if group[n - 1].0 == qi {
            before + search::candidates(list.ids, dists[n - 1]@, list.count, None)
        } else {
            before
        }
    }
}

/// What the first `n` lists contribute to query `qi`.
pub open spec fn batch_found(
    lists: Seq<BatchView>,
    groups: Seq<Vec<(usize, usize)>>,
    dists: Seq<Vec<Vec<u32>>>,
    qi: int,
    n: nat,
) -> Seq<(u32, i64)>
    decreases n,
{
    if n == 0 {
        Seq::empty()
    } else {
        let group = groups[lists[n - 1].list_id as int]@;
        batch_found(lists, groups, dists, qi, (n - 1) as nat) + group_found(
            lists[n - 1],
            group,
            dists[n - 1]@,
            qi,
            group.len(),
        )
    }
}

/// The answers to the queries of a batch.
pub open spec fn batch_results(
    lists: Seq<BatchView>,
    groups: Seq<Vec<(usize, usize)>>,
    dists: Seq<Vec<Vec<u32>>>,
    nq: nat,
    k: nat,
) -> Seq<Seq<(u32, i64)>> {
    Seq::new(
        nq,
        |qi: int| heap::nearest(k, batch_found(lists, groups, dists, qi, lists.len())),
    )
}

/// The distances fit the lists and their groups, and those that are kept can be
/// compared.
pub open spec fn batch_answerable(
    lists: Seq<BatchView>,
    groups: Seq<Vec<(usize, usize)>>,
    dists: Seq<Vec<Vec<u32>>>,
    nq: nat,
    k: nat,
) -> bool {
    &&& batch_scored(lists, groups, dists, nq)
    &&& forall|qi: int|
        0 <= qi < nq ==> heap::sortable(
            heap::kept(k, #[trigger] batch_found(lists, groups, dists, qi, lists.len())),
        )
}

/// The distances fit the list and its group.
pub open spec fn list_fits(
    list: BatchView,
    groups: Seq<Vec<(usize, usize)>>,
    dists: Seq<Vec<u32>>,
    nq: nat,
) -> bool {
    &&& list.list_id < groups.len()
    &&& list.count <= list.ids.len()
    &&& dists.len() == groups[list.list_id as int]@.len()
    &&& forall|t: int| 0 <= t < dists.len() ==> list.count <= (#[trigger] dists[t])@.len()
    &&& forall|t: int|
        0 <= t < dists.len() ==> (#[trigger] groups[list.list_id as int]@[t]).0 < nq
}

/// The distances fit the lists and their groups.
pub open spec fn batch_scored(
    lists: Seq<BatchView>,
    groups: Seq<Vec<(usize, usize)>>,
    dists: Seq<Vec<Vec<u32>>>,
    nq: nat,
) -> bool {
    &&& dists.len() == lists.len()
    &&& forall|j: int|
        #![trigger lists[j]]
        0 <= j < lists.len() ==> list_fits(lists[j], groups, dists[j]@, nq)
}

/// The nearest vectors for every query of a batch.
fn collect_batch(
    lists: &Vec<BatchList>,
    groups: &Vec<Vec<(usize, usize)>>,
    dists: &[Vec<Vec<u32>>],
    nq: usize,
    k: usize,
) -> (heaps: Vec<TopKHeap>)
    requires
        batch_scored(views(lists@), groups@, dists@, nq as nat),
    ensures
        heaps@.len() == nq,
        forall|x: int|
            #![trigger heaps@[x]]
            0 <= x < nq ==> heaps@[x].data@ == heap::kept(
                k as nat,
                batch_found(views(lists@), groups@, dists@, x, lists@.len()),
            ),
{
    let ghost vs = views(lists@);
    let mut heaps: Vec<TopKHeap> = Vec::new();
    let mut qi: usize = 0;
    while qi < nq
        invariant
            qi <= nq,
            heaps@.len() == qi,
            forall|x: int|
                #![trigger heaps@[x]]
                0 <= x < qi ==> heaps@[x].wf() && heaps@[x].k == k && heaps@[x].data@
                    == heap::kept(k as nat, batch_found(vs, groups@, dists@, x, 0)),
        decreases nq - qi,
    {
        heaps.push(TopKHeap::new(k));
        qi = qi + 1;
    }
    let mut j: usize = 0;
    while j < lists.len()
        invariant
            j <= lists@.len(),
            vs == views(lists@),
            batch_scored(vs, groups@, dists@, nq as nat),
            heaps@.len() == nq,
            forall|x: int|
                #![trigger heaps@[x]]
                0 <= x < nq ==> heaps@[x].wf() && heaps@[x].k == k && heaps@[x].data@
                    == heap::kept(k as nat, batch_found(vs, groups@, dists@, x, j as nat)),
        decreases lists@.len() - j,
    {
        let list: &BatchList = &lists[j];
        assert(vs[j as int] == list.list_view());
        assert(list_fits(vs[j as int], groups@, dists@[j as int]@, nq as nat));
        scan_group(
            list,
            &groups[list.list_id],
            &dists[j],
            &mut heaps,
            k,
            nq,
            Ghost(
                Seq::new(nq as nat, |x: int| batch_found(vs, groups@, dists@, x, j as nat)),
            ),
        );
        proof {
            assert forall|x: int|
                #![trigger heaps@[x]]
                0 <= x < nq implies heaps@[x].wf() && heaps@[x].k == k && heaps@[x].data@
                == heap::kept(k as nat, batch_found(vs, groups@, dists@, x, (j + 1) as nat)) by {
                let group = groups@[list.list_id as int]@;
                assert(batch_found(vs, groups@, dists@, x, (j + 1) as nat) == batch_found(
                    vs,
                    groups@,
                    dists@,
                    x,
                    j as nat,
                ) + group_found(vs[j as int], group, dists@[j as int]@, x, group.len()));
            }
        }
        j = j + 1;
    }
    heaps
}

/// The answers to a batch of queries, `k` for each: the IDs and the distances of
/// the nearest vectors in the lists that were read.
pub fn search_batch_reader(
    lists: &Vec<BatchList>,
    groups: &Vec<Vec<(usize, usize)>>,
    dists: &[Vec<Vec<u32>>],
    nq: usize,
    k: usize,
) -> (result: (Vec<i64>, Vec<u32>))
    requires
        batch_answerable(views(lists@), groups@, dists@, nq as nat, k as nat),
    ensures
        result.0@ == search::labels_of(
            search::answers(
                batch_results(views(lists@), groups@, dists@, nq as nat, k as nat),
                k as nat,
            ),
        ),
        result.1@ == search::distances_of(
            search::answers(
                batch_results(views(lists@), groups@, dists@, nq as nat, k as nat),
                k as nat,
            ),
        ),
{
    let ghost vs = views(lists@);
    let heaps: Vec<TopKHeap> = collect_batch(lists, groups, dists, nq, k);
    let ghost all = batch_results(vs, groups@, dists@, nq as nat, k as nat);
    let mut labels: Vec<i64> = Vec::new();
    let mut distances: Vec<u32> = Vec::new();
    let mut qi: usize = 0;
    assert(all.take(0) =~= Seq::<Seq<(u32, i64)>>::empty());
    while qi < nq
        invariant
            qi <= nq,
            vs == views(lists@),
            all == batch_results(vs, groups@, dists@, nq as nat, k as nat),
            batch_answerable(vs, groups@, dists@, nq as nat, k as nat),
            heaps@.len() == nq,
            forall|x: int|
                #![trigger heaps@[x]]
                0 <= x < nq ==> heaps@[x].data@ == heap::kept(
                    k as nat,
                    batch_found(vs, groups@, dists@, x, vs.len()),
                ),
            labels@ == search::labels_of(search::answers(all.take(qi as int), k as nat)),
            distances@ == search::distances_of(search::answers(all.take(qi as int), k as nat)),
        decreases nq - qi,
    {
        assert(heap::sortable(
            heap::kept(k as nat, batch_found(vs, groups@, dists@, qi as int, vs.len())),
        ));
        let sorted: Vec<(u32, i64)> = heap::sort_items(&heaps[qi].data);
        proof {
            assert(all.take(qi + 1).drop_last() =~= all.take(qi as int));
            assert(all.take(qi + 1).last() == sorted@);
        }
        append_padded(
            &sorted,
            k,
            &mut labels,
            &mut distances,
            Ghost(search::answers(all.take(qi as int), k as nat)),
        );
        qi = qi + 1;
    }
    assert(all.take(qi as int) =~= all);
    (labels, distances)
}

/// Whether a batch can be answered.
pub fn can_search_batch(
    lists: &Vec<BatchList>,
    groups: &Vec<Vec<(usize, usize)>>,
    dists: &[Vec<Vec<u32>>],
    nq: usize,
    k: usize,
) -> (yes: bool)
    ensures
        yes == batch_answerable(views(lists@), groups@, dists@, nq as nat, k as nat),
{
    let ghost vs = views(lists@);
    if dists.len() != lists.len() {
        return false;
    }
    let mut j: usize = 0;
    while j < lists.len()
        invariant
            j <= lists@.len(),
            vs == views(lists@),
            lists@.len() == dists@.len(),
            forall|x: int|
                #![trigger vs[x]]
                0 <= x < j ==> list_fits(vs[x], groups@, dists@[x]@, nq as nat),
        decreases lists@.len() - j,
    {
        assert(vs[j as int] == lists@[j as int].list_view());
        if !fits(&lists[j], groups, &dists[j], nq) {
            return false;
        }
        j = j + 1;
    }
    let heaps: Vec<TopKHeap> = collect_batch(lists, groups, dists, nq, k);
    let mut qi: usize = 0;
    while qi < nq
        invariant
            qi <= nq,
            vs == views(lists@),
            heaps@.len() == nq,
            batch_scored(vs, groups@, dists@, nq as nat),
            forall|x: int|
                #![trigger heaps@[x]]
                0 <= x < nq ==> heaps@[x].data@ == heap::kept(
                    k as nat,
                    batch_found(vs, groups@, dists@, x, vs.len()),
                ),
            forall|x: int|
                0 <= x < qi ==> heap::sortable(
                    heap::kept(
                        k as nat,
                        #[trigger] batch_found(vs, groups@, dists@, x, vs.len()),
                    ),
                ),
        decreases nq - qi,
    {
        if !heap::can_sort(&heaps[qi].data) {
            assert(!heap::sortable(
                heap::kept(k as nat, batch_found(vs, groups@, dists@, qi as int, vs.len())),
            ));
            return false;
        }
        qi = qi + 1;
    }
    true
}

/// Whether the distances fit the list and its group.
fn fits(
    list: &BatchList,
    groups: &Vec<Vec<(usize, usize)>>,
    dists: &Vec<Vec<u32>>,
    nq: usize,
) -> (yes: bool)
    ensures
        yes == list_fits(list.list_view(), groups@, dists@, nq as nat),
{
    if list.list_id >= groups.len() || list.count > list.ids.len() || dists.len()
        != groups[list.list_id].len() {
        return false;
    }
    let group: &Vec<(usize, usize)> = &groups[list.list_id];
    let mut t: usize = 0;
    while t < dists.len()
        invariant
            t <= dists@.len(),
            dists@.len() == group@.len(),
            list.list_id < groups@.len(),
            group@ == groups@[list.list_id as int]@,
            forall|x: int| 0 <= x < t ==> list.count <= (#[trigger] dists@[x])@.len(),
            forall|x: int| 0 <= x < t ==> (#[trigger] group@[x]).0 < nq,
        decreases dists@.len() - t,
    {
        if list.count > dists[t].len() {
            assert(list.count > dists@[t as int]@.len());
            return false;
        }
        if group[t].0 >= nq {
            assert(groups@[list.list_id as int]@[t as int].0 >= nq);
            return false;
        }
        t = t + 1;
    }
    true
}

/// Offers a list to the heaps of the queries in its group.
fn scan_group(
    list: &BatchList,
    group: &Vec<(usize, usize)>,
    dists: &Vec<Vec<u32>>,
    heaps: &mut Vec<TopKHeap>,
    k: usize,
    nq: usize,
    Ghost(before): Ghost<Seq<Seq<(u32, i64)>>>,
)
    requires
        before.len() == nq,
        list.count <= list.ids@.len(),
        dists@.len() == group@.len(),
        forall|t: int| 0 <= t < dists@.len() ==> list.count <= (#[trigger] dists@[t])@.len(),
        forall|t: int| 0 <= t < dists@.len() ==> (#[trigger] group@[t]).0 < nq,
        old(heaps)@.len() == nq,
        forall|x: int|
            #![trigger old(heaps)@[x]]
            0 <= x < nq ==> old(heaps)@[x].wf() && old(heaps)@[x].k == k && old(heaps)@[x].data@
                == heap::kept(k as nat, before[x]),
    ensures
        final(heaps)@.len() == nq,
        forall|x: int|
            #![trigger final(heaps)@[x]]
            0 <= x < nq ==> final(heaps)@[x].wf() && final(heaps)@[x].k == k && final(
                heaps)@[x].data@ == heap::kept(
                k as nat,
                before[x] + group_found(list.list_view(), group@, dists@, x, group@.len()),
            ),
{
    let ghost view = list.list_view();
    let mut t: usize = 0;
    proof {
        assert forall|x: int| #![trigger heaps@[x]] 0 <= x < nq implies heaps@[x].data@
            == heap::kept(k as nat, before[x] + group_found(view, group@, dists@, x, 0)) by {
            assert(before[x] + group_found(view, group@, dists@, x, 0) =~= before[x]);
        }
    }
    while t < group.len()
        invariant
            t <= group@.len(),
            view == list.list_view(),
            before.len() == nq,
            list.count <= list.ids@.len(),
            dists@.len() == group@.len(),
            forall|t: int| 0 <= t < dists@.len() ==> list.count <= (#[trigger] dists@[t])@.len(),
            forall|t: int| 0 <= t < dists@.len() ==> (#[trigger] group@[t]).0 < nq,
            heaps@.len() == nq,
            forall|x: int|
                #![trigger heaps@[x]]
                0 <= x < nq ==> heaps@[x].wf() && heaps@[x].k == k && heaps@[x].data@
                    == heap::kept(
                    k as nat,
                    before[x] + group_found(view, group@, dists@, x, t as nat),
                ),
        decreases group@.len() - t,
    {
        let qi: usize = group[t].0;
        let ghost now = heaps@;
        let ghost one = search::candidates(
            list.ids@,
            dists@[t as int]@,
            list.count as nat,
            None,
        );
        assert(list.count <= dists@[t as int]@.len());
        search::push_candidates(
            &mut heaps[qi],
            list.ids.as_slice(),
            dists[t].as_slice(),
            list.count,
            None,
        );
        proof {
            assert forall|x: int| #![trigger heaps@[x]] 0 <= x < nq implies heaps@[x].wf()
                && heaps@[x].k == k && heaps@[x].data@ == heap::kept(
                k as nat,
                before[x] + group_found(view, group@, dists@, x, (t + 1) as nat),
            ) by {
                assert(now[x].wf());
                let so_far = before[x] + group_found(view, group@, dists@, x, t as nat);
                if x == qi {
                    search::lemma_offered_all_concat(k as nat, Seq::empty(), so_far, one);
                    assert(so_far + one =~= before[x] + group_found(
                        view,
                        group@,
                        dists@,
                        x,
                        (t + 1) as nat,
                    ));
                } else {
                    assert(heaps@[x] == now[x]);
                }
            }
        }
        t = t + 1;
    }
}

/// Appends `k` answers.
fn append_padded(
    result: &Vec<(u32, i64)>,
    k: usize,
    labels: &mut Vec<i64>,
    distances: &mut Vec<u32>,
    Ghost(before): Ghost<Seq<(u32, i64)>>,
)
    requires
        old(labels)@ == search::labels_of(before),
        old(distances)@ == search::distances_of(before),
    ensures
        final(labels)@ == search::labels_of(before + search::padded(result@, k as nat)),
        final(distances)@ == search::distances_of(before + search::padded(result@, k as nat)),
{
    let ghost p = search::padded(result@, k as nat);
    let mut i: usize = 0;
    assert(before + p.take(0) =~= before);
    while i < k
        invariant
            i <= k,
            p == search::padded(result@, k as nat),
            labels@ == search::labels_of(before + p.take(i as int)),
            distances@ == search::distances_of(before + p.take(i as int)),
        decreases k - i,
    {
        if i < result.len() {
            labels.push(result[i].1);
            distances.push(result[i].0);
        } else {
            labels.push(-1);
            distances.push(F32_MAX);
        }
        i = i + 1;
        assert(before + p.take(i as int) =~= (before + p.take(i - 1)).push(p[i - 1]));
        assert(labels@ =~= search::labels_of(before + p.take(i as int)));
        assert(distances@ =~= search::distances_of(before + p.take(i as int)));
    }
    assert(p.take(i as int) =~= p);
}

/// How many vectors of `list` lie within the distance that has place `t`, if
/// `score` gives their distances.
spec fn list_within(c: Seq<u8>, h: Header, score: spec_fn(int) -> Seq<u32>, list: int, t: int) -> nat {
    match reader::stored_list(c, h, list) {
        Ok((ids, _)) => heap::within(
            search::candidates(
                ids,
                score(list),
                reader::entry_count(c, reader::table_at(h), list) as nat,
                None,
            ),
            t,
        ),
        Err(_) => 0,
    }
}

/// The same for all probed lists together.
spec fn probe_within(
    c: Seq<u8>,
    h: Header,
    score: spec_fn(int) -> Seq<u32>,
    probe: Seq<usize>,
    t: int,
) -> nat
    decreases probe.len(),
{
    if probe.len() == 0 {
        0
    } else {
        probe_within(c, h, score, probe.drop_last(), t) + list_within(
            c,
            h,
            score,
            probe.last() as int,
            t,
        )
    }
}

/// The same, list by list.
spec fn lists_within(
    c: Seq<u8>,
    h: Header,
    score: spec_fn(int) -> Seq<u32>,
    probe: Seq<usize>,
    n: nat,
    t: int,
) -> nat
    decreases n,
{
    if n == 0 {
        0
    } else {
        lists_within(c, h, score, probe, (n - 1) as nat, t) + ranks_of(probe, 0, n - 1).len()
            * list_within(c, h, score, n - 1, t)
    }
}

pub proof fn lemma_ranks_len(probe: Seq<usize>, a: usize, b: usize, list: int)
    ensures
        ranks_of(probe, a, list).len() == ranks_of(probe, b, list).len(),
        forall|i: int|
            0 <= i < ranks_of(probe, a, list).len() ==> (#[trigger] ranks_of(probe, a, list)[i]).0
                == a,
    decreases probe.len(),
{
    if probe.len() > 0 {
        lemma_ranks_len(probe.drop_last(), a, b, list);
    }
}

/// Counting by probes and counting by lists come to the same.
proof fn lemma_count_by_lists(
    c: Seq<u8>,
    h: Header,
    score: spec_fn(int) -> Seq<u32>,
    probe: Seq<usize>,
    n: nat,
    t: int,
)
    requires
        forall|r: int| 0 <= r < probe.len() ==> #[trigger] probe[r] < n,
    ensures
        lists_within(c, h, score, probe, n, t) == probe_within(c, h, score, probe, t),
    decreases probe.len(),
{
    if probe.len() > 0 {
        let front = probe.drop_last();
        assert forall|r: int| 0 <= r < front.len() implies #[trigger] front[r] < n by {
            assert(probe[r] < n);
        }
        lemma_count_by_lists(c, h, score, front, n, t);
        lemma_count_step(c, h, score, probe, n, t);
        assert(probe[probe.len() - 1] < n);
    } else {
        lemma_count_empty(c, h, score, probe, n, t);
    }
}

proof fn lemma_count_empty(
    c: Seq<u8>,
    h: Header,
    score: spec_fn(int) -> Seq<u32>,
    probe: Seq<usize>,
    n: nat,
    t: int,
)
    requires
        probe.len() == 0,
    ensures
        lists_within(c, h, score, probe, n, t) == 0,
    decreases n,
{
    if n > 0 {
        lemma_count_empty(c, h, score, probe, (n - 1) as nat, t);
        assert(0 * list_within(c, h, score, n - 1, t) == 0) by (nonlinear_arith);
    }
}

proof fn lemma_count_step(
    c: Seq<u8>,
    h: Header,
    score: spec_fn(int) -> Seq<u32>,
    probe: Seq<usize>,
    n: nat,
    t: int,
)
    requires
        probe.len() > 0,
    ensures
        lists_within(c, h, score, probe, n, t) == lists_within(
            c,
            h,
            score,
            probe.drop_last(),
            n,
            t,
        ) + if probe.last() < n {
            list_within(c, h, score, probe.last() as int, t)
        } else {
            0
        },
    decreases n,
{
    if n > 0 {
        lemma_count_step(c, h, score, probe, (n - 1) as nat, t);
        let w: int = list_within(c, h, score, n - 1, t) as int;
        let before: int = ranks_of(probe.drop_last(), 0, n - 1).len() as int;
        if probe.last() == n - 1 {
            assert((before + 1) * w == before * w + w) by (nonlinear_arith);
        }
    }
}

/// What one query alone finds, counted.
proof fn lemma_single_within(
    c: Seq<u8>,
    h: Header,
    score: spec_fn(int) -> Seq<u32>,
    probe: Seq<usize>,
    lists: Seq<ListView>,
    dists: Seq<Vec<u32>>,
    t: int,
)
    requires
        file_search::probed_lists(c, h, probe) == Ok::<Seq<ListView>, Error>(lists),
        lists.len() <= dists.len(),
        forall|j: int|
            #![trigger lists[j]]
            0 <= j < lists.len() ==> dists[j]@ == score(lists[j].list_id as int),
        forall|r: int|
            0 <= r < probe.len() ==> reader::stored_list(c, h, #[trigger] probe[r] as int) is Ok
                && reader::entry_count(c, reader::table_at(h), probe[r] as int) >= 0,
    ensures
        heap::within(
            file_search::lists_found(lists, dists, None, lists.len()),
            t,
        ) == probe_within(c, h, score, probe, t),
    decreases probe.len(),
{
    if probe.len() > 0 {
        let front = probe.drop_last();
        let last = probe.last();
        assert(probe[probe.len() - 1] == last);
        assert forall|r: int| 0 <= r < front.len() implies reader::stored_list(
            c,
            h,
            #[trigger] front[r] as int,
        ) is Ok && reader::entry_count(c, reader::table_at(h), front[r] as int) >= 0 by {
            assert(front[r] == probe[r]);
        }
        let before = file_search::probed_lists(c, h, front)->Ok_0;
        assert forall|j: int| #![trigger before[j]] 0 <= j < before.len() implies dists[j]@
            == score(before[j].list_id as int) by {
            assert(lists[j] == before[j]);
        }
        lemma_single_within(c, h, score, front, before, dists, t);
        if lists.len() > before.len() {
            let n = before.len();
            lemma_lists_found_same(lists, before, dists, n);
            assert(lists[n as int].list_id == last);
            search::lemma_within_concat(
                file_search::lists_found(lists, dists, None, n),
                file_search::list_candidates(lists, dists, None, n as int),
                t,
            );
        } else {
            assert(lists == before);
            assert(reader::entry_count(c, reader::table_at(h), last as int) as nat == 0);
        }
    }
}

/// What a query finds alone depends on its lists alone.
pub proof fn lemma_lists_found_same(
    a: Seq<ListView>,
    b: Seq<ListView>,
    dists: Seq<Vec<u32>>,
    n: nat,
)
    requires
        n <= a.len(),
        n <= b.len(),
        forall|j: int| 0 <= j < n ==> a[j] == b[j],
    ensures
        file_search::lists_found(a, dists, None, n) == file_search::lists_found(b, dists, None, n),
    decreases n,
{
    if n > 0 {
        lemma_lists_found_same(a, b, dists, (n - 1) as nat);
        assert(a[n - 1] == b[n - 1]);
    }
}

/// How often query `qi` stands among the first `n` entries of a group.
pub open spec fn entries_of(group: Seq<(usize, usize)>, qi: int, n: nat) -> nat
    decreases n,
{
    if n == 0 {
        0
    } else {
        entries_of(group, qi, (n - 1) as nat) + if group[n - 1].0 == qi {
            1nat
        } else {
            0nat
        }
    }
}

proof fn lemma_entries_concat(a: Seq<(usize, usize)>, b: Seq<(usize, usize)>, qi: int, n: nat)
    requires
        n <= b.len(),
    ensures
        entries_of(a + b, qi, a.len() + n) == entries_of(a, qi, a.len()) + entries_of(b, qi, n),
    decreases n,
{
    if n > 0 {
        lemma_entries_concat(a, b, qi, (n - 1) as nat);
        assert((a + b)[a.len() + n - 1] == b[n - 1]);
        assert((a.len() + n - 1) as nat == a.len() + (n - 1) as nat);
    } else {
        lemma_entries_front(a, b, qi, a.len());
    }
}

proof fn lemma_entries_front(a: Seq<(usize, usize)>, b: Seq<(usize, usize)>, qi: int, n: nat)
    requires
        n <= a.len(),
    ensures
        entries_of(a + b, qi, n) == entries_of(a, qi, n),
    decreases n,
{
    if n > 0 {
        lemma_entries_front(a, b, qi, (n - 1) as nat);
    }
}

proof fn lemma_entries_all(group: Seq<(usize, usize)>, qi: int, x: usize, n: nat)
    requires
        n <= group.len(),
        forall|i: int| 0 <= i < group.len() ==> (#[trigger] group[i]).0 == x,
    ensures
        entries_of(group, qi, n) == if x == qi {
            n
        } else {
            0
        },
    decreases n,
{
    if n > 0 {
        lemma_entries_all(group, qi, x, (n - 1) as nat);
        assert(group[n - 1].0 == x);
    }
}

/// A query stands in the group of a list as often as it probes the list.
pub proof fn lemma_group_entries(probes: Seq<Vec<usize>>, nq: nat, list: int, qi: int)
    requires
        nq <= usize::MAX,
        0 <= qi,
    ensures
        entries_of(queries_of(probes, nq, list), qi, queries_of(probes, nq, list).len())
            == if qi < nq {
            ranks_of(probes[qi]@, 0, list).len()
        } else {
            0
        },
    decreases nq,
{
    if nq > 0 {
        let m = (nq - 1) as nat;
        let a = queries_of(probes, m, list);
        let b = ranks_of(probes[nq - 1]@, m as usize, list);
        lemma_group_entries(probes, m, list, qi);
        lemma_ranks_len(probes[nq - 1]@, m as usize, 0, list);
        lemma_entries_all(b, qi, m as usize, b.len());
        lemma_entries_concat(a, b, qi, b.len());
    }
}

proof fn lemma_group_within(
    list: BatchView,
    group: Seq<(usize, usize)>,
    dists: Seq<Vec<u32>>,
    qi: int,
    scores: Seq<u32>,
    n: nat,
    t: int,
)
    requires
        n <= group.len(),
        forall|x: int|
            0 <= x < group.len() && (#[trigger] group[x]).0 == qi ==> dists[x]@ == scores,
    ensures
        heap::within(group_found(list, group, dists, qi, n), t) == entries_of(group, qi, n)
            * heap::within(search::candidates(list.ids, scores, list.count, None), t),
    decreases n,
{
    let w: int = heap::within(search::candidates(list.ids, scores, list.count, None), t) as int;
    if n > 0 {
        lemma_group_within(list, group, dists, qi, scores, (n - 1) as nat, t);
        let e: int = entries_of(group, qi, (n - 1) as nat) as int;
        if group[n - 1].0 == qi {
            assert(dists[n - 1]@ == scores);
            search::lemma_within_concat(
                group_found(list, group, dists, qi, (n - 1) as nat),
                search::candidates(list.ids, scores, list.count, None),
                t,
            );
            assert((e + 1) * w == e * w + w) by (nonlinear_arith);
        }
    } else {
        assert(0 * w == 0) by (nonlinear_arith);
    }
}

/// The distances of a batch come from `score`, which gives them for every query
/// and list.
pub open spec fn scored_by(
    lists: Seq<BatchView>,
    groups: Seq<Vec<(usize, usize)>>,
    dists: Seq<Vec<Vec<u32>>>,
    score: spec_fn(int, int) -> Seq<u32>,
) -> bool {
    &&& dists.len() == lists.len()
    &&& forall|j: int, x: int|
        #![trigger dists[j]@[x]]
        0 <= j < lists.len() && 0 <= x < groups[lists[j].list_id as int]@.len()
            ==> dists[j]@[x]@ == score(
            groups[lists[j].list_id as int]@[x].0 as int,
            lists[j].list_id as int,
        )
}

/// What a query finds in a batch, counted.
proof fn lemma_batch_within(
    c: Seq<u8>,
    h: Header,
    probes: Seq<Vec<usize>>,
    nq: nat,
    groups: Seq<Vec<(usize, usize)>>,
    lists: Seq<BatchView>,
    dists: Seq<Vec<Vec<u32>>>,
    score: spec_fn(int, int) -> Seq<u32>,
    qi: int,
    n: nat,
    t: int,
)
    requires
        nq <= usize::MAX,
        0 <= qi < nq,
        n <= groups.len() <= usize::MAX,
        grouped(groups, probes, nq, groups.len()),
        batch_lists(c, h, groups, n) == Ok::<Seq<BatchView>, Error>(lists),
        lists.len() <= dists.len(),
        forall|j: int, x: int|
            #![trigger dists[j]@[x]]
            0 <= j < lists.len() && 0 <= x < groups[lists[j].list_id as int]@.len()
                ==> dists[j]@[x]@ == score(
                groups[lists[j].list_id as int]@[x].0 as int,
                lists[j].list_id as int,
            ),
    ensures
        heap::within(batch_found(lists, groups, dists, qi, lists.len()), t) == lists_within(
            c,
            h,
            |l: int| score(qi, l),
            probes[qi]@,
            n,
            t,
        ),
    decreases n,
{
    let own = |l: int| score(qi, l);
    if n > 0 {
        let l: int = n - 1;
        let group = groups[l]@;
        let before = batch_lists(c, h, groups, (n - 1) as nat)->Ok_0;
        let w: int = list_within(c, h, own, l, t) as int;
        assert forall|j: int, x: int|
            #![trigger dists[j]@[x]]
            0 <= j < before.len() && 0 <= x < groups[before[j].list_id as int]@.len() implies
            dists[j]@[x]@ == score(
            groups[before[j].list_id as int]@[x].0 as int,
            before[j].list_id as int,
        ) by {
            assert(lists[j] == before[j]);
        }
        lemma_batch_within(
            c,
            h,
            probes,
            nq,
            groups,
            before,
            dists,
            score,
            qi,
            (n - 1) as nat,
            t,
        );
        assert(groups[l]@ == queries_of(probes, nq, l));
        lemma_group_entries(probes, nq, l, qi);
        if lists.len() > before.len() {
            let m = before.len();
            let list = lists[m as int];
            assert(list.list_id == l);
            lemma_batch_found_same(lists, before, groups, dists, qi, m);
            assert forall|x: int| 0 <= x < group.len() && (#[trigger] group[x]).0 == qi implies
                dists[m as int]@[x]@ == own(l) by {}
            lemma_group_within(list, group, dists[m as int]@, qi, own(l), group.len(), t);
            search::lemma_within_concat(
                batch_found(lists, groups, dists, qi, m),
                group_found(list, group, dists[m as int]@, qi, group.len()),
                t,
            );
        } else {
            assert(lists == before);
            if group.len() == 0 {
                assert(0 * w == 0) by (nonlinear_arith);
            } else {
                assert(reader::entry_count(c, reader::table_at(h), l) as nat == 0);
                assert(w == 0);
                let r: int = ranks_of(probes[qi]@, 0, l).len() as int;
                assert(r * 0 == 0) by (nonlinear_arith);
            }
        }
    }
}

/// What a query finds depends on its lists alone.
pub proof fn lemma_batch_found_same(
    a: Seq<BatchView>,
    b: Seq<BatchView>,
    groups: Seq<Vec<(usize, usize)>>,
    dists: Seq<Vec<Vec<u32>>>,
    qi: int,
    n: nat,
)
    requires
        n <= a.len(),
        n <= b.len(),
        forall|j: int| 0 <= j < n ==> a[j] == b[j],
    ensures
        batch_found(a, groups, dists, qi, n) == batch_found(b, groups, dists, qi, n),
    decreases n,
{
    if n > 0 {
        lemma_batch_found_same(a, b, groups, dists, qi, (n - 1) as nat);
        assert(a[n - 1] == b[n - 1]);
    }
}

/// Every number lies within the largest place.
proof fn lemma_within_all(items: Seq<(u32, i64)>)
    ensures
        heap::within(items, 0x8000_0000) == items.len(),
{
    heap::lemma_within_bound(items, 0x8000_0000);
}

/// A query gets the same distances in a batch as alone.
pub proof fn lemma_batch_same_distances(
    c: Seq<u8>,
    h: Header,
    probes: Seq<Vec<usize>>,
    nq: nat,
    groups: Seq<Vec<(usize, usize)>>,
    lists: Seq<BatchView>,
    dists: Seq<Vec<Vec<u32>>>,
    score: spec_fn(int, int) -> Seq<u32>,
    qi: int,
    own_lists: Seq<ListView>,
    own_dists: Seq<Vec<u32>>,
    k: nat,
)
    requires
        nq <= usize::MAX,
        0 <= qi < nq,
        reader::sections_error(c, h) is None,
        probes_valid(probes, nq, h.nlist as nat),
        grouped(groups, probes, nq, h.nlist as nat),
        batch_lists(c, h, groups, h.nlist as nat) == Ok::<Seq<BatchView>, Error>(lists),
        scored_by(lists, groups, dists, score),
        file_search::probed_lists(c, h, probes[qi]@) == Ok::<Seq<ListView>, Error>(own_lists),
        own_dists.len() == own_lists.len(),
        forall|j: int|
            #![trigger own_lists[j]]
            0 <= j < own_lists.len() ==> own_dists[j]@ == score(qi, own_lists[j].list_id as int),
        heap::all_numbers(batch_found(lists, groups, dists, qi, lists.len())),
        heap::all_numbers(
            file_search::lists_found(own_lists, own_dists, None, own_lists.len()),
        ),
    ensures
        heap::same_distances(
            batch_results(lists, groups, dists, nq, k)[qi],
            file_search::lists_result(own_lists, own_dists, None, k, false),
        ),
{
    let own = |l: int| score(qi, l);
    let nlist = h.nlist as nat;
    let a = batch_found(lists, groups, dists, qi, lists.len());
    let b = file_search::lists_found(own_lists, own_dists, None, own_lists.len());
    let probe = probes[qi]@;
    assert forall|r: int| 0 <= r < probe.len() implies #[trigger] probe[r] < nlist by {
        assert(probes[qi]@[r] < nlist);
    }
    assert forall|t: int| #[trigger] heap::within(a, t) == heap::within(b, t) by {
        lemma_batch_within(c, h, probes, nq, groups, lists, dists, score, qi, nlist, t);
        lemma_count_by_lists(c, h, own, probe, nlist, t);
        lemma_probe_readable(c, h, probe, own_lists);
        lemma_single_within(c, h, own, probe, own_lists, own_dists, t);
    }
    lemma_within_all(a);
    lemma_within_all(b);
    search::lemma_result_sorted(k, a);
    search::lemma_result_sorted(k, b);
    assert forall|t: int| #[trigger] heap::within(heap::nearest(k, a), t) == heap::within(
        heap::nearest(k, b),
        t,
    ) by {
        assert(heap::within(a, t) == heap::within(b, t));
        search::lemma_nearest_within(k, a, t);
        search::lemma_nearest_within(k, b, t);
    }
    heap::lemma_same_counts(heap::nearest(k, a), heap::nearest(k, b));
}

/// Every probed list of a query that was answered could be read.
pub proof fn lemma_probe_readable(c: Seq<u8>, h: Header, probe: Seq<usize>, lists: Seq<ListView>)
    requires
        reader::sections_error(c, h) is None,
        file_search::probed_lists(c, h, probe) == Ok::<Seq<ListView>, Error>(lists),
        forall|r: int| 0 <= r < probe.len() ==> #[trigger] probe[r] < h.nlist,
    ensures
        forall|r: int|
            0 <= r < probe.len() ==> reader::stored_list(c, h, #[trigger] probe[r] as int) is Ok
                && reader::entry_count(c, reader::table_at(h), probe[r] as int) >= 0,
    decreases probe.len(),
{
    if probe.len() > 0 {
        let front = probe.drop_last();
        let before = file_search::probed_lists(c, h, front)->Ok_0;
        assert forall|r: int| 0 <= r < front.len() implies #[trigger] front[r] < h.nlist by {
            assert(probe[r] < h.nlist);
        }
        lemma_probe_readable(c, h, front, before);
        let last = probe.last();
        assert(probe[probe.len() - 1] == last);
        reader::lemma_table_counts(c, reader::table_at(h), h.nlist as nat, last as int);
        assert forall|r: int| 0 <= r < probe.len() implies reader::stored_list(
            c,
            h,
            #[trigger] probe[r] as int,
        ) is Ok && reader::entry_count(c, reader::table_at(h), probe[r] as int) >= 0 by {
            if r < front.len() {
                assert(front[r] == probe[r]);
            }
        }
    }
}

} // verus!
