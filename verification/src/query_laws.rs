//! Which requests are refused, and with what.

use crate::error::{Error, ErrorKind};
use crate::file_search;
use crate::float;
use crate::heap;
use crate::ivfpq::IVFPQIndex;
use crate::reader;
use crate::reader::Header;
use crate::search;
use crate::search_laws;
use crate::shuffler::DiskShuffler;
use vstd::prelude::*;

verus! {

/// The class of an error: the stream's own failures, what the caller did wrong,
/// and everything else, which is wrong in the file.
pub proof fn lemma_kinds(e: Error)
    ensures
        e.spec_kind() == ErrorKind::Io <==> e is Io,
        e.spec_kind() == ErrorKind::InvalidInput <==> (e is QueryLength || e is ZeroK
            || e is ZeroNprobe || e is ZeroQueries || e is QueryCountOverflow
            || e is QueriesLength || e is VectorLength || e is PartitionOutOfRange),
{
}

/// A query is taken if the sections are sound, it has as many components as the
/// vectors, and it asks for something. What is refused is refused for the first
/// of these reasons.
pub proof fn lemma_query_check(c: Seq<u8>, h: Header, len: usize, k: usize, nprobe: usize)
    ensures
        ({
            let sound = reader::sections_error(c, h) is None;
            let check = file_search::query_check(c, h, len, k, nprobe);
            &&& check is Ok <==> sound && len == h.d && k > 0 && nprobe > 0
            &&& reader::sections_error(c, h) matches Some(e) ==> check == Err::<(), Error>(e)
            &&& sound && len != h.d ==> check == Err::<(), Error>(
                Error::QueryLength { len, d: h.d },
            )
            &&& sound && len == h.d && k == 0 ==> check == Err::<(), Error>(Error::ZeroK)
            &&& sound && len == h.d && k > 0 && nprobe == 0 ==> check == Err::<(), Error>(
                Error::ZeroNprobe,
            )
        }),
{
}

/// A batch is taken if the sections are sound, it holds queries that have as many
/// components as the vectors, and it asks for something. What is refused is
/// refused for the first of these reasons.
pub proof fn lemma_batch_check(
    c: Seq<u8>,
    h: Header,
    len: usize,
    nq: usize,
    k: usize,
    nprobe: usize,
)
    ensures
        ({
            let sound = reader::sections_error(c, h) is None;
            let check = file_search::batch_check(c, h, len, nq, k, nprobe);
            &&& check is Ok <==> sound && nq > 0 && len == nq * h.d && k > 0 && nprobe > 0
            &&& reader::sections_error(c, h) matches Some(e) ==> check == Err::<(), Error>(e)
            &&& sound && nq == 0 ==> check == Err::<(), Error>(Error::ZeroQueries)
            &&& sound && nq > 0 && nq * h.d > usize::MAX ==> check == Err::<(), Error>(
                Error::QueryCountOverflow,
            )
            &&& sound && nq > 0 && len != nq * h.d && nq * h.d <= usize::MAX ==> check == Err::<
                (),
                Error,
            >(Error::QueriesLength { len, expected: (nq * h.d) as usize })
            &&& sound && nq > 0 && len == nq * h.d && k == 0 ==> check == Err::<(), Error>(
                Error::ZeroK,
            )
            &&& sound && nq > 0 && len == nq * h.d && k > 0 && nprobe == 0 ==> check == Err::<
                (),
                Error,
            >(Error::ZeroNprobe)
        }),
{
}

/// A vector is taken if it has as many components as the others and its
/// partition exists.
pub proof fn lemma_refusal(shuffler: &DiskShuffler, partition_id: u32, len: usize)
    ensures
        ({
            let nlist = shuffler.partition_counts@.len();
            let refusal = shuffler.refusal(partition_id, len as nat);
            &&& refusal is None <==> len == shuffler.dim && partition_id < nlist
            &&& len != shuffler.dim ==> refusal == Some(
                Error::VectorLength { len, dim: shuffler.dim },
            )
            &&& len == shuffler.dim && partition_id >= nlist ==> refusal == Some(
                Error::PartitionOutOfRange { partition_id, nlist: nlist as usize },
            )
        }),
{
}

/// Every query whose lists exist can be answered, if there is a distance for
/// every vector of the lists that are not empty, and every distance is a number.
pub proof fn lemma_answerable(
    index: &IVFPQIndex,
    probes: Seq<usize>,
    dists: Seq<Vec<u32>>,
    filter: Option<Set<i64>>,
    k: nat,
    lists: Seq<usize>,
)
    requires
        probes.len() <= usize::MAX,
        lists == probes.filter(|l: usize| index.ids@[l as int]@.len() > 0),
        forall|r: int| 0 <= r < probes.len() ==> #[trigger] probes[r] < index.nlist,
        dists.len() == lists.len(),
        forall|j: int|
            #![trigger dists[j]]
            0 <= j < lists.len() ==> dists[j]@.len() >= index.ids@[lists[j] as int]@.len(),
        forall|j: int, g: int|
            #![trigger dists[j]@[g]]
            0 <= j < lists.len() && 0 <= g < dists[j]@.len() ==> !float::is_nan(dists[j]@[g]),
    ensures
        index.answerable(probes, None, dists, filter, k),
{
    let ids = index.ids@;
    let plan = search::scan_plan_of(ids, probes, None);
    search_laws::lemma_plan_complete(ids, probes);
    assert(search::scored(plan, dists));
    let items = search::found(ids, plan, dists, filter);
    lemma_found_numbers(ids, plan, dists, filter);
    heap::lemma_kept(k, items);
}

proof fn lemma_found_numbers(
    ids: Seq<Vec<i64>>,
    plan: Seq<search::Scan>,
    dists: Seq<Vec<u32>>,
    filter: Option<Set<i64>>,
)
    requires
        plan.len() <= dists.len(),
        forall|j: int| #![trigger plan[j]] 0 <= j < plan.len() ==> plan[j].count <= dists[j]@.len(),
        forall|j: int, g: int|
            #![trigger dists[j]@[g]]
            0 <= j < plan.len() && 0 <= g < dists[j]@.len() ==> !float::is_nan(dists[j]@[g]),
    ensures
        heap::all_numbers(search::found(ids, plan, dists, filter)),
    decreases plan.len(),
{
    if plan.len() > 0 {
        let front = plan.drop_last();
        let n: int = plan.len() - 1;
        assert forall|j: int| #![trigger front[j]] 0 <= j < front.len() implies front[j].count
            <= dists[j]@.len() by {
            assert(plan[j] == front[j]);
        }
        lemma_found_numbers(ids, front, dists, filter);
        assert(plan[n] == plan.last());
        lemma_candidates_numbers(
            ids[plan.last().list_id as int]@,
            dists[n]@,
            plan.last().count as nat,
            filter,
        );
    }
}

proof fn lemma_candidates_numbers(
    ids: Seq<i64>,
    dists: Seq<u32>,
    n: nat,
    filter: Option<Set<i64>>,
)
    requires
        n <= dists.len(),
        forall|g: int| 0 <= g < dists.len() ==> !float::is_nan(#[trigger] dists[g]),
    ensures
        heap::all_numbers(search::candidates(ids, dists, n, filter)),
    decreases n,
{
    if n > 0 {
        lemma_candidates_numbers(ids, dists, (n - 1) as nat, filter);
        assert(!float::is_nan(dists[n - 1]));
    }
}

/// A query with a limit can be answered, if its lists exist, there is a distance
/// for every vector that its scans look at, and every distance is a number.
pub proof fn lemma_answerable_limited(
    index: &IVFPQIndex,
    probes: Seq<usize>,
    max: usize,
    dists: Seq<Vec<u32>>,
    filter: Option<Set<i64>>,
    k: nat,
    plan: Seq<search::Scan>,
)
    requires
        plan == search::scan_plan_of(index.ids@, probes, Some(max)),
        forall|r: int| 0 <= r < probes.len() ==> #[trigger] probes[r] < index.nlist,
        dists.len() == plan.len(),
        forall|j: int| #![trigger plan[j]] 0 <= j < plan.len() ==> dists[j]@.len() >= plan[j].count,
        forall|j: int, g: int|
            #![trigger dists[j]@[g]]
            0 <= j < plan.len() && 0 <= g < dists[j]@.len() ==> !float::is_nan(dists[j]@[g]),
    ensures
        index.answerable(probes, Some(max), dists, filter, k),
{
    lemma_found_numbers(index.ids@, plan, dists, filter);
    heap::lemma_kept(k, search::found(index.ids@, plan, dists, filter));
}

/// A batch of queries can be answered if each of them can, and there are enough.
pub proof fn lemma_batch_answerable(
    index: &IVFPQIndex,
    nq: nat,
    probes: Seq<Vec<usize>>,
    max_codes: Option<usize>,
    dists: Seq<Vec<Vec<u32>>>,
    filter: Option<Set<i64>>,
    k: nat,
)
    ensures
        index.batch_answerable(nq, probes, max_codes, dists, filter, k) <==> {
            &&& nq <= probes.len()
            &&& nq <= dists.len()
            &&& forall|qi: int|
                0 <= qi < nq ==> index.answerable(
                    #[trigger] probes[qi]@,
                    max_codes,
                    dists[qi]@,
                    filter,
                    k,
                )
        },
{
    if {
        &&& nq <= probes.len()
        &&& nq <= dists.len()
        &&& forall|qi: int|
            0 <= qi < nq ==> index.answerable(
                #[trigger] probes[qi]@,
                max_codes,
                dists[qi]@,
                filter,
                k,
            )
    } {
        assert forall|qi: int| #![trigger probes[qi]] 0 <= qi < nq implies index.answerable(
            probes[qi]@,
            max_codes,
            dists[qi]@,
            filter,
            k,
        ) by {
            assert(probes[qi]@ == probes[qi]@);
        }
    }
}

/// A query that can be answered probes lists that exist, and has a distance for
/// every vector that its scans look at.
pub proof fn lemma_answerable_only(
    index: &IVFPQIndex,
    probes: Seq<usize>,
    max_codes: Option<usize>,
    dists: Seq<Vec<u32>>,
    filter: Option<Set<i64>>,
    k: nat,
)
    requires
        index.answerable(probes, max_codes, dists, filter, k),
    ensures
        forall|r: int| 0 <= r < probes.len() ==> #[trigger] probes[r] < index.nlist,
        dists.len() == search::scan_plan_of(index.ids@, probes, max_codes).len(),
        forall|j: int|
            #![trigger dists[j]]
            0 <= j < dists.len() ==> search::scan_plan_of(index.ids@, probes, max_codes)[j].count
                <= dists[j]@.len(),
{
}

} // verus!
