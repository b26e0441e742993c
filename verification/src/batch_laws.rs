//! What a query of a batch is answered, in terms of the lists that it probes.

use crate::batch;
use crate::batch::BatchView;
use crate::error::Error;
use crate::file_search;
use crate::file_search::ListView;
use crate::float;
use crate::heap;
use crate::list_laws;
use crate::reader;
use crate::reader::Header;
use crate::search;
use crate::search_laws;
use vstd::prelude::*;
use vstd::seq_lib;

verus! {

proof fn lemma_none(p: (u32, i64))
    ensures
        Seq::<(u32, i64)>::empty().to_multiset().count(p) == 0,
{
    Seq::<(u32, i64)>::empty().to_multiset_ensures();
}

/// How often `list` holds a distance with an ID, if `score` gives the distances.
spec fn list_times(
    c: Seq<u8>,
    h: Header,
    score: spec_fn(int) -> Seq<u32>,
    list: int,
    p: (u32, i64),
) -> nat {
    match reader::stored_list(c, h, list) {
        Ok((ids, _)) => search::candidates(
            ids,
            score(list),
            reader::entry_count(c, reader::table_at(h), list) as nat,
            None,
        ).to_multiset().count(p),
        Err(_) => 0,
    }
}

/// The same for all probed lists together.
spec fn probe_times(
    c: Seq<u8>,
    h: Header,
    score: spec_fn(int) -> Seq<u32>,
    probe: Seq<usize>,
    p: (u32, i64),
) -> nat
    decreases probe.len(),
{
    if probe.len() == 0 {
        0
    } else {
        probe_times(c, h, score, probe.drop_last(), p) + list_times(
            c,
            h,
            score,
            probe.last() as int,
            p,
        )
    }
}

/// The same, list by list.
spec fn lists_times(
    c: Seq<u8>,
    h: Header,
    score: spec_fn(int) -> Seq<u32>,
    probe: Seq<usize>,
    n: nat,
    p: (u32, i64),
) -> nat
    decreases n,
{
    if n == 0 {
        0
    } else {
        lists_times(c, h, score, probe, (n - 1) as nat, p) + batch::ranks_of(probe, 0, n - 1).len()
            * list_times(c, h, score, n - 1, p)
    }
}

/// Counting by probes and counting by lists come to the same.
proof fn lemma_times_by_lists(
    c: Seq<u8>,
    h: Header,
    score: spec_fn(int) -> Seq<u32>,
    probe: Seq<usize>,
    n: nat,
    p: (u32, i64),
)
    requires
        forall|r: int| 0 <= r < probe.len() ==> #[trigger] probe[r] < n,
    ensures
        lists_times(c, h, score, probe, n, p) == probe_times(c, h, score, probe, p),
    decreases probe.len(),
{
    if probe.len() > 0 {
        let front = probe.drop_last();
        assert forall|r: int| 0 <= r < front.len() implies #[trigger] front[r] < n by {
            assert(probe[r] < n);
        }
        lemma_times_by_lists(c, h, score, front, n, p);
        lemma_times_step(c, h, score, probe, n, p);
        assert(probe[probe.len() - 1] < n);
    } else {
        lemma_times_empty(c, h, score, probe, n, p);
    }
}

proof fn lemma_times_empty(
    c: Seq<u8>,
    h: Header,
    score: spec_fn(int) -> Seq<u32>,
    probe: Seq<usize>,
    n: nat,
    p: (u32, i64),
)
    requires
        probe.len() == 0,
    ensures
        lists_times(c, h, score, probe, n, p) == 0,
    decreases n,
{
    if n > 0 {
        lemma_times_empty(c, h, score, probe, (n - 1) as nat, p);
        assert(0 * list_times(c, h, score, n - 1, p) == 0) by (nonlinear_arith);
    }
}

proof fn lemma_times_step(
    c: Seq<u8>,
    h: Header,
    score: spec_fn(int) -> Seq<u32>,
    probe: Seq<usize>,
    n: nat,
    p: (u32, i64),
)
    requires
        probe.len() > 0,
    ensures
        lists_times(c, h, score, probe, n, p) == lists_times(
            c,
            h,
            score,
            probe.drop_last(),
            n,
            p,
        ) + if probe.last() < n {
            list_times(c, h, score, probe.last() as int, p)
        } else {
            0
        },
    decreases n,
{
    if n > 0 {
        lemma_times_step(c, h, score, probe, (n - 1) as nat, p);
        let w: int = list_times(c, h, score, n - 1, p) as int;
        let before: int = batch::ranks_of(probe.drop_last(), 0, n - 1).len() as int;
        if probe.last() == n - 1 {
            assert((before + 1) * w == before * w + w) by (nonlinear_arith);
        }
    }
}

/// What one query alone finds, counted.
proof fn lemma_single_times(
    c: Seq<u8>,
    h: Header,
    score: spec_fn(int) -> Seq<u32>,
    probe: Seq<usize>,
    lists: Seq<ListView>,
    dists: Seq<Vec<u32>>,
    p: (u32, i64),
)
    requires
        file_search::probed_lists(c, h, probe) == Ok::<Seq<ListView>, Error>(lists),
        lists.len() <= dists.len(),
        forall|j: int|
            #![trigger lists[j]]
            0 <= j < lists.len() ==> dists[j]@ == score(lists[j].list_id as int),
        forall|r: int|
            0 <= r < probe.len() ==> reader::stored_list(c, h, #[trigger] probe[r] as int) is Ok
                && reader::entry_count(c, reader::table_at(h), probe[r] as int) >= 0,
    ensures
        file_search::lists_found(lists, dists, None, lists.len()).to_multiset().count(p)
            == probe_times(c, h, score, probe, p),
    decreases probe.len(),
{
    lemma_none(p);
    if probe.len() > 0 {
        let front = probe.drop_last();
        let last = probe.last();
        assert(probe[probe.len() - 1] == last);
        assert forall|r: int| 0 <= r < front.len() implies reader::stored_list(
            c,
            h,
            #[trigger] front[r] as int,
        ) is Ok && reader::entry_count(c, reader::table_at(h), front[r] as int) >= 0 by {
            assert(front[r] == probe[r]);
        }
        let before = file_search::probed_lists(c, h, front)->Ok_0;
        assert forall|j: int| #![trigger before[j]] 0 <= j < before.len() implies dists[j]@
            == score(before[j].list_id as int) by {
            assert(lists[j] == before[j]);
        }
        lemma_single_times(c, h, score, front, before, dists, p);
        if lists.len() > before.len() {
            let n = before.len();
            batch::lemma_lists_found_same(lists, before, dists, n);
            assert(lists[n as int].list_id == last);
            seq_lib::lemma_multiset_commutative(
                file_search::lists_found(lists, dists, None, n),
                file_search::list_candidates(lists, dists, None, n as int),
            );
        } else {
            assert(lists == before);
            assert(reader::entry_count(c, reader::table_at(h), last as int) as nat == 0);
        }
    }
}

proof fn lemma_group_times(
    list: BatchView,
    group: Seq<(usize, usize)>,
    dists: Seq<Vec<u32>>,
    qi: int,
    scores: Seq<u32>,
    n: nat,
    p: (u32, i64),
)
    requires
        n <= group.len(),
        forall|x: int|
            0 <= x < group.len() && (#[trigger] group[x]).0 == qi ==> dists[x]@ == scores,
    ensures
        batch::group_found(list, group, dists, qi, n).to_multiset().count(p)
            == batch::entries_of(group, qi, n) * search::candidates(
            list.ids,
            scores,
            list.count,
            None,
        ).to_multiset().count(p),
    decreases n,
{
    lemma_none(p);
    let one = search::candidates(list.ids, scores, list.count, None);
    let w: int = one.to_multiset().count(p) as int;
    if n > 0 {
        lemma_group_times(list, group, dists, qi, scores, (n - 1) as nat, p);
        let e: int = batch::entries_of(group, qi, (n - 1) as nat) as int;
        if group[n - 1].0 == qi {
            assert(dists[n - 1]@ == scores);
            seq_lib::lemma_multiset_commutative(
                batch::group_found(list, group, dists, qi, (n - 1) as nat),
                one,
            );
            assert((e + 1) * w == e * w + w) by (nonlinear_arith);
        }
    } else {
        assert(0 * w == 0) by (nonlinear_arith);
    }
}

/// What a query finds in a batch, counted.
proof fn lemma_batch_times(
    c: Seq<u8>,
    h: Header,
    probes: Seq<Vec<usize>>,
    nq: nat,
    groups: Seq<Vec<(usize, usize)>>,
    lists: Seq<BatchView>,
    dists: Seq<Vec<Vec<u32>>>,
    score: spec_fn(int, int) -> Seq<u32>,
    qi: int,
    n: nat,
    p: (u32, i64),
)
    requires
        nq <= usize::MAX,
        0 <= qi < nq,
        n <= groups.len() <= usize::MAX,
        batch::grouped(groups, probes, nq, groups.len()),
        batch::batch_lists(c, h, groups, n) == Ok::<Seq<BatchView>, Error>(lists),
        lists.len() <= dists.len(),
        forall|j: int, x: int|
            #![trigger dists[j]@[x]]
            0 <= j < lists.len() && 0 <= x < groups[lists[j].list_id as int]@.len()
                ==> dists[j]@[x]@ == score(
                groups[lists[j].list_id as int]@[x].0 as int,
                lists[j].list_id as int,
            ),
    ensures
        batch::batch_found(lists, groups, dists, qi, lists.len()).to_multiset().count(p)
            == lists_times(
            c,
            h,
            |l: int| score(qi, l),
            probes[qi]@,
            n,
            p,
        ),
    decreases n,
{
    lemma_none(p);
    let own = |l: int| score(qi, l);
    if n > 0 {
        let l: int = n - 1;
        let group = groups[l]@;
        let before = batch::batch_lists(c, h, groups, (n - 1) as nat)->Ok_0;
        let w: int = list_times(c, h, own, l, p) as int;
        assert forall|j: int, x: int|
            #![trigger dists[j]@[x]]
            0 <= j < before.len() && 0 <= x < groups[before[j].list_id as int]@.len() implies
            dists[j]@[x]@ == score(
            groups[before[j].list_id as int]@[x].0 as int,
            before[j].list_id as int,
        ) by {
            assert(lists[j] == before[j]);
        }
        lemma_batch_times(
            c,
            h,
            probes,
            nq,
            groups,
            before,
            dists,
            score,
            qi,
            (n - 1) as nat,
            p,
        );
        assert(groups[l]@ == batch::queries_of(probes, nq, l));
        batch::lemma_group_entries(probes, nq, l, qi);
        if lists.len() > before.len() {
            let m = before.len();
            let list = lists[m as int];
            assert(list.list_id == l);
            batch::lemma_batch_found_same(lists, before, groups, dists, qi, m);
            assert forall|x: int| 0 <= x < group.len() && (#[trigger] group[x]).0 == qi implies
                dists[m as int]@[x]@ == own(l) by {}
            lemma_group_times(list, group, dists[m as int]@, qi, own(l), group.len(), p);
            seq_lib::lemma_multiset_commutative(
                batch::batch_found(lists, groups, dists, qi, m),
                batch::group_found(list, group, dists[m as int]@, qi, group.len()),
            );
        } else {
            assert(lists == before);
            if group.len() == 0 {
                assert(0 * w == 0) by (nonlinear_arith);
            } else {
                assert(reader::entry_count(c, reader::table_at(h), l) as nat == 0);
                assert(w == 0);
                let r: int = batch::ranks_of(probes[qi]@, 0, l).len() as int;
                assert(r * 0 == 0) by (nonlinear_arith);
            }
        }
    }
}

proof fn lemma_nearest_same(k: nat, a: Seq<(u32, i64)>, pool: Seq<(u32, i64)>)
    requires
        a.to_multiset() == pool.to_multiset(),
        forall|i: int| 0 <= i < pool.len() ==> !float::is_nan((#[trigger] pool[i]).0),
    ensures
        ({
            let row = heap::nearest(k, a);
            &&& row.len() == if pool.len() < k {
                pool.len()
            } else {
                k
            }
            &&& forall|i: int, j: int|
                #![trigger row[i], row[j]]
                0 <= i < j < row.len() ==> float::rank(row[i].0) <= float::rank(row[j].0)
            &&& forall|p: (u32, i64)| #[trigger]
                row.to_multiset().count(p) <= pool.to_multiset().count(p)
            &&& forall|i: int|
                #![trigger row[i]]
                0 <= i < row.len() ==> pool.filter(
                    |p: (u32, i64)| float::rank(p.0) < float::rank(row[i].0),
                ).len() <= i
        }),
{
    a.to_multiset_ensures();
    pool.to_multiset_ensures();
    assert forall|i: int| 0 <= i < a.len() implies !float::is_nan((#[trigger] a[i]).0) by {
        assert(a.contains(a[i]));
        assert(a.to_multiset().count(a[i]) > 0);
        assert(pool.contains(a[i]));
        let x = pool.index_of(a[i]);
        assert(!float::is_nan(pool[x].0));
    }
    search_laws::lemma_nearest(k, a);
    let row = heap::nearest(k, a);
    assert forall|i: int| #![trigger row[i]] 0 <= i < row.len() implies pool.filter(
        |p: (u32, i64)| float::rank(p.0) < float::rank(row[i].0),
    ).len() <= i by {
        let t: int = float::rank(row[i].0) - 1;
        heap::lemma_within_multiset(a, pool, t);
        search_laws::lemma_within(a, t);
        search_laws::lemma_within(pool, t);
        assert((|p: (u32, i64)| float::rank(p.0) < float::rank(row[i].0)) =~= (|p: (u32, i64)|
            float::rank(p.0) <= t));
    }
}

/// What a query of a batch finds are the pairs of a distance and an ID of the
/// vectors of the lists that it probes, each as often as it occurs there.
pub proof fn lemma_batch_pool(
    c: Seq<u8>,
    h: Header,
    probes: Seq<Vec<usize>>,
    nq: nat,
    groups: Seq<Vec<(usize, usize)>>,
    lists: Seq<BatchView>,
    dists: Seq<Vec<Vec<u32>>>,
    score: spec_fn(int, int) -> Seq<u32>,
    qi: int,
    own_lists: Seq<ListView>,
    own_dists: Seq<Vec<u32>>,
    pool: Seq<(u32, i64)>,
)
    requires
        nq <= usize::MAX,
        0 <= qi < nq,
        reader::sections_error(c, h) is None,
        batch::probes_valid(probes, nq, h.nlist as nat),
        batch::grouped(groups, probes, nq, h.nlist as nat),
        batch::batch_lists(c, h, groups, h.nlist as nat) == Ok::<Seq<BatchView>, Error>(lists),
        dists.len() == lists.len(),
        forall|j: int, x: int|
            #![trigger dists[j]@[x]]
            0 <= j < lists.len() && 0 <= x < groups[lists[j].list_id as int]@.len()
                ==> dists[j]@[x]@ == score(
                groups[lists[j].list_id as int]@[x].0 as int,
                lists[j].list_id as int,
            ),
        file_search::probed_lists(c, h, probes[qi]@) == Ok::<Seq<ListView>, Error>(own_lists),
        own_dists.len() == own_lists.len(),
        forall|j: int|
            #![trigger own_lists[j]]
            0 <= j < own_lists.len() ==> own_dists[j]@ == score(qi, own_lists[j].list_id as int),
        pool == Seq::new(
            own_lists.len(),
            |j: int|
                Seq::new(own_lists[j].count, |g: int| (own_dists[j]@[g], own_lists[j].ids[g])),
        ).flatten(),
    ensures
        batch::batch_found(lists, groups, dists, qi, lists.len()).to_multiset()
            == pool.to_multiset(),
{
    let own = |l: int| score(qi, l);
    let nlist = h.nlist as nat;
    let a = batch::batch_found(lists, groups, dists, qi, lists.len());
    let probe = probes[qi]@;
    list_laws::lemma_lists_found(own_lists, own_dists, Set::empty(), own_lists.len());
    assert(pool =~= file_search::lists_found(own_lists, own_dists, None, own_lists.len()));
    assert forall|r: int| 0 <= r < probe.len() implies #[trigger] probe[r] < nlist by {
        assert(probes[qi]@[r] < nlist);
    }
    batch::lemma_probe_readable(c, h, probe, own_lists);
    assert forall|p: (u32, i64)| #[trigger]
        a.to_multiset().count(p) == pool.to_multiset().count(p) by {
        lemma_batch_times(c, h, probes, nq, groups, lists, dists, score, qi, nlist, p);
        lemma_times_by_lists(c, h, own, probe, nlist, p);
        lemma_single_times(c, h, own, probe, own_lists, own_dists, p);
    }
    assert(a.to_multiset() =~= pool.to_multiset());
}

/// Every query of a batch is answered from the lists that it probes: the answers
/// are the `k` nearest of the pairs of a distance and an ID that the vectors of
/// those lists have, where `score` gives the distances of every query and list
/// and `own_lists` are the lists as the query alone would read them. There are
/// as many answers as such pairs, up to `k`; no pair is answered more often than
/// it occurs there; they come by ascending distance; and at most `i` of the
/// pairs are nearer than answer `i`.
pub proof fn lemma_batch_query(
    c: Seq<u8>,
    h: Header,
    probes: Seq<Vec<usize>>,
    nq: nat,
    groups: Seq<Vec<(usize, usize)>>,
    lists: Seq<BatchView>,
    dists: Seq<Vec<Vec<u32>>>,
    score: spec_fn(int, int) -> Seq<u32>,
    qi: int,
    own_lists: Seq<ListView>,
    own_dists: Seq<Vec<u32>>,
    k: nat,
    pool: Seq<(u32, i64)>,
)
    requires
        nq <= usize::MAX,
        0 <= qi < nq,
        reader::sections_error(c, h) is None,
        batch::probes_valid(probes, nq, h.nlist as nat),
        batch::grouped(groups, probes, nq, h.nlist as nat),
        batch::batch_lists(c, h, groups, h.nlist as nat) == Ok::<Seq<BatchView>, Error>(lists),
        dists.len() == lists.len(),
        forall|j: int, x: int|
            #![trigger dists[j]@[x]]
            0 <= j < lists.len() && 0 <= x < groups[lists[j].list_id as int]@.len()
                ==> dists[j]@[x]@ == score(
                groups[lists[j].list_id as int]@[x].0 as int,
                lists[j].list_id as int,
            ),
        file_search::probed_lists(c, h, probes[qi]@) == Ok::<Seq<ListView>, Error>(own_lists),
        own_dists.len() == own_lists.len(),
        forall|j: int|
            #![trigger own_lists[j]]
            0 <= j < own_lists.len() ==> own_dists[j]@ == score(qi, own_lists[j].list_id as int),
        pool == Seq::new(
            own_lists.len(),
            |j: int|
                Seq::new(own_lists[j].count, |g: int| (own_dists[j]@[g], own_lists[j].ids[g])),
        ).flatten(),
        forall|i: int| 0 <= i < pool.len() ==> !float::is_nan((#[trigger] pool[i]).0),
    ensures
        batch::batch_results(lists, groups, dists, nq, k).len() == nq,
        ({
            let row = batch::batch_results(lists, groups, dists, nq, k)[qi];
            &&& row.len() == if pool.len() < k {
                pool.len()
            } else {
                k
            }
            &&& forall|i: int, j: int|
                #![trigger row[i], row[j]]
                0 <= i < j < row.len() ==> float::rank(row[i].0) <= float::rank(row[j].0)
            &&& forall|p: (u32, i64)| #[trigger]
                row.to_multiset().count(p) <= pool.to_multiset().count(p)
            &&& forall|i: int|
                #![trigger row[i]]
                0 <= i < row.len() ==> pool.filter(
                    |p: (u32, i64)| float::rank(p.0) < float::rank(row[i].0),
                ).len() <= i
        }),
{
    lemma_batch_pool(
        c,
        h,
        probes,
        nq,
        groups,
        lists,
        dists,
        score,
        qi,
        own_lists,
        own_dists,
        pool,
    );
    lemma_nearest_same(k, batch::batch_found(lists, groups, dists, qi, lists.len()), pool);
}

} // verus!
