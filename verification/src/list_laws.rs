//! What a search in a file answers, in terms of the lists that were read and the
//! distances of their vectors.

use crate::batch;
use crate::batch::BatchView;
use crate::error::Error;
use crate::file_search;
use crate::file_search::ListView;
use crate::float;
use crate::heap;
use crate::reader;
use crate::reader::Header;
use crate::search;
use crate::search_laws;
use vstd::prelude::*;
use vstd::seq_lib;

verus! {

/// The lists that a query reads: every probed list that is not empty, in the
/// order of the probes, with what the file stores for it.
pub proof fn lemma_probed_lists(c: Seq<u8>, h: Header, probes: Seq<usize>)
    ensures
        file_search::probed_lists(c, h, probes) matches Ok(lists) ==> {
            let wanted = probes.filter(
                |l: usize| reader::entry_count(c, reader::table_at(h), l as int) as nat > 0,
            );
            &&& lists.len() == wanted.len()
            &&& forall|j: int| #![trigger lists[j]] 0 <= j < lists.len() ==> {
                &&& lists[j].list_id == wanted[j]
                &&& lists[j].rank < probes.len()
                &&& probes[lists[j].rank as int] == wanted[j]
                &&& lists[j].count == reader::entry_count(
                    c,
                    reader::table_at(h),
                    wanted[j] as int,
                ) as nat
                &&& reader::stored_list(c, h, wanted[j] as int) == Ok::<
                    (Seq<i64>, Seq<u8>),
                    Error,
                >((lists[j].ids, lists[j].codes))
            }
            &&& forall|i: int, j: int|
                #![trigger lists[i], lists[j]]
                0 <= i < j < lists.len() ==> lists[i].rank < lists[j].rank
        },
    decreases probes.len(),
{
    reveal(Seq::filter);
    let nonempty = |l: usize|
        reader::entry_count(c, reader::table_at(h), l as int) as nat > 0;
    if probes.len() > 0 {
        let front = probes.drop_last();
        lemma_probed_lists(c, h, front);
        if let Ok(lists) = file_search::probed_lists(c, h, probes) {
            let before = file_search::probed_lists(c, h, front)->Ok_0;
            let wanted = probes.filter(nonempty);
            assert forall|j: int| #![trigger lists[j]] 0 <= j < lists.len() implies {
                &&& lists[j].list_id == wanted[j]
                &&& lists[j].rank < probes.len()
                &&& probes[lists[j].rank as int] == wanted[j]
                &&& lists[j].count == reader::entry_count(
                    c,
                    reader::table_at(h),
                    wanted[j] as int,
                ) as nat
                &&& reader::stored_list(c, h, wanted[j] as int) == Ok::<
                    (Seq<i64>, Seq<u8>),
                    Error,
                >((lists[j].ids, lists[j].codes))
            } by {
                if j < before.len() {
                    assert(lists[j] == before[j]);
                    assert(front[before[j].rank as int] == probes[before[j].rank as int]);
                }
            }
            assert forall|i: int, j: int|
                #![trigger lists[i], lists[j]]
                0 <= i < j < lists.len() implies lists[i].rank < lists[j].rank by {
                assert(lists[i] == before[i]);
                if j < before.len() {
                    assert(lists[j] == before[j]);
                }
            }
        }
    }
}

/// The lists of a query can be read if each of them can; if not, the first of
/// them that cannot says why.
pub proof fn lemma_probed_failure(c: Seq<u8>, h: Header, probes: Seq<usize>)
    ensures
        file_search::probed_lists(c, h, probes) is Ok <==> forall|r: int|
            0 <= r < probes.len() && reader::entry_count(
                c,
                reader::table_at(h),
                #[trigger] probes[r] as int,
            ) as nat > 0 ==> reader::stored_list(c, h, probes[r] as int) is Ok,
        file_search::probed_lists(c, h, probes) matches Err(e) ==> exists|r: int|
            #![trigger probes[r]]
            {
                &&& 0 <= r < probes.len()
                &&& reader::entry_count(c, reader::table_at(h), probes[r] as int) as nat > 0
                &&& reader::stored_list(c, h, probes[r] as int) == Err::<
                    (Seq<i64>, Seq<u8>),
                    Error,
                >(e)
                &&& file_search::probed_lists(c, h, probes.take(r)) is Ok
            },
    decreases probes.len(),
{
    if probes.len() > 0 {
        let front = probes.drop_last();
        lemma_probed_failure(c, h, front);
        assert(probes[probes.len() - 1] == probes.last());
        assert(forall|r: int| 0 <= r < front.len() ==> #[trigger] front[r] == probes[r]);
        assert(forall|r: int| 0 <= r < front.len() ==> front[r] == #[trigger] probes[r]);
        if let Err(e) = file_search::probed_lists(c, h, probes) {
            if file_search::probed_lists(c, h, front) is Err {
                let r = choose|r: int|
                    #![trigger front[r]]
                    {
                        &&& 0 <= r < front.len()
                        &&& reader::entry_count(c, reader::table_at(h), front[r] as int) as nat > 0
                        &&& reader::stored_list(c, h, front[r] as int) == Err::<
                            (Seq<i64>, Seq<u8>),
                            Error,
                        >(e)
                        &&& file_search::probed_lists(c, h, front.take(r)) is Ok
                    };
                assert(probes.take(r) =~= front.take(r));
                assert(probes[r] == front[r]);
            } else {
                assert(probes.take(probes.len() - 1) =~= front);
            }
        }
    }
}

/// The lists contribute all their vectors, list after list, each with its own
/// distance and ID; with a filter, those whose ID is in it.
pub proof fn lemma_lists_found(
    lists: Seq<ListView>,
    dists: Seq<Vec<u32>>,
    allowed: Set<i64>,
    n: nat,
)
    ensures
        ({
            let all = Seq::new(
                n,
                |j: int|
                    Seq::new(lists[j].count, |g: int| (dists[j]@[g], lists[j].ids[g])),
            ).flatten();
            &&& file_search::lists_found(lists, dists, None, n) == all
            &&& file_search::lists_found(lists, dists, Some(allowed), n) == all.filter(
                |p: (u32, i64)| allowed.contains(p.1),
            )
        }),
    decreases n,
{
    let pred = |p: (u32, i64)| allowed.contains(p.1);
    let nested = Seq::new(
        n,
        |j: int| Seq::new(lists[j].count, |g: int| (dists[j]@[g], lists[j].ids[g])),
    );
    if n > 0 {
        let m = (n - 1) as nat;
        lemma_lists_found(lists, dists, allowed, m);
        let front = Seq::new(
            m,
            |j: int| Seq::new(lists[j].count, |g: int| (dists[j]@[g], lists[j].ids[g])),
        );
        let last = Seq::new(lists[n - 1].count, |g: int| (dists[n - 1]@[g], lists[n - 1].ids[g]));
        assert(nested =~= front.push(last)) by {
            assert(nested[n - 1] =~= last);
        }
        front.lemma_flatten_push(last);
        search_laws::lemma_candidates(lists[n - 1].ids, dists[n - 1]@, lists[n - 1].count, allowed);
        Seq::filter_distributes_over_add(front.flatten(), last, pred);
    } else {
        reveal(Seq::filter);
        assert(nested =~= Seq::empty());
    }
}

proof fn lemma_part_numbers(
    lists: Seq<ListView>,
    dists: Seq<Vec<u32>>,
    filter: Option<Set<i64>>,
    n: nat,
    j: int,
)
    requires
        heap::all_numbers(file_search::lists_found(lists, dists, filter, n)),
        0 <= j < n,
    ensures
        heap::all_numbers(file_search::list_candidates(lists, dists, filter, j)),
    decreases n,
{
    let m = (n - 1) as nat;
    let all = file_search::lists_found(lists, dists, filter, n);
    let front = file_search::lists_found(lists, dists, filter, m);
    let own = file_search::list_candidates(lists, dists, filter, n - 1);
    assert forall|i: int| 0 <= i < front.len() implies !float::is_nan((#[trigger] front[i]).0) by {
        assert(all[i] == front[i]);
    }
    assert forall|i: int| 0 <= i < own.len() implies !float::is_nan((#[trigger] own[i]).0) by {
        assert(all[front.len() + i] == own[i]);
    }
    if j < m {
        lemma_part_numbers(lists, dists, filter, m, j);
    }
}

proof fn lemma_apart_count(
    lists: Seq<ListView>,
    dists: Seq<Vec<u32>>,
    filter: Option<Set<i64>>,
    k: nat,
    n: nat,
    p: (u32, i64),
)
    requires
        heap::all_numbers(file_search::lists_found(lists, dists, filter, n)),
    ensures
        file_search::lists_found_apart(lists, dists, filter, k, n).to_multiset().count(p)
            <= file_search::lists_found(lists, dists, filter, n).to_multiset().count(p),
    decreases n,
{
    if n > 0 {
        let m = (n - 1) as nat;
        let front = file_search::lists_found(lists, dists, filter, m);
        let own = file_search::list_candidates(lists, dists, filter, n - 1);
        assert forall|i: int| 0 <= i < front.len() implies !float::is_nan(
            (#[trigger] front[i]).0,
        ) by {
            assert(file_search::lists_found(lists, dists, filter, n)[i] == front[i]);
        }
        lemma_part_numbers(lists, dists, filter, n, n - 1);
        lemma_apart_count(lists, dists, filter, k, m, p);
        search_laws::lemma_nearest(k, own);
        seq_lib::lemma_multiset_commutative(front, own);
        seq_lib::lemma_multiset_commutative(
            file_search::lists_found_apart(lists, dists, filter, k, m),
            heap::nearest(k, own),
        );
        assert(heap::nearest(k, own).to_multiset().count(p) <= own.to_multiset().count(p));
    }
}

/// The answers to a query in a file: the `k` nearest of the vectors of the lists
/// that were read for it, each with its own distance and ID, where with a filter
/// only those count whose ID is in it. There are as many as such vectors, up to
/// `k`; none is answered more often than it is there; they come by ascending
/// distance; and at most `i` of those vectors are nearer than answer `i`. It does
/// not matter whether the lists are searched together or each on its own.
pub proof fn lemma_lists_answers(
    lists: Seq<ListView>,
    dists: Seq<Vec<u32>>,
    filter: Option<Set<i64>>,
    k: nat,
    apart: bool,
    pool: Seq<(u32, i64)>,
)
    requires
        ({
            let all = Seq::new(
                lists.len(),
                |j: int|
                    Seq::new(lists[j].count, |g: int| (dists[j]@[g], lists[j].ids[g])),
            ).flatten();
            pool == match filter {
                Some(f) => all.filter(|p: (u32, i64)| f.contains(p.1)),
                None => all,
            }
        }),
        forall|i: int| 0 <= i < pool.len() ==> !float::is_nan((#[trigger] pool[i]).0),
    ensures
        ({
            let row = file_search::lists_result(lists, dists, filter, k, apart);
            &&& row.len() == if pool.len() < k {
                pool.len()
            } else {
                k
            }
            &&& forall|i: int, j: int|
                #![trigger row[i], row[j]]
                0 <= i < j < row.len() ==> float::rank(row[i].0) <= float::rank(row[j].0)
            &&& forall|p: (u32, i64)| #[trigger]
                row.to_multiset().count(p) <= pool.to_multiset().count(p)
            &&& forall|i: int|
                #![trigger row[i]]
                0 <= i < row.len() ==> pool.filter(
                    |p: (u32, i64)| float::rank(p.0) < float::rank(row[i].0),
                ).len() <= i
        }),
{
    let allowed = match filter {
        Some(f) => f,
        None => Set::empty(),
    };
    lemma_lists_found(lists, dists, allowed, lists.len());
    assert(file_search::lists_found(lists, dists, filter, lists.len()) =~= pool);
    search_laws::lemma_nearest(k, pool);
    if apart {
        let row = file_search::lists_result(lists, dists, filter, k, true);
        let whole = file_search::lists_result(lists, dists, filter, k, false);
        assert forall|j: int| 0 <= j < lists.len() implies heap::all_numbers(
            #[trigger] file_search::list_candidates(lists, dists, filter, j),
        ) by {
            lemma_part_numbers(lists, dists, filter, lists.len(), j);
        }
        file_search::lemma_apart_same_distances(lists, dists, filter, k);
        assert(whole == heap::nearest(k, pool));
        let parts = file_search::lists_found_apart(lists, dists, filter, k, lists.len());
        assert forall|p: (u32, i64)| #[trigger] row.to_multiset().count(p)
            <= pool.to_multiset().count(p) by {
            lemma_apart_count(lists, dists, filter, k, lists.len(), p);
            heap::lemma_by_distance(heap::kept(k, parts));
            heap::lemma_kept_offered(k, parts, p);
        }
        assert forall|i: int, j: int|
            #![trigger row[i], row[j]]
            0 <= i < j < row.len() implies float::rank(row[i].0) <= float::rank(row[j].0) by {
            assert(float::rank(whole[i].0) <= float::rank(whole[j].0));
        }
        assert forall|i: int| #![trigger row[i]] 0 <= i < row.len() implies pool.filter(
            |p: (u32, i64)| float::rank(p.0) < float::rank(row[i].0),
        ).len() <= i by {
            assert((|p: (u32, i64)| float::rank(p.0) < float::rank(row[i].0)) =~= (|p: (u32, i64)|
                float::rank(p.0) < float::rank(whole[i].0)));
        }
    }
}

/// The group of a list names every query that probes it with the rank at which
/// it does, once for each, by query and rank.
pub proof fn lemma_groups(probes: Seq<Vec<usize>>, nq: nat, list: int)
    requires
        nq <= probes.len(),
        nq <= usize::MAX,
    ensures
        ({
            let group = batch::queries_of(probes, nq, list);
            &&& forall|qi: usize, r: usize| #[trigger]
                group.contains((qi, r)) <==> qi < nq && r < probes[qi as int]@.len()
                    && probes[qi as int]@[r as int] == list
            &&& forall|i: int, j: int|
                #![trigger group[i], group[j]]
                0 <= i < j < group.len() ==> group[i].0 < group[j].0 || (group[i].0 == group[j].0
                    && group[i].1 < group[j].1)
        }),
    decreases nq,
{
    let group = batch::queries_of(probes, nq, list);
    if nq > 0 {
        let m = (nq - 1) as nat;
        let before = batch::queries_of(probes, m, list);
        let probe = probes[nq - 1]@;
        assert(probe.len() == probes[nq - 1].len());
        let own = batch::ranks_of(probe, m as usize, list);
        lemma_groups(probes, m, list);
        lemma_ranks(probe, m as usize, list);
        assert forall|qi: usize, r: usize| #[trigger] group.contains((qi, r)) <==> qi < nq && r
            < probes[qi as int]@.len() && probes[qi as int]@[r as int] == list by {
            if group.contains((qi, r)) {
                let i = group.index_of((qi, r));
                if i < before.len() {
                    assert(before[i] == (qi, r));
                    assert(before.contains((qi, r)));
                } else {
                    assert(own[i - before.len()] == (qi, r));
                    assert(own.contains((qi, r)));
                }
            }
            if qi < nq && r < probes[qi as int]@.len() && probes[qi as int]@[r as int] == list {
                if qi < m {
                    assert(before.contains((qi, r)));
                    let i = before.index_of((qi, r));
                    assert(group[i] == (qi, r));
                } else {
                    assert(own.contains((qi, r)));
                    let i = own.index_of((qi, r));
                    assert(group[before.len() + i] == (qi, r));
                }
            }
        }
        assert forall|i: int, j: int|
            #![trigger group[i], group[j]]
            0 <= i < j < group.len() implies group[i].0 < group[j].0 || (group[i].0 == group[j].0
            && group[i].1 < group[j].1) by {
            if j < before.len() {
                assert(group[i] == before[i] && group[j] == before[j]);
            } else {
                assert(group[j] == own[j - before.len()]);
                assert(own.contains(own[j - before.len()]));
                assert(own.contains((group[j].0, group[j].1)));
                if i < before.len() {
                    assert(group[i] == before[i]);
                    assert(before.contains((before[i].0, before[i].1)));
                } else {
                    assert(group[i] == own[i - before.len()]);
                    assert(own.contains((group[i].0, group[i].1)));
                }
            }
        }
    }
}

proof fn lemma_ranks(probe: Seq<usize>, qi: usize, list: int)
    requires
        probe.len() <= usize::MAX,
    ensures
        ({
            let own = batch::ranks_of(probe, qi, list);
            &&& forall|x: usize, r: usize| #[trigger]
                own.contains((x, r)) <==> x == qi && r < probe.len() && probe[r as int] == list
            &&& forall|i: int, j: int|
                #![trigger own[i], own[j]]
                0 <= i < j < own.len() ==> own[i].1 < own[j].1
        }),
    decreases probe.len(),
{
    let own = batch::ranks_of(probe, qi, list);
    if probe.len() > 0 {
        let front = probe.drop_last();
        let before = batch::ranks_of(front, qi, list);
        lemma_ranks(front, qi, list);
        let last = (qi, (probe.len() - 1) as usize);
        assert forall|x: usize, r: usize| #[trigger] own.contains((x, r)) <==> x == qi && r
            < probe.len() && probe[r as int] == list by {
            if own.contains((x, r)) {
                let i = own.index_of((x, r));
                if i < before.len() {
                    assert(before[i] == (x, r));
                    assert(before.contains((x, r)));
                }
            }
            if x == qi && r < probe.len() && probe[r as int] == list {
                if r < front.len() {
                    assert(front[r as int] == list);
                    assert(before.contains((x, r)));
                    let i = before.index_of((x, r));
                    assert(own[i] == (x, r));
                } else {
                    assert(own[own.len() - 1] == last);
                }
            }
        }
        assert forall|i: int, j: int|
            #![trigger own[i], own[j]]
            0 <= i < j < own.len() implies own[i].1 < own[j].1 by {
            assert(own[i] == before[i]);
            if j < before.len() {
                assert(own[j] == before[j]);
            } else {
                assert(before.contains((before[i].0, before[i].1)));
            }
        }
    }
}

/// What a list contributes to a query, entry by entry of its group.
proof fn lemma_group_found(
    list: BatchView,
    group: Seq<(usize, usize)>,
    dists: Seq<Vec<u32>>,
    qi: int,
    n: nat,
)
    requires
        n <= group.len(),
    ensures
        batch::group_found(list, group, dists, qi, n) == Seq::new(
            n,
            |x: int|
                if group[x].0 == qi {
                    Seq::new(list.count, |g: int| (dists[x]@[g], list.ids[g]))
                } else {
                    Seq::empty()
                },
        ).flatten(),
    decreases n,
{
    let nested = Seq::new(
        n,
        |x: int|
            if group[x].0 == qi {
                Seq::new(list.count, |g: int| (dists[x]@[g], list.ids[g]))
            } else {
                Seq::empty()
            },
    );
    if n > 0 {
        let m = (n - 1) as nat;
        lemma_group_found(list, group, dists, qi, m);
        let front = Seq::new(
            m,
            |x: int|
                if group[x].0 == qi {
                    Seq::new(list.count, |g: int| (dists[x]@[g], list.ids[g]))
                } else {
                    Seq::empty()
                },
        );
        assert(nested =~= front.push(nested[n - 1]));
        front.lemma_flatten_push(nested[n - 1]);
        search_laws::lemma_candidates(list.ids, dists[n - 1]@, list.count, Set::empty());
    } else {
        assert(nested =~= Seq::empty());
    }
}

proof fn lemma_batch_found(
    lists: Seq<BatchView>,
    groups: Seq<Vec<(usize, usize)>>,
    dists: Seq<Vec<Vec<u32>>>,
    qi: int,
    n: nat,
)
    requires
        n <= lists.len(),
    ensures
        batch::batch_found(lists, groups, dists, qi, n) == Seq::new(
            n,
            |j: int|
                Seq::new(
                    groups[lists[j].list_id as int]@.len(),
                    |x: int|
                        if groups[lists[j].list_id as int]@[x].0 == qi {
                            Seq::new(
                                lists[j].count,
                                |g: int| (dists[j]@[x]@[g], lists[j].ids[g]),
                            )
                        } else {
                            Seq::empty()
                        },
                ).flatten(),
        ).flatten(),
    decreases n,
{
    let nested = Seq::new(
        n,
        |j: int|
            Seq::new(
                groups[lists[j].list_id as int]@.len(),
                |x: int|
                    if groups[lists[j].list_id as int]@[x].0 == qi {
                        Seq::new(lists[j].count, |g: int| (dists[j]@[x]@[g], lists[j].ids[g]))
                    } else {
                        Seq::empty()
                    },
            ).flatten(),
    );
    if n > 0 {
        let m = (n - 1) as nat;
        lemma_batch_found(lists, groups, dists, qi, m);
        let front = Seq::new(
            m,
            |j: int|
                Seq::new(
                    groups[lists[j].list_id as int]@.len(),
                    |x: int|
                        if groups[lists[j].list_id as int]@[x].0 == qi {
                            Seq::new(
                                lists[j].count,
                                |g: int| (dists[j]@[x]@[g], lists[j].ids[g]),
                            )
                        } else {
                            Seq::empty()
                        },
                ).flatten(),
        );
        assert(nested =~= front.push(nested[n - 1]));
        front.lemma_flatten_push(nested[n - 1]);
        let group = groups[lists[n - 1].list_id as int]@;
        lemma_group_found(lists[n - 1], group, dists[n - 1]@, qi, group.len());
    } else {
        assert(nested =~= Seq::empty());
    }
}

/// The answers to query `qi` of a batch: the `k` nearest of the vectors of the
/// lists whose groups name the query, each with its own distance and ID. There
/// are as many as such vectors, up to `k`; none is answered more often than it is
/// there; they come by ascending distance; and at most `i` of those vectors are
/// nearer than answer `i`.
pub proof fn lemma_batch_answers(
    lists: Seq<BatchView>,
    groups: Seq<Vec<(usize, usize)>>,
    dists: Seq<Vec<Vec<u32>>>,
    nq: nat,
    k: nat,
    qi: int,
    pool: Seq<(u32, i64)>,
)
    requires
        0 <= qi < nq,
        pool == Seq::new(
            lists.len(),
            |j: int|
                Seq::new(
                    groups[lists[j].list_id as int]@.len(),
                    |x: int|
                        if groups[lists[j].list_id as int]@[x].0 == qi {
                            Seq::new(
                                lists[j].count,
                                |g: int| (dists[j]@[x]@[g], lists[j].ids[g]),
                            )
                        } else {
                            Seq::empty()
                        },
                ).flatten(),
        ).flatten(),
        forall|i: int| 0 <= i < pool.len() ==> !float::is_nan((#[trigger] pool[i]).0),
    ensures
        batch::batch_results(lists, groups, dists, nq, k).len() == nq,
        ({
            let row = batch::batch_results(lists, groups, dists, nq, k)[qi];
            &&& row.len() == if pool.len() < k {
                pool.len()
            } else {
                k
            }
            &&& forall|i: int, j: int|
                #![trigger row[i], row[j]]
                0 <= i < j < row.len() ==> float::rank(row[i].0) <= float::rank(row[j].0)
            &&& forall|p: (u32, i64)| #[trigger]
                row.to_multiset().count(p) <= pool.to_multiset().count(p)
            &&& forall|i: int|
                #![trigger row[i]]
                0 <= i < row.len() ==> pool.filter(
                    |p: (u32, i64)| float::rank(p.0) < float::rank(row[i].0),
                ).len() <= i
        }),
{
    lemma_batch_found(lists, groups, dists, qi, lists.len());
    search_laws::lemma_nearest(k, pool);
}

/// The lists that are read for a batch: every list that some query probes and
/// that is not empty, once, by ascending number, with what the file stores for
/// it.
pub proof fn lemma_batch_lists(c: Seq<u8>, h: Header, groups: Seq<Vec<(usize, usize)>>, n: nat)
    requires
        n <= usize::MAX,
    ensures
        batch::batch_lists(c, h, groups, n) matches Ok(lists) ==> {
            &&& forall|j: int| #![trigger lists[j]] 0 <= j < lists.len() ==> {
                let l: int = lists[j].list_id as int;
                &&& l < n
                &&& groups[l]@.len() > 0
                &&& lists[j].count == reader::entry_count(c, reader::table_at(h), l) as nat
                &&& lists[j].count > 0
                &&& reader::stored_list(c, h, l) == Ok::<(Seq<i64>, Seq<u8>), Error>(
                    (lists[j].ids, lists[j].codes),
                )
            }
            &&& forall|i: int, j: int|
                #![trigger lists[i], lists[j]]
                0 <= i < j < lists.len() ==> lists[i].list_id < lists[j].list_id
            &&& forall|l: int|
                #![trigger groups[l]]
                0 <= l < n && groups[l]@.len() > 0 && reader::entry_count(
                    c,
                    reader::table_at(h),
                    l,
                ) as nat > 0 ==> exists|j: int|
                    0 <= j < lists.len() && (#[trigger] lists[j]).list_id == l
        },
        batch::batch_lists(c, h, groups, n) matches Err(e) ==> exists|l: int|
            #![trigger groups[l]]
            {
                &&& 0 <= l < n
                &&& groups[l]@.len() > 0
                &&& reader::entry_count(c, reader::table_at(h), l) as nat > 0
                &&& reader::stored_list(c, h, l) == Err::<(Seq<i64>, Seq<u8>), Error>(e)
                &&& batch::batch_lists(c, h, groups, l as nat) is Ok
            },
    decreases n,
{
    if n > 0 {
        let m = (n - 1) as nat;
        lemma_batch_lists(c, h, groups, m);
        match batch::batch_lists(c, h, groups, n) {
            Ok(lists) => {
                let before = batch::batch_lists(c, h, groups, m)->Ok_0;
                assert forall|j: int| #![trigger lists[j]] 0 <= j < lists.len() implies {
                    let l: int = lists[j].list_id as int;
                    &&& l < n
                    &&& groups[l]@.len() > 0
                    &&& lists[j].count == reader::entry_count(c, reader::table_at(h), l) as nat
                    &&& lists[j].count > 0
                    &&& reader::stored_list(c, h, l) == Ok::<(Seq<i64>, Seq<u8>), Error>(
                        (lists[j].ids, lists[j].codes),
                    )
                } by {
                    if j < before.len() {
                        assert(lists[j] == before[j]);
                    }
                }
                assert forall|i: int, j: int|
                    #![trigger lists[i], lists[j]]
                    0 <= i < j < lists.len() implies lists[i].list_id < lists[j].list_id by {
                    assert(lists[i] == before[i]);
                    if j < before.len() {
                        assert(lists[j] == before[j]);
                    }
                }
                assert forall|l: int|
                    #![trigger groups[l]]
                    0 <= l < n && groups[l]@.len() > 0 && reader::entry_count(
                        c,
                        reader::table_at(h),
                        l,
                    ) as nat > 0 implies exists|j: int|
                    0 <= j < lists.len() && (#[trigger] lists[j]).list_id == l by {
                    if l < m {
                        let j = choose|j: int|
                            0 <= j < before.len() && (#[trigger] before[j]).list_id == l;
                        assert(lists[j] == before[j]);
                    } else {
                        assert(lists[lists.len() - 1].list_id == l);
                    }
                }
            },
            Err(e) => {
                assert(groups[n - 1]@.len() == groups[m as int]@.len());
            },
        }
    }
}

/// The groups of a batch: one for every list.
pub proof fn lemma_grouped(
    groups: Seq<Vec<(usize, usize)>>,
    probes: Seq<Vec<usize>>,
    nq: nat,
    nlist: nat,
    l: int,
    qi: usize,
    r: usize,
)
    requires
        batch::grouped(groups, probes, nq, nlist),
        nq <= probes.len(),
        nq <= usize::MAX,
    ensures
        groups.len() == nlist,
        0 <= l < nlist ==> (groups[l]@.contains((qi, r)) <==> qi < nq && r
            < probes[qi as int]@.len() && probes[qi as int]@[r as int] == l),
        0 <= l < nlist ==> groups[l]@.no_duplicates(),
{
    if 0 <= l < nlist {
        lemma_groups(probes, nq, l);
        let group = batch::queries_of(probes, nq, l);
        assert(groups[l]@ == group);
        assert forall|i: int, j: int| 0 <= i < group.len() && 0 <= j < group.len() && i
            != j implies group[i] != group[j] by {
            if i < j {
                assert(group[i] != group[j]);
            } else {
                assert(group[j] != group[i]);
            }
        }
    }
}

/// Probes are valid if there are enough of them and every list exists.
pub proof fn lemma_probes_valid(probes: Seq<Vec<usize>>, nq: nat, nlist: nat)
    ensures
        batch::probes_valid(probes, nq, nlist) <==> nq <= probes.len() && forall|qi: int, r: int|
            0 <= qi < nq && 0 <= r < probes[qi]@.len() ==> #[trigger] probes[qi]@[r] < nlist,
{
}

/// The lists of a query can be put in order if every distance is a number.
pub proof fn lemma_comparable(
    lists: Seq<ListView>,
    dists: Seq<Vec<u32>>,
    filter: Option<Set<i64>>,
    k: nat,
    apart: bool,
    pool: Seq<(u32, i64)>,
)
    requires
        ({
            let all = Seq::new(
                lists.len(),
                |j: int|
                    Seq::new(lists[j].count, |g: int| (dists[j]@[g], lists[j].ids[g])),
            ).flatten();
            pool == match filter {
                Some(f) => all.filter(|p: (u32, i64)| f.contains(p.1)),
                None => all,
            }
        }),
        forall|i: int| 0 <= i < pool.len() ==> !float::is_nan((#[trigger] pool[i]).0),
    ensures
        file_search::lists_comparable(lists, dists, filter, k, apart),
{
    let allowed = match filter {
        Some(f) => f,
        None => Set::empty(),
    };
    let n = lists.len();
    lemma_lists_found(lists, dists, allowed, n);
    assert(file_search::lists_found(lists, dists, filter, n) =~= pool);
    heap::lemma_kept(k, pool);
    assert forall|j: int| #![trigger lists[j]] 0 <= j < n implies heap::sortable(
        heap::kept(k, file_search::list_candidates(lists, dists, filter, j)),
    ) by {
        lemma_part_numbers(lists, dists, filter, n, j);
        heap::lemma_kept(k, file_search::list_candidates(lists, dists, filter, j));
    }
    let parts = file_search::lists_found_apart(lists, dists, filter, k, n);
    pool.to_multiset_ensures();
    parts.to_multiset_ensures();
    assert forall|i: int| 0 <= i < parts.len() implies !float::is_nan((#[trigger] parts[i]).0) by {
        lemma_apart_count(lists, dists, filter, k, n, parts[i]);
        assert(parts.contains(parts[i]));
        assert(parts.to_multiset().count(parts[i]) > 0);
        assert(pool.to_multiset().count(parts[i]) > 0);
        assert(pool.contains(parts[i]));
        let x = pool.index_of(parts[i]);
        assert(!float::is_nan(pool[x].0));
    }
    heap::lemma_kept(k, parts);
}

/// The distances fit the lists if there is one for every vector.
pub proof fn lemma_scored(lists: Seq<ListView>, dists: Seq<Vec<u32>>)
    ensures
        file_search::lists_scored(lists, dists) <==> dists.len() == lists.len() && forall|j: int|
            0 <= j < lists.len() ==> (#[trigger] lists[j]).count <= lists[j].ids.len()
                && lists[j].count <= dists[j]@.len(),
{
}

/// A batch can be answered if there is a distance for every vector of a list and
/// every query of its group, and every distance is a number.
pub proof fn lemma_batch_answerable(
    lists: Seq<BatchView>,
    groups: Seq<Vec<(usize, usize)>>,
    dists: Seq<Vec<Vec<u32>>>,
    nq: nat,
    k: nat,
)
    requires
        dists.len() == lists.len(),
        forall|j: int|
            #![trigger lists[j]]
            0 <= j < lists.len() ==> lists[j].list_id < groups.len() && lists[j].count
                <= lists[j].ids.len() && dists[j]@.len() == groups[lists[j].list_id as int]@.len(),
        forall|j: int, x: int|
            #![trigger dists[j]@[x]]
            0 <= j < lists.len() && 0 <= x < dists[j]@.len() ==> lists[j].count
                <= dists[j]@[x]@.len() && groups[lists[j].list_id as int]@[x].0 < nq,
        forall|j: int, x: int, g: int|
            #![trigger dists[j]@[x]@[g]]
            0 <= j < lists.len() && 0 <= x < dists[j]@.len() && 0 <= g < dists[j]@[x]@.len()
                ==> !float::is_nan(dists[j]@[x]@[g]),
    ensures
        batch::batch_answerable(lists, groups, dists, nq, k),
{
    assert forall|j: int| #![trigger lists[j]] 0 <= j < lists.len() implies batch::list_fits(
        lists[j],
        groups,
        dists[j]@,
        nq,
    ) by {
        let list = lists[j];
        assert forall|t: int| 0 <= t < dists[j]@.len() implies list.count <= (
        #[trigger] dists[j]@[t])@.len() by {}
        assert forall|t: int| 0 <= t < dists[j]@.len() implies (
        #[trigger] groups[list.list_id as int]@[t]).0 < nq by {
            assert(list.count <= dists[j]@[t]@.len());
        }
    }
    assert forall|qi: int| 0 <= qi < nq implies heap::sortable(
        heap::kept(k, #[trigger] batch::batch_found(lists, groups, dists, qi, lists.len())),
    ) by {
        lemma_batch_numbers(lists, groups, dists, qi, lists.len());
        heap::lemma_kept(k, batch::batch_found(lists, groups, dists, qi, lists.len()));
    }
}

proof fn lemma_batch_numbers(
    lists: Seq<BatchView>,
    groups: Seq<Vec<(usize, usize)>>,
    dists: Seq<Vec<Vec<u32>>>,
    qi: int,
    n: nat,
)
    requires
        n <= lists.len(),
        dists.len() == lists.len(),
        forall|j: int|
            #![trigger lists[j]]
            0 <= j < lists.len() ==> dists[j]@.len() == groups[lists[j].list_id as int]@.len(),
        forall|j: int, x: int|
            #![trigger dists[j]@[x]]
            0 <= j < lists.len() && 0 <= x < dists[j]@.len() ==> lists[j].count
                <= dists[j]@[x]@.len(),
        forall|j: int, x: int, g: int|
            #![trigger dists[j]@[x]@[g]]
            0 <= j < lists.len() && 0 <= x < dists[j]@.len() && 0 <= g < dists[j]@[x]@.len()
                ==> !float::is_nan(dists[j]@[x]@[g]),
    ensures
        heap::all_numbers(batch::batch_found(lists, groups, dists, qi, n)),
    decreases n,
{
    if n > 0 {
        let list = lists[n - 1];
        let group = groups[list.list_id as int]@;
        lemma_batch_numbers(lists, groups, dists, qi, (n - 1) as nat);
        lemma_group_numbers(list, group, dists[n - 1]@, qi, group.len());
    }
}

proof fn lemma_group_numbers(
    list: BatchView,
    group: Seq<(usize, usize)>,
    dists: Seq<Vec<u32>>,
    qi: int,
    n: nat,
)
    requires
        n <= group.len(),
        dists.len() == group.len(),
        forall|x: int| #![trigger dists[x]] 0 <= x < dists.len() ==> list.count <= dists[x]@.len(),
        forall|x: int, g: int|
            #![trigger dists[x]@[g]]
            0 <= x < dists.len() && 0 <= g < dists[x]@.len() ==> !float::is_nan(dists[x]@[g]),
    ensures
        heap::all_numbers(batch::group_found(list, group, dists, qi, n)),
    decreases n,
{
    if n > 0 {
        lemma_group_numbers(list, group, dists, qi, (n - 1) as nat);
        let own = search::candidates(list.ids, dists[n - 1]@, list.count, None);
        search_laws::lemma_candidates(list.ids, dists[n - 1]@, list.count, Set::empty());
        assert forall|i: int| 0 <= i < own.len() implies !float::is_nan((#[trigger] own[i]).0) by {
            assert(list.count <= dists[n - 1]@.len());
            assert(own[i].0 == dists[n - 1]@[i]);
        }
    }
}

/// The reads for the lists of a query, and for those of a batch, are the reads of
/// each list, one list after the other.
pub proof fn lemma_lists_reads(
    c: Seq<u8>,
    h: Header,
    lists: Seq<ListView>,
    shared: Seq<BatchView>,
)
    ensures
        file_search::lists_reads(c, h, lists) == lists.map_values(
            |l: ListView| reader::list_reads(c, h, l.list_id as int),
        ).flatten(),
        batch::lists_reads(c, h, shared) == shared.map_values(
            |l: BatchView| reader::list_reads(c, h, l.list_id as int),
        ).flatten(),
    decreases lists.len() + shared.len(),
{
    let own = |l: ListView| reader::list_reads(c, h, l.list_id as int);
    let both = |l: BatchView| reader::list_reads(c, h, l.list_id as int);
    if lists.len() > 0 {
        let front = lists.drop_last();
        lemma_lists_reads(c, h, front, Seq::empty());
        assert(lists.map_values(own) =~= front.map_values(own).push(own(lists.last())));
        front.map_values(own).lemma_flatten_push(own(lists.last()));
    } else {
        assert(lists.map_values(own) =~= Seq::empty());
    }
    if shared.len() > 0 {
        let front = shared.drop_last();
        if lists.len() > 0 {
            lemma_lists_reads(c, h, Seq::empty(), shared);
        } else {
            lemma_lists_reads(c, h, Seq::empty(), front);
            assert(shared.map_values(both) =~= front.map_values(both).push(both(shared.last())));
            front.map_values(both).lemma_flatten_push(both(shared.last()));
        }
    } else {
        assert(shared.map_values(both) =~= Seq::empty());
    }
}

/// Searched each on its own, the lists contribute the nearest vectors of each, list
/// after list; the answers are the nearest of these.
pub proof fn lemma_apart(
    lists: Seq<ListView>,
    dists: Seq<Vec<u32>>,
    filter: Option<Set<i64>>,
    k: nat,
    n: nat,
)
    ensures
        file_search::lists_found_apart(lists, dists, filter, k, n) == Seq::new(
            n,
            |j: int| heap::nearest(k, search::candidates(
                lists[j].ids,
                dists[j]@,
                lists[j].count,
                filter,
            )),
        ).flatten(),
        file_search::lists_result(lists, dists, filter, k, true) == heap::nearest(
            k,
            file_search::lists_found_apart(lists, dists, filter, k, lists.len()),
        ),
        file_search::lists_result(lists, dists, filter, k, false) == heap::nearest(
            k,
            file_search::lists_found(lists, dists, filter, lists.len()),
        ),
    decreases n,
{
    let nested = Seq::new(
        n,
        |j: int| heap::nearest(k, search::candidates(
            lists[j].ids,
            dists[j]@,
            lists[j].count,
            filter,
        )),
    );
    if n > 0 {
        let m = (n - 1) as nat;
        lemma_apart(lists, dists, filter, k, m);
        let front = Seq::new(
            m,
            |j: int| heap::nearest(k, search::candidates(
                lists[j].ids,
                dists[j]@,
                lists[j].count,
                filter,
            )),
        );
        assert(nested =~= front.push(nested[n - 1]));
        front.lemma_flatten_push(nested[n - 1]);
    } else {
        assert(nested =~= Seq::empty());
    }
}

} // verus!
