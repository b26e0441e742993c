//! What reading and searching an index file returns, in terms of the arguments
//! and the bytes of the file.

use crate::batch;
use crate::batch::BatchList;
use crate::batch_laws;
use crate::byte_laws;
use crate::error::{Error, IoFailure};
use crate::file_search;
use crate::file_search::PreReadList;
use crate::float;
use crate::layout::CodeLayout;
use crate::list_laws;
use crate::metric::MetricType;
use crate::query_laws;
use crate::read_laws;
use crate::reader;
use crate::reader::IVFPQIndexReader;
use crate::search;
use crate::search_laws;
use crate::stream::SeekRead;
use crate::varint;
use std::collections::HashSet;
use vstd::prelude::*;

verus! {

/// A file that is opened says what its first 64 bytes say, and a file with a
/// sound header can be opened.
pub proof fn lemma_open<R: SeekRead>(reader: R, result: Result<IVFPQIndexReader<R>, Error>)
    requires
        call_ensures(IVFPQIndexReader::<R>::open, (reader,), result),
    ensures
        ({
            let c = reader.contents();
            &&& reader.reliable() ==> (result is Ok <==> reader::parse_header(c) is Ok)
            &&& reader.reliable() ==> (reader::parse_header(c) matches Err(e) ==> (
            result matches Err(x) && x == e))
            &&& result matches Ok(index) ==> {
                &&& c.len() >= 64
                &&& byte_laws::four(c, 0) == 0x4956_5051
                &&& byte_laws::four(c, 4) == 1
                &&& index.d == byte_laws::four(c, 8)
                &&& index.nlist == byte_laws::four(c, 12)
                &&& index.m == byte_laws::four(c, 16)
                &&& index.ksub == byte_laws::four(c, 20)
                &&& index.dsub == byte_laws::four(c, 24)
                &&& index.ksub == 16 || index.ksub == 256
                &&& byte_laws::four(c, 28) == 0 ==> index.metric == MetricType::L2
                &&& byte_laws::four(c, 28) == 1 ==> index.metric == MetricType::InnerProduct
                &&& byte_laws::four(c, 28) == 2 ==> index.metric == MetricType::Cosine
                &&& index.total_vectors == byte_laws::signed_eight(c, 32)
                &&& index.contents() == c
                &&& !index.loaded
            }
        }),
{
    let c = reader.contents();
    read_laws::lemma_header_accepted(c);
    read_laws::lemma_header_fields(c);
}

/// The codes of the lists are transposed if the file says so, and a table of
/// precomputed distances is used with the Euclidean distance of residuals.
pub proof fn lemma_reader_says<R: SeekRead>(
    file: &IVFPQIndexReader<R>,
    layout: CodeLayout,
    yes: bool,
)
    requires
        call_ensures(IVFPQIndexReader::<R>::code_layout, (file,), layout),
        call_ensures(IVFPQIndexReader::<R>::uses_precomputed, (file,), yes),
    ensures
        layout is Transposed <==> file.transposed_codes,
        layout is RowMajor <==> !file.transposed_codes,
        yes <==> file.metric is L2 && file.by_residual && file.precomputed_table@.len() > 0,
{
}

/// Where a list is read from.
proof fn lemma_list_place<R: SeekRead>(
    before: &IVFPQIndexReader<R>,
    l: usize,
    pos: nat,
    count: nat,
    cs: nat,
)
    requires
        before.wf(),
        before.loaded,
        l < before.nlist,
        before.list_offsets@[l as int] == pos,
        before.list_counts@[l as int] == count,
        cs == before.m || before.ksub == 16,
        cs == before.m as nat / 2 || before.ksub == 256,
    ensures
        reader::stored_list(before.contents(), before.header(), l as int) == reader::list_at(
            before.contents(),
            before.delta_ids,
            pos,
            count,
            cs,
        ),
{
    let c = before.contents();
    let h = before.header();
    let at = reader::table_at(h);
    reader::lemma_header_bounds(c);
    assert(reader::parse_header(c) == Ok::<reader::Header, Error>(h));
    assert(h.ksub == 16 || h.ksub == 256);
    assert(before.list_offsets@[l as int] == reader::entry_start(c, at, l as int));
    assert(before.list_counts@[l as int] == reader::entry_count(c, at, l as int));
}

/// A list is read from where the table says, with as many vectors as it says. If
/// IDs are stored as they are, it is eight bytes for every ID and behind them
/// the codes.
pub proof fn lemma_read_raw_list<R: SeekRead>(
    before: IVFPQIndexReader<R>,
    l: usize,
    result: Result<(Vec<i64>, Vec<u8>), Error>,
    pos: nat,
    count: nat,
    cs: nat,
)
    requires
        exists|r: &mut IVFPQIndexReader<R>|
            #[trigger] call_ensures(IVFPQIndexReader::<R>::read_loaded_list, (r, l), result) && *r
                == before,
        before.wf(),
        before.loaded,
        l < before.nlist,
        before.list_offsets@[l as int] == pos,
        before.list_counts@[l as int] == count,
        cs == before.m || before.ksub == 16,
        cs == before.m as nat / 2 || before.ksub == 256,
        before.reader.reliable(),
        !before.delta_ids,
        count > 0,
        cs > 0,
    ensures
        ({
            let c = before.contents();
            &&& pos + 8 * count + count * cs <= c.len() ==> (result matches Ok((ids, codes)) && {
                &&& ids@.len() == count
                &&& forall|i: int|
                    0 <= i < count ==> #[trigger] ids@[i] == byte_laws::signed_eight(c, pos + 8 * i)
                &&& codes@ == c.subrange(
                    (pos + 8 * count) as int,
                    (pos + 8 * count + count * cs) as int,
                )
            })
            &&& pos + 8 * count + count * cs > c.len() ==> result == Err::<
                (Vec<i64>, Vec<u8>),
                Error,
            >(Error::Io(IoFailure::UnexpectedEof))
        }),
{
    lemma_list_place(&before, l, pos, count, cs);
    read_laws::lemma_raw_list(before.contents(), pos, count, cs);
}

/// If IDs are stored as differences, a list is the first ID, the number of bytes
/// of the differences, the differences, and behind them the codes.
pub proof fn lemma_read_delta_list<R: SeekRead>(
    before: IVFPQIndexReader<R>,
    l: usize,
    result: Result<(Vec<i64>, Vec<u8>), Error>,
    pos: nat,
    count: nat,
    cs: nat,
    len: int,
)
    requires
        exists|r: &mut IVFPQIndexReader<R>|
            #[trigger] call_ensures(IVFPQIndexReader::<R>::read_loaded_list, (r, l), result) && *r
                == before,
        before.wf(),
        before.loaded,
        l < before.nlist,
        before.list_offsets@[l as int] == pos,
        before.list_counts@[l as int] == count,
        cs == before.m || before.ksub == 16,
        cs == before.m as nat / 2 || before.ksub == 256,
        before.reader.reliable(),
        before.delta_ids,
        count > 0,
        cs > 0,
        pos + 12 <= before.contents().len(),
        len == byte_laws::signed_four(before.contents(), pos as int + 8),
    ensures
        ({
            let c = before.contents();
            let end = pos + 12 + len;
            &&& len < 0 ==> result == Err::<(Vec<i64>, Vec<u8>), Error>(Error::NegativeIdBytesLen)
            &&& 0 <= len && end + count * cs <= c.len() ==> match varint::delta_ids(
                byte_laws::signed_eight(c, pos as int),
                c.subrange(pos as int + 12, end),
                count,
            ) {
                Ok(want) => result matches Ok((ids, codes)) && ids@ == want && codes@
                    == c.subrange(end, end + count * cs),
                Err(e) => result == Err::<(Vec<i64>, Vec<u8>), Error>(e),
            }
        }),
{
    assert(0 <= count * cs) by (nonlinear_arith);
    lemma_list_place(&before, l, pos, count, cs);
    read_laws::lemma_delta_list(before.contents(), pos, count, cs);
}

/// The groups of a batch name every query that probes a list with the rank at
/// which it does, each once.
pub proof fn lemma_group_probes(
    probes: &[Vec<usize>],
    nq: usize,
    nlist: usize,
    groups: Vec<Vec<(usize, usize)>>,
    l: int,
    qi: usize,
    r: usize,
)
    requires
        call_ensures(batch::group_probes, (probes, nq, nlist), groups),
        nq <= probes@.len(),
    ensures
        groups@.len() == nlist,
        0 <= l < nlist ==> (groups@[l]@.contains((qi, r)) <==> qi < nq && r
            < probes@[qi as int]@.len() && probes@[qi as int]@[r as int] == l),
        0 <= l < nlist ==> groups@[l]@.no_duplicates(),
{
    list_laws::lemma_grouped(groups@, probes@, nq as nat, nlist as nat, l, qi, r);
}

/// The answers to query `qi` of a batch: the `k` nearest of the vectors of the
/// lists whose groups name the query, each with its own distance and ID. No pair
/// of a distance and an ID is answered more often than it occurs there; the
/// answers come by ascending distance; and where there are fewer than `k`, the
/// greatest finite number and the ID -1 follow.
pub proof fn lemma_search_batch_reader(
    lists: &Vec<BatchList>,
    groups: &Vec<Vec<(usize, usize)>>,
    dists: &[Vec<Vec<u32>>],
    nq: usize,
    k: usize,
    result: (Vec<i64>, Vec<u32>),
    qi: int,
    pool: Seq<(u32, i64)>,
    row: Seq<(u32, i64)>,
)
    requires
        call_ensures(batch::search_batch_reader, (lists, groups, dists, nq, k), result),
        0 <= qi < nq,
        pool == Seq::new(
            lists@.len(),
            |j: int|
                Seq::new(
                    groups@[lists@[j].list_id as int]@.len(),
                    |x: int|
                        if groups@[lists@[j].list_id as int]@[x].0 == qi {
                            Seq::new(
                                lists@[j].count as nat,
                                |g: int| (dists@[j]@[x]@[g], lists@[j].ids@[g]),
                            )
                        } else {
                            Seq::empty()
                        },
                ).flatten(),
        ).flatten(),
        forall|i: int| 0 <= i < pool.len() ==> !float::is_nan((#[trigger] pool[i]).0),
        row == Seq::new(
            if pool.len() < k {
                pool.len()
            } else {
                k as nat
            },
            |i: int| (result.1@[qi * k + i], result.0@[qi * k + i]),
        ),
    ensures
        result.0@.len() == nq * k,
        result.1@.len() == nq * k,
        forall|i: int, j: int|
            #![trigger row[i], row[j]]
            0 <= i < j < row.len() ==> float::rank(row[i].0) <= float::rank(row[j].0),
        forall|p: (u32, i64)| #[trigger]
            row.to_multiset().count(p) <= pool.to_multiset().count(p),
        forall|i: int|
            #![trigger row[i]]
            0 <= i < row.len() ==> pool.filter(
                |p: (u32, i64)| float::rank(p.0) < float::rank(row[i].0),
            ).len() <= i,
        forall|i: int|
            #![trigger result.0@[qi * k + i]]
            #![trigger result.1@[qi * k + i]]
            row.len() <= i < k ==> result.0@[qi * k + i] == -1 && result.1@[qi * k + i]
                == 0x7f7f_ffff,
{
    let vs = batch::views(lists@);
    let results = batch::batch_results(vs, groups@, dists@, nq as nat, k as nat);
    let nested = Seq::new(
        vs.len(),
        |j: int|
            Seq::new(
                groups@[vs[j].list_id as int]@.len(),
                |x: int|
                    if groups@[vs[j].list_id as int]@[x].0 == qi {
                        Seq::new(vs[j].count, |g: int| (dists@[j]@[x]@[g], vs[j].ids[g]))
                    } else {
                        Seq::empty()
                    },
            ).flatten(),
    );
    let own = Seq::new(
        lists@.len(),
        |j: int|
            Seq::new(
                groups@[lists@[j].list_id as int]@.len(),
                |x: int|
                    if groups@[lists@[j].list_id as int]@[x].0 == qi {
                        Seq::new(
                            lists@[j].count as nat,
                            |g: int| (dists@[j]@[x]@[g], lists@[j].ids@[g]),
                        )
                    } else {
                        Seq::empty()
                    },
            ).flatten(),
    );
    assert forall|j: int| 0 <= j < vs.len() implies nested[j] == own[j] by {
        let a = Seq::new(
            groups@[vs[j].list_id as int]@.len(),
            |x: int|
                if groups@[vs[j].list_id as int]@[x].0 == qi {
                    Seq::new(vs[j].count, |g: int| (dists@[j]@[x]@[g], vs[j].ids[g]))
                } else {
                    Seq::empty()
                },
        );
        let b = Seq::new(
            groups@[lists@[j].list_id as int]@.len(),
            |x: int|
                if groups@[lists@[j].list_id as int]@[x].0 == qi {
                    Seq::new(
                        lists@[j].count as nat,
                        |g: int| (dists@[j]@[x]@[g], lists@[j].ids@[g]),
                    )
                } else {
                    Seq::empty()
                },
        );
        assert(vs[j] == lists@[j].list_view());
        assert forall|x: int| 0 <= x < a.len() implies a[x] == b[x] by {
            assert(a[x] =~= b[x]);
        }
        assert(a =~= b);
    }
    assert(nested =~= own);
    list_laws::lemma_batch_answers(vs, groups@, dists@, nq as nat, k as nat, qi, pool);
    search_laws::lemma_flat_rows(results, k as nat, qi, 0);
    assert forall|i: int| 0 <= i < row.len() implies row[i] == results[qi][i] by {
        search_laws::lemma_flat_rows(results, k as nat, qi, i);
    }
    assert(row =~= results[qi]);
    assert forall|i: int|
        #![trigger result.0@[qi * k + i]]
        #![trigger result.1@[qi * k + i]]
        row.len() <= i < k implies result.0@[qi * k + i] == -1 && result.1@[qi * k + i]
        == 0x7f7f_ffff by {
        search_laws::lemma_flat_rows(results, k as nat, qi, i);
    }
}

/// The lists as they look from outside give the same pairs.
proof fn lemma_pool(
    lists: Seq<PreReadList>,
    dists: Seq<Vec<u32>>,
)
    ensures
        ({
            let vs = file_search::views(lists);
            Seq::new(
                vs.len(),
                |j: int| Seq::new(vs[j].count, |g: int| (dists[j]@[g], vs[j].ids[g])),
            ) == Seq::new(
                lists.len(),
                |j: int|
                    Seq::new(lists[j].count as nat, |g: int| (dists[j]@[g], lists[j].ids@[g])),
            )
        }),
{
    let vs = file_search::views(lists);
    let a = Seq::new(
        vs.len(),
        |j: int| Seq::new(vs[j].count, |g: int| (dists[j]@[g], vs[j].ids[g])),
    );
    let b = Seq::new(
        lists.len(),
        |j: int| Seq::new(lists[j].count as nat, |g: int| (dists[j]@[g], lists[j].ids@[g])),
    );
    assert forall|j: int| 0 <= j < a.len() implies a[j] == b[j] by {
        assert(vs[j] == lists[j].list_view());
        assert(a[j] =~= b[j]);
    }
    assert(a =~= b);
}

/// The answers to a query: the `k` nearest of the vectors of the lists that were
/// read for it, each with its own distance and ID, where with a filter only those
/// count whose ID is in it. They come by ascending distance, and it does not
/// matter whether the lists are searched together or each on its own.
pub proof fn lemma_rank_lists(
    lists: &Vec<PreReadList>,
    dists: &[Vec<u32>],
    filter: Option<&HashSet<i64>>,
    k: usize,
    apart: bool,
    result: (Vec<i64>, Vec<u32>),
    pool: Seq<(u32, i64)>,
    row: Seq<(u32, i64)>,
)
    requires
        call_ensures(
            file_search::rank_lists,
            (lists, dists, filter, k, apart),
            result,
        ),
        ({
            let all = Seq::new(
                lists@.len(),
                |j: int|
                    Seq::new(
                        lists@[j].count as nat,
                        |g: int| (dists@[j]@[g], lists@[j].ids@[g]),
                    ),
            ).flatten();
            pool == match filter {
                Some(f) => all.filter(|p: (u32, i64)| f@.contains(p.1)),
                None => all,
            }
        }),
        forall|i: int| 0 <= i < pool.len() ==> !float::is_nan((#[trigger] pool[i]).0),
        row == Seq::new(
            result.0@.len(),
            |i: int| (result.1@[i], result.0@[i]),
        ),
    ensures
        result.0@.len() == if pool.len() < k {
            pool.len()
        } else {
            k as nat
        },
        result.1@.len() == result.0@.len(),
        forall|i: int, j: int|
            #![trigger row[i], row[j]]
            0 <= i < j < row.len() ==> float::rank(row[i].0) <= float::rank(row[j].0),
        forall|p: (u32, i64)| #[trigger]
            row.to_multiset().count(p) <= pool.to_multiset().count(p),
        forall|i: int|
            #![trigger row[i]]
            0 <= i < row.len() ==> pool.filter(
                |p: (u32, i64)| float::rank(p.0) < float::rank(row[i].0),
            ).len() <= i,
{
    let vs = file_search::views(lists@);
    let f = search::filter_view(filter);
    lemma_pool(lists@, dists@);
    list_laws::lemma_lists_answers(vs, dists@, f, k as nat, apart, pool);
    let want = file_search::lists_result(vs, dists@, f, k as nat, apart);
    search_laws::lemma_parts(result, want);
    assert(file_search::result_is(result, want));
    assert(row =~= want);
}

/// The same of the search that asks the stream how the lists may be read.
pub proof fn lemma_search_with_reader_filter<R: SeekRead>(
    file: &IVFPQIndexReader<R>,
    lists: &Vec<PreReadList>,
    dists: &[Vec<u32>],
    k: usize,
    filter: Option<&HashSet<i64>>,
    result: (Vec<i64>, Vec<u32>),
    pool: Seq<(u32, i64)>,
    row: Seq<(u32, i64)>,
)
    requires
        call_ensures(
            file_search::search_with_reader_filter::<R>,
            (file, lists, dists, k, filter),
            result,
        ),
        ({
            let all = Seq::new(
                lists@.len(),
                |j: int|
                    Seq::new(
                        lists@[j].count as nat,
                        |g: int| (dists@[j]@[g], lists@[j].ids@[g]),
                    ),
            ).flatten();
            pool == match filter {
                Some(f) => all.filter(|p: (u32, i64)| f@.contains(p.1)),
                None => all,
            }
        }),
        forall|i: int| 0 <= i < pool.len() ==> !float::is_nan((#[trigger] pool[i]).0),
        row == Seq::new(
            result.0@.len(),
            |i: int| (result.1@[i], result.0@[i]),
        ),
    ensures
        result.0@.len() == if pool.len() < k {
            pool.len()
        } else {
            k as nat
        },
        result.1@.len() == result.0@.len(),
        forall|i: int, j: int|
            #![trigger row[i], row[j]]
            0 <= i < j < row.len() ==> float::rank(row[i].0) <= float::rank(row[j].0),
        forall|p: (u32, i64)| #[trigger]
            row.to_multiset().count(p) <= pool.to_multiset().count(p),
        forall|i: int|
            #![trigger row[i]]
            0 <= i < row.len() ==> pool.filter(
                |p: (u32, i64)| float::rank(p.0) < float::rank(row[i].0),
            ).len() <= i,
{
    let vs = file_search::views(lists@);
    let f = search::filter_view(filter);
    lemma_pool(lists@, dists@);
    let apart = choose|apart: bool|
        call_ensures(R::supports_concurrent_pread, (&file.reader,), apart)
            && file_search::result_is(
            result,
            #[trigger] file_search::lists_result(vs, dists@, f, k as nat, apart),
        );
    list_laws::lemma_lists_answers(vs, dists@, f, k as nat, apart, pool);
    let want = file_search::lists_result(vs, dists@, f, k as nat, apart);
    search_laws::lemma_parts(result, want);
    assert(row =~= want);
}

/// The same of the search without a filter.
pub proof fn lemma_search_with_reader<R: SeekRead>(
    file: &IVFPQIndexReader<R>,
    lists: &Vec<PreReadList>,
    dists: &[Vec<u32>],
    k: usize,
    result: (Vec<i64>, Vec<u32>),
    pool: Seq<(u32, i64)>,
    row: Seq<(u32, i64)>,
)
    requires
        call_ensures(
            file_search::search_with_reader::<R>,
            (file, lists, dists, k),
            result,
        ),
        ({
            let all = Seq::new(
                lists@.len(),
                |j: int|
                    Seq::new(
                        lists@[j].count as nat,
                        |g: int| (dists@[j]@[g], lists@[j].ids@[g]),
                    ),
            ).flatten();
            pool == all
        }),
        forall|i: int| 0 <= i < pool.len() ==> !float::is_nan((#[trigger] pool[i]).0),
        row == Seq::new(
            result.0@.len(),
            |i: int| (result.1@[i], result.0@[i]),
        ),
    ensures
        result.0@.len() == if pool.len() < k {
            pool.len()
        } else {
            k as nat
        },
        result.1@.len() == result.0@.len(),
        forall|i: int, j: int|
            #![trigger row[i], row[j]]
            0 <= i < j < row.len() ==> float::rank(row[i].0) <= float::rank(row[j].0),
        forall|p: (u32, i64)| #[trigger]
            row.to_multiset().count(p) <= pool.to_multiset().count(p),
        forall|i: int|
            #![trigger row[i]]
            0 <= i < row.len() ==> pool.filter(
                |p: (u32, i64)| float::rank(p.0) < float::rank(row[i].0),
            ).len() <= i,
{
    let vs = file_search::views(lists@);
    let f = None::<Set<i64>>;
    lemma_pool(lists@, dists@);
    let apart = choose|apart: bool|
        call_ensures(R::supports_concurrent_pread, (&file.reader,), apart)
            && file_search::result_is(
            result,
            #[trigger] file_search::lists_result(vs, dists@, f, k as nat, apart),
        );
    list_laws::lemma_lists_answers(vs, dists@, f, k as nat, apart, pool);
    let want = file_search::lists_result(vs, dists@, f, k as nat, apart);
    search_laws::lemma_parts(result, want);
    assert(row =~= want);
}

/// The same of the search of a reader.
pub proof fn lemma_reader_search<R: SeekRead>(
    file: &IVFPQIndexReader<R>,
    lists: &Vec<PreReadList>,
    dists: &[Vec<u32>],
    k: usize,
    result: (Vec<i64>, Vec<u32>),
    pool: Seq<(u32, i64)>,
    row: Seq<(u32, i64)>,
)
    requires
        call_ensures(
            IVFPQIndexReader::<R>::search,
            (file, lists, dists, k),
            result,
        ),
        ({
            let all = Seq::new(
                lists@.len(),
                |j: int|
                    Seq::new(
                        lists@[j].count as nat,
                        |g: int| (dists@[j]@[g], lists@[j].ids@[g]),
                    ),
            ).flatten();
            pool == all
        }),
        forall|i: int| 0 <= i < pool.len() ==> !float::is_nan((#[trigger] pool[i]).0),
        row == Seq::new(
            result.0@.len(),
            |i: int| (result.1@[i], result.0@[i]),
        ),
    ensures
        result.0@.len() == if pool.len() < k {
            pool.len()
        } else {
            k as nat
        },
        result.1@.len() == result.0@.len(),
        forall|i: int, j: int|
            #![trigger row[i], row[j]]
            0 <= i < j < row.len() ==> float::rank(row[i].0) <= float::rank(row[j].0),
        forall|p: (u32, i64)| #[trigger]
            row.to_multiset().count(p) <= pool.to_multiset().count(p),
        forall|i: int|
            #![trigger row[i]]
            0 <= i < row.len() ==> pool.filter(
                |p: (u32, i64)| float::rank(p.0) < float::rank(row[i].0),
            ).len() <= i,
{
    let vs = file_search::views(lists@);
    let f = None::<Set<i64>>;
    lemma_pool(lists@, dists@);
    let apart = choose|apart: bool|
        call_ensures(R::supports_concurrent_pread, (&file.reader,), apart)
            && file_search::result_is(
            result,
            #[trigger] file_search::lists_result(vs, dists@, f, k as nat, apart),
        );
    list_laws::lemma_lists_answers(vs, dists@, f, k as nat, apart, pool);
    let want = file_search::lists_result(vs, dists@, f, k as nat, apart);
    search_laws::lemma_parts(result, want);
    assert(row =~= want);
}

/// The lists that are read for a query: every probed list that is not empty, in
/// the order of the probes, with what the file stores for it.
pub proof fn lemma_read_probed_lists<R: SeekRead>(
    before: IVFPQIndexReader<R>,
    probes: &[usize],
    result: Result<Vec<PreReadList>, Error>,
    wanted: Seq<usize>,
)
    requires
        exists|r: &mut IVFPQIndexReader<R>|
            #[trigger] call_ensures(file_search::read_probed_lists::<R>, (r, probes), result) && *r
                == before,
        before.wf(),
        before.loaded,
        forall|i: int| 0 <= i < probes@.len() ==> #[trigger] probes@[i] < before.nlist,
        wanted == probes@.filter(|l: usize| before.list_counts@[l as int] > 0),
    ensures
        result matches Ok(lists) ==> {
            let c = before.contents();
            let h = before.header();
            &&& lists@.len() == wanted.len()
            &&& forall|j: int| #![trigger lists@[j]] 0 <= j < lists@.len() ==> {
                &&& lists@[j].list_id == wanted[j]
                &&& lists@[j].rank < probes@.len()
                &&& probes@[lists@[j].rank as int] == wanted[j]
                &&& lists@[j].count == before.list_counts@[wanted[j] as int]
                &&& reader::stored_list(c, h, wanted[j] as int) == Ok::<
                    (Seq<i64>, Seq<u8>),
                    Error,
                >((lists@[j].ids@, lists@[j].codes@))
            }
            &&& forall|i: int, j: int|
                #![trigger lists@[i], lists@[j]]
                0 <= i < j < lists@.len() ==> lists@[i].rank < lists@[j].rank
        },
{
    let c = before.contents();
    let h = before.header();
    list_laws::lemma_probed_lists(c, h, probes@);
    assert forall|l: usize| l < before.nlist implies #[trigger] before.list_counts@[l as int]
        == reader::entry_count(c, reader::table_at(h), l as int) by {}
    let stored = probes@.filter(
        |l: usize| reader::entry_count(c, reader::table_at(h), l as int) as nat > 0,
    );
    read_laws::lemma_header_accepted(c);
    read_laws::lemma_header_fields(c);
    lemma_same_filter(before, probes@);
    if let Ok(lists) = result {
        let vs = file_search::views(lists@);
        assert(file_search::probed_lists(c, h, probes@) == Ok::<
            Seq<file_search::ListView>,
            Error,
        >(vs));
        assert forall|j: int| 0 <= j < lists@.len() implies #[trigger] vs[j]
            == lists@[j].list_view() by {}
        assert forall|j: int| #![trigger lists@[j]] 0 <= j < lists@.len() implies {
            &&& lists@[j].list_id == wanted[j]
            &&& lists@[j].rank < probes@.len()
            &&& probes@[lists@[j].rank as int] == wanted[j]
            &&& lists@[j].count == before.list_counts@[wanted[j] as int]
            &&& reader::stored_list(c, h, wanted[j] as int) == Ok::<(Seq<i64>, Seq<u8>), Error>(
                (lists@[j].ids@, lists@[j].codes@),
            )
        } by {
            assert(vs[j].list_id == stored[j]);
            assert(probes@[vs[j].rank as int] == stored[j]);
            let l: int = stored[j] as int;
            reader::lemma_table_counts(c, reader::table_at(h), h.nlist as nat, l);
            assert(before.list_counts@[l] == reader::entry_count(c, reader::table_at(h), l));
        }
        assert forall|i: int, j: int|
            #![trigger lists@[i], lists@[j]]
            0 <= i < j < lists@.len() implies lists@[i].rank < lists@[j].rank by {
            assert(vs[i].rank < vs[j].rank);
        }
    }
}

proof fn lemma_same_filter<R: SeekRead>(file: IVFPQIndexReader<R>, probes: Seq<usize>)
    requires
        file.wf(),
        file.loaded,
        forall|i: int| 0 <= i < probes.len() ==> #[trigger] probes[i] < file.nlist,
    ensures
        probes.filter(|l: usize| file.list_counts@[l as int] > 0) == probes.filter(
            |l: usize|
                reader::entry_count(
                    file.contents(),
                    reader::table_at(file.header()),
                    l as int,
                ) as nat > 0,
        ),
    decreases probes.len(),
{
    reveal(Seq::filter);
    if probes.len() > 0 {
        let front = probes.drop_last();
        assert forall|i: int| 0 <= i < front.len() implies #[trigger] front[i] < file.nlist by {
            assert(front[i] == probes[i]);
        }
        lemma_same_filter(file, front);
        let l: int = probes.last() as int;
        assert(probes[probes.len() - 1] < file.nlist);
        let at = reader::table_at(file.header());
        reader::lemma_table_counts(file.contents(), at, file.nlist as nat, l);
        assert(file.list_counts@[l] == reader::entry_count(file.contents(), at, l));
    }
}

/// A query is taken if the sections are sound, it has as many components as the
/// vectors, and it asks for something.
pub proof fn lemma_check_query<R: SeekRead, F: Fn(&Vec<u32>, usize, usize, usize) -> Vec<u32>>(
    before: IVFPQIndexReader<R>,
    len: usize,
    k: usize,
    nprobe: usize,
    norms: F,
    result: Result<(), Error>,
)
    requires
        exists|r: &mut IVFPQIndexReader<R>|
            #[trigger] call_ensures(
                file_search::check_query::<R, F>,
                (r, len, k, nprobe, norms),
                result,
            ) && *r == before,
        before.reader.reliable(),
    ensures
        ({
            let sound = reader::sections_error(before.contents(), before.header()) is None;
            &&& result is Ok <==> sound && len == before.d && k > 0 && nprobe > 0
            &&& sound && len != before.d ==> result == Err::<(), Error>(
                Error::QueryLength { len, d: before.d },
            )
            &&& sound && len == before.d && k == 0 ==> result == Err::<(), Error>(Error::ZeroK)
            &&& sound && len == before.d && k > 0 && nprobe == 0 ==> result == Err::<(), Error>(
                Error::ZeroNprobe,
            )
        }),
{
    query_laws::lemma_query_check(before.contents(), before.header(), len, k, nprobe);
}

/// A batch is taken if the sections are sound, it holds queries that have as many
/// components as the vectors, and it asks for something.
pub proof fn lemma_check_batch<R: SeekRead, F: Fn(&Vec<u32>, usize, usize, usize) -> Vec<u32>>(
    before: IVFPQIndexReader<R>,
    len: usize,
    nq: usize,
    k: usize,
    nprobe: usize,
    norms: F,
    result: Result<(), Error>,
)
    requires
        exists|r: &mut IVFPQIndexReader<R>|
            #[trigger] call_ensures(
                file_search::check_batch::<R, F>,
                (r, len, nq, k, nprobe, norms),
                result,
            ) && *r == before,
        before.reader.reliable(),
    ensures
        ({
            let sound = reader::sections_error(before.contents(), before.header()) is None;
            &&& result is Ok <==> sound && nq > 0 && len == nq * before.d && k > 0 && nprobe > 0
            &&& sound && nq == 0 ==> result == Err::<(), Error>(Error::ZeroQueries)
            &&& sound && nq > 0 && nq * before.d > usize::MAX ==> result == Err::<(), Error>(
                Error::QueryCountOverflow,
            )
            &&& sound && nq > 0 && len != nq * before.d && nq * before.d <= usize::MAX
                ==> result == Err::<(), Error>(
                Error::QueriesLength { len, expected: (nq * before.d) as usize },
            )
            &&& sound && nq > 0 && len == nq * before.d && k == 0 ==> result == Err::<(), Error>(
                Error::ZeroK,
            )
            &&& sound && nq > 0 && len == nq * before.d && k > 0 && nprobe == 0 ==> result == Err::<
                (),
                Error,
            >(Error::ZeroNprobe)
        }),
{
    query_laws::lemma_batch_check(before.contents(), before.header(), len, nq, k, nprobe);
}

/// The lists that are read for a batch: every list that some query probes and
/// that is not empty, once, by ascending number, with what the file stores for
/// it.
pub proof fn lemma_read_batch_lists<R: SeekRead>(
    before: IVFPQIndexReader<R>,
    groups: &Vec<Vec<(usize, usize)>>,
    lists: Vec<BatchList>,
    l: int,
)
    requires
        exists|r: &mut IVFPQIndexReader<R>|
            #[trigger] call_ensures(
                batch::read_batch_lists::<R>,
                (r, groups),
                Ok::<Vec<BatchList>, Error>(lists),
            ) && *r == before,
        before.wf(),
        before.loaded,
        groups@.len() == before.nlist,
    ensures
        forall|j: int| #![trigger lists@[j]] 0 <= j < lists@.len() ==> {
            &&& lists@[j].list_id < before.nlist
            &&& groups@[lists@[j].list_id as int]@.len() > 0
            &&& lists@[j].count == before.list_counts@[lists@[j].list_id as int]
            &&& lists@[j].count > 0
            &&& reader::stored_list(
                before.contents(),
                before.header(),
                lists@[j].list_id as int,
            ) == Ok::<(Seq<i64>, Seq<u8>), Error>((lists@[j].ids@, lists@[j].codes@))
        },
        forall|i: int, j: int|
            #![trigger lists@[i], lists@[j]]
            0 <= i < j < lists@.len() ==> lists@[i].list_id < lists@[j].list_id,
        0 <= l < before.nlist && groups@[l]@.len() > 0 && before.list_counts@[l] > 0
            ==> exists|j: int| 0 <= j < lists@.len() && (#[trigger] lists@[j]).list_id == l,
{
    let c = before.contents();
    let h = before.header();
    let at = reader::table_at(h);
    let vs = batch::views(lists@);
    assert(batch::batch_lists(c, h, groups@, h.nlist as nat) == Ok::<
        Seq<batch::BatchView>,
        Error,
    >(vs));
    list_laws::lemma_batch_lists(c, h, groups@, h.nlist as nat);
    assert forall|j: int| 0 <= j < lists@.len() implies #[trigger] vs[j]
        == lists@[j].list_view() by {}
    assert forall|j: int| #![trigger lists@[j]] 0 <= j < lists@.len() implies {
        &&& lists@[j].list_id < before.nlist
        &&& groups@[lists@[j].list_id as int]@.len() > 0
        &&& lists@[j].count == before.list_counts@[lists@[j].list_id as int]
        &&& lists@[j].count > 0
        &&& reader::stored_list(c, h, lists@[j].list_id as int) == Ok::<
            (Seq<i64>, Seq<u8>),
            Error,
        >((lists@[j].ids@, lists@[j].codes@))
    } by {
        let x: int = vs[j].list_id as int;
        reader::lemma_table_counts(c, at, h.nlist as nat, x);
        assert(before.list_counts@[x] == reader::entry_count(c, at, x));
    }
    assert forall|i: int, j: int|
        #![trigger lists@[i], lists@[j]]
        0 <= i < j < lists@.len() implies lists@[i].list_id < lists@[j].list_id by {
        assert(vs[i].list_id < vs[j].list_id);
    }
    if 0 <= l < before.nlist && groups@[l]@.len() > 0 && before.list_counts@[l] > 0 {
        assert(before.list_counts@[l] == reader::entry_count(c, at, l));
        let j = choose|j: int| 0 <= j < vs.len() && (#[trigger] vs[j]).list_id == l;
        assert(lists@[j].list_id == l);
    }
}

/// A query of a batch is answered from the lists that it probes, as if it were
/// alone: its answers are the `k` nearest of the pairs of a distance and an ID of
/// the vectors of the lists that are read for it alone, and no pair is answered
/// more often than it occurs there. `score` gives the distances of every query
/// and list.
pub proof fn lemma_batch_as_alone<R: SeekRead>(
    file: IVFPQIndexReader<R>,
    probes: &[Vec<usize>],
    nq: usize,
    groups: &Vec<Vec<(usize, usize)>>,
    lists: &Vec<BatchList>,
    dists: &[Vec<Vec<u32>>],
    score: spec_fn(int, int) -> Seq<u32>,
    k: usize,
    result: (Vec<i64>, Vec<u32>),
    qi: int,
    probe: &[usize],
    own: Vec<PreReadList>,
    own_dists: Seq<Vec<u32>>,
    pool: Seq<(u32, i64)>,
    row: Seq<(u32, i64)>,
)
    requires
        file.wf(),
        file.loaded,
        call_ensures(batch::group_probes, (probes, nq, file.nlist), *groups),
        nq <= probes@.len(),
        forall|x: int, r: int|
            0 <= x < nq && 0 <= r < probes@[x]@.len() ==> #[trigger] probes@[x]@[r] < file.nlist,
        exists|r: &mut IVFPQIndexReader<R>|
            #[trigger] call_ensures(
                batch::read_batch_lists::<R>,
                (r, groups),
                Ok::<Vec<BatchList>, Error>(*lists),
            ) && *r == file,
        dists@.len() == lists@.len(),
        forall|j: int, x: int|
            #![trigger dists@[j]@[x]]
            0 <= j < lists@.len() && 0 <= x < groups@[lists@[j].list_id as int]@.len()
                ==> dists@[j]@[x]@ == score(
                groups@[lists@[j].list_id as int]@[x].0 as int,
                lists@[j].list_id as int,
            ),
        call_ensures(batch::search_batch_reader, (lists, groups, dists, nq, k), result),
        0 <= qi < nq,
        probe@ == probes@[qi]@,
        exists|r: &mut IVFPQIndexReader<R>|
            #[trigger] call_ensures(
                file_search::read_probed_lists::<R>,
                (r, probe),
                Ok::<Vec<PreReadList>, Error>(own),
            ) && *r == file,
        own_dists.len() == own@.len(),
        forall|j: int|
            #![trigger own_dists[j]]
            0 <= j < own@.len() ==> own_dists[j]@ == score(qi, own@[j].list_id as int),
        pool == Seq::new(
            own@.len(),
            |j: int| Seq::new(own@[j].count as nat, |g: int| (own_dists[j]@[g], own@[j].ids@[g])),
        ).flatten(),
        forall|i: int| 0 <= i < pool.len() ==> !float::is_nan((#[trigger] pool[i]).0),
        row == Seq::new(
            if pool.len() < k {
                pool.len()
            } else {
                k as nat
            },
            |i: int| (result.1@[qi * k + i], result.0@[qi * k + i]),
        ),
    ensures
        forall|i: int, j: int|
            #![trigger row[i], row[j]]
            0 <= i < j < row.len() ==> float::rank(row[i].0) <= float::rank(row[j].0),
        forall|p: (u32, i64)| #[trigger]
            row.to_multiset().count(p) <= pool.to_multiset().count(p),
        forall|i: int|
            #![trigger row[i]]
            0 <= i < row.len() ==> pool.filter(
                |p: (u32, i64)| float::rank(p.0) < float::rank(row[i].0),
            ).len() <= i,
        forall|i: int|
            #![trigger result.0@[qi * k + i]]
            #![trigger result.1@[qi * k + i]]
            row.len() <= i < k ==> result.0@[qi * k + i] == -1 && result.1@[qi * k + i]
                == 0x7f7f_ffff,
{
    let c = file.contents();
    let h = file.header();
    let vs = batch::views(lists@);
    let own_views = file_search::views(own@);
    let results = batch::batch_results(vs, groups@, dists@, nq as nat, k as nat);
    lemma_pool(own@, own_dists);
    assert(batch::batch_lists(c, h, groups@, h.nlist as nat) == Ok::<
        Seq<batch::BatchView>,
        Error,
    >(vs));
    assert(file_search::probed_lists(c, h, probe@) == Ok::<Seq<file_search::ListView>, Error>(
        own_views,
    ));
    assert forall|j: int, x: int|
        #![trigger dists@[j]@[x]]
        0 <= j < vs.len() && 0 <= x < groups@[vs[j].list_id as int]@.len() implies dists@[j]@[x]@
        == score(groups@[vs[j].list_id as int]@[x].0 as int, vs[j].list_id as int) by {
        assert(vs[j] == lists@[j].list_view());
    }
    assert forall|j: int| #![trigger own_views[j]] 0 <= j < own_views.len() implies own_dists[j]@
        == score(qi, own_views[j].list_id as int) by {
        assert(own_views[j] == own@[j].list_view());
    }
    batch_laws::lemma_batch_query(
        c,
        h,
        probes@,
        nq as nat,
        groups@,
        vs,
        dists@,
        score,
        qi,
        own_views,
        own_dists,
        k as nat,
        pool,
    );
    assert forall|i: int| 0 <= i < row.len() implies row[i] == results[qi][i] by {
        search_laws::lemma_flat_rows(results, k as nat, qi, i);
    }
    assert(row =~= results[qi]);
    assert forall|i: int|
        #![trigger result.0@[qi * k + i]]
        #![trigger result.1@[qi * k + i]]
        row.len() <= i < k implies result.0@[qi * k + i] == -1 && result.1@[qi * k + i]
        == 0x7f7f_ffff by {
        search_laws::lemma_flat_rows(results, k as nat, qi, i);
    }
}

/// Lists can be ranked if there is a distance for every vector, and every distance
/// is a number.
pub proof fn lemma_can_rank_lists(
    lists: &Vec<PreReadList>,
    dists: &[Vec<u32>],
    filter: Option<&HashSet<i64>>,
    k: usize,
    apart: bool,
    yes: bool,
    pool: Seq<(u32, i64)>,
)
    requires
        call_ensures(file_search::can_rank_lists, (lists, dists, filter, k, apart), yes),
        dists@.len() == lists@.len(),
        forall|j: int|
            #![trigger lists@[j]]
            0 <= j < lists@.len() ==> lists@[j].count <= lists@[j].ids@.len() && lists@[j].count
                <= dists@[j]@.len(),
        ({
            let all = Seq::new(
                lists@.len(),
                |j: int|
                    Seq::new(
                        lists@[j].count as nat,
                        |g: int| (dists@[j]@[g], lists@[j].ids@[g]),
                    ),
            ).flatten();
            pool == match filter {
                Some(f) => all.filter(|p: (u32, i64)| f@.contains(p.1)),
                None => all,
            }
        }),
        forall|i: int| 0 <= i < pool.len() ==> !float::is_nan((#[trigger] pool[i]).0),
    ensures
        yes,
{
    let vs = file_search::views(lists@);
    lemma_pool(lists@, dists@);
    assert forall|j: int| #![trigger vs[j]] 0 <= j < vs.len() implies vs[j].count
        <= vs[j].ids.len() && vs[j].count <= dists@[j]@.len() by {
        assert(vs[j] == lists@[j].list_view());
    }
    list_laws::lemma_comparable(
        vs,
        dists@,
        search::filter_view(filter),
        k as nat,
        apart,
        pool,
    );
}

/// Once its sections were read, a reader holds what its file says; that succeeds
/// if they are sound.
pub proof fn lemma_ensure_loaded<R: SeekRead, F: Fn(&Vec<u32>, usize, usize, usize) -> Vec<u32>>(
    before: IVFPQIndexReader<R>,
    after: IVFPQIndexReader<R>,
    norms: F,
    result: Result<(), Error>,
)
    requires
        exists|r: &mut IVFPQIndexReader<R>|
            #[trigger] call_ensures(IVFPQIndexReader::<R>::ensure_loaded::<F>, (r, norms), result)
                && *r == before && *final(r) == after,
        before.wf(),
        before.reader.reliable(),
    ensures
        result is Ok <==> reader::sections_error(before.contents(), before.header()) is None,
        reader::sections_error(before.contents(), before.header()) matches Some(e) ==> result
            == Err::<(), Error>(e),
        result is Ok <==> after.loaded,
        after.wf(),
        after.contents() == before.contents(),
        after.header() == before.header(),
        before.loaded ==> after == before,
{
}

} // verus!
