//! Writing an index.

use crate::bytes;
use crate::codec;
use crate::error::Error;
use crate::file;
use crate::file::{
    FLAG_BY_RESIDUAL, FLAG_DELTA_IDS, FLAG_HAS_OPQ, FLAG_TRANSPOSED_CODES, MAGIC, VERSION,
};
use crate::ivfpq;
use crate::ivfpq::IVFPQIndex;
use crate::layout;
use crate::sort;
use crate::stream;
use crate::stream::{Output, SeekWrite};
use crate::varint;
use vstd::prelude::*;

verus! {

/// A list that is ready to be written.
struct SortedList {
    ids: Vec<i64>,
    id_bytes: Vec<u8>,
    codes: Vec<u8>,
}

/// The list belongs to `ids` and `codes`.
spec fn sorted_from(list: SortedList, ids: Seq<i64>, codes: Seq<u8>, cs: nat) -> bool {
    &&& list.ids@ == file::sorted_ids(ids)
    &&& ids.len() > 0 ==> list.id_bytes@ == file::id_bytes(ids)
    &&& list.codes@ == file::sorted_codes(ids, codes, cs)
}

/// The index has the lists that are to be written, with a code for every ID.
pub open spec fn writable(index: &IVFPQIndex) -> bool {
    &&& index.nlist <= index.ids@.len()
    &&& index.nlist <= index.codes@.len()
    &&& forall|i: int|
        #![trigger index.codes@[i]]
        0 <= i < index.nlist ==> index.ids@[i]@.len() * index.pq.spec_code_size()
            <= index.codes@[i]@.len()
}

/// Writes more bytes, unless an earlier write failed.
fn then_bytes<W: SeekWrite>(
    so_far: Result<(), Error>,
    out: &mut W,
    buf: &[u8],
    Ghost(start): Ghost<Output>,
    Ghost(done): Ghost<Seq<u8>>,
) -> (result: Result<(), Error>)
    requires
        stream::appended(start, old(out).output(), so_far, done),
        start.position + done.len() + buf@.len() <= u64::MAX,
    ensures
        stream::appended(start, final(out).output(), result, done + buf@),
{
    match so_far {
        Ok(_) => {
            let ghost between = out.output();
            let result = out.write_all(buf);
            proof {
                stream::lemma_appended_twice(start, between, out.output(), done, result, buf@);
            }
            result
        },
        Err(e) => {
            proof {
                stream::lemma_appended_stop(start, out.output(), e, done, buf@);
            }
            Err(e)
        },
    }
}

/// Writes a word more, unless an earlier write failed.
fn then_u32<W: SeekWrite>(
    so_far: Result<(), Error>,
    out: &mut W,
    v: u32,
    Ghost(start): Ghost<Output>,
    Ghost(done): Ghost<Seq<u8>>,
) -> (result: Result<(), Error>)
    requires
        stream::appended(start, old(out).output(), so_far, done),
        start.position + done.len() + 4 <= u64::MAX,
    ensures
        stream::appended(start, final(out).output(), result, done + bytes::word32(v as int)),
{
    match so_far {
        Ok(_) => {
            let ghost between = out.output();
            let result = codec::write_u32_le(out, v);
            proof {
                stream::lemma_appended_twice(
                    start,
                    between,
                    out.output(),
                    done,
                    result,
                    bytes::word32(v as int),
                );
            }
            result
        },
        Err(e) => {
            proof {
                stream::lemma_appended_stop(
                    start,
                    out.output(),
                    e,
                    done,
                    bytes::word32(v as int),
                );
            }
            Err(e)
        },
    }
}

/// Writes the low 32 bits of `v` as a signed word, unless an earlier write
/// failed.
fn then_i32<W: SeekWrite>(
    so_far: Result<(), Error>,
    out: &mut W,
    v: u64,
    Ghost(start): Ghost<Output>,
    Ghost(done): Ghost<Seq<u8>>,
) -> (result: Result<(), Error>)
    requires
        stream::appended(start, old(out).output(), so_far, done),
        start.position + done.len() + 4 <= u64::MAX,
    ensures
        stream::appended(start, final(out).output(), result, done + bytes::word32(v as int)),
{
    let low: u64 = v % 0x1_0000_0000;
    let signed: i32 = if low < 0x8000_0000 {
        low as i32
    } else {
        (low as i64 - 0x1_0000_0000) as i32
    };
    assert(bytes::word32(signed as int) == bytes::word32(v as int)) by {
        assert((signed as int) % 0x1_0000_0000 == (v as int) % 0x1_0000_0000);
    }
    match so_far {
        Ok(_) => {
            let ghost between = out.output();
            let result = codec::write_i32_le(out, signed);
            proof {
                stream::lemma_appended_twice(
                    start,
                    between,
                    out.output(),
                    done,
                    result,
                    bytes::word32(v as int),
                );
            }
            result
        },
        Err(e) => {
            proof {
                stream::lemma_appended_stop(
                    start,
                    out.output(),
                    e,
                    done,
                    bytes::word32(v as int),
                );
            }
            Err(e)
        },
    }
}

/// Writes a double word more, unless an earlier write failed.
fn then_i64<W: SeekWrite>(
    so_far: Result<(), Error>,
    out: &mut W,
    v: i64,
    Ghost(start): Ghost<Output>,
    Ghost(done): Ghost<Seq<u8>>,
) -> (result: Result<(), Error>)
    requires
        stream::appended(start, old(out).output(), so_far, done),
        start.position + done.len() + 8 <= u64::MAX,
    ensures
        stream::appended(start, final(out).output(), result, done + bytes::word64(v as int)),
{
    match so_far {
        Ok(_) => {
            let ghost between = out.output();
            let result = codec::write_i64_le(out, v);
            proof {
                stream::lemma_appended_twice(
                    start,
                    between,
                    out.output(),
                    done,
                    result,
                    bytes::word64(v as int),
                );
            }
            result
        },
        Err(e) => {
            proof {
                stream::lemma_appended_stop(
                    start,
                    out.output(),
                    e,
                    done,
                    bytes::word64(v as int),
                );
            }
            Err(e)
        },
    }
}

/// Writes numbers more, unless an earlier write failed.
fn then_words<W: SeekWrite>(
    so_far: Result<(), Error>,
    out: &mut W,
    data: &Vec<u32>,
    Ghost(start): Ghost<Output>,
    Ghost(done): Ghost<Seq<u8>>,
) -> (result: Result<(), Error>)
    requires
        stream::appended(start, old(out).output(), so_far, done),
        start.position + done.len() + codec::words(data@).len() <= u64::MAX,
    ensures
        stream::appended(start, final(out).output(), result, done + codec::words(data@)),
{
    proof {
        codec::lemma_words_len(data@);
    }
    match so_far {
        Ok(_) => {
            let ghost between = out.output();
            let result = codec::write_f32_slice(out, data.as_slice());
            proof {
                stream::lemma_appended_twice(
                    start,
                    between,
                    out.output(),
                    done,
                    result,
                    codec::words(data@),
                );
            }
            result
        },
        Err(e) => {
            proof {
                stream::lemma_appended_stop(start, out.output(), e, done, codec::words(data@));
            }
            Err(e)
        },
    }
}

/// The number of all IDs, modulo 2^64 as a signed number.
fn total_vectors(index: &IVFPQIndex) -> (total: i64)
    ensures
        bytes::word64(total as int) == bytes::word64(
            ivfpq::total_len(index.ids@, index.ids@.len()) as int,
        ),
{
    let mut total: u64 = 0;
    let mut i: usize = 0;
    while i < index.ids.len()
        invariant
            i <= index.ids@.len(),
            total == ivfpq::total_len(index.ids@, i as nat) % 0x1_0000_0000_0000_0000,
        decreases index.ids@.len() - i,
    {
        let n: usize = index.ids[i].len();
        proof {
            let m: int = 0x1_0000_0000_0000_0000;
            let before: int = ivfpq::total_len(index.ids@, i as nat) as int;
            vstd::arithmetic::div_mod::lemma_add_mod_noop_right(n as int, before, m);
        }
        total = total.wrapping_add(n as u64);
        i = i + 1;
    }
    proof {
        bytes::lemma_cast_signed64(total);
    }
    total as i64
}

/// The flags of an index.
fn flags_of(index: &IVFPQIndex, compact: bool) -> (flags: u32)
    ensures
        flags == file::index_flags(index, compact),
{
    let mut flags: u32 = if compact {
        FLAG_DELTA_IDS + FLAG_TRANSPOSED_CODES
    } else {
        0
    };
    if index.opq.is_some() {
        flags = flags + FLAG_HAS_OPQ;
    }
    if index.by_residual {
        flags = flags + FLAG_BY_RESIDUAL;
    }
    flags
}

/// Writes what stands in front of the table.
fn write_front<W: SeekWrite>(index: &IVFPQIndex, flags: u32, out: &mut W) -> (result: Result<
    (),
    Error,
>)
    requires
        old(out).output().position + file::front_bytes(index, flags).len() <= u64::MAX,
    ensures
        stream::appended(
            old(out).output(),
            final(out).output(),
            result,
            file::front_bytes(index, flags),
        ),
{
    let ghost start = out.output();
    let total: i64 = total_vectors(index);
    let ghost a0 = bytes::word32(MAGIC as int);
    let ghost a1 = a0 + bytes::word32(VERSION as int);
    let ghost a2 = a1 + bytes::word32(index.d as int);
    let ghost a3 = a2 + bytes::word32(index.nlist as int);
    let ghost a4 = a3 + bytes::word32(index.pq.m as int);
    let ghost a5 = a4 + bytes::word32(index.pq.ksub as int);
    let ghost a6 = a5 + bytes::word32(index.pq.dsub as int);
    let ghost a7 = a6 + bytes::word32(index.metric.spec_code() as int);
    let ghost a8 = a7 + bytes::word64(total as int);
    let ghost a9 = a8 + bytes::word32(flags as int);
    let ghost header = file::header_bytes(index, flags);
    proof {
        file::lemma_header_len(index, flags);
        assert(header == a9 + Seq::new(20, |i: int| 0u8));
        bytes::lemma_word_len(MAGIC as int);
        bytes::lemma_word_len(VERSION as int);
        bytes::lemma_word_len(index.d as int);
        bytes::lemma_word_len(index.nlist as int);
        bytes::lemma_word_len(index.pq.m as int);
        bytes::lemma_word_len(index.pq.ksub as int);
        bytes::lemma_word_len(index.pq.dsub as int);
        bytes::lemma_word_len(index.metric.spec_code() as int);
        bytes::lemma_word_len(total as int);
        bytes::lemma_word_len(flags as int);
    }
    let r = codec::write_u32_le(out, MAGIC);
    let r = then_u32(r, out, VERSION, Ghost(start), Ghost(a0));
    let r = then_i32(r, out, index.d as u64, Ghost(start), Ghost(a1));
    let r = then_i32(r, out, index.nlist as u64, Ghost(start), Ghost(a2));
    let r = then_i32(r, out, index.pq.m as u64, Ghost(start), Ghost(a3));
    let r = then_i32(r, out, index.pq.ksub as u64, Ghost(start), Ghost(a4));
    let r = then_i32(r, out, index.pq.dsub as u64, Ghost(start), Ghost(a5));
    let r = then_u32(r, out, index.metric.code(), Ghost(start), Ghost(a6));
    let r = then_i64(r, out, total, Ghost(start), Ghost(a7));
    let r = then_u32(r, out, flags, Ghost(start), Ghost(a8));
    let padding: [u8; 20] = [0u8; 20];
    assert(padding@ =~= Seq::new(20, |i: int| 0u8));
    let r = then_bytes(r, out, &padding, Ghost(start), Ghost(a9));
    let r = match &index.opq {
        Some(opq) => then_words(r, out, &opq.rotation, Ghost(start), Ghost(header)),
        None => {
            assert(header + Seq::<u8>::empty() =~= header);
            r
        },
    };
    let ghost b0 = header + file::rotation_bytes(index);
    let r = then_words(r, out, &index.quantizer_centroids, Ghost(start), Ghost(b0));
    let ghost b1 = b0 + codec::words(index.quantizer_centroids@);
    then_words(r, out, &index.pq.centroids, Ghost(start), Ghost(b1))
}

/// Writes the table.
fn write_table<W: SeekWrite>(starts: &Vec<u64>, counts: &Vec<usize>, out: &mut W) -> (result:
    Result<(), Error>)
    requires
        starts@.len() == counts@.len(),
        old(out).output().position + 16 * starts@.len() <= u64::MAX,
    ensures
        stream::appended(
            old(out).output(),
            final(out).output(),
            result,
            file::table_bytes(
                starts@.map_values(|v: u64| v as int),
                counts@.map_values(|v: usize| v as int),
            ),
        ),
{
    let ghost start = out.output();
    let ghost ss = starts@.map_values(|v: u64| v as int);
    let ghost cc = counts@.map_values(|v: usize| v as int);
    let ghost mut done = Seq::<u8>::empty();
    let mut r: Result<(), Error> = Ok(());
    let mut i: usize = 0;
    assert(start.written + done =~= start.written);
    while i < starts.len()
        invariant
            i <= starts@.len(),
            starts@.len() == counts@.len(),
            start.position + 16 * starts@.len() <= u64::MAX,
            ss == starts@.map_values(|v: u64| v as int),
            cc == counts@.map_values(|v: usize| v as int),
            done == file::table_bytes(ss.take(i as int), cc),
            stream::appended(start, out.output(), r, done),
        decreases starts@.len() - i,
    {
        let at: u64 = starts[i];
        let n: usize = counts[i];
        proof {
            file::lemma_table_len(ss.take(i as int), cc);
            bytes::lemma_cast_signed64(at);
            bytes::lemma_word_len(at as int);
            bytes::lemma_word_len(n as int);
            assert(bytes::word64((at as i64) as int) == bytes::word64(at as int));
            assert(ss.take(i + 1).drop_last() =~= ss.take(i as int));
        }
        let ghost d1 = done + bytes::word64(at as int);
        let ghost d2 = d1 + bytes::word32(n as int);
        r = then_i64(r, out, at as i64, Ghost(start), Ghost(done));
        r = then_i32(r, out, n as u64, Ghost(start), Ghost(d1));
        r = then_i32(r, out, 0, Ghost(start), Ghost(d2));
        proof {
            done = d2 + bytes::word32(0);
        }
        i = i + 1;
    }
    assert(ss.take(i as int) =~= ss);
    r
}

/// Sorts a list by its IDs.
fn sort_list(ids: &Vec<i64>, codes: &Vec<u8>, cs: usize) -> (list: SortedList)
    requires
        ids@.len() * cs <= codes@.len(),
    ensures
        sorted_from(list, ids@, codes@, cs as nat),
{
    let n: usize = ids.len();
    let total: usize = codes.len();
    let order: Vec<usize> = sort::sort_order(ids.as_slice());
    let mut sorted_ids: Vec<i64> = Vec::new();
    let mut sorted_codes: Vec<u8> = Vec::new();
    proof {
        file::lemma_sorted_ids(ids@);
        sort::lemma_sorted_order(ids@);
        assert(0 * cs == 0) by (nonlinear_arith);
    }
    let mut i: usize = 0;
    while i < n
        invariant
            i <= n,
            n == ids@.len(),
            total == codes@.len(),
            n * cs <= total,
            sort::ints(order@) == sort::sorted_order(ids@),
            order@.len() == n,
            file::sorted_ids(ids@).len() == n,
            forall|x: int| 0 <= x < n ==> 0 <= #[trigger] sort::sorted_order(ids@)[x] < n,
            sorted_ids@ == file::sorted_ids(ids@).take(i as int),
            sorted_codes@.len() == i * cs,
            i * cs <= n * cs,
            sorted_codes@ == file::sorted_codes(ids@, codes@, cs as nat).take((i * cs) as int),
        decreases n - i,
    {
        let from: usize = order[i];
        assert(sort::ints(order@)[i as int] == from);
        sorted_ids.push(ids[from]);
        assert(sorted_ids@ =~= file::sorted_ids(ids@).take(i + 1));
        assert(i * cs + cs == (i + 1) * cs) by (nonlinear_arith);
        assert((i + 1) * cs <= n * cs) by (nonlinear_arith)
            requires
                i + 1 <= n,
        ;
        assert(from * cs + cs <= n * cs) by (nonlinear_arith)
            requires
                from + 1 <= n,
        ;
        let mut p: usize = 0;
        while p < cs
            invariant
                p <= cs,
                i < n,
                from < n,
                n == ids@.len(),
                total == codes@.len(),
                from * cs + cs <= n * cs,
                n * cs <= total,
                i * cs + cs <= n * cs,
                sort::sorted_order(ids@)[i as int] == from,
                sorted_codes@.len() == i * cs + p,
                sorted_codes@ == file::sorted_codes(ids@, codes@, cs as nat).take(
                    (i * cs + p) as int,
                ),
            decreases cs - p,
        {
            proof {
                vstd::arithmetic::div_mod::lemma_fundamental_div_mod_converse(
                    i * cs + p,
                    cs as int,
                    i as int,
                    p as int,
                );
            }
            sorted_codes.push(codes[from * cs + p]);
            p = p + 1;
            assert(sorted_codes@ =~= file::sorted_codes(ids@, codes@, cs as nat).take(
                (i * cs + p) as int,
            ));
        }
        i = i + 1;
    }
    assert(sorted_ids@ =~= file::sorted_ids(ids@));
    assert(sorted_codes@ =~= file::sorted_codes(ids@, codes@, cs as nat));
    let (_base, id_bytes): (i64, Vec<u8>) = varint::encode_delta_varint_ids(sorted_ids.as_slice());
    SortedList { ids: sorted_ids, id_bytes, codes: sorted_codes }
}

/// Writes a compact list.
fn write_list<W: SeekWrite>(
    list: &SortedList,
    cs: usize,
    out: &mut W,
    Ghost(ids): Ghost<Seq<i64>>,
    Ghost(codes): Ghost<Seq<u8>>,
) -> (result: Result<(), Error>)
    requires
        sorted_from(*list, ids, codes, cs as nat),
        old(out).output().position + file::list_bytes(ids, codes, cs as nat).len() <= u64::MAX,
    ensures
        stream::appended(
            old(out).output(),
            final(out).output(),
            result,
            file::list_bytes(ids, codes, cs as nat),
        ),
{
    let ghost start = out.output();
    proof {
        file::lemma_sorted_ids(ids);
    }
    let count: usize = list.ids.len();
    if count == 0 {
        assert(start.written + Seq::<u8>::empty() =~= start.written);
        return Ok(());
    }
    let base: i64 = list.ids[0];
    let len: usize = list.id_bytes.len();
    let transposed: Vec<u8> = layout::transpose_codes(list.codes.as_slice(), count, cs);
    let ghost d0 = bytes::word64(base as int);
    let ghost d1 = d0 + bytes::word32(len as int);
    let ghost d2 = d1 + list.id_bytes@;
    proof {
        bytes::lemma_word_len(base as int);
        bytes::lemma_word_len(len as int);
    }
    let r = codec::write_i64_le(out, base);
    let r = then_i32(r, out, len as u64, Ghost(start), Ghost(d0));
    let r = then_bytes(r, out, list.id_bytes.as_slice(), Ghost(start), Ghost(d1));
    then_bytes(r, out, transposed.as_slice(), Ghost(start), Ghost(d2))
}

/// Writes an index. The IDs of every list are sorted and stored as differences;
/// the codes are transposed.
pub fn write_index<W: SeekWrite>(index: &IVFPQIndex, out: &mut W) -> (result: Result<(), Error>)
    requires
        writable(index),
        old(out).output().position + file::index_bytes(
            index,
            old(out).output().position,
        ).len() <= u64::MAX,
    ensures
        stream::appended(
            old(out).output(),
            final(out).output(),
            result,
            file::index_bytes(index, old(out).output().position),
        ),
{
    let nlist: usize = index.nlist;
    let cs: usize = index.pq.code_size();
    let flags: u32 = flags_of(index, true);
    let ghost start = out.output();
    let ghost front = file::front_bytes(index, flags);
    let ghost data_at: int = start.position + front.len() + 16 * nlist;
    let ghost lists = file::lists_bytes(index, nlist as nat);
    let ghost table = file::table_bytes(
        file::list_starts(index, data_at, nlist as nat),
        file::list_counts(index, nlist as nat),
    );
    proof {
        file::lemma_table_len(
            file::list_starts(index, data_at, nlist as nat),
            file::list_counts(index, nlist as nat),
        );
    }
    assert(data_at + lists.len() <= u64::MAX);

    let mut sorted: Vec<SortedList> = Vec::new();
    let mut i: usize = 0;
    while i < nlist
        invariant
            i <= nlist,
            nlist == index.nlist,
            cs == index.pq.spec_code_size(),
            writable(index),
            sorted@.len() == i,
            forall|x: int|
                #![trigger sorted@[x]]
                0 <= x < i ==> sorted_from(
                    sorted@[x],
                    index.ids@[x]@,
                    index.codes@[x]@,
                    cs as nat,
                ),
        decreases nlist - i,
    {
        assert(index.ids@[i as int]@.len() * cs <= index.codes@[i as int]@.len());
        sorted.push(sort_list(&index.ids[i], &index.codes[i], cs));
        i = i + 1;
    }

    match write_front(index, flags, out) {
        Ok(_) => {},
        Err(e) => {
            proof {
                stream::lemma_appended_stop(start, out.output(), e, front, table);
                stream::lemma_appended_stop(start, out.output(), e, front + table, lists);
            }
            return Err(e);
        },
    }
    let ghost at_table = out.output();

    let mut starts: Vec<u64> = Vec::new();
    let mut counts: Vec<usize> = Vec::new();
    let mut current: u64 = out.pos() + nlist as u64 * 16;
    i = 0;
    while i < nlist
        invariant
            i <= nlist,
            nlist == index.nlist,
            cs == index.pq.spec_code_size(),
            sorted@.len() == nlist,
            forall|x: int|
                #![trigger sorted@[x]]
                0 <= x < nlist ==> sorted_from(
                    sorted@[x],
                    index.ids@[x]@,
                    index.codes@[x]@,
                    cs as nat,
                ),
            data_at + file::lists_bytes(index, nlist as nat).len() <= u64::MAX,
            current == data_at + file::lists_bytes(index, i as nat).len(),
            starts@.len() == i,
            counts@.len() == i,
            forall|x: int|
                0 <= x < i ==> starts@[x] == data_at + file::lists_bytes(index, x as nat).len(),
            forall|x: int| 0 <= x < i ==> counts@[x] == index.ids@[x]@.len(),
        decreases nlist - i,
    {
        let count: usize = sorted[i].ids.len();
        proof {
            assert(sorted_from(
                sorted@[i as int],
                index.ids@[i as int]@,
                index.codes@[i as int]@,
                cs as nat,
            ));
            file::lemma_sorted_ids(index.ids@[i as int]@);
            file::lemma_list_len(index.ids@[i as int]@, index.codes@[i as int]@, cs as nat);
            lemma_lists_prefix(index, (i + 1) as nat, nlist as nat);
        }
        starts.push(current);
        counts.push(count);
        if count > 0 {
            let id_len: usize = sorted[i].id_bytes.len();
            let code_len: usize = sorted[i].codes.len();
            current = current + 8 + 4 + id_len as u64 + code_len as u64;
        }
        i = i + 1;
    }
    assert(starts@.map_values(|v: u64| v as int) =~= file::list_starts(
        index,
        data_at,
        nlist as nat,
    ));
    assert(counts@.map_values(|v: usize| v as int) =~= file::list_counts(index, nlist as nat));

    let r = write_table(&starts, &counts, out);
    proof {
        stream::lemma_appended_twice(start, at_table, out.output(), front, r, table);
    }
    match r {
        Ok(_) => {},
        Err(e) => {
            proof {
                stream::lemma_appended_stop(start, out.output(), e, front + table, lists);
            }
            return Err(e);
        },
    }
    let ghost at_lists = out.output();

    assert(at_lists.written + Seq::<u8>::empty() =~= at_lists.written);
    i = 0;
    while i < nlist
        invariant
            i <= nlist,
            nlist == index.nlist,
            cs == index.pq.spec_code_size(),
            sorted@.len() == nlist,
            forall|x: int|
                #![trigger sorted@[x]]
                0 <= x < nlist ==> sorted_from(
                    sorted@[x],
                    index.ids@[x]@,
                    index.codes@[x]@,
                    cs as nat,
                ),
            lists == file::lists_bytes(index, nlist as nat),
            at_lists.position + lists.len() <= u64::MAX,
            stream::appended(
                at_lists,
                out.output(),
                Ok(()),
                file::lists_bytes(index, i as nat),
            ),
            stream::appended(start, at_lists, Ok(()), front + table),
            start == old(out).output(),
            front + table + lists == file::index_bytes(index, start.position),
        decreases nlist - i,
    {
        let ghost ids = index.ids@[i as int]@;
        let ghost codes = index.codes@[i as int]@;
        let ghost one = file::list_bytes(ids, codes, cs as nat);
        let ghost so_far = file::lists_bytes(index, i as nat);
        let ghost before = out.output();
        proof {
            assert(sorted_from(sorted@[i as int], ids, codes, cs as nat));
            lemma_lists_prefix(index, (i + 1) as nat, nlist as nat);
        }
        let r = write_list(&sorted[i], cs, out, Ghost(ids), Ghost(codes));
        proof {
            stream::lemma_appended_twice(at_lists, before, out.output(), so_far, r, one);
        }
        match r {
            Ok(_) => {},
            Err(e) => {
                proof {
                    let rest = lists.skip((so_far + one).len() as int);
                    lemma_lists_prefix(index, (i + 1) as nat, nlist as nat);
                    assert((so_far + one) + rest =~= lists);
                    stream::lemma_appended_stop(at_lists, out.output(), e, so_far + one, rest);
                    stream::lemma_appended_twice(
                        start,
                        at_lists,
                        out.output(),
                        front + table,
                        r,
                        lists,
                    );
                }
                return Err(e);
            },
        }
        i = i + 1;
    }
    proof {
        stream::lemma_appended_twice(
            start,
            at_lists,
            out.output(),
            front + table,
            Ok(()),
            lists,
        );
    }
    Ok(())
}

/// Writes a list as it is.
fn write_raw_list<W: SeekWrite>(ids: &Vec<i64>, codes: &Vec<u8>, out: &mut W) -> (result: Result<
    (),
    Error,
>)
    requires
        old(out).output().position + file::raw_id_bytes(ids@).len() + codes@.len() <= u64::MAX,
    ensures
        stream::appended(
            old(out).output(),
            final(out).output(),
            result,
            file::raw_id_bytes(ids@) + codes@,
        ),
{
    let ghost start = out.output();
    let mut r: Result<(), Error> = Ok(());
    let mut i: usize = 0;
    assert(start.written + Seq::<u8>::empty() =~= start.written);
    proof {
        file::lemma_raw_id_len(ids@);
    }
    while i < ids.len()
        invariant
            i <= ids@.len(),
            start.position + 8 * ids@.len() <= u64::MAX,
            stream::appended(start, out.output(), r, file::raw_id_bytes(ids@.take(i as int))),
        decreases ids@.len() - i,
    {
        proof {
            file::lemma_raw_id_len(ids@.take(i as int));
            assert(ids@.take(i + 1).drop_last() =~= ids@.take(i as int));
        }
        r = then_i64(
            r,
            out,
            ids[i],
            Ghost(start),
            Ghost(file::raw_id_bytes(ids@.take(i as int))),
        );
        i = i + 1;
    }
    assert(ids@.take(i as int) =~= ids@);
    then_bytes(r, out, codes.as_slice(), Ghost(start), Ghost(file::raw_id_bytes(ids@)))
}

/// Writes an index with IDs and codes as they are.
pub fn write_index_raw_ids<W: SeekWrite>(index: &IVFPQIndex, out: &mut W) -> (result: Result<
    (),
    Error,
>)
    requires
        index.nlist <= index.ids@.len(),
        index.nlist <= index.codes@.len(),
        old(out).output().position + file::raw_index_bytes(
            index,
            old(out).output().position,
        ).len() <= u64::MAX,
        old(out).output().position + file::front_bytes(
            index,
            file::index_flags(index, false),
        ).len() + 16 * index.nlist + file::raw_lists_len(index, index.nlist as nat) <= u64::MAX,
    ensures
        stream::appended(
            old(out).output(),
            final(out).output(),
            result,
            file::raw_index_bytes(index, old(out).output().position),
        ),
{
    let nlist: usize = index.nlist;
    let cs: usize = index.pq.code_size();
    let flags: u32 = flags_of(index, false);
    let ghost start = out.output();
    let ghost front = file::front_bytes(index, flags);
    let ghost data_at: int = start.position + front.len() + 16 * nlist;
    let ghost lists = file::raw_lists_bytes(index, nlist as nat);
    let ghost table = file::table_bytes(
        file::raw_list_starts(index, data_at, nlist as nat),
        file::list_counts(index, nlist as nat),
    );
    proof {
        file::lemma_table_len(
            file::raw_list_starts(index, data_at, nlist as nat),
            file::list_counts(index, nlist as nat),
        );
    }

    match write_front(index, flags, out) {
        Ok(_) => {},
        Err(e) => {
            proof {
                stream::lemma_appended_stop(start, out.output(), e, front, table);
                stream::lemma_appended_stop(start, out.output(), e, front + table, lists);
            }
            return Err(e);
        },
    }
    let ghost at_table = out.output();

    let mut starts: Vec<u64> = Vec::new();
    let mut counts: Vec<usize> = Vec::new();
    let mut current: u64 = out.pos() + nlist as u64 * 16;
    let mut i: usize = 0;
    while i < nlist
        invariant
            i <= nlist,
            nlist == index.nlist,
            nlist <= index.ids@.len(),
            cs == index.pq.spec_code_size(),
            data_at + file::raw_lists_len(index, nlist as nat) <= u64::MAX,
            0 <= data_at,
            current == data_at + file::raw_lists_len(index, i as nat),
            starts@.len() == i,
            counts@.len() == i,
            forall|x: int|
                0 <= x < i ==> starts@[x] == data_at + file::raw_lists_len(index, x as nat),
            forall|x: int| 0 <= x < i ==> counts@[x] == index.ids@[x]@.len(),
        decreases nlist - i,
    {
        let count: usize = index.ids[i].len();
        proof {
            lemma_raw_lists_grow(index, (i + 1) as nat, nlist as nat);
            assert(0 <= count * cs) by (nonlinear_arith);
        }
        starts.push(current);
        counts.push(count);
        current = current + (count as u64 * 8 + count as u64 * cs as u64);
        i = i + 1;
    }
    assert(starts@.map_values(|v: u64| v as int) =~= file::raw_list_starts(
        index,
        data_at,
        nlist as nat,
    ));
    assert(counts@.map_values(|v: usize| v as int) =~= file::list_counts(index, nlist as nat));

    let r = write_table(&starts, &counts, out);
    proof {
        stream::lemma_appended_twice(start, at_table, out.output(), front, r, table);
    }
    match r {
        Ok(_) => {},
        Err(e) => {
            proof {
                stream::lemma_appended_stop(start, out.output(), e, front + table, lists);
            }
            return Err(e);
        },
    }
    let ghost at_lists = out.output();

    assert(at_lists.written + Seq::<u8>::empty() =~= at_lists.written);
    i = 0;
    while i < nlist
        invariant
            i <= nlist,
            nlist == index.nlist,
            nlist <= index.ids@.len(),
            nlist <= index.codes@.len(),
            lists == file::raw_lists_bytes(index, nlist as nat),
            at_lists.position + lists.len() <= u64::MAX,
            stream::appended(
                at_lists,
                out.output(),
                Ok(()),
                file::raw_lists_bytes(index, i as nat),
            ),
            stream::appended(start, at_lists, Ok(()), front + table),
            start == old(out).output(),
            front + table + lists == file::raw_index_bytes(index, start.position),
        decreases nlist - i,
    {
        let ghost ids = index.ids@[i as int]@;
        let ghost codes = index.codes@[i as int]@;
        let ghost one = file::raw_id_bytes(ids) + codes;
        let ghost so_far = file::raw_lists_bytes(index, i as nat);
        let ghost before = out.output();
        proof {
            lemma_raw_lists_prefix(index, (i + 1) as nat, nlist as nat);
            assert(so_far + one =~= file::raw_lists_bytes(index, (i + 1) as nat));
        }
        let r = write_raw_list(&index.ids[i], &index.codes[i], out);
        proof {
            stream::lemma_appended_twice(at_lists, before, out.output(), so_far, r, one);
        }
        match r {
            Ok(_) => {},
            Err(e) => {
                proof {
                    let rest = lists.skip((so_far + one).len() as int);
                    assert((so_far + one) + rest =~= lists);
                    stream::lemma_appended_stop(at_lists, out.output(), e, so_far + one, rest);
                    stream::lemma_appended_twice(
                        start,
                        at_lists,
                        out.output(),
                        front + table,
                        r,
                        lists,
                    );
                }
                return Err(e);
            },
        }
        i = i + 1;
    }
    proof {
        stream::lemma_appended_twice(
            start,
            at_lists,
            out.output(),
            front + table,
            Ok(()),
            lists,
        );
    }
    Ok(())
}

proof fn lemma_raw_lists_prefix(index: &IVFPQIndex, i: nat, n: nat)
    requires
        i <= n,
    ensures
        file::raw_lists_bytes(index, i).is_prefix_of(file::raw_lists_bytes(index, n)),
        file::raw_lists_bytes(index, i).len() <= file::raw_lists_bytes(index, n).len(),
    decreases n,
{
    if i < n {
        lemma_raw_lists_prefix(index, i, (n - 1) as nat);
        let a = file::raw_lists_bytes(index, i);
        let b = file::raw_lists_bytes(index, (n - 1) as nat);
        let c = file::raw_lists_bytes(index, n);
        assert(b =~= c.subrange(0, b.len() as int));
        assert forall|x: int| 0 <= x < a.len() implies a[x] == c[x] by {
            assert(a[x] == b.subrange(0, a.len() as int)[x]);
            assert(b[x] == c.subrange(0, b.len() as int)[x]);
        }
        assert(a =~= c.subrange(0, a.len() as int));
    } else {
        let a = file::raw_lists_bytes(index, i);
        assert(a =~= a.subrange(0, a.len() as int));
    }
}

proof fn lemma_raw_lists_grow(index: &IVFPQIndex, i: nat, n: nat)
    requires
        i <= n,
    ensures
        file::raw_lists_len(index, i) <= file::raw_lists_len(index, n),
    decreases n,
{
    if i < n {
        lemma_raw_lists_grow(index, i, (n - 1) as nat);
    }
}

proof fn lemma_lists_prefix(index: &IVFPQIndex, i: nat, n: nat)
    requires
        i <= n,
    ensures
        file::lists_bytes(index, i).is_prefix_of(file::lists_bytes(index, n)),
        file::lists_bytes(index, i).len() <= file::lists_bytes(index, n).len(),
    decreases n,
{
    if i < n {
        lemma_lists_prefix(index, i, (n - 1) as nat);
        let a = file::lists_bytes(index, i);
        let b = file::lists_bytes(index, (n - 1) as nat);
        let c = file::lists_bytes(index, n);
        assert(b =~= c.subrange(0, b.len() as int));
        assert(a =~= c.subrange(0, a.len() as int)) by {
            assert forall|x: int| 0 <= x < a.len() implies a[x] == c[x] by {
                assert(a[x] == b.subrange(0, a.len() as int)[x]);
                assert(b[x] == c.subrange(0, b.len() as int)[x]);
            }
        }
    } else {
        let a = file::lists_bytes(index, i);
        assert(a =~= a.subrange(0, a.len() as int));
    }
}

/// The most bytes that the first `n` lists can take, in either format.
pub open spec fn lists_room(index: &IVFPQIndex, n: nat) -> nat
    decreases n,
{
    if n == 0 {
        0
    } else {
        let count = index.ids@[n - 1]@.len();
        lists_room(index, (n - 1) as nat) + 12 + 10 * count + count * index.pq.spec_code_size()
    }
}

/// The most numbers that stand in front of the table.
pub open spec fn front_numbers(index: &IVFPQIndex) -> nat {
    (match index.opq {
        Some(opq) => opq.rotation@.len(),
        None => 0,
    }) + index.quantizer_centroids@.len() + index.pq.centroids@.len()
}

/// The most bytes that the file of an index can take, in either format.
pub open spec fn file_room(index: &IVFPQIndex) -> nat {
    64 + 4 * front_numbers(index) + 16 * index.nlist as nat + lists_room(
        index,
        index.nlist as nat,
    )
}

/// No file of an index takes more than its room.
pub proof fn lemma_file_room(index: &IVFPQIndex, pos: nat)
    requires
        index.wf(),
    ensures
        file::index_bytes(index, pos).len() <= file_room(index),
        file::raw_index_bytes(index, pos).len() <= file_room(index),
        file::front_bytes(index, file::index_flags(index, false)).len() + 16 * index.nlist
            + file::raw_lists_len(index, index.nlist as nat) <= file_room(index),
{
    let nlist = index.nlist as nat;
    let counts = file::list_counts(index, nlist);
    lemma_front_len(index, file::index_flags(index, true));
    lemma_front_len(index, file::index_flags(index, false));
    let front = file::front_bytes(index, file::index_flags(index, true));
    let raw_front = file::front_bytes(index, file::index_flags(index, false));
    file::lemma_table_len(
        file::list_starts(index, (pos + front.len() + 16 * nlist) as int, nlist),
        counts,
    );
    file::lemma_table_len(
        file::raw_list_starts(index, (pos + raw_front.len() + 16 * nlist) as int, nlist),
        counts,
    );
    lemma_lists_room(index, nlist);
}

proof fn lemma_front_len(index: &IVFPQIndex, flags: u32)
    ensures
        file::front_bytes(index, flags).len() == 64 + 4 * front_numbers(index),
{
    file::lemma_header_len(index, flags);
    codec::lemma_words_len(index.quantizer_centroids@);
    codec::lemma_words_len(index.pq.centroids@);
    if let Some(opq) = index.opq {
        codec::lemma_words_len(opq.rotation@);
    }
}

proof fn lemma_lists_room(index: &IVFPQIndex, n: nat)
    requires
        index.wf(),
        n <= index.nlist,
    ensures
        file::lists_bytes(index, n).len() <= lists_room(index, n),
        file::raw_lists_bytes(index, n).len() <= lists_room(index, n),
        file::raw_lists_len(index, n) <= lists_room(index, n),
    decreases n,
{
    if n > 0 {
        lemma_lists_room(index, (n - 1) as nat);
        let ids = index.ids@[n - 1]@;
        let codes = index.codes@[n - 1]@;
        let cs = index.pq.spec_code_size();
        assert(codes.len() == ids.len() * cs);
        file::lemma_list_len(ids, codes, cs);
        file::lemma_raw_id_len(ids);
        file::lemma_sorted_ids(ids);
        varint::lemma_delta_bytes_len(file::sorted_ids(ids)[0] as int, file::sorted_ids(ids));
    }
}

proof fn lemma_lists_room_grows(index: &IVFPQIndex, i: nat, n: nat)
    requires
        i <= n,
    ensures
        lists_room(index, i) <= lists_room(index, n),
    decreases n,
{
    if i < n {
        lemma_lists_room_grows(index, i, (n - 1) as nat);
    }
}

/// `total + a * b`, if that fits.
fn plus(total: u64, a: u64, b: u64) -> (sum: Option<u64>)
    ensures
        sum == if total + a * b <= u64::MAX {
            Some((total + a * b) as u64)
        } else {
            None::<u64>
        },
{
    match a.checked_mul(b) {
        Some(product) => total.checked_add(product),
        None => None,
    }
}

/// Whether there is room for the file of an index, in either format, behind
/// `pos` bytes.
pub fn fits(index: &IVFPQIndex, pos: u64) -> (yes: bool)
    requires
        index.wf(),
    ensures
        yes == (pos + file_room(index) <= u64::MAX),
        yes ==> writable(index) && pos + file::index_bytes(index, pos as nat).len() <= u64::MAX,
        yes ==> pos + file::raw_index_bytes(index, pos as nat).len() <= u64::MAX,
        yes ==> pos + file::front_bytes(index, file::index_flags(index, false)).len() + 16
            * index.nlist + file::raw_lists_len(index, index.nlist as nat) <= u64::MAX,
{
    proof {
        lemma_file_room(index, pos as nat);
    }
    let rotation: usize = match &index.opq {
        Some(opq) => opq.rotation.len(),
        None => 0,
    };
    let total: u64 = match plus(pos, 64, 1) {
        Some(total) => total,
        None => {
            return false;
        },
    };
    let total: u64 = match plus(total, 4, rotation as u64) {
        Some(total) => total,
        None => {
            return false;
        },
    };
    let total: u64 = match plus(total, 4, index.quantizer_centroids.len() as u64) {
        Some(total) => total,
        None => {
            return false;
        },
    };
    let total: u64 = match plus(total, 4, index.pq.centroids.len() as u64) {
        Some(total) => total,
        None => {
            return false;
        },
    };
    let mut total: u64 = match plus(total, 16, index.nlist as u64) {
        Some(total) => total,
        None => {
            return false;
        },
    };
    let ghost front: int = pos + 64 + 4 * front_numbers(index) + 16 * index.nlist;
    let cs: usize = index.pq.code_size();
    let mut i: usize = 0;
    while i < index.nlist
        invariant
            i <= index.nlist,
            index.wf(),
            cs == index.pq.spec_code_size(),
            front + lists_room(index, index.nlist as nat) == pos + file_room(index),
            total == front + lists_room(index, i as nat),
        decreases index.nlist - i,
    {
        let count: usize = index.ids[i].len();
        proof {
            lemma_lists_room_grows(index, (i + 1) as nat, index.nlist as nat);
            assert(count * cs >= 0) by (nonlinear_arith)
                requires
                    count >= 0,
                    cs >= 0,
            ;
        }
        let with_front: u64 = match plus(total, 12, 1) {
            Some(total) => total,
            None => {
                return false;
            },
        };
        let with_ids: u64 = match plus(with_front, 10, count as u64) {
            Some(total) => total,
            None => {
                return false;
            },
        };
        total = match plus(with_ids, count as u64, cs as u64) {
            Some(total) => total,
            None => {
                return false;
            },
        };
        i = i + 1;
    }
    true
}

} // verus!
