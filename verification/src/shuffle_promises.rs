//! What a shuffler returns and writes, in terms of its arguments and of what was
//! written before.

use crate::byte_laws;
use crate::error::{Error, IoFailure};
use crate::shuffle_laws;
use crate::shuffler;
use crate::shuffler::DiskShuffler;
use crate::stream::{Output, SeekRead, SeekWrite};
use crate::stream_laws;
use vstd::prelude::*;

verus! {

/// A file starts with the records of `log`, one behind the other: of each the
/// partition in four bytes, the row in eight, and every component in four.
pub open spec fn holds_log(c: Seq<u8>, dim: nat, log: Seq<(u32, i64, Seq<u32>)>) -> bool {
    &&& log.len() * (12 + 4 * dim) <= c.len()
    &&& forall|i: int| #![trigger log[i]] 0 <= i < log.len() ==> {
        let o: int = i * (12 + 4 * dim);
        &&& log[i].2.len() == dim
        &&& log[i].0 == byte_laws::four(c, o)
        &&& log[i].1 as int % 0x1_0000_0000_0000_0000 == byte_laws::eight(c, o + 4)
        &&& forall|x: int|
            #![trigger log[i].2[x]]
            0 <= x < dim ==> log[i].2[x] == byte_laws::four(c, o + 12 + 4 * x)
    }
}

/// A partition gives back the rows and the vectors that were written to it, in
/// their order and nothing else, as many as its count says.
pub proof fn lemma_read_partition<R: SeekRead>(
    shuffler: &DiskShuffler,
    c: Seq<u8>,
    reliable: bool,
    p: u32,
    result: Result<(Vec<i64>, Vec<u32>), Error>,
    log: Seq<(u32, i64, Seq<u32>)>,
)
    requires
        exists|r: &mut R|
            #[trigger] call_ensures(DiskShuffler::read_partition::<R>, (shuffler, r, p), result)
                && r.contents() == c && r.reliable() == reliable,
        holds_log(c, shuffler.dim as nat, log),
        shuffler.count == log.len(),
        p < shuffler.partition_counts@.len(),
        shuffler.partition_counts@[p as int] == log.filter(
            |r: (u32, i64, Seq<u32>)| r.0 == p,
        ).len(),
    ensures
        reliable ==> result is Ok,
        result matches Ok((rows, vectors)) ==> {
            let own = log.filter(|r: (u32, i64, Seq<u32>)| r.0 == p);
            &&& rows@ == own.map_values(|r: (u32, i64, Seq<u32>)| r.1)
            &&& vectors@ == own.map_values(|r: (u32, i64, Seq<u32>)| r.2).flatten()
            &&& rows@.len() == shuffler.partition_counts@[p as int]
            &&& vectors@.len() == shuffler.partition_counts@[p as int] * shuffler.dim
        },
        result matches Err(e) ==> e is Io,
{
    shuffle_laws::lemma_partition_comes_back(shuffler, c, log, p);
}

/// All partitions give back what was written to them, each in its order.
pub proof fn lemma_read_all_partitions<R: SeekRead>(
    shuffler: &DiskShuffler,
    c: Seq<u8>,
    reliable: bool,
    result: Result<(Vec<Vec<i64>>, Vec<Vec<u32>>), Error>,
    log: Seq<(u32, i64, Seq<u32>)>,
    p: int,
)
    requires
        exists|r: &mut R|
            #[trigger] call_ensures(DiskShuffler::read_all_partitions::<R>, (shuffler, r), result)
                && r.contents() == c && r.reliable() == reliable,
        holds_log(c, shuffler.dim as nat, log),
        shuffler.count == log.len(),
    ensures
        reliable ==> result is Ok,
        result matches Ok((rows, vectors)) ==> {
            let own = log.filter(|r: (u32, i64, Seq<u32>)| r.0 == p);
            &&& rows@.len() == shuffler.partition_counts@.len()
            &&& vectors@.len() == shuffler.partition_counts@.len()
            &&& 0 <= p < rows@.len() ==> rows@[p]@ == own.map_values(
                |r: (u32, i64, Seq<u32>)| r.1,
            )
            &&& 0 <= p < rows@.len() ==> vectors@[p]@ == own.map_values(
                |r: (u32, i64, Seq<u32>)| r.2,
            ).flatten()
        },
        result matches Err(e) ==> e is Io,
{
    shuffle_laws::lemma_partitions_come_back(shuffler, c, log, p);
    if let Ok((rows, vectors)) = result {
        let seen = shuffler::partitions_view(result)->Ok_0;
        if 0 <= p < rows@.len() {
            assert(seen.0[p] == rows@[p]@);
            assert(seen.1[p] == vectors@[p]@);
        }
    }
}

/// A partition to which nothing was written gives nothing back, whatever the
/// file holds; a file that ends before the last record is refused.
pub proof fn lemma_read_partition_short<R: SeekRead>(
    shuffler: &DiskShuffler,
    c: Seq<u8>,
    reliable: bool,
    p: u32,
    result: Result<(Vec<i64>, Vec<u32>), Error>,
)
    requires
        exists|r: &mut R|
            #[trigger] call_ensures(DiskShuffler::read_partition::<R>, (shuffler, r, p), result)
                && r.contents() == c && r.reliable() == reliable,
        p < shuffler.partition_counts@.len(),
    ensures
        reliable && shuffler.partition_counts@[p as int] == 0 ==> (result matches Ok((
            rows,
            vectors,
        )) && rows@.len() == 0 && vectors@.len() == 0),
        shuffler.partition_counts@[p as int] > 0 && c.len() < shuffler.count * (12 + 4
            * shuffler.dim) ==> result is Err,
        reliable && shuffler.partition_counts@[p as int] > 0 && c.len() < shuffler.count * (12 + 4
            * shuffler.dim) ==> result == Err::<(Vec<i64>, Vec<u32>), Error>(
            Error::Io(IoFailure::UnexpectedEof),
        ),
{
    shuffle_laws::lemma_partition_short(shuffler, c, p);
}

/// A vector that is written is counted in its partition and nowhere else, and its
/// record stands behind what was written before. One that has the wrong length
/// or names no partition is refused, and nothing changes.
pub proof fn lemma_write_vector<W: SeekWrite>(
    before: DiskShuffler,
    after: DiskShuffler,
    out_before: Output,
    out_after: Output,
    p: u32,
    row: i64,
    vector: &[u32],
    result: Result<(), Error>,
    i: int,
)
    requires
        exists|s: &mut DiskShuffler, o: &mut W|
            #[trigger] call_ensures(DiskShuffler::write_vector::<W>, (s, o, p, row, vector), result)
                && *s == before && *final(s) == after && o.output() == out_before
                && final(o).output() == out_after,
    ensures
        after.dim == before.dim,
        after.partition_counts@.len() == before.partition_counts@.len(),
        vector@.len() != before.dim ==> result == Err::<(), Error>(
            Error::VectorLength { len: vector@.len() as usize, dim: before.dim },
        ),
        vector@.len() == before.dim && p >= before.partition_counts@.len() ==> result == Err::<
            (),
            Error,
        >(
            Error::PartitionOutOfRange {
                partition_id: p,
                nlist: before.partition_counts@.len() as usize,
            },
        ),
        (vector@.len() != before.dim || p >= before.partition_counts@.len()) ==> out_after
            == out_before,
        vector@.len() == before.dim && p < before.partition_counts@.len() && out_before.reliable
            ==> result is Ok,
        result is Err ==> after.count == before.count && after.partition_counts@
            == before.partition_counts@,
        result is Ok ==> {
            let n: int = out_before.written.len() as int;
            &&& after.count == before.count + 1
            &&& after.partition_counts@.len() == before.partition_counts@.len()
            &&& after.partition_counts@[p as int] == (before.partition_counts@[p as int]
                + 1) as usize
            &&& 0 <= i < before.partition_counts@.len() && i != p ==> after.partition_counts@[i]
                == before.partition_counts@[i]
            &&& out_after.written.len() == n + 12 + 4 * vector@.len()
            &&& out_after.written.take(n) == out_before.written
            &&& out_after.position == out_before.position + 12 + 4 * vector@.len()
            &&& byte_laws::four(out_after.written, n) == p
            &&& byte_laws::eight(out_after.written, n + 4) == row as int % 0x1_0000_0000_0000_0000
            &&& 0 <= i < vector@.len() ==> byte_laws::four(out_after.written, n + 12 + 4 * i)
                == vector@[i]
        },
{
    let b = shuffler::record_bytes(p, row, vector@);
    shuffle_laws::lemma_record_layout(p, row, vector@, i);
    assert(vector@.len() == vector.len());
    if result is Ok {
        let n: int = out_before.written.len() as int;
        let w = out_after.written;
        stream_laws::lemma_appended(out_before, out_after, result, b);
        assert(w.take(n) =~= out_before.written);
        assert forall|x: int| 0 <= x < b.len() implies w[n + x] == #[trigger] b[x] by {}
        lemma_four_at(w, b, n, 0);
        lemma_four_at(w, b, n, 4);
        lemma_four_at(w, b, n, 8);
        if 0 <= i < vector@.len() {
            lemma_four_at(w, b, n, 12 + 4 * i);
        }
    }
}

proof fn lemma_four_at(w: Seq<u8>, b: Seq<u8>, n: int, x: int)
    requires
        0 <= x,
        x + 4 <= b.len(),
        forall|y: int| 0 <= y < b.len() ==> w[n + y] == #[trigger] b[y],
    ensures
        byte_laws::four(w, n + x) == byte_laws::four(b, x),
{
    assert(w[n + x] == b[x]);
    assert(w[n + (x + 1)] == b[x + 1]);
    assert(w[n + (x + 2)] == b[x + 2]);
    assert(w[n + (x + 3)] == b[x + 3]);
}

/// A file that holds what was written holds one record more after it was
/// written: what is read back is what was written, over any number of writes.
pub proof fn lemma_log_grows(
    c: Seq<u8>,
    more: Seq<u8>,
    dim: nat,
    log: Seq<(u32, i64, Seq<u32>)>,
    record: (u32, i64, Seq<u32>),
)
    requires
        holds_log(c, dim, log),
        c.len() == log.len() * (12 + 4 * dim),
        record.2.len() == dim,
        more.len() == c.len() + 12 + 4 * dim,
        more.take(c.len() as int) == c,
        byte_laws::four(more, c.len() as int) == record.0,
        byte_laws::eight(more, c.len() as int + 4) == record.1 as int % 0x1_0000_0000_0000_0000,
        forall|x: int|
            #![trigger record.2[x]]
            0 <= x < dim ==> record.2[x] == byte_laws::four(more, c.len() + 12 + 4 * x),
    ensures
        holds_log(more, dim, log.push(record)),
        more.len() == log.push(record).len() * (12 + 4 * dim),
{
    let n: int = log.len() as int;
    let size: int = (12 + 4 * dim) as int;
    assert((n + 1) * size == n * size + size) by (nonlinear_arith);
    let all = log.push(record);
    assert forall|y: int| 0 <= y < c.len() implies more[0 + y] == #[trigger] c[y] by {
        assert(more.take(c.len() as int)[y] == more[y]);
    }
    assert forall|i: int| #![trigger all[i]] 0 <= i < all.len() implies {
        let o: int = i * (12 + 4 * dim);
        &&& all[i].2.len() == dim
        &&& all[i].0 == byte_laws::four(more, o)
        &&& all[i].1 as int % 0x1_0000_0000_0000_0000 == byte_laws::eight(more, o + 4)
        &&& forall|x: int|
            #![trigger all[i].2[x]]
            0 <= x < dim ==> all[i].2[x] == byte_laws::four(more, o + 12 + 4 * x)
    } by {
        let o: int = i * size;
        if i < n {
            assert(all[i] == log[i]);
            assert(o + size <= n * size && 0 <= o) by (nonlinear_arith)
                requires
                    0 <= i,
                    i + 1 <= n,
                    0 < size,
                    o == i * size,
            ;
            lemma_four_at(more, c, 0, o);
            lemma_four_at(more, c, 0, o + 4);
            lemma_four_at(more, c, 0, o + 8);
            assert forall|x: int| #![trigger all[i].2[x]] 0 <= x < dim implies all[i].2[x]
                == byte_laws::four(more, o + 12 + 4 * x) by {
                lemma_four_at(more, c, 0, o + 12 + 4 * x);
                assert(log[i].2[x] == byte_laws::four(c, o + 12 + 4 * x));
            }
        }
    }
}

/// A new shuffler has counted nothing.
pub proof fn lemma_new(dim: usize, nlist: usize, shuffler: DiskShuffler, p: int)
    requires
        call_ensures(DiskShuffler::new, (dim, nlist), shuffler),
    ensures
        shuffler.dim == dim,
        shuffler.count == 0,
        shuffler.writing,
        shuffler.record_size == 12 + 4 * dim,
        shuffler.partition_counts@.len() == nlist,
        0 <= p < nlist ==> shuffler.partition_counts@[p] == 0,
{
}

/// The end of the writing changes no count, and returns them all.
pub proof fn lemma_finish_write(
    before: DiskShuffler,
    after: DiskShuffler,
    result: Result<Vec<usize>, Error>,
)
    requires
        exists|s: &mut DiskShuffler|
            #[trigger] call_ensures(DiskShuffler::finish_write, (s,), result) && *s == before
                && *final(s) == after,
    ensures
        !after.writing,
        after.dim == before.dim,
        after.count == before.count,
        after.record_size == before.record_size,
        after.partition_counts == before.partition_counts,
        result matches Ok(counts) && counts@ == before.partition_counts@,
{
}

/// The counts that are asked for are those of the shuffler.
pub proof fn lemma_counts(shuffler: &DiskShuffler, count: usize, counts: &[usize])
    ensures
        call_ensures(DiskShuffler::total_count, (shuffler,), count) ==> count == shuffler.count,
        call_ensures(DiskShuffler::partition_counts, (shuffler,), counts) ==> counts@
            == shuffler.partition_counts@,
{
}

/// A vector is checked before it is written.
pub proof fn lemma_check_vector(
    shuffler: &DiskShuffler,
    p: u32,
    len: usize,
    result: Result<(), Error>,
)
    requires
        call_ensures(DiskShuffler::check_vector, (shuffler, p, len), result),
    ensures
        result is Ok <==> len == shuffler.dim && p < shuffler.partition_counts@.len(),
        len != shuffler.dim ==> result == Err::<(), Error>(
            Error::VectorLength { len, dim: shuffler.dim },
        ),
        len == shuffler.dim && p >= shuffler.partition_counts@.len() ==> result == Err::<
            (),
            Error,
        >(
            Error::PartitionOutOfRange {
                partition_id: p,
                nlist: shuffler.partition_counts@.len() as usize,
            },
        ),
{
}

/// The stored records are checked: each of them names a partition that exists.
pub proof fn lemma_check_records<R: SeekRead>(
    shuffler: &DiskShuffler,
    c: Seq<u8>,
    result: Result<bool, Error>,
)
    requires
        exists|r: &mut R|
            #[trigger] call_ensures(DiskShuffler::check_records::<R>, (shuffler, r), result)
                && r.contents() == c && r.reliable(),
    ensures
        shuffler.count * (12 + 4 * shuffler.dim) <= c.len() ==> result is Ok,
        result matches Ok(yes) ==> (yes <==> forall|i: int|
            0 <= i < shuffler.count && (i + 1) * (12 + 4 * shuffler.dim) <= c.len()
                ==> #[trigger] byte_laws::four(c, i * (12 + 4 * shuffler.dim))
                < shuffler.partition_counts@.len()),
{
    shuffle_laws::lemma_records(
        c,
        shuffler.dim as nat,
        shuffler.count as nat,
        shuffler.partition_counts@.len(),
    );
}

} // verus!
