//! What comes back from a shuffler, in terms of what was written to it.

use crate::byte_laws;
use crate::codec;
use crate::error::{Error, IoFailure};
use crate::shuffler;
use crate::shuffler::DiskShuffler;
use vstd::prelude::*;

verus! {

/// A record is twelve bytes and four for every component: the partition, the
/// row and the components, each lowest byte first.
pub proof fn lemma_record_layout(partition_id: u32, row_id: i64, vector: Seq<u32>, i: int)
    ensures
        ({
            let r = shuffler::record_bytes(partition_id, row_id, vector);
            &&& r.len() == 12 + 4 * vector.len()
            &&& partition_id == r[0] + 0x100 * r[1] + 0x1_0000 * r[2] + 0x100_0000 * r[3]
            &&& (row_id as int) % 0x1_0000_0000_0000_0000 == r[4] + 0x100 * r[5] + 0x1_0000 * r[6]
                + 0x100_0000 * r[7] + 0x1_0000_0000 * r[8] + 0x100_0000_0000 * r[9]
                + 0x1_0000_0000_0000 * r[10] + 0x100_0000_0000_0000 * r[11]
            &&& 0 <= i < vector.len() ==> vector[i] == r[12 + 4 * i] + 0x100 * r[12 + 4 * i + 1]
                + 0x1_0000 * r[12 + 4 * i + 2] + 0x100_0000 * r[12 + 4 * i + 3]
        }),
{
    byte_laws::lemma_word_bytes(partition_id as int);
    byte_laws::lemma_word_bytes(row_id as int);
    byte_laws::lemma_words(vector, Seq::empty(), i);
}

/// A record is where its number says, and is read by its bytes.
proof fn lemma_record_read(c: Seq<u8>, dim: nat, i: nat, pid: u32, row: i64, vector: Seq<u32>)
    requires
        vector.len() == dim,
        (i + 1) * (12 + 4 * dim) <= c.len(),
        ({
            let o: int = (i * (12 + 4 * dim)) as int;
            &&& pid == c[o] + 0x100 * c[o + 1] + 0x1_0000 * c[o + 2] + 0x100_0000 * c[o + 3]
            &&& (row as int) % 0x1_0000_0000_0000_0000 == c[o + 4] + 0x100 * c[o + 5] + 0x1_0000
                * c[o + 6] + 0x100_0000 * c[o + 7] + 0x1_0000_0000 * c[o + 8] + 0x100_0000_0000
                * c[o + 9] + 0x1_0000_0000_0000 * c[o + 10] + 0x100_0000_0000_0000 * c[o + 11]
            &&& forall|x: int|
                #![trigger vector[x]]
                0 <= x < dim ==> vector[x] == c[o + 12 + 4 * x] + 0x100 * c[o + 12 + 4 * x + 1]
                    + 0x1_0000 * c[o + 12 + 4 * x + 2] + 0x100_0000 * c[o + 12 + 4 * x + 3]
        }),
    ensures
        shuffler::record_partition(shuffler::record_at(c, dim, i)) == pid,
        shuffler::record_row(shuffler::record_at(c, dim, i)) == row,
        shuffler::record_vector(shuffler::record_at(c, dim, i)) == vector,
{
    let o: int = (i * (12 + 4 * dim)) as int;
    let r = shuffler::record_at(c, dim, i);
    assert((i + 1) * (12 + 4 * dim) == i * (12 + 4 * dim) + (12 + 4 * dim)) by (nonlinear_arith);
    assert(r =~= c.subrange(o, o + 12 + 4 * dim));
    byte_laws::lemma_le_value(r.subrange(0, 4));
    byte_laws::lemma_le_value(r.subrange(4, 12));
    let b = r.skip(12);
    assert forall|x: int| 0 <= x < dim implies codec::word_values(b)[x] == vector[x] by {
        byte_laws::lemma_words(Seq::empty(), b, x);
    }
    assert(codec::word_values(b) =~= vector);
}

/// The records of a partition, read from a file that holds `log` record by
/// record, are those of `log`.
proof fn lemma_records_read(
    c: Seq<u8>,
    dim: nat,
    log: Seq<(u32, i64, Seq<u32>)>,
    partition: int,
)
    requires
        log.len() * (12 + 4 * dim) <= c.len(),
        forall|i: int| #![trigger log[i]] 0 <= i < log.len() ==> {
            let o: int = i * (12 + 4 * dim);
            let (pid, row, vector) = log[i];
            &&& vector.len() == dim
            &&& pid == c[o] + 0x100 * c[o + 1] + 0x1_0000 * c[o + 2] + 0x100_0000 * c[o + 3]
            &&& (row as int) % 0x1_0000_0000_0000_0000 == c[o + 4] + 0x100 * c[o + 5] + 0x1_0000
                * c[o + 6] + 0x100_0000 * c[o + 7] + 0x1_0000_0000 * c[o + 8] + 0x100_0000_0000
                * c[o + 9] + 0x1_0000_0000_0000 * c[o + 10] + 0x100_0000_0000_0000 * c[o + 11]
            &&& forall|x: int|
                #![trigger vector[x]]
                0 <= x < dim ==> vector[x] == c[o + 12 + 4 * x] + 0x100 * c[o + 12 + 4 * x + 1]
                    + 0x1_0000 * c[o + 12 + 4 * x + 2] + 0x100_0000 * c[o + 12 + 4 * x + 3]
        },
    ensures
        shuffler::holds(c, dim, log.len()),
        ({
            let own = log.filter(|r: (u32, i64, Seq<u32>)| r.0 == partition);
            &&& shuffler::partition_rows(c, dim, log.len(), partition) == own.map_values(
                |r: (u32, i64, Seq<u32>)| r.1,
            )
            &&& shuffler::partition_vectors(c, dim, log.len(), partition) == own.map_values(
                |r: (u32, i64, Seq<u32>)| r.2,
            ).flatten()
        }),
    decreases log.len(),
{
    reveal(Seq::filter);
    let mine = |r: (u32, i64, Seq<u32>)| r.0 == partition;
    let row_of = |r: (u32, i64, Seq<u32>)| r.1;
    let vector_of = |r: (u32, i64, Seq<u32>)| r.2;
    let own = log.filter(mine);
    if log.len() > 0 {
        let front = log.drop_last();
        let n: nat = front.len();
        assert(log.len() * (12 + 4 * dim) == (n + 1) * (12 + 4 * dim));
        assert((n + 1) * (12 + 4 * dim) == n * (12 + 4 * dim) + (12 + 4 * dim))
            by (nonlinear_arith);
        assert forall|i: int| #![trigger front[i]] 0 <= i < front.len() implies front[i]
            == log[i] by {}
        lemma_records_read(c, dim, front, partition);
        assert(log[n as int] == log.last());
        let (pid, row, vector) = log.last();
        lemma_record_read(c, dim, n, pid, row, vector);
        let before = front.filter(mine);
        if mine(log.last()) {
            assert(own.map_values(row_of) =~= before.map_values(row_of).push(row));
            assert(own.map_values(vector_of) =~= before.map_values(vector_of).push(vector));
            before.map_values(vector_of).lemma_flatten_push(vector);
        }
    } else {
        assert(own.map_values(row_of) =~= Seq::empty());
        assert(own.map_values(vector_of) =~= Seq::empty());
        assert(0 * (12 + 4 * dim) == 0) by (nonlinear_arith);
    }
}

/// What a partition gives back: if the file holds the records of `log`, each as
/// twelve bytes and four for every component, and the shuffler has counted
/// them, the rows and the vectors that were written to the partition, in their
/// order and nothing else, as many as its count says.
pub proof fn lemma_partition_comes_back(
    shuffler: &DiskShuffler,
    c: Seq<u8>,
    log: Seq<(u32, i64, Seq<u32>)>,
    p: u32,
)
    requires
        shuffler.count == log.len(),
        p < shuffler.partition_counts@.len(),
        shuffler.partition_counts@[p as int] == log.filter(
            |r: (u32, i64, Seq<u32>)| r.0 == p,
        ).len(),
        log.len() * (12 + 4 * shuffler.dim) <= c.len(),
        forall|i: int| #![trigger log[i]] 0 <= i < log.len() ==> {
            let o: int = i * (12 + 4 * shuffler.dim);
            let (pid, row, vector) = log[i];
            &&& vector.len() == shuffler.dim
            &&& pid == c[o] + 0x100 * c[o + 1] + 0x1_0000 * c[o + 2] + 0x100_0000 * c[o + 3]
            &&& (row as int) % 0x1_0000_0000_0000_0000 == c[o + 4] + 0x100 * c[o + 5] + 0x1_0000
                * c[o + 6] + 0x100_0000 * c[o + 7] + 0x1_0000_0000 * c[o + 8] + 0x100_0000_0000
                * c[o + 9] + 0x1_0000_0000_0000 * c[o + 10] + 0x100_0000_0000_0000 * c[o + 11]
            &&& forall|x: int|
                #![trigger vector[x]]
                0 <= x < shuffler.dim ==> vector[x] == c[o + 12 + 4 * x] + 0x100 * c[o + 12 + 4 * x
                    + 1] + 0x1_0000 * c[o + 12 + 4 * x + 2] + 0x100_0000 * c[o + 12 + 4 * x + 3]
        },
    ensures
        ({
            let own = log.filter(|r: (u32, i64, Seq<u32>)| r.0 == p);
            let rows = own.map_values(|r: (u32, i64, Seq<u32>)| r.1);
            let vectors = own.map_values(|r: (u32, i64, Seq<u32>)| r.2).flatten();
            &&& shuffler.partition_result(c, p) == Ok::<(Seq<i64>, Seq<u32>), Error>(
                (rows, vectors),
            )
            &&& rows.len() == shuffler.partition_counts@[p as int]
            &&& vectors.len() == shuffler.partition_counts@[p as int] * shuffler.dim
        }),
{
    let mine = |r: (u32, i64, Seq<u32>)| r.0 == p;
    let own = log.filter(mine);
    let rows = own.map_values(|r: (u32, i64, Seq<u32>)| r.1);
    let nested = own.map_values(|r: (u32, i64, Seq<u32>)| r.2);
    lemma_records_read(c, shuffler.dim as nat, log, p as int);
    assert((|r: (u32, i64, Seq<u32>)| r.0 == p as int) =~= mine);
    assert forall|i: int| 0 <= i < nested.len() implies (#[trigger] nested[i]).len()
        == shuffler.dim by {
        assert(own.contains(own[i]));
        log.lemma_filter_contains_rev(mine, own[i]);
        let x = log.index_of(own[i]);
        assert(log[x].2.len() == shuffler.dim);
    }
    lemma_flatten_len(nested, shuffler.dim as nat);
    if own.len() == 0 {
        assert(rows =~= Seq::empty());
        assert(nested =~= Seq::empty());
    }
}

/// Sequences of one length, one behind the other.
proof fn lemma_flatten_len(nested: Seq<Seq<u32>>, dim: nat)
    requires
        forall|i: int| 0 <= i < nested.len() ==> (#[trigger] nested[i]).len() == dim,
    ensures
        nested.flatten().len() == nested.len() * dim,
    decreases nested.len(),
{
    if nested.len() > 0 {
        let front = nested.drop_last();
        assert forall|i: int| 0 <= i < front.len() implies (#[trigger] front[i]).len() == dim by {
            assert(front[i] == nested[i]);
        }
        lemma_flatten_len(front, dim);
        front.lemma_flatten_push(nested.last());
        assert(front.push(nested.last()) =~= nested);
        assert(nested[nested.len() - 1].len() == dim);
        assert((nested.len() - 1) * dim + dim == nested.len() * dim) by (nonlinear_arith);
    } else {
        assert(0 * dim == 0) by (nonlinear_arith);
    }
}

/// What all partitions give back: if the file holds the records of `log`, the
/// rows and the vectors of each partition, in the order in which they were
/// written.
pub proof fn lemma_partitions_come_back(
    shuffler: &DiskShuffler,
    c: Seq<u8>,
    log: Seq<(u32, i64, Seq<u32>)>,
    p: int,
)
    requires
        shuffler.count == log.len(),
        log.len() * (12 + 4 * shuffler.dim) <= c.len(),
        forall|i: int| #![trigger log[i]] 0 <= i < log.len() ==> {
            let o: int = i * (12 + 4 * shuffler.dim);
            let (pid, row, vector) = log[i];
            &&& vector.len() == shuffler.dim
            &&& pid == c[o] + 0x100 * c[o + 1] + 0x1_0000 * c[o + 2] + 0x100_0000 * c[o + 3]
            &&& (row as int) % 0x1_0000_0000_0000_0000 == c[o + 4] + 0x100 * c[o + 5] + 0x1_0000
                * c[o + 6] + 0x100_0000 * c[o + 7] + 0x1_0000_0000 * c[o + 8] + 0x100_0000_0000
                * c[o + 9] + 0x1_0000_0000_0000 * c[o + 10] + 0x100_0000_0000_0000 * c[o + 11]
            &&& forall|x: int|
                #![trigger vector[x]]
                0 <= x < shuffler.dim ==> vector[x] == c[o + 12 + 4 * x] + 0x100 * c[o + 12 + 4 * x
                    + 1] + 0x1_0000 * c[o + 12 + 4 * x + 2] + 0x100_0000 * c[o + 12 + 4 * x + 3]
        },
    ensures
        shuffler.partitions_result(c) matches Ok((rows, vectors)) && {
            let own = log.filter(|r: (u32, i64, Seq<u32>)| r.0 == p);
            &&& rows.len() == shuffler.partition_counts@.len()
            &&& vectors.len() == shuffler.partition_counts@.len()
            &&& 0 <= p < rows.len() ==> rows[p] == own.map_values(
                |r: (u32, i64, Seq<u32>)| r.1,
            ) && vectors[p] == own.map_values(|r: (u32, i64, Seq<u32>)| r.2).flatten()
        },
{
    lemma_records_read(c, shuffler.dim as nat, log, p);
}

/// An empty partition gives nothing back, whatever the file holds; any other
/// needs all records that were counted, and so do all partitions together.
pub proof fn lemma_partition_short(shuffler: &DiskShuffler, c: Seq<u8>, p: u32)
    requires
        p < shuffler.partition_counts@.len(),
    ensures
        shuffler.partition_counts@[p as int] == 0 ==> shuffler.partition_result(c, p) == Ok::<
            (Seq<i64>, Seq<u32>),
            Error,
        >((Seq::empty(), Seq::empty())),
        shuffler.partition_counts@[p as int] > 0 && c.len() < shuffler.count * (12 + 4
            * shuffler.dim) ==> shuffler.partition_result(c, p) == Err::<
            (Seq<i64>, Seq<u32>),
            Error,
        >(Error::Io(IoFailure::UnexpectedEof)),
        shuffler.count > 0 && c.len() < shuffler.count * (12 + 4 * shuffler.dim)
            ==> shuffler.partitions_result(c) == Err::<(Seq<Seq<i64>>, Seq<Seq<u32>>), Error>(
            Error::Io(IoFailure::UnexpectedEof),
        ),
{
}

/// The file holds `n` records if it is long enough for them; their partitions
/// exist if each of those that are there names one that does.
pub proof fn lemma_records(c: Seq<u8>, dim: nat, n: nat, nlist: nat)
    ensures
        shuffler::holds(c, dim, n) <==> n * (12 + 4 * dim) <= c.len(),
        shuffler::records_in_range(c, dim, n, nlist) <==> forall|i: int|
            0 <= i < n && (i + 1) * (12 + 4 * dim) <= c.len() ==> #[trigger] byte_laws::four(
                c,
                i * (12 + 4 * dim),
            ) < nlist,
{
    let size: int = (12 + 4 * dim) as int;
    assert forall|i: nat| i < n && (i + 1) * size <= c.len() implies #[trigger]
        shuffler::record_partition(shuffler::record_at(c, dim, i)) == byte_laws::four(
        c,
        i * size,
    ) by {
        assert((i + 1) * size == i * size + size) by (nonlinear_arith);
        assert(0 <= i * size) by (nonlinear_arith)
            requires
                0 <= size,
        ;
        let r = shuffler::record_at(c, dim, i);
        assert(r =~= c.subrange(i * size, i * size + size));
        byte_laws::lemma_le_value(r.subrange(0, 4));
    }
    if shuffler::records_in_range(c, dim, n, nlist) {
        assert forall|i: int| 0 <= i < n && (i + 1) * size <= c.len() implies #[trigger]
            byte_laws::four(c, i * size) < nlist by {
            let r = shuffler::record_at(c, dim, i as nat);
            assert(shuffler::holds(c, dim, (i + 1) as nat));
            assert(shuffler::record_partition(r) < nlist);
        }
    }
    if forall|i: int|
        0 <= i < n && (i + 1) * size <= c.len() ==> #[trigger] byte_laws::four(c, i * size)
            < nlist {
        assert forall|i: nat| i < n && shuffler::holds(c, dim, i + 1) implies
            shuffler::record_partition(#[trigger] shuffler::record_at(c, dim, i)) < nlist by {
            assert(byte_laws::four(c, i as int * size) < nlist);
        }
    }
}

/// A shuffler has counted every record in one partition, and knows how long a
/// record is.
pub proof fn lemma_counted(shuffler: &DiskShuffler)
    requires
        shuffler.wf(),
    ensures
        shuffler.record_size == 12 + 4 * shuffler.dim,
        shuffler.count == shuffler.partition_counts@.map_values(|n: usize| n as int).fold_left(
            0int,
            |a: int, b: int| a + b,
        ),
{
    let counts = shuffler.partition_counts@;
    lemma_sum(counts, counts.len());
    assert(counts.take(counts.len() as int) =~= counts);
}

proof fn lemma_sum(counts: Seq<usize>, n: nat)
    requires
        n <= counts.len(),
    ensures
        shuffler::sum(counts, n) == counts.take(n as int).map_values(
            |n: usize| n as int,
        ).fold_left(0int, |a: int, b: int| a + b),
    decreases n,
{
    let number = |n: usize| n as int;
    if n > 0 {
        lemma_sum(counts, (n - 1) as nat);
        assert(counts.take(n as int).map_values(number).drop_last() =~= counts.take(
            n - 1,
        ).map_values(number));
    }
}

} // verus!
