//! A shuffler for vectors that do not fit in memory: they are written one after
//! the other with the partition that each belongs to, and read back partition
//! by partition.

use crate::bytes;
use crate::codec;
use crate::error::{Error, IoFailure};
use crate::stream;
use crate::stream::{SeekRead, SeekWrite};
use vstd::prelude::*;

verus! {

/// The bytes of a record in front of the vector: the partition and the row.
pub const RECORD_OVERHEAD: usize = 12;

/// A record: the partition, the row and the vector.
pub open spec fn record_bytes(partition_id: u32, row_id: i64, vector: Seq<u32>) -> Seq<u8> {
    bytes::word32(partition_id as int) + bytes::word64(row_id as int) + codec::words(vector)
}

/// The length of a record.
pub open spec fn record_len(dim: nat) -> nat {
    RECORD_OVERHEAD as nat + 4 * dim
}

/// Record `i` of the file `c`.
pub open spec fn record_at(c: Seq<u8>, dim: nat, i: nat) -> Seq<u8> {
    c.subrange((i * record_len(dim)) as int, (i * record_len(dim) + record_len(dim)) as int)
}

/// The partition of a record.
pub open spec fn record_partition(record: Seq<u8>) -> u32 {
    bytes::le_value(record.subrange(0, 4)) as u32
}

/// The row of a record.
pub open spec fn record_row(record: Seq<u8>) -> i64 {
    bytes::signed64(bytes::le_value(record.subrange(4, 12))) as i64
}

/// The vector of a record.
pub open spec fn record_vector(record: Seq<u8>) -> Seq<u32> {
    codec::word_values(record.skip(12))
}

/// The rows among the first `n` records that belong to a partition.
pub open spec fn partition_rows(c: Seq<u8>, dim: nat, n: nat, partition: int) -> Seq<i64>
    decreases n,
{
    if n == 0 {
        Seq::empty()
    } else {
        let before = partition_rows(c, dim, (n - 1) as nat, partition);
        let record = record_at(c, dim, (n - 1) as nat);
        if record_partition(record) == partition {
            before.push(record_row(record))
        } else {
            before
        }
    }
}

/// The vectors among the first `n` records that belong to a partition, one
/// behind the other.
pub open spec fn partition_vectors(c: Seq<u8>, dim: nat, n: nat, partition: int) -> Seq<u32>
    decreases n,
{
    if n == 0 {
        Seq::empty()
    } else {
        let before = partition_vectors(c, dim, (n - 1) as nat, partition);
        let record = record_at(c, dim, (n - 1) as nat);
        if record_partition(record) == partition {
            before + record_vector(record)
        } else {
            before
        }
    }
}

/// The file holds `n` records.
pub open spec fn holds(c: Seq<u8>, dim: nat, n: nat) -> bool {
    n * record_len(dim) <= c.len()
}

/// The partitions of the first `n` records, as far as they are there, exist.
pub open spec fn records_in_range(c: Seq<u8>, dim: nat, n: nat, nlist: nat) -> bool {
    forall|i: nat|
        i < n && holds(c, dim, i + 1) ==> record_partition(#[trigger] record_at(c, dim, i)) < nlist
}

/// The sum of the first `n` numbers.
pub open spec fn sum(counts: Seq<usize>, n: nat) -> nat
    decreases n,
{
    if n == 0 {
        0
    } else {
        sum(counts, (n - 1) as nat) + counts[n - 1] as nat
    }
}

/// One partition as it looks from outside.
pub open spec fn partition_view(r: Result<(Vec<i64>, Vec<u32>), Error>) -> Result<
    (Seq<i64>, Seq<u32>),
    Error,
> {
    match r {
        Ok((rows, vectors)) => Ok((rows@, vectors@)),
        Err(e) => Err(e),
    }
}

/// All partitions as they look from outside.
pub open spec fn partitions_view(r: Result<(Vec<Vec<i64>>, Vec<Vec<u32>>), Error>) -> Result<
    (Seq<Seq<i64>>, Seq<Seq<u32>>),
    Error,
> {
    match r {
        Ok((rows, vectors)) => Ok(
            (
                rows@.map_values(|v: Vec<i64>| v@),
                vectors@.map_values(|v: Vec<u32>| v@),
            ),
        ),
        Err(e) => Err(e),
    }
}

/// What is known of the vectors that were written.
pub struct DiskShuffler {
    pub dim: usize,
    pub record_size: usize,
    pub count: usize,
    pub partition_counts: Vec<usize>,
    /// Whether vectors can still be written.
    pub writing: bool,
}

impl DiskShuffler {
    /// The partitions together hold all records.
    pub open spec fn wf(&self) -> bool {
        &&& self.record_size == record_len(self.dim as nat)
        &&& sum(self.partition_counts@, self.partition_counts@.len()) == self.count
    }

    /// A shuffler for `nlist` partitions of vectors with `dim` components.
    pub fn new(dim: usize, nlist: usize) -> (shuffler: Self)
        requires
            record_len(dim as nat) <= usize::MAX,
        ensures
            shuffler.wf(),
            shuffler.dim == dim,
            shuffler.count == 0,
            shuffler.partition_counts@ == Seq::new(nlist as nat, |i: int| 0usize),
            shuffler.writing,
    {
        let partition_counts: Vec<usize> = vec![0usize; nlist];
        proof {
            assert(partition_counts@ =~= Seq::new(nlist as nat, |i: int| 0usize));
            lemma_sum_zero(partition_counts@, nlist as nat);
        }
        DiskShuffler {
            dim,
            record_size: RECORD_OVERHEAD + dim * 4,
            count: 0,
            partition_counts,
            writing: true,
        }
    }

    /// Why a vector is refused, if it is.
    pub open spec fn refusal(&self, partition_id: u32, len: nat) -> Option<Error> {
        if len != self.dim {
            Some(Error::VectorLength { len: len as usize, dim: self.dim })
        } else if partition_id >= self.partition_counts@.len() {
            Some(
                Error::PartitionOutOfRange {
                    partition_id,
                    nlist: self.partition_counts@.len() as usize,
                },
            )
        } else {
            None
        }
    }

    /// Refuses a vector of the wrong length, or for a partition that does not
    /// exist.
    pub fn check_vector(&self, partition_id: u32, len: usize) -> (result: Result<(), Error>)
        ensures
            result == match self.refusal(partition_id, len as nat) {
                Some(e) => Err::<(), Error>(e),
                None => Ok(()),
            },
    {
        if len != self.dim {
            return Err(Error::VectorLength { len, dim: self.dim });
        }
        let nlist: usize = self.partition_counts.len();
        if partition_id as u64 >= nlist as u64 {
            return Err(Error::PartitionOutOfRange { partition_id, nlist });
        }
        Ok(())
    }

    /// Writes a vector with its partition and its row.
    pub fn write_vector<W: SeekWrite>(
        &mut self,
        out: &mut W,
        partition_id: u32,
        row_id: i64,
        vector: &[u32],
    ) -> (result: Result<(), Error>)
        requires
            old(self).wf(),
            old(self).refusal(partition_id, vector@.len()) is None ==> {
                &&& old(self).writing
                &&& old(self).count < usize::MAX
                &&& old(out).output().position + record_len(vector@.len()) <= u64::MAX
            },
        ensures
            final(self).wf(),
            final(self).dim == old(self).dim,
            final(self).writing == old(self).writing,
            final(self).partition_counts@.len() == old(self).partition_counts@.len(),
            match old(self).refusal(partition_id, vector@.len()) {
                Some(e) => {
                    &&& result == Err::<(), Error>(e)
                    &&& final(out).output() == old(out).output()
                },
                None => stream::appended(
                    old(out).output(),
                    final(out).output(),
                    result,
                    record_bytes(partition_id, row_id, vector@),
                ),
            },
            match result {
                Ok(_) => {
                    &&& final(self).count == old(self).count + 1
                    &&& final(self).partition_counts@ == old(self).partition_counts@.update(
                        partition_id as int,
                        (old(self).partition_counts@[partition_id as int] + 1) as usize,
                    )
                },
                Err(_) => {
                    &&& final(self).count == old(self).count
                    &&& final(self).partition_counts@ == old(self).partition_counts@
                },
            },
    {
        match self.check_vector(partition_id, vector.len()) {
            Ok(_) => {},
            Err(e) => {
                return Err(e);
            },
        }
        let nlist: usize = self.partition_counts.len();
        let p: usize = partition_id as usize;
        proof {
            bytes::lemma_word_len(partition_id as int);
            bytes::lemma_word_len(row_id as int);
            bytes::lemma_cast64(row_id);
            codec::lemma_words_len(vector@);
        }
        let mut record: Vec<u8> = bytes::to_le(partition_id as u64, 4);
        let mut row: Vec<u8> = bytes::to_le(row_id as u64, 8);
        record.append(&mut row);
        let ghost front = record@;
        let mut i: usize = 0;
        assert(record@ =~= front + codec::words(vector@.take(0)));
        while i < vector.len()
            invariant
                i <= vector@.len(),
                record@ == front + codec::words(vector@.take(i as int)),
            decreases vector@.len() - i,
        {
            let mut word: Vec<u8> = bytes::to_le(vector[i] as u64, 4);
            record.append(&mut word);
            i = i + 1;
            assert(vector@.take(i as int).drop_last() =~= vector@.take(i - 1));
            assert(record@ =~= front + codec::words(vector@.take(i as int)));
        }
        assert(vector@.take(i as int) =~= vector@);
        match out.write_all(record.as_slice()) {
            Ok(_) => {},
            Err(e) => {
                return Err(e);
            },
        }
        proof {
            lemma_sum_bound(self.partition_counts@, nlist as nat, p as int);
            lemma_sum_update(
                self.partition_counts@,
                nlist as nat,
                p as int,
                (self.partition_counts@[p as int] + 1) as usize,
            );
        }
        let before: usize = self.partition_counts[p];
        self.partition_counts.set(p, before + 1);
        self.count = self.count + 1;
        Ok(())
    }

    /// Ends the writing. Returns the number of vectors of each partition.
    pub fn finish_write(&mut self) -> (result: Result<Vec<usize>, Error>)
        ensures
            !final(self).writing,
            final(self).dim == old(self).dim,
            final(self).record_size == old(self).record_size,
            final(self).count == old(self).count,
            final(self).partition_counts == old(self).partition_counts,
            result matches Ok(counts) && counts@ == old(self).partition_counts@,
    {
        self.writing = false;
        let mut counts: Vec<usize> = Vec::new();
        counts.extend_from_slice(self.partition_counts.as_slice());
        assert(counts@ =~= self.partition_counts@);
        Ok(counts)
    }

    /// The records of one partition, or why they cannot be read. An empty
    /// partition is known without a look at the file.
    pub open spec fn partition_result(&self, c: Seq<u8>, partition_id: u32) -> Result<
        (Seq<i64>, Seq<u32>),
        Error,
    > {
        if self.partition_counts@[partition_id as int] == 0 {
            Ok((Seq::empty(), Seq::empty()))
        } else if !holds(c, self.dim as nat, self.count as nat) {
            Err(Error::Io(IoFailure::UnexpectedEof))
        } else {
            Ok(
                (
                    partition_rows(c, self.dim as nat, self.count as nat, partition_id as int),
                    partition_vectors(c, self.dim as nat, self.count as nat, partition_id as int),
                ),
            )
        }
    }

    /// Reads the rows and the vectors of one partition.
    pub fn read_partition<R: SeekRead>(&self, reader: &mut R, partition_id: u32) -> (result: Result<
        (Vec<i64>, Vec<u32>),
        Error,
    >)
        requires
            self.wf(),
            partition_id < self.partition_counts@.len(),
        ensures
            final(reader).contents() == old(reader).contents(),
            final(reader).reliable() == old(reader).reliable(),
            result matches Err(e) ==> e == final(reader).failure(),
            stream::agrees(
                partition_view(result),
                self.partition_result(old(reader).contents(), partition_id),
                old(reader).reliable(),
            ),
    {
        let ghost c = reader.contents();
        let ghost dim = self.dim as nat;
        let mut rows: Vec<i64> = Vec::new();
        let mut vectors: Vec<u32> = Vec::new();
        if self.partition_counts[partition_id as usize] == 0 {
            assert(rows@ =~= Seq::<i64>::empty());
            assert(vectors@ =~= Seq::<u32>::empty());
            return Ok((rows, vectors));
        }
        match reader.seek(0) {
            Ok(_) => {},
            Err(e) => {
                return Err(e);
            },
        }
        let mut i: usize = 0;
        assert(0 * record_len(dim) == 0) by (nonlinear_arith);
        while i < self.count
            invariant
                i <= self.count,
                self.wf(),
                c == old(reader).contents(),
                reader.contents() == c,
                reader.reliable() == old(reader).reliable(),
                dim == self.dim,
                reader.cursor() == i * record_len(dim),
                holds(c, dim, i as nat),
                partition_id < self.partition_counts@.len(),
                self.partition_counts@[partition_id as int] != 0,
                rows@ == partition_rows(c, dim, i as nat, partition_id as int),
                vectors@ == partition_vectors(c, dim, i as nat, partition_id as int),
            decreases self.count - i,
        {
            proof {
                lemma_holds_fewer(c, dim, (i + 1) as nat, self.count as nat);
                assert((i + 1) * record_len(dim) == i * record_len(dim) + record_len(dim))
                    by (nonlinear_arith);
            }
            let record: Vec<u8> = match read_record(reader, self.record_size) {
                Ok(record) => record,
                Err(e) => {
                    return Err(e);
                },
            };
            assert(record@ == record_at(c, dim, i as nat));
            if partition_of(&record) == partition_id {
                rows.push(row_of(&record));
                let mut vector: Vec<u32> = vector_of(&record);
                vectors.append(&mut vector);
            }
            i = i + 1;
        }
        Ok((rows, vectors))
    }

    /// The records of all partitions, or why they cannot be read.
    pub open spec fn partitions_result(&self, c: Seq<u8>) -> Result<
        (Seq<Seq<i64>>, Seq<Seq<u32>>),
        Error,
    > {
        let nlist = self.partition_counts@.len();
        if !holds(c, self.dim as nat, self.count as nat) && self.count > 0 {
            Err(Error::Io(IoFailure::UnexpectedEof))
        } else {
            Ok(
                (
                    Seq::new(
                        nlist,
                        |p: int| partition_rows(c, self.dim as nat, self.count as nat, p),
                    ),
                    Seq::new(
                        nlist,
                        |p: int| partition_vectors(c, self.dim as nat, self.count as nat, p),
                    ),
                ),
            )
        }
    }

    /// Whether the partitions of the stored records exist.
    pub fn check_records<R: SeekRead>(&self, reader: &mut R) -> (result: Result<bool, Error>)
        requires
            self.wf(),
        ensures
            final(reader).contents() == old(reader).contents(),
            final(reader).reliable() == old(reader).reliable(),
            match result {
                Ok(yes) => yes == records_in_range(
                    old(reader).contents(),
                    self.dim as nat,
                    self.count as nat,
                    self.partition_counts@.len(),
                ),
                Err(e) => e is Io && e == final(reader).failure() && (old(reader).reliable() ==> !holds(
                    old(reader).contents(),
                    self.dim as nat,
                    self.count as nat,
                )),
            },
    {
        let ghost c = reader.contents();
        let ghost dim = self.dim as nat;
        let nlist: usize = self.partition_counts.len();
        match reader.seek(0) {
            Ok(_) => {},
            Err(e) => {
                return Err(e);
            },
        }
        let mut i: usize = 0;
        assert(0 * record_len(dim) == 0) by (nonlinear_arith);
        while i < self.count
            invariant
                i <= self.count,
                self.wf(),
                c == old(reader).contents(),
                reader.contents() == c,
                reader.reliable() == old(reader).reliable(),
                dim == self.dim,
                nlist == self.partition_counts@.len(),
                reader.cursor() == i * record_len(dim),
                records_in_range(c, dim, i as nat, nlist as nat),
            decreases self.count - i,
        {
            proof {
                lemma_holds_fewer(c, dim, (i + 1) as nat, self.count as nat);
                assert((i + 1) * record_len(dim) == i * record_len(dim) + record_len(dim))
                    by (nonlinear_arith);
            }
            let record: Vec<u8> = match read_record(reader, self.record_size) {
                Ok(record) => record,
                Err(e) => {
                    return Err(e);
                },
            };
            assert(record@ == record_at(c, dim, i as nat));
            if partition_of(&record) as u64 >= nlist as u64 {
                assert(holds(c, dim, i as nat + 1));
                assert(record_partition(record_at(c, dim, i as nat)) >= nlist);
                return Ok(false);
            }
            i = i + 1;
        }
        Ok(true)
    }

    /// Reads the rows and the vectors of all partitions.
    pub fn read_all_partitions<R: SeekRead>(&self, reader: &mut R) -> (result: Result<
        (Vec<Vec<i64>>, Vec<Vec<u32>>),
        Error,
    >)
        requires
            self.wf(),
            records_in_range(
                old(reader).contents(),
                self.dim as nat,
                self.count as nat,
                self.partition_counts@.len(),
            ),
        ensures
            final(reader).contents() == old(reader).contents(),
            final(reader).reliable() == old(reader).reliable(),
            result matches Err(e) ==> e == final(reader).failure(),
            stream::agrees(
                partitions_view(result),
                self.partitions_result(old(reader).contents()),
                old(reader).reliable(),
            ),
    {
        let ghost c = reader.contents();
        let ghost dim = self.dim as nat;
        let nlist: usize = self.partition_counts.len();
        let mut all_rows: Vec<Vec<i64>> = Vec::new();
        let mut all_vectors: Vec<Vec<u32>> = Vec::new();
        let mut p: usize = 0;
        while p < nlist
            invariant
                p <= nlist,
                all_rows@.len() == p,
                all_vectors@.len() == p,
                forall|x: int|
                    #![trigger all_rows@[x]]
                    0 <= x < p ==> all_rows@[x]@ == partition_rows(c, dim, 0, x),
                forall|x: int|
                    #![trigger all_vectors@[x]]
                    0 <= x < p ==> all_vectors@[x]@ == partition_vectors(c, dim, 0, x),
            decreases nlist - p,
        {
            let rows: Vec<i64> = Vec::new();
            let vectors: Vec<u32> = Vec::new();
            assert(rows@ =~= partition_rows(c, dim, 0, p as int));
            assert(vectors@ =~= partition_vectors(c, dim, 0, p as int));
            all_rows.push(rows);
            all_vectors.push(vectors);
            p = p + 1;
        }
        match reader.seek(0) {
            Ok(_) => {},
            Err(e) => {
                return Err(e);
            },
        }
        let mut i: usize = 0;
        assert(0 * record_len(dim) == 0) by (nonlinear_arith);
        while i < self.count
            invariant
                i <= self.count,
                self.wf(),
                c == old(reader).contents(),
                reader.contents() == c,
                reader.reliable() == old(reader).reliable(),
                dim == self.dim,
                nlist == self.partition_counts@.len(),
                records_in_range(c, dim, self.count as nat, nlist as nat),
                reader.cursor() == i * record_len(dim),
                holds(c, dim, i as nat),
                all_rows@.len() == nlist,
                all_vectors@.len() == nlist,
                forall|x: int|
                    #![trigger all_rows@[x]]
                    0 <= x < nlist ==> all_rows@[x]@ == partition_rows(c, dim, i as nat, x),
                forall|x: int|
                    #![trigger all_vectors@[x]]
                    0 <= x < nlist ==> all_vectors@[x]@ == partition_vectors(
                        c,
                        dim,
                        i as nat,
                        x,
                    ),
            decreases self.count - i,
        {
            proof {
                lemma_holds_fewer(c, dim, (i + 1) as nat, self.count as nat);
                assert((i + 1) * record_len(dim) == i * record_len(dim) + record_len(dim))
                    by (nonlinear_arith);
            }
            let record: Vec<u8> = match read_record(reader, self.record_size) {
                Ok(record) => record,
                Err(e) => {
                    return Err(e);
                },
            };
            assert(record@ == record_at(c, dim, i as nat));
            assert(holds(c, dim, i as nat + 1));
            let pid: usize = partition_of(&record) as usize;
            assert(pid < nlist);
            let ghost rows_before = all_rows@;
            let ghost vectors_before = all_vectors@;
            all_rows[pid].push(row_of(&record));
            let mut vector: Vec<u32> = vector_of(&record);
            all_vectors[pid].append(&mut vector);
            proof {
                assert forall|x: int| #![trigger all_rows@[x]] 0 <= x < nlist implies all_rows@[x]@
                    == partition_rows(c, dim, (i + 1) as nat, x) by {
                    assert(rows_before[x]@ == partition_rows(c, dim, i as nat, x));
                }
                assert forall|x: int| #![trigger all_vectors@[x]] 0 <= x < nlist implies
                    all_vectors@[x]@ == partition_vectors(c, dim, (i + 1) as nat, x) by {
                    assert(vectors_before[x]@ == partition_vectors(c, dim, i as nat, x));
                }
            }
            i = i + 1;
        }
        proof {
            let n = self.count as nat;
            assert(all_rows@.map_values(|v: Vec<i64>| v@) =~= Seq::new(
                nlist as nat,
                |p: int| partition_rows(c, dim, n, p),
            ));
            assert(all_vectors@.map_values(|v: Vec<u32>| v@) =~= Seq::new(
                nlist as nat,
                |p: int| partition_vectors(c, dim, n, p),
            ));
        }
        Ok((all_rows, all_vectors))
    }

    /// The number of all vectors.
    pub fn total_count(&self) -> (count: usize)
        ensures
            count == self.count,
    {
        self.count
    }

    /// The number of vectors of each partition.
    pub fn partition_counts(&self) -> (counts: &[usize])
        ensures
            counts@ == self.partition_counts@,
    {
        self.partition_counts.as_slice()
    }
}

/// Reads one record.
fn read_record<R: SeekRead>(reader: &mut R, size: usize) -> (result: Result<Vec<u8>, Error>)
    requires
        size > 0,
    ensures
        final(reader).contents() == old(reader).contents(),
        final(reader).reliable() == old(reader).reliable(),
        stream::agrees(
            codec::seq_view(result),
            stream::read_at(old(reader).contents(), old(reader).cursor(), size as nat),
            old(reader).reliable(),
        ),
        result is Ok ==> final(reader).cursor() == old(reader).cursor() + size,
        result matches Err(e) ==> e is Io && e == final(reader).failure(),
{
    let mut record: Vec<u8> = vec![0u8; size];
    match reader.read_exact(record.as_mut_slice()) {
        Ok(_) => Ok(record),
        Err(e) => Err(e),
    }
}

/// The partition of a record.
fn partition_of(record: &Vec<u8>) -> (partition: u32)
    requires
        record@.len() >= 12,
    ensures
        partition == record_partition(record@),
{
    let b: [u8; 4] = [record[0], record[1], record[2], record[3]];
    proof {
        assert(b@ =~= record@.subrange(0, 4));
        bytes::lemma_pow256();
        bytes::lemma_le_value_roundtrip(b@);
    }
    bytes::from_le(&b) as u32
}

/// The row of a record.
fn row_of(record: &Vec<u8>) -> (row: i64)
    requires
        record@.len() >= 12,
    ensures
        row == record_row(record@),
{
    let b: [u8; 8] = [
        record[4],
        record[5],
        record[6],
        record[7],
        record[8],
        record[9],
        record[10],
        record[11],
    ];
    assert(b@ =~= record@.subrange(4, 12));
    let v: u64 = bytes::from_le(&b);
    proof {
        bytes::lemma_cast_signed64(v);
    }
    v as i64
}

/// The vector of a record.
fn vector_of(record: &Vec<u8>) -> (vector: Vec<u32>)
    requires
        record@.len() >= 12,
    ensures
        vector@ == record_vector(record@),
{
    let total: usize = record.len();
    let n: usize = (total - 12) / 4;
    let mut vector: Vec<u32> = Vec::new();
    let ghost tail = record@.skip(12);
    let mut i: usize = 0;
    while i < n
        invariant
            i <= n,
            total == record@.len(),
            total >= 12,
            n == (total - 12) / 4,
            tail == record@.skip(12),
            vector@ == codec::word_values(tail).take(i as int),
        decreases n - i,
    {
        let at: usize = 12 + 4 * i;
        let b: [u8; 4] = [record[at], record[at + 1], record[at + 2], record[at + 3]];
        proof {
            assert(b@ =~= tail.subrange(4 * i, 4 * i + 4));
            bytes::lemma_pow256();
            bytes::lemma_le_value_roundtrip(b@);
        }
        vector.push(bytes::from_le(&b) as u32);
        i = i + 1;
        assert(vector@ =~= codec::word_values(tail).take(i as int));
    }
    assert(vector@ =~= codec::word_values(tail));
    vector
}

proof fn lemma_holds_fewer(c: Seq<u8>, dim: nat, i: nat, n: nat)
    requires
        i <= n,
    ensures
        holds(c, dim, n) ==> holds(c, dim, i),
{
    assert(i * record_len(dim) <= n * record_len(dim)) by (nonlinear_arith)
        requires
            i <= n,
    ;
}

proof fn lemma_sum_zero(counts: Seq<usize>, n: nat)
    requires
        n <= counts.len(),
        forall|i: int| 0 <= i < counts.len() ==> counts[i] == 0,
    ensures
        sum(counts, n) == 0,
    decreases n,
{
    if n > 0 {
        lemma_sum_zero(counts, (n - 1) as nat);
    }
}

proof fn lemma_sum_bound(counts: Seq<usize>, n: nat, i: int)
    requires
        0 <= i < n <= counts.len(),
    ensures
        counts[i] <= sum(counts, n),
    decreases n,
{
    if i < n - 1 {
        lemma_sum_bound(counts, (n - 1) as nat, i);
    }
}

proof fn lemma_sum_update(counts: Seq<usize>, n: nat, i: int, v: usize)
    requires
        n <= counts.len(),
        0 <= i < counts.len(),
    ensures
        sum(counts.update(i, v), n) == sum(counts, n) + if i < n {
            v - counts[i]
        } else {
            0
        },
    decreases n,
{
    if n > 0 {
        lemma_sum_update(counts, (n - 1) as nat, i, v);
    }
}

/// The records that were written, one behind the other.
pub open spec fn log_bytes(log: Seq<(u32, i64, Seq<u32>)>) -> Seq<u8>
    decreases log.len(),
{
    if log.len() == 0 {
        Seq::empty()
    } else {
        log_bytes(log.drop_last()) + record_bytes(log.last().0, log.last().1, log.last().2)
    }
}

/// The rows of a partition, as they were written.
pub open spec fn log_rows(log: Seq<(u32, i64, Seq<u32>)>, partition: int) -> Seq<i64>
    decreases log.len(),
{
    if log.len() == 0 {
        Seq::empty()
    } else if log.last().0 == partition {
        log_rows(log.drop_last(), partition).push(log.last().1)
    } else {
        log_rows(log.drop_last(), partition)
    }
}

/// The vectors of a partition, as they were written.
pub open spec fn log_vectors(log: Seq<(u32, i64, Seq<u32>)>, partition: int) -> Seq<u32>
    decreases log.len(),
{
    if log.len() == 0 {
        Seq::empty()
    } else if log.last().0 == partition {
        log_vectors(log.drop_last(), partition) + log.last().2
    } else {
        log_vectors(log.drop_last(), partition)
    }
}

/// The counts after the records of `log` were written.
pub open spec fn log_counts(log: Seq<(u32, i64, Seq<u32>)>, nlist: nat) -> Seq<nat> {
    Seq::new(nlist, |p: int| log_rows(log, p).len())
}

/// A record comes back as it was written.
pub proof fn lemma_record_roundtrip(partition_id: u32, row_id: i64, vector: Seq<u32>)
    ensures
        record_bytes(partition_id, row_id, vector).len() == record_len(vector.len()),
        record_partition(record_bytes(partition_id, row_id, vector)) == partition_id,
        record_row(record_bytes(partition_id, row_id, vector)) == row_id,
        record_vector(record_bytes(partition_id, row_id, vector)) == vector,
{
    let r = record_bytes(partition_id, row_id, vector);
    bytes::lemma_word_len(partition_id as int);
    bytes::lemma_word_len(row_id as int);
    bytes::lemma_word32_roundtrip(partition_id as int);
    bytes::lemma_word64_roundtrip(row_id as int);
    codec::lemma_words_roundtrip(vector);
    assert(r.subrange(0, 4) =~= bytes::word32(partition_id as int));
    assert(r.subrange(4, 12) =~= bytes::word64(row_id as int));
    assert(r.skip(12) =~= codec::words(vector));
}

/// Every vector that was written is read back in its partition, in the order of
/// writing. What follows the records in the file does not matter.
pub proof fn lemma_shuffle_roundtrip(
    log: Seq<(u32, i64, Seq<u32>)>,
    dim: nat,
    rest: Seq<u8>,
    partition: int,
)
    requires
        forall|i: int| 0 <= i < log.len() ==> (#[trigger] log[i]).2.len() == dim,
    ensures
        log_bytes(log).len() == log.len() * record_len(dim),
        holds(log_bytes(log) + rest, dim, log.len()),
        partition_rows(log_bytes(log) + rest, dim, log.len(), partition) == log_rows(
            log,
            partition,
        ),
        partition_vectors(log_bytes(log) + rest, dim, log.len(), partition) == log_vectors(
            log,
            partition,
        ),
    decreases log.len(),
{
    let size = record_len(dim);
    if log.len() > 0 {
        let front = log.drop_last();
        let (pid, row, vector) = log.last();
        let record = record_bytes(pid, row, vector);
        assert(log[log.len() - 1].2.len() == dim);
        lemma_record_roundtrip(pid, row, vector);
        assert forall|i: int| 0 <= i < front.len() implies (#[trigger] front[i]).2.len() == dim by {
            assert(log[i] == front[i]);
        }
        lemma_shuffle_roundtrip(front, dim, record + rest, partition);
        assert(log_bytes(front) + (record + rest) =~= log_bytes(log) + rest);
        assert((log.len() - 1) * size + size == log.len() * size) by (nonlinear_arith);
        let c = log_bytes(log) + rest;
        assert(record_at(c, dim, (log.len() - 1) as nat) =~= record);
    } else {
        assert(0 * size == 0) by (nonlinear_arith);
    }
}

/// The partitions of what was written exist, if they did when it was written.
pub proof fn lemma_shuffle_in_range(
    log: Seq<(u32, i64, Seq<u32>)>,
    dim: nat,
    rest: Seq<u8>,
    nlist: nat,
)
    requires
        forall|i: int|
            0 <= i < log.len() ==> (#[trigger] log[i]).2.len() == dim && log[i].0 < nlist,
    ensures
        records_in_range(log_bytes(log) + rest, dim, log.len(), nlist),
    decreases log.len(),
{
    let size = record_len(dim);
    if log.len() > 0 {
        let front = log.drop_last();
        let (pid, row, vector) = log.last();
        let record = record_bytes(pid, row, vector);
        assert(log[log.len() - 1].2.len() == dim && log[log.len() - 1].0 < nlist);
        lemma_record_roundtrip(pid, row, vector);
        assert forall|i: int| 0 <= i < front.len() implies (#[trigger] front[i]).2.len() == dim
            && front[i].0 < nlist by {
            assert(log[i] == front[i]);
        }
        lemma_shuffle_in_range(front, dim, record + rest, nlist);
        lemma_shuffle_roundtrip(front, dim, record + rest, 0);
        let c = log_bytes(log) + rest;
        assert(log_bytes(front) + (record + rest) =~= c);
        assert((log.len() - 1) * size + size == log.len() * size) by (nonlinear_arith);
        assert(record_at(c, dim, (log.len() - 1) as nat) =~= record);
    }
}

/// Writing a record to a partition makes its count one larger and leaves the
/// others: the counts are those of the records written.
pub proof fn lemma_log_counts(
    log: Seq<(u32, i64, Seq<u32>)>,
    record: (u32, i64, Seq<u32>),
    nlist: nat,
)
    requires
        record.0 < nlist,
    ensures
        log_counts(log.push(record), nlist) == log_counts(log, nlist).update(
            record.0 as int,
            log_counts(log, nlist)[record.0 as int] + 1,
        ),
{
    assert(log.push(record).drop_last() =~= log);
    assert(log_counts(log.push(record), nlist) =~= log_counts(log, nlist).update(
        record.0 as int,
        log_counts(log, nlist)[record.0 as int] + 1,
    ));
}

} // verus!
