//! The layout of an index file: a header, the rotation if there is one, the
//! coarse centroids, the codebooks, a table with the place and the length of
//! every list, and the lists.

use crate::bytes;
use crate::codec;
use crate::ivfpq;
use crate::ivfpq::IVFPQIndex;
use crate::layout;
use crate::sort;
use crate::varint;
use vstd::prelude::*;

verus! {

/// The letters "IVPQ".
pub const MAGIC: u32 = 0x4956_5051;

pub const VERSION: u32 = 1;

pub const HEADER_SIZE: usize = 64;

/// The file holds a rotation.
pub const FLAG_HAS_OPQ: u32 = 1;

/// The codes are those of residuals.
pub const FLAG_BY_RESIDUAL: u32 = 2;

/// The IDs are sorted and stored as differences.
pub const FLAG_DELTA_IDS: u32 = 4;

/// The codes of a list are transposed.
pub const FLAG_TRANSPOSED_CODES: u32 = 8;

/// Whether `bit`, a power of two, is set.
pub open spec fn has_flag(flags: u32, bit: u32) -> bool {
    (flags / bit) % 2 == 1
}

/// The flags of an index; `compact` says whether its IDs are stored as
/// differences and its codes transposed.
pub open spec fn index_flags(index: &IVFPQIndex, compact: bool) -> u32 {
    ((if compact {
        FLAG_DELTA_IDS + FLAG_TRANSPOSED_CODES
    } else {
        0
    }) + (if index.opq is Some {
        FLAG_HAS_OPQ as int
    } else {
        0
    }) + (if index.by_residual {
        FLAG_BY_RESIDUAL as int
    } else {
        0
    })) as u32
}

/// The header.
pub open spec fn header_bytes(index: &IVFPQIndex, flags: u32) -> Seq<u8> {
    bytes::word32(MAGIC as int) + bytes::word32(VERSION as int) + bytes::word32(index.d as int)
        + bytes::word32(index.nlist as int) + bytes::word32(index.pq.m as int) + bytes::word32(
        index.pq.ksub as int,
    ) + bytes::word32(index.pq.dsub as int) + bytes::word32(index.metric.spec_code() as int)
        + bytes::word64(ivfpq::total_len(index.ids@, index.ids@.len()) as int) + bytes::word32(
        flags as int,
    ) + Seq::new(20, |i: int| 0u8)
}

/// The rotation, if there is one.
pub open spec fn rotation_bytes(index: &IVFPQIndex) -> Seq<u8> {
    match index.opq {
        Some(opq) => codec::words(opq.rotation@),
        None => Seq::empty(),
    }
}

/// Everything in front of the table.
pub open spec fn front_bytes(index: &IVFPQIndex, flags: u32) -> Seq<u8> {
    header_bytes(index, flags) + rotation_bytes(index) + codec::words(index.quantizer_centroids@)
        + codec::words(index.pq.centroids@)
}

/// The table: for every list where it starts, how many vectors it holds, and
/// four bytes that mean nothing.
pub open spec fn table_bytes(starts: Seq<int>, counts: Seq<int>) -> Seq<u8>
    decreases starts.len(),
{
    if starts.len() == 0 {
        Seq::empty()
    } else {
        table_bytes(starts.drop_last(), counts) + bytes::word64(starts.last()) + bytes::word32(
            counts[starts.len() - 1],
        ) + bytes::word32(0)
    }
}

/// The lengths of the first `n` lists.
pub open spec fn list_counts(index: &IVFPQIndex, n: nat) -> Seq<int> {
    Seq::new(n, |i: int| index.ids@[i]@.len() as int)
}

/// IDs in ascending order.
pub open spec fn sorted_ids(ids: Seq<i64>) -> Seq<i64> {
    sort::sorted_order(ids).map_values(|i: int| ids[i])
}

/// The codes of `ids`, in the order in which the IDs are sorted.
pub open spec fn sorted_codes(ids: Seq<i64>, codes: Seq<u8>, cs: nat) -> Seq<u8> {
    Seq::new(
        ids.len() * cs,
        |j: int| codes[sort::sorted_order(ids)[j / cs as int] * cs + j % cs as int],
    )
}

/// The sorted IDs as differences.
pub open spec fn id_bytes(ids: Seq<i64>) -> Seq<u8> {
    varint::delta_bytes(sorted_ids(ids)[0] as int, sorted_ids(ids))
}

/// A compact list: the first ID, the number of bytes of the differences, the
/// differences, and the codes. An empty list takes no bytes.
pub open spec fn list_bytes(ids: Seq<i64>, codes: Seq<u8>, cs: nat) -> Seq<u8> {
    if ids.len() == 0 {
        Seq::empty()
    } else {
        bytes::word64(sorted_ids(ids)[0] as int) + bytes::word32(id_bytes(ids).len() as int)
            + id_bytes(ids) + layout::transposed(sorted_codes(ids, codes, cs), ids.len(), cs)
    }
}

/// The first `n` lists.
pub open spec fn lists_bytes(index: &IVFPQIndex, n: nat) -> Seq<u8>
    decreases n,
{
    if n == 0 {
        Seq::empty()
    } else {
        lists_bytes(index, (n - 1) as nat) + list_bytes(
            index.ids@[n - 1]@,
            index.codes@[n - 1]@,
            index.pq.spec_code_size(),
        )
    }
}

/// Where the first `n` lists start, if the first of them starts at `start`.
pub open spec fn list_starts(index: &IVFPQIndex, start: int, n: nat) -> Seq<int> {
    Seq::new(n, |i: int| start + lists_bytes(index, i as nat).len())
}

/// The file that stands for `index`. The table counts from `pos` bytes in front
/// of the header.
pub open spec fn index_bytes(index: &IVFPQIndex, pos: nat) -> Seq<u8> {
    let nlist = index.nlist as nat;
    let front = front_bytes(index, index_flags(index, true));
    front + table_bytes(
        list_starts(index, (pos + front.len() + 16 * nlist) as int, nlist),
        list_counts(index, nlist),
    ) + lists_bytes(index, nlist)
}

/// IDs as they are.
pub open spec fn raw_id_bytes(ids: Seq<i64>) -> Seq<u8>
    decreases ids.len(),
{
    if ids.len() == 0 {
        Seq::empty()
    } else {
        raw_id_bytes(ids.drop_last()) + bytes::word64(ids.last() as int)
    }
}

/// The first `n` lists, with IDs and codes as they are.
pub open spec fn raw_lists_bytes(index: &IVFPQIndex, n: nat) -> Seq<u8>
    decreases n,
{
    if n == 0 {
        Seq::empty()
    } else {
        raw_lists_bytes(index, (n - 1) as nat) + raw_id_bytes(index.ids@[n - 1]@)
            + index.codes@[n - 1]@
    }
}

/// The room that the first `n` lists need with IDs and codes as they are.
pub open spec fn raw_lists_len(index: &IVFPQIndex, n: nat) -> nat
    decreases n,
{
    if n == 0 {
        0
    } else {
        raw_lists_len(index, (n - 1) as nat) + index.ids@[n - 1]@.len() * 8
            + index.ids@[n - 1]@.len() * index.pq.spec_code_size()
    }
}

/// Where the first `n` lists start, with IDs and codes as they are.
pub open spec fn raw_list_starts(index: &IVFPQIndex, start: int, n: nat) -> Seq<int> {
    Seq::new(n, |i: int| start + raw_lists_len(index, i as nat))
}

/// The file that stands for `index` with IDs and codes as they are.
pub open spec fn raw_index_bytes(index: &IVFPQIndex, pos: nat) -> Seq<u8> {
    let nlist = index.nlist as nat;
    let front = front_bytes(index, index_flags(index, false));
    front + table_bytes(
        raw_list_starts(index, (pos + front.len() + 16 * nlist) as int, nlist),
        list_counts(index, nlist),
    ) + raw_lists_bytes(index, nlist)
}

/// The header has its fixed length.
pub proof fn lemma_header_len(index: &IVFPQIndex, flags: u32)
    ensures
        header_bytes(index, flags).len() == HEADER_SIZE,
{
    bytes::lemma_word_len(MAGIC as int);
    bytes::lemma_word_len(VERSION as int);
    bytes::lemma_word_len(index.d as int);
    bytes::lemma_word_len(index.nlist as int);
    bytes::lemma_word_len(index.pq.m as int);
    bytes::lemma_word_len(index.pq.ksub as int);
    bytes::lemma_word_len(index.pq.dsub as int);
    bytes::lemma_word_len(index.metric.spec_code() as int);
    bytes::lemma_word_len(ivfpq::total_len(index.ids@, index.ids@.len()) as int);
    bytes::lemma_word_len(flags as int);
}

/// Every entry of the table takes sixteen bytes.
pub proof fn lemma_table_len(starts: Seq<int>, counts: Seq<int>)
    ensures
        table_bytes(starts, counts).len() == 16 * starts.len(),
    decreases starts.len(),
{
    if starts.len() > 0 {
        lemma_table_len(starts.drop_last(), counts);
        bytes::lemma_word_len(starts.last());
        bytes::lemma_word_len(counts[starts.len() - 1]);
        bytes::lemma_word_len(0);
    }
}

/// Sorting keeps the number of IDs.
pub proof fn lemma_sorted_ids(ids: Seq<i64>)
    ensures
        sorted_ids(ids).len() == ids.len(),
        varint::nondecreasing(sorted_ids(ids)),
        forall|i: int|
            0 <= i < ids.len() ==> 0 <= #[trigger] sort::sorted_order(ids)[i] < ids.len(),
        forall|i: int|
            0 <= i < ids.len() ==> #[trigger] sorted_ids(ids)[i] == ids[sort::sorted_order(ids)[i]],
{
    sort::lemma_sorted_order(ids);
    let sorted = sorted_ids(ids);
    assert forall|i: int, j: int| 0 <= i <= j < sorted.len() implies sorted[i] <= sorted[j] by {
        if i < j {
            assert(sort::sorted_order(ids)[i] < ids.len());
            assert(sort::sorted_order(ids)[j] < ids.len());
        }
    }
}

/// The length of a compact list.
pub proof fn lemma_list_len(ids: Seq<i64>, codes: Seq<u8>, cs: nat)
    ensures
        list_bytes(ids, codes, cs).len() == if ids.len() == 0 {
            0
        } else {
            12 + id_bytes(ids).len() + ids.len() * cs
        },
{
    if ids.len() > 0 {
        bytes::lemma_word_len(sorted_ids(ids)[0] as int);
        bytes::lemma_word_len(id_bytes(ids).len() as int);
    }
}

/// An ID as it is takes eight bytes.
pub proof fn lemma_raw_id_len(ids: Seq<i64>)
    ensures
        raw_id_bytes(ids).len() == 8 * ids.len(),
    decreases ids.len(),
{
    if ids.len() > 0 {
        lemma_raw_id_len(ids.drop_last());
        bytes::lemma_word_len(ids.last() as int);
    }
}

} // verus!
