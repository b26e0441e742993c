//! What an index file holds, byte by byte.

use crate::byte_laws;
use crate::bytes;
use crate::code_laws;
use crate::codec;
use crate::file;
use crate::index_laws;
use crate::ivfpq;
use crate::ivfpq::IVFPQIndex;
use crate::layout;
use crate::metric::MetricType;
use crate::roundtrip;
use crate::sort;
use crate::varint;
use vstd::prelude::*;

verus! {

/// A number that stands at `at` in `b`.
proof fn lemma_four(b: Seq<u8>, at: int, v: int)
    requires
        0 <= at,
        at + 4 <= b.len(),
        b.subrange(at, at + 4) == bytes::word32(v),
    ensures
        byte_laws::four(b, at) == v % 0x1_0000_0000,
{
    let s = b.subrange(at, at + 4);
    byte_laws::lemma_word_bytes(v);
    assert(s[0] == b[at] && s[1] == b[at + 1] && s[2] == b[at + 2] && s[3] == b[at + 3]);
}

proof fn lemma_eight(b: Seq<u8>, at: int, v: int)
    requires
        0 <= at,
        at + 8 <= b.len(),
        b.subrange(at, at + 8) == bytes::word64(v),
    ensures
        byte_laws::eight(b, at) == v % 0x1_0000_0000_0000_0000,
{
    let s = b.subrange(at, at + 8);
    byte_laws::lemma_word_bytes(v);
    assert(s[0] == b[at] && s[1] == b[at + 1] && s[2] == b[at + 2] && s[3] == b[at + 3]);
    assert(s[4] == b[at + 4] && s[5] == b[at + 5] && s[6] == b[at + 6] && s[7] == b[at + 7]);
}

proof fn lemma_header_parts(index: &IVFPQIndex, flags: u32)
    ensures
        ({
            let b = file::header_bytes(index, flags);
            &&& b.len() == 64
            &&& b.subrange(0, 4) == bytes::word32(0x4956_5051)
            &&& b.subrange(4, 8) == bytes::word32(1)
            &&& b.subrange(8, 12) == bytes::word32(index.d as int)
            &&& b.subrange(12, 16) == bytes::word32(index.nlist as int)
            &&& b.subrange(16, 20) == bytes::word32(index.pq.m as int)
            &&& b.subrange(20, 24) == bytes::word32(index.pq.ksub as int)
            &&& b.subrange(24, 28) == bytes::word32(index.pq.dsub as int)
            &&& b.subrange(28, 32) == bytes::word32(index.metric.spec_code() as int)
            &&& b.subrange(32, 40) == bytes::word64(
                ivfpq::total_len(index.ids@, index.ids@.len()) as int,
            )
            &&& b.subrange(40, 44) == bytes::word32(flags as int)
            &&& forall|i: int| 44 <= i < 64 ==> #[trigger] b[i] == 0
        }),
{
    let b = file::header_bytes(index, flags);
    file::lemma_header_len(index, flags);
    bytes::lemma_word_len(0x4956_5051);
    bytes::lemma_word_len(1);
    bytes::lemma_word_len(index.d as int);
    bytes::lemma_word_len(index.nlist as int);
    bytes::lemma_word_len(index.pq.m as int);
    bytes::lemma_word_len(index.pq.ksub as int);
    bytes::lemma_word_len(index.pq.dsub as int);
    bytes::lemma_word_len(index.metric.spec_code() as int);
    bytes::lemma_word_len(ivfpq::total_len(index.ids@, index.ids@.len()) as int);
    bytes::lemma_word_len(flags as int);
    assert(b.subrange(0, 4) =~= bytes::word32(0x4956_5051));
    assert(b.subrange(4, 8) =~= bytes::word32(1));
    assert(b.subrange(8, 12) =~= bytes::word32(index.d as int));
    assert(b.subrange(12, 16) =~= bytes::word32(index.nlist as int));
    assert(b.subrange(16, 20) =~= bytes::word32(index.pq.m as int));
    assert(b.subrange(20, 24) =~= bytes::word32(index.pq.ksub as int));
    assert(b.subrange(24, 28) =~= bytes::word32(index.pq.dsub as int));
    assert(b.subrange(28, 32) =~= bytes::word32(index.metric.spec_code() as int));
    assert(b.subrange(32, 40) =~= bytes::word64(
        ivfpq::total_len(index.ids@, index.ids@.len()) as int,
    ));
    assert(b.subrange(40, 44) =~= bytes::word32(flags as int));
}

/// The header: the letters "IVPQ" as a number, version 1, the dimensions, the
/// metric, the number of vectors, the flags, and zeros up to 64 bytes.
pub proof fn lemma_header_layout(index: &IVFPQIndex, flags: u32)
    ensures
        ({
            let b = file::header_bytes(index, flags);
            &&& b.len() == 64
            &&& byte_laws::four(b, 0) == 0x4956_5051
            &&& byte_laws::four(b, 4) == 1
            &&& byte_laws::four(b, 8) == index.d as int % 0x1_0000_0000
            &&& byte_laws::four(b, 12) == index.nlist as int % 0x1_0000_0000
            &&& byte_laws::four(b, 16) == index.pq.m as int % 0x1_0000_0000
            &&& byte_laws::four(b, 20) == index.pq.ksub as int % 0x1_0000_0000
            &&& byte_laws::four(b, 24) == index.pq.dsub as int % 0x1_0000_0000
            &&& byte_laws::four(b, 28) == match index.metric {
                MetricType::L2 => 0int,
                MetricType::InnerProduct => 1,
                MetricType::Cosine => 2,
            }
            &&& byte_laws::eight(b, 32) == index.ids@.map_values(
                |l: Vec<i64>| l@.len() as int,
            ).fold_left(0int, |x: int, y: int| x + y) % 0x1_0000_0000_0000_0000
            &&& byte_laws::four(b, 40) == flags
            &&& forall|i: int| 44 <= i < 64 ==> #[trigger] b[i] == 0
        }),
{
    let b = file::header_bytes(index, flags);
    lemma_header_parts(index, flags);
    lemma_four(b, 0, 0x4956_5051);
    lemma_four(b, 4, 1);
    lemma_four(b, 8, index.d as int);
    lemma_four(b, 12, index.nlist as int);
    lemma_four(b, 16, index.pq.m as int);
    lemma_four(b, 20, index.pq.ksub as int);
    lemma_four(b, 24, index.pq.dsub as int);
    lemma_four(b, 28, index.metric.spec_code() as int);
    lemma_eight(b, 32, ivfpq::total_len(index.ids@, index.ids@.len()) as int);
    lemma_four(b, 40, flags as int);
    index_laws::lemma_total(index.ids@, index.ids@.len());
    assert(index.ids@.take(index.ids@.len() as int) =~= index.ids@);
}

/// The flags say whether there is a rotation, whether the codes are those of
/// residuals, and whether the lists are compact.
pub proof fn lemma_index_flags(index: &IVFPQIndex, compact: bool)
    ensures
        file::index_flags(index, compact) == (if index.opq is Some {
            1int
        } else {
            0
        }) + (if index.by_residual {
            2int
        } else {
            0
        }) + (if compact {
            12int
        } else {
            0
        }),
{
}

/// Behind the header stand the rotation if there is one, the coarse centroids
/// and the codebooks, four bytes for every number.
pub proof fn lemma_front_layout(index: &IVFPQIndex, flags: u32, i: int)
    ensures
        ({
            let b = file::front_bytes(index, flags);
            let turned: int = if index.opq is Some {
                index.opq->0.rotation@.len() as int
            } else {
                0
            };
            let coarse: int = index.quantizer_centroids@.len() as int;
            let fine: int = index.pq.centroids@.len() as int;
            &&& b.len() == 64 + 4 * (turned + coarse + fine)
            &&& b.take(64) == file::header_bytes(index, flags)
            &&& 0 <= i < turned ==> byte_laws::four(b, 64 + 4 * i) == index.opq->0.rotation@[i]
            &&& 0 <= i < coarse ==> byte_laws::four(b, 64 + 4 * (turned + i))
                == index.quantizer_centroids@[i]
            &&& 0 <= i < fine ==> byte_laws::four(b, 64 + 4 * (turned + coarse + i))
                == index.pq.centroids@[i]
        }),
{
    let b = file::front_bytes(index, flags);
    let h = file::header_bytes(index, flags);
    file::lemma_header_len(index, flags);
    assert(b.take(64) =~= h);
    byte_laws::lemma_words(index.quantizer_centroids@, Seq::empty(), i);
    byte_laws::lemma_words(index.pq.centroids@, Seq::empty(), i);
    let turned: int = file::rotation_bytes(index).len() as int;
    if let Some(opq) = index.opq {
        byte_laws::lemma_words(opq.rotation@, Seq::empty(), i);
        let w = codec::words(opq.rotation@);
        if 0 <= i < opq.rotation@.len() {
            lemma_shifted(b, w, 64, 4 * i);
        }
    }
    let coarse = codec::words(index.quantizer_centroids@);
    let fine = codec::words(index.pq.centroids@);
    if 0 <= i < index.quantizer_centroids@.len() {
        lemma_shifted(b, coarse, 64 + turned, 4 * i);
    }
    if 0 <= i < index.pq.centroids@.len() {
        lemma_shifted(b, fine, 64 + turned + coarse.len(), 4 * i);
    }
}

/// A number of a part of `b`.
proof fn lemma_shifted(b: Seq<u8>, w: Seq<u8>, at: int, x: int)
    requires
        0 <= at,
        0 <= x,
        x + 4 <= w.len(),
        at + w.len() <= b.len(),
        forall|y: int| 0 <= y < w.len() ==> #[trigger] w[y] == b[at + y],
    ensures
        byte_laws::four(b, at + x) == byte_laws::four(w, x),
{
    assert(w[x] == b[at + x]);
    assert(w[x + 1] == b[at + (x + 1)]);
    assert(w[x + 2] == b[at + (x + 2)]);
    assert(w[x + 3] == b[at + (x + 3)]);
}

/// An entry of the table: where a list starts, how many vectors it holds, and
/// zeros, in eight, four and four bytes.
pub proof fn lemma_table_layout(starts: Seq<int>, counts: Seq<int>, i: int)
    requires
        0 <= i < starts.len(),
    ensures
        ({
            let b = file::table_bytes(starts, counts);
            &&& b.len() == 16 * starts.len()
            &&& byte_laws::eight(b, 16 * i) == starts[i] % 0x1_0000_0000_0000_0000
            &&& byte_laws::four(b, 16 * i + 8) == counts[i] % 0x1_0000_0000
            &&& byte_laws::four(b, 16 * i + 12) == 0
        }),
{
    let b = file::table_bytes(starts, counts);
    roundtrip::lemma_table_entry(starts, counts, i);
    lemma_eight(b, 16 * i, starts[i]);
    lemma_four(b, 16 * i + 8, counts[i]);
    lemma_four(b, 16 * i + 12, 0);
}

/// An entry of a table that stands behind `front`.
proof fn lemma_entry_place(
    front: Seq<u8>,
    starts: Seq<int>,
    counts: Seq<int>,
    lists: Seq<u8>,
    i: int,
)
    requires
        0 <= i < starts.len(),
    ensures
        ({
            let c = front + file::table_bytes(starts, counts) + lists;
            let n: int = front.len() as int;
            &&& c.len() == n + 16 * starts.len() + lists.len()
            &&& c.take(n) == front
            &&& byte_laws::eight(c, n + 16 * i) == starts[i] % 0x1_0000_0000_0000_0000
            &&& byte_laws::four(c, n + 16 * i + 8) == counts[i] % 0x1_0000_0000
            &&& byte_laws::four(c, n + 16 * i + 12) == 0
        }),
{
    let t = file::table_bytes(starts, counts);
    let c = front + t + lists;
    let n: int = front.len() as int;
    lemma_table_layout(starts, counts, i);
    assert(c.take(n) =~= front);
    lemma_shifted(c, t, n, 16 * i);
    lemma_shifted(c, t, n, 16 * i + 4);
    lemma_shifted(c, t, n, 16 * i + 8);
    lemma_shifted(c, t, n, 16 * i + 12);
}

/// A part of the lists behind a table.
proof fn lemma_list_bytes_place(front: Seq<u8>, t: Seq<u8>, lists: Seq<u8>, off: int, len: int)
    requires
        0 <= off,
        0 <= len,
        off + len <= lists.len(),
    ensures
        ({
            let at: int = front.len() + t.len() + off;
            (front + t + lists).subrange(at, at + len) == lists.subrange(off, off + len)
        }),
{
    let at: int = front.len() + t.len() + off;
    assert((front + t + lists).subrange(at, at + len) =~= lists.subrange(off, off + len));
}

/// Two parts of what stands at `off`.
proof fn lemma_halves(lists: Seq<u8>, off: int, a: Seq<u8>, b: Seq<u8>)
    requires
        0 <= off,
        off + a.len() + b.len() <= lists.len(),
        lists.subrange(off, off + (a + b).len()) == a + b,
    ensures
        lists.subrange(off, off + a.len()) == a,
        lists.subrange(off + a.len(), off + a.len() + b.len()) == b,
{
    let whole = lists.subrange(off, off + (a + b).len());
    assert forall|x: int| 0 <= x < a.len() implies lists[off + x] == a[x] by {
        assert(whole[x] == (a + b)[x]);
    }
    assert forall|x: int| 0 <= x < b.len() implies lists[off + a.len() + x] == b[x] by {
        assert(whole[a.len() + x] == (a + b)[a.len() + x]);
    }
    assert(lists.subrange(off, off + a.len()) =~= a);
    assert(lists.subrange(off + a.len(), off + a.len() + b.len()) =~= b);
}

/// A file is what stands in front of the table, the table, and the lists, one
/// behind the other and each where the table says, counted from `pos` bytes in
/// front of the file.
pub proof fn lemma_file_layout(index: &IVFPQIndex, pos: nat, i: int)
    requires
        0 <= i < index.nlist,
    ensures
        ({
            let c = file::index_bytes(index, pos);
            let front = file::front_bytes(index, file::index_flags(index, true));
            let table: int = front.len() as int;
            let nlist: int = index.nlist as int;
            let cs = index.pq.spec_code_size();
            let one = file::list_bytes(index.ids@[i]@, index.codes@[i]@, cs);
            let at: int = table + 16 * nlist + file::lists_bytes(index, i as nat).len();
            &&& c.len() == table + 16 * nlist + file::lists_bytes(index, nlist as nat).len()
            &&& c.take(table) == front
            &&& byte_laws::eight(c, table + 16 * i) == (pos + at) % 0x1_0000_0000_0000_0000
            &&& byte_laws::four(c, table + 16 * i + 8) == index.ids@[i]@.len() as int
                % 0x1_0000_0000
            &&& byte_laws::four(c, table + 16 * i + 12) == 0
            &&& at + one.len() <= c.len()
            &&& c.subrange(at, at + one.len()) == one
            &&& file::lists_bytes(index, 0).len() == 0
            &&& file::lists_bytes(index, (i + 1) as nat).len() == file::lists_bytes(
                index,
                i as nat,
            ).len() + one.len()
        }),
{
    let c = file::index_bytes(index, pos);
    let front = file::front_bytes(index, file::index_flags(index, true));
    let nlist = index.nlist as nat;
    let counts = file::list_counts(index, nlist);
    let starts = file::list_starts(index, (pos + front.len() + 16 * nlist) as int, nlist);
    let t = file::table_bytes(starts, counts);
    let lists = file::lists_bytes(index, nlist);
    assert(c == front + t + lists);
    lemma_entry_place(front, starts, counts, lists, i);
    file::lemma_table_len(starts, counts);
    roundtrip::lemma_list_place(index, i as nat, nlist);
    let one = file::list_bytes(index.ids@[i]@, index.codes@[i]@, index.pq.spec_code_size());
    let off: int = file::lists_bytes(index, i as nat).len() as int;
    lemma_list_bytes_place(front, t, lists, off, one.len() as int);
}

/// A list: nothing if it is empty; else the smallest ID, how many bytes the
/// differences of the IDs take, those differences, and the codes, the first bytes
/// of all of them first. The IDs are in ascending order, and the codes in the
/// order of their IDs.
pub proof fn lemma_list_layout(ids: Seq<i64>, codes: Seq<u8>, cs: nat, g: int, p: int)
    ensures
        ids.len() == 0 ==> file::list_bytes(ids, codes, cs).len() == 0,
        ids.len() > 0 ==> {
            let b = file::list_bytes(ids, codes, cs);
            let n: int = ids.len() as int;
            let order = sort::sorted_order(ids);
            let sorted = Seq::new(ids.len(), |x: int| ids[order[x]]);
            let len: int = varint::delta_bytes(sorted[0] as int, sorted).len() as int;
            &&& b.len() == 12 + len + n * cs
            &&& byte_laws::eight(b, 0) == sorted[0] as int % 0x1_0000_0000_0000_0000
            &&& byte_laws::four(b, 8) == len % 0x1_0000_0000
            &&& b.subrange(12, 12 + len) == varint::delta_bytes(sorted[0] as int, sorted)
            &&& 0 <= g < n && 0 <= p < cs ==> b[12 + len + p * n + g] == codes[order[g] * cs + p]
        },
{
    if ids.len() > 0 {
        let b = file::list_bytes(ids, codes, cs);
        let n: int = ids.len() as int;
        let order = sort::sorted_order(ids);
        let sorted = Seq::new(ids.len(), |x: int| ids[order[x]]);
        file::lemma_sorted_ids(ids);
        file::lemma_list_len(ids, codes, cs);
        assert(file::sorted_ids(ids) =~= sorted);
        let d = varint::delta_bytes(sorted[0] as int, sorted);
        let len: int = d.len() as int;
        bytes::lemma_word_len(sorted[0] as int);
        bytes::lemma_word_len(len);
        assert(b.subrange(0, 8) =~= bytes::word64(sorted[0] as int));
        assert(b.subrange(8, 12) =~= bytes::word32(len));
        lemma_eight(b, 0, sorted[0] as int);
        lemma_four(b, 8, len);
        assert(b.subrange(12, 12 + len) =~= d);
        if 0 <= g < n && 0 <= p < cs {
            let own = file::sorted_codes(ids, codes, cs);
            code_laws::lemma_transposed(own, ids.len(), cs, g as nat, p as nat);
            code_laws::lemma_unpacked(Seq::empty(), ids.len(), cs, g as nat, p as nat);
            vstd::arithmetic::div_mod::lemma_fundamental_div_mod_converse(
                g * cs + p,
                cs as int,
                g,
                p,
            );
            assert(own[g * cs + p] == codes[order[g] * cs + p]);
            let t = layout::transposed(own, ids.len(), cs);
            assert(b[12 + len + (p * n + g)] == t[p * n + g]);
        }
    }
}

/// IDs as they are: eight bytes each.
pub proof fn lemma_raw_ids_layout(ids: Seq<i64>, i: int)
    ensures
        file::raw_id_bytes(ids).len() == 8 * ids.len(),
        0 <= i < ids.len() ==> byte_laws::eight(file::raw_id_bytes(ids), 8 * i) == ids[i] as int
            % 0x1_0000_0000_0000_0000,
    decreases ids.len(),
{
    file::lemma_raw_id_len(ids);
    if 0 <= i < ids.len() {
        let b = file::raw_id_bytes(ids);
        let front = file::raw_id_bytes(ids.drop_last());
        file::lemma_raw_id_len(ids.drop_last());
        bytes::lemma_word_len(ids.last() as int);
        if i < ids.len() - 1 {
            lemma_raw_ids_layout(ids.drop_last(), i);
            lemma_shifted(b, front, 0, 8 * i);
            lemma_shifted(b, front, 0, 8 * i + 4);
        } else {
            assert(b.subrange(8 * i, 8 * i + 8) =~= bytes::word64(ids.last() as int));
            lemma_eight(b, 8 * i, ids.last() as int);
        }
    }
}

/// A file with IDs and codes as they are: what stands in front of the table, the
/// table, and the lists, one behind the other and each where the table says;
/// a list is its IDs and, behind them, its codes.
pub proof fn lemma_raw_file_layout(index: &IVFPQIndex, pos: nat, i: int)
    requires
        index.wf(),
        0 <= i < index.nlist,
    ensures
        ({
            let c = file::raw_index_bytes(index, pos);
            let front = file::front_bytes(index, file::index_flags(index, false));
            let table: int = front.len() as int;
            let nlist: int = index.nlist as int;
            let ids = index.ids@[i]@;
            let codes = index.codes@[i]@;
            let at: int = table + 16 * nlist + file::raw_lists_len(index, i as nat);
            &&& c.len() == table + 16 * nlist + file::raw_lists_len(index, nlist as nat)
            &&& c.take(table) == front
            &&& byte_laws::eight(c, table + 16 * i) == (pos + at) % 0x1_0000_0000_0000_0000
            &&& byte_laws::four(c, table + 16 * i + 8) == ids.len() as int % 0x1_0000_0000
            &&& byte_laws::four(c, table + 16 * i + 12) == 0
            &&& at + 8 * ids.len() + codes.len() <= c.len()
            &&& c.subrange(at, at + 8 * ids.len()) == file::raw_id_bytes(ids)
            &&& c.subrange(at + 8 * ids.len(), at + 8 * ids.len() + codes.len()) == codes
            &&& file::raw_lists_len(index, 0) == 0
            &&& file::raw_lists_len(index, (i + 1) as nat) == file::raw_lists_len(index, i as nat)
                + 8 * ids.len() + codes.len()
        }),
{
    let c = file::raw_index_bytes(index, pos);
    let front = file::front_bytes(index, file::index_flags(index, false));
    let nlist = index.nlist as nat;
    let counts = file::list_counts(index, nlist);
    let starts = file::raw_list_starts(index, (pos + front.len() + 16 * nlist) as int, nlist);
    let t = file::table_bytes(starts, counts);
    let lists = file::raw_lists_bytes(index, nlist);
    assert(c == front + t + lists);
    lemma_entry_place(front, starts, counts, lists, i);
    file::lemma_table_len(starts, counts);
    roundtrip::lemma_raw_list_place(index, i as nat, nlist);
    roundtrip::lemma_raw_lists_len(index, nlist);
    let ids = index.ids@[i]@;
    let codes = index.codes@[i]@;
    let b = file::raw_id_bytes(ids);
    file::lemma_raw_id_len(ids);
    let off: int = file::raw_lists_len(index, i as nat) as int;
    lemma_halves(lists, off, b, codes);
    lemma_list_bytes_place(front, t, lists, off, b.len() as int);
    lemma_list_bytes_place(front, t, lists, off + b.len(), codes.len() as int);
    assert(codes.len() == ids.len() * index.pq.spec_code_size());
}

/// The file of an index without lists ends with its numbers.
pub proof fn lemma_no_lists(index: &IVFPQIndex, pos: nat)
    requires
        index.nlist == 0,
    ensures
        file::index_bytes(index, pos) == file::front_bytes(index, file::index_flags(index, true)),
        file::raw_index_bytes(index, pos) == file::front_bytes(
            index,
            file::index_flags(index, false),
        ),
{
    let a = file::front_bytes(index, file::index_flags(index, true));
    let b = file::front_bytes(index, file::index_flags(index, false));
    assert(file::index_bytes(index, pos) =~= a);
    assert(file::raw_index_bytes(index, pos) =~= b);
}

} // verus!
