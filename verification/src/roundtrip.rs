//! What is read back of an index that was written.

use crate::bytes;
use crate::codec;
use crate::error::Error;
use crate::file;
use crate::file::{MAGIC, VERSION};
use crate::ivfpq;
use crate::ivfpq::IVFPQIndex;
use crate::layout;
use crate::layout::CodeLayout;
use crate::metric;
use crate::reader;
use crate::reader::Header;
use crate::sort;
use crate::stream;
use crate::varint;
use vstd::prelude::*;

verus! {

/// The shape and the sizes of the index fit the file format.
pub open spec fn storable(index: &IVFPQIndex) -> bool {
    &&& index.wf()
    &&& 0 < index.d <= 0x7fff_ffff
    &&& 0 < index.nlist <= 0x7fff_ffff
    &&& 0 < index.pq.m <= 0x7fff_ffff
    &&& 0 < index.pq.dsub <= 0x7fff_ffff
    &&& index.pq.ksub == 16 || index.pq.ksub == 256
    &&& index.pq.nbits == reader::bits_for(index.pq.ksub)
    &&& index.d == index.pq.m * index.pq.dsub
    &&& index.pq.ksub == 16 ==> index.pq.m % 2 == 0
    &&& codec::section_size(index.d as nat, index.d as nat) is Ok
    &&& codec::section_size(index.nlist as nat, index.d as nat) is Ok
    &&& index.pq.m * index.pq.ksub <= usize::MAX
    &&& codec::section_size((index.pq.m * index.pq.ksub) as nat, index.pq.dsub as nat) is Ok
    &&& index.opq matches Some(opq) ==> opq.rotation@.len() == index.d * index.d
    &&& index.quantizer_centroids@.len() == index.nlist * index.d
    &&& index.pq.centroids@.len() == index.pq.m * index.pq.ksub * index.pq.dsub
    &&& forall|i: int|
        0 <= i < index.nlist ==> (#[trigger] index.ids@[i])@.len() <= 0x7fff_ffff
    &&& ivfpq::total_len(index.ids@, index.nlist as nat) <= i64::MAX
}

/// The encoded IDs of every list are short enough for their length to be
/// stored.
pub open spec fn storable_ids(index: &IVFPQIndex) -> bool {
    forall|i: int|
        #![trigger index.ids@[i]]
        0 <= i < index.nlist && index.ids@[i]@.len() > 0 ==> file::id_bytes(
            index.ids@[i]@,
        ).len() <= 0x7fff_ffff
}

/// The header of an index.
pub open spec fn header_of(index: &IVFPQIndex, compact: bool) -> Header {
    Header {
        d: index.d,
        nlist: index.nlist,
        m: index.pq.m,
        ksub: index.pq.ksub,
        dsub: index.pq.dsub,
        metric: index.metric,
        total_vectors: ivfpq::total_len(index.ids@, index.nlist as nat) as i64,
        by_residual: index.by_residual,
        delta_ids: compact,
        transposed_codes: compact,
        has_opq: index.opq is Some,
    }
}

/// What stands behind a part of a prefix.
proof fn lemma_part(c: Seq<u8>, a: Seq<u8>, w: Seq<u8>)
    requires
        (a + w).is_prefix_of(c),
    ensures
        a.is_prefix_of(c),
        a.len() + w.len() <= c.len(),
        c.subrange(a.len() as int, (a.len() + w.len()) as int) == w,
{
    let whole = c.subrange(0, (a + w).len() as int);
    assert(a + w =~= whole);
    assert forall|i: int| 0 <= i < a.len() implies a[i] == c[i] by {
        assert((a + w)[i] == whole[i]);
    }
    assert(a =~= c.subrange(0, a.len() as int));
    assert forall|i: int| 0 <= i < w.len() implies w[i] == c[a.len() + i] by {
        assert((a + w)[a.len() + i] == whole[a.len() + i]);
    }
    assert(c.subrange(a.len() as int, (a.len() + w.len()) as int) =~= w);
}

/// The header comes back.
proof fn lemma_header_back(index: &IVFPQIndex, compact: bool, c: Seq<u8>)
    requires
        storable(index),
        file::header_bytes(index, file::index_flags(index, compact)).is_prefix_of(c),
    ensures
        reader::parse_header(c) == Ok::<Header, Error>(header_of(index, compact)),
{
    let flags = file::index_flags(index, compact);
    let total = ivfpq::total_len(index.ids@, index.ids@.len()) as int;
    let a0 = bytes::word32(MAGIC as int);
    let a1 = a0 + bytes::word32(VERSION as int);
    let a2 = a1 + bytes::word32(index.d as int);
    let a3 = a2 + bytes::word32(index.nlist as int);
    let a4 = a3 + bytes::word32(index.pq.m as int);
    let a5 = a4 + bytes::word32(index.pq.ksub as int);
    let a6 = a5 + bytes::word32(index.pq.dsub as int);
    let a7 = a6 + bytes::word32(index.metric.spec_code() as int);
    let a8 = a7 + bytes::word64(total);
    let a9 = a8 + bytes::word32(flags as int);
    file::lemma_header_len(index, flags);
    bytes::lemma_word_len(MAGIC as int);
    bytes::lemma_word_len(VERSION as int);
    bytes::lemma_word_len(index.d as int);
    bytes::lemma_word_len(index.nlist as int);
    bytes::lemma_word_len(index.pq.m as int);
    bytes::lemma_word_len(index.pq.ksub as int);
    bytes::lemma_word_len(index.pq.dsub as int);
    bytes::lemma_word_len(index.metric.spec_code() as int);
    bytes::lemma_word_len(total);
    bytes::lemma_word_len(flags as int);
    lemma_part(c, a9, Seq::new(20, |i: int| 0u8));
    lemma_part(c, a8, bytes::word32(flags as int));
    lemma_part(c, a7, bytes::word64(total));
    lemma_part(c, a6, bytes::word32(index.metric.spec_code() as int));
    lemma_part(c, a5, bytes::word32(index.pq.dsub as int));
    lemma_part(c, a4, bytes::word32(index.pq.ksub as int));
    lemma_part(c, a3, bytes::word32(index.pq.m as int));
    lemma_part(c, a2, bytes::word32(index.nlist as int));
    lemma_part(c, a1, bytes::word32(index.d as int));
    lemma_part(c, a0, bytes::word32(VERSION as int));
    assert(Seq::<u8>::empty() + a0 =~= a0);
    lemma_part(c, Seq::empty(), a0);
    bytes::lemma_word32_roundtrip(MAGIC as int);
    bytes::lemma_word32_roundtrip(VERSION as int);
    bytes::lemma_word32_roundtrip(index.d as int);
    bytes::lemma_word32_roundtrip(index.nlist as int);
    bytes::lemma_word32_roundtrip(index.pq.m as int);
    bytes::lemma_word32_roundtrip(index.pq.ksub as int);
    bytes::lemma_word32_roundtrip(index.pq.dsub as int);
    bytes::lemma_word32_roundtrip(index.metric.spec_code() as int);
    bytes::lemma_word32_roundtrip(flags as int);
    bytes::lemma_word64_roundtrip(total);
    metric::lemma_metric_roundtrip(index.metric, 0);
    assert(reader::word(c, 0) == MAGIC);
    assert(reader::word(c, 4) == VERSION);
    assert(reader::signed_word(c, 8) == index.d);
    assert(reader::signed_word(c, 12) == index.nlist);
    assert(reader::signed_word(c, 16) == index.pq.m);
    assert(reader::signed_word(c, 20) == index.pq.ksub);
    assert(reader::signed_word(c, 24) == index.pq.dsub);
    assert(reader::word(c, 28) == index.metric.spec_code());
    assert(reader::double_word(c, 32) == total);
    assert(reader::word(c, 40) == flags);
}

/// An entry of the table.
pub proof fn lemma_table_entry(starts: Seq<int>, counts: Seq<int>, i: int)
    requires
        0 <= i < starts.len(),
    ensures
        file::table_bytes(starts, counts).len() == 16 * starts.len(),
        file::table_bytes(starts, counts).subrange(16 * i, 16 * i + 8) == bytes::word64(starts[i]),
        file::table_bytes(starts, counts).subrange(16 * i + 8, 16 * i + 12) == bytes::word32(
            counts[i],
        ),
        file::table_bytes(starts, counts).subrange(16 * i + 12, 16 * i + 16) == bytes::word32(0),
    decreases starts.len(),
{
    let t = file::table_bytes(starts, counts);
    let front = file::table_bytes(starts.drop_last(), counts);
    let w = bytes::word64(starts.last());
    let v = bytes::word32(counts[starts.len() - 1]);
    file::lemma_table_len(starts, counts);
    file::lemma_table_len(starts.drop_last(), counts);
    bytes::lemma_word_len(starts.last());
    bytes::lemma_word_len(counts[starts.len() - 1]);
    bytes::lemma_word_len(0);
    if i == starts.len() - 1 {
        assert(t.subrange(16 * i, 16 * i + 8) =~= w);
        assert(t.subrange(16 * i + 8, 16 * i + 12) =~= v);
        assert(t.subrange(16 * i + 12, 16 * i + 16) =~= bytes::word32(0));
    } else {
        lemma_table_entry(starts.drop_last(), counts, i);
        assert(t.subrange(16 * i, 16 * i + 8) =~= front.subrange(16 * i, 16 * i + 8));
        assert(t.subrange(16 * i + 8, 16 * i + 12) =~= front.subrange(16 * i + 8, 16 * i + 12));
        assert(t.subrange(16 * i + 12, 16 * i + 16) =~= front.subrange(16 * i + 12, 16 * i + 16));
    }
}

/// The table comes back.
proof fn lemma_table_back(starts: Seq<int>, counts: Seq<int>, c: Seq<u8>, at: int, i: int)
    requires
        0 <= i < starts.len(),
        0 <= at,
        at + 16 * starts.len() <= c.len(),
        c.subrange(at, at + 16 * starts.len()) == file::table_bytes(starts, counts),
        0 <= starts[i] < 0x1_0000_0000_0000_0000,
        0 <= counts[i] <= 0x7fff_ffff,
    ensures
        (reader::entry_start(c, at, i) as int) % 0x1_0000_0000_0000_0000 == starts[i],
        reader::entry_count(c, at, i) == counts[i],
{
    let t = file::table_bytes(starts, counts);
    lemma_table_entry(starts, counts, i);
    assert(c.subrange(at + 16 * i, at + 16 * i + 8) =~= t.subrange(16 * i, 16 * i + 8));
    assert(c.subrange(at + 16 * i + 8, at + 16 * i + 8 + 4) =~= t.subrange(
        16 * i + 8,
        16 * i + 12,
    ));
    bytes::lemma_word64_roundtrip(starts[i]);
    bytes::lemma_word32_roundtrip(counts[i]);
}

/// A table without negative counts is sound.
proof fn lemma_table_sound(c: Seq<u8>, at: int, n: nat)
    requires
        0 <= at,
        at + 16 * n <= c.len(),
        forall|i: int| 0 <= i < n ==> #[trigger] reader::entry_count(c, at, i) >= 0,
    ensures
        reader::table_error(c, at, n) is None,
    decreases n,
{
    if n > 0 {
        lemma_table_sound(c, at, (n - 1) as nat);
        assert(reader::entry_count(c, at, n - 1) >= 0);
    }
}

/// What stands in front of the table comes back.
proof fn lemma_front_back(index: &IVFPQIndex, compact: bool, c: Seq<u8>)
    requires
        storable(index),
        file::front_bytes(index, file::index_flags(index, compact)).is_prefix_of(c),
    ensures
        reader::parse_header(c) == Ok::<Header, Error>(header_of(index, compact)),
        file::front_bytes(index, file::index_flags(index, compact)).len() == reader::table_at(
            header_of(index, compact),
        ),
        index.opq matches Some(opq) ==> reader::numbers(
            c,
            64,
            reader::centroids_at(header_of(index, compact)),
        ) == opq.rotation@,
        reader::numbers(
            c,
            reader::centroids_at(header_of(index, compact)),
            reader::codebooks_at(header_of(index, compact)),
        ) == index.quantizer_centroids@,
        reader::numbers(
            c,
            reader::codebooks_at(header_of(index, compact)),
            reader::table_at(header_of(index, compact)),
        ) == index.pq.centroids@,
{
    let flags = file::index_flags(index, compact);
    let header = file::header_bytes(index, flags);
    let rotation = file::rotation_bytes(index);
    let centroids = codec::words(index.quantizer_centroids@);
    let codebooks = codec::words(index.pq.centroids@);
    lemma_part(c, header + rotation + centroids, codebooks);
    lemma_part(c, header + rotation, centroids);
    lemma_part(c, header, rotation);
    lemma_header_back(index, compact, c);
    file::lemma_header_len(index, flags);
    codec::lemma_words_roundtrip(index.quantizer_centroids@);
    codec::lemma_words_roundtrip(index.pq.centroids@);
    if let Some(opq) = index.opq {
        codec::lemma_words_roundtrip(opq.rotation@);
    }
}

/// Everything in a sound file in front of the lists comes back.
proof fn lemma_sections_back(
    index: &IVFPQIndex,
    compact: bool,
    starts: Seq<int>,
    c: Seq<u8>,
)
    requires
        storable(index),
        (file::front_bytes(index, file::index_flags(index, compact)) + file::table_bytes(
            starts,
            file::list_counts(index, index.nlist as nat),
        )).is_prefix_of(c),
        starts.len() == index.nlist,
        forall|i: int|
            0 <= i < starts.len() ==> 0 <= #[trigger] starts[i] < 0x1_0000_0000_0000_0000,
    ensures
        reader::parse_header(c) == Ok::<Header, Error>(header_of(index, compact)),
        reader::sections_error(c, header_of(index, compact)) is None,
        sections_are(index, compact, c),
        forall|i: int|
            0 <= i < index.nlist ==> (#[trigger] reader::entry_start(
                c,
                reader::table_at(header_of(index, compact)),
                i,
            ) as int) % 0x1_0000_0000_0000_0000 == starts[i],
{
    let h = header_of(index, compact);
    let front = file::front_bytes(index, file::index_flags(index, compact));
    let counts = file::list_counts(index, index.nlist as nat);
    let table = file::table_bytes(starts, counts);
    lemma_part(c, front, table);
    lemma_front_back(index, compact, c);
    file::lemma_table_len(starts, counts);
    let at = reader::table_at(h);
    assert forall|i: int| 0 <= i < index.nlist implies (#[trigger] reader::entry_start(
        c,
        at,
        i,
    ) as int) % 0x1_0000_0000_0000_0000 == starts[i] && reader::entry_count(c, at, i)
        == index.ids@[i]@.len() by {
        assert(0 <= starts[i] < 0x1_0000_0000_0000_0000);
        assert(index.ids@[i]@.len() <= 0x7fff_ffff);
        lemma_table_back(starts, counts, c, at, i);
    }
    assert forall|i: int| 0 <= i < index.nlist implies #[trigger] reader::entry_count(c, at, i)
        == index.ids@[i]@.len() by {
        let s = reader::entry_start(c, at, i);
    }
    lemma_table_sound(c, at, index.nlist as nat);
}

/// The file `c` holds what the index was trained to, and the lengths of its
/// lists.
pub open spec fn sections_are(index: &IVFPQIndex, compact: bool, c: Seq<u8>) -> bool {
    let h = header_of(index, compact);
    &&& index.opq matches Some(opq) ==> reader::numbers(c, 64, reader::centroids_at(h))
        == opq.rotation@
    &&& reader::numbers(c, reader::centroids_at(h), reader::codebooks_at(h))
        == index.quantizer_centroids@
    &&& reader::numbers(c, reader::codebooks_at(h), reader::table_at(h)) == index.pq.centroids@
    &&& forall|i: int|
        0 <= i < index.nlist ==> #[trigger] reader::entry_count(c, reader::table_at(h), i)
            == index.ids@[i]@.len()
}

/// One compact list comes back from its place.
proof fn lemma_list_back(ids: Seq<i64>, codes: Seq<u8>, cs: nat, c: Seq<u8>, pos: nat)
    requires
        pos + file::list_bytes(ids, codes, cs).len() <= c.len(),
        c.subrange(pos as int, (pos + file::list_bytes(ids, codes, cs).len()) as int)
            == file::list_bytes(ids, codes, cs),
        ids.len() > 0 ==> file::id_bytes(ids).len() <= 0x7fff_ffff,
    ensures
        reader::list_at(c, true, pos, ids.len(), cs) == Ok::<(Seq<i64>, Seq<u8>), Error>(
            (
                file::sorted_ids(ids),
                layout::transposed(file::sorted_codes(ids, codes, cs), ids.len(), cs),
            ),
        ),
{
    let sorted = file::sorted_ids(ids);
    let t = layout::transposed(file::sorted_codes(ids, codes, cs), ids.len(), cs);
    file::lemma_sorted_ids(ids);
    if ids.len() == 0 {
        assert(sorted =~= Seq::<i64>::empty());
        assert(0 * cs == 0) by (nonlinear_arith);
        assert(t =~= Seq::<u8>::empty());
    } else {
        let whole = file::list_bytes(ids, codes, cs);
        let b = file::id_bytes(ids);
        let p: int = pos as int;
        let w = bytes::word64(sorted[0] as int);
        let v = bytes::word32(b.len() as int);
        bytes::lemma_word_len(sorted[0] as int);
        bytes::lemma_word_len(b.len() as int);
        bytes::lemma_word64_roundtrip(sorted[0] as int);
        bytes::lemma_word32_roundtrip(b.len() as int);
        assert(whole.subrange(0, 8) =~= w);
        assert(whole.subrange(8, 12) =~= v);
        assert(whole.subrange(12, (12 + b.len()) as int) =~= b);
        assert(whole.subrange((12 + b.len()) as int, whole.len() as int) =~= t);
        assert(c.subrange(p, p + 8) =~= whole.subrange(0, 8));
        assert(c.subrange(p + 8, p + 8 + 4) =~= whole.subrange(8, 12));
        assert(c.subrange(p + 12, p + 12 + b.len()) =~= whole.subrange(
            12,
            (12 + b.len()) as int,
        ));
        assert(c.subrange(p + 12 + b.len(), p + whole.len())
            =~= whole.subrange((12 + b.len()) as int, whole.len() as int));
        assert(b + Seq::<u8>::empty() =~= b);
        varint::lemma_delta_ids_roundtrip(sorted[0], sorted, Seq::empty());
        assert(reader::double_word(c, pos as int) == sorted[0]);
        assert(reader::signed_word(c, (pos + 8) as int) == b.len());
        assert(stream::read_at(c, pos + 12, b.len()) == Ok::<Seq<u8>, Error>(b));
        if ids.len() * cs == 0 {
            assert(t =~= Seq::<u8>::empty());
        }
    }
}

/// Every list stands behind those before it.
pub proof fn lemma_list_place(index: &IVFPQIndex, i: nat, n: nat)
    requires
        i < n,
    ensures
        ({
            let one = file::list_bytes(
                index.ids@[i as int]@,
                index.codes@[i as int]@,
                index.pq.spec_code_size(),
            );
            let all = file::lists_bytes(index, n);
            let at = file::lists_bytes(index, i).len();
            at + one.len() <= all.len() && all.subrange(at as int, (at + one.len()) as int) == one
        }),
    decreases n,
{
    let one = file::list_bytes(
        index.ids@[i as int]@,
        index.codes@[i as int]@,
        index.pq.spec_code_size(),
    );
    let all = file::lists_bytes(index, n);
    let at = file::lists_bytes(index, i).len();
    if i == n - 1 {
        assert(all.subrange(at as int, (at + one.len()) as int) =~= one);
    } else {
        lemma_list_place(index, i, (n - 1) as nat);
        let before = file::lists_bytes(index, (n - 1) as nat);
        assert(all.subrange(at as int, (at + one.len()) as int) =~= before.subrange(
            at as int,
            (at + one.len()) as int,
        ));
    }
}

/// A compact list comes back from a file whose lists start at `data_at`.
proof fn lemma_list_in_file(index: &IVFPQIndex, c: Seq<u8>, data_at: int, i: int)
    requires
        storable(index),
        storable_ids(index),
        0 <= i < index.nlist,
        0 <= data_at,
        data_at + file::lists_bytes(index, index.nlist as nat).len() <= c.len(),
        c.subrange(data_at, data_at + file::lists_bytes(index, index.nlist as nat).len())
            == file::lists_bytes(index, index.nlist as nat),
    ensures
        reader::list_at(
            c,
            true,
            (data_at + file::lists_bytes(index, i as nat).len()) as nat,
            index.ids@[i]@.len(),
            index.pq.spec_code_size(),
        ) == Ok::<(Seq<i64>, Seq<u8>), Error>(
            (
                file::sorted_ids(index.ids@[i]@),
                layout::transposed(
                    file::sorted_codes(
                        index.ids@[i]@,
                        index.codes@[i]@,
                        index.pq.spec_code_size(),
                    ),
                    index.ids@[i]@.len(),
                    index.pq.spec_code_size(),
                ),
            ),
        ),
{
    let cs = index.pq.spec_code_size();
    let lists = file::lists_bytes(index, index.nlist as nat);
    lemma_list_place(index, i as nat, index.nlist as nat);
    let one = file::list_bytes(index.ids@[i]@, index.codes@[i]@, cs);
    let at = file::lists_bytes(index, i as nat).len() as int;
    let pos: nat = (data_at + at) as nat;
    assert(c.subrange(pos as int, (pos + one.len()) as int) =~= lists.subrange(
        at,
        at + one.len(),
    ));
    lemma_list_back(index.ids@[i]@, index.codes@[i]@, cs, c, pos);
}

/// An index that was written to the start of a file is read back: the header,
/// the rotation, the centroids and the codebooks as they were, and every list
/// with its IDs sorted, its codes in the same order and transposed. Whatever
/// follows the index in the file does not matter.
pub proof fn lemma_write_read(index: &IVFPQIndex, rest: Seq<u8>)
    requires
        storable(index),
        storable_ids(index),
        file::index_bytes(index, 0).len() <= u64::MAX,
    ensures
        ({
            let c = file::index_bytes(index, 0) + rest;
            let h = header_of(index, true);
            &&& reader::parse_header(c) == Ok::<Header, Error>(h)
            &&& reader::sections_error(c, h) is None
            &&& sections_are(index, true, c)
            &&& forall|i: int|
                0 <= i < index.nlist ==> #[trigger] reader::list_result(c, h, i) == Ok::<
                    (Seq<i64>, Seq<u8>),
                    Error,
                >(
                    (
                        file::sorted_ids(index.ids@[i]@),
                        layout::transposed(
                            file::sorted_codes(
                                index.ids@[i]@,
                                index.codes@[i]@,
                                index.pq.spec_code_size(),
                            ),
                            index.ids@[i]@.len(),
                            index.pq.spec_code_size(),
                        ),
                    ),
                )
        }),
{
    let c = file::index_bytes(index, 0) + rest;
    let h = header_of(index, true);
    let nlist = index.nlist as nat;
    let cs = index.pq.spec_code_size();
    let front = file::front_bytes(index, file::index_flags(index, true));
    let data_at: int = (front.len() + 16 * nlist) as int;
    let starts = file::list_starts(index, data_at, nlist);
    let table = file::table_bytes(starts, file::list_counts(index, nlist));
    let lists = file::lists_bytes(index, nlist);
    assert(file::index_bytes(index, 0) == front + table + lists);
    file::lemma_table_len(starts, file::list_counts(index, nlist));
    assert((front + table + lists) =~= c.subrange(0, (front + table + lists).len() as int));
    lemma_part(c, front + table, lists);
    assert forall|i: int| 0 <= i < starts.len() implies 0 <= #[trigger] starts[i]
        < 0x1_0000_0000_0000_0000 by {
        lemma_list_place(index, i as nat, nlist);
    }
    lemma_sections_back(index, true, starts, c);
    assert forall|i: int| 0 <= i < index.nlist implies #[trigger] reader::list_result(c, h, i)
        == Ok::<(Seq<i64>, Seq<u8>), Error>(
        (
            file::sorted_ids(index.ids@[i]@),
            layout::transposed(
                file::sorted_codes(index.ids@[i]@, index.codes@[i]@, cs),
                index.ids@[i]@.len(),
                cs,
            ),
        ),
    ) by {
        assert((reader::entry_start(c, reader::table_at(h), i) as int) % 0x1_0000_0000_0000_0000
            == starts[i]);
        assert(reader::entry_count(c, reader::table_at(h), i) == index.ids@[i]@.len());
        lemma_list_in_file(index, c, data_at, i);
    }
}

/// IDs as they are come back.
proof fn lemma_raw_ids_back(ids: Seq<i64>)
    ensures
        file::raw_id_bytes(ids).len() == 8 * ids.len(),
        reader::raw_ids(file::raw_id_bytes(ids)) == ids,
    decreases ids.len(),
{
    file::lemma_raw_id_len(ids);
    if ids.len() > 0 {
        let front = ids.drop_last();
        let b = file::raw_id_bytes(ids);
        lemma_raw_ids_back(front);
        bytes::lemma_word_len(ids.last() as int);
        bytes::lemma_word64_roundtrip(ids.last() as int);
        assert forall|i: int| 0 <= i < ids.len() implies reader::raw_ids(b)[i] == ids[i] by {
            if i < front.len() {
                assert(b.subrange(8 * i, 8 * i + 8) =~= file::raw_id_bytes(front).subrange(
                    8 * i,
                    8 * i + 8,
                ));
                assert(reader::raw_ids(file::raw_id_bytes(front))[i] == front[i]);
            } else {
                assert(b.subrange(8 * i, 8 * i + 8) =~= bytes::word64(ids.last() as int));
            }
        }
        assert(reader::raw_ids(b) =~= ids);
    } else {
        assert(reader::raw_ids(file::raw_id_bytes(ids)) =~= ids);
    }
}

/// One list as it is comes back from its place.
proof fn lemma_raw_list_back(ids: Seq<i64>, codes: Seq<u8>, cs: nat, c: Seq<u8>, pos: nat)
    requires
        codes.len() == ids.len() * cs,
        pos + 8 * ids.len() + codes.len() <= c.len(),
        c.subrange(pos as int, (pos + 8 * ids.len() + codes.len()) as int) == file::raw_id_bytes(
            ids,
        ) + codes,
    ensures
        reader::list_at(c, false, pos, ids.len(), cs) == Ok::<(Seq<i64>, Seq<u8>), Error>(
            (ids, codes),
        ),
{
    let p: int = pos as int;
    let n: int = ids.len() as int;
    let whole = file::raw_id_bytes(ids) + codes;
    lemma_raw_ids_back(ids);
    if n == 0 {
        assert(0 * cs == 0) by (nonlinear_arith);
        assert(ids =~= Seq::<i64>::empty());
        assert(codes =~= Seq::<u8>::empty());
    } else {
        assert(c.subrange(p, p + 8 * n) =~= file::raw_id_bytes(ids)) by {
            assert(c.subrange(p, p + 8 * n) =~= whole.subrange(0, 8 * n));
        }
        assert(c.subrange(p + 8 * n, p + 8 * n + codes.len()) =~= codes) by {
            assert(c.subrange(p + 8 * n, p + 8 * n + codes.len()) =~= whole.subrange(
                8 * n,
                8 * n + codes.len(),
            ));
        }
        if ids.len() * cs == 0 {
            assert(codes =~= Seq::<u8>::empty());
        }
    }
}

/// Every list stands behind those before it, with IDs and codes as they are.
pub proof fn lemma_raw_list_place(index: &IVFPQIndex, i: nat, n: nat)
    requires
        index.wf(),
        i < n <= index.nlist,
    ensures
        ({
            let one = file::raw_id_bytes(index.ids@[i as int]@) + index.codes@[i as int]@;
            let all = file::raw_lists_bytes(index, n);
            let at = file::raw_lists_len(index, i);
            at + one.len() <= all.len() && all.subrange(at as int, (at + one.len()) as int) == one
        }),
    decreases n,
{
    let one = file::raw_id_bytes(index.ids@[i as int]@) + index.codes@[i as int]@;
    let all = file::raw_lists_bytes(index, n);
    let at = file::raw_lists_len(index, i);
    if i == n - 1 {
        lemma_raw_lists_len(index, i);
        assert(all.subrange(at as int, (at + one.len()) as int) =~= one);
    } else {
        lemma_raw_list_place(index, i, (n - 1) as nat);
        let before = file::raw_lists_bytes(index, (n - 1) as nat);
        assert(all.subrange(at as int, (at + one.len()) as int) =~= before.subrange(
            at as int,
            (at + one.len()) as int,
        ));
    }
}

/// The lists take the room that was set aside for them.
pub proof fn lemma_raw_lists_len(index: &IVFPQIndex, n: nat)
    requires
        index.wf(),
        n <= index.nlist,
    ensures
        file::raw_lists_bytes(index, n).len() == file::raw_lists_len(index, n),
    decreases n,
{
    if n > 0 {
        lemma_raw_lists_len(index, (n - 1) as nat);
        file::lemma_raw_id_len(index.ids@[n - 1]@);
        assert(index.codes@[n - 1]@.len() == index.ids@[n - 1]@.len() * index.pq.spec_code_size());
    }
}

/// A list as it is comes back from a file whose lists start at `data_at`.
proof fn lemma_raw_list_in_file(index: &IVFPQIndex, c: Seq<u8>, data_at: int, i: int)
    requires
        storable(index),
        0 <= i < index.nlist,
        0 <= data_at,
        data_at + file::raw_lists_bytes(index, index.nlist as nat).len() <= c.len(),
        c.subrange(data_at, data_at + file::raw_lists_bytes(index, index.nlist as nat).len())
            == file::raw_lists_bytes(index, index.nlist as nat),
    ensures
        reader::list_at(
            c,
            false,
            (data_at + file::raw_lists_len(index, i as nat)) as nat,
            index.ids@[i]@.len(),
            index.pq.spec_code_size(),
        ) == Ok::<(Seq<i64>, Seq<u8>), Error>((index.ids@[i]@, index.codes@[i]@)),
{
    let cs = index.pq.spec_code_size();
    let lists = file::raw_lists_bytes(index, index.nlist as nat);
    lemma_raw_list_place(index, i as nat, index.nlist as nat);
    file::lemma_raw_id_len(index.ids@[i]@);
    assert(index.codes@[i]@.len() == index.ids@[i]@.len() * cs);
    let one = file::raw_id_bytes(index.ids@[i]@) + index.codes@[i]@;
    let at = file::raw_lists_len(index, i as nat) as int;
    let pos: nat = (data_at + at) as nat;
    assert(c.subrange(pos as int, (pos + one.len()) as int) =~= lists.subrange(
        at,
        at + one.len(),
    ));
    lemma_raw_list_back(index.ids@[i]@, index.codes@[i]@, cs, c, pos);
}

/// An index that was written with its IDs and codes as they are is read back as
/// it was.
pub proof fn lemma_write_read_raw(index: &IVFPQIndex, rest: Seq<u8>)
    requires
        storable(index),
        file::raw_index_bytes(index, 0).len() <= u64::MAX,
    ensures
        ({
            let c = file::raw_index_bytes(index, 0) + rest;
            let h = header_of(index, false);
            &&& reader::parse_header(c) == Ok::<Header, Error>(h)
            &&& reader::sections_error(c, h) is None
            &&& sections_are(index, false, c)
            &&& forall|i: int|
                0 <= i < index.nlist ==> #[trigger] reader::list_result(c, h, i) == Ok::<
                    (Seq<i64>, Seq<u8>),
                    Error,
                >((index.ids@[i]@, index.codes@[i]@))
        }),
{
    let c = file::raw_index_bytes(index, 0) + rest;
    let h = header_of(index, false);
    let nlist = index.nlist as nat;
    let cs = index.pq.spec_code_size();
    let front = file::front_bytes(index, file::index_flags(index, false));
    let data_at: int = (front.len() + 16 * nlist) as int;
    let starts = file::raw_list_starts(index, data_at, nlist);
    let table = file::table_bytes(starts, file::list_counts(index, nlist));
    let lists = file::raw_lists_bytes(index, nlist);
    assert(file::raw_index_bytes(index, 0) == front + table + lists);
    file::lemma_table_len(starts, file::list_counts(index, nlist));
    assert((front + table + lists) =~= c.subrange(0, (front + table + lists).len() as int));
    lemma_part(c, front + table, lists);
    assert forall|i: int| 0 <= i < starts.len() implies 0 <= #[trigger] starts[i]
        < 0x1_0000_0000_0000_0000 by {
        lemma_raw_list_place(index, i as nat, nlist);
    }
    lemma_sections_back(index, false, starts, c);
    assert forall|i: int| 0 <= i < index.nlist implies #[trigger] reader::list_result(c, h, i)
        == Ok::<(Seq<i64>, Seq<u8>), Error>((index.ids@[i]@, index.codes@[i]@)) by {
        assert((reader::entry_start(c, reader::table_at(h), i) as int) % 0x1_0000_0000_0000_0000
            == starts[i]);
        assert(reader::entry_count(c, reader::table_at(h), i) == index.ids@[i]@.len());
        lemma_raw_list_in_file(index, c, data_at, i);
    }
}

/// Every vector that is read back from a compact list has the ID and the code
/// that it was written with, at its place in the order of the IDs.
pub proof fn lemma_code_follows_id(ids: Seq<i64>, codes: Seq<u8>, cs: nat, g: nat)
    requires
        g < ids.len(),
        codes.len() == ids.len() * cs,
    ensures
        ({
            let from = sort::sorted_order(ids)[g as int];
            let stored = layout::transposed(file::sorted_codes(ids, codes, cs), ids.len(), cs);
            &&& 0 <= from < ids.len()
            &&& file::sorted_ids(ids)[g as int] == ids[from]
            &&& layout::code_row(CodeLayout::Transposed, stored, ids.len(), cs, g)
                == layout::code_row(CodeLayout::RowMajor, codes, ids.len(), cs, from as nat)
        }),
{
    let n = ids.len();
    let sorted = file::sorted_codes(ids, codes, cs);
    let from = sort::sorted_order(ids)[g as int];
    file::lemma_sorted_ids(ids);
    layout::lemma_transposed_row(sorted, n, cs, g);
    let a = layout::code_row(CodeLayout::RowMajor, sorted, n, cs, g);
    let b = layout::code_row(CodeLayout::RowMajor, codes, n, cs, from as nat);
    assert forall|p: int| 0 <= p < cs implies a[p] == b[p] by {
        layout::lemma_code_index_bound(CodeLayout::RowMajor, n, cs, g, p as nat);
        vstd::arithmetic::div_mod::lemma_fundamental_div_mod_converse(
            (g * cs + p) as int,
            cs as int,
            g as int,
            p,
        );
    }
    assert(a =~= b);
}

} // verus!
