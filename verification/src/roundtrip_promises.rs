//! What comes back from an index file that was written.

use crate::byte_laws;
use crate::code_laws;
use crate::error::Error;
use crate::file;
use crate::index_laws;
use crate::ivfpq::IVFPQIndex;
use crate::read_laws;
use crate::reader;
use crate::reader::IVFPQIndexReader;
use crate::roundtrip;
use crate::sort;
use crate::stream::{Output, SeekRead, SeekWrite};
use crate::write_laws;
use crate::writer;
use vstd::prelude::*;

verus! {

/// An index can be stored if its dimensions fit each other, none of its sections
/// is too large, and its numbers fit the fields that they are stored in.
pub proof fn lemma_storable(index: &IVFPQIndex)
    requires
        index.wf(),
        0 < index.d <= 0x7fff_ffff,
        0 < index.nlist <= 0x7fff_ffff,
        0 < index.pq.m <= 0x7fff_ffff,
        0 < index.pq.dsub <= 0x7fff_ffff,
        (index.pq.ksub == 256 && index.pq.nbits == 8) || (index.pq.ksub == 16 && index.pq.nbits == 4
            && index.pq.m % 2 == 0),
        index.d == index.pq.m * index.pq.dsub,
        index.d * index.d <= 0x4000_0000,
        index.nlist * index.d <= 0x4000_0000,
        index.pq.m * index.pq.ksub <= usize::MAX,
        index.pq.m * index.pq.ksub * index.pq.dsub <= 0x4000_0000,
        index.opq is Some ==> index.opq->0.rotation@.len() == index.d * index.d,
        index.quantizer_centroids@.len() == index.nlist * index.d,
        index.pq.centroids@.len() == index.pq.m * index.pq.ksub * index.pq.dsub,
        forall|i: int| 0 <= i < index.nlist ==> (#[trigger] index.ids@[i])@.len() <= 0x7fff_ffff,
        index.ids@.map_values(|l: Vec<i64>| l@.len() as int).fold_left(
            0int,
            |a: int, b: int| a + b,
        ) <= i64::MAX,
    ensures
        roundtrip::storable(index),
{
    index_laws::lemma_total(index.ids@, index.nlist as nat);
    assert(index.ids@.take(index.nlist as int) =~= index.ids@);
    read_laws::lemma_section_size(index.d as nat, index.d as nat);
    read_laws::lemma_section_size(index.nlist as nat, index.d as nat);
    assert(0 <= index.pq.m * index.pq.ksub) by (nonlinear_arith);
    read_laws::lemma_section_size(
        (index.pq.m * index.pq.ksub) as nat,
        index.pq.dsub as nat,
    );
}

/// An index that was written can be opened, and says what the index said: its
/// IDs are stored as differences and its codes transposed. Whatever follows it in
/// the file does not matter.
pub proof fn lemma_write_open<W: SeekWrite, R: SeekRead>(
    index: &IVFPQIndex,
    before: Output,
    after: Output,
    rest: Seq<u8>,
    reader: R,
    opened: Result<IVFPQIndexReader<R>, Error>,
)
    requires
        exists|o: &mut W|
            #[trigger] call_ensures(writer::write_index::<W>, (index, o), Ok(())) && o.output()
                == before && final(o).output() == after,
        roundtrip::storable(index),
        roundtrip::storable_ids(index),
        before.written.len() == 0,
        before.position == 0,
        after.written.len() <= u64::MAX,
        reader.contents() == after.written + rest,
        reader.reliable(),
        call_ensures(IVFPQIndexReader::<R>::open, (reader,), opened),
    ensures
        opened matches Ok(file) && {
            &&& file.d == index.d
            &&& file.nlist == index.nlist
            &&& file.m == index.pq.m
            &&& file.ksub == index.pq.ksub
            &&& file.dsub == index.pq.dsub
            &&& file.metric == index.metric
            &&& file.by_residual == index.by_residual
            &&& file.has_opq <==> index.opq is Some
            &&& file.delta_ids
            &&& file.transposed_codes
            &&& file.total_vectors == index.ids@.take(index.nlist as int).map_values(
                |l: Vec<i64>| l@.len() as int,
            ).fold_left(0int, |a: int, b: int| a + b)
        },
{
    index_laws::lemma_total(index.ids@, index.nlist as nat);
    assert(after.written =~= file::index_bytes(index, 0));
    roundtrip::lemma_write_read(index, rest);
}

/// An index that was written with IDs and codes as they are can be opened, and
/// says what the index said.
pub proof fn lemma_write_open_raw<W: SeekWrite, R: SeekRead>(
    index: &IVFPQIndex,
    before: Output,
    after: Output,
    rest: Seq<u8>,
    reader: R,
    opened: Result<IVFPQIndexReader<R>, Error>,
)
    requires
        exists|o: &mut W|
            #[trigger] call_ensures(writer::write_index_raw_ids::<W>, (index, o), Ok(()))
                && o.output() == before && final(o).output() == after,
        roundtrip::storable(index),
        before.written.len() == 0,
        before.position == 0,
        after.written.len() <= u64::MAX,
        reader.contents() == after.written + rest,
        reader.reliable(),
        call_ensures(IVFPQIndexReader::<R>::open, (reader,), opened),
    ensures
        opened matches Ok(file) && {
            &&& file.d == index.d
            &&& file.nlist == index.nlist
            &&& file.m == index.pq.m
            &&& file.ksub == index.pq.ksub
            &&& file.dsub == index.pq.dsub
            &&& file.metric == index.metric
            &&& file.by_residual == index.by_residual
            &&& file.has_opq <==> index.opq is Some
            &&& !file.delta_ids
            &&& !file.transposed_codes
            &&& file.total_vectors == index.ids@.take(index.nlist as int).map_values(
                |l: Vec<i64>| l@.len() as int,
            ).fold_left(0int, |a: int, b: int| a + b)
        },
{
    index_laws::lemma_total(index.ids@, index.nlist as nat);
    assert(after.written =~= file::raw_index_bytes(index, 0));
    roundtrip::lemma_write_read_raw(index, rest);
}

/// A list that was written is read back: its IDs in ascending order, those that
/// are equal as they stood, and the code of every vector beside its ID, with the
/// first bytes of all codes first.
pub proof fn lemma_write_read_list<
    W: SeekWrite,
    R: SeekRead,
    F: Fn(&Vec<u32>, usize, usize, usize) -> Vec<u32>,
>(
    index: &IVFPQIndex,
    before: Output,
    after: Output,
    rest: Seq<u8>,
    file: IVFPQIndexReader<R>,
    l: usize,
    norms: F,
    result: Result<(Vec<i64>, Vec<u8>), Error>,
    order: Seq<int>,
    g: nat,
    p: nat,
)
    requires
        exists|o: &mut W|
            #[trigger] call_ensures(writer::write_index::<W>, (index, o), Ok(())) && o.output()
                == before && final(o).output() == after,
        roundtrip::storable(index),
        roundtrip::storable_ids(index),
        before.written.len() == 0,
        before.position == 0,
        after.written.len() <= u64::MAX,
        exists|r: &mut IVFPQIndexReader<R>|
            #[trigger] call_ensures(
                IVFPQIndexReader::<R>::read_inverted_list::<F>,
                (r, l, norms),
                result,
            ) && *r == file,
        file.wf(),
        file.contents() == after.written + rest,
        file.reader.reliable(),
        l < index.nlist,
        order == sort::sorted_order(index.ids@[l as int]@),
        g < index.ids@[l as int]@.len(),
        p < index.pq.spec_code_size(),
    ensures
        result matches Ok((ids, codes)) && {
            let n = index.ids@[l as int]@.len();
            let cs = index.pq.spec_code_size();
            &&& ids@.len() == n
            &&& codes@.len() == n * cs
            &&& 0 <= order[g as int] < n
            &&& ids@[g as int] == index.ids@[l as int]@[order[g as int]]
            &&& codes@[(p * n + g) as int] == index.codes@[l as int]@[order[g as int] * cs + p]
        },
{
    assert(after.written =~= file::index_bytes(index, 0));
    roundtrip::lemma_write_read(index, rest);
    let c = file.contents();
    let h = roundtrip::header_of(index, true);
    assert(file.header() == h);
    let own = index.ids@[l as int]@;
    let n = own.len();
    let cs = index.pq.spec_code_size();
    assert(reader::list_result(c, h, l as int) is Ok);
    file::lemma_sorted_ids(own);
    let sorted = file::sorted_codes(own, index.codes@[l as int]@, cs);
    code_laws::lemma_transposed(sorted, n, cs, g, p);
    code_laws::lemma_unpacked(Seq::empty(), n, cs, g, p);
    vstd::arithmetic::div_mod::lemma_fundamental_div_mod_converse(
        (g * cs + p) as int,
        cs as int,
        g as int,
        p as int,
    );
}

/// A list that was written with IDs and codes as they are is read back as it was.
pub proof fn lemma_write_read_raw_list<
    W: SeekWrite,
    R: SeekRead,
    F: Fn(&Vec<u32>, usize, usize, usize) -> Vec<u32>,
>(
    index: &IVFPQIndex,
    before: Output,
    after: Output,
    rest: Seq<u8>,
    file: IVFPQIndexReader<R>,
    l: usize,
    norms: F,
    result: Result<(Vec<i64>, Vec<u8>), Error>,
)
    requires
        exists|o: &mut W|
            #[trigger] call_ensures(writer::write_index_raw_ids::<W>, (index, o), Ok(()))
                && o.output() == before && final(o).output() == after,
        roundtrip::storable(index),
        before.written.len() == 0,
        before.position == 0,
        after.written.len() <= u64::MAX,
        exists|r: &mut IVFPQIndexReader<R>|
            #[trigger] call_ensures(
                IVFPQIndexReader::<R>::read_inverted_list::<F>,
                (r, l, norms),
                result,
            ) && *r == file,
        file.wf(),
        file.contents() == after.written + rest,
        file.reader.reliable(),
        l < index.nlist,
    ensures
        result matches Ok((ids, codes)) && ids@ == index.ids@[l as int]@ && codes@
            == index.codes@[l as int]@,
{
    assert(after.written =~= file::raw_index_bytes(index, 0));
    roundtrip::lemma_write_read_raw(index, rest);
    let h = roundtrip::header_of(index, false);
    assert(file.header() == h);
    assert(reader::list_result(file.contents(), h, l as int) is Ok);
}

/// An index that was written stands behind what was there before: its header, the
/// numbers behind that, and the table, which says how many vectors a list holds.
pub proof fn lemma_write<W: SeekWrite>(index: &IVFPQIndex, before: Output, after: Output, i: int)
    requires
        exists|o: &mut W|
            #[trigger] call_ensures(writer::write_index::<W>, (index, o), Ok(())) && o.output()
                == before && final(o).output() == after,
        0 <= i < index.nlist,
    ensures
        ({
            let n: int = before.written.len() as int;
            let c = after.written.skip(n);
            let table: int = 64 + 4 * ((if index.opq is Some {
                index.opq->0.rotation@.len() as int
            } else {
                0
            }) + index.quantizer_centroids@.len() + index.pq.centroids@.len());
            &&& after.written.len() >= n
            &&& after.written.take(n) == before.written
            &&& after.position == before.position + c.len()
            &&& c.len() >= table + 16 * index.nlist
            &&& c.take(64) == file::header_bytes(index, file::index_flags(index, true))
            &&& byte_laws::four(c, table + 16 * i + 8) == index.ids@[i]@.len() as int
                % 0x1_0000_0000
        }),
{
    let n: int = before.written.len() as int;
    let c = file::index_bytes(index, before.position);
    let flags = file::index_flags(index, true);
    assert(after.written == before.written + c);
    assert(after.written.skip(n) =~= c);
    assert(after.written.take(n) =~= before.written);
    write_laws::lemma_front_layout(index, flags, 0);
    write_laws::lemma_file_layout(index, before.position, i);
    assert(c.take(64) =~= file::front_bytes(index, flags).take(64)) by {
        let front = file::front_bytes(index, flags);
        assert forall|x: int| 0 <= x < 64 implies c[x] == front[x] by {
            assert(c.take(front.len() as int)[x] == front[x]);
        }
    }
}

} // verus!
