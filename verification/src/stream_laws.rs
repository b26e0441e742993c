//! What may be relied on after a read or a write.

use crate::batch;
use crate::batch::BatchList;
use crate::codec;
use crate::error::{Error, IoFailure};
use crate::file_search;
use crate::file_search::PreReadList;
use crate::reader;
use crate::search;
use crate::shuffler;
use crate::stream;
use crate::stream::Output;
use crate::varint;
use std::collections::HashSet;
use vstd::prelude::*;

verus! {

/// A read that succeeds gives what the bytes say, and so does one that fails for
/// any reason but the stream; the stream's own failures come from a stream that
/// can fail, or are what the bytes say.
pub proof fn lemma_agrees<T>(result: Result<T, Error>, exact: Result<T, Error>, reliable: bool)
    requires
        stream::agrees(result, exact, reliable),
    ensures
        result is Ok ==> exact == result,
        reliable ==> exact == result,
        result matches Err(e) ==> !(e is Io) ==> exact == result,
{
}

/// A read that comes to what the bytes say is as it should be.
pub proof fn lemma_agrees_exact<T>(exact: Result<T, Error>, reliable: bool)
    ensures
        stream::agrees(exact, exact, reliable),
{
}

/// The bytes at a place: all of them, in order; where the file ends before they
/// do, none.
pub proof fn lemma_read_at(c: Seq<u8>, pos: nat, len: nat)
    ensures
        pos + len <= c.len() ==> (stream::read_at(c, pos, len) matches Ok(b) && {
            &&& b.len() == len
            &&& forall|i: int| 0 <= i < len ==> #[trigger] b[i] == c[pos + i]
        }),
        len > 0 && pos + len > c.len() ==> stream::read_at(c, pos, len) == Err::<Seq<u8>, Error>(
            Error::Io(IoFailure::UnexpectedEof),
        ),
        stream::read_at(c, pos, 0) == Ok::<Seq<u8>, Error>(Seq::empty()),
{
}

/// A write leaves what was there. If it succeeds its bytes stand behind it, each
/// once and in order, and the position has moved by as many; if it fails, the
/// first of them at most do, and the error is that of the output.
pub proof fn lemma_appended(before: Output, after: Output, result: Result<(), Error>, b: Seq<u8>)
    requires
        stream::appended(before, after, result, b),
    ensures
        forall|i: int|
            0 <= i < before.written.len() ==> #[trigger] after.written[i] == before.written[i],
        before.written.len() <= after.written.len() <= before.written.len() + b.len(),
        forall|i: int|
            before.written.len() <= i < after.written.len() ==> #[trigger] after.written[i] == b[i
                - before.written.len()],
        after.reliable == before.reliable,
        result is Ok ==> after.written.len() == before.written.len() + b.len() && after.position
            == before.position + b.len(),
        result matches Err(e) ==> e is Io && e == after.failure && !before.reliable,
{
    let all = before.written + b;
    assert forall|i: int| 0 <= i < after.written.len() implies #[trigger] after.written[i]
        == all[i] by {
        assert(after.written == all.subrange(0, after.written.len() as int));
    }
}

/// Reads in pieces: each starts where the one before it ended, none is empty or
/// longer than a piece may be, and only the last is shorter.
pub proof fn lemma_chunks(pos: nat, len: nat, chunk: nat)
    requires
        chunk > 0,
    ensures
        ({
            let reads = stream::chunked(pos, len, chunk);
            &&& reads.len() == (len + chunk - 1) / chunk as int
            &&& forall|i: int|
                #![trigger reads[i]]
                0 <= i < reads.len() ==> reads[i].0 == pos + i * chunk && 0 < reads[i].1 <= chunk
            &&& forall|i: int|
                #![trigger reads[i]]
                0 <= i < reads.len() - 1 ==> reads[i].1 == chunk
            &&& len > 0 ==> reads.len() > 0 && reads.last().0 + reads.last().1 == pos + len
        }),
    decreases len,
{
    let reads = stream::chunked(pos, len, chunk);
    let c: int = chunk as int;
    if len == 0 {
        assert((0 + c - 1) / c == 0) by (nonlinear_arith)
            requires
                c > 0,
        ;
    } else if len <= chunk {
        let r: int = len - 1;
        vstd::arithmetic::div_mod::lemma_fundamental_div_mod_converse(r + c, c, 1, r);
        assert(0 * c == 0) by (nonlinear_arith);
    } else {
        let m = (len - chunk) as nat;
        let rest = stream::chunked(pos + chunk, m, chunk);
        lemma_chunks(pos + chunk, m, chunk);
        assert(reads =~= seq![(pos, chunk)] + rest);
        vstd::arithmetic::div_mod::lemma_div_plus_one(m + c - 1, c);
        assert(0 * c == 0) by (nonlinear_arith);
        assert forall|i: int| #![trigger reads[i]] 0 <= i < reads.len() implies reads[i].0 == pos
            + i * chunk && 0 < reads[i].1 <= chunk by {
            if i > 0 {
                assert(reads[i] == rest[i - 1]);
                assert((i - 1) * c + c == i * c) by (nonlinear_arith);
            }
        }
        assert forall|i: int| #![trigger reads[i]] 0 <= i < reads.len() - 1 implies reads[i].1
            == chunk by {
            if i > 0 {
                assert(reads[i] == rest[i - 1]);
            }
        }
        assert(reads.last() == rest.last());
    }
}

/// From outside a result looks as it is.
pub proof fn lemma_result_views(
    numbers: Vec<u32>,
    ids: Vec<i64>,
    codes: Vec<u8>,
    rows: Vec<Vec<i64>>,
    vectors: Vec<Vec<u32>>,
    e: Error,
)
    ensures
        codec::seq_view(Ok::<Vec<u32>, Error>(numbers)) == Ok::<Seq<u32>, Error>(numbers@),
        codec::seq_view(Ok::<Vec<u8>, Error>(codes)) == Ok::<Seq<u8>, Error>(codes@),
        codec::seq_view(Err::<Vec<u32>, Error>(e)) == Err::<Seq<u32>, Error>(e),
        codec::seq_view(Err::<Vec<u8>, Error>(e)) == Err::<Seq<u8>, Error>(e),
        stream::with_bytes(Ok(()), codes@) == Ok::<Seq<u8>, Error>(codes@),
        stream::with_bytes(Err(e), codes@) == Err::<Seq<u8>, Error>(e),
        varint::ids_view(Ok::<Vec<i64>, Error>(ids)) == Ok::<Seq<i64>, Error>(ids@),
        varint::ids_view(Err::<Vec<i64>, Error>(e)) == Err::<Seq<i64>, Error>(e),
        reader::list_view(Ok::<(Vec<i64>, Vec<u8>), Error>((ids, codes))) == Ok::<
            (Seq<i64>, Seq<u8>),
            Error,
        >((ids@, codes@)),
        reader::list_view(Err::<(Vec<i64>, Vec<u8>), Error>(e)) == Err::<
            (Seq<i64>, Seq<u8>),
            Error,
        >(e),
        shuffler::partition_view(Ok::<(Vec<i64>, Vec<u32>), Error>((ids, numbers))) == Ok::<
            (Seq<i64>, Seq<u32>),
            Error,
        >((ids@, numbers@)),
        shuffler::partition_view(Err::<(Vec<i64>, Vec<u32>), Error>(e)) == Err::<
            (Seq<i64>, Seq<u32>),
            Error,
        >(e),
        shuffler::partitions_view(Err::<(Vec<Vec<i64>>, Vec<Vec<u32>>), Error>(e)) == Err::<
            (Seq<Seq<i64>>, Seq<Seq<u32>>),
            Error,
        >(e),
        shuffler::partitions_view(
            Ok::<(Vec<Vec<i64>>, Vec<Vec<u32>>), Error>((rows, vectors)),
        ) matches Ok((a, b)) && {
            &&& a.len() == rows@.len()
            &&& b.len() == vectors@.len()
            &&& forall|p: int| 0 <= p < a.len() ==> #[trigger] a[p] == rows@[p]@
            &&& forall|p: int| 0 <= p < b.len() ==> #[trigger] b[p] == vectors@[p]@
        },
{
}

/// From outside lists look as they are, and so does a filter.
pub proof fn lemma_list_views(
    own: Vec<PreReadList>,
    shared: Vec<BatchList>,
    filter: &HashSet<i64>,
    e: Error,
)
    ensures
        file_search::lists_view(Ok::<Vec<PreReadList>, Error>(own)) == Ok::<
            Seq<file_search::ListView>,
            Error,
        >(file_search::views(own@)),
        file_search::lists_view(Err::<Vec<PreReadList>, Error>(e)) == Err::<
            Seq<file_search::ListView>,
            Error,
        >(e),
        file_search::views(own@).len() == own@.len(),
        forall|j: int|
            #![trigger file_search::views(own@)[j]]
            0 <= j < own@.len() ==> {
                let v = file_search::views(own@)[j];
                &&& v.list_id == own@[j].list_id
                &&& v.rank == own@[j].rank
                &&& v.count == own@[j].count
                &&& v.ids == own@[j].ids@
                &&& v.codes == own@[j].codes@
            },
        batch::lists_view(Ok::<Vec<BatchList>, Error>(shared)) == Ok::<
            Seq<batch::BatchView>,
            Error,
        >(batch::views(shared@)),
        batch::lists_view(Err::<Vec<BatchList>, Error>(e)) == Err::<
            Seq<batch::BatchView>,
            Error,
        >(e),
        batch::views(shared@).len() == shared@.len(),
        forall|j: int|
            #![trigger batch::views(shared@)[j]]
            0 <= j < shared@.len() ==> {
                let v = batch::views(shared@)[j];
                &&& v.list_id == shared@[j].list_id
                &&& v.count == shared@[j].count
                &&& v.ids == shared@[j].ids@
                &&& v.codes == shared@[j].codes@
            },
        search::filter_view(None) is None,
        search::filter_view(Some(filter)) == Some(filter@),
{
}

/// What was taken of some buffers, if every call succeeded, are the buffers one
/// behind the other; a call that failed adds nothing.
pub proof fn lemma_taken(bufs: Seq<Seq<u8>>, results: Seq<Result<(), Error>>, n: nat)
    requires
        n <= bufs.len(),
    ensures
        stream::taken(bufs, results, n) == Seq::new(
            n,
            |i: int|
                if results[i] is Ok {
                    bufs[i]
                } else {
                    Seq::empty()
                },
        ).flatten(),
    decreases n,
{
    let nested = Seq::new(
        n,
        |i: int|
            if results[i] is Ok {
                bufs[i]
            } else {
                Seq::empty()
            },
    );
    if n > 0 {
        let m = (n - 1) as nat;
        lemma_taken(bufs, results, m);
        let front = Seq::new(
            m,
            |i: int|
                if results[i] is Ok {
                    bufs[i]
                } else {
                    Seq::empty()
                },
        );
        assert(nested =~= front.push(nested[n - 1]));
        front.lemma_flatten_push(nested[n - 1]);
        assert(stream::taken(bufs, results, m) + Seq::<u8>::empty() =~= stream::taken(
            bufs,
            results,
            m,
        ));
    } else {
        assert(nested =~= Seq::empty());
    }
}

/// A write that fails does not move the position.
pub proof fn lemma_write_step(before: Output, after: Output, result: Result<(), Error>, b: Seq<u8>)
    ensures
        stream::write_step(before, after, result, b) ==> stream::appended(before, after, result, b),
        stream::write_step(before, after, result, b) && result is Err ==> after.position
            == before.position,
        stream::write_step(before, after, result, b) && result is Ok ==> after.position
            == before.position + b.len(),
{
}

} // verus!
