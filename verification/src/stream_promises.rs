//! What reading from memory, writing to memory and reading in pieces return, in
//! terms of the arguments.

use crate::codec;
use crate::error::{Error, IoFailure};
use crate::stream::{ByteSink, MemReader, PosWriter, PreadLog, SeekRead, SeekWrite};
use crate::stream_laws;
use vstd::prelude::*;

verus! {

/// A reader of bytes in memory starts at the first of them, and holds just them.
pub proof fn lemma_mem_new(data: Vec<u8>, reader: MemReader)
    requires
        call_ensures(MemReader::new, (data,), reader),
    ensures
        reader.contents() == data@,
        reader.cursor() == 0,
        reader.reliable(),
        reader.reads().len() == 0,
{
}

/// Reading from memory fills the buffer with the bytes at the cursor, which moves
/// behind them, or says that there are too few.
pub proof fn lemma_mem_read(
    before: MemReader,
    after: MemReader,
    len: nat,
    bytes: Seq<u8>,
    result: Result<(), Error>,
)
    requires
        exists|r: &mut MemReader, b: &mut [u8]|
            #[trigger] call_ensures(<MemReader as SeekRead>::read_exact, (r, b), result) && *r
                == before && *final(r) == after && b@.len() == len && final(b)@ == bytes,
    ensures
        after.data@ == before.data@,
        before.pos + len <= before.data@.len() ==> {
            &&& result is Ok
            &&& bytes.len() == len
            &&& forall|i: int| 0 <= i < len ==> #[trigger] bytes[i] == before.data@[before.pos + i]
            &&& after.pos == before.pos + len
        },
        len > 0 && before.pos + len > before.data@.len() ==> result == Err::<(), Error>(
            Error::Io(IoFailure::UnexpectedEof),
        ),
{
    stream_laws::lemma_read_at(before.data@, before.pos as nat, len);
}

/// Moving the cursor moves nothing else.
pub proof fn lemma_mem_seek(
    before: MemReader,
    after: MemReader,
    pos: u64,
    result: Result<(), Error>,
)
    requires
        exists|r: &mut MemReader|
            #[trigger] call_ensures(<MemReader as SeekRead>::seek, (r, pos), result) && *r
                == before && *final(r) == after,
    ensures
        result is Ok,
        after.pos == pos,
        after.data@ == before.data@,
{
}

/// A sink in memory takes every byte, in order, behind what it holds.
pub proof fn lemma_mem_append(
    before: Vec<u8>,
    after: Vec<u8>,
    buf: &[u8],
    result: Result<(), Error>,
)
    requires
        exists|v: &mut Vec<u8>|
            #[trigger] call_ensures(<Vec<u8> as ByteSink>::append, (v, buf), result) && *v == before
                && *final(v) == after,
    ensures
        result is Ok,
        after@ == before@ + buf@,
{
}

/// A writer that counts starts at zero, whatever its sink holds, and counts what
/// the sink takes.
pub proof fn lemma_counting<W: ByteSink>(
    inner: W,
    fresh: PosWriter<W>,
    before: PosWriter<W>,
    after: PosWriter<W>,
    buf: &[u8],
    result: Result<(), Error>,
    pos: u64,
)
    requires
        call_ensures(PosWriter::<W>::new, (inner,), fresh),
        exists|w: &mut PosWriter<W>|
            #[trigger] call_ensures(<PosWriter<W> as SeekWrite>::write_all, (w, buf), result) && *w
                == before && *final(w) == after,
        call_ensures(<PosWriter<W> as SeekWrite>::pos, (&after,), pos),
    ensures
        fresh.pos == 0,
        fresh.inner == inner,
        pos == after.pos,
        result is Ok ==> after.pos == before.pos + buf@.len() && after.inner.bytes()
            == before.inner.bytes() + buf@,
        result is Err ==> after.pos == before.pos && !before.inner.reliable(),
        before.inner.bytes().is_prefix_of(after.inner.bytes()),
        after.inner.bytes().is_prefix_of(before.inner.bytes() + buf@),
{
    let a = before.output();
    let b = after.output();
    assert(a.written == before.inner.bytes() && b.written == after.inner.bytes());
    assert(a.position == before.pos && b.position == after.pos);
}

/// Bytes are read as they are, from where they stand.
pub proof fn lemma_pread_bytes<R: SeekRead>(
    c: Seq<u8>,
    pos: u64,
    len: u64,
    result: Result<Vec<u8>, Error>,
)
    requires
        exists|r: &mut R, log: &mut PreadLog|
            #[trigger] call_ensures(codec::pread_bytes::<R>, (r, log, pos, len), result)
                && r.contents() == c && r.reliable(),
    ensures
        pos + len <= c.len() ==> (result matches Ok(b) && b@ == c.subrange(
            pos as int,
            pos + len,
        )),
        len > 0 && pos + len > c.len() ==> result == Err::<Vec<u8>, Error>(
            Error::Io(IoFailure::UnexpectedEof),
        ),
{
    stream_laws::lemma_read_at(c, pos as nat, len as nat);
    if pos + len <= c.len() {
        if let Ok(b) = result {
            assert(b@ =~= c.subrange(pos as int, pos + len));
        }
    }
}

} // verus!
