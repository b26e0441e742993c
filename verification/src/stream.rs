//! Streams of bytes: what an index is written to and read from.

use crate::error::{Error, IoFailure};
use vstd::prelude::*;

verus! {

/// A result that comes from reading stored bytes, held against `exact`, the
/// result that the bytes alone determine. Only a stream that can fail may put
/// a failure of its own in the place of `exact`.
pub open spec fn agrees<T>(result: Result<T, Error>, exact: Result<T, Error>, reliable: bool) -> bool {
    match result {
        Err(Error::Io(_)) => reliable ==> result == exact,
        _ => result == exact,
    }
}

/// The `len` bytes at `pos`, or the failure of a read that goes past the end.
/// To read nothing is possible everywhere.
pub open spec fn read_at(contents: Seq<u8>, pos: nat, len: nat) -> Result<Seq<u8>, Error> {
    if len == 0 {
        Ok(Seq::empty())
    } else if pos + len <= contents.len() {
        Ok(contents.subrange(pos as int, (pos + len) as int))
    } else {
        Err(Error::Io(IoFailure::UnexpectedEof))
    }
}

/// A result of a read together with the bytes that it left in `buf`.
pub open spec fn with_bytes(result: Result<(), Error>, buf: Seq<u8>) -> Result<Seq<u8>, Error> {
    match result {
        Ok(_) => Ok(buf),
        Err(e) => Err(e),
    }
}

/// What is known of a writer.
pub struct Output {
    /// The bytes of the output so far.
    pub written: Seq<u8>,
    /// How many bytes were written through the writer.
    pub position: nat,
    /// Whether no write ever fails.
    pub reliable: bool,
    /// What the output reported when a write failed last.
    pub failure: Error,
}

/// A result of a writer: on success it appended exactly `bytes`, after a
/// failure a part of them at most. The error is the one that the output
/// reported.
pub open spec fn appended(
    before: Output,
    after: Output,
    result: Result<(), Error>,
    bytes: Seq<u8>,
) -> bool {
    &&& after.reliable == before.reliable
    &&& before.written.is_prefix_of(after.written)
    &&& after.written.is_prefix_of(before.written + bytes)
    &&& match result {
        Ok(_) => {
            &&& after.written == before.written + bytes
            &&& after.position == before.position + bytes.len()
        },
        Err(e) => e is Io && e == after.failure && !before.reliable,
    }
}

/// What was appended in two steps was appended.
pub proof fn lemma_appended_twice(
    before: Output,
    between: Output,
    after: Output,
    first: Seq<u8>,
    result: Result<(), Error>,
    second: Seq<u8>,
)
    requires
        appended(before, between, Ok(()), first),
        appended(between, after, result, second),
    ensures
        appended(before, after, result, first + second),
{
    assert(before.written + (first + second) =~= (before.written + first) + second);
    let all = before.written + (first + second);
    let a = after.written;
    let b = before.written;
    assert(a =~= all.subrange(0, a.len() as int));
    assert forall|i: int| 0 <= i < b.len() implies b[i] == a[i] by {
        assert(a[i] == all.subrange(0, a.len() as int)[i]);
    }
    assert(b =~= a.subrange(0, b.len() as int));
}

/// A writer that failed on its way to some bytes failed on its way to more.
pub proof fn lemma_appended_stop(
    before: Output,
    after: Output,
    e: Error,
    bytes: Seq<u8>,
    more: Seq<u8>,
)
    requires
        appended(before, after, Err(e), bytes),
    ensures
        appended(before, after, Err(e), bytes + more),
{
    let part = before.written + bytes;
    let all = before.written + (bytes + more);
    let a = after.written;
    assert forall|i: int| 0 <= i < a.len() implies a[i] == all[i] by {
        assert(a[i] == part.subrange(0, a.len() as int)[i]);
    }
    assert(a =~= all.subrange(0, a.len() as int));
}

/// The reads that fetch `len` bytes from `pos` on, `chunk` at a time.
pub open spec fn chunked(pos: nat, len: nat, chunk: nat) -> Seq<(nat, nat)>
    decreases len,
{
    if len == 0 || chunk == 0 {
        Seq::empty()
    } else if len <= chunk {
        seq![(pos, len)]
    } else {
        seq![(pos, chunk)] + chunked(pos + chunk, (len - chunk) as nat, chunk)
    }
}

/// The reads fetch the bytes from `from` up to `to`, in order and each of them
/// once.
pub open spec fn tiles(reads: Seq<(nat, nat)>, from: nat, to: nat) -> bool
    decreases reads.len(),
{
    if reads.len() == 0 {
        from == to
    } else {
        reads[0].0 == from && tiles(reads.drop_first(), from + reads[0].1, to)
    }
}

/// Reads that meet fetch what both fetch.
pub proof fn lemma_tiles_join(
    a: Seq<(nat, nat)>,
    b: Seq<(nat, nat)>,
    from: nat,
    between: nat,
    to: nat,
)
    requires
        tiles(a, from, between),
        tiles(b, between, to),
    ensures
        tiles(a + b, from, to),
    decreases a.len(),
{
    if a.len() == 0 {
        assert(a + b =~= b);
    } else {
        lemma_tiles_join(a.drop_first(), b, from + a[0].1, between, to);
        assert((a + b).drop_first() =~= a.drop_first() + b);
    }
}

/// Reading in chunks fetches every byte once.
pub proof fn lemma_chunked_tiles(pos: nat, len: nat, chunk: nat)
    requires
        chunk > 0,
    ensures
        tiles(chunked(pos, len, chunk), pos, pos + len),
    decreases len,
{
    let all = chunked(pos, len, chunk);
    if len > chunk {
        lemma_chunked_tiles(pos + chunk, (len - chunk) as nat, chunk);
        assert(all.drop_first() =~= chunked(pos + chunk, (len - chunk) as nat, chunk));
    } else if len > 0 {
        assert(all.drop_first() =~= Seq::<(nat, nat)>::empty());
        assert(tiles(all.drop_first(), pos + len, pos + len));
    }
}

/// Random access to stored bytes.
///
/// The bytes do not change while they are read. A read that succeeds yields
/// exactly the bytes at its place; a failure is reported as [`Error::Io`].
pub trait SeekRead: Send {
    /// The stored bytes.
    open spec fn contents(&self) -> Seq<u8> {
        arbitrary()
    }

    /// Where the next sequential read starts.
    open spec fn cursor(&self) -> nat {
        arbitrary()
    }

    /// What was read so far: the place and the length of every read, in order.
    open spec fn reads(&self) -> Seq<(nat, nat)> {
        arbitrary()
    }

    /// Whether the stream fails only on reads past its end. It may fail
    /// elsewhere, unless it says otherwise.
    open spec fn reliable(&self) -> bool {
        false
    }

    /// What the stream reported when a call failed last.
    open spec fn failure(&self) -> Error {
        arbitrary()
    }

    /// Moves the cursor.
    fn seek(&mut self, pos: u64) -> (result: Result<(), Error>)
        ensures
            final(self).contents() == old(self).contents(),
            final(self).reliable() == old(self).reliable(),
            final(self).reads() == old(self).reads(),
            result is Ok ==> final(self).cursor() == pos,
            old(self).reliable() ==> result is Ok,
            result matches Err(e) ==> e is Io && e == final(self).failure(),
    ;

    /// Fills `buf` from the cursor on and moves the cursor behind it.
    fn read_exact(&mut self, buf: &mut [u8]) -> (result: Result<(), Error>)
        ensures
            final(self).contents() == old(self).contents(),
            final(self).reliable() == old(self).reliable(),
            final(buf)@.len() == old(buf)@.len(),
            agrees(
                with_bytes(result, final(buf)@),
                read_at(old(self).contents(), old(self).cursor(), old(buf)@.len()),
                old(self).reliable(),
            ),
            final(self).reads() == old(self).reads().push(
                (old(self).cursor(), old(buf)@.len()),
            ),
            result is Ok ==> final(self).cursor() == old(self).cursor() + old(buf)@.len(),
            result is Ok ==> final(self).cursor() <= u64::MAX,
            result matches Err(e) ==> e is Io && e == final(self).failure(),
    ;

    /// Fills `buf` from `pos` on. Where the stream offers nothing better this
    /// is a move of the cursor and a sequential read.
    fn pread(&mut self, pos: u64, buf: &mut [u8]) -> (result: Result<(), Error>)
        ensures
            final(self).contents() == old(self).contents(),
            final(self).reliable() == old(self).reliable(),
            final(buf)@.len() == old(buf)@.len(),
            agrees(
                with_bytes(result, final(buf)@),
                read_at(old(self).contents(), pos as nat, old(buf)@.len()),
                old(self).reliable(),
            ),
            result is Ok ==> final(self).reads() == old(self).reads().push(
                (pos as nat, old(buf)@.len()),
            ),
            result is Err ==> final(self).reads() == old(self).reads() || final(self).reads()
                == old(self).reads().push((pos as nat, old(buf)@.len())),
            result is Ok ==> pos + old(buf)@.len() <= u64::MAX,
            result matches Err(e) ==> e is Io && e == final(self).failure(),
        default_ensures
            result is Ok ==> final(self).cursor() == pos + old(buf)@.len(),
    {
        match self.seek(pos) {
            Ok(_) => self.read_exact(buf),
            Err(e) => Err(e),
        }
    }

    /// Whether positional reads share no cursor, so that they may run at the
    /// same time. They do not unless the stream says so.
    fn supports_concurrent_pread(&self) -> (yes: bool)
        default_ensures
            !yes,
    {
        false
    }
}

/// Sequential output that knows how many bytes went through it.
///
/// A write that succeeds appends exactly its bytes; one that fails has
/// appended a part of them at most.
pub trait SeekWrite: Send {
    /// What is known of this writer. It may fail, unless it says otherwise.
    open spec fn output(&self) -> Output {
        Output {
            written: arbitrary(),
            position: arbitrary(),
            reliable: false,
            failure: arbitrary(),
        }
    }

    /// Appends `buf`.
    fn write_all(&mut self, buf: &[u8]) -> (result: Result<(), Error>)
        requires
            old(self).output().position + buf@.len() <= u64::MAX,
        ensures
            appended(old(self).output(), final(self).output(), result, buf@),
    ;

    /// The number of bytes written so far.
    fn pos(&self) -> (pos: u64)
        ensures
            pos == self.output().position,
    ;
}

/// A place that bytes can be appended to.
pub trait ByteSink: Send {
    /// The bytes that are there.
    open spec fn bytes(&self) -> Seq<u8> {
        arbitrary()
    }

    /// Whether no write ever fails. One may fail, unless the sink says
    /// otherwise.
    open spec fn reliable(&self) -> bool {
        false
    }

    /// What the sink reported when a write failed last.
    open spec fn failure(&self) -> Error {
        arbitrary()
    }

    /// Appends `buf`.
    fn append(&mut self, buf: &[u8]) -> (result: Result<(), Error>)
        ensures
            final(self).reliable() == old(self).reliable(),
            result is Ok ==> final(self).bytes() == old(self).bytes() + buf@,
            old(self).bytes().is_prefix_of(final(self).bytes()),
            final(self).bytes().is_prefix_of(old(self).bytes() + buf@),
            old(self).reliable() ==> result is Ok,
            result matches Err(e) ==> e is Io && e == final(self).failure(),
    ;
}

impl ByteSink for Vec<u8> {
    open spec fn bytes(&self) -> Seq<u8> {
        self@
    }

    open spec fn reliable(&self) -> bool {
        true
    }

    fn append(&mut self, buf: &[u8]) -> (result: Result<(), Error>) {
        self.extend_from_slice(buf);
        assert(self@ =~= old(self)@ + buf@);
        Ok(())
    }
}

/// A writer that counts the bytes that it hands to its sink.
pub struct PosWriter<W: ByteSink> {
    pub inner: W,
    pub pos: u64,
}

impl<W: ByteSink> PosWriter<W> {
    /// A writer that starts at position 0, whatever the sink holds already.
    pub fn new(inner: W) -> (writer: Self)
        ensures
            writer.inner == inner,
            writer.pos == 0,
            writer.output() == (Output {
                written: inner.bytes(),
                position: 0,
                reliable: inner.reliable(),
                failure: inner.failure(),
            }),
    {
        PosWriter { inner, pos: 0 }
    }
}

impl<W: ByteSink> SeekWrite for PosWriter<W> {
    open spec fn output(&self) -> Output {
        Output {
            written: self.inner.bytes(),
            position: self.pos as nat,
            reliable: self.inner.reliable(),
            failure: self.inner.failure(),
        }
    }

    /// Hands `buf` to the sink. The position moves just if the sink takes it.
    fn write_all(&mut self, buf: &[u8]) -> (result: Result<(), Error>)
        ensures
            result is Err ==> final(self).pos == old(self).pos,
            result matches Err(e) ==> e == final(self).inner.failure(),
    {
        match self.inner.append(buf) {
            Ok(_) => {
                self.pos = self.pos + buf.len() as u64;
                Ok(())
            },
            Err(e) => Err(e),
        }
    }

    fn pos(&self) -> (pos: u64) {
        self.pos
    }
}

/// One call of [`PosWriter::write_all`], as its contract states it.
pub open spec fn write_step(
    before: Output,
    after: Output,
    result: Result<(), Error>,
    buf: Seq<u8>,
) -> bool {
    appended(before, after, result, buf) && (result is Err ==> after.position == before.position)
}

/// The bytes of the first `n` calls that succeeded, in order.
pub open spec fn taken(bufs: Seq<Seq<u8>>, results: Seq<Result<(), Error>>, n: nat) -> Seq<u8>
    decreases n,
{
    if n == 0 {
        Seq::empty()
    } else if results[n - 1] is Ok {
        taken(bufs, results, (n - 1) as nat) + bufs[n - 1]
    } else {
        taken(bufs, results, (n - 1) as nat)
    }
}

/// After any calls of [`PosWriter::write_all`] the position has moved by the
/// lengths of the buffers that were taken; as long as no call fails, the sink
/// holds just these buffers behind what it held, each once, unchanged and in
/// order; and an error is the one that the sink reported.
pub proof fn lemma_write_sequence(
    states: Seq<Output>,
    bufs: Seq<Seq<u8>>,
    results: Seq<Result<(), Error>>,
    n: nat,
)
    requires
        n < states.len(),
        forall|i: int|
            0 <= i < n ==> write_step(states[i], #[trigger] states[i + 1], results[i], bufs[i]),
    ensures
        states[n as int].position == states[0].position + taken(bufs, results, n).len(),
        (forall|i: int| 0 <= i < n ==> #[trigger] results[i] is Ok) ==> states[n as int].written
            == states[0].written + taken(bufs, results, n),
        forall|i: int|
            0 <= i < n ==> (#[trigger] results[i] matches Err(e) ==> e == states[i + 1].failure),
    decreases n,
{
    if n > 0 {
        lemma_write_sequence(states, bufs, results, (n - 1) as nat);
        let last: int = n - 1;
        assert(write_step(states[last], states[last + 1], results[last], bufs[last]));
        if forall|i: int| 0 <= i < n ==> #[trigger] results[i] is Ok {
            assert(results[last] is Ok);
            assert(states[n as int].written =~= states[0].written + taken(bufs, results, n));
        }
    } else {
        assert(states[0].written + Seq::<u8>::empty() =~= states[0].written);
    }
}

/// Bytes in memory, with a cursor.
pub struct MemReader {
    pub data: Vec<u8>,
    pub pos: u64,
    /// The reads so far.
    pub log: Ghost<Seq<(nat, nat)>>,
}

impl MemReader {
    /// A reader of `data` with its cursor at the start.
    pub fn new(data: Vec<u8>) -> (reader: Self)
        ensures
            reader.data == data,
            reader.pos == 0,
            reader.log@ == Seq::<(nat, nat)>::empty(),
    {
        MemReader { data, pos: 0, log: Ghost(Seq::empty()) }
    }
}

impl SeekRead for MemReader {
    open spec fn contents(&self) -> Seq<u8> {
        self.data@
    }

    open spec fn cursor(&self) -> nat {
        self.pos as nat
    }

    open spec fn reads(&self) -> Seq<(nat, nat)> {
        self.log@
    }

    open spec fn failure(&self) -> Error {
        Error::Io(IoFailure::UnexpectedEof)
    }

    open spec fn reliable(&self) -> bool {
        true
    }

    fn seek(&mut self, pos: u64) -> (result: Result<(), Error>) {
        self.pos = pos;
        assert(self.cursor() == self.pos as nat);
        Ok(())
    }

    fn read_exact(&mut self, buf: &mut [u8]) -> (result: Result<(), Error>) {
        let n: usize = buf.len();
        let total: usize = self.data.len();
        self.log = Ghost(self.log@.push((self.pos as nat, n as nat)));
        if n == 0 {
            assert(buf@ =~= Seq::<u8>::empty());
            return Ok(());
        }
        if self.pos > total as u64 || n > total - self.pos as usize {
            return Err(Error::Io(IoFailure::UnexpectedEof));
        }
        let start: usize = self.pos as usize;
        let mut i: usize = 0;
        while i < n
            invariant
                i <= n,
                n == buf@.len(),
                start + n <= total,
                total == self.data@.len(),
                self.data@ == old(self).data@,
                self.log@ == old(self).log@.push((start as nat, n as nat)),
                forall|j: int| 0 <= j < i ==> buf@[j] == self.data@[start + j],
            decreases n - i,
        {
            buf[i] = self.data[start + i];
            i = i + 1;
        }
        self.pos = (start + n) as u64;
        assert(buf@ =~= self.data@.subrange(start as int, start + n));
        Ok(())
    }
}

/// The positional reads that were asked of a stream: the place and the length of
/// every one, in order. Only [`PreadLog::pread`] adds to it.
pub struct PreadLog {
    log: Ghost<Seq<(nat, nat)>>,
}

impl PreadLog {
    /// The positional reads so far.
    pub closed spec fn preads(&self) -> Seq<(nat, nat)> {
        self.log@
    }

    /// A log without entries.
    pub fn new() -> (log: Self)
        ensures
            log.preads() == Seq::<(nat, nat)>::empty(),
    {
        PreadLog { log: Ghost(Seq::empty()) }
    }

    /// Calls `pread` of the stream, and notes it.
    pub fn pread<R: SeekRead>(&mut self, reader: &mut R, pos: u64, buf: &mut [u8]) -> (result:
        Result<(), Error>)
        ensures
            final(self).preads() == old(self).preads().push((pos as nat, old(buf)@.len())),
            exists|r: &mut R, b: &mut [u8]|
                #![trigger call_ensures(R::pread, (r, pos, b), result)]
                *r == *old(reader) && *final(r) == *final(reader) && b@ == old(buf)@ && final(b)@
                    == final(buf)@ && call_ensures(R::pread, (r, pos, b), result),
            final(reader).contents() == old(reader).contents(),
            final(reader).reliable() == old(reader).reliable(),
            final(buf)@.len() == old(buf)@.len(),
            agrees(
                with_bytes(result, final(buf)@),
                read_at(old(reader).contents(), pos as nat, old(buf)@.len()),
                old(reader).reliable(),
            ),
            result is Ok ==> final(reader).reads() == old(reader).reads().push(
                (pos as nat, old(buf)@.len()),
            ),
            result is Ok ==> pos + old(buf)@.len() <= u64::MAX,
            result matches Err(e) ==> e is Io && e == final(reader).failure(),
    {
        self.log = Ghost(self.log@.push((pos as nat, buf@.len())));
        reader.pread(pos, buf)
    }
}

} // verus!
