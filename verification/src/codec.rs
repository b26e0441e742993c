//! Numbers in streams of bytes, and the limits of what is read.

use crate::bytes;
use crate::error::{Error, HeaderField};
use crate::stream;
use crate::stream::{PreadLog, SeekRead, SeekWrite};
use vstd::prelude::*;

verus! {

/// No section holds more elements than this.
pub const MAX_SECTION_ELEMENTS: usize = 0x4000_0000;

/// How many bytes are asked for at a time.
pub const CHUNK: usize = 0x10000;

/// How many numbers are asked for at a time.
pub const NUMBERS: usize = 0x4000;

/// The unsigned word at `pos`.
pub open spec fn u32_at(contents: Seq<u8>, pos: nat) -> Result<u32, Error> {
    match stream::read_at(contents, pos, 4) {
        Ok(b) => Ok(bytes::le_value(b) as u32),
        Err(e) => Err(e),
    }
}

/// The signed word at `pos`.
pub open spec fn i32_at(contents: Seq<u8>, pos: nat) -> Result<i32, Error> {
    match stream::read_at(contents, pos, 4) {
        Ok(b) => Ok(bytes::signed32(bytes::le_value(b)) as i32),
        Err(e) => Err(e),
    }
}

/// The signed double word at `pos`.
pub open spec fn i64_at(contents: Seq<u8>, pos: nat) -> Result<i64, Error> {
    match stream::read_at(contents, pos, 8) {
        Ok(b) => Ok(bytes::signed64(bytes::le_value(b)) as i64),
        Err(e) => Err(e),
    }
}

/// The bytes of numbers that follow each other.
pub open spec fn words(data: Seq<u32>) -> Seq<u8>
    decreases data.len(),
{
    if data.len() == 0 {
        Seq::empty()
    } else {
        words(data.drop_last()) + bytes::word32(data.last() as int)
    }
}

/// The numbers that `b` holds, four bytes each.
pub open spec fn word_values(b: Seq<u8>) -> Seq<u32> {
    Seq::new((b.len() / 4) as nat, |i: int| bytes::le_value(b.subrange(4 * i, 4 * i + 4)) as u32)
}

/// The `count` numbers at `pos`.
pub open spec fn words_at(contents: Seq<u8>, pos: nat, count: nat) -> Result<Seq<u32>, Error> {
    match stream::read_at(contents, pos, 4 * count) {
        Ok(b) => Ok(word_values(b)),
        Err(e) => Err(e),
    }
}

/// A result as it looks from outside.
pub open spec fn seq_view<T>(r: Result<Vec<T>, Error>) -> Result<Seq<T>, Error> {
    match r {
        Ok(v) => Ok(v@),
        Err(e) => Err(e),
    }
}

/// The number of elements of a section of `a` rows with `b` elements each, if
/// such a section may exist.
pub open spec fn section_size(a: nat, b: nat) -> Result<nat, Error> {
    if a * b > usize::MAX {
        Err(Error::SectionSizeOverflow)
    } else if a * b > MAX_SECTION_ELEMENTS {
        Err(Error::SectionTooLarge { size: (a * b) as usize })
    } else {
        Ok(a * b)
    }
}

/// Numbers take four bytes each.
pub proof fn lemma_words_len(data: Seq<u32>)
    ensures
        words(data).len() == 4 * data.len(),
    decreases data.len(),
{
    if data.len() > 0 {
        lemma_words_len(data.drop_last());
        bytes::lemma_word_len(data.last() as int);
    }
}

/// Numbers survive being stored.
pub proof fn lemma_words_roundtrip(data: Seq<u32>)
    ensures
        words(data).len() == 4 * data.len(),
        word_values(words(data)) == data,
    decreases data.len(),
{
    lemma_words_len(data);
    if data.len() > 0 {
        let front = data.drop_last();
        let b = words(data);
        let n: int = front.len() as int;
        lemma_words_roundtrip(front);
        bytes::lemma_word_len(data.last() as int);
        bytes::lemma_word32_roundtrip(data.last() as int);
        assert forall|i: int| 0 <= i < data.len() implies word_values(b)[i] == data[i] by {
            if i < n {
                assert(b.subrange(4 * i, 4 * i + 4) =~= words(front).subrange(4 * i, 4 * i + 4));
                assert(word_values(words(front))[i] == front[i]);
            } else {
                assert(b.subrange(4 * i, 4 * i + 4) =~= bytes::word32(data.last() as int));
            }
        }
        assert(word_values(b) =~= data);
    } else {
        assert(word_values(words(data)) =~= data);
    }
}

/// Writes an unsigned word.
pub fn write_u32_le<W: SeekWrite>(out: &mut W, v: u32) -> (result: Result<(), Error>)
    requires
        old(out).output().position + 4 <= u64::MAX,
    ensures
        stream::appended(
            old(out).output(),
            final(out).output(),
            result,
            bytes::word32(v as int),
        ),
{
    let b: Vec<u8> = bytes::to_le(v as u64, 4);
    proof {
        bytes::lemma_word_len(v as int);
    }
    out.write_all(b.as_slice())
}

/// Writes a signed word.
pub fn write_i32_le<W: SeekWrite>(out: &mut W, v: i32) -> (result: Result<(), Error>)
    requires
        old(out).output().position + 4 <= u64::MAX,
    ensures
        stream::appended(
            old(out).output(),
            final(out).output(),
            result,
            bytes::word32(v as int),
        ),
{
    let low: u64 = if v >= 0 {
        v as u64
    } else {
        (v as i64 + 0x1_0000_0000) as u64
    };
    let b: Vec<u8> = bytes::to_le(low, 4);
    proof {
        bytes::lemma_word_len(v as int);
    }
    out.write_all(b.as_slice())
}

/// Writes a signed double word.
pub fn write_i64_le<W: SeekWrite>(out: &mut W, v: i64) -> (result: Result<(), Error>)
    requires
        old(out).output().position + 8 <= u64::MAX,
    ensures
        stream::appended(
            old(out).output(),
            final(out).output(),
            result,
            bytes::word64(v as int),
        ),
{
    proof {
        bytes::lemma_cast64(v);
        bytes::lemma_word_len(v as int);
    }
    let b: Vec<u8> = bytes::to_le(v as u64, 8);
    out.write_all(b.as_slice())
}

/// Writes numbers one behind the other.
pub fn write_f32_slice<W: SeekWrite>(out: &mut W, data: &[u32]) -> (result: Result<(), Error>)
    requires
        old(out).output().position + 4 * data@.len() <= u64::MAX,
    ensures
        stream::appended(old(out).output(), final(out).output(), result, words(data@)),
{
    let mut b: Vec<u8> = Vec::new();
    let mut i: usize = 0;
    while i < data.len()
        invariant
            i <= data@.len(),
            b@ == words(data@.take(i as int)),
        decreases data@.len() - i,
    {
        let mut word: Vec<u8> = bytes::to_le(data[i] as u64, 4);
        b.append(&mut word);
        i = i + 1;
        assert(data@.take(i as int).drop_last() =~= data@.take(i - 1));
    }
    assert(data@.take(i as int) =~= data@);
    proof {
        lemma_words_len(data@);
    }
    out.write_all(b.as_slice())
}

/// Reads an unsigned word.
pub fn read_u32_le<R: SeekRead>(reader: &mut R) -> (result: Result<u32, Error>)
    ensures
        final(reader).contents() == old(reader).contents(),
        final(reader).reliable() == old(reader).reliable(),
        stream::agrees(
            result,
            u32_at(old(reader).contents(), old(reader).cursor()),
            old(reader).reliable(),
        ),
        result is Ok ==> final(reader).cursor() == old(reader).cursor() + 4,
        final(reader).reads() == old(reader).reads().push((old(reader).cursor(), 4)),
        result matches Err(e) ==> e is Io && e == final(reader).failure(),
{
    let mut b: [u8; 4] = [0u8; 4];
    match reader.read_exact(&mut b) {
        Ok(_) => {
            proof {
                bytes::lemma_pow256();
                bytes::lemma_le_value_roundtrip(b@);
            }
            Ok(bytes::from_le(&b) as u32)
        },
        Err(e) => Err(e),
    }
}

/// Reads a signed word.
pub fn read_i32_le<R: SeekRead>(reader: &mut R) -> (result: Result<i32, Error>)
    ensures
        final(reader).contents() == old(reader).contents(),
        final(reader).reliable() == old(reader).reliable(),
        stream::agrees(
            result,
            i32_at(old(reader).contents(), old(reader).cursor()),
            old(reader).reliable(),
        ),
        result is Ok ==> final(reader).cursor() == old(reader).cursor() + 4,
        final(reader).reads() == old(reader).reads().push((old(reader).cursor(), 4)),
        result matches Err(e) ==> e is Io && e == final(reader).failure(),
{
    let mut b: [u8; 4] = [0u8; 4];
    match reader.read_exact(&mut b) {
        Ok(_) => {
            proof {
                bytes::lemma_pow256();
                bytes::lemma_le_value_roundtrip(b@);
            }
            let v: u64 = bytes::from_le(&b);
            if v < 0x8000_0000 {
                Ok(v as i32)
            } else {
                Ok((v as i64 - 0x1_0000_0000) as i32)
            }
        },
        Err(e) => Err(e),
    }
}

/// Reads a signed double word.
pub fn read_i64_le<R: SeekRead>(reader: &mut R) -> (result: Result<i64, Error>)
    ensures
        final(reader).contents() == old(reader).contents(),
        final(reader).reliable() == old(reader).reliable(),
        stream::agrees(
            result,
            i64_at(old(reader).contents(), old(reader).cursor()),
            old(reader).reliable(),
        ),
        result is Ok ==> final(reader).cursor() == old(reader).cursor() + 8,
        final(reader).reads() == old(reader).reads().push((old(reader).cursor(), 8)),
        result matches Err(e) ==> e is Io && e == final(reader).failure(),
{
    let mut b: [u8; 8] = [0u8; 8];
    match reader.read_exact(&mut b) {
        Ok(_) => {
            let v: u64 = bytes::from_le(&b);
            proof {
                bytes::lemma_cast_signed64(v);
            }
            Ok(v as i64)
        },
        Err(e) => Err(e),
    }
}

/// Refuses a header field that is zero or negative.
pub fn validate_positive_i32(val: i32, field: HeaderField) -> (result: Result<i32, Error>)
    ensures
        result == if val <= 0 {
            Err::<i32, Error>(Error::NonPositiveField { field, value: val })
        } else {
            Ok(val)
        },
{
    if val <= 0 {
        return Err(Error::NonPositiveField { field, value: val });
    }
    Ok(val)
}

/// The number of elements of a section of `a` rows with `b` elements each.
pub fn checked_section_size(a: usize, b: usize) -> (result: Result<usize, Error>)
    ensures
        match result {
            Ok(n) => section_size(a as nat, b as nat) == Ok::<nat, Error>(n as nat),
            Err(e) => section_size(a as nat, b as nat) == Err::<nat, Error>(e),
        },
{
    match a.checked_mul(b) {
        None => Err(Error::SectionSizeOverflow),
        Some(size) => {
            if size > MAX_SECTION_ELEMENTS {
                Err(Error::SectionTooLarge { size })
            } else {
                Ok(size)
            }
        },
    }
}

/// The numbers that bytes hold, four bytes each.
fn words_of(b: &Vec<u8>) -> (data: Vec<u32>)
    ensures
        data@ == word_values(b@),
{
    let total: usize = b.len();
    let n: usize = total / 4;
    let mut data: Vec<u32> = Vec::new();
    let mut i: usize = 0;
    while i < n
        invariant
            i <= n,
            total == b@.len(),
            n == total / 4,
            data@ == word_values(b@).take(i as int),
        decreases n - i,
    {
        let start: usize = 4 * i;
        let word: [u8; 4] = [b[start], b[start + 1], b[start + 2], b[start + 3]];
        proof {
            assert(word@ =~= b@.subrange(4 * i, 4 * i + 4));
            bytes::lemma_pow256();
            bytes::lemma_le_value_roundtrip(word@);
        }
        data.push(bytes::from_le(&word) as u32);
        i = i + 1;
        assert(data@ =~= word_values(b@).take(i as int));
    }
    assert(data@ =~= word_values(b@));
    data
}

/// Reads `count` numbers.
pub fn read_f32_vec<R: SeekRead>(reader: &mut R, count: usize) -> (result: Result<Vec<u32>, Error>)
    ensures
        final(reader).contents() == old(reader).contents(),
        final(reader).reliable() == old(reader).reliable(),
        stream::agrees(
            seq_view(result),
            words_at(old(reader).contents(), old(reader).cursor(), count as nat),
            old(reader).reliable(),
        ),
        result is Ok ==> final(reader).cursor() == old(reader).cursor() + 4 * count,
        result is Ok ==> final(reader).reads() == old(reader).reads() + stream::chunked(
            old(reader).cursor(),
            4 * count as nat,
            CHUNK as nat,
        ),
        result matches Err(e) ==> e is Io && e == final(reader).failure(),
{
    let ghost c = reader.contents();
    let ghost start = reader.cursor();
    let mut data: Vec<u32> = Vec::new();
    let mut done: usize = 0;
    proof {
        assert(data@ =~= word_values(Seq::<u8>::empty()));
    }
    while done < count
        invariant
            done <= count,
            c == old(reader).contents(),
            start == old(reader).cursor(),
            reader.contents() == c,
            reader.reliable() == old(reader).reliable(),
            reader.cursor() == start + 4 * done,
            done > 0 ==> start + 4 * done <= c.len(),
            words_at(c, start, done as nat) == Ok::<Seq<u32>, Error>(data@),
            reader.reads() + stream::chunked(
                start + 4 * done as nat,
                (4 * (count - done)) as nat,
                CHUNK as nat,
            ) == old(reader).reads() + stream::chunked(start, 4 * count as nat, CHUNK as nat),
        decreases count - done,
    {
        let n: usize = if count - done < NUMBERS {
            count - done
        } else {
            NUMBERS
        };
        let ghost before = reader.reads();
        let ghost at: nat = start + 4 * done as nat;
        let mut b: Vec<u8> = vec![0u8; 4 * n];
        match reader.read_exact(b.as_mut_slice()) {
            Ok(_) => {},
            Err(e) => {
                return Err(e);
            },
        }
        let mut more: Vec<u32> = words_of(&b);
        proof {
            let left: nat = (4 * (count - done)) as nat;
            let rest = stream::chunked(at + 4 * n as nat, (left - 4 * n) as nat, CHUNK as nat);
            assert(before.push((at, 4 * n as nat)) + rest =~= before + stream::chunked(
                at,
                left,
                CHUNK as nat,
            ));
            let at: int = (start + 4 * done) as int;
            assert(b@ == c.subrange(at, at + 4 * n));
            let old_bytes = c.subrange(start as int, at);
            let all = c.subrange(start as int, at + 4 * n);
            assert(done > 0 ==> data@ == word_values(old_bytes));
            assert(done == 0 ==> old_bytes =~= Seq::<u8>::empty());
            assert(data@ == word_values(old_bytes));
            assert forall|i: int| 0 <= i < done + n implies word_values(all)[i] == (data@
                + more@)[i] by {
                if i < done {
                    assert(all.subrange(4 * i, 4 * i + 4) =~= old_bytes.subrange(4 * i, 4 * i + 4));
                    assert(word_values(old_bytes)[i] == data@[i]);
                } else {
                    let j: int = i - done;
                    assert(all.subrange(4 * i, 4 * i + 4) =~= b@.subrange(4 * j, 4 * j + 4));
                    assert(word_values(b@)[j] == more@[j]);
                }
            }
            assert(word_values(all) =~= data@ + more@);
        }
        data.append(&mut more);
        done = done + n;
    }
    assert(reader.reads() + Seq::<(nat, nat)>::empty() =~= reader.reads());
    Ok(data)
}

/// Reads `len` bytes from `pos` on, by positional reads.
pub fn pread_bytes<R: SeekRead>(
    reader: &mut R,
    log: &mut PreadLog,
    pos: u64,
    len: u64,
) -> (result: Result<Vec<u8>, Error>)
    ensures
        result is Ok ==> final(log).preads() == old(log).preads() + stream::chunked(
            pos as nat,
            len as nat,
            CHUNK as nat,
        ),
        final(reader).contents() == old(reader).contents(),
        final(reader).reliable() == old(reader).reliable(),
        stream::agrees(
            seq_view(result),
            stream::read_at(old(reader).contents(), pos as nat, len as nat),
            old(reader).reliable(),
        ),
        result is Ok && len > 0 ==> pos + len <= u64::MAX,
        result is Ok ==> final(reader).reads() == old(reader).reads() + stream::chunked(
            pos as nat,
            len as nat,
            CHUNK as nat,
        ),
        result matches Err(e) ==> e is Io && e == final(reader).failure(),
{
    let ghost c = reader.contents();
    let mut out: Vec<u8> = Vec::new();
    let mut done: u64 = 0;
    while done < len
        invariant
            done <= len,
            c == old(reader).contents(),
            reader.contents() == c,
            reader.reliable() == old(reader).reliable(),
            done > 0 ==> pos + done <= u64::MAX,
            done > 0 ==> pos + done <= c.len(),
            out@.len() == done,
            done > 0 ==> out@ == c.subrange(pos as int, pos + done),
            reader.reads() + stream::chunked(
                (pos + done) as nat,
                (len - done) as nat,
                CHUNK as nat,
            ) == old(reader).reads() + stream::chunked(pos as nat, len as nat, CHUNK as nat),
            log.preads() + stream::chunked(
                (pos + done) as nat,
                (len - done) as nat,
                CHUNK as nat,
            ) == old(log).preads() + stream::chunked(pos as nat, len as nat, CHUNK as nat),
        decreases len - done,
    {
        let n: usize = if len - done < CHUNK as u64 {
            (len - done) as usize
        } else {
            CHUNK
        };
        let ghost before = reader.reads();
        let ghost log_before = log.preads();
        let mut b: Vec<u8> = vec![0u8; n];
        match log.pread(reader, pos + done, b.as_mut_slice()) {
            Ok(_) => {},
            Err(e) => {
                return Err(e);
            },
        }
        proof {
            let at: int = pos + done;
            let left: nat = (len - done) as nat;
            let rest = stream::chunked((at + n) as nat, (left - n) as nat, CHUNK as nat);
            assert(before.push((at as nat, n as nat)) + rest =~= before + stream::chunked(
                at as nat,
                left,
                CHUNK as nat,
            ));
            assert(log_before.push((at as nat, n as nat)) + rest =~= log_before
                + stream::chunked(at as nat, left, CHUNK as nat));
            assert(b@ == c.subrange(at, at + n));
            if done > 0 {
                assert(c.subrange(pos as int, at) + b@ =~= c.subrange(pos as int, at + n));
            } else {
                assert(out@ + b@ =~= b@);
            }
        }
        out.append(&mut b);
        done = done + n as u64;
    }
    assert(len == 0 ==> out@ =~= Seq::<u8>::empty());
    assert(log.preads() + Seq::<(nat, nat)>::empty() =~= log.preads());
    assert(reader.reads() + Seq::<(nat, nat)>::empty() =~= reader.reads());
    Ok(out)
}

} // verus!
