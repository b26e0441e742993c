//! What an index file says, byte by byte.

use crate::byte_laws;
use crate::codec;
use crate::error::{Error, HeaderField, IoFailure};
use crate::file;
use crate::metric::MetricType;
use crate::pq;
use crate::reader;
use crate::reader::{Header, IVFPQIndexReader};
use crate::stream::SeekRead;
use crate::varint;
use vstd::prelude::*;

verus! {

/// Words are read lowest byte first, signed ones in two's complement.
pub proof fn lemma_words_read(c: Seq<u8>, at: int)
    requires
        0 <= at,
    ensures
        at + 4 <= c.len() ==> reader::word(c, at) == byte_laws::four(c, at),
        at + 4 <= c.len() ==> reader::signed_word(c, at) == byte_laws::signed_four(c, at),
        at + 8 <= c.len() ==> reader::double_word(c, at) == byte_laws::signed_eight(c, at),
{
    if at + 4 <= c.len() {
        byte_laws::lemma_le_value(c.subrange(at, at + 4));
    }
    if at + 8 <= c.len() {
        byte_laws::lemma_le_value(c.subrange(at, at + 8));
    }
}

/// The four lowest bits of the flags, each by itself.
#[verifier::rlimit(30)]
pub proof fn lemma_flags(flags: u32)
    ensures
        flags % 16 == (if file::has_flag(flags, file::FLAG_HAS_OPQ) {
            1int
        } else {
            0
        }) + (if file::has_flag(flags, file::FLAG_BY_RESIDUAL) {
            2int
        } else {
            0
        }) + (if file::has_flag(flags, file::FLAG_DELTA_IDS) {
            4int
        } else {
            0
        }) + (if file::has_flag(flags, file::FLAG_TRANSPOSED_CODES) {
            8int
        } else {
            0
        }),
{
}

/// A header is 64 bytes: the letters "IVPQ" as a number, version 1, five positive
/// numbers, a metric, the number of vectors, the flags, and twenty bytes that do
/// not matter. There are 16 or 256 centroids for every part, the parts make up
/// the vector, an even number of them if there are 16, and a rotation is not
/// larger than a section may be.
pub proof fn lemma_header_accepted(c: Seq<u8>)
    ensures
        reader::parse_header(c) is Ok <==> {
            &&& c.len() >= 64
            &&& byte_laws::four(c, 0) == 0x4956_5051
            &&& byte_laws::four(c, 4) == 1
            &&& byte_laws::signed_four(c, 8) > 0
            &&& byte_laws::signed_four(c, 12) > 0
            &&& byte_laws::signed_four(c, 16) > 0
            &&& byte_laws::signed_four(c, 20) == 16 || byte_laws::signed_four(c, 20) == 256
            &&& byte_laws::signed_four(c, 24) > 0
            &&& byte_laws::signed_four(c, 8) == byte_laws::signed_four(c, 16)
                * byte_laws::signed_four(c, 24)
            &&& byte_laws::signed_four(c, 20) == 16 ==> byte_laws::signed_four(c, 16) % 2 == 0
            &&& byte_laws::four(c, 28) <= 2
            &&& byte_laws::four(c, 40) % 2 == 1 ==> byte_laws::signed_four(c, 8)
                * byte_laws::signed_four(c, 8) <= 0x4000_0000
        },
{
    lemma_header_words(c);
    if c.len() >= 44 {
        lemma_flags(reader::word(c, 40));
    }
}

/// The fields of a header stand where they are read.
pub proof fn lemma_header_fields(c: Seq<u8>)
    ensures
        reader::parse_header(c) matches Ok(h) ==> {
            &&& h.d == byte_laws::four(c, 8)
            &&& h.nlist == byte_laws::four(c, 12)
            &&& h.m == byte_laws::four(c, 16)
            &&& h.ksub == byte_laws::four(c, 20)
            &&& h.dsub == byte_laws::four(c, 24)
            &&& byte_laws::four(c, 28) == 0 ==> h.metric == MetricType::L2
            &&& byte_laws::four(c, 28) == 1 ==> h.metric == MetricType::InnerProduct
            &&& byte_laws::four(c, 28) == 2 ==> h.metric == MetricType::Cosine
            &&& h.total_vectors == byte_laws::signed_eight(c, 32)
            &&& byte_laws::four(c, 40) % 16 == (if h.has_opq {
                1int
            } else {
                0
            }) + (if h.by_residual {
                2int
            } else {
                0
            }) + (if h.delta_ids {
                4int
            } else {
                0
            }) + (if h.transposed_codes {
                8int
            } else {
                0
            })
        },
{
    lemma_header_words(c);
    if let Ok(h) = reader::parse_header(c) {
        lemma_header_accepted(c);
        lemma_flags(reader::word(c, 40));
        lemma_positive(c, 8);
        lemma_positive(c, 12);
        lemma_positive(c, 16);
        lemma_positive(c, 20);
        lemma_positive(c, 24);
    }
}

proof fn lemma_positive(c: Seq<u8>, at: int)
    requires
        byte_laws::signed_four(c, at) >= 0,
    ensures
        byte_laws::signed_four(c, at) == byte_laws::four(c, at),
        byte_laws::four(c, at) < 0x8000_0000,
{
}

proof fn lemma_header_words(c: Seq<u8>)
    ensures
        c.len() >= 4 ==> reader::word(c, 0) == byte_laws::four(c, 0),
        c.len() >= 8 ==> reader::word(c, 4) == byte_laws::four(c, 4),
        c.len() >= 12 ==> reader::signed_word(c, 8) == byte_laws::signed_four(c, 8),
        c.len() >= 16 ==> reader::signed_word(c, 12) == byte_laws::signed_four(c, 12),
        c.len() >= 20 ==> reader::signed_word(c, 16) == byte_laws::signed_four(c, 16),
        c.len() >= 24 ==> reader::signed_word(c, 20) == byte_laws::signed_four(c, 20),
        c.len() >= 28 ==> reader::signed_word(c, 24) == byte_laws::signed_four(c, 24),
        c.len() >= 32 ==> reader::word(c, 28) == byte_laws::four(c, 28),
        c.len() >= 40 ==> reader::double_word(c, 32) == byte_laws::signed_eight(c, 32),
        c.len() >= 44 ==> reader::word(c, 40) == byte_laws::four(c, 40),
{
    lemma_words_read(c, 0);
    lemma_words_read(c, 4);
    lemma_words_read(c, 8);
    lemma_words_read(c, 12);
    lemma_words_read(c, 16);
    lemma_words_read(c, 20);
    lemma_words_read(c, 24);
    lemma_words_read(c, 28);
    lemma_words_read(c, 32);
    lemma_words_read(c, 40);
}

/// A file that ends within the header is refused as such, unless what is there
/// is wrong already. Where a field is wrong, and none before it is, it is named
/// with its value.
pub proof fn lemma_header_refused(c: Seq<u8>)
    ensures
        ({
            let refused = |e: Error| reader::parse_header(c) == Err::<Header, Error>(e);
            let eof = Error::Io(IoFailure::UnexpectedEof);
            let d = byte_laws::signed_four(c, 8);
            let nlist = byte_laws::signed_four(c, 12);
            let m = byte_laws::signed_four(c, 16);
            let ksub = byte_laws::signed_four(c, 20);
            let dsub = byte_laws::signed_four(c, 24);
            let a = c.len() >= 4 && byte_laws::four(c, 0) == 0x4956_5051;
            let b = a && c.len() >= 8 && byte_laws::four(c, 4) == 1;
            let e = b && c.len() >= 12 && d > 0;
            let f = e && c.len() >= 16 && nlist > 0;
            let g = f && c.len() >= 20 && m > 0;
            let h = g && c.len() >= 24 && ksub > 0;
            let i = h && c.len() >= 28 && dsub > 0;
            let j = i && (ksub == 16 || ksub == 256);
            let k = j && d == m * dsub;
            let l = k && !(ksub == 16 && m % 2 != 0);
            let n = l && c.len() >= 32 && byte_laws::four(c, 28) <= 2;
            &&& c.len() < 4 ==> refused(eof)
            &&& c.len() >= 4 && !a ==> refused(
                Error::BadMagic { magic: byte_laws::four(c, 0) as u32 },
            )
            &&& a && c.len() < 8 ==> refused(eof)
            &&& a && c.len() >= 8 && !b ==> refused(
                Error::UnsupportedVersion { version: byte_laws::four(c, 4) as u32 },
            )
            &&& b && c.len() < 12 ==> refused(eof)
            &&& b && c.len() >= 12 && !e ==> refused(
                Error::NonPositiveField { field: HeaderField::D, value: d as i32 },
            )
            &&& e && c.len() < 16 ==> refused(eof)
            &&& e && c.len() >= 16 && !f ==> refused(
                Error::NonPositiveField { field: HeaderField::Nlist, value: nlist as i32 },
            )
            &&& f && c.len() < 20 ==> refused(eof)
            &&& f && c.len() >= 20 && !g ==> refused(
                Error::NonPositiveField { field: HeaderField::M, value: m as i32 },
            )
            &&& g && c.len() < 24 ==> refused(eof)
            &&& g && c.len() >= 24 && !h ==> refused(
                Error::NonPositiveField { field: HeaderField::Ksub, value: ksub as i32 },
            )
            &&& h && c.len() < 28 ==> refused(eof)
            &&& h && c.len() >= 28 && !i ==> refused(
                Error::NonPositiveField { field: HeaderField::Dsub, value: dsub as i32 },
            )
            &&& i && !j ==> refused(Error::UnsupportedKsub { ksub: ksub as usize })
            &&& j && !k ==> refused(
                Error::DimensionMismatch { d: d as usize, m: m as usize, dsub: dsub as usize },
            )
            &&& k && !l ==> refused(Error::OddSubquantizers { m: m as usize })
            &&& l && c.len() < 32 ==> refused(eof)
            &&& l && c.len() >= 32 && !n ==> refused(
                Error::UnknownMetric { code: byte_laws::four(c, 28) as u32 },
            )
            &&& n && c.len() < 64 ==> refused(eof)
            &&& n && c.len() >= 64 && byte_laws::four(c, 40) % 2 == 1 && d * d > 0x4000_0000
                ==> refused(
                if d * d > usize::MAX {
                    Error::SectionSizeOverflow
                } else {
                    Error::SectionTooLarge { size: (d * d) as usize }
                },
            )
        }),
{
    lemma_header_words(c);
}

/// The sections follow each other: the rotation if there is one, the coarse
/// centroids, the codebooks and the table, four bytes for every number.
pub proof fn lemma_section_places(h: Header)
    ensures
        reader::centroids_at(h) == 64 + if h.has_opq {
            4 * (h.d * h.d)
        } else {
            0
        },
        reader::codebooks_at(h) - reader::centroids_at(h) == 4 * (h.nlist * h.d),
        reader::table_at(h) - reader::codebooks_at(h) == 4 * (h.m * h.ksub * h.dsub),
        reader::bits_for(16) == 4,
        reader::bits_for(256) == 8,
{
}

/// The numbers of a section.
pub proof fn lemma_numbers(c: Seq<u8>, from: int, count: nat, i: int)
    requires
        0 <= from,
        from + 4 * count <= c.len(),
    ensures
        reader::numbers(c, from, from + 4 * count).len() == count,
        0 <= i < count ==> reader::numbers(c, from, from + 4 * count)[i] == byte_laws::four(
            c,
            from + 4 * i,
        ),
{
    byte_laws::lemma_words(Seq::empty(), c.subrange(from, from + 4 * count), i);
}

/// An entry of the table: where the list starts, and how many vectors it holds.
pub proof fn lemma_entry(c: Seq<u8>, at: int, i: int)
    requires
        0 <= at,
        0 <= i,
    ensures
        at + 16 * i + 8 <= c.len() ==> reader::entry_start(c, at, i) == byte_laws::signed_eight(
            c,
            at + 16 * i,
        ),
        at + 16 * i + 12 <= c.len() ==> reader::entry_count(c, at, i) == byte_laws::signed_four(
            c,
            at + 16 * i + 8,
        ),
{
    lemma_words_read(c, at + 16 * i);
    lemma_words_read(c, at + 16 * i + 8);
}

/// A table is sound if all its entries are there and none has a negative count.
/// Else the first entry at fault says what is wrong.
pub proof fn lemma_table(c: Seq<u8>, at: int, n: nat)
    requires
        0 <= at,
    ensures
        n > 0 ==> (reader::table_error(c, at, n) is None <==> {
            &&& at + 16 * n <= c.len()
            &&& forall|i: int|
                0 <= i < n ==> #[trigger] byte_laws::signed_four(c, at + 16 * i + 8) >= 0
        }),
        reader::table_error(c, at, n) matches Some(e) ==> exists|i: int|
            {
                &&& 0 <= i < n
                &&& #[trigger] reader::table_error(c, at, i as nat) is None
                &&& at + 16 * i + 12 > c.len() ==> e == Error::Io(IoFailure::UnexpectedEof)
                &&& at + 16 * i + 12 <= c.len() ==> {
                    let count = byte_laws::signed_four(c, at + 16 * i + 8);
                    &&& count < 0 ==> e == Error::NegativeListCount {
                        count: count as i32,
                        list: i as usize,
                    }
                    &&& count >= 0 ==> at + 16 * i + 16 > c.len() && e == Error::Io(
                        IoFailure::UnexpectedEof,
                    )
                }
            },
    decreases n,
{
    if n > 0 {
        let m = (n - 1) as nat;
        lemma_table(c, at, m);
        lemma_entry(c, at, m as int);
        assert(byte_laws::signed_four(c, at + 16 * (n - 1) + 8) == byte_laws::signed_four(
            c,
            at + 16 * m as int + 8,
        ));
        if reader::table_error(c, at, n) is Some {
            if reader::table_error(c, at, m) is None {
                assert(reader::table_error(c, at, (n - 1) as nat) is None);
            }
        }
    }
}

/// The sections are sound if none is larger than a section may be, the file
/// reaches to the end of the table, and no list has a negative count.
pub proof fn lemma_sections(c: Seq<u8>, h: Header)
    requires
        h.nlist > 0,
    ensures
        reader::sections_error(c, h) is None <==> {
            &&& h.d * h.d <= 0x4000_0000
            &&& h.nlist * h.d <= 0x4000_0000
            &&& h.m * h.ksub <= usize::MAX
            &&& h.m * h.ksub * h.dsub <= 0x4000_0000
            &&& reader::table_at(h) + 16 * h.nlist <= c.len()
            &&& forall|i: int|
                0 <= i < h.nlist ==> #[trigger] byte_laws::signed_four(
                    c,
                    reader::table_at(h) + 16 * i + 8,
                ) >= 0
        },
        reader::sections_result(c, h) is Ok <==> reader::sections_error(c, h) is None,
        reader::sections_error(c, h) matches Some(e) ==> reader::sections_result(c, h) == Err::<
            (),
            Error,
        >(e),
        reader::size_error(h) matches Some(e) ==> reader::sections_error(c, h) == Some(e),
        reader::size_error(h) is None && c.len() < reader::table_at(h) ==> reader::sections_error(
            c,
            h,
        ) == Some(Error::Io(IoFailure::UnexpectedEof)),
        reader::size_error(h) is None && c.len() >= reader::table_at(h) ==> reader::sections_error(
            c,
            h,
        ) == reader::table_error(c, reader::table_at(h), h.nlist as nat),
{
    assert(0 <= h.d * h.d && 0 <= h.nlist * h.d && 0 <= h.m * h.ksub * h.dsub)
        by (nonlinear_arith);
    lemma_table(c, reader::table_at(h), h.nlist as nat);
}

/// A section of `a` rows with `b` numbers each may hold 2^30 numbers.
pub proof fn lemma_section_size(a: nat, b: nat)
    ensures
        codec::section_size(a, b) is Ok <==> a * b <= 0x4000_0000,
        a * b <= 0x4000_0000 ==> codec::section_size(a, b) == Ok::<nat, Error>(a * b),
        0x4000_0000 < a * b <= usize::MAX ==> codec::section_size(a, b) == Err::<nat, Error>(
            Error::SectionTooLarge { size: (a * b) as usize },
        ),
        a * b > usize::MAX ==> codec::section_size(a, b) == Err::<nat, Error>(
            Error::SectionSizeOverflow,
        ),
{
}

/// The first section that is too large is named.
pub proof fn lemma_sizes(h: Header)
    ensures
        codec::section_size(h.d as nat, h.d as nat) matches Err(e) ==> reader::size_error(h)
            == Some(e),
        h.d * h.d <= 0x4000_0000 ==> (codec::section_size(
            h.nlist as nat,
            h.d as nat,
        ) matches Err(e) ==> reader::size_error(h) == Some(e)),
        h.d * h.d <= 0x4000_0000 && h.nlist * h.d <= 0x4000_0000 && h.m * h.ksub > usize::MAX
            ==> reader::size_error(h) == Some(Error::CodebookOverflow),
        h.d * h.d <= 0x4000_0000 && h.nlist * h.d <= 0x4000_0000 && h.m * h.ksub <= usize::MAX
            ==> (codec::section_size((h.m * h.ksub) as nat, h.dsub as nat) matches Err(e)
            ==> reader::size_error(h) == Some(e)),
        h.d * h.d <= 0x4000_0000 && h.nlist * h.d <= 0x4000_0000 && h.m * h.ksub <= usize::MAX
            && h.m * h.ksub * h.dsub <= 0x4000_0000 ==> reader::size_error(h) is None,
{
    lemma_section_size(h.d as nat, h.d as nat);
    lemma_section_size(h.nlist as nat, h.d as nat);
    assert(0 <= h.m * h.ksub) by (nonlinear_arith);
    lemma_section_size((h.m * h.ksub) as nat, h.dsub as nat);
}

/// A code takes half a byte for every part if there are four bits for it, else a
/// byte.
pub proof fn lemma_code_bytes(m: nat)
    ensures
        m % 2 == 0 ==> 2 * pq::code_bytes(m, 4) == m,
        m % 2 == 1 ==> 2 * pq::code_bytes(m, 4) + 1 == m,
        pq::code_bytes(m, 8) == m,
{
}

/// A list whose IDs are stored as they are: eight bytes for every ID, and behind
/// them the codes.
pub proof fn lemma_raw_list(c: Seq<u8>, pos: nat, count: nat, cs: nat)
    ensures
        pos + 8 * count + count * cs <= c.len() ==> (reader::list_at(
            c,
            false,
            pos,
            count,
            cs,
        ) matches Ok((ids, codes)) && {
            &&& ids.len() == count
            &&& forall|i: int|
                0 <= i < count ==> #[trigger] ids[i] == byte_laws::signed_eight(c, pos + 8 * i)
            &&& codes == c.subrange(
                (pos + 8 * count) as int,
                (pos + 8 * count + count * cs) as int,
            )
        }),
        count > 0 && cs > 0 && pos + 8 * count + count * cs > c.len() ==> reader::list_at(
            c,
            false,
            pos,
            count,
            cs,
        ) == Err::<(Seq<i64>, Seq<u8>), Error>(Error::Io(IoFailure::UnexpectedEof)),
{
    assert(count > 0 && cs > 0 ==> count * cs > 0) by (nonlinear_arith);
    assert(0 <= count * cs) by (nonlinear_arith);
    assert(count == 0 ==> count * cs == 0) by (nonlinear_arith);
    if count > 0 && pos + 8 * count + count * cs <= c.len() {
        let b = c.subrange(pos as int, (pos + 8 * count) as int);
        let ids = reader::raw_ids(b);
        assert forall|i: int| 0 <= i < count implies #[trigger] ids[i] == byte_laws::signed_eight(
            c,
            pos + 8 * i,
        ) by {
            lemma_words_read(b, 8 * i);
            assert(byte_laws::signed_eight(b, 8 * i) == byte_laws::signed_eight(c, pos + 8 * i));
        }
        if count * cs == 0 {
            assert(c.subrange(
                (pos + 8 * count) as int,
                (pos + 8 * count + count * cs) as int,
            ) =~= Seq::empty());
        }
    } else if count == 0 && pos <= c.len() {
        assert(c.subrange((pos + 8 * count) as int, (pos + 8 * count + count * cs) as int)
            =~= Seq::empty());
    }
}

/// A list whose IDs are stored as differences: the first ID, the number of bytes
/// that the differences take, the differences, and behind them the codes.
pub proof fn lemma_delta_list(c: Seq<u8>, pos: nat, count: nat, cs: nat)
    requires
        count > 0,
    ensures
        pos + 12 > c.len() ==> reader::list_at(c, true, pos, count, cs) == Err::<
            (Seq<i64>, Seq<u8>),
            Error,
        >(Error::Io(IoFailure::UnexpectedEof)),
        pos + 12 <= c.len() ==> {
            let base = byte_laws::signed_eight(c, pos as int);
            let len = byte_laws::signed_four(c, pos as int + 8);
            let end = pos + 12 + len;
            let list = reader::list_at(c, true, pos, count, cs);
            &&& len < 0 ==> list == Err::<(Seq<i64>, Seq<u8>), Error>(Error::NegativeIdBytesLen)
            &&& len > 0 && end > c.len() ==> list == Err::<(Seq<i64>, Seq<u8>), Error>(
                Error::Io(IoFailure::UnexpectedEof),
            )
            &&& 0 <= len && end <= c.len() ==> match varint::delta_ids(
                base,
                c.subrange(pos as int + 12, end),
                count,
            ) {
                Err(e) => list == Err::<(Seq<i64>, Seq<u8>), Error>(e),
                Ok(ids) => {
                    &&& end + count * cs <= c.len() ==> list == Ok::<
                        (Seq<i64>, Seq<u8>),
                        Error,
                    >((ids, c.subrange(end, end + count * cs)))
                    &&& cs > 0 && end + count * cs > c.len() ==> list == Err::<
                        (Seq<i64>, Seq<u8>),
                        Error,
                    >(Error::Io(IoFailure::UnexpectedEof))
                },
            }
        },
        reader::list_at(c, true, pos, 0, cs) == Ok::<(Seq<i64>, Seq<u8>), Error>(
            (Seq::empty(), Seq::empty()),
        ),
{
    assert(count > 0 && cs > 0 ==> count * cs > 0) by (nonlinear_arith);
    assert(0 <= count * cs) by (nonlinear_arith);
    if pos + 12 <= c.len() {
        lemma_words_read(c, pos as int);
        lemma_words_read(c, pos as int + 8);
        let len = byte_laws::signed_four(c, pos as int + 8);
        let end = pos + 12 + len;
        if 0 <= len && end <= c.len() {
            let b = c.subrange(pos as int + 12, end);
            if len == 0 {
                assert(b =~= Seq::empty());
            }
            if count * cs == 0 {
                assert(c.subrange(end, end + count * cs) =~= Seq::empty());
            }
        }
    }
}

/// A list of a file is where the table says, with as many vectors as it says.
#[verifier::rlimit(30)]
pub proof fn lemma_stored_list(c: Seq<u8>, h: Header, i: int)
    requires
        0 <= i < h.nlist,
        reader::sections_error(c, h) is None,
        byte_laws::signed_eight(c, reader::table_at(h) + 16 * i) >= 0,
        h.ksub == 16 || h.ksub == 256,
    ensures
        reader::stored_list(c, h, i) == reader::list_at(
            c,
            h.delta_ids,
            byte_laws::eight(c, reader::table_at(h) + 16 * i) as nat,
            byte_laws::four(c, reader::table_at(h) + 16 * i + 8) as nat,
            if h.ksub == 16 {
                h.m as nat / 2
            } else {
                h.m as nat
            },
        ),
{
    lemma_sections(c, h);
    let at = reader::table_at(h);
    assert(0 <= h.d * h.d && 0 <= h.nlist * h.d && 0 <= h.m * h.ksub * h.dsub)
        by (nonlinear_arith);
    lemma_entry(c, at, i);
    assert(byte_laws::signed_four(c, at + 16 * i + 8) >= 0);
}

/// A reader says what the header of its file says.
pub proof fn lemma_opened<R: SeekRead>(file: &IVFPQIndexReader<R>)
    requires
        file.wf(),
    ensures
        reader::parse_header(file.contents()) matches Ok(h) && {
            &&& file.d == h.d
            &&& file.nlist == h.nlist
            &&& file.m == h.m
            &&& file.ksub == h.ksub
            &&& file.dsub == h.dsub
            &&& file.metric == h.metric
            &&& file.total_vectors == h.total_vectors
            &&& file.by_residual == h.by_residual
            &&& file.delta_ids == h.delta_ids
            &&& file.transposed_codes == h.transposed_codes
            &&& file.has_opq == h.has_opq
            &&& file.pq.d == h.d
            &&& file.pq.m == h.m
            &&& file.pq.ksub == h.ksub
            &&& file.pq.dsub == h.dsub
            &&& h.ksub == 16 ==> file.pq.nbits == 4
            &&& h.ksub == 256 ==> file.pq.nbits == 8
        },
{
}

/// A loaded reader holds the rotation, the centroids, the codebooks and the table
/// of its file, number by number.
pub proof fn lemma_loaded_sections<R: SeekRead>(file: &IVFPQIndexReader<R>, i: int)
    requires
        file.wf(),
        file.loaded,
    ensures
        ({
            let c = file.contents();
            let turned: int = if file.has_opq {
                (file.d * file.d) as int
            } else {
                0
            };
            let coarse: int = (file.nlist * file.d) as int;
            let fine: int = (file.m * file.ksub * file.dsub) as int;
            let table: int = 64 + 4 * (turned + coarse + fine);
            &&& file.has_opq ==> file.opq is Some && file.opq->0.rotation@.len() == turned
                && file.opq->0.d == file.d && file.opq->0.m == file.m && file.opq->0.is_trained
            &&& file.has_opq && 0 <= i < turned ==> file.opq->0.rotation@[i] == byte_laws::four(
                c,
                64 + 4 * i,
            )
            &&& file.quantizer_centroids@.len() == coarse
            &&& 0 <= i < coarse ==> file.quantizer_centroids@[i] == byte_laws::four(
                c,
                64 + 4 * turned + 4 * i,
            )
            &&& file.pq.centroids@.len() == fine
            &&& 0 <= i < fine ==> file.pq.centroids@[i] == byte_laws::four(
                c,
                64 + 4 * turned + 4 * coarse + 4 * i,
            )
            &&& file.list_offsets@.len() == file.nlist
            &&& file.list_counts@.len() == file.nlist
            &&& 0 <= i < file.nlist ==> file.list_offsets@[i] == byte_laws::signed_eight(
                c,
                table + 16 * i,
            ) && file.list_counts@[i] == byte_laws::signed_four(c, table + 16 * i + 8)
        }),
{
    let c = file.contents();
    let h = file.header();
    lemma_header_accepted(c);
    lemma_header_fields(c);
    lemma_sections(c, h);
    assert(0 <= h.d * h.d && 0 <= h.nlist * h.d && 0 <= h.m * h.ksub * h.dsub)
        by (nonlinear_arith);
    let turned: int = if h.has_opq {
        (h.d * h.d) as int
    } else {
        0
    };
    let coarse: int = (h.nlist * h.d) as int;
    let fine: int = (h.m * h.ksub * h.dsub) as int;
    assert(reader::centroids_at(h) == 64 + 4 * turned);
    if h.has_opq {
        lemma_numbers(c, 64, turned as nat, i);
    }
    lemma_numbers(c, 64 + 4 * turned, coarse as nat, i);
    lemma_numbers(c, 64 + 4 * turned + 4 * coarse, fine as nat, i);
    if 0 <= i < h.nlist {
        lemma_entry(c, reader::table_at(h), i);
    }
}

/// Two states of a reader of one file, and of one that was loaded no further.
pub proof fn lemma_same<R: SeekRead>(a: &IVFPQIndexReader<R>, b: &IVFPQIndexReader<R>)
    ensures
        a.same_file(b) ==> {
            &&& a.contents() == b.contents()
            &&& a.reader.contents() == b.reader.contents()
            &&& a.reader.reliable() == b.reader.reliable()
            &&& a.d == b.d
            &&& a.nlist == b.nlist
            &&& a.m == b.m
            &&& a.ksub == b.ksub
            &&& a.dsub == b.dsub
            &&& a.metric == b.metric
            &&& a.by_residual == b.by_residual
            &&& a.total_vectors == b.total_vectors
            &&& a.delta_ids == b.delta_ids
            &&& a.transposed_codes == b.transposed_codes
            &&& a.has_opq == b.has_opq
            &&& a.precomputed_table == b.precomputed_table
        },
        a.same_sections(b) ==> {
            &&& a.loaded == b.loaded
            &&& a.opq == b.opq
            &&& a.quantizer_centroids == b.quantizer_centroids
            &&& a.pq == b.pq
            &&& a.list_offsets == b.list_offsets
            &&& a.list_counts == b.list_counts
        },
{
}

/// A list can be read if the sections are sound; what is wrong with them comes
/// first.
pub proof fn lemma_list_result(c: Seq<u8>, h: Header, i: int)
    ensures
        reader::sections_error(c, h) matches Some(e) ==> reader::list_result(c, h, i) == Err::<
            (Seq<i64>, Seq<u8>),
            Error,
        >(e),
        reader::sections_error(c, h) is None ==> reader::list_result(c, h, i)
            == reader::stored_list(c, h, i),
{
}

/// After a failure every section of a reader is that of the file, or what it was
/// before; an entry of the table may be zero.
pub proof fn lemma_partly_loaded<R: SeekRead>(
    after: &IVFPQIndexReader<R>,
    before: &IVFPQIndexReader<R>,
    i: int,
)
    requires
        after.partly_loaded(before),
    ensures
        ({
            let c = after.contents();
            let h = after.header();
            &&& after.opq == before.opq || (after.has_opq && after.opq is Some
                && after.opq->0.rotation@ == reader::numbers(c, 64, reader::centroids_at(h)))
            &&& after.quantizer_centroids == before.quantizer_centroids
                || after.quantizer_centroids@ == reader::numbers(
                c,
                reader::centroids_at(h),
                reader::codebooks_at(h),
            )
            &&& after.pq == before.pq || after.pq.centroids@ == reader::numbers(
                c,
                reader::codebooks_at(h),
                reader::table_at(h),
            )
            &&& (after.list_offsets == before.list_offsets && after.list_counts
                == before.list_counts) || (after.list_offsets@.len() == after.nlist
                && after.list_counts@.len() == after.nlist && (0 <= i < after.nlist ==> (
            after.list_offsets@[i] == 0 || after.list_offsets@[i] == reader::entry_start(
                c,
                reader::table_at(h),
                i,
            )) && (after.list_counts@[i] == 0 || after.list_counts@[i] == reader::entry_count(
                c,
                reader::table_at(h),
                i,
            ))))
        }),
{
}

} // verus!
