//! Reading an index. The header is read at once, everything else on demand.

use crate::bytes;
use crate::codec;
use crate::codec::CHUNK;
use crate::error::{Error, HeaderField, IoFailure};
use crate::file::{
    FLAG_BY_RESIDUAL, FLAG_DELTA_IDS, FLAG_HAS_OPQ, FLAG_TRANSPOSED_CODES, HEADER_SIZE, MAGIC,
    VERSION,
};
use crate::file;
use crate::layout::CodeLayout;
use crate::metric::MetricType;
use crate::opq::OPQMatrix;
use crate::pq;
use crate::pq::ProductQuantizer;
use crate::stream;
use crate::stream::{PreadLog, SeekRead};
use crate::varint;
use vstd::prelude::*;

verus! {

/// What the header says.
#[derive(Debug, Clone, Copy, PartialEq, Eq, Structural)]
pub struct Header {
    pub d: usize,
    pub nlist: usize,
    pub m: usize,
    pub ksub: usize,
    pub dsub: usize,
    pub metric: MetricType,
    pub total_vectors: i64,
    pub by_residual: bool,
    pub delta_ids: bool,
    pub transposed_codes: bool,
    pub has_opq: bool,
}

/// The unsigned word at `at`, which has to be there.
pub open spec fn word(c: Seq<u8>, at: int) -> u32 {
    bytes::le_value(c.subrange(at, at + 4)) as u32
}

/// The signed word at `at`, which has to be there.
pub open spec fn signed_word(c: Seq<u8>, at: int) -> i32 {
    bytes::signed32(bytes::le_value(c.subrange(at, at + 4))) as i32
}

/// The signed double word at `at`, which has to be there.
pub open spec fn double_word(c: Seq<u8>, at: int) -> i64 {
    bytes::signed64(bytes::le_value(c.subrange(at, at + 8))) as i64
}

/// The failure of a read that goes past the end.
pub open spec fn eof() -> Error {
    Error::Io(IoFailure::UnexpectedEof)
}

/// Why `c` does not start with a header, if so. The first reason counts.
pub open spec fn header_error(c: Seq<u8>) -> Option<Error> {
    if c.len() < 4 {
        Some(eof())
    } else if word(c, 0) != MAGIC {
        Some(Error::BadMagic { magic: word(c, 0) })
    } else if c.len() < 8 {
        Some(eof())
    } else if word(c, 4) != VERSION {
        Some(Error::UnsupportedVersion { version: word(c, 4) })
    } else if c.len() < 12 {
        Some(eof())
    } else if signed_word(c, 8) <= 0 {
        Some(Error::NonPositiveField { field: HeaderField::D, value: signed_word(c, 8) })
    } else if c.len() < 16 {
        Some(eof())
    } else if signed_word(c, 12) <= 0 {
        Some(Error::NonPositiveField { field: HeaderField::Nlist, value: signed_word(c, 12) })
    } else if c.len() < 20 {
        Some(eof())
    } else if signed_word(c, 16) <= 0 {
        Some(Error::NonPositiveField { field: HeaderField::M, value: signed_word(c, 16) })
    } else if c.len() < 24 {
        Some(eof())
    } else if signed_word(c, 20) <= 0 {
        Some(Error::NonPositiveField { field: HeaderField::Ksub, value: signed_word(c, 20) })
    } else if c.len() < 28 {
        Some(eof())
    } else if signed_word(c, 24) <= 0 {
        Some(Error::NonPositiveField { field: HeaderField::Dsub, value: signed_word(c, 24) })
    } else if signed_word(c, 20) != 16 && signed_word(c, 20) != 256 {
        Some(Error::UnsupportedKsub { ksub: signed_word(c, 20) as usize })
    } else if signed_word(c, 8) != signed_word(c, 16) * signed_word(c, 24) {
        Some(
            Error::DimensionMismatch {
                d: signed_word(c, 8) as usize,
                m: signed_word(c, 16) as usize,
                dsub: signed_word(c, 24) as usize,
            },
        )
    } else if signed_word(c, 20) == 16 && signed_word(c, 16) % 2 != 0 {
        Some(Error::OddSubquantizers { m: signed_word(c, 16) as usize })
    } else if c.len() < 32 {
        Some(eof())
    } else if MetricType::spec_from_code(word(c, 28)) is None {
        Some(Error::UnknownMetric { code: word(c, 28) })
    } else if c.len() < HEADER_SIZE {
        Some(eof())
    } else if file::has_flag(word(c, 40), FLAG_HAS_OPQ) {
        match codec::section_size(signed_word(c, 8) as nat, signed_word(c, 8) as nat) {
            Err(e) => Some(e),
            Ok(_) => None,
        }
    } else {
        None
    }
}

/// The header at the start of `c`, if there is one.
pub open spec fn header_at(c: Seq<u8>) -> Header {
    Header {
        d: signed_word(c, 8) as usize,
        nlist: signed_word(c, 12) as usize,
        m: signed_word(c, 16) as usize,
        ksub: signed_word(c, 20) as usize,
        dsub: signed_word(c, 24) as usize,
        metric: MetricType::spec_from_code(word(c, 28))->0,
        total_vectors: double_word(c, 32),
        by_residual: file::has_flag(word(c, 40), FLAG_BY_RESIDUAL),
        delta_ids: file::has_flag(word(c, 40), FLAG_DELTA_IDS),
        transposed_codes: file::has_flag(word(c, 40), FLAG_TRANSPOSED_CODES),
        has_opq: file::has_flag(word(c, 40), FLAG_HAS_OPQ),
    }
}

/// The header at the start of `c`, or why there is none.
pub open spec fn parse_header(c: Seq<u8>) -> Result<Header, Error> {
    match header_error(c) {
        Some(e) => Err(e),
        None => Ok(header_at(c)),
    }
}

/// The reads that fetch the header, field by field.
pub open spec fn header_reads() -> Seq<(nat, nat)> {
    seq![
        (0nat, 4nat),
        (4, 4),
        (8, 4),
        (12, 4),
        (16, 4),
        (20, 4),
        (24, 4),
        (28, 4),
        (32, 8),
        (40, 4),
        (44, 20),
    ]
}

/// The number of bits of a code of one part.
pub open spec fn bits_for(ksub: usize) -> usize {
    if ksub == 16 {
        4
    } else {
        8
    }
}

/// Where the coarse centroids start.
pub open spec fn centroids_at(h: Header) -> int {
    if h.has_opq {
        64 + 4 * (h.d * h.d)
    } else {
        64
    }
}

/// Where the codebooks start.
pub open spec fn codebooks_at(h: Header) -> int {
    centroids_at(h) + 4 * (h.nlist * h.d)
}

/// Where the table starts.
pub open spec fn table_at(h: Header) -> int {
    codebooks_at(h) + 4 * (h.m * h.ksub * h.dsub)
}

/// The numbers from `from` up to `to`, which have to be there.
pub open spec fn numbers(c: Seq<u8>, from: int, to: int) -> Seq<u32> {
    codec::word_values(c.subrange(from, to))
}

/// Where list `i` starts, as the table says.
pub open spec fn entry_start(c: Seq<u8>, at: int, i: int) -> i64 {
    double_word(c, at + 16 * i)
}

/// How many vectors list `i` holds, as the table says.
pub open spec fn entry_count(c: Seq<u8>, at: int, i: int) -> i32 {
    signed_word(c, at + 16 * i + 8)
}

/// What is wrong with the first `n` entries of the table at `at`, if anything.
pub open spec fn table_error(c: Seq<u8>, at: int, n: nat) -> Option<Error>
    decreases n,
{
    if n == 0 {
        None
    } else {
        match table_error(c, at, (n - 1) as nat) {
            Some(e) => Some(e),
            None => {
                if c.len() < at + 16 * (n - 1) + 12 {
                    Some(eof())
                } else if entry_count(c, at, n - 1) < 0 {
                    Some(
                        Error::NegativeListCount {
                            count: entry_count(c, at, n - 1),
                            list: (n - 1) as usize,
                        },
                    )
                } else if c.len() < at + 16 * n {
                    Some(eof())
                } else {
                    None
                }
            },
        }
    }
}

/// Which section would be too large, if any. This is known before anything is
/// read.
pub open spec fn size_error(h: Header) -> Option<Error> {
    match codec::section_size(h.d as nat, h.d as nat) {
        Err(e) => Some(e),
        Ok(_) => match codec::section_size(h.nlist as nat, h.d as nat) {
            Err(e) => Some(e),
            Ok(_) => {
                if h.m * h.ksub > usize::MAX {
                    Some(Error::CodebookOverflow)
                } else {
                    match codec::section_size((h.m * h.ksub) as nat, h.dsub as nat) {
                        Err(e) => Some(e),
                        Ok(_) => None,
                    }
                }
            },
        },
    }
}

/// What is wrong with the sections behind the header, if anything.
pub open spec fn sections_error(c: Seq<u8>, h: Header) -> Option<Error> {
    match size_error(h) {
        Some(e) => Some(e),
        None => {
            if c.len() < table_at(h) {
                Some(eof())
            } else {
                table_error(c, table_at(h), h.nlist as nat)
            }
        },
    }
}

/// The reads that fetch the first `n` entries of the table at `at`.
pub open spec fn table_reads(at: int, n: nat) -> Seq<(nat, nat)>
    decreases n,
{
    if n == 0 {
        Seq::empty()
    } else {
        let entry = at + 16 * (n - 1);
        table_reads(at, (n - 1) as nat) + seq![
            (entry as nat, 8nat),
            ((entry + 8) as nat, 4nat),
            ((entry + 12) as nat, 4nat),
        ]
    }
}

/// The reads that fetch the numbers from `from` up to `to`.
pub open spec fn number_reads(from: int, to: int) -> Seq<(nat, nat)> {
    stream::chunked(from as nat, (to - from) as nat, CHUNK as nat)
}

/// The reads that fetch the sections behind the header.
pub open spec fn section_reads(h: Header) -> Seq<(nat, nat)> {
    (if h.has_opq {
        number_reads(64, centroids_at(h))
    } else {
        Seq::empty()
    }) + number_reads(centroids_at(h), codebooks_at(h)) + number_reads(
        codebooks_at(h),
        table_at(h),
    ) + table_reads(table_at(h), h.nlist as nat)
}

/// The reads that fetch list `i`: nothing for an empty list; else its front, if
/// it has one, its IDs and its codes.
pub open spec fn list_reads(c: Seq<u8>, h: Header, i: int) -> Seq<(nat, nat)> {
    let pos = ((entry_start(c, table_at(h), i) as int) % 0x1_0000_0000_0000_0000) as nat;
    let count = entry_count(c, table_at(h), i) as nat;
    let codes = count * pq::code_bytes(h.m as nat, bits_for(h.ksub) as nat);
    let chunk = CHUNK as nat;
    if count == 0 {
        Seq::empty()
    } else if h.delta_ids {
        let len = signed_word(c, (pos + 8) as int) as nat;
        stream::chunked(pos, 12, chunk) + stream::chunked(pos + 12, len, chunk) + stream::chunked(
            pos + 12 + len,
            codes,
            chunk,
        )
    } else {
        stream::chunked(pos, 8 * count, chunk) + stream::chunked(pos + 8 * count, codes, chunk)
    }
}

/// The result of loading the sections.
pub open spec fn sections_result(c: Seq<u8>, h: Header) -> Result<(), Error> {
    match sections_error(c, h) {
        Some(e) => Err(e),
        None => Ok(()),
    }
}

/// The IDs that `b` holds, eight bytes each.
pub open spec fn raw_ids(b: Seq<u8>) -> Seq<i64> {
    Seq::new((b.len() / 8) as nat, |i: int| double_word(b, 8 * i))
}

/// The list of `count` vectors with `cs` code bytes each at `pos`.
pub open spec fn list_at(c: Seq<u8>, delta: bool, pos: nat, count: nat, cs: nat) -> Result<
    (Seq<i64>, Seq<u8>),
    Error,
> {
    if count == 0 {
        Ok((Seq::empty(), Seq::empty()))
    } else if delta {
        if c.len() < pos + 12 {
            Err(eof())
        } else if signed_word(c, (pos + 8) as int) < 0 {
            Err(Error::NegativeIdBytesLen)
        } else {
            let len = signed_word(c, (pos + 8) as int) as nat;
            match stream::read_at(c, pos + 12, len) {
                Err(e) => Err(e),
                Ok(b) => with_codes(
                    c,
                    varint::delta_ids(double_word(c, pos as int) as int, b, count),
                    pos + 12 + len,
                    count * cs,
                ),
            }
        }
    } else {
        match stream::read_at(c, pos, 8 * count) {
            Err(e) => Err(e),
            Ok(b) => with_codes(c, Ok(raw_ids(b)), pos + 8 * count, count * cs),
        }
    }
}

/// IDs together with the `len` bytes at `pos`.
pub open spec fn with_codes(
    c: Seq<u8>,
    ids: Result<Seq<i64>, Error>,
    pos: nat,
    len: nat,
) -> Result<(Seq<i64>, Seq<u8>), Error> {
    match ids {
        Err(e) => Err(e),
        Ok(ids) => match stream::read_at(c, pos, len) {
            Err(e) => Err(e),
            Ok(codes) => Ok((ids, codes)),
        },
    }
}

/// List `i` of the file `c`, whose sections are sound.
pub open spec fn stored_list(c: Seq<u8>, h: Header, i: int) -> Result<(Seq<i64>, Seq<u8>), Error> {
    list_at(
        c,
        h.delta_ids,
        ((entry_start(c, table_at(h), i) as int) % 0x1_0000_0000_0000_0000) as nat,
        entry_count(c, table_at(h), i) as nat,
        pq::code_bytes(h.m as nat, bits_for(h.ksub) as nat),
    )
}

/// A list as it looks from outside.
pub open spec fn list_view(r: Result<(Vec<i64>, Vec<u8>), Error>) -> Result<
    (Seq<i64>, Seq<u8>),
    Error,
> {
    match r {
        Ok((ids, codes)) => Ok((ids@, codes@)),
        Err(e) => Err(e),
    }
}

/// Reads the header from the start of the file.
fn read_header<R: SeekRead>(reader: &mut R) -> (result: Result<Header, Error>)
    requires
        old(reader).cursor() == 0,
    ensures
        final(reader).contents() == old(reader).contents(),
        final(reader).reliable() == old(reader).reliable(),
        stream::agrees(result, parse_header(old(reader).contents()), old(reader).reliable()),
        result matches Err(e) ==> (e is Io ==> e == final(reader).failure()),
        result is Ok ==> final(reader).reads() == old(reader).reads() + header_reads(),
{
    let ghost c = reader.contents();
    let magic: u32 = match codec::read_u32_le(reader) {
        Ok(v) => v,
        Err(e) => {
            return Err(e);
        },
    };
    if magic != MAGIC {
        return Err(Error::BadMagic { magic });
    }
    let version: u32 = match codec::read_u32_le(reader) {
        Ok(v) => v,
        Err(e) => {
            return Err(e);
        },
    };
    if version != VERSION {
        return Err(Error::UnsupportedVersion { version });
    }
    let d: usize = match read_positive(reader, HeaderField::D) {
        Ok(v) => v,
        Err(e) => {
            return Err(e);
        },
    };
    let nlist: usize = match read_positive(reader, HeaderField::Nlist) {
        Ok(v) => v,
        Err(e) => {
            return Err(e);
        },
    };
    let m: usize = match read_positive(reader, HeaderField::M) {
        Ok(v) => v,
        Err(e) => {
            return Err(e);
        },
    };
    let ksub: usize = match read_positive(reader, HeaderField::Ksub) {
        Ok(v) => v,
        Err(e) => {
            return Err(e);
        },
    };
    let dsub: usize = match read_positive(reader, HeaderField::Dsub) {
        Ok(v) => v,
        Err(e) => {
            return Err(e);
        },
    };
    if ksub != 16 && ksub != 256 {
        return Err(Error::UnsupportedKsub { ksub });
    }
    assert(m * dsub <= 0x7fff_ffff * 0x7fff_ffff) by (nonlinear_arith)
        requires
            m <= 0x7fff_ffff,
            dsub <= 0x7fff_ffff,
    ;
    if d as u64 != m as u64 * dsub as u64 {
        return Err(Error::DimensionMismatch { d, m, dsub });
    }
    if ksub == 16 && m % 2 != 0 {
        return Err(Error::OddSubquantizers { m });
    }
    let metric_code: u32 = match codec::read_u32_le(reader) {
        Ok(v) => v,
        Err(e) => {
            return Err(e);
        },
    };
    let metric: MetricType = match MetricType::from_code(metric_code) {
        Some(metric) => metric,
        None => {
            return Err(Error::UnknownMetric { code: metric_code });
        },
    };
    let total_vectors: i64 = match codec::read_i64_le(reader) {
        Ok(v) => v,
        Err(e) => {
            return Err(e);
        },
    };
    let flags: u32 = match codec::read_u32_le(reader) {
        Ok(v) => v,
        Err(e) => {
            return Err(e);
        },
    };
    let mut skip: [u8; 20] = [0u8; 20];
    match reader.read_exact(&mut skip) {
        Ok(_) => {},
        Err(e) => {
            return Err(e);
        },
    }
    let has_opq: bool = (flags / FLAG_HAS_OPQ) % 2 == 1;
    if has_opq {
        match codec::checked_section_size(d, d) {
            Ok(_) => {},
            Err(e) => {
                return Err(e);
            },
        }
    }
    assert(reader.reads() =~= old(reader).reads() + header_reads());
    Ok(
        Header {
            d,
            nlist,
            m,
            ksub,
            dsub,
            metric,
            total_vectors,
            by_residual: (flags / FLAG_BY_RESIDUAL) % 2 == 1,
            delta_ids: (flags / FLAG_DELTA_IDS) % 2 == 1,
            transposed_codes: (flags / FLAG_TRANSPOSED_CODES) % 2 == 1,
            has_opq,
        },
    )
}

/// The field at `at`, which has to be positive.
spec fn positive_at(c: Seq<u8>, at: nat, field: HeaderField) -> Result<usize, Error> {
    match codec::i32_at(c, at) {
        Err(e) => Err(e),
        Ok(v) => if v <= 0 {
            Err(Error::NonPositiveField { field, value: v })
        } else {
            Ok(v as usize)
        },
    }
}

/// Reads a field that has to be positive.
fn read_positive<R: SeekRead>(reader: &mut R, field: HeaderField) -> (result: Result<usize, Error>)
    ensures
        final(reader).contents() == old(reader).contents(),
        final(reader).reliable() == old(reader).reliable(),
        stream::agrees(
            result,
            positive_at(old(reader).contents(), old(reader).cursor(), field),
            old(reader).reliable(),
        ),
        result is Ok ==> final(reader).cursor() == old(reader).cursor() + 4,
        final(reader).reads() == old(reader).reads().push((old(reader).cursor(), 4)),
        result matches Ok(v) ==> 0 < v <= 0x7fff_ffff,
        result matches Err(e) ==> (e is Io ==> e == final(reader).failure()),
{
    match codec::read_i32_le(reader) {
        Ok(v) => match codec::validate_positive_i32(v, field) {
            Ok(v) => Ok(v as usize),
            Err(e) => Err(e),
        },
        Err(e) => Err(e),
    }
}

/// An index file of which the lists are read on demand.
pub struct IVFPQIndexReader<R: SeekRead> {
    pub reader: R,
    pub d: usize,
    pub nlist: usize,
    pub m: usize,
    pub ksub: usize,
    pub dsub: usize,
    pub metric: MetricType,
    pub by_residual: bool,
    pub total_vectors: i64,
    pub opq: Option<OPQMatrix>,
    pub quantizer_centroids: Vec<u32>,
    pub pq: ProductQuantizer,
    /// Where each list starts.
    pub list_offsets: Vec<i64>,
    /// How many vectors each list holds.
    pub list_counts: Vec<i32>,
    pub precomputed_table: Vec<u32>,
    pub delta_ids: bool,
    pub transposed_codes: bool,
    /// Whether the sections behind the header were read.
    pub loaded: bool,
    /// Where the coarse centroids start.
    pub centroids_offset: u64,
    pub has_opq: bool,
    /// The positional reads that were asked of the stream.
    pub preads: PreadLog,
}

impl<R: SeekRead> IVFPQIndexReader<R> {
    /// What the header said.
    pub open spec fn header(&self) -> Header {
        Header {
            d: self.d,
            nlist: self.nlist,
            m: self.m,
            ksub: self.ksub,
            dsub: self.dsub,
            metric: self.metric,
            total_vectors: self.total_vectors,
            by_residual: self.by_residual,
            delta_ids: self.delta_ids,
            transposed_codes: self.transposed_codes,
            has_opq: self.has_opq,
        }
    }

    /// The stored bytes.
    pub open spec fn contents(&self) -> Seq<u8> {
        self.reader.contents()
    }

    /// The reader agrees with the header of its file, and once it is loaded
    /// with the sections too.
    pub open spec fn wf(&self) -> bool {
        &&& parse_header(self.contents()) == Ok::<Header, Error>(self.header())
        &&& self.pq.d == self.d
        &&& self.pq.m == self.m
        &&& self.pq.nbits == bits_for(self.ksub)
        &&& self.pq.dsub == self.dsub
        &&& self.pq.ksub == self.ksub
        &&& self.centroids_offset == centroids_at(self.header())
        &&& self.loaded ==> self.sections_loaded()
    }

    /// The sections are sound, and they are what the reader holds.
    pub open spec fn sections_loaded(&self) -> bool {
        &&& sections_error(self.contents(), self.header()) is None
        &&& self.rotation_loaded()
        &&& self.centroids_loaded()
        &&& self.codebooks_loaded()
        &&& self.table_loaded()
    }

    /// The rotation is the stored one, if there is one.
    pub open spec fn rotation_loaded(&self) -> bool {
        self.has_opq ==> (self.opq matches Some(opq) && opq.is_loaded(
            self.d,
            self.m,
            numbers(self.contents(), 64, centroids_at(self.header())),
        ))
    }

    /// The coarse centroids are the stored ones.
    pub open spec fn centroids_loaded(&self) -> bool {
        self.quantizer_centroids@ == numbers(
            self.contents(),
            centroids_at(self.header()),
            codebooks_at(self.header()),
        )
    }

    /// The codebooks are the stored ones.
    pub open spec fn codebooks_loaded(&self) -> bool {
        self.pq.centroids@ == numbers(
            self.contents(),
            codebooks_at(self.header()),
            table_at(self.header()),
        )
    }

    /// The table is the stored one.
    pub open spec fn table_loaded(&self) -> bool {
        &&& self.list_offsets@ == Seq::new(
            self.nlist as nat,
            |i: int| entry_start(self.contents(), table_at(self.header()), i),
        )
        &&& self.list_counts@ == Seq::new(
            self.nlist as nat,
            |i: int| entry_count(self.contents(), table_at(self.header()), i),
        )
    }

    /// Every entry of the table is the stored one, or zero.
    pub open spec fn table_partly_loaded(&self) -> bool {
        &&& self.list_offsets@.len() == self.nlist
        &&& self.list_counts@.len() == self.nlist
        &&& forall|i: int|
            #![trigger self.list_offsets@[i]]
            0 <= i < self.nlist ==> self.list_offsets@[i] == 0 || self.list_offsets@[i]
                == entry_start(self.contents(), table_at(self.header()), i)
        &&& forall|i: int|
            #![trigger self.list_counts@[i]]
            0 <= i < self.nlist ==> self.list_counts@[i] == 0 || self.list_counts@[i]
                == entry_count(self.contents(), table_at(self.header()), i)
    }

    /// Every section is the stored one, or what it was before.
    pub open spec fn partly_loaded(&self, before: &Self) -> bool {
        &&& self.opq == before.opq || (self.has_opq && self.rotation_loaded())
        &&& self.quantizer_centroids == before.quantizer_centroids || self.centroids_loaded()
        &&& self.pq == before.pq || self.codebooks_loaded()
        &&& (self.list_offsets == before.list_offsets && self.list_counts == before.list_counts)
            || self.table_partly_loaded()
    }

    /// The same file with the same header.
    pub open spec fn same_file(&self, other: &Self) -> bool {
        &&& self.contents() == other.contents()
        &&& self.reader.reliable() == other.reader.reliable()
        &&& self.header() == other.header()
        &&& self.precomputed_table == other.precomputed_table
    }

    /// Opens a file. Only the header is read.
    pub fn open(reader: R) -> (result: Result<Self, Error>)
        ensures
            match result {
                Ok(index) => {
                    &&& index.wf()
                    &&& index.contents() == reader.contents()
                    &&& index.reader.reliable() == reader.reliable()
                    &&& parse_header(reader.contents()) == Ok::<Header, Error>(index.header())
                    &&& index.preads.preads() == Seq::<(nat, nat)>::empty()
                    &&& !index.loaded
                    &&& index.opq is None
                    &&& index.quantizer_centroids@.len() == 0
                    &&& index.reader.reads() == reader.reads() + header_reads()
                    &&& index.pq.centroids@.len() == 0
                    &&& index.pq.centroid_norms_cache@.len() == 0
                    &&& index.list_offsets@.len() == 0
                    &&& index.list_counts@.len() == 0
                    &&& index.precomputed_table@.len() == 0
                },
                Err(e) => {
                    &&& stream::agrees(
                        Err(e),
                        parse_header(reader.contents()),
                        reader.reliable(),
                    )
                    &&& e is Io ==> exists|after: R|
                        after.contents() == reader.contents() && e == #[trigger] after.failure()
                },
            },
    {
        let mut reader = reader;
        match reader.seek(0) {
            Ok(_) => {},
            Err(e) => {
                return Err(e);
            },
        }
        let h: Header = match read_header(&mut reader) {
            Ok(h) => h,
            Err(e) => {
                return Err(e);
            },
        };
        proof {
            lemma_header_bounds(reader.contents());
        }
        let centroids_offset: u64 = if h.has_opq {
            assert(h.d * h.d <= 0x7fff_ffff * 0x7fff_ffff) by (nonlinear_arith)
                requires
                    0 <= h.d <= 0x7fff_ffff,
            ;
            HEADER_SIZE as u64 + h.d as u64 * h.d as u64 * 4
        } else {
            HEADER_SIZE as u64
        };
        Ok(
            IVFPQIndexReader {
                reader,
                d: h.d,
                nlist: h.nlist,
                m: h.m,
                ksub: h.ksub,
                dsub: h.dsub,
                metric: h.metric,
                by_residual: h.by_residual,
                total_vectors: h.total_vectors,
                opq: None,
                quantizer_centroids: Vec::new(),
                pq: ProductQuantizer {
                    d: h.d,
                    m: h.m,
                    nbits: if h.ksub == 16 {
                        4
                    } else {
                        8
                    },
                    dsub: h.dsub,
                    ksub: h.ksub,
                    centroids: Vec::new(),
                    centroid_norms_cache: Vec::new(),
                },
                list_offsets: Vec::new(),
                list_counts: Vec::new(),
                precomputed_table: Vec::new(),
                delta_ids: h.delta_ids,
                transposed_codes: h.transposed_codes,
                loaded: false,
                centroids_offset,
                has_opq: h.has_opq,
                preads: PreadLog::new(),
            },
        )
    }

    /// The order of the codes in the lists.
    pub fn code_layout(&self) -> (layout: CodeLayout)
        ensures
            layout == if self.transposed_codes {
                CodeLayout::Transposed
            } else {
                CodeLayout::RowMajor
            },
    {
        if self.transposed_codes {
            CodeLayout::Transposed
        } else {
            CodeLayout::RowMajor
        }
    }

    /// Whether a search uses the table of precomputed distances.
    pub fn uses_precomputed(&self) -> (yes: bool)
        ensures
            yes == (self.metric == MetricType::L2 && self.by_residual
                && self.precomputed_table@.len() > 0),
    {
        self.metric == MetricType::L2 && self.by_residual && self.precomputed_table.len() > 0
    }

    /// Whether positional reads may run at the same time.
    pub fn supports_concurrent_pread(&self) -> (yes: bool)
        ensures
            call_ensures(R::supports_concurrent_pread, (&self.reader,), yes),
    {
        self.reader.supports_concurrent_pread()
    }

    /// Reads the sections behind the header, if that was not done before. A
    /// failure may leave some of them read.
    ///
    /// `norms` computes the norms of the codebooks from their bit patterns.
    #[verifier::rlimit(40)]
    pub fn ensure_loaded<F: Fn(&Vec<u32>, usize, usize, usize) -> Vec<u32>>(
        &mut self,
        norms: F,
    ) -> (result: Result<(), Error>)
        requires
            old(self).wf(),
            pq::takes_all(norms),
        ensures
            final(self).wf(),
            final(self).same_file(old(self)),
            stream::agrees(
                result,
                sections_result(old(self).contents(), old(self).header()),
                old(self).reader.reliable(),
            ),
            final(self).loaded == (result is Ok),
            result is Ok && !old(self).has_opq ==> final(self).opq == old(self).opq,
            old(self).loaded ==> *final(self) == *old(self),
            result is Ok && !old(self).loaded ==> {
                &&& final(self).pq.measured_by(norms)
                &&& final(self).reader.reads() == old(self).reader.reads() + section_reads(
                    old(self).header(),
                )
            },
            size_error(old(self).header()) matches Some(e) ==> result == Err::<(), Error>(e)
                && *final(self) == *old(self),
            final(self).preads == old(self).preads,
            result matches Err(e) ==> (e is Io ==> e == final(self).reader.failure()),
            result is Err ==> final(self).partly_loaded(old(self)),
            result is Err ==> final(self).pq == old(self).pq || final(self).pq.measured_by(norms),
    {
        if self.loaded {
            return Ok(());
        }
        let d: usize = self.d;
        let nlist: usize = self.nlist;
        let m: usize = self.m;
        let ksub: usize = self.ksub;
        let dsub: usize = self.dsub;
        let ghost c = self.contents();
        let ghost h = self.header();
        proof {
            lemma_header_bounds(c);
        }

        let rotation_count: usize = match codec::checked_section_size(d, d) {
            Ok(n) => n,
            Err(e) => {
                return Err(e);
            },
        };
        let centroids_count: usize = match codec::checked_section_size(nlist, d) {
            Ok(n) => n,
            Err(e) => {
                return Err(e);
            },
        };
        let mk: usize = match m.checked_mul(ksub) {
            Some(n) => n,
            None => {
                return Err(Error::CodebookOverflow);
            },
        };
        let pq_centroids_count: usize = match codec::checked_section_size(mk, dsub) {
            Ok(n) => n,
            Err(e) => {
                return Err(e);
            },
        };

        if self.has_opq {
            match self.reader.seek(HEADER_SIZE as u64) {
                Ok(_) => {},
                Err(e) => {
                    return Err(e);
                },
            }
            let rotation: Vec<u32> = match codec::read_f32_vec(&mut self.reader, rotation_count) {
                Ok(v) => v,
                Err(e) => {
                    return Err(e);
                },
            };
            assert(d * d > 0) by (nonlinear_arith)
                requires
                    d > 0,
            ;
            self.opq = Some(OPQMatrix::loaded(d, m, rotation));
        } else {
            match self.reader.seek(self.centroids_offset) {
                Ok(_) => {},
                Err(e) => {
                    return Err(e);
                },
            }
        }
        assert(self.reader.cursor() == centroids_at(h));
        assert(self.rotation_loaded());

        assert(nlist * d > 0) by (nonlinear_arith)
            requires
                nlist > 0,
                d > 0,
        ;
        self.quantizer_centroids =
        match codec::read_f32_vec(&mut self.reader, centroids_count) {
            Ok(v) => v,
            Err(e) => {
                return Err(e);
            },
        };
        assert(self.centroids_loaded());

        assert(mk * dsub > 0) by (nonlinear_arith)
            requires
                m > 0,
                ksub > 0,
                dsub > 0,
                mk == m * ksub,
        ;
        let pq_centroids: Vec<u32> = match codec::read_f32_vec(
            &mut self.reader,
            pq_centroids_count,
        ) {
            Ok(v) => v,
            Err(e) => {
                return Err(e);
            },
        };
        self.pq = ProductQuantizer {
            d,
            m,
            nbits: if ksub == 16 {
                4
            } else {
                8
            },
            dsub,
            ksub,
            centroids: pq_centroids,
            centroid_norms_cache: Vec::new(),
        };
        self.pq.rebuild_norms_cache(norms);
        assert(self.codebooks_loaded());
        assert(self.reader.cursor() == table_at(h));

        self.list_offsets = vec![0i64; nlist];
        self.list_counts = vec![0i32; nlist];
        let ghost at: int = table_at(h);
        let ghost sections = self.reader.reads();
        proof {
            assert(sections + table_reads(at, 0) =~= sections);
            assert(sections + table_reads(at, nlist as nat) =~= old(self).reader.reads()
                + section_reads(h));
        }
        let mut i: usize = 0;
        while i < nlist
            invariant
                i <= nlist,
                self.preads == old(self).preads,
                size_error(old(self).header()) is None,
                self.pq.measured_by(norms),
                self.reader.reads() == sections + table_reads(at, i as nat),
                sections + table_reads(at, nlist as nat) == old(self).reader.reads()
                    + section_reads(h),
                nlist == self.nlist,
                at == table_at(h),
                0 <= at <= c.len(),
                self.contents() == c,
                self.header() == h,
                self.same_file(old(self)),
                self.wf(),
                !self.loaded,
                !old(self).loaded,
                self.rotation_loaded(),
                !self.has_opq ==> self.opq == old(self).opq,
                self.centroids_loaded(),
                self.codebooks_loaded(),
                self.table_partly_loaded(),
                self.reader.cursor() == at + 16 * i,
                sections_error(c, h) == table_error(c, at, nlist as nat),
                table_error(c, at, i as nat) is None,
                forall|x: int| 0 <= x < i ==> self.list_offsets@[x] == entry_start(c, at, x),
                forall|x: int| 0 <= x < i ==> self.list_counts@[x] == entry_count(c, at, x),
            decreases nlist - i,
        {
            proof {
                lemma_table_error_first(c, at, (i + 1) as nat, nlist as nat);
            }
            let start: i64 = match codec::read_i64_le(&mut self.reader) {
                Ok(v) => v,
                Err(e) => {
                    return Err(e);
                },
            };
            self.list_offsets.set(i, start);
            let count: i32 = match codec::read_i32_le(&mut self.reader) {
                Ok(v) => v,
                Err(e) => {
                    return Err(e);
                },
            };
            if count < 0 {
                return Err(Error::NegativeListCount { count, list: i });
            }
            self.list_counts.set(i, count);
            match codec::read_i32_le(&mut self.reader) {
                Ok(_) => {},
                Err(e) => {
                    return Err(e);
                },
            }
            i = i + 1;
            assert(self.reader.reads() =~= sections + table_reads(at, i as nat));
        }
        assert(self.list_offsets@ =~= Seq::new(
            self.nlist as nat,
            |i: int| entry_start(self.contents(), table_at(self.header()), i),
        ));
        assert(self.list_counts@ =~= Seq::new(
            self.nlist as nat,
            |i: int| entry_count(self.contents(), table_at(self.header()), i),
        ));
        self.loaded = true;
        Ok(())
    }

    /// Reads the IDs and the codes of a list, and the sections behind the
    /// header before that, if they were not read yet.
    pub fn read_inverted_list<F: Fn(&Vec<u32>, usize, usize, usize) -> Vec<u32>>(
        &mut self,
        list_id: usize,
        norms: F,
    ) -> (result: Result<(Vec<i64>, Vec<u8>), Error>)
        requires
            old(self).wf(),
            list_id < old(self).nlist,
            pq::takes_all(norms),
        ensures
            final(self).wf(),
            final(self).same_file(old(self)),
            old(self).loaded ==> final(self).same_sections(old(self)),
            result is Ok ==> final(self).loaded,
            final(self).loaded && !old(self).loaded ==> final(self).pq.measured_by(norms),
            final(self).loaded || final(self).partly_loaded(old(self)),
            result is Ok ==> final(self).reader.reads() == old(self).reader.reads() + (
            if old(self).loaded {
                Seq::empty()
            } else {
                section_reads(old(self).header())
            }) + list_reads(old(self).contents(), old(self).header(), list_id as int),
            result is Ok ==> final(self).preads.preads() == old(self).preads.preads() + list_reads(
                old(self).contents(),
                old(self).header(),
                list_id as int,
            ),
            result matches Err(e) ==> (e is Io ==> e == final(self).reader.failure()),
            size_error(old(self).header()) is Some ==> *final(self) == *old(self),
            stream::agrees(
                list_view(result),
                list_result(old(self).contents(), old(self).header(), list_id as int),
                old(self).reader.reliable(),
            ),
    {
        match self.ensure_loaded(norms) {
            Ok(_) => {},
            Err(e) => {
                return Err(e);
            },
        }
        assert(old(self).loaded ==> old(self).reader.reads() + Seq::<(nat, nat)>::empty()
            =~= old(self).reader.reads());
        self.read_loaded_list(list_id)
    }

    /// Reads the IDs and the codes of a list.
    #[verifier::rlimit(40)]
    pub fn read_loaded_list(&mut self, list_id: usize) -> (result: Result<
        (Vec<i64>, Vec<u8>),
        Error,
    >)
        requires
            old(self).wf(),
            old(self).loaded,
            list_id < old(self).nlist,
        ensures
            final(self).wf(),
            final(self).same_file(old(self)),
            final(self).same_sections(old(self)),
            result is Ok ==> final(self).reader.reads() == old(self).reader.reads() + list_reads(
                old(self).contents(),
                old(self).header(),
                list_id as int,
            ),
            result is Ok ==> final(self).preads.preads() == old(self).preads.preads() + list_reads(
                old(self).contents(),
                old(self).header(),
                list_id as int,
            ),
            result matches Err(e) ==> (e is Io ==> e == final(self).reader.failure()),
            stream::agrees(
                list_view(result),
                stored_list(old(self).contents(), old(self).header(), list_id as int),
                old(self).reader.reliable(),
            ),
    {
        let ghost c = self.contents();
        let ghost h = self.header();
        let ghost before = self.reader.reads();
        let ghost asked = self.preads.preads();
        proof {
            lemma_header_bounds(c);
            lemma_table_counts(c, table_at(h), self.nlist as nat, list_id as int);
        }
        let count: usize = self.list_counts[list_id] as usize;
        if count == 0 {
            let ids: Vec<i64> = Vec::new();
            let codes: Vec<u8> = Vec::new();
            assert(ids@ =~= Seq::<i64>::empty());
            assert(codes@ =~= Seq::<u8>::empty());
            assert(before + Seq::<(nat, nat)>::empty() =~= before);
            assert(asked + Seq::<(nat, nat)>::empty() =~= asked);
            return Ok((ids, codes));
        }
        let start: i64 = self.list_offsets[list_id];
        proof {
            bytes::lemma_cast64(start);
        }
        let offset: u64 = start as u64;
        let code_size: usize = self.pq.code_size();
        assert(count * code_size <= 0x7fff_ffff * 0x7fff_ffff) by (nonlinear_arith)
            requires
                count <= 0x7fff_ffff,
                code_size <= 0x7fff_ffff,
        ;
        let code_bytes: u64 = count as u64 * code_size as u64;

        let (ids, after): (Vec<i64>, u64) = if self.delta_ids {
            let front: Vec<u8> = match codec::pread_bytes(&mut self.reader, &mut self.preads, offset, 12) {
                Ok(b) => b,
                Err(e) => {
                    return Err(e);
                },
            };
            let base_id: i64 = double_word_of(&front, 0);
            let len: i32 = signed_word_of(&front, 8);
            proof {
                assert(front@.subrange(0, 8) =~= c.subrange(offset as int, offset + 8));
                assert(front@.subrange(8, 12) =~= c.subrange(offset + 8, offset + 12));
            }
            if len < 0 {
                return Err(Error::NegativeIdBytesLen);
            }
            let id_bytes: Vec<u8> = match codec::pread_bytes(
                &mut self.reader,
                &mut self.preads,
                offset + 12,
                len as u64,
            ) {
                Ok(b) => b,
                Err(e) => {
                    return Err(e);
                },
            };
            proof {
                varint::lemma_delta_ids_errors(base_id as int, id_bytes@, count as nat);
            }
            match varint::decode_delta_varint_ids(base_id, id_bytes.as_slice(), count) {
                Ok(ids) => (ids, offset + 12 + len as u64),
                Err(e) => {
                    return Err(e);
                },
            }
        } else {
            let b: Vec<u8> = match codec::pread_bytes(&mut self.reader, &mut self.preads, offset, count as u64 * 8) {
                Ok(b) => b,
                Err(e) => {
                    return Err(e);
                },
            };
            (raw_ids_of(&b), offset + count as u64 * 8)
        };
        match codec::pread_bytes(&mut self.reader, &mut self.preads, after, code_bytes) {
            Ok(codes) => {
                assert(self.reader.reads() =~= before + list_reads(c, h, list_id as int));
                assert(self.preads.preads() =~= asked + list_reads(c, h, list_id as int));
                Ok((ids, codes))
            },
            Err(e) => Err(e),
        }
    }

    /// The sections that the reader holds are the same.
    pub open spec fn same_sections(&self, other: &Self) -> bool {
        &&& self.loaded == other.loaded
        &&& self.opq == other.opq
        &&& self.quantizer_centroids == other.quantizer_centroids
        &&& self.pq == other.pq
        &&& self.list_offsets == other.list_offsets
        &&& self.list_counts == other.list_counts
    }
}

/// List `i` of the file `c`, or why it cannot be read.
pub open spec fn list_result(c: Seq<u8>, h: Header, i: int) -> Result<(Seq<i64>, Seq<u8>), Error> {
    match sections_error(c, h) {
        Some(e) => Err(e),
        None => stored_list(c, h, i),
    }
}

/// The signed word at `at`.
fn signed_word_of(b: &Vec<u8>, at: usize) -> (v: i32)
    requires
        at + 4 <= b@.len(),
    ensures
        v == signed_word(b@, at as int),
{
    let total: usize = b.len();
    let four: [u8; 4] = [b[at], b[at + 1], b[at + 2], b[at + 3]];
    proof {
        assert(four@ =~= b@.subrange(at as int, at + 4));
        bytes::lemma_pow256();
        bytes::lemma_le_value_roundtrip(four@);
    }
    let v: u64 = bytes::from_le(&four);
    if v < 0x8000_0000 {
        v as i32
    } else {
        (v as i64 - 0x1_0000_0000) as i32
    }
}

/// The signed double word at `at`.
fn double_word_of(b: &Vec<u8>, at: usize) -> (v: i64)
    requires
        at + 8 <= b@.len(),
    ensures
        v == double_word(b@, at as int),
{
    let total: usize = b.len();
    let eight: [u8; 8] = [
        b[at],
        b[at + 1],
        b[at + 2],
        b[at + 3],
        b[at + 4],
        b[at + 5],
        b[at + 6],
        b[at + 7],
    ];
    assert(eight@ =~= b@.subrange(at as int, at + 8));
    let v: u64 = bytes::from_le(&eight);
    proof {
        bytes::lemma_cast_signed64(v);
    }
    v as i64
}

/// The IDs that `b` holds, eight bytes each.
fn raw_ids_of(b: &Vec<u8>) -> (ids: Vec<i64>)
    ensures
        ids@ == raw_ids(b@),
{
    let total: usize = b.len();
    let n: usize = total / 8;
    let mut ids: Vec<i64> = Vec::new();
    let mut i: usize = 0;
    while i < n
        invariant
            i <= n,
            total == b@.len(),
            n == total / 8,
            ids@ == raw_ids(b@).take(i as int),
        decreases n - i,
    {
        ids.push(double_word_of(b, 8 * i));
        i = i + 1;
        assert(ids@ =~= raw_ids(b@).take(i as int));
    }
    assert(ids@ =~= raw_ids(b@));
    ids
}

/// No list of a sound table has a negative length.
pub proof fn lemma_table_counts(c: Seq<u8>, at: int, n: nat, i: int)
    requires
        table_error(c, at, n) is None,
        0 <= i < n,
    ensures
        entry_count(c, at, i) >= 0,
        c.len() >= at + 16 * n,
    decreases n,
{
    if i < n - 1 {
        lemma_table_counts(c, at, (n - 1) as nat, i);
    }
}

/// The numbers of a sound header are positive and fit in 31 bits.
pub proof fn lemma_header_bounds(c: Seq<u8>)
    requires
        header_error(c) is None,
    ensures
        c.len() >= 64,
        0 < header_at(c).d <= 0x7fff_ffff,
        0 < header_at(c).nlist <= 0x7fff_ffff,
        0 < header_at(c).m <= 0x7fff_ffff,
        header_at(c).ksub == 16 || header_at(c).ksub == 256,
        0 < header_at(c).dsub <= 0x7fff_ffff,
        header_at(c).d == header_at(c).m * header_at(c).dsub,
        header_at(c).ksub == 16 ==> header_at(c).m % 2 == 0,
{
}

/// Only the first 64 bytes decide whether and how a file opens.
pub proof fn lemma_header_prefix(c: Seq<u8>)
    requires
        c.len() >= HEADER_SIZE,
    ensures
        parse_header(c) == parse_header(c.take(HEADER_SIZE as int)),
{
    let t = c.take(HEADER_SIZE as int);
    assert forall|at: int| 0 <= at <= 60 implies #[trigger] c.subrange(at, at + 4) == t.subrange(
        at,
        at + 4,
    ) by {
        assert(c.subrange(at, at + 4) =~= t.subrange(at, at + 4));
    }
    assert(c.subrange(32, 40) =~= t.subrange(32, 40));
    assert(word(c, 0) == word(t, 0) && word(c, 4) == word(t, 4));
    assert(signed_word(c, 8) == signed_word(t, 8));
    assert(signed_word(c, 12) == signed_word(t, 12));
    assert(signed_word(c, 16) == signed_word(t, 16));
    assert(signed_word(c, 20) == signed_word(t, 20));
    assert(signed_word(c, 24) == signed_word(t, 24));
    assert(word(c, 28) == word(t, 28) && word(c, 40) == word(t, 40));
    assert(double_word(c, 32) == double_word(t, 32));
}

/// Opening fetches the 64 bytes of the header, each of them once, and no other.
pub proof fn lemma_header_reads()
    ensures
        stream::tiles(header_reads(), 0, HEADER_SIZE as nat),
{
    let r = header_reads();
    assert forall|i: int| 0 <= i < 11 implies (#[trigger] r.skip(i)).drop_first() == r.skip(i + 1)
        && r.skip(i)[0] == r[i] by {
        assert(r.skip(i).drop_first() =~= r.skip(i + 1));
    }
    assert(r.skip(0) =~= r);
    reveal_with_fuel(stream::tiles, 12);
}

/// Loading fetches the sections behind the header, each byte once.
pub proof fn lemma_section_reads(h: Header)
    ensures
        stream::tiles(section_reads(h), 64, (table_at(h) + 16 * h.nlist) as nat),
{
    let chunk = CHUNK as nat;
    let (a, b, c) = (centroids_at(h), codebooks_at(h), table_at(h));
    assert(0 <= h.d * h.d && 0 <= h.nlist * h.d) by (nonlinear_arith)
        requires
            0 <= h.d,
            0 <= h.nlist,
    ;
    assert(0 <= h.m * h.ksub * h.dsub) by (nonlinear_arith)
        requires
            0 <= h.m,
            0 <= h.ksub,
            0 <= h.dsub,
    ;
    let rotation = if h.has_opq {
        number_reads(64, a)
    } else {
        Seq::empty()
    };
    stream::lemma_chunked_tiles(64, (a - 64) as nat, chunk);
    stream::lemma_chunked_tiles(a as nat, (b - a) as nat, chunk);
    stream::lemma_chunked_tiles(b as nat, (c - b) as nat, chunk);
    lemma_table_reads(c, h.nlist as nat);
    assert(stream::tiles(rotation, 64, a as nat));
    stream::lemma_tiles_join(rotation, number_reads(a, b), 64, a as nat, b as nat);
    stream::lemma_tiles_join(
        rotation + number_reads(a, b),
        number_reads(b, c),
        64,
        b as nat,
        c as nat,
    );
    stream::lemma_tiles_join(
        rotation + number_reads(a, b) + number_reads(b, c),
        table_reads(c, h.nlist as nat),
        64,
        c as nat,
        (c + 16 * h.nlist) as nat,
    );
}

proof fn lemma_table_reads(at: int, n: nat)
    requires
        0 <= at,
    ensures
        stream::tiles(table_reads(at, n), at as nat, (at + 16 * n) as nat),
    decreases n,
{
    if n > 0 {
        lemma_table_reads(at, (n - 1) as nat);
        let e: nat = (at + 16 * (n - 1)) as nat;
        let one = seq![(e, 8nat), (e + 8, 4nat), (e + 12, 4nat)];
        assert(one.drop_first() =~= seq![(e + 8, 4nat), (e + 12, 4nat)]);
        assert(one.drop_first().drop_first() =~= seq![(e + 12, 4nat)]);
        assert(one.drop_first().drop_first().drop_first() =~= Seq::<(nat, nat)>::empty());
        reveal_with_fuel(stream::tiles, 4);
        assert(stream::tiles(one, e, e + 16));
        stream::lemma_tiles_join(table_reads(at, (n - 1) as nat), one, at as nat, e, e + 16);
    }
}

/// The number of bytes that list `i` takes in the file.
pub open spec fn list_len(c: Seq<u8>, h: Header, i: int) -> nat {
    let pos = ((entry_start(c, table_at(h), i) as int) % 0x1_0000_0000_0000_0000) as nat;
    let count = entry_count(c, table_at(h), i) as nat;
    let codes = count * pq::code_bytes(h.m as nat, bits_for(h.ksub) as nat);
    if count == 0 {
        0
    } else if h.delta_ids {
        12 + signed_word(c, (pos + 8) as int) as nat + codes
    } else {
        8 * count + codes
    }
}

/// Reading a list fetches its bytes, each of them once, and no other.
pub proof fn lemma_list_reads(c: Seq<u8>, h: Header, i: int)
    ensures
        list_reads(c, h, i).len() == 0 <==> entry_count(c, table_at(h), i) as nat == 0,
        ({
            let pos = ((entry_start(c, table_at(h), i) as int) % 0x1_0000_0000_0000_0000) as nat;
            stream::tiles(list_reads(c, h, i), pos, pos + list_len(c, h, i))
        }),
{
    let pos = ((entry_start(c, table_at(h), i) as int) % 0x1_0000_0000_0000_0000) as nat;
    let count = entry_count(c, table_at(h), i) as nat;
    let codes = count * pq::code_bytes(h.m as nat, bits_for(h.ksub) as nat);
    let chunk = CHUNK as nat;
    if count == 0 {
    } else if h.delta_ids {
        let len = signed_word(c, (pos + 8) as int) as nat;
        let a = stream::chunked(pos, 12, chunk);
        let b = stream::chunked(pos + 12, len, chunk);
        let d = stream::chunked(pos + 12 + len, codes, chunk);
        stream::lemma_chunked_tiles(pos, 12, chunk);
        stream::lemma_chunked_tiles(pos + 12, len, chunk);
        stream::lemma_chunked_tiles(pos + 12 + len, codes, chunk);
        stream::lemma_tiles_join(a, b, pos, pos + 12, pos + 12 + len);
        stream::lemma_tiles_join(a + b, d, pos, pos + 12 + len, pos + 12 + len + codes);
    } else {
        let a = stream::chunked(pos, 8 * count, chunk);
        let b = stream::chunked(pos + 8 * count, codes, chunk);
        stream::lemma_chunked_tiles(pos, 8 * count, chunk);
        stream::lemma_chunked_tiles(pos + 8 * count, codes, chunk);
        stream::lemma_tiles_join(a, b, pos, pos + 8 * count, pos + 8 * count + codes);
    }
}

/// The first error in the table decides.
proof fn lemma_table_error_first(c: Seq<u8>, at: int, i: nat, n: nat)
    requires
        i <= n,
    ensures
        table_error(c, at, i) is Some ==> table_error(c, at, n) == table_error(c, at, i),
    decreases n,
{
    if i < n {
        lemma_table_error_first(c, at, i, (n - 1) as nat);
    }
}

/// A list that can be read has as many IDs as the table says, and a code for
/// each.
pub proof fn lemma_list_lengths(c: Seq<u8>, h: Header, i: int)
    ensures
        stored_list(c, h, i) matches Ok((ids, codes)) ==> {
            let count = entry_count(c, table_at(h), i) as nat;
            &&& ids.len() == count
            &&& codes.len() == count * pq::code_bytes(h.m as nat, bits_for(h.ksub) as nat)
        },
{
    let pos = ((entry_start(c, table_at(h), i) as int) % 0x1_0000_0000_0000_0000) as nat;
    let count = entry_count(c, table_at(h), i) as nat;
    let cs = pq::code_bytes(h.m as nat, bits_for(h.ksub) as nat);
    if count == 0 {
        assert(0 * cs == 0) by (nonlinear_arith);
    } else if h.delta_ids {
        let len = signed_word(c, (pos + 8) as int) as nat;
        if let Ok(b) = stream::read_at(c, pos + 12, len) {
            varint::lemma_delta_ids_ordered(double_word(c, pos as int) as int, b, count);
        }
    }
}

} // verus!
