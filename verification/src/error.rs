//! The errors of the library.

use vstd::prelude::*;

verus! {

/// How a reader or a writer failed.
#[derive(Debug, Clone, Copy, PartialEq, Eq, Structural)]
pub enum IoFailure {
    /// The read went past the end of the data.
    UnexpectedEof,
    /// Anything else that the underlying stream reported.
    Other,
}

/// The broad class of an error.
#[derive(Debug, Clone, Copy, PartialEq, Eq, Structural)]
pub enum ErrorKind {
    /// The stored bytes do not form a valid index.
    InvalidData,
    /// The caller's arguments do not fit the index.
    InvalidInput,
    /// The underlying stream failed.
    Io,
}

/// The header fields that have to be positive.
#[derive(Debug, Clone, Copy, PartialEq, Eq, Structural)]
pub enum HeaderField {
    D,
    Nlist,
    M,
    Ksub,
    Dsub,
}

/// Everything that can go wrong.
#[derive(Debug, Clone, Copy, PartialEq, Eq, Structural)]
pub enum Error {
    /// The underlying stream failed.
    Io(IoFailure),
    /// The bytes ended inside a varint.
    TruncatedVarint,
    /// The tenth byte of a varint carries more than the one bit that is left.
    VarintOutOfRange,
    /// A varint goes on after its tenth byte.
    VarintTooLong,
    /// A decoded ID is smaller than the one before it.
    IdsNotMonotonic,
    /// A header field is zero or negative.
    NonPositiveField { field: HeaderField, value: i32 },
    /// The element count of a section does not fit in `usize`.
    SectionSizeOverflow,
    /// A section holds more elements than any section may.
    SectionTooLarge { size: usize },
    /// The first word is not the magic number.
    BadMagic { magic: u32 },
    /// The version is not the supported one.
    UnsupportedVersion { version: u32 },
    /// `ksub` is neither 16 nor 256.
    UnsupportedKsub { ksub: usize },
    /// `d` is not `m * dsub`.
    DimensionMismatch { d: usize, m: usize, dsub: usize },
    /// Four-bit codes with an odd number of sub-quantizers.
    OddSubquantizers { m: usize },
    /// No metric has this code.
    UnknownMetric { code: u32 },
    /// `m * ksub` does not fit in `usize`.
    CodebookOverflow,
    /// The offset table holds a negative count.
    NegativeListCount { count: i32, list: usize },
    /// The length of an encoded ID block is negative.
    NegativeIdBytesLen,
    /// The query has the wrong number of components.
    QueryLength { len: usize, d: usize },
    /// No neighbour was asked for.
    ZeroK,
    /// No list is to be probed.
    ZeroNprobe,
    /// The batch holds no query.
    ZeroQueries,
    /// `nq * d` does not fit in `usize`.
    QueryCountOverflow,
    /// The batch has the wrong number of components.
    QueriesLength { len: usize, expected: usize },
    /// The vector has the wrong number of components.
    VectorLength { len: usize, dim: usize },
    /// The partition does not exist.
    PartitionOutOfRange { partition_id: u32, nlist: usize },
}

impl Error {
    /// The class of an error, as a function of the error alone.
    pub open spec fn spec_kind(self) -> ErrorKind {
        match self {
            Error::Io(_) => ErrorKind::Io,
            Error::QueryLength { .. } => ErrorKind::InvalidInput,
            Error::ZeroK => ErrorKind::InvalidInput,
            Error::ZeroNprobe => ErrorKind::InvalidInput,
            Error::ZeroQueries => ErrorKind::InvalidInput,
            Error::QueryCountOverflow => ErrorKind::InvalidInput,
            Error::QueriesLength { .. } => ErrorKind::InvalidInput,
            Error::VectorLength { .. } => ErrorKind::InvalidInput,
            Error::PartitionOutOfRange { .. } => ErrorKind::InvalidInput,
            _ => ErrorKind::InvalidData,
        }
    }

    /// The class of this error.
    pub fn kind(&self) -> (kind: ErrorKind)
        ensures
            kind == self.spec_kind(),
    {
        match self {
            Error::Io(_) => ErrorKind::Io,
            Error::QueryLength { .. } => ErrorKind::InvalidInput,
            Error::ZeroK => ErrorKind::InvalidInput,
            Error::ZeroNprobe => ErrorKind::InvalidInput,
            Error::ZeroQueries => ErrorKind::InvalidInput,
            Error::QueryCountOverflow => ErrorKind::InvalidInput,
            Error::QueriesLength { .. } => ErrorKind::InvalidInput,
            Error::VectorLength { .. } => ErrorKind::InvalidInput,
            Error::PartitionOutOfRange { .. } => ErrorKind::InvalidInput,
            _ => ErrorKind::InvalidData,
        }
    }
}

} // verus!
