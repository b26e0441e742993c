//! An inverted-file index of product-quantized vectors: its lists, its file
//! format, and the part of a search that comes after the distances are known.
//!
//! Single-precision numbers are carried as their bit patterns, in `u32`.
//! Nothing here computes with them; [`float`] orders them.
//!
//! - [`ivfpq`], [`pq`], [`opq`], [`metric`]: the index and its parts.
//! - [`layout`], [`fastscan`]: how the codes of a list lie in memory.
//! - [`varint`], [`bytes`], [`codec`], [`stream`]: numbers as bytes, and streams.
//! - [`file`], [`writer`], [`reader`], [`roundtrip`]: the file format.
//! - [`heap`], [`sort`], [`search`], [`file_search`], [`batch`]: what a search
//!   looks at, and what it answers.
//! - [`shuffler`]: vectors that are grouped by partition on disk.
//! - `*_laws`: what holds of the models that the contracts speak of, stated by
//!   lengths, positions, bytes and counts alone.
//! - `*_promises`: what holds of every call of a public function, stated by its
//!   arguments and its result alone.

pub mod batch;
pub mod batch_laws;
pub mod byte_laws;
pub mod bytes;
pub mod code_laws;
pub mod code_promises;
pub mod codec;
pub mod error;
pub mod fastscan;
pub mod file;
pub mod file_promises;
pub mod file_search;
pub mod float;
pub mod heap;
pub mod index_laws;
pub mod index_promises;
pub mod ivfpq;
pub mod layout;
pub mod list_laws;
pub mod metric;
pub mod opq;
pub mod pq;
pub mod query_laws;
pub mod read_laws;
pub mod reader;
pub mod roundtrip;
pub mod roundtrip_promises;
pub mod search;
pub mod search_laws;
pub mod search_promises;
pub mod shuffle_laws;
pub mod shuffle_promises;
pub mod shuffler;
pub mod sort;
pub mod stream;
pub mod stream_laws;
pub mod stream_promises;
pub mod varint;
pub mod varint_laws;
pub mod write_laws;
pub mod writer;
