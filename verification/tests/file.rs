use ivfpq::codec::{checked_section_size, validate_positive_i32, MAX_SECTION_ELEMENTS};
use ivfpq::error::{Error, ErrorKind, HeaderField, IoFailure};
use ivfpq::file::{
    FLAG_BY_RESIDUAL, FLAG_DELTA_IDS, FLAG_HAS_OPQ, FLAG_TRANSPOSED_CODES, HEADER_SIZE, MAGIC,
    VERSION,
};
use ivfpq::ivfpq::IVFPQIndex;
use ivfpq::layout::transpose_codes;
use ivfpq::metric::MetricType;
use ivfpq::opq::OPQMatrix;
use ivfpq::reader::IVFPQIndexReader;
use ivfpq::stream::{ByteSink, MemReader, PosWriter, SeekRead, SeekWrite};
use ivfpq::writer::{fits, write_index, write_index_raw_ids};

/// The squared norms of the centroids.
fn norms(centroids: &Vec<u32>, m: usize, ksub: usize, dsub: usize) -> Vec<u32> {
    (0..m * ksub)
        .map(|i| {
            let part = &centroids[i * dsub..(i + 1) * dsub];
            let norm: f32 = part.iter().map(|b| f32::from_bits(*b) * f32::from_bits(*b)).sum();
            norm.to_bits()
        })
        .collect()
}

#[test]
fn test_corrupt_delta_ids_returns_error() {
    let mut buf = Vec::new();
    buf.extend_from_slice(&MAGIC.to_le_bytes());
    buf.extend_from_slice(&VERSION.to_le_bytes());
    buf.extend_from_slice(&4i32.to_le_bytes()); // d
    buf.extend_from_slice(&1i32.to_le_bytes()); // nlist
    buf.extend_from_slice(&1i32.to_le_bytes()); // m
    buf.extend_from_slice(&256i32.to_le_bytes()); // ksub
    buf.extend_from_slice(&4i32.to_le_bytes()); // dsub
    buf.extend_from_slice(&(MetricType::L2 as u32).to_le_bytes());
    buf.extend_from_slice(&1i64.to_le_bytes()); // total_vectors
    let flags = FLAG_DELTA_IDS | FLAG_TRANSPOSED_CODES | FLAG_BY_RESIDUAL;
    buf.extend_from_slice(&flags.to_le_bytes());
    buf.extend_from_slice(&[0u8; 20]); // padding

    buf.extend_from_slice(&[0u8; 16]); // quantizer centroids (nlist=1, d=4)
    buf.extend_from_slice(&vec![0u8; 256 * 4 * 4]); // pq centroids (m=1, ksub=256, dsub=4)

    // Offset table: one list
    let list_data_offset = buf.len() as i64 + 16; // after 16 bytes of offset entry
    buf.extend_from_slice(&list_data_offset.to_le_bytes());
    buf.extend_from_slice(&1i32.to_le_bytes()); // count=1
    buf.extend_from_slice(&0i32.to_le_bytes()); // padding

    // List data: base_id + id_bytes_len=0 (truncated — not enough varints for count=1)
    buf.extend_from_slice(&123i64.to_le_bytes()); // base_id
    buf.extend_from_slice(&0i32.to_le_bytes()); // id_bytes_len = 0, but count=1

    let mut reader = IVFPQIndexReader::open(MemReader::new(buf)).unwrap();
    let result = reader.read_inverted_list(0, norms);
    assert!(
        result.is_err(),
        "should return error on truncated delta IDs"
    );
    assert_eq!(result, Err(Error::TruncatedVarint));
}

#[test]
fn test_negative_id_bytes_len_returns_error() {
    let mut buf = Vec::new();
    buf.extend_from_slice(&MAGIC.to_le_bytes());
    buf.extend_from_slice(&VERSION.to_le_bytes());
    buf.extend_from_slice(&4i32.to_le_bytes()); // d
    buf.extend_from_slice(&1i32.to_le_bytes()); // nlist
    buf.extend_from_slice(&1i32.to_le_bytes()); // m
    buf.extend_from_slice(&256i32.to_le_bytes()); // ksub
    buf.extend_from_slice(&4i32.to_le_bytes()); // dsub
    buf.extend_from_slice(&(MetricType::L2 as u32).to_le_bytes());
    buf.extend_from_slice(&1i64.to_le_bytes()); // total_vectors
    let flags = FLAG_DELTA_IDS | FLAG_TRANSPOSED_CODES | FLAG_BY_RESIDUAL;
    buf.extend_from_slice(&flags.to_le_bytes());
    buf.extend_from_slice(&[0u8; 20]); // padding

    buf.extend_from_slice(&[0u8; 16]); // quantizer centroids
    buf.extend_from_slice(&vec![0u8; 256 * 4 * 4]); // pq centroids

    let list_data_offset = buf.len() as i64 + 16;
    buf.extend_from_slice(&list_data_offset.to_le_bytes());
    buf.extend_from_slice(&1i32.to_le_bytes()); // count=1
    buf.extend_from_slice(&0i32.to_le_bytes()); // padding

    buf.extend_from_slice(&0i64.to_le_bytes()); // base_id
    buf.extend_from_slice(&(-1i32).to_le_bytes()); // negative id_bytes_len

    let mut reader = IVFPQIndexReader::open(MemReader::new(buf)).unwrap();
    let result = reader.read_inverted_list(0, norms);
    assert!(
        result.is_err(),
        "negative id_bytes_len should return error, not panic"
    );
    assert_eq!(result, Err(Error::NegativeIdBytesLen));
}

#[test]
fn test_negative_list_count_returns_error() {
    let mut buf = Vec::new();
    buf.extend_from_slice(&MAGIC.to_le_bytes());
    buf.extend_from_slice(&VERSION.to_le_bytes());
    buf.extend_from_slice(&4i32.to_le_bytes()); // d
    buf.extend_from_slice(&1i32.to_le_bytes()); // nlist
    buf.extend_from_slice(&1i32.to_le_bytes()); // m
    buf.extend_from_slice(&256i32.to_le_bytes()); // ksub
    buf.extend_from_slice(&4i32.to_le_bytes()); // dsub
    buf.extend_from_slice(&(MetricType::L2 as u32).to_le_bytes());
    buf.extend_from_slice(&1i64.to_le_bytes()); // total_vectors
    let flags = FLAG_DELTA_IDS | FLAG_TRANSPOSED_CODES | FLAG_BY_RESIDUAL;
    buf.extend_from_slice(&flags.to_le_bytes());
    buf.extend_from_slice(&[0u8; 20]); // padding
    buf.extend_from_slice(&[0u8; 16]); // quantizer centroids
    buf.extend_from_slice(&vec![0u8; 256 * 4 * 4]); // pq centroids

    // Offset table with negative count
    buf.extend_from_slice(&0i64.to_le_bytes()); // offset
    buf.extend_from_slice(&(-1i32).to_le_bytes()); // negative count
    buf.extend_from_slice(&0i32.to_le_bytes()); // padding

    let mut reader = IVFPQIndexReader::open(MemReader::new(buf)).unwrap();
    let result = reader.ensure_loaded(norms);
    assert!(
        result.is_err(),
        "negative list count should return error, not panic"
    );
    assert_eq!(result, Err(Error::NegativeListCount { count: -1, list: 0 }));
    assert!(!reader.loaded);
}

#[test]
fn test_negative_header_d_returns_error() {
    let mut buf = Vec::new();
    buf.extend_from_slice(&MAGIC.to_le_bytes());
    buf.extend_from_slice(&VERSION.to_le_bytes());
    buf.extend_from_slice(&(-1i32).to_le_bytes()); // invalid d
    // remaining header fields don't matter — open should fail
    buf.extend_from_slice(&[0u8; 64 - 12]);

    let result = IVFPQIndexReader::open(MemReader::new(buf));
    assert!(result.is_err(), "negative d should return error");
}

#[test]
fn test_negative_header_nlist_returns_error() {
    let mut buf = Vec::new();
    buf.extend_from_slice(&MAGIC.to_le_bytes());
    buf.extend_from_slice(&VERSION.to_le_bytes());
    buf.extend_from_slice(&4i32.to_le_bytes()); // d
    buf.extend_from_slice(&(-1i32).to_le_bytes()); // invalid nlist
    buf.extend_from_slice(&[0u8; 64 - 16]);

    let result = IVFPQIndexReader::open(MemReader::new(buf));
    assert!(result.is_err(), "negative nlist should return error");
}

#[test]
fn test_huge_pq_section_size_returns_error() {
    let mut buf = Vec::new();
    buf.extend_from_slice(&MAGIC.to_le_bytes());
    buf.extend_from_slice(&VERSION.to_le_bytes());
    // m=10000, ksub=256, dsub=10000: m*ksub*dsub = 2.56 billion > MAX_SECTION_ELEMENTS
    // d = m*dsub = 100_000_000
    buf.extend_from_slice(&100_000_000i32.to_le_bytes()); // d
    buf.extend_from_slice(&1i32.to_le_bytes()); // nlist
    buf.extend_from_slice(&10_000i32.to_le_bytes()); // m
    buf.extend_from_slice(&256i32.to_le_bytes()); // ksub (valid)
    buf.extend_from_slice(&10_000i32.to_le_bytes()); // dsub
    buf.extend_from_slice(&(MetricType::L2 as u32).to_le_bytes());
    buf.extend_from_slice(&0i64.to_le_bytes());
    let flags = FLAG_DELTA_IDS | FLAG_TRANSPOSED_CODES | FLAG_BY_RESIDUAL;
    buf.extend_from_slice(&flags.to_le_bytes());
    buf.extend_from_slice(&[0u8; 20]);

    let mut reader = IVFPQIndexReader::open(MemReader::new(buf)).unwrap();
    let result = reader.ensure_loaded(norms);
    assert!(
        result.is_err(),
        "huge m*ksub*dsub should return error, not panic"
    );
}

#[test]
fn test_huge_opq_offset_returns_error() {
    let mut buf = Vec::new();
    buf.extend_from_slice(&MAGIC.to_le_bytes());
    buf.extend_from_slice(&VERSION.to_le_bytes());
    buf.extend_from_slice(&i32::MAX.to_le_bytes()); // huge d
    buf.extend_from_slice(&1i32.to_le_bytes()); // nlist
    buf.extend_from_slice(&1i32.to_le_bytes()); // m
    buf.extend_from_slice(&256i32.to_le_bytes()); // ksub
    buf.extend_from_slice(&1i32.to_le_bytes()); // dsub
    buf.extend_from_slice(&(MetricType::L2 as u32).to_le_bytes());
    buf.extend_from_slice(&0i64.to_le_bytes());
    let flags = FLAG_HAS_OPQ | FLAG_DELTA_IDS | FLAG_TRANSPOSED_CODES | FLAG_BY_RESIDUAL;
    buf.extend_from_slice(&flags.to_le_bytes());
    buf.extend_from_slice(&[0u8; 20]);

    let result = IVFPQIndexReader::open(MemReader::new(buf));
    assert!(
        result.is_err(),
        "huge d*d OPQ offset should return error, not panic"
    );
}

#[test]
fn test_unsupported_ksub_returns_error() {
    let mut buf = Vec::new();
    buf.extend_from_slice(&MAGIC.to_le_bytes());
    buf.extend_from_slice(&VERSION.to_le_bytes());
    buf.extend_from_slice(&4i32.to_le_bytes()); // d
    buf.extend_from_slice(&1i32.to_le_bytes()); // nlist
    buf.extend_from_slice(&1i32.to_le_bytes()); // m
    buf.extend_from_slice(&3i32.to_le_bytes()); // ksub=3, unsupported
    buf.extend_from_slice(&4i32.to_le_bytes()); // dsub
    buf.extend_from_slice(&[0u8; 64 - 7 * 4]);

    let result = IVFPQIndexReader::open(MemReader::new(buf));
    assert!(result.is_err(), "unsupported ksub should return error");
}

#[test]
fn test_d_not_equal_m_times_dsub_returns_error() {
    let mut buf = Vec::new();
    buf.extend_from_slice(&MAGIC.to_le_bytes());
    buf.extend_from_slice(&VERSION.to_le_bytes());
    buf.extend_from_slice(&4i32.to_le_bytes()); // d=4
    buf.extend_from_slice(&1i32.to_le_bytes()); // nlist
    buf.extend_from_slice(&3i32.to_le_bytes()); // m=3, d != m*dsub
    buf.extend_from_slice(&256i32.to_le_bytes()); // ksub
    buf.extend_from_slice(&1i32.to_le_bytes()); // dsub=1, m*dsub=3 != d=4
    buf.extend_from_slice(&[0u8; 64 - 7 * 4]);

    let result = IVFPQIndexReader::open(MemReader::new(buf));
    assert!(result.is_err(), "d != m*dsub should return error");
}

fn header(words: &[i32; 5], metric: u32, flags: u32) -> Vec<u8> {
    let mut buf = Vec::new();
    buf.extend_from_slice(&MAGIC.to_le_bytes());
    buf.extend_from_slice(&VERSION.to_le_bytes());
    for w in words {
        buf.extend_from_slice(&w.to_le_bytes());
    }
    buf.extend_from_slice(&metric.to_le_bytes());
    buf.extend_from_slice(&0i64.to_le_bytes());
    buf.extend_from_slice(&flags.to_le_bytes());
    buf.extend_from_slice(&[0u8; 20]);
    buf
}

fn open_error(buf: Vec<u8>) -> Error {
    match IVFPQIndexReader::open(MemReader::new(buf)) {
        Ok(_) => panic!("the header is refused"),
        Err(e) => e,
    }
}

#[test]
fn each_header_error_has_an_input() {
    let good = [4, 1, 2, 256, 2];
    let eof = Error::Io(IoFailure::UnexpectedEof);

    let mut buf = header(&good, 0, 0);
    buf[0] = 0;
    assert_eq!(open_error(buf), Error::BadMagic { magic: MAGIC - 0x51 });

    let mut buf = header(&good, 0, 0);
    buf[4] = 9;
    assert_eq!(open_error(buf), Error::UnsupportedVersion { version: 9 });

    let fields = [
        HeaderField::D,
        HeaderField::Nlist,
        HeaderField::M,
        HeaderField::Ksub,
        HeaderField::Dsub,
    ];
    for i in 0..5 {
        let mut words = good;
        words[i] = -3;
        assert_eq!(
            open_error(header(&words, 0, 0)),
            Error::NonPositiveField { field: fields[i], value: -3 }
        );
    }

    assert_eq!(
        open_error(header(&[4, 1, 2, 17, 2], 0, 0)),
        Error::UnsupportedKsub { ksub: 17 }
    );
    assert_eq!(
        open_error(header(&[5, 1, 2, 16, 2], 0, 0)),
        Error::DimensionMismatch { d: 5, m: 2, dsub: 2 }
    );
    assert_eq!(
        open_error(header(&[3, 1, 3, 16, 1], 0, 0)),
        Error::OddSubquantizers { m: 3 }
    );
    assert_eq!(
        open_error(header(&good, 3, 0)),
        Error::UnknownMetric { code: 3 }
    );
    assert_eq!(
        open_error(header(&[40000, 1, 2, 256, 20000], 0, FLAG_HAS_OPQ)),
        Error::SectionTooLarge { size: 1_600_000_000 }
    );
    for len in 0..64 {
        assert_eq!(open_error(header(&good, 0, 0)[..len].to_vec()), eof, "{}", len);
    }
    assert!(IVFPQIndexReader::open(MemReader::new(header(&good, 2, 0))).is_ok());
    assert_eq!(eof.kind(), ErrorKind::Io);
    assert_eq!(Error::OddSubquantizers { m: 3 }.kind(), ErrorKind::InvalidData);
}

#[test]
fn only_the_header_decides_how_a_file_opens() {
    let head = header(&[4, 1, 2, 256, 2], 1, FLAG_BY_RESIDUAL);
    let mut longer = head.clone();
    longer.extend_from_slice(&[0xAB; 100]);
    let a = IVFPQIndexReader::open(MemReader::new(head)).unwrap();
    let b = IVFPQIndexReader::open(MemReader::new(longer)).unwrap();
    assert_eq!((a.d, a.nlist, a.m, a.ksub, a.dsub), (4, 1, 2, 256, 2));
    assert_eq!((b.d, b.nlist, b.m, b.ksub, b.dsub), (4, 1, 2, 256, 2));
    assert_eq!(a.metric, MetricType::InnerProduct);
    assert_eq!(b.metric, MetricType::InnerProduct);
    assert!(a.by_residual && b.by_residual);
}

#[test]
fn section_sizes_are_limited() {
    assert_eq!(checked_section_size(3, 5), Ok(15));
    assert_eq!(checked_section_size(1 << 15, 1 << 15), Ok(MAX_SECTION_ELEMENTS));
    assert_eq!(
        checked_section_size(MAX_SECTION_ELEMENTS, 2),
        Err(Error::SectionTooLarge { size: 2 * MAX_SECTION_ELEMENTS })
    );
    assert_eq!(
        checked_section_size(usize::MAX, 2),
        Err(Error::SectionSizeOverflow)
    );
    assert_eq!(validate_positive_i32(7, HeaderField::M), Ok(7));
    assert_eq!(
        validate_positive_i32(0, HeaderField::M),
        Err(Error::NonPositiveField { field: HeaderField::M, value: 0 })
    );
}

/// An index with two lists of one-byte codes in two parts, and one empty list.
fn sample_index(use_opq: bool, nbits: usize) -> IVFPQIndex {
    let m = if nbits == 4 { 4 } else { 2 };
    let mut index = IVFPQIndex::with_nbits(8, 3, m, nbits, MetricType::L2, use_opq);
    index.quantizer_centroids = (0..24).map(|i| (i as f32 * 0.5).to_bits()).collect();
    for (i, c) in index.pq.centroids.iter_mut().enumerate() {
        *c = (i as f32).to_bits();
    }
    if let Some(opq) = &mut index.opq {
        opq.rotation = (0..64).map(|i| (i as f32 * 3.0).to_bits()).collect();
    }
    let ids = [90i64, -5, 7, 1000, 7, i64::MAX, i64::MIN];
    let assignments = [0usize, 2, 0, 2, 0, 2, 2];
    let codes: Vec<u8> = (1..=14).collect();
    index.add(&assignments, &codes, &ids, 7);
    index
}

#[test]
fn an_index_is_read_back_with_sorted_ids() {
    for nbits in [8usize, 4] {
        for use_opq in [false, true] {
            let index = sample_index(use_opq, nbits);
            let mut writer = PosWriter::new(Vec::new());
            write_index(&index, &mut writer).unwrap();
            assert_eq!(writer.pos as usize, writer.inner.len());
            let mut reader = IVFPQIndexReader::open(MemReader::new(writer.inner)).unwrap();
            assert_eq!(reader.d, 8);
            assert_eq!(reader.nlist, 3);
            assert_eq!(reader.m, index.pq.m);
            assert_eq!(reader.ksub, index.pq.ksub);
            assert_eq!(reader.dsub, index.pq.dsub);
            assert_eq!(reader.metric, MetricType::L2);
            assert!(reader.by_residual && reader.delta_ids && reader.transposed_codes);
            assert_eq!(reader.has_opq, use_opq);
            assert_eq!(reader.total_vectors, 7);
            assert!(!reader.loaded);
            assert!(reader.pq.centroid_norms_cache.is_empty());

            reader.ensure_loaded(norms).unwrap();
            assert!(reader.loaded);
            assert_eq!(reader.quantizer_centroids, index.quantizer_centroids);
            assert_eq!(reader.pq.centroids, index.pq.centroids);
            assert_eq!(reader.pq.nbits, nbits);
            let (m, ksub, dsub) = (index.pq.m, index.pq.ksub, index.pq.dsub);
            assert_eq!(
                reader.pq.centroid_norms_cache,
                norms(&index.pq.centroids, m, ksub, dsub)
            );
            assert_eq!(reader.list_counts, vec![3, 0, 4]);
            match (&reader.opq, &index.opq) {
                (Some(a), Some(b)) => {
                    assert_eq!(a.rotation, b.rotation);
                    assert!(a.is_trained);
                }
                (None, None) => {}
                _ => panic!("the rotation is there just if it was"),
            }

            let (ids, codes) = reader.read_inverted_list(0, norms).unwrap();
            assert_eq!(ids, vec![7, 7, 90]);
            assert_eq!(codes, transpose_codes(&[5, 6, 9, 10, 1, 2], 3, 2));
            assert_eq!(reader.read_inverted_list(1, norms).unwrap(), (vec![], vec![]));
            let (ids, codes) = reader.read_inverted_list(2, norms).unwrap();
            assert_eq!(ids, vec![i64::MIN, -5, 1000, i64::MAX]);
            assert_eq!(codes, transpose_codes(&[13, 14, 3, 4, 7, 8, 11, 12], 4, 2));
        }
    }
}

#[test]
fn a_raw_index_is_read_back_as_it_is() {
    let index = sample_index(true, 8);
    let mut writer = PosWriter::new(Vec::new());
    write_index_raw_ids(&index, &mut writer).unwrap();
    writer.inner.extend_from_slice(&[1, 2, 3]);
    let mut reader = IVFPQIndexReader::open(MemReader::new(writer.inner)).unwrap();
    assert!(!reader.delta_ids && !reader.transposed_codes && reader.has_opq);
    for i in 0..3 {
        let (ids, codes) = reader.read_inverted_list(i, norms).unwrap();
        assert_eq!(ids, index.ids[i]);
        assert_eq!(codes, index.codes[i]);
    }
}

#[test]
fn every_cut_of_a_file_is_an_error() {
    let index = sample_index(false, 8);
    let mut writer = PosWriter::new(Vec::new());
    write_index(&index, &mut writer).unwrap();
    let whole = writer.inner;
    for len in [HEADER_SIZE, HEADER_SIZE + 95, whole.len() - 60, whole.len() - 1] {
        let mut reader = IVFPQIndexReader::open(MemReader::new(whole[..len].to_vec())).unwrap();
        assert_eq!(
            reader.read_inverted_list(2, norms),
            Err(Error::Io(IoFailure::UnexpectedEof))
        );
    }
}

#[test]
fn sections_are_not_read_twice() {
    let index = sample_index(false, 8);
    let mut writer = PosWriter::new(Vec::new());
    write_index(&index, &mut writer).unwrap();
    let mut reader = IVFPQIndexReader::open(MemReader::new(writer.inner)).unwrap();
    reader.ensure_loaded(norms).unwrap();
    reader.reader.data.clear();
    assert_eq!(reader.ensure_loaded(norms), Ok(()));
}

/// A sink that takes only so many bytes.
struct Bounded {
    bytes: Vec<u8>,
    left: usize,
}

impl ByteSink for Bounded {
    fn append(&mut self, buf: &[u8]) -> Result<(), Error> {
        let n = buf.len().min(self.left);
        self.bytes.extend_from_slice(&buf[..n]);
        self.left -= n;
        if n < buf.len() {
            Err(Error::Io(IoFailure::Other))
        } else {
            Ok(())
        }
    }
}

#[test]
fn a_failed_write_leaves_a_part_of_the_file() {
    let index = sample_index(true, 8);
    let mut writer = PosWriter::new(Vec::new());
    write_index(&index, &mut writer).unwrap();
    let whole = writer.inner;
    let mut raw = PosWriter::new(Vec::new());
    write_index_raw_ids(&index, &mut raw).unwrap();
    let raw_whole = raw.inner;
    for left in [0, 3, 40, 64, 200, whole.len() - 40, whole.len() - 1] {
        let mut writer = PosWriter::new(Bounded { bytes: Vec::new(), left });
        assert_eq!(
            write_index(&index, &mut writer),
            Err(Error::Io(IoFailure::Other))
        );
        assert_eq!(writer.inner.bytes, whole[..left].to_vec());
        let mut writer = PosWriter::new(Bounded { bytes: Vec::new(), left });
        assert_eq!(
            write_index_raw_ids(&index, &mut writer),
            Err(Error::Io(IoFailure::Other))
        );
        assert_eq!(writer.inner.bytes, raw_whole[..left].to_vec());
    }
}

#[test]
fn a_writer_counts_from_zero() {
    let mut writer = PosWriter::new(vec![9u8]);
    assert_eq!(writer.pos(), 0);
    writer.write_all(&[1, 2, 3]).unwrap();
    assert_eq!(writer.pos(), 3);
    assert_eq!(writer.inner, vec![9, 1, 2, 3]);
}

#[test]
fn a_failed_write_does_not_move_the_position() {
    let mut writer = PosWriter::new(Bounded { bytes: Vec::new(), left: 5 });
    writer.write_all(&[1, 2, 3]).unwrap();
    assert_eq!(
        writer.write_all(&[4, 5, 6]),
        Err(Error::Io(IoFailure::Other))
    );
    assert_eq!(writer.pos(), 3);
    assert_eq!(writer.inner.bytes, vec![1, 2, 3, 4, 5]);
    assert_eq!(writer.write_all(&[]), Ok(()));
    assert_eq!(writer.pos(), 3);
}

#[test]
fn there_is_room_for_a_file() {
    let index = sample_index(true, 8);
    assert!(fits(&index, 0));
    assert!(fits(&index, u64::MAX - 100_000));
    assert!(!fits(&index, u64::MAX));
    assert!(!fits(&index, u64::MAX - 1000));
}

#[test]
fn a_positional_read_moves_the_cursor_of_a_plain_stream() {
    let mut reader = MemReader::new(vec![1, 2, 3, 4]);
    let mut two = [0u8; 2];
    reader.pread(1, &mut two).unwrap();
    assert_eq!(reader.pos, 3);
    let mut one = [0u8; 1];
    reader.read_exact(&mut one).unwrap();
    assert_eq!(one, [4]);
}

/// A stream that notes its reads.
struct Noting {
    inner: MemReader,
    reads: Vec<(u64, usize)>,
}

impl SeekRead for Noting {
    fn seek(&mut self, pos: u64) -> Result<(), Error> {
        self.inner.seek(pos)
    }

    fn read_exact(&mut self, buf: &mut [u8]) -> Result<(), Error> {
        self.reads.push((self.inner.pos, buf.len()));
        self.inner.read_exact(buf)
    }
}

#[test]
fn every_byte_is_fetched_once() {
    let index = sample_index(true, 8);
    let mut writer = PosWriter::new(Vec::new());
    write_index(&index, &mut writer).unwrap();
    let len = writer.inner.len() as u64;
    let stream = Noting { inner: MemReader::new(writer.inner), reads: Vec::new() };
    let mut reader = IVFPQIndexReader::open(stream).unwrap();
    let end = reader.reader.reads.iter().fold(0, |at, &(pos, n)| {
        assert_eq!(pos, at);
        at + n as u64
    });
    assert_eq!(end, HEADER_SIZE as u64);
    for i in 0..3 {
        reader.read_inverted_list(i, norms).unwrap();
    }
    let end = reader.reader.reads.iter().fold(0, |at, &(pos, n)| {
        assert_eq!(pos, at);
        at + n as u64
    });
    assert_eq!(end, len);
}

#[test]
fn a_section_that_is_too_large_is_refused_before_anything_is_read() {
    let head = header(&[100_000_000, 1, 10_000, 256, 10_000], 0, 14);
    let stream = Noting { inner: MemReader::new(head), reads: Vec::new() };
    let mut reader = IVFPQIndexReader::open(stream).unwrap();
    let before = reader.reader.reads.clone();
    let size = 100_000_000usize * 100_000_000;
    assert_eq!(
        reader.ensure_loaded(norms),
        Err(Error::SectionTooLarge { size })
    );
    assert_eq!(reader.reader.reads, before);
    assert!(reader.quantizer_centroids.is_empty() && reader.list_counts.is_empty());
}

/// A sink that reports the same failure on every write.
struct Full(IoFailure);

impl ByteSink for Full {
    fn append(&mut self, _buf: &[u8]) -> Result<(), Error> {
        Err(Error::Io(self.0))
    }
}

#[test]
fn a_writer_hands_on_the_error_of_its_sink() {
    let index = sample_index(false, 8);
    for failure in [IoFailure::Other, IoFailure::UnexpectedEof] {
        let mut writer = PosWriter::new(Full(failure));
        assert_eq!(writer.write_all(&[1]), Err(Error::Io(failure)));
        assert_eq!(write_index(&index, &mut writer), Err(Error::Io(failure)));
        assert_eq!(write_index_raw_ids(&index, &mut writer), Err(Error::Io(failure)));
        assert_eq!(writer.pos(), 0);
    }
}

#[test]
fn reading_nothing_is_possible_past_the_end() {
    let mut reader = MemReader::new(vec![1, 2, 3]);
    reader.seek(100).unwrap();
    let mut none: [u8; 0] = [];
    assert_eq!(reader.read_exact(&mut none), Ok(()));
    let mut two = [0u8; 2];
    assert_eq!(
        reader.read_exact(&mut two),
        Err(Error::Io(IoFailure::UnexpectedEof))
    );
    assert_eq!(reader.pread(1, &mut two), Ok(()));
    assert_eq!(two, [2, 3]);
    assert!(!reader.supports_concurrent_pread());
}

/// A stream that cannot be read.
struct Broken;

impl SeekRead for Broken {
    fn seek(&mut self, _pos: u64) -> Result<(), Error> {
        Ok(())
    }

    fn read_exact(&mut self, _buf: &mut [u8]) -> Result<(), Error> {
        Err(Error::Io(IoFailure::Other))
    }
}

#[test]
fn a_reader_fails_as_its_stream_does() {
    match IVFPQIndexReader::open(Broken) {
        Ok(_) => panic!("nothing can be read"),
        Err(e) => assert_eq!(e, Error::Io(IoFailure::Other)),
    }
}

#[test]
fn metrics_have_numbers() {
    for metric in [MetricType::L2, MetricType::InnerProduct, MetricType::Cosine] {
        assert_eq!(MetricType::from_code(metric.code()), Some(metric));
        assert_eq!(metric.code(), metric as u32);
    }
    assert_eq!(MetricType::from_code(3), None);
}

#[test]
fn a_loaded_rotation_has_no_training_parameters() {
    let opq = OPQMatrix::loaded(2, 1, vec![1, 2, 3, 4]);
    assert_eq!(opq.niter + opq.niter_pq + opq.niter_pq_0 + opq.max_train_points, 0);
    assert!(opq.is_trained);
}
