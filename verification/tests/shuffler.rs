use ivfpq::error::{Error, ErrorKind, IoFailure};
use ivfpq::shuffler::DiskShuffler;
use ivfpq::stream::{MemReader, PosWriter};

fn bits(v: &[f32]) -> Vec<u32> {
    v.iter().map(|x| x.to_bits()).collect()
}

fn floats(v: &[u32]) -> Vec<f32> {
    v.iter().map(|x| f32::from_bits(*x)).collect()
}

#[test]
fn test_write_vector_validates_dim() {
    let mut out = PosWriter::new(Vec::new());
    let mut shuffler = DiskShuffler::new(4, 2);
    let err = shuffler
        .write_vector(&mut out, 0, 1, &bits(&[1.0, 2.0]))
        .unwrap_err();
    assert_eq!(err.kind(), ErrorKind::InvalidInput);
}

#[test]
fn test_write_vector_validates_partition_id() {
    let mut out = PosWriter::new(Vec::new());
    let mut shuffler = DiskShuffler::new(4, 2);
    let err = shuffler
        .write_vector(&mut out, 5, 1, &bits(&[1.0, 2.0, 3.0, 4.0]))
        .unwrap_err();
    assert_eq!(err.kind(), ErrorKind::InvalidInput);
}

#[test]
fn test_shuffler_roundtrip() {
    let dim = 4;
    let nlist = 3;
    let mut out = PosWriter::new(Vec::new());
    let mut shuffler = DiskShuffler::new(dim, nlist);

    // Write vectors to different partitions
    shuffler
        .write_vector(&mut out, 0, 100, &bits(&[1.0, 2.0, 3.0, 4.0]))
        .unwrap();
    shuffler
        .write_vector(&mut out, 1, 200, &bits(&[5.0, 6.0, 7.0, 8.0]))
        .unwrap();
    shuffler
        .write_vector(&mut out, 0, 300, &bits(&[9.0, 10.0, 11.0, 12.0]))
        .unwrap();
    shuffler
        .write_vector(&mut out, 2, 400, &bits(&[13.0, 14.0, 15.0, 16.0]))
        .unwrap();
    shuffler.finish_write().unwrap();

    assert_eq!(shuffler.partition_counts(), &[2, 1, 1]);

    // Read partition 0
    let mut reader = MemReader::new(out.inner);
    let (ids, vecs) = shuffler.read_partition(&mut reader, 0).unwrap();
    let vecs = floats(&vecs);
    assert_eq!(ids, vec![100, 300]);
    assert_eq!(vecs.len(), 2 * dim);
    assert_eq!(&vecs[0..4], &[1.0, 2.0, 3.0, 4.0]);
    assert_eq!(&vecs[4..8], &[9.0, 10.0, 11.0, 12.0]);

    // Read all
    assert_eq!(shuffler.check_records(&mut reader), Ok(true));
    let (all_ids, all_vecs) = shuffler.read_all_partitions(&mut reader).unwrap();
    assert_eq!(all_ids[0], vec![100, 300]);
    assert_eq!(all_ids[1], vec![200]);
    assert_eq!(all_ids[2], vec![400]);
    assert_eq!(&floats(&all_vecs[1])[..], &[5.0, 6.0, 7.0, 8.0]);
}

#[test]
fn finishing_returns_the_counts() {
    let mut out = PosWriter::new(Vec::new());
    let mut shuffler = DiskShuffler::new(1, 2);
    shuffler.write_vector(&mut out, 1, -7, &[42]).unwrap();
    shuffler.write_vector(&mut out, 1, 8, &[43]).unwrap();
    assert_eq!(shuffler.finish_write(), Ok(vec![0, 2]));
    assert_eq!(shuffler.total_count(), 2);
    assert!(!shuffler.writing);
    assert_eq!(shuffler.partition_counts().iter().sum::<usize>(), 2);
}

#[test]
fn a_record_is_the_partition_the_row_and_the_vector() {
    let mut out = PosWriter::new(Vec::new());
    let mut shuffler = DiskShuffler::new(1, 2);
    shuffler.write_vector(&mut out, 1, -2, &[0x0403_0201]).unwrap();
    let mut expected = vec![1u8, 0, 0, 0];
    expected.extend_from_slice(&(-2i64).to_le_bytes());
    expected.extend_from_slice(&[1, 2, 3, 4]);
    assert_eq!(out.inner, expected);
    assert_eq!(out.pos, 16);
}

#[test]
fn a_refused_vector_leaves_no_trace() {
    let mut out = PosWriter::new(Vec::new());
    let mut shuffler = DiskShuffler::new(2, 2);
    assert_eq!(
        shuffler.write_vector(&mut out, 9, 1, &[1, 2, 3]),
        Err(Error::VectorLength { len: 3, dim: 2 })
    );
    assert_eq!(
        shuffler.write_vector(&mut out, 2, 1, &[1, 2]),
        Err(Error::PartitionOutOfRange { partition_id: 2, nlist: 2 })
    );
    assert_eq!(shuffler.total_count(), 0);
    assert!(out.inner.is_empty());
}

#[test]
fn a_short_file_is_an_error_unless_the_partition_is_empty() {
    let mut out = PosWriter::new(Vec::new());
    let mut shuffler = DiskShuffler::new(1, 2);
    shuffler.write_vector(&mut out, 1, 5, &[6]).unwrap();
    let mut reader = MemReader::new(out.inner[..15].to_vec());
    assert_eq!(shuffler.read_partition(&mut reader, 0), Ok((vec![], vec![])));
    assert_eq!(
        shuffler.read_partition(&mut reader, 1),
        Err(Error::Io(IoFailure::UnexpectedEof))
    );
    assert_eq!(
        shuffler.read_all_partitions(&mut reader),
        Err(Error::Io(IoFailure::UnexpectedEof))
    );
    assert!(shuffler.check_records(&mut reader).is_err());
}

#[test]
fn foreign_partitions_are_noticed() {
    let mut out = PosWriter::new(Vec::new());
    let mut shuffler = DiskShuffler::new(0, 1);
    shuffler.write_vector(&mut out, 0, 5, &[]).unwrap();
    let mut bytes = out.inner;
    bytes[0] = 3;
    let mut reader = MemReader::new(bytes);
    assert_eq!(shuffler.check_records(&mut reader), Ok(false));
}
