use ivfpq::opq::{gather, pick_rows, OPQMatrix};
use rand::{Rng, SeedableRng};

#[test]
fn a_new_rotation_has_the_usual_parameters() {
    let opq = OPQMatrix::new(4, 2);
    assert_eq!(opq.niter, 50);
    assert_eq!(opq.niter_pq, 4);
    assert_eq!(opq.niter_pq_0, 40);
    assert_eq!(opq.max_train_points, 65536);
    assert_eq!(opq.rotation, vec![0u32; 16]);
    assert!(!opq.is_trained);
    assert_eq!(opq.quantizer_rounds(0), (40, false));
    assert_eq!(opq.quantizer_rounds(1), (4, true));
}

#[test]
fn draws_pick_rows() {
    assert_eq!(pick_rows(5, &[3, 3, 2]), vec![3, 0, 2]);
    assert_eq!(pick_rows(3, &[]), Vec::<usize>::new());
    assert_eq!(pick_rows(3, &[0, 1, 2]), vec![0, 1, 2]);
    assert_eq!(gather(&[10, 11, 20, 21, 30, 31], 2, &[2, 0]), vec![30, 31, 10, 11]);
}

#[test]
fn few_vectors_are_all_used() {
    let opq = OPQMatrix::new(2, 1);
    let data: Vec<u32> = (0..20).collect();
    let (sample, _) = opq.subsample(&data, 9);
    assert_eq!(sample, (0..18).collect::<Vec<u32>>());
}

#[test]
fn many_vectors_are_sampled_without_repetition() {
    let mut opq = OPQMatrix::new(2, 1);
    opq.max_train_points = 50;
    let n = 1000;
    let data: Vec<u32> = (0..2 * n as u32).collect();
    let (sample, _) = opq.subsample(&data, n);
    assert_eq!(sample.len(), 100);
    let mut rows: Vec<u32> = Vec::new();
    for pair in sample.chunks(2) {
        assert_eq!(pair[0] % 2, 0);
        assert_eq!(pair[1], pair[0] + 1);
        rows.push(pair[0] / 2);
    }
    let first: Vec<u32> = (0..50).collect();
    assert_ne!(rows, first);
    rows.sort();
    rows.dedup();
    assert_eq!(rows.len(), 50);
    assert!(rows.iter().all(|&r| (r as usize) < n));
}

#[test]
fn the_sample_is_drawn_with_the_fixed_seed() {
    let mut opq = OPQMatrix::new(1, 1);
    opq.max_train_points = 20;
    let data: Vec<u32> = (0..100).collect();
    let (sample, mut rng) = opq.subsample(&data, 100);

    let mut own = rand::rngs::StdRng::seed_from_u64(12345);
    let mut indices: Vec<u32> = (0..100).collect();
    for i in 0..20usize {
        let j = own.gen_range(i..100usize);
        indices.swap(i, j);
    }
    assert_eq!(sample, indices[..20].to_vec());
    assert_eq!(rng.gen::<u64>(), own.gen::<u64>());
}
