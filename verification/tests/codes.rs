use ivfpq::fastscan::{
    exact_end, flat_end, pack_codes_block_layout, quantized_distances, unpack_codes_block_layout,
    BBS, FLAT_NUM,
};
use ivfpq::layout::{lookups_4bit, lookups_8bit, transpose_codes, CodeLayout};

#[test]
fn test_pack_unpack_roundtrip() {
    let n = 100;
    let cs = 4; // m/2 = 4, i.e. m=8
    let codes: Vec<u8> = (0..n * cs).map(|i| (i % 256) as u8).collect();

    let packed = pack_codes_block_layout(&codes, n, cs);
    let unpacked = unpack_codes_block_layout(&packed, n, cs);

    assert_eq!(codes, unpacked);
}

/// Distances of block-layout codes: exact for the first vectors, from a table
/// of bytes for the others.
fn fastscan_4bit(sim_table: &[f32], codes: &[u8], n: usize, m: usize, dists: &mut [f32]) {
    let cs = m / 2;
    let exact = exact_end(n);
    for i in 0..exact {
        let mut d = 0.0f32;
        for index in lookups_4bit(CodeLayout::Block, codes, n, cs, i) {
            d += sim_table[index];
        }
        dists[i] = d;
    }
    if n <= FLAT_NUM {
        return;
    }
    let qmax = sim_table.iter().cloned().fold(f32::MIN, f32::max);
    let qmin = sim_table.iter().cloned().fold(f32::INFINITY, f32::min);
    let range = (qmax - qmin).max(1e-10);
    let factor = 255.0 / range;
    let qtable: Vec<u8> = sim_table
        .iter()
        .map(|&d| ((d - qmin) * factor).clamp(0.0, 255.0) as u8)
        .collect();
    let sums = quantized_distances(CodeLayout::Block, &qtable, codes, n, cs, exact);
    for (i, q) in sums.iter().enumerate() {
        dists[exact + i] = *q as f32 * (range / 255.0) + qmin * m as f32;
    }
}

#[test]
fn test_fastscan_correctness() {
    let m = 8;
    let cs = m / 2;
    let n = 100;

    // Random-ish codes
    let codes_row: Vec<u8> = (0..n * cs).map(|i| ((i * 7 + 3) % 256) as u8).collect();

    // Random-ish distance table [M * 16]
    let sim_table: Vec<f32> = (0..m * 16).map(|i| (i as f32) * 0.1 + 0.5).collect();

    // Compute ground truth with scalar
    let mut expected = vec![0.0f32; n];
    for i in 0..n {
        for pair in 0..cs {
            let byte = codes_row[i * cs + pair];
            let lo = (byte & 0x0F) as usize;
            let hi = ((byte >> 4) & 0x0F) as usize;
            expected[i] += sim_table[(pair * 2) * 16 + lo];
            expected[i] += sim_table[(pair * 2 + 1) * 16 + hi];
        }
    }

    // Pack into block layout and scan
    let packed = pack_codes_block_layout(&codes_row, n, cs);
    let mut result = vec![0.0f32; n];
    fastscan_4bit(&sim_table, &packed, n, m, &mut result);

    // Check first 200 (f32 exact) — should match perfectly
    for i in 0..n.min(200) {
        assert!(
            (result[i] - expected[i]).abs() < 1e-5,
            "Mismatch at {}: {} vs {}",
            i,
            result[i],
            expected[i]
        );
    }
}

#[test]
fn test_fastscan_large() {
    let m = 16;
    let cs = m / 2;
    let n = 1000; // > 200, exercises quantized path

    let codes_row: Vec<u8> = (0..n * cs).map(|i| ((i * 13 + 7) % 256) as u8).collect();
    let sim_table: Vec<f32> = (0..m * 16).map(|i| (i as f32) * 0.05 + 1.0).collect();

    // Compute scalar reference
    let mut expected = vec![0.0f32; n];
    for i in 0..n {
        for pair in 0..cs {
            let byte = codes_row[i * cs + pair];
            let lo = (byte & 0x0F) as usize;
            let hi = ((byte >> 4) & 0x0F) as usize;
            expected[i] += sim_table[(pair * 2) * 16 + lo];
            expected[i] += sim_table[(pair * 2 + 1) * 16 + hi];
        }
    }

    let packed = pack_codes_block_layout(&codes_row, n, cs);
    let mut result = vec![0.0f32; n];
    fastscan_4bit(&sim_table, &packed, n, m, &mut result);

    // First 200 are computed with f32 exact — should match perfectly
    for i in 0..200 {
        assert!(
            (result[i] - expected[i]).abs() < 1e-5,
            "Exact mismatch at {}: got {}, expected {}",
            i,
            result[i],
            expected[i]
        );
    }

    // Beyond 200: quantized path — allow quantization tolerance
    let max_expected = expected.iter().cloned().fold(f32::MIN, f32::max);
    let tolerance = max_expected * 0.02; // 2% relative tolerance for u8 quantization
    for i in 200..n {
        assert!(
            (result[i] - expected[i]).abs() <= tolerance,
            "SIMD mismatch at {}: got {}, expected {}, diff {}",
            i,
            result[i],
            expected[i],
            (result[i] - expected[i]).abs()
        );
    }
}

#[test]
fn the_last_block_is_filled_up_with_zeros() {
    let codes = vec![7u8; 33 * 2];
    let packed = pack_codes_block_layout(&codes, 33, 2);
    assert_eq!(packed.len(), 2 * 2 * BBS);
    assert!(packed[..64].iter().all(|&b| b == 7));
    assert_eq!(packed[64], 7);
    assert!(packed[65..96].iter().all(|&b| b == 0));
    assert_eq!(packed[96], 7);
    assert!(packed[97..].iter().all(|&b| b == 0));
}

#[test]
fn transposing_puts_first_bytes_first() {
    let codes = vec![1u8, 2, 3, 4, 5, 6];
    let t = transpose_codes(&codes, 2, 3);
    assert_eq!(t, vec![1, 4, 2, 5, 3, 6]);
    assert_eq!(transpose_codes(&t, 3, 2), codes);
}

#[test]
fn lookups_do_not_depend_on_the_layout() {
    let n = 70;
    let cs = 3;
    let codes: Vec<u8> = (0..n * cs).map(|i| (i * 37 % 251) as u8).collect();
    let packed = pack_codes_block_layout(&codes, n, cs);
    let transposed = transpose_codes(&codes, n, cs);
    for g in 0..n {
        let rows = lookups_4bit(CodeLayout::RowMajor, &codes, n, cs, g);
        assert_eq!(rows, lookups_4bit(CodeLayout::Transposed, &transposed, n, cs, g));
        assert_eq!(rows, lookups_4bit(CodeLayout::Block, &packed, n, cs, g));
        assert_eq!(
            lookups_8bit(CodeLayout::RowMajor, &codes, n, cs, 256, g),
            lookups_8bit(CodeLayout::Transposed, &transposed, n, cs, 256, g)
        );
    }
    let first = lookups_4bit(CodeLayout::RowMajor, &[0x3Au8, 0xF1], 1, 2, 0);
    assert_eq!(first, vec![10, 16 + 3, 32 + 1, 48 + 15]);
    let first = lookups_8bit(CodeLayout::RowMajor, &[5u8, 200], 1, 2, 256, 0);
    assert_eq!(first, vec![5, 256 + 200]);
}

#[test]
fn two_hundred_vectors_are_exact_and_the_rest_of_their_block() {
    assert_eq!(flat_end(150), 150);
    assert_eq!(flat_end(1000), 200);
    assert_eq!(exact_end(150), 150);
    assert_eq!(exact_end(210), 210);
    assert_eq!(exact_end(1000), 224);
}

#[test]
fn quantized_sums_wrap_in_sixteen_bits() {
    let cs = 200;
    let qtable = vec![255u8; cs * 2 * 16];
    let codes = vec![0u8; cs];
    let sums = quantized_distances(CodeLayout::Transposed, &qtable, &codes, 1, cs, 0);
    assert_eq!(sums, vec![((255u32 * 400) % 65536) as u16]);
}
