use ivfpq::batch::{
    can_search_batch, group_probes, read_batch_lists, search_batch_reader as rank_batch,
};
use ivfpq::error::{Error, ErrorKind, IoFailure};
use ivfpq::fastscan::{exact_end, quantized_distances, FLAT_NUM};
use ivfpq::file_search::{
    can_rank_lists, check_batch, check_query, read_probed_lists, search_with_reader_filter,
};
use ivfpq::ivfpq::IVFPQIndex;
use ivfpq::layout::{lookups_4bit, lookups_8bit, CodeLayout};
use ivfpq::metric::MetricType;
use ivfpq::pq::ProductQuantizer;
use ivfpq::reader::IVFPQIndexReader;
use ivfpq::search::{table_source, TableSource};
use ivfpq::stream::{MemReader, PosWriter, SeekRead};
use ivfpq::writer::write_index;
use rand::rngs::StdRng;
use rand::{Rng, SeedableRng};
use std::collections::HashSet;
use std::sync::{Arc, Mutex};

#[derive(Default)]
struct ReaderStats {
    pread_calls: usize,
    max_pread_len: usize,
}

struct NonConcurrentPreadCursor {
    inner: MemReader,
    stats: Arc<Mutex<ReaderStats>>,
}

impl NonConcurrentPreadCursor {
    fn new(data: Vec<u8>, stats: Arc<Mutex<ReaderStats>>) -> Self {
        NonConcurrentPreadCursor {
            inner: MemReader::new(data),
            stats,
        }
    }
}

impl SeekRead for NonConcurrentPreadCursor {
    fn seek(&mut self, pos: u64) -> Result<(), Error> {
        self.inner.seek(pos)
    }

    fn read_exact(&mut self, buf: &mut [u8]) -> Result<(), Error> {
        self.inner.read_exact(buf)
    }

    fn pread(&mut self, pos: u64, buf: &mut [u8]) -> Result<(), Error> {
        {
            let mut stats = self.stats.lock().unwrap();
            stats.pread_calls += 1;
            stats.max_pread_len = stats.max_pread_len.max(buf.len());
        }
        self.inner.seek(pos)?;
        self.inner.read_exact(buf)
    }
}

/// A stream that says that it can be read at several places at once.
struct Concurrent {
    inner: MemReader,
}

impl SeekRead for Concurrent {
    fn seek(&mut self, pos: u64) -> Result<(), Error> {
        self.inner.seek(pos)
    }

    fn read_exact(&mut self, buf: &mut [u8]) -> Result<(), Error> {
        self.inner.read_exact(buf)
    }

    fn supports_concurrent_pread(&self) -> bool {
        true
    }
}

fn generate_clustered_data(n: usize, d: usize, num_clusters: usize, seed: u64) -> Vec<f32> {
    let mut rng = StdRng::seed_from_u64(seed);
    let mut centers = vec![0.0f32; num_clusters * d];
    for i in 0..num_clusters * d {
        centers[i] = rng.gen::<f32>() * 100.0;
    }

    let mut data = vec![0.0f32; n * d];
    for i in 0..n {
        let cluster = i % num_clusters;
        for j in 0..d {
            data[i * d + j] = centers[cluster * d + j] + rng.gen::<f32>() * 2.0 - 1.0;
        }
    }
    data
}

/// The squared norms of the centroids.
fn norms(centroids: &Vec<u32>, m: usize, ksub: usize, dsub: usize) -> Vec<u32> {
    (0..m * ksub)
        .map(|i| {
            let part = &centroids[i * dsub..(i + 1) * dsub];
            let norm: f32 = part.iter().map(|b| f32::from_bits(*b) * f32::from_bits(*b)).sum();
            norm.to_bits()
        })
        .collect()
}

fn to_bits(v: &[f32]) -> Vec<u32> {
    v.iter().map(|x| x.to_bits()).collect()
}

fn to_floats(v: &[u32]) -> Vec<f32> {
    v.iter().map(|x| f32::from_bits(*x)).collect()
}

fn l2(a: &[f32], b: &[f32]) -> f32 {
    a.iter().zip(b).map(|(x, y)| (x - y) * (x - y)).sum()
}

fn dot(a: &[f32], b: &[f32]) -> f32 {
    a.iter().zip(b).map(|(x, y)| x * y).sum()
}

/// The lists by the distance of their centroids, with the distances.
fn ranked(query: &[f32], centroids: &[f32], d: usize, nprobe: usize) -> (Vec<usize>, Vec<f32>) {
    let mut all: Vec<(f32, usize)> = centroids
        .chunks(d)
        .enumerate()
        .map(|(i, c)| (l2(query, c), i))
        .collect();
    all.sort_by(|a, b| a.0.partial_cmp(&b.0).unwrap());
    all.truncate(nprobe);
    (
        all.iter().map(|x| x.1).collect(),
        all.iter().map(|x| x.0).collect(),
    )
}

fn residual(point: &[f32], centroids: &[f32], list: usize, by_residual: bool) -> Vec<f32> {
    let d = point.len();
    if by_residual {
        let c = &centroids[list * d..(list + 1) * d];
        point.iter().zip(c).map(|(x, y)| x - y).collect()
    } else {
        point.to_vec()
    }
}

/// Takes rows of the data as centroids and codebooks.
fn train(index: &mut IVFPQIndex, data: &[f32], n: usize) {
    let d = index.d;
    let centroids = data[..index.nlist * d].to_vec();
    let (m, ksub, dsub) = (index.pq.m, index.pq.ksub, index.pq.dsub);
    let mut books = vec![0.0f32; m * ksub * dsub];
    for j in 0..ksub {
        let row = j * n / ksub;
        let point = &data[row * d..(row + 1) * d];
        let list = ranked(point, &centroids, d, 1).0[0];
        let res = residual(point, &centroids, list, index.by_residual);
        for sub in 0..m {
            let at = (sub * ksub + j) * dsub;
            books[at..at + dsub].copy_from_slice(&res[sub * dsub..(sub + 1) * dsub]);
        }
    }
    index.quantizer_centroids = to_bits(&centroids);
    index.pq.centroids = to_bits(&books);
}

fn encode(pq: &ProductQuantizer, books: &[f32], vector: &[f32]) -> Vec<u8> {
    let mut nearest = Vec::new();
    for sub in 0..pq.m {
        let part = &vector[sub * pq.dsub..(sub + 1) * pq.dsub];
        let mut best = (f32::MAX, 0usize);
        for j in 0..pq.ksub {
            let at = (sub * pq.ksub + j) * pq.dsub;
            let dist = l2(part, &books[at..at + pq.dsub]);
            if dist < best.0 {
                best = (dist, j);
            }
        }
        nearest.push(best.1 as u8);
    }
    if pq.nbits == 4 {
        nearest.chunks(2).map(|p| p[0] | (p[1] << 4)).collect()
    } else {
        nearest
    }
}

fn add(index: &mut IVFPQIndex, data: &[f32], ids: &[i64], n: usize) {
    let d = index.d;
    let centroids = to_floats(&index.quantizer_centroids);
    let books = to_floats(&index.pq.centroids);
    let mut assignments = Vec::new();
    let mut codes = Vec::new();
    for i in 0..n {
        let point = &data[i * d..(i + 1) * d];
        let list = ranked(point, &centroids, d, 1).0[0];
        let res = residual(point, &centroids, list, index.by_residual);
        assignments.push(list);
        codes.extend(encode(&index.pq, &books, &res));
    }
    index.add(&assignments, &codes, ids, n);
}

/// The distances of the parts of `query` to the codebooks, or the negated inner
/// products.
fn table(pq: &ProductQuantizer, books: &[f32], metric: MetricType, query: &[f32]) -> Vec<f32> {
    let mut out = Vec::new();
    for sub in 0..pq.m {
        let part = &query[sub * pq.dsub..(sub + 1) * pq.dsub];
        for j in 0..pq.ksub {
            let at = (sub * pq.ksub + j) * pq.dsub;
            let book = &books[at..at + pq.dsub];
            out.push(if metric == MetricType::L2 {
                l2(part, book)
            } else {
                -dot(part, book)
            });
        }
    }
    out
}

/// The distances of the first `count` of `total` vectors.
fn scan(
    pq: &ProductQuantizer,
    sim: &[f32],
    layout: CodeLayout,
    codes: &[u8],
    total: usize,
    count: usize,
    dis0: f32,
) -> Vec<u32> {
    let mut dists = vec![0.0f32; count];
    if pq.nbits == 4 {
        let cs = pq.m / 2;
        let exact = exact_end(count);
        for g in 0..exact {
            for index in lookups_4bit(layout, codes, total, cs, g) {
                dists[g] += sim[index];
            }
        }
        if count > FLAT_NUM {
            let qmax = sim.iter().cloned().fold(f32::MIN, f32::max);
            let qmin = sim.iter().cloned().fold(f32::INFINITY, f32::min);
            let range = (qmax - qmin).max(1e-10);
            let qtable: Vec<u8> = sim
                .iter()
                .map(|&x| ((x - qmin) * (255.0 / range)).clamp(0.0, 255.0) as u8)
                .collect();
            let sums = quantized_distances(layout, &qtable, codes, total, cs, exact);
            for g in exact..count {
                dists[g] = sums[g - exact] as f32 * (range / 255.0) + qmin * pq.m as f32;
            }
        }
    } else {
        for g in 0..count {
            for index in lookups_8bit(layout, codes, total, pq.m, pq.ksub, g) {
                dists[g] += sim[index];
            }
        }
    }
    dists.iter().map(|x| (dis0 + x).to_bits()).collect()
}

fn query_scores(
    index: &IVFPQIndex,
    query: &[f32],
    nprobe: usize,
    max_codes: Option<usize>,
) -> (Vec<usize>, Vec<Vec<u32>>) {
    let (d, m, ksub) = (index.d, index.pq.m, index.pq.ksub);
    let centroids = to_floats(&index.quantizer_centroids);
    let books = to_floats(&index.pq.centroids);
    let pre = to_floats(&index.precomputed_table);
    let (probes, coarse) = ranked(query, &centroids, d, nprobe);
    let mut dists = Vec::new();
    for step in index.scan_plan(&probes, max_codes) {
        let list = step.list_id;
        let (sim, dis0) = match table_source(index.uses_precomputed(), index.by_residual) {
            TableSource::Precomputed => {
                let ip = table(&index.pq, &books, MetricType::InnerProduct, query);
                let base = list * m * ksub;
                let sim = (0..m * ksub).map(|i| pre[base + i] + 2.0 * ip[i]).collect();
                (sim, coarse[step.rank])
            }
            TableSource::Residual => {
                let res = residual(query, &centroids, list, true);
                (table(&index.pq, &books, index.metric, &res), 0.0)
            }
            TableSource::Query => (table(&index.pq, &books, index.metric, query), 0.0),
        };
        let (layout, codes) = index.scan_codes(list);
        let total = index.ids[list].len();
        dists.push(scan(&index.pq, &sim, layout, codes, total, step.count, dis0));
    }
    (probes, dists)
}

fn search(
    index: &IVFPQIndex,
    queries: &[f32],
    nq: usize,
    k: usize,
    nprobe: usize,
    filter: Option<&HashSet<i64>>,
) -> (Vec<f32>, Vec<i64>) {
    let d = index.d;
    let mut probes = Vec::new();
    let mut dists = Vec::new();
    for qi in 0..nq {
        let (p, s) = query_scores(index, &queries[qi * d..(qi + 1) * d], nprobe, None);
        assert!(index.can_answer(&p, None, &s, filter, k));
        probes.push(p);
        dists.push(s);
    }
    let mut out = vec![0u32; nq * k];
    let mut labels = vec![0i64; nq * k];
    match filter {
        None => index.search(nq, k, &probes, &dists, &mut out, &mut labels),
        Some(_) => {
            index.search_with_filter(nq, k, &probes, &dists, filter, &mut out, &mut labels)
        }
    }
    (to_floats(&out), labels)
}

fn precompute(index: &IVFPQIndex) -> Vec<u32> {
    let (d, m, ksub, dsub) = (index.d, index.pq.m, index.pq.ksub, index.pq.dsub);
    let centroids = to_floats(&index.quantizer_centroids);
    let books = to_floats(&index.pq.centroids);
    let mut out = Vec::new();
    for list in 0..index.nlist {
        let c = &centroids[list * d..(list + 1) * d];
        for sub in 0..m {
            for j in 0..ksub {
                let at = (sub * ksub + j) * dsub;
                let book = &books[at..at + dsub];
                let ip = dot(&c[sub * dsub..(sub + 1) * dsub], book);
                out.push((dot(book, book) + 2.0 * ip).to_bits());
            }
        }
    }
    out
}

fn written(index: &IVFPQIndex) -> Vec<u8> {
    let mut writer = PosWriter::new(Vec::new());
    write_index(index, &mut writer).unwrap();
    writer.inner
}

fn list_scores<R: SeekRead>(
    reader: &IVFPQIndexReader<R>,
    query: &[f32],
    list: usize,
    count: usize,
    codes: &[u8],
) -> Vec<u32> {
    let centroids = to_floats(&reader.quantizer_centroids);
    let books = to_floats(&reader.pq.centroids);
    assert!(!reader.uses_precomputed());
    let res = residual(query, &centroids, list, reader.by_residual);
    let sim = table(&reader.pq, &books, reader.metric, &res);
    scan(&reader.pq, &sim, reader.code_layout(), codes, count, count, 0.0)
}

fn reader_search<R: SeekRead>(
    reader: &mut IVFPQIndexReader<R>,
    query: &[f32],
    k: usize,
    nprobe: usize,
    filter: Option<&HashSet<i64>>,
) -> Result<(Vec<i64>, Vec<f32>), Error> {
    check_query(reader, query.len(), k, nprobe, norms)?;
    let centroids = to_floats(&reader.quantizer_centroids);
    let (probes, _) = ranked(query, &centroids, reader.d, nprobe);
    let lists = read_probed_lists(reader, &probes)?;
    let mut dists = Vec::new();
    for list in &lists {
        assert_eq!(list.list_id, probes[list.rank]);
        dists.push(list_scores(reader, query, list.list_id, list.count, &list.codes));
    }
    assert!(can_rank_lists(&lists, &dists, filter, k, true));
    assert!(can_rank_lists(&lists, &dists, filter, k, false));
    let (ids, out) = search_with_reader_filter(reader, &lists, &dists, k, filter);
    Ok((ids, to_floats(&out)))
}

fn batch_search<R: SeekRead>(
    reader: &mut IVFPQIndexReader<R>,
    queries: &[f32],
    nq: usize,
    k: usize,
    nprobe: usize,
) -> Result<(Vec<i64>, Vec<f32>), Error> {
    check_batch(reader, queries.len(), nq, k, nprobe, norms)?;
    let d = reader.d;
    let centroids = to_floats(&reader.quantizer_centroids);
    let probes: Vec<Vec<usize>> = queries
        .chunks(d)
        .map(|q| ranked(q, &centroids, d, nprobe).0)
        .collect();
    let groups = group_probes(&probes, nq, reader.nlist);
    let lists = read_batch_lists(reader, &groups)?;
    let mut dists = Vec::new();
    for list in &lists {
        let mut own = Vec::new();
        for &(qi, rank) in &groups[list.list_id] {
            assert_eq!(probes[qi][rank], list.list_id);
            let query = &queries[qi * d..(qi + 1) * d];
            own.push(list_scores(reader, query, list.list_id, list.count, &list.codes));
        }
        dists.push(own);
    }
    assert!(can_search_batch(&lists, &groups, &dists, nq, k));
    let (ids, out) = rank_batch(&lists, &groups, &dists, nq, k);
    Ok((ids, to_floats(&out)))
}

#[test]
fn test_build_and_search_l2() {
    let d = 16;
    let nlist = 4;
    let m = 4;
    let n = 1000;
    let k = 5;
    let nprobe = 2;

    let data = generate_clustered_data(n, d, 4, 42);
    let ids: Vec<i64> = (0..n as i64).collect();

    let mut index = IVFPQIndex::new(d, nlist, m, MetricType::L2, false);
    train(&mut index, &data, n);
    add(&mut index, &data, &ids, n);

    let query = &data[0..d];
    let (dists, labels) = search(&index, query, 1, k, nprobe, None);

    assert_eq!(labels[0], 0);
    for i in 1..k {
        assert!(dists[i] >= dists[i - 1]);
    }
}

#[test]
fn test_build_and_search_ip() {
    let d = 16;
    let nlist = 4;
    let m = 4;
    let n = 1000;

    let data = generate_clustered_data(n, d, 4, 123);
    let ids: Vec<i64> = (0..n as i64).collect();

    let mut index = IVFPQIndex::new(d, nlist, m, MetricType::InnerProduct, false);
    train(&mut index, &data, n);
    add(&mut index, &data, &ids, n);

    let (dists, _) = search(&index, &data[0..d], 1, 5, 2, None);

    for i in 1..5 {
        assert!(dists[i] >= dists[i - 1]);
    }
}

#[test]
fn test_search_with_filter() {
    let d = 16;
    let nlist = 4;
    let m = 4;
    let n = 1000;
    let k = 5;

    let data = generate_clustered_data(n, d, 4, 42);
    let ids: Vec<i64> = (0..n as i64).collect();

    let mut index = IVFPQIndex::new(d, nlist, m, MetricType::L2, false);
    train(&mut index, &data, n);
    add(&mut index, &data, &ids, n);

    let filter: HashSet<i64> = (0..n as i64).filter(|id| id % 2 == 0).collect();
    let (_, labels) = search(&index, &data[0..d], 1, k, 4, Some(&filter));

    for &label in &labels[..k] {
        if label >= 0 {
            assert!(label % 2 == 0, "Filter violated: got odd ID {}", label);
        }
    }
    assert_eq!(labels[0], 0);
}

#[test]
fn test_batch_search() {
    let d = 16;
    let nlist = 4;
    let m = 4;
    let n = 1000;
    let k = 5;
    let nq = 10;

    let data = generate_clustered_data(n, d, 4, 42);
    let ids: Vec<i64> = (0..n as i64).collect();

    let mut index = IVFPQIndex::new(d, nlist, m, MetricType::L2, false);
    train(&mut index, &data, n);
    add(&mut index, &data, &ids, n);

    let queries: Vec<f32> = data[..nq * d].to_vec();
    let (_, labels) = search(&index, &queries, nq, k, 2, None);

    for qi in 0..nq {
        assert_eq!(labels[qi * k], qi as i64);
    }
}

#[test]
fn test_4bit_ivfpq() {
    let d = 16;
    let nlist = 4;
    let m = 8;
    let n = 1000;
    let k = 5;
    let nprobe = 2;

    let data = generate_clustered_data(n, d, 4, 42);
    let ids: Vec<i64> = (0..n as i64).collect();

    let mut index = IVFPQIndex::with_nbits(d, nlist, m, 4, MetricType::L2, false);
    assert_eq!(index.pq.ksub, 16);
    assert_eq!(index.pq.code_size(), 4);

    train(&mut index, &data, n);
    add(&mut index, &data, &ids, n);

    let (dists, labels) = search(&index, &data[0..d], 1, k, nprobe, None);

    assert_eq!(labels[0], 0);
    for i in 1..k {
        assert!(dists[i] >= dists[i - 1]);
    }

    let codes_8bit_size = n * m;
    let codes_4bit_size: usize = index.codes.iter().map(|c| c.len()).sum();
    assert!(
        codes_4bit_size < codes_8bit_size,
        "4-bit ({}) should be smaller than 8-bit ({})",
        codes_4bit_size,
        codes_8bit_size,
    );
}

#[test]
fn test_max_codes_early_termination() {
    let d = 16;
    let nlist = 4;
    let m = 4;
    let n = 1000;
    let k = 5;

    let data = generate_clustered_data(n, d, 4, 42);
    let ids: Vec<i64> = (0..n as i64).collect();

    let mut index = IVFPQIndex::new(d, nlist, m, MetricType::L2, false);
    train(&mut index, &data, n);
    add(&mut index, &data, &ids, n);

    let (probes, scores) = query_scores(&index, &data[0..d], 4, Some(50));
    assert_eq!(scores.iter().map(|s| s.len()).sum::<usize>(), 50);
    let mut dists_limited = vec![0u32; k];
    let mut labels_limited = vec![0i64; k];
    index.search_with_max_codes(
        1,
        k,
        &[probes],
        50,
        &[scores],
        &mut dists_limited,
        &mut labels_limited,
    );
    let dists_limited = to_floats(&dists_limited);

    let valid = labels_limited.iter().filter(|&&id| id >= 0).count();
    assert!(valid > 0, "max_codes search returned no results");

    let (dists_full, _) = search(&index, &data[0..d], 1, k, 4, None);

    assert!(dists_full[0] <= dists_limited[0] + 1e-6);
    for i in 0..k {
        assert!(dists_full[i] <= dists_limited[i]);
    }
}

#[test]
fn test_from_trained_and_merge() {
    let d = 16;
    let nlist = 4;
    let m = 4;
    let n = 500;

    let data = generate_clustered_data(n * 2, d, 4, 42);
    let ids_a: Vec<i64> = (0..n as i64).collect();
    let ids_b: Vec<i64> = (n as i64..2 * n as i64).collect();

    let mut trainer = IVFPQIndex::new(d, nlist, m, MetricType::L2, false);
    train(&mut trainer, &data[..n * d], n);

    let mut worker_a = IVFPQIndex::from_trained(&trainer);
    add(&mut worker_a, &data[..n * d], &ids_a, n);

    let mut worker_b = IVFPQIndex::from_trained(&trainer);
    add(&mut worker_b, &data[n * d..], &ids_b, n);

    let total_a: usize = worker_a.ids.iter().map(|l| l.len()).sum();
    let total_b: usize = worker_b.ids.iter().map(|l| l.len()).sum();
    assert_eq!(total_a + total_b, n * 2);

    let mut merged = IVFPQIndex::from_trained(&trainer);
    merged.merge_from(&worker_a);
    merged.merge_from(&worker_b);

    let total_merged: usize = merged.ids.iter().map(|l| l.len()).sum();
    assert_eq!(total_merged, n * 2);

    let (_, labels) = search(&merged, &data[0..d], 1, 5, 4, None);
    assert_eq!(labels[0], 0);

    let (_, labels) = search(&merged, &data[n * d..(n + 1) * d], 1, 5, 4, None);
    assert_eq!(labels[0], n as i64);
}

#[test]
fn test_precomputed_table_matches_normal_search() {
    let d = 16;
    let nlist = 4;
    let m = 4;
    let n = 1000;
    let k = 10;
    let nprobe = 4;

    let data = generate_clustered_data(n, d, 4, 42);
    let ids: Vec<i64> = (0..n as i64).collect();

    let mut index = IVFPQIndex::new(d, nlist, m, MetricType::L2, false);
    train(&mut index, &data, n);
    add(&mut index, &data, &ids, n);

    // Normal search
    let (dists_normal, labels_normal) = search(&index, &data[0..d], 1, k, nprobe, None);

    // Enable precomputed table and search again
    let pre = precompute(&index);
    index.build_precomputed_table(pre);
    assert!(index.uses_precomputed());
    let (dists_precomp, labels_precomp) = search(&index, &data[0..d], 1, k, nprobe, None);

    // Same top-k ranking
    assert_eq!(
        labels_normal, labels_precomp,
        "precomputed table should produce identical ranking"
    );
    for i in 0..k {
        assert!(
            (dists_normal[i] - dists_precomp[i]).abs() < 1e-2,
            "distance mismatch at rank {}: normal={}, precomp={}",
            i,
            dists_normal[i],
            dists_precomp[i]
        );
    }
}

#[test]
fn test_fastscan_invalidated_after_add() {
    let d = 16;
    let nlist = 4;
    let m = 8;
    let n = 500;
    let k = 5;

    let data = generate_clustered_data(n * 2, d, 4, 42);
    let ids_a: Vec<i64> = (0..n as i64).collect();
    let ids_b: Vec<i64> = (n as i64..2 * n as i64).collect();

    let mut index = IVFPQIndex::with_nbits(d, nlist, m, 4, MetricType::L2, false);
    train(&mut index, &data, n);
    add(&mut index, &data[..n * d], &ids_a, n);

    // Build fastscan, then add more vectors
    index.build_search_structures();
    assert!(!index.fastscan_codes.is_empty());

    add(&mut index, &data[n * d..], &ids_b, n);
    assert!(
        index.fastscan_codes.is_empty(),
        "fastscan_codes must be cleared after add()"
    );

    // Rebuild and search — should find vectors from both batches
    index.build_search_structures();
    let (_, labels) = search(&index, &data[0..d], 1, k, 4, None);
    assert_eq!(labels[0], 0);

    let (_, labels) = search(&index, &data[n * d..(n + 1) * d], 1, k, 4, None);
    assert_eq!(labels[0], n as i64);
}

#[test]
fn test_precomputed_table_invalidated_after_add() {
    let d = 16;
    let nlist = 4;
    let m = 4;
    let n = 500;

    let data = generate_clustered_data(n * 2, d, 4, 42);
    let ids_a: Vec<i64> = (0..n as i64).collect();
    let ids_b: Vec<i64> = (n as i64..2 * n as i64).collect();

    let mut index = IVFPQIndex::new(d, nlist, m, MetricType::L2, false);
    train(&mut index, &data[..n * d], n);
    add(&mut index, &data[..n * d], &ids_a, n);

    let pre = precompute(&index);
    index.build_precomputed_table(pre);
    assert!(!index.precomputed_table.is_empty());

    add(&mut index, &data[n * d..], &ids_b, n);
    assert!(
        index.precomputed_table.is_empty(),
        "precomputed_table must be cleared after add()"
    );

    // Rebuild and search — should find vectors from both batches
    let pre = precompute(&index);
    index.build_precomputed_table(pre);
    let k = 5;
    let (_, labels) = search(&index, &data[0..d], 1, k, 4, None);
    assert_eq!(labels[0], 0);

    let (_, labels) = search(&index, &data[n * d..(n + 1) * d], 1, k, 4, None);
    assert_eq!(labels[0], n as i64);
}

#[test]
fn test_write_read_search() {
    let d = 16;
    let nlist = 4;
    let m = 4;
    let n = 500;
    let k = 10;

    let data = generate_clustered_data(n, d, 4, 789);
    let ids: Vec<i64> = (0..n as i64).collect();

    let mut index = IVFPQIndex::new(d, nlist, m, MetricType::L2, false);
    train(&mut index, &data, n);
    add(&mut index, &data, &ids, n);

    let buf = written(&index);
    let mut reader = IVFPQIndexReader::open(MemReader::new(buf)).unwrap();

    let (result_ids, result_dists) =
        reader_search(&mut reader, &data[0..d], k, 4, None).unwrap();

    assert!(!result_ids.is_empty());
    assert!(result_ids.contains(&0));
    for i in 1..result_dists.len() {
        assert!(result_dists[i] >= result_dists[i - 1]);
    }
}

#[test]
fn test_reader_search_works_without_concurrent_pread() {
    let d = 16;
    let nlist = 8;
    let m = 4;
    let n = 800;
    let k = 5;
    let nprobe = 4;

    let data = generate_clustered_data(n, d, 8, 789);
    let ids: Vec<i64> = (0..n as i64).collect();

    let mut index = IVFPQIndex::new(d, nlist, m, MetricType::L2, false);
    train(&mut index, &data, n);
    add(&mut index, &data, &ids, n);

    let buf = written(&index);

    let mut baseline_reader = IVFPQIndexReader::open(MemReader::new(buf.clone())).unwrap();
    let (baseline_ids, baseline_dists) =
        reader_search(&mut baseline_reader, &data[0..d], k, nprobe, None).unwrap();

    let stats = Arc::new(Mutex::new(ReaderStats::default()));
    let stream = NonConcurrentPreadCursor::new(buf.clone(), Arc::clone(&stats));
    let mut reader = IVFPQIndexReader::open(stream).unwrap();
    assert!(!reader.supports_concurrent_pread());

    let (ids, dists) = reader_search(&mut reader, &data[0..d], k, nprobe, None).unwrap();

    assert_eq!(ids, baseline_ids);
    assert_eq!(dists, baseline_dists);
    assert!(
        stats.lock().unwrap().pread_calls > 0,
        "search should still read inverted lists through pread fallback"
    );

    // Lists that are searched each on its own give the same answer.
    let stream = Concurrent { inner: MemReader::new(buf) };
    let mut reader = IVFPQIndexReader::open(stream).unwrap();
    assert!(reader.supports_concurrent_pread());
    let (ids, dists) = reader_search(&mut reader, &data[0..d], k, nprobe, None).unwrap();
    assert_eq!(ids, baseline_ids);
    assert_eq!(dists, baseline_dists);

    let (probes, _) = ranked(&data[0..d], &to_floats(&reader.quantizer_centroids), d, nprobe);
    let lists = read_probed_lists(&mut reader, &probes).unwrap();
    let scores: Vec<Vec<u32>> = lists
        .iter()
        .map(|l| list_scores(&reader, &data[0..d], l.list_id, l.count, &l.codes))
        .collect();
    assert_eq!(reader.search(&lists, &scores, k).0, baseline_ids);
}

#[test]
fn test_reader_search_validates_inputs() {
    let d = 16;
    let nlist = 4;
    let m = 4;
    let n = 500;

    let data = generate_clustered_data(n, d, 4, 789);
    let ids: Vec<i64> = (0..n as i64).collect();

    let mut index = IVFPQIndex::new(d, nlist, m, MetricType::L2, false);
    train(&mut index, &data, n);
    add(&mut index, &data, &ids, n);

    let buf = written(&index);
    let mut reader = IVFPQIndexReader::open(MemReader::new(buf)).unwrap();

    let err = reader_search(&mut reader, &data[0..d - 1], 5, 2, None).unwrap_err();
    assert_eq!(err.kind(), ErrorKind::InvalidInput);
    assert_eq!(err, Error::QueryLength { len: 15, d: 16 });

    let err = reader_search(&mut reader, &data[0..d + 1], 5, 2, None).unwrap_err();
    assert_eq!(err.kind(), ErrorKind::InvalidInput);

    let err = reader_search(&mut reader, &data[0..d], 0, 2, None).unwrap_err();
    assert_eq!(err.kind(), ErrorKind::InvalidInput);
    assert_eq!(err, Error::ZeroK);

    let err = reader_search(&mut reader, &data[0..d], 5, 0, None).unwrap_err();
    assert_eq!(err.kind(), ErrorKind::InvalidInput);
    assert_eq!(err, Error::ZeroNprobe);
}

#[test]
fn test_write_read_search_with_filter() {
    let d = 16;
    let nlist = 4;
    let m = 4;
    let n = 500;
    let k = 5;

    let data = generate_clustered_data(n, d, 4, 789);
    let ids: Vec<i64> = (0..n as i64).collect();

    let mut index = IVFPQIndex::new(d, nlist, m, MetricType::L2, false);
    train(&mut index, &data, n);
    add(&mut index, &data, &ids, n);

    let buf = written(&index);
    let mut reader = IVFPQIndexReader::open(MemReader::new(buf)).unwrap();

    let filter: HashSet<i64> = (0..n as i64).filter(|id| id % 3 == 0).collect();
    let (result_ids, _) =
        reader_search(&mut reader, &data[0..d], k, 4, Some(&filter)).unwrap();

    for &id in &result_ids {
        assert!(id % 3 == 0, "Filter violated: got ID {}", id);
    }
    assert_eq!(result_ids[0], 0);
}

#[test]
fn test_big_batch_search() {
    let d = 16;
    let nlist = 4;
    let m = 4;
    let n = 1000;
    let k = 5;
    let nq = 20;
    let nprobe = 2;

    let data = generate_clustered_data(n, d, 4, 42);
    let ids: Vec<i64> = (0..n as i64).collect();

    let mut index = IVFPQIndex::new(d, nlist, m, MetricType::L2, false);
    train(&mut index, &data, n);
    add(&mut index, &data, &ids, n);

    let buf = written(&index);
    let mut reader = IVFPQIndexReader::open(MemReader::new(buf.clone())).unwrap();

    let queries = &data[..nq * d];
    let (batch_ids, batch_dists) = batch_search(&mut reader, queries, nq, k, nprobe).unwrap();

    for qi in 0..nq {
        let base = qi * k;
        assert_eq!(batch_ids[base], qi as i64);
        for i in 1..k {
            if batch_ids[base + i] >= 0 {
                assert!(batch_dists[base + i] >= batch_dists[base + i - 1]);
            }
        }
    }

    // Every query gets the distances that it gets alone.
    for qi in 0..nq {
        let query = &queries[qi * d..(qi + 1) * d];
        let (_, alone) = reader_search(&mut reader, query, k, nprobe, None).unwrap();
        assert_eq!(alone, batch_dists[qi * k..(qi + 1) * k].to_vec());
    }
}

#[test]
fn test_batch_reader_validates_inputs() {
    let d = 16;
    let nlist = 4;
    let m = 4;
    let n = 500;
    let nq = 4;
    let k = 5;
    let nprobe = 2;

    let data = generate_clustered_data(n, d, 4, 42);
    let ids: Vec<i64> = (0..n as i64).collect();

    let mut index = IVFPQIndex::new(d, nlist, m, MetricType::L2, false);
    train(&mut index, &data, n);
    add(&mut index, &data, &ids, n);

    let buf = written(&index);
    let queries = &data[..nq * d];

    let mut reader = IVFPQIndexReader::open(MemReader::new(buf.clone())).unwrap();
    let err = batch_search(&mut reader, &queries[..queries.len() - 1], nq, k, nprobe)
        .unwrap_err();
    assert_eq!(err.kind(), ErrorKind::InvalidInput);
    assert_eq!(err, Error::QueriesLength { len: 63, expected: 64 });

    let mut longer_queries = queries.to_vec();
    longer_queries.push(0.0);
    let mut reader = IVFPQIndexReader::open(MemReader::new(buf.clone())).unwrap();
    let err = batch_search(&mut reader, &longer_queries, nq, k, nprobe).unwrap_err();
    assert_eq!(err.kind(), ErrorKind::InvalidInput);

    let mut reader = IVFPQIndexReader::open(MemReader::new(buf.clone())).unwrap();
    let err = batch_search(&mut reader, queries, 0, k, nprobe).unwrap_err();
    assert_eq!(err.kind(), ErrorKind::InvalidInput);
    assert_eq!(err, Error::ZeroQueries);

    let mut reader = IVFPQIndexReader::open(MemReader::new(buf.clone())).unwrap();
    let err = batch_search(&mut reader, queries, nq, 0, nprobe).unwrap_err();
    assert_eq!(err.kind(), ErrorKind::InvalidInput);

    let mut reader = IVFPQIndexReader::open(MemReader::new(buf.clone())).unwrap();
    let err = batch_search(&mut reader, queries, nq, k, 0).unwrap_err();
    assert_eq!(err.kind(), ErrorKind::InvalidInput);

    let mut reader = IVFPQIndexReader::open(MemReader::new(buf)).unwrap();
    assert_eq!(
        check_batch(&mut reader, 0, usize::MAX, k, nprobe, norms),
        Err(Error::QueryCountOverflow)
    );
}

#[test]
fn test_write_read_roundtrip_delta_ids() {
    let d = 8;
    let nlist = 2;
    let m = 2;

    let mut index = IVFPQIndex::new(d, nlist, m, MetricType::L2, false);
    let n = 300;
    let mut rng = StdRng::seed_from_u64(42);
    let data: Vec<f32> = (0..n * d).map(|_| rng.gen::<f32>()).collect();
    let ids: Vec<i64> = (0..n as i64).collect();

    train(&mut index, &data, n);
    add(&mut index, &data, &ids, n);

    // Write with delta-varint IDs
    let buf = written(&index);

    let mut reader = IVFPQIndexReader::open(MemReader::new(buf)).unwrap();
    assert!(reader.delta_ids);
    assert_eq!(reader.total_vectors, n as i64);

    // Read each list and verify IDs are sorted
    for list_id in 0..nlist {
        let (ids, _) = reader.read_inverted_list(list_id, norms).unwrap();
        for i in 1..ids.len() {
            assert!(ids[i] >= ids[i - 1], "IDs not sorted in list {}", list_id);
        }
        assert_eq!(ids.len(), index.ids[list_id].len());
    }
}

#[test]
fn test_write_read_4bit() {
    let d = 16;
    let nlist = 4;
    let m = 8;

    let mut index = IVFPQIndex::with_nbits(d, nlist, m, 4, MetricType::L2, false);
    let n = 500;
    let mut rng = StdRng::seed_from_u64(42);
    let data: Vec<f32> = (0..n * d).map(|_| rng.gen::<f32>()).collect();
    let ids: Vec<i64> = (0..n as i64).collect();

    train(&mut index, &data, n);
    add(&mut index, &data, &ids, n);
    assert_eq!(index.pq.code_size(), m / 2);

    let buf = written(&index);
    let mut reader = IVFPQIndexReader::open(MemReader::new(buf)).unwrap();
    assert_eq!(reader.pq.nbits, 4);
    assert_eq!(reader.pq.code_size(), m / 2);

    let (result_ids, result_dists) =
        reader_search(&mut reader, &data[0..d], 5, 4, None).unwrap();
    assert!(!result_ids.is_empty());
    assert!(result_ids.contains(&0));
    for i in 1..result_dists.len() {
        assert!(result_dists[i] >= result_dists[i - 1]);
    }
}

/// A small index with three lists, one of them empty.
fn small_index() -> IVFPQIndex {
    let mut index = IVFPQIndex::new(2, 3, 1, MetricType::L2, false);
    index.quantizer_centroids = vec![0; 6];
    index.add(&[0, 2, 0, 2, 2], &[1, 2, 3, 4, 5], &[10, 11, 12, 13, 14], 5);
    index
}

fn row(values: &[f32]) -> Vec<u32> {
    to_bits(values)
}

#[test]
fn what_is_missing_is_padded() {
    let index = small_index();
    let probes = vec![vec![2usize, 1, 0]];
    let dists = vec![vec![row(&[3.0, 1.0, 2.0]), row(&[0.5, 9.0])]];
    let mut out = vec![7u32; 8];
    let mut labels = vec![7i64; 8];
    index.search(1, 7, &probes, &dists, &mut out, &mut labels);
    assert_eq!(labels, vec![10, 13, 14, 11, 12, -1, -1, 7]);
    assert_eq!(
        to_floats(&out[..7]),
        vec![0.5, 1.0, 2.0, 3.0, 9.0, f32::MAX, f32::MAX]
    );
    assert_eq!(out[7], 7);
}

#[test]
fn the_budget_cuts_the_plan() {
    let index = small_index();
    let plan = index.scan_plan(&[2, 1, 0], Some(4));
    assert_eq!(plan.len(), 2);
    assert_eq!((plan[0].rank, plan[0].list_id, plan[0].count), (0, 2, 3));
    assert_eq!((plan[1].rank, plan[1].list_id, plan[1].count), (2, 0, 1));
    assert!(index.scan_plan(&[2, 1, 0], Some(0)).is_empty());
    assert_eq!(index.scan_plan(&[2, 1, 0], Some(3)).len(), 1);
    assert_eq!(
        index.scan_plan(&[2, 1, 0], Some(100)),
        index.scan_plan(&[2, 1, 0], None)
    );
}

#[test]
fn a_limit_cuts_the_answers() {
    let index = small_index();
    let dists = |max: usize| {
        let all = [vec![3.0f32, 1.0, 2.0], vec![0.5, 9.0]];
        let plan = index.scan_plan(&[2, 1, 0], Some(max));
        let cut: Vec<Vec<u32>> =
            plan.iter().enumerate().map(|(j, s)| row(&all[j][..s.count])).collect();
        cut
    };
    let run = |max: usize| {
        let mut out = vec![0u32; 4];
        let mut labels = vec![0i64; 4];
        let probes = [vec![2usize, 1, 0]];
        index.search_with_max_codes(1, 4, &probes, max, &[dists(max)], &mut out, &mut labels);
        (to_floats(&out), labels)
    };
    let max = f32::MAX;
    assert_eq!(run(0), (vec![max, max, max, max], vec![-1, -1, -1, -1]));
    assert_eq!(run(2), (vec![1.0, 3.0, max, max], vec![13, 11, -1, -1]));
    assert_eq!(run(4), (vec![0.5, 1.0, 2.0, 3.0], vec![10, 13, 14, 11]));
    assert_eq!(run(5), (vec![0.5, 1.0, 2.0, 3.0], vec![10, 13, 14, 11]));
    assert_eq!(run(50), run(5));
}

#[test]
fn what_cannot_be_answered_is_told() {
    let index = small_index();
    let good = vec![row(&[1.0, 2.0])];
    assert!(index.can_answer(&[0], None, &good, None, 2));
    assert!(!index.can_answer(&[3], None, &good, None, 2));
    assert!(!index.can_answer(&[2], None, &good, None, 2));
    assert!(!index.can_answer(&[0, 2], None, &good, None, 2));
    let bad = vec![row(&[f32::NAN, 2.0])];
    assert!(!index.can_answer(&[0], None, &bad, None, 2));
    // A single kept distance is never compared.
    assert!(index.can_answer(&[0], None, &bad, None, 1));
}

#[test]
fn adding_in_parts_is_adding_at_once() {
    let mut once = small_index();
    let mut parts = small_index();
    let assignments: Vec<usize> = (0..100).map(|i| i % 3).collect();
    let codes: Vec<u8> = (0..100).collect();
    let ids: Vec<i64> = (0..100).map(|i| 1000 - i).collect();
    once.add(&assignments, &codes, &ids, 100);
    parts.add(&assignments, &codes, &ids, 30);
    parts.add(&assignments[30..], &codes[30..], &ids[30..], 70);
    assert_eq!(once.ids, parts.ids);
    assert_eq!(once.codes, parts.codes);
    assert_eq!(once.ids.iter().map(|l| l.len()).sum::<usize>(), 105);
}

#[test]
fn more_than_one_batch_is_added() {
    let n = 70000;
    let mut index = IVFPQIndex::new(2, 2, 1, MetricType::L2, false);
    let assignments: Vec<usize> = (0..n).map(|i| i % 2).collect();
    let codes: Vec<u8> = (0..n).map(|i| (i % 251) as u8).collect();
    let ids: Vec<i64> = (0..n as i64).collect();
    index.add(&assignments, &codes, &ids, n);
    assert_eq!(index.ids[1].len(), 35000);
    assert_eq!(index.ids[1][34999], 69999);
    assert_eq!(index.codes[0][20000], (40000 % 251) as u8);
}

#[test]
fn adding_nothing_drops_nothing() {
    let mut index = small_index();
    index.build_precomputed_table(vec![1, 2, 3]);
    index.add(&[], &[], &[], 0);
    assert_eq!(index.precomputed_table, vec![1, 2, 3]);
    let other = IVFPQIndex::from_trained(&index);
    index.merge_from(&other);
    assert!(index.precomputed_table.is_empty());
}

#[test]
fn only_residual_l2_takes_a_table() {
    let mut index = IVFPQIndex::new(2, 1, 1, MetricType::InnerProduct, false);
    assert!(!index.by_residual);
    index.build_precomputed_table(vec![1]);
    assert!(!index.uses_precomputed());
    let mut index = IVFPQIndex::new(2, 1, 1, MetricType::L2, false);
    index.by_residual = false;
    index.build_precomputed_table(vec![1]);
    assert!(!index.uses_precomputed());
}

#[test]
fn the_number_of_lists_follows_the_target() {
    let lists = |n: usize, target: usize| {
        IVFPQIndex::with_target_partition_size(4, n, target, 2, MetricType::L2, false).nlist
    };
    assert_eq!(lists(1000, 100), 10);
    assert_eq!(lists(1000, 3000), 1);
    assert_eq!(lists(1000, 0), 1000);
    assert_eq!(lists(1_000_000_000, 1), 65536);
    assert_eq!(lists(0, 5), 1);
}

#[test]
fn a_trained_index_is_copied_without_its_vectors() {
    let mut index = IVFPQIndex::new(4, 2, 2, MetricType::Cosine, true);
    index.quantizer_centroids = vec![5; 8];
    index.opq.as_mut().unwrap().rotation = vec![9; 16];
    index.add(&[1], &[3, 4], &[77], 1);
    let copy = IVFPQIndex::from_trained(&index);
    assert_eq!(copy.quantizer_centroids, vec![5; 8]);
    let opq = copy.opq.unwrap();
    assert_eq!(opq.rotation, vec![9; 16]);
    assert!(opq.is_trained);
    assert_eq!(opq.niter, 0);
    assert!(copy.ids.iter().all(|l| l.is_empty()));
    assert_eq!(copy.codes.len(), 2);
}

#[test]
fn queries_are_grouped_by_list() {
    let probes = vec![vec![2usize, 0], vec![0, 1], vec![2, 2]];
    let groups = group_probes(&probes, 3, 4);
    assert_eq!(
        groups,
        vec![
            vec![(0, 1), (1, 0)],
            vec![(1, 1)],
            vec![(0, 0), (2, 0), (2, 1)],
            vec![]
        ]
    );
    assert_eq!(group_probes(&probes, 1, 3), vec![vec![(0, 1)], vec![], vec![(0, 0)]]);
}

#[test]
fn every_list_of_a_batch_is_read_once() {
    let mut index = small_index();
    index.pq.centroids = vec![0; 512];
    let stats = Arc::new(Mutex::new(ReaderStats::default()));
    let stream = NonConcurrentPreadCursor::new(written(&index), Arc::clone(&stats));
    let mut reader = IVFPQIndexReader::open(stream).unwrap();
    reader.ensure_loaded(norms).unwrap();
    let probes = vec![vec![2usize, 1], vec![2, 0], vec![2, 1]];
    let groups = group_probes(&probes, 3, 3);
    let lists = read_batch_lists(&mut reader, &groups).unwrap();
    assert_eq!(lists.iter().map(|l| l.list_id).collect::<Vec<_>>(), vec![0, 2]);
    assert_eq!(lists[1].ids, vec![11, 13, 14]);
    // Two lists, three reads each.
    assert_eq!(stats.lock().unwrap().pread_calls, 6);
}

#[test]
fn a_list_that_cannot_be_read_fails_the_search() {
    let mut index = small_index();
    index.pq.centroids = vec![0; 512];
    let mut buf = written(&index);
    buf.pop();
    let mut reader = IVFPQIndexReader::open(MemReader::new(buf)).unwrap();
    reader.ensure_loaded(norms).unwrap();
    let eof = Error::Io(IoFailure::UnexpectedEof);
    match read_probed_lists(&mut reader, &[0, 1, 2]) {
        Ok(_) => panic!("the last list is cut"),
        Err(e) => assert_eq!(e, eof),
    }
    assert_eq!(read_probed_lists(&mut reader, &[1, 0]).unwrap().len(), 1);
    let groups = group_probes(&[vec![0], vec![2]], 2, 3);
    match read_batch_lists(&mut reader, &groups) {
        Ok(_) => panic!("the last list is cut"),
        Err(e) => assert_eq!(e, eof),
    }
}
