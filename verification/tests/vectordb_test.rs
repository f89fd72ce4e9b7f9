use zkvecdb::fixed_point::FixedPointChip;
use zkvecdb::vectordb::{Metric, VectorDBChip};

const LOOKUP_BITS: usize = 13;
const PRECISION_BITS: u32 = 48;

fn scale() -> f64 {
    (1u64 << PRECISION_BITS) as f64
}

fn quantize_vec(v: &Vec<f64>) -> Vec<i128> {
    v.iter().map(|x| (x * scale()).round() as i128).collect()
}

fn dequantize(q: i128) -> f64 {
    (q as f64) / scale()
}

fn dequantize_vec(v: &Vec<i128>) -> Vec<f64> {
    v.iter().map(|q| dequantize(*q)).collect()
}

fn assert_vectors_eq(a: &Vec<f64>, b: &Vec<f64>) {
    assert_eq!(a.len(), b.len());
    for (x, y) in a.iter().zip(b) {
        let tol = 1e-6 * x.abs().max(y.abs()).max(1e-9);
        assert!((x - y).abs() <= tol, "{} and {} differ beyond tolerance", x, y);
    }
}

fn assert_multiple_vectors_eq(a: &Vec<Vec<f64>>, b: &Vec<Vec<f64>>) {
    assert_eq!(a.len(), b.len());
    for (x, y) in a.iter().zip(b) {
        assert_vectors_eq(x, y);
    }
}

fn random_vector(dim: usize) -> Vec<f64> {
    let mut vector: Vec<f64> = Vec::with_capacity(dim);
    for _ in 0..dim {
        vector.push(rand::random::<f64>())
    }
    vector
}

fn random_vectors(dim: usize, n: usize) -> Vec<Vec<f64>> {
    let mut vectors: Vec<Vec<f64>> = Vec::with_capacity(n);
    for _ in 0..n {
        vectors.push(random_vector(dim))
    }
    vectors
}

fn euclidean_distance(a: &Vec<f64>, b: &Vec<f64>) -> f64 {
    assert_eq!(a.len(), b.len());
    a.iter().zip(b).map(|(a, b)| (a - b).powi(2)).sum::<f64>().sqrt()
}

fn kmeans(vectors: &Vec<Vec<f64>>, k: usize, iters: usize) -> (Vec<Vec<f64>>, Vec<usize>) {
    assert!(k < vectors.len(), "you must provide at least K many vectors");
    let n = vectors[0].len();
    let mut centroids: Vec<Vec<f64>> = vectors.iter().take(k).cloned().collect();
    let mut cluster_sizes: Vec<usize> = vec![0; k];
    let mut cluster_ids: Vec<usize> = vec![0; vectors.len()];
    for _iter in 0..iters {
        for (i, v) in vectors.iter().enumerate() {
            let distances: Vec<f64> = centroids.iter().map(|c| euclidean_distance(v, c)).collect();
            let min: f64 = distances.iter().fold(f64::INFINITY, |a, &b| a.min(b));
            let id: usize = distances.iter().enumerate().find(|(_, d)| **d == min).unwrap().0;
            cluster_ids[i] = id;
            cluster_sizes[id] += 1;
        }
        for id in 0..k {
            let mut mean: Vec<f64> = vec![0.0; n];
            for (v_i, v) in vectors.iter().enumerate() {
                if cluster_ids[v_i] == id {
                    for i in 0..n {
                        mean[i] += v[i];
                    }
                }
            }
            for i in 0..n {
                mean[i] /= cluster_sizes[id] as f64;
            }
            cluster_sizes[id] = 0;
            centroids[id] = mean;
        }
    }
    (centroids, cluster_ids)
}

fn chip_kmeans(vectors: &Vec<Vec<f64>>, k: usize, iters: usize) -> (Vec<Vec<f64>>, Vec<usize>) {
    let fixed_point_chip = FixedPointChip::new(PRECISION_BITS, LOOKUP_BITS);
    let vectordb_chip = VectorDBChip::default(&fixed_point_chip);
    let qvectors: Vec<Vec<i128>> = vectors.iter().map(|v| quantize_vec(v)).collect();
    let (centroids, cluster_indicators) =
        vectordb_chip.kmeans(&qvectors, Metric::Euclidean, k, iters).unwrap();
    let centroids_native: Vec<Vec<f64>> = centroids.iter().map(|c| dequantize_vec(c)).collect();
    let cluster_ids: Vec<usize> = cluster_indicators
        .iter()
        .map(|indicator| {
            for (i, ind) in indicator.iter().enumerate() {
                if dequantize(*ind) == 1.0 {
                    return i;
                }
            }
            unreachable!("expected 1 to appear in indicator");
        })
        .collect();
    (centroids_native, cluster_ids)
}

fn nearest_vector(query: &Vec<f64>, vectors: &Vec<Vec<f64>>) -> (usize, Vec<f64>) {
    let distances: Vec<f64> = vectors.iter().map(|v| euclidean_distance(v, query)).collect();
    let min = distances.iter().fold(f64::INFINITY, |a, &b| a.min(b));
    vectors
        .iter()
        .enumerate()
        .find(|(i, _)| min == distances[*i])
        .map(|(i, v)| (i, v.clone()))
        .expect("should have found a minimum")
}

fn chip_nearest_vector(query: &Vec<f64>, vectors: &Vec<Vec<f64>>) -> (usize, Vec<f64>) {
    let fixed_point_chip = FixedPointChip::new(PRECISION_BITS, LOOKUP_BITS);
    let vectordb_chip = VectorDBChip::default(&fixed_point_chip);
    let qquery = quantize_vec(query);
    let qvectors: Vec<Vec<i128>> = vectors.iter().map(|v| quantize_vec(v)).collect();
    let (indicator, result) =
        vectordb_chip.nearest_vector(&qquery, &qvectors, Metric::Euclidean).unwrap();
    let result = dequantize_vec(&result);
    let index = indicator.iter().position(|v| *v == 1).expect("expected 1");
    (index, result)
}

#[test]
fn vectordb_test_test_kmeans_small() {
    const K: usize = 2;
    const I: usize = 4;
    const DIM: usize = 5;
    let vectors = random_vectors(DIM, 30);

    let (centroids_native, clusterids_native) = kmeans(&vectors, K, I);
    let (centroids_chip, clusterids_chip) = chip_kmeans(&vectors, K, I);
    assert_multiple_vectors_eq(&centroids_native, &centroids_chip);
    assert_eq!(clusterids_native, clusterids_chip);
}

#[test]
fn test_nearest_vector() {
    const DIM: usize = 4;
    let query = random_vector(DIM);
    let vectors = random_vectors(DIM, 4);

    let (idx_native, result_native) = nearest_vector(&query, &vectors);
    let (idx_chip, result_chip) = chip_nearest_vector(&query, &vectors);
    assert_vectors_eq(&result_native, &result_chip);
    assert_eq!(idx_native, idx_chip);
}
