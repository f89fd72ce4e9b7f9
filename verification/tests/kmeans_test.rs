use zkvecdb::fixed_point::FixedPointChip;
use zkvecdb::vectordb::{Metric, VectorDBChip};

const LOOKUP_BITS: usize = 13;
const PRECISION_BITS: u32 = 48;

fn scale() -> f64 {
    (1u64 << PRECISION_BITS) as f64
}

fn quantize_vec(v: &Vec<f64>) -> Vec<i128> {
    v.iter().map(|x| (x * scale()).round() as i128).collect()
}

fn dequantize(q: i128) -> f64 {
    (q as f64) / scale()
}

fn dequantize_vec(v: &Vec<i128>) -> Vec<f64> {
    v.iter().map(|q| dequantize(*q)).collect()
}

fn euclidean_distance(a: &Vec<f64>, b: &Vec<f64>) -> f64 {
    assert_eq!(a.len(), b.len());
    a.iter().zip(b).map(|(a, b)| (a - b).powi(2)).sum::<f64>().sqrt()
}

/// A straightforward fixed-iteration k-means over floats, seeding the
/// centroids with the first `k` vectors.
fn kmeans(vectors: &Vec<Vec<f64>>, k: usize, iters: usize) -> (Vec<Vec<f64>>, Vec<usize>) {
    assert!(k < vectors.len(), "you must provide at least K many vectors");
    let n = vectors[0].len();

    let mut centroids: Vec<Vec<f64>> = vectors.iter().take(k).cloned().collect();
    let mut cluster_sizes: Vec<usize> = vec![0; k];
    let mut cluster_ids: Vec<usize> = vec![0; vectors.len()];

    for _iter in 0..iters {
        for (i, v) in vectors.iter().enumerate() {
            let distances: Vec<f64> = centroids.iter().map(|c| euclidean_distance(v, c)).collect();
            let min: f64 = distances.iter().fold(f64::INFINITY, |a, &b| a.min(b));
            let id: usize = distances.iter().enumerate().find(|(_, d)| **d == min).unwrap().0;
            cluster_ids[i] = id;
            cluster_sizes[id] += 1;
        }

        for id in 0..k {
            let mut mean: Vec<f64> = vec![0.0; n];
            for (v_i, v) in vectors.iter().enumerate() {
                if cluster_ids[v_i] == id {
                    for i in 0..n {
                        mean[i] += v[i];
                    }
                }
            }
            for i in 0..n {
                mean[i] /= cluster_sizes[id] as f64;
            }
            cluster_sizes[id] = 0;
            centroids[id] = mean;
        }
    }

    (centroids, cluster_ids)
}

fn chip_kmeans(vectors: &Vec<Vec<f64>>, k: usize, iters: usize) -> (Vec<Vec<f64>>, Vec<usize>) {
    let fixed_point_chip = FixedPointChip::new(PRECISION_BITS, LOOKUP_BITS);
    let vectordb_chip = VectorDBChip::default(&fixed_point_chip);

    let qvectors: Vec<Vec<i128>> = vectors.iter().map(|v| quantize_vec(v)).collect();
    let (centroids, cluster_indicators) =
        vectordb_chip.kmeans(&qvectors, Metric::Euclidean, k, iters).unwrap();

    let centroids_native: Vec<Vec<f64>> = centroids.iter().map(|c| dequantize_vec(c)).collect();

    let cluster_ids: Vec<usize> = cluster_indicators
        .iter()
        .map(|indicator| {
            for (i, ind) in indicator.iter().enumerate() {
                if dequantize(*ind) == 1.0 {
                    return i;
                }
            }
            unreachable!("expected 1 to appear in indicator");
        })
        .collect();

    (centroids_native, cluster_ids)
}

#[test]
fn kmeans_test_test_kmeans_small() {
    const K: usize = 2;
    const I: usize = 10;
    let vectors = vec![vec![1.0, 1.0], vec![2.0, 1.0], vec![4.0, 3.0], vec![5.0, 4.0]];

    // fixed iterations since we have to do it that way in our circuit
    let results = kmeans(&vectors, K, I);

    assert_eq!(results.0, vec![vec![1.5, 1.0], vec![4.5, 3.5]]); // centroids
    assert_eq!(results.1, vec![0, 0, 1, 1]); // cluster ids

    let chip_results = chip_kmeans(&vectors, K, I);
    println!("{:?}", chip_results.0);
    println!("{:?}", chip_results.1);
    assert_eq!(results.0, chip_results.0); // centroids
    assert_eq!(results.1, chip_results.1); // cluster ids
}
