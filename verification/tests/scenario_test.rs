fn random_vector(dim: usize) -> Vec<f64> {
    let mut vector: Vec<f64> = Vec::with_capacity(dim);
    for _ in 0..dim {
        vector.push(rand::random::<f64>())
    }
    vector
}

fn random_vectors(dim: usize, n: usize) -> Vec<Vec<f64>> {
    let mut vectors: Vec<Vec<f64>> = Vec::with_capacity(n);
    for _ in 0..n {
        vectors.push(random_vector(dim))
    }
    vectors
}

fn euclidean_distance(a: &Vec<f64>, b: &Vec<f64>) -> f64 {
    assert_eq!(a.len(), b.len());
    a.iter().zip(b).map(|(a, b)| (a - b).powi(2)).sum::<f64>().sqrt()
}

fn kmeans(vectors: &Vec<Vec<f64>>, k: usize, iters: usize) -> (Vec<Vec<f64>>, Vec<usize>) {
    assert!(k < vectors.len(), "you must provide at least K many vectors");
    let n = vectors[0].len();
    let mut centroids: Vec<Vec<f64>> = vectors.iter().take(k).cloned().collect();
    let mut cluster_sizes: Vec<usize> = vec![0; k];
    let mut cluster_ids: Vec<usize> = vec![0; vectors.len()];
    for _iter in 0..iters {
        for (i, v) in vectors.iter().enumerate() {
            let distances: Vec<f64> = centroids.iter().map(|c| euclidean_distance(v, c)).collect();
            let min: f64 = distances.iter().fold(f64::INFINITY, |a, &b| a.min(b));
            let id: usize = distances.iter().enumerate().find(|(_, d)| **d == min).unwrap().0;
            cluster_ids[i] = id;
            cluster_sizes[id] += 1;
        }
        for id in 0..k {
            let mut mean: Vec<f64> = vec![0.0; n];
            for (v_i, v) in vectors.iter().enumerate() {
                if cluster_ids[v_i] == id {
                    for i in 0..n {
                        mean[i] += v[i];
                    }
                }
            }
            for i in 0..n {
                mean[i] /= cluster_sizes[id] as f64;
            }
            cluster_sizes[id] = 0;
            centroids[id] = mean;
        }
    }
    (centroids, cluster_ids)
}

fn nearest_vector(query: &Vec<f64>, vectors: &Vec<Vec<f64>>) -> (usize, Vec<f64>) {
    let distances: Vec<f64> = vectors.iter().map(|v| euclidean_distance(v, query)).collect();
    let min = distances.iter().fold(f64::INFINITY, |a, &b| a.min(b));
    vectors
        .iter()
        .enumerate()
        .find(|(i, _)| min == distances[*i])
        .map(|(i, v)| (i, v.clone()))
        .expect("should have found a minimum")
}

/// From a set of vectors and their cluster ids, select the vectors within
/// that cluster id.
fn select_cluster(
    vectors: &Vec<Vec<f64>>,
    cluster_ids: &Vec<usize>,
    cluster_id: usize,
) -> Vec<Vec<f64>> {
    (0..cluster_ids.len())
        .filter(|i| cluster_ids[*i] == cluster_id)
        .map(|i| vectors[i].clone())
        .collect()
}

struct SimpleDatabase {
    database: Vec<Vec<f64>>,
    cluster_ids: Vec<usize>,
    centroids: Vec<Vec<f64>>,
}

impl SimpleDatabase {
    pub fn new(database: Vec<Vec<f64>>, k: usize, iters: usize) -> Self {
        let (centroids, cluster_ids) = kmeans(&database, k, iters);
        Self { database, cluster_ids, centroids }
    }

    /// Querying takes in a query vector, and returns the most similar
    /// vector within the database.
    pub fn ann(&self, vector: Vec<f64>) -> Vec<f64> {
        let (cluster_id, _) = nearest_vector(&vector, &self.centroids);
        let cluster = select_cluster(&self.database, &self.cluster_ids, cluster_id);
        let (_, result) = nearest_vector(&vector, &cluster);
        result
    }
}

#[test]
fn test_scenario_native() {
    const DIM: usize = 4;
    let vectors = random_vectors(DIM, 4);
    let query = vectors[0].clone();

    let db = SimpleDatabase::new(vectors.clone(), 2, 4);
    let result = db.ann(query.clone());

    assert_eq!(query.len(), result.len());
    for (x, y) in query.iter().zip(&result) {
        let tol = 1e-6 * x.abs().max(y.abs()).max(1e-9);
        assert!((x - y).abs() <= tol);
    }
}
