use zkvecdb::distance::DistanceChip;
use zkvecdb::fixed_point::FixedPointChip;

const LOOKUP_BITS: usize = 13;
const PRECISION_BITS: u32 = 48;
const DIM: usize = 10;

fn scale() -> f64 {
    (1u64 << PRECISION_BITS) as f64
}

fn quantize_vec(v: &Vec<f64>) -> Vec<i128> {
    v.iter().map(|x| (x * scale()).round() as i128).collect()
}

fn dequantize(q: i128) -> f64 {
    (q as f64) / scale()
}

fn assert_rel_eq(a: f64, b: f64) {
    let tol = 1e-6 * a.abs().max(b.abs()).max(1e-9);
    assert!((a - b).abs() <= tol, "{} and {} differ beyond tolerance", a, b);
}

fn random_vector(dim: usize) -> Vec<f64> {
    let mut vector: Vec<f64> = Vec::with_capacity(dim);
    for _ in 0..dim {
        vector.push(rand::random::<f64>())
    }
    vector
}

fn euclidean_distance(a: &Vec<f64>, b: &Vec<f64>) -> f64 {
    assert_eq!(a.len(), b.len());
    a.iter().zip(b).map(|(a, b)| (a - b).powi(2)).sum::<f64>().sqrt()
}

fn cosine_distance(a: &Vec<f64>, b: &Vec<f64>) -> f64 {
    assert_eq!(a.len(), b.len());
    let ab: f64 = a.iter().zip(b).map(|(a, b)| a * b).sum();
    let aa: f64 = a.iter().map(|a| a * a).sum();
    let bb: f64 = b.iter().map(|b| b * b).sum();
    1.0 - (ab / (aa.sqrt() * bb.sqrt()))
}

fn hamming_distance(a: &Vec<f64>, b: &Vec<f64>) -> f64 {
    assert_eq!(a.len(), b.len());
    1.0 - a.iter().zip(b).map(|(a, b)| if a == b { 1.0 } else { 0.0 }).sum::<f64>()
        / (a.len() as f64)
}

fn manhattan_distance(a: &Vec<f64>, b: &Vec<f64>) -> f64 {
    assert_eq!(a.len(), b.len());
    a.iter().zip(b).map(|(a, b)| (a - b).abs()).sum()
}

fn chip(a: &Vec<f64>, b: &Vec<f64>, which: &str) -> f64 {
    let fixed_point_chip = FixedPointChip::new(PRECISION_BITS, LOOKUP_BITS);
    let distance_chip = DistanceChip::default(fixed_point_chip);
    let qa = quantize_vec(a);
    let qb = quantize_vec(b);
    let dist = match which {
        "euclidean" => distance_chip.euclidean_distance(&qa, &qb),
        "cosine" => distance_chip.cosine_distance(&qa, &qb),
        "hamming" => distance_chip.hamming_distance(&qa, &qb),
        _ => distance_chip.manhattan_distance(&qa, &qb),
    };
    dequantize(dist.unwrap())
}

#[test]
fn test_euclidean_distance() {
    let a = random_vector(DIM);
    let b = random_vector(DIM);

    let dist_native = euclidean_distance(&a, &b);
    let dist_chip = chip(&a, &b, "euclidean");
    assert_rel_eq(dist_native, dist_chip);
}

#[test]
fn test_manhattan_distance() {
    let a = random_vector(DIM);
    let b = random_vector(DIM);

    let dist_native = manhattan_distance(&a, &b);
    let dist_chip = chip(&a, &b, "manhattan");
    assert_rel_eq(dist_native, dist_chip);
}

#[test]
fn test_cosine_distance() {
    let a = random_vector(DIM);
    let b = random_vector(DIM);

    let dist_native = cosine_distance(&a, &b);
    let dist_chip = chip(&a, &b, "cosine");
    assert_rel_eq(dist_native, dist_chip);
}

#[test]
fn test_hamming_distance() {
    let a = random_vector(DIM);
    let b = random_vector(DIM);

    let dist_native = hamming_distance(&a, &b);
    let dist_chip = chip(&a, &b, "hamming");
    assert_rel_eq(dist_native, dist_chip);
}
