use zkvecdb::fixed_point::FixedPointChip;

const LOOKUP_BITS: usize = 13;
const PRECISION_BITS: u32 = 48;

fn native_euclidean_distance(a: Vec<f64>, b: Vec<f64>) -> f64 {
    assert_eq!(a.len(), b.len());
    a.iter().zip(&b).fold(0.0, |sum, (a, b)| sum + (a - b).powi(2)).sqrt()
}

// sample test
#[test]
fn add() {
    let chip = FixedPointChip::new(PRECISION_BITS, LOOKUP_BITS);
    let res = chip.qadd(2, 4);
    println!("{:?}", res);
    assert_eq!(res, 6);
}

#[test]
fn euclidean_distance() {
    let a = vec![0.123, 0.456, 1.789];
    let b = vec![1.123, 0.456, 0.789];
    let dist_native = native_euclidean_distance(a, b);

    let other: f64 = 1.4142129712272435;
    let tol = 1e-6 * other.abs();
    assert!((other - dist_native).abs() <= tol);
}
