use zkvecdb::distance::DistanceChip;
use zkvecdb::felt::{digest_of_quantized, Digest};
use zkvecdb::fixed_point::FixedPointChip;
use zkvecdb::fvecs::fetch_vectors;
use zkvecdb::similarity::SimilarityChip;
use zkvecdb::vectordb::{Metric, VectorDBChip};
use zkvecdb::GadgetError;

const LOOKUP_BITS: usize = 13;
const PRECISION_BITS: u32 = 48;

fn scale() -> f64 {
    (1u64 << PRECISION_BITS) as f64
}

fn quantize(x: f64) -> i128 {
    (x * scale()).round() as i128
}

fn dequantize(q: i128) -> f64 {
    (q as f64) / scale()
}

fn quantize_vec(v: &Vec<f64>) -> Vec<i128> {
    v.iter().map(|x| quantize(*x)).collect()
}

fn assert_rel_eq(a: f64, b: f64) {
    let tol = 1e-6 * a.abs().max(b.abs()).max(1e-9);
    assert!((a - b).abs() <= tol, "{} and {} differ beyond tolerance", a, b);
}

#[test]
fn test_quantize_round_trip() {
    // one quantization step at 48 fractional bits
    let step = 1.0 / scale();
    for x in [0.0, 1.0, -1.0, 0.123, -0.456, 1.789, 255.5, -255.5, 0.000001] {
        let q = quantize(x);
        let back = dequantize(q);
        assert!((back - x).abs() <= step, "{} came back as {}", x, back);
    }
}

#[test]
fn test_metric_reference_values() {
    let a = vec![0.123, 0.456, 1.789];
    let b = vec![1.123, 0.456, 0.789];
    let chip = FixedPointChip::new(PRECISION_BITS, LOOKUP_BITS);
    let dchip = DistanceChip::default(chip);
    let qa = quantize_vec(&a);
    let qb = quantize_vec(&b);

    let euclid = dequantize(dchip.euclidean_distance(&qa, &qb).unwrap());
    assert_rel_eq(euclid, 1.4142135623730951);

    let manhattan = dequantize(dchip.manhattan_distance(&qa, &qb).unwrap());
    assert_rel_eq(manhattan, 2.0);

    // only index 1 holds equal values, so a third of the indices match
    let hamming = dequantize(dchip.hamming_distance(&qa, &qb).unwrap());
    assert_rel_eq(hamming, 2.0 / 3.0);

    let ab: f64 = a.iter().zip(&b).map(|(x, y)| x * y).sum();
    let aa: f64 = a.iter().map(|x| x * x).sum();
    let bb: f64 = b.iter().map(|x| x * x).sum();
    let cosine_native = 1.0 - ab / (aa.sqrt() * bb.sqrt());
    let cosine = dequantize(dchip.cosine_distance(&qa, &qb).unwrap());
    assert_rel_eq(cosine, cosine_native);
}

#[test]
fn test_sqrt_exact_value() {
    // at 8 fractional bits, the 3-4-5 triangle is exact
    let chip = FixedPointChip::new(8, LOOKUP_BITS);
    let dchip = DistanceChip::default(chip);
    let qa: Vec<i128> = vec![0, 0];
    let qb: Vec<i128> = vec![3 * 256, 4 * 256];
    let dist = dchip.euclidean_distance(&qa, &qb).unwrap();
    assert_eq!(dist, 5 * 256);
}

#[test]
fn test_hamming_symmetry_and_complement() {
    let chip = FixedPointChip::new(PRECISION_BITS, LOOKUP_BITS);
    let dchip = DistanceChip::default(chip);
    let schip = SimilarityChip::new(
        zkvecdb::similarity::SimilarityStrategy::Vertical,
        PRECISION_BITS,
        LOOKUP_BITS,
    );
    let a = vec![0.5, 0.25, -1.0, 3.5, 0.125];
    let b = vec![0.5, 0.75, -1.0, 3.25, 0.125];
    let qa = quantize_vec(&a);
    let qb = quantize_vec(&b);

    let d_ab = dchip.hamming_distance(&qa, &qb).unwrap();
    let d_ba = dchip.hamming_distance(&qb, &qa).unwrap();
    assert_eq!(d_ab, d_ba);

    let s_ab = schip.hamming_similarity(&qa, &qb).unwrap();
    let one = quantize(1.0);
    assert_eq!(s_ab + d_ab, one);
}

#[test]
fn test_nearest_vector_idempotent() {
    let chip = FixedPointChip::new(PRECISION_BITS, LOOKUP_BITS);
    let db = VectorDBChip::default(&chip);
    let vectors: Vec<Vec<i128>> = vec![
        quantize_vec(&vec![1.0, 2.0, 3.0]),
        quantize_vec(&vec![-4.0, 0.5, 2.5]),
        quantize_vec(&vec![10.0, -7.25, 0.0]),
    ];
    let query = vectors[1].clone();
    let (indicator, result) = db.nearest_vector(&query, &vectors, Metric::Euclidean).unwrap();
    assert_eq!(indicator, vec![0, 1, 0]);
    assert_eq!(result, query);
}

#[test]
fn test_merkle_sensitivity() {
    let chip = FixedPointChip::new(PRECISION_BITS, LOOKUP_BITS);
    let db = VectorDBChip::default(&chip);
    let vs1: Vec<Vec<i128>> = vec![
        quantize_vec(&vec![1.0, 2.0]),
        quantize_vec(&vec![3.0, 4.0]),
        quantize_vec(&vec![5.0, 6.0]),
    ];
    // the same content twice: the same root
    let r1 = db.merkle_commitment(&vs1).unwrap();
    let r2 = db.merkle_commitment(&vs1).unwrap();
    assert_eq!(r1, r2);

    // permuting the vectors changes the root
    let vs_perm: Vec<Vec<i128>> = vec![vs1[1].clone(), vs1[0].clone(), vs1[2].clone()];
    let r3 = db.merkle_commitment(&vs_perm).unwrap();
    assert_ne!(r1, r3);

    // changing one scalar changes the root
    let mut vs_mut = vs1.clone();
    vs_mut[2][1] += 1;
    let r4 = db.merkle_commitment(&vs_mut).unwrap();
    assert_ne!(r1, r4);

    // the unpadded gadget agrees only on power-of-two databases
    let schip = SimilarityChip::new(
        zkvecdb::similarity::SimilarityStrategy::Vertical,
        PRECISION_BITS,
        LOOKUP_BITS,
    );
    assert_eq!(schip.merkle_commitment(&vs1), Err(GadgetError::NotPowerOfTwo));
    let vs4: Vec<Vec<i128>> = vec![
        vs1[0].clone(),
        vs1[1].clone(),
        vs1[2].clone(),
        quantize_vec(&vec![7.0, 8.0]),
    ];
    let r5 = schip.merkle_commitment(&vs4).unwrap();
    let r6 = db.merkle_commitment(&vs4).unwrap();
    assert_eq!(r5, r6);
}

#[test]
fn test_length_mismatch_guard() {
    let chip = FixedPointChip::new(PRECISION_BITS, LOOKUP_BITS);
    let dchip = DistanceChip::default(chip);
    let schip = SimilarityChip::default(LOOKUP_BITS);
    let db = VectorDBChip::default(&chip);
    let qa = quantize_vec(&vec![1.0, 2.0, 3.0]);
    let qb = quantize_vec(&vec![1.0, 2.0]);

    assert_eq!(dchip.euclidean_distance(&qa, &qb), Err(GadgetError::LengthMismatch));
    assert_eq!(dchip.manhattan_distance(&qa, &qb), Err(GadgetError::LengthMismatch));
    assert_eq!(dchip.hamming_distance(&qa, &qb), Err(GadgetError::LengthMismatch));
    assert_eq!(dchip.cosine_distance(&qa, &qb), Err(GadgetError::LengthMismatch));
    assert_eq!(schip.euclidean_distance(&qa, &qb), Err(GadgetError::LengthMismatch));
    assert_eq!(schip.manhattan_distance(&qa, &qb), Err(GadgetError::LengthMismatch));
    assert_eq!(schip.hamming_similarity(&qa, &qb), Err(GadgetError::LengthMismatch));
    assert_eq!(schip.cosine_similarity(&qa, &qb), Err(GadgetError::LengthMismatch));

    let vectors = vec![qa.clone(), qb.clone()];
    assert_eq!(
        db.nearest_vector(&qa, &vectors, Metric::Euclidean),
        Err(GadgetError::LengthMismatch)
    );
    let empty: Vec<Vec<i128>> = Vec::new();
    assert_eq!(db.nearest_vector(&qa, &empty, Metric::Euclidean), Err(GadgetError::EmptyInput));
    assert_eq!(db.merkle_commitment(&empty), Err(GadgetError::EmptyInput));
    assert_eq!(schip.merkle_commitment(&empty), Err(GadgetError::EmptyInput));

    // cluster-count violations and ragged databases fail the k-means build
    let uniform = vec![qb.clone(), qb.clone(), qb.clone()];
    assert_eq!(
        db.kmeans(&uniform, Metric::Euclidean, 0, 1).unwrap_err(),
        GadgetError::InvalidClusterCount
    );
    assert_eq!(
        db.kmeans(&uniform, Metric::Euclidean, 3, 1).unwrap_err(),
        GadgetError::InvalidClusterCount
    );
    let ragged = vec![qb.clone(), qa.clone(), qb.clone()];
    assert_eq!(
        db.kmeans(&ragged, Metric::Euclidean, 1, 1).unwrap_err(),
        GadgetError::LengthMismatch
    );
}

#[test]
fn test_fetch_vectors_layout() {
    // two records of dimension 2: a 4-byte header, then two 4-byte words
    let mut data: Vec<u8> = Vec::new();
    for words in [[0x11223344u32, 0x55667788u32], [0xdeadbeefu32, 0x01020304u32]] {
        data.extend_from_slice(&2u32.to_le_bytes());
        for w in words {
            data.extend_from_slice(&w.to_le_bytes());
        }
    }
    let parsed = fetch_vectors(&data, 2).unwrap();
    assert_eq!(parsed, vec![0x11223344, 0x55667788, 0xdeadbeef, 0x01020304]);

    // trailing bytes that do not fill a record are ignored
    let mut with_tail = data.clone();
    with_tail.push(0x99);
    assert_eq!(fetch_vectors(&with_tail, 2).unwrap(), parsed);

    // a record declaring another dimension fails the parse
    let mut bad = data.clone();
    bad[12] = 3;
    assert_eq!(fetch_vectors(&bad, 2), Err(GadgetError::LengthMismatch));
}

#[test]
fn test_field_representation() {
    // non-negative scalars embed directly
    assert_eq!(digest_of_quantized(5), Digest { l0: 5, l1: 0, l2: 0, l3: 0 });
    let big = (1u128 << 100) as i128;
    assert_eq!(
        digest_of_quantized(big),
        Digest { l0: 0, l1: 1 << 36, l2: 0, l3: 0 }
    );
    // negative scalars land in the upper half of the field: -1 maps to p - 1
    assert_eq!(
        digest_of_quantized(-1),
        Digest {
            l0: 0x43e1f593f0000000,
            l1: 0x2833e84879b97091,
            l2: 0xb85045b68181585d,
            l3: 0x30644e72e131a029,
        }
    );
}

#[test]
fn test_fixed_point_ops() {
    let chip = FixedPointChip::new(PRECISION_BITS, LOOKUP_BITS);
    let q = |x: f64| quantize(x);
    assert_eq!(chip.qadd(q(1.5), q(2.25)), q(3.75));
    assert_eq!(chip.qsub(q(1.5), q(2.25)), q(-0.75));
    assert_eq!(chip.qmul(q(1.5), q(2.0)), q(3.0));
    assert_eq!(chip.qdiv(q(1.0), q(4.0)), q(0.25));
    assert_eq!(chip.qabs(q(-2.5)), q(2.5));
    assert_eq!(chip.qmin(q(-2.5), q(1.0)), q(-2.5));
    assert_eq!(chip.is_equal(7, 7), 1);
    assert_eq!(chip.is_equal(7, 8), 0);
    assert_eq!(chip.is_zero(0), 1);
    assert_eq!(chip.select(10, 20, 1), 10);
    assert_eq!(chip.select(10, 20, 0), 20);
    assert_eq!(chip.qsqrt(q(9.0)), q(3.0));
}
