//! Distance gadgets over two quantized vectors of equal, public length.
//!
//! Each gadget is a fixed sequence of fixed-point operations; a length
//! mismatch is a build-time contract violation that aborts circuit
//! construction, reported here as an error value.

use vstd::prelude::*;
use vstd::arithmetic::div_mod::{
    lemma_div_is_ordered, lemma_div_multiples_vanish, lemma_div_pos_is_pos,
};
use vstd::arithmetic::power2::lemma_pow2_adds;

use crate::fixed_point::{
    abs_v, dot, ind_v, ints_of, lemma_div_bounded, lemma_dot_bound, lemma_dot_self_nonneg,
    lemma_pow2_127, lemma_pow2_le, lemma_product_bound, lemma_seq_sum_bounds, seq_sum, sqrt_floor,
    FixedPointChip,
};
use crate::{pow2_int, GadgetError};

verus! {

/// How the distance gadgets arrange their gates in the circuit; vertical
/// is the only arrangement.  It does not affect the value semantics.
#[derive(Clone, Copy, Debug, PartialEq, Eq, Structural)]
pub enum DistanceStrategy {
    Vertical,
}

/// The element-wise difference of two equal-length vectors.
pub open spec fn diff_seq(a: Seq<int>, b: Seq<int>) -> Seq<int>
    recommends
        a.len() == b.len(),
{
    Seq::new(a.len(), |i: int| a[i] - b[i])
}

/// The quantized inner product: the raw inner product, rescaled once.
pub open spec fn inner_v(p: nat, a: Seq<int>, b: Seq<int>) -> int {
    dot(a, b) / pow2_int(p)
}

/// Euclidean distance: the quantized square root of the self-inner product
/// of the difference vector.
pub open spec fn euclid_v(p: nat, a: Seq<int>, b: Seq<int>) -> int {
    sqrt_floor(inner_v(p, diff_seq(a, b), diff_seq(a, b)) * pow2_int(p))
}

/// Manhattan distance: the sum of the absolute element-wise differences.
pub open spec fn manhattan_v(a: Seq<int>, b: Seq<int>) -> int {
    seq_sum(diff_seq(a, b).map_values(|d: int| abs_v(d)))
}

/// How many indices hold the same quantized value in both vectors.
pub open spec fn eq_count(a: Seq<int>, b: Seq<int>) -> int {
    seq_sum(Seq::new(a.len(), |i: int| ind_v(a[i], b[i])))
}

/// Hamming similarity: the fraction of equal indices, quantized.
pub open spec fn hamming_sim_v(p: nat, a: Seq<int>, b: Seq<int>) -> int {
    (eq_count(a, b) * pow2_int(p)) / (a.len() as int)
}

/// Hamming distance: one minus the Hamming similarity, in quantized units.
pub open spec fn hamming_dist_v(p: nat, a: Seq<int>, b: Seq<int>) -> int {
    pow2_int(p) - hamming_sim_v(p, a, b)
}

/// The denominator of the cosine similarity: the quantized product of the
/// two vector norms.
pub open spec fn cosine_den_v(p: nat, a: Seq<int>, b: Seq<int>) -> int {
    (sqrt_floor(inner_v(p, a, a) * pow2_int(p)) * sqrt_floor(inner_v(p, b, b) * pow2_int(p)))
        / pow2_int(p)
}

/// Cosine similarity: the quantized quotient of the inner product by the
/// product of the norms.
pub open spec fn cosine_sim_v(p: nat, a: Seq<int>, b: Seq<int>) -> int {
    (inner_v(p, a, b) * pow2_int(p)) / cosine_den_v(p, a, b)
}

/// Cosine distance: one minus the cosine similarity, in quantized units.
pub open spec fn cosine_dist_v(p: nat, a: Seq<int>, b: Seq<int>) -> int {
    pow2_int(p) - cosine_sim_v(p, a, b)
}

/// Computes the element-wise difference vector.
fn diff_vec(chip: &FixedPointChip, a: &Vec<i128>, b: &Vec<i128>) -> (r: Vec<i128>)
    requires
        chip.wf(),
        a@.len() == b@.len(),
        chip.vec_ok(a@),
        chip.vec_ok(b@),
    ensures
        ints_of(r@) == diff_seq(ints_of(a@), ints_of(b@)),
        r@.len() == a@.len(),
        forall|i: int|
            0 <= i < r@.len()
                ==> -pow2_int(chip.p() + 10) <= #[trigger] r@[i] <= pow2_int(chip.p() + 10),
{
    let mut r: Vec<i128> = Vec::new();
    let mut i: usize = 0;
    proof {
        lemma_pow2_le(chip.p() + 9, chip.p() + 10);
        lemma_pow2_adds(chip.p() + 9, 1);
        vstd::arithmetic::power2::lemma2_to64();
        assert(pow2_int(chip.p() + 10) == 2 * pow2_int(chip.p() + 9)) by {
            lemma_pow2_adds(1, chip.p() + 9);
        }
    }
    while i < a.len()
        invariant
            0 <= i <= a@.len() == b@.len(),
            chip.wf(),
            chip.vec_ok(a@),
            chip.vec_ok(b@),
            r@.len() == i,
            pow2_int(chip.p() + 10) == 2 * pow2_int(chip.p() + 9),
            forall|j: int| 0 <= j < i ==> #[trigger] r@[j] == a@[j] - b@[j],
            forall|j: int|
                0 <= j < i
                    ==> -pow2_int(chip.p() + 10) <= #[trigger] r@[j] <= pow2_int(chip.p() + 10),
        decreases a@.len() - i,
    {
        proof {
            lemma_pow2_127();
            lemma_pow2_le(chip.p() + 10, 126);
        }
        let d = chip.qsub(a[i], b[i]);
        r.push(d);
        i = i + 1;
    }
    proof {
        assert(ints_of(r@) =~= diff_seq(ints_of(a@), ints_of(b@)));
    }
    r
}

/// Bounds the products of a difference vector with itself, and the resulting
/// inner product, for a chip of precision at most 48.
proof fn lemma_diff_products(chip: FixedPointChip, d: Seq<i128>)
    requires
        chip.wf(),
        d.len() <= 1024,
        forall|i: int|
            0 <= i < d.len()
                ==> -pow2_int(chip.p() + 10) <= #[trigger] d[i] <= pow2_int(chip.p() + 10),
    ensures
        forall|i: int|
            0 <= i < d.len() ==> -pow2_int(116) <= #[trigger] (d[i] * d[i]) <= pow2_int(116),
        0 <= dot(ints_of(d), ints_of(d)) <= pow2_int(2 * chip.p() + 30),
    decreases d.len(),
{
    let p = chip.p();
    lemma_pow2_adds(p + 10, p + 10);
    lemma_pow2_le(2 * p + 20, 116);
    assert forall|i: int| 0 <= i < d.len() implies -pow2_int(116) <= #[trigger] (d[i] * d[i])
        <= pow2_int(116) by {
        lemma_product_bound(d[i] as int, d[i] as int, pow2_int(p + 10), pow2_int(p + 10));
    }
    assert forall|i: int|
        0 <= i < d.len() implies -pow2_int(2 * p + 20) <= #[trigger] (ints_of(d)[i] * ints_of(
        d,
    )[i]) <= pow2_int(2 * p + 20) by {
        lemma_product_bound(d[i] as int, d[i] as int, pow2_int(p + 10), pow2_int(p + 10));
    }
    lemma_dot_bound(ints_of(d), ints_of(d), pow2_int(2 * p + 20));
    lemma_dot_self_nonneg(ints_of(d));
    lemma_pow2_adds(2 * p + 20, 10);
    vstd::arithmetic::power2::lemma2_to64();
    vstd::arithmetic::mul::lemma_mul_inequality(d.len() as int, 1024, pow2_int(2 * p + 20));
    lemma_pow2_le(2 * p + 20, 2 * p + 30);
}

/// The Euclidean gadget: difference vector, self-inner product, square root.
pub(crate) fn euclidean_core(chip: &FixedPointChip, a: &Vec<i128>, b: &Vec<i128>) -> (r: Result<
    i128,
    GadgetError,
>)
    requires
        chip.wf(),
        chip.vec_ok(a@),
        chip.vec_ok(b@),
    ensures
        r is Ok <==> a@.len() == b@.len(),
        r is Ok ==> r->Ok_0 == euclid_v(chip.p(), ints_of(a@), ints_of(b@)),
        r is Err ==> r->Err_0 == GadgetError::LengthMismatch,
        r is Ok ==> 0 <= r->Ok_0 <= pow2_int(63),
    {
    if a.len() != b.len() {
        return Err(GadgetError::LengthMismatch);
    }
    let ab = diff_vec(chip, a, b);
    proof {
        lemma_diff_products(*chip, ab@);
    }
    let dist_square = chip.inner_product(&ab, &ab);
    proof {
        let p = chip.p();
        let dd = dot(ints_of(ab@), ints_of(ab@));
        vstd::arithmetic::power2::lemma_pow2_pos(p);
        lemma_div_pos_is_pos(dd, pow2_int(p));
        lemma_div_is_ordered(dd, pow2_int(2 * p + 30), pow2_int(p));
        lemma_pow2_adds(p + 30, p);
        assert((pow2_int(p + 30) * pow2_int(p)) / pow2_int(p) == pow2_int(p + 30)) by {
            vstd::arithmetic::div_mod::lemma_div_by_multiple(pow2_int(p + 30), pow2_int(p));
        }
        assert(dist_square * pow2_int(p) <= pow2_int(p + 30) * pow2_int(p)) by (nonlinear_arith)
            requires dist_square <= pow2_int(p + 30) && 0 < pow2_int(p);
        lemma_pow2_adds(p + 30, p);
        lemma_pow2_le(2 * p + 30, 126);
        vstd::arithmetic::mul::lemma_mul_nonnegative(dist_square as int, pow2_int(p));
    }
    Ok(chip.qsqrt(dist_square))
}

/// The Manhattan gadget: absolute differences, then a running sum.
pub(crate) fn manhattan_core(chip: &FixedPointChip, a: &Vec<i128>, b: &Vec<i128>) -> (r: Result<
    i128,
    GadgetError,
>)
    requires
        chip.wf(),
        chip.vec_ok(a@),
        chip.vec_ok(b@),
    ensures
        r is Ok <==> a@.len() == b@.len(),
        r is Ok ==> r->Ok_0 == manhattan_v(ints_of(a@), ints_of(b@)),
        r is Err ==> r->Err_0 == GadgetError::LengthMismatch,
        r is Ok ==> 0 <= r->Ok_0 <= pow2_int(chip.p() + 20),
    {
    if a.len() != b.len() {
        return Err(GadgetError::LengthMismatch);
    }
    let ab_diff = diff_vec(chip, a, b);
    let ghost bound = pow2_int(chip.p() + 10);
    let mut ab_abs: Vec<i128> = Vec::new();
    let mut i: usize = 0;
    while i < ab_diff.len()
        invariant
            0 <= i <= ab_diff@.len(),
            chip.wf(),
            ab_abs@.len() == i,
            bound == pow2_int(chip.p() + 10),
            forall|j: int|
                0 <= j < ab_diff@.len() ==> -bound <= #[trigger] ab_diff@[j] <= bound,
            forall|j: int| 0 <= j < i ==> #[trigger] ab_abs@[j] == abs_v(ab_diff@[j] as int),
            forall|j: int| 0 <= j < i ==> 0 <= #[trigger] ab_abs@[j] <= bound,
        decreases ab_diff@.len() - i,
    {
        proof {
            lemma_pow2_127();
            lemma_pow2_le(chip.p() + 10, 126);
        }
        let d = chip.qabs(ab_diff[i]);
        ab_abs.push(d);
        i = i + 1;
    }
    proof {
        lemma_pow2_le(chip.p() + 10, 116);
        assert(ints_of(ab_abs@) =~= diff_seq(ints_of(a@), ints_of(b@)).map_values(
            |d: int| abs_v(d),
        ));
    }
    let total = chip.sum(&ab_abs);
    proof {
        lemma_seq_sum_bounds(ints_of(ab_abs@), 0, pow2_int(chip.p() + 10));
        vstd::arithmetic::mul::lemma_mul_inequality(
            ab_abs@.len() as int,
            1024,
            pow2_int(chip.p() + 10),
        );
        lemma_pow2_adds(chip.p() + 10, 10);
        vstd::arithmetic::power2::lemma2_to64();
        lemma_pow2_le(chip.p() + 20, 126);
    }
    Ok(total)
}

/// The Hamming gadget: per-index equality indicators, their sum re-quantized,
/// divided by the quantized length.
pub(crate) fn hamming_sim_core(chip: &FixedPointChip, a: &Vec<i128>, b: &Vec<i128>) -> (r: Result<
    i128,
    GadgetError,
>)
    requires
        chip.wf(),
        a@.len() <= 1024,
        b@.len() <= 1024,
        a@.len() == b@.len() ==> 1 <= a@.len(),
    ensures
        r is Ok <==> a@.len() == b@.len(),
        r is Ok ==> r->Ok_0 == hamming_sim_v(chip.p(), ints_of(a@), ints_of(b@)),
        r is Err ==> r->Err_0 == GadgetError::LengthMismatch,
        r is Ok ==> 0 <= r->Ok_0 <= pow2_int(chip.p()),
    {
    if a.len() != b.len() {
        return Err(GadgetError::LengthMismatch);
    }
    let ghost inds = Seq::new(a@.len() as nat, |i: int| ind_v(a@[i] as int, b@[i] as int));
    let mut eq: Vec<i128> = Vec::new();
    let mut i: usize = 0;
    while i < a.len()
        invariant
            0 <= i <= a@.len() == b@.len(),
            eq@.len() == i,
            inds == Seq::new(a@.len() as nat, |j: int| ind_v(a@[j] as int, b@[j] as int)),
            forall|j: int| 0 <= j < i ==> #[trigger] eq@[j] == inds[j],
            forall|j: int| 0 <= j < i ==> 0 <= #[trigger] eq@[j] <= 1,
        decreases a@.len() - i,
    {
        let e = chip.is_equal(a[i], b[i]);
        eq.push(e);
        i = i + 1;
    }
    proof {
        lemma_pow2_127();
        assert(ints_of(eq@) =~= inds);
        vstd::arithmetic::power2::lemma2_to64();
        lemma_pow2_le(0, 116);
    }
    let ab_sum = chip.sum(&eq);
    let one = chip.scale_exec();
    let n = a.len() as i128;
    proof {
        let p = chip.p();
        let cnt = eq_count(ints_of(a@), ints_of(b@));
        let nn = a@.len() as int;
        lemma_seq_sum_bounds(inds, 0, 1);
        assert(inds =~= Seq::new(
            ints_of(a@).len(),
            |i: int| ind_v(ints_of(a@)[i], ints_of(b@)[i]),
        ));
        assert(cnt == seq_sum(inds));
        lemma_pow2_127();
        lemma_pow2_le(p, 48);
        vstd::arithmetic::power2::lemma2_to64();
        vstd::arithmetic::power2::lemma2_to64_rest();
        lemma_product_bound(cnt, pow2_int(p), 1024, pow2_int(48));
        lemma_product_bound(nn, pow2_int(p), 1024, pow2_int(48));
        lemma_pow2_adds(48, 10);
        lemma_pow2_le(58, 126);
        // `qdiv` needs `(cnt * 2^p) * 2^p` within `2^126`.
        lemma_product_bound(cnt * pow2_int(p), pow2_int(p), pow2_int(58), pow2_int(48));
        lemma_pow2_adds(58, 48);
        lemma_pow2_le(106, 126);
        vstd::arithmetic::mul::lemma_mul_strictly_positive(nn, pow2_int(p));
    }
    let len_q = n * one;
    let ab_sum_q = ab_sum * one;
    let sim = chip.qdiv(ab_sum_q, len_q);
    proof {
        let p = chip.p();
        let cnt = eq_count(ints_of(a@), ints_of(b@));
        let nn = a@.len() as int;
        vstd::arithmetic::div_mod::lemma_div_multiples_vanish_quotient(
            pow2_int(p),
            cnt * pow2_int(p),
            nn,
        );
        assert((cnt * pow2_int(p)) * pow2_int(p) == pow2_int(p) * (cnt * pow2_int(p)))
            by (nonlinear_arith);
        assert(nn * pow2_int(p) == pow2_int(p) * nn) by (nonlinear_arith);
        lemma_div_bounded(cnt * pow2_int(p), nn, pow2_int(126));
        lemma_seq_sum_bounds(inds, 0, 1);
        // `0 <= sim <= 2^p`: the count is at most the length.
        vstd::arithmetic::mul::lemma_mul_inequality(cnt, nn, pow2_int(p));
        vstd::arithmetic::mul::lemma_mul_nonnegative(cnt, pow2_int(p));
        lemma_div_pos_is_pos(cnt * pow2_int(p), nn);
        lemma_div_is_ordered(cnt * pow2_int(p), nn * pow2_int(p), nn);
        assert(nn * pow2_int(p) == pow2_int(p) * nn) by (nonlinear_arith);
        lemma_div_multiples_vanish(pow2_int(p), nn);
    }
    Ok(sim)
}

/// The cosine-similarity gadget: three inner products, two square roots, one
/// quantized multiplication and one quantized division.
pub(crate) fn cosine_sim_core(chip: &FixedPointChip, a: &Vec<i128>, b: &Vec<i128>) -> (r: Result<
    i128,
    GadgetError,
>)
    requires
        chip.wf(),
        chip.vec_ok(a@),
        chip.vec_ok(b@),
        a@.len() == b@.len() ==> cosine_den_v(chip.p(), ints_of(a@), ints_of(b@)) != 0,
    ensures
        r is Ok <==> a@.len() == b@.len(),
        r is Ok ==> r->Ok_0 == cosine_sim_v(chip.p(), ints_of(a@), ints_of(b@)),
        r is Err ==> r->Err_0 == GadgetError::LengthMismatch,
        r is Ok ==> -pow2_int(126) <= r->Ok_0 <= pow2_int(126),
    {
    if a.len() != b.len() {
        return Err(GadgetError::LengthMismatch);
    }
    proof {
        lemma_mixed_products(*chip, a@, b@);
        lemma_mixed_products(*chip, a@, a@);
        lemma_mixed_products(*chip, b@, b@);
    }
    let ab = chip.inner_product(a, b);
    let aa = chip.inner_product(a, a);
    let bb = chip.inner_product(b, b);
    proof {
        lemma_inner_self_sqrt_ready(*chip, a@);
        lemma_inner_self_sqrt_ready(*chip, b@);
    }
    let aa_sqrt = chip.qsqrt(aa);
    let bb_sqrt = chip.qsqrt(bb);
    proof {
        lemma_pow2_127();
        lemma_pow2_adds(63, 63);
        lemma_product_bound(aa_sqrt as int, bb_sqrt as int, pow2_int(63), pow2_int(63));
    }
    let denom = chip.qmul(aa_sqrt, bb_sqrt);
    proof {
        let p = chip.p();
        lemma_inner_bound(*chip, a@, b@);
        lemma_product_bound(ab as int, pow2_int(p), pow2_int(p + 30), pow2_int(p));
        lemma_pow2_adds(p + 30, p);
        lemma_pow2_le(2 * p + 30, 126);
    }
    let sim = chip.qdiv(ab, denom);
    Ok(sim)
}

/// Bounds the mixed products of two in-budget vectors for `inner_product`.
proof fn lemma_mixed_products(chip: FixedPointChip, a: Seq<i128>, b: Seq<i128>)
    requires
        chip.wf(),
        chip.vec_ok(a),
        chip.vec_ok(b),
        a.len() == b.len(),
    ensures
        forall|i: int|
            0 <= i < a.len() ==> -pow2_int(116) <= #[trigger] (a[i] * b[i]) <= pow2_int(116),
{
    let p = chip.p();
    lemma_pow2_adds(p + 9, p + 9);
    lemma_pow2_le(2 * p + 18, 116);
    assert forall|i: int| 0 <= i < a.len() implies -pow2_int(116) <= #[trigger] (a[i] * b[i])
        <= pow2_int(116) by {
        lemma_product_bound(a[i] as int, b[i] as int, pow2_int(p + 9), pow2_int(p + 9));
    }
}

/// The rescaled self-inner product of an in-budget vector is fit for `qsqrt`.
proof fn lemma_inner_self_sqrt_ready(chip: FixedPointChip, a: Seq<i128>)
    requires
        chip.wf(),
        chip.vec_ok(a),
    ensures
        0 <= inner_v(chip.p(), ints_of(a), ints_of(a)),
        inner_v(chip.p(), ints_of(a), ints_of(a)) * pow2_int(chip.p()) <= pow2_int(126),
{
    let p = chip.p();
    let s = ints_of(a);
    lemma_dot_self_nonneg(s);
    vstd::arithmetic::power2::lemma_pow2_pos(p);
    lemma_div_pos_is_pos(dot(s, s), pow2_int(p));
    lemma_pow2_adds(p + 9, p + 9);
    lemma_pow2_le(2 * p + 18, 2 * p + 18);
    assert forall|i: int|
        0 <= i < s.len() implies -pow2_int(2 * p + 18) <= #[trigger] (s[i] * s[i]) <= pow2_int(
        2 * p + 18,
    ) by {
        lemma_product_bound(s[i] as int, s[i] as int, pow2_int(p + 9), pow2_int(p + 9));
    }
    lemma_dot_bound(s, s, pow2_int(2 * p + 18));
    vstd::arithmetic::mul::lemma_mul_inequality(s.len() as int, 1024, pow2_int(2 * p + 18));
    lemma_pow2_adds(2 * p + 18, 10);
    vstd::arithmetic::power2::lemma2_to64();
    lemma_div_is_ordered(dot(s, s), pow2_int(2 * p + 28), pow2_int(p));
    lemma_pow2_adds(p + 28, p);
    vstd::arithmetic::div_mod::lemma_div_by_multiple(pow2_int(p + 28), pow2_int(p));
    let iv = inner_v(p, s, s);
    assert(iv * pow2_int(p) <= pow2_int(p + 28) * pow2_int(p)) by (nonlinear_arith)
        requires iv <= pow2_int(p + 28) && 0 < pow2_int(p);
    lemma_pow2_adds(p + 28, p);
    lemma_pow2_le(2 * p + 28, 126);
}

/// The rescaled inner product of two in-budget vectors is within
/// `pow2(p + 30)`.
proof fn lemma_inner_bound(chip: FixedPointChip, a: Seq<i128>, b: Seq<i128>)
    requires
        chip.wf(),
        chip.vec_ok(a),
        chip.vec_ok(b),
        a.len() == b.len(),
    ensures
        -pow2_int(chip.p() + 30) <= inner_v(chip.p(), ints_of(a), ints_of(b))
            <= pow2_int(chip.p() + 30),
{
    let p = chip.p();
    let sa = ints_of(a);
    let sb = ints_of(b);
    lemma_pow2_adds(p + 9, p + 9);
    assert forall|i: int|
        0 <= i < sa.len() implies -pow2_int(2 * p + 18) <= #[trigger] (sa[i] * sb[i]) <= pow2_int(
        2 * p + 18,
    ) by {
        lemma_product_bound(sa[i] as int, sb[i] as int, pow2_int(p + 9), pow2_int(p + 9));
    }
    lemma_dot_bound(sa, sb, pow2_int(2 * p + 18));
    vstd::arithmetic::mul::lemma_mul_inequality(sa.len() as int, 1024, pow2_int(2 * p + 18));
    lemma_pow2_adds(2 * p + 18, 10);
    vstd::arithmetic::power2::lemma2_to64();
    vstd::arithmetic::power2::lemma_pow2_pos(p);
    lemma_pow2_adds(p + 28, p);
    vstd::arithmetic::div_mod::lemma_div_by_multiple(pow2_int(p + 28), pow2_int(p));
    lemma_div_is_ordered(dot(sa, sb), pow2_int(2 * p + 28), pow2_int(p));
    lemma_div_is_ordered(-pow2_int(2 * p + 28), dot(sa, sb), pow2_int(p));
    assert((-pow2_int(2 * p + 28)) / pow2_int(p) == -pow2_int(p + 28)) by {
        vstd::arithmetic::div_mod::lemma_div_multiples_vanish(
            -pow2_int(p + 28),
            pow2_int(p),
        );
        assert(pow2_int(p) * (-pow2_int(p + 28)) == -(pow2_int(p + 28) * pow2_int(p)))
            by (nonlinear_arith);
    }
    lemma_pow2_le(p + 28, p + 30);
}

/// Hamming distance is symmetric: swapping the two vectors swaps nothing
/// that the count of equal indices depends on, so
/// `hamming_distance(a, b) == hamming_distance(b, a)`.
pub proof fn lemma_hamming_symmetry(p: nat, a: Seq<int>, b: Seq<int>)
    requires
        a.len() == b.len(),
    ensures
        hamming_dist_v(p, a, b) == hamming_dist_v(p, b, a),
        hamming_sim_v(p, a, b) == hamming_sim_v(p, b, a),
{
    assert(Seq::new(a.len(), |i: int| ind_v(a[i], b[i])) =~= Seq::new(
        b.len(),
        |i: int| ind_v(b[i], a[i]),
    ));
}

/// Hamming similarity and Hamming distance are complements: on any two
/// equal-length vectors they sum to the quantized one.
pub proof fn lemma_hamming_complement(p: nat, a: Seq<int>, b: Seq<int>)
    requires
        a.len() == b.len(),
    ensures
        hamming_sim_v(p, a, b) + hamming_dist_v(p, a, b) == pow2_int(p),
{
}

/// A thin composition wrapper: a distance strategy together with the
/// fixed-point chip every gadget is built from.
#[derive(Clone, Copy, Debug)]
pub struct DistanceChip {
    pub strategy: DistanceStrategy,
    pub fixed_point_gate: FixedPointChip,
}

impl DistanceChip {
    pub open spec fn wf(self) -> bool {
        self.fixed_point_gate.wf()
    }

    pub open spec fn p(self) -> nat {
        self.fixed_point_gate.p()
    }

    pub fn new(strategy: DistanceStrategy, fixed_point_gate: FixedPointChip) -> (r: Self)
        ensures
            r == (DistanceChip { strategy, fixed_point_gate }),
    {
        DistanceChip { strategy, fixed_point_gate }
    }

    pub fn default(fixed_point_gate: FixedPointChip) -> (r: Self)
        ensures
            r == (DistanceChip { strategy: DistanceStrategy::Vertical, fixed_point_gate }),
    {
        Self::new(DistanceStrategy::Vertical, fixed_point_gate)
    }

    pub fn fixed_point_gate(&self) -> (r: &FixedPointChip)
        ensures
            r == self.fixed_point_gate,
    {
        &self.fixed_point_gate
    }

    pub fn strategy(&self) -> (r: DistanceStrategy)
        ensures
            r == self.strategy,
    {
        self.strategy
    }

    /// Euclidean distance (L2) of two quantized vectors.
    pub fn euclidean_distance(&self, a: &Vec<i128>, b: &Vec<i128>) -> (r: Result<
        i128,
        GadgetError,
    >)
        requires
            self.wf(),
            self.fixed_point_gate.vec_ok(a@),
            self.fixed_point_gate.vec_ok(b@),
        ensures
            r is Ok <==> a@.len() == b@.len(),
            r is Ok ==> r->Ok_0 == euclid_v(self.p(), ints_of(a@), ints_of(b@)),
            r is Err ==> r->Err_0 == GadgetError::LengthMismatch,
        {
        euclidean_core(&self.fixed_point_gate, a, b)
    }

    /// Manhattan distance (L1) of two quantized vectors.
    pub fn manhattan_distance(&self, a: &Vec<i128>, b: &Vec<i128>) -> (r: Result<
        i128,
        GadgetError,
    >)
        requires
            self.wf(),
            self.fixed_point_gate.vec_ok(a@),
            self.fixed_point_gate.vec_ok(b@),
        ensures
            r is Ok <==> a@.len() == b@.len(),
            r is Ok ==> r->Ok_0 == manhattan_v(ints_of(a@), ints_of(b@)),
            r is Err ==> r->Err_0 == GadgetError::LengthMismatch,
        {
        manhattan_core(&self.fixed_point_gate, a, b)
    }

    /// Hamming distance of two quantized vectors: one minus the fraction of
    /// indices with equal quantized values, in quantized units.
    pub fn hamming_distance(&self, a: &Vec<i128>, b: &Vec<i128>) -> (r: Result<i128, GadgetError>)
        requires
            self.wf(),
            a@.len() <= 1024,
            b@.len() <= 1024,
            a@.len() == b@.len() ==> 1 <= a@.len(),
        ensures
            r is Ok <==> a@.len() == b@.len(),
            r is Ok ==> r->Ok_0 == hamming_dist_v(self.p(), ints_of(a@), ints_of(b@)),
            r is Err ==> r->Err_0 == GadgetError::LengthMismatch,
        {
        let sim = match hamming_sim_core(&self.fixed_point_gate, a, b) {
            Ok(s) => s,
            Err(e) => {
                return Err(e);
            },
        };
        proof {
            lemma_pow2_127();
            lemma_pow2_le(self.p(), 126);
        }
        let one = self.fixed_point_gate.scale_exec();
        Ok(self.fixed_point_gate.qsub(one, sim))
    }

    /// Cosine distance of two quantized vectors: one minus the cosine
    /// similarity, in quantized units.  The denominator (the quantized
    /// product of the two norms) must not be zero: an all-zero vector is an
    /// arithmetic-domain violation, as in the circuit.
    pub fn cosine_distance(&self, a: &Vec<i128>, b: &Vec<i128>) -> (r: Result<i128, GadgetError>)
        requires
            self.wf(),
            self.fixed_point_gate.vec_ok(a@),
            self.fixed_point_gate.vec_ok(b@),
            a@.len() == b@.len() ==> cosine_den_v(self.p(), ints_of(a@), ints_of(b@)) != 0,
        ensures
            r is Ok <==> a@.len() == b@.len(),
            r is Ok ==> r->Ok_0 == cosine_dist_v(self.p(), ints_of(a@), ints_of(b@)),
            r is Err ==> r->Err_0 == GadgetError::LengthMismatch,
        {
        let sim = match cosine_sim_core(&self.fixed_point_gate, a, b) {
            Ok(s) => s,
            Err(e) => {
                return Err(e);
            },
        };
        proof {
            lemma_pow2_127();
            lemma_pow2_le(self.p(), 48);
            vstd::arithmetic::power2::lemma2_to64();
            vstd::arithmetic::power2::lemma2_to64_rest();
        }
        let one = self.fixed_point_gate.scale_exec();
        Ok(self.fixed_point_gate.qsub(one, sim))
    }
}

} // verus!
