//! Fixed-point arithmetic over quantized scalars.
//!
//! A real number `x` is quantized as `round(x * 2^P)` where `P` is the
//! precision in bits; the circuit stores that integer in a field element.
//! Within the precision budget the field never wraps, so every gadget-level
//! operation acts on plain signed integers.  This module gives that integer
//! semantics for the chip's operations: native addition and subtraction,
//! multiplication and division with a single rescaling (floor) division,
//! absolute value, minimum, square root, and the selection primitives
//! (`is_equal`, `is_zero`, `select`) that replace branching on secret data.

use vstd::prelude::*;
use vstd::arithmetic::div_mod::{lemma_fundamental_div_mod, lemma_mod_bound};
use vstd::arithmetic::power2::{lemma2_to64, lemma2_to64_rest, lemma_pow2_adds, pow2};
use vstd::bits::lemma_u64_shl_is_mul;

use crate::pow2_int;

verus! {

/// `pow2(126)` and `pow2(127)` as concrete integers, for overflow reasoning
/// at the edges of `i128`.
pub proof fn lemma_pow2_127()
    ensures
        pow2_int(126) == 0x40000000000000000000000000000000,
        pow2_int(127) == 0x80000000000000000000000000000000,
{
    lemma2_to64();
    lemma2_to64_rest();
    lemma_pow2_adds(63, 63);
    lemma_pow2_adds(63, 64);
}

/// Euclidean division by a positive divisor keeps a value inside a symmetric
/// bound.
pub proof fn lemma_div_bounded(x: int, d: int, b: int)
    requires
        d >= 1,
        0 <= b,
        -b <= x <= b,
    ensures
        -b <= x / d <= b,
{
    lemma_fundamental_div_mod(x, d);
    lemma_mod_bound(x, d);
    let q = x / d;
    let r = x % d;
    assert(-b <= q <= b) by (nonlinear_arith)
        requires
            x == d * q + r,
            0 <= r < d,
            d >= 1,
            0 <= b,
            -b <= x <= b,
    ;
}

/// The configuration of the fixed-point chip: the precision `P` (bits of the
/// fractional part, and budget for the integer part) and the bit width of the
/// range-check lookup tables used by the circuit backend.  The lookup width
/// only sizes those tables; it does not affect the value semantics.
#[derive(Clone, Copy, Debug)]
pub struct FixedPointChip {
    pub precision_bits: u32,
    pub lookup_bits: usize,
}

impl FixedPointChip {
    /// The precision must be positive, and small enough that every
    /// intermediate of the gadget stack fits in `i128`.
    pub open spec fn wf(self) -> bool {
        1 <= self.precision_bits <= 48
    }

    pub open spec fn p(self) -> nat {
        self.precision_bits as nat
    }

    /// The quantization scale `2^P`: the quantized image of the real `1.0`.
    pub open spec fn scale(self) -> int {
        pow2_int(self.p())
    }

    /// The magnitude budget for a quantized input scalar.
    pub open spec fn input_ok(self, q: int) -> bool {
        -pow2_int(self.p() + 8) <= q <= pow2_int(self.p() + 8)
    }

    /// The magnitude budget for any scalar a distance gadget consumes; it
    /// admits every input scalar and every k-means centroid.
    pub open spec fn elem_ok(self, q: int) -> bool {
        -pow2_int(self.p() + 9) <= q <= pow2_int(self.p() + 9)
    }

    /// Every scalar of the vector is within the gadget budget, and the
    /// dimension is within the per-vector cap.
    pub open spec fn vec_ok(self, s: Seq<i128>) -> bool {
        &&& s.len() <= 1024
        &&& forall|i: int| 0 <= i < s.len() ==> self.elem_ok(#[trigger] s[i] as int)
    }

    /// Every scalar of the vector is within the input budget, and the
    /// dimension is within the per-vector cap.
    pub open spec fn input_vec_ok(self, s: Seq<i128>) -> bool {
        &&& s.len() <= 1024
        &&& forall|i: int| 0 <= i < s.len() ==> self.input_ok(#[trigger] s[i] as int)
    }

    pub fn new(precision_bits: u32, lookup_bits: usize) -> (r: Self)
        requires
            1 <= precision_bits <= 48,
        ensures
            r.wf(),
            r == (FixedPointChip { precision_bits, lookup_bits }),
    {
        FixedPointChip { precision_bits, lookup_bits }
    }

    /// The chip at the default precision of 32 bits.
    pub fn default(lookup_bits: usize) -> (r: Self)
        ensures
            r.wf(),
            r == (FixedPointChip { precision_bits: 32u32, lookup_bits }),
    {
        FixedPointChip { precision_bits: 32, lookup_bits }
    }

    /// The scale `2^P` as a runtime value.
    pub fn scale_exec(&self) -> (s: i128)
        requires
            self.wf(),
        ensures
            s == self.scale(),
            s >= 2,
    {
        proof {
            lemma2_to64();
            lemma2_to64_rest();
            if self.p() < 49 {
                vstd::arithmetic::power2::lemma_pow2_strictly_increases(self.p(), 49);
            }
            if 1 < self.p() {
                vstd::arithmetic::power2::lemma_pow2_strictly_increases(1, self.p());
            }
            lemma_u64_shl_is_mul(1u64, self.precision_bits as u64);
        }
        (1u64 << self.precision_bits) as i128
    }

    /// What `qmul` returns: the product rescaled by one floor division.
    pub open spec fn qmul_v(self, a: int, b: int) -> int {
        (a * b) / self.scale()
    }

    /// What `qdiv` returns: the scaled dividend floor-divided by the divisor.
    pub open spec fn qdiv_v(self, a: int, b: int) -> int {
        (a * self.scale()) / b
    }

    /// Native addition of two quantized scalars; exact, no rescaling.
    pub fn qadd(&self, a: i128, b: i128) -> (r: i128)
        requires
            i128::MIN <= a + b <= i128::MAX,
        ensures
            r == a + b,
    {
        a + b
    }

    /// Native subtraction of two quantized scalars; exact, no rescaling.
    pub fn qsub(&self, a: i128, b: i128) -> (r: i128)
        requires
            i128::MIN <= a - b <= i128::MAX,
        ensures
            r == a - b,
    {
        a - b
    }

    /// Quantized multiplication: `a * b` followed by the constrained division
    /// by `2^P` that restores the scale.  The one floor division is the only
    /// rounding step.
    pub fn qmul(&self, a: i128, b: i128) -> (r: i128)
        requires
            self.wf(),
            -pow2_int(126) <= a * b <= pow2_int(126),
        ensures
            r == self.qmul_v(a as int, b as int),
            -pow2_int(126) <= r <= pow2_int(126),
    {
        proof {
            lemma_pow2_127();
        }
        let s = self.scale_exec();
        let prod = a * b;
        proof {
            lemma_div_bounded(prod as int, s as int, pow2_int(126));
        }
        prod.checked_div_euclid(s).unwrap()
    }

    /// Quantized division: `(a * 2^P) / b` as one constrained floor division.
    /// The divisor must not be zero; a zero divisor is an arithmetic-domain
    /// violation the circuit cannot recover from.
    pub fn qdiv(&self, a: i128, b: i128) -> (r: i128)
        requires
            self.wf(),
            b != 0,
            -pow2_int(126) <= a * self.scale() <= pow2_int(126),
        ensures
            r == self.qdiv_v(a as int, b as int),
            -pow2_int(126) <= r <= pow2_int(126),
    {
        proof {
            lemma_pow2_127();
        }
        let s = self.scale_exec();
        let num = a * s;
        proof {
            if b >= 1 {
                lemma_div_bounded(num as int, b as int, pow2_int(126));
            } else {
                lemma_div_bounded_neg(num as int, b as int, pow2_int(126));
            }
        }
        num.checked_div_euclid(b).unwrap()
    }

    /// Absolute value, as the circuit's `select(a, -a, is_negative(a))`.
    pub fn qabs(&self, a: i128) -> (r: i128)
        requires
            a != i128::MIN,
        ensures
            r == abs_v(a as int),
    {
        if a >= 0 {
            a
        } else {
            -a
        }
    }

    /// Minimum of two quantized scalars, as the circuit's
    /// `select(a, b, is_less_than(a, b))`.
    pub fn qmin(&self, a: i128, b: i128) -> (r: i128)
        ensures
            r == min_v(a as int, b as int),
    {
        if a <= b {
            a
        } else {
            b
        }
    }

    /// Equality indicator: a native `1` when the two field values coincide,
    /// else `0`.
    pub fn is_equal(&self, a: i128, b: i128) -> (r: i128)
        ensures
            r == ind_v(a as int, b as int),
    {
        if a == b {
            1
        } else {
            0
        }
    }

    /// Zero indicator: a native `1` when the field value is zero.
    pub fn is_zero(&self, a: i128) -> (r: i128)
        ensures
            r == ind_v(a as int, 0),
    {
        if a == 0 {
            1
        } else {
            0
        }
    }

    /// Affine selection by a boolean indicator: `a` if `sel` is `1`, else `b`.
    pub fn select(&self, a: i128, b: i128, sel: i128) -> (r: i128)
        requires
            sel == 0 || sel == 1,
        ensures
            r == select_v(a as int, b as int, sel as int),
    {
        if sel == 1 {
            a
        } else {
            b
        }
    }
}

/// Euclidean division by a negative divisor keeps a value inside a symmetric
/// bound.
pub proof fn lemma_div_bounded_neg(x: int, d: int, b: int)
    requires
        d <= -1,
        0 <= b,
        -b <= x <= b,
    ensures
        -b <= x / d <= b,
{
    lemma_fundamental_div_mod(x, d);
    let q = x / d;
    let r = x % d;
    assert(0 <= r < -d);
    assert(-b <= q <= b) by (nonlinear_arith)
        requires
            x == d * q + r,
            0 <= r < -d,
            d <= -1,
            0 <= b,
            -b <= x <= b,
    ;
}

pub open spec fn abs_v(a: int) -> int {
    if a >= 0 {
        a
    } else {
        -a
    }
}

pub open spec fn min_v(a: int, b: int) -> int {
    if a <= b {
        a
    } else {
        b
    }
}

/// The 0/1 indicator of `a == b`.
pub open spec fn ind_v(a: int, b: int) -> int {
    if a == b {
        1
    } else {
        0
    }
}

pub open spec fn select_v(a: int, b: int, sel: int) -> int {
    if sel == 1 {
        a
    } else {
        b
    }
}

/// The mathematical values of a vector of quantized scalars.
pub open spec fn ints_of(s: Seq<i128>) -> Seq<int> {
    s.map_values(|x: i128| x as int)
}

/// The mathematical values of a database of quantized vectors.
pub open spec fn rows_of(v: Seq<Vec<i128>>) -> Seq<Seq<int>> {
    v.map_values(|r: Vec<i128>| ints_of(r@))
}

/// Sum of a sequence, accumulated left to right.
pub open spec fn seq_sum(s: Seq<int>) -> int
    decreases s.len(),
{
    if s.len() == 0 {
        0
    } else {
        seq_sum(s.drop_last()) + s.last()
    }
}

/// Inner product of two sequences of equal length, before rescaling.
pub open spec fn dot(a: Seq<int>, b: Seq<int>) -> int
    recommends
        a.len() == b.len(),
    decreases a.len(),
{
    if a.len() == 0 || b.len() == 0 {
        0
    } else {
        dot(a.drop_last(), b.drop_last()) + a.last() * b.last()
    }
}

/// The floor of the square root of a non-negative integer.
pub open spec fn sqrt_floor(n: int) -> int
    decreases n,
{
    if n <= 0 {
        0
    } else {
        let s = sqrt_floor(n - 1);
        if (s + 1) * (s + 1) <= n {
            s + 1
        } else {
            s
        }
    }
}

/// `sqrt_floor(n)` is the unique non-negative integer whose square is at
/// most `n` while the next square exceeds `n`.
pub proof fn lemma_sqrt_floor_bounds(n: int)
    requires
        0 <= n,
    ensures
        0 <= sqrt_floor(n),
        sqrt_floor(n) * sqrt_floor(n) <= n,
        n < (sqrt_floor(n) + 1) * (sqrt_floor(n) + 1),
    decreases n,
{
    if n > 0 {
        lemma_sqrt_floor_bounds(n - 1);
        let s = sqrt_floor(n - 1);
        if (s + 1) * (s + 1) <= n {
            assert(n == (s + 1) * (s + 1));
            assert((s + 1) * (s + 1) < (s + 2) * (s + 2)) by (nonlinear_arith)
                requires 0 <= s;
        }
    }
}

/// The floor square root is never negative.
pub proof fn lemma_sqrt_floor_nonneg(n: int)
    ensures
        0 <= sqrt_floor(n),
{
    if n > 0 {
        lemma_sqrt_floor_bounds(n);
    }
}

pub proof fn lemma_sqrt_floor_unique(n: int, r: int)
    requires
        0 <= n,
        0 <= r,
        r * r <= n,
        n < (r + 1) * (r + 1),
    ensures
        r == sqrt_floor(n),
{
    let s = sqrt_floor(n);
    lemma_sqrt_floor_bounds(n);
    if r < s {
        assert((r + 1) * (r + 1) <= s * s) by (nonlinear_arith)
            requires 0 <= r < s;
        assert(false);
    }
    if s < r {
        assert((s + 1) * (s + 1) <= r * r) by (nonlinear_arith)
            requires 0 <= s < r;
        assert(false);
    }
}

/// Binary search for the integer square root.
fn isqrt(n: u128) -> (r: u128)
    requires
        n <= 0x40000000000000000000000000000000,
    ensures
        r as int == sqrt_floor(n as int),
{
    if n < 2 {
        proof {
            if n == 0 {
                lemma_sqrt_floor_unique(0, 0);
            } else {
                lemma_sqrt_floor_unique(1, 1);
            }
        }
        return n;
    }
    let mut lo: u128 = 1;
    let mut hi: u128 = 0x8000000000000001;
    proof {
        assert(hi * hi > n) by (nonlinear_arith)
            requires hi == 0x8000000000000001u128 && n <= 0x40000000000000000000000000000000;
    }
    while hi - lo > 1
        invariant
            1 <= lo < hi <= 0x8000000000000001,
            (lo as int) * (lo as int) <= n as int,
            (n as int) < (hi as int) * (hi as int),
        decreases hi - lo,
    {
        let mid = lo + (hi - lo) / 2;
        proof {
            assert(mid * mid <= 0x8000000000000000u128 * 0x8000000000000000u128)
                by (nonlinear_arith)
                requires 0 < mid <= 0x8000000000000000u128;
        }
        if mid * mid <= n {
            lo = mid;
        } else {
            hi = mid;
        }
    }
    proof {
        lemma_sqrt_floor_unique(n as int, lo as int);
    }
    lo
}

impl FixedPointChip {
    /// Sum of a vector of scalars, as the circuit's running-sum gate.
    pub fn sum(&self, v: &Vec<i128>) -> (r: i128)
        requires
            v@.len() <= 1024,
            forall|i: int|
                0 <= i < v@.len() ==> -pow2_int(116) <= #[trigger] v@[i] <= pow2_int(116),
        ensures
            r == seq_sum(ints_of(v@)),
            -pow2_int(126) <= r <= pow2_int(126),
    {
        proof {
            lemma_pow2_127();
            lemma_pow2_116_to_126();
        }
        let ghost s = ints_of(v@);
        let mut acc: i128 = 0;
        let mut i: usize = 0;
        while i < v.len()
            invariant
                0 <= i <= v@.len() <= 1024,
                s == ints_of(v@),
                forall|j: int|
                    0 <= j < v@.len() ==> -pow2_int(116) <= #[trigger] v@[j] <= pow2_int(116),
                acc == seq_sum(s.take(i as int)),
                -((i as int) * pow2_int(116)) <= acc <= (i as int) * pow2_int(116),
                pow2_int(116) * 1024 == pow2_int(126),
            decreases v@.len() - i,
        {
            proof {
                assert(s.take(i + 1).drop_last() =~= s.take(i as int));
                assert(s.take(i + 1).last() == v@[i as int] as int);
                lemma_sum_step_bound(i as int, acc as int, v@[i as int] as int);
                lemma_mul_le_1024(i + 1);
                lemma_pow2_127();
            }
            acc = acc + v[i];
            i = i + 1;
        }
        proof {
            assert(s.take(v@.len() as int) =~= s);
            lemma_mul_le_1024(i as int);
        }
        acc
    }

    /// Quantized inner product: the raw field inner product followed by one
    /// rescaling floor division by `2^P`.
    pub fn inner_product(&self, a: &Vec<i128>, b: &Vec<i128>) -> (r: i128)
        requires
            self.wf(),
            a@.len() == b@.len() <= 1024,
            forall|i: int|
                0 <= i < a@.len()
                    ==> -pow2_int(116) <= #[trigger] (a@[i] * b@[i]) <= pow2_int(116),
        ensures
            r == dot(ints_of(a@), ints_of(b@)) / self.scale(),
            -pow2_int(126) <= r <= pow2_int(126),
    {
        proof {
            lemma_pow2_127();
            lemma_pow2_116_to_126();
        }
        let ghost sa = ints_of(a@);
        let ghost sb = ints_of(b@);
        let mut acc: i128 = 0;
        let mut i: usize = 0;
        while i < a.len()
            invariant
                0 <= i <= a@.len() == b@.len() <= 1024,
                sa == ints_of(a@),
                sb == ints_of(b@),
                forall|j: int|
                    0 <= j < a@.len()
                        ==> -pow2_int(116) <= #[trigger] (a@[j] * b@[j]) <= pow2_int(116),
                acc == dot(sa.take(i as int), sb.take(i as int)),
                -((i as int) * pow2_int(116)) <= acc <= (i as int) * pow2_int(116),
                pow2_int(116) * 1024 == pow2_int(126),
            decreases a@.len() - i,
        {
            proof {
                assert(sa.take(i + 1).drop_last() =~= sa.take(i as int));
                assert(sb.take(i + 1).drop_last() =~= sb.take(i as int));
                assert(sa.take(i + 1).last() == a@[i as int] as int);
                assert(sb.take(i + 1).last() == b@[i as int] as int);
                lemma_sum_step_bound(i as int, acc as int, a@[i as int] * b@[i as int]);
                lemma_mul_le_1024(i + 1);
                lemma_pow2_127();
            }
            acc = acc + a[i] * b[i];
            i = i + 1;
        }
        proof {
            assert(sa.take(a@.len() as int) =~= sa);
            assert(sb.take(b@.len() as int) =~= sb);
            lemma_mul_le_1024(i as int);
            vstd::arithmetic::power2::lemma_pow2_pos(self.p());
            lemma_div_bounded(acc as int, self.scale(), pow2_int(126));
        }
        let s = self.scale_exec();
        acc.checked_div_euclid(s).unwrap()
    }

    /// Quantized square root: the non-negative `r` with
    /// `r * r <= a * 2^P < (r + 1) * (r + 1)`, so that `r` approximates
    /// `sqrt(a)` in quantized units.  The argument must be non-negative.
    pub fn qsqrt(&self, a: i128) -> (r: i128)
        requires
            self.wf(),
            0 <= a,
            a * self.scale() <= pow2_int(126),
        ensures
            r == sqrt_floor(a * self.scale()),
            0 <= r <= pow2_int(63),
    {
        proof {
            lemma_pow2_127();
            vstd::arithmetic::mul::lemma_mul_nonnegative(a as int, self.scale());
        }
        let s = self.scale_exec();
        let n = a * s;
        let root = isqrt(n as u128);
        proof {
            lemma_sqrt_floor_bounds(n as int);
            lemma2_to64();
            lemma2_to64_rest();
            lemma_pow2_adds(63, 63);
            assert(sqrt_floor(n as int) <= pow2_int(63)) by (nonlinear_arith)
                requires
                    sqrt_floor(n as int) * sqrt_floor(n as int) <= n as int,
                    0 <= sqrt_floor(n as int),
                    n as int <= pow2_int(126),
                    pow2_int(126) == pow2_int(63) * pow2_int(63),
            ;
        }
        root as i128
    }
}

/// One accumulation step stays within the running magnitude bound.
proof fn lemma_sum_step_bound(i: int, acc: int, term: int)
    requires
        0 <= i,
        -((i) * pow2_int(116)) <= acc <= i * pow2_int(116),
        -pow2_int(116) <= term <= pow2_int(116),
    ensures
        -((i + 1) * pow2_int(116)) <= acc + term <= (i + 1) * pow2_int(116),
{
    let c = pow2_int(116);
    assert(-((i + 1) * c) <= acc + term <= (i + 1) * c) by (nonlinear_arith)
        requires
            -((i) * c) <= acc <= i * c,
            -c <= term <= c,
    ;
}

/// A count of at most 1024 terms keeps the accumulator within `pow2(126)`.
proof fn lemma_mul_le_1024(i: int)
    requires
        0 <= i <= 1024,
    ensures
        i * pow2_int(116) <= 1024 * pow2_int(116),
{
    vstd::arithmetic::power2::lemma_pow2_pos(116);
    vstd::arithmetic::mul::lemma_mul_inequality(i, 1024, pow2_int(116));
}

/// Monotonicity of `pow2` on `int`.
pub proof fn lemma_pow2_le(e1: nat, e2: nat)
    requires
        e1 <= e2,
    ensures
        0 < pow2_int(e1) <= pow2_int(e2),
{
    vstd::arithmetic::power2::lemma_pow2_pos(e1);
    if e1 < e2 {
        vstd::arithmetic::power2::lemma_pow2_strictly_increases(e1, e2);
    }
}

/// A product of two bounded factors is bounded by the product of the bounds.
pub proof fn lemma_product_bound(x: int, y: int, bx: int, by: int)
    requires
        0 <= bx,
        0 <= by,
        -bx <= x <= bx,
        -by <= y <= by,
    ensures
        -(bx * by) <= x * y <= bx * by,
{
    assert(-(bx * by) <= x * y <= bx * by) by (nonlinear_arith)
        requires
            0 <= bx,
            0 <= by,
            -bx <= x <= bx,
            -by <= y <= by,
    ;
}

/// A sum of terms that all lie in `[lo, hi]` lies in `[len * lo, len * hi]`.
pub proof fn lemma_seq_sum_bounds(s: Seq<int>, lo: int, hi: int)
    requires
        forall|i: int| 0 <= i < s.len() ==> lo <= #[trigger] s[i] <= hi,
    ensures
        (s.len() as int) * lo <= seq_sum(s) <= (s.len() as int) * hi,
    decreases s.len(),
{
    if s.len() == 0 {
    } else {
        lemma_seq_sum_bounds(s.drop_last(), lo, hi);
        let n = s.len() as int;
        assert((n - 1) * lo + lo == n * lo) by (nonlinear_arith);
        assert((n - 1) * hi + hi == n * hi) by (nonlinear_arith);
    }
}

/// An inner product whose per-index products all lie within `c` in magnitude
/// lies within `len * c`.
pub proof fn lemma_dot_bound(a: Seq<int>, b: Seq<int>, c: int)
    requires
        a.len() == b.len(),
        0 <= c,
        forall|i: int| 0 <= i < a.len() ==> -c <= #[trigger] (a[i] * b[i]) <= c,
    ensures
        -((a.len() as int) * c) <= dot(a, b) <= (a.len() as int) * c,
    decreases a.len(),
{
    if a.len() == 0 {
    } else {
        lemma_dot_bound(a.drop_last(), b.drop_last(), c);
        let n = a.len() as int;
        assert(a.drop_last().len() == n - 1);
        assert(forall|i: int|
            0 <= i < n - 1 ==> a.drop_last()[i] * b.drop_last()[i] == #[trigger] (a[i] * b[i]));
        assert(a.last() * b.last() == a[n - 1] * b[n - 1]);
        assert((n - 1) * c + c == n * c) by (nonlinear_arith);
    }
}

/// The inner product of a sequence with itself is non-negative.
pub proof fn lemma_dot_self_nonneg(s: Seq<int>)
    ensures
        0 <= dot(s, s),
    decreases s.len(),
{
    if s.len() > 0 {
        lemma_dot_self_nonneg(s.drop_last());
        assert(0 <= s.last() * s.last()) by (nonlinear_arith);
    }
}

/// `1024` copies of `pow2(e)` stay within `pow2(126)` for `e` up to 116.
pub proof fn lemma_pow2_mul_1024(e: nat)
    requires
        e <= 116,
    ensures
        1024 * pow2_int(e) == pow2_int(e + 10),
        pow2_int(e + 10) <= pow2_int(126),
{
    lemma2_to64();
    lemma_pow2_adds(e, 10);
    lemma_pow2_le(e + 10, 126);
}

/// `1024` copies of `pow2(116)` fill `pow2(126)` exactly.
proof fn lemma_pow2_116_to_126()
    ensures
        pow2_int(116) * 1024 == pow2_int(126),
{
    lemma2_to64();
    lemma_pow2_adds(116, 10);
}

} // verus!
