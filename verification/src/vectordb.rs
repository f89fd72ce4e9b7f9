//! Vector-database gadgets: exhaustive nearest-vector search, in-circuit
//! Merkle commitment, and fixed-iteration k-means clustering.
//!
//! Nothing here branches on a secret value: the minimum is reduced with
//! `qmin` over every candidate, the matching vector is rebuilt through a
//! select-by-indicator sum, and when several distances tie with the minimum
//! the indicator has several ones and the rebuilt vector is the sum of all
//! tied candidates — the literal gate behaviour.

use vstd::prelude::*;

use crate::distance::{
    cosine_den_v, cosine_dist_v, euclid_v, hamming_dist_v, manhattan_v, DistanceChip,
    DistanceStrategy,
};
use crate::felt::{
    digest_of_quantized, digest_spec, felt_of, lemma_digest_from_value, limbs_of, zero_digest,
    Digest,
};
use crate::fixed_point::{ind_v, ints_of, min_v, rows_of, FixedPointChip};
use crate::sponge::{poseidon_hash, poseidon_of};
use crate::{pow2_int, GadgetError};

verus! {

/// How the database gadgets arrange their gates in the circuit.
#[derive(Clone, Copy, Debug, PartialEq, Eq, Structural)]
pub enum VectorDBStrategy {
    Vertical,
}

/// The distance gadget a database operation is parameterised by.  The
/// circuit cannot take a function as witness data, so the choice is a public
/// configuration value.
#[derive(Clone, Copy, Debug, PartialEq, Eq, Structural)]
pub enum Metric {
    Euclidean,
    Manhattan,
    Hamming,
    Cosine,
}

/// The value of the chosen distance gadget on two equal-length vectors.
pub open spec fn metric_v(p: nat, m: Metric, a: Seq<int>, b: Seq<int>) -> int {
    match m {
        Metric::Euclidean => euclid_v(p, a, b),
        Metric::Manhattan => manhattan_v(a, b),
        Metric::Hamming => hamming_dist_v(p, a, b),
        Metric::Cosine => cosine_dist_v(p, a, b),
    }
}

/// The arithmetic domain of the chosen gadget: Hamming needs a non-empty
/// vector, cosine a non-zero denominator.
pub open spec fn metric_ok(p: nat, m: Metric, a: Seq<int>, b: Seq<int>) -> bool {
    match m {
        Metric::Euclidean => true,
        Metric::Manhattan => true,
        Metric::Hamming => a.len() == b.len() ==> a.len() >= 1,
        Metric::Cosine => a.len() == b.len() ==> cosine_den_v(p, a, b) != 0,
    }
}

/// Evaluates the chosen distance gadget.
pub(crate) fn metric_core(
    chip: &FixedPointChip,
    metric: Metric,
    a: &Vec<i128>,
    b: &Vec<i128>,
) -> (r: Result<i128, GadgetError>)
    requires
        chip.wf(),
        chip.vec_ok(a@),
        chip.vec_ok(b@),
        metric_ok(chip.p(), metric, ints_of(a@), ints_of(b@)),
    ensures
        r is Ok <==> a@.len() == b@.len(),
        r is Ok ==> r->Ok_0 == metric_v(chip.p(), metric, ints_of(a@), ints_of(b@)),
        r is Err ==> r->Err_0 == GadgetError::LengthMismatch,
{
    let dchip = DistanceChip::new(DistanceStrategy::Vertical, *chip);
    match metric {
        Metric::Euclidean => dchip.euclidean_distance(a, b),
        Metric::Manhattan => dchip.manhattan_distance(a, b),
        Metric::Hamming => dchip.hamming_distance(a, b),
        Metric::Cosine => dchip.cosine_distance(a, b),
    }
}

/// The least element of a non-empty sequence, reduced left to right with
/// `qmin`.
pub open spec fn seq_min(s: Seq<int>) -> int
    recommends
        s.len() >= 1,
    decreases s.len(),
{
    if s.len() <= 1 {
        s[0]
    } else {
        min_v(seq_min(s.drop_last()), s.last())
    }
}

/// `seq_min` is a lower bound attained by some element.
pub proof fn lemma_seq_min(s: Seq<int>)
    requires
        s.len() >= 1,
    ensures
        forall|i: int| 0 <= i < s.len() ==> seq_min(s) <= #[trigger] s[i],
        exists|i: int| 0 <= i < s.len() && seq_min(s) == #[trigger] s[i],
    decreases s.len(),
{
    if s.len() == 1 {
        assert(seq_min(s) == s[0]);
    } else {
        lemma_seq_min(s.drop_last());
        assert(forall|i: int| 0 <= i < s.len() - 1 ==> s.drop_last()[i] == #[trigger] s[i]);
        if seq_min(s) == s.last() {
            assert(seq_min(s) == s[s.len() - 1]);
        } else {
            let j = choose|j: int|
                0 <= j < s.drop_last().len() && seq_min(s.drop_last()) == #[trigger] s.drop_last()[j];
            assert(seq_min(s) == s[j]);
        }
    }
}

/// The distances of a query to every database vector, in database order.
pub open spec fn dists_v(p: nat, m: Metric, q: Seq<int>, vs: Seq<Seq<int>>) -> Seq<int> {
    Seq::new(vs.len(), |i: int| metric_v(p, m, vs[i], q))
}

/// The component `j` of the select-by-indicator sum: every database vector
/// weighted by its 0/1 indicator.
pub open spec fn sel_sum(vs: Seq<Seq<int>>, ind: Seq<int>, j: int) -> int
    recommends
        vs.len() == ind.len(),
    decreases vs.len(),
{
    if vs.len() == 0 || ind.len() == 0 {
        0
    } else {
        sel_sum(vs.drop_last(), ind.drop_last(), j) + ind.last() * vs.last()[j]
    }
}

/// The indicator row of a distance list: native `1` where the distance
/// equals the minimum.
pub open spec fn min_indicator(ds: Seq<int>) -> Seq<int> {
    Seq::new(ds.len(), |i: int| ind_v(ds[i], seq_min(ds)))
}

/// A thin composition wrapper: a database strategy together with a borrowed
/// fixed-point chip.
#[derive(Clone, Copy, Debug)]
pub struct VectorDBChip<'a> {
    pub strategy: VectorDBStrategy,
    pub fixed_point_gate: &'a FixedPointChip,
}

impl<'a> VectorDBChip<'a> {
    pub open spec fn wf(self) -> bool {
        self.fixed_point_gate.wf()
    }

    pub open spec fn p(self) -> nat {
        self.fixed_point_gate.p()
    }

    pub fn new(strategy: VectorDBStrategy, fixed_point_gate: &'a FixedPointChip) -> (r: Self)
        ensures
            r == (VectorDBChip { strategy, fixed_point_gate }),
    {
        VectorDBChip { strategy, fixed_point_gate }
    }

    pub fn default(fixed_point_gate: &'a FixedPointChip) -> (r: Self)
        ensures
            r == (VectorDBChip { strategy: VectorDBStrategy::Vertical, fixed_point_gate }),
    {
        Self::new(VectorDBStrategy::Vertical, fixed_point_gate)
    }

    pub fn fixed_point_gate(&self) -> (r: &FixedPointChip)
        ensures
            r == self.fixed_point_gate,
    {
        self.fixed_point_gate
    }

    pub fn strategy(&self) -> (r: VectorDBStrategy)
        ensures
            r == self.strategy,
    {
        self.strategy
    }

    /// Exhaustive nearest-vector search: the distance to every database
    /// vector, the reduced minimum, a per-vector equality indicator against
    /// that minimum, and the select-by-indicator reconstruction.  Returns
    /// the indicator and the reconstructed vector; with a tie, the
    /// indicator has several ones and the reconstruction is the sum of the
    /// tied vectors.
    #[verifier::loop_isolation(false)]
    pub fn nearest_vector(
        &self,
        query: &Vec<i128>,
        vectors: &Vec<Vec<i128>>,
        metric: Metric,
    ) -> (r: Result<(Vec<i128>, Vec<i128>), GadgetError>)
        requires
            self.wf(),
            self.fixed_point_gate.vec_ok(query@),
            vectors@.len() <= 1024,
            forall|i: int|
                0 <= i < vectors@.len()
                    ==> self.fixed_point_gate.vec_ok(#[trigger] vectors@[i]@),
            forall|i: int|
                0 <= i < vectors@.len()
                    ==> metric_ok(
                    self.p(),
                    metric,
                    ints_of(#[trigger] vectors@[i]@),
                    ints_of(query@),
                ),
        ensures
            r is Ok <==> (vectors@.len() >= 1 && forall|i: int|
                0 <= i < vectors@.len() ==> (#[trigger] vectors@[i]@).len() == query@.len()),
            r is Err ==> (r->Err_0 == GadgetError::EmptyInput <==> vectors@.len() == 0),
            r is Err && vectors@.len() >= 1 ==> r->Err_0 == GadgetError::LengthMismatch,
            r is Ok ==> {
                let ds = dists_v(self.p(), metric, ints_of(query@), rows_of(vectors@));
                &&& ints_of(r->Ok_0.0@) == min_indicator(ds)
                &&& r->Ok_0.1@.len() == query@.len()
                &&& forall|j: int|
                    0 <= j < query@.len()
                        ==> ints_of(r->Ok_0.1@)[j] == sel_sum(
                        rows_of(vectors@),
                        min_indicator(ds),
                        j,
                    )
            },
    {
        if vectors.len() == 0 {
            return Err(GadgetError::EmptyInput);
        }
        let chip = self.fixed_point_gate;
        let ghost vsm = rows_of(vectors@);
        let ghost qm = ints_of(query@);
        let ghost ds = dists_v(self.p(), metric, qm, vsm);

        // Distance of the query to every vector; a length mismatch surfaces
        // here, as it does when the circuit is laid out.
        let mut distances: Vec<i128> = Vec::new();
        let mut i: usize = 0;
        while i < vectors.len()
            invariant
                0 <= i <= vectors@.len(),
                forall|t: int|
                    0 <= t < i ==> (#[trigger] vectors@[t]@).len() == query@.len(),
                distances@.len() == i,
                forall|t: int| 0 <= t < i ==> #[trigger] distances@[t] == ds[t],
            decreases vectors@.len() - i,
        {
            let d = match metric_core(chip, metric, &vectors[i], query) {
                Ok(d) => d,
                Err(e) => {
                    return Err(e);
                },
            };
            distances.push(d);
            i = i + 1;
        }
        proof {
            assert(ints_of(distances@) =~= ds);
        }

        // Reduce to the minimum with `qmin`.
        let mut min: i128 = distances[0];
        let mut i: usize = 1;
        while i < distances.len()
            invariant
                1 <= i <= distances@.len(),
                distances@.len() == vectors@.len(),
                forall|t: int| 0 <= t < distances@.len() ==> #[trigger] distances@[t] == ds[t],
                min == seq_min(ds.take(i as int)),
            decreases distances@.len() - i,
        {
            proof {
                assert(ds.take(i + 1).drop_last() =~= ds.take(i as int));
            }
            min = self.fixed_point_gate.qmin(min, distances[i]);
            i = i + 1;
        }
        proof {
            assert(ds.take(ds.len() as int) =~= ds);
        }

        // Equality indicator of every distance against the minimum.
        let mut indicator: Vec<i128> = Vec::new();
        let mut i: usize = 0;
        while i < distances.len()
            invariant
                0 <= i <= distances@.len(),
                distances@.len() == vectors@.len(),
                forall|t: int| 0 <= t < distances@.len() ==> #[trigger] distances@[t] == ds[t],
                min == seq_min(ds),
                indicator@.len() == i,
                forall|t: int|
                    0 <= t < i ==> #[trigger] indicator@[t] == ind_v(ds[t], seq_min(ds)),
            decreases distances@.len() - i,
        {
            let e = self.fixed_point_gate.is_equal(min, distances[i]);
            indicator.push(e);
            i = i + 1;
        }
        proof {
            assert(ints_of(indicator@) =~= min_indicator(ds));
        }

        // Select-by-indicator: each component is the indicator-weighted sum
        // over the database.
        let dims = vectors[0].len();
        let mut result: Vec<i128> = Vec::new();
        let mut j: usize = 0;
        while j < dims
            invariant
                0 <= j <= dims,
                dims == query@.len(),
                forall|t: int|
                    0 <= t < vectors@.len() ==> (#[trigger] vectors@[t]@).len() == query@.len(),
                indicator@.len() == vectors@.len(),
                forall|t: int|
                    0 <= t < vectors@.len() ==> #[trigger] indicator@[t] == ind_v(
                        ds[t],
                        seq_min(ds),
                    ),
                result@.len() == j,
                forall|t: int|
                    0 <= t < j ==> #[trigger] result@[t] as int == sel_sum(
                        vsm,
                        min_indicator(ds),
                        t,
                    ),
            decreases dims - j,
        {
            let c = self.select_component(vectors, &indicator, j, Ghost(ds));
            result.push(c);
            j = j + 1;
        }
        proof {
            assert(forall|t: int|
                0 <= t < query@.len() ==> ints_of(result@)[t] == sel_sum(
                    rows_of(vectors@),
                    min_indicator(ds),
                    t,
                ));
        }
        Ok((indicator, result))
    }

    /// Commits to a database of vectors: every vector is hashed to one leaf,
    /// the leaf list is zero-padded up to the next power of two, and
    /// adjacent leaves are hashed pairwise until one root remains.  The root
    /// is order- and padding-sensitive.
    #[verifier::loop_isolation(false)]
    pub fn merkle_commitment(&self, vectors: &Vec<Vec<i128>>) -> (r: Result<Digest, GadgetError>)
        requires
            self.wf(),
            vectors@.len() <= 1024,
            forall|i: int| 0 <= i < vectors@.len() ==> hashable(#[trigger] vectors@[i]@),
        ensures
            r is Ok <==> vectors@.len() >= 1,
            r is Err ==> r->Err_0 == GadgetError::EmptyInput,
            r is Ok ==> r->Ok_0 == merkle_root_v(rows_of(vectors@)) && r->Ok_0.valid(),
    {
        if vectors.len() == 0 {
            return Err(GadgetError::EmptyInput);
        }
        let ghost hsm = rows_of(vectors@).map_values(|v: Seq<int>| leaf_of_vector(v));

        // Hash every vector to one leaf.
        let mut leaves: Vec<Digest> = Vec::new();
        let mut i: usize = 0;
        while i < vectors.len()
            invariant
                0 <= i <= vectors@.len(),
                leaves@.len() == i,
                forall|t: int| 0 <= t < i ==> #[trigger] leaves@[t] == hsm[t],
                forall|t: int| 0 <= t < i ==> (#[trigger] leaves@[t]).valid(),
            decreases vectors@.len() - i,
        {
            let h = leaf_hash_exec(&vectors[i]);
            leaves.push(h);
            i = i + 1;
        }

        // Extend with zero leaves so the leaf count is a power of two.
        let n = leaves.len();
        let mut cand: usize = 1;
        let ghost mut e: nat = 0;
        proof {
            vstd::arithmetic::power2::lemma2_to64();
        }
        while cand < n
            invariant
                1 <= cand,
                cand < 2 * n,
                cand as nat == vstd::arithmetic::power2::pow2(e),
            decreases 2 * n - cand,
        {
            proof {
                vstd::arithmetic::power2::lemma_pow2_adds(e, 1);
                vstd::arithmetic::power2::lemma2_to64();
                e = e + 1;
            }
            cand = cand * 2;
        }
        proof {
            lemma_next_pow2_unique(n as int, e);
        }
        while leaves.len() < cand
            invariant
                n <= leaves@.len() <= cand,
                forall|t: int| 0 <= t < n ==> #[trigger] leaves@[t] == hsm[t],
                forall|t: int| n <= t < leaves@.len() ==> #[trigger] leaves@[t] == zero_digest(),
                forall|t: int| 0 <= t < leaves@.len() ==> (#[trigger] leaves@[t]).valid(),
            decreases cand - leaves@.len(),
        {
            let z = Digest::zero();
            leaves.push(z);
        }
        proof {
            assert(leaves@ =~= hsm + Seq::new(
                (next_pow2(vectors@.len()) - vectors@.len()) as nat,
                |t: int| zero_digest(),
            ));
        }
        let root = merkle_reduce_exec(leaves, Ghost(e));
        Ok(root)
    }

    /// Fixed-iteration k-means: the first `k` database vectors seed the
    /// centroids; each iteration assigns every vector to its nearest
    /// centroid through a quantized one-hot indicator, then moves every
    /// centroid to the masked mean of its cluster.  Returns the final
    /// centroids and the last iteration's indicator rows.  A cluster left
    /// empty in some iteration is an arithmetic-domain violation (a zero
    /// divisor), excluded by `kmeans_ok`.
    #[verifier::loop_isolation(false)]
    pub fn kmeans(
        &self,
        vectors: &Vec<Vec<i128>>,
        metric: Metric,
        k: usize,
        iterations: usize,
    ) -> (r: Result<(Vec<Vec<i128>>, Vec<Vec<i128>>), GadgetError>)
        requires
            self.wf(),
            vectors@.len() <= 1024,
            forall|i: int|
                0 <= i < vectors@.len() ==> self.fixed_point_gate.input_vec_ok(
                    #[trigger] vectors@[i]@,
                ),
            (1 <= k < vectors@.len() && (forall|i: int|
                0 <= i < vectors@.len() ==> (#[trigger] vectors@[i]@).len()
                    == vectors@[0]@.len())) ==> kmeans_ok(
                self.p(),
                metric,
                rows_of(vectors@),
                k as nat,
                iterations as nat,
                vectors@[0]@.len(),
            ),
        ensures
            r is Ok <==> (1 <= k < vectors@.len() && (forall|i: int|
                0 <= i < vectors@.len() ==> (#[trigger] vectors@[i]@).len()
                    == vectors@[0]@.len())),
            r is Err ==> ((r->Err_0 == GadgetError::InvalidClusterCount) <==> !(1 <= k
                < vectors@.len())),
            r is Err && 1 <= k < vectors@.len() ==> r->Err_0 == GadgetError::LengthMismatch,
            r is Ok ==> {
                let p = self.p();
                let vsm = rows_of(vectors@);
                let dims = vectors@[0]@.len();
                &&& r->Ok_0.0@.len() == k
                &&& rows_of(r->Ok_0.0@) == kmeans_cs(
                    p,
                    metric,
                    vsm,
                    k as nat,
                    iterations as nat,
                    dims,
                )
                &&& (iterations == 0 ==> r->Ok_0.1@.len() == 0)
                &&& (iterations >= 1 ==> rows_of(r->Ok_0.1@) == kmeans_inds(
                    p,
                    metric,
                    vsm,
                    kmeans_cs(p, metric, vsm, k as nat, (iterations - 1) as nat, dims),
                ))
            },
    {
        if k == 0 || k >= vectors.len() {
            return Err(GadgetError::InvalidClusterCount);
        }
        let dims = vectors[0].len();
        let mut i: usize = 0;
        while i < vectors.len()
            invariant
                0 <= i <= vectors@.len(),
                dims == vectors@[0]@.len(),
                forall|t: int| 0 <= t < i ==> (#[trigger] vectors@[t]@).len() == dims,
            decreases vectors@.len() - i,
        {
            if vectors[i].len() != dims {
                return Err(GadgetError::LengthMismatch);
            }
            i = i + 1;
        }
        let chip = self.fixed_point_gate;
        let ghost p = self.p();
        let ghost vsm = rows_of(vectors@);
        proof {
            crate::fixed_point::lemma_pow2_le(p + 8, p + 9);
        }

        // The first `k` vectors seed the centroids.
        let mut centroids: Vec<Vec<i128>> = Vec::new();
        let mut j: usize = 0;
        while j < k
            invariant
                0 <= j <= k < vectors@.len(),
                centroids@.len() == j,
                forall|t: int| 0 <= t < j ==> (#[trigger] centroids@[t])@ == vectors@[t]@,
            decreases k - j,
        {
            let row = copy_vec(&vectors[j]);
            centroids.push(row);
            j = j + 1;
        }
        proof {
            assert(rows_of(centroids@) =~= vsm.take(k as int));
        }

        let mut cluster_inds: Vec<Vec<i128>> = Vec::new();
        let mut it: usize = 0;
        while it < iterations
            invariant
                0 <= it <= iterations,
                centroids@.len() == k,
                forall|t: int| 0 <= t < k ==> (#[trigger] centroids@[t]@).len() == dims,
                forall|t: int| 0 <= t < k ==> chip.input_vec_ok(#[trigger] centroids@[t]@),
                rows_of(centroids@) == kmeans_cs(p, metric, vsm, k as nat, it as nat, dims as nat),
                it == 0 ==> cluster_inds@.len() == 0,
                it >= 1 ==> rows_of(cluster_inds@) == kmeans_inds(
                    p,
                    metric,
                    vsm,
                    kmeans_cs(p, metric, vsm, k as nat, (it - 1) as nat, dims as nat),
                ),
            decreases iterations - it,
        {
            let ghost csm = rows_of(centroids@);
            proof {
                assert(kmeans_iter_ok(p, metric, vsm, k as nat, it as nat, dims as nat));
                assert forall|i2: int, j2: int|
                    0 <= i2 < vectors@.len() && 0 <= j2 < k implies metric_ok(
                    p,
                    metric,
                    ints_of(#[trigger] centroids@[j2]@),
                    ints_of(#[trigger] vectors@[i2]@),
                ) by {
                    assert(ints_of(centroids@[j2]@) == csm[j2]);
                    assert(ints_of(vectors@[i2]@) == vsm[i2]);
                    assert(metric_ok(p, metric, csm[j2], vsm[i2]));
                }
            }
            let inds = indicator_rows(chip, metric, vectors, &centroids, Ghost(dims as nat));
            let ghost im = rows_of(inds@);
            proof {
                crate::fixed_point::lemma_pow2_le(p, 48);
                assert(forall|i2: int, j2: int|
                    0 <= i2 < inds@.len() && 0 <= j2 < k ==> 0 <= #[trigger] inds@[i2]@[j2]
                        <= pow2_int(48));
            }
            let sizes = cluster_sizes(chip, &inds, k);
            let mut new_cs: Vec<Vec<i128>> = Vec::new();
            let mut j: usize = 0;
            while j < k
                invariant
                    0 <= j <= k,
                    new_cs@.len() == j,
                    inds@.len() == vectors@.len(),
                    im == rows_of(inds@),
                    csm == rows_of(centroids@),
                    sizes@.len() == k,
                    forall|t: int| 0 <= t < k ==> #[trigger] sizes@[t] == col_sum(im, t),
                    forall|i2: int| 0 <= i2 < inds@.len() ==> (#[trigger] inds@[i2]@).len() == k,
                    forall|i2: int, j2: int|
                        0 <= i2 < inds@.len() && 0 <= j2 < k
                            ==> (#[trigger] inds@[i2]@[j2] == pow2_int(p) || inds@[i2]@[j2] == 0),
                    forall|t: int|
                        0 <= t < j ==> ints_of((#[trigger] new_cs@[t])@) == kmeans_centroid(
                            p,
                            vsm,
                            im,
                            t,
                            dims as nat,
                        ),
                    forall|t: int| 0 <= t < j ==> (#[trigger] new_cs@[t]@).len() == dims,
                    forall|t: int| 0 <= t < j ==> chip.input_vec_ok(#[trigger] new_cs@[t]@),
                decreases k - j,
            {
                proof {
                    assert(col_sum(im, j as int) != 0);
                }
                let mean = masked_mean(chip, vectors, &inds, j, sizes[j], dims);
                new_cs.push(mean);
                j = j + 1;
            }
            proof {
                assert(rows_of(new_cs@) =~= kmeans_step(p, metric, vsm, csm, dims as nat));
            }
            centroids = new_cs;
            cluster_inds = inds;
            it = it + 1;
        }
        Ok((centroids, cluster_inds))
    }

    /// One component of the select-by-indicator sum.
    #[verifier::loop_isolation(false)]
    fn select_component(
        &self,
        vectors: &Vec<Vec<i128>>,
        indicator: &Vec<i128>,
        j: usize,
        Ghost(ds): Ghost<Seq<int>>,
    ) -> (c: i128)
        requires
            self.wf(),
            1 <= vectors@.len() <= 1024,
            indicator@.len() == vectors@.len(),
            forall|t: int|
                0 <= t < vectors@.len() ==> self.fixed_point_gate.vec_ok(
                    #[trigger] vectors@[t]@,
                ),
            forall|t: int| 0 <= t < vectors@.len() ==> j < (#[trigger] vectors@[t]@).len(),
            ds.len() == vectors@.len(),
            forall|t: int|
                0 <= t < vectors@.len() ==> #[trigger] indicator@[t] == ind_v(
                    ds[t],
                    seq_min(ds),
                ),
        ensures
            c as int == sel_sum(rows_of(vectors@), min_indicator(ds), j as int),
    {
        let ghost vsm = rows_of(vectors@);
        let ghost ind = min_indicator(ds);
        let ghost bound = pow2_int(self.p() + 9);
        let mut acc: i128 = 0;
        let mut i: usize = 0;
        while i < vectors.len()
            invariant
                0 <= i <= vectors@.len(),
                acc as int == sel_sum(vsm.take(i as int), ind.take(i as int), j as int),
                -((i as int) * bound) <= acc <= (i as int) * bound,
            decreases vectors@.len() - i,
        {
            proof {
                assert(vsm.take(i + 1).drop_last() =~= vsm.take(i as int));
                assert(ind.take(i + 1).drop_last() =~= ind.take(i as int));
                crate::fixed_point::lemma_pow2_127();
                crate::fixed_point::lemma_pow2_le(self.p() + 9, 116);
                assert(self.fixed_point_gate.elem_ok(vectors@[i as int]@[j as int] as int));
                assert(vsm[i as int][j as int] == vectors@[i as int]@[j as int] as int);
                let ghost term = ind[i as int] * vsm[i as int][j as int];
                assert(ind[i as int] == ind_v(ds[i as int], seq_min(ds)));
                assert(ind[i as int] == 0 || ind[i as int] == 1);
                assert(-bound <= term <= bound) by (nonlinear_arith)
                    requires
                        term == ind[i as int] * vsm[i as int][j as int],
                        ind[i as int] == 0 || ind[i as int] == 1,
                        -bound <= vsm[i as int][j as int] <= bound,
                ;
                lemma_step_bound(i as int, acc as int, term, bound);
                vstd::arithmetic::mul::lemma_mul_inequality(i + 1, 1024, bound);
                crate::fixed_point::lemma_pow2_mul_1024(self.p() + 9);
            }
            let w = indicator[i] * vectors[i][j];
            acc = acc + w;
            i = i + 1;
        }
        proof {
            assert(vsm.take(vsm.len() as int) =~= vsm);
            assert(ind.take(ind.len() as int) =~= ind);
        }
        acc
    }
}

/// A select-by-indicator sum over an all-zero indicator is zero.
proof fn lemma_sel_sum_zero(vs: Seq<Seq<int>>, ind: Seq<int>, j: int)
    requires
        vs.len() == ind.len(),
        forall|i: int| 0 <= i < ind.len() ==> #[trigger] ind[i] == 0,
    ensures
        sel_sum(vs, ind, j) == 0,
    decreases vs.len(),
{
    if vs.len() > 0 {
        lemma_sel_sum_zero(vs.drop_last(), ind.drop_last(), j);
        assert(ind.last() == ind[ind.len() - 1]);
    }
}

/// A select-by-indicator sum over a one-hot indicator picks out exactly the
/// selected vector's component.
proof fn lemma_sel_sum_onehot(vs: Seq<Seq<int>>, ind: Seq<int>, k0: int, j: int)
    requires
        vs.len() == ind.len(),
        0 <= k0 < vs.len(),
        ind[k0] == 1,
        forall|i: int| 0 <= i < ind.len() && i != k0 ==> #[trigger] ind[i] == 0,
    ensures
        sel_sum(vs, ind, j) == vs[k0][j],
    decreases vs.len(),
{
    let n = vs.len() as int;
    assert(ind.last() == ind[n - 1]);
    assert(vs.last() == vs[n - 1]);
    if k0 == n - 1 {
        lemma_sel_sum_zero(vs.drop_last(), ind.drop_last(), j);
    } else {
        lemma_sel_sum_onehot(vs.drop_last(), ind.drop_last(), k0, j);
    }
}

/// The inner product of an all-zero sequence with itself is zero.
proof fn lemma_dot_zero(s: Seq<int>)
    requires
        forall|i: int| 0 <= i < s.len() ==> #[trigger] s[i] == 0,
    ensures
        crate::fixed_point::dot(s, s) == 0,
    decreases s.len(),
{
    if s.len() > 0 {
        lemma_dot_zero(s.drop_last());
        assert(s.last() == s[s.len() - 1]);
    }
}

/// The Euclidean distance of a vector to itself is exactly zero.
pub proof fn lemma_euclid_self_zero(p: nat, q: Seq<int>)
    ensures
        euclid_v(p, q, q) == 0,
{
    let d = crate::distance::diff_seq(q, q);
    assert(forall|i: int| 0 <= i < d.len() ==> #[trigger] d[i] == 0);
    lemma_dot_zero(d);
    vstd::arithmetic::power2::lemma_pow2_pos(p);
    vstd::arithmetic::div_mod::lemma_div_basics(pow2_int(p));
    assert(crate::distance::inner_v(p, d, d) == 0);
    assert(0 * pow2_int(p) == 0) by (nonlinear_arith);
}

/// Nearest-vector idempotence: when the query is itself a database vector
/// and no other vector lies at quantized Euclidean distance zero from it,
/// the query's distance is zero, the minimum is zero and unique, the
/// indicator is one-hot at the query's index, and the reconstructed vector
/// is exactly the query.
pub proof fn lemma_nearest_idempotent(p: nat, q: Seq<int>, vs: Seq<Seq<int>>, k0: int)
    requires
        0 <= k0 < vs.len(),
        vs[k0] == q,
        forall|i: int|
            0 <= i < vs.len() && i != k0 ==> #[trigger] metric_v(p, Metric::Euclidean, vs[i], q)
                != 0,
    ensures
        dists_v(p, Metric::Euclidean, q, vs)[k0] == 0,
        seq_min(dists_v(p, Metric::Euclidean, q, vs)) == 0,
        forall|i: int|
            0 <= i < vs.len() ==> #[trigger] min_indicator(dists_v(p, Metric::Euclidean, q, vs))[i]
                == (if i == k0 {
                1int
            } else {
                0int
            }),
        forall|j: int|
            0 <= j < q.len() ==> #[trigger] sel_sum(
                vs,
                min_indicator(dists_v(p, Metric::Euclidean, q, vs)),
                j,
            ) == q[j],
{
    let ds = dists_v(p, Metric::Euclidean, q, vs);
    lemma_euclid_self_zero(p, q);
    assert(ds[k0] == 0);
    assert forall|i: int| 0 <= i < ds.len() implies 0 <= #[trigger] ds[i] by {
        crate::fixed_point::lemma_sqrt_floor_nonneg(
            crate::distance::inner_v(
                p,
                crate::distance::diff_seq(vs[i], q),
                crate::distance::diff_seq(vs[i], q),
            ) * pow2_int(p),
        );
    }
    lemma_seq_min(ds);
    let w = choose|w: int| 0 <= w < ds.len() && seq_min(ds) == ds[w];
    assert(seq_min(ds) <= ds[k0]);
    assert(seq_min(ds) == 0);
    let ind = min_indicator(ds);
    assert forall|i: int| 0 <= i < vs.len() implies #[trigger] ind[i] == (if i == k0 {
        1int
    } else {
        0int
    }) by {
        if i != k0 {
            assert(metric_v(p, Metric::Euclidean, vs[i], q) != 0);
        }
    }
    assert forall|j: int| 0 <= j < q.len() implies #[trigger] sel_sum(vs, ind, j) == q[j] by {
        lemma_sel_sum_onehot(vs, ind, k0, j);
    }
}

/// The commitment is deterministic: the root is a function of the database
/// content and order alone, so committing twice to the same database gives
/// the same root.
pub proof fn lemma_merkle_deterministic(vs1: Seq<Seq<int>>, vs2: Seq<Seq<int>>)
    requires
        vs1 == vs2,
    ensures
        merkle_root_v(vs1) == merkle_root_v(vs2),
{
}

/// The field elements a vector is absorbed as: one per quantized scalar.
pub open spec fn vector_digests(v: Seq<int>) -> Seq<Digest> {
    v.map_values(|q: int| digest_spec(felt_of(q)))
}

/// The leaf hash of a vector: the sponge over its first element, then
/// chained once per further element, so the leaf commits to every scalar and
/// to their order.
pub open spec fn leaf_hash_v(ds: Seq<Digest>) -> Digest
    recommends
        ds.len() >= 1,
    decreases ds.len(),
{
    if ds.len() <= 1 {
        poseidon_of(limbs_of(seq![ds[0]]))
    } else {
        poseidon_of(limbs_of(seq![leaf_hash_v(ds.drop_last()), ds.last()]))
    }
}

pub open spec fn leaf_of_vector(v: Seq<int>) -> Digest {
    leaf_hash_v(vector_digests(v))
}

/// One level of the Merkle tree: adjacent leaves hashed pairwise.
pub open spec fn merkle_level(ls: Seq<Digest>) -> Seq<Digest>
    recommends
        ls.len() % 2 == 0,
{
    Seq::new(ls.len() / 2, |i: int| poseidon_of(limbs_of(seq![ls[2 * i], ls[2 * i + 1]])))
}

/// The root of a power-of-two list of leaves: pairwise hashing until one
/// digest remains.
pub open spec fn merkle_reduce(ls: Seq<Digest>) -> Digest
    recommends
        ls.len() >= 1,
    decreases ls.len(),
{
    if ls.len() <= 1 {
        ls[0]
    } else {
        merkle_reduce(merkle_level(ls))
    }
}

/// The least power of two that is at least `n` (and `1` for `n == 0`).
pub open spec fn next_pow2(n: nat) -> nat
    decreases n,
{
    if n <= 1 {
        1
    } else {
        2 * next_pow2((n + 1) / 2)
    }
}

/// `next_pow2(n)` is the unique power of two in `[n, 2n)`.
pub proof fn lemma_next_pow2_unique(n: int, e: nat)
    requires
        1 <= n,
        n <= pow2_int(e),
        pow2_int(e) < 2 * n,
    ensures
        pow2_int(e) == next_pow2(n as nat),
    decreases e,
{
    vstd::arithmetic::power2::lemma2_to64();
    if n == 1 {
        if e > 0 {
            crate::fixed_point::lemma_pow2_le(1, e);
            assert(false);
        }
    } else {
        if e == 0 {
            assert(false);
        }
        let m = (n + 1) / 2;
        let h = pow2_int((e - 1) as nat);
        assert(pow2_int(e) == 2 * h) by {
            vstd::arithmetic::power2::lemma_pow2_unfold(e);
        }
        assert(m <= h) by {
            vstd::arithmetic::div_mod::lemma_div_is_ordered(n + 1, 2 * h + 1, 2);
            vstd::arithmetic::div_mod::lemma_fundamental_div_mod_converse(2 * h + 1, 2, h, 1);
        }
        assert(n <= 2 * m) by {
            vstd::arithmetic::div_mod::lemma_fundamental_div_mod(n + 1, 2);
            vstd::arithmetic::div_mod::lemma_mod_bound(n + 1, 2);
        }
        assert(1 <= m) by {
            vstd::arithmetic::div_mod::lemma_div_is_ordered(2, n + 1, 2);
            vstd::arithmetic::div_mod::lemma_fundamental_div_mod_converse(2, 2, 1, 0);
        }
        assert(h < 2 * m);
        lemma_next_pow2_unique(m, (e - 1) as nat);
        assert(next_pow2(n as nat) == 2 * next_pow2(m as nat));
    }
}

/// A vector the Merkle gadget can absorb: non-empty, every scalar within the
/// field's half range.
pub open spec fn hashable(v: Seq<i128>) -> bool {
    &&& 1 <= v.len()
    &&& forall|i: int| 0 <= i < v.len() ==> -pow2_int(126) <= #[trigger] v[i] <= pow2_int(126)
}

/// The Merkle commitment of a database: one leaf per vector, zero-padding up
/// to the next power of two, then pairwise hashing to the root.
pub open spec fn merkle_root_v(vs: Seq<Seq<int>>) -> Digest
    recommends
        vs.len() >= 1,
{
    let hs = vs.map_values(|v: Seq<int>| leaf_of_vector(v));
    merkle_reduce(hs + Seq::new((next_pow2(vs.len()) - vs.len()) as nat, |i: int| zero_digest()))
}

/// The Merkle root of the leaves as they stand, without padding.
pub open spec fn merkle_root_unpadded_v(vs: Seq<Seq<int>>) -> Digest
    recommends
        vs.len() >= 1,
        next_pow2(vs.len()) == vs.len(),
{
    merkle_reduce(vs.map_values(|v: Seq<int>| leaf_of_vector(v)))
}

/// Hashes one vector to its leaf digest by chaining the sponge.
#[verifier::loop_isolation(false)]
pub(crate) fn leaf_hash_exec(v: &Vec<i128>) -> (r: Digest)
    requires
        hashable(v@),
    ensures
        r == leaf_of_vector(ints_of(v@)),
        r.valid(),
{
    let ghost dsm = vector_digests(ints_of(v@));
    let mut elems: Vec<Digest> = Vec::new();
    let d0 = digest_of_quantized(v[0]);
    proof {
        lemma_digest_from_value(d0);
    }
    elems.push(d0);
    proof {
        assert(elems@ =~= seq![dsm[0]]);
    }
    let mut h = poseidon_hash(&elems);
    proof {
        assert(dsm.take(1).len() == 1);
        assert(dsm.take(1)[0] == dsm[0]);
        assert(h == leaf_hash_v(dsm.take(1)));
    }
    let mut i: usize = 1;
    while i < v.len()
        invariant
            1 <= i <= v@.len(),
            h == leaf_hash_v(dsm.take(i as int)),
            h.valid(),
        decreases v@.len() - i,
    {
        let di = digest_of_quantized(v[i]);
        proof {
            lemma_digest_from_value(di);
        }
        let mut pair: Vec<Digest> = Vec::new();
        pair.push(h);
        pair.push(di);
        proof {
            assert(pair@ =~= seq![h, dsm[i as int]]);
            assert(dsm.take(i + 1).drop_last() =~= dsm.take(i as int));
            assert(dsm.take(i + 1).last() == dsm[i as int]);
        }
        h = poseidon_hash(&pair);
        i = i + 1;
    }
    proof {
        assert(dsm.take(v@.len() as int) =~= dsm);
    }
    h
}

/// Reduces a power-of-two list of leaves to the root by pairwise hashing.
#[verifier::loop_isolation(false)]
pub(crate) fn merkle_reduce_exec(leaves: Vec<Digest>, Ghost(e0): Ghost<nat>) -> (r: Digest)
    requires
        leaves@.len() == vstd::arithmetic::power2::pow2(e0),
        leaves@.len() <= 2048,
        forall|i: int| 0 <= i < leaves@.len() ==> (#[trigger] leaves@[i]).valid(),
    ensures
        r == merkle_reduce(leaves@),
        r.valid(),
{
    let mut leaves = leaves;
    let ghost orig = leaves@;
    let ghost mut g = e0;
    proof {
        vstd::arithmetic::power2::lemma_pow2_pos(e0);
    }
    while leaves.len() > 1
        invariant
            1 <= leaves@.len() <= 2048,
            leaves@.len() == vstd::arithmetic::power2::pow2(g),
            forall|i: int| 0 <= i < leaves@.len() ==> (#[trigger] leaves@[i]).valid(),
            merkle_reduce(leaves@) == merkle_reduce(orig),
        decreases leaves@.len(),
    {
        proof {
            vstd::arithmetic::power2::lemma2_to64();
            if g == 0 {
                assert(leaves@.len() == 1);
                assert(false);
            }
            vstd::arithmetic::power2::lemma_pow2_unfold(g);
            vstd::arithmetic::div_mod::lemma_div_multiples_vanish(
                vstd::arithmetic::power2::pow2((g - 1) as nat) as int,
                2,
            );
        }
        let ghost prev = leaves@;
        let mut next: Vec<Digest> = Vec::new();
        let mut i: usize = 0;
        while i < leaves.len()
            invariant
                0 <= i <= leaves@.len(),
                i % 2 == 0,
                leaves@ == prev,
                next@.len() == i / 2,
                forall|t: int| 0 <= t < i / 2 ==> #[trigger] next@[t] == merkle_level(prev)[t],
                forall|t: int| 0 <= t < i / 2 ==> (#[trigger] next@[t]).valid(),
            decreases leaves@.len() - i,
        {
            let mut pair: Vec<Digest> = Vec::new();
            pair.push(leaves[i]);
            pair.push(leaves[i + 1]);
            proof {
                assert(pair@ =~= seq![prev[i as int], prev[i as int + 1]]);
            }
            let hd = poseidon_hash(&pair);
            next.push(hd);
            proof {
                assert(2 * ((i / 2) as int) == i as int);
                assert(merkle_level(prev)[(i / 2) as int] == poseidon_of(
                    limbs_of(seq![prev[i as int], prev[i as int + 1]]),
                ));
            }
            i = i + 2;
        }
        proof {
            assert(next@ =~= merkle_level(prev));
        }
        leaves = next;
        proof {
            g = (g - 1) as nat;
        }
    }
    proof {
        assert(merkle_reduce(leaves@) == leaves@[0]);
    }
    leaves[0]
}

/// The distances of one vector to every centroid.
pub open spec fn centroid_dists(p: nat, m: Metric, cs: Seq<Seq<int>>, v: Seq<int>) -> Seq<int> {
    Seq::new(cs.len(), |j: int| metric_v(p, m, cs[j], v))
}

/// The quantized one-hot indicator row of one vector: a quantized `1` at
/// every centroid whose distance equals the minimum, a `0` elsewhere.
pub open spec fn kmeans_ind_row(p: nat, m: Metric, cs: Seq<Seq<int>>, v: Seq<int>) -> Seq<int> {
    Seq::new(
        cs.len(),
        |j: int|
            if centroid_dists(p, m, cs, v)[j] == seq_min(centroid_dists(p, m, cs, v)) {
                pow2_int(p)
            } else {
                0
            },
    )
}

/// The indicator rows of every database vector against the centroids.
pub open spec fn kmeans_inds(p: nat, m: Metric, vs: Seq<Seq<int>>, cs: Seq<Seq<int>>) -> Seq<
    Seq<int>,
> {
    Seq::new(vs.len(), |i: int| kmeans_ind_row(p, m, cs, vs[i]))
}

/// The sum of column `j` of the indicator rows: the quantized cluster size.
pub open spec fn col_sum(inds: Seq<Seq<int>>, j: int) -> int
    decreases inds.len(),
{
    if inds.len() == 0 {
        0
    } else {
        col_sum(inds.drop_last(), j) + inds.last()[j]
    }
}

/// How many rows select cluster `j`.
pub open spec fn col_count(inds: Seq<Seq<int>>, j: int) -> int
    decreases inds.len(),
{
    if inds.len() == 0 {
        0
    } else {
        col_count(inds.drop_last(), j) + (if inds.last()[j] != 0 {
            1int
        } else {
            0int
        })
    }
}

/// Component `e` of the masked sum of cluster `j`: vectors outside the
/// cluster contribute the additive identity.
pub open spec fn masked_sum(vs: Seq<Seq<int>>, inds: Seq<Seq<int>>, j: int, e: int) -> int
    recommends
        vs.len() == inds.len(),
    decreases vs.len(),
{
    if vs.len() == 0 || inds.len() == 0 {
        0
    } else {
        masked_sum(vs.drop_last(), inds.drop_last(), j, e) + (if inds.last()[j] != 0 {
            vs.last()[e]
        } else {
            0int
        })
    }
}

/// The new centroid of cluster `j`: the masked sum divided by the quantized
/// cluster size, component-wise.
pub open spec fn kmeans_centroid(
    p: nat,
    vs: Seq<Seq<int>>,
    inds: Seq<Seq<int>>,
    j: int,
    dims: nat,
) -> Seq<int> {
    Seq::new(dims as nat, |e: int| (masked_sum(vs, inds, j, e) * pow2_int(p)) / col_sum(inds, j))
}

/// One k-means iteration: assign every vector to its nearest centroid, then
/// move every centroid to the mean of its cluster.
pub open spec fn kmeans_step(p: nat, m: Metric, vs: Seq<Seq<int>>, cs: Seq<Seq<int>>, dims: nat)
    -> Seq<Seq<int>> {
    Seq::new(cs.len(), |j: int| kmeans_centroid(p, vs, kmeans_inds(p, m, vs, cs), j, dims))
}

/// The centroids after `it` iterations, starting from the first `k`
/// database vectors.
pub open spec fn kmeans_cs(p: nat, m: Metric, vs: Seq<Seq<int>>, k: nat, it: nat, dims: nat)
    -> Seq<Seq<int>>
    decreases it,
{
    if it == 0 {
        vs.take(k as int)
    } else {
        kmeans_step(p, m, vs, kmeans_cs(p, m, vs, k, (it - 1) as nat, dims), dims)
    }
}

/// Iteration `t` is within the arithmetic domain: every distance is
/// defined, and no cluster is empty when its mean is taken.
pub open spec fn kmeans_iter_ok(
    p: nat,
    m: Metric,
    vs: Seq<Seq<int>>,
    k: nat,
    t: nat,
    dims: nat,
) -> bool {
    let cs = kmeans_cs(p, m, vs, k, t, dims);
    let inds = kmeans_inds(p, m, vs, cs);
    &&& forall|i: int, j: int|
        0 <= i < vs.len() && 0 <= j < cs.len() ==> metric_ok(p, m, #[trigger] cs[j], #[trigger] vs[i])
    &&& forall|j: int| 0 <= j < cs.len() ==> #[trigger] col_sum(inds, j) != 0
}

/// Every iteration of the run is within the arithmetic domain.
pub open spec fn kmeans_ok(p: nat, m: Metric, vs: Seq<Seq<int>>, k: nat, iters: nat, dims: nat)
    -> bool {
    forall|t: nat| t < iters ==> #[trigger] kmeans_iter_ok(p, m, vs, k, t, dims)
}

/// Quantized one-hot columns: the column sum is the selected-row count at
/// quantized scale.
proof fn lemma_col_sum_count(inds: Seq<Seq<int>>, j: int, p: nat)
    requires
        forall|i: int|
            0 <= i < inds.len() ==> (#[trigger] inds[i][j] == pow2_int(p) || inds[i][j] == 0),
        1 <= pow2_int(p),
    ensures
        col_sum(inds, j) == col_count(inds, j) * pow2_int(p),
        0 <= col_count(inds, j) <= inds.len(),
    decreases inds.len(),
{
    if inds.len() > 0 {
        lemma_col_sum_count(inds.drop_last(), j, p);
        let n = inds.len() as int;
        let c = col_count(inds.drop_last(), j);
        assert(inds.last() == inds[n - 1]);
        if inds.last()[j] != 0 {
            assert((c + 1) * pow2_int(p) == c * pow2_int(p) + pow2_int(p)) by (nonlinear_arith);
        }
    }
}

/// The masked sum of a cluster is bounded by the selected-row count times
/// the element budget.
proof fn lemma_masked_sum_bound(vs: Seq<Seq<int>>, inds: Seq<Seq<int>>, j: int, e: int, b: int)
    requires
        vs.len() == inds.len(),
        0 <= b,
        forall|i: int| 0 <= i < vs.len() ==> -b <= #[trigger] vs[i][e] <= b,
    ensures
        -(col_count(inds, j) * b) <= masked_sum(vs, inds, j, e) <= col_count(inds, j) * b,
        0 <= col_count(inds, j),
    decreases vs.len(),
{
    if vs.len() > 0 {
        lemma_masked_sum_bound(vs.drop_last(), inds.drop_last(), j, e, b);
        let n = vs.len() as int;
        let c = col_count(inds.drop_last(), j);
        let s = masked_sum(vs.drop_last(), inds.drop_last(), j, e);
        assert(vs.last() == vs[n - 1]);
        if inds.last()[j] != 0 {
            assert((c + 1) * b == c * b + b) by (nonlinear_arith);
        }
    }
}

/// A mean of values within a budget stays within the budget.
proof fn lemma_mean_bound(s: int, cnt: int, p: nat, b: int)
    requires
        -(cnt * b) <= s <= cnt * b,
        1 <= cnt,
        0 <= b,
    ensures
        -b <= (s * pow2_int(p)) / (cnt * pow2_int(p)) <= b,
{
    let w = pow2_int(p);
    vstd::arithmetic::power2::lemma_pow2_pos(p);
    let d = cnt * w;
    vstd::arithmetic::mul::lemma_mul_strictly_positive(cnt, w);
    assert(s * w <= d * b && -(d * b) <= s * w) by (nonlinear_arith)
        requires
            -(cnt * b) <= s <= cnt * b,
            0 < w,
            d == cnt * w,
    ;
    assert(d * b == b * d && d * (-b) == -(d * b)) by (nonlinear_arith);
    vstd::arithmetic::div_mod::lemma_div_is_ordered(s * w, d * b, d);
    vstd::arithmetic::div_mod::lemma_div_is_ordered(d * (-b), s * w, d);
    vstd::arithmetic::div_mod::lemma_div_multiples_vanish(b, d);
    vstd::arithmetic::div_mod::lemma_div_multiples_vanish(-b, d);
}

/// Copies a vector of scalars.
fn copy_vec(v: &Vec<i128>) -> (r: Vec<i128>)
    ensures
        r@ == v@,
{
    let mut r: Vec<i128> = Vec::new();
    let mut i: usize = 0;
    while i < v.len()
        invariant
            0 <= i <= v@.len(),
            r@ == v@.take(i as int),
        decreases v@.len() - i,
    {
        r.push(v[i]);
        proof {
            assert(r@ =~= v@.take(i + 1));
        }
        i = i + 1;
    }
    proof {
        assert(v@.take(v@.len() as int) =~= v@);
    }
    r
}

/// Computes the quantized one-hot indicator rows of every vector against
/// the given centroids.
#[verifier::loop_isolation(false)]
fn indicator_rows(
    chip: &FixedPointChip,
    metric: Metric,
    vectors: &Vec<Vec<i128>>,
    centroids: &Vec<Vec<i128>>,
    Ghost(dims): Ghost<nat>,
) -> (r: Vec<Vec<i128>>)
    requires
        chip.wf(),
        vectors@.len() <= 1024,
        1 <= centroids@.len() <= 1024,
        forall|i: int| 0 <= i < vectors@.len() ==> chip.vec_ok(#[trigger] vectors@[i]@),
        forall|j: int| 0 <= j < centroids@.len() ==> chip.vec_ok(#[trigger] centroids@[j]@),
        forall|i: int| 0 <= i < vectors@.len() ==> (#[trigger] vectors@[i]@).len() == dims,
        forall|j: int| 0 <= j < centroids@.len() ==> (#[trigger] centroids@[j]@).len() == dims,
        forall|i: int, j: int|
            0 <= i < vectors@.len() && 0 <= j < centroids@.len() ==> metric_ok(
                chip.p(),
                metric,
                ints_of(#[trigger] centroids@[j]@),
                ints_of(#[trigger] vectors@[i]@),
            ),
    ensures
        r@.len() == vectors@.len(),
        rows_of(r@) == kmeans_inds(chip.p(), metric, rows_of(vectors@), rows_of(centroids@)),
        forall|i: int| 0 <= i < r@.len() ==> (#[trigger] r@[i]@).len() == centroids@.len(),
        forall|i: int, j: int|
            0 <= i < r@.len() && 0 <= j < centroids@.len()
                ==> (#[trigger] r@[i]@[j] == pow2_int(chip.p()) || r@[i]@[j] == 0),
{
    let ghost vsm = rows_of(vectors@);
    let ghost csm = rows_of(centroids@);
    let ghost target = kmeans_inds(chip.p(), metric, vsm, csm);
    let k = centroids.len();
    let one = chip.scale_exec();
    let mut rows: Vec<Vec<i128>> = Vec::new();
    let mut i: usize = 0;
    while i < vectors.len()
        invariant
            0 <= i <= vectors@.len(),
            rows@.len() == i,
            forall|t: int| 0 <= t < i ==> ints_of((#[trigger] rows@[t])@) == target[t],
            forall|t: int| 0 <= t < i ==> (#[trigger] rows@[t])@.len() == k,
        decreases vectors@.len() - i,
    {
        let ghost ds = centroid_dists(chip.p(), metric, csm, vsm[i as int]);
        let mut drow: Vec<i128> = Vec::new();
        let mut j: usize = 0;
        while j < k
            invariant
                0 <= j <= k,
                0 <= i < vectors@.len(),
                drow@.len() == j,
                forall|t: int| 0 <= t < j ==> #[trigger] drow@[t] == ds[t],
            decreases k - j,
        {
            let d = match metric_core(chip, metric, &centroids[j], &vectors[i]) {
                Ok(d) => d,
                Err(_) => {
                    proof {
                        assert(false);
                    }
                    0
                },
            };
            drow.push(d);
            j = j + 1;
        }
        let mut mn: i128 = drow[0];
        let mut j: usize = 1;
        while j < k
            invariant
                1 <= j <= k,
                drow@.len() == k,
                forall|t: int| 0 <= t < k ==> #[trigger] drow@[t] == ds[t],
                mn == seq_min(ds.take(j as int)),
            decreases k - j,
        {
            proof {
                assert(ds.take(j + 1).drop_last() =~= ds.take(j as int));
            }
            mn = chip.qmin(mn, drow[j]);
            j = j + 1;
        }
        proof {
            assert(ds.take(k as int) =~= ds);
        }
        let mut irow: Vec<i128> = Vec::new();
        let mut j: usize = 0;
        while j < k
            invariant
                0 <= j <= k,
                0 <= i < vectors@.len(),
                drow@.len() == k,
                forall|t: int| 0 <= t < k ==> #[trigger] drow@[t] == ds[t],
                mn == seq_min(ds),
                irow@.len() == j,
                forall|t: int|
                    0 <= t < j ==> #[trigger] irow@[t] == kmeans_ind_row(
                        chip.p(),
                        metric,
                        csm,
                        vsm[i as int],
                    )[t],
            decreases k - j,
        {
            let eq = chip.is_equal(mn, drow[j]);
            let ind = chip.select(one, 0, eq);
            irow.push(ind);
            j = j + 1;
        }
        proof {
            assert(ints_of(irow@) =~= kmeans_ind_row(chip.p(), metric, csm, vsm[i as int]));
            assert(target[i as int] == kmeans_ind_row(chip.p(), metric, csm, vsm[i as int]));
        }
        rows.push(irow);
        i = i + 1;
    }
    proof {
        assert(rows_of(rows@) =~= target);
        assert(forall|i2: int, j2: int|
            0 <= i2 < rows@.len() && 0 <= j2 < centroids@.len()
                ==> (#[trigger] rows@[i2]@[j2] == pow2_int(chip.p()) || rows@[i2]@[j2] == 0))
            by {
            assert(forall|i2: int, j2: int|
                0 <= i2 < rows@.len() && 0 <= j2 < centroids@.len()
                    ==> #[trigger] rows@[i2]@[j2] as int == target[i2][j2]);
        }
    }
    rows
}

/// Sums every indicator column: the quantized cluster sizes.
#[verifier::loop_isolation(false)]
fn cluster_sizes(chip: &FixedPointChip, inds: &Vec<Vec<i128>>, k: usize) -> (r: Vec<i128>)
    requires
        chip.wf(),
        inds@.len() <= 1024,
        forall|i: int| 0 <= i < inds@.len() ==> (#[trigger] inds@[i]@).len() == k,
        forall|i: int, j: int|
            0 <= i < inds@.len() && 0 <= j < k ==> 0 <= #[trigger] inds@[i]@[j] <= pow2_int(48),
    ensures
        r@.len() == k,
        forall|j: int| 0 <= j < k ==> #[trigger] r@[j] == col_sum(rows_of(inds@), j),
    {
    let ghost im = rows_of(inds@);
    let mut sizes: Vec<i128> = Vec::new();
    let mut j: usize = 0;
    proof {
        crate::fixed_point::lemma_pow2_127();
        vstd::arithmetic::power2::lemma2_to64();
        vstd::arithmetic::power2::lemma2_to64_rest();
    }
    while j < k
        invariant
            0 <= j <= k,
            sizes@.len() == j,
            forall|t: int| 0 <= t < j ==> #[trigger] sizes@[t] == col_sum(im, t),
        decreases k - j,
    {
        let mut acc: i128 = 0;
        let mut i: usize = 0;
        while i < inds.len()
            invariant
                0 <= i <= inds@.len(),
                0 <= j < k,
                acc == col_sum(im.take(i as int), j as int),
                0 <= acc <= (i as int) * pow2_int(48),
            decreases inds@.len() - i,
        {
            proof {
                assert(im.take(i + 1).drop_last() =~= im.take(i as int));
                assert(im.take(i + 1).last() == im[i as int]);
                assert(im[i as int][j as int] == inds@[i as int]@[j as int] as int);
                lemma_step_bound(i as int, acc as int, im[i as int][j as int], pow2_int(48));
                vstd::arithmetic::mul::lemma_mul_inequality(i + 1, 1024, pow2_int(48));
                crate::fixed_point::lemma_pow2_mul_1024(48);
            }
            acc = chip.qadd(acc, inds[i][j]);
            i = i + 1;
        }
        proof {
            assert(im.take(im.len() as int) =~= im);
        }
        sizes.push(acc);
        j = j + 1;
    }
    sizes
}

/// The mean of cluster `j`: the masked sums of the member vectors, divided
/// component-wise by the quantized cluster size.
#[verifier::loop_isolation(false)]
fn masked_mean(
    chip: &FixedPointChip,
    vectors: &Vec<Vec<i128>>,
    inds: &Vec<Vec<i128>>,
    j: usize,
    size: i128,
    dims: usize,
) -> (r: Vec<i128>)
    requires
        chip.wf(),
        vectors@.len() == inds@.len(),
        1 <= vectors@.len() <= 1024,
        dims <= 1024,
        forall|i: int| 0 <= i < vectors@.len() ==> (#[trigger] vectors@[i]@).len() == dims,
        forall|i: int| 0 <= i < vectors@.len() ==> chip.input_vec_ok(#[trigger] vectors@[i]@),
        forall|i: int| 0 <= i < inds@.len() ==> (j as int) < (#[trigger] inds@[i]@).len(),
        forall|i: int|
            0 <= i < inds@.len()
                ==> (#[trigger] inds@[i]@[j as int] == pow2_int(chip.p())
                    || inds@[i]@[j as int] == 0),
        size as int == col_sum(rows_of(inds@), j as int),
        size != 0,
    ensures
        r@.len() == dims,
        ints_of(r@) == kmeans_centroid(
            chip.p(),
            rows_of(vectors@),
            rows_of(inds@),
            j as int,
            dims as nat,
        ),
        chip.input_vec_ok(r@),
    {
    let ghost p = chip.p();
    let ghost vsm = rows_of(vectors@);
    let ghost im = rows_of(inds@);
    let ghost b0 = pow2_int(p + 8);
    proof {
        vstd::arithmetic::power2::lemma_pow2_pos(p);
        crate::fixed_point::lemma_pow2_127();
        crate::fixed_point::lemma_pow2_le(p + 8, 56);
        assert(forall|i: int|
            0 <= i < im.len() ==> (#[trigger] im[i][j as int] == pow2_int(p) || im[i][j as int]
                == 0));
        lemma_col_sum_count(im, j as int, p);
    }
    let ghost cnt = col_count(im, j as int);
    let mut mean: Vec<i128> = Vec::new();
    let mut e: usize = 0;
    while e < dims
        invariant
            0 <= e <= dims,
            mean@.len() == e,
            forall|t: int|
                0 <= t < e ==> #[trigger] mean@[t] as int == (masked_sum(vsm, im, j as int, t)
                    * pow2_int(p)) / col_sum(im, j as int),
            forall|t: int| 0 <= t < e ==> chip.input_ok(#[trigger] mean@[t] as int),
        decreases dims - e,
    {
        let mut acc: i128 = 0;
        let mut i: usize = 0;
        while i < vectors.len()
            invariant
                0 <= i <= vectors@.len(),
                0 <= e < dims,
                acc == masked_sum(vsm.take(i as int), im.take(i as int), j as int, e as int),
                -((i as int) * b0) <= acc <= (i as int) * b0,
            decreases vectors@.len() - i,
        {
            proof {
                assert(vsm.take(i + 1).drop_last() =~= vsm.take(i as int));
                assert(im.take(i + 1).drop_last() =~= im.take(i as int));
                assert(im[i as int][j as int] == inds@[i as int]@[j as int] as int);
                assert(vsm[i as int][e as int] == vectors@[i as int]@[e as int] as int);
                assert(chip.input_ok(vectors@[i as int]@[e as int] as int));
                let term = if im[i as int][j as int] != 0 {
                    vsm[i as int][e as int]
                } else {
                    0int
                };
                lemma_step_bound(i as int, acc as int, term, b0);
                vstd::arithmetic::mul::lemma_mul_inequality(i + 1, 1024, b0);
                crate::fixed_point::lemma_pow2_mul_1024(p + 8);
            }
            let sel = inds[i][j];
            let iz = chip.is_zero(sel);
            let w = chip.select(0, vectors[i][e], iz);
            acc = chip.qadd(acc, w);
            i = i + 1;
        }
        proof {
            assert(vsm.take(vsm.len() as int) =~= vsm);
            assert(im.take(im.len() as int) =~= im);
            vstd::arithmetic::mul::lemma_mul_inequality(vectors@.len() as int, 1024, b0);
            crate::fixed_point::lemma_pow2_mul_1024(p + 8);
            // `qdiv` stays within `pow2(126)`.
            let s = masked_sum(vsm, im, j as int, e as int);
            crate::fixed_point::lemma_pow2_le(p, 48);
            crate::fixed_point::lemma_product_bound(s, pow2_int(p), pow2_int(p + 18), pow2_int(48));
            vstd::arithmetic::power2::lemma_pow2_adds(p + 18, 48);
            crate::fixed_point::lemma_pow2_le(p + 18 + 48, 126);
            lemma_masked_sum_bound(vsm, im, j as int, e as int, b0);
            vstd::arithmetic::power2::lemma_pow2_adds(p + 8, 10);
            crate::fixed_point::lemma_pow2_mul_1024(p + 8);
        }
        let q = chip.qdiv(acc, size);
        proof {
            let s = masked_sum(vsm, im, j as int, e as int);
            if cnt == 0 {
                assert(col_sum(im, j as int) == 0) by (nonlinear_arith)
                    requires col_sum(im, j as int) == cnt * pow2_int(p) && cnt == 0;
                assert(false);
            }
            lemma_mean_bound(s, cnt, p, b0);
        }
        mean.push(q);
        e = e + 1;
    }
    proof {
        assert(ints_of(mean@) =~= kmeans_centroid(p, vsm, im, j as int, dims as nat));
    }
    mean
}

/// One weighted-sum step stays within the running magnitude bound.
proof fn lemma_step_bound(i: int, acc: int, term: int, c: int)
    requires
        0 <= i,
        -(i * c) <= acc <= i * c,
        -c <= term <= c,
    ensures
        -((i + 1) * c) <= acc + term <= (i + 1) * c,
{
    assert(-((i + 1) * c) <= acc + term <= (i + 1) * c) by (nonlinear_arith)
        requires
            -(i * c) <= acc <= i * c,
            -c <= term <= c,
    ;
}

} // verus!
