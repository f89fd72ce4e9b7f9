//! Similarity gadgets: the distance metrics' complements, nearest-vector
//! search over Euclidean distance, and a Merkle commitment that expects a
//! power-of-two database.

use vstd::prelude::*;

use crate::distance::{
    cosine_den_v, cosine_sim_core, cosine_sim_v, euclid_v, euclidean_core, hamming_sim_core,
    hamming_sim_v, manhattan_core, manhattan_v,
};
use crate::felt::Digest;
use crate::fixed_point::{ints_of, rows_of, FixedPointChip};
use crate::vectordb::{
    dists_v, leaf_hash_exec, leaf_of_vector, lemma_next_pow2_unique, merkle_reduce_exec,
    merkle_root_unpadded_v, min_indicator, next_pow2, sel_sum, Metric, VectorDBChip,
    VectorDBStrategy,
};
use crate::GadgetError;

verus! {

/// How the similarity gadgets arrange their gates in the circuit;
/// vertical is the only arrangement.
#[derive(Clone, Copy, Debug, PartialEq, Eq, Structural)]
pub enum SimilarityStrategy {
    Vertical,
}

/// A similarity strategy together with the fixed-point chip it builds on.
/// `precision_bits` fixes the `P.P` fixed-point format of every scalar the
/// chip touches.
#[derive(Clone, Copy, Debug)]
pub struct SimilarityChip {
    pub strategy: SimilarityStrategy,
    pub fixed_point_gate: FixedPointChip,
}

impl SimilarityChip {
    pub open spec fn wf(self) -> bool {
        self.fixed_point_gate.wf()
    }

    pub open spec fn p(self) -> nat {
        self.fixed_point_gate.p()
    }

    /// Builds the chip, constructing its fixed-point gate from the given
    /// precision and lookup-table width.
    pub fn new(strategy: SimilarityStrategy, precision_bits: u32, lookup_bits: usize) -> (r: Self)
        requires
            1 <= precision_bits <= 48,
        ensures
            r.wf(),
            r.strategy == strategy,
            r.fixed_point_gate == (FixedPointChip { precision_bits, lookup_bits }),
    {
        let fixed_point_gate = FixedPointChip::new(precision_bits, lookup_bits);
        SimilarityChip { strategy, fixed_point_gate }
    }

    /// The chip with the vertical strategy at the default precision.
    pub fn default(lookup_bits: usize) -> (r: Self)
        ensures
            r.wf(),
            r.strategy == SimilarityStrategy::Vertical,
            r.fixed_point_gate == (FixedPointChip { precision_bits: 32u32, lookup_bits }),
    {
        Self::new(SimilarityStrategy::Vertical, 32, lookup_bits)
    }

    pub fn fixed_point_gate(&self) -> (r: &FixedPointChip)
        ensures
            r == self.fixed_point_gate,
    {
        &self.fixed_point_gate
    }

    pub fn strategy(&self) -> (r: SimilarityStrategy)
        ensures
            r == self.strategy,
    {
        self.strategy
    }

    /// Euclidean distance (L2) of two quantized vectors.
    pub fn euclidean_distance(&self, a: &Vec<i128>, b: &Vec<i128>) -> (r: Result<
        i128,
        GadgetError,
    >)
        requires
            self.wf(),
            self.fixed_point_gate.vec_ok(a@),
            self.fixed_point_gate.vec_ok(b@),
        ensures
            r is Ok <==> a@.len() == b@.len(),
            r is Ok ==> r->Ok_0 == euclid_v(self.p(), ints_of(a@), ints_of(b@)),
            r is Err ==> r->Err_0 == GadgetError::LengthMismatch,
        {
        euclidean_core(&self.fixed_point_gate, a, b)
    }

    /// Manhattan distance (L1) of two quantized vectors.
    pub fn manhattan_distance(&self, a: &Vec<i128>, b: &Vec<i128>) -> (r: Result<
        i128,
        GadgetError,
    >)
        requires
            self.wf(),
            self.fixed_point_gate.vec_ok(a@),
            self.fixed_point_gate.vec_ok(b@),
        ensures
            r is Ok <==> a@.len() == b@.len(),
            r is Ok ==> r->Ok_0 == manhattan_v(ints_of(a@), ints_of(b@)),
            r is Err ==> r->Err_0 == GadgetError::LengthMismatch,
        {
        manhattan_core(&self.fixed_point_gate, a, b)
    }

    /// Cosine similarity of two quantized vectors.  An all-zero vector makes
    /// the denominator zero: an arithmetic-domain violation, excluded here
    /// as it is in the circuit.
    pub fn cosine_similarity(&self, a: &Vec<i128>, b: &Vec<i128>) -> (r: Result<i128, GadgetError>)
        requires
            self.wf(),
            self.fixed_point_gate.vec_ok(a@),
            self.fixed_point_gate.vec_ok(b@),
            a@.len() == b@.len() ==> cosine_den_v(self.p(), ints_of(a@), ints_of(b@)) != 0,
        ensures
            r is Ok <==> a@.len() == b@.len(),
            r is Ok ==> r->Ok_0 == cosine_sim_v(self.p(), ints_of(a@), ints_of(b@)),
            r is Err ==> r->Err_0 == GadgetError::LengthMismatch,
        {
        cosine_sim_core(&self.fixed_point_gate, a, b)
    }

    /// Hamming similarity: the fraction of indices whose quantized values
    /// coincide, in quantized units.
    pub fn hamming_similarity(&self, a: &Vec<i128>, b: &Vec<i128>) -> (r: Result<
        i128,
        GadgetError,
    >)
        requires
            self.wf(),
            a@.len() <= 1024,
            b@.len() <= 1024,
            a@.len() == b@.len() ==> 1 <= a@.len(),
        ensures
            r is Ok <==> a@.len() == b@.len(),
            r is Ok ==> r->Ok_0 == hamming_sim_v(self.p(), ints_of(a@), ints_of(b@)),
            r is Err ==> r->Err_0 == GadgetError::LengthMismatch,
        {
        hamming_sim_core(&self.fixed_point_gate, a, b)
    }

    /// The most similar database vector to the query, by Euclidean
    /// distance, rebuilt by select-by-indicator; with tied minima the sum
    /// of the tied vectors.
    pub fn nearest_vector(&self, query: &Vec<i128>, vectors: &Vec<Vec<i128>>) -> (r: Result<
        Vec<i128>,
        GadgetError,
    >)
        requires
            self.wf(),
            self.fixed_point_gate.vec_ok(query@),
            vectors@.len() <= 1024,
            forall|i: int|
                0 <= i < vectors@.len() ==> self.fixed_point_gate.vec_ok(
                    #[trigger] vectors@[i]@,
                ),
        ensures
            r is Ok <==> (vectors@.len() >= 1 && forall|i: int|
                0 <= i < vectors@.len() ==> (#[trigger] vectors@[i]@).len() == query@.len()),
            r is Err ==> (r->Err_0 == GadgetError::EmptyInput <==> vectors@.len() == 0),
            r is Err && vectors@.len() >= 1 ==> r->Err_0 == GadgetError::LengthMismatch,
            r is Ok ==> {
                let ds = dists_v(self.p(), Metric::Euclidean, ints_of(query@), rows_of(vectors@));
                &&& r->Ok_0@.len() == query@.len()
                &&& forall|j: int|
                    0 <= j < query@.len() ==> ints_of(r->Ok_0@)[j] == sel_sum(
                        rows_of(vectors@),
                        min_indicator(ds),
                        j,
                    )
            },
        {
        let db = VectorDBChip::new(VectorDBStrategy::Vertical, &self.fixed_point_gate);
        match db.nearest_vector(query, vectors, Metric::Euclidean) {
            Ok((_indicator, result)) => Ok(result),
            Err(e) => Err(e),
        }
    }

    /// Commits to a database whose size is already a power of two: one leaf
    /// per vector, hashed pairwise to the root.  Any other size fails the
    /// build, as this gadget has no padding step.
    #[verifier::loop_isolation(false)]
    pub fn merkle_commitment(&self, vectors: &Vec<Vec<i128>>) -> (r: Result<Digest, GadgetError>)
        requires
            self.wf(),
            vectors@.len() <= 1024,
            forall|i: int|
                0 <= i < vectors@.len() ==> crate::vectordb::hashable(#[trigger] vectors@[i]@),
        ensures
            r is Ok <==> (vectors@.len() >= 1 && next_pow2(vectors@.len()) == vectors@.len()),
            r is Err ==> (r->Err_0 == GadgetError::EmptyInput <==> vectors@.len() == 0),
            r is Err && vectors@.len() >= 1 ==> r->Err_0 == GadgetError::NotPowerOfTwo,
            r is Ok ==> r->Ok_0 == merkle_root_unpadded_v(rows_of(vectors@)) && r->Ok_0.valid(),
        {
        if vectors.len() == 0 {
            return Err(GadgetError::EmptyInput);
        }
        let ghost hsm = rows_of(vectors@).map_values(|v: Seq<int>| leaf_of_vector(v));
        let mut leaves: Vec<Digest> = Vec::new();
        let mut i: usize = 0;
        while i < vectors.len()
            invariant
                0 <= i <= vectors@.len(),
                leaves@.len() == i,
                forall|t: int| 0 <= t < i ==> #[trigger] leaves@[t] == hsm[t],
                forall|t: int| 0 <= t < i ==> (#[trigger] leaves@[t]).valid(),
            decreases vectors@.len() - i,
        {
            let h = leaf_hash_exec(&vectors[i]);
            leaves.push(h);
            i = i + 1;
        }
        let n = leaves.len();
        let mut cand: usize = 1;
        let ghost mut e: nat = 0;
        proof {
            vstd::arithmetic::power2::lemma2_to64();
        }
        while cand < n
            invariant
                1 <= cand,
                cand < 2 * n,
                cand as nat == vstd::arithmetic::power2::pow2(e),
            decreases 2 * n - cand,
        {
            proof {
                vstd::arithmetic::power2::lemma_pow2_adds(e, 1);
                vstd::arithmetic::power2::lemma2_to64();
                e = e + 1;
            }
            cand = cand * 2;
        }
        proof {
            lemma_next_pow2_unique(n as int, e);
        }
        if cand != n {
            return Err(GadgetError::NotPowerOfTwo);
        }
        proof {
            assert(leaves@ =~= hsm);
        }
        let root = merkle_reduce_exec(leaves, Ghost(e));
        Ok(root)
    }
}

} // verus!
