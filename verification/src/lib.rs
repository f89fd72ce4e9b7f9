//! Zero-knowledge vector-database gadgets, modeled at the witness level.
//!
//! The circuit backend assigns each quantized scalar to a field element whose
//! magnitude stays far below half the field modulus, so the value carried by
//! every witness is an ordinary signed integer.  This crate implements and
//! verifies that value semantics: the fixed-point arithmetic primitive, the
//! distance and similarity gadgets built on it, and the vector-database
//! gadgets (exhaustive nearest-vector search, fixed-iteration k-means, and a
//! Poseidon Merkle commitment over the database).

use vstd::prelude::*;

pub mod distance;
pub mod felt;
pub mod fixed_point;
pub mod fvecs;
pub mod similarity;
pub mod sponge;
pub mod vectordb;

verus! {

/// `pow2` widened to `int`, for signed fixed-point contracts.
pub open spec fn pow2_int(e: nat) -> int {
    vstd::arithmetic::power2::pow2(e) as int
}

/// A contract violation detected while laying out a circuit.  Each variant
/// aborts construction before any constraint reaches the proving backend.
#[derive(Clone, Copy, Debug, PartialEq, Eq, Structural)]
pub enum GadgetError {
    /// Two vectors that must share a length do not.
    LengthMismatch,
    /// A gadget that needs at least one vector was given none.
    EmptyInput,
    /// The cluster count of a k-means run is zero or not smaller than the
    /// number of database vectors.
    InvalidClusterCount,
    /// A leaf count that must be a power of two is not.
    NotPowerOfTwo,
}

} // verus!
