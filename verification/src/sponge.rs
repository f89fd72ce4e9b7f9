//! The sponge hash primitive, taken from the proving substrate.
//!
//! The Merkle gadget needs one operation: hash a short run of field elements
//! to one field element.  The hash itself is outside code; everything built
//! on it (leaf chaining, padding, the tree) is verified in this crate.

use vstd::prelude::*;

use crate::felt::{limbs_of, Digest};

verus! {

/// The digest that the Poseidon sponge returns for a given absorbed word
/// stream.  The stream is the limbs of the absorbed field elements, least
/// significant first, four words per element.
pub uninterp spec fn poseidon_of(input: Seq<u64>) -> Digest;

/// Relies on `light_poseidon::Poseidon::<Fr>::new_circom` and
/// `PoseidonHasher::hash` over the BN254 scalar field: with 1 to 12 inputs
/// the parameters exist and the hash succeeds, the digest depends on the
/// absorbed field elements alone, and `into_bigint` returns the canonical
/// representative.  `Fr::from` requires each absorbed element to be
/// canonical, which the `valid` precondition supplies.
#[verifier::external_body]
pub(crate) fn poseidon_hash(elems: &Vec<Digest>) -> (r: Digest)
    requires
        1 <= elems@.len() <= 12,
        forall|i: int| 0 <= i < elems@.len() ==> (#[trigger] elems@[i]).valid(),
    ensures
        r == poseidon_of(limbs_of(elems@)),
        r.valid(),
{
    let inputs: Vec<ark_bn254::Fr> = elems
        .iter()
        .map(|d| ark_bn254::Fr::from(ark_ff::BigInt::<4>::new([d.l0, d.l1, d.l2, d.l3])))
        .collect();
    let mut hasher = light_poseidon::Poseidon::<ark_bn254::Fr>::new_circom(inputs.len()).unwrap();
    let out = light_poseidon::PoseidonHasher::hash(&mut hasher, &inputs).unwrap();
    let limbs = ark_ff::PrimeField::into_bigint(out).0;
    Digest { l0: limbs[0], l1: limbs[1], l2: limbs[2], l3: limbs[3] }
}

} // verus!
