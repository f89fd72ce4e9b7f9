//! Field elements of the BN254 scalar field, as plain limb values.
//!
//! The sponge hash absorbs field elements, and a quantized scalar `q` is
//! stored in the field as `q mod p`: non-negative values directly, negative
//! values in the upper half of the field range.  A [`Digest`] carries a
//! canonical field element as four 64-bit little-endian limbs, so the Merkle
//! gadget can be stated and verified over plain values.

use vstd::prelude::*;
use vstd::arithmetic::div_mod::{lemma_mod_add_multiples_vanish, lemma_small_mod};
use vstd::arithmetic::power2::{lemma2_to64, lemma2_to64_rest, lemma_pow2_adds, pow2};

use crate::fixed_point::lemma_pow2_127;
use crate::pow2_int;

verus! {

/// The BN254 scalar-field modulus.
pub open spec fn p_modulus() -> int {
    0x30644e72e131a029b85045b68181585d2833e84879b9709143e1f593f0000001int
}

/// A canonical BN254 scalar-field element, as four 64-bit limbs, least
/// significant first.
#[derive(Clone, Copy, Debug, PartialEq, Eq, Hash, Structural)]
pub struct Digest {
    pub l0: u64,
    pub l1: u64,
    pub l2: u64,
    pub l3: u64,
}

impl Digest {
    /// The integer the limbs encode.
    pub open spec fn value(self) -> int {
        self.l0 + self.l1 * pow2_int(64) + self.l2 * pow2_int(128) + self.l3 * pow2_int(192)
    }

    /// The limbs encode a canonical field element.
    pub open spec fn valid(self) -> bool {
        self.value() < p_modulus()
    }

    /// The zero field element, used to pad leaf lists.
    pub fn zero() -> (r: Digest)
        ensures
            r == zero_digest(),
            r.valid(),
    {
        Digest { l0: 0, l1: 0, l2: 0, l3: 0 }
    }
}

/// The zero field element.
pub open spec fn zero_digest() -> Digest {
    Digest { l0: 0, l1: 0, l2: 0, l3: 0 }
}

/// The field representation of a quantized scalar.
pub open spec fn felt_of(q: int) -> int {
    q % p_modulus()
}

/// `pow2(128)` and `pow2(192)` as concrete integers, and the modulus split
/// into two 128-bit halves.
proof fn lemma_modulus_halves()
    ensures
        pow2_int(64) == 0x10000000000000000,
        pow2_int(128) == 0x100000000000000000000000000000000,
        pow2_int(192) == 0x1000000000000000000000000000000000000000000000000,
        p_modulus() == 0x2833e84879b9709143e1f593f0000001int
            + 0x30644e72e131a029b85045b68181585dint * pow2_int(128),
{
    lemma2_to64();
    lemma2_to64_rest();
    lemma_pow2_adds(64, 64);
    lemma_pow2_adds(128, 64);
}

/// A 128-bit value is its low and high 64-bit limbs, recombined.
proof fn lemma_u128_split(x: u128)
    ensures
        x as int == (x as u64) as int + ((x >> 64) as u64) as int * pow2_int(64),
        ((x >> 64) as u64) as int * pow2_int(64) >= 0,
{
    lemma2_to64();
    lemma2_to64_rest();
    assert(x == ((x as u64) as u128) + (((x >> 64) as u64) as u128) * 0x10000000000000000)
        by (bit_vector);
    assert(((x >> 64) as u64) as int * pow2_int(64) >= 0)
        by (nonlinear_arith)
        requires pow2_int(64) > 0;
}

/// Builds the digest whose two 128-bit halves are `lo` and `hi`.
fn digest_from_halves(lo: u128, hi: u128) -> (r: Digest)
    ensures
        r.value() == lo as int + (hi as int) * pow2_int(128),
{
    proof {
        lemma_u128_split(lo);
        lemma_u128_split(hi);
        lemma_modulus_halves();
        let h_lo = ((hi as u64) as int);
        let h_hi = (((hi >> 64) as u64) as int);
        assert((h_lo + h_hi * pow2_int(64)) * pow2_int(128) == h_lo * pow2_int(128) + h_hi * (
        pow2_int(64) * pow2_int(128))) by (nonlinear_arith);
        lemma_pow2_adds(64, 128);
    }
    Digest { l0: lo as u64, l1: (lo >> 64) as u64, l2: hi as u64, l3: (hi >> 64) as u64 }
}

/// Maps a quantized scalar to its canonical field representation: the value
/// itself when non-negative, `p - |q|` when negative.
pub fn digest_of_quantized(q: i128) -> (r: Digest)
    requires
        -pow2_int(126) <= q <= pow2_int(126),
    ensures
        r.value() == felt_of(q as int),
        r.valid(),
{
    proof {
        lemma_pow2_127();
        lemma_modulus_halves();
    }
    if q >= 0 {
        let mag = q as u128;
        proof {
            lemma_small_mod(q as nat, p_modulus() as nat);
        }
        digest_from_halves(mag, 0)
    } else {
        let mag = (-q) as u128;
        proof {
            lemma_mod_add_multiples_vanish(q as int, p_modulus());
            lemma_small_mod((p_modulus() + q) as nat, p_modulus() as nat);
        }
        let p_lo: u128 = 0x2833e84879b9709143e1f593f0000001;
        let p_hi: u128 = 0x30644e72e131a029b85045b68181585d;
        if mag <= p_lo {
            digest_from_halves(p_lo - mag, p_hi)
        } else {
            let lo = (u128::MAX - mag) + p_lo + 1;
            digest_from_halves(lo, p_hi - 1)
        }
    }
}

/// The `i`-th 64-bit limb of a non-negative integer.
pub open spec fn limb64(v: int, i: nat) -> u64 {
    ((v / pow2_int(64 * i)) % pow2_int(64)) as u64
}

/// The digest of a canonical field element: its four limbs.
pub open spec fn digest_spec(f: int) -> Digest
    recommends
        0 <= f < p_modulus(),
{
    Digest { l0: limb64(f, 0), l1: limb64(f, 1), l2: limb64(f, 2), l3: limb64(f, 3) }
}

/// Base-`2^64` representations are unique: a digest is the digest of its
/// value.
pub proof fn lemma_digest_from_value(d: Digest)
    ensures
        0 <= d.value(),
        d == digest_spec(d.value()),
{
    lemma_modulus_halves();
    lemma_pow2_adds(64, 64);
    lemma_pow2_adds(64, 128);
    let v = d.value();
    let q1 = d.l1 + d.l2 * pow2_int(64) + d.l3 * pow2_int(128);
    let q2 = d.l2 + d.l3 * pow2_int(64);
    let q3 = d.l3 as int;
    assert(v == q1 * pow2_int(64) + d.l0) by (nonlinear_arith)
        requires
            v == d.l0 + d.l1 * pow2_int(64) + d.l2 * pow2_int(128) + d.l3 * pow2_int(192),
            q1 == d.l1 + d.l2 * pow2_int(64) + d.l3 * pow2_int(128),
            pow2_int(128) == pow2_int(64) * pow2_int(64),
            pow2_int(192) == pow2_int(64) * pow2_int(128),
    ;
    assert(q1 == q2 * pow2_int(64) + d.l1) by (nonlinear_arith)
        requires
            q1 == d.l1 + d.l2 * pow2_int(64) + d.l3 * pow2_int(128),
            q2 == d.l2 + d.l3 * pow2_int(64),
            pow2_int(128) == pow2_int(64) * pow2_int(64),
    ;
    assert(0 <= q3 && 0 <= q2 && 0 <= q1 && 0 <= v) by (nonlinear_arith)
        requires
            v == q1 * pow2_int(64) + d.l0,
            q1 == q2 * pow2_int(64) + d.l1,
            q2 == q3 * pow2_int(64) + d.l2,
            0 <= q3,
            0 <= d.l0 && 0 <= d.l1 && 0 <= d.l2,
            pow2_int(64) > 0,
    ;
    vstd::arithmetic::div_mod::lemma_fundamental_div_mod_converse(
        v,
        pow2_int(64),
        q1,
        d.l0 as int,
    );
    vstd::arithmetic::div_mod::lemma_fundamental_div_mod_converse(
        q1,
        pow2_int(64),
        q2,
        d.l1 as int,
    );
    vstd::arithmetic::div_mod::lemma_fundamental_div_mod_converse(
        q2,
        pow2_int(64),
        q3,
        d.l2 as int,
    );
    lemma_small_mod(d.l3 as nat, pow2(64));
    assert(limb64(v, 0) == d.l0) by {
        lemma2_to64();
        vstd::arithmetic::div_mod::lemma_div_basics_2(v);
        lemma_small_mod(d.l0 as nat, pow2(64));
    }
    assert(limb64(v, 1) == d.l1) by {
        lemma_small_mod(d.l1 as nat, pow2(64));
    }
    assert(limb64(v, 2) == d.l2) by {
        assert(v / pow2_int(128) == q2) by {
            vstd::arithmetic::div_mod::lemma_div_denominator(v, pow2_int(64), pow2_int(64));
        }
        lemma_small_mod(d.l2 as nat, pow2(64));
    }
    assert(limb64(v, 3) == d.l3) by {
        assert(v / pow2_int(192) == q3) by {
            vstd::arithmetic::div_mod::lemma_div_denominator(v, pow2_int(64), pow2_int(64));
            vstd::arithmetic::div_mod::lemma_div_denominator(v, pow2_int(128), pow2_int(64));
        }
    }
}

/// The limbs of a sequence of digests, least significant first, in order:
/// the exact word stream the sponge absorbs.
pub open spec fn limbs_of(ds: Seq<Digest>) -> Seq<u64>
    decreases ds.len(),
{
    if ds.len() == 0 {
        Seq::empty()
    } else {
        limbs_of(ds.drop_last()) + seq![
            ds.last().l0,
            ds.last().l1,
            ds.last().l2,
            ds.last().l3,
        ]
    }
}

/// The limb stream of `n` digests has `4 * n` words.
pub proof fn lemma_limbs_len(ds: Seq<Digest>)
    ensures
        limbs_of(ds).len() == 4 * ds.len(),
    decreases ds.len(),
{
    if ds.len() > 0 {
        lemma_limbs_len(ds.drop_last());
    }
}

} // verus!
