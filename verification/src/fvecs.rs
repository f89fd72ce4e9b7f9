//! The `.fvecs` benchmark-vector layout: each record is a 4-byte
//! little-endian dimension header followed by that many 4-byte
//! little-endian scalars.
//!
//! Parsing is pure byte work, so it is verified here; reading the file and
//! turning the raw scalar words into numbers belong to the surrounding
//! tooling.

use vstd::prelude::*;
use vstd::arithmetic::div_mod::lemma_fundamental_div_mod;
use vstd::arithmetic::mul::lemma_mul_inequality;

use crate::GadgetError;

verus! {

/// The 32-bit little-endian word at byte offset `off`.
pub open spec fn le32(b: Seq<u8>, off: int) -> int
    recommends
        0 <= off,
        off + 4 <= b.len(),
{
    b[off] + b[off + 1] * 0x100 + b[off + 2] * 0x10000 + b[off + 3] * 0x1000000
}

/// The number of whole records the byte string holds.
pub open spec fn record_count(b: Seq<u8>, dims: nat) -> int {
    (b.len() as int) / (4 + 4 * dims as int)
}

/// Every record's dimension header matches the expected dimension.
pub open spec fn headers_ok(b: Seq<u8>, dims: nat) -> bool {
    forall|r: int|
        0 <= r < record_count(b, dims) ==> #[trigger] le32(b, r * (4 + 4 * dims as int)) == dims
}

/// Reads the 32-bit little-endian word at `off`.
fn read_le32(data: &Vec<u8>, off: usize) -> (r: u32)
    requires
        off + 4 <= data@.len(),
    ensures
        r == le32(data@, off as int),
{
    let n = data.len();
    proof {
        assert(off + 4 <= n);
    }
    (data[off] as u32) + (data[off + 1] as u32) * 0x100 + (data[off + 2] as u32) * 0x10000 + (data[
        off + 3] as u32) * 0x1000000
}

/// Splits a raw `.fvecs` byte string into the scalar words of its records.
///
/// Whole records are taken from the front, `data.len() / (4 + 4 * dims)` of
/// them, as many as fit; trailing bytes are ignored.  Each record must
/// declare the expected dimension; a record that declares another one is a
/// build-time contract violation.  The returned words are the records'
/// scalars in order, 32-bit little-endian payloads left uninterpreted.
#[verifier::loop_isolation(false)]
pub fn fetch_vectors(data: &Vec<u8>, dims: usize) -> (r: Result<Vec<u32>, GadgetError>)
    requires
        dims <= 65536,
    ensures
        r is Ok <==> headers_ok(data@, dims as nat),
        r is Err ==> r->Err_0 == GadgetError::LengthMismatch,
        r is Ok ==> {
            let rs = 4 + 4 * dims as int;
            &&& r->Ok_0@.len() == record_count(data@, dims as nat) * dims as int
            &&& forall|rec: int, j: int|
                0 <= rec < record_count(data@, dims as nat) && 0 <= j < dims
                    ==> #[trigger] r->Ok_0@[rec * dims as int + j] == le32(
                    data@,
                    rec * rs + 4 + 4 * j,
                )
        },
{
    let rs: usize = 4 + 4 * dims;
    let count: usize = data.len() / rs;
    let ghost cnt = record_count(data@, dims as nat);
    proof {
        lemma_fundamental_div_mod(data@.len() as int, rs as int);
        vstd::arithmetic::div_mod::lemma_mod_bound(data@.len() as int, rs as int);
    }
    let mut out: Vec<u32> = Vec::new();
    let mut rec: usize = 0;
    while rec < count
        invariant
            0 <= rec <= count,
            out@.len() == rec * dims,
            forall|r2: int| 0 <= r2 < rec ==> #[trigger] le32(data@, r2 * (rs as int)) == dims,
            forall|r2: int, j: int|
                0 <= r2 < rec && 0 <= j < dims ==> #[trigger] out@[r2 * dims as int + j] == le32(
                    data@,
                    r2 * (rs as int) + 4 + 4 * j,
                ),
        decreases count - rec,
    {
        proof {
            lemma_mul_inequality(rec as int + 1, cnt, rs as int);
            assert(cnt * (rs as int) <= data@.len());
            assert((rec as int + 1) * (rs as int) == rec as int * (rs as int) + rs as int)
                by (nonlinear_arith);
            vstd::arithmetic::mul::lemma_mul_nonnegative(rec as int, rs as int);
        }
        let base: usize = rec * rs;
        let header = read_le32(data, base);
        if header as usize != dims {
            return Err(GadgetError::LengthMismatch);
        }
        let mut j: usize = 0;
        while j < dims
            invariant
                0 <= j <= dims,
                0 <= rec < count,
                base == rec * rs,
                base + rs <= data@.len(),
                out@.len() == rec * dims + j,
                forall|r2: int| 0 <= r2 < rec ==> #[trigger] le32(data@, r2 * (rs as int)) == dims,
                forall|r2: int, j2: int|
                    0 <= r2 < rec && 0 <= j2 < dims ==> #[trigger] out@[r2 * dims as int + j2]
                        == le32(data@, r2 * (rs as int) + 4 + 4 * j2),
                forall|j2: int|
                    0 <= j2 < j ==> #[trigger] out@[rec as int * dims as int + j2] == le32(
                        data@,
                        rec as int * (rs as int) + 4 + 4 * j2,
                    ),
            decreases dims - j,
        {
            let ghost prev = out@;
            let w = read_le32(data, base + 4 + 4 * j);
            out.push(w);
            proof {
                assert forall|r2: int, j2: int|
                    0 <= r2 < rec && 0 <= j2 < dims implies #[trigger] out@[r2 * dims as int + j2]
                    == le32(data@, r2 * (rs as int) + 4 + 4 * j2) by {
                    lemma_flat_index(r2, j2, rec as int, dims as int);
                    assert(out@[r2 * dims as int + j2] == prev[r2 * dims as int + j2]);
                }
            }
            j = j + 1;
        }
        proof {
            assert((rec as int + 1) * (dims as int) == rec as int * (dims as int) + dims)
                by (nonlinear_arith);
        }
        rec = rec + 1;
    }
    proof {
        assert(out@.len() == cnt * dims as int);
    }
    Ok(out)
}

/// A flat record-major index lies below the start of the current record.
proof fn lemma_flat_index(r2: int, j2: int, rec: int, dims: int)
    requires
        0 <= r2 < rec,
        0 <= j2 < dims,
    ensures
        0 <= r2 * dims + j2 < rec * dims,
{
    assert(0 <= r2 * dims + j2 < rec * dims) by (nonlinear_arith)
        requires
            0 <= r2 < rec,
            0 <= j2 < dims,
    ;
}

} // verus!
