//! The verified core of a GPU proving pipeline for a PLONK-style prover:
//! the device buffer cache, the lookup and copy-permutation grand products,
//! host-side expression evaluation, and the lowering of gate expressions into
//! device operations.
use vstd::prelude::*;
use vstd::arithmetic::power2::pow2;
use crate::field::Scalar;

pub mod cache;
pub mod column;
pub mod device;
pub mod eval;
pub mod expr;
pub mod field;
pub mod lookup;
pub mod permutation;

verus! {

/// The errors of the proving pipeline. All of them end the proof attempt.
#[derive(Debug)]
pub enum Error {
    /// A device call failed; the message says which and why.
    DeviceError(String),
    /// A buffer was released whose address the cache already holds.
    DuplicateCachedBuffer { device: i32, size: usize, addr: usize },
}

/// `columns` zero-filled advice columns of `2^k` rows each.
pub fn prepare_advice_buffer(k: u32, columns: usize) -> (r: Vec<Vec<Scalar>>)
    requires
        k < 64,
        pow2(k as nat) <= usize::MAX,
    ensures
        r@.len() == columns,
        forall|i: int| 0 <= i < columns ==> (#[trigger] r@[i])@.len() == pow2(k as nat),
        forall|i: int, j: int|
            0 <= i < columns && 0 <= j < pow2(k as nat) ==> #[trigger] r@[i]@[j].val() == 0,
{
    proof {
        vstd::arithmetic::power2::lemma2_to64();
        vstd::arithmetic::power2::lemma_pow2_strictly_increases(k as nat, 64);
        vstd::bits::lemma_u64_shl_is_mul(1, k as u64);
    }
    let rows: usize = (1u64 << (k as u64)) as usize;
    let zero = Scalar::zero();
    let mut r: Vec<Vec<Scalar>> = Vec::new();
    while r.len() < columns
        invariant
            r@.len() <= columns,
            zero.val() == 0,
            rows == pow2(k as nat),
            forall|i: int| 0 <= i < r@.len() ==> (#[trigger] r@[i])@.len() == rows,
            forall|i: int, j: int|
                0 <= i < r@.len() && 0 <= j < rows ==> #[trigger] r@[i]@[j].val() == 0,
        decreases columns - r.len(),
    {
        let mut buf: Vec<Scalar> = Vec::new();
        while buf.len() < rows
            invariant
                buf@.len() <= rows,
                zero.val() == 0,
                forall|j: int| 0 <= j < buf@.len() ==> #[trigger] buf@[j].val() == 0,
            decreases rows - buf.len(),
        {
            buf.push(zero);
        }
        r.push(buf);
    }
    r
}

} // verus!
