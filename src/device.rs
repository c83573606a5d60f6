//! Accelerator devices, named by index.
use vstd::prelude::*;
use crate::Error;

verus! {

/// One accelerator device.
#[derive(Clone, Copy, Debug, PartialEq, Eq, Structural)]
pub struct CudaDevice {
    device: i32,
}

impl CudaDevice {
    pub closed spec fn index(&self) -> int {
        self.device as int
    }

    pub fn id(&self) -> (r: i32)
        ensures
            r as int == self.index(),
    {
        self.device
    }

    /// The device of index `idx` among `count` devices; a device error for an
    /// index past the last device.
    pub fn get_device(idx: usize, count: usize) -> (r: Result<CudaDevice, Error>)
        requires
            count <= i32::MAX,
        ensures
            r is Ok <==> idx < count,
            r is Ok ==> r.unwrap().index() == idx,
            r is Err ==> match r {
                Err(Error::DeviceError(m)) => m@ == invalid_index_message(idx as nat),
                _ => false,
            },
    {
        if idx < count {
            Ok(CudaDevice { device: idx as i32 })
        } else {
            Err(Error::DeviceError(format_invalid_index(idx)))
        }
    }
}

/// The decimal digits of `n`, most significant first.
pub open spec fn decimal(n: nat) -> Seq<char>
    decreases n,
{
    let digits = seq!['0', '1', '2', '3', '4', '5', '6', '7', '8', '9'];
    if n < 10 {
        seq![digits[n as int]]
    } else {
        decimal(n / 10).push(digits[(n % 10) as int])
    }
}

/// The message of the error for a device index past the last device.
pub open spec fn invalid_index_message(idx: nat) -> Seq<char> {
    "Cuda Error(): Invalid device idx "@ + decimal(idx)
}

/// Relies on std's `format!` with `{}` on a `usize`: the text, then the
/// number in decimal.
#[verifier::external_body]
fn format_invalid_index(idx: usize) -> (r: String)
    ensures
        r@ == invalid_index_message(idx as nat),
{
    format!("Cuda Error(): Invalid device idx {}", idx)
}

} // verus!
