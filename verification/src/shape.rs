//! The shape of a batched transform.
use vstd::arithmetic::power2::*;
use vstd::prelude::*;

verus! {

/// The data of a batched transform as a tensor with three axes.
///
/// The scalar at `(x, y, z)` has the index `x + 2^log_x (y + 2^log_y z)`, and the transform runs
/// along the axis of `y`.
#[derive(Clone, Copy, Debug, PartialEq, Eq)]
pub struct NTTShape {
    pub log_x: usize,
    pub log_y: usize,
    pub log_z: usize,
}

impl NTTShape {
    /// The binary logarithm of the number of scalars.
    pub open spec fn log_size(&self) -> nat {
        (self.log_x + self.log_y + self.log_z) as nat
    }
}

impl Default for NTTShape {
    fn default() -> (r: Self)
        ensures
            r == (NTTShape { log_x: 0, log_y: 0, log_z: 0 }),
    {
        NTTShape { log_x: 0, log_y: 0, log_z: 0 }
    }
}

/// Tells whether data of `len` vectors of `2^log_w` scalars has the given shape. Data of one or
/// two vectors may also be larger than its shape.
pub open spec fn batch_fits(len: nat, log_w: nat, shape: NTTShape) -> bool {
    &&& pow2(shape.log_size()) <= len * pow2(log_w)
    &&& len > 2 ==> pow2(shape.log_size()) == len * pow2(log_w)
}

} // verus!
