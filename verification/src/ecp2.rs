//! Points of the G2 twist curve, in projective coordinates over the
//! quadratic extension. This module holds the point representation used
//! by the isogeny evaluation; the point at infinity is encoded by a zero
//! third coordinate.

use vstd::prelude::*;
#[allow(unused_imports)]
use crate::fp2::FP2;

verus! {

/// A projective point of the G2 twist curve.
#[derive(Clone, Copy)]
pub struct ECP2 {
    pub x: FP2,
    pub y: FP2,
    pub z: FP2,
}

impl ECP2 {
    /// All coordinates satisfy the excess invariant.
    pub open spec fn wf(self) -> bool {
        self.x.wf() && self.y.wf() && self.z.wf()
    }

    /// A point from three projective coordinates.
    pub fn new_projective(x: FP2, y: FP2, z: FP2) -> (r: ECP2)
        ensures
            r.x == x,
            r.y == y,
            r.z == z,
    {
        ECP2 { x, y, z }
    }

    /// Whether this point is the point at infinity (zero third
    /// coordinate).
    pub fn is_infinity(&self) -> (r: bool)
        requires
            self.wf(),
        ensures
            r <==> self.z.fe2() == (0int, 0int),
    {
        self.z.iszilch()
    }
}

} // verus!
