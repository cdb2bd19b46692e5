//! Rays: an origin and a direction, with parametrized point evaluation.
//! The direction need not be unit length; the scale of the parameter `t`
//! is ray-local.

use vstd::prelude::*;

verus! {

use crate::vector3::V3;
use crate::vector3::Vec3;
use crate::vector3::fits_i64;
use crate::vector3::vadd;
use crate::vector3::vscale;

/// A ray; `a` is the origin and `b` the direction.
#[derive(Clone, Copy, Debug, PartialEq, Eq, Structural)]
pub struct Ray {
    pub a: Vec3,
    pub b: Vec3,
}

/// The point reached at parameter `t`: `origin + direction * t`.
pub open spec fn point_at(origin: V3, dir: V3, t: int) -> V3 {
    vadd(origin, vscale(dir, t))
}

impl Ray {
    /// The ray's origin.
    pub fn origin(&self) -> (r: Vec3)
        ensures
            r == self.a,
    {
        self.a
    }

    /// The ray's direction.
    pub fn direction(&self) -> (r: Vec3)
        ensures
            r == self.b,
    {
        self.b
    }

    /// The point reached at parameter `t`.
    pub fn point_at_parameter(&self, t: i64) -> (r: Vec3)
        requires
            fits_i64(vscale(self.b@, t as int)),
            fits_i64(point_at(self.a@, self.b@, t as int)),
        ensures
            r@ == point_at(self.a@, self.b@, t as int),
    {
        self.a.add(self.b.scale(t))
    }
}

} // verus!
