use vstd::prelude::*;
use crate::scalar::Scalar;
use crate::vec3::{v3_add, v3_scale, Vec3, V3};

verus! {

/// The mathematical content of a ray.
pub struct RayM {
    pub origin: V3,
    pub direction: V3,
}

/// The point of the ray at parameter `t`: the origin plus `t` times the
/// direction.
pub open spec fn ray_at(r: RayM, t: int) -> V3 {
    v3_add(r.origin, v3_scale(r.direction, t))
}

/// A half-line: a point of origin and a direction, which need not have unit
/// length.
#[derive(Clone, Copy, Debug, PartialEq, Eq)]
pub struct Ray {
    a: Vec3,
    b: Vec3,
}

impl View for Ray {
    type V = RayM;

    closed spec fn view(&self) -> RayM {
        RayM { origin: self.a@, direction: self.b@ }
    }
}

impl Ray {
    pub fn new(origin: Vec3, direction: Vec3) -> (r: Ray)
        ensures
            r@ == (RayM { origin: origin@, direction: direction@ }),
    {
        Ray { a: origin, b: direction }
    }

    pub fn origin(&self) -> (r: Vec3)
        ensures
            r@ == self@.origin,
    {
        self.a
    }

    pub fn direction(&self) -> (r: Vec3)
        ensures
            r@ == self@.direction,
    {
        self.b
    }

    /// The point of the ray at parameter `t`.
    pub fn point_at_parameter(&self, t: Scalar) -> (r: Vec3)
        ensures
            r@ == ray_at(self@, t@),
    {
        self.a.add(self.b.mul(t))
    }
}

} // verus!
