use vstd::prelude::*;
use crate::ray::{Ray, RayM};
use crate::scalar::Scalar;
use crate::vec3::{v3_add, v3_scale, v3_sub, Point3, Vec3, V3};

verus! {

/// The mathematical content of a camera.
pub struct CameraM {
    pub origin: V3,
    pub lower_left_corner: V3,
    pub vertical: V3,
    pub horizontal: V3,
}

/// The point of the image plane at `u` of its width from the left and `v` of
/// its height from the bottom.
pub open spec fn image_point(c: CameraM, u: int, v: int) -> V3 {
    v3_add(v3_add(c.lower_left_corner, v3_scale(c.horizontal, u)), v3_scale(c.vertical, v))
}

/// The ray from the eye toward a point of the image plane: its direction is
/// the offset of that point from the eye.
pub open spec fn camera_ray(c: CameraM, u: int, v: int) -> RayM {
    RayM { origin: c.origin, direction: v3_sub(image_point(c, u, v), c.origin) }
}

/// The eye point and the image plane, fixed once built.
#[derive(Clone, Copy, Debug, PartialEq, Eq)]
pub struct Camera {
    origin: Point3,
    lower_left_corner: Point3,
    vertical: Vec3,
    horizontal: Vec3,
}

impl View for Camera {
    type V = CameraM;

    closed spec fn view(&self) -> CameraM {
        CameraM {
            origin: self.origin@,
            lower_left_corner: self.lower_left_corner@,
            vertical: self.vertical@,
            horizontal: self.horizontal@,
        }
    }
}

impl Camera {
    pub fn new(origin: Point3, lower_left_corner: Point3, vertical: Vec3, horizontal: Vec3) -> (r:
        Camera)
        ensures
            r@ == (CameraM {
                origin: origin@,
                lower_left_corner: lower_left_corner@,
                vertical: vertical@,
                horizontal: horizontal@,
            }),
    {
        Camera { origin, lower_left_corner, vertical, horizontal }
    }

    /// The ray through the image plane at `(u, v)`.
    pub fn get_ray(&self, u: Scalar, v: Scalar) -> (r: Ray)
        ensures
            r@ == camera_ray(self@, u@, v@),
    {
        Ray::new(
            self.origin,
            self.lower_left_corner.add(self.horizontal.mul(u)).add(self.vertical.mul(v)).sub(
                self.origin,
            ),
        )
    }
}

} // verus!
