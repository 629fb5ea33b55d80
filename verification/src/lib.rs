//! A path tracer for scenes of spheres, in saturating decimal fixed-point
//! arithmetic: vectors and rays, the intersection of rays with spheres and
//! with lists of them, diffuse, metallic and dielectric materials, a camera,
//! and the recursive estimate of the light that arrives along a ray.
use vstd::prelude::*;

pub mod wide;
pub mod scalar;
pub mod text;
pub mod random;
pub mod vec3;
pub mod ray;
pub mod material;
pub mod hitable;
pub mod sphere;
pub mod hitable_list;
pub mod camera;
pub mod trace;

pub use crate::camera::Camera;
pub use crate::hitable::{HitRecord, Hitable};
pub use crate::hitable_list::HitableList;
pub use crate::material::{Dielectric, Draw, Lambertian, Material, MaterialKind, Metal};
pub use crate::ray::Ray;
pub use crate::scalar::Scalar;
pub use crate::sphere::Sphere;
pub use crate::trace::{color, color_with};
pub use crate::vec3::{Color, Point3, Vec3};
