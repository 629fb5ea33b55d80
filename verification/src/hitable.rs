use vstd::prelude::*;
use std::rc::Rc;
use crate::material::{MaterialKind, MaterialM};
use crate::ray::{Ray, RayM};
use crate::scalar::{lemma_tdiv_neg, Scalar, SCALE};
use crate::vec3::{exact_dot, v3_dot, v3_neg, Point3, Vec3, V3};

verus! {

/// The mathematical content of a hit record.
pub struct HitM {
    pub t: int,
    pub p: V3,
    pub normal: V3,
    pub front_face: bool,
    pub material: MaterialM,
}

/// A ray of the given direction strikes the surface from outside: it runs
/// against the outward normal.
pub open spec fn strikes_front(direction: V3, outward: V3) -> bool {
    v3_dot(direction, outward) < 0
}

/// The normal turned against the ray: the outward normal where the ray
/// strikes from outside, else its opposite.
pub open spec fn face_normal(direction: V3, outward: V3) -> V3 {
    if strikes_front(direction, outward) {
        outward
    } else {
        v3_neg(outward)
    }
}

/// The dot product changes sign with its second argument.
pub proof fn lemma_dot_neg(a: V3, b: V3)
    ensures
        v3_dot(a, v3_neg(b)) == -v3_dot(a, b),
{
    assert(exact_dot(a, v3_neg(b)) == -exact_dot(a, b)) by (nonlinear_arith)
        requires
            exact_dot(a, v3_neg(b)) == a.x * (-b.x) + a.y * (-b.y) + a.z * (-b.z),
            exact_dot(a, b) == a.x * b.x + a.y * b.y + a.z * b.z,
    ;
    lemma_tdiv_neg(exact_dot(a, b), SCALE as int);
}

/// The normal turned against a ray never runs along it: their dot product is
/// at most zero, and negative unless the ray grazes the surface.
pub proof fn lemma_face_normal_opposes(direction: V3, outward: V3)
    ensures
        v3_dot(direction, face_normal(direction, outward)) <= 0,
        v3_dot(direction, outward) != 0 ==> v3_dot(direction, face_normal(direction, outward)) < 0,
{
    lemma_dot_neg(direction, outward);
}

/// Where and how a ray struck a surface.
#[derive(Debug)]
pub struct HitRecord {
    t: Scalar,
    p: Point3,
    normal: Vec3,
    front_face: bool,
    material: Rc<MaterialKind>,
}

impl View for HitRecord {
    type V = HitM;

    closed spec fn view(&self) -> HitM {
        HitM {
            t: self.t@,
            p: self.p@,
            normal: self.normal@,
            front_face: self.front_face,
            material: (*self.material)@,
        }
    }
}

impl HitRecord {
    pub fn new(t: Scalar, p: Point3, normal: Vec3, front_face: bool, material: Rc<MaterialKind>) -> (r:
        HitRecord)
        ensures
            r@ == (HitM {
                t: t@,
                p: p@,
                normal: normal@,
                front_face: front_face,
                material: (*material)@,
            }),
    {
        HitRecord { t, p, normal, front_face, material }
    }

    pub fn get_front_face(&self) -> (r: bool)
        ensures
            r == self@.front_face,
    {
        self.front_face
    }

    pub fn get_material(&self) -> (r: Rc<MaterialKind>)
        ensures
            (*r)@ == self@.material,
    {
        self.material.clone()
    }

    pub fn get_t(&self) -> (r: Scalar)
        ensures
            r@ == self@.t,
    {
        self.t
    }

    pub fn get_point(&self) -> (r: Point3)
        ensures
            r@ == self@.p,
    {
        self.p
    }

    pub fn get_normal(&self) -> (r: Vec3)
        ensures
            r@ == self@.normal,
    {
        self.normal
    }

    /// Records on which side the ray `r` struck, and turns the normal
    /// against it.
    pub fn set_face_normal(&mut self, r: &Ray, outward_normal: Vec3)
        ensures
            final(self)@ == (HitM {
                front_face: strikes_front(r@.direction, outward_normal@),
                normal: face_normal(r@.direction, outward_normal@),
                ..old(self)@
            }),
            v3_dot(r@.direction, final(self)@.normal) <= 0,
    {
        proof {
            lemma_face_normal_opposes(r@.direction, outward_normal@);
        }
        self.front_face = r.direction().dot(outward_normal).lt(Scalar::zero());
        self.normal = if self.front_face {
            outward_normal
        } else {
            outward_normal.neg()
        };
    }
}

/// The mathematical content of the result of a hit test.
pub open spec fn hit_view(res: Option<HitRecord>) -> Option<HitM> {
    match res {
        Some(rec) => Some(rec@),
        None => None,
    }
}

/// Something that a ray can strike.
pub trait Hitable {
    /// The hit that `hit` reports.
    spec fn hit_spec(&self, r: RayM, t_min: int, t_max: int) -> Option<HitM>;

    /// The closest intersection of the ray with a parameter strictly between
    /// `t_min` and `t_max`, or nothing. The normal of the record is turned
    /// against the ray.
    fn hit(&self, r: &Ray, t_min: Scalar, t_max: Scalar) -> (res: Option<HitRecord>)
        ensures
            hit_view(res) == self.hit_spec(r@, t_min@, t_max@),
            res matches Some(rec) ==> t_min@ < rec@.t < t_max@,
            res matches Some(rec) ==> v3_dot(r@.direction, rec@.normal) <= 0,
    ;
}

} // verus!
