use vstd::prelude::*;
use std::rc::Rc;
use crate::hitable::{
    face_normal, hit_view, lemma_face_normal_opposes, strikes_front, HitM, HitRecord, Hitable,
};
use crate::material::{MaterialKind, MaterialM};
use crate::ray::{ray_at, Ray, RayM};
use crate::scalar::{
    is_isqrt, isqrt, lemma_isqrt_exists, lemma_isqrt_unique, lemma_square_of_magnitude,
    lemma_tdiv_monotone, lemma_tdiv_remainder, magnitude, sat, tdiv, Scalar, RAW_MAX, SCALE,
};
use crate::vec3::{exact_dot, lemma_cauchy_schwarz, v3_div, v3_dot, v3_sub, Point3, Vec3, V3};
use crate::wide::{mul_wide, Wide, LIMB};

verus! {

/// The mathematical content of a sphere.
pub struct SphereM {
    pub center: V3,
    pub radius: int,
    pub material: MaterialM,
}

/// The offset of the ray's origin from the centre, exact.
pub open spec fn offset(s: SphereM, r: RayM) -> V3 {
    V3 {
        x: r.origin.x - s.center.x,
        y: r.origin.y - s.center.y,
        z: r.origin.z - s.center.z,
    }
}

/// Leading coefficient of the quadratic in the ray parameter: the squared
/// length of the direction, exact.
pub open spec fn quad_a(r: RayM) -> int {
    exact_dot(r.direction, r.direction)
}

/// Half of the linear coefficient: the offset of the origin from the centre,
/// dotted with the direction, exact.
pub open spec fn quad_half_b(s: SphereM, r: RayM) -> int {
    exact_dot(offset(s, r), r.direction)
}

/// Constant coefficient: the squared distance of the origin from the centre,
/// less the squared radius, exact.
pub open spec fn quad_c(s: SphereM, r: RayM) -> int {
    exact_dot(offset(s, r), offset(s, r)) - s.radius * s.radius
}

/// Quarter of the discriminant of the quadratic, exact.
pub open spec fn discriminant(s: SphereM, r: RayM) -> int {
    quad_half_b(s, r) * quad_half_b(s, r) - quad_a(r) * quad_c(s, r)
}

/// A root of the quadratic as a fixed-point value: `numerator / a`, rounded
/// toward zero once, then saturated.
pub open spec fn quad_root(numerator: int, a: int) -> int {
    sat(tdiv(SCALE * numerator, a))
}

/// The smaller root of the quadratic.
pub open spec fn near_root(s: SphereM, r: RayM) -> int {
    quad_root(-quad_half_b(s, r) - isqrt(discriminant(s, r)), quad_a(r))
}

/// The larger root of the quadratic.
pub open spec fn far_root(s: SphereM, r: RayM) -> int {
    quad_root(-quad_half_b(s, r) + isqrt(discriminant(s, r)), quad_a(r))
}

/// The normal at a point of the sphere: the offset from the centre divided
/// by the radius, which points inward where the radius is negative.
pub open spec fn outward_normal(s: SphereM, p: V3) -> V3 {
    v3_div(v3_sub(p, s.center), s.radius)
}

/// The record of the ray striking the sphere at parameter `t`.
pub open spec fn hit_at(s: SphereM, r: RayM, t: int) -> HitM {
    let p = ray_at(r, t);
    HitM {
        t,
        p,
        normal: face_normal(r.direction, outward_normal(s, p)),
        front_face: strikes_front(r.direction, outward_normal(s, p)),
        material: s.material,
    }
}

/// `t` lies strictly between the two bounds.
pub open spec fn in_window(t: int, t_min: int, t_max: int) -> bool {
    t_min < t < t_max
}

/// The hit of a ray on a sphere: none where the direction is the zero vector
/// or the discriminant is negative;
/// else at the smaller root where it lies in the window, else at the larger
/// root where that one does, else none.
#[verifier::opaque]
pub open spec fn sphere_hit(s: SphereM, r: RayM, t_min: int, t_max: int) -> Option<HitM> {
    if quad_a(r) == 0 || discriminant(s, r) < 0 {
        None
    } else if in_window(near_root(s, r), t_min, t_max) {
        Some(hit_at(s, r, near_root(s, r)))
    } else if in_window(far_root(s, r), t_min, t_max) {
        Some(hit_at(s, r, far_root(s, r)))
    } else {
        None
    }
}

/// The leading coefficient is never negative, and zero only for the zero
/// direction.
pub proof fn lemma_quad_a_nonneg(r: RayM)
    ensures
        quad_a(r) >= 0,
        quad_a(r) == 0 <==> r.direction == (V3 { x: 0, y: 0, z: 0 }),
{
    let d = r.direction;
    assert(d.x * d.x >= 0 && (d.x * d.x == 0 <==> d.x == 0)) by (nonlinear_arith);
    assert(d.y * d.y >= 0 && (d.y * d.y == 0 <==> d.y == 0)) by (nonlinear_arith);
    assert(d.z * d.z >= 0 && (d.z * d.z == 0 <==> d.z == 0)) by (nonlinear_arith);
}

/// The smaller root does not exceed the larger one.
pub proof fn lemma_roots_ordered(s: SphereM, r: RayM)
    requires
        quad_a(r) > 0,
        discriminant(s, r) >= 0,
    ensures
        near_root(s, r) <= far_root(s, r),
{
    lemma_isqrt_exists(discriminant(s, r));
    let root = isqrt(discriminant(s, r));
    let h = quad_half_b(s, r);
    assert(SCALE * (-h - root) <= SCALE * (-h + root)) by (nonlinear_arith)
        requires
            root >= 0,
    ;
    lemma_tdiv_monotone(SCALE * (-h - root), SCALE * (-h + root), quad_a(r));
}

/// A hit is the nearest intersection in its window: its parameter lies in
/// the window, and neither root lies in the window below it.
pub proof fn lemma_sphere_hit_nearest(s: SphereM, r: RayM, t_min: int, t_max: int)
    ensures
        sphere_hit(s, r, t_min, t_max) matches Some(h) ==> {
            &&& in_window(h.t, t_min, t_max)
            &&& h.t == near_root(s, r) || h.t == far_root(s, r)
            &&& h == hit_at(s, r, h.t)
            &&& !in_window(near_root(s, r), t_min, h.t)
            &&& !in_window(far_root(s, r), t_min, h.t)
        },
{
    reveal(sphere_hit);
    lemma_quad_a_nonneg(r);
    if quad_a(r) > 0 && discriminant(s, r) >= 0 {
        lemma_roots_ordered(s, r);
    }
}

/// The parameter of a hit lies strictly inside the window.
pub proof fn lemma_sphere_hit_in_window(s: SphereM, r: RayM, t_min: int, t_max: int)
    ensures
        sphere_hit(s, r, t_min, t_max) matches Some(h) ==> t_min < h.t < t_max,
{
    reveal(sphere_hit);
}

/// The offset from the centre of the point of the ray at raw parameter `t`,
/// before any rounding, in billionths of a raw unit.
pub open spec fn scaled_offset(s: SphereM, r: RayM, t: int) -> V3 {
    V3 {
        x: SCALE * offset(s, r).x + t * r.direction.x,
        y: SCALE * offset(s, r).y + t * r.direction.y,
        z: SCALE * offset(s, r).z + t * r.direction.z,
    }
}

/// How far the point of the ray at raw parameter `t` is from the surface:
/// its exact squared distance from the centre less the squared radius, in
/// squared billionths of a raw unit.
pub open spec fn surface_defect(s: SphereM, r: RayM, t: int) -> int {
    exact_dot(scaled_offset(s, r, t), scaled_offset(s, r, t)) - (SCALE * SCALE) * (s.radius
        * s.radius)
}

/// The defect is the quadratic of the intersection at `t`.
pub proof fn lemma_defect_is_quadratic(s: SphereM, r: RayM, t: int)
    ensures
        surface_defect(s, r, t) == quad_a(r) * (t * t) + 2 * SCALE * (quad_half_b(s, r) * t)
            + (SCALE * SCALE) * quad_c(s, r),
{
    let e = offset(s, r);
    let d = r.direction;
    let x = scaled_offset(s, r, t);
    lemma_square_of_sum(e.x, d.x, t);
    lemma_square_of_sum(e.y, d.y, t);
    lemma_square_of_sum(e.z, d.z, t);
    let a = quad_a(r);
    let h = quad_half_b(s, r);
    assert(a * (t * t) == (d.x * d.x) * (t * t) + (d.y * d.y) * (t * t) + (d.z * d.z) * (t * t))
        by (nonlinear_arith)
        requires
            a == d.x * d.x + d.y * d.y + d.z * d.z,
    ;
    assert(h * t == (e.x * d.x) * t + (e.y * d.y) * t + (e.z * d.z) * t) by (nonlinear_arith)
        requires
            h == e.x * d.x + e.y * d.y + e.z * d.z,
    ;
    let ee = e.x * e.x + e.y * e.y + e.z * e.z;
    let rr = s.radius * s.radius;
    assert((SCALE * SCALE) * quad_c(s, r) == (SCALE * SCALE) * (e.x * e.x) + (SCALE * SCALE) * (e.y
        * e.y) + (SCALE * SCALE) * (e.z * e.z) - (SCALE * SCALE) * rr) by (nonlinear_arith)
        requires
            quad_c(s, r) == e.x * e.x + e.y * e.y + e.z * e.z - rr,
    ;
    assert(2 * SCALE * (h * t) == 2 * SCALE * ((e.x * d.x) * t) + 2 * SCALE * ((e.y * d.y) * t) + 2
        * SCALE * ((e.z * d.z) * t)) by (nonlinear_arith)
        requires
            h * t == (e.x * d.x) * t + (e.y * d.y) * t + (e.z * d.z) * t,
    ;
    assert(x.x == SCALE * e.x + t * d.x);
    assert(x.y == SCALE * e.y + t * d.y);
    assert(x.z == SCALE * e.z + t * d.z);
    assert(exact_dot(x, x) == x.x * x.x + x.y * x.y + x.z * x.z);
}

/// The square of `SCALE * e + t * d`, term by term.
proof fn lemma_square_of_sum(e: int, d: int, t: int)
    ensures
        (SCALE * e + t * d) * (SCALE * e + t * d) == (SCALE * SCALE) * (e * e) + 2 * SCALE * ((e
            * d) * t) + (d * d) * (t * t),
{
    assert((SCALE * e + t * d) * (SCALE * e + t * d) == (SCALE * SCALE) * (e * e) + 2 * SCALE * ((e
        * d) * t) + (d * d) * (t * t)) by (nonlinear_arith);
}

/// At a root that was rounded toward zero, the quadratic is small: with `a`
/// the leading coefficient, `root` the integer square root of the
/// discriminant and `t` the rounded root, `a` times its value is at most
/// `2 SCALE root (SCALE + a) + a a` in magnitude.
pub proof fn lemma_quadratic_at_rounded_root(a: int, h: int, c: int, root: int, sign: int, t: int)
    requires
        a > 0,
        is_isqrt(h * h - a * c, root),
        sign == 1 || sign == -1,
        t == tdiv(SCALE * (-h + sign * root), a),
    ensures
        a * magnitude(a * (t * t) + 2 * SCALE * (h * t) + (SCALE * SCALE) * c) <= 2 * SCALE * root
            * (SCALE + a) + a * a,
{
    let disc = h * h - a * c;
    let n = SCALE * (-h + sign * root);
    lemma_tdiv_remainder(n, a);
    let rest = n - a * t;
    let f = a * (t * t) + 2 * SCALE * (h * t) + (SCALE * SCALE) * c;
    let lead = a * t + SCALE * h;
    assert(lead == SCALE * (sign * root) - rest) by (nonlinear_arith)
        requires
            lead == a * t + SCALE * h,
            rest == SCALE * (-h + sign * root) - a * t,
    ;
    let u = a * t;
    let v = SCALE * h;
    assert(lead * lead == u * u + 2 * (u * v) + v * v) by (nonlinear_arith)
        requires
            lead == u + v,
    ;
    assert(a * (a * (t * t)) == u * u) by (nonlinear_arith)
        requires
            u == a * t,
    ;
    assert(a * (2 * SCALE * (h * t)) == 2 * (u * v)) by (nonlinear_arith)
        requires
            u == a * t,
            v == SCALE * h,
    ;
    assert(v * v == (SCALE * SCALE) * (h * h)) by (nonlinear_arith)
        requires
            v == SCALE * h,
    ;
    assert(a * ((SCALE * SCALE) * c) == (SCALE * SCALE) * (a * c)) by (nonlinear_arith);
    assert(a * f == a * (a * (t * t)) + a * (2 * SCALE * (h * t)) + a * ((SCALE * SCALE) * c))
        by (nonlinear_arith)
        requires
            f == a * (t * t) + 2 * SCALE * (h * t) + (SCALE * SCALE) * c,
    ;
    assert((SCALE * SCALE) * disc == (SCALE * SCALE) * (h * h) - (SCALE * SCALE) * (a * c))
        by (nonlinear_arith)
        requires
            disc == h * h - a * c,
    ;
    assert(a * f == lead * lead - (SCALE * SCALE) * disc);
    let k = SCALE * root;
    assert(lead * lead == k * k - 2 * (sign * k) * rest + rest * rest) by (nonlinear_arith)
        requires
            lead == SCALE * (sign * root) - rest,
            k == SCALE * root,
            sign == 1 || sign == -1,
    ;
    assert(k * k == (SCALE * SCALE) * (root * root)) by (nonlinear_arith)
        requires
            k == SCALE * root,
    ;
    let gap = disc - root * root;
    assert(0 <= gap <= 2 * root) by (nonlinear_arith)
        requires
            gap == disc - root * root,
            root * root <= disc,
            disc < (root + 1) * (root + 1),
    ;
    assert(a * f == rest * rest - 2 * (sign * k) * rest - (SCALE * SCALE) * gap)
        by (nonlinear_arith)
        requires
            a * f == lead * lead - (SCALE * SCALE) * disc,
            lead * lead == k * k - 2 * (sign * k) * rest + rest * rest,
            k * k == (SCALE * SCALE) * (root * root),
            gap == disc - root * root,
    ;
    assert(0 <= rest * rest <= a * a) by (nonlinear_arith)
        requires
            magnitude(rest) < a,
    ;
    assert(magnitude(2 * (sign * k) * rest) <= 2 * k * a) by (nonlinear_arith)
        requires
            magnitude(rest) < a,
            k >= 0,
            sign == 1 || sign == -1,
    ;
    assert(0 <= (SCALE * SCALE) * gap <= 2 * SCALE * k) by (nonlinear_arith)
        requires
            0 <= gap <= 2 * root,
            k == SCALE * root,
    ;
    assert(2 * SCALE * root * (SCALE + a) == 2 * SCALE * k + 2 * k * a) by (nonlinear_arith)
        requires
            k == SCALE * root,
    ;
    assert(a * magnitude(f) == magnitude(a * f)) by (nonlinear_arith)
        requires
            a > 0,
    ;
}

/// The discriminant is at most the squared length of the direction times the
/// squared radius, so that its root is at most the length of the direction
/// times the radius.
pub proof fn lemma_discriminant_bounded(s: SphereM, r: RayM)
    ensures
        discriminant(s, r) <= quad_a(r) * (s.radius * s.radius),
{
    let e = offset(s, r);
    lemma_cauchy_schwarz(e, r.direction);
    let a = quad_a(r);
    let h = quad_half_b(s, r);
    let ee = exact_dot(e, e);
    let rr = s.radius * s.radius;
    assert(a * (ee - rr) == ee * a - a * rr) by (nonlinear_arith);
}

/// A reported hit lies on the sphere up to rounding. With `a` the exact
/// squared length of the direction and `root` the integer square root of the
/// discriminant, the squared distance of the unrounded point from the
/// centre differs from the squared radius by a defect `f` with
/// `a |f| <= 2 SCALE root (SCALE + a) + a a`, in squared billionths of a raw
/// unit, where `root root <= a radius radius`. For a direction of length one
/// and a radius of `R` raw units that is about `2 R + 1` squared raw units,
/// so that the distance from the centre is within about one raw unit of the
/// radius.
pub proof fn lemma_hit_point_on_sphere(s: SphereM, r: RayM, t_min: int, t_max: int)
    requires
        -RAW_MAX <= t_min,
        t_max <= RAW_MAX,
    ensures
        sphere_hit(s, r, t_min, t_max) matches Some(h) ==> quad_a(r) * magnitude(
            surface_defect(s, r, h.t),
        ) <= 2 * SCALE * isqrt(discriminant(s, r)) * (SCALE + quad_a(r)) + quad_a(r) * quad_a(r),
        sphere_hit(s, r, t_min, t_max) is Some ==> isqrt(discriminant(s, r)) * isqrt(
            discriminant(s, r),
        ) <= quad_a(r) * (s.radius * s.radius),
{
    reveal(sphere_hit);
    lemma_quad_a_nonneg(r);
    lemma_discriminant_bounded(s, r);
    if let Some(h) = sphere_hit(s, r, t_min, t_max) {
        let a = quad_a(r);
        let hb = quad_half_b(s, r);
        let c = quad_c(s, r);
        let root = isqrt(discriminant(s, r));
        lemma_isqrt_exists(discriminant(s, r));
        lemma_defect_is_quadratic(s, r, h.t);
        if h.t == near_root(s, r) {
            assert(-hb - root == -hb + (-1) * root);
            lemma_quadratic_at_rounded_root(a, hb, c, root, -1, h.t);
        } else {
            assert(-hb + root == -hb + 1 * root);
            lemma_quadratic_at_rounded_root(a, hb, c, root, 1, h.t);
        }
    }
}

/// No rounding of `d * t` saturates, nor its sum with `o`.
pub open spec fn step_in_range(o: int, d: int, t: int) -> bool {
    magnitude(tdiv(d * t, SCALE as int)) <= RAW_MAX && magnitude(o + tdiv(d * t, SCALE as int))
        <= RAW_MAX
}

/// The reported point of the ray at parameter `t` is the unrounded point,
/// rounded by less than one raw unit in each component, where the products
/// and sums stay in the range of raw values.
pub proof fn lemma_reported_point_rounds(r: RayM, t: int)
    requires
        step_in_range(r.origin.x, r.direction.x, t),
        step_in_range(r.origin.y, r.direction.y, t),
        step_in_range(r.origin.z, r.direction.z, t),
    ensures
        magnitude(SCALE * (ray_at(r, t).x - r.origin.x) - t * r.direction.x) < SCALE,
        magnitude(SCALE * (ray_at(r, t).y - r.origin.y) - t * r.direction.y) < SCALE,
        magnitude(SCALE * (ray_at(r, t).z - r.origin.z) - t * r.direction.z) < SCALE,
{
    lemma_tdiv_remainder(r.direction.x * t, SCALE as int);
    lemma_tdiv_remainder(r.direction.y * t, SCALE as int);
    lemma_tdiv_remainder(r.direction.z * t, SCALE as int);
    assert(t * r.direction.x == r.direction.x * t) by (nonlinear_arith);
    assert(t * r.direction.y == r.direction.y * t) by (nonlinear_arith);
    assert(t * r.direction.z == r.direction.z * t) by (nonlinear_arith);
}

/// Lowering the upper bound of the window keeps a hit that still lies in
/// it, and brings no other hit.
pub proof fn lemma_sphere_hit_narrowed(s: SphereM, r: RayM, t_min: int, t_max: int, bound: int)
    requires
        bound <= t_max,
    ensures
        sphere_hit(s, r, t_min, bound) == match sphere_hit(s, r, t_min, t_max) {
            Some(h) => if h.t < bound {
                Some(h)
            } else {
                None
            },
            None => None,
        },
{
    reveal(sphere_hit);
    lemma_quad_a_nonneg(r);
    if quad_a(r) > 0 && discriminant(s, r) >= 0 {
        lemma_roots_ordered(s, r);
    }
}

/// The normal of a hit never runs along the ray.
pub proof fn lemma_sphere_hit_normal_opposes(s: SphereM, r: RayM, t_min: int, t_max: int)
    ensures
        sphere_hit(s, r, t_min, t_max) matches Some(h) ==> {
            &&& v3_dot(r.direction, h.normal) <= 0
            &&& v3_dot(r.direction, outward_normal(s, h.p)) != 0 ==> v3_dot(r.direction, h.normal)
                < 0
        },
{
    reveal(sphere_hit);
    lemma_face_normal_opposes(r.direction, outward_normal(s, ray_at(r, near_root(s, r))));
    lemma_face_normal_opposes(r.direction, outward_normal(s, ray_at(r, far_root(s, r))));
}

/// The square of the largest raw value.
pub const RAW_MAX_SQUARED: u128 = 21_267_647_932_558_653_957_237_540_927_630_737_409;

/// A product of two bounded numbers is bounded by the product of the bounds.
proof fn lemma_product_bounded(x: int, y: int, bound_x: int, bound_y: int)
    requires
        0 <= x <= bound_x,
        0 <= y <= bound_y,
    ensures
        0 <= x * y <= bound_x * bound_y,
{
    assert(0 <= x * y <= bound_x * bound_y) by (nonlinear_arith)
        requires
            0 <= x <= bound_x,
            0 <= y <= bound_y,
    ;
}

/// The upper half of a wide number below 45 times the fourth power of the
/// largest raw value leaves room for a carry.
proof fn lemma_upper_half_bounded(n: Wide, bound: int)
    requires
        n@ <= bound,
        bound <= (6 * RAW_MAX_SQUARED) * (6 * RAW_MAX_SQUARED),
    ensures
        n.hi < 85_070_591_730_234_615_865_843_651_857_942_052_864,
{
    assert((6 * RAW_MAX_SQUARED) * (6 * RAW_MAX_SQUARED)
        < 85_070_591_730_234_615_865_843_651_857_942_052_864 * LIMB * LIMB) by (nonlinear_arith);
    assert(n.hi < 85_070_591_730_234_615_865_843_651_857_942_052_864) by (nonlinear_arith)
        requires
            n.hi * LIMB * LIMB + n.lo <= bound,
            bound < 85_070_591_730_234_615_865_843_651_857_942_052_864 * LIMB * LIMB,
            n.lo >= 0,
            LIMB > 0,
    ;
}

/// The exact difference of two scalars, in raw units.
fn difference(a: Scalar, b: Scalar) -> (d: i128)
    ensures
        d == a@ - b@,
        -2 * RAW_MAX <= d <= 2 * RAW_MAX,
{
    a.raw() as i128 - b.raw() as i128
}

/// The exact square of a number of magnitude up to twice the largest raw
/// value.
fn square(x: i128) -> (r: u128)
    requires
        -2 * RAW_MAX <= x <= 2 * RAW_MAX,
    ensures
        r == x * x,
        r <= 4 * RAW_MAX_SQUARED,
        -RAW_MAX <= x <= RAW_MAX ==> r <= RAW_MAX_SQUARED,
{
    let m: u128 = magnitude_u128(x);
    proof {
        lemma_square_of_magnitude(x as int);
        lemma_product_bounded(m as int, m as int, 2 * RAW_MAX, 2 * RAW_MAX);
        assert((2 * RAW_MAX) * (2 * RAW_MAX) == 4 * RAW_MAX_SQUARED) by (nonlinear_arith);
        if m <= RAW_MAX {
            lemma_product_bounded(m as int, m as int, RAW_MAX as int, RAW_MAX as int);
            assert(RAW_MAX * RAW_MAX == RAW_MAX_SQUARED) by (nonlinear_arith);
        }
    }
    m * m
}

/// The exact product of an offset and a raw value.
fn times(e: i128, d: i128) -> (r: i128)
    requires
        -2 * RAW_MAX <= e <= 2 * RAW_MAX,
        -RAW_MAX <= d <= RAW_MAX,
    ensures
        r == e * d,
        -2 * RAW_MAX_SQUARED <= r <= 2 * RAW_MAX_SQUARED,
{
    assert(-2 * RAW_MAX_SQUARED <= e * d <= 2 * RAW_MAX_SQUARED) by (nonlinear_arith)
        requires
            -2 * RAW_MAX <= e <= 2 * RAW_MAX,
            -RAW_MAX <= d <= RAW_MAX,
            RAW_MAX_SQUARED == RAW_MAX * RAW_MAX,
    ;
    e * d
}

/// The magnitude of a number.
fn magnitude_u128(x: i128) -> (r: u128)
    requires
        x > i128::MIN,
    ensures
        r == magnitude(x as int),
{
    if x < 0 {
        (-x) as u128
    } else {
        x as u128
    }
}

/// A root of the quadratic with leading coefficient `a`, half linear
/// coefficient `half_b` and root `sqrtd` of the discriminant: the far one
/// where `far` is set, else the near one.
fn quadratic_root(half_b: i128, sqrtd: u128, a: u128, far: bool) -> (root: Scalar)
    requires
        a > 0,
        -6 * RAW_MAX_SQUARED <= half_b <= 6 * RAW_MAX_SQUARED,
        sqrtd <= 7 * RAW_MAX_SQUARED,
    ensures
        root@ == quad_root(
            if far {
                -half_b + sqrtd
            } else {
                -half_b - sqrtd
            },
            a as int,
        ),
{
    let hb: u128 = magnitude_u128(half_b);
    let up: bool = if far {
        half_b <= 0
    } else {
        half_b < 0
    };
    let adds: bool = far == up;
    let (neg, mag): (bool, u128) = if adds {
        (!far, hb + sqrtd)
    } else if far {
        if sqrtd >= hb {
            (false, sqrtd - hb)
        } else {
            (true, hb - sqrtd)
        }
    } else {
        if hb >= sqrtd {
            (false, hb - sqrtd)
        } else {
            (true, sqrtd - hb)
        }
    };
    let numerator: Wide = mul_wide(SCALE as u128, mag);
    let quotient: u128 = numerator.div_capped(a, RAW_MAX as u128);
    proof {
        let n: int = if far {
            -half_b + sqrtd
        } else {
            -half_b - sqrtd
        };
        assert(magnitude(n) == mag);
        assert(n < 0 ==> neg);
        assert(n > 0 ==> !neg);
        assert(magnitude(SCALE * n) == SCALE * mag) by (nonlinear_arith)
            requires
                magnitude(n) == mag,
                SCALE > 0,
        ;
        assert((SCALE * n < 0) == (n < 0)) by (nonlinear_arith)
            requires
                SCALE > 0,
        ;
        if n == 0 {
            assert(SCALE * mag == 0) by (nonlinear_arith)
                requires
                    mag == 0,
            ;
            assert(0int / (a as int) == 0) by (nonlinear_arith)
                requires
                    a > 0,
            ;
        }
    }
    Scalar::signed(neg, quotient)
}

/// A sphere. A negative radius turns its normals inward, which makes the
/// inner wall of a hollow shell.
#[derive(Debug)]
pub struct Sphere {
    center: Point3,
    radius: Scalar,
    material: Rc<MaterialKind>,
}

impl View for Sphere {
    type V = SphereM;

    closed spec fn view(&self) -> SphereM {
        SphereM { center: self.center@, radius: self.radius@, material: (*self.material)@ }
    }
}

impl Sphere {
    pub fn new(center: Point3, radius: Scalar, material: Rc<MaterialKind>) -> (r: Sphere)
        ensures
            r@ == (SphereM { center: center@, radius: radius@, material: (*material)@ }),
    {
        Sphere { center, radius, material }
    }
}

impl Hitable for Sphere {
    open spec fn hit_spec(&self, r: RayM, t_min: int, t_max: int) -> Option<HitM> {
        sphere_hit(self@, r, t_min, t_max)
    }

    fn hit(&self, r: &Ray, t_min: Scalar, t_max: Scalar) -> (res: Option<HitRecord>) {
        proof {
            reveal(sphere_hit);
        }
        let origin: Vec3 = r.origin();
        let direction: Vec3 = r.direction();
        let ex: i128 = difference(origin.x(), self.center.x());
        let ey: i128 = difference(origin.y(), self.center.y());
        let ez: i128 = difference(origin.z(), self.center.z());
        let dx: i128 = direction.x().raw() as i128;
        let dy: i128 = direction.y().raw() as i128;
        let dz: i128 = direction.z().raw() as i128;
        let a: u128 = square(dx) + square(dy) + square(dz);
        if a == 0 {
            return None;
        }
        let half_b: i128 = times(ex, dx) + times(ey, dy) + times(ez, dz);
        let ee: u128 = square(ex) + square(ey) + square(ez);
        let rr: u128 = square(self.radius.raw() as i128);
        let hb: u128 = magnitude_u128(half_b);
        let ghost top: int = (6 * RAW_MAX_SQUARED) * (6 * RAW_MAX_SQUARED);
        let ghost side: int = (3 * RAW_MAX_SQUARED) * RAW_MAX_SQUARED;
        proof {
            lemma_square_of_magnitude(half_b as int);
            lemma_product_bounded(hb as int, hb as int, 6 * RAW_MAX_SQUARED, 6 * RAW_MAX_SQUARED);
            assert(a == quad_a(r@));
            assert(half_b == quad_half_b(self@, r@));
            assert(ee - rr == quad_c(self@, r@));
        }
        let hb2: Wide = mul_wide(hb, hb);
        let disc: Wide = if ee >= rr {
            let ac: Wide = mul_wide(a, ee - rr);
            if !ac.le(hb2) {
                return None;
            }
            hb2.sub(ac)
        } else {
            proof {
                lemma_product_bounded(
                    a as int,
                    (rr - ee) as int,
                    3 * RAW_MAX_SQUARED,
                    RAW_MAX_SQUARED as int,
                );
                assert(a * (rr - ee) == -(a * (ee - rr))) by (nonlinear_arith);
            }
            let ac: Wide = mul_wide(a, rr - ee);
            proof {
                assert(side <= top) by (nonlinear_arith)
                    requires
                        top == (6 * RAW_MAX_SQUARED) * (6 * RAW_MAX_SQUARED),
                        side == (3 * RAW_MAX_SQUARED) * RAW_MAX_SQUARED,
                ;
                lemma_upper_half_bounded(hb2, top);
                lemma_upper_half_bounded(ac, side);
            }
            hb2.add(ac)
        };
        assert(disc@ == discriminant(self@, r@));
        let sqrtd: u128 = disc.isqrt();
        proof {
            lemma_isqrt_unique(disc@, sqrtd as int);
            assert(sqrtd <= 7 * RAW_MAX_SQUARED) by (nonlinear_arith)
                requires
                    sqrtd * sqrtd <= disc@,
                    disc@ <= top + side,
                    top == (6 * RAW_MAX_SQUARED) * (6 * RAW_MAX_SQUARED),
                    side == (3 * RAW_MAX_SQUARED) * RAW_MAX_SQUARED,
                    sqrtd >= 0,
            ;
        }
        let mut root: Scalar = quadratic_root(half_b, sqrtd, a, false);
        if root.le(t_min) || t_max.le(root) {
            root = quadratic_root(half_b, sqrtd, a, true);
            if root.le(t_min) || t_max.le(root) {
                return None;
            }
        }
        let p: Point3 = r.point_at_parameter(root);
        let mut rec: HitRecord = HitRecord::new(
            root,
            p,
            p.sub(self.center).div(self.radius),
            false,
            self.material.clone(),
        );
        let outward_normal: Vec3 = rec.get_point().sub(self.center).div(self.radius);
        rec.set_face_normal(r, outward_normal);
        Some(rec)
    }
}

} // verus!
