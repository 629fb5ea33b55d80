use vstd::prelude::*;
use crate::random::uniform;
use crate::scalar::{
    fx_add, fx_clamp, fx_div, fx_hypot, fx_min, fx_mul, fx_powi, fx_sqrt, fx_sub, fx_trunc,
    fx_dot3, is_isqrt, lemma_fx_div_fraction, lemma_fx_mul_whole, lemma_hypot_dominates,
    lemma_hypot_symmetric, lemma_isqrt_unique, lemma_square_of_magnitude, lemma_tdiv_remainder,
    magnitude, sat, scalar_text, tdiv, Scalar, RAW_MAX, SCALE,
};
use crate::text::{decimal, decimal_string};

verus! {

/// The mathematical content of a vector: its three components, each a
/// number of billionths.
pub struct V3 {
    pub x: int,
    pub y: int,
    pub z: int,
}

pub open spec fn v3_add(a: V3, b: V3) -> V3 {
    V3 { x: fx_add(a.x, b.x), y: fx_add(a.y, b.y), z: fx_add(a.z, b.z) }
}

pub open spec fn v3_sub(a: V3, b: V3) -> V3 {
    V3 { x: fx_sub(a.x, b.x), y: fx_sub(a.y, b.y), z: fx_sub(a.z, b.z) }
}

pub open spec fn v3_neg(a: V3) -> V3 {
    V3 { x: -a.x, y: -a.y, z: -a.z }
}

/// Every component multiplied by `k`.
pub open spec fn v3_scale(a: V3, k: int) -> V3 {
    V3 { x: fx_mul(a.x, k), y: fx_mul(a.y, k), z: fx_mul(a.z, k) }
}

/// Every component divided by `k`.
pub open spec fn v3_div(a: V3, k: int) -> V3 {
    V3 { x: fx_div(a.x, k), y: fx_div(a.y, k), z: fx_div(a.z, k) }
}

/// Component-wise product.
pub open spec fn v3_mul(a: V3, b: V3) -> V3 {
    V3 { x: fx_mul(a.x, b.x), y: fx_mul(a.y, b.y), z: fx_mul(a.z, b.z) }
}

/// The exact dot product, in squared raw units.
pub open spec fn exact_dot(a: V3, b: V3) -> int {
    a.x * b.x + a.y * b.y + a.z * b.z
}

/// The dot product: the exact sum of the three products, rounded toward zero
/// once, so that rounding never reverses its sign.
pub open spec fn v3_dot(a: V3, b: V3) -> int {
    fx_dot3(a.x, a.y, a.z, b.x, b.y, b.z)
}

pub open spec fn v3_cross(a: V3, b: V3) -> V3 {
    V3 {
        x: fx_sub(fx_mul(a.y, b.z), fx_mul(a.z, b.y)),
        y: fx_sub(fx_mul(a.z, b.x), fx_mul(a.x, b.z)),
        z: fx_sub(fx_mul(a.x, b.y), fx_mul(a.y, b.x)),
    }
}

pub open spec fn v3_squared_length(a: V3) -> int {
    v3_dot(a, a)
}

/// The length: the square root of the exact sum of the squared components,
/// so that no vector but the zero vector has length zero.
pub open spec fn v3_length(a: V3) -> int {
    fx_hypot(a.x, a.y, a.z)
}

/// The vector divided by its length.
pub open spec fn v3_normalized(a: V3) -> V3 {
    v3_div(a, v3_length(a))
}

/// Raw value of the threshold under which a component counts as vanishing:
/// a hundred-millionth.
pub const NEAR_ZERO_RAW: i64 = 10;

/// Every component lies below the threshold in magnitude.
pub open spec fn v3_near_zero(a: V3) -> bool {
    magnitude(a.x) < NEAR_ZERO_RAW && magnitude(a.y) < NEAR_ZERO_RAW && magnitude(a.z)
        < NEAR_ZERO_RAW
}

/// Mirror image of `v` about the plane with normal `n`: `v - 2 (v . n) n`.
pub open spec fn v3_reflect(v: V3, n: V3) -> V3 {
    v3_sub(v, v3_scale(n, fx_mul(2 * SCALE, v3_dot(v, n))))
}

/// Cosine of the angle between the reversed incoming direction and the
/// normal, limited to one.
pub open spec fn cos_incidence(v: V3, n: V3) -> int {
    fx_min(v3_dot(v3_neg(v), n), SCALE as int)
}

/// Component of the refracted direction perpendicular to the normal.
pub open spec fn refract_perp(v: V3, n: V3, ratio: int) -> V3 {
    v3_scale(v3_add(v, v3_scale(n, cos_incidence(v, n))), ratio)
}

/// Component of the refracted direction along the normal.
pub open spec fn refract_parallel(perp: V3, n: V3) -> V3 {
    v3_scale(n, -fx_sqrt(magnitude(fx_sub(SCALE as int, fx_powi(v3_length(perp), 2)))))
}

/// Direction of `v` after crossing a surface with normal `n`, for the given
/// ratio of refractive indices, by Snell's law.
pub open spec fn v3_refract(v: V3, n: V3, ratio: int) -> V3 {
    v3_add(refract_perp(v, n, ratio), refract_parallel(refract_perp(v, n, ratio), n))
}

/// The exact mirror image of `v` about the plane with normal `n`, in
/// squared billionths of a raw unit: `SCALE^2 v - 2 (v . n) n`.
pub open spec fn exact_mirror(v: V3, n: V3) -> V3 {
    V3 {
        x: (SCALE * SCALE) * v.x - 2 * (exact_dot(v, n) * n.x),
        y: (SCALE * SCALE) * v.y - 2 * (exact_dot(v, n) * n.y),
        z: (SCALE * SCALE) * v.z - 2 * (exact_dot(v, n) * n.z),
    }
}

/// The rounded dot product, its double and the component `x` of the
/// reflection of a vector with component `c` stay in the range of raw
/// values.
pub open spec fn reflect_in_range(v: V3, n: V3, c: int, x: int) -> bool {
    let dot = tdiv(exact_dot(v, n), SCALE as int);
    &&& magnitude(2 * dot) <= RAW_MAX
    &&& magnitude(tdiv(x * (2 * dot), SCALE as int)) <= RAW_MAX
    &&& magnitude(c - tdiv(x * (2 * dot), SCALE as int)) <= RAW_MAX
}

/// One component of a reflection is the component of the exact mirror image,
/// up to two roundings.
proof fn lemma_reflect_component(v: V3, n: V3, c: int, x: int)
    requires
        reflect_in_range(v, n, c, x),
    ensures
        fx_mul(2 * SCALE, v3_dot(v, n)) == 2 * tdiv(exact_dot(v, n), SCALE as int),
        magnitude((SCALE * SCALE) * fx_sub(c, fx_mul(x, fx_mul(2 * SCALE, v3_dot(v, n)))) - ((SCALE
            * SCALE) * c - 2 * (exact_dot(v, n) * x))) < 2 * magnitude(x) * SCALE + SCALE * SCALE,
{
    let vn = exact_dot(v, n);
    let dot = tdiv(vn, SCALE as int);
    lemma_fx_mul_whole(2, dot);
    let k = 2 * dot;
    assert(v3_dot(v, n) == dot);
    assert(fx_mul(2 * SCALE, v3_dot(v, n)) == k);
    lemma_tdiv_remainder(vn, SCALE as int);
    lemma_tdiv_remainder(x * k, SCALE as int);
    let first = vn - SCALE * dot;
    let step = tdiv(x * k, SCALE as int);
    let second = x * k - SCALE * step;
    let r = c - step;
    assert(fx_sub(c, fx_mul(x, k)) == r);
    assert((SCALE * SCALE) * r - ((SCALE * SCALE) * c - 2 * (vn * x)) == 2 * (x * first) + SCALE
        * second) by (nonlinear_arith)
        requires
            r == c - step,
            second == x * k - SCALE * step,
            k == 2 * dot,
            first == vn - SCALE * dot,
    ;
    assert(magnitude(2 * (x * first) + SCALE * second) < 2 * magnitude(x) * SCALE + SCALE * SCALE)
        by (nonlinear_arith)
        requires
            magnitude(first) < SCALE,
            magnitude(second) < SCALE,
            SCALE > 0,
    ;
}

/// A reflection is the exact mirror image up to rounding: each component,
/// in squared billionths, differs from that of the mirror image by less than
/// `2 |n_i| SCALE + SCALE^2`, which for a unit normal is less than three raw
/// units. It holds where nothing saturates.
pub proof fn lemma_reflect_is_mirror_image(v: V3, n: V3)
    requires
        reflect_in_range(v, n, v.x, n.x),
        reflect_in_range(v, n, v.y, n.y),
        reflect_in_range(v, n, v.z, n.z),
    ensures
        magnitude((SCALE * SCALE) * v3_reflect(v, n).x - exact_mirror(v, n).x) < 2 * magnitude(n.x)
            * SCALE + SCALE * SCALE,
        magnitude((SCALE * SCALE) * v3_reflect(v, n).y - exact_mirror(v, n).y) < 2 * magnitude(n.y)
            * SCALE + SCALE * SCALE,
        magnitude((SCALE * SCALE) * v3_reflect(v, n).z - exact_mirror(v, n).z) < 2 * magnitude(n.z)
            * SCALE + SCALE * SCALE,
{
    lemma_reflect_component(v, n, v.x, n.x);
    lemma_reflect_component(v, n, v.y, n.y);
    lemma_reflect_component(v, n, v.z, n.z);
}

/// The exact mirror image keeps the length where the normal has exact length
/// one: its squared length is `SCALE^4 |v|^2 + 4 (v . n)^2 (|n|^2 - SCALE^2)`.
pub proof fn lemma_mirror_keeps_length(v: V3, n: V3)
    ensures
        exact_dot(exact_mirror(v, n), exact_mirror(v, n)) == ((SCALE * SCALE) * (SCALE * SCALE))
            * exact_dot(v, v) + 4 * ((exact_dot(v, n) * exact_dot(v, n)) * (exact_dot(n, n) - SCALE
            * SCALE)),
{
    let c = exact_dot(v, n);
    let q = SCALE * SCALE;
    let m = exact_mirror(v, n);
    lemma_mirror_component(q, c, v.x, n.x);
    lemma_mirror_component(q, c, v.y, n.y);
    lemma_mirror_component(q, c, v.z, n.z);
    let vv = exact_dot(v, v);
    let nn = exact_dot(n, n);
    assert((q * q) * vv == (q * q) * (v.x * v.x) + (q * q) * (v.y * v.y) + (q * q) * (v.z * v.z))
        by (nonlinear_arith)
        requires
            vv == v.x * v.x + v.y * v.y + v.z * v.z,
    ;
    assert((c * c) * nn == (c * c) * (n.x * n.x) + (c * c) * (n.y * n.y) + (c * c) * (n.z * n.z))
        by (nonlinear_arith)
        requires
            nn == n.x * n.x + n.y * n.y + n.z * n.z,
    ;
    assert(c * c == c * (v.x * n.x) + c * (v.y * n.y) + c * (v.z * n.z)) by (nonlinear_arith)
        requires
            c == v.x * n.x + v.y * n.y + v.z * n.z,
    ;
    assert((c * c) * (nn - q) == (c * c) * nn - q * (c * c)) by (nonlinear_arith);
    assert(q * (c * c) == q * (c * (v.x * n.x)) + q * (c * (v.y * n.y)) + q * (c * (v.z * n.z)))
        by (nonlinear_arith)
        requires
            c * c == c * (v.x * n.x) + c * (v.y * n.y) + c * (v.z * n.z),
    ;
}

/// The exact mirror image turns the dot product with the normal about where
/// the normal has exact length one: its dot product with the normal is
/// `-(v . n) SCALE^2 - 2 (v . n) (|n|^2 - SCALE^2)`.
pub proof fn lemma_mirror_turns_dot(v: V3, n: V3)
    ensures
        exact_dot(exact_mirror(v, n), n) == -(exact_dot(v, n) * (SCALE * SCALE)) - 2 * (exact_dot(
            v,
            n,
        ) * (exact_dot(n, n) - SCALE * SCALE)),
{
    let c = exact_dot(v, n);
    let q = SCALE * SCALE;
    let nn = exact_dot(n, n);
    let m = exact_mirror(v, n);
    assert(m.x * n.x == q * (v.x * n.x) - 2 * (c * (n.x * n.x))) by (nonlinear_arith)
        requires
            m.x == q * v.x - 2 * (c * n.x),
    ;
    assert(m.y * n.y == q * (v.y * n.y) - 2 * (c * (n.y * n.y))) by (nonlinear_arith)
        requires
            m.y == q * v.y - 2 * (c * n.y),
    ;
    assert(m.z * n.z == q * (v.z * n.z) - 2 * (c * (n.z * n.z))) by (nonlinear_arith)
        requires
            m.z == q * v.z - 2 * (c * n.z),
    ;
    assert(c * nn == c * (n.x * n.x) + c * (n.y * n.y) + c * (n.z * n.z)) by (nonlinear_arith)
        requires
            nn == n.x * n.x + n.y * n.y + n.z * n.z,
    ;
    assert(c * (nn - q) == c * nn - c * q) by (nonlinear_arith);
    assert(c * q == q * (v.x * n.x) + q * (v.y * n.y) + q * (v.z * n.z)) by (nonlinear_arith)
        requires
            c == v.x * n.x + v.y * n.y + v.z * n.z,
    ;
}

/// The square of one component of the exact mirror image.
proof fn lemma_mirror_component(q: int, c: int, x: int, y: int)
    ensures
        (q * x - 2 * (c * y)) * (q * x - 2 * (c * y)) == (q * q) * (x * x) - 4 * (q * (c * (x * y)))
            + 4 * ((c * c) * (y * y)),
{
    let p = q * x;
    let w = c * y;
    assert((p - 2 * w) * (p - 2 * w) == p * p - 4 * (p * w) + 4 * (w * w)) by (nonlinear_arith);
    assert(p * p == (q * q) * (x * x)) by (nonlinear_arith)
        requires
            p == q * x,
    ;
    assert(w * w == (c * c) * (y * y)) by (nonlinear_arith)
        requires
            w == c * y,
    ;
    assert(p * w == q * (c * (x * y))) by (nonlinear_arith)
        requires
            p == q * x,
            w == c * y,
    ;
}

/// `n` is one of the six unit vectors along an axis.
pub open spec fn is_axis_unit(n: V3) -> bool {
    ||| n == V3 { x: SCALE as int, y: 0, z: 0 }
    ||| n == V3 { x: -SCALE, y: 0, z: 0 }
    ||| n == V3 { x: 0, y: SCALE as int, z: 0 }
    ||| n == V3 { x: 0, y: -SCALE, z: 0 }
    ||| n == V3 { x: 0, y: 0, z: SCALE as int }
    ||| n == V3 { x: 0, y: 0, z: -SCALE }
}

/// Every component can be doubled without leaving the range of raw values.
pub open spec fn doubles_in_range(v: V3) -> bool {
    &&& -RAW_MAX <= 2 * v.x <= RAW_MAX
    &&& -RAW_MAX <= 2 * v.y <= RAW_MAX
    &&& -RAW_MAX <= 2 * v.z <= RAW_MAX
}

/// Reflecting twice about a coordinate plane gives the vector back.
pub proof fn lemma_reflect_twice_about_axis(v: V3, n: V3)
    requires
        is_axis_unit(n),
        doubles_in_range(v),
    ensures
        v3_reflect(v3_reflect(v, n), n) == v,
{
    lemma_reflect_about_axis(v, n);
    lemma_reflect_about_axis(v3_reflect(v, n), n);
}

/// Reflection about a coordinate plane is exact: it changes the sign of the
/// component along the normal, and so keeps the length.
pub proof fn lemma_reflect_about_axis(v: V3, n: V3)
    requires
        is_axis_unit(n),
        doubles_in_range(v),
    ensures
        v3_reflect(v, n) == (V3 {
            x: if n.x != 0 { -v.x } else { v.x },
            y: if n.y != 0 { -v.y } else { v.y },
            z: if n.z != 0 { -v.z } else { v.z },
        }),
        v3_length(v3_reflect(v, n)) == v3_length(v),
{
    lemma_fx_mul_whole(0, v.x);
    lemma_fx_mul_whole(0, v.y);
    lemma_fx_mul_whole(0, v.z);
    lemma_fx_mul_whole(1, v.x);
    lemma_fx_mul_whole(1, v.y);
    lemma_fx_mul_whole(1, v.z);
    lemma_fx_mul_whole(-1, v.x);
    lemma_fx_mul_whole(-1, v.y);
    lemma_fx_mul_whole(-1, v.z);
    let d = v3_dot(v, n);
    assert(d == v.x || d == -v.x || d == v.y || d == -v.y || d == v.z || d == -v.z);
    lemma_fx_mul_whole(2, d);
    let k = fx_mul(2 * SCALE, d);
    assert(k == 2 * d);
    lemma_fx_mul_whole(0, k);
    lemma_fx_mul_whole(1, k);
    lemma_fx_mul_whole(-1, k);
    lemma_square_of_magnitude(v.x);
    lemma_square_of_magnitude(v.y);
    lemma_square_of_magnitude(v.z);
    assert((-v.x) * (-v.x) == v.x * v.x) by (nonlinear_arith);
    assert((-v.y) * (-v.y) == v.y * v.y) by (nonlinear_arith);
    assert((-v.z) * (-v.z) == v.z * v.z) by (nonlinear_arith);
}

/// Raw value of the brightest level that a channel can reach before it is
/// scaled: 0.999, which keeps the scaled value below 256.
pub const CHANNEL_CEILING_RAW: i64 = 999_000_000;

/// The level from 0 to 255 of a colour channel that holds the sum `c` of
/// `samples` samples: the mean, gamma-corrected by a square root, limited to
/// the interval from zero to the ceiling, scaled by 256 and truncated.
pub open spec fn channel_level(c: int, samples: nat) -> int {
    fx_trunc(
        fx_mul(
            256 * SCALE,
            fx_clamp(
                fx_sqrt(fx_div(c, sat(samples * SCALE))),
                0,
                CHANNEL_CEILING_RAW as int,
            ),
        ),
    )
}

/// The three levels of a colour in decimal, separated by single spaces.
pub open spec fn color_text(c: V3, samples: nat) -> Seq<char> {
    decimal(channel_level(c.x, samples) as nat) + seq![' '] + decimal(
        channel_level(c.y, samples) as nat,
    ) + seq![' '] + decimal(channel_level(c.z, samples) as nat)
}

/// A channel level never exceeds 255.
pub proof fn lemma_channel_level_bounds(c: int, samples: nat)
    ensures
        0 <= channel_level(c, samples) <= 255,
{
    let x = fx_clamp(fx_sqrt(fx_div(c, sat(samples * SCALE))), 0, CHANNEL_CEILING_RAW as int);
    assert(256 * SCALE * x == (256 * x) * SCALE) by (nonlinear_arith);
    assert(0 <= 256 * x <= 255_744_000_000);
    vstd::arithmetic::div_mod::lemma_div_by_multiple(256 * x, SCALE as int);
    assert(fx_mul(256 * SCALE, x) == 256 * x);
    assert(0 <= (256 * x) / (SCALE as int) <= 255);
}

/// Every component lies in the range of raw values.
pub open spec fn v3_in_range(v: V3) -> bool {
    &&& magnitude(v.x) <= RAW_MAX
    &&& magnitude(v.y) <= RAW_MAX
    &&& magnitude(v.z) <= RAW_MAX
}

/// The length of a vector is at least the magnitude of each component.
pub proof fn lemma_length_dominates(v: V3)
    requires
        v3_in_range(v),
    ensures
        v3_length(v) >= magnitude(v.x),
        v3_length(v) >= magnitude(v.y),
        v3_length(v) >= magnitude(v.z),
{
    lemma_hypot_dominates(v.x, v.y, v.z);
    lemma_hypot_dominates(v.y, v.z, v.x);
    lemma_hypot_dominates(v.z, v.x, v.y);
    lemma_hypot_symmetric(v.x, v.y, v.z);
    lemma_hypot_symmetric(v.z, v.x, v.y);
}

/// The zero vector has length zero, and it alone.
pub proof fn lemma_zero_length(v: V3)
    requires
        v3_in_range(v),
    ensures
        v3_length(v) == 0 <==> v == (V3 { x: 0, y: 0, z: 0 }),
{
    lemma_length_dominates(v);
    if v == (V3 { x: 0, y: 0, z: 0 }) {
        assert(0int * 0int == 0int);
        assert(is_isqrt(0, 0));
        lemma_isqrt_unique(0, 0);
    }
}

/// Every component of a normalized vector lies between minus one and one,
/// for the zero vector too, whose normalization is the zero vector.
pub proof fn lemma_normalized_bounded(v: V3)
    requires
        v3_in_range(v),
    ensures
        -SCALE <= v3_normalized(v).x <= SCALE,
        -SCALE <= v3_normalized(v).y <= SCALE,
        -SCALE <= v3_normalized(v).z <= SCALE,
{
    lemma_length_dominates(v);
    lemma_fx_div_fraction(v.x, v3_length(v));
    lemma_fx_div_fraction(v.y, v3_length(v));
    lemma_fx_div_fraction(v.z, v3_length(v));
}

/// The product of two products, regrouped.
proof fn lemma_regroup(a: int, b: int, c: int, d: int)
    ensures
        (a * b) * (c * d) == (a * c) * (b * d),
        (a * a) * (c * c) == (a * c) * (a * c),
{
    assert((a * b) * (c * d) == (a * c) * (b * d)) by (nonlinear_arith);
    assert((a * a) * (c * c) == (a * c) * (a * c)) by (nonlinear_arith);
}

/// The square of a difference.
proof fn lemma_square_of_difference(p: int, q: int)
    ensures
        (p - q) * (p - q) == p * p - 2 * (p * q) + q * q,
        (p - q) * (p - q) >= 0,
{
    assert((p - q) * (p - q) == p * p - 2 * (p * q) + q * q) by (nonlinear_arith);
    assert((p - q) * (p - q) >= 0) by (nonlinear_arith);
}

/// The squared exact dot product of two vectors is at most the product of
/// their exact squared lengths.
pub proof fn lemma_cauchy_schwarz(a: V3, b: V3)
    ensures
        exact_dot(a, b) * exact_dot(a, b) <= exact_dot(a, a) * exact_dot(b, b),
{
    let xx = a.x * b.x;
    let yy = a.y * b.y;
    let zz = a.z * b.z;
    let xy = a.x * b.y;
    let yx = a.y * b.x;
    let yz = a.y * b.z;
    let zy = a.z * b.y;
    let zx = a.z * b.x;
    let xz = a.x * b.z;
    lemma_regroup(a.x, a.x, b.x, b.x);
    lemma_regroup(a.x, a.x, b.y, b.y);
    lemma_regroup(a.x, a.x, b.z, b.z);
    lemma_regroup(a.y, a.y, b.x, b.x);
    lemma_regroup(a.y, a.y, b.y, b.y);
    lemma_regroup(a.y, a.y, b.z, b.z);
    lemma_regroup(a.z, a.z, b.x, b.x);
    lemma_regroup(a.z, a.z, b.y, b.y);
    lemma_regroup(a.z, a.z, b.z, b.z);
    let aa = exact_dot(a, a);
    let bb = exact_dot(b, b);
    let ab = exact_dot(a, b);
    assert(aa * bb == (a.x * a.x) * (b.x * b.x) + (a.x * a.x) * (b.y * b.y) + (a.x * a.x) * (b.z
        * b.z) + (a.y * a.y) * (b.x * b.x) + (a.y * a.y) * (b.y * b.y) + (a.y * a.y) * (b.z * b.z)
        + (a.z * a.z) * (b.x * b.x) + (a.z * a.z) * (b.y * b.y) + (a.z * a.z) * (b.z * b.z))
        by (nonlinear_arith)
        requires
            aa == a.x * a.x + a.y * a.y + a.z * a.z,
            bb == b.x * b.x + b.y * b.y + b.z * b.z,
    ;
    assert(ab * ab == xx * xx + yy * yy + zz * zz + 2 * (xx * yy) + 2 * (yy * zz) + 2 * (zz * xx))
        by (nonlinear_arith)
        requires
            ab == xx + yy + zz,
    ;
    lemma_regroup(a.x, b.y, a.y, b.x);
    lemma_regroup(a.x, a.y, b.x, b.y);
    assert(xy * yx == xx * yy) by (nonlinear_arith)
        requires
            xy == a.x * b.y,
            yx == a.y * b.x,
            xx == a.x * b.x,
            yy == a.y * b.y,
    ;
    assert(yz * zy == yy * zz) by (nonlinear_arith)
        requires
            yz == a.y * b.z,
            zy == a.z * b.y,
            yy == a.y * b.y,
            zz == a.z * b.z,
    ;
    assert(zx * xz == zz * xx) by (nonlinear_arith)
        requires
            zx == a.z * b.x,
            xz == a.x * b.z,
            zz == a.z * b.z,
            xx == a.x * b.x,
    ;
    lemma_square_of_difference(xy, yx);
    lemma_square_of_difference(yz, zy);
    lemma_square_of_difference(zx, xz);
    assert(aa * bb - ab * ab == (xy - yx) * (xy - yx) + (yz - zy) * (yz - zy) + (zx - xz) * (zx
        - xz));
}

/// The component at `index`: 0 for x, 1 for y, else z.
pub open spec fn v3_component(v: V3, index: int) -> int {
    if index == 0 {
        v.x
    } else if index == 1 {
        v.y
    } else {
        v.z
    }
}

/// The vector with the component at `index` replaced by `value`.
pub open spec fn v3_with(v: V3, index: int, value: int) -> V3 {
    if index == 0 {
        V3 { x: value, ..v }
    } else if index == 1 {
        V3 { y: value, ..v }
    } else {
        V3 { z: value, ..v }
    }
}

/// The text of a vector.
pub open spec fn v3_text(v: V3) -> Seq<char> {
    seq!['('] + scalar_text(v.x) + seq![',', ' '] + scalar_text(v.y) + seq![',', ' ']
        + scalar_text(v.z) + seq![')']
}

/// The rejection sampling of the unit ball keeps the candidate: the vector is
/// shorter than one.
pub open spec fn kept(p: V3) -> bool {
    v3_length(p) < SCALE
}

/// `p` is candidate `i`, the sampling keeps it, and it rejects every
/// candidate before it.
pub open spec fn is_first_kept(candidates: Seq<Vec3>, i: int, p: Vec3) -> bool {
    &&& 0 <= i < candidates.len()
    &&& candidates[i] == p
    &&& kept(p@)
    &&& forall|j: int| 0 <= j < i ==> !kept(#[trigger] candidates[j]@)
}

/// The vector lies in the cube of half-width one, each component at least
/// minus one and less than one, and its length is less than one.
pub open spec fn in_unit_ball(p: V3) -> bool {
    &&& -SCALE <= p.x < SCALE
    &&& -SCALE <= p.y < SCALE
    &&& -SCALE <= p.z < SCALE
    &&& v3_length(p) < SCALE
}

/// The sample that the hemisphere draw makes of a point of the unit ball:
/// the point itself where its squared length is positive, else its opposite.
/// No normal enters, so the sample is bound to no hemisphere: it is a point
/// of the unit ball, turned about only where its squared length rounds to
/// zero.
pub open spec fn hemisphere_of(p: V3) -> V3 {
    if v3_squared_length(p) > 0 {
        p
    } else {
        v3_neg(p)
    }
}

/// `s` is a sample that the hemisphere draw can give: a point of the unit
/// ball or, for one whose squared length rounds to zero, its opposite.
pub open spec fn is_hemisphere_sample(s: V3) -> bool {
    exists|p: V3| in_unit_ball(p) && s == hemisphere_of(p)
}

/// A vector, point or colour with fixed-point components.
#[derive(Clone, Copy, Debug, PartialEq, Eq)]
pub struct Vec3 {
    x: Scalar,
    y: Scalar,
    z: Scalar,
}

pub type Point3 = Vec3;

pub type Color = Vec3;

impl View for Vec3 {
    type V = V3;

    closed spec fn view(&self) -> V3 {
        V3 { x: self.x@, y: self.y@, z: self.z@ }
    }
}

impl Scalar {
    /// The vector `v` scaled by this scalar: the product with the scalar on
    /// the left.
    pub fn scale(self, v: Vec3) -> (r: Vec3)
        ensures
            r@ == v3_scale(v@, self@),
    {
        proof {
            assert(self@ * v@.x == v@.x * self@) by (nonlinear_arith);
            assert(self@ * v@.y == v@.y * self@) by (nonlinear_arith);
            assert(self@ * v@.z == v@.z * self@) by (nonlinear_arith);
        }
        Vec3 { x: self.mul(v.x), y: self.mul(v.y), z: self.mul(v.z) }
    }
}

impl Vec3 {
    pub fn new(x: Scalar, y: Scalar, z: Scalar) -> (r: Vec3)
        ensures
            r@ == (V3 { x: x@, y: y@, z: z@ }),
    {
        Vec3 { x, y, z }
    }

    pub fn x(self) -> (r: Scalar)
        ensures
            r@ == self@.x,
    {
        self.x
    }

    pub fn y(self) -> (r: Scalar)
        ensures
            r@ == self@.y,
    {
        self.y
    }

    pub fn z(self) -> (r: Scalar)
        ensures
            r@ == self@.z,
    {
        self.z
    }

    pub fn add(self, other: Vec3) -> (r: Vec3)
        ensures
            r@ == v3_add(self@, other@),
    {
        Vec3 { x: self.x.add(other.x), y: self.y.add(other.y), z: self.z.add(other.z) }
    }

    pub fn add_assign(&mut self, rhs: Vec3)
        ensures
            final(self)@ == v3_add(old(self)@, rhs@),
    {
        *self = self.add(rhs);
    }

    pub fn sub(self, other: Vec3) -> (r: Vec3)
        ensures
            r@ == v3_sub(self@, other@),
    {
        Vec3 { x: self.x.sub(other.x), y: self.y.sub(other.y), z: self.z.sub(other.z) }
    }

    pub fn sub_assign(&mut self, rhs: Vec3)
        ensures
            final(self)@ == v3_sub(old(self)@, rhs@),
    {
        *self = self.sub(rhs);
    }

    pub fn neg(self) -> (r: Vec3)
        ensures
            r@ == v3_neg(self@),
    {
        Vec3 { x: self.x.neg(), y: self.y.neg(), z: self.z.neg() }
    }

    /// The vector scaled by `rhs`.
    pub fn mul(self, rhs: Scalar) -> (r: Vec3)
        ensures
            r@ == v3_scale(self@, rhs@),
    {
        Vec3 { x: self.x.mul(rhs), y: self.y.mul(rhs), z: self.z.mul(rhs) }
    }

    pub fn mul_assign(&mut self, rhs: Scalar)
        ensures
            final(self)@ == v3_scale(old(self)@, rhs@),
    {
        *self = self.mul(rhs);
    }

    /// Component-wise product, as used to tint one colour by another.
    pub fn mul_vec(self, rhs: Vec3) -> (r: Vec3)
        ensures
            r@ == v3_mul(self@, rhs@),
    {
        Vec3 { x: self.x.mul(rhs.x), y: self.y.mul(rhs.y), z: self.z.mul(rhs.z) }
    }

    /// The vector with every component divided by `rhs`.
    pub fn div(self, rhs: Scalar) -> (r: Vec3)
        ensures
            r@ == v3_div(self@, rhs@),
    {
        Vec3 { x: self.x.div(rhs), y: self.y.div(rhs), z: self.z.div(rhs) }
    }

    pub fn div_assign(&mut self, rhs: Scalar)
        ensures
            final(self)@ == v3_div(old(self)@, rhs@),
    {
        *self = self.div(rhs);
    }

    /// A vector whose components are drawn independently, each at least `low`
    /// and less than `high`.
    fn random_vector(low: Scalar, high: Scalar) -> (r: Vec3)
        requires
            low@ < high@,
        ensures
            low@ <= r@.x < high@,
            low@ <= r@.y < high@,
            low@ <= r@.z < high@,
    {
        let x: Scalar = uniform(low, high);
        let y: Scalar = uniform(low, high);
        let z: Scalar = uniform(low, high);
        Vec3 { x, y, z }
    }

    /// Whether the rejection sampling of the unit ball keeps this candidate:
    /// it does where the vector is shorter than one.
    pub fn keeps(self) -> (r: bool)
        ensures
            r == kept(self@),
    {
        self.length().lt(Scalar::one())
    }

    /// The first of the candidates that the rejection sampling keeps, with
    /// every one before it rejected; nothing where it keeps none.
    pub fn first_kept(candidates: &Vec<Vec3>) -> (r: Option<Vec3>)
        ensures
            match r {
                Some(p) => exists|i: int| #[trigger] is_first_kept(candidates@, i, p),
                None => forall|j: int| 0 <= j < candidates@.len() ==> !kept(#[trigger] candidates@[j]@),
            },
    {
        let mut i: usize = 0;
        let mut found: Option<Vec3> = None;
        while i < candidates.len() && found.is_none()
            invariant
                i <= candidates.len(),
                forall|j: int| 0 <= j < i ==> !kept(#[trigger] candidates@[j]@),
                found matches Some(p) ==> i < candidates.len() && candidates@[i as int] == p
                    && kept(p@),
            decreases candidates.len() - i + (if found is None { 1int } else { 0int }),
        {
            let p: Vec3 = candidates[i];
            if p.keeps() {
                found = Some(p);
            } else {
                i = i + 1;
            }
        }
        proof {
            if let Some(p) = found {
                assert(is_first_kept(candidates@, i as int, p));
            }
        }
        found
    }

    /// A random point of the unit ball, by rejection: vectors are drawn from
    /// the cube around it, each put to `keeps`, until one is kept. Should
    /// every one of `u64::MAX` draws be rejected, the centre of the ball is
    /// returned.
    pub fn random_in_unit_sphere() -> (p: Point3)
        ensures
            in_unit_ball(p@),
            kept(p@),
    {
        let one: Scalar = Scalar::one();
        let mut attempts: u64 = u64::MAX;
        while attempts > 0
            invariant
                one@ == SCALE,
            decreases attempts,
        {
            let p: Vec3 = Vec3::random_vector(one.neg(), one);
            if p.keeps() {
                return p;
            }
            attempts = attempts - 1;
        }
        let zero: Scalar = Scalar::zero();
        proof {
            lemma_zero_length(V3 { x: 0, y: 0, z: 0 });
        }
        Vec3 { x: zero, y: zero, z: zero }
    }

    /// The hemisphere sample made of a point of the unit ball: the point
    /// itself, or its opposite where its squared length rounds to zero.
    pub fn hemisphere_from(in_unit: Vec3) -> (r: Vec3)
        ensures
            r@ == hemisphere_of(in_unit@),
    {
        if in_unit.squared_length().gt(Scalar::zero()) {
            in_unit
        } else {
            in_unit.neg()
        }
    }

    /// A random hemisphere sample.
    pub fn random_in_hemisphere() -> (r: Point3)
        ensures
            is_hemisphere_sample(r@),
            kept(r@),
    {
        let in_unit: Vec3 = Self::random_in_unit_sphere();
        proof {
            lemma_hypot_symmetric(in_unit@.x, in_unit@.y, in_unit@.z);
            lemma_hypot_symmetric(-in_unit@.x, -in_unit@.y, -in_unit@.z);
        }
        Self::hemisphere_from(in_unit)
    }

    /// The component at `index`: 0 for x, 1 for y, 2 for z.
    pub fn get(self, index: usize) -> (r: Scalar)
        requires
            index < 3,
        ensures
            r@ == v3_component(self@, index as int),
    {
        if index == 0 {
            self.x
        } else if index == 1 {
            self.y
        } else {
            self.z
        }
    }

    /// Sets the component at `index` to `value`.
    pub fn set(&mut self, index: usize, value: Scalar)
        requires
            index < 3,
        ensures
            final(self)@ == v3_with(old(self)@, index as int, value@),
    {
        if index == 0 {
            self.x = value;
        } else if index == 1 {
            self.y = value;
        } else {
            self.z = value;
        }
    }

    /// The vector as text: its components in decimal, in round brackets,
    /// separated by a comma and a space.
    pub fn to_text(self) -> (s: String)
        ensures
            s@ == v3_text(self@),
    {
        proof {
            reveal_strlit("(");
            reveal_strlit(", ");
            reveal_strlit(")");
        }
        let mut s: String = String::from_str("(");
        s.append(self.x.to_text().as_str());
        s.append(", ");
        s.append(self.y.to_text().as_str());
        s.append(", ");
        s.append(self.z.to_text().as_str());
        s.append(")");
        assert(s@ =~= v3_text(self@));
        s
    }

    pub fn near_zero(self) -> (r: bool)
        ensures
            r == v3_near_zero(self@),
    {
        let eps: Scalar = Scalar::from_raw(NEAR_ZERO_RAW);
        self.x.abs().lt(eps) && self.y.abs().lt(eps) && self.z.abs().lt(eps)
    }

    pub fn reflect(self, n: Vec3) -> (r: Vec3)
        ensures
            r@ == v3_reflect(self@, n@),
    {
        let two: Scalar = Scalar::from_int(2);
        self.sub(n.mul(two.mul(self.dot(n))))
    }

    pub fn dot(self, other: Vec3) -> (r: Scalar)
        ensures
            r@ == v3_dot(self@, other@),
    {
        Scalar::dot3(self.x, self.y, self.z, other.x, other.y, other.z)
    }

    pub fn length(self) -> (r: Scalar)
        ensures
            r@ == v3_length(self@),
    {
        Scalar::hypot(self.x, self.y, self.z)
    }

    pub fn squared_length(self) -> (r: Scalar)
        ensures
            r@ == v3_squared_length(self@),
    {
        self.dot(self)
    }

    pub fn cross(self, other: Vec3) -> (r: Vec3)
        ensures
            r@ == v3_cross(self@, other@),
    {
        Vec3 {
            x: self.y.mul(other.z).sub(self.z.mul(other.y)),
            y: self.z.mul(other.x).sub(self.x.mul(other.z)),
            z: self.x.mul(other.y).sub(self.y.mul(other.x)),
        }
    }

    pub fn normalized(self) -> (r: Vec3)
        ensures
            r@ == v3_normalized(self@),
    {
        self.div(self.length())
    }

    /// The level from 0 to 255 of a channel that holds the sum `c` of
    /// `samples_per_pixel` samples.
    pub fn channel(c: Scalar, samples_per_pixel: u64) -> (r: u64)
        ensures
            r == channel_level(c@, samples_per_pixel as nat),
            r <= 255,
    {
        proof {
            lemma_channel_level_bounds(c@, samples_per_pixel as nat);
        }
        let mean: Scalar = c.div(Scalar::from_u64(samples_per_pixel));
        let level: Scalar = mean.sqrt().clamp(Scalar::zero(), Scalar::from_raw(CHANNEL_CEILING_RAW));
        Scalar::from_int(256).mul(level).trunc_u64()
    }

    /// The colour as a line of an image in plain text: the three channel
    /// levels of the sum of `samples_per_pixel` samples.
    pub fn format_color(self, samples_per_pixel: u64) -> (s: String)
        ensures
            s@ == color_text(self@, samples_per_pixel as nat),
    {
        proof {
            reveal_strlit(" ");
        }
        let mut s: String = decimal_string(Self::channel(self.x, samples_per_pixel));
        s.append(" ");
        s.append(decimal_string(Self::channel(self.y, samples_per_pixel)).as_str());
        s.append(" ");
        s.append(decimal_string(Self::channel(self.z, samples_per_pixel)).as_str());
        assert(s@ =~= color_text(self@, samples_per_pixel as nat));
        s
    }

    pub fn refract(self, n: Vec3, etai_over_etat: Scalar) -> (r: Vec3)
        ensures
            r@ == v3_refract(self@, n@, etai_over_etat@),
    {
        let cos_theta: Scalar = self.neg().dot(n).min(Scalar::one());
        let r_out_perp: Vec3 = self.add(n.mul(cos_theta)).mul(etai_over_etat);
        let r_out_parallel: Vec3 = n.mul(
            Scalar::one().sub(r_out_perp.length().powi(2)).abs().sqrt().neg(),
        );
        r_out_perp.add(r_out_parallel)
    }
}

} // verus!
