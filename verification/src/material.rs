use vstd::prelude::*;
use crate::hitable::{HitM, HitRecord};
use crate::random::uniform_unit;
use crate::ray::{Ray, RayM};
use crate::scalar::{
    fx_add, fx_clamp, fx_div, fx_min, fx_mul, fx_powi, fx_sqrt, fx_sub, isqrt, lemma_fx_mul_whole,
    lemma_isqrt_exists, magnitude, Scalar, SCALE,
};
use crate::vec3::{
    exact_dot, v3_length, hemisphere_of, in_unit_ball, is_hemisphere_sample, v3_add, v3_dot, v3_near_zero, v3_neg, v3_normalized,
    v3_reflect, v3_refract, v3_scale, Color, Vec3, V3,
};

verus! {

/// The mathematical content of a material.
pub enum MaterialM {
    Lambertian { albedo: V3 },
    Metal { albedo: V3, fuzz: int },
    Dielectric { ri: int },
}

/// What a scatter hands back: the attenuation and the scattered ray, or
/// nothing where the ray is absorbed.
pub type Scatter = Option<(V3, RayM)>;

/// The colour that leaves light unchanged.
pub open spec fn white() -> V3 {
    V3 { x: SCALE as int, y: SCALE as int, z: SCALE as int }
}

/// Direction in which a diffuse surface with the given normal sends a ray for
/// the given hemisphere sample: their sum, or the normal where every
/// component of the sum is below the near-zero threshold.
pub open spec fn lambertian_direction(normal: V3, sample: V3) -> V3 {
    if v3_near_zero(v3_add(normal, sample)) {
        normal
    } else {
        v3_add(normal, sample)
    }
}

/// Scatter of a diffuse surface for the given hemisphere sample.
pub open spec fn lambertian_scatter(albedo: V3, rec: HitM, sample: V3) -> (V3, RayM) {
    (albedo, RayM { origin: rec.p, direction: lambertian_direction(rec.normal, sample) })
}

/// Direction of a ray reflected by a metal: the unit mirror direction plus
/// `fuzz` times the given point of the unit ball.
pub open spec fn metal_direction(fuzz: int, incoming: V3, normal: V3, sample: V3) -> V3 {
    v3_add(v3_normalized(v3_reflect(incoming, normal)), v3_scale(sample, fuzz))
}

/// Scatter of a metal for the given point of the unit ball: the reflected ray
/// where it leaves on the side of the normal, else nothing.
pub open spec fn metal_scatter(albedo: V3, fuzz: int, r: RayM, rec: HitM, sample: V3) -> Scatter {
    let direction = metal_direction(fuzz, r.direction, rec.normal, sample);
    if v3_dot(direction, rec.normal) > 0 {
        Some((albedo, RayM { origin: rec.p, direction }))
    } else {
        None
    }
}

/// Schlick's approximation of the reflectance at the given cosine of the
/// angle of incidence: `r0 + (1 - r0) (1 - cosine)^5`, where `r0` is the
/// square of `(1 - ref_idx) / (1 + ref_idx)`.
pub open spec fn schlick(cosine: int, ref_idx: int) -> int {
    let r0 = fx_powi(fx_div(fx_sub(SCALE as int, ref_idx), fx_add(SCALE as int, ref_idx)), 2);
    fx_add(r0, fx_mul(fx_sub(SCALE as int, r0), fx_powi(fx_sub(SCALE as int, cosine), 5)))
}

/// Ratio of refractive indices met by a ray that strikes a surface of index
/// `ri`: its inverse from the front, the index itself from the back.
pub open spec fn refraction_ratio(ri: int, front_face: bool) -> int {
    if front_face {
        fx_div(SCALE as int, ri)
    } else {
        ri
    }
}

/// Cosine of the angle of incidence of a unit direction on a normal, limited
/// to one.
pub open spec fn cos_theta(unit: V3, normal: V3) -> int {
    fx_min(v3_dot(v3_neg(unit), normal), SCALE as int)
}

/// Sine that belongs to a cosine.
pub open spec fn sin_theta(cos: int) -> int {
    fx_sqrt(fx_sub(SCALE as int, fx_powi(cos, 2)))
}

/// A dielectric reflects, rather than refracts, a ray of the given unit
/// direction: Snell's law has no solution, or the coin falls below the
/// reflectance.
pub open spec fn dielectric_reflects(ratio: int, unit: V3, normal: V3, coin: int) -> bool {
    let cos = cos_theta(unit, normal);
    fx_mul(ratio, sin_theta(cos)) > SCALE || coin < schlick(cos, ratio)
}

/// Scatter of a dielectric for the given coin, a value between zero and one.
pub open spec fn dielectric_scatter(ri: int, r: RayM, rec: HitM, coin: int) -> (V3, RayM) {
    let ratio = refraction_ratio(ri, rec.front_face);
    let unit = v3_normalized(r.direction);
    let direction = if dielectric_reflects(ratio, unit, rec.normal, coin) {
        v3_reflect(unit, rec.normal)
    } else {
        v3_refract(unit, rec.normal, ratio)
    };
    (white(), RayM { origin: rec.p, direction })
}

/// `out` is a scatter that the material can give for the ray `r` and the hit
/// `rec`, for some outcome of its random draw.
pub open spec fn material_scatters(m: MaterialM, r: RayM, rec: HitM, out: Scatter) -> bool {
    match m {
        MaterialM::Lambertian { albedo } => exists|s: V3|
            is_hemisphere_sample(s) && out == Some(#[trigger] lambertian_scatter(albedo, rec, s)),
        MaterialM::Metal { albedo, fuzz } => exists|s: V3|
            in_unit_ball(s) && out == #[trigger] metal_scatter(albedo, fuzz, r, rec, s),
        MaterialM::Dielectric { ri } => exists|coin: int|
            0 <= coin < SCALE && out == Some(#[trigger] dielectric_scatter(ri, r, rec, coin)),
    }
}

/// The normal has length one.
pub open spec fn is_unit(n: V3) -> bool {
    v3_length(n) == SCALE
}

/// The exact squared length of a unit vector is at least one and below the
/// square of the next raw value; that of a vector shorter than one is below
/// one.
pub proof fn lemma_exact_squared_lengths(n: V3, s: V3)
    requires
        is_unit(n),
        v3_length(s) < SCALE,
    ensures
        SCALE * SCALE <= exact_dot(n, n) < (SCALE + 1) * (SCALE + 1),
        0 <= exact_dot(s, s) < SCALE * SCALE,
{
    let nn = exact_dot(n, n);
    let ss = exact_dot(s, s);
    lemma_exact_square_nonneg(n);
    lemma_exact_square_nonneg(s);
    lemma_isqrt_exists(nn);
    lemma_isqrt_exists(ss);
    let rs = isqrt(ss);
    assert(ss < SCALE * SCALE) by (nonlinear_arith)
        requires
            ss < (rs + 1) * (rs + 1),
            0 <= rs < SCALE,
    ;
}

/// The exact squared length of a vector is never negative.
pub proof fn lemma_exact_square_nonneg(v: V3)
    ensures
        exact_dot(v, v) >= 0,
{
    assert(v.x * v.x >= 0 && v.y * v.y >= 0 && v.z * v.z >= 0) by (nonlinear_arith);
}

/// From a surface with a unit normal, a diffuse scatter for a sample shorter
/// than one leaves on the side of the normal: the exact dot product of its
/// direction with the normal is positive, so that the rounded one is never
/// negative. At this resolution the rounded one can be zero.
pub proof fn lemma_lambertian_leaves_outward(normal: V3, sample: V3)
    requires
        is_unit(normal),
        v3_length(sample) < SCALE,
    ensures
        exact_dot(lambertian_direction(normal, sample), normal) > 0,
        v3_dot(lambertian_direction(normal, sample), normal) >= 0,
{
    lemma_exact_squared_lengths(normal, sample);
    let nn = exact_dot(normal, normal);
    let ss = exact_dot(sample, sample);
    let sn = exact_dot(sample, normal);
    lemma_component_bounded(normal.x, normal.y, normal.z, SCALE + 1);
    lemma_component_bounded(normal.y, normal.z, normal.x, SCALE + 1);
    lemma_component_bounded(normal.z, normal.x, normal.y, SCALE + 1);
    lemma_component_bounded(sample.x, sample.y, sample.z, SCALE as int);
    lemma_component_bounded(sample.y, sample.z, sample.x, SCALE as int);
    lemma_component_bounded(sample.z, sample.x, sample.y, SCALE as int);
    let sum = v3_add(normal, sample);
    assert(sum.x == normal.x + sample.x && sum.y == normal.y + sample.y && sum.z == normal.z
        + sample.z);
    lemma_exact_square_nonneg(sum);
    assert(sum.x * sum.x == normal.x * normal.x + 2 * (sample.x * normal.x) + sample.x * sample.x)
        by (nonlinear_arith)
        requires
            sum.x == normal.x + sample.x,
    ;
    assert(sum.y * sum.y == normal.y * normal.y + 2 * (sample.y * normal.y) + sample.y * sample.y)
        by (nonlinear_arith)
        requires
            sum.y == normal.y + sample.y,
    ;
    assert(sum.z * sum.z == normal.z * normal.z + 2 * (sample.z * normal.z) + sample.z * sample.z)
        by (nonlinear_arith)
        requires
            sum.z == normal.z + sample.z,
    ;
    assert(exact_dot(sum, sum) == nn + 2 * sn + ss);
    assert(sum.x * normal.x == normal.x * normal.x + sample.x * normal.x) by (nonlinear_arith)
        requires
            sum.x == normal.x + sample.x,
    ;
    assert(sum.y * normal.y == normal.y * normal.y + sample.y * normal.y) by (nonlinear_arith)
        requires
            sum.y == normal.y + sample.y,
    ;
    assert(sum.z * normal.z == normal.z * normal.z + sample.z * normal.z) by (nonlinear_arith)
        requires
            sum.z == normal.z + sample.z,
    ;
    assert(exact_dot(sum, normal) == nn + sn);
    let d = lambertian_direction(normal, sample);
    assert(exact_dot(d, normal) > 0);
    vstd::arithmetic::div_mod::lemma_div_pos_is_pos(exact_dot(d, normal), SCALE as int);
}

/// A component of a vector whose exact squared length is below the square of
/// `bound` is smaller in magnitude than `bound`.
proof fn lemma_component_bounded(x: int, y: int, z: int, bound: int)
    requires
        x * x + y * y + z * z < bound * bound,
        bound > 0,
    ensures
        magnitude(x) < bound,
{
    assert(magnitude(x) < bound) by (nonlinear_arith)
        requires
            x * x + y * y + z * z < bound * bound,
            bound > 0,
    ;
}

/// A diffuse surface never absorbs a ray.
pub proof fn lemma_lambertian_never_absorbs(albedo: V3, r: RayM, rec: HitM, out: Scatter)
    requires
        material_scatters(MaterialM::Lambertian { albedo }, r, rec, out),
    ensures
        out is Some,
{
}

/// A metal absorbs a ray exactly where the reflected and perturbed direction
/// does not leave on the side of the normal.
pub proof fn lemma_metal_absorbs_inward_rays(
    albedo: V3,
    fuzz: int,
    r: RayM,
    rec: HitM,
    sample: V3,
)
    ensures
        metal_scatter(albedo, fuzz, r, rec, sample) is None <==> v3_dot(
            metal_direction(fuzz, r.direction, rec.normal, sample),
            rec.normal,
        ) <= 0,
{
}

/// The unit vector straight up.
pub open spec fn up() -> V3 {
    V3 { x: 0, y: SCALE as int, z: 0 }
}

/// On a surface whose normal points straight up, a metal of fuzz one absorbs
/// a ray exactly where the sample reaches down at least as far as the
/// mirrored unit direction reaches up. For a grazing ray that height is
/// small, so that nearly every sample of the lower half of the ball absorbs.
pub proof fn lemma_metal_absorbs_grazing_rays(albedo: V3, r: RayM, rec: HitM, sample: V3)
    requires
        rec.normal == up(),
        in_unit_ball(sample),
    ensures
        metal_scatter(albedo, SCALE as int, r, rec, sample) is None <==> sample.y <= -v3_normalized(
            v3_reflect(r.direction, up()),
        ).y,
{
    let unit = v3_normalized(v3_reflect(r.direction, up()));
    let direction = metal_direction(SCALE as int, r.direction, up(), sample);
    lemma_fx_mul_whole(1, sample.y);
    assert(direction.y == fx_add(unit.y, sample.y));
    lemma_fx_mul_whole(0, direction.x);
    lemma_fx_mul_whole(1, direction.y);
    lemma_fx_mul_whole(0, direction.z);
    assert(v3_dot(direction, up()) == direction.y);
}

/// A dielectric never absorbs a ray, and leaves its light untinted.
pub proof fn lemma_dielectric_never_absorbs(ri: int, r: RayM, rec: HitM, out: Scatter)
    requires
        material_scatters(MaterialM::Dielectric { ri }, r, rec, out),
    ensures
        out matches Some(pair) && pair.0 == white(),
{
}

/// The mathematical content of the random values that one bounce may use.
pub struct DrawM {
    pub sample: V3,
    pub coin: int,
}

/// The draw holds values that the random draws can give: a point of the unit
/// ball, and a coin that is at least zero and less than one.
pub open spec fn admissible(d: DrawM) -> bool {
    in_unit_ball(d.sample) && 0 <= d.coin < SCALE
}

/// The scatter of a material for given random values. A diffuse surface
/// takes the hemisphere sample made of the point, a metal the point itself,
/// a dielectric the coin.
pub open spec fn material_scatter_with(m: MaterialM, r: RayM, rec: HitM, d: DrawM) -> Scatter {
    match m {
        MaterialM::Lambertian { albedo } => Some(
            lambertian_scatter(albedo, rec, hemisphere_of(d.sample)),
        ),
        MaterialM::Metal { albedo, fuzz } => metal_scatter(albedo, fuzz, r, rec, d.sample),
        MaterialM::Dielectric { ri } => Some(dielectric_scatter(ri, r, rec, d.coin)),
    }
}

/// For admissible random values, the scatter is one that the material can
/// give.
pub proof fn lemma_scatter_with_scatters(m: MaterialM, r: RayM, rec: HitM, d: DrawM)
    requires
        admissible(d),
    ensures
        material_scatters(m, r, rec, material_scatter_with(m, r, rec, d)),
{
    match m {
        MaterialM::Lambertian { albedo } => {
            assert(is_hemisphere_sample(hemisphere_of(d.sample)));
            assert(material_scatter_with(m, r, rec, d) == Some(
                lambertian_scatter(albedo, rec, hemisphere_of(d.sample)),
            ));
        },
        MaterialM::Metal { albedo, fuzz } => {
            assert(material_scatter_with(m, r, rec, d) == metal_scatter(
                albedo,
                fuzz,
                r,
                rec,
                d.sample,
            ));
        },
        MaterialM::Dielectric { ri } => {
            assert(material_scatter_with(m, r, rec, d) == Some(
                dielectric_scatter(ri, r, rec, d.coin),
            ));
        },
    }
}

/// The mathematical content of a scatter result.
pub open spec fn scatter_view(res: Option<(Color, Ray)>) -> Scatter {
    match res {
        Some(pair) => Some((pair.0@, pair.1@)),
        None => None,
    }
}

/// A surface's answer to a ray that strikes it.
pub trait Material {
    /// The mathematical content of the material.
    spec fn model(&self) -> MaterialM;

    /// Scatters the ray `r` at the hit `hit_record`: the attenuation and the
    /// scattered ray, which starts at the hit point, or nothing where the ray
    /// is absorbed.
    fn scatter(&self, r: &Ray, hit_record: &HitRecord) -> (res: Option<(Color, Ray)>)
        ensures
            material_scatters(self.model(), r@, hit_record@, scatter_view(res)),
            res matches Some(pair) ==> pair.1@.origin == hit_record@.p,
    ;
}

/// A diffuse surface.
#[derive(Clone, Copy, Debug, PartialEq, Eq)]
pub struct Lambertian {
    albedo: Color,
}

impl Lambertian {
    pub fn new(a: Color) -> (r: Lambertian)
        ensures
            r@ == (MaterialM::Lambertian { albedo: a@ }),
    {
        Lambertian { albedo: a }
    }

    /// The scatter for the given hemisphere sample.
    pub fn scatter_with(&self, hit_record: &HitRecord, sample: Vec3) -> (res: (Color, Ray))
        ensures
            self@ matches MaterialM::Lambertian { albedo } && (res.0@, res.1@)
                == lambertian_scatter(albedo, hit_record@, sample@),
            is_unit(hit_record@.normal) && v3_length(sample@) < SCALE ==> exact_dot(
                res.1@.direction,
                hit_record@.normal,
            ) > 0 && v3_dot(res.1@.direction, hit_record@.normal) >= 0,
    {
        proof {
            if is_unit(hit_record@.normal) && v3_length(sample@) < SCALE {
                lemma_lambertian_leaves_outward(hit_record@.normal, sample@);
            }
        }
        let mut scatter_direction: Vec3 = hit_record.get_normal().add(sample);
        if scatter_direction.near_zero() {
            scatter_direction = hit_record.get_normal();
        }
        let scatter_ray: Ray = Ray::new(hit_record.get_point(), scatter_direction);
        (self.albedo, scatter_ray)
    }
}

impl View for Lambertian {
    type V = MaterialM;

    closed spec fn view(&self) -> MaterialM {
        MaterialM::Lambertian { albedo: self.albedo@ }
    }
}

impl Material for Lambertian {
    open spec fn model(&self) -> MaterialM {
        self@
    }

    fn scatter(&self, _r: &Ray, hit_record: &HitRecord) -> (res: Option<(Color, Ray)>)
        ensures
            res is Some,
            is_unit(hit_record@.normal) ==> (res matches Some(pair) && v3_dot(
                pair.1@.direction,
                hit_record@.normal,
            ) >= 0),
    {
        let sample: Vec3 = Vec3::random_in_hemisphere();
        let pair: (Color, Ray) = self.scatter_with(hit_record, sample);
        assert(scatter_view(Some(pair)) == Some(
            lambertian_scatter(self.albedo@, hit_record@, sample@),
        ));
        Some(pair)
    }
}

/// A reflective surface, fuzzy in its reflections by `fuzz`, which lies
/// between zero and one.
#[derive(Clone, Copy, Debug, PartialEq, Eq)]
pub struct Metal {
    albedo: Color,
    fuzz: Scalar,
}

impl Metal {
    #[verifier::type_invariant]
    pub closed spec fn fuzz_in_range(self) -> bool {
        0 <= self.fuzz@ <= SCALE
    }

    /// A metal of the given colour, with `fuzz` limited to the interval from
    /// zero to one.
    pub fn new(albedo: Color, fuzz: Scalar) -> (r: Metal)
        ensures
            r@ == (MaterialM::Metal { albedo: albedo@, fuzz: fx_clamp(fuzz@, 0, SCALE as int) }),
    {
        let fuzz: Scalar = fuzz.clamp(Scalar::zero(), Scalar::one());
        Metal { albedo, fuzz }
    }

    /// The fuzz, between zero and one.
    pub fn fuzz(&self) -> (r: Scalar)
        ensures
            self@ matches MaterialM::Metal { fuzz, .. } && r@ == fuzz,
            0 <= r@ <= SCALE,
    {
        proof {
            use_type_invariant(self);
        }
        self.fuzz
    }

    /// The scatter for the given point of the unit ball.
    pub fn scatter_with(&self, r: &Ray, hit_record: &HitRecord, sample: Vec3) -> (res: Option<
        (Color, Ray),
    >)
        ensures
            self@ matches MaterialM::Metal { albedo, fuzz } && scatter_view(res)
                == metal_scatter(albedo, fuzz, r@, hit_record@, sample@),
            self@ matches MaterialM::Metal { fuzz, .. } && (res is None <==> v3_dot(
                metal_direction(fuzz, r@.direction, hit_record@.normal, sample@),
                hit_record@.normal,
            ) <= 0),
    {
        let reflected: Vec3 = r.direction().reflect(hit_record.get_normal()).normalized();
        let scattered: Ray = Ray::new(hit_record.get_point(), reflected.add(sample.mul(self.fuzz)));
        if scattered.direction().dot(hit_record.get_normal()).gt(Scalar::zero()) {
            Some((self.albedo, scattered))
        } else {
            None
        }
    }
}

impl View for Metal {
    type V = MaterialM;

    closed spec fn view(&self) -> MaterialM {
        MaterialM::Metal { albedo: self.albedo@, fuzz: self.fuzz@ }
    }
}

impl Material for Metal {
    open spec fn model(&self) -> MaterialM {
        self@
    }

    fn scatter(&self, r: &Ray, hit_record: &HitRecord) -> (res: Option<(Color, Ray)>) {
        let sample: Vec3 = Vec3::random_in_unit_sphere();
        let res: Option<(Color, Ray)> = self.scatter_with(r, hit_record, sample);
        assert(scatter_view(res) == metal_scatter(
            self.albedo@,
            self.fuzz@,
            r@,
            hit_record@,
            sample@,
        ));
        res
    }
}

/// A transparent surface with refractive index `ri`.
#[derive(Clone, Copy, Debug, PartialEq, Eq)]
pub struct Dielectric {
    ri: Scalar,
}

impl Dielectric {
    pub fn new(ri: Scalar) -> (r: Dielectric)
        ensures
            r@ == (MaterialM::Dielectric { ri: ri@ }),
    {
        Dielectric { ri }
    }

    /// Schlick's approximation of the reflectance.
    pub fn reflectance(cosine: Scalar, ref_idx: Scalar) -> (r: Scalar)
        ensures
            r@ == schlick(cosine@, ref_idx@),
    {
        let one: Scalar = Scalar::one();
        let r0: Scalar = one.sub(ref_idx).div(one.add(ref_idx)).powi(2);
        r0.add(one.sub(r0).mul(one.sub(cosine).powi(5)))
    }

    /// The scatter for the given coin, a value between zero and one that
    /// decides between reflection and refraction.
    pub fn scatter_with(&self, r: &Ray, hit_record: &HitRecord, coin: Scalar) -> (res: (Color, Ray))
        ensures
            self@ matches MaterialM::Dielectric { ri } && (res.0@, res.1@)
                == dielectric_scatter(ri, r@, hit_record@, coin@),
    {
        let one: Scalar = Scalar::one();
        let refraction_ratio: Scalar = if hit_record.get_front_face() {
            one.div(self.ri)
        } else {
            self.ri
        };
        let unit_direction: Vec3 = r.direction().normalized();
        let cos_theta: Scalar = unit_direction.neg().dot(hit_record.get_normal()).min(one);
        let sin_theta: Scalar = one.sub(cos_theta.powi(2)).sqrt();
        let cannot_refract: bool = refraction_ratio.mul(sin_theta).gt(one);
        let will_reflect: bool = coin.lt(Self::reflectance(cos_theta, refraction_ratio));
        let direction: Vec3 = if cannot_refract || will_reflect {
            unit_direction.reflect(hit_record.get_normal())
        } else {
            unit_direction.refract(hit_record.get_normal(), refraction_ratio)
        };
        let scattered: Ray = Ray::new(hit_record.get_point(), direction);
        (Color::new(one, one, one), scattered)
    }
}

impl View for Dielectric {
    type V = MaterialM;

    closed spec fn view(&self) -> MaterialM {
        MaterialM::Dielectric { ri: self.ri@ }
    }
}

impl Material for Dielectric {
    open spec fn model(&self) -> MaterialM {
        self@
    }

    fn scatter(&self, r: &Ray, hit_record: &HitRecord) -> (res: Option<(Color, Ray)>)
        ensures
            res is Some,
    {
        let coin: Scalar = uniform_unit();
        let pair: (Color, Ray) = self.scatter_with(r, hit_record, coin);
        assert(scatter_view(Some(pair)) == Some(
            dielectric_scatter(self.ri@, r@, hit_record@, coin@),
        ));
        Some(pair)
    }
}

/// Any of the materials; the form in which shapes and hit records share one.
#[derive(Clone, Copy, Debug, PartialEq, Eq)]
pub enum MaterialKind {
    Lambertian(Lambertian),
    Metal(Metal),
    Dielectric(Dielectric),
}

impl View for MaterialKind {
    type V = MaterialM;

    open spec fn view(&self) -> MaterialM {
        match self {
            MaterialKind::Lambertian(m) => m@,
            MaterialKind::Metal(m) => m@,
            MaterialKind::Dielectric(m) => m@,
        }
    }
}

/// The random values that one bounce may use: a point of the unit ball and a
/// coin between zero and one. Held as values, they make a trace repeatable.
#[derive(Clone, Copy, Debug, PartialEq, Eq)]
pub struct Draw {
    pub sample: Vec3,
    pub coin: Scalar,
}

impl View for Draw {
    type V = DrawM;

    open spec fn view(&self) -> DrawM {
        DrawM { sample: self.sample@, coin: self.coin@ }
    }
}

impl Draw {
    /// Fresh random values for one bounce.
    pub fn random() -> (d: Draw)
        ensures
            admissible(d@),
    {
        let sample: Vec3 = Vec3::random_in_unit_sphere();
        let coin: Scalar = uniform_unit();
        Draw { sample, coin }
    }
}

impl MaterialKind {
    /// The scatter for the given random values.
    pub fn scatter_with(&self, r: &Ray, hit_record: &HitRecord, draw: &Draw) -> (res: Option<
        (Color, Ray),
    >)
        ensures
            scatter_view(res) == material_scatter_with(self@, r@, hit_record@, draw@),
    {
        match self {
            MaterialKind::Lambertian(m) => Some(
                m.scatter_with(hit_record, Vec3::hemisphere_from(draw.sample)),
            ),
            MaterialKind::Metal(m) => m.scatter_with(r, hit_record, draw.sample),
            MaterialKind::Dielectric(m) => Some(m.scatter_with(r, hit_record, draw.coin)),
        }
    }
}

impl Material for MaterialKind {
    open spec fn model(&self) -> MaterialM {
        self@
    }

    fn scatter(&self, r: &Ray, hit_record: &HitRecord) -> (res: Option<(Color, Ray)>) {
        match self {
            MaterialKind::Lambertian(m) => m.scatter(r, hit_record),
            MaterialKind::Metal(m) => m.scatter(r, hit_record),
            MaterialKind::Dielectric(m) => m.scatter(r, hit_record),
        }
    }
}

} // verus!
