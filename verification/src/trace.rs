use vstd::prelude::*;
use crate::hitable::{hit_view, Hitable};
use crate::hitable_list::{list_hit, HitableList};
use crate::material::{
    admissible, lemma_scatter_with_scatters, material_scatter_with, material_scatters, scatter_view,
    white, Draw, DrawM, Material, Scatter,
};
use crate::ray::{Ray, RayM};
use crate::scalar::{
    fx_add, fx_mul, fx_sub, lemma_fx_mul_fraction, lemma_fx_mul_whole, Scalar, RAW_MAX, SCALE,
};
use crate::sphere::SphereM;
use crate::vec3::{
    lemma_normalized_bounded, v3_add, v3_in_range, v3_mul, v3_normalized, v3_scale, Color, Vec3, V3,
};

verus! {

/// Raw value of the smallest ray parameter at which a hit counts, a
/// thousandth: nearer intersections are the surface that the ray just left.
pub const T_MIN_RAW: i64 = 1_000_000;

/// Raw value of one half.
pub const HALF_RAW: i64 = 500_000_000;

/// The colour of no light.
pub open spec fn black() -> V3 {
    V3 { x: 0, y: 0, z: 0 }
}

/// The colour of the sky overhead.
pub open spec fn sky_blue() -> V3 {
    V3 { x: 500_000_000, y: 700_000_000, z: 1_000_000_000 }
}

/// Share of sky blue in the background along a direction: half of the
/// height of the unit direction plus one.
pub open spec fn sky_blend(direction: V3) -> int {
    fx_mul(HALF_RAW as int, fx_add(v3_normalized(direction).y, SCALE as int))
}

/// The background seen along a ray that escapes the scene: white blended
/// into sky blue as the ray points upward.
pub open spec fn sky(r: RayM) -> V3 {
    let t = sky_blend(r.direction);
    v3_add(v3_scale(white(), fx_sub(SCALE as int, t)), v3_scale(sky_blue(), t))
}

/// The background is a colour between black and white along every
/// direction, the zero direction included.
pub proof fn lemma_sky_in_gamut(r: RayM)
    requires
        v3_in_range(r.direction),
    ensures
        0 <= sky(r).x <= SCALE,
        0 <= sky(r).y <= SCALE,
        0 <= sky(r).z <= SCALE,
{
    lemma_normalized_bounded(r.direction);
    let up = fx_add(v3_normalized(r.direction).y, SCALE as int);
    assert(0 <= up <= 2 * SCALE);
    let t = sky_blend(r.direction);
    assert(0 <= HALF_RAW * up <= SCALE * SCALE) by (nonlinear_arith)
        requires
            0 <= up <= 2 * SCALE,
            HALF_RAW * 2 == SCALE,
    ;
    vstd::arithmetic::div_mod::lemma_div_pos_is_pos(HALF_RAW * up, SCALE as int);
    vstd::arithmetic::div_mod::lemma_div_is_ordered(HALF_RAW * up, SCALE * SCALE, SCALE as int);
    vstd::arithmetic::div_mod::lemma_div_by_multiple(SCALE as int, SCALE as int);
    assert(0 <= t <= SCALE);
    lemma_fx_mul_whole(1, SCALE - t);
    lemma_fx_mul_fraction(sky_blue().x, t);
    lemma_fx_mul_fraction(sky_blue().y, t);
    lemma_fx_mul_fraction(sky_blue().z, t);
}

/// The colour that a bounce hands on: black where the ray was absorbed,
/// else the colour `incoming` of the scattered ray tinted by the attenuation.
pub open spec fn bounce_color(out: Scatter, incoming: V3) -> V3 {
    match out {
        None => black(),
        Some(pair) => v3_mul(incoming, pair.0),
    }
}

/// `c` is a colour that tracing the ray `r` through the scene can give with
/// `depth` bounces left, for some outcome of the random draws on the way:
/// black with no bounce left; the background where the ray escapes; black
/// where the surface that it strikes absorbs it; else a colour of the
/// scattered ray with one bounce less, tinted by the attenuation.
pub open spec fn is_radiance(world: Seq<SphereM>, r: RayM, depth: nat, c: V3) -> bool
    decreases depth,
{
    if depth == 0 {
        c == black()
    } else {
        match list_hit(world, r, T_MIN_RAW as int, RAW_MAX as int) {
            None => c == sky(r),
            Some(rec) => exists|out: Scatter, incoming: V3|
                #![trigger material_scatters(rec.material, r, rec, out), bounce_color(out, incoming)]
                {
                    &&& material_scatters(rec.material, r, rec, out)
                    &&& c == bounce_color(out, incoming)
                    &&& out matches Some(pair) ==> is_radiance(
                        world,
                        pair.1,
                        (depth - 1) as nat,
                        incoming,
                    )
                },
        }
    }
}

/// With no bounce left the colour is black, whatever the scene.
pub proof fn lemma_radiance_exhausted(world: Seq<SphereM>, r: RayM, c: V3)
    requires
        is_radiance(world, r, 0, c),
    ensures
        c == black(),
{
}

/// A ray that strikes nothing, with a bounce left, has the colour of the
/// background.
pub proof fn lemma_radiance_of_escape(world: Seq<SphereM>, r: RayM, depth: nat, c: V3)
    requires
        depth > 0,
        list_hit(world, r, T_MIN_RAW as int, RAW_MAX as int) is None,
        is_radiance(world, r, depth, c),
    ensures
        c == sky(r),
{
}

/// In a scene without shapes every ray, with a bounce left, has the colour
/// of the background.
pub proof fn lemma_radiance_in_empty_scene(r: RayM, depth: nat, c: V3)
    requires
        depth > 0,
        is_radiance(Seq::<SphereM>::empty(), r, depth, c),
    ensures
        c == sky(r),
{
}

/// The mathematical content of a sequence of draws.
pub open spec fn draws_view(draws: Seq<Draw>) -> Seq<DrawM> {
    Seq::new(draws.len(), |i: int| draws[i]@)
}

/// The colour of the ray `r` with `depth` bounces left, where the bounces
/// take their random values from `draws` in turn: black with no bounce left;
/// the background where the ray escapes; black where no draw is left for the
/// surface that it strikes, or where that surface absorbs it; else the colour
/// of the scattered ray, traced with the draws that follow, tinted by the
/// attenuation.
pub open spec fn radiance_along(world: Seq<SphereM>, r: RayM, depth: nat, draws: Seq<DrawM>) -> V3
    decreases depth,
{
    if depth == 0 {
        black()
    } else {
        match list_hit(world, r, T_MIN_RAW as int, RAW_MAX as int) {
            None => sky(r),
            Some(rec) => if draws.len() == 0 {
                black()
            } else {
                match material_scatter_with(rec.material, r, rec, draws[0]) {
                    None => black(),
                    Some(pair) => v3_mul(
                        radiance_along(world, pair.1, (depth - 1) as nat, draws.skip(1)),
                        pair.0,
                    ),
                }
            },
        }
    }
}

/// With admissible draws, one for each bounce at least, the colour along the
/// draws is a colour that tracing with random draws can give.
pub proof fn lemma_radiance_along_is_radiance(
    world: Seq<SphereM>,
    r: RayM,
    depth: nat,
    draws: Seq<DrawM>,
)
    requires
        draws.len() >= depth,
        forall|i: int| 0 <= i < draws.len() ==> admissible(#[trigger] draws[i]),
    ensures
        is_radiance(world, r, depth, radiance_along(world, r, depth, draws)),
    decreases depth,
{
    if depth > 0 {
        if let Some(rec) = list_hit(world, r, T_MIN_RAW as int, RAW_MAX as int) {
            let out = material_scatter_with(rec.material, r, rec, draws[0]);
            lemma_scatter_with_scatters(rec.material, r, rec, draws[0]);
            match out {
                None => {
                    assert(black() == bounce_color(out, black()));
                },
                Some(pair) => {
                    let rest = draws.skip(1);
                    assert forall|i: int| 0 <= i < rest.len() implies admissible(
                        #[trigger] rest[i],
                    ) by {
                        assert(rest[i] == draws[i + 1]);
                    }
                    lemma_radiance_along_is_radiance(world, pair.1, (depth - 1) as nat, rest);
                    let incoming = radiance_along(world, pair.1, (depth - 1) as nat, rest);
                    assert(radiance_along(world, r, depth, draws) == bounce_color(out, incoming));
                },
            }
        }
    }
}

/// The background along the ray `r`.
pub fn sky_color(r: &Ray) -> (c: Color)
    ensures
        c@ == sky(r@),
        0 <= c@.x <= SCALE && 0 <= c@.y <= SCALE && 0 <= c@.z <= SCALE,
{
    let direction: Vec3 = r.direction();
    let raw: (i64, i64, i64) = (direction.x().raw(), direction.y().raw(), direction.z().raw());
    proof {
        lemma_sky_in_gamut(r@);
    }
    let one: Scalar = Scalar::one();
    let unit_direction: Vec3 = r.direction().normalized();
    let t: Scalar = Scalar::from_raw(HALF_RAW).mul(unit_direction.y().add(one));
    let white: Color = Color::new(one, one, one);
    let blue: Color = Color::new(
        Scalar::from_raw(500_000_000),
        Scalar::from_raw(700_000_000),
        one,
    );
    white.mul(one.sub(t)).add(blue.mul(t))
}

/// The light that arrives along the ray `r`, followed over at most `depth`
/// bounces that take their random values from `draws`, beginning with the
/// draw at `next`.
fn color_from(r: &Ray, world_list: &HitableList, depth: u64, draws: &Vec<Draw>, next: usize) -> (c:
    Color)
    requires
        next <= draws.len(),
    ensures
        c@ == radiance_along(
            world_list@,
            r@,
            depth as nat,
            draws_view(draws@).skip(next as int),
        ),
    decreases depth,
{
    let zero: Scalar = Scalar::zero();
    if depth == 0 {
        return Color::new(zero, zero, zero);
    }
    let hit = world_list.hit(r, Scalar::from_raw(T_MIN_RAW), Scalar::infinity());
    match hit {
        Some(rec) => {
            if next >= draws.len() {
                return Color::new(zero, zero, zero);
            }
            let material = rec.get_material();
            proof {
                let left = draws_view(draws@).skip(next as int);
                assert(left[0] == draws@[next as int]@);
                assert(left.skip(1) =~= draws_view(draws@).skip(next + 1));
            }
            match material.scatter_with(r, &rec, &draws[next]) {
                Some(pair) => {
                    let incoming: Color = color_from(&pair.1, world_list, depth - 1, draws, next + 1);
                    incoming.mul_vec(pair.0)
                },
                None => Color::new(zero, zero, zero),
            }
        },
        None => sky_color(r),
    }
}

/// The light that arrives along the ray `r` from the scene, followed over at
/// most `depth` bounces that take their random values from `draws` in turn.
/// The same arguments give the same colour.
pub fn color_with(r: &Ray, world_list: &HitableList, depth: u64, draws: &Vec<Draw>) -> (c: Color)
    ensures
        c@ == radiance_along(world_list@, r@, depth as nat, draws_view(draws@)),
        depth == 0 ==> c@ == black(),
{
    proof {
        assert(draws_view(draws@).skip(0) =~= draws_view(draws@));
    }
    color_from(r, world_list, depth, draws, 0)
}

/// The light that arrives along the ray `r` from the scene, followed over at
/// most `depth` bounces.
pub fn color(r: &Ray, world_list: &HitableList, depth: u64) -> (c: Color)
    ensures
        is_radiance(world_list@, r@, depth as nat, c@),
        depth == 0 ==> c@ == black(),
        depth > 0 && list_hit(world_list@, r@, T_MIN_RAW as int, RAW_MAX as int) is None ==> c@
            == sky(r@),
    decreases depth,
{
    let zero: Scalar = Scalar::zero();
    if depth == 0 {
        return Color::new(zero, zero, zero);
    }
    let hit = world_list.hit(r, Scalar::from_raw(T_MIN_RAW), Scalar::infinity());
    match hit {
        Some(rec) => {
            let material = rec.get_material();
            let scattered = material.scatter(r, &rec);
            match scattered {
                Some(pair) => {
                    let incoming: Color = color(&pair.1, world_list, depth - 1);
                    let c: Color = incoming.mul_vec(pair.0);
                    proof {
                        let out = scatter_view(scattered);
                        assert(material_scatters(rec@.material, r@, rec@, out));
                        assert(c@ == bounce_color(out, incoming@));
                    }
                    c
                },
                None => {
                    proof {
                        let out = scatter_view(scattered);
                        assert(material_scatters(rec@.material, r@, rec@, out));
                        assert(black() == bounce_color(out, black()));
                    }
                    Color::new(zero, zero, zero)
                },
            }
        },
        None => sky_color(r),
    }
}

} // verus!
