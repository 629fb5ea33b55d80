use raytracer::hitable::HitRecord;
use raytracer::material::{Dielectric, Lambertian, Material, MaterialKind, Metal};
use raytracer::ray::Ray;
use raytracer::scalar::{Scalar, SCALE};
use raytracer::vec3::Vec3;
use std::rc::Rc;

const ONE: i64 = SCALE;

fn c(x: i64, y: i64, z: i64) -> Vec3 {
    Vec3::new(Scalar::from_raw(x), Scalar::from_raw(y), Scalar::from_raw(z))
}

fn record(normal: Vec3, front_face: bool) -> HitRecord {
    let material = Rc::new(MaterialKind::Dielectric(Dielectric::new(Scalar::from_raw(1_500_000_000))));
    HitRecord::new(Scalar::one(), c(ONE, 2 * ONE, 3 * ONE), normal, front_face, material)
}

#[test]
fn lambertian_scatters_along_normal_plus_sample() {
    let albedo = c(700_000_000, 300_000_000, 300_000_000);
    let rec = record(c(0, 0, ONE), true);
    let (attenuation, scattered) =
        Lambertian::new(albedo).scatter_with(&rec, c(100_000_000, 200_000_000, 300_000_000));
    assert_eq!(attenuation, albedo);
    assert_eq!(scattered.origin(), c(ONE, 2 * ONE, 3 * ONE));
    assert_eq!(scattered.direction(), c(100_000_000, 200_000_000, 1_300_000_000));
}

#[test]
fn lambertian_falls_back_to_the_normal_for_a_vanishing_direction() {
    let rec = record(c(0, 0, ONE), true);
    let (_, scattered) = Lambertian::new(c(ONE, ONE, ONE)).scatter_with(&rec, c(0, 0, -999_999_995));
    assert_eq!(scattered.direction(), c(0, 0, ONE));
    let (_, scattered) = Lambertian::new(c(ONE, ONE, ONE)).scatter_with(&rec, c(0, 0, -999_999_990));
    assert_eq!(scattered.direction(), c(0, 0, 10));
}

#[test]
fn lambertian_falls_back_for_a_vanishing_direction_of_either_sign() {
    let rec = record(c(0, 0, ONE), true);
    let (_, scattered) = Lambertian::new(c(ONE, ONE, ONE)).scatter_with(&rec, c(-9, 9, -1_000_000_005));
    assert_eq!(scattered.direction(), c(0, 0, ONE));
    let (_, scattered) = Lambertian::new(c(ONE, ONE, ONE)).scatter_with(&rec, c(0, 0, -1_000_000_010));
    assert_eq!(scattered.direction(), c(0, 0, -10));
}

#[test]
fn lambertian_keeps_a_sum_of_negative_components() {
    let rec = record(c(0, -ONE, 0), true);
    let (_, scattered) =
        Lambertian::new(c(ONE, ONE, ONE)).scatter_with(&rec, c(-500_000_000, 100_000_000, -200_000_000));
    assert_eq!(scattered.direction(), c(-500_000_000, -900_000_000, -200_000_000));
    let rec = record(c(0, 0, -ONE), true);
    let (_, scattered) = Lambertian::new(c(ONE, ONE, ONE)).scatter_with(&rec, c(-500_000_000, 0, 0));
    assert_eq!(scattered.direction(), c(-500_000_000, 0, -ONE));
}

#[test]
fn lambertian_always_scatters() {
    let albedo = c(800_000_000, 800_000_000, 0);
    let material = Lambertian::new(albedo);
    let rec = record(c(0, ONE, 0), true);
    let r = Ray::new(c(0, 0, 0), c(ONE, -ONE, 0));
    for _ in 0..300 {
        let (attenuation, scattered) = material.scatter(&r, &rec).unwrap();
        assert_eq!(attenuation, albedo);
        assert_eq!(scattered.origin(), rec.get_point());
        let offset = scattered.direction().sub(rec.get_normal());
        assert!(offset.length().raw() <= ONE + 10);
    }
}

#[test]
fn metal_limits_its_fuzz_to_the_unit_interval() {
    let albedo = c(ONE, ONE, ONE);
    assert_eq!(Metal::new(albedo, Scalar::from_raw(300_000_000)).fuzz().raw(), 300_000_000);
    assert_eq!(Metal::new(albedo, Scalar::from_int(3)).fuzz().raw(), ONE);
    assert_eq!(Metal::new(albedo, Scalar::from_int(-3)).fuzz().raw(), 0);
}

#[test]
fn metal_without_fuzz_mirrors_the_ray() {
    let albedo = c(800_000_000, 800_000_000, 800_000_000);
    let rec = record(c(0, ONE, 0), true);
    let r = Ray::new(c(0, 0, 0), c(ONE, -ONE, 0));
    let (attenuation, scattered) = Metal::new(albedo, Scalar::zero())
        .scatter_with(&r, &rec, c(200_000_000, -400_000_000, 600_000_000))
        .unwrap();
    assert_eq!(attenuation, albedo);
    assert_eq!(scattered.origin(), rec.get_point());
    assert_eq!(scattered.direction(), c(707_106_781, 707_106_781, 0));
}

#[test]
fn metal_with_fuzz_adds_the_scaled_sample() {
    let rec = record(c(0, ONE, 0), true);
    let r = Ray::new(c(0, 0, 0), c(ONE, -ONE, 0));
    let (_, scattered) = Metal::new(c(ONE, ONE, ONE), Scalar::from_raw(500_000_000))
        .scatter_with(&r, &rec, c(200_000_000, -400_000_000, 600_000_000))
        .unwrap();
    assert_eq!(scattered.direction(), c(807_106_781, 507_106_781, 300_000_000));
}

#[test]
fn metal_absorbs_a_grazing_ray_that_fuzz_pushes_under_the_surface() {
    let rec = record(c(0, ONE, 0), true);
    let r = Ray::new(c(0, 0, 0), c(ONE, -1_000_000, 0));
    let metal = Metal::new(c(ONE, ONE, ONE), Scalar::one());
    assert!(metal.scatter_with(&r, &rec, c(0, -500_000_000, 0)).is_none());
    let (_, scattered) = metal.scatter_with(&r, &rec, c(0, 500_000_000, 0)).unwrap();
    assert_eq!(scattered.direction(), c(999_999_501, 500_999_999, 0));
}

#[test]
fn metal_absorbs_a_ray_that_leaves_along_the_surface() {
    let rec = record(c(0, ONE, 0), true);
    let r = Ray::new(c(0, 0, 0), c(ONE, 0, 0));
    assert!(Metal::new(c(ONE, ONE, ONE), Scalar::zero()).scatter_with(&r, &rec, c(0, 0, 0)).is_none());
}

#[test]
fn metal_scatters_only_to_the_side_of_the_normal() {
    let albedo = c(800_000_000, 800_000_000, 800_000_000);
    let metal = Metal::new(albedo, Scalar::one());
    let rec = record(c(0, ONE, 0), true);
    let r = Ray::new(c(0, 0, 0), c(ONE, -1_000_000, 0));
    let mut absorbed = 0;
    let mut scattered_count = 0;
    for _ in 0..400 {
        match metal.scatter(&r, &rec) {
            Some((attenuation, scattered)) => {
                assert_eq!(attenuation, albedo);
                assert_eq!(scattered.origin(), rec.get_point());
                assert!(scattered.direction().dot(rec.get_normal()).raw() > 0);
                scattered_count += 1;
            }
            None => absorbed += 1,
        }
    }
    assert!(absorbed > 0);
    assert!(scattered_count > 0);
}

#[test]
fn reflectance_follows_schlick() {
    let glass = Scalar::from_raw(1_500_000_000);
    assert_eq!(Dielectric::reflectance(Scalar::one(), glass).raw(), 40_000_000);
    assert_eq!(Dielectric::reflectance(Scalar::zero(), glass).raw(), ONE);
    assert_eq!(Dielectric::reflectance(Scalar::from_raw(500_000_000), glass).raw(), 70_000_000);
    assert_eq!(Dielectric::reflectance(Scalar::from_raw(707_106_781), Scalar::from_raw(666_666_666)).raw(), 42_069_272);
}

#[test]
fn dielectric_refracts_when_the_coin_is_above_the_reflectance() {
    let rec = record(c(0, ONE, 0), true);
    let r = Ray::new(c(0, 0, 0), c(ONE, -ONE, 0));
    let (attenuation, scattered) =
        Dielectric::new(Scalar::from_raw(1_500_000_000)).scatter_with(&r, &rec, Scalar::from_raw(999_000_000));
    assert_eq!(attenuation, c(ONE, ONE, ONE));
    assert_eq!(scattered.origin(), rec.get_point());
    assert_eq!(scattered.direction(), c(471_404_520, -881_917_104, 0));
}

#[test]
fn dielectric_reflects_when_the_coin_is_below_the_reflectance() {
    let rec = record(c(0, ONE, 0), true);
    let r = Ray::new(c(0, 0, 0), c(ONE, -ONE, 0));
    let glass = Dielectric::new(Scalar::from_raw(1_500_000_000));
    let (attenuation, scattered) = glass.scatter_with(&r, &rec, Scalar::zero());
    assert_eq!(attenuation, c(ONE, ONE, ONE));
    assert_eq!(scattered.direction(), c(707_106_781, 707_106_781, 0));
    let (_, scattered) = glass.scatter_with(&r, &rec, Scalar::from_raw(42_069_271));
    assert_eq!(scattered.direction(), c(707_106_781, 707_106_781, 0));
    let (_, scattered) = glass.scatter_with(&r, &rec, Scalar::from_raw(42_069_272));
    assert_eq!(scattered.direction(), c(471_404_520, -881_917_104, 0));
}

#[test]
fn dielectric_reflects_totally_from_inside_at_a_flat_angle() {
    let rec = record(c(0, ONE, 0), false);
    let r = Ray::new(c(0, 0, 0), c(ONE, -ONE, 0));
    let (_, scattered) =
        Dielectric::new(Scalar::from_raw(1_500_000_000)).scatter_with(&r, &rec, Scalar::from_raw(999_000_000));
    assert_eq!(scattered.direction(), c(707_106_781, 707_106_781, 0));
}

#[test]
fn dielectric_passes_a_ray_along_the_normal_straight_through() {
    let rec = record(c(0, ONE, 0), true);
    let r = Ray::new(c(0, 0, 0), c(0, -ONE, 0));
    let (_, scattered) =
        Dielectric::new(Scalar::from_raw(1_500_000_000)).scatter_with(&r, &rec, Scalar::from_raw(500_000_000));
    assert_eq!(scattered.direction(), c(0, -ONE, 0));
}

#[test]
fn dielectric_always_scatters_white() {
    let glass = Dielectric::new(Scalar::from_raw(1_500_000_000));
    let rec = record(c(0, ONE, 0), true);
    let r = Ray::new(c(0, 0, 0), c(ONE, -ONE, 0));
    let mut reflected = 0;
    let mut refracted = 0;
    for _ in 0..2000 {
        let (attenuation, scattered) = glass.scatter(&r, &rec).unwrap();
        assert_eq!(attenuation, c(ONE, ONE, ONE));
        if scattered.direction() == c(707_106_781, 707_106_781, 0) {
            reflected += 1;
        } else {
            assert_eq!(scattered.direction(), c(471_404_520, -881_917_104, 0));
            refracted += 1;
        }
    }
    assert!(refracted > reflected);
}

#[test]
fn material_kind_scatters_as_the_material_it_holds() {
    let rec = record(c(0, ONE, 0), true);
    let r = Ray::new(c(0, 0, 0), c(ONE, -ONE, 0));
    let albedo = c(100_000_000, 200_000_000, 300_000_000);
    let diffuse = MaterialKind::Lambertian(Lambertian::new(albedo));
    let (attenuation, _) = diffuse.scatter(&r, &rec).unwrap();
    assert_eq!(attenuation, albedo);
    let mirror = MaterialKind::Metal(Metal::new(albedo, Scalar::zero()));
    let (attenuation, scattered) = mirror.scatter(&r, &rec).unwrap();
    assert_eq!(attenuation, albedo);
    assert_eq!(scattered.direction(), c(707_106_781, 707_106_781, 0));
    let glass = MaterialKind::Dielectric(Dielectric::new(Scalar::from_raw(1_500_000_000)));
    let (attenuation, _) = glass.scatter(&r, &rec).unwrap();
    assert_eq!(attenuation, c(ONE, ONE, ONE));
}
