use leonardo_engine::algebra::fixed::ONE;
use leonardo_engine::algebra::vec3::Vec3;
use leonardo_engine::error::ConfigError;
use leonardo_engine::graphics::hit::HitRecord;
use leonardo_engine::graphics::material::{
    reflect, refract, schlick_approx, Dielectric, Lambertian, Material, Metal, MAX_INDEX,
    MIN_INDEX,
};
use leonardo_engine::graphics::ray::Ray;

fn fx(value: f64) -> i64 {
    (value * 65536.0).round() as i64
}

fn vec(x: f64, y: f64, z: f64) -> Vec3 {
    Vec3::new(fx(x), fx(y), fx(z))
}

fn parts(v: Vec3) -> (i64, i64, i64) {
    (v.x(), v.y(), v.z())
}

fn floor_record(material: Material, front_face: bool) -> HitRecord {
    HitRecord::new(vec(1.0, 0.0, 2.0), vec(0.0, 1.0, 0.0), fx(3.0), front_face, material)
}

fn slanted() -> Ray {
    Ray::new(vec(0.0, 1.0, 3.0), vec(1.0, -1.0, 0.0))
}

#[test]
fn reflection_mirrors_the_normal_part() {
    let n = vec(0.0, 1.0, 0.0);
    assert_eq!(parts(reflect(vec(0.6, -0.8, 0.0), n)), (39322, 52429, 0));
    assert_eq!(parts(reflect(vec(1.0, -1.0, 0.5), n)), parts(vec(1.0, 1.0, 0.5)));
    assert_eq!(parts(reflect(vec(0.0, -1.0, 0.0), n)), parts(vec(0.0, 1.0, 0.0)));
    assert_eq!(parts(reflect(vec(1.0, 0.0, 0.0), n)), parts(vec(1.0, 0.0, 0.0)));
}

#[test]
fn reflection_reverses_the_dot_product_and_keeps_the_length() {
    let normals = [vec(0.0, 1.0, 0.0), vec(0.6, 0.8, 0.0), vec(0.0, -0.6, 0.8)];
    let directions = [vec(0.6, -0.8, 0.0), vec(0.0, -1.0, 0.0), vec(-0.36, -0.48, -0.8)];
    for n in normals {
        for d in directions {
            let d = Vec3::unit_vector(d);
            let n = Vec3::unit_vector(n);
            let r = reflect(d, n);
            assert!((r.inner(n) + d.inner(n)).abs() <= 8 * ONE as i128);
            assert!((r.inner(r) - d.inner(d)).abs() <= 16 * ONE as i128);
        }
    }
}

#[test]
fn refraction_without_a_change_of_medium_keeps_the_direction() {
    let n = vec(0.0, 1.0, 0.0);
    let straight = vec(0.0, -1.0, 0.0);
    assert_eq!(parts(refract(straight, n, ONE)), parts(straight));
    let u = Vec3::unit_vector(vec(1.0, -1.0, 0.0));
    assert_eq!(parts(u), (46340, -46340, 0));
    let bent = refract(u, n, ONE);
    assert_eq!(parts(bent), (46340, -46342, 0));
    for direction in [vec(0.3, -0.9, 0.1), vec(-0.5, -0.5, 0.7), vec(0.0, -0.2, 1.0)] {
        let u = Vec3::unit_vector(direction);
        let r = refract(u, n, ONE);
        assert!((r.x() - u.x()).abs() <= 4);
        assert!((r.y() - u.y()).abs() <= 4);
        assert!((r.z() - u.z()).abs() <= 4);
    }
}

#[test]
fn refraction_bends_toward_the_normal_in_glass() {
    let n = vec(0.0, 1.0, 0.0);
    let u = Vec3::unit_vector(vec(1.0, -1.0, 0.0));
    assert_eq!(parts(refract(u, n, 43690)), (30892, -57798, 0));
    assert_eq!(parts(refract(vec(0.0, -1.0, 0.0), n, 43690)), parts(vec(0.0, -1.0, 0.0)));
}

#[test]
fn schlick_reflectance() {
    assert_eq!(schlick_approx(ONE, ONE), 0);
    assert_eq!(schlick_approx(ONE / 2, ONE), 2048);
    assert_eq!(schlick_approx(ONE, 43690), 2621);
    assert_eq!(schlick_approx(ONE / 2, 43690), 4587);
    assert_eq!(schlick_approx(0, fx(1.5)), ONE);
}

#[test]
fn lambertian_scatters_around_the_normal() {
    let albedo = vec(0.8, 0.4, 0.2);
    let surface = Lambertian::new(albedo).unwrap();
    let rec = floor_record(Material::Lambertian(surface), true);
    let scatter = surface.scatter_with(&rec, vec(0.6, 0.0, 0.8)).unwrap();
    assert_eq!(parts(scatter.attenuation), parts(albedo));
    assert_eq!(parts(scatter.scattered.origin()), parts(vec(1.0, 0.0, 2.0)));
    assert_eq!(parts(scatter.scattered.direction()), parts(vec(0.6, 1.0, 0.8)));
}

#[test]
fn lambertian_falls_back_to_the_normal() {
    let surface = Lambertian::new(vec(0.5, 0.5, 0.5)).unwrap();
    let rec = floor_record(Material::Lambertian(surface), true);
    let scatter = surface.scatter_with(&rec, vec(0.0, -1.0, 0.0)).unwrap();
    assert_eq!(parts(scatter.scattered.direction()), parts(vec(0.0, 1.0, 0.0)));
}

#[test]
fn lambertian_always_scatters() {
    let albedo = vec(0.1, 0.2, 0.3);
    let surface = Lambertian::new(albedo).unwrap();
    let rec = floor_record(Material::Lambertian(surface), true);
    for _ in 0..200 {
        let scatter = surface.scatter(slanted(), &rec).unwrap();
        assert_eq!(parts(scatter.attenuation), parts(albedo));
        let d = scatter.scattered.direction();
        assert!(!d.is_zero());
        assert!(d.y() >= 0 && d.y() <= 2 * ONE);
        assert!(d.x().abs() <= ONE && d.z().abs() <= ONE);
    }
}

#[test]
fn polished_metal_is_a_mirror() {
    let albedo = vec(0.7, 0.6, 0.5);
    let metal = Metal::new(albedo, 0).unwrap();
    let rec = floor_record(Material::Metal(metal), true);
    let ray = slanted();
    let mirrored = reflect(Vec3::unit_vector(ray.direction()), rec.normal);
    assert_eq!(parts(mirrored), (46340, 46340, 0));
    let with = metal.scatter_with(ray, &rec, vec(0.3, -0.4, 0.5)).unwrap();
    assert_eq!(parts(with.scattered.direction()), parts(mirrored));
    for _ in 0..50 {
        let scatter = metal.scatter(ray, &rec).unwrap();
        assert_eq!(parts(scatter.scattered.direction()), parts(mirrored));
        assert_eq!(parts(scatter.scattered.origin()), parts(rec.point));
        assert_eq!(parts(scatter.attenuation), parts(albedo));
    }
    let through = Material::Metal(metal).scatter(ray, &rec).unwrap();
    assert_eq!(parts(through.scattered.direction()), parts(mirrored));
}

#[test]
fn rough_metal_moves_the_mirror_image() {
    let metal = Metal::new(vec(0.7, 0.6, 0.5), fx(0.5)).unwrap();
    let rec = floor_record(Material::Metal(metal), true);
    let scatter = metal.scatter_with(slanted(), &rec, vec(0.2, 0.4, -0.6)).unwrap();
    assert_eq!(parts(scatter.scattered.direction()), (46340 + 6553, 46340 + 13107, -19661));
}

#[test]
fn metal_absorbs_what_would_enter_it() {
    let metal = Metal::new(vec(0.7, 0.6, 0.5), ONE).unwrap();
    let rec = floor_record(Material::Metal(metal), true);
    assert!(metal.scatter_with(slanted(), &rec, vec(0.0, -0.9, 0.0)).is_none());
    assert!(metal.scatter_with(slanted(), &rec, vec(0.0, -0.5, 0.0)).is_some());
    let grazing = Ray::new(vec(0.0, 0.0, 0.0), vec(1.0, 0.0, 0.0));
    assert!(metal.scatter_with(grazing, &rec, Vec3::zero()).is_none());
    let still = Ray::new(vec(0.0, 0.0, 0.0), Vec3::zero());
    assert!(metal.scatter_with(still, &rec, vec(0.0, 0.5, 0.0)).is_none());
}

#[test]
fn fuzz_is_held_between_zero_and_one() {
    let albedo = vec(0.5, 0.5, 0.5);
    assert_eq!(Metal::new(albedo, fx(0.3)).unwrap().fuzz, fx(0.3));
    assert_eq!(Metal::new(albedo, fx(1.0)).unwrap().fuzz, ONE);
    assert_eq!(Metal::new(albedo, fx(7.5)).unwrap().fuzz, ONE);
    assert_eq!(Metal::new(albedo, fx(-0.5)).unwrap().fuzz, 0);
    assert_eq!(Metal::new(albedo, 0).unwrap().fuzz, 0);
}

#[test]
fn albedo_must_be_a_share() {
    assert_eq!(
        Lambertian::new(vec(1.5, 0.0, 0.0)).unwrap_err(),
        ConfigError::AlbedoOutOfRange
    );
    assert_eq!(
        Lambertian::new(vec(0.5, -0.1, 0.0)).unwrap_err(),
        ConfigError::AlbedoOutOfRange
    );
    assert_eq!(
        Metal::new(vec(0.5, 0.5, 1.01), 0).unwrap_err(),
        ConfigError::AlbedoOutOfRange
    );
    assert!(Lambertian::new(vec(1.0, 0.0, 1.0)).is_ok());
    assert!(Metal::new(vec(0.0, 0.0, 0.0), ONE).is_ok());
}

#[test]
fn refractive_index_must_be_positive() {
    assert_eq!(Dielectric::new(0).unwrap_err(), ConfigError::NonPositiveRefractiveIndex);
    assert_eq!(Dielectric::new(-ONE).unwrap_err(), ConfigError::NonPositiveRefractiveIndex);
    assert_eq!(Dielectric::new(1).unwrap_err(), ConfigError::RefractiveIndexOutOfRange);
    assert_eq!(
        Dielectric::new(MIN_INDEX - 1).unwrap_err(),
        ConfigError::RefractiveIndexOutOfRange
    );
    assert_eq!(
        Dielectric::new(MAX_INDEX + 1).unwrap_err(),
        ConfigError::RefractiveIndexOutOfRange
    );
    assert_eq!(Dielectric::new(MIN_INDEX).unwrap().ref_idx, MIN_INDEX);
    assert_eq!(Dielectric::new(MAX_INDEX).unwrap().ref_idx, MAX_INDEX);
    assert_eq!(Dielectric::new(fx(1.5)).unwrap().ref_idx, fx(1.5));
}

#[test]
fn glass_reflects_with_schlick_probability() {
    let glass = Dielectric::new(fx(1.5)).unwrap();
    let rec = floor_record(Material::Dielectric(glass), true);
    let ray = Ray::new(vec(1.0, 4.0, 2.0), vec(0.0, -2.0, 0.0));
    let reflected = glass.scatter_with(ray, &rec, 2620).unwrap();
    assert_eq!(parts(reflected.scattered.direction()), parts(vec(0.0, 1.0, 0.0)));
    assert_eq!(parts(reflected.attenuation), (ONE, ONE, ONE));
    let refracted = glass.scatter_with(ray, &rec, 2621).unwrap();
    assert_eq!(parts(refracted.scattered.direction()), parts(vec(0.0, -1.0, 0.0)));
    assert_eq!(parts(refracted.attenuation), (ONE, ONE, ONE));
    assert_eq!(parts(refracted.scattered.origin()), parts(rec.point));
}

#[test]
fn glass_bends_a_slanted_ray() {
    let glass = Dielectric::new(fx(1.5)).unwrap();
    let rec = floor_record(Material::Dielectric(glass), true);
    let scatter = glass.scatter_with(slanted(), &rec, ONE - 1).unwrap();
    assert_eq!(parts(scatter.scattered.direction()), (30892, -57798, 0));
}

#[test]
fn glass_reflects_all_light_beyond_the_critical_angle() {
    let glass = Dielectric::new(fx(1.5)).unwrap();
    let rec = floor_record(Material::Dielectric(glass), false);
    let scatter = glass.scatter_with(slanted(), &rec, ONE - 1).unwrap();
    assert_eq!(parts(scatter.scattered.direction()), (46340, 46340, 0));
    assert_eq!(parts(scatter.attenuation), (ONE, ONE, ONE));
}

#[test]
fn air_neither_bends_nor_reflects() {
    let air = Dielectric::new(ONE).unwrap();
    for front_face in [true, false] {
        let rec = floor_record(Material::Dielectric(air), front_face);
        let ray = Ray::new(vec(1.0, 4.0, 2.0), vec(0.0, -3.0, 0.0));
        for fraction in [0, 1, ONE / 2, ONE - 1] {
            let scatter = air.scatter_with(ray, &rec, fraction).unwrap();
            assert_eq!(parts(scatter.scattered.direction()), parts(vec(0.0, -1.0, 0.0)));
        }
        for _ in 0..50 {
            let scatter = Material::Dielectric(air).scatter(ray, &rec).unwrap();
            assert_eq!(parts(scatter.scattered.direction()), parts(vec(0.0, -1.0, 0.0)));
        }
    }
}

#[test]
fn dielectric_absorbs_a_ray_without_direction() {
    let glass = Dielectric::new(fx(1.5)).unwrap();
    let rec = floor_record(Material::Dielectric(glass), true);
    let still = Ray::new(vec(0.0, 0.0, 0.0), Vec3::zero());
    assert!(glass.scatter_with(still, &rec, 0).is_none());
    assert!(glass.scatter(still, &rec).is_none());
}

#[test]
fn equal_media_do_not_bend_slanted_rays() {
    let normals = [vec(0.0, 1.0, 0.0), vec(0.6, 0.8, 0.0), vec(-0.3, 0.5, 0.7)];
    let directions = [
        vec(1.0, -1.0, 0.0),
        vec(0.3, -0.9, 0.1),
        vec(1.0, -0.01, 0.3),
        vec(-0.2, -0.5, -0.9),
        vec(0.0, -1.0, 0.0),
    ];
    for n in normals {
        let n = Vec3::unit_vector(n);
        for d in directions {
            let u = Vec3::unit_vector(d);
            if u.inner(n) > 0 {
                continue;
            }
            let cos = (-u).dot(n);
            let r = refract(u, n, ONE);
            for off in [r.x() - u.x(), r.y() - u.y(), r.z() - u.z()] {
                assert!(off.abs() <= 1307);
                assert!(cos * (off.abs() - 1) <= 26 * ONE);
            }
        }
    }
}

#[test]
fn refraction_keeps_the_length_and_enters_the_surface() {
    let n = Vec3::unit_vector(vec(0.1, 1.0, -0.2));
    let directions = [vec(1.0, -1.0, 0.0), vec(0.3, -0.9, 0.1), vec(-0.2, -0.5, -0.9)];
    for ratio in [ONE, fx(1.5), 43690, fx(0.3)] {
        for d in directions {
            let u = Vec3::unit_vector(d);
            assert!(u.inner(n) <= 0);
            let r = refract(u, n, ratio);
            assert!(r.inner(n) < 0);
            let length2 = r.inner(r);
            let one = (ONE as i128) * (ONE as i128);
            if length2 <= one + 64 * ONE as i128 {
                assert!((length2 - one).abs() <= (18 * ratio + 25 * ONE) as i128);
            }
        }
    }
    let u = Vec3::unit_vector(vec(1.0, -1.0, 0.0));
    let r = refract(u, vec(0.0, 1.0, 0.0), 43690);
    assert!((r.inner(r) - (ONE as i128) * (ONE as i128)).abs() <= 2 * ONE as i128);
}

#[test]
fn reflection_of_rounded_unit_vectors() {
    let n = Vec3::unit_vector(vec(0.3, 0.9, -0.2));
    for d in [vec(1.0, -1.0, 0.0), vec(0.3, -0.9, 0.1), vec(-0.2, -0.5, -0.9)] {
        let u = Vec3::unit_vector(d);
        let r = reflect(u, n);
        assert!((r.inner(n) + u.inner(n)).abs() <= 12 * ONE as i128);
        assert!((r.inner(r) - u.inner(u)).abs() <= 24 * ONE as i128);
    }
}
