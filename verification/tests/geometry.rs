use leonardo_engine::algebra::fixed::{LIMIT, ONE};
use leonardo_engine::algebra::vec3::Vec3;
use leonardo_engine::error::ConfigError;
use leonardo_engine::graphics::camera::{Camera, MAX_COORDINATE};
use leonardo_engine::graphics::hit::{HitRecord, Hittable, HittableStore};
use leonardo_engine::graphics::material::{Lambertian, Material, Metal};
use leonardo_engine::graphics::ray::Ray;
use leonardo_engine::graphics::sphere::Sphere;

fn fx(value: f64) -> i64 {
    (value * 65536.0).round() as i64
}

fn vec(x: f64, y: f64, z: f64) -> Vec3 {
    Vec3::new(fx(x), fx(y), fx(z))
}

fn parts(v: Vec3) -> (i64, i64, i64) {
    (v.x(), v.y(), v.z())
}

fn grey() -> Material {
    Material::Lambertian(Lambertian::new(vec(0.5, 0.5, 0.5)).unwrap())
}

fn ball(x: f64, y: f64, z: f64, radius: f64) -> Sphere {
    Sphere::new(vec(x, y, z), fx(radius), grey()).unwrap()
}

#[test]
fn ray_points() {
    let ray = Ray::new(vec(1.0, 2.0, 3.0), vec(0.5, -1.0, 0.0));
    assert_eq!(parts(ray.origin()), parts(vec(1.0, 2.0, 3.0)));
    assert_eq!(parts(ray.direction()), parts(vec(0.5, -1.0, 0.0)));
    assert_eq!(parts(ray.at(fx(2.0))), parts(vec(2.0, 0.0, 3.0)));
    assert_eq!(parts(ray.at(fx(-1.0))), parts(vec(0.5, 3.0, 3.0)));
    assert_eq!(parts(ray.at(0)), parts(vec(1.0, 2.0, 3.0)));
    assert!(ray.try_at(fx(1.0e6)).is_none());
    let still = Ray::new_zeroes();
    assert!(still.origin().is_zero() && still.direction().is_zero());
    assert!(still.at(fx(5.0)).is_zero());
    assert_eq!(parts(ray.try_at(fx(2.0)).unwrap()), parts(vec(2.0, 0.0, 3.0)));
}

#[test]
fn ray_hits_sphere_ahead() {
    let ray = Ray::new(vec(0.0, 0.0, 0.0), vec(0.0, 0.0, -1.0));
    let sphere = ball(0.0, 0.0, -1.0, 0.5);
    let rec = sphere.hit(ray, 0, i64::MAX).unwrap();
    assert_eq!(rec.t, fx(0.5));
    assert_eq!(parts(rec.point), parts(vec(0.0, 0.0, -0.5)));
    assert_eq!(parts(rec.normal), parts(vec(0.0, 0.0, 1.0)));
    assert!(rec.front_face);
}

#[test]
fn ray_misses_sphere_aside() {
    let ray = Ray::new(vec(0.0, 0.0, 0.0), vec(0.0, 0.0, -1.0));
    let sphere = ball(2.0, 0.0, -1.0, 0.5);
    assert!(sphere.hit(ray, 0, i64::MAX).is_none());
}

#[test]
fn hit_lies_strictly_between_the_bounds() {
    let ray = Ray::new(vec(0.0, 0.0, 0.0), vec(0.0, 0.0, -1.0));
    let sphere = ball(0.0, 0.0, -1.0, 0.5);
    assert!(sphere.hit(ray, fx(0.5), fx(1.5)).is_none());
    assert_eq!(sphere.hit(ray, fx(0.5), fx(1.5) + 1).unwrap().t, fx(1.5));
    assert_eq!(sphere.hit(ray, fx(0.5) - 1, fx(1.5)).unwrap().t, fx(0.5));
    assert!(sphere.hit(ray, fx(1.5), i64::MAX).is_none());
    assert!(sphere.hit(ray, 0, fx(0.5)).is_none());
}

#[test]
fn ray_from_inside_hits_the_far_side() {
    let ray = Ray::new(vec(0.0, 0.0, -1.0), vec(0.0, 0.0, -1.0));
    let sphere = ball(0.0, 0.0, -1.0, 0.5);
    let rec = sphere.hit(ray, 65, i64::MAX).unwrap();
    assert_eq!(rec.t, fx(0.5));
    assert_eq!(parts(rec.point), parts(vec(0.0, 0.0, -1.5)));
    assert_eq!(parts(rec.normal), parts(vec(0.0, 0.0, 1.0)));
    assert!(!rec.front_face);
}

#[test]
fn tangent_ray_hits() {
    let ray = Ray::new(vec(0.0, 0.5, 0.0), vec(0.0, 0.0, -1.0));
    let sphere = ball(0.0, 0.0, -1.0, 0.5);
    let rec = sphere.hit(ray, 0, i64::MAX).unwrap();
    assert_eq!(rec.t, fx(1.0));
    assert_eq!(parts(rec.point), parts(vec(0.0, 0.5, -1.0)));
    assert_eq!(parts(rec.normal), parts(vec(0.0, -1.0, 0.0)));
    assert!(!rec.front_face);
}

#[test]
fn ray_without_direction_hits_nothing() {
    let ray = Ray::new(vec(0.0, 0.0, -1.0), Vec3::zero());
    let sphere = ball(0.0, 0.0, -1.0, 0.5);
    assert!(sphere.hit(ray, i64::MIN, i64::MAX).is_none());
    let mut world = HittableStore::new();
    world.store(sphere);
    assert!(world.hit(ray, i64::MIN, i64::MAX).is_none());
}

#[test]
fn sphere_behind_the_ray_is_not_hit() {
    let ray = Ray::new(vec(0.0, 0.0, 0.0), vec(0.0, 0.0, 1.0));
    let sphere = ball(0.0, 0.0, -1.0, 0.5);
    assert!(sphere.hit(ray, 0, i64::MAX).is_none());
    assert_eq!(sphere.hit(ray, i64::MIN, i64::MAX).unwrap().t, fx(-1.5));
}

#[test]
fn direction_need_not_have_unit_length() {
    let ray = Ray::new(vec(0.0, 0.0, 0.0), vec(0.0, 0.0, -4.0));
    let sphere = ball(0.0, 0.0, -3.0, 1.0);
    let rec = sphere.hit(ray, 0, i64::MAX).unwrap();
    assert_eq!(rec.t, fx(0.5));
    assert_eq!(parts(rec.point), parts(vec(0.0, 0.0, -2.0)));
    assert_eq!(parts(rec.normal), parts(vec(0.0, 0.0, 1.0)));
}

#[test]
fn normal_is_turned_against_the_ray() {
    let origin = vec(0.3, 0.2, 0.0);
    let sphere = ball(0.0, 0.0, -2.0, 1.0);
    for direction in [vec(0.0, 0.1, -1.0), vec(-0.2, -0.1, -1.0), vec(0.1, 0.3, -2.0)] {
        let ray = Ray::new(origin, direction);
        let rec = sphere.hit(ray, 65, i64::MAX).unwrap();
        assert!(rec.front_face);
        assert!(rec.normal.inner(direction) < 0);
        let norm2 = rec.normal.inner(rec.normal);
        assert!(norm2 < (ONE as i128 + 1) * (ONE as i128 + 1));
        assert!(norm2 >= (ONE as i128 - 2) * (ONE as i128 - 2));
    }
}

#[test]
fn with_normal_orients_the_record() {
    let material = grey();
    let record = HitRecord::new(vec(1.0, 2.0, 3.0), Vec3::zero(), fx(4.0), false, material);
    let outward = vec(0.0, 1.0, 0.0);
    let down = Ray::new(vec(0.0, 5.0, 0.0), vec(0.0, -1.0, 0.0));
    let front = HitRecord::with_normal(record, down, outward);
    assert!(front.front_face);
    assert_eq!(parts(front.normal), parts(outward));
    assert_eq!(parts(front.point), parts(vec(1.0, 2.0, 3.0)));
    assert_eq!(front.t, fx(4.0));
    let up = Ray::new(vec(0.0, 0.0, 0.0), vec(0.0, 1.0, 0.0));
    let back = HitRecord::with_normal(record, up, outward);
    assert!(!back.front_face);
    assert_eq!(parts(back.normal), parts(vec(0.0, -1.0, 0.0)));
    let along = Ray::new(vec(0.0, 0.0, 0.0), vec(1.0, 0.0, 0.0));
    let grazing = HitRecord::with_normal(record, along, outward);
    assert!(!grazing.front_face);
    assert_eq!(parts(grazing.normal), parts(vec(0.0, -1.0, 0.0)));
}

#[test]
fn sphere_radius_must_be_positive() {
    assert_eq!(
        Sphere::new(vec(0.0, 0.0, 0.0), 0, grey()).unwrap_err(),
        ConfigError::NonPositiveRadius
    );
    assert_eq!(
        Sphere::new(vec(0.0, 0.0, 0.0), -ONE, grey()).unwrap_err(),
        ConfigError::NonPositiveRadius
    );
    assert_eq!(
        Sphere::new(vec(0.0, 0.0, 0.0), LIMIT + 1, grey()).unwrap_err(),
        ConfigError::RadiusOutOfRange
    );
    let sphere = Sphere::new(vec(1.0, 2.0, 3.0), 1, grey()).unwrap();
    assert_eq!(sphere.radius, 1);
    assert_eq!(parts(sphere.center), parts(vec(1.0, 2.0, 3.0)));
    assert!(Sphere::new(vec(0.0, 0.0, 0.0), LIMIT, grey()).is_ok());
}

#[test]
fn empty_scene_is_never_hit() {
    let world = HittableStore::new();
    assert_eq!(world.len(), 0);
    let ray = Ray::new(vec(0.0, 0.0, 0.0), vec(0.0, 0.0, -1.0));
    assert!(world.hit(ray, 0, i64::MAX).is_none());
}

#[test]
fn nearest_sphere_wins_in_either_order() {
    let ray = Ray::new(vec(0.0, 0.0, 0.0), vec(0.0, 0.0, -1.0));
    let near = ball(0.0, 0.0, -2.0, 0.5);
    let far = ball(0.0, 0.0, -5.0, 1.0);
    let mut first = HittableStore::new();
    first.store(near);
    first.store(far);
    let mut second = HittableStore::new();
    second.store(far);
    second.store(near);
    for world in [&first, &second] {
        let rec = world.hit(ray, 65, i64::MAX).unwrap();
        assert_eq!(rec.t, fx(1.5));
        assert_eq!(parts(rec.point), parts(vec(0.0, 0.0, -1.5)));
    }
    assert_eq!(first.hit(ray, fx(2.6), i64::MAX).unwrap().t, fx(4.0));
    assert!(second.hit(ray, 65, fx(1.5)).is_none());
}

#[test]
fn nested_spheres_resolve_to_the_nearer_surface() {
    let ray = Ray::new(vec(0.0, 0.0, 0.0), vec(0.0, 0.0, -1.0));
    let mirror = Material::Metal(Metal::new(vec(0.8, 0.8, 0.8), 0).unwrap());
    let shell = Sphere::new(vec(0.0, 0.0, -5.0), fx(2.0), mirror).unwrap();
    let core = ball(0.0, 0.0, -5.0, 1.0);
    let mut world = HittableStore::new();
    world.store(core);
    world.store(shell);
    let rec = world.hit(ray, 65, i64::MAX).unwrap();
    assert_eq!(rec.t, fx(3.0));
    assert!(matches!(rec.material, Material::Metal(_)));
    let inside = Ray::new(vec(0.0, 0.0, -3.5), vec(0.0, 0.0, -1.0));
    let rec = world.hit(inside, 65, i64::MAX).unwrap();
    assert_eq!(rec.t, fx(0.5));
    assert!(matches!(rec.material, Material::Lambertian(_)));
}

#[test]
fn of_equal_hits_the_earlier_sphere_stands() {
    let ray = Ray::new(vec(0.0, 0.0, 0.0), vec(0.0, 0.0, -1.0));
    let mirror = Material::Metal(Metal::new(vec(0.8, 0.8, 0.8), 0).unwrap());
    let twin = Sphere::new(vec(0.0, 0.0, -2.0), fx(0.5), mirror).unwrap();
    let mut world = HittableStore::new();
    world.store(ball(0.0, 0.0, -2.0, 0.5));
    world.store(twin);
    let rec = world.hit(ray, 65, i64::MAX).unwrap();
    assert!(matches!(rec.material, Material::Lambertian(_)));
}

#[test]
fn cleared_scene_is_empty() {
    let mut world = HittableStore::new();
    world.store(ball(0.0, 0.0, -2.0, 0.5));
    world.store(ball(0.0, 0.0, -4.0, 0.5));
    assert_eq!(world.len(), 2);
    world.clear();
    assert_eq!(world.len(), 0);
    let ray = Ray::new(vec(0.0, 0.0, 0.0), vec(0.0, 0.0, -1.0));
    assert!(world.hit(ray, 65, i64::MAX).is_none());
}

#[test]
fn camera_spans_the_viewport() {
    let camera = Camera::new(
        vec(0.0, 0.0, 0.0),
        vec(0.0, 0.0, -1.0),
        vec(0.0, 1.0, 0.0),
        fx(1.0),
        fx(2.0),
    )
    .unwrap();
    assert_eq!(parts(camera.origin), (0, 0, 0));
    assert_eq!(parts(camera.horizontal), parts(vec(4.0, 0.0, 0.0)));
    assert_eq!(parts(camera.vertical), parts(vec(0.0, 2.0, 0.0)));
    assert_eq!(parts(camera.lower_left_corner), parts(vec(-2.0, -1.0, -1.0)));
    assert_eq!(parts(camera.get_ray(0, 0).direction()), parts(vec(-2.0, -1.0, -1.0)));
    assert_eq!(parts(camera.get_ray(ONE, ONE).direction()), parts(vec(2.0, 1.0, -1.0)));
    assert_eq!(parts(camera.get_ray(ONE / 2, ONE / 2).direction()), parts(vec(0.0, 0.0, -1.0)));
    assert_eq!(
        parts(camera.get_ray(MAX_COORDINATE, 0).direction()),
        parts(vec(6.0, -1.0, -1.0))
    );
    assert_eq!(parts(camera.get_ray(ONE / 4, ONE).origin()), (0, 0, 0));
}

#[test]
fn camera_away_from_the_origin() {
    let camera = Camera::new(
        vec(13.0, 2.0, 3.0),
        vec(0.0, 0.0, 0.0),
        vec(0.0, 1.0, 0.0),
        fx(0.17632698),
        fx(16.0 / 9.0),
    )
    .unwrap();
    assert_eq!(parts(camera.origin), parts(vec(13.0, 2.0, 3.0)));
    let center = camera.get_ray(ONE / 2, ONE / 2).direction();
    let toward = Vec3::unit_vector(vec(-13.0, -2.0, -3.0));
    assert!((center.x() - toward.x()).abs() <= 4);
    assert!((center.y() - toward.y()).abs() <= 4);
    assert!((center.z() - toward.z()).abs() <= 4);
    assert!(camera.horizontal.inner(camera.vertical).abs() < 4 * ONE as i128);
    assert_eq!(camera.horizontal.y(), 0);
}

#[test]
fn camera_parameters_are_checked() {
    let from = vec(0.0, 0.0, 0.0);
    let at = vec(0.0, 0.0, -1.0);
    let up = vec(0.0, 1.0, 0.0);
    assert_eq!(
        Camera::new(from, at, up, fx(1.0), 0).unwrap_err(),
        ConfigError::NonPositiveAspectRatio
    );
    assert_eq!(
        Camera::new(from, at, up, 0, fx(2.0)).unwrap_err(),
        ConfigError::NonPositiveFieldOfView
    );
    assert_eq!(
        Camera::new(from, at, up, -1, -1).unwrap_err(),
        ConfigError::NonPositiveAspectRatio
    );
    assert_eq!(
        Camera::new(from, from, up, fx(1.0), fx(2.0)).unwrap_err(),
        ConfigError::DegenerateCamera
    );
    assert_eq!(
        Camera::new(from, at, vec(0.0, 0.0, 3.0), fx(1.0), fx(2.0)).unwrap_err(),
        ConfigError::DegenerateCamera
    );
    assert_eq!(
        Camera::new(from, at, Vec3::zero(), fx(1.0), fx(2.0)).unwrap_err(),
        ConfigError::DegenerateCamera
    );
    assert_eq!(
        Camera::new(from, at, up, fx(5000.0), fx(2.0)).unwrap_err(),
        ConfigError::CameraOutOfRange
    );
    assert_eq!(
        Camera::new(from, at, up, LIMIT + 1, fx(2.0)).unwrap_err(),
        ConfigError::CameraOutOfRange
    );
    assert_eq!(
        Camera::new(vec(-16300.0, 0.0, 0.0), vec(-16300.0, 0.0, -1.0), up, fx(100.0), fx(2.0))
            .unwrap_err(),
        ConfigError::CameraOutOfRange
    );
}

fn nearest<T: Hittable>(object: &T, ray: Ray) -> Option<i64> {
    Hittable::hit(object, ray, 65, i64::MAX).map(|rec| rec.t)
}

#[test]
fn spheres_and_scenes_are_hittable() {
    let ray = Ray::new(vec(0.0, 0.0, 0.0), vec(0.0, 0.0, -1.0));
    let sphere = ball(0.0, 0.0, -3.0, 1.0);
    assert_eq!(nearest(&sphere, ray), Some(fx(2.0)));
    let mut world = HittableStore::new();
    assert_eq!(nearest(&world, ray), None);
    world.store(sphere);
    world.store(ball(0.0, 0.0, -1.5, 0.25));
    assert_eq!(nearest(&world, ray), Some(fx(1.25)));
}

fn distance_from(center: Vec3, point: Vec3) -> f64 {
    let dx = (point.x() - center.x()) as f64;
    let dy = (point.y() - center.y()) as f64;
    let dz = (point.z() - center.z()) as f64;
    (dx * dx + dy * dy + dz * dz).sqrt()
}

#[test]
fn long_direction_still_hits_the_surface() {
    let ray = Ray::new(vec(0.0, 0.0, 0.0), vec(0.0, 0.0, -1000.0));
    let sphere = ball(0.0, 0.0, -1.0, 0.5);
    let rec = sphere.hit(ray, 0, i64::MAX).unwrap();
    assert_eq!(rec.t, 32);
    assert_eq!(parts(rec.point), parts(vec(0.0, 0.0, -0.5)));
    assert_eq!(parts(rec.normal), parts(vec(0.0, 0.0, 1.0)));
}

#[test]
fn hit_points_lie_on_the_sphere() {
    let spheres = [
        ball(0.0, 0.0, -3.0, 1.0),
        ball(0.3, -0.2, -2.0, 0.7),
        ball(0.0, -1000.0, 0.0, 1000.0),
        Sphere::new(vec(0.0, 0.0, -1.0), 3, grey()).unwrap(),
    ];
    let directions = [
        vec(0.0, 0.0, -1.0),
        vec(0.1, -0.05, -1.0),
        vec(30.0, -40.0, -900.0),
        vec(0.0, -3000.0, -1.0),
        Vec3::new(1, -2, -9),
        Vec3::new(0, 0, -1),
        vec(0.2, -7.0, -5.0),
    ];
    let origins = [vec(0.0, 0.0, 0.0), vec(0.1, 0.3, 0.5), vec(0.0, 0.0, -3.0)];
    let mut hits = 0;
    for sphere in spheres {
        for direction in directions {
            for origin in origins {
                let ray = Ray::new(origin, direction);
                if let Some(rec) = sphere.hit(ray, 0, i64::MAX) {
                    hits += 1;
                    let apart = distance_from(sphere.center, rec.point);
                    assert!((apart - sphere.radius as f64).abs() <= 4.0);
                }
            }
        }
    }
    assert!(hits >= 20);
}
