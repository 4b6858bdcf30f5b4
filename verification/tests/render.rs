use leonardo_engine::algebra::fixed::ONE;
use leonardo_engine::algebra::vec3::Vec3;
use leonardo_engine::error::ConfigError;
use leonardo_engine::graphics::camera::Camera;
use leonardo_engine::graphics::hit::HittableStore;
use leonardo_engine::graphics::material::{Dielectric, Lambertian, Material, Metal};
use leonardo_engine::graphics::ray::Ray;
use leonardo_engine::graphics::sphere::Sphere;
use leonardo_engine::graphics::ppm::{write_color, write_header, write_image, write_pixels, Pixel};
use leonardo_engine::{
    background_color, coordinate, ray_color, App, MAX_SAMPLES, SHADOW_EPSILON,
};

fn fx(value: f64) -> i64 {
    (value * 65536.0).round() as i64
}

fn vec(x: f64, y: f64, z: f64) -> Vec3 {
    Vec3::new(fx(x), fx(y), fx(z))
}

fn parts(v: Vec3) -> (i64, i64, i64) {
    (v.x(), v.y(), v.z())
}

/// The magic number of a plain PPM image, a line break and `rest`.
fn text(rest: &str) -> Vec<u8> {
    let mut bytes = vec![80u8, 51u8, 10u8];
    bytes.extend_from_slice(rest.as_bytes());
    bytes
}

fn wide_camera() -> Camera {
    Camera::new(
        vec(0.0, 0.0, 0.0),
        vec(0.0, 0.0, -1.0),
        vec(0.0, 1.0, 0.0),
        fx(1.0),
        fx(2.0),
    )
    .unwrap()
}

fn scene_of(material: Material) -> HittableStore {
    let mut world = HittableStore::new();
    world.store(Sphere::new(vec(0.0, 0.0, -2.0), fx(0.5), material).unwrap());
    world
}

#[test]
fn background_is_a_gradient() {
    assert_eq!(parts(background_color(vec(0.0, 1.0, 0.0))), (32768, 45875, 65536));
    assert_eq!(parts(background_color(vec(0.0, -1.0, 0.0))), (65536, 65536, 65536));
    assert_eq!(parts(background_color(vec(0.0, 0.0, -1.0))), (49152, 55705, 65536));
    assert_eq!(parts(background_color(vec(0.0, 0.0, -9.0))), (49152, 55705, 65536));
    assert_eq!(parts(background_color(vec(-2.0, 1.0, -1.0))), (42463, 51692, 65536));
    assert_eq!(parts(background_color(vec(1.0, 1.0, -1.0))), (39693, 50030, 65536));
    assert_eq!(parts(background_color(Vec3::zero())), (49152, 55705, 65536));
}

#[test]
fn empty_scene_shows_the_background() {
    let world = HittableStore::new();
    let origin = vec(1.0, -2.0, 3.0);
    let directions = [
        vec(0.0, 1.0, 0.0),
        vec(0.0, -1.0, 0.0),
        vec(0.3, 0.2, -1.0),
        vec(-5.0, 0.01, 2.0),
        vec(100.0, -300.0, 7.0),
    ];
    for direction in directions {
        for depth in [1, 2, 50, i32::MAX] {
            let color = ray_color(Ray::new(origin, direction), &world, depth);
            assert_eq!(parts(color), parts(background_color(direction)));
        }
    }
}

#[test]
fn no_depth_no_light() {
    let world = scene_of(Material::Lambertian(Lambertian::new(vec(0.5, 0.5, 0.5)).unwrap()));
    let hitting = Ray::new(vec(0.0, 0.0, 0.0), vec(0.0, 0.0, -1.0));
    let missing = Ray::new(vec(0.0, 0.0, 0.0), vec(0.0, 1.0, 0.0));
    for ray in [hitting, missing] {
        assert_eq!(parts(ray_color(ray, &world, 0)), (0, 0, 0));
        assert_eq!(parts(ray_color(ray, &world, -3)), (0, 0, 0));
    }
    assert_eq!(parts(ray_color(missing, &HittableStore::new(), 0)), (0, 0, 0));
}

#[test]
fn last_scattering_ends_in_darkness() {
    let world = scene_of(Material::Lambertian(Lambertian::new(vec(0.5, 0.5, 0.5)).unwrap()));
    let hitting = Ray::new(vec(0.0, 0.0, 0.0), vec(0.0, 0.0, -1.0));
    assert_eq!(parts(ray_color(hitting, &world, 1)), (0, 0, 0));
}

#[test]
fn mirror_shows_the_filtered_background() {
    let albedo = vec(0.5, 0.25, 1.0);
    let world = scene_of(Material::Metal(Metal::new(albedo, 0).unwrap()));
    let ray = Ray::new(vec(0.0, 0.0, 0.0), vec(0.0, 0.0, -1.0));
    let seen = ray_color(ray, &world, 2);
    assert_eq!(parts(seen), (49152 / 2, 55705 / 4, 65536));
    assert_eq!(parts(ray_color(ray, &world, 50)), parts(seen));
    let up = vec(0.0, 1.0, -2.0);
    let glancing = ray_color(Ray::new(vec(0.0, -1.0, 0.0), up), &world, 5);
    assert!(glancing.is_fraction());
}

#[test]
fn air_bubble_is_invisible() {
    let world = scene_of(Material::Dielectric(Dielectric::new(ONE).unwrap()));
    let ray = Ray::new(vec(0.0, 0.0, 0.0), vec(0.0, 0.0, -1.0));
    for _ in 0..20 {
        assert_eq!(parts(ray_color(ray, &world, 5)), (49152, 55705, 65536));
    }
    assert_eq!(parts(ray_color(ray, &world, 2)), (0, 0, 0));
}

#[test]
fn diffuse_sphere_darkens_the_light() {
    let world = scene_of(Material::Lambertian(Lambertian::new(vec(0.5, 0.5, 0.5)).unwrap()));
    let ray = Ray::new(vec(0.0, 0.0, 0.0), vec(0.0, 0.0, -1.0));
    for _ in 0..100 {
        let color = ray_color(ray, &world, 50);
        assert!(color.is_fraction());
        assert!(color.x() <= ONE / 2 && color.y() <= ONE / 2 && color.z() <= ONE / 2);
    }
}

#[test]
fn shadow_epsilon_is_a_thousandth() {
    assert_eq!(SHADOW_EPSILON, (0.001f64 * 65536.0) as i64);
}

#[test]
fn colors_become_bytes() {
    assert_eq!(write_color(vec(0.0, 0.5, 1.0), 1), Pixel { r: 0, g: 128, b: 255 });
    assert_eq!(write_color(vec(0.25, 0.999, 0.998), 1), Pixel { r: 64, g: 255, b: 255 });
    assert_eq!(write_color(vec(-1.0, 2.0, 0.75), 1), Pixel { r: 0, g: 255, b: 192 });
    assert_eq!(write_color(vec(100.0, 50.0, 0.0), 100), Pixel { r: 255, g: 128, b: 0 });
    assert_eq!(write_color(vec(1.0, 2.0, 3.0), 4), Pixel { r: 64, g: 128, b: 192 });
    assert_eq!(write_color(Vec3::new(255, 256, 257), 1), Pixel { r: 0, g: 1, b: 1 });
}

#[test]
fn pixel_indices_become_coordinates() {
    assert_eq!(coordinate(0, 0, 2), 0);
    assert_eq!(coordinate(1, 0, 2), ONE);
    assert_eq!(coordinate(1, ONE - 1, 2), 2 * ONE - 1);
    assert_eq!(coordinate(0, ONE / 2, 2), ONE / 2);
    assert_eq!(coordinate(2, 0, 3), ONE);
    assert_eq!(coordinate(1, 0, 3), ONE / 2);
    assert_eq!(coordinate(383, 0, 384), ONE);
    assert_eq!(coordinate(100, ONE / 2, 384), (100 * ONE + ONE / 2) / 383);
    assert_eq!(coordinate(0, ONE / 2, 1), ONE / 2);
    assert_eq!(coordinate(0, 0, 1), 0);
}

#[test]
fn image_height_follows_the_aspect_ratio() {
    let app = App::new(fx(16.0 / 9.0), 384, 100, 50).unwrap();
    assert_eq!((app.width, app.height), (384, 216));
    assert_eq!((app.samples_per_pixel, app.max_depth), (100, 50));
    assert_eq!(App::new(fx(2.0), 2, 1, 1).unwrap().height, 1);
    assert_eq!(App::new(fx(1.0), 7, 1, 0).unwrap().height, 7);
    assert_eq!(App::new(fx(0.5), 7, 1, -1).unwrap().height, 14);
}

#[test]
fn image_parameters_are_checked() {
    assert_eq!(App::new(0, 384, 100, 50).unwrap_err(), ConfigError::NonPositiveAspectRatio);
    assert_eq!(App::new(-ONE, 0, 0, 0).unwrap_err(), ConfigError::NonPositiveAspectRatio);
    assert_eq!(App::new(fx(2.0), 1, 100, 50).unwrap_err(), ConfigError::WidthTooSmall);
    assert_eq!(App::new(fx(2.0), 0, 100, 50).unwrap_err(), ConfigError::WidthTooSmall);
    assert_eq!(App::new(fx(2.0), -5, 100, 50).unwrap_err(), ConfigError::WidthTooSmall);
    assert_eq!(App::new(fx(3.0), 2, 100, 50).unwrap_err(), ConfigError::HeightTooSmall);
    assert_eq!(App::new(1, i32::MAX, 100, 50).unwrap_err(), ConfigError::ImageTooLarge);
    assert_eq!(App::new(fx(2.0), 2, 0, 50).unwrap_err(), ConfigError::NoSamples);
    assert_eq!(
        App::new(fx(2.0), 2, MAX_SAMPLES + 1, 50).unwrap_err(),
        ConfigError::TooManySamples
    );
    assert!(App::new(fx(2.0), 2, MAX_SAMPLES, 50).is_ok());
}

#[test]
fn every_error_says_what_was_wrong() {
    let errors = [
        ConfigError::NonPositiveRadius,
        ConfigError::RadiusOutOfRange,
        ConfigError::NonPositiveRefractiveIndex,
        ConfigError::RefractiveIndexOutOfRange,
        ConfigError::AlbedoOutOfRange,
        ConfigError::WidthTooSmall,
        ConfigError::HeightTooSmall,
        ConfigError::ImageTooLarge,
        ConfigError::NoSamples,
        ConfigError::TooManySamples,
        ConfigError::NonPositiveAspectRatio,
        ConfigError::NonPositiveFieldOfView,
        ConfigError::DegenerateCamera,
        ConfigError::CameraOutOfRange,
    ];
    for (i, a) in errors.iter().enumerate() {
        assert!(a.message().len() > 10);
        for b in errors.iter().skip(i + 1) {
            assert_ne!(a.message(), b.message());
        }
    }
}

#[test]
fn samples_of_an_empty_scene_are_the_background_of_their_rays() {
    let app = App::new(fx(2.0), 2, 1, 1).unwrap();
    let camera = wide_camera();
    let world = HittableStore::new();
    let cases = [
        (0, 0, 0, (-2.0, -1.0), (55840, 59718, 65536)),
        (1, 0, 0, (2.0, -1.0), (55840, 59718, 65536)),
        (0, ONE / 2, ONE / 2, (0.0, 0.0), (49152, 55705, 65536)),
        (1, ONE / 2, ONE / 4, (4.0, -0.5), (51124, 56889, 65536)),
    ];
    for (i, du, dv, (x, y), expected) in cases {
        let color = app.sample(&camera, &world, i, 0, du, dv);
        let direction = vec(x, y, -1.0);
        let u = coordinate(i, du, 2);
        let v = coordinate(0, dv, 1);
        assert_eq!(parts(camera.get_ray(u, v).direction()), parts(direction));
        assert_eq!(parts(color), parts(background_color(direction)));
        assert_eq!(parts(color), expected);
    }
    let left = app.sample(&camera, &world, 0, 0, 0, 0);
    assert_eq!(write_color(left, 1), Pixel { r: 218, g: 233, b: 255 });
    let right = app.sample(&camera, &world, 1, 0, 0, 0);
    assert_eq!(write_color(right, 1), Pixel { r: 218, g: 233, b: 255 });
}

#[test]
fn two_pixel_image_of_an_empty_scene() {
    let app = App::new(fx(2.0), 2, 1, 1).unwrap();
    let camera = wide_camera();
    let world = HittableStore::new();
    for _ in 0..50 {
        let image = app.render(&camera, &world);
        assert_eq!(image.len(), 2);
        for pixel in image {
            assert_eq!(pixel.b, 255);
            assert!(128 <= pixel.r && pixel.r <= pixel.g);
        }
    }
}

#[test]
fn image_without_depth_is_black() {
    let app = App::new(fx(1.0), 3, 4, 0).unwrap();
    let camera = wide_camera();
    let world = scene_of(Material::Lambertian(Lambertian::new(vec(0.5, 0.5, 0.5)).unwrap()));
    let image = app.render(&camera, &world);
    assert_eq!(image.len(), 9);
    for pixel in image {
        assert_eq!(pixel, Pixel { r: 0, g: 0, b: 0 });
    }
    assert_eq!(app.render_row(&camera, &world, 2).len(), 3);
    assert_eq!(app.pixel(&camera, &world, 1, 1), Pixel { r: 0, g: 0, b: 0 });
}

#[test]
fn rows_run_from_the_top() {
    let app = App::new(fx(0.5), 2, 8, 3).unwrap();
    assert_eq!(app.height, 4);
    let camera = Camera::new(
        vec(0.0, 0.0, 0.0),
        vec(0.0, 0.0, -1.0),
        vec(0.0, 1.0, 0.0),
        fx(1.0),
        fx(0.5),
    )
    .unwrap();
    let world = HittableStore::new();
    let image = app.render(&camera, &world);
    assert_eq!(image.len(), 8);
    for row in 0..3 {
        assert!(image[2 * row].r < image[2 * (row + 1)].r);
        assert!(image[2 * row + 1].g < image[2 * (row + 1) + 1].g);
    }
    let bottom = app.render_row(&camera, &world, 0);
    let top = app.render_row(&camera, &world, 3);
    assert!(top[0].r < bottom[0].r);
}

#[test]
fn long_paths_end_in_darkness() {
    let mirror = Material::Metal(Metal::new(vec(1.0, 1.0, 1.0), 0).unwrap());
    let mut world = HittableStore::new();
    world.store(Sphere::new(vec(0.0, 0.0, 0.0), fx(5.0), mirror).unwrap());
    let ray = Ray::new(vec(0.0, 0.0, 0.0), vec(0.0, 0.0, -1.0));
    assert_eq!(parts(ray_color(ray, &world, 200_000)), (0, 0, 0));
    assert_eq!(parts(ray_color(ray, &world, 3)), (0, 0, 0));
}

#[test]
fn pixels_become_plain_text() {
    assert_eq!(write_header(384, 216), text("384 216\n255\n"));
    assert_eq!(write_header(2, 1), text("2 1\n255\n"));
    assert_eq!(write_header(0, i32::MAX), text("0 2147483647\n255\n"));
    let pixels = vec![
        Pixel { r: 0, g: 9, b: 10 },
        Pixel { r: 99, g: 100, b: 255 },
        Pixel { r: 218, g: 233, b: 255 },
    ];
    assert_eq!(write_pixels(&pixels), b"0 9 10\n99 100 255\n218 233 255\n".to_vec());
    assert_eq!(write_pixels(&Vec::new()), Vec::<u8>::new());
    assert_eq!(
        write_image(3, 1, &pixels),
        text("3 1\n255\n0 9 10\n99 100 255\n218 233 255\n")
    );
}

#[test]
fn image_of_a_dark_scene_as_text() {
    let app = App::new(fx(1.0), 2, 3, 0).unwrap();
    let camera = wide_camera();
    let world = HittableStore::new();
    assert_eq!(
        app.image(&camera, &world),
        text("2 2\n255\n0 0 0\n0 0 0\n0 0 0\n0 0 0\n")
    );
    let lit = App::new(fx(2.0), 2, 1, 1).unwrap();
    let text = String::from_utf8(lit.image(&camera, &world)).unwrap();
    let lines: Vec<&str> = text.lines().collect();
    assert_eq!(lines.len(), 5);
    assert_eq!(lines[0].as_bytes(), &[80u8, 51u8]);
    assert_eq!(&lines[1..3], &["2 1", "255"]);
    for line in &lines[3..] {
        let channels: Vec<u32> = line.split(' ').map(|c| c.parse().unwrap()).collect();
        assert_eq!(channels.len(), 3);
        assert_eq!(channels[2], 255);
    }
}

#[test]
fn pixels_are_counted_from_the_top_left() {
    let app = App::new(fx(0.5), 2, 4, 3).unwrap();
    assert_eq!(app.pixel_count(), 8);
    let camera = Camera::new(
        vec(0.0, 0.0, 0.0),
        vec(0.0, 0.0, -1.0),
        vec(0.0, 1.0, 0.0),
        fx(1.0),
        fx(0.5),
    )
    .unwrap();
    let world = HittableStore::new();
    let column: Vec<Pixel> = (0..4).map(|row| app.pixel_at(&camera, &world, 2 * row)).collect();
    for row in 0..3 {
        assert!(column[row].r < column[row + 1].r);
    }
    let dark = App::new(fx(1.0), 3, 2, 0).unwrap();
    assert_eq!(dark.pixel_count(), 9);
    assert_eq!(dark.pixel_at(&camera, &world, 8), Pixel { r: 0, g: 0, b: 0 });
}
