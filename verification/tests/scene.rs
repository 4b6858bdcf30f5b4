use leonardo_engine::algebra::fixed::ONE;
use leonardo_engine::graphics::material::Material;
use leonardo_engine::algebra::vec3::Vec3;
use leonardo_engine::scene::{
    material_for, random_material, small_sphere, FIELD, GLASS, SMALL, SPREAD,
};
use leonardo_engine::App;

fn fx(value: f64) -> i64 {
    (value * 65536.0).round() as i64
}

#[test]
fn scene_constants() {
    assert_eq!(SMALL, fx(0.2));
    assert_eq!(SPREAD, fx(0.9));
    assert_eq!(GLASS, fx(1.5));
    assert_eq!(FIELD, 22);
}

#[test]
fn random_scene_has_its_fixed_spheres() {
    let app = App::new(fx(16.0 / 9.0), 384, 100, 50).unwrap();
    for _ in 0..5 {
        let world = app.random_scene();
        let n = world.len();
        assert!(n >= 4 && n <= 4 + 22 * 22);
        assert!(n > 400);
        let ground = world.store[0];
        assert_eq!((ground.center.x(), ground.center.y(), ground.center.z()), (0, fx(-1000.0), 0));
        assert_eq!(ground.radius, fx(1000.0));
        match ground.material {
            Material::Lambertian(m) => {
                assert_eq!((m.albedo.x(), m.albedo.y(), m.albedo.z()), (fx(0.8), fx(0.8), 0))
            }
            _ => panic!("the ground is diffuse"),
        }
        let glass = world.store[n - 3];
        assert_eq!((glass.center.x(), glass.center.y(), glass.center.z()), (0, ONE, 0));
        assert_eq!(glass.radius, ONE);
        assert!(matches!(glass.material, Material::Dielectric(d) if d.ref_idx == fx(1.5)));
        let diffuse = world.store[n - 2];
        assert_eq!(diffuse.center.x(), fx(-4.0));
        match diffuse.material {
            Material::Lambertian(m) => assert_eq!(
                (m.albedo.x(), m.albedo.y(), m.albedo.z()),
                (fx(0.4), fx(0.2), fx(0.1))
            ),
            _ => panic!("the second large sphere is diffuse"),
        }
        let metal = world.store[n - 1];
        assert_eq!(metal.center.x(), fx(4.0));
        match metal.material {
            Material::Metal(m) => {
                assert_eq!((m.albedo.x(), m.albedo.y(), m.albedo.z()), (fx(0.7), fx(0.6), fx(0.5)));
                assert_eq!(m.fuzz, 0);
            }
            _ => panic!("the third large sphere is metal"),
        }
        for sphere in &world.store[1..n - 3] {
            assert_eq!(sphere.radius, SMALL);
            assert_eq!(sphere.center.y(), SMALL);
            assert!(sphere.center.x() >= -11 * ONE && sphere.center.x() < 11 * ONE);
            assert!(sphere.center.z() >= -11 * ONE && sphere.center.z() < 11 * ONE);
        }
    }
}

#[test]
fn small_spheres_keep_clear_of_the_large_one() {
    assert!(small_sphere(4, 0, 0, 0, 0).is_none());
    assert!(small_sphere(3, 0, ONE - 1, 0, 0).is_none());
    assert!(small_sphere(4, 0, ONE - 1, ONE - 1, 0).is_some());
    assert!(small_sphere(4, -1, 0, 0, 0).is_some());
    let sphere = small_sphere(-3, 5, ONE / 2, ONE / 4, 0).unwrap();
    assert_eq!(sphere.center.x(), -3 * ONE + SPREAD / 2);
    assert_eq!(sphere.center.y(), SMALL);
    assert_eq!(sphere.center.z(), 5 * ONE + 14745);
    assert_eq!(sphere.radius, SMALL);
    let far = small_sphere(4, 0, 0, SPREAD + 7000, 0);
    assert!(far.is_some());
}

#[test]
fn materials_follow_the_choice() {
    for _ in 0..100 {
        assert!(matches!(random_material(0), Material::Lambertian(_)));
        assert!(matches!(random_material(fx(0.8) - 1), Material::Lambertian(_)));
        match random_material(fx(0.8)) {
            Material::Metal(m) => {
                assert!(0 <= m.fuzz && m.fuzz < ONE / 2);
                assert!(m.albedo.x() >= ONE / 2 && m.albedo.x() < ONE);
                assert!(m.albedo.y() >= ONE / 2 && m.albedo.z() >= ONE / 2);
            }
            _ => panic!("a choice of 0.8 selects metal"),
        }
        assert!(matches!(random_material(62258), Material::Metal(_)));
        assert!(matches!(random_material(62259), Material::Dielectric(d) if d.ref_idx == GLASS));
        assert!(matches!(random_material(ONE - 1), Material::Dielectric(_)));
        match random_material(100) {
            Material::Lambertian(m) => assert!(m.albedo.is_fraction()),
            _ => panic!("a small choice selects a diffuse material"),
        }
    }
}

#[test]
fn the_camera_of_the_program() {
    let app = App::new(fx(16.0 / 9.0), 384, 100, 50).unwrap();
    let camera = app.camera().unwrap();
    assert_eq!((camera.origin.x(), camera.origin.y(), camera.origin.z()), (fx(13.0), fx(2.0), fx(3.0)));
    let ahead = camera.get_ray(ONE / 2, ONE / 2).direction();
    assert!(ahead.x() < 0 && ahead.y() < 0 && ahead.z() < 0);
    let length2 = ahead.inner(ahead);
    assert!((length2 - (ONE as i128) * (ONE as i128)).abs() < 64 * ONE as i128);
    let height2 = camera.vertical.inner(camera.vertical);
    let expected = 2 * leonardo_engine::scene::HALF_HEIGHT as i128;
    assert!((height2 - expected * expected).abs() < 64 * ONE as i128);
    assert_eq!(leonardo_engine::scene::HALF_HEIGHT, fx((10.0f64).to_radians().tan()));
}

#[test]
fn the_program_renders_plain_text() {
    let app = App::new(fx(2.0), 4, 1, 3).unwrap();
    let text = String::from_utf8(app.run().unwrap()).unwrap();
    let lines: Vec<&str> = text.lines().collect();
    assert_eq!(lines.len(), 3 + 4 * 2);
    assert_eq!(lines[0].as_bytes(), &[80u8, 51u8]);
    assert_eq!(&lines[1..3], &["4 2", "255"]);
    for line in &lines[3..] {
        let channels: Vec<u32> = line.split(' ').map(|c| c.parse().unwrap()).collect();
        assert_eq!(channels.len(), 3);
        assert!(channels.iter().all(|c| *c <= 255));
    }
}

#[test]
fn materials_are_made_of_the_given_colors() {
    let first = Vec3::new(fx(0.5), fx(1.0), 0);
    let second = Vec3::new(fx(0.5), fx(0.25), fx(1.0));
    match material_for(0, first, second, fx(0.3)) {
        Material::Lambertian(m) => {
            assert_eq!((m.albedo.x(), m.albedo.y(), m.albedo.z()), (fx(0.25), fx(0.25), 0))
        }
        _ => panic!("a small choice selects a diffuse material"),
    }
    match material_for(fx(0.9), first, second, fx(0.3)) {
        Material::Metal(m) => {
            assert_eq!((m.albedo.x(), m.albedo.y(), m.albedo.z()), (fx(0.5), fx(1.0), 0));
            assert_eq!(m.fuzz, fx(0.3));
        }
        _ => panic!("a choice of 0.9 selects metal"),
    }
    assert!(matches!(
        material_for(fx(0.95), first, second, 0),
        Material::Dielectric(d) if d.ref_idx == GLASS
    ));
}
