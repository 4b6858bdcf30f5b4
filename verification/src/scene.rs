//! The scene that the program renders: a ground, three large spheres and
//! a field of small ones with random places and materials.

use vstd::prelude::*;
use crate::algebra::fixed::{
    lemma_limit_squared, lemma_product_bound, lemma_times_bound, lemma_times_nonnegative, product,
    ONE,
};
use crate::algebra::utility::{random_fraction, random_in_range};
use crate::algebra::vec3::{Color, V3, Vec3};
use crate::error::ConfigError;
use crate::graphics::camera::{has_basis, within_limit, Camera};
use crate::graphics::hit::HittableStore;
use crate::graphics::ppm::{image_text, Pixel};
use crate::graphics::material::{Dielectric, Lambertian, Material, Metal};
use crate::graphics::sphere::Sphere;
use crate::lemma_filtered_is_fraction;
use crate::App;

verus! {

/// How many places the field of small spheres has along each axis.
pub const FIELD: i64 = 22;

/// The radius and the height of the small spheres: 0.2.
pub const SMALL: i64 = 13107;

/// How far a small sphere may lie from the corner of its place, and how
/// far it keeps from the point (4, 0.2, 0): 0.9.
pub const SPREAD: i64 = 58982;

/// The refractive index of glass: 1.5.
pub const GLASS: i64 = 98304;

/// The ground: a sphere of radius 1000 below the scene.
pub open spec fn ground() -> Sphere {
    Sphere {
        center: Vec3::of(V3 { x: 0, y: -65536000, z: 0 }),
        radius: 65536000,
        material: Material::Lambertian(
            Lambertian { albedo: Vec3::of(V3 { x: 52429, y: 52429, z: 0 }) },
        ),
    }
}

/// The large sphere of glass in the middle.
pub open spec fn large_glass() -> Sphere {
    Sphere {
        center: Vec3::of(V3 { x: 0, y: 65536, z: 0 }),
        radius: 65536,
        material: Material::Dielectric(Dielectric { ref_idx: GLASS }),
    }
}

/// The large diffuse sphere behind it.
pub open spec fn large_diffuse() -> Sphere {
    Sphere {
        center: Vec3::of(V3 { x: -262144, y: 65536, z: 0 }),
        radius: 65536,
        material: Material::Lambertian(
            Lambertian { albedo: Vec3::of(V3 { x: 26214, y: 13107, z: 6554 }) },
        ),
    }
}

/// The large polished sphere of metal in front.
pub open spec fn large_metal() -> Sphere {
    Sphere {
        center: Vec3::of(V3 { x: 262144, y: 65536, z: 0 }),
        radius: 65536,
        material: Material::Metal(
            Metal { albedo: Vec3::of(V3 { x: 45875, y: 39322, z: 32768 }), fuzz: 0 },
        ),
    }
}

/// A small sphere lies at height 0.2 and has radius 0.2.
pub open spec fn is_small(sphere: Sphere) -> bool {
    sphere.radius == SMALL && sphere.center@.y == SMALL && sphere.wf()
}

/// Whether a small sphere at `center` keeps clear of the large sphere of
/// metal: its center is more than 0.9 away from the point (4, 0.2, 0).
pub open spec fn keeps_clear(center: V3) -> bool {
    center.minus(V3 { x: 262144, y: SMALL as int, z: 0 }).norm2() > SPREAD * SPREAD
}

/// The material that the share `choice` selects is diffuse below 0.8,
/// metal below 0.95 and glass from there on.
pub open spec fn chosen_kind(choice: int, material: Material) -> bool {
    if choice < 52429 {
        material is Lambertian
    } else if choice < 62259 {
        material is Metal && material->Metal_0.fuzz < ONE / 2
    } else {
        material == Material::Dielectric(Dielectric { ref_idx: GLASS })
    }
}

/// The material that the share `choice` selects: diffuse below 0.8, with
/// the product of two colors as albedo; metal below 0.95, with the first
/// color as albedo; glass from there on.
pub open spec fn material_of(choice: int, first: V3, second: V3, fuzz: int) -> Material {
    if choice < 52429 {
        Material::Lambertian(Lambertian { albedo: Vec3::of(first.pointwise(second)) })
    } else if choice < 62259 {
        Material::Metal(Metal { albedo: Vec3::of(first), fuzz: fuzz as i64 })
    } else {
        Material::Dielectric(Dielectric { ref_idx: GLASS })
    }
}

/// The material that the share `choice` selects, made of the given colors
/// and fuzz.
pub fn material_for(choice: i64, first: Color, second: Color, fuzz: i64) -> (r: Material)
    requires
        0 <= choice < ONE,
        first@.is_fraction(),
        second@.is_fraction(),
        0 <= fuzz <= ONE,
    ensures
        r == material_of(choice as int, first@, second@, fuzz as int),
        r.wf(),
{
    broadcast use Vec3::lemma_of_view, Vec3::lemma_view_of;

    if choice < 52429 {
        proof {
            lemma_filtered_is_fraction(first@, second@);
        }
        Material::Lambertian(Lambertian { albedo: first * second })
    } else if choice < 62259 {
        Material::Metal(Metal { albedo: first, fuzz })
    } else {
        Material::Dielectric(Dielectric { ref_idx: GLASS })
    }
}

/// The material of a small sphere, selected by the share `choice`: a
/// random diffuse color, a random metal with colors from 0.5 on and a
/// fuzz below 0.5, or glass.
pub fn random_material(choice: i64) -> (r: Material)
    requires
        0 <= choice < ONE,
    ensures
        r.wf(),
        chosen_kind(choice as int, r),
        exists|first: V3, second: V3, fuzz: int|
            first.is_fraction() && second.is_fraction() && 0 <= fuzz < ONE / 2 && r
                == #[trigger] material_of(choice as int, first, second, fuzz),
{
    let r = if choice < 52429 {
        let first = Vec3::random();
        let second = Vec3::random();
        let r = material_for(choice, first, second, 0);
        assert(first@.is_fraction() && second@.is_fraction() && r == material_of(
            choice as int,
            first@,
            second@,
            0,
        ));
        r
    } else if choice < 62259 {
        let first = Vec3::random_in_range(ONE / 2, ONE);
        let fuzz: i64 = random_in_range(0, ONE / 2);
        let r = material_for(choice, first, first, fuzz);
        assert(first@.is_fraction() && r == material_of(
            choice as int,
            first@,
            first@,
            fuzz as int,
        ));
        r
    } else {
        let none = Vec3::zero();
        let r = material_for(choice, none, none, 0);
        assert(none@.is_fraction() && r == material_of(choice as int, none@, none@, 0));
        r
    };
    r
}

/// The random values of one place of the field: where the sphere lies in
/// its place, what selects its material, and what the material is made of.
pub ghost struct Place {
    pub dx: int,
    pub dz: int,
    pub choice: int,
    pub first: V3,
    pub second: V3,
    pub fuzz: int,
}

impl Place {
    /// Each value is one that can be drawn.
    pub open spec fn valid(self) -> bool {
        &&& 0 <= self.dx < ONE
        &&& 0 <= self.dz < ONE
        &&& 0 <= self.choice < ONE
        &&& self.first.is_fraction()
        &&& self.second.is_fraction()
        &&& 0 <= self.fuzz < ONE / 2
    }
}

/// The center of the small sphere of the place `(a, b)`, moved from the
/// corner of the place by the shares `dx` and `dz` of the spread.
pub open spec fn small_center(a: int, b: int, dx: int, dz: int) -> V3 {
    V3 { x: product(dx, SPREAD as int) + a * ONE, y: SMALL as int, z: product(dz, SPREAD as int) + b
        * ONE }
}

/// The small sphere of the place `(a, b)` for the given random values:
/// none where it would touch the large sphere of metal.
pub open spec fn small_of(a: int, b: int, place: Place) -> Option<Sphere> {
    if keeps_clear(small_center(a, b, place.dx, place.dz)) {
        Some(
            Sphere {
                center: Vec3::of(small_center(a, b, place.dx, place.dz)),
                radius: SMALL,
                material: material_of(place.choice, place.first, place.second, place.fuzz),
            },
        )
    } else {
        None
    }
}

/// The small spheres of the first places of the field, in the order of
/// the places: place `k` is `(k / 22 - 11, k % 22 - 11)`.
pub open spec fn field(draws: Seq<Place>) -> Seq<Sphere>
    decreases draws.len(),
{
    if draws.len() == 0 {
        Seq::<Sphere>::empty()
    } else {
        let k = draws.len() - 1;
        let before = field(draws.drop_last());
        match small_of(k / (FIELD as int) - 11, k % (FIELD as int) - 11, draws.last()) {
            Some(sphere) => before.push(sphere),
            None => before,
        }
    }
}

/// All random values of the sequence are ones that can be drawn.
pub open spec fn all_places_valid(draws: Seq<Place>) -> bool {
    forall|k: int| 0 <= k < draws.len() ==> (#[trigger] draws[k]).valid()
}

/// The small sphere of the place `(a, b)`, moved from the corner of the
/// place by the shares `dx` and `dz` of the spread, unless it would touch
/// the large sphere of metal.
pub fn small_sphere(a: i64, b: i64, dx: i64, dz: i64, choice: i64) -> (r: Option<Sphere>)
    requires
        -11 <= a < 11,
        -11 <= b < 11,
        0 <= dx < ONE,
        0 <= dz < ONE,
        0 <= choice < ONE,
    ensures
        r is Some <==> keeps_clear(
            V3 {
                x: product(dx as int, SPREAD as int) + a * ONE,
                y: SMALL as int,
                z: product(dz as int, SPREAD as int) + b * ONE,
            },
        ),
        r is Some ==> is_small(r->Some_0) && r->Some_0.center@ == (V3 {
            x: product(dx as int, SPREAD as int) + a * ONE,
            y: SMALL as int,
            z: product(dz as int, SPREAD as int) + b * ONE,
        }) && chosen_kind(choice as int, r->Some_0.material),
        exists|place: Place|
            place.valid() && place.dx == dx && place.dz == dz && place.choice == choice && r
                == #[trigger] small_of(a as int, b as int, place),
{
    broadcast use Vec3::lemma_view_of;

    proof {
        lemma_times_bound(dx as int, SPREAD as int, ONE as int, 1);
        lemma_times_bound(dz as int, SPREAD as int, ONE as int, 1);
        lemma_times_nonnegative(dx as int, SPREAD as int);
        lemma_times_nonnegative(dz as int, SPREAD as int);
        lemma_product_bound(dx as int, SPREAD as int, ONE as int, ONE as int);
        lemma_product_bound(dz as int, SPREAD as int, ONE as int, ONE as int);
        lemma_limit_squared();
    }
    let x: i64 = (dx * SPREAD) / 65536 + a * ONE;
    let z: i64 = (dz * SPREAD) / 65536 + b * ONE;
    let center = Vec3::new(x, SMALL, z);
    let ox: i64 = x - 262144;
    let oz: i64 = z;
    proof {
        lemma_product_bound(ox as int, ox as int, 16 * ONE, 16 * ONE);
        lemma_product_bound(oz as int, oz as int, 16 * ONE, 16 * ONE);
        assert((16 * ONE) * (16 * ONE) == 0x100_0000_0000) by (nonlinear_arith)
            requires
                ONE == 65536,
        ;
        assert(0int * 0int == 0);
    }
    if ox * ox + oz * oz > SPREAD * SPREAD {
        let material = random_material(choice);
        let r = Some(Sphere { center, radius: SMALL, material });
        proof {
            let (first, second, fuzz) = choose|first: V3, second: V3, fuzz: int|
                first.is_fraction() && second.is_fraction() && 0 <= fuzz < ONE / 2 && material
                    == #[trigger] material_of(choice as int, first, second, fuzz);
            let place = Place {
                dx: dx as int,
                dz: dz as int,
                choice: choice as int,
                first,
                second,
                fuzz,
            };
            assert(place.valid() && r == small_of(a as int, b as int, place));
        }
        r
    } else {
        proof {
            let none = V3 { x: 0, y: 0, z: 0 };
            let place = Place {
                dx: dx as int,
                dz: dz as int,
                choice: choice as int,
                first: none,
                second: none,
                fuzz: 0,
            };
            assert(place.valid() && small_of(a as int, b as int, place) is None);
        }
        None
    }
}

/// The tangent of half the field of view of the program's camera, which
/// is twenty degrees high: 0.1763.
pub const HALF_HEIGHT: i64 = 11556;

/// Where the program's camera stands: (13, 2, 3).
pub open spec fn viewpoint() -> V3 {
    V3 { x: 851968, y: 131072, z: 196608 }
}

/// What the program's camera looks at: the origin.
pub open spec fn target() -> V3 {
    V3 { x: 0, y: 0, z: 0 }
}

/// What is up for the program's camera: (0, 1, 0).
pub open spec fn upward() -> V3 {
    V3 { x: 0, y: 65536, z: 0 }
}

/// The scene for the given random values: the ground, the small spheres
/// of the field and the three large spheres.
pub open spec fn scene_of(draws: Seq<Place>) -> Seq<Sphere> {
    seq![ground()] + field(draws) + seq![large_glass(), large_diffuse(), large_metal()]
}

/// `scene` is a scene such as `random_scene` builds: the scene for some
/// random values, one set for each of the 22 by 22 places of the field.
pub open spec fn is_random_scene(scene: Seq<Sphere>) -> bool {
    &&& 4 <= scene.len() <= 4 + FIELD * FIELD
    &&& scene[0] == ground()
    &&& scene[scene.len() - 3] == large_glass()
    &&& scene[scene.len() - 2] == large_diffuse()
    &&& scene[scene.len() - 1] == large_metal()
    &&& forall|i: int| 1 <= i < scene.len() - 3 ==> is_small(#[trigger] scene[i])
    &&& exists|draws: Seq<Place>|
        draws.len() == FIELD * FIELD && all_places_valid(draws) && scene == #[trigger] scene_of(
            draws,
        )
}

impl App {
    /// The camera of the program: at (13, 2, 3), looking at the origin,
    /// with a field of view twenty degrees high.
    pub fn camera(&self) -> (r: Result<Camera, ConfigError>)
        requires
            self.wf(),
        ensures
            match r {
                Ok(camera) => {
                    &&& camera.wf()
                    &&& camera.describes(
                        viewpoint(),
                        target(),
                        upward(),
                        HALF_HEIGHT as int,
                        self.aspect_ratio as int,
                    )
                    &&& has_basis(viewpoint(), target(), upward())
                    &&& within_limit(
                        viewpoint(),
                        target(),
                        upward(),
                        HALF_HEIGHT as int,
                        self.aspect_ratio as int,
                    )
                },
                Err(e) => if has_basis(viewpoint(), target(), upward()) {
                    e == ConfigError::CameraOutOfRange && !within_limit(
                        viewpoint(),
                        target(),
                        upward(),
                        HALF_HEIGHT as int,
                        self.aspect_ratio as int,
                    )
                } else {
                    e == ConfigError::DegenerateCamera
                },
            },
    {
        Camera::new(
            Vec3::new(851968, 131072, 196608),
            Vec3::new(0, 0, 0),
            Vec3::new(0, 65536, 0),
            HALF_HEIGHT,
            self.aspect_ratio,
        )
    }

    /// Renders a random scene, seen by the program's camera, to the plain
    /// PPM text of the image.
    pub fn run(&self) -> (r: Result<Vec<u8>, ConfigError>)
        requires
            self.wf(),
        ensures
            match r {
                Ok(text) => exists|camera: Camera, scene: Seq<Sphere>, pixels: Seq<Pixel>|
                    {
                        &&& camera.describes(
                            viewpoint(),
                            target(),
                            upward(),
                            HALF_HEIGHT as int,
                            self.aspect_ratio as int,
                        )
                        &&& is_random_scene(scene)
                        &&& #[trigger] self.is_image(camera, scene, pixels)
                        &&& text@ == image_text(self.width as int, self.height as int, pixels)
                    },
                Err(e) => if has_basis(viewpoint(), target(), upward()) {
                    e == ConfigError::CameraOutOfRange && !within_limit(
                        viewpoint(),
                        target(),
                        upward(),
                        HALF_HEIGHT as int,
                        self.aspect_ratio as int,
                    )
                } else {
                    e == ConfigError::DegenerateCamera
                },
            },
    {
        let world = self.random_scene();
        let camera = match self.camera() {
            Ok(camera) => camera,
            Err(e) => {
                return Err(e);
            },
        };
        let text = self.image(&camera, &world);
        proof {
            let pixels = choose|pixels: Seq<Pixel>|
                self.is_image(camera, world.store@, pixels) && text@ == #[trigger] image_text(
                    self.width as int,
                    self.height as int,
                    pixels,
                );
            assert(camera.describes(
                viewpoint(),
                target(),
                upward(),
                HALF_HEIGHT as int,
                self.aspect_ratio as int,
            ) && is_random_scene(world.store@) && self.is_image(camera, world.store@, pixels)
                && text@ == image_text(self.width as int, self.height as int, pixels));
        }
        Ok(text)
    }

    /// A random scene: the ground, then the small spheres of a field of
    /// 22 by 22 places, each at a random spot of its place and of a
    /// random material, then three large spheres of glass, of a diffuse
    /// material and of metal.
    pub fn random_scene(&self) -> (r: HittableStore)
        ensures
            r.wf(),
            is_random_scene(r.store@),
    {
        broadcast use Vec3::lemma_view_of;

        let mut world = HittableStore::new();
        world.store(
            Sphere {
                center: Vec3::new(0, -65536000, 0),
                radius: 65536000,
                material: Material::Lambertian(Lambertian { albedo: Vec3::new(52429, 52429, 0) }),
            },
        );
        let ghost mut draws = Seq::<Place>::empty();
        proof {
            assert(world.store@ =~= seq![ground()] + field(draws));
        }
        let mut a: i64 = -11;
        while a < 11
            invariant
                -11 <= a <= 11,
                world.wf(),
                1 <= world.store@.len() <= 1 + (a + 11) * FIELD,
                world.store@[0] == ground(),
                forall|i: int| 1 <= i < world.store@.len() ==> is_small(#[trigger] world.store@[i]),
                draws.len() == (a + 11) * FIELD,
                all_places_valid(draws),
                world.store@ == seq![ground()] + field(draws),
            decreases 11 - a,
        {
            let mut b: i64 = -11;
            while b < 11
                invariant
                    -11 <= a < 11,
                    -11 <= b <= 11,
                    world.wf(),
                    1 <= world.store@.len() <= 1 + (a + 11) * FIELD + (b + 11),
                    world.store@[0] == ground(),
                    forall|i: int|
                        1 <= i < world.store@.len() ==> is_small(#[trigger] world.store@[i]),
                    draws.len() == (a + 11) * FIELD + (b + 11),
                    all_places_valid(draws),
                    world.store@ == seq![ground()] + field(draws),
                decreases 11 - b,
            {
                let choose_mat: i64 = random_fraction();
                let dx: i64 = random_fraction();
                let dz: i64 = random_fraction();
                let small = small_sphere(a, b, dx, dz, choose_mat);
                proof {
                    let place = choose|place: Place|
                        place.valid() && place.dx == dx && place.dz == dz && place.choice
                            == choose_mat && small == #[trigger] small_of(a as int, b as int, place);
                    let k = draws.len() as int;
                    let longer = draws.push(place);
                    assert(longer.drop_last() =~= draws);
                    assert(longer.last() == place);
                    assert(k / (FIELD as int) - 11 == a && k % (FIELD as int) - 11 == b);
                    assert(field(longer) == match small {
                        Some(sphere) => field(draws).push(sphere),
                        None => field(draws),
                    });
                    if small is Some {
                        assert((seq![ground()] + field(draws)).push(small->Some_0) =~= seq![
                            ground(),
                        ] + field(longer));
                    }
                    draws = longer;
                }
                match small {
                    Some(sphere) => {
                        world.store(sphere);
                    },
                    None => {},
                }
                b = b + 1;
            }
            a = a + 1;
        }
        let ghost before = world.store@;
        world.store(
            Sphere {
                center: Vec3::new(0, 65536, 0),
                radius: 65536,
                material: Material::Dielectric(Dielectric { ref_idx: GLASS }),
            },
        );
        world.store(
            Sphere {
                center: Vec3::new(-262144, 65536, 0),
                radius: 65536,
                material: Material::Lambertian(
                    Lambertian { albedo: Vec3::new(26214, 13107, 6554) },
                ),
            },
        );
        world.store(
            Sphere {
                center: Vec3::new(262144, 65536, 0),
                radius: 65536,
                material: Material::Metal(Metal { albedo: Vec3::new(45875, 39322, 32768), fuzz: 0 }),
            },
        );
        proof {
            assert(world.store@ =~= before.push(large_glass()).push(large_diffuse()).push(
                large_metal(),
            ));
            assert(world.store@ =~= scene_of(draws));
        }
        world
    }
}

} // verus!
