//! A path tracer for scenes of spheres, computed in fixed-point
//! arithmetic.
//!
//! `algebra` holds scalars, vectors and random draws; `graphics` holds
//! rays, the camera, spheres, materials, the scene and the text of an
//! image; `scene` builds the scene that the program renders. This file holds
//! the integrator, which follows one ray through the scene, and the
//! sampler, which turns many rays into the pixels of an image.

use vstd::prelude::*;
use crate::algebra::fixed::{
    lemma_quot_bound, lemma_times_bound, lemma_times_nonnegative, magnitude, product, quot, ONE,
};
use crate::algebra::vec3::{lemma_unit_bounded, Color, V3, Vec3};
use crate::algebra::utility::random_fraction;
use crate::error::ConfigError;
use crate::graphics::camera::{Camera, MAX_COORDINATE};
use crate::graphics::hit::{closest_hit, HittableStore};
use crate::graphics::material::Sample;
use crate::graphics::ppm::{channel, image_text, quantized, write_color, write_image, Pixel};
use crate::graphics::ray::Ray;
use crate::graphics::sphere::Sphere;

pub mod algebra;
pub mod error;
pub mod graphics;
pub mod scene;

verus! {

/// The smallest ray parameter at which a hit counts, about 0.001: a ray
/// that leaves a surface does not hit that surface again at once.
pub const SHADOW_EPSILON: i64 = 65;

/// The largest ray parameter at which a hit counts.
pub const FARTHEST: i64 = 0x7fff_ffff_ffff_ffff;

/// The color black.
pub open spec fn black() -> V3 {
    V3 { x: 0, y: 0, z: 0 }
}

/// The color of the sky overhead: (0.5, 0.7, 1.0).
pub open spec fn sky_blue() -> V3 {
    V3 { x: 32768, y: 45875, z: 65536 }
}

/// The unit vector along `d`, or `d` itself where it is zero.
pub open spec fn unit_or_zero(d: V3) -> V3 {
    if d.is_zero() {
        d
    } else {
        d.unit()
    }
}

/// How much of the sky's blue a ray of direction `d` sees: half of one
/// plus the height of its unit vector.
pub open spec fn blend(d: V3) -> int {
    quot(unit_or_zero(d).y + ONE, 2)
}

/// White and `color` mixed, `t` being the share of `color`.
pub open spec fn mixed(t: int, color: V3) -> V3 {
    V3 {
        x: (ONE - t) + product(t, color.x),
        y: (ONE - t) + product(t, color.y),
        z: (ONE - t) + product(t, color.z),
    }
}

/// The color of the background in the direction `d`: white at the
/// bottom, sky blue at the top. A ray without direction sees the color
/// of the horizon.
pub open spec fn background(d: V3) -> V3 {
    mixed(blend(d), sky_blue())
}

/// The light that arrives along `ray`: none once the depth is used up;
/// the background where the ray hits nothing; none where the surface it
/// hits absorbs it; else what arrives along the scattered ray, filtered by
/// the surface. `samples` holds the random values of the scatterings, the
/// first for the first.
pub open spec fn radiance(scene: Seq<Sphere>, ray: Ray, depth: int, samples: Seq<Sample>) -> V3
    decreases depth,
{
    if depth <= 0 {
        black()
    } else {
        match closest_hit(scene, ray, SHADOW_EPSILON as int, FARTHEST as int) {
            None => background(ray.direction@),
            Some(rec) => match rec.material.scatter_spec(ray, rec, samples.first()) {
                None => black(),
                Some(scatter) => scatter.attenuation@.pointwise(
                    radiance(scene, scatter.scattered, depth - 1, samples.drop_first()),
                ),
            },
        }
    }
}

/// Every sample of the sequence lies in the range it is drawn from.
pub open spec fn all_valid(samples: Seq<Sample>) -> bool {
    forall|i: int| 0 <= i < samples.len() ==> (#[trigger] samples[i]).valid()
}

/// With no depth left no light arrives, whatever the scene and the ray.
pub proof fn lemma_no_depth_is_black(scene: Seq<Sphere>, ray: Ray, depth: int, samples: Seq<Sample>)
    requires
        depth <= 0,
    ensures
        radiance(scene, ray, depth, samples) == black(),
{
}

/// In an empty scene every ray sees the background, whatever its
/// direction and whatever the depth, as long as some is left.
pub proof fn lemma_empty_scene_is_background(ray: Ray, depth: int, samples: Seq<Sample>)
    requires
        depth > 0,
    ensures
        radiance(Seq::<Sphere>::empty(), ray, depth, samples) == background(ray.direction@),
{
}

/// The product of two colors between zero and one lies between zero and one.
pub proof fn lemma_filtered_is_fraction(a: V3, b: V3)
    requires
        a.is_fraction(),
        b.is_fraction(),
    ensures
        a.pointwise(b).is_fraction(),
{
    lemma_times_bound(a.x, b.x, ONE as int, 1);
    lemma_times_bound(a.y, b.y, ONE as int, 1);
    lemma_times_bound(a.z, b.z, ONE as int, 1);
    lemma_times_nonnegative(a.x, b.x);
    lemma_times_nonnegative(a.y, b.y);
    lemma_times_nonnegative(a.z, b.z);
}

/// The background is a color between zero and one.
pub proof fn lemma_background_is_fraction(d: V3)
    ensures
        background(d).is_fraction(),
        0 <= blend(d) <= ONE,
{
    if !d.is_zero() {
        lemma_unit_bounded(d);
    }
    let y = unit_or_zero(d).y;
    assert(-ONE <= y <= ONE);
    let t = blend(d);
    assert(t == (y + ONE) / 2);
    assert(0 <= t <= ONE);
    lemma_times_bound(t, 32768, t, 1);
    lemma_times_bound(t, 45875, t, 1);
    lemma_times_bound(t, 65536, t, 1);
    lemma_times_nonnegative(t, 32768);
    lemma_times_nonnegative(t, 45875);
    lemma_times_nonnegative(t, 65536);
}

/// The color of the background in the direction `direction`.
pub fn background_color(direction: Vec3) -> (r: Color)
    ensures
        r@ == background(direction@),
        r@.is_fraction(),
{
    let height: i64 = if direction.is_zero() {
        0
    } else {
        Vec3::unit_vector(direction).y()
    };
    let t: i64 = (height + ONE) / 2;
    proof {
        lemma_background_is_fraction(direction@);
    }
    let x: i64 = (ONE - t) + (t * 32768) / 65536;
    let y: i64 = (ONE - t) + (t * 45875) / 65536;
    let z: i64 = (ONE - t) + (t * 65536) / 65536;
    Vec3::new(x, y, z)
}

/// `light` after it has passed the filters, the last filter first.
pub open spec fn filtered(filters: Seq<Color>, light: V3) -> V3
    decreases filters.len(),
{
    if filters.len() == 0 {
        light
    } else {
        filters.first()@.pointwise(filtered(filters.drop_first(), light))
    }
}

/// Every filter is a color between zero and one.
pub open spec fn all_fractions(filters: Seq<Color>) -> bool {
    forall|i: int| 0 <= i < filters.len() ==> (#[trigger] filters[i])@.is_fraction()
}

/// A filter more at the end filters the light before the others do.
proof fn lemma_filtered_push(filters: Seq<Color>, last: Color, light: V3)
    ensures
        filtered(filters.push(last), light) == filtered(filters, last@.pointwise(light)),
    decreases filters.len(),
{
    let longer = filters.push(last);
    assert(filtered(longer, light) == longer.first()@.pointwise(
        filtered(longer.drop_first(), light),
    ));
    if filters.len() == 0 {
        assert(longer.drop_first() =~= filters);
        assert(longer.first() == last);
        assert(filtered(filters, light) == light);
        assert(filtered(filters, last@.pointwise(light)) == last@.pointwise(light));
    } else {
        assert(longer.drop_first() =~= filters.drop_first().push(last));
        assert(longer.first() == filters.first());
        lemma_filtered_push(filters.drop_first(), last, light);
    }
}

/// The light that has passed the filters, the last filter first.
fn filter_back(filters: &Vec<Color>, light: Color) -> (r: Color)
    requires
        all_fractions(filters@),
        light@.is_fraction(),
    ensures
        r@ == filtered(filters@, light@),
        r@.is_fraction(),
{
    broadcast use Vec3::lemma_of_view;

    let mut seen = light;
    let mut k: usize = filters.len();
    proof {
        assert(filters@.skip(k as int) =~= Seq::<Color>::empty());
    }
    while k > 0
        invariant
            k <= filters@.len(),
            all_fractions(filters@),
            seen@.is_fraction(),
            seen@ == filtered(filters@.skip(k as int), light@),
        decreases k,
    {
        k = k - 1;
        let filter = filters[k];
        proof {
            let tail = filters@.skip(k as int);
            assert(tail.drop_first() =~= filters@.skip(k + 1));
            assert(tail.first() == filter);
            assert(filtered(tail, light@) == filter@.pointwise(
                filtered(tail.drop_first(), light@),
            ));
            lemma_filtered_is_fraction(filter@, seen@);
            Vec3::lemma_of_view(filter@.pointwise(seen@));
        }
        seen = filter * seen;
    }
    proof {
        assert(filters@.skip(0) =~= filters@);
    }
    seen
}

/// The path of `ray` through the scene: the filters of the surfaces that
/// scatter it, in the order in which it meets them, and the light at the
/// end of the path.
fn follow(ray: Ray, world: &HittableStore, depth: i32) -> (r: (
    Vec<Color>,
    Color,
    Ghost<Seq<Sample>>,
))
    requires
        world.wf(),
    ensures
        all_fractions(r.0@),
        r.1@.is_fraction(),
        all_valid(r.2@),
        radiance(world.store@, ray, depth as int, r.2@) == filtered(r.0@, r.1@),
{
    let ghost scene = world.store@;
    let mut filters: Vec<Color> = Vec::new();
    let mut current = ray;
    let mut left: i32 = depth;
    let ghost mut used = Seq::<Sample>::empty();
    proof {
        assert forall|rest: Seq<Sample>|
            radiance(scene, ray, depth as int, used + rest) == filtered(
                filters@,
                #[trigger] radiance(scene, current, left as int, rest),
            ) by {
            assert(used + rest =~= rest);
        }
    }
    while left > 0
        invariant
            world.wf(),
            scene == world.store@,
            left <= depth,
            all_fractions(filters@),
            all_valid(used),
            forall|rest: Seq<Sample>|
                radiance(scene, ray, depth as int, used + rest) == filtered(
                    filters@,
                    #[trigger] radiance(scene, current, left as int, rest),
                ),
        decreases left,
    {
        let ghost none = Seq::<Sample>::empty();
        match world.hit(current, SHADOW_EPSILON, FARTHEST) {
            Some(new_hit_record) => {
                let scatter = new_hit_record.material.scatter(current, &new_hit_record);
                let ghost sample = choose|sample: Sample|
                    sample.valid() && scatter == #[trigger] new_hit_record.material.scatter_spec(
                        current,
                        new_hit_record,
                        sample,
                    );
                match scatter {
                    Some(scatter) => {
                        proof {
                            let ghost before = filters@;
                            let ghost after = used.push(sample);
                            assert forall|rest: Seq<Sample>|
                                radiance(scene, ray, depth as int, after + rest) == filtered(
                                    before.push(scatter.attenuation),
                                    #[trigger] radiance(
                                        scene,
                                        scatter.scattered,
                                        left - 1,
                                        rest,
                                    ),
                                ) by {
                                let longer = seq![sample] + rest;
                                assert(longer.first() == sample);
                                assert(longer.drop_first() =~= rest);
                                assert(used + longer =~= after + rest);
                                assert(radiance(scene, current, left as int, longer)
                                    == scatter.attenuation@.pointwise(
                                    radiance(scene, scatter.scattered, left - 1, rest),
                                ));
                                lemma_filtered_push(
                                    before,
                                    scatter.attenuation,
                                    radiance(scene, scatter.scattered, left - 1, rest),
                                );
                            }
                            used = after;
                        }
                        filters.push(scatter.attenuation);
                        current = scatter.scattered;
                        left = left - 1;
                    },
                    None => {
                        let dark = Vec3::zero();
                        proof {
                            let longer = seq![sample];
                            assert(longer.first() == sample);
                            assert(radiance(scene, current, left as int, longer) == black());
                            used = used + longer;
                        }
                        return (filters, dark, Ghost(used));
                    },
                }
            },
            None => {
                let sky = background_color(current.direction());
                proof {
                    assert(radiance(scene, current, left as int, none) == sky@);
                    assert(used + none =~= used);
                }
                return (filters, sky, Ghost(used));
            },
        }
    }
    let dark = Vec3::zero();
    proof {
        let none = Seq::<Sample>::empty();
        assert(radiance(scene, current, left as int, none) == black());
        assert(used + none =~= used);
    }
    (filters, dark, Ghost(used))
}

/// The light that arrives along `ray` after at most `depth` scatterings.
/// The path is followed to its end first and the light is then passed
/// back through the filters, so that no call nests another.
pub fn ray_color(ray: Ray, world: &HittableStore, depth: i32) -> (r: Color)
    requires
        world.wf(),
    ensures
        r@.is_fraction(),
        exists|samples: Seq<Sample>|
            all_valid(samples) && r@ == #[trigger] radiance(
                world.store@,
                ray,
                depth as int,
                samples,
            ),
        depth <= 0 ==> r@ == black(),
        depth > 0 && world.store@.len() == 0 ==> r@ == background(ray.direction@),
{
    let (filters, light, samples) = follow(ray, world, depth);
    let r = filter_back(&filters, light);
    assert(all_valid(samples@) && r@ == radiance(world.store@, ray, depth as int, samples@));
    r
}

/// The largest number of samples per pixel: their sum stays within the
/// coordinate limit.
pub const MAX_SAMPLES: i32 = 16384;

/// The divisor that maps the indices of `extent` pixels to coordinates:
/// one less than the extent, and one for a single pixel.
pub open spec fn span(extent: int) -> int {
    if extent > 2 {
        extent - 1
    } else {
        1
    }
}

/// The image coordinate of a sample in pixel `index` of `extent`, moved
/// within the pixel by `jitter`.
pub open spec fn coordinate_of(index: int, jitter: int, extent: int) -> int {
    quot(index * ONE + jitter, span(extent))
}

/// The image coordinate of a sample in pixel `index` of `extent`, moved
/// within the pixel by the share `jitter`.
pub fn coordinate(index: i32, jitter: i64, extent: i32) -> (r: i64)
    requires
        0 <= index < extent,
        0 <= jitter < ONE,
    ensures
        r == coordinate_of(index as int, jitter as int, extent as int),
        0 <= r <= MAX_COORDINATE,
{
    let divisor: i64 = if extent > 2 {
        (extent - 1) as i64
    } else {
        1
    };
    let dividend: i64 = (index as i64) * ONE + jitter;
    proof {
        assert(magnitude(dividend as int) <= MAX_COORDINATE * magnitude(divisor as int))
            by (nonlinear_arith)
            requires
                0 <= dividend < (index + 1) * 65536,
                index + 1 <= 2 * divisor,
                divisor >= 1,
                MAX_COORDINATE == 131072,
        ;
        lemma_quot_bound(dividend as int, divisor as int, MAX_COORDINATE as int);
        assert(0 <= dividend / divisor) by (nonlinear_arith)
            requires
                0 <= dividend,
                divisor >= 1,
        ;
    }
    dividend / divisor
}

/// The sum of the colors.
pub open spec fn total(colors: Seq<V3>) -> V3
    decreases colors.len(),
{
    if colors.len() == 0 {
        black()
    } else {
        total(colors.drop_last()).plus(colors.last())
    }
}

/// What is rendered: the size of the image, the samples per pixel and the
/// number of scatterings a ray is followed through.
#[derive(Clone, Copy, Debug)]
pub struct App {
    pub height: i32,
    pub width: i32,
    pub samples_per_pixel: i32,
    pub max_depth: i32,
    pub aspect_ratio: i64,
}

/// The number of rows of an image `width` pixels wide.
pub open spec fn height_of(width: int, aspect_ratio: int) -> int {
    quot(width * ONE, aspect_ratio)
}

impl App {
    /// The image is at least two pixels wide and has a row, and the
    /// number of samples lies between one and `MAX_SAMPLES`.
    pub open spec fn wf(self) -> bool {
        &&& self.width >= 2
        &&& self.height >= 1
        &&& 1 <= self.samples_per_pixel <= MAX_SAMPLES
        &&& self.aspect_ratio > 0
    }

    /// The parameters of a rendering. The height of the image is its
    /// width over the aspect ratio, rounded down.
    pub fn new(aspect_ratio: i64, width: i32, samples_per_pixel: i32, max_depth: i32) -> (r:
        Result<App, ConfigError>)
        ensures
            match r {
                Ok(app) => {
                    &&& app.wf()
                    &&& app.width == width
                    &&& app.height == height_of(width as int, aspect_ratio as int)
                    &&& app.samples_per_pixel == samples_per_pixel
                    &&& app.max_depth == max_depth
                    &&& app.aspect_ratio == aspect_ratio
                },
                Err(e) => e == if aspect_ratio <= 0 {
                    ConfigError::NonPositiveAspectRatio
                } else if width <= 1 {
                    ConfigError::WidthTooSmall
                } else if height_of(width as int, aspect_ratio as int) < 1 {
                    ConfigError::HeightTooSmall
                } else if height_of(width as int, aspect_ratio as int) > i32::MAX {
                    ConfigError::ImageTooLarge
                } else if samples_per_pixel < 1 {
                    ConfigError::NoSamples
                } else {
                    ConfigError::TooManySamples
                },
            },
            r is Err <==> aspect_ratio <= 0 || width <= 1 || height_of(
                width as int,
                aspect_ratio as int,
            ) < 1 || height_of(width as int, aspect_ratio as int) > i32::MAX
                || samples_per_pixel < 1 || samples_per_pixel > MAX_SAMPLES,
    {
        if aspect_ratio <= 0 {
            return Err(ConfigError::NonPositiveAspectRatio);
        }
        if width <= 1 {
            return Err(ConfigError::WidthTooSmall);
        }
        let height: i64 = ((width as i64) * ONE) / aspect_ratio;
        if height < 1 {
            return Err(ConfigError::HeightTooSmall);
        }
        if height > 0x7fff_ffff {
            return Err(ConfigError::ImageTooLarge);
        }
        if samples_per_pixel < 1 {
            return Err(ConfigError::NoSamples);
        }
        if samples_per_pixel > MAX_SAMPLES {
            return Err(ConfigError::TooManySamples);
        }
        Ok(App { height: height as i32, width, samples_per_pixel, max_depth, aspect_ratio })
    }

    /// The ray of the sample in pixel `(i, j)`, moved within the pixel by
    /// `(du, dv)`.
    pub open spec fn ray_through(self, camera: Camera, i: int, j: int, du: int, dv: int) -> Ray {
        Ray {
            origin: camera.origin,
            direction: Vec3::of(
                camera.direction_through(
                    coordinate_of(i, du, self.width as int),
                    coordinate_of(j, dv, self.height as int),
                ),
            ),
        }
    }

    /// `color` is what some sample of pixel `(i, j)` may see.
    pub open spec fn is_sample(
        self,
        camera: Camera,
        scene: Seq<Sphere>,
        i: int,
        j: int,
        color: V3,
    ) -> bool {
        exists|du: int, dv: int, samples: Seq<Sample>|
            0 <= du < ONE && 0 <= dv < ONE && all_valid(samples) && color == #[trigger] radiance(
                scene,
                self.ray_through(camera, i, j, du, dv),
                self.max_depth as int,
                samples,
            )
    }

    /// `pixel` is what pixel `(i, j)` may become: the quantized sum of as
    /// many samples as are taken per pixel.
    pub open spec fn is_pixel(
        self,
        camera: Camera,
        scene: Seq<Sphere>,
        i: int,
        j: int,
        pixel: Pixel,
    ) -> bool {
        exists|colors: Seq<V3>|
            {
                &&& colors.len() == self.samples_per_pixel
                &&& forall|k: int|
                    0 <= k < colors.len() ==> self.is_sample(camera, scene, i, j, #[trigger] colors[k])
                &&& pixel == #[trigger] quantized(total(colors), self.samples_per_pixel as int)
            }
    }

    /// The light that the sample of pixel `(i, j)` sees when moved within
    /// the pixel by the shares `(du, dv)`.
    pub fn sample(
        &self,
        camera: &Camera,
        world: &HittableStore,
        i: i32,
        j: i32,
        du: i64,
        dv: i64,
    ) -> (r: Color)
        requires
            self.wf(),
            camera.wf(),
            world.wf(),
            0 <= i < self.width,
            0 <= j < self.height,
            0 <= du < ONE,
            0 <= dv < ONE,
        ensures
            r@.is_fraction(),
            exists|samples: Seq<Sample>|
                all_valid(samples) && r@ == #[trigger] radiance(
                    world.store@,
                    self.ray_through(*camera, i as int, j as int, du as int, dv as int),
                    self.max_depth as int,
                    samples,
                ),
            self.is_sample(*camera, world.store@, i as int, j as int, r@),
            self.max_depth > 0 && world.store@.len() == 0 ==> r@ == background(
                self.ray_through(*camera, i as int, j as int, du as int, dv as int).direction@,
            ),
    {
        broadcast use Vec3::lemma_view_of;

        let u: i64 = coordinate(i, du, self.width);
        let v: i64 = coordinate(j, dv, self.height);
        let r = camera.get_ray(u, v);
        assert(r == self.ray_through(*camera, i as int, j as int, du as int, dv as int));
        let color = ray_color(r, world, self.max_depth);
        proof {
            let samples = choose|samples: Seq<Sample>|
                all_valid(samples) && color@ == #[trigger] radiance(
                    world.store@,
                    r,
                    self.max_depth as int,
                    samples,
                );
            assert(0 <= du < ONE && 0 <= dv < ONE && all_valid(samples) && color@ == radiance(
                world.store@,
                self.ray_through(*camera, i as int, j as int, du as int, dv as int),
                self.max_depth as int,
                samples,
            ));
        }
        color
    }

    /// Pixel `(i, j)` of the image: the mean of as many samples as are
    /// taken per pixel, each moved within the pixel at random.
    pub fn pixel(&self, camera: &Camera, world: &HittableStore, i: i32, j: i32) -> (r: Pixel)
        requires
            self.wf(),
            camera.wf(),
            world.wf(),
            0 <= i < self.width,
            0 <= j < self.height,
        ensures
            self.is_pixel(*camera, world.store@, i as int, j as int, r),
    {
        let mut pixel_color = Vec3::zero();
        let ghost mut colors = Seq::<V3>::empty();
        let mut s: i32 = 0;
        while s < self.samples_per_pixel
            invariant
                self.wf(),
                camera.wf(),
                world.wf(),
                0 <= i < self.width,
                0 <= j < self.height,
                0 <= s <= self.samples_per_pixel,
                colors.len() == s,
                pixel_color@ == total(colors),
                0 <= pixel_color@.x <= s * ONE,
                0 <= pixel_color@.y <= s * ONE,
                0 <= pixel_color@.z <= s * ONE,
                forall|k: int|
                    0 <= k < colors.len() ==> self.is_sample(
                        *camera,
                        world.store@,
                        i as int,
                        j as int,
                        #[trigger] colors[k],
                    ),
            decreases self.samples_per_pixel - s,
        {
            let du: i64 = random_fraction();
            let dv: i64 = random_fraction();
            let color = self.sample(camera, world, i, j, du, dv);
            proof {
                lemma_total_push(colors, color@);
                colors = colors.push(color@);
            }
            pixel_color = accumulate(pixel_color, color, s);
            s = s + 1;
        }
        let r = write_color(pixel_color, self.samples_per_pixel);
        assert(r == quantized(total(colors), self.samples_per_pixel as int));
        r
    }

    /// `pixels` is what the image may become: its rows from the top, each
    /// from the left, every pixel what that pixel may become.
    pub open spec fn is_image(self, camera: Camera, scene: Seq<Sphere>, pixels: Seq<Pixel>) -> bool {
        &&& pixels.len() == self.width * self.height
        &&& forall|row: int, column: int|
            0 <= row < self.height && 0 <= column < self.width ==> self.is_pixel(
                camera,
                scene,
                column,
                self.height - 1 - row,
                #[trigger] pixels[row * self.width + column],
            )
    }

    /// The number of pixels of the image.
    pub fn pixel_count(&self) -> (r: u64)
        requires
            self.wf(),
        ensures
            r == self.width * self.height,
    {
        assert(0 <= self.width * self.height <= 0x7fff_ffff * 0x7fff_ffff) by (nonlinear_arith)
            requires
                0 <= self.width <= 0x7fff_ffff,
                0 <= self.height <= 0x7fff_ffff,
        ;
        (self.width as u64) * (self.height as u64)
    }

    /// The pixel at place `index` of the image, the places counted row by
    /// row from the top and in each row from the left.
    pub fn pixel_at(&self, camera: &Camera, world: &HittableStore, index: u64) -> (r: Pixel)
        requires
            self.wf(),
            camera.wf(),
            world.wf(),
            index < self.width * self.height,
        ensures
            self.is_pixel(
                *camera,
                world.store@,
                index as int % self.width as int,
                self.height - 1 - index as int / self.width as int,
                r,
            ),
    {
        let width: u64 = self.width as u64;
        let row: u64 = index / width;
        let column: u64 = index % width;
        assert(row < self.height) by (nonlinear_arith)
            requires
                row == index as int / width as int,
                index < width * self.height,
                width > 0,
        ;
        self.pixel(camera, world, column as i32, self.height - 1 - row as i32)
    }

    /// The image as plain PPM text.
    pub fn image(&self, camera: &Camera, world: &HittableStore) -> (r: Vec<u8>)
        requires
            self.wf(),
            camera.wf(),
            world.wf(),
        ensures
            exists|pixels: Seq<Pixel>|
                self.is_image(*camera, world.store@, pixels) && r@ == #[trigger] image_text(
                    self.width as int,
                    self.height as int,
                    pixels,
                ),
    {
        let pixels = self.render(camera, world);
        let r = write_image(self.width, self.height, &pixels);
        assert(self.is_image(*camera, world.store@, pixels@) && r@ == image_text(
            self.width as int,
            self.height as int,
            pixels@,
        ));
        r
    }

    /// The image, row by row from the top, each row from the left.
    pub fn render(&self, camera: &Camera, world: &HittableStore) -> (r: Vec<Pixel>)
        requires
            self.wf(),
            camera.wf(),
            world.wf(),
        ensures
            self.is_image(*camera, world.store@, r@),
    {
        let mut image: Vec<Pixel> = Vec::new();
        let mut row: i32 = 0;
        while row < self.height
            invariant
                self.wf(),
                camera.wf(),
                world.wf(),
                0 <= row <= self.height,
                image@.len() == row * self.width,
                forall|y: int, x: int|
                    0 <= y < row && 0 <= x < self.width ==> self.is_pixel(
                        *camera,
                        world.store@,
                        x,
                        self.height - 1 - y,
                        #[trigger] image@[y * self.width + x],
                    ),
            decreases self.height - row,
        {
            let line = self.render_row(camera, world, self.height - 1 - row);
            proof {
                lemma_rows_appended(image@, line@, row as int, self.width as int);
                assert forall|y: int, x: int|
                    0 <= y < row + 1 && 0 <= x < self.width implies self.is_pixel(
                    *camera,
                    world.store@,
                    x,
                    self.height - 1 - y,
                    #[trigger] (image@ + line@)[y * self.width + x],
                ) by {
                    lemma_cell_index(y, x, row as int, self.width as int);
                    if y == row {
                        assert((image@ + line@)[y * self.width + x] == line@[x]);
                    } else {
                        assert((image@ + line@)[y * self.width + x] == image@[y * self.width
                            + x]);
                    }
                }
            }
            let mut line = line;
            image.append(&mut line);
            row = row + 1;
        }
        proof {
            assert(self.height * self.width == self.width * self.height) by (nonlinear_arith);
        }
        image
    }

    /// Row `j` of the image, counted from the bottom, from the left.
    pub fn render_row(&self, camera: &Camera, world: &HittableStore, j: i32) -> (r: Vec<Pixel>)
        requires
            self.wf(),
            camera.wf(),
            world.wf(),
            0 <= j < self.height,
        ensures
            r@.len() == self.width,
            forall|i: int|
                0 <= i < self.width ==> self.is_pixel(
                    *camera,
                    world.store@,
                    i,
                    j as int,
                    #[trigger] r@[i],
                ),
    {
        let mut line: Vec<Pixel> = Vec::new();
        let mut i: i32 = 0;
        while i < self.width
            invariant
                self.wf(),
                camera.wf(),
                world.wf(),
                0 <= j < self.height,
                0 <= i <= self.width,
                line@.len() == i,
                forall|x: int|
                    0 <= x < i ==> self.is_pixel(
                        *camera,
                        world.store@,
                        x,
                        j as int,
                        #[trigger] line@[x],
                    ),
            decreases self.width - i,
        {
            let p = self.pixel(camera, world, i, j);
            line.push(p);
            i = i + 1;
        }
        line
    }
}

/// The sum of a sequence with one more color is the sum plus that color.
pub proof fn lemma_total_push(colors: Seq<V3>, color: V3)
    ensures
        total(colors.push(color)) == total(colors).plus(color),
{
    assert(colors.push(color).drop_last() =~= colors);
}

/// The sum of `count` samples and one more.
fn accumulate(sum: Color, color: Color, count: i32) -> (r: Color)
    requires
        0 <= count < MAX_SAMPLES,
        0 <= sum@.x <= count * ONE,
        0 <= sum@.y <= count * ONE,
        0 <= sum@.z <= count * ONE,
        color@.is_fraction(),
    ensures
        r@ == sum@.plus(color@),
        0 <= r@.x <= (count + 1) * ONE,
        0 <= r@.y <= (count + 1) * ONE,
        0 <= r@.z <= (count + 1) * ONE,
{
    broadcast use Vec3::lemma_of_view;

    proof {
        assert(count * ONE + ONE <= 0x4000_0000) by (nonlinear_arith)
            requires
                count < 16384,
                ONE == 65536,
        ;
        assert((count + 1) * ONE == count * ONE + ONE) by (nonlinear_arith);
    }
    sum + color
}

/// The sum of colors that are all black is black.
pub proof fn lemma_total_of_black(colors: Seq<V3>)
    requires
        forall|k: int| 0 <= k < colors.len() ==> #[trigger] colors[k] == black(),
    ensures
        total(colors) == black(),
    decreases colors.len(),
{
    if colors.len() > 0 {
        assert forall|k: int| 0 <= k < colors.drop_last().len() implies #[trigger] colors.drop_last()[k]
            == black() by {
            assert(colors.drop_last()[k] == colors[k]);
        }
        lemma_total_of_black(colors.drop_last());
        assert(colors.last() == colors[colors.len() - 1]);
    }
}

/// Without depth the whole image is black: whatever the scene, the camera
/// and the random values, every pixel is (0, 0, 0).
pub proof fn lemma_pixel_without_depth(
    app: App,
    camera: Camera,
    scene: Seq<Sphere>,
    i: int,
    j: int,
    pixel: Pixel,
)
    requires
        app.wf(),
        app.max_depth <= 0,
        app.is_pixel(camera, scene, i, j, pixel),
    ensures
        pixel == (Pixel { r: 0, g: 0, b: 0 }),
{
    let colors = choose|colors: Seq<V3>|
        {
            &&& colors.len() == app.samples_per_pixel
            &&& forall|k: int|
                0 <= k < colors.len() ==> app.is_sample(camera, scene, i, j, #[trigger] colors[k])
            &&& pixel == #[trigger] quantized(total(colors), app.samples_per_pixel as int)
        };
    assert forall|k: int| 0 <= k < colors.len() implies #[trigger] colors[k] == black() by {
        assert(app.is_sample(camera, scene, i, j, colors[k]));
    }
    lemma_total_of_black(colors);
    let n = app.samples_per_pixel as int;
    assert(0int / n == 0) by (nonlinear_arith)
        requires
            n > 0,
    ;
    assert(channel(0, n) == 0);
}

/// In an empty scene, with some depth, every sample of a pixel is the
/// background in the direction of its ray: no random value but the place
/// of the sample within the pixel has a part in it.
pub proof fn lemma_sample_of_empty_scene(app: App, camera: Camera, i: int, j: int, color: V3)
    requires
        app.max_depth > 0,
        app.is_sample(camera, Seq::<Sphere>::empty(), i, j, color),
    ensures
        exists|du: int, dv: int|
            0 <= du < ONE && 0 <= dv < ONE && color == background(
                (#[trigger] app.ray_through(camera, i, j, du, dv)).direction@,
            ),
{
    let (du, dv, samples) = choose|du: int, dv: int, samples: Seq<Sample>|
        0 <= du < ONE && 0 <= dv < ONE && all_valid(samples) && color == #[trigger] radiance(
            Seq::<Sphere>::empty(),
            app.ray_through(camera, i, j, du, dv),
            app.max_depth as int,
            samples,
        );
    lemma_empty_scene_is_background(
        app.ray_through(camera, i, j, du, dv),
        app.max_depth as int,
        samples,
    );
    assert(0 <= du < ONE && 0 <= dv < ONE && color == background(
        app.ray_through(camera, i, j, du, dv).direction@,
    ));
}

/// Where the cell `(y, x)` of an image lies among its rows.
proof fn lemma_cell_index(y: int, x: int, rows: int, width: int)
    requires
        0 <= y <= rows,
        0 <= x < width,
    ensures
        y < rows ==> 0 <= y * width + x < rows * width,
        y == rows ==> y * width + x == rows * width + x,
        0 <= y * width + x,
{
    assert(0 <= y * width) by (nonlinear_arith)
        requires
            0 <= y,
            0 < width,
    ;
    if y < rows {
        assert(y * width + width <= rows * width) by (nonlinear_arith)
            requires
                y + 1 <= rows,
                0 < width,
        ;
    }
}

/// A row appended to `rows` rows makes one row more.
proof fn lemma_rows_appended(image: Seq<Pixel>, line: Seq<Pixel>, rows: int, width: int)
    requires
        image.len() == rows * width,
        line.len() == width,
    ensures
        (image + line).len() == (rows + 1) * width,
{
    assert((rows + 1) * width == rows * width + width) by (nonlinear_arith);
}

} // verus!
