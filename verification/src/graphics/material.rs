//! Surfaces and how they scatter light.

use vstd::prelude::*;
use core::ops::Neg;
use crate::algebra::fixed::{
    floor_sqrt, fx_div, fx_mul, fx_sqrt, is_floor_sqrt, lemma_floor_sqrt_exists,
    lemma_floor_sqrt_is, lemma_floor_sqrt_monotone, lemma_limit_squared, lemma_product_bound,
    lemma_quot_bound, lemma_quot_exact,
    lemma_quot_shrinks, lemma_times_bound, lemma_times_nonnegative, magnitude, product, quot,
    quotient, root, LIMIT, LIMIT_SQUARED, ONE,
};
use crate::algebra::vec3::{lemma_inner_bound, Color, V3, Vec3};
use crate::error::ConfigError;
use crate::graphics::hit::HitRecord;
use crate::graphics::ray::Ray;

verus! {

/// The smallest refractive index a dielectric may have: 1/2048.
pub const MIN_INDEX: i64 = 32;

/// The largest refractive index a dielectric may have: 2048.
pub const MAX_INDEX: i64 = 134217728;

/// What a surface makes of a ray: the color it lets through and the ray
/// that leaves it.
#[derive(Clone, Copy, Debug)]
pub struct Scatter {
    pub attenuation: Color,
    pub scattered: Ray,
}

/// A diffuse surface.
#[derive(Clone, Copy, Debug)]
pub struct Lambertian {
    pub albedo: Color,
}

/// A mirror, blurred by `fuzz`.
#[derive(Clone, Copy, Debug)]
pub struct Metal {
    pub albedo: Color,
    pub fuzz: i64,
}

/// A transparent surface such as glass or water.
#[derive(Clone, Copy, Debug)]
pub struct Dielectric {
    pub ref_idx: i64,
}

/// The surfaces a sphere can have.
#[derive(Clone, Copy, Debug)]
pub enum Material {
    Lambertian(Lambertian),
    Metal(Metal),
    Dielectric(Dielectric),
}

/// `fuzz` held to the range from zero to one.
pub open spec fn clamped_fuzz(fuzz: int) -> int {
    if fuzz < 0 {
        0
    } else if fuzz > ONE {
        ONE as int
    } else {
        fuzz
    }
}

impl Lambertian {
    pub open spec fn wf(self) -> bool {
        self.albedo@.is_fraction()
    }

    /// A diffuse surface of the given albedo, each channel of which must
    /// lie between zero and one.
    pub fn new(albedo: Color) -> (r: Result<Lambertian, ConfigError>)
        ensures
            albedo@.is_fraction() ==> r == Ok::<Lambertian, ConfigError>(Lambertian { albedo }),
            !albedo@.is_fraction() ==> r == Err::<Lambertian, ConfigError>(
                ConfigError::AlbedoOutOfRange,
            ),
            r is Ok ==> r->Ok_0.wf(),
    {
        if albedo.is_fraction() {
            Ok(Lambertian { albedo })
        } else {
            Err(ConfigError::AlbedoOutOfRange)
        }
    }
}

impl Metal {
    pub open spec fn wf(self) -> bool {
        self.albedo@.is_fraction() && 0 <= self.fuzz <= ONE
    }

    /// A metal of the given albedo, each channel of which must lie
    /// between zero and one. The fuzz is held to the same range.
    pub fn new(albedo: Color, fuzz: i64) -> (r: Result<Metal, ConfigError>)
        ensures
            albedo@.is_fraction() ==> r == Ok::<Metal, ConfigError>(
                Metal { albedo, fuzz: clamped_fuzz(fuzz as int) as i64 },
            ),
            !albedo@.is_fraction() ==> r == Err::<Metal, ConfigError>(
                ConfigError::AlbedoOutOfRange,
            ),
            r is Ok ==> r->Ok_0.wf(),
    {
        if !albedo.is_fraction() {
            return Err(ConfigError::AlbedoOutOfRange);
        }
        let held: i64 = if fuzz < 0 {
            0
        } else if fuzz > ONE {
            ONE
        } else {
            fuzz
        };
        Ok(Metal { albedo, fuzz: held })
    }
}

impl Dielectric {
    pub open spec fn wf(self) -> bool {
        MIN_INDEX <= self.ref_idx <= MAX_INDEX
    }

    /// A dielectric of the given refractive index, which must be positive
    /// and lie between `MIN_INDEX` and `MAX_INDEX`.
    pub fn new(ref_idx: i64) -> (r: Result<Dielectric, ConfigError>)
        ensures
            ref_idx <= 0 ==> r == Err::<Dielectric, ConfigError>(
                ConfigError::NonPositiveRefractiveIndex,
            ),
            0 < ref_idx && !(MIN_INDEX <= ref_idx <= MAX_INDEX) ==> r == Err::<
                Dielectric,
                ConfigError,
            >(ConfigError::RefractiveIndexOutOfRange),
            MIN_INDEX <= ref_idx <= MAX_INDEX ==> r == Ok::<Dielectric, ConfigError>(
                Dielectric { ref_idx },
            ),
            r is Ok ==> r->Ok_0.wf(),
    {
        if ref_idx <= 0 {
            Err(ConfigError::NonPositiveRefractiveIndex)
        } else if ref_idx < MIN_INDEX || ref_idx > MAX_INDEX {
            Err(ConfigError::RefractiveIndexOutOfRange)
        } else {
            Ok(Dielectric { ref_idx })
        }
    }
}

impl Material {
    pub open spec fn wf(self) -> bool {
        match self {
            Material::Lambertian(m) => m.wf(),
            Material::Metal(m) => m.wf(),
            Material::Dielectric(m) => m.wf(),
        }
    }
}

/// The mirror image of the direction `d` at a surface of normal `n`:
/// `d - 2 (d . n) n`, each component rounded once.
pub open spec fn reflected(d: V3, n: V3) -> V3 {
    let k = 2 * d.inner(n);
    V3 {
        x: d.x - quot(k * n.x, ONE * ONE),
        y: d.y - quot(k * n.y, ONE * ONE),
        z: d.z - quot(k * n.z, ONE * ONE),
    }
}

/// The square root of the scalar `a`, or of zero where `a` is negative.
pub open spec fn root_or_zero(a: int) -> int {
    if a < 0 {
        0
    } else {
        root(a)
    }
}

/// The direction `u` bent on entering a medium through a surface of
/// normal `n`, where `ratio` is the refractive index of the medium left
/// over that of the medium entered.
pub open spec fn refracted(u: V3, n: V3, ratio: int) -> V3 {
    let cos_theta = u.negated().dot(n);
    let parallel = u.plus(n.scaled(cos_theta)).scaled(ratio);
    let perpendicular = n.scaled(-root_or_zero(ONE - parallel.length_square()));
    parallel.plus(perpendicular)
}

/// The fifth power of the scalar `x`.
pub open spec fn fifth_power(x: int) -> int {
    let x2 = product(x, x);
    product(product(x2, x2), x)
}

/// The reflectance at normal incidence for the index ratio `ratio`.
pub open spec fn base_reflectance(ratio: int) -> int {
    let q = quotient(ONE - ratio, ONE + ratio);
    product(q, q)
}

/// Schlick's approximation of the share of light that a dielectric
/// reflects: `r0 + (1 - r0) (1 - cos)^5`.
pub open spec fn schlick(cos: int, ratio: int) -> int {
    let r0 = base_reflectance(ratio);
    r0 + product(ONE - r0, fifth_power(ONE - cos))
}

/// Scaling a bounded vector by a bounded scalar gives a bounded vector.
pub proof fn lemma_scaled_bound(v: V3, k: int, m: int, n: int)
    requires
        v.bounded(m),
        magnitude(k) <= n * ONE,
        0 <= n,
    ensures
        v.scaled(k).bounded(m * n),
{
    lemma_times_bound(v.x, k, m, n);
    lemma_times_bound(v.y, k, m, n);
    lemma_times_bound(v.z, k, m, n);
}

/// The root of a scalar no greater than one is no greater than one.
pub proof fn lemma_root_at_most_one(a: int)
    requires
        a <= ONE,
    ensures
        0 <= root_or_zero(a) <= ONE,
{
    if a >= 0 {
        assert(0 <= a * ONE <= ONE * ONE) by (nonlinear_arith)
            requires
                0 <= a <= ONE,
        ;
        lemma_floor_sqrt_exists(a * ONE);
        assert(is_floor_sqrt(ONE * ONE, ONE as int)) by (nonlinear_arith)
            requires
                ONE == 65536,
        ;
        lemma_floor_sqrt_monotone(a * ONE, ONE * ONE, floor_sqrt(a * ONE), ONE as int);
    }
}

/// Directions and normals no longer than a unit vector in any component
/// have a mirror image within seven units.
pub proof fn lemma_reflected_bound(d: V3, n: V3)
    requires
        d.bounded(ONE as int),
        n.bounded(ONE as int),
    ensures
        reflected(d, n).bounded(7 * ONE),
{
    lemma_inner_bound(d, n, ONE as int, ONE as int);
    let k = 2 * d.inner(n);
    lemma_product_bound(k, n.x, 6 * (ONE * ONE), ONE as int);
    lemma_product_bound(k, n.y, 6 * (ONE * ONE), ONE as int);
    lemma_product_bound(k, n.z, 6 * (ONE * ONE), ONE as int);
    assert((6 * (ONE * ONE)) * ONE == (6 * ONE) * magnitude(ONE * ONE)) by (nonlinear_arith)
        requires
            ONE == 65536,
    ;
    lemma_quot_bound(k * n.x, ONE * ONE, 6 * ONE);
    lemma_quot_bound(k * n.y, ONE * ONE, 6 * ONE);
    lemma_quot_bound(k * n.z, ONE * ONE, 6 * ONE);
}

/// The mirror image of the direction `uvec` at a surface of normal `nvec`.
/// Of vectors of unit length it reverses the part along the normal and
/// keeps the length, up to rounding.
pub fn reflect(uvec: Vec3, nvec: Vec3) -> (r: Vec3)
    requires
        reflected(uvec@, nvec@).bounded(LIMIT as int),
    ensures
        r@ == reflected(uvec@, nvec@),
        uvec@.is_unit() && nvec@.is_unit() ==> magnitude(r@.inner(nvec@) + uvec@.inner(nvec@))
            <= 12 * ONE && magnitude(r@.norm2() - uvec@.norm2()) <= 24 * ONE,
{
    proof {
        if uvec@.is_unit() && nvec@.is_unit() {
            lemma_reflection_reverses_dot_of_units(uvec@, nvec@);
            lemma_reflection_keeps_length_of_units(uvec@, nvec@);
        }
    }
    let k: i128 = 2 * uvec.inner(nvec);
    let nx: i128 = nvec.x() as i128;
    let ny: i128 = nvec.y() as i128;
    let nz: i128 = nvec.z() as i128;
    proof {
        lemma_limit_squared();
        lemma_product_bound(k as int, nx as int, 6 * LIMIT_SQUARED, LIMIT as int);
        lemma_product_bound(k as int, ny as int, 6 * LIMIT_SQUARED, LIMIT as int);
        lemma_product_bound(k as int, nz as int, 6 * LIMIT_SQUARED, LIMIT as int);
        lemma_quot_shrinks(k * nx, ONE * ONE, (6 * LIMIT_SQUARED) * LIMIT);
        lemma_quot_shrinks(k * ny, ONE * ONE, (6 * LIMIT_SQUARED) * LIMIT);
        lemma_quot_shrinks(k * nz, ONE * ONE, (6 * LIMIT_SQUARED) * LIMIT);
    }
    let rx: i128 = (uvec.x() as i128) - (k * nx) / 0x1_0000_0000;
    let ry: i128 = (uvec.y() as i128) - (k * ny) / 0x1_0000_0000;
    let rz: i128 = (uvec.z() as i128) - (k * nz) / 0x1_0000_0000;
    match Vec3::narrowed(rx, ry, rz) {
        Some(v) => v,
        None => uvec,
    }
}

/// The direction `uvec` bent at a surface of normal `nvec`. Of a unit
/// direction that meets a surface of unit normal from outside, the bent
/// direction points into the surface and has unit length, up to rounding,
/// and between media of equal index it is the direction itself, up to
/// rounding.
pub fn refract(uvec: Vec3, nvec: Vec3, etai_over_etat: i64) -> (r: Vec3)
    requires
        uvec@.bounded(ONE as int),
        nvec@.bounded(ONE as int),
        0 <= etai_over_etat <= MAX_INDEX,
    ensures
        r@ == refracted(uvec@, nvec@, etai_over_etat as int),
        uvec@.is_unit() && nvec@.is_unit() && uvec@.inner(nvec@) <= 0 ==> {
            &&& r@.inner(nvec@) <= 9 * etai_over_etat + 6 * ONE - depth_part(
                uvec@,
                nvec@,
                etai_over_etat as int,
            ) * (ONE - 4)
            &&& parallel_part(uvec@, nvec@, etai_over_etat as int).length_square() <= ONE
                ==> magnitude(r@.norm2() - ONE * ONE) <= 18 * etai_over_etat + 25 * ONE
            &&& etai_over_etat == ONE ==> r@.minus(uvec@).bounded(1307)
        },
{
    broadcast use Vec3::lemma_of_view;

    proof {
        if uvec@.is_unit() && nvec@.is_unit() && uvec@.inner(nvec@) <= 0 {
            lemma_refraction_enters(uvec@, nvec@, etai_over_etat as int);
            if parallel_part(uvec@, nvec@, etai_over_etat as int).length_square() <= ONE {
                lemma_refraction_keeps_length(uvec@, nvec@, etai_over_etat as int);
            }
            if etai_over_etat == ONE {
                lemma_refraction_without_bending(uvec@, nvec@);
            }
        }
    }

    let ghost u = uvec@;
    let ghost n = nvec@;
    let neg = uvec.neg();
    proof {
        lemma_inner_bound(u.negated(), n, ONE as int, ONE as int);
        assert(3 * (ONE * ONE) == (3 * ONE) * magnitude(ONE as int)) by (nonlinear_arith)
            requires
                ONE == 65536,
        ;
        lemma_quot_bound(u.negated().inner(n), ONE as int, 3 * ONE);
    }
    let cos_theta: i64 = neg.dot(nvec);
    proof {
        lemma_scaled_bound(n, cos_theta as int, ONE as int, 3);
    }
    let along = nvec * cos_theta;
    let sum = uvec + along;
    proof {
        lemma_scaled_bound(sum@, etai_over_etat as int, 4 * ONE, 2048);
    }
    let r_out_parallel = sum * etai_over_etat;
    let under: i64 = ONE - r_out_parallel.length_square();
    proof {
        lemma_root_at_most_one(under as int);
    }
    let depth: i64 = if under < 0 {
        0
    } else {
        fx_sqrt(under)
    };
    proof {
        lemma_scaled_bound(n, -depth, ONE as int, 1);
    }
    let r_out_perp = nvec * (-depth);
    r_out_parallel + r_out_perp
}

/// The reflectance at normal incidence is a share between zero and one.
pub proof fn lemma_base_reflectance_bound(ratio: int)
    requires
        0 <= ratio,
    ensures
        0 <= base_reflectance(ratio) <= ONE,
        -ONE <= quotient(ONE - ratio, ONE + ratio) <= ONE,
{
    let num = (ONE - ratio) * ONE;
    assert(magnitude(num) <= ONE * magnitude(ONE + ratio)) by (nonlinear_arith)
        requires
            num == (ONE - ratio) * ONE,
            0 <= ratio,
            ONE == 65536,
    ;
    lemma_quot_bound(num, ONE + ratio, ONE as int);
    let q = quotient(ONE - ratio, ONE + ratio);
    lemma_times_bound(q, q, ONE as int, 1);
    assert(0 <= q * q) by (nonlinear_arith);
    let x = q * q;
    assert(0 <= x / 65536) by (nonlinear_arith)
        requires
            0 <= x,
    ;
}

/// The fifth power of a scalar between zero and four lies between zero
/// and 1024.
pub proof fn lemma_fifth_power_bound(x: int)
    requires
        0 <= x <= 4 * ONE,
    ensures
        0 <= product(x, x) <= 16 * ONE,
        0 <= product(product(x, x), product(x, x)) <= 256 * ONE,
        0 <= fifth_power(x) <= 1024 * ONE,
{
    let x2 = product(x, x);
    lemma_times_bound(x, x, 4 * ONE, 4);
    lemma_times_nonnegative(x, x);
    let x4 = product(x2, x2);
    lemma_times_bound(x2, x2, 16 * ONE, 16);
    lemma_times_nonnegative(x2, x2);
    lemma_times_bound(x4, x, 256 * ONE, 4);
    lemma_times_nonnegative(x4, x);
}

/// Schlick's approximation of the share of light reflected at an angle of
/// cosine `cos`, for the index ratio `ref_idx`.
pub fn schlick_approx(cos: i64, ref_idx: i64) -> (r: i64)
    requires
        -3 * ONE <= cos <= ONE,
        0 <= ref_idx <= MAX_INDEX,
    ensures
        r == schlick(cos as int, ref_idx as int),
        0 <= r <= 1025 * ONE,
{
    proof {
        lemma_base_reflectance_bound(ref_idx as int);
        lemma_fifth_power_bound(ONE - cos);
    }
    let q: i64 = fx_div(ONE - ref_idx, ONE + ref_idx);
    let r0: i64 = fx_mul(q, q);
    let x: i64 = ONE - cos;
    let x2: i64 = fx_mul(x, x);
    let x4: i64 = fx_mul(x2, x2);
    let x5: i64 = fx_mul(x4, x);
    proof {
        lemma_times_bound(ONE - r0, x5 as int, ONE as int, 1024);
        lemma_times_nonnegative(ONE - r0, x5 as int);
    }
    r0 + fx_mul(ONE - r0, x5)
}

/// The random values one scattering may use: a vector of the unit
/// sphere, a vector of the unit ball and a share between zero and one.
pub ghost struct Sample {
    pub unit: V3,
    pub ball: V3,
    pub fraction: int,
}

impl Sample {
    /// Each value is one that can be drawn: the first has unit length, up
    /// to rounding, the second is shorter than one, and the share lies
    /// between zero and one.
    pub open spec fn valid(self) -> bool {
        self.unit.is_on_unit_sphere() && self.ball.is_in_unit_ball() && 0 <= self.fraction < ONE
    }

    /// The sample of a diffuse surface, which uses the vector of the unit
    /// sphere alone; the other values are fixed.
    pub open spec fn of_unit(unit: V3) -> Sample {
        Sample { unit, ball: V3 { x: 0, y: 0, z: 0 }, fraction: 0 }
    }

    /// The sample of a metal, which uses the vector of the unit ball alone.
    pub open spec fn of_ball(ball: V3) -> Sample {
        Sample { unit: V3 { x: ONE as int, y: 0, z: 0 }, ball, fraction: 0 }
    }

    /// The sample of a dielectric, which uses the share alone.
    pub open spec fn of_fraction(fraction: int) -> Sample {
        Sample { unit: V3 { x: ONE as int, y: 0, z: 0 }, ball: V3 { x: 0, y: 0, z: 0 }, fraction }
    }
}

/// The fixed values of a sample are ones that can be drawn.
pub proof fn lemma_fixed_sample_values()
    ensures
        (V3 { x: ONE as int, y: 0, z: 0 }).is_on_unit_sphere(),
        (V3 { x: 0, y: 0, z: 0 }).is_in_unit_ball(),
{
    assert(ONE * ONE == 0x1_0000_0000 && (ONE - 6) * (ONE - 6) <= ONE * ONE < (ONE + 1) * (ONE
        + 1)) by (nonlinear_arith)
        requires
            ONE == 65536,
    ;
    assert(0int * 0int == 0);
}

/// The color white.
pub open spec fn white() -> V3 {
    V3 { x: ONE as int, y: ONE as int, z: ONE as int }
}

/// The scattering that leaves `point` in the direction `direction`.
pub open spec fn scattering(attenuation: Color, point: Vec3, direction: V3) -> Scatter {
    Scatter { attenuation, scattered: Ray { origin: point, direction: Vec3::of(direction) } }
}

impl Lambertian {
    /// The normal plus a vector of the unit sphere, or the normal alone
    /// where the two cancel.
    pub open spec fn scatter_direction(normal: V3, unit: V3) -> V3 {
        if normal.plus(unit).is_zero() {
            normal
        } else {
            normal.plus(unit)
        }
    }

    /// A diffuse surface always scatters, and lets through its albedo.
    pub open spec fn scatter_spec(self, rec: HitRecord, unit: V3) -> Option<Scatter> {
        Some(scattering(self.albedo, rec.point, Self::scatter_direction(rec.normal@, unit)))
    }

    /// The scattering for the vector `unit` of the unit sphere.
    pub fn scatter_with(&self, hit_record: &HitRecord, unit: Vec3) -> (r: Option<Scatter>)
        requires
            self.wf(),
            hit_record.wf(),
            unit@.bounded(ONE as int),
        ensures
            r == self.scatter_spec(*hit_record, unit@),
            r is Some,
            r->Some_0.attenuation@.is_fraction(),
            !hit_record.normal@.is_zero() ==> !r->Some_0.scattered.direction@.is_zero(),
    {
        broadcast use Vec3::lemma_of_view, Vec3::lemma_view_of;

        let sum = hit_record.normal + unit;
        let scatter_dir = if sum.is_zero() {
            hit_record.normal
        } else {
            sum
        };
        Some(Scatter { attenuation: self.albedo, scattered: Ray::new(hit_record.point, scatter_dir) })
    }

    /// The scattering of `ray` for a random vector of the unit sphere.
    pub fn scatter(&self, ray: Ray, hit_record: &HitRecord) -> (r: Option<Scatter>)
        requires
            self.wf(),
            hit_record.wf(),
        ensures
            exists|unit: V3|
                unit.is_on_unit_sphere() && r == #[trigger] self.scatter_spec(*hit_record, unit),
            r is Some,
            r->Some_0.attenuation@.is_fraction(),
    {
        let unit = Vec3::random_unit_vector();
        let r = self.scatter_with(hit_record, unit);
        assert(r == self.scatter_spec(*hit_record, unit@));
        r
    }
}

impl Metal {
    /// The mirror image of the ray, moved by `fuzz` times a vector of
    /// the unit ball.
    pub open spec fn scatter_direction(self, ray: Ray, rec: HitRecord, ball: V3) -> V3 {
        reflected(ray.direction@.unit(), rec.normal@).plus(ball.scaled(self.fuzz as int))
    }

    /// A metal scatters where the moved mirror image leaves the surface,
    /// and absorbs the ray where it would enter it. A ray without
    /// direction is absorbed.
    pub open spec fn scatter_spec(self, ray: Ray, rec: HitRecord, ball: V3) -> Option<Scatter> {
        if ray.direction@.is_zero() {
            None
        } else if self.scatter_direction(ray, rec, ball).inner(rec.normal@) > 0 {
            Some(scattering(self.albedo, rec.point, self.scatter_direction(ray, rec, ball)))
        } else {
            None
        }
    }

    /// The scattering of `ray` for the vector `ball` of the unit ball.
    pub fn scatter_with(&self, ray: Ray, hit_record: &HitRecord, ball: Vec3) -> (r: Option<
        Scatter,
    >)
        requires
            self.wf(),
            hit_record.wf(),
            ball@.bounded(ONE as int),
        ensures
            r == self.scatter_spec(ray, *hit_record, ball@),
            r is Some ==> r->Some_0.attenuation@.is_fraction(),
            r is Some ==> r->Some_0.scattered.direction@.inner(hit_record.normal@) > 0,
    {
        broadcast use Vec3::lemma_of_view, Vec3::lemma_view_of;

        if ray.direction().is_zero() {
            return None;
        }
        let unit = Vec3::unit_vector(ray.direction());
        proof {
            lemma_reflected_bound(unit@, hit_record.normal@);
            lemma_scaled_bound(ball@, self.fuzz as int, ONE as int, 1);
        }
        let reflected = reflect(unit, hit_record.normal);
        let moved = ball * self.fuzz;
        let direction = reflected + moved;
        if direction.inner(hit_record.normal) > 0 {
            Some(Scatter { attenuation: self.albedo, scattered: Ray::new(hit_record.point, direction) })
        } else {
            None
        }
    }

    /// The scattering of `ray` for a random vector of the unit ball.
    pub fn scatter(&self, ray: Ray, hit_record: &HitRecord) -> (r: Option<Scatter>)
        requires
            self.wf(),
            hit_record.wf(),
        ensures
            exists|ball: V3|
                ball.is_in_unit_ball() && r == #[trigger] self.scatter_spec(
                    ray,
                    *hit_record,
                    ball,
                ),
            r is Some ==> r->Some_0.attenuation@.is_fraction(),
    {
        let ball = Vec3::random_in_unit_sphere();
        let r = self.scatter_with(ray, hit_record, ball);
        assert(r == self.scatter_spec(ray, *hit_record, ball@));
        r
    }
}

impl Dielectric {
    /// The refractive index of the medium the ray leaves over that of
    /// the medium it enters.
    pub open spec fn refraction_ratio(self, front_face: bool) -> int {
        if front_face {
            quotient(ONE as int, self.ref_idx as int)
        } else {
            self.ref_idx as int
        }
    }

    /// The cosine of the angle between the ray and the normal, at most one.
    pub open spec fn cos_theta(unit: V3, normal: V3) -> int {
        if unit.negated().dot(normal) < ONE {
            unit.negated().dot(normal)
        } else {
            ONE as int
        }
    }

    /// Whether the ray is reflected: always where no refracted ray
    /// exists, else with the probability that Schlick's approximation
    /// gives, decided by `fraction`.
    pub open spec fn reflects(self, unit: V3, rec: HitRecord, fraction: int) -> bool {
        let ratio = self.refraction_ratio(rec.front_face);
        let cos = Self::cos_theta(unit, rec.normal@);
        let sin = root_or_zero(ONE - product(cos, cos));
        product(ratio, sin) > ONE || fraction < schlick(cos, ratio)
    }

    /// The direction in which the ray leaves.
    pub open spec fn scatter_direction(self, ray: Ray, rec: HitRecord, fraction: int) -> V3 {
        let unit = ray.direction@.unit();
        if self.reflects(unit, rec, fraction) {
            reflected(unit, rec.normal@)
        } else {
            refracted(unit, rec.normal@, self.refraction_ratio(rec.front_face))
        }
    }

    /// A dielectric lets all light through, reflected or refracted. A
    /// ray without direction is absorbed.
    pub open spec fn scatter_spec(self, ray: Ray, rec: HitRecord, fraction: int) -> Option<
        Scatter,
    > {
        if ray.direction@.is_zero() {
            None
        } else {
            Some(
                scattering(
                    Vec3::of(white()),
                    rec.point,
                    self.scatter_direction(ray, rec, fraction),
                ),
            )
        }
    }

    /// The scattering of `ray` for the share `fraction`.
    pub fn scatter_with(&self, ray: Ray, hit_record: &HitRecord, fraction: i64) -> (r: Option<
        Scatter,
    >)
        requires
            self.wf(),
            hit_record.wf(),
            0 <= fraction < ONE,
        ensures
            r == self.scatter_spec(ray, *hit_record, fraction as int),
            r is Some ==> r->Some_0.attenuation@.is_fraction(),
    {
        broadcast use Vec3::lemma_of_view, Vec3::lemma_view_of;

        if ray.direction().is_zero() {
            return None;
        }
        proof {
            assert(magnitude(ONE * ONE) <= MAX_INDEX * magnitude(self.ref_idx as int))
                by (nonlinear_arith)
                requires
                    32 <= self.ref_idx,
                    MAX_INDEX == 134217728,
                    ONE == 65536,
            ;
            lemma_quot_bound(ONE * ONE, self.ref_idx as int, MAX_INDEX as int);
            assert(0 <= magnitude(ONE * ONE) / magnitude(self.ref_idx as int)) by (nonlinear_arith)
                requires
                    32 <= self.ref_idx,
                    ONE == 65536,
            ;
        }
        let etai_over_etat: i64 = if hit_record.front_face {
            fx_div(ONE, self.ref_idx)
        } else {
            self.ref_idx
        };
        let unit_direction = Vec3::unit_vector(ray.direction());
        let normal = hit_record.normal;
        let neg = unit_direction.neg();
        proof {
            lemma_inner_bound(unit_direction@.negated(), normal@, ONE as int, ONE as int);
            assert(3 * (ONE * ONE) == (3 * ONE) * magnitude(ONE as int)) by (nonlinear_arith)
                requires
                    ONE == 65536,
            ;
            lemma_quot_bound(unit_direction@.negated().inner(normal@), ONE as int, 3 * ONE);
        }
        let d: i64 = neg.dot(normal);
        let cos_theta: i64 = if d < ONE {
            d
        } else {
            ONE
        };
        proof {
            lemma_times_bound(cos_theta as int, cos_theta as int, 3 * ONE, 3);
            assert(0 <= cos_theta * cos_theta) by (nonlinear_arith);
            let sq = cos_theta * cos_theta;
            assert(0 <= sq / 65536) by (nonlinear_arith)
                requires
                    0 <= sq,
            ;
        }
        let under: i64 = ONE - fx_mul(cos_theta, cos_theta);
        proof {
            lemma_root_at_most_one(under as int);
        }
        let sin_theta: i64 = if under < 0 {
            0
        } else {
            fx_sqrt(under)
        };
        proof {
            lemma_times_bound(etai_over_etat as int, sin_theta as int, MAX_INDEX as int, 1);
            lemma_reflected_bound(unit_direction@, normal@);
        }
        let white = Vec3::new(ONE, ONE, ONE);
        if fx_mul(etai_over_etat, sin_theta) > ONE {
            return Some(get_reflected(unit_direction, hit_record));
        }
        let reflect_prob: i64 = schlick_approx(cos_theta, etai_over_etat);
        if fraction < reflect_prob {
            return Some(get_reflected(unit_direction, hit_record));
        }
        let refracted = refract(unit_direction, normal, etai_over_etat);
        Some(Scatter { attenuation: white, scattered: Ray::new(hit_record.point, refracted) })
    }

    /// The scattering of `ray` for a random share.
    pub fn scatter(&self, ray: Ray, hit_record: &HitRecord) -> (r: Option<Scatter>)
        requires
            self.wf(),
            hit_record.wf(),
        ensures
            exists|fraction: int|
                0 <= fraction < ONE && r == #[trigger] self.scatter_spec(
                    ray,
                    *hit_record,
                    fraction,
                ),
            r is Some ==> r->Some_0.attenuation@.is_fraction(),
    {
        let fraction: i64 = crate::algebra::utility::random_fraction();
        let r = self.scatter_with(ray, hit_record, fraction);
        assert(r == self.scatter_spec(ray, *hit_record, fraction as int));
        r
    }
}

/// The scattering that mirrors the unit direction `unit_direction` and
/// lets all light through.
fn get_reflected(unit_direction: Vec3, hit_record: &HitRecord) -> (r: Scatter)
    requires
        unit_direction@.bounded(ONE as int),
        hit_record.wf(),
    ensures
        r == scattering(
            Vec3::of(white()),
            hit_record.point,
            reflected(unit_direction@, hit_record.normal@),
        ),
        r.attenuation@.is_fraction(),
{
    broadcast use Vec3::lemma_of_view, Vec3::lemma_view_of;

    proof {
        lemma_reflected_bound(unit_direction@, hit_record.normal@);
    }
    let reflected = reflect(unit_direction, hit_record.normal);
    Scatter {
        scattered: Ray::new(hit_record.point, reflected),
        attenuation: Vec3::new(ONE, ONE, ONE),
    }
}

impl Material {
    /// What the surface makes of `ray` for the random values `sample`.
    pub open spec fn scatter_spec(self, ray: Ray, rec: HitRecord, sample: Sample) -> Option<
        Scatter,
    > {
        match self {
            Material::Lambertian(m) => m.scatter_spec(rec, sample.unit),
            Material::Metal(m) => m.scatter_spec(ray, rec, sample.ball),
            Material::Dielectric(m) => m.scatter_spec(ray, rec, sample.fraction),
        }
    }

    /// What the surface makes of `ray`: the ray that leaves it and the
    /// color it lets through, or nothing where it absorbs the ray.
    pub fn scatter(&self, ray: Ray, hit_record: &HitRecord) -> (r: Option<Scatter>)
        requires
            self.wf(),
            hit_record.wf(),
        ensures
            exists|sample: Sample|
                sample.valid() && r == #[trigger] self.scatter_spec(ray, *hit_record, sample),
            r is Some ==> r->Some_0.attenuation@.is_fraction(),
    {
        proof {
            lemma_fixed_sample_values();
        }
        match self {
            Material::Lambertian(m) => {
                let r = m.scatter(ray, hit_record);
                proof {
                    let unit = choose|unit: V3|
                        unit.is_on_unit_sphere() && r == #[trigger] m.scatter_spec(
                            *hit_record,
                            unit,
                        );
                    let sample = Sample::of_unit(unit);
                    assert(sample.valid() && r == self.scatter_spec(ray, *hit_record, sample));
                }
                r
            },
            Material::Metal(m) => {
                let r = m.scatter(ray, hit_record);
                proof {
                    let ball = choose|ball: V3|
                        ball.is_in_unit_ball() && r == #[trigger] m.scatter_spec(
                            ray,
                            *hit_record,
                            ball,
                        );
                    let sample = Sample::of_ball(ball);
                    assert(sample.valid() && r == self.scatter_spec(ray, *hit_record, sample));
                }
                r
            },
            Material::Dielectric(m) => {
                let r = m.scatter(ray, hit_record);
                proof {
                    let fraction = choose|fraction: int|
                        0 <= fraction < ONE && r == #[trigger] m.scatter_spec(
                            ray,
                            *hit_record,
                            fraction,
                        );
                    let sample = Sample::of_fraction(fraction);
                    assert(sample.valid() && r == self.scatter_spec(ray, *hit_record, sample));
                }
                r
            },
        }
    }
}

/// A scalar times zero is zero, and times one is itself.
pub proof fn lemma_times_zero_and_one(a: int)
    ensures
        product(a, 0) == 0,
        product(0, a) == 0,
        product(a, ONE as int) == a,
        product(a, -ONE) == -a,
{
    assert(a * 0 == 0 && 0 * a == 0) by (nonlinear_arith);
    lemma_quot_exact(a, ONE as int);
    lemma_quot_exact(-a, ONE as int);
    assert(a * (-ONE) == (-a) * ONE) by (nonlinear_arith);
}

/// A metal without fuzz is a mirror: whatever vector of the unit ball is
/// drawn, the scattered direction is the mirror image of the ray's unit
/// direction.
pub proof fn lemma_polished_metal_mirrors(metal: Metal, ray: Ray, rec: HitRecord, ball: V3)
    requires
        metal.fuzz == 0,
    ensures
        metal.scatter_direction(ray, rec, ball) == reflected(ray.direction@.unit(), rec.normal@),
{
    lemma_times_zero_and_one(ball.x);
    lemma_times_zero_and_one(ball.y);
    lemma_times_zero_and_one(ball.z);
}

/// Between media of equal refractive index no light is reflected at
/// normal incidence.
pub proof fn lemma_no_reflectance_between_equal_media()
    ensures
        schlick(ONE as int, ONE as int) == 0,
        base_reflectance(ONE as int) == 0,
{
    assert(0int / 131072 == 0);
    lemma_times_zero_and_one(0);
    lemma_times_zero_and_one(ONE as int);
}

/// A dielectric of refractive index one has the index ratio one on either
/// side of its surface.
pub proof fn lemma_unit_index_ratio(glass: Dielectric, front_face: bool)
    requires
        glass.ref_idx == ONE,
    ensures
        glass.refraction_ratio(front_face) == ONE,
{
    lemma_quot_exact(ONE as int, ONE as int);
}

/// A ray that meets a surface along its normal passes straight through,
/// whatever the ratio of the refractive indices: with a normal of exactly
/// unit length, the refracted direction is the incident direction.
pub proof fn lemma_refraction_at_normal_incidence(n: V3, ratio: int)
    requires
        n.norm2() == ONE * ONE,
    ensures
        refracted(n.negated(), n, ratio) == n.negated(),
{
    let u = n.negated();
    assert(u.negated() == n);
    lemma_quot_exact(ONE as int, ONE as int);
    assert(u.negated().dot(n) == ONE);
    lemma_times_zero_and_one(n.x);
    lemma_times_zero_and_one(n.y);
    lemma_times_zero_and_one(n.z);
    assert(n.scaled(ONE as int) == n);
    let zero = V3 { x: 0, y: 0, z: 0 };
    assert(u.plus(n.scaled(ONE as int)) == zero);
    lemma_times_zero_and_one(ratio);
    assert(zero.scaled(ratio) == zero);
    assert(zero.norm2() == 0) by (nonlinear_arith)
        requires
            zero.x == 0 && zero.y == 0 && zero.z == 0,
            zero.norm2() == zero.x * zero.x + zero.y * zero.y + zero.z * zero.z,
    ;
    assert(zero.length_square() == 0);
    assert(crate::algebra::fixed::is_floor_sqrt(ONE * ONE, ONE as int)) by (nonlinear_arith)
        requires
            ONE == 65536,
    ;
    lemma_floor_sqrt_is(ONE * ONE, ONE as int);
    assert(root_or_zero(ONE as int) == ONE);
    assert(n.scaled(-ONE) == u);
}

/// A quotient times its divisor misses the dividend by less than the
/// divisor.
pub proof fn lemma_quot_remainder(a: int, b: int)
    requires
        b > 0,
    ensures
        -b < a - b * quot(a, b) < b,
{
    let x = magnitude(a);
    assert(0 <= x - b * (x / b) < b) by (nonlinear_arith)
        requires
            0 <= x,
            b > 0,
    ;
    assert(b * (-(x / b)) == -(b * (x / b))) by (nonlinear_arith);
}

/// The product of a remainder and a component is bounded by the divisor
/// times the component's magnitude.
proof fn lemma_remainder_times(e: int, c: int, b: int)
    requires
        -b < e < b,
    ensures
        -(b * magnitude(c)) <= e * c <= b * magnitude(c),
{
    lemma_product_bound(e, c, b, magnitude(c));
}

/// How far the mirror image is from reversing the part of a direction
/// along the normal: the sum of the two inner products, plus what the
/// normal's length adds where it is not one, is bounded by the rounding of
/// the three components.
pub proof fn lemma_reflection_dot_balance(d: V3, n: V3)
    ensures
        -((ONE * ONE) * (magnitude(n.x) + magnitude(n.y) + magnitude(n.z))) <= (ONE * ONE) * (
        reflected(d, n).inner(n) + d.inner(n)) + (2 * d.inner(n)) * (n.norm2() - ONE * ONE) <= (ONE
            * ONE) * (magnitude(n.x) + magnitude(n.y) + magnitude(n.z)),
{
    let b = ONE * ONE;
    let k = 2 * d.inner(n);
    let qx = quot(k * n.x, b);
    let qy = quot(k * n.y, b);
    let qz = quot(k * n.z, b);
    let ex = k * n.x - b * qx;
    let ey = k * n.y - b * qy;
    let ez = k * n.z - b * qz;
    assert(b == 0x1_0000_0000) by (nonlinear_arith)
        requires
            b == ONE * ONE,
            ONE == 65536,
    ;
    lemma_quot_remainder(k * n.x, b);
    lemma_quot_remainder(k * n.y, b);
    lemma_quot_remainder(k * n.z, b);
    let r = reflected(d, n);
    let s = r.inner(n) + d.inner(n);
    assert(r.inner(n) == d.inner(n) - (qx * n.x + qy * n.y + qz * n.z)) by (nonlinear_arith)
        requires
            r.x == d.x - qx,
            r.y == d.y - qy,
            r.z == d.z - qz,
            r.inner(n) == r.x * n.x + r.y * n.y + r.z * n.z,
            d.inner(n) == d.x * n.x + d.y * n.y + d.z * n.z,
    ;
    let (tx, ty, tz) = (qx * n.x, qy * n.y, qz * n.z);
    let (sx, sy, sz) = (n.x * n.x, n.y * n.y, n.z * n.z);
    assert(b * tx == k * sx - ex * n.x) by (nonlinear_arith)
        requires
            ex == k * n.x - b * qx,
            tx == qx * n.x,
            sx == n.x * n.x,
    ;
    assert(b * ty == k * sy - ey * n.y) by (nonlinear_arith)
        requires
            ey == k * n.y - b * qy,
            ty == qy * n.y,
            sy == n.y * n.y,
    ;
    assert(b * tz == k * sz - ez * n.z) by (nonlinear_arith)
        requires
            ez == k * n.z - b * qz,
            tz == qz * n.z,
            sz == n.z * n.z,
    ;
    assert(b * (tx + ty + tz) == b * tx + b * ty + b * tz) by (nonlinear_arith);
    assert(k * (sx + sy + sz) == k * sx + k * sy + k * sz) by (nonlinear_arith);
    let nu = n.norm2() - b;
    assert(sx + sy + sz == b + nu);
    assert(k * (b + nu) == k * b + k * nu) by (nonlinear_arith);
    let half = d.inner(n);
    assert(b * s == b * (2 * half) - b * (tx + ty + tz)) by (nonlinear_arith)
        requires
            s == 2 * half - (tx + ty + tz),
    ;
    assert(b * (2 * half) == k * b) by (nonlinear_arith)
        requires
            k == 2 * half,
    ;
    assert(b * s + k * nu == ex * n.x + ey * n.y + ez * n.z);
    lemma_remainder_times(ex, n.x, b);
    lemma_remainder_times(ey, n.y, b);
    lemma_remainder_times(ez, n.z, b);
    let l = magnitude(n.x) + magnitude(n.y) + magnitude(n.z);
    assert(-(b * l) <= b * s + k * nu <= b * l) by (nonlinear_arith)
        requires
            b * s + k * nu == ex * n.x + ey * n.y + ez * n.z,
            -(b * magnitude(n.x)) <= ex * n.x <= b * magnitude(n.x),
            -(b * magnitude(n.y)) <= ey * n.y <= b * magnitude(n.y),
            -(b * magnitude(n.z)) <= ez * n.z <= b * magnitude(n.z),
            l == magnitude(n.x) + magnitude(n.y) + magnitude(n.z),
    ;
}

/// Reflection reverses the part of a direction along the normal: for a
/// normal of exactly unit length, the inner product of the mirror image
/// with the normal is the negated inner product of the direction with the
/// normal, up to the rounding of the three components.
pub proof fn lemma_reflection_reverses_dot(d: V3, n: V3)
    requires
        n.norm2() == ONE * ONE,
    ensures
        magnitude(reflected(d, n).inner(n) + d.inner(n)) <= magnitude(n.x) + magnitude(n.y)
            + magnitude(n.z),
{
    lemma_reflection_dot_balance(d, n);
    let b = ONE * ONE;
    let s = reflected(d, n).inner(n) + d.inner(n);
    let l = magnitude(n.x) + magnitude(n.y) + magnitude(n.z);
    let k = 2 * d.inner(n);
    assert(k * 0 == 0) by (nonlinear_arith);
    assert(-l <= s <= l) by (nonlinear_arith)
        requires
            -(b * l) <= b * s <= b * l,
            b == ONE * ONE,
            ONE == 65536,
    ;
}

/// A vector of unit length, up to rounding, has no component beyond one,
/// and its squared length misses one by at most four units of the last
/// place of a scalar.
pub proof fn lemma_unit_facts(n: V3)
    requires
        n.is_unit(),
    ensures
        n.bounded(ONE as int),
        -(4 * ONE) <= n.norm2() - ONE * ONE <= 4 * ONE,
        ONE * ONE == 0x1_0000_0000,
{
    assert(ONE * ONE == 0x1_0000_0000 && (ONE + 1) * (ONE + 1) == 0x1_0002_0001 && (ONE - 2) * (ONE
        - 2) == 0xFFFC_0004) by (nonlinear_arith)
        requires
            ONE == 65536,
    ;
    crate::algebra::vec3::lemma_norm2_dominates(n);
    lemma_below_square(n.x, ONE + 1);
    lemma_below_square(n.y, ONE + 1);
    lemma_below_square(n.z, ONE + 1);
}

/// What has a square below that of a bound is below the bound in
/// magnitude.
proof fn lemma_below_square(t: int, u: int)
    requires
        t * t < u * u,
        0 <= u,
    ensures
        -u < t < u,
{
    if t >= u {
        assert(t * t >= u * u) by (nonlinear_arith)
            requires
                t >= u,
                u >= 0,
        ;
    }
    if t <= -u {
        assert(t * t >= u * u) by (nonlinear_arith)
            requires
                t <= -u,
                u >= 0,
        ;
    }
}

/// The inner product of two vectors of unit length, up to rounding, is at
/// most the square of `ONE + 1` in magnitude.
pub proof fn lemma_inner_of_units(d: V3, n: V3)
    requires
        d.is_unit(),
        n.is_unit(),
    ensures
        magnitude(d.inner(n)) <= (ONE + 1) * (ONE + 1),
        (ONE + 1) * (ONE + 1) == 0x1_0002_0001,
{
    lemma_unit_facts(d);
    lemma_unit_facts(n);
    crate::algebra::vec3::lemma_inner_squared(d, n);
    crate::algebra::vec3::lemma_norm2_dominates(d);
    crate::algebra::vec3::lemma_norm2_dominates(n);
    let top = (ONE + 1) * (ONE + 1);
    assert(top == 0x1_0002_0001) by (nonlinear_arith)
        requires
            top == (ONE + 1) * (ONE + 1),
            ONE == 65536,
    ;
    let (x, y) = (d.norm2(), n.norm2());
    assert(x * y <= top * top) by (nonlinear_arith)
        requires
            0 <= x <= top,
            0 <= y <= top,
    ;
    crate::algebra::vec3::lemma_root_monotone(d.inner(n), top);
}

/// Reflection reverses the part of a direction along the normal, also for
/// the normals that a hit gives: where the direction and the normal have
/// unit length up to rounding, the two inner products add up to no more
/// than twelve units of the last place of a dot product.
pub proof fn lemma_reflection_reverses_dot_of_units(d: V3, n: V3)
    requires
        d.is_unit(),
        n.is_unit(),
    ensures
        magnitude(reflected(d, n).inner(n) + d.inner(n)) <= 12 * ONE,
{
    lemma_reflection_dot_balance(d, n);
    lemma_unit_facts(n);
    lemma_inner_of_units(d, n);
    let b = ONE * ONE;
    let s = reflected(d, n).inner(n) + d.inner(n);
    let l = magnitude(n.x) + magnitude(n.y) + magnitude(n.z);
    let k = 2 * d.inner(n);
    let nu = n.norm2() - b;
    lemma_product_bound(k, nu, 0x2_0004_0002int, 4 * ONE);
    assert(0x2_0004_0002int * (4 * ONE) == 0x8_0010_0008_0000) by (nonlinear_arith)
        requires
            ONE == 65536,
    ;
    assert(b * l <= 0x3_0000_0000_0000) by (nonlinear_arith)
        requires
            b == 0x1_0000_0000,
            0 <= l <= 3 * 65536,
    ;
    assert(-(12 * ONE) <= s <= 12 * ONE) by (nonlinear_arith)
        requires
            -(0x3_0000_0000_0000 + 0x8_0010_0008_0000) <= b * s <= 0x3_0000_0000_0000
                + 0x8_0010_0008_0000,
            b == 0x1_0000_0000,
            ONE == 65536,
    ;
}

/// One component of the square of `b * d - k * n`.
proof fn lemma_square_of_difference(b: int, d: int, k: int, n: int, w: int)
    requires
        w == b * d - k * n,
    ensures
        w * w == (b * b) * (d * d) - (2 * b * k) * (d * n) + (k * k) * (n * n),
{
    let p = b * d;
    let q = k * n;
    assert(w * w == p * p - 2 * (p * q) + q * q) by (nonlinear_arith)
        requires
            w == p - q,
    ;
    assert(p * p == (b * b) * (d * d)) by (nonlinear_arith)
        requires
            p == b * d,
    ;
    assert(q * q == (k * k) * (n * n)) by (nonlinear_arith)
        requires
            q == k * n,
    ;
    let bk = b * k;
    let dn = d * n;
    assert(p * q == bk * dn) by (nonlinear_arith)
        requires
            p == b * d,
            q == k * n,
            bk == b * k,
            dn == d * n,
    ;
    assert((2 * b * k) * dn == 2 * (bk * dn)) by (nonlinear_arith)
        requires
            bk == b * k,
    ;
}

/// One component of `b * b * r * r` where `b * r == w + e`.
proof fn lemma_square_of_rounded(b: int, r: int, w: int, e: int)
    requires
        b * r == w + e,
    ensures
        (b * b) * (r * r) == w * w + (2 * b) * (r * e) - e * e,
{
    let br = b * r;
    assert((b * b) * (r * r) == br * br) by (nonlinear_arith)
        requires
            br == b * r,
    ;
    assert(br * br == w * w + 2 * (w * e) + e * e) by (nonlinear_arith)
        requires
            br == w + e,
    ;
    assert(w * e == b * (r * e) - e * e) by (nonlinear_arith)
        requires
            w == b * r - e,
    ;
    assert((2 * b) * (r * e) == 2 * (b * (r * e))) by (nonlinear_arith);
}

/// How far the mirror image is from keeping the length of a direction:
/// the difference of the squared lengths, less what the normal's length
/// adds where it is not one, is bounded by the rounding of the three
/// components.
pub proof fn lemma_reflection_length_balance(d: V3, n: V3)
    ensures
        ({
            let r = reflected(d, n);
            let bb = (ONE * ONE) * (ONE * ONE);
            let extra = ((2 * d.inner(n)) * (2 * d.inner(n))) * (n.norm2() - ONE * ONE);
            let slack = bb * (2 * (magnitude(r.x) + magnitude(r.y) + magnitude(r.z)) + 3);
            -slack <= bb * (r.norm2() - d.norm2()) - extra <= slack
        }),
{
    let b = ONE * ONE;
    assert(b == 0x1_0000_0000) by (nonlinear_arith)
        requires
            b == ONE * ONE,
            ONE == 65536,
    ;
    let h = d.inner(n);
    let k = 2 * h;
    let r = reflected(d, n);
    let (qx, qy, qz) = (quot(k * n.x, b), quot(k * n.y, b), quot(k * n.z, b));
    let (ex, ey, ez) = (k * n.x - b * qx, k * n.y - b * qy, k * n.z - b * qz);
    lemma_quot_remainder(k * n.x, b);
    lemma_quot_remainder(k * n.y, b);
    lemma_quot_remainder(k * n.z, b);
    let (wx, wy, wz) = (b * d.x - k * n.x, b * d.y - k * n.y, b * d.z - k * n.z);
    assert(b * r.x == wx + ex && b * r.y == wy + ey && b * r.z == wz + ez) by (nonlinear_arith)
        requires
            r.x == d.x - qx,
            r.y == d.y - qy,
            r.z == d.z - qz,
            ex == k * n.x - b * qx,
            ey == k * n.y - b * qy,
            ez == k * n.z - b * qz,
            wx == b * d.x - k * n.x,
            wy == b * d.y - k * n.y,
            wz == b * d.z - k * n.z,
    ;
    lemma_square_of_difference(b, d.x, k, n.x, wx);
    lemma_square_of_difference(b, d.y, k, n.y, wy);
    lemma_square_of_difference(b, d.z, k, n.z, wz);
    lemma_square_of_rounded(b, r.x, wx, ex);
    lemma_square_of_rounded(b, r.y, wy, ey);
    lemma_square_of_rounded(b, r.z, wz, ez);
    let bb = b * b;
    let (dx2, dy2, dz2) = (d.x * d.x, d.y * d.y, d.z * d.z);
    let (nx2, ny2, nz2) = (n.x * n.x, n.y * n.y, n.z * n.z);
    let (dnx, dny, dnz) = (d.x * n.x, d.y * n.y, d.z * n.z);
    let (rx2, ry2, rz2) = (r.x * r.x, r.y * r.y, r.z * r.z);
    let m = 2 * b * k;
    let kk = k * k;
    assert(bb * (dx2 + dy2 + dz2) == bb * dx2 + bb * dy2 + bb * dz2) by (nonlinear_arith);
    assert(m * (dnx + dny + dnz) == m * dnx + m * dny + m * dnz) by (nonlinear_arith);
    assert(kk * (nx2 + ny2 + nz2) == kk * nx2 + kk * ny2 + kk * nz2) by (nonlinear_arith);
    assert(bb * (rx2 + ry2 + rz2) == bb * rx2 + bb * ry2 + bb * rz2) by (nonlinear_arith);
    assert(m * h == kk * b) by (nonlinear_arith)
        requires
            m == 2 * b * k,
            kk == k * k,
            k == 2 * h,
    ;
    assert(dnx + dny + dnz == h);
    let nu = n.norm2() - b;
    assert(nx2 + ny2 + nz2 == b + nu);
    assert(kk * (b + nu) == kk * b + kk * nu) by (nonlinear_arith);
    let ww = wx * wx + wy * wy + wz * wz;
    assert(ww == bb * d.norm2() + kk * nu);
    let (tx, ty, tz) = (r.x * ex, r.y * ey, r.z * ez);
    let two_b = 2 * b;
    assert(two_b * (tx + ty + tz) == two_b * tx + two_b * ty + two_b * tz) by (nonlinear_arith);
    let ee = ex * ex + ey * ey + ez * ez;
    assert(bb * r.norm2() == ww + two_b * (tx + ty + tz) - ee);
    lemma_product_bound(ex, ex, b, b);
    lemma_product_bound(ey, ey, b, b);
    lemma_product_bound(ez, ez, b, b);
    assert(0 <= ex * ex && 0 <= ey * ey && 0 <= ez * ez) by (nonlinear_arith);
    lemma_product_bound(r.x, ex, magnitude(r.x), b);
    lemma_product_bound(r.y, ey, magnitude(r.y), b);
    lemma_product_bound(r.z, ez, magnitude(r.z), b);
    let l = magnitude(r.x) + magnitude(r.y) + magnitude(r.z);
    assert(l * b == magnitude(r.x) * b + magnitude(r.y) * b + magnitude(r.z) * b)
        by (nonlinear_arith)
        requires
            l == magnitude(r.x) + magnitude(r.y) + magnitude(r.z),
    ;
    let t = tx + ty + tz;
    assert(-(l * b) <= t <= l * b);
    let delta = r.norm2() - d.norm2();
    let rest = bb * delta - kk * nu;
    assert(rest == two_b * t - ee) by (nonlinear_arith)
        requires
            bb * r.norm2() == bb * d.norm2() + kk * nu + two_b * t - ee,
            delta == r.norm2() - d.norm2(),
            rest == bb * delta - kk * nu,
    ;
    assert(-(bb * (2 * l + 3)) <= rest <= bb * (2 * l + 3)) by (nonlinear_arith)
        requires
            rest == two_b * t - ee,
            two_b == 2 * b,
            bb == b * b,
            -(l * b) <= t <= l * b,
            0 <= ee <= 3 * (b * b),
            b > 0,
            l >= 0,
    ;
}

/// Reflection keeps the length of a direction: for a normal of exactly
/// unit length, the squared length of the mirror image is that of the
/// direction, up to the rounding of the three components.
pub proof fn lemma_reflection_keeps_length(d: V3, n: V3)
    requires
        n.norm2() == ONE * ONE,
    ensures
        magnitude(reflected(d, n).norm2() - d.norm2()) <= 2 * (magnitude(reflected(d, n).x)
            + magnitude(reflected(d, n).y) + magnitude(reflected(d, n).z)) + 3,
{
    lemma_reflection_length_balance(d, n);
    let r = reflected(d, n);
    let b = ONE * ONE;
    let bb = b * b;
    let kk = (2 * d.inner(n)) * (2 * d.inner(n));
    let l = magnitude(r.x) + magnitude(r.y) + magnitude(r.z);
    let delta = r.norm2() - d.norm2();
    assert(kk * 0 == 0) by (nonlinear_arith);
    assert(bb > 0) by (nonlinear_arith)
        requires
            bb == (ONE * ONE) * (ONE * ONE),
            ONE == 65536,
    ;
    assert(-(2 * l + 3) <= delta <= 2 * l + 3) by (nonlinear_arith)
        requires
            -(bb * (2 * l + 3)) <= bb * delta <= bb * (2 * l + 3),
            bb > 0,
    ;
}

/// Reflection keeps the length of a direction, also for the normals that
/// a hit gives: where the direction and the normal have unit length up to
/// rounding, the squared lengths of the mirror image and of the direction
/// differ by no more than 24 units of the last place of a scalar.
pub proof fn lemma_reflection_keeps_length_of_units(d: V3, n: V3)
    requires
        d.is_unit(),
        n.is_unit(),
    ensures
        magnitude(reflected(d, n).norm2() - d.norm2()) <= 24 * ONE,
{
    lemma_reflection_length_balance(d, n);
    lemma_unit_facts(d);
    lemma_unit_facts(n);
    lemma_inner_of_units(d, n);
    lemma_reflected_bound(d, n);
    let r = reflected(d, n);
    let b = ONE * ONE;
    let bb = b * b;
    let k = 2 * d.inner(n);
    let kk = k * k;
    let nu = n.norm2() - b;
    let l = magnitude(r.x) + magnitude(r.y) + magnitude(r.z);
    let delta = r.norm2() - d.norm2();
    lemma_product_bound(k, k, 0x2_0004_0002int, 0x2_0004_0002int);
    assert(0 <= kk) by (nonlinear_arith)
        requires
            kk == k * k,
    ;
    let top = 0x2_0004_0002int * 0x2_0004_0002int;
    lemma_product_bound(kk, nu, top, 4 * ONE);
    assert(top * (4 * ONE) <= bb * (17 * ONE)) by (nonlinear_arith)
        requires
            top == 0x2_0004_0002int * 0x2_0004_0002int,
            bb == (ONE * ONE) * (ONE * ONE),
            ONE == 65536,
    ;
    assert(bb > 0) by (nonlinear_arith)
        requires
            bb == (ONE * ONE) * (ONE * ONE),
            ONE == 65536,
    ;
    assert(bb * (2 * l + 3) <= bb * (43 * ONE)) by (nonlinear_arith)
        requires
            0 <= l <= 21 * ONE,
            bb > 0,
            ONE == 65536,
    ;
    assert(-(60 * ONE) <= delta <= 60 * ONE) by (nonlinear_arith)
        requires
            -(bb * (43 * ONE) + bb * (17 * ONE)) <= bb * delta <= bb * (43 * ONE) + bb * (17
                * ONE),
            bb > 0,
    ;
    // The mirror image is thus nearly of unit length, which bounds its
    // components more closely.
    assert((ONE + 1) * (ONE + 1) + 60 * ONE < (ONE + 32) * (ONE + 32)) by (nonlinear_arith)
        requires
            ONE == 65536,
    ;
    crate::algebra::vec3::lemma_norm2_dominates(r);
    lemma_below_square(r.x, ONE + 32);
    lemma_below_square(r.y, ONE + 32);
    lemma_below_square(r.z, ONE + 32);
    assert(bb * (2 * l + 3) <= bb * (7 * ONE)) by (nonlinear_arith)
        requires
            0 <= l <= 3 * (ONE + 31),
            bb > 0,
            ONE == 65536,
    ;
    assert(-(24 * ONE) <= delta <= 24 * ONE) by (nonlinear_arith)
        requires
            -(bb * (7 * ONE) + bb * (17 * ONE)) <= bb * delta <= bb * (7 * ONE) + bb * (17 * ONE),
            bb > 0,
    ;
}

/// The tangential part of a direction: the direction plus the normal
/// times the cosine of the angle between them, as `refracted` computes it.
pub open spec fn tangential(u: V3, n: V3) -> V3 {
    u.plus(n.scaled(u.negated().dot(n)))
}

/// The squared length of the tangential part is one less the squared
/// cosine, up to 23 units of the last place of a scalar.
proof fn lemma_tangential_length(u: V3, n: V3)
    requires
        u.is_unit(),
        n.is_unit(),
        u.inner(n) <= 0,
    ensures
        ({
            let c = u.negated().dot(n);
            &&& 0 <= c <= ONE + 2
            &&& -(23 * ONE) <= tangential(u, n).norm2() - (ONE * ONE - c * c) <= 23 * ONE
        }),
{
    lemma_unit_facts(u);
    lemma_unit_facts(n);
    lemma_inner_of_units(u, n);
    crate::graphics::hit::lemma_inner_negated(u, n);
    let b = ONE * ONE;
    let h = u.inner(n);
    let m = -h;
    let c = u.negated().dot(n);
    assert(c == m / 65536);
    let rho = m - c * ONE;
    assert(0 <= rho < ONE && 0 <= c <= ONE + 2);
    let g = n.scaled(c);
    let s = tangential(u, n);
    lemma_quot_remainder(n.x * c, ONE as int);
    lemma_quot_remainder(n.y * c, ONE as int);
    lemma_quot_remainder(n.z * c, ONE as int);
    let e = V3 { x: n.x * c - ONE * g.x, y: n.y * c - ONE * g.y, z: n.z * c - ONE * g.z };
    let v = V3 { x: ONE * u.x + n.x * c, y: ONE * u.y + n.y * c, z: ONE * u.z + n.z * c };
    let scaled = V3 { x: ONE * s.x, y: ONE * s.y, z: ONE * s.z };
    assert(scaled == v.minus(e)) by {
        assert(ONE * (u.x + g.x) == ONE * u.x + ONE * g.x) by (nonlinear_arith);
        assert(ONE * (u.y + g.y) == ONE * u.y + ONE * g.y) by (nonlinear_arith);
        assert(ONE * (u.z + g.z) == ONE * u.z + ONE * g.z) by (nonlinear_arith);
    }
    // The squared length of the unrounded tangential part.
    crate::graphics::sphere::lemma_scaled_sum_square(ONE as int, u.x, n.x, c, v.x);
    crate::graphics::sphere::lemma_scaled_sum_square(ONE as int, u.y, n.y, c, v.y);
    crate::graphics::sphere::lemma_scaled_sum_square(ONE as int, u.z, n.z, c, v.z);
    let (ux2, uy2, uz2) = (u.x * u.x, u.y * u.y, u.z * u.z);
    let (nx2, ny2, nz2) = (n.x * n.x, n.y * n.y, n.z * n.z);
    let (unx, uny, unz) = (u.x * n.x, u.y * n.y, u.z * n.z);
    let mix = 2 * ONE * c;
    let cc = c * c;
    assert(b * (ux2 + uy2 + uz2) == b * ux2 + b * uy2 + b * uz2) by (nonlinear_arith);
    assert(mix * (unx + uny + unz) == mix * unx + mix * uny + mix * unz) by (nonlinear_arith);
    assert(cc * (nx2 + ny2 + nz2) == cc * nx2 + cc * ny2 + cc * nz2) by (nonlinear_arith);
    let v2 = v.norm2();
    let (uu, nn) = (u.norm2(), n.norm2());
    assert(v2 == b * uu + mix * h + cc * nn);
    let (nu_u, nu_n) = (uu - b, nn - b);
    assert(mix * h == -(2 * (b * cc)) - (2 * ONE) * (c * rho)) by (nonlinear_arith)
        requires
            mix == 2 * ONE * c,
            h == -(c * ONE + rho),
            cc == c * c,
            b == ONE * ONE,
    ;
    assert(b * uu == b * b + b * nu_u) by (nonlinear_arith)
        requires
            uu == b + nu_u,
    ;
    assert(cc * nn == b * cc + cc * nu_n) by (nonlinear_arith)
        requires
            nn == b + nu_n,
    ;
    let first = b * nu_u - (2 * ONE) * (c * rho) + cc * nu_n;
    assert(v2 == b * b - b * cc + first);
    lemma_product_bound(b, nu_u, b, 4 * ONE);
    lemma_product_bound(c, rho, ONE + 2, ONE as int);
    lemma_product_bound(c, c, ONE + 2, ONE + 2);
    assert(0 <= cc) by (nonlinear_arith)
        requires
            cc == c * c,
    ;
    lemma_product_bound(cc, nu_n, (ONE + 2) * (ONE + 2), 4 * ONE);
    assert(0 <= c * rho) by (nonlinear_arith)
        requires
            0 <= c,
            0 <= rho,
    ;
    assert(b == 0x1_0000_0000 && (ONE + 2) * ONE == 0x1_0002_0000 && (ONE + 2) * (ONE + 2)
        == 0x1_0004_0004 && b * (4 * ONE) == 0x4_0000_0000_0000 && 0x1_0004_0004int * (4 * ONE)
        == 0x4_0010_0010_0000) by (nonlinear_arith)
        requires
            b == ONE * ONE,
            ONE == 65536,
    ;
    assert(-0x4_0010_0010_0000 - 0x4_0000_0000_0000 - 2 * ONE * 0x1_0002_0000 <= first
        <= 0x4_0010_0010_0000 + 0x4_0000_0000_0000);
    // What rounding takes.
    lemma_product_bound(ONE as int, u.x, ONE as int, ONE as int);
    lemma_product_bound(ONE as int, u.y, ONE as int, ONE as int);
    lemma_product_bound(ONE as int, u.z, ONE as int, ONE as int);
    lemma_product_bound(n.x, c, ONE as int, ONE + 2);
    lemma_product_bound(n.y, c, ONE as int, ONE + 2);
    lemma_product_bound(n.z, c, ONE as int, ONE + 2);
    assert(ONE * (ONE + 2) == 0x1_0002_0000 && 0x2_0002_0000int * ONE == 0x2_0002_0000_0000)
        by (nonlinear_arith)
        requires
            ONE == 65536,
    ;
    lemma_product_bound(v.x, e.x, 0x2_0002_0000, ONE as int);
    lemma_product_bound(v.y, e.y, 0x2_0002_0000, ONE as int);
    lemma_product_bound(v.z, e.z, 0x2_0002_0000, ONE as int);
    lemma_product_bound(e.x, e.x, ONE as int, ONE as int);
    lemma_product_bound(e.y, e.y, ONE as int, ONE as int);
    lemma_product_bound(e.z, e.z, ONE as int, ONE as int);
    assert(0 <= e.x * e.x && 0 <= e.y * e.y && 0 <= e.z * e.z) by (nonlinear_arith);
    crate::algebra::vec3::lemma_sum_square(v.x, e.x);
    crate::algebra::vec3::lemma_sum_square(v.y, e.y);
    crate::algebra::vec3::lemma_sum_square(v.z, e.z);
    let ve = v.x * e.x + v.y * e.y + v.z * e.z;
    let e2 = e.norm2();
    assert(scaled.norm2() == v2 - 2 * ve + e2);
    crate::algebra::vec3::lemma_square_of_product(ONE as int, s.x);
    crate::algebra::vec3::lemma_square_of_product(ONE as int, s.y);
    crate::algebra::vec3::lemma_square_of_product(ONE as int, s.z);
    let ss = s.norm2();
    let (sx2, sy2, sz2) = (s.x * s.x, s.y * s.y, s.z * s.z);
    assert(b * (sx2 + sy2 + sz2) == b * sx2 + b * sy2 + b * sz2) by (nonlinear_arith);
    assert(scaled.norm2() == b * ss);
    let off = ss - (b - cc);
    assert(b * off == first - 2 * ve + e2) by (nonlinear_arith)
        requires
            b * ss == b * b - b * cc + first - 2 * ve + e2,
            off == ss - (b - cc),
    ;
    assert(-(23 * ONE) <= off <= 23 * ONE) by (nonlinear_arith)
        requires
            -(0x17_0000_0000_0000) <= b * off <= 0x17_0000_0000_0000,
            b == 0x1_0000_0000,
            ONE == 65536,
    ;
}

/// The difference of two scalars times one component of a unit vector.
proof fn lemma_scaled_difference(n: int, c: int, rt: int)
    requires
        -ONE <= n <= ONE,
    ensures
        magnitude(product(n, c) + product(n, -rt)) <= magnitude(c - rt) + 1,
{
    let q1 = quot(n * c, ONE as int);
    let q2 = quot(n * (-rt), ONE as int);
    lemma_quot_remainder(n * c, ONE as int);
    lemma_quot_remainder(n * (-rt), ONE as int);
    let t = c - rt;
    assert(n * c + n * (-rt) == n * t) by (nonlinear_arith)
        requires
            t == c - rt,
    ;
    lemma_product_bound(n, t, ONE as int, magnitude(t));
    let sum = q1 + q2;
    let mt = magnitude(t);
    assert(-(mt + 1) <= sum <= mt + 1) by (nonlinear_arith)
        requires
            -(ONE * mt) - 2 * ONE < ONE * sum < ONE * mt + 2 * ONE,
            ONE == 65536,
    ;
}

/// Between media of equal refractive index nothing bends: a ray of unit
/// direction that meets a surface from outside leaves it in the direction
/// it came in, up to rounding. The rounding is that of a square root near
/// zero where the ray grazes the surface, so the bound falls with the
/// cosine `c` of the angle of incidence: each component differs by no
/// more than 1307 units of the last place, and by no more than one plus
/// 26 over the cosine.
pub proof fn lemma_refraction_without_bending(u: V3, n: V3)
    requires
        u.is_unit(),
        n.is_unit(),
        u.inner(n) <= 0,
    ensures
        refracted(u, n, ONE as int).minus(u).bounded(1307),
        ({
            let c = u.negated().dot(n);
            let off = refracted(u, n, ONE as int).minus(u);
            &&& c * (magnitude(off.x) - 1) <= 26 * ONE
            &&& c * (magnitude(off.y) - 1) <= 26 * ONE
            &&& c * (magnitude(off.z) - 1) <= 26 * ONE
        }),
{
    lemma_tangential_length(u, n);
    lemma_unit_facts(n);
    let b = ONE * ONE;
    let c = u.negated().dot(n);
    let s = tangential(u, n);
    lemma_times_zero_and_one(s.x);
    lemma_times_zero_and_one(s.y);
    lemma_times_zero_and_one(s.z);
    let p = s.scaled(ONE as int);
    assert(p == s);
    crate::algebra::vec3::lemma_norm2_dominates(s);
    let ss = s.norm2();
    let ls = s.length_square();
    assert(ls == ss / 65536);
    let x = ONE - ls;
    let rt = root_or_zero(x);
    lemma_root_at_most_one(x);
    let cc = c * c;
    let gap = x * ONE - cc;
    assert(-(23 * ONE) <= gap < 24 * ONE);
    assert(0 <= cc) by (nonlinear_arith)
        requires
            cc == c * c,
    ;
    let rr = rt * rt;
    if x >= 0 {
        assert(0 <= x * ONE) by (nonlinear_arith)
            requires
                0 <= x,
        ;
        lemma_floor_sqrt_exists(x * ONE);
        assert(rr <= x * ONE < rr + 2 * rt + 1) by (nonlinear_arith)
            requires
                rt * rt <= x * ONE < (rt + 1) * (rt + 1),
                rr == rt * rt,
        ;
    } else {
        assert(x * ONE < 0) by (nonlinear_arith)
            requires
                x < 0,
        ;
        assert(rr == 0) by (nonlinear_arith)
            requires
                rr == rt * rt,
                rt == 0,
        ;
    }
    assert(-(26 * ONE) <= rr - cc <= 26 * ONE);
    let t = c - rt;
    let tt = t * t;
    assert(tt <= 26 * ONE && c * magnitude(t) <= 26 * ONE) by (nonlinear_arith)
        requires
            tt == t * t,
            t == c - rt,
            0 <= c,
            0 <= rt,
            -(26 * ONE) <= rt * rt - c * c <= 26 * ONE,
            t >= 0 ==> magnitude(t) == t,
            t < 0 ==> magnitude(t) == -t,
    ;
    assert(tt <= 1306 * 1306) by (nonlinear_arith)
        requires
            tt <= 26 * ONE,
            ONE == 65536,
    ;
    crate::algebra::vec3::lemma_root_monotone(t, 1306);
    let out = refracted(u, n, ONE as int);
    lemma_scaled_difference(n.x, c, rt);
    lemma_scaled_difference(n.y, c, rt);
    lemma_scaled_difference(n.z, c, rt);
    let off = out.minus(u);
    assert(off.x == product(n.x, c) + product(n.x, -rt));
    assert(off.y == product(n.y, c) + product(n.y, -rt));
    assert(off.z == product(n.z, c) + product(n.z, -rt));
    let mt = magnitude(t);
    assert(c * (magnitude(off.x) - 1) <= 26 * ONE && c * (magnitude(off.y) - 1) <= 26 * ONE && c
        * (magnitude(off.z) - 1) <= 26 * ONE) by (nonlinear_arith)
        requires
            0 <= c,
            c * mt <= 26 * ONE,
            magnitude(off.x) - 1 <= mt,
            magnitude(off.y) - 1 <= mt,
            magnitude(off.z) - 1 <= mt,
    ;
}

/// The sum of the magnitudes of the components.
pub open spec fn taxicab(v: V3) -> int {
    magnitude(v.x) + magnitude(v.y) + magnitude(v.z)
}

/// Scaling a vector scales its inner products, up to the rounding of the
/// three components.
pub proof fn lemma_scaled_inner(v: V3, k: int, w: V3)
    ensures
        magnitude(ONE * v.scaled(k).inner(w) - k * v.inner(w)) <= ONE * taxicab(w),
{
    let q = v.scaled(k);
    lemma_quot_remainder(v.x * k, ONE as int);
    lemma_quot_remainder(v.y * k, ONE as int);
    lemma_quot_remainder(v.z * k, ONE as int);
    let (ex, ey, ez) = (v.x * k - ONE * q.x, v.y * k - ONE * q.y, v.z * k - ONE * q.z);
    lemma_scaled_term(v.x, k, w.x, q.x, ex);
    lemma_scaled_term(v.y, k, w.y, q.y, ey);
    lemma_scaled_term(v.z, k, w.z, q.z, ez);
    lemma_remainder_times(ex, w.x, ONE as int);
    lemma_remainder_times(ey, w.y, ONE as int);
    lemma_remainder_times(ez, w.z, ONE as int);
    let (a, b, c) = (q.x * w.x, q.y * w.y, q.z * w.z);
    let (f, g, h) = (v.x * w.x, v.y * w.y, v.z * w.z);
    assert(ONE * (a + b + c) == ONE * a + ONE * b + ONE * c) by (nonlinear_arith);
    assert(k * (f + g + h) == k * f + k * g + k * h) by (nonlinear_arith);
    let l = taxicab(w);
    assert(ONE * l == ONE * magnitude(w.x) + ONE * magnitude(w.y) + ONE * magnitude(w.z))
        by (nonlinear_arith)
        requires
            l == magnitude(w.x) + magnitude(w.y) + magnitude(w.z),
    ;
}

/// One term of the inner product of a scaled vector.
proof fn lemma_scaled_term(v: int, k: int, w: int, q: int, e: int)
    requires
        e == v * k - ONE * q,
    ensures
        ONE * (q * w) == k * (v * w) - e * w,
{
    assert(ONE * (q * w) == k * (v * w) - e * w) by (nonlinear_arith)
        requires
            e == v * k - ONE * q,
    ;
}

/// Scaling a vector scales its squared length, up to the rounding of the
/// three components.
pub proof fn lemma_scaled_length(v: V3, k: int)
    ensures
        -((2 * magnitude(k)) * (ONE * taxicab(v))) <= (ONE * ONE) * v.scaled(k).norm2() - (k * k)
            * v.norm2() <= (2 * magnitude(k)) * (ONE * taxicab(v)) + 3 * (ONE * ONE),
{
    let q = v.scaled(k);
    lemma_quot_remainder(v.x * k, ONE as int);
    lemma_quot_remainder(v.y * k, ONE as int);
    lemma_quot_remainder(v.z * k, ONE as int);
    let (ex, ey, ez) = (v.x * k - ONE * q.x, v.y * k - ONE * q.y, v.z * k - ONE * q.z);
    lemma_scaled_square(v.x, k, q.x, ex);
    lemma_scaled_square(v.y, k, q.y, ey);
    lemma_scaled_square(v.z, k, q.z, ez);
    let b = ONE * ONE;
    let kk = k * k;
    let (qx2, qy2, qz2) = (q.x * q.x, q.y * q.y, q.z * q.z);
    let (vx2, vy2, vz2) = (v.x * v.x, v.y * v.y, v.z * v.z);
    assert(b * (qx2 + qy2 + qz2) == b * qx2 + b * qy2 + b * qz2) by (nonlinear_arith);
    assert(kk * (vx2 + vy2 + vz2) == kk * vx2 + kk * vy2 + kk * vz2) by (nonlinear_arith);
    let l = taxicab(v);
    let mk = magnitude(k);
    let scale = (2 * mk) * ONE;
    assert(scale * l == scale * magnitude(v.x) + scale * magnitude(v.y) + scale * magnitude(v.z))
        by (nonlinear_arith)
        requires
            l == magnitude(v.x) + magnitude(v.y) + magnitude(v.z),
    ;
    assert((2 * mk) * (ONE * l) == scale * l) by (nonlinear_arith)
        requires
            scale == (2 * mk) * ONE,
    ;
}

/// One term of the squared length of a scaled vector.
proof fn lemma_scaled_square(v: int, k: int, q: int, e: int)
    requires
        e == v * k - ONE * q,
        -ONE < e < ONE,
    ensures
        -(((2 * magnitude(k)) * ONE) * magnitude(v)) <= (ONE * ONE) * (q * q) - (k * k) * (v * v)
            <= ((2 * magnitude(k)) * ONE) * magnitude(v) + ONE * ONE,
{
    let vk = v * k;
    let oq = ONE * q;
    assert(oq * oq == vk * vk - 2 * (vk * e) + e * e) by (nonlinear_arith)
        requires
            oq == vk - e,
    ;
    assert(oq * oq == (ONE * ONE) * (q * q)) by (nonlinear_arith)
        requires
            oq == ONE * q,
    ;
    assert(vk * vk == (k * k) * (v * v)) by (nonlinear_arith)
        requires
            vk == v * k,
    ;
    let (mv, mk) = (magnitude(v), magnitude(k));
    lemma_product_bound(v, k, mv, mk);
    lemma_product_bound(vk, e, mv * mk, ONE as int);
    assert((mv * mk) * ONE == (mk * ONE) * mv) by (nonlinear_arith);
    assert(((2 * mk) * ONE) * mv == 2 * ((mk * ONE) * mv)) by (nonlinear_arith);
    lemma_product_bound(e, e, ONE as int, ONE as int);
    assert(0 <= e * e) by (nonlinear_arith);
}

/// A scalar times a negated scalar is the negated product.
pub proof fn lemma_times_negated(a: int, b: int)
    ensures
        product(a, -b) == -product(a, b),
{
    assert(a * (-b) == -(a * b)) by (nonlinear_arith);
}

/// The part of the refracted direction along the surface: the tangential
/// part of the incident direction times the ratio of the indices.
pub open spec fn parallel_part(u: V3, n: V3, ratio: int) -> V3 {
    tangential(u, n).scaled(ratio)
}

/// How far the refracted direction reaches into the surface: the root of
/// one less the squared length of the part along the surface.
pub open spec fn depth_part(u: V3, n: V3, ratio: int) -> int {
    root_or_zero(ONE - parallel_part(u, n, ratio).length_square())
}

/// The part of the refracted direction along the surface is at right
/// angles to the normal, up to rounding.
proof fn lemma_parallel_is_tangential(u: V3, n: V3, ratio: int)
    requires
        u.is_unit(),
        n.is_unit(),
        u.inner(n) <= 0,
        0 <= ratio <= MAX_INDEX,
    ensures
        magnitude(parallel_part(u, n, ratio).inner(n)) <= 9 * ratio + 3 * ONE,
{
    lemma_unit_facts(u);
    lemma_unit_facts(n);
    lemma_inner_of_units(u, n);
    crate::graphics::hit::lemma_inner_negated(u, n);
    let b = ONE * ONE;
    let h = u.inner(n);
    let c = u.negated().dot(n);
    assert(c == (-h) / 65536);
    let rho = -h - c * ONE;
    let g = n.scaled(c);
    let s = tangential(u, n);
    let nn = n.norm2();
    let nu = nn - b;
    lemma_scaled_inner(n, c, n);
    let gn = g.inner(n);
    let sn = s.inner(n);
    assert(sn == h + gn) by (nonlinear_arith)
        requires
            s.x == u.x + g.x,
            s.y == u.y + g.y,
            s.z == u.z + g.z,
            sn == s.x * n.x + s.y * n.y + s.z * n.z,
            h == u.x * n.x + u.y * n.y + u.z * n.z,
            gn == g.x * n.x + g.y * n.y + g.z * n.z,
    ;
    let r1 = ONE * gn - c * nn;
    assert(c * nn == c * b + c * nu) by (nonlinear_arith)
        requires
            nn == b + nu,
    ;
    assert(ONE * h == -(c * b) - ONE * rho) by (nonlinear_arith)
        requires
            h == -(c * ONE + rho),
            b == ONE * ONE,
    ;
    assert(ONE * sn == ONE * h + ONE * gn) by (nonlinear_arith)
        requires
            sn == h + gn,
    ;
    assert(ONE * sn == c * nu + r1 - ONE * rho);
    lemma_product_bound(c, nu, ONE + 2, 4 * ONE);
    lemma_product_bound(ONE as int, rho, ONE as int, ONE as int);
    assert((ONE + 2) * (4 * ONE) == 0x4_0008_0000 && b == 0x1_0000_0000 && ONE * (3 * ONE)
        == 0x3_0000_0000) by (nonlinear_arith)
        requires
            b == ONE * ONE,
            ONE == 65536,
    ;
    assert(ONE * taxicab(n) <= 0x3_0000_0000) by (nonlinear_arith)
        requires
            0 <= taxicab(n) <= 3 * ONE,
            ONE == 65536,
    ;
    assert(-(8 * ONE + 8) <= sn <= 8 * ONE + 8) by (nonlinear_arith)
        requires
            -(0x4_0008_0000 + 0x3_0000_0000 + 0x1_0000_0000) <= ONE * sn <= 0x4_0008_0000
                + 0x3_0000_0000 + 0x1_0000_0000,
            ONE == 65536,
    ;
    let p = parallel_part(u, n, ratio);
    lemma_scaled_inner(s, ratio, n);
    let pn = p.inner(n);
    lemma_product_bound(ratio, sn, ratio, 8 * ONE + 8);
    assert(-(9 * ratio + 3 * ONE) <= pn <= 9 * ratio + 3 * ONE) by (nonlinear_arith)
        requires
            -(ratio * (8 * ONE + 8) + 0x3_0000_0000) <= ONE * pn <= ratio * (8 * ONE + 8)
                + 0x3_0000_0000,
            0 <= ratio,
            ONE == 65536,
    ;
}

/// The refracted direction points into the surface: its inner product
/// with the normal is negative as soon as the depth of the refracted
/// direction outweighs the rounding, which grows with the ratio of the
/// indices.
pub proof fn lemma_refraction_enters(u: V3, n: V3, ratio: int)
    requires
        u.is_unit(),
        n.is_unit(),
        u.inner(n) <= 0,
        0 <= ratio <= MAX_INDEX,
    ensures
        refracted(u, n, ratio).inner(n) <= 9 * ratio + 6 * ONE - depth_part(u, n, ratio) * (ONE - 4),
{
    lemma_parallel_is_tangential(u, n, ratio);
    lemma_unit_facts(n);
    let b = ONE * ONE;
    let p = parallel_part(u, n, ratio);
    let rt = depth_part(u, n, ratio);
    crate::algebra::vec3::lemma_norm2_dominates(p);
    let ls = p.length_square();
    assert(ls == p.norm2() / 65536);
    lemma_root_at_most_one(ONE - ls);
    let k = n.scaled(rt);
    lemma_times_negated(n.x, rt);
    lemma_times_negated(n.y, rt);
    lemma_times_negated(n.z, rt);
    let out = refracted(u, n, ratio);
    assert(out == p.minus(k));
    let (pn, kn, on) = (p.inner(n), k.inner(n), out.inner(n));
    assert(on == pn - kn) by (nonlinear_arith)
        requires
            out.x == p.x - k.x,
            out.y == p.y - k.y,
            out.z == p.z - k.z,
            on == out.x * n.x + out.y * n.y + out.z * n.z,
            pn == p.x * n.x + p.y * n.y + p.z * n.z,
            kn == k.x * n.x + k.y * n.y + k.z * n.z,
    ;
    lemma_scaled_inner(n, rt, n);
    let nn = n.norm2();
    assert(rt * nn >= rt * (b - 4 * ONE)) by (nonlinear_arith)
        requires
            nn >= b - 4 * ONE,
            0 <= rt,
    ;
    assert(rt * (b - 4 * ONE) == ONE * (rt * (ONE - 4))) by (nonlinear_arith)
        requires
            b == ONE * ONE,
    ;
    assert(ONE * taxicab(n) <= 0x3_0000_0000) by (nonlinear_arith)
        requires
            0 <= taxicab(n) <= 3 * ONE,
            ONE == 65536,
    ;
    let lift = rt * (ONE - 4);
    assert(kn >= lift - 3 * ONE) by (nonlinear_arith)
        requires
            ONE * kn >= ONE * lift - 0x3_0000_0000,
            ONE == 65536,
    ;
}

/// Snell's law keeps the length: where a refracted ray exists, that is
/// where the part along the surface is no longer than one, the refracted
/// direction has unit length, up to rounding that grows with the ratio of
/// the indices.
pub proof fn lemma_refraction_keeps_length(u: V3, n: V3, ratio: int)
    requires
        u.is_unit(),
        n.is_unit(),
        u.inner(n) <= 0,
        0 <= ratio <= MAX_INDEX,
        parallel_part(u, n, ratio).length_square() <= ONE,
    ensures
        magnitude(refracted(u, n, ratio).norm2() - ONE * ONE) <= 18 * ratio + 25 * ONE,
{
    lemma_parallel_is_tangential(u, n, ratio);
    lemma_unit_facts(n);
    let b = ONE * ONE;
    let p = parallel_part(u, n, ratio);
    let rt = depth_part(u, n, ratio);
    crate::algebra::vec3::lemma_norm2_dominates(p);
    let pp = p.norm2();
    let ls = p.length_square();
    assert(ls == pp / 65536);
    let x = ONE - ls;
    lemma_root_at_most_one(x);
    assert(0 <= x * ONE) by (nonlinear_arith)
        requires
            0 <= x,
    ;
    lemma_floor_sqrt_exists(x * ONE);
    let rr = rt * rt;
    assert(rr <= x * ONE < rr + 2 * rt + 1) by (nonlinear_arith)
        requires
            rt * rt <= x * ONE < (rt + 1) * (rt + 1),
            rr == rt * rt,
    ;
    let first = pp + rr - b;
    assert(-(2 * ONE + 1) < first < ONE);
    // The components of the part along the surface are at most one.
    assert(pp < (ONE + 1) * (ONE + 1)) by (nonlinear_arith)
        requires
            pp < b + ONE,
            b == ONE * ONE,
            ONE == 65536,
    ;
    lemma_below_square(p.x, ONE + 1);
    lemma_below_square(p.y, ONE + 1);
    lemma_below_square(p.z, ONE + 1);
    let k = n.scaled(rt);
    lemma_times_negated(n.x, rt);
    lemma_times_negated(n.y, rt);
    lemma_times_negated(n.z, rt);
    let out = refracted(u, n, ratio);
    assert(out == p.minus(k));
    crate::algebra::vec3::lemma_sum_square(p.x, k.x);
    crate::algebra::vec3::lemma_sum_square(p.y, k.y);
    crate::algebra::vec3::lemma_sum_square(p.z, k.z);
    let kp = k.inner(p);
    let kk = k.norm2();
    assert(p.x * k.x == k.x * p.x && p.y * k.y == k.y * p.y && p.z * k.z == k.z * p.z)
        by (nonlinear_arith);
    assert(out.norm2() == pp - 2 * kp + kk);
    // The mixed term.
    lemma_scaled_inner(n, rt, p);
    let np = n.inner(p);
    let pn = p.inner(n);
    assert(np == pn) by (nonlinear_arith)
        requires
            np == n.x * p.x + n.y * p.y + n.z * p.z,
            pn == p.x * n.x + p.y * n.y + p.z * n.z,
    ;
    let eb = 9 * ratio + 3 * ONE;
    lemma_product_bound(rt, np, ONE as int, eb);
    assert(ONE * taxicab(p) <= 0x3_0000_0000) by (nonlinear_arith)
        requires
            0 <= taxicab(p) <= 3 * ONE,
            ONE == 65536,
    ;
    assert(-(eb + 3 * ONE) <= kp <= eb + 3 * ONE) by (nonlinear_arith)
        requires
            -(ONE * eb + 0x3_0000_0000) <= ONE * kp <= ONE * eb + 0x3_0000_0000,
            ONE == 65536,
    ;
    // The squared length of the part along the normal.
    lemma_scaled_length(n, rt);
    let nn = n.norm2();
    let nu = nn - b;
    assert(rr * nn == b * rr + rr * nu) by (nonlinear_arith)
        requires
            nn == b + nu,
    ;
    assert(0 <= rr <= b) by (nonlinear_arith)
        requires
            rr == rt * rt,
            0 <= rt <= ONE,
            b == ONE * ONE,
    ;
    lemma_product_bound(rr, nu, b, 4 * ONE);
    assert((2 * magnitude(rt)) * (ONE * taxicab(n)) <= 6 * (ONE * b)) by (nonlinear_arith)
        requires
            0 <= magnitude(rt) <= ONE,
            0 <= taxicab(n) <= 3 * ONE,
            b == ONE * ONE,
            ONE == 65536,
    ;
    assert(b * (4 * ONE) == 4 * (ONE * b)) by (nonlinear_arith);
    let second = kk - rr;
    assert(b * second == b * kk - b * rr) by (nonlinear_arith)
        requires
            second == kk - rr,
    ;
    assert(-(10 * ONE + 3) <= second <= 10 * ONE + 3) by (nonlinear_arith)
        requires
            -(10 * (ONE * b)) <= b * second <= 10 * (ONE * b) + 3 * b,
            b == ONE * ONE,
            ONE == 65536,
    ;
}

} // verus!
