//! Spheres and where rays meet them.

use vstd::prelude::*;
use crate::algebra::fixed::{
    floor_sqrt, fits, is_floor_sqrt, isqrt, lemma_floor_sqrt_exists, lemma_limit_squared,
    lemma_product_bound, lemma_quot_monotone, lemma_quot_shrinks, magnitude, quot, LIMIT, ONE,
};
use crate::algebra::vec3::{
    lemma_inner_squared, lemma_norm2_dominates, lemma_root_monotone, lemma_triangle, unit_of,
    Point3, V3, Vec3,
};
use crate::error::ConfigError;
use crate::graphics::hit::HitRecord;
use crate::graphics::material::{lemma_quot_remainder, Material};
use crate::graphics::ray::Ray;

verus! {

/// A sphere and what it is made of.
#[derive(Clone, Copy, Debug)]
pub struct Sphere {
    pub center: Point3,
    pub radius: i64,
    pub material: Material,
}

impl Sphere {
    /// The radius is positive and within the limit, and the material is
    /// one that its constructor accepts.
    pub open spec fn wf(self) -> bool {
        0 < self.radius <= LIMIT && self.material.wf()
    }

    /// From the center to the origin of `ray`.
    pub open spec fn offset(self, ray: Ray) -> V3 {
        ray.origin@.minus(self.center@)
    }

    /// Half the linear coefficient of the quadratic in the ray parameter.
    pub open spec fn half_b(self, ray: Ray) -> int {
        self.offset(ray).inner(ray.direction@)
    }

    /// A quarter of the discriminant of that quadratic, computed exactly.
    pub open spec fn discriminant(self, ray: Ray) -> int {
        let a = ray.direction@.norm2();
        let c = self.offset(ray).norm2() - self.radius * self.radius;
        self.half_b(ray) * self.half_b(ray) - a * c
    }

    /// The smaller root of the quadratic, times the squared length of the
    /// direction: the root before it is divided and rounded.
    pub open spec fn near_numerator(self, ray: Ray) -> int {
        -self.half_b(ray) - floor_sqrt(self.discriminant(ray))
    }

    /// The larger root of the quadratic, times the squared length of the
    /// direction.
    pub open spec fn far_numerator(self, ray: Ray) -> int {
        -self.half_b(ray) + floor_sqrt(self.discriminant(ray))
    }

    /// The smaller root of the quadratic, as a scalar.
    pub open spec fn near_root(self, ray: Ray) -> int {
        parameter_of(ray, self.near_numerator(ray))
    }

    /// The larger root of the quadratic, as a scalar.
    pub open spec fn far_root(self, ray: Ray) -> int {
        parameter_of(ray, self.far_numerator(ray))
    }

    /// The record of `ray` meeting the sphere at the root of the given
    /// numerator.
    pub open spec fn record_at(self, ray: Ray, numerator: int) -> Option<HitRecord> {
        record_of(self.center, self.material, ray, numerator)
    }

    /// The record at the root of the given numerator, where the root lies
    /// strictly between the bounds.
    pub open spec fn record_within(self, ray: Ray, numerator: int, t_min: int, t_max: int) -> Option<
        HitRecord,
    > {
        if t_min < parameter_of(ray, numerator) < t_max {
            self.record_at(ray, numerator)
        } else {
            None
        }
    }

    /// Where `ray` meets the sphere at a parameter strictly between
    /// `t_min` and `t_max`: at the smaller root if that lies between the
    /// bounds, else at the larger. A ray without direction meets nothing;
    /// a ray that touches the sphere meets it.
    pub open spec fn hit_spec(self, ray: Ray, t_min: int, t_max: int) -> Option<HitRecord> {
        if ray.direction@.norm2() == 0 || self.discriminant(ray) < 0 {
            None
        } else if t_min < self.near_root(ray) < t_max {
            self.record_at(ray, self.near_numerator(ray))
        } else {
            self.record_within(ray, self.far_numerator(ray), t_min, t_max)
        }
    }

    /// The point `p` lies on the sphere, up to rounding: its distance
    /// from the center is the radius, give or take four units of the last
    /// place.
    pub open spec fn touches(self, p: V3) -> bool {
        let apart = p.minus(self.center@).norm2();
        &&& apart <= (self.radius + 2) * (self.radius + 2)
        &&& self.radius >= 4 ==> (self.radius - 4) * (self.radius - 4) <= apart
    }

    /// A sphere around `center`. The radius must be positive and at most
    /// `LIMIT`.
    pub fn new(center: Point3, radius: i64, material: Material) -> (r: Result<Sphere, ConfigError>)
        requires
            material.wf(),
        ensures
            radius <= 0 ==> r == Err::<Sphere, ConfigError>(ConfigError::NonPositiveRadius),
            radius > LIMIT ==> r == Err::<Sphere, ConfigError>(ConfigError::RadiusOutOfRange),
            0 < radius <= LIMIT ==> r == Ok::<Sphere, ConfigError>(
                Sphere { center, radius, material },
            ),
            r is Ok ==> r->Ok_0.wf(),
    {
        if radius <= 0 {
            Err(ConfigError::NonPositiveRadius)
        } else if radius > LIMIT {
            Err(ConfigError::RadiusOutOfRange)
        } else {
            Ok(Sphere { center, radius, material })
        }
    }

    /// The record at the root of the given numerator, where the root lies
    /// strictly between the bounds.
    fn compute_normal(&self, ray: Ray, numerator: i128, t_max: i64, t_min: i64) -> (r: Option<
        HitRecord,
    >)
        requires
            self.wf(),
            ray.direction@.norm2() > 0,
            -0x1_8000_0000_0000_0000 <= numerator <= 0x1_8000_0000_0000_0000,
        ensures
            r == self.record_within(ray, numerator as int, t_min as int, t_max as int),
            r is Some ==> r->Some_0.wf() && t_min < r->Some_0.t < t_max,
            r is Some ==> r->Some_0.normal@.inner(ray.direction@) <= 0,
            r is Some ==> r->Some_0.normal@.is_unit(),
            r is Some ==> near_ray_point(ray, r->Some_0.t as int, r->Some_0.point@),
    {
        let d = ray.direction();
        let a: i128 = d.inner(d);
        let temp: i128 = (numerator * 65536) / a;
        if temp < t_max as i128 && temp > t_min as i128 {
            return get_new_record(ray, self.center, numerator, temp as i64, self.material);
        }
        None
    }

    /// Where `ray` meets the sphere between the bounds.
    pub fn hit(&self, ray: Ray, t_min: i64, t_max: i64) -> (r: Option<HitRecord>)
        requires
            self.wf(),
        ensures
            r == self.hit_spec(ray, t_min as int, t_max as int),
            r is Some ==> r->Some_0.wf() && t_min < r->Some_0.t < t_max,
            r is Some ==> r->Some_0.normal@.inner(ray.direction@) <= 0,
            r is Some ==> r->Some_0.normal@.is_unit(),
            r is Some ==> self.touches(r->Some_0.point@),
            r is Some ==> near_ray_point(ray, r->Some_0.t as int, r->Some_0.point@),
    {
        let d = ray.direction();
        let ocx: i128 = ray.origin().x() as i128 - self.center.x() as i128;
        let ocy: i128 = ray.origin().y() as i128 - self.center.y() as i128;
        let ocz: i128 = ray.origin().z() as i128 - self.center.z() as i128;
        let dx: i128 = d.x() as i128;
        let dy: i128 = d.y() as i128;
        let dz: i128 = d.z() as i128;
        let rad: i128 = self.radius as i128;
        proof {
            lemma_limit_squared();
            lemma_product_bound(ocx as int, dx as int, 2 * LIMIT, LIMIT as int);
            lemma_product_bound(ocy as int, dy as int, 2 * LIMIT, LIMIT as int);
            lemma_product_bound(ocz as int, dz as int, 2 * LIMIT, LIMIT as int);
            lemma_product_bound(ocx as int, ocx as int, 2 * LIMIT, 2 * LIMIT);
            lemma_product_bound(ocy as int, ocy as int, 2 * LIMIT, 2 * LIMIT);
            lemma_product_bound(ocz as int, ocz as int, 2 * LIMIT, 2 * LIMIT);
            lemma_product_bound(rad as int, rad as int, LIMIT as int, LIMIT as int);
            lemma_norm2_dominates(d@);
            lemma_norm2_dominates(self.offset(ray));
        }
        let a: i128 = d.inner(d);
        let half_b: i128 = ocx * dx + ocy * dy + ocz * dz;
        let c: i128 = ocx * ocx + ocy * ocy + ocz * ocz - rad * rad;
        assert(-0x2400_0000_0000_0000_0000_0000_0000_0000 <= half_b * half_b
            <= 0x2400_0000_0000_0000_0000_0000_0000_0000) by (nonlinear_arith)
            requires
                -0x6000_0000_0000_0000 <= half_b <= 0x6000_0000_0000_0000,
        ;
        assert(-0x2400_0000_0000_0000_0000_0000_0000_0000 <= a * c
            <= 0x2400_0000_0000_0000_0000_0000_0000_0000) by (nonlinear_arith)
            requires
                0 <= a <= 0x3000_0000_0000_0000,
                -0xC000_0000_0000_0000 <= c <= 0xC000_0000_0000_0000,
        ;
        let discriminant: i128 = half_b * half_b - a * c;
        assert(discriminant == self.discriminant(ray));
        if a == 0 || discriminant < 0 {
            return None;
        }
        let wide: u64 = isqrt(discriminant as u128);
        assert(wide < 0xC000_0000_0000_0000) by (nonlinear_arith)
            requires
                wide * wide <= discriminant,
                discriminant <= 0x4800_0000_0000_0000_0000_0000_0000_0000,
                0 <= wide,
        ;
        let root: i128 = wide as i128;
        proof {
            lemma_hit_touches(*self, ray, t_min as int, t_max as int);
        }
        let near: i128 = -half_b - root;
        if parameter_between(near, a, t_min, t_max) {
            return self.compute_normal(ray, near, t_max, t_min);
        }
        self.compute_normal(ray, -half_b + root, t_max, t_min)
    }
}

/// Whether the root of the given numerator lies strictly between the
/// bounds.
fn parameter_between(numerator: i128, a: i128, t_min: i64, t_max: i64) -> (r: bool)
    requires
        a > 0,
        -0x1_8000_0000_0000_0000 <= numerator <= 0x1_8000_0000_0000_0000,
    ensures
        r == (t_min < quot(numerator * ONE, a as int) < t_max),
{
    let temp: i128 = (numerator * 65536) / a;
    temp < t_max as i128 && temp > t_min as i128
}

/// The ray parameter whose numerator over the squared length of the
/// direction is given, rounded to a scalar.
pub open spec fn parameter_of(ray: Ray, numerator: int) -> int {
    quot(numerator * ONE, ray.direction@.norm2())
}

/// The point of `ray` at the parameter of the given numerator. The
/// parameter is not rounded first: each component is rounded once.
pub open spec fn point_along(ray: Ray, numerator: int) -> V3 {
    let a = ray.direction@.norm2();
    V3 {
        x: ray.origin@.x + quot(ray.direction@.x * numerator, a),
        y: ray.origin@.y + quot(ray.direction@.y * numerator, a),
        z: ray.origin@.z + quot(ray.direction@.z * numerator, a),
    }
}

/// The record of `ray` meeting a sphere around `center` at the parameter
/// of the given numerator. There is none where the point lies beyond the
/// coordinate limit or in the center itself.
pub open spec fn record_of(center: Point3, material: Material, ray: Ray, numerator: int) -> Option<
    HitRecord,
> {
    let p = point_along(ray, numerator);
    let outward = p.minus(center@);
    if !p.bounded(LIMIT as int) || outward.is_zero() {
        None
    } else {
        Some(
            HitRecord {
                point: Vec3::of(p),
                normal: Vec3::of(HitRecord::oriented(outward.unit(), ray.direction@)),
                t: parameter_of(ray, numerator) as i64,
                front_face: HitRecord::faces(outward.unit(), ray.direction@),
                material: material,
            },
        )
    }
}

/// The record of `ray` meeting a sphere around `center` at the parameter
/// `temp`, which the given numerator rounds to, if the point can be
/// represented.
fn get_new_record(ray: Ray, center: Point3, numerator: i128, temp: i64, material: Material) -> (r:
    Option<HitRecord>)
    requires
        material.wf(),
        ray.direction@.norm2() > 0,
        -0x1_8000_0000_0000_0000 <= numerator <= 0x1_8000_0000_0000_0000,
        temp == parameter_of(ray, numerator as int),
    ensures
        r == record_of(center, material, ray, numerator as int),
        r is Some ==> r->Some_0.wf() && r->Some_0.t == temp,
        r is Some ==> r->Some_0.normal@.inner(ray.direction@) <= 0,
        r is Some ==> r->Some_0.normal@.is_unit(),
        r is Some ==> near_ray_point(ray, temp as int, r->Some_0.point@),
{
    broadcast use Vec3::lemma_of_view, Vec3::lemma_view_of;

    proof {
        lemma_point_near_parameter(ray, numerator as int);
    }

    let d = ray.direction();
    let a: i128 = d.inner(d);
    let (dx, dy, dz) = (d.x() as i128, d.y() as i128, d.z() as i128);
    proof {
        lemma_product_bound(dx as int, numerator as int, LIMIT as int, 0x1_8000_0000_0000_0000);
        lemma_product_bound(dy as int, numerator as int, LIMIT as int, 0x1_8000_0000_0000_0000);
        lemma_product_bound(dz as int, numerator as int, LIMIT as int, 0x1_8000_0000_0000_0000);
        lemma_quot_shrinks(dx * numerator, a as int, LIMIT * 0x1_8000_0000_0000_0000);
        lemma_quot_shrinks(dy * numerator, a as int, LIMIT * 0x1_8000_0000_0000_0000);
        lemma_quot_shrinks(dz * numerator, a as int, LIMIT * 0x1_8000_0000_0000_0000);
    }
    let px: i128 = ray.origin().x() as i128 + (dx * numerator) / a;
    let py: i128 = ray.origin().y() as i128 + (dy * numerator) / a;
    let pz: i128 = ray.origin().z() as i128 + (dz * numerator) / a;
    let point = match Vec3::narrowed(px, py, pz) {
        Some(p) => p,
        None => {
            return None;
        },
    };
    let ox: i64 = point.x() - center.x();
    let oy: i64 = point.y() - center.y();
    let oz: i64 = point.z() - center.z();
    if ox == 0 && oy == 0 && oz == 0 {
        return None;
    }
    let outward_normal = unit_of(ox, oy, oz);
    let placeholder = HitRecord::new(point, outward_normal, temp, false, material);
    Some(HitRecord::with_normal(placeholder, ray, outward_normal))
}

/// `hit`, unless it lies at or beyond the parameter `limit`.
pub open spec fn nearer_than(hit: Option<HitRecord>, limit: int) -> Option<HitRecord> {
    match hit {
        Some(rec) => if rec.t < limit {
            hit
        } else {
            None
        },
        None => None,
    }
}

/// The smaller root is no larger than the larger one.
pub proof fn lemma_roots_ordered(sphere: Sphere, ray: Ray)
    requires
        ray.direction@.norm2() > 0,
        sphere.discriminant(ray) >= 0,
    ensures
        sphere.near_root(ray) <= sphere.far_root(ray),
{
    let s = floor_sqrt(sphere.discriminant(ray));
    lemma_floor_sqrt_exists(sphere.discriminant(ray));
    let h = sphere.half_b(ray);
    assert((-h - s) * ONE <= (-h + s) * ONE) by (nonlinear_arith)
        requires
            0 <= s,
    ;
    lemma_quot_monotone((-h - s) * ONE, (-h + s) * ONE, ray.direction@.norm2());
}

/// Lowering the upper bound of the search drops the hit if it lies at or
/// beyond the new bound, and changes nothing else: a sphere never answers
/// a narrowed search with a farther point.
pub proof fn lemma_hit_narrowed(sphere: Sphere, ray: Ray, t_min: int, limit: int, t_max: int)
    requires
        fits(t_min),
        fits(t_max),
        limit <= t_max,
    ensures
        sphere.hit_spec(ray, t_min, limit) == nearer_than(
            sphere.hit_spec(ray, t_min, t_max),
            limit,
        ),
{
    lemma_norm2_dominates(ray.direction@);
    if ray.direction@.norm2() > 0 && sphere.discriminant(ray) >= 0 {
        lemma_roots_ordered(sphere, ray);
        let near = sphere.near_root(ray);
        let far = sphere.far_root(ray);
        let near_record = sphere.record_at(ray, sphere.near_numerator(ray));
        let far_record = sphere.record_at(ray, sphere.far_numerator(ray));
        if t_min < near < t_max {
            assert(near_record is Some ==> near_record->Some_0.t == near);
        } else if t_min < far < t_max {
            assert(far_record is Some ==> far_record->Some_0.t == far);
        }
    }
}

/// The square of `a * o + d * n`, one component.
pub proof fn lemma_scaled_sum_square(a: int, o: int, d: int, n: int, w: int)
    requires
        w == a * o + d * n,
    ensures
        w * w == (a * a) * (o * o) + (2 * a * n) * (o * d) + (n * n) * (d * d),
{
    let p = a * o;
    let q = d * n;
    assert(w * w == p * p + 2 * (p * q) + q * q) by (nonlinear_arith)
        requires
            w == p + q,
    ;
    assert(p * p == (a * a) * (o * o)) by (nonlinear_arith)
        requires
            p == a * o,
    ;
    assert(q * q == (n * n) * (d * d)) by (nonlinear_arith)
        requires
            q == d * n,
    ;
    let an = a * n;
    let od = o * d;
    assert(p * q == an * od) by (nonlinear_arith)
        requires
            p == a * o,
            q == d * n,
            an == a * n,
            od == o * d,
    ;
    assert((2 * a * n) * od == 2 * (an * od)) by (nonlinear_arith)
        requires
            an == a * n,
    ;
}

/// Where a ray meets a sphere, the point computed from a root of the
/// quadratic lies on the sphere, up to rounding. `o` leads from the center
/// to the origin of the ray, `d` is its direction, `s` the root of the
/// discriminant and `n` the numerator of either root of the quadratic;
/// `out` leads from the center to the point.
pub proof fn lemma_point_on_sphere(o: V3, d: V3, radius: int, s: int, n: int, out: V3)
    requires
        radius > 0,
        d.norm2() > 0,
        is_floor_sqrt(
            o.inner(d) * o.inner(d) - d.norm2() * (o.norm2() - radius * radius),
            s,
        ),
        n == -o.inner(d) - s || n == -o.inner(d) + s,
        out.x == o.x + quot(d.x * n, d.norm2()),
        out.y == o.y + quot(d.y * n, d.norm2()),
        out.z == o.z + quot(d.z * n, d.norm2()),
    ensures
        out.norm2() <= (radius + 2) * (radius + 2),
        radius >= 4 ==> (radius - 4) * (radius - 4) <= out.norm2(),
{
    let a = d.norm2();
    let h = o.inner(d);
    let o2 = o.norm2();
    let rr = radius * radius;
    let disc = h * h - a * (o2 - rr);
    let hh = h * h;
    let ss = s * s;
    // The root of the discriminant is at most the radius times the length
    // of the direction.
    lemma_inner_squared(o, d);
    assert(a * (o2 - rr) == a * o2 - a * rr) by (nonlinear_arith);
    assert(o2 * a == a * o2) by (nonlinear_arith);
    assert(ss <= a * rr);
    // The exact point, times the squared length of the direction.
    let w = V3 { x: a * o.x + d.x * n, y: a * o.y + d.y * n, z: a * o.z + d.z * n };
    lemma_scaled_sum_square(a, o.x, d.x, n, w.x);
    lemma_scaled_sum_square(a, o.y, d.y, n, w.y);
    lemma_scaled_sum_square(a, o.z, d.z, n, w.z);
    let aa = a * a;
    let m = 2 * a * n;
    let nn = n * n;
    let (ox2, oy2, oz2) = (o.x * o.x, o.y * o.y, o.z * o.z);
    let (dx2, dy2, dz2) = (d.x * d.x, d.y * d.y, d.z * d.z);
    let (odx, ody, odz) = (o.x * d.x, o.y * d.y, o.z * d.z);
    assert(aa * (ox2 + oy2 + oz2) == aa * ox2 + aa * oy2 + aa * oz2) by (nonlinear_arith);
    assert(m * (odx + ody + odz) == m * odx + m * ody + m * odz) by (nonlinear_arith);
    assert(nn * (dx2 + dy2 + dz2) == nn * dx2 + nn * dy2 + nn * dz2) by (nonlinear_arith);
    let w2 = w.norm2();
    assert(w2 == aa * o2 + m * h + nn * a);
    assert(nn + 2 * (n * h) == ss - hh) by (nonlinear_arith)
        requires
            n == -h - s || n == -h + s,
            nn == n * n,
            ss == s * s,
            hh == h * h,
    ;
    assert(m * h + nn * a == a * (ss - hh)) by (nonlinear_arith)
        requires
            m == 2 * a * n,
            nn + 2 * (n * h) == ss - hh,
    ;
    assert(aa * o2 == a * (a * o2)) by (nonlinear_arith)
        requires
            aa == a * a,
    ;
    let gap = disc - ss;
    assert(a * (a * o2) + a * (ss - hh) == a * (a * rr) - a * gap) by (nonlinear_arith)
        requires
            gap == hh - (a * o2 - a * rr) - ss,
    ;
    assert(a * (a * rr) == aa * rr) by (nonlinear_arith)
        requires
            aa == a * a,
    ;
    assert(w2 == aa * rr - a * gap);
    assert(0 <= gap <= 2 * s) by (nonlinear_arith)
        requires
            gap == disc - s * s,
            s * s <= disc < (s + 1) * (s + 1),
    ;
    let ar = a * radius;
    assert(ar * ar == aa * rr) by (nonlinear_arith)
        requires
            ar == a * radius,
            aa == a * a,
            rr == radius * radius,
    ;
    assert(0 <= a * gap) by (nonlinear_arith)
        requires
            0 <= gap,
            0 < a,
    ;
    assert(w2 <= ar * ar);
    assert(0 <= ar) by (nonlinear_arith)
        requires
            ar == a * radius,
            0 < a,
            0 < radius,
    ;
    // What rounding takes from each component.
    let q = V3 { x: quot(d.x * n, a), y: quot(d.y * n, a), z: quot(d.z * n, a) };
    let e = V3 { x: d.x * n - a * q.x, y: d.y * n - a * q.y, z: d.z * n - a * q.z };
    lemma_quot_remainder(d.x * n, a);
    lemma_quot_remainder(d.y * n, a);
    lemma_quot_remainder(d.z * n, a);
    lemma_product_bound(e.x, e.x, a - 1, a - 1);
    lemma_product_bound(e.y, e.y, a - 1, a - 1);
    lemma_product_bound(e.z, e.z, a - 1, a - 1);
    let slack = 2 * a - 1;
    assert(3 * ((a - 1) * (a - 1)) <= slack * slack) by (nonlinear_arith)
        requires
            slack == 2 * a - 1,
            a >= 1,
    ;
    assert(e.norm2() <= slack * slack);
    let scaled = V3 { x: a * out.x, y: a * out.y, z: a * out.z };
    assert(scaled == w.minus(e)) by {
        assert(a * (o.x + q.x) == a * o.x + a * q.x) by (nonlinear_arith);
        assert(a * (o.y + q.y) == a * o.y + a * q.y) by (nonlinear_arith);
        assert(a * (o.z + q.z) == a * o.z + a * q.z) by (nonlinear_arith);
    }
    assert(w == scaled.plus(e));
    crate::algebra::vec3::lemma_square_of_product(a, out.x);
    crate::algebra::vec3::lemma_square_of_product(a, out.y);
    crate::algebra::vec3::lemma_square_of_product(a, out.z);
    let out2 = out.norm2();
    let (tx, ty, tz) = (out.x * out.x, out.y * out.y, out.z * out.z);
    assert(aa * (tx + ty + tz) == aa * tx + aa * ty + aa * tz) by (nonlinear_arith);
    assert(scaled.norm2() == aa * out2);
    lemma_norm2_dominates(out);
    // From above.
    lemma_triangle(w, e, ar, slack);
    let top = a * (radius + 2);
    assert(0 <= ar + slack <= top) by (nonlinear_arith)
        requires
            top == a * (radius + 2),
            ar == a * radius,
            slack == 2 * a - 1,
            a >= 1,
            0 <= ar,
    ;
    assert((ar + slack) * (ar + slack) <= top * top) by (nonlinear_arith)
        requires
            0 <= ar + slack <= top,
    ;
    let up = (radius + 2) * (radius + 2);
    assert(top * top == aa * up) by (nonlinear_arith)
        requires
            top == a * (radius + 2),
            aa == a * a,
            up == (radius + 2) * (radius + 2),
    ;
    assert(out2 <= up) by (nonlinear_arith)
        requires
            aa * out2 <= aa * up,
            aa == a * a,
            a >= 1,
    ;
    // From below.
    if radius >= 4 {
        let down = (radius - 4) * (radius - 4);
        if out2 < down {
            let low = a * (radius - 4);
            assert(low * low == aa * down) by (nonlinear_arith)
                requires
                    low == a * (radius - 4),
                    aa == a * a,
                    down == (radius - 4) * (radius - 4),
            ;
            assert(aa * out2 <= aa * down) by (nonlinear_arith)
                requires
                    out2 <= down,
                    aa == a * a,
            ;
            assert(0 <= low) by (nonlinear_arith)
                requires
                    low == a * (radius - 4),
                    a >= 1,
                    radius >= 4,
            ;
            lemma_triangle(scaled, e, low, slack);
            let mid = a * (radius - 2);
            assert(low + slack == mid - 1) by (nonlinear_arith)
                requires
                    low == a * (radius - 4),
                    slack == 2 * a - 1,
                    mid == a * (radius - 2),
            ;
            assert(mid >= 2) by (nonlinear_arith)
                requires
                    mid == a * (radius - 2),
                    a >= 1,
                    radius >= 4,
            ;
            assert((mid - 1) * (mid - 1) < mid * mid) by (nonlinear_arith)
                requires
                    mid >= 2,
            ;
            // The exact point is no nearer than the radius less two.
            let far = 2 * a * (radius - 1);
            assert(a * rr <= far * far) by (nonlinear_arith)
                requires
                    far == 2 * a * (radius - 1),
                    rr == radius * radius,
                    a >= 1,
                    radius >= 4,
            ;
            assert(0 <= far) by (nonlinear_arith)
                requires
                    far == 2 * a * (radius - 1),
                    a >= 1,
                    radius >= 4,
            ;
            lemma_root_monotone(s, far);
            assert(a * gap <= a * (2 * far)) by (nonlinear_arith)
                requires
                    0 <= gap <= 2 * s,
                    s <= far,
                    a >= 1,
            ;
            assert(aa * rr - a * (2 * far) == mid * mid) by (nonlinear_arith)
                requires
                    far == 2 * a * (radius - 1),
                    mid == a * (radius - 2),
                    aa == a * a,
                    rr == radius * radius,
            ;
            assert(false);
        }
    }
}

/// The point `p` is the point of `ray` at the parameter `t`, up to the
/// rounding of the parameter: in each component the two differ by no more
/// than two units of the last place and the direction's share of one.
pub open spec fn near_ray_point(ray: Ray, t: int, p: V3) -> bool {
    let at = ray.point_at(t);
    let d = ray.direction@;
    &&& magnitude(p.x - at.x) * ONE <= magnitude(d.x) + 2 * ONE
    &&& magnitude(p.y - at.y) * ONE <= magnitude(d.y) + 2 * ONE
    &&& magnitude(p.z - at.z) * ONE <= magnitude(d.z) + 2 * ONE
}

/// One component of a point computed from an unrounded parameter and the
/// same component computed from the rounded parameter.
proof fn lemma_component_near(d: int, n: int, a: int)
    requires
        a > 0,
    ensures
        magnitude(quot(d * n, a) - quot(d * quot(n * ONE, a), ONE as int)) * ONE <= magnitude(d) + 2
            * ONE,
{
    let q1 = quot(d * n, a);
    let t = quot(n * ONE, a);
    let q2 = quot(d * t, ONE as int);
    lemma_quot_remainder(d * n, a);
    lemma_quot_remainder(n * ONE, a);
    lemma_quot_remainder(d * t, ONE as int);
    let e1 = d * n - a * q1;
    let e2 = n * ONE - a * t;
    let e3 = d * t - ONE * q2;
    let diff = q1 - q2;
    let md = magnitude(d);
    let (aq1, aq2) = (a * q1, a * q2);
    let dt = d * t;
    let dn = d * n;
    assert(ONE * aq1 == ONE * dn - ONE * e1) by (nonlinear_arith)
        requires
            e1 == dn - aq1,
    ;
    let adt = a * dt;
    assert(adt == d * (a * t)) by (nonlinear_arith)
        requires
            adt == a * dt,
            dt == d * t,
    ;
    assert(d * (a * t) == d * (n * ONE) - d * e2) by (nonlinear_arith)
        requires
            e2 == n * ONE - a * t,
    ;
    assert(d * (n * ONE) == ONE * dn) by (nonlinear_arith)
        requires
            dn == d * n,
    ;
    assert(a * (ONE * q2) == a * dt - a * e3) by (nonlinear_arith)
        requires
            e3 == dt - ONE * q2,
    ;
    assert(a * (ONE * q2) == ONE * aq2) by (nonlinear_arith)
        requires
            aq2 == a * q2,
    ;
    let lhs = ONE * aq1 - ONE * aq2;
    assert(lhs == d * e2 + a * e3 - ONE * e1);
    lemma_product_bound(d, e2, md, a);
    assert(-(a * ONE) <= a * e3 <= a * ONE) by (nonlinear_arith)
        requires
            -ONE < e3 < ONE,
            a > 0,
    ;
    assert(-(a * ONE) <= ONE * e1 <= a * ONE) by (nonlinear_arith)
        requires
            -a < e1 < a,
            ONE == 65536,
    ;
    assert(lhs == a * (ONE * diff)) by (nonlinear_arith)
        requires
            lhs == ONE * aq1 - ONE * aq2,
            aq1 == a * q1,
            aq2 == a * q2,
            diff == q1 - q2,
    ;
    let bound = md + 2 * ONE;
    assert(md * a + 2 * (a * ONE) == a * bound) by (nonlinear_arith)
        requires
            bound == md + 2 * ONE,
    ;
    let x = ONE * diff;
    assert(-bound <= x <= bound) by (nonlinear_arith)
        requires
            -(a * bound) <= a * x <= a * bound,
            a > 0,
    ;
    assert(magnitude(diff) * ONE == magnitude(x));
}

/// The point of a hit is the point of the ray at the parameter of the
/// hit, up to the rounding of the parameter.
pub proof fn lemma_point_near_parameter(ray: Ray, numerator: int)
    requires
        ray.direction@.norm2() > 0,
    ensures
        near_ray_point(ray, parameter_of(ray, numerator), point_along(ray, numerator)),
{
    let a = ray.direction@.norm2();
    lemma_component_near(ray.direction@.x, numerator, a);
    lemma_component_near(ray.direction@.y, numerator, a);
    lemma_component_near(ray.direction@.z, numerator, a);
}

/// What a sphere answers lies on the sphere, up to rounding.
pub proof fn lemma_hit_touches(sphere: Sphere, ray: Ray, t_min: int, t_max: int)
    requires
        sphere.radius > 0,
    ensures
        sphere.hit_spec(ray, t_min, t_max) is Some ==> sphere.touches(
            sphere.hit_spec(ray, t_min, t_max)->Some_0.point@,
        ),
{
    broadcast use Vec3::lemma_of_view;

    lemma_norm2_dominates(ray.direction@);
    if sphere.hit_spec(ray, t_min, t_max) is Some {
        let o = sphere.offset(ray);
        let d = ray.direction@;
        let disc = sphere.discriminant(ray);
        lemma_floor_sqrt_exists(disc);
        let s = floor_sqrt(disc);
        let n = if t_min < sphere.near_root(ray) < t_max {
            sphere.near_numerator(ray)
        } else {
            sphere.far_numerator(ray)
        };
        let p = point_along(ray, n);
        let out = p.minus(sphere.center@);
        lemma_point_on_sphere(o, d, sphere.radius as int, s, n, out);
    }
}

} // verus!
