//! The camera: from image coordinates to rays.

use vstd::prelude::*;
use crate::algebra::fixed::{
    in_limit, lemma_limit_squared, lemma_product_bound, lemma_quot_bound, lemma_quot_shrinks,
    lemma_times_bound,
    magnitude, product, quot, LIMIT, LIMIT_SQUARED, ONE,
};
use crate::algebra::vec3::{unit_of, Point3, V3, Vec3};
use crate::error::ConfigError;
use crate::graphics::ray::Ray;

verus! {

/// A camera: where it stands, the lower left corner of its viewport and
/// the two vectors that span the viewport.
#[derive(Clone, Copy, Debug)]
pub struct Camera {
    pub origin: Point3,
    pub lower_left_corner: Point3,
    pub horizontal: Vec3,
    pub vertical: Vec3,
}

/// The largest image coordinate for which a camera gives a ray: two.
/// Coordinates of an image lie between zero and one; those of a sample
/// moved within its pixel exceed one by less than a pixel.
pub const MAX_COORDINATE: i64 = 131072;

/// Each component halved, rounded toward zero.
pub open spec fn halved(v: V3) -> V3 {
    V3 { x: quot(v.x, 2), y: quot(v.y, 2), z: quot(v.z, 2) }
}

/// The cross product before it is rounded to scalars' precision.
pub open spec fn wide_cross(a: V3, b: V3) -> V3 {
    V3 { x: a.y * b.z - a.z * b.y, y: a.z * b.x - a.x * b.z, z: a.x * b.y - a.y * b.x }
}

/// The unit vector from the point looked at to the camera.
pub open spec fn basis_w(look_from: V3, look_at: V3) -> V3 {
    look_from.minus(look_at).unit()
}

/// The unit vector to the right of the camera.
pub open spec fn basis_u(look_from: V3, look_at: V3, vup: V3) -> V3 {
    vup.cross(basis_w(look_from, look_at)).unit()
}

/// The unit vector that points up in the camera's view.
pub open spec fn basis_v(look_from: V3, look_at: V3, vup: V3) -> V3 {
    basis_w(look_from, look_at).cross(basis_u(look_from, look_at, vup))
}

/// The height of the viewport at distance one.
pub open spec fn viewport_height(half_height: int) -> int {
    2 * half_height
}

/// The width of the viewport at distance one.
pub open spec fn viewport_width(half_height: int, aspect_ratio: int) -> int {
    product(aspect_ratio, viewport_height(half_height))
}

/// The vector along the lower edge of the viewport.
pub open spec fn horizontal_of(
    look_from: V3,
    look_at: V3,
    vup: V3,
    half_height: int,
    aspect_ratio: int,
) -> V3 {
    basis_u(look_from, look_at, vup).scaled(viewport_width(half_height, aspect_ratio))
}

/// The vector along the left edge of the viewport.
pub open spec fn vertical_of(look_from: V3, look_at: V3, vup: V3, half_height: int) -> V3 {
    basis_v(look_from, look_at, vup).scaled(viewport_height(half_height))
}

/// The lower left corner of the viewport.
pub open spec fn corner_of(
    look_from: V3,
    look_at: V3,
    vup: V3,
    half_height: int,
    aspect_ratio: int,
) -> V3 {
    look_from.minus(halved(horizontal_of(look_from, look_at, vup, half_height, aspect_ratio))).minus(
        halved(vertical_of(look_from, look_at, vup, half_height)),
    ).minus(basis_w(look_from, look_at))
}

/// How far, in one component, a ray's direction can lie from zero for
/// image coordinates up to `MAX_COORDINATE`.
pub open spec fn reach(corner: int, origin: int, horizontal: int, vertical: int) -> int {
    magnitude(corner - origin) + 2 * magnitude(horizontal) + 2 * magnitude(vertical)
}

/// The camera looks somewhere, and not along its up vector.
pub open spec fn has_basis(look_from: V3, look_at: V3, vup: V3) -> bool {
    !look_from.minus(look_at).is_zero() && !vup.cross(basis_w(look_from, look_at)).is_zero()
}

/// The viewport and every ray through it lie within the coordinate limit.
pub open spec fn within_limit(
    look_from: V3,
    look_at: V3,
    vup: V3,
    half_height: int,
    aspect_ratio: int,
) -> bool {
    let h = horizontal_of(look_from, look_at, vup, half_height, aspect_ratio);
    let v = vertical_of(look_from, look_at, vup, half_height);
    let c = corner_of(look_from, look_at, vup, half_height, aspect_ratio);
    &&& half_height <= LIMIT
    &&& aspect_ratio <= LIMIT
    &&& reach(c.x, look_from.x, h.x, v.x) <= LIMIT
    &&& reach(c.y, look_from.y, h.y, v.y) <= LIMIT
    &&& reach(c.z, look_from.z, h.z, v.z) <= LIMIT
    &&& c.bounded(LIMIT as int)
}

impl Camera {
    /// Every ray through the viewport has a direction within the limit.
    pub open spec fn wf(self) -> bool {
        &&& reach(
            self.lower_left_corner@.x,
            self.origin@.x,
            self.horizontal@.x,
            self.vertical@.x,
        ) <= LIMIT
        &&& reach(
            self.lower_left_corner@.y,
            self.origin@.y,
            self.horizontal@.y,
            self.vertical@.y,
        ) <= LIMIT
        &&& reach(
            self.lower_left_corner@.z,
            self.origin@.z,
            self.horizontal@.z,
            self.vertical@.z,
        ) <= LIMIT
    }

    /// The camera that the parameters describe.
    pub open spec fn describes(
        self,
        look_from: V3,
        look_at: V3,
        vup: V3,
        half_height: int,
        aspect_ratio: int,
    ) -> bool {
        &&& self.origin@ == look_from
        &&& self.lower_left_corner@ == corner_of(look_from, look_at, vup, half_height, aspect_ratio)
        &&& self.horizontal@ == horizontal_of(look_from, look_at, vup, half_height, aspect_ratio)
        &&& self.vertical@ == vertical_of(look_from, look_at, vup, half_height)
    }

    /// The direction of the ray through the image coordinates `(s, t)`.
    pub open spec fn direction_through(self, s: int, t: int) -> V3 {
        self.lower_left_corner@.plus(self.horizontal@.scaled(s)).plus(
            self.vertical@.scaled(t),
        ).minus(self.origin@)
    }

    /// A camera at `look_from` that looks at `look_at`, with `vup`
    /// pointing up. `half_height` is the tangent of half the vertical
    /// field of view and `aspect_ratio` the width of the image over its
    /// height.
    pub fn new(
        look_from: Point3,
        look_at: Point3,
        vup: Vec3,
        half_height: i64,
        aspect_ratio: i64,
    ) -> (r: Result<Camera, ConfigError>)
        ensures
            aspect_ratio <= 0 ==> r == Err::<Camera, ConfigError>(
                ConfigError::NonPositiveAspectRatio,
            ),
            aspect_ratio > 0 && half_height <= 0 ==> r == Err::<Camera, ConfigError>(
                ConfigError::NonPositiveFieldOfView,
            ),
            aspect_ratio > 0 && half_height > 0 && !has_basis(look_from@, look_at@, vup@) ==> r
                == Err::<Camera, ConfigError>(ConfigError::DegenerateCamera),
            aspect_ratio > 0 && half_height > 0 && has_basis(look_from@, look_at@, vup@)
                && !within_limit(
                look_from@,
                look_at@,
                vup@,
                half_height as int,
                aspect_ratio as int,
            ) ==> r == Err::<Camera, ConfigError>(ConfigError::CameraOutOfRange),
            aspect_ratio > 0 && half_height > 0 && has_basis(look_from@, look_at@, vup@)
                && within_limit(
                look_from@,
                look_at@,
                vup@,
                half_height as int,
                aspect_ratio as int,
            ) ==> r is Ok && r->Ok_0.describes(
                look_from@,
                look_at@,
                vup@,
                half_height as int,
                aspect_ratio as int,
            ),
            r is Ok ==> r->Ok_0.wf(),
    {
        if aspect_ratio <= 0 {
            return Err(ConfigError::NonPositiveAspectRatio);
        }
        if half_height <= 0 {
            return Err(ConfigError::NonPositiveFieldOfView);
        }
        let (w, u, v) = match basis(look_from, look_at, vup) {
            Some(b) => b,
            None => {
                return Err(ConfigError::DegenerateCamera);
            },
        };
        let (wx, wy, wz) = (w.x() as i128, w.y() as i128, w.z() as i128);
        if half_height > LIMIT || aspect_ratio > LIMIT {
            return Err(ConfigError::CameraOutOfRange);
        }
        let height: i128 = 2 * (half_height as i128);
        proof {
            lemma_product_bound(aspect_ratio as int, height as int, LIMIT as int, 2 * LIMIT);
            lemma_limit_squared();
            lemma_quot_shrinks(aspect_ratio * height, ONE as int, 2 * LIMIT_SQUARED);
        }
        let width: i128 = ((aspect_ratio as i128) * height) / 65536;
        let horizontal = match scaled_wide(u, width) {
            Some(h) => h,
            None => {
                return Err(ConfigError::CameraOutOfRange);
            },
        };
        let vertical = match scaled_wide(v, height) {
            Some(h) => h,
            None => {
                return Err(ConfigError::CameraOutOfRange);
            },
        };
        let lx: i128 = (look_from.x() as i128) - (horizontal.x() as i128) / 2 - (
        vertical.x() as i128) / 2 - wx;
        let ly: i128 = (look_from.y() as i128) - (horizontal.y() as i128) / 2 - (
        vertical.y() as i128) / 2 - wy;
        let lz: i128 = (look_from.z() as i128) - (horizontal.z() as i128) / 2 - (
        vertical.z() as i128) / 2 - wz;
        let lower_left_corner = match Vec3::narrowed(lx, ly, lz) {
            Some(c) => c,
            None => {
                return Err(ConfigError::CameraOutOfRange);
            },
        };
        let camera = Camera { origin: look_from, lower_left_corner, horizontal, vertical };
        if camera.reaches_within_limit() {
            Ok(camera)
        } else {
            Err(ConfigError::CameraOutOfRange)
        }
    }

    /// Whether every ray through the viewport lies within the limit.
    fn reaches_within_limit(&self) -> (r: bool)
        ensures
            r == self.wf(),
    {
        reach_of(
            self.lower_left_corner.x(),
            self.origin.x(),
            self.horizontal.x(),
            self.vertical.x(),
        ) <= LIMIT as i128 && reach_of(
            self.lower_left_corner.y(),
            self.origin.y(),
            self.horizontal.y(),
            self.vertical.y(),
        ) <= LIMIT as i128 && reach_of(
            self.lower_left_corner.z(),
            self.origin.z(),
            self.horizontal.z(),
            self.vertical.z(),
        ) <= LIMIT as i128
    }

    /// The ray from the camera through the image coordinates `(u, v)`,
    /// each between zero and `MAX_COORDINATE`.
    pub fn get_ray(&self, u: i64, v: i64) -> (r: Ray)
        requires
            self.wf(),
            0 <= u <= MAX_COORDINATE,
            0 <= v <= MAX_COORDINATE,
        ensures
            r.origin == self.origin,
            r.direction@ == self.direction_through(u as int, v as int),
    {
        let (hx, hy, hz) = (
            self.horizontal.x() as i128,
            self.horizontal.y() as i128,
            self.horizontal.z() as i128,
        );
        let (vx, vy, vz) = (
            self.vertical.x() as i128,
            self.vertical.y() as i128,
            self.vertical.z() as i128,
        );
        let (s, t) = (u as i128, v as i128);
        proof {
            lemma_times_bound(hx as int, s as int, magnitude(hx as int), 2);
            lemma_times_bound(hy as int, s as int, magnitude(hy as int), 2);
            lemma_times_bound(hz as int, s as int, magnitude(hz as int), 2);
            lemma_times_bound(vx as int, t as int, magnitude(vx as int), 2);
            lemma_times_bound(vy as int, t as int, magnitude(vy as int), 2);
            lemma_times_bound(vz as int, t as int, magnitude(vz as int), 2);
            lemma_product_bound(hx as int, s as int, LIMIT as int, 2 * ONE);
            lemma_product_bound(hy as int, s as int, LIMIT as int, 2 * ONE);
            lemma_product_bound(hz as int, s as int, LIMIT as int, 2 * ONE);
            lemma_product_bound(vx as int, t as int, LIMIT as int, 2 * ONE);
            lemma_product_bound(vy as int, t as int, LIMIT as int, 2 * ONE);
            lemma_product_bound(vz as int, t as int, LIMIT as int, 2 * ONE);
            assert(LIMIT * (2 * ONE) == 0x8000_0000_0000) by (nonlinear_arith)
                requires
                    LIMIT == 0x4000_0000,
                    ONE == 0x1_0000,
            ;
        }
        let dx: i128 = (self.lower_left_corner.x() as i128) + (hx * s) / 65536 + (vx * t) / 65536
            - (self.origin.x() as i128);
        let dy: i128 = (self.lower_left_corner.y() as i128) + (hy * s) / 65536 + (vy * t) / 65536
            - (self.origin.y() as i128);
        let dz: i128 = (self.lower_left_corner.z() as i128) + (hz * s) / 65536 + (vz * t) / 65536
            - (self.origin.z() as i128);
        match Vec3::narrowed(dx, dy, dz) {
            Some(direction) => Ray::new(self.origin, direction),
            None => Ray::new(self.origin, self.horizontal),
        }
    }
}

/// The cross product of two vectors no longer than a unit vector in any
/// component lies within the limit.
proof fn lemma_cross_of_units(a: V3, b: V3)
    requires
        a.bounded(ONE as int),
        b.bounded(ONE as int),
    ensures
        a.cross(b).bounded(LIMIT as int),
{
    lemma_product_bound(a.y, b.z, ONE as int, ONE as int);
    lemma_product_bound(a.z, b.y, ONE as int, ONE as int);
    lemma_product_bound(a.z, b.x, ONE as int, ONE as int);
    lemma_product_bound(a.x, b.z, ONE as int, ONE as int);
    lemma_product_bound(a.x, b.y, ONE as int, ONE as int);
    lemma_product_bound(a.y, b.x, ONE as int, ONE as int);
    assert(2 * (ONE * ONE) == (2 * ONE) * magnitude(ONE as int)) by (nonlinear_arith)
        requires
            ONE == 65536,
    ;
    lemma_quot_bound(a.y * b.z - a.z * b.y, ONE as int, 2 * ONE);
    lemma_quot_bound(a.z * b.x - a.x * b.z, ONE as int, 2 * ONE);
    lemma_quot_bound(a.x * b.y - a.y * b.x, ONE as int, 2 * ONE);
}

/// The camera's three unit vectors, where it has them.
fn basis(look_from: Point3, look_at: Point3, vup: Vec3) -> (r: Option<(Vec3, Vec3, Vec3)>)
    ensures
        r is Some <==> has_basis(look_from@, look_at@, vup@),
        r is Some ==> r->Some_0.0@ == basis_w(look_from@, look_at@),
        r is Some ==> r->Some_0.1@ == basis_u(look_from@, look_at@, vup@),
        r is Some ==> r->Some_0.2@ == basis_v(look_from@, look_at@, vup@),
        r is Some ==> r->Some_0.0@.bounded(ONE as int) && r->Some_0.1@.bounded(ONE as int),
{
    let fx: i64 = look_from.x() - look_at.x();
    let fy: i64 = look_from.y() - look_at.y();
    let fz: i64 = look_from.z() - look_at.z();
    if fx == 0 && fy == 0 && fz == 0 {
        return None;
    }
    let w = unit_of(fx, fy, fz);
    let (wx, wy, wz) = (w.x() as i128, w.y() as i128, w.z() as i128);
    let (ux, uy, uz) = (vup.x() as i128, vup.y() as i128, vup.z() as i128);
    proof {
        lemma_product_bound(uy as int, wz as int, LIMIT as int, ONE as int);
        lemma_product_bound(uz as int, wy as int, LIMIT as int, ONE as int);
        lemma_product_bound(uz as int, wx as int, LIMIT as int, ONE as int);
        lemma_product_bound(ux as int, wz as int, LIMIT as int, ONE as int);
        lemma_product_bound(ux as int, wy as int, LIMIT as int, ONE as int);
        lemma_product_bound(uy as int, wx as int, LIMIT as int, ONE as int);
        assert(2 * (LIMIT * ONE) == (2 * LIMIT) * magnitude(ONE as int)) by (nonlinear_arith)
            requires
                LIMIT == 0x4000_0000,
                ONE == 0x1_0000,
        ;
        assert(LIMIT * ONE == 0x4000_0000_0000) by (nonlinear_arith)
            requires
                LIMIT == 0x4000_0000,
                ONE == 0x1_0000,
        ;
        lemma_quot_bound(uy * wz - uz * wy, ONE as int, 2 * LIMIT);
        lemma_quot_bound(uz * wx - ux * wz, ONE as int, 2 * LIMIT);
        lemma_quot_bound(ux * wy - uy * wx, ONE as int, 2 * LIMIT);
    }
    let cx: i64 = ((uy * wz - uz * wy) / 65536) as i64;
    let cy: i64 = ((uz * wx - ux * wz) / 65536) as i64;
    let cz: i64 = ((ux * wy - uy * wx) / 65536) as i64;
    if cx == 0 && cy == 0 && cz == 0 {
        return None;
    }
    let u = unit_of(cx, cy, cz);
    proof {
        lemma_cross_of_units(w@, u@);
    }
    let v = w.cross(u);
    Some((w, u, v))
}

/// `v` times the wide scalar `k`, unless a component leaves the limit.
fn scaled_wide(v: Vec3, k: i128) -> (r: Option<Vec3>)
    requires
        -0x1_0000_0000_0000_0000 <= k <= 0x1_0000_0000_0000_0000,
    ensures
        r is Some <==> v@.scaled(k as int).bounded(LIMIT as int),
        r is Some ==> r->Some_0@ == v@.scaled(k as int),
{
    let (x, y, z) = (v.x() as i128, v.y() as i128, v.z() as i128);
    proof {
        lemma_product_bound(x as int, k as int, LIMIT as int, 0x1_0000_0000_0000_0000);
        lemma_product_bound(y as int, k as int, LIMIT as int, 0x1_0000_0000_0000_0000);
        lemma_product_bound(z as int, k as int, LIMIT as int, 0x1_0000_0000_0000_0000);
    }
    Vec3::narrowed((x * k) / 65536, (y * k) / 65536, (z * k) / 65536)
}

/// `reach`, computed.
fn reach_of(corner: i64, origin: i64, horizontal: i64, vertical: i64) -> (r: i128)
    requires
        in_limit(corner as int),
        in_limit(origin as int),
        in_limit(horizontal as int),
        in_limit(vertical as int),
    ensures
        r == reach(corner as int, origin as int, horizontal as int, vertical as int),
{
    let d: i128 = corner as i128 - origin as i128;
    let h: i128 = horizontal as i128;
    let v: i128 = vertical as i128;
    let ad: i128 = if d < 0 {
        -d
    } else {
        d
    };
    let ah: i128 = if h < 0 {
        -h
    } else {
        h
    };
    let av: i128 = if v < 0 {
        -v
    } else {
        v
    };
    ad + 2 * ah + 2 * av
}

} // verus!
