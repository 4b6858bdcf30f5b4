//! Three-component vectors of fixed-point scalars.
//!
//! `V3` is the mathematical vector over unbounded integers in which the
//! contracts are stated; `Vec3` is the machine vector, every component of
//! which lies within `LIMIT`. Points and colors are vectors too.

use vstd::prelude::*;
use crate::algebra::utility::random_in_range;
use crate::algebra::fixed::{
    floor_sqrt, in_limit, is_floor_sqrt, isqrt, lemma_floor_sqrt_lower,
    lemma_product_bound, lemma_quot_bound, lemma_quot_shrinks, magnitude, product, quot,
    quot_wide, quotient, lemma_limit_squared, LIMIT, LIMIT_SQUARED, ONE,
};

verus! {

/// A vector of three raw scalars, without bounds.
pub ghost struct V3 {
    pub x: int,
    pub y: int,
    pub z: int,
}

impl V3 {
    /// Every component has magnitude at most `m`.
    pub open spec fn bounded(self, m: int) -> bool {
        -m <= self.x <= m && -m <= self.y <= m && -m <= self.z <= m
    }

    pub open spec fn is_zero(self) -> bool {
        self.x == 0 && self.y == 0 && self.z == 0
    }

    /// The length is one, up to the rounding of the components.
    pub open spec fn is_unit(self) -> bool {
        (ONE - 2) * (ONE - 2) <= self.norm2() < (ONE + 1) * (ONE + 1)
    }

    /// The vector is one that is drawn from the unit sphere: its length is
    /// one, give or take six units of the last place below and one above.
    pub open spec fn is_on_unit_sphere(self) -> bool {
        self.bounded(ONE as int) && (ONE - 6) * (ONE - 6) <= self.norm2() < (ONE + 1) * (ONE + 1)
    }

    /// The vector is one that is drawn from the inside of the unit sphere:
    /// its length is less than one.
    pub open spec fn is_in_unit_ball(self) -> bool {
        self.bounded(ONE as int) && self.norm2() < ONE * ONE
    }

    /// Every component lies between zero and one: a color that reflects
    /// or carries no more light than it receives.
    pub open spec fn is_fraction(self) -> bool {
        0 <= self.x <= ONE && 0 <= self.y <= ONE && 0 <= self.z <= ONE
    }

    pub open spec fn plus(self, o: V3) -> V3 {
        V3 { x: self.x + o.x, y: self.y + o.y, z: self.z + o.z }
    }

    pub open spec fn minus(self, o: V3) -> V3 {
        V3 { x: self.x - o.x, y: self.y - o.y, z: self.z - o.z }
    }

    pub open spec fn negated(self) -> V3 {
        V3 { x: -self.x, y: -self.y, z: -self.z }
    }

    /// The vector times the scalar `k`, each component rounded toward zero.
    pub open spec fn scaled(self, k: int) -> V3 {
        V3 { x: product(self.x, k), y: product(self.y, k), z: product(self.z, k) }
    }

    /// The vector divided by the scalar `k`, each component rounded toward zero.
    pub open spec fn shrunk(self, k: int) -> V3 {
        V3 { x: quotient(self.x, k), y: quotient(self.y, k), z: quotient(self.z, k) }
    }

    /// The component-wise product.
    pub open spec fn pointwise(self, o: V3) -> V3 {
        V3 { x: product(self.x, o.x), y: product(self.y, o.y), z: product(self.z, o.z) }
    }

    /// The exact inner product of the raw components: the dot product
    /// scaled by `ONE * ONE`, without any rounding.
    pub open spec fn inner(self, o: V3) -> int {
        self.x * o.x + self.y * o.y + self.z * o.z
    }

    /// The dot product as a scalar: the inner product rounded once.
    pub open spec fn dot(self, o: V3) -> int {
        quot(self.inner(o), ONE as int)
    }

    pub open spec fn cross(self, o: V3) -> V3 {
        V3 {
            x: quot(self.y * o.z - self.z * o.y, ONE as int),
            y: quot(self.z * o.x - self.x * o.z, ONE as int),
            z: quot(self.x * o.y - self.y * o.x, ONE as int),
        }
    }

    /// The exact squared length of the raw vector.
    pub open spec fn norm2(self) -> int {
        self.inner(self)
    }

    /// The squared length as a scalar.
    pub open spec fn length_square(self) -> int {
        quot(self.norm2(), ONE as int)
    }

    /// The length as a scalar, rounded down.
    pub open spec fn length(self) -> int {
        floor_sqrt(self.norm2())
    }

    /// The length with sixteen further fractional bits, rounded down.
    pub open spec fn fine_length(self) -> int {
        floor_sqrt(self.norm2() * ONE * ONE)
    }

    /// The vector scaled to unit length: each component is divided by the
    /// fine length and rounded toward zero.
    pub open spec fn unit(self) -> V3 {
        let l = self.fine_length();
        V3 {
            x: quot(self.x * ONE * ONE, l),
            y: quot(self.y * ONE * ONE, l),
            z: quot(self.z * ONE * ONE, l),
        }
    }
}

/// In a vector bounded by `m`, inner products are bounded by `3 * m * n`.
pub proof fn lemma_inner_bound(a: V3, b: V3, m: int, n: int)
    requires
        a.bounded(m),
        b.bounded(n),
    ensures
        -(3 * (m * n)) <= a.inner(b) <= 3 * (m * n),
{
    lemma_product_bound(a.x, b.x, m, n);
    lemma_product_bound(a.y, b.y, m, n);
    lemma_product_bound(a.z, b.z, m, n);
}

/// The squared length is no less than the square of any component, and
/// positive unless the vector is zero.
pub proof fn lemma_norm2_dominates(a: V3)
    ensures
        a.x * a.x <= a.norm2(),
        a.y * a.y <= a.norm2(),
        a.z * a.z <= a.norm2(),
        0 <= a.norm2(),
        !a.is_zero() ==> 1 <= a.norm2(),
{
    let (x, y, z) = (a.x, a.y, a.z);
    assert(0 <= x * x && 0 <= y * y && 0 <= z * z) by (nonlinear_arith);
    assert(x != 0 ==> 1 <= x * x) by (nonlinear_arith);
    assert(y != 0 ==> 1 <= y * y) by (nonlinear_arith);
    assert(z != 0 ==> 1 <= z * z) by (nonlinear_arith);
}

/// A unit vector has no component beyond one.
pub proof fn lemma_unit_bounded(a: V3)
    requires
        !a.is_zero(),
    ensures
        a.unit().bounded(ONE as int),
        a.fine_length() >= ONE,
        is_floor_sqrt(a.norm2() * ONE * ONE, a.fine_length()),
{
    lemma_norm2_dominates(a);
    let n = a.norm2() * ONE * ONE;
    let l = a.fine_length();
    assert(ONE * ONE <= n) by (nonlinear_arith)
        requires
            n == a.norm2() * ONE * ONE,
            1 <= a.norm2(),
    ;
    lemma_floor_sqrt_lower(n, ONE as int);
    lemma_component_over_length(a.x, a.norm2(), l);
    lemma_component_over_length(a.y, a.norm2(), l);
    lemma_component_over_length(a.z, a.norm2(), l);
}

proof fn lemma_component_over_length(c: int, norm2: int, l: int)
    requires
        c * c <= norm2,
        l == floor_sqrt(norm2 * ONE * ONE),
        l > 0,
    ensures
        -ONE <= quot(c * ONE * ONE, l) <= ONE,
{
    let m = magnitude(c);
    let k = m * ONE;
    assert(m * m == c * c) by (nonlinear_arith)
        requires
            m == magnitude(c),
    ;
    assert(k * k <= norm2 * ONE * ONE) by (nonlinear_arith)
        requires
            k == m * ONE,
            m * m <= norm2,
    ;
    lemma_floor_sqrt_lower(norm2 * ONE * ONE, k);
    assert(magnitude(c * ONE * ONE) == k * ONE) by (nonlinear_arith)
        requires
            k == magnitude(c) * ONE,
    ;
    assert(k * ONE <= ONE * magnitude(l)) by (nonlinear_arith)
        requires
            k <= l,
            l > 0,
    ;
    lemma_quot_bound(c * ONE * ONE, l, ONE as int);
}

/// One component of a unit vector, times the fine length, does not exceed
/// the component it comes from times `ONE * ONE`, and misses it by less
/// than the fine length.
proof fn lemma_unit_component(c: int, l: int)
    requires
        l > 0,
    ensures
        magnitude(quot(c * ONE * ONE, l)) * l <= magnitude(c) * (ONE * ONE),
        magnitude(quot(c * ONE * ONE, l)) * l > magnitude(c) * (ONE * ONE) - l,
        0 <= magnitude(quot(c * ONE * ONE, l)),
{
    let a = c * ONE * ONE;
    let x = magnitude(a);
    assert(x == magnitude(c) * (ONE * ONE)) by (nonlinear_arith)
        requires
            x == magnitude(c * ONE * ONE),
            ONE == 65536,
    ;
    let q = x / l;
    assert(q * l <= x && x - l < q * l && 0 <= q) by (nonlinear_arith)
        requires
            q == x / l,
            0 <= x,
            l > 0,
    ;
    assert(magnitude(quot(a, l)) == q);
}

/// The square of a bounded magnitude is bounded by the square of the bound.
proof fn lemma_square_monotone(a: int, b: int)
    requires
        0 <= a <= b,
    ensures
        a * a <= b * b,
{
    assert(a * a <= b * b) by (nonlinear_arith)
        requires
            0 <= a <= b,
    ;
}

/// A unit vector is no longer than one and a single unit in the last
/// place: its squared length is below the square of `ONE + 1`.
pub proof fn lemma_unit_length_above(a: V3)
    requires
        !a.is_zero(),
    ensures
        a.unit().norm2() < (ONE + 1) * (ONE + 1),
{
    lemma_unit_bounded(a);
    let b = ONE * ONE;
    let n = a.norm2();
    let l = a.fine_length();
    let u = a.unit();
    let (mx, my, mz) = (magnitude(u.x), magnitude(u.y), magnitude(u.z));
    let (cx, cy, cz) = (magnitude(a.x), magnitude(a.y), magnitude(a.z));
    lemma_unit_component(a.x, l);
    lemma_unit_component(a.y, l);
    lemma_unit_component(a.z, l);
    lemma_square_monotone(mx * l, cx * b);
    lemma_square_monotone(my * l, cy * b);
    lemma_square_monotone(mz * l, cz * b);
    let ll = l * l;
    let bb = b * b;
    let un = u.norm2();
    lemma_scaled_norm2(u, l);
    lemma_scaled_norm2(a, b);
    assert(un * ll <= n * bb);
    // The squared fine length plus one bounds the squared length from above.
    let g = ONE * (l + 1);
    let f = l * (ONE + 1);
    assert(n * bb == (n * ONE * ONE) * b) by (nonlinear_arith)
        requires
            bb == b * b,
            b == ONE * ONE,
    ;
    assert((n * ONE * ONE) * b < ((l + 1) * (l + 1)) * b) by (nonlinear_arith)
        requires
            n * ONE * ONE < (l + 1) * (l + 1),
            b > 0,
    ;
    assert(((l + 1) * (l + 1)) * b == g * g) by (nonlinear_arith)
        requires
            g == ONE * (l + 1),
            b == ONE * ONE,
    ;
    assert(0 <= g <= f) by (nonlinear_arith)
        requires
            g == ONE * (l + 1),
            f == l * (ONE + 1),
            l >= ONE,
            ONE == 65536,
    ;
    lemma_square_monotone(g, f);
    assert(f * f == ll * ((ONE + 1) * (ONE + 1))) by (nonlinear_arith)
        requires
            f == l * (ONE + 1),
            ll == l * l,
    ;
    assert(un < (ONE + 1) * (ONE + 1)) by (nonlinear_arith)
        requires
            un * ll < ll * ((ONE + 1) * (ONE + 1)),
            ll > 0,
    ;
}

/// The squared length of a vector, times the square of `k`, is the sum of
/// the squares of the magnitudes of its components, each times `k`.
proof fn lemma_scaled_norm2(v: V3, k: int)
    ensures
        v.norm2() * (k * k) == (magnitude(v.x) * k) * (magnitude(v.x) * k) + (magnitude(v.y) * k)
            * (magnitude(v.y) * k) + (magnitude(v.z) * k) * (magnitude(v.z) * k),
{
    lemma_square_of_product(magnitude(v.x), k);
    lemma_square_of_product(magnitude(v.y), k);
    lemma_square_of_product(magnitude(v.z), k);
    lemma_square_of_magnitude(v.x);
    lemma_square_of_magnitude(v.y);
    lemma_square_of_magnitude(v.z);
    let n = v.norm2();
    let kk = k * k;
    assert(n * kk == (v.x * v.x) * kk + (v.y * v.y) * kk + (v.z * v.z) * kk) by (nonlinear_arith)
        requires
            n == v.x * v.x + v.y * v.y + v.z * v.z,
    ;
}

/// The square of what misses `w` by less than `l` from below is at least
/// `w * w - 2 * l * w`.
proof fn lemma_square_from_below(v: int, w: int, l: int)
    requires
        0 <= v <= w,
        w - l < v,
        l > 0,
    ensures
        v * v >= w * w - (2 * l) * w,
{
    if w >= l {
        let t = w - l;
        assert(v * v >= t * t) by (nonlinear_arith)
            requires
                0 <= t <= v,
        ;
        assert(t * t == w * w - (2 * l) * w + l * l) by (nonlinear_arith)
            requires
                t == w - l,
        ;
        assert(0 <= l * l) by (nonlinear_arith);
    } else {
        assert(w * w <= (2 * l) * w) by (nonlinear_arith)
            requires
                0 <= w < l,
        ;
        assert(0 <= v * v) by (nonlinear_arith);
    }
}

/// The square of the sum of three numbers is at most three times the sum
/// of their squares.
proof fn lemma_sum_squared(x: int, y: int, z: int)
    ensures
        (x + y + z) * (x + y + z) <= 3 * (x * x + y * y + z * z),
{
    let (p, q, r) = (x - y, y - z, z - x);
    assert(0 <= p * p && 0 <= q * q && 0 <= r * r) by (nonlinear_arith);
    assert(3 * (x * x + y * y + z * z) - (x + y + z) * (x + y + z) == p * p + q * q + r * r)
        by (nonlinear_arith)
        requires
            p == x - y,
            q == y - z,
            r == z - x,
    ;
}

/// A unit vector is no shorter than one less two units in the last place:
/// its squared length is at least the square of `ONE - 2`.
pub proof fn lemma_unit_length_below(a: V3)
    requires
        !a.is_zero(),
    ensures
        a.unit().norm2() >= (ONE - 2) * (ONE - 2),
{
    lemma_unit_bounded(a);
    let b = ONE * ONE;
    assert(b == 0x1_0000_0000) by (nonlinear_arith)
        requires
            b == ONE * ONE,
            ONE == 65536,
    ;
    let n = a.norm2();
    let l = a.fine_length();
    let u = a.unit();
    let (mx, my, mz) = (magnitude(u.x), magnitude(u.y), magnitude(u.z));
    let (cx, cy, cz) = (magnitude(a.x), magnitude(a.y), magnitude(a.z));
    lemma_unit_component(a.x, l);
    lemma_unit_component(a.y, l);
    lemma_unit_component(a.z, l);
    let (vx, vy, vz) = (mx * l, my * l, mz * l);
    let (wx, wy, wz) = (cx * b, cy * b, cz * b);
    assert(0 <= vx && 0 <= vy && 0 <= vz) by (nonlinear_arith)
        requires
            vx == mx * l,
            vy == my * l,
            vz == mz * l,
            0 <= mx,
            0 <= my,
            0 <= mz,
            l > 0,
    ;
    lemma_square_from_below(vx, wx, l);
    lemma_square_from_below(vy, wy, l);
    lemma_square_from_below(vz, wz, l);
    let ll = l * l;
    let bb = b * b;
    let un = u.norm2();
    lemma_scaled_norm2(u, l);
    lemma_scaled_norm2(a, b);
    let c = cx + cy + cz;
    let s = wx + wy + wz;
    assert(s == c * b) by (nonlinear_arith)
        requires
            s == cx * b + cy * b + cz * b,
            c == cx + cy + cz,
    ;
    assert((2 * l) * s == (2 * l) * wx + (2 * l) * wy + (2 * l) * wz) by (nonlinear_arith)
        requires
            s == wx + wy + wz,
    ;
    assert(un * ll >= n * bb - (2 * l) * s);
    // The sum of the magnitudes, four times over, is below seven fine lengths.
    lemma_sum_squared(cx, cy, cz);
    lemma_square_of_magnitude(a.x);
    lemma_square_of_magnitude(a.y);
    lemma_square_of_magnitude(a.z);
    let k = 4 * (c * ONE);
    assert(k * k == 16 * ((c * c) * b)) by (nonlinear_arith)
        requires
            k == 4 * (c * ONE),
            b == ONE * ONE,
    ;
    assert((c * c) * b <= (3 * n) * b) by (nonlinear_arith)
        requires
            c * c <= 3 * n,
            b > 0,
    ;
    assert((3 * n) * b == 3 * (n * ONE * ONE)) by (nonlinear_arith)
        requires
            b == ONE * ONE,
    ;
    let g = 7 * (l + 1);
    assert(g * g == 49 * ((l + 1) * (l + 1))) by (nonlinear_arith)
        requires
            g == 7 * (l + 1),
    ;
    assert(k * k < g * g);
    assert(k < g) by (nonlinear_arith)
        requires
            k * k < g * g,
            0 <= g,
    ;
    assert(4 * s == k * ONE) by (nonlinear_arith)
        requires
            s == c * b,
            b == ONE * ONE,
            k == 4 * (c * ONE),
    ;
    assert(4 * ((2 * l) * s) <= (2 * l) * (g * ONE)) by (nonlinear_arith)
        requires
            4 * s == k * ONE,
            k < g,
            l > 0,
            ONE == 65536,
    ;
    assert(n * bb >= b * ll) by (nonlinear_arith)
        requires
            ll == l * l,
            l * l <= n * ONE * ONE,
            bb == b * b,
            b == ONE * ONE,
            b > 0,
    ;
    let goal = (ONE - 2) * (ONE - 2);
    assert(goal == b - 4 * ONE + 4) by (nonlinear_arith)
        requires
            goal == (ONE - 2) * (ONE - 2),
            b == ONE * ONE,
    ;
    assert(4 * (un * ll) >= 4 * (goal * ll)) by (nonlinear_arith)
        requires
            un * ll >= n * bb - (2 * l) * s,
            4 * ((2 * l) * s) <= (2 * l) * (g * ONE),
            n * bb >= b * ll,
            g == 7 * (l + 1),
            goal == b - 4 * ONE + 4,
            ll == l * l,
            l >= ONE,
            ONE == 65536,
    ;
    assert(ll > 0) by (nonlinear_arith)
        requires
            ll == l * l,
            l > 0,
    ;
    assert(un >= goal) by (nonlinear_arith)
        requires
            4 * (un * ll) >= 4 * (goal * ll),
            ll > 0,
    ;
}

/// Negation keeps the length.
pub proof fn lemma_negated_norm2(a: V3)
    ensures
        a.negated().norm2() == a.norm2(),
{
    lemma_square_of_magnitude(a.x);
    lemma_square_of_magnitude(a.y);
    lemma_square_of_magnitude(a.z);
    lemma_square_of_magnitude(-a.x);
    lemma_square_of_magnitude(-a.y);
    lemma_square_of_magnitude(-a.z);
}

/// The product of a scalar's raw value and a component, divided by one,
/// times one: no more than the product, and short of it by less than one.
proof fn lemma_scaled_component(r: int, c: int)
    requires
        0 <= r,
    ensures
        magnitude(product(r, c)) * ONE <= r * magnitude(c),
        magnitude(product(r, c)) * ONE > r * magnitude(c) - ONE,
        0 <= magnitude(product(r, c)),
{
    let x = magnitude(r * c);
    assert(x == r * magnitude(c)) by (nonlinear_arith)
        requires
            x == magnitude(r * c),
            0 <= r,
    ;
    let q = x / 65536;
    assert(magnitude(product(r, c)) == q);
}

/// A point of the unit sphere given by its height and by the cosine and
/// sine of its azimuth has unit length, up to rounding: where the cosine
/// and the sine are those of one angle, up to rounding, the squared
/// length lies between the squares of `ONE - 6` and of `ONE + 1`.
pub proof fn lemma_on_sphere_length(z: int, c: int, s: int)
    requires
        -ONE <= z <= ONE,
        -ONE <= c <= ONE,
        -ONE <= s <= ONE,
        (ONE - 2) * (ONE - 2) <= c * c + s * s < (ONE + 1) * (ONE + 1),
    ensures
        (ONE - 6) * (ONE - 6) <= on_sphere(z, c, s).norm2() < (ONE + 1) * (ONE + 1),
{
    let b = ONE * ONE;
    assert(b == 0x1_0000_0000) by (nonlinear_arith)
        requires
            b == ONE * ONE,
            ONE == 65536,
    ;
    let k = (ONE + 1) * (ONE + 1);
    assert(k == b + 2 * ONE + 1) by (nonlinear_arith)
        requires
            k == (ONE + 1) * (ONE + 1),
            b == ONE * ONE,
    ;
    let low = (ONE - 2) * (ONE - 2);
    assert(low == b - 4 * ONE + 4) by (nonlinear_arith)
        requires
            low == (ONE - 2) * (ONE - 2),
            b == ONE * ONE,
    ;
    let zz = z * z;
    lemma_product_bound(z, z, ONE as int, ONE as int);
    assert(0 <= zz) by (nonlinear_arith)
        requires
            zz == z * z,
    ;
    crate::algebra::fixed::lemma_floor_sqrt_exists(b - zz);
    let r = floor_sqrt(b - zz);
    let rr = r * r;
    assert(r <= ONE) by (nonlinear_arith)
        requires
            r * r <= b - zz,
            0 <= zz,
            b == 0x1_0000_0000,
            0 <= r,
            ONE == 65536,
    ;
    assert(rr >= b - zz - 2 * ONE) by (nonlinear_arith)
        requires
            rr == r * r,
            b - zz < (r + 1) * (r + 1),
            r <= ONE,
    ;
    assert(0 <= rr) by (nonlinear_arith)
        requires
            rr == r * r,
    ;
    let p = on_sphere(z, c, s);
    let (mx, my) = (magnitude(p.x), magnitude(p.y));
    let (ac, as_) = (magnitude(c), magnitude(s));
    lemma_scaled_component(r, c);
    lemma_scaled_component(r, s);
    let (vx, vy) = (mx * ONE, my * ONE);
    let (wx, wy) = (r * ac, r * as_);
    assert(0 <= wx && 0 <= wy && wx <= ONE * ONE && wy <= ONE * ONE) by (nonlinear_arith)
        requires
            wx == r * ac,
            wy == r * as_,
            0 <= r <= ONE,
            0 <= ac <= ONE,
            0 <= as_ <= ONE,
    ;
    lemma_square_monotone(vx, wx);
    lemma_square_monotone(vy, wy);
    lemma_square_from_below(vx, wx, ONE as int);
    lemma_square_from_below(vy, wy, ONE as int);
    lemma_square_of_product(mx, ONE as int);
    lemma_square_of_product(my, ONE as int);
    lemma_square_of_product(r, ac);
    lemma_square_of_product(r, as_);
    lemma_square_of_magnitude(p.x);
    lemma_square_of_magnitude(p.y);
    lemma_square_of_magnitude(c);
    lemma_square_of_magnitude(s);
    let xy = p.x * p.x + p.y * p.y;
    let cs = c * c + s * s;
    assert(xy * b == (p.x * p.x) * b + (p.y * p.y) * b) by (nonlinear_arith)
        requires
            xy == p.x * p.x + p.y * p.y,
    ;
    assert(rr * cs == rr * (c * c) + rr * (s * s)) by (nonlinear_arith)
        requires
            cs == c * c + s * s,
    ;
    assert(xy * b <= rr * cs);
    assert(rr * cs <= (b - zz) * (k - 1)) by (nonlinear_arith)
        requires
            0 <= rr <= b - zz,
            0 <= cs <= k - 1,
    ;
    let n = p.norm2();
    assert(n == xy + zz);
    assert(n * b == xy * b + zz * b) by (nonlinear_arith)
        requires
            n == xy + zz,
    ;
    assert(n * b <= (k - 1) * b) by (nonlinear_arith)
        requires
            n * b <= (b - zz) * (k - 1) + zz * b,
            k - 1 >= b,
            0 <= zz <= b,
    ;
    assert(n <= k - 1) by (nonlinear_arith)
        requires
            n * b <= (k - 1) * b,
            b > 0,
    ;
    assert(xy * b >= rr * cs - (2 * ONE) * (wx + wy)) by (nonlinear_arith)
        requires
            xy * b == vx * vx + vy * vy,
            rr * cs == wx * wx + wy * wy,
            vx * vx >= wx * wx - (2 * ONE) * wx,
            vy * vy >= wy * wy - (2 * ONE) * wy,
    ;
    assert((2 * ONE) * (wx + wy) <= 4 * (ONE * b)) by (nonlinear_arith)
        requires
            0 <= wx <= b,
            0 <= wy <= b,
            ONE == 65536,
    ;
    assert(rr * cs >= (b - zz) * b - 6 * (ONE * b)) by (nonlinear_arith)
        requires
            rr >= b - zz - 2 * ONE,
            0 <= rr,
            cs >= b - 4 * ONE + 4,
            0 <= zz <= b,
            b == 0x1_0000_0000,
            ONE == 65536,
    ;
    assert(n * b >= (b - 10 * ONE) * b) by (nonlinear_arith)
        requires
            n * b == xy * b + zz * b,
            xy * b >= rr * cs - (2 * ONE) * (wx + wy),
            (2 * ONE) * (wx + wy) <= 4 * (ONE * b),
            rr * cs >= (b - zz) * b - 6 * (ONE * b),
    ;
    assert(n >= b - 10 * ONE) by (nonlinear_arith)
        requires
            n * b >= (b - 10 * ONE) * b,
            b > 0,
    ;
    assert((ONE - 6) * (ONE - 6) <= b - 10 * ONE) by (nonlinear_arith)
        requires
            b == ONE * ONE,
            ONE == 65536,
    ;
}

/// The square of an inner product is at most the product of the squared
/// lengths.
pub proof fn lemma_inner_squared(x: V3, y: V3)
    ensures
        x.inner(y) * x.inner(y) <= x.norm2() * y.norm2(),
{
    let (p11, p12, p13) = (x.x * y.x, x.x * y.y, x.x * y.z);
    let (p21, p22, p23) = (x.y * y.x, x.y * y.y, x.y * y.z);
    let (p31, p32, p33) = (x.z * y.x, x.z * y.y, x.z * y.z);
    lemma_square_of_product(x.x, y.x);
    lemma_square_of_product(x.x, y.y);
    lemma_square_of_product(x.x, y.z);
    lemma_square_of_product(x.y, y.x);
    lemma_square_of_product(x.y, y.y);
    lemma_square_of_product(x.y, y.z);
    lemma_square_of_product(x.z, y.x);
    lemma_square_of_product(x.z, y.y);
    lemma_square_of_product(x.z, y.z);
    let (a1, a2, a3) = (x.x * x.x, x.y * x.y, x.z * x.z);
    let (b1, b2, b3) = (y.x * y.x, y.y * y.y, y.z * y.z);
    assert((a1 + a2 + a3) * (b1 + b2 + b3) == a1 * b1 + a1 * b2 + a1 * b3 + a2 * b1 + a2 * b2 + a2
        * b3 + a3 * b1 + a3 * b2 + a3 * b3) by (nonlinear_arith);
    let (m12, m13, m23) = (p11 * p22, p11 * p33, p22 * p33);
    assert(p12 * p21 == m12) by (nonlinear_arith)
        requires
            p12 == x.x * y.y,
            p21 == x.y * y.x,
            m12 == (x.x * y.x) * (x.y * y.y),
    ;
    assert(p13 * p31 == m13) by (nonlinear_arith)
        requires
            p13 == x.x * y.z,
            p31 == x.z * y.x,
            m13 == (x.x * y.x) * (x.z * y.z),
    ;
    assert(p23 * p32 == m23) by (nonlinear_arith)
        requires
            p23 == x.y * y.z,
            p32 == x.z * y.y,
            m23 == (x.y * y.y) * (x.z * y.z),
    ;
    let i = p11 + p22 + p33;
    assert(i * i == p11 * p11 + p22 * p22 + p33 * p33 + 2 * m12 + 2 * m13 + 2 * m23)
        by (nonlinear_arith)
        requires
            i == p11 + p22 + p33,
            m12 == p11 * p22,
            m13 == p11 * p33,
            m23 == p22 * p33,
    ;
    lemma_difference_squared(p12, p21);
    lemma_difference_squared(p13, p31);
    lemma_difference_squared(p23, p32);
}

/// The square of a difference, which is not negative.
proof fn lemma_difference_squared(a: int, b: int)
    ensures
        a * a - 2 * (a * b) + b * b >= 0,
{
    let d = a - b;
    assert(d * d == a * a - 2 * (a * b) + b * b) by (nonlinear_arith)
        requires
            d == a - b,
    ;
    assert(d * d >= 0) by (nonlinear_arith);
}

/// What has a square no greater than that of a bound is no greater in
/// magnitude than the bound.
pub proof fn lemma_root_monotone(t: int, u: int)
    requires
        t * t <= u * u,
        0 <= u,
    ensures
        -u <= t <= u,
{
    if t > u {
        assert(t * t > u * u) by (nonlinear_arith)
            requires
                t > u,
                u >= 0,
        ;
    }
    if t < -u {
        assert(t * t > u * u) by (nonlinear_arith)
            requires
                t < -u,
                u >= 0,
        ;
    }
}

/// The triangle inequality on squared lengths: the sum and the difference
/// of two vectors are no longer than the bounds of their lengths added.
pub proof fn lemma_triangle(x: V3, y: V3, bx: int, by: int)
    requires
        0 <= bx,
        0 <= by,
        x.norm2() <= bx * bx,
        y.norm2() <= by * by,
    ensures
        x.plus(y).norm2() <= (bx + by) * (bx + by),
        x.minus(y).norm2() <= (bx + by) * (bx + by),
{
    lemma_inner_squared(x, y);
    lemma_norm2_dominates(x);
    lemma_norm2_dominates(y);
    let i = x.inner(y);
    let (n, m) = (x.norm2(), y.norm2());
    let (bx2, by2) = (bx * bx, by * by);
    assert(n * m <= bx2 * by2) by (nonlinear_arith)
        requires
            0 <= n <= bx2,
            0 <= m <= by2,
    ;
    let b = bx * by;
    assert(bx2 * by2 == b * b) by (nonlinear_arith)
        requires
            bx2 == bx * bx,
            by2 == by * by,
            b == bx * by,
    ;
    assert(0 <= b) by (nonlinear_arith)
        requires
            b == bx * by,
            0 <= bx,
            0 <= by,
    ;
    lemma_root_monotone(i, b);
    lemma_sum_square(x.x, y.x);
    lemma_sum_square(x.y, y.y);
    lemma_sum_square(x.z, y.z);
    assert(x.plus(y).norm2() == n + 2 * i + m);
    assert(x.minus(y).norm2() == n - 2 * i + m);
    assert((bx + by) * (bx + by) == bx2 + 2 * b + by2) by (nonlinear_arith)
        requires
            bx2 == bx * bx,
            by2 == by * by,
            b == bx * by,
    ;
}

/// The squares of a sum and of a difference.
pub proof fn lemma_sum_square(a: int, b: int)
    ensures
        (a + b) * (a + b) == a * a + 2 * (a * b) + b * b,
        (a - b) * (a - b) == a * a - 2 * (a * b) + b * b,
{
    assert((a + b) * (a + b) == a * a + 2 * (a * b) + b * b) by (nonlinear_arith);
    assert((a - b) * (a - b) == a * a - 2 * (a * b) + b * b) by (nonlinear_arith);
}

/// The square of a product is the product of the squares.
pub proof fn lemma_square_of_product(a: int, b: int)
    ensures
        (a * b) * (a * b) == (a * a) * (b * b),
{
    assert((a * b) * (a * b) == (a * a) * (b * b)) by (nonlinear_arith);
}

/// A number and its magnitude have the same square.
proof fn lemma_square_of_magnitude(a: int)
    ensures
        magnitude(a) * magnitude(a) == a * a,
{
    assert((-a) * (-a) == a * a) by (nonlinear_arith);
}

/// A vector, point or color whose components are fixed-point scalars of
/// magnitude at most `LIMIT`.
#[derive(Clone, Copy, Debug)]
pub struct Vec3 {
    x: i64,
    y: i64,
    z: i64,
}

pub type Point3 = Vec3;

pub type Color = Vec3;

impl View for Vec3 {
    type V = V3;

    closed spec fn view(&self) -> V3 {
        V3 { x: self.x as int, y: self.y as int, z: self.z as int }
    }
}

impl Vec3 {
    /// What holds of every machine vector.
    #[verifier::type_invariant]
    pub open spec fn wf(self) -> bool {
        self@.bounded(LIMIT as int)
    }

    /// The machine vector that stands for `v`.
    pub closed spec fn of(v: V3) -> Vec3 {
        Vec3 { x: v.x as i64, y: v.y as i64, z: v.z as i64 }
    }

    /// `of` undoes the view, for vectors within the limit.
    pub broadcast proof fn lemma_of_view(v: V3)
        requires
            v.bounded(LIMIT as int),
        ensures
            #[trigger] Vec3::of(v)@ == v,
    {
    }

    /// The view undoes `of`.
    pub broadcast proof fn lemma_view_of(a: Vec3)
        ensures
            #[trigger] Vec3::of(a@) == a,
    {
    }

    pub fn new(e1: i64, e2: i64, e3: i64) -> (r: Vec3)
        requires
            in_limit(e1 as int),
            in_limit(e2 as int),
            in_limit(e3 as int),
        ensures
            r@ == (V3 { x: e1 as int, y: e2 as int, z: e3 as int }),
    {
        Vec3 { x: e1, y: e2, z: e3 }
    }

    /// The vector of the given components, if each lies within the limit.
    pub fn checked(e1: i64, e2: i64, e3: i64) -> (r: Option<Vec3>)
        ensures
            r.is_some() <==> in_limit(e1 as int) && in_limit(e2 as int) && in_limit(e3 as int),
            r.is_some() ==> r.unwrap()@ == (V3 { x: e1 as int, y: e2 as int, z: e3 as int }),
    {
        if -LIMIT <= e1 && e1 <= LIMIT && -LIMIT <= e2 && e2 <= LIMIT && -LIMIT <= e3 && e3
            <= LIMIT {
            Some(Vec3 { x: e1, y: e2, z: e3 })
        } else {
            None
        }
    }

    /// The vector whose components are the given wide integers, if each
    /// lies within the limit.
    pub(crate) fn narrowed(e1: i128, e2: i128, e3: i128) -> (r: Option<Vec3>)
        ensures
            r.is_some() <==> (V3 { x: e1 as int, y: e2 as int, z: e3 as int }).bounded(
                LIMIT as int,
            ),
            r.is_some() ==> r.unwrap()@ == (V3 { x: e1 as int, y: e2 as int, z: e3 as int }),
    {
        let m: i128 = LIMIT as i128;
        if -m <= e1 && e1 <= m && -m <= e2 && e2 <= m && -m <= e3 && e3 <= m {
            Some(Vec3 { x: e1 as i64, y: e2 as i64, z: e3 as i64 })
        } else {
            None
        }
    }

    pub fn x(&self) -> (r: i64)
        ensures
            r == self@.x,
            in_limit(r as int),
    {
        proof {
            use_type_invariant(self);
        }
        self.x
    }

    pub fn y(&self) -> (r: i64)
        ensures
            r == self@.y,
            in_limit(r as int),
    {
        proof {
            use_type_invariant(self);
        }
        self.y
    }

    pub fn z(&self) -> (r: i64)
        ensures
            r == self@.z,
            in_limit(r as int),
    {
        proof {
            use_type_invariant(self);
        }
        self.z
    }

    pub fn is_zero(&self) -> (r: bool)
        ensures
            r == self@.is_zero(),
    {
        self.x == 0 && self.y == 0 && self.z == 0
    }

    pub fn is_fraction(&self) -> (r: bool)
        ensures
            r == self@.is_fraction(),
    {
        0 <= self.x && self.x <= ONE && 0 <= self.y && self.y <= ONE && 0 <= self.z && self.z
            <= ONE
    }

    /// The exact inner product of the raw components.
    pub fn inner(&self, other: Vec3) -> (r: i128)
        ensures
            r == self@.inner(other@),
            -3 * LIMIT_SQUARED <= r <= 3 * LIMIT_SQUARED,
    {
        proof {
            lemma_limit_squared();
            use_type_invariant(self);
            use_type_invariant(&other);
            lemma_product_bound(self.x as int, other.x as int, LIMIT as int, LIMIT as int);
            lemma_product_bound(self.y as int, other.y as int, LIMIT as int, LIMIT as int);
            lemma_product_bound(self.z as int, other.z as int, LIMIT as int, LIMIT as int);
        }
        (self.x as i128) * (other.x as i128) + (self.y as i128) * (other.y as i128) + (
        self.z as i128) * (other.z as i128)
    }

    pub fn dot(&self, other: Vec3) -> (r: i64)
        ensures
            r == self@.dot(other@),
    {
        let wide: i128 = self.inner(other);
        proof {
            lemma_quot_shrinks(wide as int, ONE as int, 3 * LIMIT_SQUARED);
        }
        (wide / 65536) as i64
    }

    pub fn length_square(&self) -> (r: i64)
        ensures
            r == self@.length_square(),
            0 <= r,
    {
        let wide: i128 = self.inner(*self);
        proof {
            lemma_norm2_dominates(self@);
            lemma_quot_shrinks(wide as int, ONE as int, 3 * LIMIT_SQUARED);
        }
        (wide / 65536) as i64
    }

    pub fn length(&self) -> (r: i64)
        ensures
            r == self@.length(),
            0 <= r,
    {
        let wide: i128 = self.inner(*self);
        proof {
            lemma_norm2_dominates(self@);
        }
        let s: u64 = isqrt(wide as u128);
        assert(s < 0x1_0000_0000) by (nonlinear_arith)
            requires
                s * s <= wide,
                wide <= 3 * (0x4000_0000 * 0x4000_0000),
                0 <= s,
        ;
        s as i64
    }

    pub fn cross(&self, other: Vec3) -> (r: Vec3)
        requires
            self@.cross(other@).bounded(LIMIT as int),
        ensures
            r@ == self@.cross(other@),
    {
        proof {
            lemma_limit_squared();
            use_type_invariant(self);
            use_type_invariant(&other);
            lemma_product_bound(self.y as int, other.z as int, LIMIT as int, LIMIT as int);
            lemma_product_bound(self.z as int, other.y as int, LIMIT as int, LIMIT as int);
            lemma_product_bound(self.z as int, other.x as int, LIMIT as int, LIMIT as int);
            lemma_product_bound(self.x as int, other.z as int, LIMIT as int, LIMIT as int);
            lemma_product_bound(self.x as int, other.y as int, LIMIT as int, LIMIT as int);
            lemma_product_bound(self.y as int, other.x as int, LIMIT as int, LIMIT as int);
        }
        let cx: i128 = (self.y as i128) * (other.z as i128) - (self.z as i128) * (
        other.y as i128);
        let cy: i128 = (self.z as i128) * (other.x as i128) - (self.x as i128) * (
        other.z as i128);
        let cz: i128 = (self.x as i128) * (other.y as i128) - (self.y as i128) * (
        other.x as i128);
        Vec3 { x: (cx / 65536) as i64, y: (cy / 65536) as i64, z: (cz / 65536) as i64 }
    }

    /// The vector of unit length in the direction of `v`. A zero vector
    /// has no direction: callers pass a vector that is not zero.
    pub fn unit_vector(v: Vec3) -> (r: Vec3)
        requires
            !v@.is_zero(),
        ensures
            r@ == v@.unit(),
            r@.bounded(ONE as int),
            r@.is_unit(),
    {
        proof {
            use_type_invariant(&v);
        }
        unit_of(v.x, v.y, v.z)
    }
}

/// How often a draw that must fall inside a disk or ball is repeated
/// before a fixed value takes its place.
pub const MAX_TRIES: u32 = 64;

/// The point of the unit sphere at height `z` and at the azimuth whose
/// cosine and sine are `c` and `s`.
pub open spec fn on_sphere(z: int, c: int, s: int) -> V3 {
    let r = floor_sqrt(ONE * ONE - z * z);
    V3 { x: product(r, c), y: product(r, s), z: z }
}

/// `v`, turned to the side of the plane that `normal` points to: negated
/// where it points away from `normal`, and itself otherwise, also where
/// it lies in the plane.
pub open spec fn toward(v: V3, normal: V3) -> V3 {
    if v.inner(normal) < 0 {
        v.negated()
    } else {
        v
    }
}

impl Vec3 {
    /// The zero vector.
    pub fn zero() -> (r: Vec3)
        ensures
            r@ == (V3 { x: 0, y: 0, z: 0 }),
    {
        Vec3 { x: 0, y: 0, z: 0 }
    }

    /// The point of the unit sphere at height `z` and at the azimuth
    /// whose cosine and sine are `c` and `s`.
    pub fn unit_from(z: i64, c: i64, s: i64) -> (r: Vec3)
        requires
            -ONE <= z <= ONE,
            -ONE <= c <= ONE,
            -ONE <= s <= ONE,
        ensures
            r@ == on_sphere(z as int, c as int, s as int),
            r@.bounded(ONE as int),
    {
        proof {
            lemma_limit_squared();
            lemma_product_bound(z as int, z as int, ONE as int, ONE as int);
        }
        let under: i64 = ONE * ONE - z * z;
        assert(0 <= z * z) by (nonlinear_arith);
        let wide: u64 = isqrt(under as u128);
        assert(wide <= 65536) by (nonlinear_arith)
            requires
                wide * wide <= under,
                under <= 0x1_0000_0000,
                0 <= wide,
        ;
        let radius: i64 = wide as i64;
        proof {
            lemma_product_bound(radius as int, c as int, ONE as int, ONE as int);
            lemma_product_bound(radius as int, s as int, ONE as int, ONE as int);
            lemma_quot_bound(radius * c, ONE as int, ONE as int);
            lemma_quot_bound(radius * s, ONE as int, ONE as int);
        }
        Vec3 { x: (radius * c) / 65536, y: (radius * s) / 65536, z }
    }

    /// A vector drawn uniformly from the unit sphere: its height is drawn
    /// from `[-1, 1]` and its azimuth from the full circle.
    pub fn random_unit_vector() -> (r: Vec3)
        ensures
            r@.bounded(ONE as int),
            (ONE - 6) * (ONE - 6) <= r@.norm2() < (ONE + 1) * (ONE + 1),
            exists|z: int, c: int, s: int|
                -ONE <= z <= ONE && -ONE <= c <= ONE && -ONE <= s <= ONE && (ONE - 2) * (ONE - 2)
                    <= c * c + s * s < (ONE + 1) * (ONE + 1) && r@ == #[trigger] on_sphere(
                    z,
                    c,
                    s,
                ),
    {
        let a = random_azimuth();
        let z: i64 = random_in_range(-ONE, ONE + 1);
        proof {
            lemma_on_sphere_length(z as int, a.0 as int, a.1 as int);
        }
        Vec3::unit_from(z, a.0, a.1)
    }

    /// A vector whose components are drawn uniformly from `[0, 1)`.
    pub fn random() -> (r: Vec3)
        ensures
            0 <= r@.x < ONE,
            0 <= r@.y < ONE,
            0 <= r@.z < ONE,
    {
        Vec3::random_in_range(0, ONE)
    }

    /// A vector whose components are drawn uniformly from `[min, max)`.
    pub fn random_in_range(min: i64, max: i64) -> (r: Vec3)
        requires
            min < max,
            in_limit(min as int),
            in_limit(max as int),
        ensures
            min <= r@.x < max,
            min <= r@.y < max,
            min <= r@.z < max,
    {
        let x: i64 = random_in_range(min, max);
        let y: i64 = random_in_range(min, max);
        let z: i64 = random_in_range(min, max);
        Vec3 { x, y, z }
    }

    /// Whether the vector lies strictly inside the unit sphere.
    pub fn is_inside_unit_sphere(&self) -> (r: bool)
        ensures
            r == (self@.norm2() < ONE * ONE),
    {
        proof {
            lemma_limit_squared();
        }
        self.inner(*self) < (ONE as i128) * (ONE as i128)
    }

    /// A vector drawn uniformly from the inside of the unit sphere: points
    /// of the enclosing cube are drawn until one falls inside. After
    /// `MAX_TRIES` points outside, the center is returned.
    pub fn random_in_unit_sphere() -> (r: Vec3)
        ensures
            r@.norm2() < ONE * ONE,
            r@.bounded(ONE as int),
    {
        let mut tries: u32 = 0;
        while tries < MAX_TRIES
            invariant
                tries <= MAX_TRIES,
            decreases MAX_TRIES - tries,
        {
            let p = Vec3::random_in_range(-ONE, ONE);
            if p.is_inside_unit_sphere() {
                return p;
            }
            tries = tries + 1;
        }
        Vec3::zero()
    }

    /// The vector, turned to the side of the plane that `normal` points to.
    pub fn toward(self, normal: Vec3) -> (r: Vec3)
        ensures
            r@ == toward(self@, normal@),
            r@.norm2() == self@.norm2(),
            r@.inner(normal@) >= 0,
    {
        proof {
            use_type_invariant(&self);
            lemma_negated_norm2(self@);
            let v = self@;
            assert((-v.x) * normal@.x == -(v.x * normal@.x)) by (nonlinear_arith);
            assert((-v.y) * normal@.y == -(v.y * normal@.y)) by (nonlinear_arith);
            assert((-v.z) * normal@.z == -(v.z * normal@.z)) by (nonlinear_arith);
        }
        if self.inner(normal) < 0 {
            Vec3 { x: -self.x, y: -self.y, z: -self.z }
        } else {
            self
        }
    }

    /// A vector drawn uniformly from the half of the unit ball that
    /// `normal` points to.
    pub fn random_in_hemisphere(normal: Vec3) -> (r: Vec3)
        ensures
            r@.norm2() < ONE * ONE,
            r@.bounded(ONE as int),
            r@.inner(normal@) >= 0,
            exists|v: V3| v.norm2() < ONE * ONE && r@ == #[trigger] toward(v, normal@),
    {
        let rnd_in_unit_sphere = Vec3::random_in_unit_sphere();
        let r = rnd_in_unit_sphere.toward(normal);
        assert(rnd_in_unit_sphere@.norm2() < ONE * ONE && r@ == toward(
            rnd_in_unit_sphere@,
            normal@,
        ));
        r
    }
}

/// The flat vector `(x, y, 0)`.
pub open spec fn flat(x: int, y: int) -> V3 {
    V3 { x: x, y: y, z: 0 }
}

/// The cosine and sine of the azimuth of the point `(x, y)`, where the
/// point lies in the unit disk and not in its center.
pub fn azimuth_of(x: i64, y: i64) -> (r: Option<(i64, i64)>)
    requires
        -ONE <= x <= ONE,
        -ONE <= y <= ONE,
    ensures
        r is Some <==> !flat(x as int, y as int).is_zero() && flat(x as int, y as int).norm2() < ONE
            * ONE,
        r is Some ==> r->Some_0.0 == flat(x as int, y as int).unit().x && r->Some_0.1 == flat(
            x as int,
            y as int,
        ).unit().y,
        r is Some ==> -ONE <= r->Some_0.0 <= ONE && -ONE <= r->Some_0.1 <= ONE && (ONE - 2) * (ONE
            - 2) <= r->Some_0.0 * r->Some_0.0 + r->Some_0.1 * r->Some_0.1 < (ONE + 1) * (ONE + 1),
{
    proof {
        lemma_product_bound(x as int, x as int, ONE as int, ONE as int);
        lemma_product_bound(y as int, y as int, ONE as int, ONE as int);
        lemma_limit_squared();
        assert(0int * 0int == 0);
    }
    let n: i64 = x * x + y * y;
    if (x != 0 || y != 0) && n < ONE * ONE {
        let u = unit_of(x, y, 0);
        assert(u@.z == 0) by {
            lemma_unit_bounded(flat(x as int, y as int));
            lemma_unit_component(0, flat(x as int, y as int).fine_length());
            assert(0int * ONE * ONE == 0);
        }
        assert(u@.z * u@.z == 0);
        Some((u.x(), u.y()))
    } else {
        None
    }
}

/// The cosine and sine of an azimuth drawn uniformly from the full
/// circle: a point is drawn from the unit disk, the center left out, and
/// scaled to unit length. After `MAX_TRIES` points outside the disk, the
/// azimuth is zero.
fn random_azimuth() -> (r: (i64, i64))
    ensures
        -ONE <= r.0 <= ONE,
        -ONE <= r.1 <= ONE,
        (ONE - 2) * (ONE - 2) <= r.0 * r.0 + r.1 * r.1 < (ONE + 1) * (ONE + 1),
{
    let mut tries: u32 = 0;
    while tries < MAX_TRIES
        invariant
            tries <= MAX_TRIES,
        decreases MAX_TRIES - tries,
    {
        let x: i64 = random_in_range(-ONE, ONE);
        let y: i64 = random_in_range(-ONE, ONE);
        match azimuth_of(x, y) {
            Some(a) => {
                return a;
            },
            None => {},
        }
        tries = tries + 1;
    }
    proof {
        lemma_limit_squared();
        assert((ONE - 2) * (ONE - 2) <= ONE * ONE < (ONE + 1) * (ONE + 1)) by (nonlinear_arith)
            requires
                ONE == 65536,
        ;
        assert(0int * 0int == 0);
    }
    (ONE, 0)
}

/// The unit vector in the direction of the raw vector `(x, y, z)`, whose
/// components may reach twice the limit.
pub(crate) fn unit_of(x: i64, y: i64, z: i64) -> (r: Vec3)
    requires
        (V3 { x: x as int, y: y as int, z: z as int }).bounded(2 * LIMIT),
        !(V3 { x: x as int, y: y as int, z: z as int }).is_zero(),
    ensures
        r@ == (V3 { x: x as int, y: y as int, z: z as int }).unit(),
        r@.bounded(ONE as int),
        r@.is_unit(),
{
    let ghost v = V3 { x: x as int, y: y as int, z: z as int };
    proof {
        lemma_unit_length_above(v);
        lemma_unit_length_below(v);
        lemma_limit_squared();
        lemma_product_bound(x as int, x as int, 2 * LIMIT, 2 * LIMIT);
        lemma_product_bound(y as int, y as int, 2 * LIMIT, 2 * LIMIT);
        lemma_product_bound(z as int, z as int, 2 * LIMIT, 2 * LIMIT);
        lemma_norm2_dominates(v);
        lemma_unit_bounded(v);
    }
    let n: i128 = (x as i128) * (x as i128) + (y as i128) * (y as i128) + (z as i128) * (
    z as i128);
    let big: u128 = (n as u128) * 0x1_0000_0000;
    assert(big == v.norm2() * ONE * ONE) by (nonlinear_arith)
        requires
            big == n * 0x1_0000_0000,
            n == v.norm2(),
    ;
    let l: u64 = isqrt(big);
    assert(l < 0x1_0000_0000_0000) by (nonlinear_arith)
        requires
            l * l <= big,
            big <= 3 * (0x8000_0000 * 0x8000_0000) * 0x1_0000_0000,
            0 <= l,
    ;
    let d: i128 = l as i128;
    let ux: i128 = quot_wide((x as i128) * 0x1_0000_0000, d);
    let uy: i128 = quot_wide((y as i128) * 0x1_0000_0000, d);
    let uz: i128 = quot_wide((z as i128) * 0x1_0000_0000, d);
    assert(x * 0x1_0000_0000 == x * ONE * ONE && y * 0x1_0000_0000 == y * ONE * ONE && z
        * 0x1_0000_0000 == z * ONE * ONE) by (nonlinear_arith);
    Vec3 { x: ux as i64, y: uy as i64, z: uz as i64 }
}

impl core::ops::Neg for Vec3 {
    type Output = Vec3;

    fn neg(self) -> (r: Vec3) {
        proof {
            use_type_invariant(&self);
        }
        Vec3 { x: -self.x, y: -self.y, z: -self.z }
    }
}

impl vstd::std_specs::ops::NegSpecImpl for Vec3 {
    open spec fn obeys_neg_spec() -> bool {
        true
    }

    open spec fn neg_req(self) -> bool {
        true
    }

    open spec fn neg_spec(self) -> Vec3 {
        Vec3::of(self@.negated())
    }
}

impl core::ops::Add for Vec3 {
    type Output = Vec3;

    fn add(self, rhs: Vec3) -> (r: Vec3) {
        proof {
            use_type_invariant(&self);
            use_type_invariant(&rhs);
        }
        Vec3 { x: self.x + rhs.x, y: self.y + rhs.y, z: self.z + rhs.z }
    }
}

impl vstd::std_specs::ops::AddSpecImpl for Vec3 {
    open spec fn obeys_add_spec() -> bool {
        true
    }

    open spec fn add_req(self, rhs: Vec3) -> bool {
        self@.plus(rhs@).bounded(LIMIT as int)
    }

    open spec fn add_spec(self, rhs: Vec3) -> Vec3 {
        Vec3::of(self@.plus(rhs@))
    }
}

impl core::ops::Sub for Vec3 {
    type Output = Vec3;

    fn sub(self, rhs: Vec3) -> (r: Vec3) {
        proof {
            use_type_invariant(&self);
            use_type_invariant(&rhs);
        }
        Vec3 { x: self.x - rhs.x, y: self.y - rhs.y, z: self.z - rhs.z }
    }
}

impl vstd::std_specs::ops::SubSpecImpl for Vec3 {
    open spec fn obeys_sub_spec() -> bool {
        true
    }

    open spec fn sub_req(self, rhs: Vec3) -> bool {
        self@.minus(rhs@).bounded(LIMIT as int)
    }

    open spec fn sub_spec(self, rhs: Vec3) -> Vec3 {
        Vec3::of(self@.minus(rhs@))
    }
}

impl core::ops::Mul<i64> for Vec3 {
    type Output = Vec3;

    fn mul(self, rhs: i64) -> (r: Vec3) {
        proof {
            use_type_invariant(&self);
        }
        let k: i128 = rhs as i128;
        proof {
            lemma_product_bound(self.x as int, k as int, LIMIT as int, 0x8000_0000_0000_0000);
            lemma_product_bound(self.y as int, k as int, LIMIT as int, 0x8000_0000_0000_0000);
            lemma_product_bound(self.z as int, k as int, LIMIT as int, 0x8000_0000_0000_0000);
        }
        let px: i128 = ((self.x as i128) * k) / 65536;
        let py: i128 = ((self.y as i128) * k) / 65536;
        let pz: i128 = ((self.z as i128) * k) / 65536;
        Vec3 { x: px as i64, y: py as i64, z: pz as i64 }
    }
}

impl vstd::std_specs::ops::MulSpecImpl<i64> for Vec3 {
    open spec fn obeys_mul_spec() -> bool {
        true
    }

    open spec fn mul_req(self, rhs: i64) -> bool {
        self@.scaled(rhs as int).bounded(LIMIT as int)
    }

    open spec fn mul_spec(self, rhs: i64) -> Vec3 {
        Vec3::of(self@.scaled(rhs as int))
    }
}

impl core::ops::Mul<Vec3> for Vec3 {
    type Output = Vec3;

    fn mul(self, rhs: Vec3) -> (r: Vec3) {
        proof {
            use_type_invariant(&self);
            use_type_invariant(&rhs);
            lemma_product_bound(self.x as int, rhs.x as int, LIMIT as int, LIMIT as int);
            lemma_product_bound(self.y as int, rhs.y as int, LIMIT as int, LIMIT as int);
            lemma_product_bound(self.z as int, rhs.z as int, LIMIT as int, LIMIT as int);
            lemma_limit_squared();
        }
        let px: i128 = ((self.x as i128) * (rhs.x as i128)) / 65536;
        let py: i128 = ((self.y as i128) * (rhs.y as i128)) / 65536;
        let pz: i128 = ((self.z as i128) * (rhs.z as i128)) / 65536;
        Vec3 { x: px as i64, y: py as i64, z: pz as i64 }
    }
}

impl vstd::std_specs::ops::MulSpecImpl<Vec3> for Vec3 {
    open spec fn obeys_mul_spec() -> bool {
        true
    }

    open spec fn mul_req(self, rhs: Vec3) -> bool {
        self@.pointwise(rhs@).bounded(LIMIT as int)
    }

    open spec fn mul_spec(self, rhs: Vec3) -> Vec3 {
        Vec3::of(self@.pointwise(rhs@))
    }
}

impl core::ops::Div<i64> for Vec3 {
    type Output = Vec3;

    fn div(self, rhs: i64) -> (r: Vec3) {
        proof {
            use_type_invariant(&self);
        }
        let k: i128 = rhs as i128;
        let qx: i128 = quot_wide((self.x as i128) * 65536, k);
        let qy: i128 = quot_wide((self.y as i128) * 65536, k);
        let qz: i128 = quot_wide((self.z as i128) * 65536, k);
        Vec3 { x: qx as i64, y: qy as i64, z: qz as i64 }
    }
}

impl vstd::std_specs::ops::DivSpecImpl<i64> for Vec3 {
    open spec fn obeys_div_spec() -> bool {
        true
    }

    open spec fn div_req(self, rhs: i64) -> bool {
        rhs != 0 && self@.shrunk(rhs as int).bounded(LIMIT as int)
    }

    open spec fn div_spec(self, rhs: i64) -> Vec3 {
        Vec3::of(self@.shrunk(rhs as int))
    }
}

} // verus!
