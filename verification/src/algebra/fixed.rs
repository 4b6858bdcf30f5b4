//! Fixed-point scalars.
//!
//! A scalar is an `i64` with sixteen fractional bits: the raw value `r`
//! stands for the number `r / ONE`. The functions of this module say, over
//! unbounded integers, what each rounded operation yields, and compute it
//! without overflow.

use vstd::prelude::*;

verus! {

/// The raw value of the scalar one.
pub const ONE: i64 = 65536;

/// The largest magnitude a well-formed vector component may have.
pub const LIMIT: i64 = 1073741824;

/// The square of `LIMIT`.
pub const LIMIT_SQUARED: i128 = 0x1000_0000_0000_0000;

/// `LIMIT_SQUARED` is what its name says.
pub proof fn lemma_limit_squared()
    ensures
        LIMIT * LIMIT == LIMIT_SQUARED,
        ONE * ONE == 0x1_0000_0000,
{
    assert(LIMIT * LIMIT == LIMIT_SQUARED) by (nonlinear_arith)
        requires
            LIMIT == 0x4000_0000,
            LIMIT_SQUARED == 0x1000_0000_0000_0000,
    ;
    assert(ONE * ONE == 0x1_0000_0000) by (nonlinear_arith)
        requires
            ONE == 0x1_0000,
    ;
}

/// Absolute value.
pub open spec fn magnitude(a: int) -> int {
    if a < 0 {
        -a
    } else {
        a
    }
}

/// The quotient of `a` by `b`, rounded toward zero.
pub open spec fn quot(a: int, b: int) -> int
    recommends
        b != 0,
{
    if (a < 0) == (b < 0) {
        magnitude(a) / magnitude(b)
    } else {
        -(magnitude(a) / magnitude(b))
    }
}

/// The raw value of the product of the scalars `a` and `b`.
pub open spec fn product(a: int, b: int) -> int {
    quot(a * b, ONE as int)
}

/// The raw value of the quotient of the scalar `a` by the scalar `b`.
pub open spec fn quotient(a: int, b: int) -> int
    recommends
        b != 0,
{
    quot(a * ONE, b)
}

/// `r` is the integer square root of `n`, rounded down.
pub open spec fn is_floor_sqrt(n: int, r: int) -> bool {
    0 <= r && r * r <= n < (r + 1) * (r + 1)
}

/// The integer square root of `n`, rounded down (for `n >= 0`).
pub open spec fn floor_sqrt(n: int) -> int
    recommends
        n >= 0,
{
    choose|r: int| is_floor_sqrt(n, r)
}

/// The raw value of the square root of the scalar `a`.
pub open spec fn root(a: int) -> int
    recommends
        a >= 0,
{
    floor_sqrt(a * ONE)
}

/// `a` lies in the range of a well-formed vector component.
pub open spec fn in_limit(a: int) -> bool {
    -LIMIT <= a <= LIMIT
}

/// `a` is representable as a scalar.
pub open spec fn fits(a: int) -> bool {
    i64::MIN <= a <= i64::MAX
}

/// A number has at most one rounded-down square root.
pub proof fn lemma_floor_sqrt_unique(n: int, r1: int, r2: int)
    requires
        is_floor_sqrt(n, r1),
        is_floor_sqrt(n, r2),
    ensures
        r1 == r2,
{
    if r1 < r2 {
        assert((r1 + 1) * (r1 + 1) <= r2 * r2) by (nonlinear_arith)
            requires
                0 <= r1,
                r1 + 1 <= r2,
        ;
    } else if r2 < r1 {
        assert((r2 + 1) * (r2 + 1) <= r1 * r1) by (nonlinear_arith)
            requires
                0 <= r2,
                r2 + 1 <= r1,
        ;
    }
}

/// Whatever satisfies `is_floor_sqrt` is the value of `floor_sqrt`.
pub proof fn lemma_floor_sqrt_is(n: int, r: int)
    requires
        is_floor_sqrt(n, r),
    ensures
        floor_sqrt(n) == r,
{
    lemma_floor_sqrt_unique(n, floor_sqrt(n), r);
}

/// The rounded-down square root grows with its argument.
pub proof fn lemma_floor_sqrt_monotone(m: int, n: int, rm: int, rn: int)
    requires
        m <= n,
        is_floor_sqrt(m, rm),
        is_floor_sqrt(n, rn),
    ensures
        rm <= rn,
{
    if rn < rm {
        assert((rn + 1) * (rn + 1) <= rm * rm) by (nonlinear_arith)
            requires
                0 <= rn,
                rn + 1 <= rm,
        ;
    }
}

/// An integer whose square does not exceed `n` does not exceed the root of `n`.
pub proof fn lemma_floor_sqrt_lower(n: int, k: int)
    requires
        0 <= k,
        k * k <= n,
    ensures
        k <= floor_sqrt(n),
        is_floor_sqrt(n, floor_sqrt(n)),
{
    lemma_floor_sqrt_exists(n);
    let r = floor_sqrt(n);
    if r < k {
        assert((r + 1) * (r + 1) <= k * k) by (nonlinear_arith)
            requires
                0 <= r,
                r + 1 <= k,
        ;
    }
}

/// Every non-negative integer has a rounded-down square root.
pub proof fn lemma_floor_sqrt_exists(n: int)
    requires
        0 <= n,
    ensures
        is_floor_sqrt(n, floor_sqrt(n)),
    decreases n,
{
    if n == 0 {
        assert(is_floor_sqrt(0, 0));
    } else {
        lemma_floor_sqrt_exists(n - 1);
        let r = floor_sqrt(n - 1);
        if (r + 1) * (r + 1) <= n {
            assert((r + 1) * (r + 1) == n);
            assert(n < (r + 2) * (r + 2)) by (nonlinear_arith)
                requires
                    (r + 1) * (r + 1) == n,
                    0 <= r,
            ;
            assert(is_floor_sqrt(n, r + 1));
        } else {
            assert(is_floor_sqrt(n, r));
        }
    }
}

/// A quotient is no larger than the ratio of the bounds of its operands.
pub proof fn lemma_quot_bound(a: int, b: int, k: int)
    requires
        b != 0,
        0 <= k,
        magnitude(a) <= k * magnitude(b),
    ensures
        -k <= quot(a, b) <= k,
{
    let x = magnitude(a);
    let y = magnitude(b);
    assert(0 <= x / y <= k) by (nonlinear_arith)
        requires
            0 <= x <= k * y,
            y > 0,
            0 <= k,
    ;
}

/// Dividing by one or more never increases a magnitude.
pub proof fn lemma_quot_shrinks(a: int, b: int, k: int)
    requires
        b != 0,
        magnitude(a) <= k,
    ensures
        -k <= quot(a, b) <= k,
{
    let x = magnitude(a);
    let y = magnitude(b);
    assert(0 <= x / y <= k) by (nonlinear_arith)
        requires
            0 <= x <= k,
            y >= 1,
    ;
}

/// Rounding toward zero keeps the order of the dividends.
pub proof fn lemma_quot_monotone(a1: int, a2: int, b: int)
    requires
        b > 0,
        a1 <= a2,
    ensures
        quot(a1, b) <= quot(a2, b),
{
    let x1 = magnitude(a1);
    let x2 = magnitude(a2);
    assert(0 <= x1 / b && 0 <= x2 / b) by (nonlinear_arith)
        requires
            0 <= x1,
            0 <= x2,
            b > 0,
    ;
    if a1 >= 0 {
        assert(x1 / b <= x2 / b) by (nonlinear_arith)
            requires
                0 <= x1 <= x2,
                b > 0,
        ;
    } else if a2 < 0 {
        assert(x2 / b <= x1 / b) by (nonlinear_arith)
            requires
                0 <= x2 <= x1,
                b > 0,
        ;
    }
}

/// Dividing a multiple gives back the factor.
pub proof fn lemma_quot_exact(a: int, b: int)
    requires
        b != 0,
    ensures
        quot(a * b, b) == a,
{
    let x = magnitude(a);
    let y = magnitude(b);
    assert(magnitude(a * b) == x * y) by (nonlinear_arith)
        requires
            x == magnitude(a),
            y == magnitude(b),
    ;
    assert((x * y) / y == x) by (nonlinear_arith)
        requires
            0 <= x,
            y > 0,
    ;
    assert(a != 0 && b > 0 ==> ((a * b < 0) == (a < 0))) by (nonlinear_arith);
    assert(a != 0 && b < 0 ==> ((a * b < 0) == (a > 0))) by (nonlinear_arith);
    assert(a == 0 ==> a * b == 0) by (nonlinear_arith);
}

/// The product of two bounded integers is bounded by the product of the bounds.
pub proof fn lemma_product_bound(a: int, b: int, m: int, n: int)
    requires
        magnitude(a) <= m,
        magnitude(b) <= n,
    ensures
        -(m * n) <= a * b <= m * n,
{
    let x = magnitude(a);
    let y = magnitude(b);
    assert(x * y <= m * n) by (nonlinear_arith)
        requires
            0 <= x <= m,
            0 <= y <= n,
    ;
    assert(a * b == x * y || a * b == -(x * y)) by (nonlinear_arith)
        requires
            x == magnitude(a),
            y == magnitude(b),
    ;
}

/// A product of scalars is bounded by the product of a bound on one raw
/// value and a bound on the other scalar.
pub proof fn lemma_times_bound(a: int, b: int, m: int, n: int)
    requires
        magnitude(a) <= m,
        magnitude(b) <= n * ONE,
        0 <= n,
    ensures
        -(m * n) <= product(a, b) <= m * n,
{
    lemma_product_bound(a, b, m, n * ONE);
    assert(m * (n * ONE) == (m * n) * 65536) by (nonlinear_arith)
        requires
            ONE == 65536,
    ;
    assert(0 <= m * n) by (nonlinear_arith)
        requires
            0 <= m,
            0 <= n,
    ;
    lemma_quot_bound(a * b, ONE as int, m * n);
}

/// A product of non-negative scalars is not negative.
pub proof fn lemma_times_nonnegative(a: int, b: int)
    requires
        0 <= a,
        0 <= b,
    ensures
        0 <= product(a, b),
{
    assert(0 <= a * b) by (nonlinear_arith)
        requires
            0 <= a,
            0 <= b,
    ;
    let x = a * b;
    assert(0 <= x / 65536) by (nonlinear_arith)
        requires
            0 <= x,
    ;
}

/// The integer square root of `n`, rounded down.
pub fn isqrt(n: u128) -> (r: u64)
    ensures
        is_floor_sqrt(n as int, r as int),
        r == floor_sqrt(n as int),
{
    let mut lo: u128 = 0;
    let mut hi: u128 = 0x1_0000_0000_0000_0000;
    while hi - lo > 1
        invariant
            lo < hi <= 0x1_0000_0000_0000_0000,
            lo * lo <= n < hi * hi,
        decreases hi - lo,
    {
        let mid: u128 = lo + (hi - lo) / 2;
        assert(mid * mid <= 0xffff_ffff_ffff_ffff * 0xffff_ffff_ffff_ffff) by (nonlinear_arith)
            requires
                0 <= mid <= 0xffff_ffff_ffff_ffff,
        ;
        if mid * mid <= n {
            lo = mid;
        } else {
            hi = mid;
        }
    }
    proof {
        lemma_floor_sqrt_is(n as int, lo as int);
    }
    lo as u64
}

/// The quotient of two wide integers, rounded toward zero.
pub fn quot_wide(a: i128, b: i128) -> (r: i128)
    requires
        b != 0,
        a > i128::MIN,
        b > i128::MIN,
    ensures
        r == quot(a as int, b as int),
{
    if b > 0 {
        a / b
    } else {
        assert(0int / ((-b) as int) == 0) by (nonlinear_arith)
            requires
                -b > 0,
        ;
        (-a) / (-b)
    }
}

/// The product of two scalars.
pub fn fx_mul(a: i64, b: i64) -> (r: i64)
    requires
        fits(product(a as int, b as int)),
    ensures
        r == product(a as int, b as int),
{
    let wide: i128 = widen_product(a, b);
    let q: i128 = wide / 65536;
    q as i64
}

/// The exact product of two raw values.
pub fn widen_product(a: i64, b: i64) -> (r: i128)
    ensures
        r == a * b,
{
    let x: i128 = a as i128;
    let y: i128 = b as i128;
    assert(-0x4000_0000_0000_0000_0000_0000_0000_0000 <= x * y
        <= 0x4000_0000_0000_0000_0000_0000_0000_0000) by (nonlinear_arith)
        requires
            -0x8000_0000_0000_0000 <= x <= 0x8000_0000_0000_0000,
            -0x8000_0000_0000_0000 <= y <= 0x8000_0000_0000_0000,
    ;
    x * y
}

/// The quotient of two scalars.
pub fn fx_div(a: i64, b: i64) -> (r: i64)
    requires
        b != 0,
        fits(quotient(a as int, b as int)),
    ensures
        r == quotient(a as int, b as int),
{
    let wide: i128 = (a as i128) * 65536;
    let q: i128 = quot_wide(wide, b as i128);
    q as i64
}

/// The square root of a non-negative scalar.
pub fn fx_sqrt(a: i64) -> (r: i64)
    requires
        a >= 0,
    ensures
        r == root(a as int),
        0 <= r,
{
    let wide: u128 = (a as u128) * 65536;
    let s: u64 = isqrt(wide);
    assert(s < 0x100_0000_0000) by (nonlinear_arith)
        requires
            s * s <= wide,
            wide < 0x1_0000_0000_0000_0000_0000,
            0 <= s,
    ;
    s as i64
}

} // verus!
