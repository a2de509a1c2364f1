//! Fixed-point scalars: products, quotients and square roots with stated
//! rounding, and the limits within which the engine's arithmetic stays.
//!
//! A scalar is an `i64` that counts millionths: `ONE` stands for the real
//! number one. Products and quotients round toward zero, square roots round
//! down.

use vstd::prelude::*;

verus! {

/// The fixed-point representation of the real number one.
pub const ONE: i64 = 1_000_000;

/// One half.
pub const HALF: i64 = 500_000;

/// Convergence threshold of a march: a step shorter than this has reached a surface.
pub const EPSILON: i64 = 100;

/// Displacement used by the finite-difference estimate of a surface normal.
pub const NORMAL_STEP: i64 = 100;

/// Most steps that one straight march may take.
pub const MAX_STEPS: u32 = 500;

/// A ray that has bounced more often than this is abandoned at its next mirror.
pub const MAX_BOUNCES: u32 = 500;

/// Largest magnitude of a component of a vector whose length can be taken:
/// the squares of three such components add up to less than `ROOT_LIMIT`,
/// and the length, at most twice this, is an `i64`.
pub const VECTOR_LIMIT: i64 = 4_000_000_000_000_000_000;

/// A vector with no component beyond this is short: it is magnified before
/// it is normalized.
pub const SHORT_LIMIT: i64 = 1_000_000_000;

/// The factor by which a short vector is magnified. A magnified short vector
/// has no component beyond `SHORT_LIMIT * MAGNIFICATION`, which is within
/// `VECTOR_LIMIT`, and unless it is zero it is at least `MAGNIFICATION` long.
pub const MAGNIFICATION: i64 = 1_000_000_000;

// The limits of a scene follow from `VECTOR_LIMIT`, from the inside out.
//
// The estimate of a normal adds up four distances and takes the length of
// the sum, so four times `DISTANCE_LIMIT` is within `VECTOR_LIMIT`. A box
// turns and shifts the offset of a point from its center, which can triple
// it, and takes a length, which can double it again, so `DISTANCE_LIMIT` is
// six times `POINT_LIMIT` and eight times `SHAPE_LIMIT`, rounded up. A
// distance is asked at most `SHAPE_LIMIT` and `NORMAL_STEP` beyond
// `REACH_LIMIT`, which gives `POINT_LIMIT`. A path starts within
// `ORIGIN_LIMIT`, is at most `LENGTH_LIMIT` long and drifts by no more
// than `BOUNCE_SLACK` at each of at most `MAX_BOUNCES + 1` bounces, which
// gives `REACH_LIMIT`. What is left to choose is how the reach is shared
// out between the size of the shapes and the length of a path: shapes of a
// hundred million units, and paths of ten thousand million.
//
// The limits of a camera and of `reflect` follow from the products they
// take: three factors within `CAMERA_LIMIT`, or within `DIRECTION_LIMIT`,
// multiplied in fixed point stay within `VECTOR_LIMIT`.

/// Largest magnitude of a coordinate of a camera or of the origin of a ray
/// that is cast afresh.
pub const ORIGIN_LIMIT: i64 = 100_000_000_000_000;

/// Largest magnitude of a camera's direction components, of the tangent of
/// half its field of view, of its aspect ratio and of its near-plane
/// distance: a thousand. The offset of a pixel on the image plane is the
/// product of three of them and of an image coordinate.
pub const CAMERA_LIMIT: i64 = 1_000_000_000;

/// Largest magnitude of a normalized image coordinate handed to a camera.
pub const SAMPLE_LIMIT: i64 = 4_000_000;

/// Largest magnitude of a coordinate of a shape's center, and largest radius
/// or half-extent of a shape.
pub const SHAPE_LIMIT: i64 = 100_000_000_000_000;

/// Largest magnitude of a distance cap, and of the path length and the weight
/// of a ray that is cast afresh.
pub const LENGTH_LIMIT: i64 = 10_000_000_000_000_000;

/// How far beyond the remaining room one bounce may carry the origin of the
/// next ray: twice `SHAPE_LIMIT`, the deepest a surface can lie behind a
/// ray's origin, and twice `EPSILON`, the lift off the surface.
pub const BOUNCE_SLACK: i64 = 200_000_000_000_200;

/// No ray of a path that started within the limits leaves this cube: it is
/// more than `ORIGIN_LIMIT`, `LENGTH_LIMIT` and `MAX_BOUNCES + 1` times
/// `BOUNCE_SLACK` together.
pub const REACH_LIMIT: i64 = 120_000_000_000_000_000;

/// Largest magnitude of a component of the vectors that `reflect` takes: a
/// thousand.
pub const DIRECTION_LIMIT: i64 = 1_000_000_000;

/// Largest magnitude of a coordinate of a point at which a distance is
/// asked: more than `REACH_LIMIT`, `SHAPE_LIMIT` and `NORMAL_STEP` together.
pub const POINT_LIMIT: i64 = 130_000_000_000_000_000;

/// No shape reports a distance beyond this at a point within `POINT_LIMIT`:
/// it is more than six times `POINT_LIMIT` and eight times `SHAPE_LIMIT`
/// together, and four times as much is within `VECTOR_LIMIT`.
pub const DISTANCE_LIMIT: i64 = 800_000_000_000_000_000;

/// Exclusive upper bound of the arguments of `isqrt`: two to the power 126.
pub const ROOT_LIMIT: u128 = 0x4000_0000_0000_0000_0000_0000_0000_0000;

/// `a / d` rounded toward zero, for a positive divisor.
pub open spec fn trunc_div(a: int, d: int) -> int {
    if a >= 0 {
        a / d
    } else {
        -((-a) / d)
    }
}

/// The fixed-point product of two fixed-point numbers, rounded toward zero.
pub open spec fn fixed_product(a: int, b: int) -> int {
    trunc_div(a * b, ONE as int)
}

/// The magnitude of an integer.
pub open spec fn magnitude(a: int) -> int {
    if a >= 0 {
        a
    } else {
        -a
    }
}

/// Whether `r` is the square root of `n` rounded down.
pub open spec fn is_sqrt_floor(n: int, r: int) -> bool {
    0 <= r && r * r <= n && n < (r + 1) * (r + 1)
}

/// The square root of a non-negative integer, rounded down.
pub open spec fn sqrt_floor(n: int) -> int {
    choose|r: int| is_sqrt_floor(n, r)
}

/// Whether an integer can be held in an `i64`.
pub open spec fn fits_i64(a: int) -> bool {
    i64::MIN <= a <= i64::MAX
}

/// A quotient is no larger than its dividend, and is bounded by `m` where
/// the dividend is bounded by `m` times the divisor.
pub proof fn lemma_trunc_div_bound(a: int, d: int, m: int)
    requires
        d > 0,
        m >= 0,
        -(m * d) <= a <= m * d,
    ensures
        -m <= trunc_div(a, d) <= m,
        magnitude(trunc_div(a, d)) <= magnitude(a),
{
    let p = magnitude(a);
    assert(0 <= p / d <= m && p / d <= p) by (nonlinear_arith)
        requires
            d > 0,
            m >= 0,
            0 <= p <= m * d,
    ;
}

/// Dividing a multiple of the divisor gives the multiplier back.
pub proof fn lemma_trunc_div_exact(q: int, d: int)
    requires
        d > 0,
    ensures
        trunc_div(q * d, d) == q,
{
    if q >= 0 {
        assert(q * d >= 0 && (q * d) / d == q) by (nonlinear_arith)
            requires
                d > 0,
                q >= 0,
        ;
    } else {
        assert(q * d < 0 && (-(q * d)) / d == -q) by (nonlinear_arith)
            requires
                d > 0,
                q < 0,
        ;
    }
}

/// A product is bounded by the product of the bounds of its factors.
pub proof fn lemma_product_bound(a: int, b: int, ma: int, mb: int)
    by (nonlinear_arith)
    requires
        -ma <= a <= ma,
        -mb <= b <= mb,
    ensures
        -(ma * mb) <= a * b <= ma * mb,
{
}

/// A fixed-point product is no larger than the bounds of its factors allow.
pub proof fn lemma_fixed_product_bound(a: int, b: int, ma: int, mb: int, m: int)
    requires
        -ma <= a <= ma,
        -mb <= b <= mb,
        m >= 0,
        ma * mb <= m * ONE,
    ensures
        -m <= fixed_product(a, b) <= m,
{
    lemma_product_bound(a, b, ma, mb);
    lemma_trunc_div_bound(a * b, ONE as int, m);
}

/// Scaling by a factor of magnitude at most one does not enlarge a number.
pub proof fn lemma_fixed_product_shrinks(a: int, b: int)
    requires
        -ONE <= a <= ONE,
    ensures
        magnitude(fixed_product(a, b)) <= magnitude(b),
{
    let mb = magnitude(b);
    lemma_product_bound(a, b, ONE as int, mb);
    assert(ONE * mb == mb * ONE) by (nonlinear_arith);
    lemma_trunc_div_bound(a * b, ONE as int, mb);
}

/// Multiplying by one changes nothing.
pub proof fn lemma_fixed_product_one(b: int)
    ensures
        fixed_product(ONE as int, b) == b,
        fixed_product(b, ONE as int) == b,
        fixed_product(-ONE as int, b) == -b,
        fixed_product(b, -ONE as int) == -b,
{
    lemma_trunc_div_exact(b, ONE as int);
    lemma_trunc_div_exact(-b, ONE as int);
    assert(ONE * b == b * ONE && (-ONE) * b == (-b) * ONE && b * (-ONE) == (-b) * ONE)
        by (nonlinear_arith);
}

/// A number has at most one rounded-down square root.
pub proof fn lemma_sqrt_floor_unique(n: int, r1: int, r2: int)
    by (nonlinear_arith)
    requires
        is_sqrt_floor(n, r1),
        is_sqrt_floor(n, r2),
    ensures
        r1 == r2,
{
}

/// Every non-negative number has a rounded-down square root.
pub proof fn lemma_sqrt_floor_exists(n: int)
    requires
        n >= 0,
    ensures
        exists|r: int| is_sqrt_floor(n, r),
    decreases n,
{
    if n == 0 {
        assert(is_sqrt_floor(0, 0));
    } else {
        let below = n - 1;
        lemma_sqrt_floor_exists(below);
        let r = choose|r: int| is_sqrt_floor(below, r);
        if (r + 1) * (r + 1) <= n {
            assert(is_sqrt_floor(n, r + 1)) by (nonlinear_arith)
                requires
                    0 <= r,
                    (r + 1) * (r + 1) <= n,
                    n - 1 < (r + 1) * (r + 1),
            ;
        } else {
            assert(is_sqrt_floor(n, r));
        }
    }
}

/// `sqrt_floor(n)` is the one integer whose square is at most `n` and whose
/// successor's square exceeds it.
pub proof fn lemma_sqrt_floor(n: int)
    requires
        n >= 0,
    ensures
        is_sqrt_floor(n, sqrt_floor(n)),
{
    lemma_sqrt_floor_exists(n);
}

/// An integer that is a rounded-down square root of `n` is `sqrt_floor(n)`.
pub proof fn lemma_sqrt_floor_is(n: int, r: int)
    requires
        is_sqrt_floor(n, r),
    ensures
        sqrt_floor(n) == r,
{
    lemma_sqrt_floor_unique(n, r, sqrt_floor(n));
}

/// The root of a perfect square is its base.
pub proof fn lemma_sqrt_floor_square(r: int)
    requires
        r >= 0,
    ensures
        sqrt_floor(r * r) == r,
{
    assert(is_sqrt_floor(r * r, r)) by (nonlinear_arith)
        requires
            r >= 0,
    ;
    lemma_sqrt_floor_is(r * r, r);
}

/// A larger number has no smaller root.
pub proof fn lemma_sqrt_floor_monotonic(a: int, b: int)
    requires
        0 <= a <= b,
    ensures
        sqrt_floor(a) <= sqrt_floor(b),
{
    lemma_sqrt_floor(a);
    lemma_sqrt_floor(b);
    let ra = sqrt_floor(a);
    let rb = sqrt_floor(b);
    assert(ra <= rb) by (nonlinear_arith)
        requires
            0 <= ra,
            0 <= rb,
            ra * ra <= a,
            a <= b,
            b < (rb + 1) * (rb + 1),
    ;
}

/// The root of `n` is at most any non-negative `m` whose square reaches `n`.
pub proof fn lemma_sqrt_floor_at_most(n: int, m: int)
    requires
        0 <= n <= m * m,
        0 <= m,
    ensures
        0 <= sqrt_floor(n) <= m,
{
    lemma_sqrt_floor(n);
    let r = sqrt_floor(n);
    assert(r <= m) by (nonlinear_arith)
        requires
            0 <= r,
            0 <= m,
            r * r <= n,
            n <= m * m,
    ;
}

/// The magnitude of a 64-bit integer.
pub fn abs_i64(a: i64) -> (r: i64)
    requires
        a > i64::MIN,
    ensures
        r == magnitude(a as int),
{
    if a >= 0 {
        a
    } else {
        -a
    }
}

/// The fixed-point product of `a` and `b`, rounded toward zero.
pub fn mul_fixed(a: i64, b: i64) -> (r: i64)
    requires
        fits_i64(fixed_product(a as int, b as int)),
    ensures
        r == fixed_product(a as int, b as int),
{
    proof {
        lemma_product_bound(
            a as int,
            b as int,
            0x8000_0000_0000_0000,
            0x8000_0000_0000_0000,
        );
    }
    let wide: i128 = (a as i128) * (b as i128);
    (wide / (ONE as i128)) as i64
}

/// The square root of `n`, rounded down.
pub fn isqrt(n: u128) -> (r: u64)
    requires
        n < ROOT_LIMIT,
    ensures
        r == sqrt_floor(n as int),
        is_sqrt_floor(n as int, r as int),
{
    let mut low: u64 = 0;
    let mut high: u64 = 0x8000_0000_0000_0000;
    assert(0x8000_0000_0000_0000int * 0x8000_0000_0000_0000int
        == 0x4000_0000_0000_0000_0000_0000_0000_0000int) by (nonlinear_arith);
    while high - low > 1
        invariant
            low < high <= 0x8000_0000_0000_0000,
            low * low <= n,
            n < high * high,
        decreases high - low,
    {
        let mid: u64 = low + (high - low) / 2;
        assert(mid * mid < 0x4000_0000_0000_0000_0000_0000_0000_0000) by (nonlinear_arith)
            requires
                0 <= mid < 0x8000_0000_0000_0000,
        ;
        let square: u128 = (mid as u128) * (mid as u128);
        if square <= n {
            low = mid;
        } else {
            high = mid;
        }
    }
    proof {
        lemma_sqrt_floor_is(n as int, low as int);
    }
    low
}

} // verus!
