//! Three-component fixed-point vectors and their mathematical model.

use vstd::prelude::*;
use crate::scalar::{
    abs_i64, fits_i64, fixed_product, isqrt, lemma_fixed_product_bound, lemma_product_bound,
    lemma_sqrt_floor, lemma_sqrt_floor_at_most, lemma_sqrt_floor_monotonic,
    lemma_sqrt_floor_square, lemma_trunc_div_bound, magnitude, mul_fixed, sqrt_floor, trunc_div,
    MAGNIFICATION, ONE, SHORT_LIMIT, VECTOR_LIMIT,
};

verus! {

/// The mathematical model of a vector: three unbounded integers, each a
/// fixed-point number.
pub ghost struct V3 {
    pub x: int,
    pub y: int,
    pub z: int,
}

impl V3 {
    pub open spec fn zero() -> V3 {
        V3 { x: 0, y: 0, z: 0 }
    }

    /// Every component has magnitude at most `limit`.
    pub open spec fn within(self, limit: int) -> bool {
        &&& -limit <= self.x <= limit
        &&& -limit <= self.y <= limit
        &&& -limit <= self.z <= limit
    }

    /// Every component can be held in an `i64`.
    pub open spec fn fits(self) -> bool {
        fits_i64(self.x) && fits_i64(self.y) && fits_i64(self.z)
    }

    pub open spec fn plus(self, other: V3) -> V3 {
        V3 { x: self.x + other.x, y: self.y + other.y, z: self.z + other.z }
    }

    pub open spec fn minus(self, other: V3) -> V3 {
        V3 { x: self.x - other.x, y: self.y - other.y, z: self.z - other.z }
    }

    pub open spec fn negated(self) -> V3 {
        V3 { x: -self.x, y: -self.y, z: -self.z }
    }

    /// The vector stretched by the fixed-point factor `t`.
    pub open spec fn scaled(self, t: int) -> V3 {
        V3 {
            x: fixed_product(self.x, t),
            y: fixed_product(self.y, t),
            z: fixed_product(self.z, t),
        }
    }

    /// The sum of the products of the components, before any rounding.
    pub open spec fn raw_dot(self, other: V3) -> int {
        self.x * other.x + self.y * other.y + self.z * other.z
    }

    /// The dot product as a fixed-point number.
    pub open spec fn dot(self, other: V3) -> int {
        trunc_div(self.raw_dot(other), ONE as int)
    }

    /// The cross product, each component a fixed-point number.
    pub open spec fn cross(self, other: V3) -> V3 {
        V3 {
            x: trunc_div(self.y * other.z - self.z * other.y, ONE as int),
            y: trunc_div(self.z * other.x - self.x * other.z, ONE as int),
            z: trunc_div(self.x * other.y - self.y * other.x, ONE as int),
        }
    }

    /// The magnitude of each component.
    pub open spec fn abs(self) -> V3 {
        V3 { x: magnitude(self.x), y: magnitude(self.y), z: magnitude(self.z) }
    }

    /// The larger of the two vectors in each component.
    pub open spec fn max_with(self, other: V3) -> V3 {
        V3 {
            x: if self.x >= other.x { self.x } else { other.x },
            y: if self.y >= other.y { self.y } else { other.y },
            z: if self.z >= other.z { self.z } else { other.z },
        }
    }

    /// The largest component.
    pub open spec fn max_element(self) -> int {
        if self.x >= self.y && self.x >= self.z {
            self.x
        } else if self.y >= self.z {
            self.y
        } else {
            self.z
        }
    }

    /// The square of the Euclidean length.
    pub open spec fn norm_squared(self) -> int {
        self.x * self.x + self.y * self.y + self.z * self.z
    }

    /// The Euclidean length, rounded down.
    pub open spec fn length(self) -> int {
        sqrt_floor(self.norm_squared())
    }

    /// The vector itself if it is long, and a short vector stretched by
    /// `MAGNIFICATION`, so that the rounding of its length does not matter.
    pub open spec fn magnified(self) -> V3 {
        if self.within(SHORT_LIMIT as int) {
            V3 { x: self.x * MAGNIFICATION, y: self.y * MAGNIFICATION, z: self.z * MAGNIFICATION }
        } else {
            self
        }
    }

    /// The vector rescaled to length one: each component of the magnified
    /// vector divided by its length, rounded toward zero. The zero vector
    /// stays zero; of any other the length is one to within two millionths
    /// (`lemma_normalized_unit`).
    pub open spec fn normalized(self) -> V3 {
        let long = self.magnified();
        let len = long.length();
        if len == 0 {
            V3::zero()
        } else {
            V3 {
                x: trunc_div(long.x * ONE, len),
                y: trunc_div(long.y * ONE, len),
                z: trunc_div(long.z * ONE, len),
            }
        }
    }
}

/// The squared length of a vector is non-negative and bounded by the square
/// of three times the largest component.
pub proof fn lemma_norm_squared_bound(v: V3, limit: int)
    requires
        v.within(limit),
    ensures
        0 <= v.norm_squared() <= 3 * (limit * limit),
        v.norm_squared() <= (2 * limit) * (2 * limit),
{
    assert(0 <= v.x * v.x <= limit * limit) by (nonlinear_arith)
        requires
            -limit <= v.x <= limit,
    ;
    assert(0 <= v.y * v.y <= limit * limit) by (nonlinear_arith)
        requires
            -limit <= v.y <= limit,
    ;
    assert(0 <= v.z * v.z <= limit * limit) by (nonlinear_arith)
        requires
            -limit <= v.z <= limit,
    ;
    assert((2 * limit) * (2 * limit) == 4 * (limit * limit)) by (nonlinear_arith);
}

/// The length of a vector is at most twice its largest component, and no
/// component exceeds the length.
pub proof fn lemma_length_bound(v: V3, limit: int)
    requires
        v.within(limit),
    ensures
        0 <= v.length() <= 2 * limit,
        v.within(v.length()),
{
    lemma_norm_squared_bound(v, limit);
    if limit >= 0 {
        lemma_sqrt_floor_at_most(v.norm_squared(), 2 * limit);
    }
    lemma_sqrt_floor(v.norm_squared());
    let n = v.norm_squared();
    let r = v.length();
    assert(v.x * v.x >= 0 && v.y * v.y >= 0 && v.z * v.z >= 0) by (nonlinear_arith);
    assert(-r <= v.x <= r) by (nonlinear_arith)
        requires
            0 <= r,
            v.x * v.x <= n,
            n < (r + 1) * (r + 1),
    ;
    assert(-r <= v.y <= r) by (nonlinear_arith)
        requires
            0 <= r,
            v.y * v.y <= n,
            n < (r + 1) * (r + 1),
    ;
    assert(-r <= v.z <= r) by (nonlinear_arith)
        requires
            0 <= r,
            v.z * v.z <= n,
            n < (r + 1) * (r + 1),
    ;
}

/// The largest magnitude among the components of a vector.
pub open spec fn reach(v: V3) -> int {
    v.abs().max_element()
}

/// The squared length of a vector is not negative, and zero for the zero
/// vector alone.
pub proof fn lemma_norm_squared_sign(v: V3)
    ensures
        v.norm_squared() >= 0,
        v.norm_squared() == 0 <==> v == V3::zero(),
{
    assert(v.x * v.x >= 0 && v.y * v.y >= 0 && v.z * v.z >= 0 && (v.x * v.x == 0 ==> v.x == 0)
        && (v.y * v.y == 0 ==> v.y == 0) && (v.z * v.z == 0 ==> v.z == 0)) by (nonlinear_arith);
}

/// The magnified form of a vector other than zero is at least
/// `SHORT_LIMIT` long, and that of the zero vector is the zero vector.
pub proof fn lemma_magnified_long(v: V3)
    ensures
        v == V3::zero() ==> v.magnified() == V3::zero() && v.magnified().length() == 0,
        v != V3::zero() ==> v.magnified().length() >= SHORT_LIMIT,
        v.magnified().within(v.magnified().length()),
{
    let long = v.magnified();
    lemma_length_bound(long, reach(long));
    if v == V3::zero() {
        assert(long == V3::zero());
        lemma_sqrt_floor_at_most(0, 0);
    } else {
        assert(reach(long) >= SHORT_LIMIT);
    }
}

/// A normalized vector has no component beyond one.
pub proof fn lemma_normalized_within_one(v: V3)
    ensures
        v.normalized().within(ONE as int),
{
    let long = v.magnified();
    let len = long.length();
    lemma_magnified_long(v);
    if len != 0 {
        lemma_unit_quotient(long.x, len);
        lemma_unit_quotient(long.y, len);
        lemma_unit_quotient(long.z, len);
    }
}

/// A quotient rounded toward zero lies, in magnitude, just below the true
/// quotient: `|q| * d <= |x| < (|q| + 1) * d`.
pub proof fn lemma_quotient_bracket(x: int, d: int)
    requires
        d > 0,
    ensures
        magnitude(trunc_div(x, d)) * d <= magnitude(x),
        magnitude(x) < (magnitude(trunc_div(x, d)) + 1) * d,
{
    let p = magnitude(x);
    let q = p / d;
    vstd::arithmetic::div_mod::lemma_fundamental_div_mod(p, d);
    assert(q >= 0 && q * d == d * q && (q + 1) * d == d * q + d) by (nonlinear_arith)
        requires
            q == p / d,
            p >= 0,
            d > 0,
    ;
    assert(magnitude(trunc_div(x, d)) == q);
}

/// Squares keep the order of numbers that are not negative.
pub proof fn lemma_square_order(p: int, q: int)
    by (nonlinear_arith)
    requires
        0 <= p,
    ensures
        p <= q ==> p * p <= q * q,
        p < q ==> p * p < q * q,
{
}

/// The square of a product is the product of the squares.
pub proof fn lemma_square_of_product(a: int, b: int)
    by (nonlinear_arith)
    ensures
        (a * b) * (a * b) == (a * a) * (b * b),
{
}

/// A positive factor can be dropped from both sides of a comparison.
pub proof fn lemma_cancel_factor(f: int, a: int, b: int)
    by (nonlinear_arith)
    requires
        f > 0,
    ensures
        f * a < f * b ==> a < b,
        f * a <= f * b ==> a <= b,
{
}

/// What is left of one component when three quotients are squared: with
/// `a = |c|` the rounded quotient of `b = |w|` times one by `len`,
/// `len^2 a^2 <= ONE^2 b^2 < len^2 (a + 1)^2`.
proof fn lemma_component_squares(w: int, len: int)
    requires
        len > 0,
    ensures
        ({
            let a = magnitude(trunc_div(w * ONE, len));
            let one = ONE as int;
            (len * len) * (a * a) <= (one * one) * (w * w) && (one * one) * (w * w) < (len * len)
                * ((a + 1) * (a + 1))
        }),
{
    let one = ONE as int;
    let a = magnitude(trunc_div(w * ONE, len));
    let b = magnitude(w);
    lemma_quotient_bracket(w * ONE, len);
    assert(magnitude(w * one) == b * one) by (nonlinear_arith)
        requires
            b == magnitude(w),
            one > 0,
    ;
    assert(0 <= a * len) by (nonlinear_arith)
        requires
            a >= 0,
            len > 0,
    ;
    lemma_square_order(a * len, b * one);
    lemma_square_order(b * one, (a + 1) * len);
    lemma_square_of_product(a, len);
    lemma_square_of_product(b, one);
    lemma_square_of_product(a + 1, len);
    assert(b * b == w * w) by (nonlinear_arith)
        requires
            b == w || b == -w,
    ;
    assert((a * a) * (len * len) == (len * len) * (a * a) && (b * b) * (one * one) == (one * one)
        * (b * b) && ((a + 1) * (a + 1)) * (len * len) == (len * len) * ((a + 1) * (a + 1)))
        by (nonlinear_arith);
}

/// The sum of three numbers whose squares add up to less than the square of
/// one and a millionth is less than 1 732 053 millionths.
proof fn lemma_sum_of_three(a: int, b: int, c: int)
    by (nonlinear_arith)
    requires
        0 <= a,
        0 <= b,
        0 <= c,
        a * a + b * b + c * c < 1_000_001 * 1_000_001,
    ensures
        a + b + c <= 1_732_052,
{
    assert((a + b + c) * (a + b + c) <= 3 * (a * a + b * b + c * c));
}

/// A normalized vector other than zero is one long, to within two
/// millionths: its squared length lies between the squares of `ONE - 2` and
/// of `ONE + 1`, so that its length, rounded down, lies between `ONE - 2`
/// and `ONE`. The zero vector alone is normalized to zero.
pub proof fn lemma_normalized_unit(v: V3)
    ensures
        v == V3::zero() <==> v.normalized() == V3::zero(),
        v != V3::zero() ==> (ONE - 2) * (ONE - 2) <= v.normalized().norm_squared() < (ONE + 1) * (
        ONE + 1),
        v != V3::zero() ==> ONE - 2 <= v.normalized().length() <= ONE,
{
    lemma_magnified_long(v);
    if v != V3::zero() {
        let one = ONE as int;
        let long = v.magnified();
        let len = long.length();
        let n = long.norm_squared();
        let unit = v.normalized();
        lemma_norm_squared_sign(long);
        lemma_sqrt_floor(n);
        lemma_component_squares(long.x, len);
        lemma_component_squares(long.y, len);
        lemma_component_squares(long.z, len);
        let ax = magnitude(unit.x);
        let ay = magnitude(unit.y);
        let az = magnitude(unit.z);
        let sq = ax * ax + ay * ay + az * az;
        let above = (ax + 1) * (ax + 1) + (ay + 1) * (ay + 1) + (az + 1) * (az + 1);
        let ll = len * len;
        assert(unit.norm_squared() == sq) by (nonlinear_arith)
            requires
                ax == unit.x || ax == -unit.x,
                ay == unit.y || ay == -unit.y,
                az == unit.z || az == -unit.z,
                unit.norm_squared() == unit.x * unit.x + unit.y * unit.y + unit.z * unit.z,
                sq == ax * ax + ay * ay + az * az,
        ;
        assert(ll * sq == ll * (ax * ax) + ll * (ay * ay) + ll * (az * az) && ll * above == ll * ((
        ax + 1) * (ax + 1)) + ll * ((ay + 1) * (ay + 1)) + ll * ((az + 1) * (az + 1)) && (one
            * one) * n == (one * one) * (long.x * long.x) + (one * one) * (long.y * long.y) + (one
            * one) * (long.z * long.z)) by (nonlinear_arith)
            requires
                sq == ax * ax + ay * ay + az * az,
                above == (ax + 1) * (ax + 1) + (ay + 1) * (ay + 1) + (az + 1) * (az + 1),
                n == long.x * long.x + long.y * long.y + long.z * long.z,
        ;
        assert(ll * sq <= (one * one) * n < ll * above);
        // From above: the length is at least one, so a step of the length is
        // worth less than a millionth.
        assert(ll > 0 && (one * one) * n < ((one + 1) * (one + 1)) * ll && (one * one) * ll <= (one
            * one) * n) by (nonlinear_arith)
            requires
                len >= one,
                one == 1_000_000,
                ll == len * len,
                ll <= n,
                n < (len + 1) * (len + 1),
        ;
        lemma_cancel_factor(ll, sq, (one + 1) * (one + 1));
        assert(ll * ((one + 1) * (one + 1)) == ((one + 1) * (one + 1)) * ll) by (nonlinear_arith);
        assert(sq < (one + 1) * (one + 1));
        // From below.
        assert(ll * (one * one) == (one * one) * ll) by (nonlinear_arith);
        lemma_cancel_factor(ll, one * one, above);
        assert(one * one < above);
        lemma_sum_of_three(ax, ay, az);
        assert(above == sq + 2 * (ax + ay + az) + 3) by (nonlinear_arith)
            requires
                sq == ax * ax + ay * ay + az * az,
                above == (ax + 1) * (ax + 1) + (ay + 1) * (ay + 1) + (az + 1) * (az + 1),
        ;
        assert((one - 2) * (one - 2) <= sq);
        lemma_sqrt_floor(sq);
        lemma_sqrt_floor_square(one - 2);
        lemma_sqrt_floor_monotonic((one - 2) * (one - 2), sq);
        let r = sqrt_floor(sq);
        assert(r <= one) by (nonlinear_arith)
            requires
                0 <= r,
                r * r <= sq,
                sq < (one + 1) * (one + 1),
                one == 1_000_000,
        ;
        lemma_norm_squared_sign(unit);
        assert((one - 2) * (one - 2) > 0);
        assert(unit != V3::zero());
    }
}

/// A number divided by one at least as large, in fixed point, is at most one.
pub proof fn lemma_unit_quotient(c: int, len: int)
    requires
        len > 0,
        -len <= c <= len,
    ensures
        -ONE <= trunc_div(c * ONE, len) <= ONE,
{
    assert(-(ONE * len) <= c * ONE <= ONE * len) by (nonlinear_arith)
        requires
            -len <= c <= len,
    ;
    lemma_trunc_div_bound(c * ONE, len, ONE as int);
}

/// A vector scaled by a factor keeps within the product of their bounds.
pub proof fn lemma_scaled_within(v: V3, t: int, mv: int, mt: int, m: int)
    requires
        v.within(mv),
        -mt <= t <= mt,
        m >= 0,
        mv * mt <= m * ONE,
    ensures
        v.scaled(t).within(m),
{
    lemma_fixed_product_bound(v.x, t, mv, mt, m);
    lemma_fixed_product_bound(v.y, t, mv, mt, m);
    lemma_fixed_product_bound(v.z, t, mv, mt, m);
}

/// A vector of three fixed-point components.
#[derive(Clone, Copy, Debug, PartialEq, Eq, Structural)]
pub struct Vec3 {
    pub x: i64,
    pub y: i64,
    pub z: i64,
}

impl View for Vec3 {
    type V = V3;

    open spec fn view(&self) -> V3 {
        V3 { x: self.x as int, y: self.y as int, z: self.z as int }
    }
}

impl Vec3 {
    pub fn new(x: i64, y: i64, z: i64) -> (v: Vec3)
        ensures
            v == (Vec3 { x, y, z }),
    {
        Vec3 { x, y, z }
    }

    pub fn zero() -> (v: Vec3)
        ensures
            v@ == V3::zero(),
    {
        Vec3 { x: 0, y: 0, z: 0 }
    }

    /// Whether every component has magnitude at most `limit`.
    pub fn is_within(&self, limit: i64) -> (b: bool)
        requires
            limit >= 0,
        ensures
            b == self@.within(limit as int),
    {
        -limit <= self.x && self.x <= limit && -limit <= self.y && self.y <= limit && -limit
            <= self.z && self.z <= limit
    }

    pub fn plus(self, other: Vec3) -> (v: Vec3)
        requires
            self@.plus(other@).fits(),
        ensures
            v@ == self@.plus(other@),
    {
        Vec3 { x: self.x + other.x, y: self.y + other.y, z: self.z + other.z }
    }

    pub fn minus(self, other: Vec3) -> (v: Vec3)
        requires
            self@.minus(other@).fits(),
        ensures
            v@ == self@.minus(other@),
    {
        Vec3 { x: self.x - other.x, y: self.y - other.y, z: self.z - other.z }
    }

    pub fn negated(self) -> (v: Vec3)
        requires
            self@.negated().fits(),
        ensures
            v@ == self@.negated(),
    {
        Vec3 { x: -self.x, y: -self.y, z: -self.z }
    }

    /// The vector stretched by the fixed-point factor `t`.
    pub fn scaled(self, t: i64) -> (v: Vec3)
        requires
            self@.scaled(t as int).fits(),
        ensures
            v@ == self@.scaled(t as int),
    {
        Vec3 { x: mul_fixed(self.x, t), y: mul_fixed(self.y, t), z: mul_fixed(self.z, t) }
    }

    /// The dot product as a fixed-point number.
    pub fn dot(self, other: Vec3) -> (d: i64)
        requires
            self@.within(VECTOR_LIMIT as int),
            other@.within(VECTOR_LIMIT as int),
            fits_i64(self@.dot(other@)),
        ensures
            d == self@.dot(other@),
    {
        proof {
            lemma_product_bound(
                self.x as int,
                other.x as int,
                VECTOR_LIMIT as int,
                VECTOR_LIMIT as int,
            );
            lemma_product_bound(
                self.y as int,
                other.y as int,
                VECTOR_LIMIT as int,
                VECTOR_LIMIT as int,
            );
            lemma_product_bound(
                self.z as int,
                other.z as int,
                VECTOR_LIMIT as int,
                VECTOR_LIMIT as int,
            );
            assert(VECTOR_LIMIT * VECTOR_LIMIT == 16_000_000_000_000_000_000_000_000_000_000_000_000int)
                by (nonlinear_arith);
        }
        let sum: i128 = (self.x as i128) * (other.x as i128) + (self.y as i128) * (other.y as i128)
            + (self.z as i128) * (other.z as i128);
        (sum / (ONE as i128)) as i64
    }

    /// The cross product, each component a fixed-point number.
    pub fn cross(self, other: Vec3) -> (v: Vec3)
        requires
            self@.within(VECTOR_LIMIT as int),
            other@.within(VECTOR_LIMIT as int),
            self@.cross(other@).fits(),
        ensures
            v@ == self@.cross(other@),
    {
        Vec3 {
            x: cross_term(self.y, other.z, self.z, other.y),
            y: cross_term(self.z, other.x, self.x, other.z),
            z: cross_term(self.x, other.y, self.y, other.x),
        }
    }

    /// The magnitude of each component.
    pub fn abs(self) -> (v: Vec3)
        requires
            self@.negated().fits(),
        ensures
            v@ == self@.abs(),
    {
        Vec3 { x: abs_i64(self.x), y: abs_i64(self.y), z: abs_i64(self.z) }
    }

    /// The larger of the two vectors in each component.
    pub fn max_with(self, other: Vec3) -> (v: Vec3)
        ensures
            v@ == self@.max_with(other@),
    {
        Vec3 {
            x: if self.x >= other.x { self.x } else { other.x },
            y: if self.y >= other.y { self.y } else { other.y },
            z: if self.z >= other.z { self.z } else { other.z },
        }
    }

    /// The largest component.
    pub fn max_element(self) -> (m: i64)
        ensures
            m == self@.max_element(),
    {
        if self.x >= self.y && self.x >= self.z {
            self.x
        } else if self.y >= self.z {
            self.y
        } else {
            self.z
        }
    }

    /// The Euclidean length, rounded down.
    pub fn length(self) -> (len: i64)
        requires
            self@.within(VECTOR_LIMIT as int),
        ensures
            len == self@.length(),
            0 <= len <= 2 * VECTOR_LIMIT,
    {
        proof {
            lemma_norm_squared_bound(self@, VECTOR_LIMIT as int);
            lemma_length_bound(self@, VECTOR_LIMIT as int);
            lemma_product_bound(
                self.x as int,
                self.x as int,
                VECTOR_LIMIT as int,
                VECTOR_LIMIT as int,
            );
            lemma_product_bound(
                self.y as int,
                self.y as int,
                VECTOR_LIMIT as int,
                VECTOR_LIMIT as int,
            );
            lemma_product_bound(
                self.z as int,
                self.z as int,
                VECTOR_LIMIT as int,
                VECTOR_LIMIT as int,
            );
            assert(VECTOR_LIMIT * VECTOR_LIMIT == 16_000_000_000_000_000_000_000_000_000_000_000_000int)
                by (nonlinear_arith);
        }
        let x: i128 = self.x as i128;
        let y: i128 = self.y as i128;
        let z: i128 = self.z as i128;
        let sum: i128 = x * x + y * y + z * z;
        isqrt(sum as u128) as i64
    }

    /// The vector rescaled to length one. The zero vector stays zero; any
    /// other comes back one long, to within two millionths.
    pub fn normalize(self) -> (v: Vec3)
        requires
            self@.within(VECTOR_LIMIT as int),
        ensures
            v@ == self@.normalized(),
            v@.within(ONE as int),
            v@ == V3::zero() <==> self@ == V3::zero(),
            self@ != V3::zero() ==> ONE - 2 <= v@.length() <= ONE,
    {
        let long = if self.is_within(SHORT_LIMIT) {
            Vec3 {
                x: self.x * MAGNIFICATION,
                y: self.y * MAGNIFICATION,
                z: self.z * MAGNIFICATION,
            }
        } else {
            self
        };
        let len: i64 = long.length();
        proof {
            lemma_normalized_within_one(self@);
            lemma_normalized_unit(self@);
            lemma_magnified_long(self@);
        }
        if len == 0 {
            Vec3 { x: 0, y: 0, z: 0 }
        } else {
            Vec3 {
                x: unit_quotient(long.x, len),
                y: unit_quotient(long.y, len),
                z: unit_quotient(long.z, len),
            }
        }
    }
}

/// One component of a cross product: `(a * b - c * d) / ONE`.
fn cross_term(a: i64, b: i64, c: i64, d: i64) -> (r: i64)
    requires
        -VECTOR_LIMIT <= a <= VECTOR_LIMIT,
        -VECTOR_LIMIT <= b <= VECTOR_LIMIT,
        -VECTOR_LIMIT <= c <= VECTOR_LIMIT,
        -VECTOR_LIMIT <= d <= VECTOR_LIMIT,
        fits_i64(trunc_div(a * b - c * d, ONE as int)),
    ensures
        r == trunc_div(a * b - c * d, ONE as int),
{
    proof {
        lemma_product_bound(a as int, b as int, VECTOR_LIMIT as int, VECTOR_LIMIT as int);
        lemma_product_bound(c as int, d as int, VECTOR_LIMIT as int, VECTOR_LIMIT as int);
        assert(VECTOR_LIMIT * VECTOR_LIMIT == 16_000_000_000_000_000_000_000_000_000_000_000_000int)
            by (nonlinear_arith);
    }
    let wide: i128 = (a as i128) * (b as i128) - (c as i128) * (d as i128);
    (wide / (ONE as i128)) as i64
}

/// `c / len` as a fixed-point number, for a `len` that is no smaller than `c`.
fn unit_quotient(c: i64, len: i64) -> (r: i64)
    requires
        len > 0,
        -len <= c <= len,
    ensures
        r == trunc_div(c * ONE, len as int),
{
    proof {
        lemma_unit_quotient(c as int, len as int);
        lemma_product_bound(c as int, ONE as int, 0x8000_0000_0000_0000, ONE as int);
    }
    let wide: i128 = (c as i128) * (ONE as i128);
    (wide / (len as i128)) as i64
}

} // verus!
