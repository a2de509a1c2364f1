//! Shapes given by signed-distance functions, and their materials.

use vstd::prelude::*;
use crate::scalar::{
    is_sqrt_floor, lemma_fixed_product_one, lemma_fixed_product_shrinks, lemma_sqrt_floor,
    lemma_sqrt_floor_monotonic, lemma_sqrt_floor_square, lemma_trunc_div_exact, sqrt_floor,
    DISTANCE_LIMIT, MAGNIFICATION, NORMAL_STEP, ONE, POINT_LIMIT, SHAPE_LIMIT, SHORT_LIMIT,
};
use crate::vector::{lemma_length_bound, Vec3, V3};

verus! {

/// What a surface looks like: its colour and whether it is a mirror.
#[derive(Clone, Copy, Debug, PartialEq, Eq)]
pub struct Material {
    pub color: Vec3,
    pub reflective: bool,
}

/// The four tetrahedral sample offsets around `pos`, `NORMAL_STEP` away along
/// each axis, at which the normal estimate asks for distances.
pub open spec fn normal_probe(pos: V3, k: int) -> V3 {
    let h = NORMAL_STEP as int;
    if k == 0 {
        V3 { x: pos.x + h, y: pos.y - h, z: pos.z - h }
    } else if k == 1 {
        V3 { x: pos.x - h, y: pos.y - h, z: pos.z + h }
    } else if k == 2 {
        V3 { x: pos.x - h, y: pos.y + h, z: pos.z - h }
    } else {
        V3 { x: pos.x + h, y: pos.y + h, z: pos.z + h }
    }
}

/// The four probe distances combined with the signs of their offsets.
pub open spec fn normal_gradient(d0: int, d1: int, d2: int, d3: int) -> V3 {
    V3 { x: d0 - d1 - d2 + d3, y: -d0 - d1 + d2 + d3, z: -d0 + d1 - d2 + d3 }
}

/// Something a ray can hit: a signed distance estimate and a material.
pub trait Hittable: Sized {
    /// The coordinates and sizes are within the limits of the arithmetic.
    spec fn valid(&self) -> bool;

    /// The signed distance estimate from `pos` to the surface, negative inside.
    spec fn distance_at(&self, pos: V3) -> int;

    /// The material of the surface.
    spec fn surface(&self) -> Material;

    /// The signed distance estimate from `pos` to the surface. No shape is
    /// deeper than `SHAPE_LIMIT`, and none is farther than `DISTANCE_LIMIT`
    /// from a point within `POINT_LIMIT`.
    fn distance(&self, pos: Vec3) -> (d: i64)
        requires
            self.valid(),
            pos@.within(POINT_LIMIT as int),
        ensures
            d == self.distance_at(pos@),
            -SHAPE_LIMIT <= d <= DISTANCE_LIMIT,
    ;

    /// The material of the surface.
    fn material(&self) -> (m: &Material)
        ensures
            *m == self.surface(),
    ;

    /// The estimated unit normal at `pos`, from four nearby distances: one
    /// long to within two millionths, or zero where the four distances
    /// cancel out.
    fn calc_normal(&self, pos: Vec3) -> (n: Vec3)
        requires
            self.valid(),
            pos@.within(POINT_LIMIT - NORMAL_STEP),
        ensures
            n@ == normal_gradient(
                self.distance_at(normal_probe(pos@, 0)),
                self.distance_at(normal_probe(pos@, 1)),
                self.distance_at(normal_probe(pos@, 2)),
                self.distance_at(normal_probe(pos@, 3)),
            ).normalized(),
            n@.within(ONE as int),
            n@ == V3::zero() <==> normal_gradient(
                self.distance_at(normal_probe(pos@, 0)),
                self.distance_at(normal_probe(pos@, 1)),
                self.distance_at(normal_probe(pos@, 2)),
                self.distance_at(normal_probe(pos@, 3)),
            ) == V3::zero(),
            n@ != V3::zero() ==> ONE - 2 <= n@.length() <= ONE,
    {
        let h: i64 = NORMAL_STEP;
        let d0: i64 = self.distance(Vec3 { x: pos.x + h, y: pos.y - h, z: pos.z - h });
        let d1: i64 = self.distance(Vec3 { x: pos.x - h, y: pos.y - h, z: pos.z + h });
        let d2: i64 = self.distance(Vec3 { x: pos.x - h, y: pos.y + h, z: pos.z - h });
        let d3: i64 = self.distance(Vec3 { x: pos.x + h, y: pos.y + h, z: pos.z + h });
        let gradient = Vec3 { x: d0 - d1 - d2 + d3, y: -d0 - d1 + d2 + d3, z: -d0 + d1 - d2 + d3 };
        gradient.normalize()
    }
}

/// A ball around `position`.
#[derive(Clone, Copy, Debug, PartialEq, Eq)]
pub struct Sphere {
    pub position: Vec3,
    pub radius: i64,
    pub material: Material,
}

impl Hittable for Sphere {
    open spec fn valid(&self) -> bool {
        &&& self.position@.within(SHAPE_LIMIT as int)
        &&& 0 < self.radius <= SHAPE_LIMIT
    }

    open spec fn distance_at(&self, pos: V3) -> int {
        pos.minus(self.position@).length() - self.radius
    }

    open spec fn surface(&self) -> Material {
        self.material
    }

    fn distance(&self, pos: Vec3) -> (d: i64) {
        let offset = pos.minus(self.position);
        proof {
            lemma_length_bound(offset@, POINT_LIMIT + SHAPE_LIMIT);
        }
        offset.length() - self.radius
    }

    fn material(&self) -> (m: &Material) {
        &self.material
    }
}

/// At its center a sphere reports minus its radius.
pub proof fn lemma_sphere_center(s: Sphere)
    ensures
        s.distance_at(s.position@) == -s.radius,
{
    lemma_sqrt_floor_square(0);
}

/// A point one radius away from the center along an axis, in either
/// direction, is at distance zero.
pub proof fn lemma_sphere_surface(s: Sphere, offset: V3)
    requires
        s.radius >= 0,
        offset.abs() == (V3 { x: s.radius as int, y: 0, z: 0 }) || offset.abs() == (V3 {
            x: 0,
            y: s.radius as int,
            z: 0,
        }) || offset.abs() == (V3 { x: 0, y: 0, z: s.radius as int }),
    ensures
        s.distance_at(s.position@.plus(offset)) == 0,
{
    let r = s.radius as int;
    let v = s.position@.plus(offset).minus(s.position@);
    assert(v == offset);
    assert(offset.norm_squared() == r * r) by (nonlinear_arith)
        requires
            r >= 0,
            offset.abs() == (V3 { x: r, y: 0, z: 0 }) || offset.abs() == (V3 { x: 0, y: r, z: 0 })
                || offset.abs() == (V3 { x: 0, y: 0, z: r }),
    ;
    lemma_sqrt_floor_square(r);
}

/// Of two points, the one farther from the center is at no smaller distance
/// from the sphere.
pub proof fn lemma_sphere_monotonic(s: Sphere, near: V3, far: V3)
    requires
        near.minus(s.position@).norm_squared() <= far.minus(s.position@).norm_squared(),
    ensures
        s.distance_at(near) <= s.distance_at(far),
{
    let a = near.minus(s.position@);
    assert(a.norm_squared() >= 0) by (nonlinear_arith)
        requires
            a.norm_squared() == a.x * a.x + a.y * a.y + a.z * a.z,
    ;
    lemma_sqrt_floor_monotonic(a.norm_squared(), far.minus(s.position@).norm_squared());
}

/// The distance that a sphere reports never overshoots its surface: the
/// reported distance and the radius together are the distance from the point
/// to the center, rounded down.
pub proof fn lemma_sphere_distance_is_safe(s: Sphere, pos: V3)
    ensures
        is_sqrt_floor(pos.minus(s.position@).norm_squared(), s.distance_at(pos) + s.radius),
{
    let v = pos.minus(s.position@);
    assert(v.norm_squared() >= 0) by (nonlinear_arith)
        requires
            v.norm_squared() == v.x * v.x + v.y * v.y + v.z * v.z,
    ;
    lemma_sqrt_floor(v.norm_squared());
}

/// Whether `d` is one of the six unit vectors along the axes.
pub open spec fn is_axis(d: V3) -> bool {
    let a = d.abs();
    a == (V3 { x: ONE as int, y: 0, z: 0 }) || a == (V3 { x: 0, y: ONE as int, z: 0 }) || a == (V3 {
        x: 0,
        y: 0,
        z: ONE as int,
    })
}

/// The vector that is `k` long along the axis `d`.
pub open spec fn along(d: V3, k: int) -> V3 {
    V3 {
        x: if d.x > 0 { k } else if d.x < 0 { -k } else { 0 },
        y: if d.y > 0 { k } else if d.y < 0 { -k } else { 0 },
        z: if d.z > 0 { k } else if d.z < 0 { -k } else { 0 },
    }
}

/// An axis stretched by `k` is `k` long along that axis, with no rounding.
pub proof fn lemma_axis_scaled_exact(d: V3, k: int)
    requires
        is_axis(d),
    ensures
        d.scaled(k) == along(d, k),
{
    lemma_fixed_product_one(k);
    lemma_trunc_div_exact(0, ONE as int);
    assert(0 * k == 0);
}

/// A vector with one component that is not zero is, normalized, the axis of
/// that component, with no rounding.
pub proof fn lemma_normalized_axis(g: V3, c: int)
    requires
        c != 0,
        g == (V3 { x: c, y: 0, z: 0 }) || g == (V3 { x: 0, y: c, z: 0 }) || g == (V3 {
            x: 0,
            y: 0,
            z: c,
        }),
    ensures
        g.normalized() == along(g, ONE as int),
{
    let long = g.magnified();
    let k = if g.within(SHORT_LIMIT as int) { c * MAGNIFICATION } else { c };
    assert(0 * MAGNIFICATION == 0);
    assert((c > 0 ==> k > 0) && (c < 0 ==> k < 0)) by (nonlinear_arith)
        requires
            k == c * MAGNIFICATION || k == c,
            MAGNIFICATION == 1_000_000_000,
    ;
    assert(long == (V3 { x: k, y: 0, z: 0 }) || long == (V3 { x: 0, y: k, z: 0 }) || long == (V3 {
        x: 0,
        y: 0,
        z: k,
    }));
    let m = if k >= 0 { k } else { -k };
    assert(long.norm_squared() == m * m) by (nonlinear_arith)
        requires
            m == k || m == -k,
            long == (V3 { x: k, y: 0, z: 0 }) || long == (V3 { x: 0, y: k, z: 0 }) || long == (V3 {
                x: 0,
                y: 0,
                z: k,
            }),
    ;
    lemma_sqrt_floor_square(m);
    assert(long.length() == m);
    lemma_trunc_div_exact(0, m);
    assert(0 * ONE == 0 && 0 * m == 0);
    if k > 0 {
        lemma_trunc_div_exact(ONE as int, m);
        assert(k * ONE == ONE * m) by (nonlinear_arith)
            requires
                k == m,
        ;
    } else {
        lemma_trunc_div_exact(-ONE as int, m);
        assert(k * ONE == (-ONE) * m) by (nonlinear_arith)
            requires
                k == -m,
        ;
    }
}

/// The squared length of an offset that is `a` along one axis and
/// `NORMAL_STEP` along the two others, whatever the signs.
proof fn lemma_probe_offset(o: V3, a: int)
    ensures
        ({
            let h = NORMAL_STEP as int;
            let m = if a >= 0 { a } else { -a };
            let b = o.abs();
            b == (V3 { x: m, y: h, z: h }) || b == (V3 { x: h, y: m, z: h }) || b == (V3 {
                x: h,
                y: h,
                z: m,
            })
        }) ==> o.norm_squared() == a * a + 20_000,
{
    let h = NORMAL_STEP as int;
    let m = if a >= 0 { a } else { -a };
    let b = o.abs();
    if b == (V3 { x: m, y: h, z: h }) || b == (V3 { x: h, y: m, z: h }) || b == (V3 {
        x: h,
        y: h,
        z: m,
    }) {
        assert(o.x * o.x == b.x * b.x && o.y * o.y == b.y * b.y && o.z * o.z == b.z * b.z)
            by (nonlinear_arith)
            requires
                b.x == o.x || b.x == -o.x,
                b.y == o.y || b.y == -o.y,
                b.z == o.z || b.z == -o.z,
        ;
        assert(m * m == a * a) by (nonlinear_arith)
            requires
                m == a || m == -a,
        ;
        assert(h * h == 10_000);
    }
}

/// Where an axis through the center of a sphere leaves the sphere, the
/// estimated normal is that axis, exactly, if the radius is at least
/// `NORMAL_STEP`.
pub proof fn lemma_sphere_axis_normal(s: Sphere, out: V3)
    requires
        is_axis(out),
        s.radius >= NORMAL_STEP,
    ensures
        Shape::Sphere(s).normal_at(s.position@.plus(along(out, s.radius as int))) == out,
{
    let h = NORMAL_STEP as int;
    let r = s.radius as int;
    let c = s.position@;
    let p = c.plus(along(out, r));
    let o0 = normal_probe(p, 0).minus(c);
    let o1 = normal_probe(p, 1).minus(c);
    let o2 = normal_probe(p, 2).minus(c);
    let o3 = normal_probe(p, 3).minus(c);
    lemma_probe_offset(o0, r + h);
    lemma_probe_offset(o0, r - h);
    lemma_probe_offset(o1, r + h);
    lemma_probe_offset(o1, r - h);
    lemma_probe_offset(o2, r + h);
    lemma_probe_offset(o2, r - h);
    lemma_probe_offset(o3, r + h);
    lemma_probe_offset(o3, r - h);
    let near_sq = (r - h) * (r - h) + 20_000;
    let far_sq = (r + h) * (r + h) + 20_000;
    let near = sqrt_floor(near_sq);
    let far = sqrt_floor(far_sq);
    assert(0 <= near_sq < (r + h) * (r + h) && (r + h) * (r + h) <= far_sq) by (nonlinear_arith)
        requires
            r >= h,
            h == 100,
            near_sq == (r - h) * (r - h) + 20_000,
            far_sq == (r + h) * (r + h) + 20_000,
    ;
    lemma_sqrt_floor(near_sq);
    lemma_sqrt_floor_square(r + h);
    lemma_sqrt_floor_monotonic((r + h) * (r + h), far_sq);
    assert(near < r + h) by (nonlinear_arith)
        requires
            0 <= near,
            0 <= r + h,
            near * near <= near_sq,
            near_sq < (r + h) * (r + h),
    ;
    assert(near < far);
    let d0 = s.distance_at(normal_probe(p, 0));
    let d1 = s.distance_at(normal_probe(p, 1));
    let d2 = s.distance_at(normal_probe(p, 2));
    let d3 = s.distance_at(normal_probe(p, 3));
    let g = normal_gradient(d0, d1, d2, d3);
    let twice = 2 * (far - near);
    if out.x > 0 {
        assert(d0 == far - r && d3 == far - r && d1 == near - r && d2 == near - r);
        lemma_normalized_axis(g, twice);
    } else if out.x < 0 {
        assert(d0 == near - r && d3 == near - r && d1 == far - r && d2 == far - r);
        lemma_normalized_axis(g, -twice);
    } else if out.y > 0 {
        assert(d2 == far - r && d3 == far - r && d0 == near - r && d1 == near - r);
        lemma_normalized_axis(g, twice);
    } else if out.y < 0 {
        assert(d2 == near - r && d3 == near - r && d0 == far - r && d1 == far - r);
        lemma_normalized_axis(g, -twice);
    } else if out.z > 0 {
        assert(d1 == far - r && d3 == far - r && d0 == near - r && d2 == near - r);
        lemma_normalized_axis(g, twice);
    } else {
        assert(d1 == near - r && d3 == near - r && d0 == far - r && d2 == far - r);
        lemma_normalized_axis(g, -twice);
    }
}

/// A linear map followed by a shift: the frame in which a box is axis-aligned.
#[derive(Clone, Copy, Debug, PartialEq, Eq)]
pub struct Transform {
    pub x_axis: Vec3,
    pub y_axis: Vec3,
    pub z_axis: Vec3,
    pub translation: Vec3,
}

impl Transform {
    /// The entries of the linear part are at most one, as those of a
    /// rotation are, and the shift is within the limit of the scene.
    pub open spec fn valid(&self) -> bool {
        &&& self.x_axis@.within(ONE as int)
        &&& self.y_axis@.within(ONE as int)
        &&& self.z_axis@.within(ONE as int)
        &&& self.translation@.within(SHAPE_LIMIT as int)
    }

    /// The map that changes nothing: the unit axes and no shift.
    pub open spec fn is_identity(&self) -> bool {
        &&& self.x_axis@ == V3 { x: ONE as int, y: 0, z: 0 }
        &&& self.y_axis@ == V3 { x: 0, y: ONE as int, z: 0 }
        &&& self.z_axis@ == V3 { x: 0, y: 0, z: ONE as int }
        &&& self.translation@ == V3::zero()
    }

    /// The image of `v`: the axes weighted by its components, then shifted.
    pub open spec fn apply_spec(&self, v: V3) -> V3 {
        self.x_axis@.scaled(v.x).plus(self.y_axis@.scaled(v.y)).plus(
            self.z_axis@.scaled(v.z),
        ).plus(self.translation@)
    }

    /// The map that changes nothing.
    pub fn identity() -> (t: Transform)
        ensures
            t.is_identity(),
            t.valid(),
    {
        Transform {
            x_axis: Vec3 { x: ONE, y: 0, z: 0 },
            y_axis: Vec3 { x: 0, y: ONE, z: 0 },
            z_axis: Vec3 { x: 0, y: 0, z: ONE },
            translation: Vec3 { x: 0, y: 0, z: 0 },
        }
    }

    /// The image of `v`.
    pub fn apply(&self, v: Vec3) -> (r: Vec3)
        requires
            self.valid(),
            v@.within(POINT_LIMIT + SHAPE_LIMIT),
        ensures
            r@ == self.apply_spec(v@),
            r@.within(3 * (POINT_LIMIT + SHAPE_LIMIT) + SHAPE_LIMIT),
    {
        proof {
            lemma_axis_scaled(self.x_axis@, v.x as int);
            lemma_axis_scaled(self.y_axis@, v.y as int);
            lemma_axis_scaled(self.z_axis@, v.z as int);
        }
        let a = self.x_axis.scaled(v.x);
        let b = self.y_axis.scaled(v.y);
        let c = self.z_axis.scaled(v.z);
        a.plus(b).plus(c).plus(self.translation)
    }
}

/// An axis with entries of at most one, weighted by `c`, stays within `c`.
pub proof fn lemma_axis_scaled(axis: V3, c: int)
    requires
        axis.within(ONE as int),
    ensures
        axis.scaled(c).within(if c >= 0 { c } else { -c }),
{
    lemma_fixed_product_shrinks(axis.x, c);
    lemma_fixed_product_shrinks(axis.y, c);
    lemma_fixed_product_shrinks(axis.z, c);
}

/// The identity map returns its argument.
pub proof fn lemma_identity_apply(t: Transform, v: V3)
    requires
        t.is_identity(),
    ensures
        t.apply_spec(v) == v,
{
    lemma_fixed_product_one(v.x);
    lemma_fixed_product_one(v.y);
    lemma_fixed_product_one(v.z);
    lemma_trunc_div_exact(0, ONE as int);
    assert(0 * v.x == 0 && 0 * v.y == 0 && 0 * v.z == 0);
}

/// A box around `position`, axis-aligned in the frame of `rotation`, reaching
/// `size` from its center along each axis.
#[derive(Clone, Copy, Debug, PartialEq, Eq)]
pub struct Wall {
    pub position: Vec3,
    pub rotation: Transform,
    pub size: Vec3,
    pub material: Material,
}

impl Wall {
    /// How far `pos` lies beyond the half-extents along each local axis.
    pub open spec fn excess(&self, pos: V3) -> V3 {
        self.rotation.apply_spec(pos.minus(self.position@)).abs().minus(self.size@)
    }
}

impl Hittable for Wall {
    open spec fn valid(&self) -> bool {
        &&& self.position@.within(SHAPE_LIMIT as int)
        &&& self.rotation.valid()
        &&& 0 < self.size.x <= SHAPE_LIMIT
        &&& 0 < self.size.y <= SHAPE_LIMIT
        &&& 0 < self.size.z <= SHAPE_LIMIT
    }

    open spec fn distance_at(&self, pos: V3) -> int {
        let q = self.excess(pos);
        let inside = if q.max_element() < 0 {
            q.max_element()
        } else {
            0
        };
        q.max_with(V3::zero()).length() + inside
    }

    open spec fn surface(&self) -> Material {
        self.material
    }

    fn distance(&self, pos: Vec3) -> (d: i64) {
        let dp = pos.minus(self.position);
        let rp = self.rotation.apply(dp);
        let q = rp.abs().minus(self.size);
        let outside = q.max_with(Vec3::zero());
        proof {
            lemma_length_bound(outside@, 3 * (POINT_LIMIT + SHAPE_LIMIT) + SHAPE_LIMIT);
        }
        let largest: i64 = q.max_element();
        let inside: i64 = if largest < 0 {
            largest
        } else {
            0
        };
        outside.length() + inside
    }

    fn material(&self) -> (m: &Material) {
        &self.material
    }
}

/// The smallest component of a vector.
pub open spec fn min_element(v: V3) -> int {
    if v.x <= v.y && v.x <= v.z {
        v.x
    } else if v.y <= v.z {
        v.y
    } else {
        v.z
    }
}

/// At the center of a box whose frame is not shifted, the distance is minus
/// the smallest half-extent.
pub proof fn lemma_wall_center(w: Wall)
    requires
        w.valid(),
        w.rotation.translation@ == V3::zero(),
    ensures
        w.distance_at(w.position@) == -min_element(w.size@),
{
    let dp = w.position@.minus(w.position@);
    assert(dp == V3::zero());
    lemma_axis_scaled(w.rotation.x_axis@, 0);
    lemma_axis_scaled(w.rotation.y_axis@, 0);
    lemma_axis_scaled(w.rotation.z_axis@, 0);
    assert(w.rotation.apply_spec(dp) == V3::zero());
    let q = w.excess(w.position@);
    assert(q == V3::zero().minus(w.size@));
    assert(q.max_with(V3::zero()) == V3::zero());
    lemma_sqrt_floor_square(0);
}

/// Outside a face of a box, straight out from the face, the distance is the
/// perpendicular distance to that face: a point that in the frame of the box
/// lies `gap` beyond the half-extent along one axis, and within the
/// half-extents along the other two, is `gap` away.
pub proof fn lemma_wall_face_local(w: Wall, pos: V3, gap: int)
    requires
        w.valid(),
        gap >= 0,
        ({
            let a = w.rotation.apply_spec(pos.minus(w.position@)).abs();
            ||| a.x == w.size.x + gap && a.y <= w.size.y && a.z <= w.size.z
            ||| a.y == w.size.y + gap && a.x <= w.size.x && a.z <= w.size.z
            ||| a.z == w.size.z + gap && a.x <= w.size.x && a.y <= w.size.y
        }),
    ensures
        w.distance_at(pos) == gap,
{
    let q = w.excess(pos);
    let out = q.max_with(V3::zero());
    assert(out == (V3 { x: gap, y: 0, z: 0 }) || out == (V3 { x: 0, y: gap, z: 0 }) || out == (V3 {
        x: 0,
        y: 0,
        z: gap,
    }));
    assert(out.norm_squared() == gap * gap) by (nonlinear_arith)
        requires
            out == (V3 { x: gap, y: 0, z: 0 }) || out == (V3 { x: 0, y: gap, z: 0 }) || out == (V3 {
                x: 0,
                y: 0,
                z: gap,
            }),
    ;
    lemma_sqrt_floor_square(gap);
    assert(q.max_element() == gap);
}

/// Outside a face of an axis-aligned box, straight out from the face, the
/// distance is the perpendicular distance to that face: a point whose offset
/// from the center exceeds the half-extent by `gap` along one axis, and stays
/// within the half-extents along the other two, is `gap` away.
pub proof fn lemma_wall_face(w: Wall, offset: V3, gap: int)
    requires
        w.valid(),
        w.rotation.is_identity(),
        gap >= 0,
        ({
            let a = offset.abs();
            ||| a.x == w.size.x + gap && a.y <= w.size.y && a.z <= w.size.z
            ||| a.y == w.size.y + gap && a.x <= w.size.x && a.z <= w.size.z
            ||| a.z == w.size.z + gap && a.x <= w.size.x && a.y <= w.size.y
        }),
    ensures
        w.distance_at(w.position@.plus(offset)) == gap,
{
    let pos = w.position@.plus(offset);
    assert(pos.minus(w.position@) == offset);
    lemma_identity_apply(w.rotation, offset);
    lemma_wall_face_local(w, pos, gap);
}

/// The shapes a scene can hold.
#[derive(Clone, Copy, Debug, PartialEq, Eq)]
pub enum Shape {
    Sphere(Sphere),
    Wall(Wall),
}

impl Hittable for Shape {
    open spec fn valid(&self) -> bool {
        match self {
            Shape::Sphere(s) => s.valid(),
            Shape::Wall(w) => w.valid(),
        }
    }

    open spec fn distance_at(&self, pos: V3) -> int {
        match self {
            Shape::Sphere(s) => s.distance_at(pos),
            Shape::Wall(w) => w.distance_at(pos),
        }
    }

    open spec fn surface(&self) -> Material {
        match self {
            Shape::Sphere(s) => s.surface(),
            Shape::Wall(w) => w.surface(),
        }
    }

    fn distance(&self, pos: Vec3) -> (d: i64) {
        match self {
            Shape::Sphere(s) => s.distance(pos),
            Shape::Wall(w) => w.distance(pos),
        }
    }

    fn material(&self) -> (m: &Material) {
        match self {
            Shape::Sphere(s) => s.material(),
            Shape::Wall(w) => w.material(),
        }
    }
}

impl Shape {
    /// The estimated unit normal at `pos`: the normalized finite difference of
    /// the distance function over the four probes.
    pub open spec fn normal_at(&self, pos: V3) -> V3 {
        normal_gradient(
            self.distance_at(normal_probe(pos, 0)),
            self.distance_at(normal_probe(pos, 1)),
            self.distance_at(normal_probe(pos, 2)),
            self.distance_at(normal_probe(pos, 3)),
        ).normalized()
    }

    /// Whether the shape is within the limits of the arithmetic.
    pub fn is_valid(&self) -> (b: bool)
        ensures
            b == self.valid(),
    {
        match self {
            Shape::Sphere(s) => s.position.is_within(SHAPE_LIMIT) && 0 < s.radius && s.radius
                <= SHAPE_LIMIT,
            Shape::Wall(w) => w.position.is_within(SHAPE_LIMIT) && w.rotation.x_axis.is_within(ONE)
                && w.rotation.y_axis.is_within(ONE) && w.rotation.z_axis.is_within(ONE)
                && w.rotation.translation.is_within(SHAPE_LIMIT) && 0 < w.size.x && w.size.x
                <= SHAPE_LIMIT && 0 < w.size.y && w.size.y <= SHAPE_LIMIT && 0 < w.size.z
                && w.size.z <= SHAPE_LIMIT,
        }
    }
}

} // verus!
