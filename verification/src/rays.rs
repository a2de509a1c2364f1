//! The scene and the sphere-tracing cast with mirror reflections.

use vstd::prelude::*;
use crate::camera::{Ray, RayView};
use crate::scalar::{
    lemma_product_bound, lemma_sqrt_floor_square, lemma_trunc_div_bound, lemma_trunc_div_exact,
    BOUNCE_SLACK,
    DIRECTION_LIMIT, DISTANCE_LIMIT, EPSILON, LENGTH_LIMIT, MAX_BOUNCES, MAX_STEPS, NORMAL_STEP,
    ONE, ORIGIN_LIMIT, POINT_LIMIT, REACH_LIMIT, SHAPE_LIMIT,
};
use crate::shapes::{
    along, is_axis, lemma_axis_scaled, lemma_axis_scaled_exact, lemma_sphere_axis_normal,
    normal_gradient, normal_probe, Hittable, Material, Shape, Sphere, Transform, Wall,
};
use crate::vector::{
    lemma_normalized_unit, lemma_normalized_within_one, lemma_scaled_within, Vec3, V3,
};

verus! {

/// Among the first `n` shapes, the index of the one closest to `pos`; of
/// several equally close, the first.
pub open spec fn closest_among(shapes: Seq<Shape>, pos: V3, n: nat) -> int
    decreases n,
{
    if n <= 1 {
        0
    } else {
        let before = closest_among(shapes, pos, (n - 1) as nat);
        if shapes[n - 1].distance_at(pos) < shapes[before].distance_at(pos) {
            n - 1
        } else {
            before
        }
    }
}

/// The index of the shape closest to `pos`; of several equally close, the
/// first in scene order.
pub open spec fn closest(shapes: Seq<Shape>, pos: V3) -> int {
    closest_among(shapes, pos, shapes.len())
}

/// The smallest distance from `pos` to any shape.
pub open spec fn min_distance(shapes: Seq<Shape>, pos: V3) -> int {
    shapes[closest(shapes, pos)].distance_at(pos)
}

/// The closest of the first `n` shapes is one of them, none of them is
/// closer, and all before it are farther.
pub proof fn lemma_closest_among(shapes: Seq<Shape>, pos: V3, n: nat)
    requires
        0 < n <= shapes.len(),
    ensures
        0 <= closest_among(shapes, pos, n) < n,
        forall|j: int|
            0 <= j < n ==> (#[trigger] shapes[j]).distance_at(pos) >= shapes[closest_among(
                shapes,
                pos,
                n,
            )].distance_at(pos),
        forall|j: int|
            0 <= j < closest_among(shapes, pos, n) ==> (#[trigger] shapes[j]).distance_at(pos)
                > shapes[closest_among(shapes, pos, n)].distance_at(pos),
    decreases n,
{
    if n > 1 {
        lemma_closest_among(shapes, pos, (n - 1) as nat);
    }
}

/// The closest shape is the first of those at the smallest distance.
pub proof fn lemma_closest_is_first_minimum(shapes: Seq<Shape>, pos: V3)
    requires
        shapes.len() > 0,
    ensures
        0 <= closest(shapes, pos) < shapes.len(),
        forall|j: int|
            0 <= j < shapes.len() ==> (#[trigger] shapes[j]).distance_at(pos) >= min_distance(
                shapes,
                pos,
            ),
        forall|j: int|
            0 <= j < closest(shapes, pos) ==> (#[trigger] shapes[j]).distance_at(pos)
                > min_distance(shapes, pos),
{
    lemma_closest_among(shapes, pos, shapes.len());
}

/// How one straight march ended.
pub ghost enum MarchEnd {
    /// The step budget ran out `t` along the ray.
    Exhausted { t: int },
    /// The path grew longer than the distance cap, `t` along the ray, with
    /// the shape of index `shape` closest at the last step.
    TooFar { t: int, shape: int },
    /// The march came within `EPSILON` of the shape of index `shape`, `t`
    /// along the ray.
    Surface { t: int, shape: int },
}

/// The end of a march that stands `t` along the ray with `steps` steps left:
/// each step advances by the smallest distance to any shape, stops beyond the
/// cap, and else stops at a surface.
pub open spec fn march_from(shapes: Seq<Shape>, ray: RayView, max: int, t: int, steps: nat)
    -> MarchEnd
    decreases steps,
{
    if steps == 0 {
        MarchEnd::Exhausted { t }
    } else {
        let pos = ray.point_at(t);
        let shape = closest(shapes, pos);
        let step = min_distance(shapes, pos);
        if ray.cum_length + t + step > max {
            MarchEnd::TooFar { t: t + step, shape }
        } else if step < EPSILON {
            MarchEnd::Surface { t: t + step, shape }
        } else {
            march_from(shapes, ray, max, t + step, (steps - 1) as nat)
        }
    }
}

/// The end of a whole march along `ray`.
pub open spec fn march_spec(shapes: Seq<Shape>, ray: RayView, max: int) -> MarchEnd {
    march_from(shapes, ray, max, 0, MAX_STEPS as nat)
}

/// How many more mirrors a ray may still leave.
pub open spec fn remaining_bounces(ray: RayView) -> int {
    if ray.bounces <= MAX_BOUNCES {
        MAX_BOUNCES + 1 - ray.bounces
    } else {
        0
    }
}

/// How far a ray may still travel before its path exceeds the cap.
pub open spec fn room(ray: RayView, max: int) -> int {
    if max - ray.cum_length > 0 {
        max - ray.cum_length
    } else {
        0
    }
}

/// A ray that can be cast afresh under the cap `max`: its numbers are within
/// the limits of the arithmetic.
pub open spec fn launchable(ray: RayView, max: int) -> bool {
    &&& ray.origin.within(ORIGIN_LIMIT as int)
    &&& ray.direction.within(ONE as int)
    &&& 0 <= ray.cum_length <= LENGTH_LIMIT
    &&& -LENGTH_LIMIT <= ray.weight <= LENGTH_LIMIT
    &&& -LENGTH_LIMIT <= max <= LENGTH_LIMIT
}

/// A ray whose whole future path stays within the limits of the arithmetic:
/// what is left of its room and of its bounces cannot carry it out of reach.
pub open spec fn traceable(ray: RayView, max: int) -> bool {
    let left = remaining_bounces(ray);
    let spent = MAX_BOUNCES + 1 - left;
    &&& ray.direction.within(ONE as int)
    &&& -LENGTH_LIMIT <= max <= LENGTH_LIMIT
    &&& -LENGTH_LIMIT - spent * SHAPE_LIMIT <= ray.cum_length <= LENGTH_LIMIT
    &&& -LENGTH_LIMIT <= ray.weight <= LENGTH_LIMIT + spent * ONE
    &&& ray.origin.within(REACH_LIMIT - room(ray, max) - left * BOUNCE_SLACK)
}

/// Every ray that can be cast afresh is traceable.
pub proof fn lemma_launchable_is_traceable(ray: RayView, max: int)
    requires
        launchable(ray, max),
    ensures
        traceable(ray, max),
{
}

/// The direction `d` mirrored at a surface with normal `n`:
/// `d - 2 (d . n) n`.
pub open spec fn reflect_spec(d: V3, n: V3) -> V3 {
    d.minus(n.scaled(2 * d.dot(n)))
}

/// A direction that grazes the surface, with no part along the normal, comes
/// back as it is.
pub proof fn lemma_reflect_grazing(d: V3, n: V3)
    requires
        d.dot(n) == 0,
    ensures
        reflect_spec(d, n) == d,
{
    lemma_trunc_div_exact(0, ONE as int);
    assert(n.x * 0 == 0 && n.y * 0 == 0 && n.z * 0 == 0);
}

/// Mirroring at a normal and at its reverse is the same.
pub proof fn lemma_reflect_normal_sign(d: V3, n: V3)
    ensures
        reflect_spec(d, n.negated()) == reflect_spec(d, n),
{
    let k = d.dot(n);
    assert(d.raw_dot(n.negated()) == -d.raw_dot(n)) by (nonlinear_arith)
        requires
            d.raw_dot(n.negated()) == d.x * (-n.x) + d.y * (-n.y) + d.z * (-n.z),
            d.raw_dot(n) == d.x * n.x + d.y * n.y + d.z * n.z,
    ;
    assert(d.dot(n.negated()) == -k);
    assert((-n.x) * (2 * (-k)) == n.x * (2 * k) && (-n.y) * (2 * (-k)) == n.y * (2 * k) && (-n.z)
        * (2 * (-k)) == n.z * (2 * k)) by (nonlinear_arith);
}

/// The dot product of two bounded vectors is bounded.
pub proof fn lemma_dot_within(a: V3, b: V3, ma: int, mb: int, m: int)
    requires
        a.within(ma),
        b.within(mb),
        m >= 0,
        3 * (ma * mb) <= m * ONE,
    ensures
        -m <= a.dot(b) <= m,
{
    lemma_product_bound(a.x, b.x, ma, mb);
    lemma_product_bound(a.y, b.y, ma, mb);
    lemma_product_bound(a.z, b.z, ma, mb);
    lemma_trunc_div_bound(a.raw_dot(b), ONE as int, m);
}

/// The direction `d` mirrored at a surface with normal `n`:
/// `d - 2 (d . n) n`.
pub fn reflect(d: Vec3, n: Vec3) -> (r: Vec3)
    requires
        d@.within(DIRECTION_LIMIT as int),
        n@.within(DIRECTION_LIMIT as int),
    ensures
        r@ == d@.minus(n@.scaled(2 * d@.dot(n@))),
        r@ == reflect_spec(d@, n@),
        r@.within(7_000_000_000_000_000),
{
    proof {
        lemma_dot_within(
            d@,
            n@,
            DIRECTION_LIMIT as int,
            DIRECTION_LIMIT as int,
            3_000_000_000_000,
        );
        lemma_scaled_within(
            n@,
            2 * d@.dot(n@),
            DIRECTION_LIMIT as int,
            6_000_000_000_000,
            6_000_000_000_000_000,
        );
    }
    let twice: i64 = 2 * d.dot(n);
    d.minus(n.scaled(twice))
}

/// What a cast found at a surface, or beyond the distance cap.
#[derive(Clone, Copy, Debug, PartialEq, Eq)]
pub struct Hit<'a> {
    pub position: Vec3,
    /// How far along its last ray the path ended.
    pub distance: i64,
    /// The normal of the surface; zero where the path was cut at the cap.
    pub normal: Vec3,
    pub shape: &'a Shape,
    pub bounces: u32,
    pub cum_length: i64,
    pub weight: i64,
}

/// Where a cast gave up for want of steps.
#[derive(Clone, Copy, Debug, PartialEq, Eq)]
pub struct Miss {
    pub position: Vec3,
    pub bounces: u32,
    pub cum_length: i64,
    pub weight: i64,
}

/// What a cast returns when it returns anything.
#[derive(Clone, Copy, Debug, PartialEq, Eq)]
pub enum CastResult<'a> {
    Hit(Hit<'a>),
    Miss(Miss),
}

/// The mathematical model of a `Hit`; `shape` is the index of the shape in
/// the scene.
pub ghost struct HitView {
    pub position: V3,
    pub distance: int,
    pub normal: V3,
    pub shape: int,
    pub bounces: nat,
    pub cum_length: int,
    pub weight: int,
}

/// The mathematical model of a `Miss`.
pub ghost struct MissView {
    pub position: V3,
    pub bounces: nat,
    pub cum_length: int,
    pub weight: int,
}

/// The mathematical model of a `CastResult`.
pub ghost enum Outcome {
    Hit(HitView),
    Miss(MissView),
}

impl Outcome {
    /// How often the path was reflected.
    pub open spec fn bounces(self) -> nat {
        match self {
            Outcome::Hit(h) => h.bounces,
            Outcome::Miss(m) => m.bounces,
        }
    }

    /// The weight that the path gathered.
    pub open spec fn weight(self) -> int {
        match self {
            Outcome::Hit(h) => h.weight,
            Outcome::Miss(m) => m.weight,
        }
    }

    /// How long the path is.
    pub open spec fn cum_length(self) -> int {
        match self {
            Outcome::Hit(h) => h.cum_length,
            Outcome::Miss(m) => m.cum_length,
        }
    }
}

/// The normal of `shape` where `ray` met it at `pos`: the estimated normal;
/// where the estimate vanishes, as it does at the center of a sphere, the
/// reverse of the ray's direction; and where the ray has no direction either,
/// the y axis. It is never zero.
pub open spec fn surface_normal(shape: Shape, ray: RayView, pos: V3) -> V3 {
    let estimate = shape.normal_at(pos);
    let back = ray.direction.negated().normalized();
    if estimate != V3::zero() {
        estimate
    } else if back != V3::zero() {
        back
    } else {
        V3 { x: 0, y: ONE as int, z: 0 }
    }
}

/// The normal at a surface is one long, to within two millionths, and so
/// never zero.
pub proof fn lemma_surface_normal_unit(shape: Shape, ray: RayView, pos: V3)
    ensures
        surface_normal(shape, ray, pos) != V3::zero(),
        ONE - 2 <= surface_normal(shape, ray, pos).length() <= ONE,
        surface_normal(shape, ray, pos).within(ONE as int),
{
    let gradient = normal_gradient(
        shape.distance_at(normal_probe(pos, 0)),
        shape.distance_at(normal_probe(pos, 1)),
        shape.distance_at(normal_probe(pos, 2)),
        shape.distance_at(normal_probe(pos, 3)),
    );
    lemma_normalized_unit(gradient);
    lemma_normalized_within_one(gradient);
    lemma_normalized_unit(ray.direction.negated());
    lemma_normalized_within_one(ray.direction.negated());
    let up = V3 { x: 0, y: ONE as int, z: 0 };
    assert(up.norm_squared() == ONE * ONE);
    lemma_sqrt_floor_square(ONE as int);
}

/// The ray that leaves the mirror `shape` where `ray` met it `t` along: the
/// direction mirrored at the normal of the surface, the origin lifted off
/// the surface by twice `EPSILON`, one more bounce, `t` more path, one more
/// unit of weight.
pub open spec fn bounce(shape: Shape, ray: RayView, t: int) -> RayView {
    let position = ray.point_at(t);
    let normal = surface_normal(shape, ray, position);
    let direction = reflect_spec(ray.direction, normal).normalized();
    RayView {
        origin: position.plus(direction.scaled(2 * EPSILON)),
        direction,
        bounces: ray.bounces + 1,
        cum_length: ray.cum_length + t,
        weight: ray.weight + ONE,
    }
}

/// What a cast of `ray` into `shapes` under the distance cap `max` returns.
///
/// Nothing in an empty scene. Else the ray is marched. A march that runs out
/// of steps is a miss; one that exceeds the cap is a hit with the zero
/// normal; one that reaches a dull surface is a hit with its normal, which
/// is never zero; one that
/// reaches a mirror goes on with the mirrored ray, unless the ray has already
/// bounced more than `MAX_BOUNCES` times, which ends the cast with nothing.
pub open spec fn cast_spec(shapes: Seq<Shape>, ray: RayView, max: int) -> Option<Outcome>
    decreases remaining_bounces(ray),
{
    if shapes.len() == 0 {
        None
    } else {
        match march_spec(shapes, ray, max) {
            MarchEnd::Exhausted { t } => Some(
                Outcome::Miss(
                    MissView {
                        position: ray.point_at(t),
                        bounces: ray.bounces,
                        cum_length: ray.cum_length + t,
                        weight: ray.weight,
                    },
                ),
            ),
            MarchEnd::TooFar { t, shape } => Some(
                Outcome::Hit(
                    HitView {
                        position: ray.point_at(t),
                        distance: t,
                        normal: V3::zero(),
                        shape,
                        bounces: ray.bounces,
                        cum_length: ray.cum_length + t,
                        weight: ray.weight,
                    },
                ),
            ),
            MarchEnd::Surface { t, shape } => {
                if shapes[shape].surface().reflective {
                    if ray.bounces > MAX_BOUNCES {
                        None
                    } else {
                        cast_spec(shapes, bounce(shapes[shape], ray, t), max)
                    }
                } else {
                    Some(
                        Outcome::Hit(
                            HitView {
                                position: ray.point_at(t),
                                distance: t,
                                normal: surface_normal(shapes[shape], ray, ray.point_at(t)),
                                shape,
                                bounces: ray.bounces,
                                cum_length: ray.cum_length + t,
                                weight: ray.weight,
                            },
                        ),
                    )
                }
            },
        }
    }
}

/// Whether what a cast returned is what the model says, the shape of a hit
/// being the shape at the model's index.
pub open spec fn agrees(shapes: Seq<Shape>, r: Option<CastResult>, o: Option<Outcome>) -> bool {
    match (r, o) {
        (None, None) => true,
        (Some(CastResult::Hit(h)), Some(Outcome::Hit(v))) => {
            &&& h.position@ == v.position
            &&& h.distance == v.distance
            &&& h.normal@ == v.normal
            &&& 0 <= v.shape < shapes.len()
            &&& *h.shape == shapes[v.shape]
            &&& h.bounces == v.bounces
            &&& h.cum_length == v.cum_length
            &&& h.weight == v.weight
        },
        (Some(CastResult::Miss(m)), Some(Outcome::Miss(v))) => {
            &&& m.position@ == v.position
            &&& m.bounces == v.bounces
            &&& m.cum_length == v.cum_length
            &&& m.weight == v.weight
        },
        _ => false,
    }
}

/// The ray that leaves a mirror is traceable if the ray that met it was: the
/// bounce uses up one of the remaining bounces, and with it the slack that
/// this bounce can need.
pub proof fn lemma_bounce_traceable(ray: RayView, max: int, t: int, next: RayView)
    requires
        traceable(ray, max),
        ray.bounces <= MAX_BOUNCES,
        -SHAPE_LIMIT <= t,
        ray.cum_length + t <= max,
        next.direction.within(ONE as int),
        next.origin == ray.point_at(t).plus(next.direction.scaled(2 * EPSILON)),
        next.bounces == ray.bounces + 1,
        next.cum_length == ray.cum_length + t,
        next.weight == ray.weight + ONE,
    ensures
        traceable(next, max),
{
    lemma_axis_scaled(ray.direction, t);
    lemma_axis_scaled(next.direction, 2 * EPSILON);
    let left = remaining_bounces(ray);
    assert(remaining_bounces(next) == left - 1);
    let bound = REACH_LIMIT - room(ray, max) - left * BOUNCE_SLACK;
    let travelled = if t >= 0 { t } else { -t };
    assert(ray.point_at(t).within(bound + travelled));
    assert(next.origin.within(bound + travelled + 2 * EPSILON));
    assert(room(next, max) + travelled <= room(ray, max) + 2 * SHAPE_LIMIT);
    assert((left - 1) * BOUNCE_SLACK == left * BOUNCE_SLACK - BOUNCE_SLACK);
}

/// The point `t` along a ray on its path.
fn path_point(ray: &Ray, t: i64, Ghost(max): Ghost<int>) -> (p: Vec3)
    requires
        traceable(ray@, max),
        -SHAPE_LIMIT <= t <= room(ray@, max) + DISTANCE_LIMIT,
    ensures
        p@ == ray@.point_at(t as int),
        t <= room(ray@, max) ==> p@.within(REACH_LIMIT + SHAPE_LIMIT),
{
    proof {
        lemma_point_within(
            ray@,
            t as int,
            room(ray@, max) + DISTANCE_LIMIT,
            REACH_LIMIT - room(ray@, max),
        );
        if t <= room(ray@, max) {
            lemma_point_within(
                ray@,
                t as int,
                room(ray@, max) + SHAPE_LIMIT,
                REACH_LIMIT - room(ray@, max),
            );
        }
    }
    ray.point_at(t)
}

/// The hit of `ray` on the dull shape `surface`, `t` along the ray.
fn dull_hit<'a>(surface: &'a Shape, ray: &Ray, t: i64, Ghost(max): Ghost<int>) -> (hit: Hit<'a>)
    requires
        surface.valid(),
        traceable(ray@, max),
        -SHAPE_LIMIT <= t,
        ray.cum_length + t <= max,
    ensures
        hit.position@ == ray@.point_at(t as int),
        hit.distance == t,
        hit.normal@ == surface_normal(*surface, ray@, ray@.point_at(t as int)),
        *hit.shape == *surface,
        hit.bounces == ray.reflect_count,
        hit.cum_length == ray.cum_length + t,
        hit.weight == ray.weight,
{
    let position = path_point(ray, t, Ghost(max));
    Hit {
        position,
        distance: t,
        normal: facing_normal(surface, ray, position),
        shape: surface,
        bounces: ray.reflect_count,
        cum_length: ray.cum_length + t,
        weight: ray.weight,
    }
}

/// The normal of `shape` where `ray` met it at `position`: the estimated
/// normal, or the reverse of the ray's direction where the estimate
/// vanishes, or the y axis where the ray has no direction either.
fn facing_normal(shape: &Shape, ray: &Ray, position: Vec3) -> (normal: Vec3)
    requires
        shape.valid(),
        ray.direction@.within(ONE as int),
        position@.within(POINT_LIMIT - NORMAL_STEP),
    ensures
        normal@ == surface_normal(*shape, ray@, position@),
        normal@ != V3::zero(),
        normal@.within(ONE as int),
{
    proof {
        lemma_surface_normal_unit(*shape, ray@, position@);
    }
    let estimate = shape.calc_normal(position);
    if estimate.x != 0 || estimate.y != 0 || estimate.z != 0 {
        return estimate;
    }
    let back = ray.direction.negated().normalize();
    if back.x != 0 || back.y != 0 || back.z != 0 {
        return back;
    }
    Vec3 { x: 0, y: ONE, z: 0 }
}

/// The ray that leaves the mirror `shape` where `ray` met it `t` along.
fn bounced(shape: &Shape, ray: &Ray, t: i64, Ghost(max): Ghost<int>) -> (next: Ray)
    requires
        shape.valid(),
        traceable(ray@, max),
        ray.reflect_count <= MAX_BOUNCES,
        -SHAPE_LIMIT <= t,
        ray.cum_length + t <= max,
    ensures
        next@ == bounce(*shape, ray@, t as int),
        traceable(next@, max),
{
    let position = path_point(ray, t, Ghost(max));
    let normal = facing_normal(shape, ray, position);
    let direction = reflect(ray.direction, normal).normalize();
    proof {
        lemma_axis_scaled(direction@, 2 * EPSILON);
    }
    let next = Ray {
        origin: position.plus(direction.scaled(2 * EPSILON)),
        direction,
        reflect_count: ray.reflect_count + 1,
        cum_length: ray.cum_length + t,
        weight: ray.weight + ONE,
    };
    proof {
        lemma_bounce_traceable(ray@, max, t as int, next@);
    }
    next
}

/// How far a march has come after `k` steps, none of which stopped it.
pub open spec fn march_progress(shapes: Seq<Shape>, ray: RayView, k: nat) -> int
    decreases k,
{
    if k == 0 {
        0
    } else {
        let t = march_progress(shapes, ray, (k - 1) as nat);
        t + min_distance(shapes, ray.point_at(t))
    }
}

/// The length of the step that follows the first `k` steps of a march.
pub open spec fn step_length(shapes: Seq<Shape>, ray: RayView, k: nat) -> int {
    min_distance(shapes, ray.point_at(march_progress(shapes, ray, k)))
}

/// Whether a march along `ray` stays clear of every surface and under the
/// cap for all of its steps.
pub open spec fn never_arrives(shapes: Seq<Shape>, ray: RayView, max: int) -> bool {
    forall|k: nat|
        k < MAX_STEPS ==> EPSILON <= #[trigger] step_length(shapes, ray, k) && ray.cum_length
            + march_progress(shapes, ray, k + 1) <= max
}

/// A march that never arrives, seen after `k` of its steps, runs out of
/// steps where its progress ends.
proof fn lemma_march_runs_out(shapes: Seq<Shape>, ray: RayView, max: int, k: nat)
    requires
        never_arrives(shapes, ray, max),
        k <= MAX_STEPS,
    ensures
        march_from(shapes, ray, max, march_progress(shapes, ray, k), (MAX_STEPS - k) as nat)
            == (MarchEnd::Exhausted { t: march_progress(shapes, ray, MAX_STEPS as nat) }),
    decreases MAX_STEPS - k,
{
    if k < MAX_STEPS {
        assert(EPSILON <= step_length(shapes, ray, k));
        assert(march_progress(shapes, ray, k + 1) == march_progress(shapes, ray, k)
            + step_length(shapes, ray, k));
        lemma_march_runs_out(shapes, ray, max, k + 1);
    }
}

/// A ray that stays clear of every surface for the whole step budget, and
/// under the distance cap, yields a miss at the point where the budget ran
/// out, with the bookkeeping of the ray.
pub proof fn lemma_miss_without_surface(shapes: Seq<Shape>, ray: RayView, max: int)
    requires
        shapes.len() > 0,
        never_arrives(shapes, ray, max),
    ensures
        cast_spec(shapes, ray, max) == Some(
            Outcome::Miss(
                MissView {
                    position: ray.point_at(march_progress(shapes, ray, MAX_STEPS as nat)),
                    bounces: ray.bounces,
                    cum_length: ray.cum_length + march_progress(shapes, ray, MAX_STEPS as nat),
                    weight: ray.weight,
                },
            ),
        ),
{
    lemma_march_runs_out(shapes, ray, max, 0);
}

/// A ray that has bounced more than `MAX_BOUNCES` times and meets a mirror
/// ends the cast with nothing.
pub proof fn lemma_bounce_budget(shapes: Seq<Shape>, ray: RayView, max: int)
    requires
        shapes.len() > 0,
        ray.bounces > MAX_BOUNCES,
        march_spec(shapes, ray, max) matches MarchEnd::Surface { t, shape }
            && shapes[shape].surface().reflective,
    ensures
        cast_spec(shapes, ray, max) is None,
{
}

/// A cast never reports more than `MAX_BOUNCES + 1` bounces unless the ray
/// came with more, never fewer than the ray came with, and the weight grows
/// by one for each bounce.
pub proof fn lemma_cast_bookkeeping(shapes: Seq<Shape>, ray: RayView, max: int)
    ensures
        cast_spec(shapes, ray, max) matches Some(o) ==> {
            &&& ray.bounces <= o.bounces()
            &&& o.bounces() <= ray.bounces || o.bounces() <= MAX_BOUNCES + 1
            &&& o.weight() == ray.weight + (o.bounces() - ray.bounces) * ONE
        },
    decreases remaining_bounces(ray),
{
    if shapes.len() > 0 {
        match march_spec(shapes, ray, max) {
            MarchEnd::Surface { t, shape } => {
                if shapes[shape].surface().reflective && ray.bounces <= MAX_BOUNCES {
                    let next = bounce(shapes[shape], ray, t);
                    lemma_cast_bookkeeping(shapes, next, max);
                    if let Some(o) = cast_spec(shapes, next, max) {
                        assert((o.bounces() - next.bounces) * ONE + ONE == (o.bounces()
                            - ray.bounces) * ONE);
                    }
                }
            },
            _ => {},
        }
    }
}

/// A hit is produced only at a dull surface or beyond the distance cap, and
/// the zero normal is the mark of the cap: a hit names a shape of the scene;
/// its normal is zero if and only if its path is longer than the cap; and a
/// hit within the cap lies on a dull shape and has a normal that is one
/// long, to within two millionths.
pub proof fn lemma_hit_is_dull_or_capped(shapes: Seq<Shape>, ray: RayView, max: int)
    ensures
        cast_spec(shapes, ray, max) matches Some(Outcome::Hit(h)) ==> {
            &&& 0 <= h.shape < shapes.len()
            &&& h.normal == V3::zero() <==> h.cum_length > max
            &&& h.cum_length <= max ==> !shapes[h.shape].surface().reflective && ONE - 2
                <= h.normal.length() <= ONE
        },
    decreases remaining_bounces(ray),
{
    if shapes.len() > 0 {
        lemma_march_stops_at_shape(shapes, ray, max, 0, MAX_STEPS as nat);
        match march_spec(shapes, ray, max) {
            MarchEnd::Surface { t, shape } => {
                if shapes[shape].surface().reflective {
                    if ray.bounces <= MAX_BOUNCES {
                        lemma_hit_is_dull_or_capped(shapes, bounce(shapes[shape], ray, t), max);
                    }
                } else {
                    lemma_surface_normal_unit(shapes[shape], ray, ray.point_at(t));
                }
            },
            _ => {},
        }
    }
}

/// In a scene of mirrors alone no cast ends at a surface: it returns
/// nothing, or a miss, or the hit with the zero normal that marks a path
/// longer than the distance cap.
pub proof fn lemma_mirrors_only(shapes: Seq<Shape>, ray: RayView, max: int)
    requires
        forall|i: int| 0 <= i < shapes.len() ==> (#[trigger] shapes[i]).surface().reflective,
    ensures
        cast_spec(shapes, ray, max) matches Some(Outcome::Hit(h)) ==> h.normal == V3::zero()
            && h.cum_length > max,
{
    lemma_hit_is_dull_or_capped(shapes, ray, max);
}

/// A march that stops at a shape names a shape of the scene; one that stops
/// beyond the cap has a path longer than the cap, and one that stops at a
/// surface has not.
pub proof fn lemma_march_stops_at_shape(
    shapes: Seq<Shape>,
    ray: RayView,
    max: int,
    t: int,
    steps: nat,
)
    requires
        shapes.len() > 0,
    ensures
        march_from(shapes, ray, max, t, steps) matches MarchEnd::Surface { t: end, shape } ==> 0
            <= shape < shapes.len() && ray.cum_length + end <= max,
        march_from(shapes, ray, max, t, steps) matches MarchEnd::TooFar { t: end, shape } ==> 0
            <= shape < shapes.len() && ray.cum_length + end > max,
    decreases steps,
{
    if steps > 0 {
        let pos = ray.point_at(t);
        lemma_closest_is_first_minimum(shapes, pos);
        lemma_march_stops_at_shape(
            shapes,
            ray,
            max,
            t + min_distance(shapes, pos),
            (steps - 1) as nat,
        );
    }
}

/// A ray aimed along an axis straight at the center of a dull sphere that is
/// alone in the scene, from `gap` outside its surface, hits it: `gap` along
/// the ray, which is the distance from the origin to the center less the
/// radius, at the point where the ray meets the surface, and with the reverse
/// of the ray's direction for a normal.
pub proof fn lemma_head_on_hit(s: Sphere, ray: RayView, max: int, gap: int)
    requires
        is_axis(ray.direction),
        s.radius >= NORMAL_STEP,
        !s.material.reflective,
        gap >= 0,
        s.position@ == ray.origin.plus(along(ray.direction, gap + s.radius)),
        ray.cum_length + gap <= max,
    ensures
        cast_spec(seq![Shape::Sphere(s)], ray, max) == Some(
            Outcome::Hit(
                HitView {
                    position: ray.origin.plus(along(ray.direction, gap)),
                    distance: gap,
                    normal: ray.direction.negated(),
                    shape: 0,
                    bounces: ray.bounces,
                    cum_length: ray.cum_length + gap,
                    weight: ray.weight,
                },
            ),
        ),
{
    let shapes = seq![Shape::Sphere(s)];
    let r = s.radius as int;
    let d = ray.direction;
    assert(shapes.len() == 1);
    assert(shapes[0] == Shape::Sphere(s));
    lemma_axis_scaled_exact(d, 0);
    lemma_axis_scaled_exact(d, gap);
    let start = ray.point_at(0);
    let arrival = ray.point_at(gap);
    let from_start = start.minus(s.position@);
    let from_arrival = arrival.minus(s.position@);
    assert(from_start == along(d, gap + r).negated());
    assert(from_arrival == along(d, r).negated());
    assert(from_start.norm_squared() == (gap + r) * (gap + r)) by (nonlinear_arith)
        requires
            is_axis(d),
            from_start == along(d, gap + r).negated(),
    ;
    assert(from_arrival.norm_squared() == r * r) by (nonlinear_arith)
        requires
            is_axis(d),
            from_arrival == along(d, r).negated(),
    ;
    lemma_sqrt_floor_square(gap + r);
    lemma_sqrt_floor_square(r);
    assert(min_distance(shapes, start) == gap);
    assert(min_distance(shapes, arrival) == 0);
    reveal_with_fuel(march_from, 3);
    assert(march_spec(shapes, ray, max) == (MarchEnd::Surface { t: gap, shape: 0 }));
    assert(arrival == s.position@.plus(along(d.negated(), r)));
    lemma_sphere_axis_normal(s, d.negated());
    assert(surface_normal(shapes[0], ray, arrival) == d.negated());
}

/// The colour with the given red, green and blue parts out of 255.
pub open spec fn color_of(red: u8, green: u8, blue: u8) -> Vec3 {
    Vec3 {
        x: (red as int * ONE / 255) as i64,
        y: (green as int * ONE / 255) as i64,
        z: (blue as int * ONE / 255) as i64,
    }
}

/// The colour with the given red, green and blue parts out of 255.
pub fn color_from_bytes(red: u8, green: u8, blue: u8) -> (c: Vec3)
    ensures
        c == color_of(red, green, blue),
{
    Vec3 {
        x: (red as i64) * ONE / 255,
        y: (green as i64) * ONE / 255,
        z: (blue as i64) * ONE / 255,
    }
}

/// An axis-aligned mirror box of the colour of sand.
pub open spec fn sand_wall(position: V3, size: V3) -> Shape {
    Shape::Wall(
        Wall {
            position: Vec3 { x: position.x as i64, y: position.y as i64, z: position.z as i64 },
            rotation: Transform {
                x_axis: Vec3 { x: ONE, y: 0, z: 0 },
                y_axis: Vec3 { x: 0, y: ONE, z: 0 },
                z_axis: Vec3 { x: 0, y: 0, z: ONE },
                translation: Vec3 { x: 0, y: 0, z: 0 },
            },
            size: Vec3 { x: size.x as i64, y: size.y as i64, z: size.z as i64 },
            material: Material { color: color_of(245, 243, 193), reflective: true },
        },
    )
}

/// A mirror ball of the colour of the sea.
pub open spec fn sea_ball(position: V3, radius: int) -> Shape {
    Shape::Sphere(
        Sphere {
            position: Vec3 { x: position.x as i64, y: position.y as i64, z: position.z as i64 },
            radius: radius as i64,
            material: Material { color: color_of(39, 225, 193), reflective: true },
        },
    )
}

/// The built-in scene: a mirror room of six walls, ten units from the
/// middle, a unit ball in the middle and a ball of radius five in each of
/// the eight corners.
pub open spec fn default_scene() -> Seq<Shape> {
    seq![
        sand_wall(V3 { x: 0, y: -10_000_000, z: 0 }, V3 { x: 100_000_000, y: 100_000, z: 100_000_000 }),
        sand_wall(V3 { x: 0, y: 10_000_000, z: 0 }, V3 { x: 100_000_000, y: 100_000, z: 100_000_000 }),
        sand_wall(V3 { x: 0, y: 0, z: 10_000_000 }, V3 { x: 100_000_000, y: 100_000_000, z: 100_000 }),
        sand_wall(V3 { x: 0, y: 0, z: -10_000_000 }, V3 { x: 100_000_000, y: 100_000_000, z: 100_000 }),
        sand_wall(V3 { x: -10_000_000, y: 0, z: 0 }, V3 { x: 100_000, y: 100_000_000, z: 100_000_000 }),
        sand_wall(V3 { x: 10_000_000, y: 0, z: 0 }, V3 { x: 100_000, y: 100_000_000, z: 100_000_000 }),
        sea_ball(V3 { x: 0, y: 0, z: 0 }, 1_000_000),
        sea_ball(V3 { x: -10_000_000, y: -10_000_000, z: -10_000_000 }, 5_000_000),
        sea_ball(V3 { x: 10_000_000, y: -10_000_000, z: 10_000_000 }, 5_000_000),
        sea_ball(V3 { x: -10_000_000, y: 10_000_000, z: 10_000_000 }, 5_000_000),
        sea_ball(V3 { x: 10_000_000, y: 10_000_000, z: -10_000_000 }, 5_000_000),
        sea_ball(V3 { x: 10_000_000, y: 10_000_000, z: 10_000_000 }, 5_000_000),
        sea_ball(V3 { x: -10_000_000, y: 10_000_000, z: -10_000_000 }, 5_000_000),
        sea_ball(V3 { x: 10_000_000, y: -10_000_000, z: -10_000_000 }, 5_000_000),
        sea_ball(V3 { x: -10_000_000, y: -10_000_000, z: 10_000_000 }, 5_000_000),
    ]
}

/// An axis-aligned mirror box of the colour of sand.
fn make_wall(x: i64, y: i64, z: i64, size_x: i64, size_y: i64, size_z: i64) -> (s: Shape)
    ensures
        s == sand_wall(
            V3 { x: x as int, y: y as int, z: z as int },
            V3 { x: size_x as int, y: size_y as int, z: size_z as int },
        ),
{
    Shape::Wall(
        Wall {
            position: Vec3 { x, y, z },
            rotation: Transform {
                x_axis: Vec3 { x: ONE, y: 0, z: 0 },
                y_axis: Vec3 { x: 0, y: ONE, z: 0 },
                z_axis: Vec3 { x: 0, y: 0, z: ONE },
                translation: Vec3 { x: 0, y: 0, z: 0 },
            },
            size: Vec3 { x: size_x, y: size_y, z: size_z },
            material: Material { color: color_from_bytes(245, 243, 193), reflective: true },
        },
    )
}

/// A mirror ball of the colour of the sea.
fn make_ball(x: i64, y: i64, z: i64, radius: i64) -> (s: Shape)
    ensures
        s == sea_ball(V3 { x: x as int, y: y as int, z: z as int }, radius as int),
{
    Shape::Sphere(
        Sphere {
            position: Vec3 { x, y, z },
            radius,
            material: Material { color: color_from_bytes(39, 225, 193), reflective: true },
        },
    )
}

/// The scene: shapes in a fixed order.
#[derive(Clone, Debug, PartialEq, Eq)]
pub struct World {
    content: Vec<Shape>,
}

impl View for World {
    type V = Seq<Shape>;

    closed spec fn view(&self) -> Seq<Shape> {
        self.content@
    }
}

/// How one straight march ended.
#[derive(Clone, Copy, Debug, PartialEq, Eq)]
pub enum MarchStop {
    Exhausted { t: i64 },
    TooFar { t: i64, shape: usize },
    Surface { t: i64, shape: usize },
}

impl View for MarchStop {
    type V = MarchEnd;

    open spec fn view(&self) -> MarchEnd {
        match *self {
            MarchStop::Exhausted { t } => MarchEnd::Exhausted { t: t as int },
            MarchStop::TooFar { t, shape } => MarchEnd::TooFar { t: t as int, shape: shape as int },
            MarchStop::Surface { t, shape } => MarchEnd::Surface {
                t: t as int,
                shape: shape as int,
            },
        }
    }
}

/// A point `t` along a ray whose direction has no component beyond one lies
/// no farther from the origin than `t` is long, along every axis.
pub proof fn lemma_point_within(ray: RayView, t: int, bound: int, reach: int)
    requires
        ray.direction.within(ONE as int),
        ray.origin.within(reach),
        -bound <= t <= bound,
    ensures
        ray.direction.scaled(t).within(bound),
        ray.point_at(t).within(reach + bound),
{
    lemma_axis_scaled(ray.direction, t);
}

impl World {
    /// Every shape is within the limits of the arithmetic.
    pub open spec fn valid(&self) -> bool {
        forall|i: int| 0 <= i < self@.len() ==> (#[trigger] self@[i]).valid()
    }

    /// The built-in scene.
    pub fn new() -> (w: World)
        ensures
            w@ == default_scene(),
            w.valid(),
    {
        let far: i64 = 10_000_000;
        let wide: i64 = 100_000_000;
        let thin: i64 = 100_000;
        let big: i64 = 5_000_000;
        let mut content: Vec<Shape> = Vec::new();
        content.push(make_wall(0, -far, 0, wide, thin, wide));
        content.push(make_wall(0, far, 0, wide, thin, wide));
        content.push(make_wall(0, 0, far, wide, wide, thin));
        content.push(make_wall(0, 0, -far, wide, wide, thin));
        content.push(make_wall(-far, 0, 0, thin, wide, wide));
        content.push(make_wall(far, 0, 0, thin, wide, wide));
        content.push(make_ball(0, 0, 0, ONE));
        content.push(make_ball(-far, -far, -far, big));
        content.push(make_ball(far, -far, far, big));
        content.push(make_ball(-far, far, far, big));
        content.push(make_ball(far, far, -far, big));
        content.push(make_ball(far, far, far, big));
        content.push(make_ball(-far, far, -far, big));
        content.push(make_ball(far, -far, -far, big));
        content.push(make_ball(-far, -far, far, big));
        assert(content@ =~= default_scene());
        World { content }
    }

    /// The scene of the given shapes, in their order, or nothing if one of
    /// them is beyond the limits of the arithmetic.
    pub fn from_shapes(content: Vec<Shape>) -> (w: Option<World>)
        ensures
            w is Some <==> forall|i: int| 0 <= i < content@.len() ==> (#[trigger] content@[i]).valid(),
            w matches Some(world) ==> world@ == content@ && world.valid(),
    {
        let mut i: usize = 0;
        while i < content.len()
            invariant
                i <= content.len(),
                forall|j: int| 0 <= j < i ==> (#[trigger] content@[j]).valid(),
            decreases content.len() - i,
        {
            if !content[i].is_valid() {
                return None;
            }
            i += 1;
        }
        Some(World { content })
    }

    /// The shapes of the scene, in their order.
    pub fn shapes(&self) -> (s: &Vec<Shape>)
        ensures
            s@ == self@,
    {
        &self.content
    }

    /// The shape closest to `pos` and its distance; of several equally
    /// close shapes, the first in scene order.
    pub fn closest_shape(&self, pos: Vec3) -> (r: (usize, i64))
        requires
            self.valid(),
            self@.len() > 0,
            pos@.within(POINT_LIMIT as int),
        ensures
            r.0 == closest(self@, pos@),
            r.0 < self@.len(),
            r.1 == min_distance(self@, pos@),
            -SHAPE_LIMIT <= r.1 <= DISTANCE_LIMIT,
    {
        let mut best: usize = 0;
        let mut best_distance: i64 = self.content[0].distance(pos);
        let mut i: usize = 1;
        while i < self.content.len()
            invariant
                self.valid(),
                pos@.within(POINT_LIMIT as int),
                1 <= i <= self.content.len(),
                best < i,
                best == closest_among(self@, pos@, i as nat),
                best_distance == self@[best as int].distance_at(pos@),
                -SHAPE_LIMIT <= best_distance <= DISTANCE_LIMIT,
            decreases self.content.len() - i,
        {
            let here: i64 = self.content[i].distance(pos);
            if here < best_distance {
                best = i;
                best_distance = here;
            }
            i += 1;
        }
        (best, best_distance)
    }

    /// One straight march along `ray`: up to `MAX_STEPS` steps, each as long
    /// as the smallest distance to any shape.
    pub fn march(&self, ray: &Ray, max_distance: i64) -> (stop: MarchStop)
        requires
            self.valid(),
            self@.len() > 0,
            traceable(ray@, max_distance as int),
        ensures
            stop@ == march_spec(self@, ray@, max_distance as int),
            match stop {
                MarchStop::Exhausted { t } => 0 <= t <= room(ray@, max_distance as int),
                MarchStop::TooFar { t, shape } => shape < self@.len() && -SHAPE_LIMIT <= t <= room(
                    ray@,
                    max_distance as int,
                ) + DISTANCE_LIMIT,
                MarchStop::Surface { t, shape } => shape < self@.len() && -SHAPE_LIMIT <= t
                    && ray.cum_length + t <= max_distance,
            },
    {
        let mut t: i64 = 0;
        let mut step: u32 = 0;
        while step < MAX_STEPS
            invariant
                self.valid(),
                self@.len() > 0,
                traceable(ray@, max_distance as int),
                step <= MAX_STEPS,
                0 <= t <= room(ray@, max_distance as int),
                march_spec(self@, ray@, max_distance as int) == march_from(
                    self@,
                    ray@,
                    max_distance as int,
                    t as int,
                    (MAX_STEPS - step) as nat,
                ),
            decreases MAX_STEPS - step,
        {
            proof {
                lemma_point_within(
                    ray@,
                    t as int,
                    room(ray@, max_distance as int),
                    REACH_LIMIT - room(ray@, max_distance as int),
                );
            }
            let pos = ray.point_at(t);
            let (shape, here) = self.closest_shape(pos);
            let next: i64 = t + here;
            if ray.cum_length + next > max_distance {
                return MarchStop::TooFar { t: next, shape };
            }
            if here < EPSILON {
                return MarchStop::Surface { t: next, shape };
            }
            t = next;
            step += 1;
        }
        MarchStop::Exhausted { t }
    }

    /// Whether `ray` can be cast afresh under the cap `max_distance`.
    pub fn can_launch(ray: &Ray, max_distance: i64) -> (b: bool)
        ensures
            b == launchable(ray@, max_distance as int),
    {
        ray.origin.is_within(ORIGIN_LIMIT) && ray.direction.is_within(ONE) && 0 <= ray.cum_length
            && ray.cum_length <= LENGTH_LIMIT && -LENGTH_LIMIT <= ray.weight && ray.weight
            <= LENGTH_LIMIT && -LENGTH_LIMIT <= max_distance && max_distance <= LENGTH_LIMIT
    }

    /// The cast of a ray somewhere along a path: one march, then the path's
    /// end or the next ray.
    fn trace(&self, ray: Ray, max_distance: i64) -> (r: Option<CastResult<'_>>)
        requires
            self.valid(),
            self@.len() > 0,
            traceable(ray@, max_distance as int),
        ensures
            agrees(self@, r, cast_spec(self@, ray@, max_distance as int)),
        decreases remaining_bounces(ray@),
    {
        let stop = self.march(&ray, max_distance);
        match stop {
            MarchStop::Exhausted { t } => Some(
                CastResult::Miss(
                    Miss {
                        position: path_point(&ray, t, Ghost(max_distance as int)),
                        bounces: ray.reflect_count,
                        cum_length: ray.cum_length + t,
                        weight: ray.weight,
                    },
                ),
            ),
            MarchStop::TooFar { t, shape } => Some(
                CastResult::Hit(
                    Hit {
                        position: path_point(&ray, t, Ghost(max_distance as int)),
                        distance: t,
                        normal: Vec3::zero(),
                        shape: &self.content[shape],
                        bounces: ray.reflect_count,
                        cum_length: ray.cum_length + t,
                        weight: ray.weight,
                    },
                ),
            ),
            MarchStop::Surface { t, shape } => {
                let surface = &self.content[shape];
                if surface.material().reflective {
                    if ray.reflect_count > MAX_BOUNCES {
                        return None;
                    }
                    let next = bounced(surface, &ray, t, Ghost(max_distance as int));
                    self.trace(next, max_distance)
                } else {
                    Some(CastResult::Hit(dull_hit(surface, &ray, t, Ghost(max_distance as int))))
                }
            },
        }
    }

    /// Casts `ray` into the scene: marches it, follows it from mirror to
    /// mirror, and reports where the path ended, unless the scene is empty or
    /// the path met a mirror after more than `MAX_BOUNCES` bounces. A hit
    /// has the zero normal if and only if the path is longer than the cap.
    pub fn cast(&self, ray: Ray, max_distance: i64) -> (r: Option<CastResult<'_>>)
        requires
            self.valid(),
            self@.len() > 0 ==> launchable(ray@, max_distance as int),
        ensures
            agrees(self@, r, cast_spec(self@, ray@, max_distance as int)),
            self@.len() == 0 ==> r is None,
            r matches Some(CastResult::Hit(h)) ==> (h.normal@ == V3::zero() <==> h.cum_length
                > max_distance),
    {
        if self.content.len() == 0 {
            return None;
        }
        proof {
            lemma_launchable_is_traceable(ray@, max_distance as int);
            lemma_hit_is_dull_or_capped(self@, ray@, max_distance as int);
        }
        self.trace(ray, max_distance)
    }
}

} // verus!
