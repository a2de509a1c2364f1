use raymarch::camera::Ray;
use raymarch::rays::{CastResult, Hit, MarchStop, Miss, World};
use raymarch::scalar::{EPSILON, LENGTH_LIMIT, MAX_BOUNCES, ONE, ORIGIN_LIMIT};
use raymarch::shapes::{Hittable, Material, Shape, Sphere, Transform, Wall};
use raymarch::vector::Vec3;

fn material(reflective: bool) -> Material {
    Material { color: Vec3::new(ONE, ONE, 0), reflective }
}

fn ball(center: Vec3, radius: i64, reflective: bool) -> Shape {
    Shape::Sphere(Sphere { position: center, radius, material: material(reflective) })
}

fn slab(center: Vec3, size: Vec3, reflective: bool) -> Shape {
    Shape::Wall(
        Wall { position: center, rotation: Transform::identity(), size, material: material(reflective) },
    )
}

fn ray(origin: Vec3, direction: Vec3) -> Ray {
    Ray { origin, direction, reflect_count: 0, cum_length: 0, weight: 0 }
}

fn world(shapes: Vec<Shape>) -> World {
    World::from_shapes(shapes).unwrap()
}

/// A floor whose top is the plane y = -1, far wider than any test travels.
fn floor(reflective: bool) -> Shape {
    slab(
        Vec3::new(0, -1_100_000, 0),
        Vec3::new(10_000 * ONE, 100_000, 10_000 * ONE),
        reflective,
    )
}

/// A mirror whose face is the plane z = 5, and a dull ball behind the origin
/// whose nearest point is z = -4.
fn mirror_and_ball() -> World {
    world(vec![
        slab(Vec3::new(0, 0, 5_100_000), Vec3::new(100 * ONE, 100 * ONE, 100_000), true),
        ball(Vec3::new(0, 0, -5 * ONE), ONE, false),
    ])
}

#[test]
fn cast_on_empty_scene_returns_nothing() {
    let empty = world(Vec::new());
    let forward = ray(Vec3::zero(), Vec3::new(0, 0, ONE));
    assert_eq!(empty.cast(forward, 100 * ONE), None);
    assert_eq!(empty.cast(forward, 0), None);
    assert_eq!(empty.cast(forward, i64::MIN), None);
    assert_eq!(empty.cast(forward, i64::MAX), None);
    let wild = Ray {
        origin: Vec3::new(i64::MAX, i64::MIN, 7),
        direction: Vec3::new(i64::MIN, 0, i64::MAX),
        reflect_count: u32::MAX,
        cum_length: i64::MIN,
        weight: i64::MAX,
    };
    assert_eq!(empty.cast(wild, i64::MAX), None);
}

#[test]
fn cast_hits_a_sphere_head_on() {
    let scene = world(vec![ball(Vec3::new(0, 0, 5 * ONE), ONE, false)]);
    let forward = ray(Vec3::zero(), Vec3::new(0, 0, ONE));
    match scene.cast(forward, 100 * ONE) {
        Some(CastResult::Hit(hit)) => {
            assert!((hit.distance - 4 * ONE).abs() <= EPSILON);
            assert_eq!(hit.distance, 4 * ONE);
            assert_eq!(hit.position, Vec3::new(0, 0, 4 * ONE));
            assert_eq!(hit.cum_length, 4 * ONE);
            assert_eq!(hit.bounces, 0);
            assert_eq!(hit.weight, 0);
            assert_eq!(hit.normal, Vec3::new(0, 0, -ONE));
            assert_eq!(*hit.shape, scene.shapes()[0]);
        },
        other => panic!("expected a hit, got {:?}", other),
    }
}

#[test]
fn cast_hits_a_sphere_head_on_along_every_axis() {
    let axes = [
        Vec3::new(ONE, 0, 0),
        Vec3::new(-ONE, 0, 0),
        Vec3::new(0, ONE, 0),
        Vec3::new(0, -ONE, 0),
        Vec3::new(0, 0, ONE),
        Vec3::new(0, 0, -ONE),
    ];
    let origin = Vec3::new(ONE, -2 * ONE, 3 * ONE);
    for axis in axes {
        let center = origin.plus(axis.scaled(7_250_000));
        let scene = world(vec![ball(center, 2 * ONE, false)]);
        let mut start = ray(origin, axis);
        start.cum_length = ONE;
        start.weight = 4 * ONE;
        start.reflect_count = 4;
        assert_eq!(
            scene.cast(start, 100 * ONE),
            Some(
                CastResult::Hit(
                    Hit {
                        position: origin.plus(axis.scaled(5_250_000)),
                        distance: 5_250_000,
                        normal: axis.negated(),
                        shape: &scene.shapes()[0],
                        bounces: 4,
                        cum_length: 6_250_000,
                        weight: 4 * ONE,
                    }
                )
            )
        );
    }
}

#[test]
fn cast_hits_a_sphere_from_afar_and_askew() {
    let center = Vec3::new(3 * ONE, 4 * ONE, 12 * ONE);
    let scene = world(vec![ball(center, 2 * ONE, false)]);
    let toward = center.normalize();
    match scene.cast(ray(Vec3::zero(), toward), 100 * ONE) {
        Some(CastResult::Hit(hit)) => {
            // The center is 13 away and the radius is 2.
            assert!((hit.distance - 11 * ONE).abs() <= EPSILON);
            let outward = toward.negated();
            assert!((hit.normal.x - outward.x).abs() <= 5_000);
            assert!((hit.normal.y - outward.y).abs() <= 5_000);
            assert!((hit.normal.z - outward.z).abs() <= 5_000);
            assert_eq!(hit.bounces, 0);
        },
        other => panic!("expected a hit, got {:?}", other),
    }
}

#[test]
fn cast_misses_when_the_steps_run_out() {
    let scene = world(vec![floor(false)]);
    let along = ray(Vec3::zero(), Vec3::new(ONE, 0, 0));
    assert_eq!(
        scene.cast(along, 1_000 * ONE),
        Some(
            CastResult::Miss(
                Miss { position: Vec3::new(500 * ONE, 0, 0), bounces: 0, cum_length: 500 * ONE, weight: 0 }
            )
        )
    );
}

#[test]
fn cast_stops_at_the_distance_cap_with_the_zero_normal() {
    let scene = world(vec![floor(false)]);
    let along = ray(Vec3::zero(), Vec3::new(ONE, 0, 0));
    assert_eq!(
        scene.cast(along, 10_500_000),
        Some(
            CastResult::Hit(
                Hit {
                    position: Vec3::new(11 * ONE, 0, 0),
                    distance: 11 * ONE,
                    normal: Vec3::zero(),
                    shape: &scene.shapes()[0],
                    bounces: 0,
                    cum_length: 11 * ONE,
                    weight: 0,
                }
            )
        )
    );
}

#[test]
fn cast_counts_the_path_that_led_to_the_ray() {
    let scene = world(vec![floor(false)]);
    let mut along = ray(Vec3::zero(), Vec3::new(ONE, 0, 0));
    along.cum_length = 8 * ONE;
    along.weight = 3 * ONE;
    along.reflect_count = 3;
    match scene.cast(along, 10_500_000) {
        Some(CastResult::Hit(hit)) => {
            assert_eq!(hit.distance, 3 * ONE);
            assert_eq!(hit.cum_length, 11 * ONE);
            assert_eq!(hit.normal, Vec3::zero());
            assert_eq!(hit.bounces, 3);
            assert_eq!(hit.weight, 3 * ONE);
        },
        other => panic!("expected a hit, got {:?}", other),
    }
}

#[test]
fn cast_follows_a_mirror_to_a_dull_surface() {
    let scene = mirror_and_ball();
    let forward = ray(Vec3::zero(), Vec3::new(0, 0, ONE));
    match scene.cast(forward, 100 * ONE) {
        Some(CastResult::Hit(hit)) => {
            assert_eq!(hit.bounces, 1);
            assert_eq!(hit.weight, ONE);
            assert_eq!(hit.position, Vec3::new(0, 0, -4 * ONE));
            assert_eq!(hit.distance, 9 * ONE - 2 * EPSILON);
            assert_eq!(hit.cum_length, 14 * ONE - 2 * EPSILON);
            assert_eq!(hit.normal, Vec3::new(0, 0, ONE));
            assert_eq!(*hit.shape, scene.shapes()[1]);
            assert!(std::ptr::eq(hit.shape, &scene.shapes()[1]));
        },
        other => panic!("expected a hit, got {:?}", other),
    }
}

#[test]
fn cast_between_facing_mirrors_gives_up() {
    let scene = world(vec![
        slab(Vec3::new(10_100_000, 0, 0), Vec3::new(100_000, 100 * ONE, 100 * ONE), true),
        slab(Vec3::new(-10_100_000, 0, 0), Vec3::new(100_000, 100 * ONE, 100 * ONE), true),
    ]);
    let across = ray(Vec3::zero(), Vec3::new(ONE, 0, 0));
    assert_eq!(scene.cast(across, LENGTH_LIMIT), None);
}

#[test]
fn cast_between_facing_mirrors_stops_at_the_cap() {
    let scene = world(vec![
        slab(Vec3::new(10_100_000, 0, 0), Vec3::new(100_000, 100 * ONE, 100 * ONE), true),
        slab(Vec3::new(-10_100_000, 0, 0), Vec3::new(100_000, 100 * ONE, 100 * ONE), true),
    ]);
    let across = ray(Vec3::zero(), Vec3::new(ONE, 0, 0));
    match scene.cast(across, 500 * ONE) {
        Some(CastResult::Hit(hit)) => {
            assert_eq!(hit.normal, Vec3::zero());
            assert!(hit.cum_length > 500 * ONE);
            // 10 to the first mirror, then just under 20 from mirror to mirror.
            assert_eq!(hit.bounces, 25);
            assert_eq!(hit.weight, 25 * ONE);
        },
        other => panic!("expected a hit, got {:?}", other),
    }
}

#[test]
fn bounce_budget_ends_the_cast_at_a_mirror() {
    let scene = mirror_and_ball();
    let mut forward = ray(Vec3::zero(), Vec3::new(0, 0, ONE));
    forward.reflect_count = MAX_BOUNCES + 1;
    assert_eq!(scene.cast(forward, 100 * ONE), None);
    forward.reflect_count = u32::MAX;
    assert_eq!(scene.cast(forward, 100 * ONE), None);
    forward.reflect_count = MAX_BOUNCES;
    match scene.cast(forward, 100 * ONE) {
        Some(CastResult::Hit(hit)) => {
            assert_eq!(hit.bounces, MAX_BOUNCES + 1);
            assert_eq!(hit.weight, ONE);
        },
        other => panic!("expected a hit, got {:?}", other),
    }
}

#[test]
fn bounce_budget_does_not_touch_dull_surfaces() {
    let scene = world(vec![ball(Vec3::new(0, 0, 5 * ONE), ONE, false)]);
    let mut forward = ray(Vec3::zero(), Vec3::new(0, 0, ONE));
    forward.reflect_count = MAX_BOUNCES + 7;
    match scene.cast(forward, 100 * ONE) {
        Some(CastResult::Hit(hit)) => {
            assert_eq!(hit.bounces, MAX_BOUNCES + 7);
            assert_eq!(hit.distance, 4 * ONE);
        },
        other => panic!("expected a hit, got {:?}", other),
    }
}

#[test]
fn closest_shape_prefers_the_first_of_equals() {
    let first = Shape::Sphere(
        Sphere {
            position: Vec3::new(0, 0, 5 * ONE),
            radius: ONE,
            material: Material { color: Vec3::new(1, 1, 1), reflective: false },
        },
    );
    let second = Shape::Sphere(
        Sphere {
            position: Vec3::new(0, 0, 5 * ONE),
            radius: ONE,
            material: Material { color: Vec3::new(2, 2, 2), reflective: false },
        },
    );
    let nearer = ball(Vec3::new(0, 0, 3 * ONE), ONE, false);
    let scene = world(vec![first, second]);
    assert_eq!(scene.closest_shape(Vec3::zero()), (0, 4 * ONE));
    match scene.cast(ray(Vec3::zero(), Vec3::new(0, 0, ONE)), 100 * ONE) {
        Some(CastResult::Hit(hit)) => {
            assert!(std::ptr::eq(hit.shape, &scene.shapes()[0]));
            assert_eq!(hit.shape.material().color, Vec3::new(1, 1, 1));
        },
        other => panic!("expected a hit, got {:?}", other),
    }
    let scene = world(vec![second, first, nearer, nearer]);
    assert_eq!(scene.closest_shape(Vec3::zero()), (2, 2 * ONE));
    assert_eq!(scene.closest_shape(Vec3::new(0, 0, 5 * ONE)), (0, -ONE));
}

#[test]
fn march_reports_how_it_ended() {
    let scene = world(vec![floor(false), ball(Vec3::new(20 * ONE, 0, 0), ONE, false)]);
    let along = ray(Vec3::zero(), Vec3::new(ONE, 0, 0));
    assert_eq!(scene.march(&along, 100 * ONE), MarchStop::Surface { t: 19 * ONE, shape: 1 });
    assert_eq!(scene.march(&along, 5 * ONE), MarchStop::TooFar { t: 6 * ONE, shape: 0 });
    let away = ray(Vec3::zero(), Vec3::new(0, 0, ONE));
    assert_eq!(scene.march(&away, 1_000 * ONE), MarchStop::Exhausted { t: 500 * ONE });
}

#[test]
fn cast_from_inside_a_shape_hits_at_once() {
    let scene = world(vec![ball(Vec3::zero(), 3 * ONE, false)]);
    let forward = ray(Vec3::zero(), Vec3::new(0, 0, ONE));
    match scene.cast(forward, 100 * ONE) {
        Some(CastResult::Hit(hit)) => {
            assert_eq!(hit.distance, -3 * ONE);
            assert_eq!(hit.position, Vec3::new(0, 0, -3 * ONE));
            assert_eq!(hit.cum_length, -3 * ONE);
            assert_eq!(hit.normal, Vec3::new(0, 0, -ONE));
        },
        other => panic!("expected a hit, got {:?}", other),
    }
}

#[test]
fn hit_at_the_center_of_a_sphere_has_a_normal() {
    // The estimate of the normal vanishes at the center; the hit gets the
    // reverse of the ray's direction, and the zero normal stays the mark of
    // the distance cap.
    let scene = world(vec![ball(Vec3::zero(), 2 * ONE, false)]);
    let start = ray(Vec3::new(ONE, 0, 0), Vec3::new(ONE, 0, 0));
    match scene.cast(start, 500 * ONE) {
        Some(CastResult::Hit(hit)) => {
            assert_eq!(hit.position, Vec3::zero());
            assert_eq!(hit.cum_length, -ONE);
            assert_eq!(hit.normal, Vec3::new(-ONE, 0, 0));
        },
        other => panic!("expected a hit, got {:?}", other),
    }
    let still = ray(Vec3::new(ONE, 0, 0), Vec3::zero());
    match scene.cast(still, 500 * ONE) {
        Some(CastResult::Hit(hit)) => {
            assert_eq!(hit.position, Vec3::new(ONE, 0, 0));
            assert_eq!(hit.normal, Vec3::new(ONE, 0, 0));
        },
        other => panic!("expected a hit, got {:?}", other),
    }
    let scene = world(vec![slab(Vec3::zero(), Vec3::new(ONE, ONE, ONE), false)]);
    match scene.cast(ray(Vec3::zero(), Vec3::zero()), 500 * ONE) {
        Some(CastResult::Hit(hit)) => {
            assert_eq!(hit.normal, Vec3::new(0, ONE, 0));
        },
        other => panic!("expected a hit, got {:?}", other),
    }
}

#[test]
fn hit_normals_are_unit_length() {
    let scene = world(vec![ball(Vec3::zero(), ONE, false)]);
    let targets = [
        Vec3::new(577_350, 577_350, 577_350),
        Vec3::new(-300_000, 900_000, 100_000),
        Vec3::new(10_000, -20_000, 999_000),
    ];
    for target in targets {
        let origin = target.scaled(5 * ONE);
        let toward = origin.negated().normalize();
        match scene.cast(ray(origin, toward), 100 * ONE) {
            Some(CastResult::Hit(hit)) => {
                let n = hit.normal;
                let squared = n.x * n.x + n.y * n.y + n.z * n.z;
                assert!(999_998 * 999_998 <= squared && squared < 1_000_001 * 1_000_001);
                assert!(hit.cum_length <= 100 * ONE);
            },
            other => panic!("expected a hit, got {:?}", other),
        }
    }
}

#[test]
fn cast_misses_along_a_wide_floor_under_the_largest_cap() {
    let scene = world(vec![
        slab(Vec3::new(0, -10 * ONE, 0), Vec3::new(100_000 * ONE, 100_000, 100_000 * ONE), false),
    ]);
    let along = ray(Vec3::zero(), Vec3::new(ONE, 0, 0));
    assert_eq!(
        scene.cast(along, LENGTH_LIMIT),
        Some(
            CastResult::Miss(
                Miss {
                    position: Vec3::new(4_950 * ONE, 0, 0),
                    bounces: 0,
                    cum_length: 4_950 * ONE,
                    weight: 0,
                }
            )
        )
    );
}

#[test]
fn built_in_scene_is_a_room_of_mirrors() {
    let scene = World::new();
    assert_eq!(scene.shapes().len(), 15);
    let mut walls = 0;
    let mut balls = 0;
    for shape in scene.shapes() {
        assert!(shape.is_valid());
        assert!(shape.material().reflective);
        match shape {
            Shape::Wall(w) => {
                walls += 1;
                assert_eq!(w.material.color, Vec3::new(960_784, 952_941, 756_862));
                assert_eq!(w.rotation, Transform::identity());
            },
            Shape::Sphere(s) => {
                balls += 1;
                assert_eq!(s.material.color, Vec3::new(152_941, 882_352, 756_862));
            },
        }
    }
    assert_eq!(walls, 6);
    assert_eq!(balls, 9);
    assert_eq!(scene.shapes()[0].distance(Vec3::zero()), 9_900_000);
    assert_eq!(scene.shapes()[6].distance(Vec3::zero()), -ONE);
    assert_eq!(
        scene.shapes()[7],
        Shape::Sphere(
            Sphere {
                position: Vec3::new(-10 * ONE, -10 * ONE, -10 * ONE),
                radius: 5 * ONE,
                material: Material { color: Vec3::new(152_941, 882_352, 756_862), reflective: true },
            }
        )
    );
}

#[test]
fn built_in_scene_never_ends_at_a_surface() {
    let scene = World::new();
    let directions = [
        Vec3::new(0, 0, ONE),
        Vec3::new(ONE, 2 * ONE, 3 * ONE).normalize(),
        Vec3::new(-3 * ONE, ONE, -2 * ONE).normalize(),
        Vec3::new(ONE, -ONE, 0).normalize(),
    ];
    for direction in directions {
        let start = ray(Vec3::new(0, 0, -2 * ONE), direction);
        match scene.cast(start, 500 * ONE) {
            Some(CastResult::Hit(hit)) => {
                assert_eq!(hit.normal, Vec3::zero());
                assert!(hit.cum_length > 500 * ONE);
                assert!(hit.bounces <= MAX_BOUNCES + 1);
                assert_eq!(hit.weight, hit.bounces as i64 * ONE);
            },
            Some(CastResult::Miss(miss)) => {
                assert!(miss.bounces <= MAX_BOUNCES + 1);
            },
            None => {},
        }
    }
}

#[test]
fn from_shapes_refuses_shapes_beyond_the_limits() {
    assert!(World::from_shapes(vec![ball(Vec3::zero(), ONE, false)]).is_some());
    assert!(World::from_shapes(vec![ball(Vec3::zero(), 0, false)]).is_none());
    assert!(
        World::from_shapes(vec![
            ball(Vec3::zero(), ONE, false),
            slab(Vec3::zero(), Vec3::new(ONE, -ONE, ONE), false)
        ]).is_none()
    );
}

#[test]
fn can_launch_checks_the_limits() {
    let good = ray(Vec3::new(ORIGIN_LIMIT, 0, -ORIGIN_LIMIT), Vec3::new(ONE, -ONE, 0));
    assert!(World::can_launch(&good, LENGTH_LIMIT));
    assert!(World::can_launch(&good, -LENGTH_LIMIT));
    assert!(!World::can_launch(&good, LENGTH_LIMIT + 1));
    let mut far = good;
    far.origin.y = ORIGIN_LIMIT + 1;
    assert!(!World::can_launch(&far, 0));
    let mut long = good;
    long.direction.z = ONE + 1;
    assert!(!World::can_launch(&long, 0));
    let mut behind = good;
    behind.cum_length = -1;
    assert!(!World::can_launch(&behind, 0));
    let mut heavy = good;
    heavy.weight = LENGTH_LIMIT + 1;
    assert!(!World::can_launch(&heavy, 0));
    let mut bounced = good;
    bounced.reflect_count = u32::MAX;
    assert!(World::can_launch(&bounced, 0));
}
