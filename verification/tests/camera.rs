use raymarch::camera::{Camera, CameraError, Ray};
use raymarch::scalar::{HALF, ONE};
use raymarch::vector::Vec3;

fn forward_camera() -> Camera {
    Camera::new(
        Vec3::new(0, 0, -2 * ONE),
        Vec3::new(0, 0, ONE),
        Vec3::new(0, ONE, 0),
        ONE,
        ONE,
        ONE,
    ).unwrap()
}

#[test]
fn camera_builds_an_orthonormal_frame() {
    let c = forward_camera();
    assert_eq!(c.position, Vec3::new(0, 0, -2 * ONE));
    assert_eq!(c.direction, Vec3::new(0, 0, ONE));
    // right = forward x up, up = right x forward.
    assert_eq!(c.right, Vec3::new(-ONE, 0, 0));
    assert_eq!(c.up, Vec3::new(0, ONE, 0));
    assert_eq!(c.tan_half_fov, ONE);
    assert_eq!(c.aspect_ratio, ONE);
    assert_eq!(c.near_plane, ONE);
}

#[test]
fn camera_corrects_a_slanted_up_hint() {
    let c = Camera::new(
        Vec3::zero(),
        Vec3::new(0, 0, ONE),
        Vec3::new(0, ONE, ONE),
        ONE,
        ONE,
        ONE,
    ).unwrap();
    assert_eq!(c.right, Vec3::new(-ONE, 0, 0));
    assert_eq!(c.up, Vec3::new(0, ONE, 0));
}

#[test]
fn camera_refuses_parallel_direction_and_up() {
    let r = Camera::new(
        Vec3::zero(),
        Vec3::new(0, ONE, 0),
        Vec3::new(0, 2 * ONE, 0),
        ONE,
        ONE,
        ONE,
    );
    assert_eq!(r, Err(CameraError::DegenerateBasis));
    let r = Camera::new(Vec3::zero(), Vec3::zero(), Vec3::new(0, ONE, 0), ONE, ONE, ONE);
    assert_eq!(r, Err(CameraError::DegenerateBasis));
}

#[test]
fn ray_through_the_middle_looks_forward() {
    let c = forward_camera();
    let ray = c.get_ray(HALF, HALF);
    assert_eq!(
        ray,
        Ray {
            origin: Vec3::new(0, 0, -2 * ONE),
            direction: Vec3::new(0, 0, ONE),
            reflect_count: 0,
            cum_length: 0,
            weight: 0,
        }
    );
}

#[test]
fn ray_through_the_edges_of_the_image() {
    let c = forward_camera();
    // x = 1: half a unit along `right`, one unit forward: (-0.5, 0, 1) normalized.
    let ray = c.get_ray(ONE, HALF);
    assert_eq!(ray.direction, Vec3::new(-500_000, 0, ONE).normalize());
    assert_eq!(ray.direction, Vec3::new(-447_213, 0, 894_427));
    // y = 0 is the top of the image: half a unit along `up`.
    let ray = c.get_ray(HALF, 0);
    assert_eq!(ray.direction, Vec3::new(0, 447_213, 894_427));
    // y = 1 is the bottom.
    let ray = c.get_ray(HALF, ONE);
    assert_eq!(ray.direction, Vec3::new(0, -447_213, 894_427));
}

#[test]
fn aspect_ratio_widens_and_near_plane_scales() {
    let c = Camera::new(
        Vec3::new(ONE, 2 * ONE, 3 * ONE),
        Vec3::new(0, 0, ONE),
        Vec3::new(0, ONE, 0),
        2 * ONE,
        3 * ONE,
        HALF,
    ).unwrap();
    // The vertical extent is 2 * 0.5 = 1; at x = 1 the offset is 0.5 * 1 * 3
    // along `right`, at y = 0 it is 0.5 along `up`; forward is 0.5.
    let ray = c.get_ray(ONE, 0);
    assert_eq!(ray.origin, Vec3::new(ONE, 2 * ONE, 3 * ONE));
    assert_eq!(ray.direction, Vec3::new(-1_500_000, HALF, HALF).normalize());
    assert_eq!(ray.reflect_count, 0);
    assert_eq!(ray.cum_length, 0);
    assert_eq!(ray.weight, 0);
}

#[test]
fn point_at_walks_along_the_ray() {
    let ray = Ray {
        origin: Vec3::new(ONE, ONE, ONE),
        direction: Vec3::new(0, 600_000, -800_000),
        reflect_count: 0,
        cum_length: 0,
        weight: 0,
    };
    assert_eq!(ray.point_at(5 * ONE), Vec3::new(ONE, 4 * ONE, -3 * ONE));
    assert_eq!(ray.point_at(0), ray.origin);
    assert_eq!(ray.point_at(-5 * ONE), Vec3::new(ONE, -2 * ONE, 5 * ONE));
}

#[test]
fn camera_frame_is_unit_length_for_a_short_up_hint() {
    let c = Camera::new(Vec3::zero(), Vec3::new(0, 0, ONE), Vec3::new(5, 5, 0), ONE, ONE, ONE)
        .unwrap();
    assert_eq!(c.right, Vec3::new(-707_106, 707_106, 0));
    assert_eq!(c.up, Vec3::new(707_106, 707_106, 0));
}

#[test]
fn ray_is_unit_length_for_a_small_near_plane() {
    let c = Camera::new(Vec3::zero(), Vec3::new(0, 0, ONE), Vec3::new(0, ONE, 0), ONE, ONE, 10)
        .unwrap();
    let d = c.get_ray(0, 0).direction;
    let squared = d.x * d.x + d.y * d.y + d.z * d.z;
    assert!(999_998 * 999_998 <= squared && squared < 1_000_001 * 1_000_001);
    assert_eq!(d, Vec3::new(408_248, 408_248, 816_496));
}
