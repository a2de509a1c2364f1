//! Rays and the camera that produces them.

use vstd::prelude::*;
use crate::scalar::{
    fixed_product, lemma_fixed_product_bound, lemma_product_bound, lemma_sqrt_floor_square,
    lemma_trunc_div_bound, mul_fixed, CAMERA_LIMIT, HALF, ONE, ORIGIN_LIMIT, SAMPLE_LIMIT,
};
use crate::vector::{lemma_scaled_within, Vec3, V3};

verus! {

/// The mathematical model of a ray.
pub ghost struct RayView {
    pub origin: V3,
    pub direction: V3,
    pub bounces: nat,
    pub cum_length: int,
    pub weight: int,
}

/// A ray with the bookkeeping of the path that led to it: how often it was
/// reflected, how far the path has come, and the weight it gathered.
#[derive(Clone, Copy, Debug, PartialEq, Eq)]
pub struct Ray {
    pub origin: Vec3,
    pub direction: Vec3,
    pub reflect_count: u32,
    pub cum_length: i64,
    pub weight: i64,
}

impl View for Ray {
    type V = RayView;

    open spec fn view(&self) -> RayView {
        RayView {
            origin: self.origin@,
            direction: self.direction@,
            bounces: self.reflect_count as nat,
            cum_length: self.cum_length as int,
            weight: self.weight as int,
        }
    }
}

impl RayView {
    /// The point that lies `t` along the ray.
    pub open spec fn point_at(self, t: int) -> V3 {
        self.origin.plus(self.direction.scaled(t))
    }
}

impl Ray {
    /// The point that lies `t` along the ray.
    pub fn point_at(&self, t: i64) -> (p: Vec3)
        requires
            self@.direction.scaled(t as int).fits(),
            self@.point_at(t as int).fits(),
        ensures
            p@ == self@.point_at(t as int),
    {
        self.origin.plus(self.direction.scaled(t))
    }
}

/// Why a camera could not be built.
#[derive(Clone, Copy, Debug, PartialEq, Eq)]
pub enum CameraError {
    /// The viewing direction and the up hint span no plane.
    DegenerateBasis,
}

/// A pinhole camera: a position, an orthonormal frame and the size of the
/// image plane.
#[derive(Clone, Copy, Debug, PartialEq, Eq)]
pub struct Camera {
    pub position: Vec3,
    pub direction: Vec3,
    pub up: Vec3,
    pub right: Vec3,
    /// The tangent of half the vertical field of view.
    pub tan_half_fov: i64,
    pub aspect_ratio: i64,
    pub near_plane: i64,
}

/// The unit vector to the right of a view along `direction` with `up` above.
pub open spec fn basis_right(direction: V3, up: V3) -> V3 {
    direction.cross(up).normalized()
}

/// The unit vector that is truly orthogonal to the view and to its right.
pub open spec fn basis_up(direction: V3, up: V3) -> V3 {
    basis_right(direction, up).cross(direction).normalized()
}

/// The cross product of two bounded vectors is bounded.
pub proof fn lemma_cross_within(a: V3, b: V3, ma: int, mb: int, m: int)
    requires
        a.within(ma),
        b.within(mb),
        m >= 0,
        2 * (ma * mb) <= m * ONE,
    ensures
        a.cross(b).within(m),
{
    lemma_product_bound(a.y, b.z, ma, mb);
    lemma_product_bound(a.z, b.y, ma, mb);
    lemma_product_bound(a.z, b.x, ma, mb);
    lemma_product_bound(a.x, b.z, ma, mb);
    lemma_product_bound(a.x, b.y, ma, mb);
    lemma_product_bound(a.y, b.x, ma, mb);
    lemma_trunc_div_bound(a.y * b.z - a.z * b.y, ONE as int, m);
    lemma_trunc_div_bound(a.z * b.x - a.x * b.z, ONE as int, m);
    lemma_trunc_div_bound(a.x * b.y - a.y * b.x, ONE as int, m);
}

/// A viewing direction and an up hint whose cross product vanishes, as that
/// of parallel vectors does, give no frame.
pub proof fn lemma_parallel_has_no_frame(direction: V3, up: V3)
    requires
        direction.cross(up) == V3::zero(),
    ensures
        basis_right(direction, up) == V3::zero(),
{
    lemma_sqrt_floor_square(0);
}

impl Camera {
    /// The numbers are within the limits of the arithmetic.
    pub open spec fn valid(&self) -> bool {
        &&& self.position@.within(ORIGIN_LIMIT as int)
        &&& self.direction@.within(CAMERA_LIMIT as int)
        &&& self.up@.within(ONE as int)
        &&& self.right@.within(ONE as int)
        &&& -CAMERA_LIMIT <= self.tan_half_fov <= CAMERA_LIMIT
        &&& -CAMERA_LIMIT <= self.aspect_ratio <= CAMERA_LIMIT
        &&& -CAMERA_LIMIT <= self.near_plane <= CAMERA_LIMIT
    }

    /// How far the image plane reaches above its middle.
    pub open spec fn vertical_extent(&self) -> int {
        fixed_product(self.tan_half_fov as int, self.near_plane as int)
    }

    /// Where the image coordinate `x` lies to the right of the middle.
    pub open spec fn plane_x(&self, x: int) -> int {
        fixed_product(fixed_product(self.vertical_extent(), x - HALF), self.aspect_ratio as int)
    }

    /// Where the image coordinate `y`, which grows downward, lies above the
    /// middle.
    pub open spec fn plane_y(&self, y: int) -> int {
        fixed_product(self.vertical_extent(), HALF - y)
    }

    /// The point of the image plane at the image coordinates `(x, y)`.
    pub open spec fn pixel_position(&self, x: int, y: int) -> V3 {
        self.position@.plus(self.direction@.scaled(self.near_plane as int)).plus(
            self.right@.scaled(self.plane_x(x)),
        ).plus(self.up@.scaled(self.plane_y(y)))
    }

    /// The fresh ray from the camera through the image coordinates `(x, y)`.
    pub open spec fn ray_through(&self, x: int, y: int) -> RayView {
        RayView {
            origin: self.position@,
            direction: self.pixel_position(x, y).minus(self.position@).normalized(),
            bounces: 0,
            cum_length: 0,
            weight: 0,
        }
    }

    /// A camera at `position` that looks along `direction`, with `up`
    /// corrected to be orthogonal to the view. Its `right` and `up` are one
    /// long, to within two millionths. There is no camera where `direction`
    /// and the up hint span no plane, so that one of the two would be zero.
    pub fn new(
        position: Vec3,
        direction: Vec3,
        up: Vec3,
        tan_half_fov: i64,
        aspect_ratio: i64,
        near_plane: i64,
    ) -> (r: Result<Camera, CameraError>)
        requires
            position@.within(ORIGIN_LIMIT as int),
            direction@.within(CAMERA_LIMIT as int),
            up@.within(CAMERA_LIMIT as int),
            -CAMERA_LIMIT <= tan_half_fov <= CAMERA_LIMIT,
            -CAMERA_LIMIT <= aspect_ratio <= CAMERA_LIMIT,
            -CAMERA_LIMIT <= near_plane <= CAMERA_LIMIT,
        ensures
            r is Err <==> basis_right(direction@, up@) == V3::zero() || basis_up(direction@, up@)
                == V3::zero(),
            r matches Err(e) ==> e == CameraError::DegenerateBasis,
            r matches Ok(c) ==> c.valid() && c == (Camera {
                position,
                direction,
                up: c.up,
                right: c.right,
                tan_half_fov,
                aspect_ratio,
                near_plane,
            }) && c.right@ == basis_right(direction@, up@) && c.up@ == basis_up(direction@, up@)
                && ONE - 2 <= c.right@.length() <= ONE && ONE - 2 <= c.up@.length() <= ONE,
    {
        proof {
            lemma_cross_within(
                direction@,
                up@,
                CAMERA_LIMIT as int,
                CAMERA_LIMIT as int,
                2_000_000_000_000,
            );
        }
        let right = direction.cross(up).normalize();
        proof {
            lemma_cross_within(right@, direction@, ONE as int, CAMERA_LIMIT as int, 2_000_000_000);
        }
        let true_up = right.cross(direction).normalize();
        if (right.x == 0 && right.y == 0 && right.z == 0) || (true_up.x == 0 && true_up.y == 0
            && true_up.z == 0) {
            return Err(CameraError::DegenerateBasis);
        }
        Ok(Camera { position, direction, up: true_up, right, tan_half_fov, aspect_ratio, near_plane })
    }

    /// The ray from the camera through the image coordinates `(x, y)`, each
    /// running from zero to one across the image, `y` downward. Its
    /// direction is one long, to within two millionths, unless the point of
    /// the image plane is the camera's own position.
    pub fn get_ray(&self, x: i64, y: i64) -> (ray: Ray)
        requires
            self.valid(),
            -SAMPLE_LIMIT <= x <= SAMPLE_LIMIT,
            -SAMPLE_LIMIT <= y <= SAMPLE_LIMIT,
        ensures
            ray@ == self.ray_through(x as int, y as int),
            ray.origin == self.position,
            ray.direction@.within(ONE as int),
            ray.direction@ == V3::zero() <==> self.pixel_position(x as int, y as int)
                == self.position@,
            ray.direction@ != V3::zero() ==> ONE - 2 <= ray.direction@.length() <= ONE,
    {
        let ghost extent = self.vertical_extent();
        let ghost across = fixed_product(extent, x - HALF);
        proof {
            lemma_fixed_product_bound(
                self.tan_half_fov as int,
                self.near_plane as int,
                CAMERA_LIMIT as int,
                CAMERA_LIMIT as int,
                1_000_000_000_000,
            );
            lemma_fixed_product_bound(
                extent,
                x - HALF,
                1_000_000_000_000,
                4_500_000,
                4_500_000_000_000,
            );
            lemma_fixed_product_bound(
                across,
                self.aspect_ratio as int,
                4_500_000_000_000,
                CAMERA_LIMIT as int,
                4_500_000_000_000_000,
            );
            lemma_fixed_product_bound(
                extent,
                HALF - y,
                1_000_000_000_000,
                4_500_000,
                4_500_000_000_000,
            );
            lemma_scaled_within(
                self.direction@,
                self.near_plane as int,
                CAMERA_LIMIT as int,
                CAMERA_LIMIT as int,
                1_000_000_000_000,
            );
            lemma_scaled_within(
                self.right@,
                self.plane_x(x as int),
                ONE as int,
                4_500_000_000_000_000,
                4_500_000_000_000_000,
            );
            lemma_scaled_within(
                self.up@,
                self.plane_y(y as int),
                ONE as int,
                4_500_000_000_000,
                4_500_000_000_000,
            );
        }
        let extent_here: i64 = mul_fixed(self.tan_half_fov, self.near_plane);
        let plane_x: i64 = mul_fixed(mul_fixed(extent_here, x - HALF), self.aspect_ratio);
        let plane_y: i64 = mul_fixed(extent_here, HALF - y);
        let pixel = self.position.plus(self.direction.scaled(self.near_plane)).plus(
            self.right.scaled(plane_x),
        ).plus(self.up.scaled(plane_y));
        let direction = pixel.minus(self.position).normalize();
        Ray { origin: self.position, direction, reflect_count: 0, cum_length: 0, weight: 0 }
    }
}

} // verus!
