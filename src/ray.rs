use vstd::prelude::*;

verus! {

/// A point or a direction on the fixed-point lattice of the scene.
#[derive(Clone, Copy, Debug, PartialEq, Eq, Structural)]
pub struct Vec3 {
    pub x: i32,
    pub y: i32,
    pub z: i32,
}

impl Vec3 {
    pub fn new(x: i32, y: i32, z: i32) -> (r: Vec3)
        ensures
            r.x == x,
            r.y == y,
            r.z == z,
    {
        Vec3 { x, y, z }
    }

    /// Component `n` (0 is x, 1 is y, 2 is z).
    pub open spec fn component(self, n: int) -> int {
        if n == 0 {
            self.x as int
        } else if n == 1 {
            self.y as int
        } else {
            self.z as int
        }
    }
}

/// A ray `origin + t * direction`; `time` selects the instant of a moving scene.
#[derive(Clone, Copy, Debug, PartialEq, Eq, Structural)]
pub struct Ray {
    pub origin: Vec3,
    pub direction: Vec3,
    pub time: i64,
}

/// Component `n` of the point that the ray reaches at parameter `t`.
pub open spec fn point_at(ray: Ray, t: int, n: int) -> int {
    ray.origin.component(n) + t * ray.direction.component(n)
}

impl Ray {
    pub fn new(origin: Vec3, direction: Vec3, time: i64) -> (r: Ray)
        ensures
            r.origin == origin,
            r.direction == direction,
            r.time == time,
    {
        Ray { origin, direction, time }
    }

    /// The point that the ray reaches at parameter `t`, one coordinate per axis.
    pub fn at(&self, t: i32) -> (r: (i64, i64, i64))
        ensures
            r.0 == point_at(*self, t as int, 0),
            r.1 == point_at(*self, t as int, 1),
            r.2 == point_at(*self, t as int, 2),
    {
        proof {
            assert(-0x4000_0000_0000_0000 <= t as int * self.direction.x as int <= 0x4000_0000_0000_0000)
                by (nonlinear_arith)
                requires
                    i32::MIN <= t <= i32::MAX,
                    i32::MIN <= self.direction.x <= i32::MAX;
            assert(-0x4000_0000_0000_0000 <= t as int * self.direction.y as int <= 0x4000_0000_0000_0000)
                by (nonlinear_arith)
                requires
                    i32::MIN <= t <= i32::MAX,
                    i32::MIN <= self.direction.y <= i32::MAX;
            assert(-0x4000_0000_0000_0000 <= t as int * self.direction.z as int <= 0x4000_0000_0000_0000)
                by (nonlinear_arith)
                requires
                    i32::MIN <= t <= i32::MAX,
                    i32::MIN <= self.direction.z <= i32::MAX;
        }
        (
            self.origin.x as i64 + t as i64 * self.direction.x as i64,
            self.origin.y as i64 + t as i64 * self.direction.y as i64,
            self.origin.z as i64 + t as i64 * self.direction.z as i64,
        )
    }
}

} // verus!
