//! Three-dimensional coordinate vector with exact integer components.
//!
//! Coordinates are fixed-point values on an integer grid, so equality,
//! ordering and hashing are exact and the sign of a dot product is
//! deterministic — no floating-point equality pitfalls enter the model.

use vstd::prelude::*;

verus! {

/// Largest coordinate magnitude accepted for a cell center or a direction
/// vector. Differences of two such coordinates then fit in `i64`, and dot
/// products of two such differences fit in `i128`.
pub const COORD_LIMIT: i64 = 0x1000_0000_0000_0000;

#[derive(Clone, Copy, PartialEq, Eq, Structural, Hash, Debug)]
pub struct Vector3D {
    pub x: i64,
    pub y: i64,
    pub z: i64,
}

impl Vector3D {
    /// All components within `COORD_LIMIT`, as required of cell centers and
    /// direction vectors handed to the library.
    pub open spec fn in_range(self) -> bool {
        &&& -COORD_LIMIT <= self.x <= COORD_LIMIT
        &&& -COORD_LIMIT <= self.y <= COORD_LIMIT
        &&& -COORD_LIMIT <= self.z <= COORD_LIMIT
    }

    /// Twice `COORD_LIMIT`: the range of a difference of two in-range
    /// vectors, and the largest operand magnitude `dot` accepts.
    pub open spec fn in_wide_range(self) -> bool {
        &&& -2 * COORD_LIMIT <= self.x <= 2 * COORD_LIMIT
        &&& -2 * COORD_LIMIT <= self.y <= 2 * COORD_LIMIT
        &&& -2 * COORD_LIMIT <= self.z <= 2 * COORD_LIMIT
    }

    /// Mathematical dot product of two vectors, over unbounded integers.
    pub open spec fn spec_dot(self, other: Vector3D) -> int {
        self.x * other.x + self.y * other.y + self.z * other.z
    }

    pub fn new(x: i64, y: i64, z: i64) -> (v: Vector3D)
        ensures
            v.x == x,
            v.y == y,
            v.z == z,
    {
        Vector3D { x, y, z }
    }

    /// Componentwise difference `self - other`.
    pub fn sub(&self, other: &Vector3D) -> (v: Vector3D)
        requires
            self.in_range(),
            other.in_range(),
        ensures
            v.x == self.x - other.x,
            v.y == self.y - other.y,
            v.z == self.z - other.z,
            v.in_wide_range(),
    {
        Vector3D { x: self.x - other.x, y: self.y - other.y, z: self.z - other.z }
    }

    /// Exact dot product; the result is returned in `i128`, where products of
    /// wide-range components cannot overflow.
    pub fn dot(&self, other: &Vector3D) -> (r: i128)
        requires
            self.in_wide_range(),
            other.in_wide_range(),
        ensures
            r == self.spec_dot(*other),
    {
        proof {
            lemma_wide_product_bound(self.x as int, other.x as int);
            lemma_wide_product_bound(self.y as int, other.y as int);
            lemma_wide_product_bound(self.z as int, other.z as int);
        }
        (self.x as i128) * (other.x as i128) + (self.y as i128) * (other.y as i128)
            + (self.z as i128) * (other.z as i128)
    }

    /// Componentwise negation, used to reverse a sweep direction.
    pub fn neg(&self) -> (v: Vector3D)
        requires
            self.in_range(),
        ensures
            v.x == -self.x,
            v.y == -self.y,
            v.z == -self.z,
            v.in_range(),
    {
        Vector3D { x: -self.x, y: -self.y, z: -self.z }
    }
}

/// A product of two wide-range components stays well inside `i128`.
proof fn lemma_wide_product_bound(a: int, b: int)
    requires
        -2 * COORD_LIMIT <= a <= 2 * COORD_LIMIT,
        -2 * COORD_LIMIT <= b <= 2 * COORD_LIMIT,
    ensures
        -4 * (COORD_LIMIT as int) * (COORD_LIMIT as int) <= a * b,
        a * b <= 4 * (COORD_LIMIT as int) * (COORD_LIMIT as int),
{
    assert(-4 * (COORD_LIMIT as int) * (COORD_LIMIT as int) <= a * b
        && a * b <= 4 * (COORD_LIMIT as int) * (COORD_LIMIT as int)) by (nonlinear_arith)
        requires
            -2 * COORD_LIMIT <= a <= 2 * COORD_LIMIT,
            -2 * COORD_LIMIT <= b <= 2 * COORD_LIMIT,
    ;
}

} // verus!
