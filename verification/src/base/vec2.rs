//! A point of the integer grid.
use vstd::prelude::*;

use crate::base::Scalar;

verus! {

#[derive(Debug, Clone, Copy, PartialEq, Eq, Structural)]
pub struct Vec2 {
    pub x: Scalar,
    pub y: Scalar,
}

impl Vec2 {
    pub fn new(x: Scalar, y: Scalar) -> (v: Self)
        ensures
            v == (Vec2 { x, y }),
    {
        Self { x, y }
    }

    /// The square of the Euclidean distance between two points.
    pub open spec fn spec_distance_squared(self, other: Vec2) -> int {
        (self.x - other.x) * (self.x - other.x) + (self.y - other.y) * (self.y - other.y)
    }

    /// The square of the Euclidean distance between two points.
    /// It is zero exactly when the points coincide.
    pub fn distance_squared(&self, other: Vec2) -> (d: u128)
        ensures
            d == self.spec_distance_squared(other),
            d == 0 <==> *self == other,
            d <= 0x1_ffff_fffc_0000_0002,
    {
        let dx: i64 = self.x as i64 - other.x as i64;
        let dy: i64 = self.y as i64 - other.y as i64;
        assert(0 <= dx * dx <= 0xffff_ffff * 0xffff_ffff) by (nonlinear_arith)
            requires
                -0xffff_ffff <= dx <= 0xffff_ffff,
        ;
        assert(0 <= dy * dy <= 0xffff_ffff * 0xffff_ffff) by (nonlinear_arith)
            requires
                -0xffff_ffff <= dy <= 0xffff_ffff,
        ;
        assert(dx * dx == 0 <==> dx == 0) by (nonlinear_arith);
        assert(dy * dy == 0 <==> dy == 0) by (nonlinear_arith);
        let sx: u128 = (dx as i128 * dx as i128) as u128;
        let sy: u128 = (dy as i128 * dy as i128) as u128;
        sx + sy
    }
}

} // verus!
