//! Bodies: points of the integer grid that carry mass.
use vstd::prelude::*;

pub mod sums;
pub mod vec2;

pub use sums::{lemma_total_mass_add, lemma_total_mass_prefix, max_x, max_y, min_x, min_y};
pub use sums::{total_mass, total_moment_x, total_moment_y};
pub use vec2::Vec2;

verus! {

/// A coordinate on the integer grid.
pub type Scalar = i32;

/// A mass in whole units.
pub type Mass = u64;

/// An object with a mass and a position.
/// Could be for example a planet, an asteroid or an apple.
#[derive(Debug, Clone, Copy, PartialEq, Eq, Structural)]
pub struct Object {
    pub x: Scalar,
    pub y: Scalar,
    pub m: Mass,
}

impl Object {
    pub fn new(x: Scalar, y: Scalar, m: Mass) -> (object: Self)
        ensures
            object == (Object { x, y, m }),
    {
        Self { x, y, m }
    }

    /// The position of the object, without its mass.
    pub open spec fn spec_pos(self) -> Vec2 {
        Vec2 { x: self.x, y: self.y }
    }

    /// The position of the object, without its mass.
    #[verifier::when_used_as_spec(spec_pos)]
    pub fn pos(self) -> (pos: Vec2)
        ensures
            pos == self.spec_pos(),
    {
        Vec2::new(self.x, self.y)
    }

    /// Whether the object lies exactly at `pos`.
    pub open spec fn is_at(self, pos: Vec2) -> bool {
        self.x == pos.x && self.y == pos.y
    }
}

} // verus!
