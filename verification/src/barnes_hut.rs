//! The Barnes-Hut approximation: the cells that divide the plane, the
//! quadtree over them, its model and its laws.
use vstd::prelude::*;

use crate::base::Scalar;

pub mod canonical;
pub mod laws;
pub mod leaves;
pub mod node;
pub mod quadtree;

pub use quadtree::Quadtree;

verus! {

/// The denominator of an accuracy parameter: `theta` stands for the ratio
/// `theta / THETA_UNIT`.
pub const THETA_UNIT: u16 = 1024;

/// The accuracy parameter to use where none is configured: a ratio of one.
pub const THETA: u16 = THETA_UNIT;

/// How many units of a cell's coordinates make one unit of the grid. A cell
/// keeps 32 binary places below the grid, so that a cell made of grid
/// coordinates can be halved 32 times without rounding: by then it is
/// narrower than the grid, and no two points of the grid share it.
pub const CELL_UNIT: u64 = 0x1_0000_0000;

/// A square region of the plane: its lower-left corner and the length of its
/// side, both in cell units, of which `CELL_UNIT` make one unit of the grid.
#[derive(Debug, Clone, Copy, PartialEq, Eq, Structural)]
pub struct Cell {
    x: i128,
    y: i128,
    size: u64,
}

/// What a [`Cell`] stands for: a corner and a side length in cell units, as
/// unbounded integers.
pub struct CellView {
    pub x: int,
    pub y: int,
    pub size: nat,
}

impl CellView {
    /// The cell of the grid corner `(x, y)` and of a side of `size` grid units.
    pub open spec fn on_grid(x: int, y: int, size: nat) -> CellView {
        CellView { x: x * CELL_UNIT, y: y * CELL_UNIT, size: size * (CELL_UNIT as nat) }
    }

    /// The x coordinate of the cell's center, in cell units and rounded down.
    pub open spec fn center_x(self) -> int {
        self.x + self.size / 2
    }

    /// The y coordinate of the cell's center, in cell units and rounded down.
    pub open spec fn center_y(self) -> int {
        self.y + self.size / 2
    }

    /// The quadrant of the grid point `(x, y)`: bit 0 is set when the point is
    /// at or right of the center, bit 1 when it is at or above the center.
    pub open spec fn quadrant(self, x: int, y: int) -> int {
        (if x * CELL_UNIT >= self.center_x() { 1int } else { 0int })
            + (if y * CELL_UNIT >= self.center_y() { 2int } else { 0int })
    }

    /// The sub-cell of half the side length that covers `quadrant`.
    pub open spec fn child(self, quadrant: int) -> CellView
        recommends
            0 <= quadrant < 4,
    {
        CellView {
            x: if quadrant % 2 == 1 { self.center_x() } else { self.x },
            y: if quadrant >= 2 { self.center_y() } else { self.y },
            size: self.size / 2,
        }
    }
}

impl View for Cell {
    type V = CellView;

    closed spec fn view(&self) -> CellView {
        CellView { x: self.x as int, y: self.y as int, size: self.size as nat }
    }
}

impl Cell {
    /// Every cell lies between the smallest coordinate and the farthest
    /// corner that a cell made by `new` can have, so halving never overflows.
    #[verifier::type_invariant]
    spec fn in_range(self) -> bool {
        &&& i32::MIN * CELL_UNIT <= self.x
        &&& self.x + self.size <= (i32::MAX + u32::MAX) * CELL_UNIT
        &&& i32::MIN * CELL_UNIT <= self.y
        &&& self.y + self.size <= (i32::MAX + u32::MAX) * CELL_UNIT
    }

    /// A cell's side is no longer than a `u64` can say.
    pub proof fn lemma_size_bound(&self)
        ensures
            self@.size <= u64::MAX,
    {
    }

    /// The cell with its lower-left corner at the grid point `(x, y)` and a
    /// side of `size` grid units.
    pub fn new(x: Scalar, y: Scalar, size: u32) -> (cell: Self)
        ensures
            cell@ == CellView::on_grid(x as int, y as int, size as nat),
    {
        Self {
            x: x as i128 * CELL_UNIT as i128,
            y: y as i128 * CELL_UNIT as i128,
            size: size as u64 * CELL_UNIT,
        }
    }

    /// Returns the x coordinate of the cell's corner, in cell units.
    pub fn x(&self) -> (x: i128)
        ensures
            x == self@.x,
            i32::MIN * CELL_UNIT <= x <= (i32::MAX + u32::MAX) * CELL_UNIT,
    {
        proof {
            use_type_invariant(self);
        }
        self.x
    }

    /// Returns the y coordinate of the cell's corner, in cell units.
    pub fn y(&self) -> (y: i128)
        ensures
            y == self@.y,
            i32::MIN * CELL_UNIT <= y <= (i32::MAX + u32::MAX) * CELL_UNIT,
    {
        proof {
            use_type_invariant(self);
        }
        self.y
    }

    /// Returns the length of the cell's side, in cell units.
    pub fn size(&self) -> (size: u64)
        ensures
            size == self@.size,
    {
        self.size
    }

    /// Returns the x coordinate of the cells center, in cell units.
    pub fn center_x(&self) -> (c: i128)
        ensures
            c == self@.center_x(),
    {
        proof {
            use_type_invariant(self);
        }
        self.x + (self.size / 2) as i128
    }

    /// Returns the y coordinate of the cells center, in cell units.
    pub fn center_y(&self) -> (c: i128)
        ensures
            c == self@.center_y(),
    {
        proof {
            use_type_invariant(self);
        }
        self.y + (self.size / 2) as i128
    }

    /// Returns the Quadrant the point is in,
    /// even if the point is not inside the cells boundary.
    /// The quadrants are numbered as follows:
    /// ---------
    /// | 2 | 3 |
    /// ---------
    /// | 0 | 1 |
    /// ---------
    pub fn quadrant(&self, x: Scalar, y: Scalar) -> (quadrant: usize)
        ensures
            quadrant == self@.quadrant(x as int, y as int),
            quadrant < 4,
    {
        let x_bit: usize = if x as i128 * CELL_UNIT as i128 >= self.center_x() { 1 } else { 0 };
        let y_bit: usize = if y as i128 * CELL_UNIT as i128 >= self.center_y() { 2 } else { 0 };
        x_bit + y_bit
    }

    /// Returns the subquadrant of the cell based on the provided quadrant.
    /// See the quadrant functions comment for the numbering scheme.
    /// Only the four quadrants of that scheme are admitted: nothing else is
    /// taken for one of them.
    pub fn child(&self, quadrant: usize) -> (child: Cell)
        requires
            quadrant < 4,
        ensures
            child@ == self@.child(quadrant as int),
    {
        proof {
            use_type_invariant(self);
        }
        let half_size: u64 = self.size / 2;
        if quadrant == 0 {
            Cell { x: self.x, y: self.y, size: half_size }
        } else if quadrant == 1 {
            Cell { x: self.center_x(), y: self.y, size: half_size }
        } else if quadrant == 2 {
            Cell { x: self.x, y: self.center_y(), size: half_size }
        } else if quadrant == 3 {
            Cell { x: self.center_x(), y: self.center_y(), size: half_size }
        } else {
            // No caller that is verified gets here; any other stops here.
            vstd::pervasive::unreached()
        }
    }
}

} // verus!
