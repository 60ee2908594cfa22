//! The quadtree: its construction by insertion and its traversal for one body.
use vstd::prelude::*;

use crate::barnes_hut::canonical::{lemma_insert_all_canonical, lemma_tree_of_height, tree_of};
use crate::barnes_hut::node::{grid_corner, interacting, stack_bodies, stack_size, tree_box};
use crate::barnes_hut::node::{force_term, force_terms, lemma_interacting_away, ForceTerm};
use crate::barnes_hut::node::{lemma_interacting_push, Node};
use crate::barnes_hut::node::Visit;
use crate::barnes_hut::{Cell, CELL_UNIT, THETA_UNIT};
use crate::base::{lemma_total_mass_prefix, max_x, max_y, min_x, min_y, total_mass};
use crate::base::{total_moment_x, total_moment_y, Mass, Object, Scalar, Vec2};

verus! {

/// The coordinates describe the center of mass for that cell.
///
/// Beside the center of mass, rounded down to the grid, a node keeps the
/// exact first moments of the mass beneath it, so that no insertion loses
/// anything to rounding.
#[derive(Debug)]
pub struct Quadtree {
    x: Scalar,
    y: Scalar,
    m: Mass,
    moment_x: i128,
    moment_y: i128,
    children: Vec<Option<Quadtree>>,
    cell: Cell,
}

impl Quadtree {
    /// The tree that this node and everything beneath it stand for.
    pub closed spec fn model(&self) -> Node
        decreases self,
    {
        Node {
            x: self.x as int,
            y: self.y as int,
            m: self.m as nat,
            moment_x: self.moment_x as int,
            moment_y: self.moment_y as int,
            children: Seq::new(
                self.children@.len(),
                |i: int|
                    if 0 <= i < self.children@.len() && self.children@[i] is Some {
                        Some(self.children@[i]->0.model())
                    } else {
                        None
                    },
            ),
            cell: self.cell@,
        }
    }
}

impl View for Quadtree {
    type V = Node;

    closed spec fn view(&self) -> Node {
        self.model()
    }
}

/// One node of a quadtree as [`Quadtree::nodes`] lists it: the node's
/// position and mass, its cell, and its depth beneath the root.
#[derive(Debug, Clone, Copy)]
pub struct NodeInfo {
    pub x: Scalar,
    pub y: Scalar,
    pub m: Mass,
    pub cell: Cell,
    pub level: usize,
}

impl View for NodeInfo {
    type V = Visit;

    open spec fn view(&self) -> Visit {
        Visit {
            x: self.x as int,
            y: self.y as int,
            m: self.m as nat,
            cell: self.cell@,
            level: self.level as nat,
        }
    }
}

/// One term of the sum that is the force on a body: the vector `(rx, ry)` from
/// that body to one that acts on it, the square of its length, and the product
/// of the two masses. Neither the vector nor its length is ever zero.
///
/// The force that the term stands for is the interaction constant times
/// `mass_product / |r|^3` times `r`: it takes a square root, and is left to
/// the caller.
#[derive(Debug, Clone, Copy, PartialEq, Eq)]
pub struct Interaction {
    pub rx: i64,
    pub ry: i64,
    pub distance_squared: u128,
    pub mass_product: u128,
}

impl View for Interaction {
    type V = ForceTerm;

    open spec fn view(&self) -> ForceTerm {
        ForceTerm {
            rx: self.rx as int,
            ry: self.ry as int,
            distance_squared: self.distance_squared as int,
            mass_product: self.mass_product as int,
        }
    }
}

/// What each entry of a list of terms stands for.
pub open spec fn terms(interactions: Seq<Interaction>) -> Seq<ForceTerm> {
    Seq::new(interactions.len(), |i: int| interactions[i]@)
}

/// What each entry of a list of nodes stands for.
pub open spec fn visits(nodes: Seq<NodeInfo>) -> Seq<Visit> {
    Seq::new(nodes.len(), |i: int| nodes[i]@)
}

/// What each tree of a list stands for.
pub open spec fn trees(nodes: Seq<Quadtree>) -> Seq<Node> {
    Seq::new(nodes.len(), |i: int| nodes[i]@)
}

/// The quotient of `n` by `d`, rounded toward negative infinity.
fn floor_div(n: i128, d: u64) -> (q: Scalar)
    requires
        d > 0,
        i32::MIN * d <= n <= i32::MAX * d,
    ensures
        q == (n as int) / (d as int),
{
    if n >= 0 {
        let q: u128 = n as u128 / d as u128;
        assert(q <= i32::MAX) by (nonlinear_arith)
            requires
                q == (n as int) / (d as int),
                0 <= n <= i32::MAX * d,
                d > 0,
        ;
        q as Scalar
    } else {
        let a: u128 = (-n) as u128;
        let c: u128 = (a + (d as u128 - 1)) / d as u128;
        assert(-(c as int) == (n as int) / (d as int) && c <= 0x8000_0000) by (nonlinear_arith)
            requires
                c == ((-n + d - 1) as int) / (d as int),
                i32::MIN * d <= n < 0,
                d > 0,
        ;
        (-(c as i64)) as Scalar
    }
}

/// The grid coordinate at or below the cell coordinate `v`, as far as the grid
/// reaches.
fn corner_on_grid(v: i128) -> (c: Scalar)
    requires
        -0x1_0000_0000_0000_0000_0000 <= v <= 0x1_0000_0000_0000_0000_0000,
    ensures
        c == grid_corner(v as int),
{
    let unit: u128 = CELL_UNIT as u128;
    let below: i128 = if v >= 0 {
        let q: u128 = v as u128 / unit;
        assert(q == (v as int) / (CELL_UNIT as int));
        q as i128
    } else {
        let a: u128 = (-v) as u128;
        let q: u128 = (a + (unit - 1)) / unit;
        assert(-(q as int) == (v as int) / (CELL_UNIT as int)) by (nonlinear_arith)
            requires
                q == ((-v + CELL_UNIT - 1) as int) / (CELL_UNIT as int),
                v < 0,
                CELL_UNIT == 0x1_0000_0000,
        ;
        -(q as i128)
    };
    if below < i32::MIN as i128 {
        i32::MIN
    } else if below > i32::MAX as i128 {
        i32::MAX
    } else {
        below as Scalar
    }
}

impl Quadtree {
    /// Creates a quadtree from a set of objects.
    /// The cell configures the size of the quadtree.
    ///
    /// The objects are inserted in their order into an empty tree. The tree
    /// that comes of it is the same for every order.
    ///
    /// The masses must sum to no more than a [`Mass`] holds.
    pub fn create_from_objects(objects: Vec<Object>, cell: Cell) -> (root: Self)
        requires
            total_mass(objects@) <= u64::MAX,
        ensures
            root@ == Node::empty(cell@).insert_all(objects@, cell@),
            root@ == tree_of(objects@, cell@),
            root@.wf(),
            root@.m == total_mass(objects@),
            root@.moment_x == total_moment_x(objects@),
            root@.moment_y == total_moment_y(objects@),
            root@.height() <= 65,
    {
        let mut root = Self::leaf(corner_on_grid(cell.x()), corner_on_grid(cell.y()), 0, cell);
        proof {
            Node::empty(cell@).lemma_insert_all(objects@, cell@);
            lemma_insert_all_canonical(objects@, cell@);
            cell.lemma_size_bound();
            lemma_tree_of_height(objects@, cell@);
        }

        let mut i: usize = 0;
        while i < objects.len()
            invariant
                i <= objects.len(),
                total_mass(objects@) <= u64::MAX,
                root@ == Node::empty(cell@).insert_all(objects@.take(i as int), cell@),
                root@.wf(),
                root@.m == total_mass(objects@.take(i as int)),
            decreases objects.len() - i,
        {
            let object = objects[i];
            proof {
                lemma_total_mass_prefix(objects@, i as int);
                lemma_total_mass_prefix(objects@, i + 1);
                assert(objects@.take(i + 1).drop_last() =~= objects@.take(i as int));
            }
            root.insert(object.x, object.y, object.m, cell);
            i += 1;
        }
        proof {
            assert(objects@.take(i as int) =~= objects@);
        }
        root
    }

    /// Returns a cell that has the size and the origin a quadtree,
    /// which is build with the same objects, should be based on.
    /// This is not the minimal bounding box.
    ///
    /// There must be at least one object.
    pub fn calc_tree_box(objects: &Vec<Object>) -> (cell: Cell)
        requires
            objects.len() > 0,
        ensures
            cell@ == tree_box(objects@),
    {
        let mut smallest_x = objects[0].x;
        let mut largest_x = objects[0].x;

        let mut smallest_y = objects[0].y;
        let mut largest_y = objects[0].y;

        let mut i: usize = 1;
        while i < objects.len()
            invariant
                1 <= i <= objects.len(),
                smallest_x == min_x(objects@.take(i as int)),
                largest_x == max_x(objects@.take(i as int)),
                smallest_y == min_y(objects@.take(i as int)),
                largest_y == max_y(objects@.take(i as int)),
                smallest_x <= largest_x,
                smallest_y <= largest_y,
            decreases objects.len() - i,
        {
            let object = objects[i];
            proof {
                assert(objects@.take(i + 1).drop_last() =~= objects@.take(i as int));
            }
            if object.x < smallest_x {
                smallest_x = object.x
            } else if object.x > largest_x {
                largest_x = object.x
            }
            if object.y < smallest_y {
                smallest_y = object.y
            } else if object.y > largest_y {
                largest_y = object.y
            }
            i += 1;
        }
        proof {
            assert(objects@.take(i as int) =~= objects@);
        }
        let largest = if largest_x >= largest_y {
            largest_x
        } else {
            largest_y
        };
        let smallest = if smallest_x <= smallest_y {
            smallest_x
        } else {
            smallest_y
        };
        let size: u32 = (largest as i64 - smallest as i64) as u32;
        assert(size == tree_box(objects@).size / (CELL_UNIT as nat)) by (nonlinear_arith)
            requires
                tree_box(objects@).size == (size as nat) * (CELL_UNIT as nat),
                CELL_UNIT == 0x1_0000_0000,
        ;

        return Cell::new(smallest_x, smallest_y, size)
    }

    /// Creates an empty quadtree node.
    /// Because it is a leaf, it represents an object
    /// or if m == 0 an empty quadtree.
    pub fn leaf(x: Scalar, y: Scalar, m: Mass, cell: Cell) -> (leaf: Self)
        ensures
            leaf@ == Node::leaf(x as int, y as int, m as nat, cell@),
            leaf@.wf(),
    {
        assert(i32::MIN * m <= m * x <= i32::MAX * m) by (nonlinear_arith)
            requires
                i32::MIN <= x <= i32::MAX,
                0 <= m,
        ;
        assert(i32::MIN * m <= m * y <= i32::MAX * m) by (nonlinear_arith)
            requires
                i32::MIN <= y <= i32::MAX,
                0 <= m,
        ;
        assert(m > 0 ==> (m * x) / (m as int) == x && (m * y) / (m as int) == y)
            by (nonlinear_arith);
        let leaf = Self {
            x,
            y,
            m,
            moment_x: m as i128 * x as i128,
            moment_y: m as i128 * y as i128,
            children: vec![None, None, None, None],
            cell,
        };
        assert(leaf@.children =~= Seq::new(4, |i: int| None));
        leaf
    }

    /// Inserts an object into the quadtree.
    /// An object is represented by a leaf.
    ///
    /// `cell` is the region that this node covers. An object without mass is
    /// left out. Two objects that share a quadrant get a node of their own
    /// there, level by level, until they part. Objects that are still together
    /// in a cell without extent, which cannot be divided, are held by one leaf
    /// as one: so are objects at the same point.
    ///
    /// The mass beneath this node and that of the object must fit a [`Mass`]
    /// between them.
    pub fn insert(&mut self, x: Scalar, y: Scalar, m: Mass, cell: Cell)
        requires
            old(self)@.wf(),
            old(self)@.m + m <= u64::MAX,
        ensures
            final(self)@ == old(self)@.insert(x as int, y as int, m as nat, cell@),
            final(self)@.wf(),
            final(self)@.m == old(self)@.m + m,
            final(self)@.moment_x == old(self)@.moment_x + m * x,
            final(self)@.moment_y == old(self)@.moment_y + m * y,
    {
        proof {
            self@.lemma_insert(x as int, y as int, m as nat, cell@);
        }
        // An object with no mass is not influenced and does not influence gravity.
        if m == 0 {
            return ;
        }
        // If no object has been inserted before, the root node can just represent it.
        if self.m == 0 {
            self.x = x;
            self.y = y;
            self.m = m;
            assert(i32::MIN * m <= m * x <= i32::MAX * m) by (nonlinear_arith)
                requires
                    i32::MIN <= x <= i32::MAX,
                    0 <= m,
            ;
            assert(i32::MIN * m <= m * y <= i32::MAX * m) by (nonlinear_arith)
                requires
                    i32::MIN <= y <= i32::MAX,
                    0 <= m,
            ;
            self.moment_x = m as i128 * x as i128;
            self.moment_y = m as i128 * y as i128;
            assert(self@.children =~= old(self)@.children);
            return ;
        }
        // Find the parent node to insert the node under.

        let ghost before = self@;
        let ghost after = final(self)@;
        let mut current: &mut Self = self;
        let mut current_cell: Cell = cell;
        let mut quadrant: usize = cell.quadrant(x, y);

        while current.children[quadrant].is_some()
            invariant
                quadrant < 4,
                quadrant == current_cell@.quadrant(x as int, y as int),
                current@.wf(),
                current@.m > 0,
                current@.m + m <= u64::MAX,
                final(current)@ == current@.place(x as int, y as int, m as nat, current_cell@)
                    ==> after == before.place(x as int, y as int, m as nat, cell@),
            decreases current@,
        {
            let ghost node = current@;
            let ghost node_after = *final(current);
            proof {
                current.lemma_view();
            }
            current.update_com(x, y, m);
            let ghost updated = *current;

            current = current.children[quadrant].as_mut().unwrap();
            proof {
                updated.lemma_view();
                node_after.lemma_view();
                assert(node_after@.children =~= updated@.children.update(
                    quadrant as int,
                    Some(final(current)@),
                ));
                assert(node_after@ == updated@.with_child(quadrant as int, final(current)@));
                assert(current@ == node.children[quadrant as int]->0);
            }
            current_cell = current_cell.child(quadrant);

            quadrant = current_cell.quadrant(x, y);
        }

        // This is only needed if current.is_leaf() is true,
        // because this must be done before current.update_com(x, y, m) is called, this is not inside the if statement.
        // The object that was represented by the node (now referred to as object2).
        let (x2, y2, m2) = (current.x, current.y, current.m);
        let (moment_x2, moment_y2) = (current.moment_x, current.moment_y);
        let ghost mut object2 = current@;
        proof {
            current.lemma_view();
        }

        current.update_com(x, y, m);

        // Because a leaf represents an object,
        // the two objects must be split up into seperate cells.
        if current.is_leaf() {
            // The quadrant of object2.
            let mut quadrant2: usize = current_cell.quadrant(x2, y2);

            // Splits the cell until the objects are not in the same quadrant anymore,
            // or until the cell cannot be split.
            while current_cell.size() > 0 && quadrant == quadrant2
                invariant
                    quadrant < 4,
                    quadrant2 < 4,
                    quadrant == current_cell@.quadrant(x as int, y as int),
                    quadrant2 == current_cell@.quadrant(x2 as int, y2 as int),
                    object2.is_leaf(),
                    object2.children.len() == 4,
                    object2.x == x2,
                    object2.y == y2,
                    object2.m == m2,
                    object2.moment_x == moment_x2,
                    object2.moment_y == moment_y2,
                    current@ == object2.update_com(x as int, y as int, m as nat),
                    final(current)@ == object2.split(x as int, y as int, m as nat, current_cell@)
                        ==> after == before.place(x as int, y as int, m as nat, cell@),
                decreases current_cell@.size,
            {
                let ghost node_after = *final(current);
                proof {
                    current.lemma_view();
                }
                // Creates a cell that contains both objects.
                // The center of mass stays the same and does not need to be updated.
                current.attach(
                    quadrant,
                    Self::aggregate_leaf(
                        current.x,
                        current.y,
                        current.m,
                        current.moment_x,
                        current.moment_y,
                        current_cell.child(quadrant),
                    ),
                );
                let ghost updated = *current;
                proof {
                    current.lemma_view();
                    assert(current@.children[quadrant as int] is Some);
                }

                current = current.children[quadrant].as_mut().unwrap();
                proof {
                    let merged = object2.update_com(x as int, y as int, m as nat);
                    updated.lemma_view();
                    node_after.lemma_view();
                    assert(node_after@.children =~= updated@.children.update(
                        quadrant as int,
                        Some(final(current)@),
                    ));
                    assert(node_after@.children =~= merged.children.update(
                        quadrant as int,
                        Some(final(current)@),
                    ));
                    assert(node_after@ == merged.with_child(quadrant as int, final(current)@));
                    object2 = object2.as_leaf_of(current_cell@.child(quadrant as int));
                    assert(current@ == updated@.children[quadrant as int]->0);
                    assert(current@.children =~= object2.children);
                }
                current_cell = current_cell.child(quadrant);

                quadrant = current_cell.quadrant(x, y);
                quadrant2 = current_cell.quadrant(x2, y2);
            }
            // A cell without extent holds both objects as one.
            if current_cell.size() == 0 {
                return ;
            }
            // Once the quadrants are different, a node is created for each object.
            // (The node for the other object is created further below)

            current.attach(
                quadrant2,
                Self::aggregate_leaf(
                    x2,
                    y2,
                    m2,
                    moment_x2,
                    moment_y2,
                    current_cell.child(quadrant2),
                ),
            );
        }
        // If the node is not a leaf
        // and the node does not contain a child in which the object would fit,
        // a child, which represents the object, is created.

        current.new_child(quadrant, x, y, m, current_cell.child(quadrant));
    }

    /// Updates the center of mass: adds an object of mass `m` at `(x, y)` to
    /// what this node holds. The children are left as they are.
    ///
    /// The mass of this node and `m` must fit a [`Mass`] between them.
    pub fn update_com(&mut self, x: Scalar, y: Scalar, m: Mass)
        requires
            old(self)@.aggregate_ok(),
            old(self)@.m + m <= u64::MAX,
        ensures
            final(self)@ == old(self)@.update_com(x as int, y as int, m as nat),
            final(self)@.aggregate_ok(),
    {
        let total_m: Mass = self.m + m;
        assert(i32::MIN * m <= m * x <= i32::MAX * m) by (nonlinear_arith)
            requires
                i32::MIN <= x <= i32::MAX,
                0 <= m,
        ;
        assert(i32::MIN * m <= m * y <= i32::MAX * m) by (nonlinear_arith)
            requires
                i32::MIN <= y <= i32::MAX,
                0 <= m,
        ;
        assert(i32::MIN * (self.m + m) == i32::MIN * self.m + i32::MIN * m) by (nonlinear_arith);
        assert(i32::MAX * (self.m + m) == i32::MAX * self.m + i32::MAX * m) by (nonlinear_arith);
        assert(-0x8000_0000 * 0xffff_ffff_ffff_ffff <= i32::MIN * total_m) by (nonlinear_arith)
            requires
                total_m <= 0xffff_ffff_ffff_ffff,
        ;
        assert(i32::MAX * total_m <= 0x7fff_ffff * 0xffff_ffff_ffff_ffff) by (nonlinear_arith)
            requires
                total_m <= 0xffff_ffff_ffff_ffff,
        ;
        let moment_x: i128 = self.moment_x + m as i128 * x as i128;
        let moment_y: i128 = self.moment_y + m as i128 * y as i128;
        if total_m > 0 {
            self.x = floor_div(moment_x, total_m);
            self.y = floor_div(moment_y, total_m);
        }
        self.m = total_m;
        self.moment_x = moment_x;
        self.moment_y = moment_y;
        assert(self@.children =~= old(self)@.children);
    }

    /// Checks if the node is a leaf.
    pub fn is_leaf(&self) -> (leaf: bool)
        ensures
            leaf == self@.is_leaf(),
    {
        let mut i: usize = 0;
        while i < self.children.len()
            invariant
                i <= self.children.len(),
                forall|j: int| 0 <= j < i ==> (#[trigger] self@.children[j]) is None,
            decreases self.children.len() - i,
        {
            if self.children[i].is_some() {
                assert(self@.children[i as int] is Some);
                return false;
            }
            i += 1;
        }
        true
    }

    /// Adds a child under the node: a leaf for an object of mass `m` at
    /// `(x, y)`, in place of what `quadrant` held. The node's own sums are left
    /// as they are.
    pub fn new_child(&mut self, quadrant: usize, x: Scalar, y: Scalar, m: Mass, cell: Cell)
        requires
            quadrant < old(self)@.children.len(),
        ensures
            final(self)@ == old(self)@.with_child(
                quadrant as int,
                Node::leaf(x as int, y as int, m as nat, cell@),
            ),
    {
        self.children[quadrant] = Some(Self::leaf(x, y, m, cell));
        assert(self@.children =~= old(self)@.children.update(
            quadrant as int,
            Some(Node::leaf(x as int, y as int, m as nat, cell@)),
        ));
    }

    /// A leaf that holds the given aggregate.
    fn aggregate_leaf(
        x: Scalar,
        y: Scalar,
        m: Mass,
        moment_x: i128,
        moment_y: i128,
        cell: Cell,
    ) -> (leaf: Self)
        ensures
            leaf@ == (Node {
                x: x as int,
                y: y as int,
                m: m as nat,
                moment_x: moment_x as int,
                moment_y: moment_y as int,
                children: Seq::new(4, |i: int| None),
                cell: cell@,
            }),
    {
        let leaf = Self {
            x,
            y,
            m,
            moment_x,
            moment_y,
            children: vec![None, None, None, None],
            cell,
        };
        assert(leaf@.children =~= Seq::new(4, |i: int| None));
        leaf
    }

    /// Puts `child` into the slot of `quadrant`.
    fn attach(&mut self, quadrant: usize, child: Quadtree)
        requires
            quadrant < old(self)@.children.len(),
        ensures
            final(self)@ == old(self)@.with_child(quadrant as int, child@),
    {
        self.children[quadrant] = Some(child);
        assert(self@.children =~= old(self)@.children.update(quadrant as int, Some(child@)));
    }

    /// Whether this node, seen from `pos`, is far enough to stand for
    /// everything beneath it: whether its cell's side, divided by its distance
    /// from `pos`, is less than `theta / THETA_UNIT`.
    pub fn is_far(&self, pos: Vec2, theta: u16) -> (far: bool)
        ensures
            far == self@.accepts(pos, theta as int),
    {
        proof {
            self.lemma_view();
        }
        let distance_squared: u128 = Vec2::new(self.x, self.y).distance_squared(pos);
        let side: u128 = self.cell.size() as u128;
        let theta: u128 = theta as u128;
        assert(side * side <= 0xffff_ffff_ffff_ffff * 0xffff_ffff_ffff_ffff) by (nonlinear_arith)
            requires
                0 <= side <= 0xffff_ffff_ffff_ffff,
        ;
        assert(theta * theta <= 0xffff * 0xffff) by (nonlinear_arith)
            requires
                0 <= theta <= 0xffff,
        ;
        assert((theta * theta) * distance_squared <= (0xffff * 0xffff) * 0x1_ffff_fffc_0000_0002)
            by (nonlinear_arith)
            requires
                0 <= theta * theta <= 0xffff * 0xffff,
                0 <= distance_squared <= 0x1_ffff_fffc_0000_0002,
        ;
        let reach: u128 = (theta * theta) * distance_squared;
        // The side is in cell units and carries THETA_UNIT: of the 64 binary places
        // that the squares of both take, 20 stand on the left and 44 on the right.
        let far = (side * side) / 0x1000_0000_0000 < reach;
        proof {
            let s = side as int;
            let r = reach as int;
            assert((s * THETA_UNIT) * (s * THETA_UNIT) == (s * s) * 0x10_0000) by (nonlinear_arith)
                requires
                    THETA_UNIT == 1024,
            ;
            assert(r * (CELL_UNIT * CELL_UNIT) == (r * 0x1000_0000_0000) * 0x10_0000)
                by (nonlinear_arith)
                requires
                    CELL_UNIT == 0x1_0000_0000,
            ;
            assert(((s * s) / 0x1000_0000_0000 < r) <==> ((s * s) * 0x10_0000 < (r
                * 0x1000_0000_0000) * 0x10_0000)) by (nonlinear_arith);
        }
        far
    }

    /// Returns the bodies that stand for the tree in the force on a body at
    /// `pos`, for the accuracy `theta / THETA_UNIT`, in the order in which a
    /// [`QuadtreeForceCalculationIterator`] yields them.
    pub fn effective_bodies(&self, pos: Vec2, theta: u16) -> (bodies: Vec<Object>)
        ensures
            bodies@ == self@.effective_bodies(pos, theta as int),
    {
        let mut iterator = QuadtreeForceCalculationIterator::new(pos, theta, self);
        let mut bodies = Vec::<Object>::new();
        let mut next = iterator.next();
        while next.is_some()
            invariant
                next is None ==> iterator@.len() == 0,
                next is Some ==> bodies@.push(next->0) + iterator@ == self@.effective_bodies(
                    pos,
                    theta as int,
                ),
                next is None ==> bodies@ == self@.effective_bodies(pos, theta as int),
            decreases iterator@.len() + (if next is Some { 1nat } else { 0nat }),
        {
            let ghost before = iterator@;
            bodies.push(next.unwrap());
            next = iterator.next();
            proof {
                if next is Some {
                    assert(bodies@.push(next->0) + iterator@ =~= bodies@ + before);
                } else {
                    assert(bodies@ + before =~= bodies@);
                }
            }
        }
        bodies
    }

    /// Returns the bodies whose forces on `obj` sum to the total force that
    /// acts on it, for the accuracy `theta / THETA_UNIT`: the bodies that stand
    /// for the tree in the force on `obj`, without those that lie exactly
    /// where `obj` lies and so exert none.
    pub fn interacting_bodies(&self, obj: Object, theta: u16) -> (bodies: Vec<Object>)
        ensures
            bodies@ == interacting(self@.effective_bodies(obj.pos(), theta as int), obj.pos()),
    {
        let pos = obj.pos();
        let all = self.effective_bodies(pos, theta);
        let mut bodies = Vec::<Object>::new();
        let mut i: usize = 0;
        while i < all.len()
            invariant
                i <= all.len(),
                pos == obj.pos(),
                bodies@ == interacting(all@.take(i as int), pos),
            decreases all.len() - i,
        {
            let body = all[i];
            proof {
                assert(all@.take(i + 1) =~= all@.take(i as int).push(body));
                lemma_interacting_push(all@.take(i as int), body, pos);
            }
            if body.x != pos.x || body.y != pos.y {
                bodies.push(body);
            }
            i += 1;
        }
        proof {
            assert(all@.take(i as int) =~= all@);
        }
        bodies
    }

    /// Calculates the total force that acts on the provided body
    /// for the accuracy θ, as the terms of its sum: one for each of the
    /// [`interacting_bodies`](Self::interacting_bodies), in their order. The
    /// force is the sum, over the terms, of the interaction constant times
    /// `mass_product / |r|^3` times `r`.
    pub fn calc_force(&self, obj: Object, theta: u16) -> (force: Vec<Interaction>)
        ensures
            terms(force@) == force_terms(
                obj,
                interacting(self@.effective_bodies(obj.pos(), theta as int), obj.pos()),
            ),
            forall|i: int| 0 <= i < force.len() ==> (#[trigger] force[i]).distance_squared > 0,
    {
        let bodies = self.interacting_bodies(obj, theta);
        let mut force = Vec::<Interaction>::new();
        let mut i: usize = 0;
        while i < bodies.len()
            invariant
                i <= bodies.len(),
                bodies@ == interacting(
                    self@.effective_bodies(obj.pos(), theta as int),
                    obj.pos(),
                ),
                terms(force@) == force_terms(obj, bodies@.take(i as int)),
                forall|j: int| 0 <= j < force.len() ==> (#[trigger] force[j]).distance_squared > 0,
            decreases bodies.len() - i,
        {
            let obj2 = bodies[i];
            let ghost before = force@;
            proof {
                // A body that acts does not lie where the body acted on lies.
                lemma_interacting_away(
                    self@.effective_bodies(obj.pos(), theta as int),
                    obj.pos(),
                    i as int,
                );
            }
            let distance_squared = obj.pos().distance_squared(obj2.pos());
            assert(obj.m * obj2.m <= 0xffff_ffff_ffff_ffff * 0xffff_ffff_ffff_ffff)
                by (nonlinear_arith)
                requires
                    0 <= obj.m <= 0xffff_ffff_ffff_ffff,
                    0 <= obj2.m <= 0xffff_ffff_ffff_ffff,
            ;
            let term = Interaction {
                rx: obj2.x as i64 - obj.x as i64,
                ry: obj2.y as i64 - obj.y as i64,
                distance_squared,
                mass_product: obj.m as u128 * obj2.m as u128,
            };
            assert(term@ == force_term(obj, obj2));
            force.push(term);
            i += 1;
            assert(terms(force@) =~= terms(before).push(term@));
            assert(terms(force@) =~= force_terms(obj, bodies@.take(i as int)));
        }
        proof {
            assert(bodies@.take(i as int) =~= bodies@);
        }
        force
    }

    /// Calls the provided function for every node with the values of the node.
    /// The functions parameters should be fn(node_x, node_y, node_m, cell, level).
    /// Returns what the function returned for this node, the first it is called for.
    ///
    /// The tree must not be higher than a `usize` can count.
    pub fn do_on_nodes<T>(
        &self,
        f: &mut impl FnMut(Scalar, Scalar, Mass, Cell, usize) -> T,
    ) -> (result: T)
        requires
            self@.height() <= usize::MAX,
            forall|x: Scalar, y: Scalar, m: Mass, cell: Cell, level: usize|
                call_requires(*old(f), (x, y, m, cell, level)),
        ensures
            exists|cell: Cell|
                cell@ == self@.cell && call_ensures(
                    *old(f),
                    (self@.x as Scalar, self@.y as Scalar, self@.m as Mass, cell, 0usize),
                    result,
                ),
    {
        let nodes = self.nodes();
        proof {
            self.lemma_view();
            assert(visits(nodes@).len() == nodes@.len());
            assert(self@.preorder(0).len() >= 1);
            assert(visits(nodes@)[0] == self@.visit(0));
        }
        let first = nodes[0];
        let result = f(first.x, first.y, first.m, first.cell, first.level);
        proof {
            assert(first.cell@ == self@.cell);
            assert(call_ensures(
                *old(f),
                (self@.x as Scalar, self@.y as Scalar, self@.m as Mass, first.cell, 0usize),
                result,
            ));
        }
        let mut i: usize = 1;
        while i < nodes.len()
            invariant
                1 <= i,
                forall|x: Scalar, y: Scalar, m: Mass, cell: Cell, level: usize|
                    call_requires(*f, (x, y, m, cell, level)),
            decreases nodes.len() - i,
        {
            let node = nodes[i];
            f(node.x, node.y, node.m, node.cell, node.level);
            i += 1;
        }
        result
    }

    /// Returns every node with its values and its depth beneath this node:
    /// each node before its children, the children by their quadrants.
    ///
    /// The tree must not be higher than a `usize` can count.
    pub fn nodes(&self) -> (nodes: Vec<NodeInfo>)
        requires
            self@.height() <= usize::MAX,
        ensures
            visits(nodes@) == self@.preorder(0),
    {
        let mut nodes = Vec::<NodeInfo>::new();
        self.list_nodes(0, &mut nodes);
        assert(visits(nodes@) =~= self@.preorder(0));
        nodes
    }

    /// Is used by nodes.
    /// Adds to `nodes` every node beneath this one, which lies at `level`.
    fn list_nodes(&self, level: usize, nodes: &mut Vec<NodeInfo>)
        requires
            level + self@.height() <= usize::MAX,
        ensures
            visits(final(nodes)@) == visits(old(nodes)@) + self@.preorder(level as nat),
        decreases self,
    {
        let ghost start = nodes@;
        proof {
            self.lemma_view();
        }
        nodes.push(NodeInfo { x: self.x, y: self.y, m: self.m, cell: self.cell, level });
        assert(visits(nodes@) =~= visits(start) + seq![self@.visit(level as nat)]);
        let mut i: usize = 0;
        while i < self.children.len()
            invariant
                i <= self.children.len(),
                level + self@.height() <= usize::MAX,
                visits(nodes@) == visits(start) + seq![self@.visit(level as nat)]
                    + self@.preorder_below(level as nat, i as nat),
            decreases self.children.len() - i,
        {
            proof {
                self.lemma_view();
            }
            if let Some(child) = &self.children[i] {
                proof {
                    self@.lemma_height_below(self@.children.len(), i as int);
                }
                child.list_nodes(level + 1, nodes);
                assert(visits(nodes@) =~= visits(start) + seq![self@.visit(level as nat)]
                    + self@.preorder_below(level as nat, (i + 1) as nat));
            }
            i += 1;
        }
        assert(visits(nodes@) =~= visits(start) + self@.preorder(level as nat));
    }

    /// Returns a list of all the leaves.
    pub fn get_leaves(&self) -> (leaves: Vec<Self>)
        ensures
            trees(leaves@) == self@.leaves(),
        decreases self,
    {
        let mut leaves = Vec::<Quadtree>::new();
        proof {
            self.lemma_view();
        }

        let mut i: usize = 0;
        while i < self.children.len()
            invariant
                i <= self.children.len(),
                trees(leaves@) == self@.leaves_below(i as nat),
            decreases self.children.len() - i,
        {
            let ghost before = leaves@;
            proof {
                self.lemma_view();
            }
            if let Some(child) = &self.children[i] {
                let mut below = child.get_leaves();
                let ghost added = below@;
                leaves.append(&mut below);
                assert(trees(leaves@) =~= trees(before) + trees(added));
            }
            i += 1;
        }
        if self.is_leaf() {
            assert(trees(leaves@) =~= Seq::<Node>::empty()) by {
                self.lemma_no_leaves_below(self.children.len() as nat);
            }
            leaves.push(self.clone());
            assert(trees(leaves@) =~= seq![self@]);
        }
        leaves
    }

    /// Returns the x coordinate of the center of mass, rounded down to the grid.
    pub fn x(&self) -> (x: Scalar)
        ensures
            x == self@.x,
    {
        proof {
            self.lemma_view();
        }
        self.x
    }

    /// Returns the y coordinate of the center of mass, rounded down to the grid.
    pub fn y(&self) -> (y: Scalar)
        ensures
            y == self@.y,
    {
        proof {
            self.lemma_view();
        }
        self.y
    }

    /// Returns the mass beneath this node.
    pub fn m(&self) -> (m: Mass)
        ensures
            m == self@.m,
    {
        proof {
            self.lemma_view();
        }
        self.m
    }

    /// Returns the sum of mass times x coordinate over the bodies beneath this node.
    pub fn moment_x(&self) -> (moment: i128)
        ensures
            moment == self@.moment_x,
    {
        proof {
            self.lemma_view();
        }
        self.moment_x
    }

    /// Returns the sum of mass times y coordinate over the bodies beneath this node.
    pub fn moment_y(&self) -> (moment: i128)
        ensures
            moment == self@.moment_y,
    {
        proof {
            self.lemma_view();
        }
        self.moment_y
    }

    /// Returns the cell that this node was made for.
    pub fn cell(&self) -> (cell: Cell)
        ensures
            cell@ == self@.cell,
    {
        proof {
            self.lemma_view();
        }
        self.cell
    }

    /// Returns the child in `quadrant`, if there is one.
    pub fn child(&self, quadrant: usize) -> (child: Option<&Quadtree>)
        ensures
            child is Some == self@.has_child(quadrant as int),
            child is Some ==> child->0@ == self@.children[quadrant as int]->0,
    {
        proof {
            self.lemma_view();
        }
        if quadrant < self.children.len() {
            self.children[quadrant].as_ref()
        } else {
            None
        }
    }

    /// What the view of a node is, field by field and slot by slot.
    proof fn lemma_view(&self)
        ensures
            self@.x == self.x,
            self@.y == self.y,
            self@.m == self.m,
            self@.moment_x == self.moment_x,
            self@.moment_y == self.moment_y,
            self@.cell == self.cell@,
            self@.children.len() == self.children.len(),
            forall|i: int|
                0 <= i < self.children.len() ==> (#[trigger] self@.children[i]) == (
                if self.children[i] is Some {
                    Some(self.children[i]->0@)
                } else {
                    None
                }),
    {
    }

    /// Nothing lies beneath a leaf.
    proof fn lemma_no_leaves_below(&self, n: nat)
        requires
            self@.is_leaf(),
        ensures
            self@.leaves_below(n) =~= Seq::<Node>::empty(),
        decreases n,
    {
        if n > 0 && n <= self@.children.len() {
            assert(self@.children[n - 1] is None);
            self.lemma_no_leaves_below((n - 1) as nat);
        }
    }
}

impl Clone for Quadtree {
    /// A copy of the whole tree.
    fn clone(&self) -> (copy: Self)
        ensures
            copy@ == self@,
        decreases self,
    {
        let mut children: Vec<Option<Quadtree>> = Vec::new();
        let mut i: usize = 0;
        while i < self.children.len()
            invariant
                i <= self.children.len(),
                children@.len() == i,
                forall|j: int|
                    0 <= j < i ==> (#[trigger] children@[j] is Some) == (self.children@[j] is Some),
                forall|j: int|
                    0 <= j < i && self.children@[j] is Some ==> (#[trigger] children@[j])->0@
                        == self.children@[j]->0@,
            decreases self.children.len() - i,
        {
            match &self.children[i] {
                Some(child) => {
                    children.push(Some(child.clone()));
                },
                None => {
                    children.push(None);
                },
            }
            i += 1;
        }
        let copy = Quadtree {
            x: self.x,
            y: self.y,
            m: self.m,
            moment_x: self.moment_x,
            moment_y: self.moment_y,
            children,
            cell: self.cell,
        };
        proof {
            self.lemma_view();
            copy.lemma_view();
            assert(copy@.children =~= self@.children);
        }
        copy
    }
}

/// Yields the bodies that stand for a quadtree in the force on one position,
/// one by one: a leaf or a node that is far enough as itself, any other node
/// by its children.
pub struct QuadtreeForceCalculationIterator<'a> {
    pos: Vec2,
    theta: u16,
    sub_trees: Vec<&'a Quadtree>,
}

impl<'a> View for QuadtreeForceCalculationIterator<'a> {
    type V = Seq<Object>;

    /// The bodies that are still to come, the next one first.
    closed spec fn view(&self) -> Seq<Object> {
        stack_bodies(self.stack(), self.pos, self.theta as int)
    }
}

impl<'a> QuadtreeForceCalculationIterator<'a> {
    /// The trees that are still to be visited, the next one last.
    pub closed spec fn stack(&self) -> Seq<Node> {
        Seq::new(self.sub_trees@.len(), |i: int| self.sub_trees@[i]@)
    }

    /// Starts a traversal of `qtree` for the position `pos` with the accuracy
    /// `theta / THETA_UNIT`.
    pub fn new(pos: Vec2, theta: u16, qtree: &'a Quadtree) -> (iterator: Self)
        ensures
            iterator@ == qtree@.effective_bodies(pos, theta as int),
    {
        let iterator = Self { pos, theta, sub_trees: vec![qtree] };
        proof {
            assert(iterator.stack() =~= seq![qtree@]);
            assert(iterator.stack().drop_last() =~= Seq::<Node>::empty());
            assert(stack_bodies(iterator.stack().drop_last(), pos, theta as int) =~= Seq::<
                Object,
            >::empty());
        }
        iterator
    }

    /// Returns the next Object that is needed to calculate the total force.
    /// The returned Object represents a center of mass or a single mass.
    pub fn next(&mut self) -> (next: Option<Object>)
        ensures
            old(self)@.len() == 0 ==> next is None && final(self)@.len() == 0,
            old(self)@.len() > 0 ==> next == Some(old(self)@[0]) && final(self)@ == old(
                self,
            )@.drop_first(),
    {
        while !self.sub_trees.is_empty()
            invariant
                self@ == old(self)@,
                self.pos == old(self).pos,
                self.theta == old(self).theta,
            decreases stack_size(self.stack()),
        {
            let ghost stack = self.stack();
            let sub_tree = self.sub_trees.pop().unwrap();
            let ghost rest = self.stack();
            proof {
                assert(rest =~= stack.drop_last());
                assert(stack.last() == sub_tree@);
                sub_tree.lemma_view();
            }

            if sub_tree.is_far(self.pos, self.theta) || sub_tree.is_leaf() {
                return Some(Object::new(sub_tree.x, sub_tree.y, sub_tree.m));
            }
            let mut i: usize = 0;
            while i < sub_tree.children.len()
                invariant
                    i <= sub_tree.children.len(),
                    self.pos == old(self).pos,
                    self.theta == old(self).theta,
                    self@ == sub_tree@.bodies_below(self.pos, self.theta as int, i as nat)
                        + stack_bodies(rest, self.pos, self.theta as int),
                    stack_size(self.stack()) == sub_tree@.size_below(i as nat) + stack_size(rest),
                decreases sub_tree.children.len() - i,
            {
                let ghost before = self.stack();
                proof {
                    sub_tree.lemma_view();
                }
                if let Some(child_tree) = &sub_tree.children[i] {
                    self.sub_trees.push(child_tree);
                    proof {
                        assert(self.stack().drop_last() =~= before);
                        assert(self.stack().last() == child_tree@);
                    }
                }
                i += 1;
            }
        }
        None
    }
}

} // verus!
