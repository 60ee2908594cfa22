//! The mathematical model of a quadtree: what a tree is, what it means to
//! insert a body into it, and which bodies a traversal yields.
use vstd::prelude::*;

use crate::barnes_hut::{CellView, CELL_UNIT, THETA_UNIT};
use crate::base::{max_x, max_y, min_x, min_y, total_mass, total_moment_x, total_moment_y};
use crate::base::{Object, Vec2};

verus! {

/// A node of a quadtree together with everything beneath it.
///
/// `x` and `y` are the position that the node shows to a traversal. `m` is
/// the total mass beneath the node, and `moment_x`, `moment_y` are the exact
/// first moments (the sums of mass times coordinate) of that mass.
pub struct Node {
    pub x: int,
    pub y: int,
    pub m: nat,
    pub moment_x: int,
    pub moment_y: int,
    pub children: Seq<Option<Node>>,
    pub cell: CellView,
}

/// The grid coordinate nearest to `v`.
pub open spec fn clamp_to_grid(v: int) -> int {
    if v < i32::MIN {
        i32::MIN as int
    } else if v > i32::MAX {
        i32::MAX as int
    } else {
        v
    }
}

/// The grid coordinate at or below the cell coordinate `v`, as far as the grid
/// reaches.
pub open spec fn grid_corner(v: int) -> int {
    clamp_to_grid(v / (CELL_UNIT as int))
}

/// The cell that a tree for `objects` is based on: its corner is the smallest
/// x and the smallest y among them, and its side is the largest coordinate
/// of either axis less the smallest of either axis.
///
/// The cell holds every object only where the two axes span alike: it is the
/// base of the subdivision, not a bounding box.
pub open spec fn tree_box(objects: Seq<Object>) -> CellView
    recommends
        objects.len() > 0,
{
    let largest = if max_x(objects) >= max_y(objects) {
        max_x(objects)
    } else {
        max_y(objects)
    };
    let smallest = if min_x(objects) <= min_y(objects) {
        min_x(objects)
    } else {
        min_y(objects)
    };
    CellView::on_grid(min_x(objects), min_y(objects), (largest - smallest) as nat)
}

/// One node as a walk over the tree meets it: the node's aggregate, its cell,
/// and its depth beneath the node at which the walk began.
pub struct Visit {
    pub x: int,
    pub y: int,
    pub m: nat,
    pub cell: CellView,
    pub level: nat,
}

impl Node {
    /// The tree without any body that covers `cell`. Its position is the cell's
    /// corner, as far as the grid reaches.
    pub open spec fn empty(cell: CellView) -> Node {
        Node::leaf(grid_corner(cell.x), grid_corner(cell.y), 0, cell)
    }

    /// A node without children that stands for one body, or for nothing if `m` is zero.
    pub open spec fn leaf(x: int, y: int, m: nat, cell: CellView) -> Node {
        Node {
            x,
            y,
            m,
            moment_x: m * x,
            moment_y: m * y,
            children: Seq::new(4, |i: int| None),
            cell,
        }
    }

    /// A node is a leaf when none of its slots holds a child.
    pub open spec fn is_leaf(self) -> bool {
        forall|i: int| 0 <= i < self.children.len() ==> (#[trigger] self.children[i]) is None
    }

    /// Whether the slot of `quadrant` holds a child.
    pub open spec fn has_child(self, quadrant: int) -> bool {
        0 <= quadrant < self.children.len() && self.children[quadrant] is Some
    }

    /// The mass beneath the child in `quadrant`, zero if there is none.
    pub open spec fn slot_mass(self, quadrant: int) -> nat {
        if self.has_child(quadrant) {
            self.children[quadrant]->0.m
        } else {
            0
        }
    }

    /// The first moment in x beneath the child in `quadrant`, zero if there is none.
    pub open spec fn slot_moment_x(self, quadrant: int) -> int {
        if self.has_child(quadrant) {
            self.children[quadrant]->0.moment_x
        } else {
            0
        }
    }

    /// The first moment in y beneath the child in `quadrant`, zero if there is none.
    pub open spec fn slot_moment_y(self, quadrant: int) -> int {
        if self.has_child(quadrant) {
            self.children[quadrant]->0.moment_y
        } else {
            0
        }
    }

    /// The node as a body: its position and its mass.
    pub open spec fn body(self) -> Object {
        Object { x: self.x as i32, y: self.y as i32, m: self.m as u64 }
    }

    /// The node's own fields are those of a representable aggregate: four slots,
    /// a mass that fits, moments that a mass of this size on the grid can have,
    /// and, where there is mass, a position that is the center of mass rounded
    /// down to the grid.
    pub open spec fn aggregate_ok(self) -> bool {
        &&& self.children.len() == 4
        &&& self.m <= u64::MAX
        &&& i32::MIN <= self.x <= i32::MAX
        &&& i32::MIN <= self.y <= i32::MAX
        &&& i32::MIN * self.m <= self.moment_x <= i32::MAX * self.m
        &&& i32::MIN * self.m <= self.moment_y <= i32::MAX * self.m
        &&& self.m > 0 ==> self.x == self.moment_x / (self.m as int)
        &&& self.m > 0 ==> self.y == self.moment_y / (self.m as int)
    }

    /// A node with children holds exactly the sum of what its children hold.
    pub open spec fn sums_children(self) -> bool {
        !self.is_leaf() ==> {
            &&& self.m == self.slot_mass(0) + self.slot_mass(1) + self.slot_mass(2)
                + self.slot_mass(3)
            &&& self.moment_x == self.slot_moment_x(0) + self.slot_moment_x(1)
                + self.slot_moment_x(2) + self.slot_moment_x(3)
            &&& self.moment_y == self.slot_moment_y(0) + self.slot_moment_y(1)
                + self.slot_moment_y(2) + self.slot_moment_y(3)
        }
    }

    /// The tree is well formed: every node is a representable aggregate, every
    /// node with children is the sum of its children, and no child is empty.
    pub open spec fn wf(self) -> bool
        decreases self,
    {
        &&& self.aggregate_ok()
        &&& self.sums_children()
        &&& forall|i: int|
            0 <= i < self.children.len() ==> (#[trigger] self.children[i]) is Some ==> {
                &&& self.children[i]->0.m > 0
                &&& self.children[i]->0.wf()
            }
    }

    /// The node after a body of mass `m` at `(x, y)` was added to its aggregate:
    /// mass and moments grow by the body's, and the position becomes the new
    /// center of mass, rounded down to the grid.
    pub open spec fn update_com(self, x: int, y: int, m: nat) -> Node {
        let total = self.m + m;
        let moment_x = self.moment_x + m * x;
        let moment_y = self.moment_y + m * y;
        Node {
            x: if total > 0 { moment_x / (total as int) } else { self.x },
            y: if total > 0 { moment_y / (total as int) } else { self.y },
            m: total,
            moment_x,
            moment_y,
            ..self
        }
    }

    /// The node with `child` in the slot of `quadrant`.
    pub open spec fn with_child(self, quadrant: int, child: Node) -> Node {
        Node { children: self.children.update(quadrant, Some(child)), ..self }
    }

    /// The same aggregate as a leaf of `cell`.
    pub open spec fn as_leaf_of(self, cell: CellView) -> Node {
        Node { children: Seq::new(4, |i: int| None), cell, ..self }
    }

    /// A leaf that holds mass receives a further body.
    ///
    /// A cell of size zero cannot be divided: there the leaf takes the body into
    /// its aggregate and stays a leaf. Otherwise the leaf becomes an inner node
    /// for both. While both lie in the same quadrant, that quadrant gets a node
    /// for both, one level down; where they part, each gets a leaf of its own.
    pub open spec fn split(self, x: int, y: int, m: nat, cell: CellView) -> Node
        decreases cell.size,
    {
        let merged = self.update_com(x, y, m);
        let quadrant = cell.quadrant(x, y);
        let quadrant2 = cell.quadrant(self.x, self.y);
        if cell.size == 0 {
            merged
        } else if quadrant == quadrant2 {
            merged.with_child(
                quadrant,
                self.as_leaf_of(cell.child(quadrant)).split(x, y, m, cell.child(quadrant)),
            )
        } else {
            merged.with_child(quadrant2, self.as_leaf_of(cell.child(quadrant2))).with_child(
                quadrant,
                Node::leaf(x, y, m, cell.child(quadrant)),
            )
        }
    }

    /// A node that holds mass receives a body of mass `m > 0` at `(x, y)`;
    /// `cell` is the region that the node covers.
    ///
    /// The body joins the node's aggregate. Then it goes on to the child in its
    /// quadrant, if there is one; it splits the node, if the node is a leaf;
    /// and it becomes a new leaf in its quadrant otherwise.
    pub open spec fn place(self, x: int, y: int, m: nat, cell: CellView) -> Node
        decreases self,
    {
        let quadrant = cell.quadrant(x, y);
        if self.has_child(quadrant) {
            self.update_com(x, y, m).with_child(
                quadrant,
                self.children[quadrant]->0.place(x, y, m, cell.child(quadrant)),
            )
        } else if self.is_leaf() {
            self.split(x, y, m, cell)
        } else {
            self.update_com(x, y, m).with_child(
                quadrant,
                Node::leaf(x, y, m, cell.child(quadrant)),
            )
        }
    }

    /// The tree after the body of mass `m` at `(x, y)` was inserted at its root,
    /// which covers `cell`.
    ///
    /// A body without mass changes nothing. An empty root takes the body's
    /// position and mass. Any other root places the body beneath it.
    pub open spec fn insert(self, x: int, y: int, m: nat, cell: CellView) -> Node {
        if m == 0 {
            self
        } else if self.m == 0 {
            Node { x, y, m, moment_x: m * x, moment_y: m * y, ..self }
        } else {
            self.place(x, y, m, cell)
        }
    }

    /// The tree that `objects`, inserted in their order, make of this tree,
    /// whose root covers `cell`.
    pub open spec fn insert_all(self, objects: Seq<Object>, cell: CellView) -> Node
        decreases objects.len(),
    {
        if objects.len() == 0 {
            self
        } else {
            let last = objects.last();
            self.insert_all(objects.drop_last(), cell).insert(
                last.x as int,
                last.y as int,
                last.m as nat,
                cell,
            )
        }
    }

    /// Whether `(x, y)` is a point of the grid.
    pub open spec fn on_grid(x: int, y: int) -> bool {
        i32::MIN <= x <= i32::MAX && i32::MIN <= y <= i32::MAX
    }

    /// The accuracy criterion: seen from `pos`, the node is far enough to stand
    /// for everything beneath it when its cell's side, divided by the distance
    /// from `pos` to the node's position, is less than `theta / THETA_UNIT`.
    ///
    /// Both sides are multiplied out and squared, which keeps the comparison
    /// exact: the side is in cell units, the distance in grid units. At
    /// distance zero no node is far enough.
    pub open spec fn accepts(self, pos: Vec2, theta: int) -> bool {
        let dx = self.x - pos.x;
        let dy = self.y - pos.y;
        (self.cell.size * THETA_UNIT) * (self.cell.size * THETA_UNIT) < (theta * theta) * (dx * dx
            + dy * dy) * (CELL_UNIT * CELL_UNIT)
    }

    /// The bodies that stand for this tree in a traversal for `pos`, in the
    /// order in which the traversal yields them.
    ///
    /// A leaf, and a node that is far enough, stands for itself. Any other node
    /// is replaced by what its children yield, the child in the last slot first.
    pub open spec fn effective_bodies(self, pos: Vec2, theta: int) -> Seq<Object>
        decreases self, self.children.len() + 1,
    {
        if self.accepts(pos, theta) || self.is_leaf() {
            seq![self.body()]
        } else {
            self.bodies_below(pos, theta, self.children.len())
        }
    }

    /// What the children in the first `n` slots yield, the last of them first.
    pub open spec fn bodies_below(self, pos: Vec2, theta: int, n: nat) -> Seq<Object>
        decreases self, n,
    {
        if n == 0 || n > self.children.len() {
            Seq::empty()
        } else if self.children[n - 1] is Some {
            self.children[n - 1]->0.effective_bodies(pos, theta) + self.bodies_below(
                pos,
                theta,
                (n - 1) as nat,
            )
        } else {
            self.bodies_below(pos, theta, (n - 1) as nat)
        }
    }

    /// The number of nodes of the tree.
    pub open spec fn size(self) -> nat
        decreases self, self.children.len() + 1,
    {
        1 + self.size_below(self.children.len())
    }

    /// The number of nodes beneath the first `n` slots.
    pub open spec fn size_below(self, n: nat) -> nat
        decreases self, n,
    {
        if n == 0 || n > self.children.len() {
            0
        } else if self.children[n - 1] is Some {
            self.children[n - 1]->0.size() + self.size_below((n - 1) as nat)
        } else {
            self.size_below((n - 1) as nat)
        }
    }

    /// The leaves of the tree, those beneath the first slot first.
    pub open spec fn leaves(self) -> Seq<Node>
        decreases self, self.children.len() + 1,
    {
        if self.is_leaf() {
            seq![self]
        } else {
            self.leaves_below(self.children.len())
        }
    }

    /// The leaves beneath the first `n` slots, those beneath the first slot first.
    pub open spec fn leaves_below(self, n: nat) -> Seq<Node>
        decreases self, n,
    {
        if n == 0 || n > self.children.len() {
            Seq::empty()
        } else if self.children[n - 1] is Some {
            self.leaves_below((n - 1) as nat) + self.children[n - 1]->0.leaves()
        } else {
            self.leaves_below((n - 1) as nat)
        }
    }

    /// The node as a walk meets it at depth `level`.
    pub open spec fn visit(self, level: nat) -> Visit {
        Visit { x: self.x, y: self.y, m: self.m, cell: self.cell, level }
    }

    /// Every node of the tree, each before its children and the children by
    /// their slots, with the depth at which it lies if this node lies at `level`.
    pub open spec fn preorder(self, level: nat) -> Seq<Visit>
        decreases self, self.children.len() + 1,
    {
        seq![self.visit(level)] + self.preorder_below(level, self.children.len())
    }

    /// The nodes beneath the first `n` slots, in the order of `preorder`.
    pub open spec fn preorder_below(self, level: nat, n: nat) -> Seq<Visit>
        decreases self, n,
    {
        if n == 0 || n > self.children.len() {
            Seq::empty()
        } else if self.children[n - 1] is Some {
            self.preorder_below(level, (n - 1) as nat) + self.children[n - 1]->0.preorder(
                level + 1,
            )
        } else {
            self.preorder_below(level, (n - 1) as nat)
        }
    }

    /// The number of nodes on the longest way from this node down to a leaf.
    pub open spec fn height(self) -> nat
        decreases self, self.children.len() + 1,
    {
        1 + self.height_below(self.children.len())
    }

    /// The largest height among the children in the first `n` slots.
    pub open spec fn height_below(self, n: nat) -> nat
        decreases self, n,
    {
        if n == 0 || n > self.children.len() {
            0
        } else if self.children[n - 1] is Some && self.children[n - 1]->0.height()
            > self.height_below((n - 1) as nat) {
            self.children[n - 1]->0.height()
        } else {
            self.height_below((n - 1) as nat)
        }
    }
}

/// What one body adds to the force on another, as far as whole numbers say
/// it: the vector `(rx, ry)` from the one acted on to the one acting, the
/// square of its length, and the product of the two masses. The force is the
/// interaction constant times `mass_product / |r|^3` times `r`.
pub struct ForceTerm {
    pub rx: int,
    pub ry: int,
    pub distance_squared: int,
    pub mass_product: int,
}

/// What `body` adds to the force on `on`.
pub open spec fn force_term(on: Object, body: Object) -> ForceTerm {
    ForceTerm {
        rx: body.x - on.x,
        ry: body.y - on.y,
        distance_squared: on.pos().spec_distance_squared(body.pos()),
        mass_product: on.m * body.m,
    }
}

/// What each of `bodies` adds to the force on `on`, in their order.
pub open spec fn force_terms(on: Object, bodies: Seq<Object>) -> Seq<ForceTerm> {
    Seq::new(bodies.len(), |i: int| force_term(on, bodies[i]))
}

/// Of `bodies`, those that do not lie exactly at `pos`, in their order. Only
/// these exert a force on a body at `pos`: at distance zero there is none.
pub open spec fn interacting(bodies: Seq<Object>, pos: Vec2) -> Seq<Object> {
    bodies.filter(|body: Object| !body.is_at(pos))
}

/// Of `bodies`, those that lie exactly at `pos`, in their order.
pub open spec fn coinciding(bodies: Seq<Object>, pos: Vec2) -> Seq<Object> {
    bodies.filter(|body: Object| body.is_at(pos))
}

/// The bodies of `nodes`, the last node first.
pub open spec fn bodies_reversed(nodes: Seq<Node>) -> Seq<Object> {
    Seq::new(nodes.len(), |i: int| nodes[nodes.len() - 1 - i].body())
}

/// None of the bodies that are kept lies at the position.
pub proof fn lemma_interacting_away(bodies: Seq<Object>, pos: Vec2, i: int)
    requires
        0 <= i < interacting(bodies, pos).len(),
    ensures
        !interacting(bodies, pos)[i].is_at(pos),
    decreases bodies.len(),
{
    reveal_with_fuel(Seq::filter, 2);
    if bodies.len() > 0 {
        if i < interacting(bodies.drop_last(), pos).len() {
            lemma_interacting_away(bodies.drop_last(), pos, i);
        }
    }
}

/// A further body is kept or left out by itself: what came before stays.
pub proof fn lemma_interacting_push(bodies: Seq<Object>, body: Object, pos: Vec2)
    ensures
        interacting(bodies.push(body), pos) == if body.is_at(pos) {
            interacting(bodies, pos)
        } else {
            interacting(bodies, pos).push(body)
        },
{
    reveal_with_fuel(Seq::filter, 2);
    assert(bodies.push(body).drop_last() =~= bodies);
}

/// A further body is counted at a position or not by itself: what came before stays.
pub proof fn lemma_coinciding_push(bodies: Seq<Object>, body: Object, pos: Vec2)
    ensures
        coinciding(bodies.push(body), pos) == if body.is_at(pos) {
            coinciding(bodies, pos).push(body)
        } else {
            coinciding(bodies, pos)
        },
{
    reveal_with_fuel(Seq::filter, 2);
    assert(bodies.push(body).drop_last() =~= bodies);
}

/// What a stack of trees still yields: the trees from the top of the stack down,
/// each by its effective bodies.
pub open spec fn stack_bodies(stack: Seq<Node>, pos: Vec2, theta: int) -> Seq<Object>
    decreases stack.len(),
{
    if stack.len() == 0 {
        Seq::empty()
    } else {
        stack.last().effective_bodies(pos, theta) + stack_bodies(stack.drop_last(), pos, theta)
    }
}

/// The number of nodes in all the trees of a stack.
pub open spec fn stack_size(stack: Seq<Node>) -> nat
    decreases stack.len(),
{
    if stack.len() == 0 {
        0
    } else {
        stack.last().size() + stack_size(stack.drop_last())
    }
}

/// What insertion keeps: the sums at every node stay exact and representable.
impl Node {
    /// Adding a body to a representable aggregate gives a representable
    /// aggregate, as long as the mass still fits.
    pub proof fn lemma_update_com(self, x: int, y: int, m: nat)
        requires
            self.aggregate_ok(),
            Node::on_grid(x, y),
            self.m + m <= u64::MAX,
        ensures
            self.update_com(x, y, m).aggregate_ok(),
    {
        let total = (self.m + m) as int;
        let moment_x = self.moment_x + m * x;
        let moment_y = self.moment_y + m * y;
        assert(i32::MIN * total <= moment_x <= i32::MAX * total) by (nonlinear_arith)
            requires
                i32::MIN * self.m <= self.moment_x <= i32::MAX * self.m,
                i32::MIN <= x <= i32::MAX,
                total == self.m + m,
                moment_x == self.moment_x + m * x,
        ;
        assert(i32::MIN * total <= moment_y <= i32::MAX * total) by (nonlinear_arith)
            requires
                i32::MIN * self.m <= self.moment_y <= i32::MAX * self.m,
                i32::MIN <= y <= i32::MAX,
                total == self.m + m,
                moment_y == self.moment_y + m * y,
        ;
        if total > 0 {
            Self::lemma_floor_in_range(moment_x, total);
            Self::lemma_floor_in_range(moment_y, total);
        }
    }

    /// The center of mass of a mass on the grid lies on the grid.
    pub proof fn lemma_floor_in_range(moment: int, total: int)
        requires
            total > 0,
            i32::MIN * total <= moment <= i32::MAX * total,
        ensures
            i32::MIN <= moment / total <= i32::MAX,
    {
        assert(i32::MIN <= moment / total <= i32::MAX) by (nonlinear_arith)
            requires
                total > 0,
                i32::MIN * total <= moment <= i32::MAX * total,
        ;
    }

    /// A leaf for one body is a well-formed tree.
    pub proof fn lemma_leaf_wf(x: int, y: int, m: nat, cell: CellView)
        requires
            Node::on_grid(x, y),
            m <= u64::MAX,
        ensures
            Node::leaf(x, y, m, cell).wf(),
    {
        assert(i32::MIN * m <= m * x <= i32::MAX * m) by (nonlinear_arith)
            requires
                i32::MIN <= x <= i32::MAX,
        ;
        assert(i32::MIN * m <= m * y <= i32::MAX * m) by (nonlinear_arith)
            requires
                i32::MIN <= y <= i32::MAX,
        ;
        assert(m > 0 ==> (m * x) / (m as int) == x && (m * y) / (m as int) == y)
            by (nonlinear_arith);
    }

    /// Splitting a leaf keeps the tree well formed and adds the body's mass and
    /// moments to the root.
    pub proof fn lemma_split(self, x: int, y: int, m: nat, cell: CellView)
        requires
            self.aggregate_ok(),
            self.is_leaf(),
            self.m > 0,
            m > 0,
            Node::on_grid(x, y),
            self.m + m <= u64::MAX,
        ensures
            self.split(x, y, m, cell).wf(),
            self.split(x, y, m, cell).m == self.m + m,
            self.split(x, y, m, cell).moment_x == self.moment_x + m * x,
            self.split(x, y, m, cell).moment_y == self.moment_y + m * y,
            self.split(x, y, m, cell).cell == self.cell,
        decreases cell.size,
    {
        let merged = self.update_com(x, y, m);
        let quadrant = cell.quadrant(x, y);
        let quadrant2 = cell.quadrant(self.x, self.y);
        self.lemma_update_com(x, y, m);
        if cell.size == 0 {
            assert(merged.is_leaf());
            assert(merged.wf());
        } else if quadrant == quadrant2 {
            let below = self.as_leaf_of(cell.child(quadrant));
            below.lemma_split(x, y, m, cell.child(quadrant));
            let child = below.split(x, y, m, cell.child(quadrant));
            let node = merged.with_child(quadrant, child);
            assert(node.children[quadrant] is Some);
            assert(forall|i: int| 0 <= i < 4 && i != quadrant ==> node.children[i] is None);
            assert(node.aggregate_ok());
            assert(node.sums_children());
            assert(node.wf());
        } else {
            let child2 = self.as_leaf_of(cell.child(quadrant2));
            let child = Node::leaf(x, y, m, cell.child(quadrant));
            Self::lemma_leaf_wf(x, y, m, cell.child(quadrant));
            let node = merged.with_child(quadrant2, child2).with_child(quadrant, child);
            assert(child2.is_leaf());
            assert(node.children[quadrant] is Some);
            assert(node.children[quadrant2] is Some);
            assert(forall|i: int|
                0 <= i < 4 && i != quadrant && i != quadrant2 ==> node.children[i] is None);
            assert(child2.wf());
            assert(node.aggregate_ok());
            assert(node.sums_children());
            assert(node.wf());
        }
    }

    /// In a well-formed tree no child is heavier than its parent.
    pub proof fn lemma_slot_mass_bound(self, quadrant: int)
        requires
            self.wf(),
        ensures
            self.slot_mass(quadrant) <= self.m,
    {
        if self.has_child(quadrant) {
            assert(self.children[quadrant] is Some);
        }
    }

    /// Placing a body keeps the tree well formed and adds the body's mass and
    /// moments to the root.
    pub proof fn lemma_place(self, x: int, y: int, m: nat, cell: CellView)
        requires
            self.wf(),
            self.m > 0,
            m > 0,
            Node::on_grid(x, y),
            self.m + m <= u64::MAX,
        ensures
            self.place(x, y, m, cell).wf(),
            self.place(x, y, m, cell).m == self.m + m,
            self.place(x, y, m, cell).moment_x == self.moment_x + m * x,
            self.place(x, y, m, cell).moment_y == self.moment_y + m * y,
            self.place(x, y, m, cell).cell == self.cell,
        decreases self,
    {
        let quadrant = cell.quadrant(x, y);
        let merged = self.update_com(x, y, m);
        self.lemma_update_com(x, y, m);
        if self.has_child(quadrant) {
            let child = self.children[quadrant]->0;
            self.lemma_slot_mass_bound(quadrant);
            child.lemma_place(x, y, m, cell.child(quadrant));
            let node = merged.with_child(quadrant, child.place(x, y, m, cell.child(quadrant)));
            assert(node.children[quadrant] is Some);
            assert(forall|i: int| 0 <= i < 4 && i != quadrant ==> node.children[i] == self.children[i]);
            assert(!self.is_leaf());
        } else if self.is_leaf() {
            self.lemma_split(x, y, m, cell);
        } else {
            Self::lemma_leaf_wf(x, y, m, cell.child(quadrant));
            let node = merged.with_child(quadrant, Node::leaf(x, y, m, cell.child(quadrant)));
            assert(node.children[quadrant] is Some);
            assert(forall|i: int| 0 <= i < 4 && i != quadrant ==> node.children[i] == self.children[i]);
        }
    }

    /// Inserting a body keeps the tree well formed and adds the body's mass and
    /// moments to the root.
    pub proof fn lemma_insert(self, x: int, y: int, m: nat, cell: CellView)
        requires
            self.wf(),
            Node::on_grid(x, y),
            self.m + m <= u64::MAX,
        ensures
            self.insert(x, y, m, cell).wf(),
            self.insert(x, y, m, cell).m == self.m + m,
            self.insert(x, y, m, cell).moment_x == self.moment_x + m * x,
            self.insert(x, y, m, cell).moment_y == self.moment_y + m * y,
            self.insert(x, y, m, cell).cell == self.cell,
    {
        if m == 0 {
        } else if self.m == 0 {
            let node = Node { x, y, m, moment_x: m * x, moment_y: m * y, ..self };
            Self::lemma_leaf_wf(x, y, m, self.cell);
            self.lemma_empty_is_leaf();
            assert(node.is_leaf());
        } else {
            self.lemma_place(x, y, m, cell);
        }
    }

    /// A well-formed tree without mass is a single leaf.
    pub proof fn lemma_empty_is_leaf(self)
        requires
            self.wf(),
            self.m == 0,
        ensures
            self.is_leaf(),
    {
        if !self.is_leaf() {
            let i = choose|i: int| 0 <= i < self.children.len() && self.children[i] is Some;
            assert(self.children[i]->0.m > 0);
            assert(self.slot_mass(i) > 0);
        }
    }

    /// Inserting bodies one after the other keeps the tree well formed and adds
    /// their masses and moments to the root.
    pub proof fn lemma_insert_all(self, objects: Seq<Object>, cell: CellView)
        requires
            self.wf(),
            self.m + total_mass(objects) <= u64::MAX,
        ensures
            self.insert_all(objects, cell).wf(),
            self.insert_all(objects, cell).m == self.m + total_mass(objects),
            self.insert_all(objects, cell).moment_x == self.moment_x + total_moment_x(objects),
            self.insert_all(objects, cell).moment_y == self.moment_y + total_moment_y(objects),
            self.insert_all(objects, cell).cell == self.cell,
        decreases objects.len(),
    {
        if objects.len() > 0 {
            let last = objects.last();
            self.lemma_insert_all(objects.drop_last(), cell);
            self.insert_all(objects.drop_last(), cell).lemma_insert(
                last.x as int,
                last.y as int,
                last.m as nat,
                cell,
            );
        }
    }

    /// No child in the first `n` slots is higher than `height_below(n)`.
    pub proof fn lemma_height_below(self, n: nat, i: int)
        requires
            0 <= i < n <= self.children.len(),
            self.children[i] is Some,
        ensures
            self.children[i]->0.height() <= self.height_below(n),
        decreases n,
    {
        if i < n - 1 {
            self.lemma_height_below((n - 1) as nat, i);
        }
    }
}

} // verus!
