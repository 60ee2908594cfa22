//! What holds of every quadtree and of every traversal, proved from the model.
use vstd::prelude::*;

use crate::barnes_hut::canonical::{lemma_insert_all_canonical, lemma_tree_of_permutation};
use crate::barnes_hut::canonical::{lemma_tree_of_height, lemma_tree_of_totals, tree_of};
use crate::barnes_hut::leaves::{all_have_extent, bodies_of, is_leaf_of_one};
use crate::barnes_hut::leaves::{lemma_canonical_leaves, lemma_leaf_bodies};
use crate::barnes_hut::node::{bodies_reversed, coinciding, interacting, Node};
use crate::barnes_hut::node::{lemma_coinciding_push, lemma_interacting_push};
use crate::barnes_hut::{CellView, CELL_UNIT, THETA_UNIT};
use crate::base::sums::{lemma_filter_to_multiset, lemma_massive, lemma_massive_totals};
use crate::base::sums::{lemma_total_mass_positive, lemma_totals_permutation, lemma_totals_push};
use crate::base::sums::massive;
use crate::base::{lemma_total_mass_add, total_mass, total_moment_x, total_moment_y};
use crate::base::{Object, Vec2};

verus! {

/// Mass conservation: whatever the order of insertion, the mass at the root
/// of a tree built from `objects` is the sum of their masses. Bodies without
/// mass add nothing to that sum.
pub proof fn law_mass_conservation(objects: Seq<Object>, cell: CellView)
    ensures
        Node::empty(cell).insert_all(objects, cell).m == total_mass(objects),
        total_mass(objects) == total_mass(massive(objects)),
{
    lemma_insert_all_canonical(objects, cell);
    lemma_tree_of_totals(objects, cell);
    lemma_massive_totals(objects);
}

/// Center of mass: the first moments at the root of a tree built from
/// `objects` are the sums of mass times coordinate over all of them, and where
/// there is mass the root's position is their quotient by the total mass,
/// rounded down to the grid: the mass-weighted average of the positions.
pub proof fn law_center_of_mass(objects: Seq<Object>, cell: CellView)
    ensures
        ({
            let root = Node::empty(cell).insert_all(objects, cell);
            &&& root.moment_x == total_moment_x(objects)
            &&& root.moment_y == total_moment_y(objects)
            &&& root.m > 0 ==> root.x == total_moment_x(objects) / (total_mass(objects) as int)
            &&& root.m > 0 ==> root.y == total_moment_y(objects) / (total_mass(objects) as int)
        }),
{
    lemma_insert_all_canonical(objects, cell);
    lemma_tree_of_totals(objects, cell);
}

/// The sums that a tree holds are representable and consistent: a tree built
/// from objects whose masses fit a [`u64`](crate::base::Mass) between them is
/// well formed.
pub proof fn law_built_trees_are_well_formed(objects: Seq<Object>, cell: CellView)
    requires
        total_mass(objects) <= u64::MAX,
    ensures
        Node::empty(cell).insert_all(objects, cell).wf(),
{
    Node::lemma_leaf_wf(Node::empty(cell).x, Node::empty(cell).y, 0, cell);
    Node::empty(cell).lemma_insert_all(objects, cell);
}

/// A tree is no higher than its cell can be halved: a tree built over a cell
/// whose side fits a `u64` has at most 65 levels, whatever the bodies are.
pub proof fn law_built_trees_are_shallow(objects: Seq<Object>, cell: CellView)
    requires
        cell.size <= u64::MAX,
    ensures
        Node::empty(cell).insert_all(objects, cell).height() <= 65,
{
    lemma_insert_all_canonical(objects, cell);
    lemma_tree_of_height(objects, cell);
}

/// Order independence: two lists that hold the same bodies, each as often as
/// the other, build the same tree, in whatever order each list holds them.
/// The trees agree in every node, and so in every aggregate.
pub proof fn law_order_independence(a: Seq<Object>, b: Seq<Object>, cell: CellView)
    requires
        a.to_multiset() == b.to_multiset(),
    ensures
        Node::empty(cell).insert_all(a, cell) == Node::empty(cell).insert_all(b, cell),
{
    lemma_insert_all_canonical(a, cell);
    lemma_insert_all_canonical(b, cell);
    lemma_tree_of_permutation(a, b, cell);
}

/// The tree that insertion builds is the tree of the bodies: the one that
/// has a leaf for a single body or for a cell without extent, and an inner
/// node with a child for each occupied quadrant wherever two or more bodies
/// share a cell with extent.
pub proof fn law_insertion_builds_the_tree(objects: Seq<Object>, cell: CellView)
    ensures
        Node::empty(cell).insert_all(objects, cell) == tree_of(objects, cell),
{
    lemma_insert_all_canonical(objects, cell);
}

/// One insertion into the tree of `objects` gives the tree of `objects` and
/// the inserted one.
pub proof fn law_insertion_keeps_the_tree(objects: Seq<Object>, object: Object, cell: CellView)
    ensures
        tree_of(objects, cell).insert(object.x as int, object.y as int, object.m as nat, cell)
            == tree_of(objects.push(object), cell),
{
    lemma_insert_all_canonical(objects, cell);
    lemma_insert_all_canonical(objects.push(object), cell);
    assert(objects.push(object).drop_last() =~= objects);
}

/// Leaf invariant: a tree without mass is the empty leaf, and it is built
/// exactly when no body has mass. In any other tree every leaf holds mass,
/// and every leaf whose cell has extent is the leaf of one body: it has that
/// body's position and mass. Only in a cell without extent, which cannot be
/// divided, a leaf may hold several bodies as one.
pub proof fn law_leaf_invariant(objects: Seq<Object>, cell: CellView)
    ensures
        ({
            let tree = Node::empty(cell).insert_all(objects, cell);
            &&& tree.m == 0 <==> massive(objects).len() == 0
            &&& tree.m == 0 ==> tree == Node::empty(cell)
            &&& tree.m > 0 ==> forall|i: int|
                0 <= i < tree.leaves().len() ==> is_leaf_of_one(
                    #[trigger] tree.leaves()[i],
                    massive(objects),
                )
        }),
{
    lemma_insert_all_canonical(objects, cell);
    lemma_massive(objects);
    if massive(objects).len() > 0 {
        lemma_total_mass_positive(massive(objects));
        lemma_canonical_leaves(massive(objects), cell);
    }
}

/// Leaf invariant, body by body: where every leaf of a tree built from
/// `objects` lies in a cell with extent, the leaves are the bodies with mass.
/// Each such body has a leaf of its own, with its position and its mass, and
/// there is no other leaf.
pub proof fn law_leaves_are_the_bodies(objects: Seq<Object>, cell: CellView)
    requires
        massive(objects).len() > 0,
        all_have_extent(Node::empty(cell).insert_all(objects, cell).leaves()),
    ensures
        bodies_of(Node::empty(cell).insert_all(objects, cell).leaves()).to_multiset() == massive(
            objects,
        ).to_multiset(),
{
    lemma_insert_all_canonical(objects, cell);
    lemma_massive(objects);
    lemma_leaf_bodies(massive(objects), cell);
}

/// Zero-mass exclusion: inserting a body without mass leaves the tree as it
/// was, node for node.
pub proof fn law_zero_mass_exclusion(tree: Node, x: int, y: int, cell: CellView)
    ensures
        tree.insert(x, y, 0, cell) == tree,
{
}

/// Accuracy monotonicity: as the accuracy parameter decreases toward zero,
/// the number of bodies that a traversal yields grows or stays equal.
pub proof fn law_theta_monotonicity(tree: Node, pos: Vec2, finer: int, coarser: int)
    requires
        0 <= finer <= coarser,
    ensures
        tree.effective_bodies(pos, finer).len() >= tree.effective_bodies(pos, coarser).len(),
{
    lemma_theta_monotone(tree, pos, finer, coarser);
}

/// A traversal is finite: it yields at least one body and no more bodies
/// than the tree has nodes.
pub proof fn law_traversal_is_bounded(tree: Node, pos: Vec2, theta: int)
    ensures
        1 <= tree.effective_bodies(pos, theta).len() <= tree.size(),
{
    lemma_yields_some(tree, pos, theta);
    lemma_yields_at_most(tree, pos, theta);
}

/// Traversal totality: whatever the accuracy, the bodies that a traversal of
/// a well-formed tree yields carry the whole mass of the tree between them:
/// nothing beneath the root is counted twice and nothing is left out.
pub proof fn law_traversal_mass(tree: Node, pos: Vec2, theta: int)
    requires
        tree.wf(),
    ensures
        total_mass(tree.effective_bodies(pos, theta)) == tree.m,
{
    lemma_effective_mass(tree, pos, theta);
}

/// Traversal totality, for the force on one body: the bodies that exert a
/// force on a body at `pos` carry the mass of the whole tree less the mass
/// that the traversal finds exactly at `pos`.
pub proof fn law_traversal_totality(tree: Node, pos: Vec2, theta: int)
    requires
        tree.wf(),
    ensures
        total_mass(interacting(tree.effective_bodies(pos, theta), pos)) == tree.m - total_mass(
            coinciding(tree.effective_bodies(pos, theta), pos),
        ),
{
    lemma_effective_mass(tree, pos, theta);
    lemma_mass_split(tree.effective_bodies(pos, theta), pos);
}

/// Traversal totality, for a body of the tree: where the only body that the
/// traversal finds at the position of `object` is `object` itself, the bodies
/// that exert a force on it carry the mass of the whole tree less its own.
pub proof fn law_traversal_excludes_self(tree: Node, object: Object, theta: int)
    requires
        tree.wf(),
        coinciding(tree.effective_bodies(object.pos(), theta), object.pos()) == seq![object],
    ensures
        total_mass(interacting(tree.effective_bodies(object.pos(), theta), object.pos()))
            == tree.m - object.m,
{
    law_traversal_totality(tree, object.pos(), theta);
    assert(seq![object].drop_last() =~= Seq::<Object>::empty());
    assert(total_mass(seq![object]) == object.m) by {
        reveal_with_fuel(total_mass, 2);
    }
}

/// Exact expansion: with an accuracy of zero a traversal descends to the
/// leaves. It yields the body of every leaf once, the leaves beneath the
/// last quadrant first, and nothing else.
pub proof fn law_exact_expansion(tree: Node, pos: Vec2)
    ensures
        tree.effective_bodies(pos, 0) == bodies_reversed(tree.leaves()),
{
    lemma_exact_expansion(tree, pos);
}

/// Traversal totality, for a body of the tree and an exact expansion: with
/// an accuracy of zero, in a tree whose leaves all lie in cells with extent,
/// the bodies that exert a force on a body of the tree, which has mass and
/// shares its position with no other body that has, carry the mass of all
/// bodies less its own. No body is counted twice, and none but the body
/// itself is left out.
pub proof fn law_exact_traversal_excludes_only_self(
    objects: Seq<Object>,
    cell: CellView,
    i: int,
)
    requires
        0 <= i < objects.len(),
        objects[i].m > 0,
        forall|j: int|
            0 <= j < objects.len() && j != i && (#[trigger] objects[j]).m > 0 ==> !objects[j].is_at(
                objects[i].pos(),
            ),
        total_mass(objects) <= u64::MAX,
        all_have_extent(Node::empty(cell).insert_all(objects, cell).leaves()),
    ensures
        total_mass(
            interacting(
                Node::empty(cell).insert_all(objects, cell).effective_bodies(objects[i].pos(), 0),
                objects[i].pos(),
            ),
        ) == total_mass(objects) - objects[i].m,
{
    let tree = Node::empty(cell).insert_all(objects, cell);
    let pos = objects[i].pos();
    let yielded = tree.effective_bodies(pos, 0);
    law_built_trees_are_well_formed(objects, cell);
    law_mass_conservation(objects, cell);
    law_traversal_totality(tree, pos, 0);
    lemma_exact_expansion(tree, pos);
    lemma_massive(objects);
    assert(massive(objects).len() > 0) by {
        lemma_massive_totals(objects);
        lemma_alone_at_its_position(objects, i);
        if massive(objects).len() == 0 {
            assert(massive(objects) =~= Seq::<Object>::empty());
            assert(coinciding(massive(objects), pos) =~= Seq::<Object>::empty()) by {
                reveal_with_fuel(Seq::filter, 1);
            }
        }
    }
    law_leaves_are_the_bodies(objects, cell);
    // What the traversal yields is the bodies of the leaves, the other way round.
    assert(yielded =~= bodies_of(tree.leaves()).reverse());
    bodies_of(tree.leaves()).lemma_reverse_to_multiset();
    assert(yielded.to_multiset() == massive(objects).to_multiset());
    let at = |body: Object| body.is_at(pos);
    lemma_filter_to_multiset(yielded, at);
    lemma_filter_to_multiset(massive(objects), at);
    assert(coinciding(yielded, pos).to_multiset() == coinciding(
        massive(objects),
        pos,
    ).to_multiset());
    lemma_totals_permutation(coinciding(yielded, pos), coinciding(massive(objects), pos));
    lemma_alone_at_its_position(objects, i);
}

/// The mass beneath the first `n` slots of a node.
spec fn mass_below(node: Node, n: nat) -> nat
    decreases n,
{
    if n == 0 {
        0
    } else {
        mass_below(node, (n - 1) as nat) + node.slot_mass(n - 1)
    }
}

/// What a node of a well-formed tree yields carries the node's mass.
proof fn lemma_effective_mass(tree: Node, pos: Vec2, theta: int)
    requires
        tree.wf(),
    ensures
        total_mass(tree.effective_bodies(pos, theta)) == tree.m,
    decreases tree, tree.children.len() + 1,
{
    if tree.accepts(pos, theta) || tree.is_leaf() {
        assert(seq![tree.body()].drop_last() =~= Seq::<Object>::empty());
        assert(total_mass(seq![tree.body()]) == tree.m) by {
            reveal_with_fuel(total_mass, 2);
        }
    } else {
        lemma_mass_below(tree, pos, theta, tree.children.len());
        reveal_with_fuel(mass_below, 5);
    }
}

/// What the first `n` slots of a node yield carries the mass beneath them.
proof fn lemma_mass_below(tree: Node, pos: Vec2, theta: int, n: nat)
    requires
        tree.wf(),
        n <= tree.children.len(),
    ensures
        total_mass(tree.bodies_below(pos, theta, n)) == mass_below(tree, n),
    decreases tree, n,
{
    if n > 0 {
        lemma_mass_below(tree, pos, theta, (n - 1) as nat);
        if tree.children[n - 1] is Some {
            let child = tree.children[n - 1]->0;
            lemma_effective_mass(child, pos, theta);
            lemma_total_mass_add(
                child.effective_bodies(pos, theta),
                tree.bodies_below(pos, theta, (n - 1) as nat),
            );
        }
    }
}

/// The bodies at a position and the bodies away from it share the mass of all.
proof fn lemma_mass_split(bodies: Seq<Object>, pos: Vec2)
    ensures
        total_mass(interacting(bodies, pos)) + total_mass(coinciding(bodies, pos)) == total_mass(
            bodies,
        ),
    decreases bodies.len(),
{
    reveal_with_fuel(Seq::filter, 2);
    if bodies.len() > 0 {
        lemma_mass_split(bodies.drop_last(), pos);
        let kept = interacting(bodies.drop_last(), pos);
        let left = coinciding(bodies.drop_last(), pos);
        assert(kept.push(bodies.last()).drop_last() =~= kept);
        assert(left.push(bodies.last()).drop_last() =~= left);
    }
}

/// With an accuracy of zero no node is far enough.
proof fn lemma_zero_accepts_nothing(tree: Node, pos: Vec2)
    ensures
        !tree.accepts(pos, 0),
{
    let side = tree.cell.size * THETA_UNIT;
    let dx = tree.x - pos.x;
    let dy = tree.y - pos.y;
    assert(side * side >= 0) by (nonlinear_arith);
    assert((0int * 0int) * (dx * dx + dy * dy) * (CELL_UNIT * CELL_UNIT) == 0)
        by (nonlinear_arith);
}

/// With an accuracy of zero a tree yields the bodies of its leaves.
proof fn lemma_exact_expansion(tree: Node, pos: Vec2)
    ensures
        tree.effective_bodies(pos, 0) == bodies_reversed(tree.leaves()),
    decreases tree, tree.children.len() + 1,
{
    lemma_zero_accepts_nothing(tree, pos);
    if tree.is_leaf() {
        assert(tree.effective_bodies(pos, 0) =~= bodies_reversed(tree.leaves()));
    } else {
        lemma_exact_expansion_below(tree, pos, tree.children.len());
    }
}

/// With an accuracy of zero the first `n` slots yield the bodies of the
/// leaves beneath them.
proof fn lemma_exact_expansion_below(tree: Node, pos: Vec2, n: nat)
    requires
        n <= tree.children.len(),
    ensures
        tree.bodies_below(pos, 0, n) == bodies_reversed(tree.leaves_below(n)),
    decreases tree, n,
{
    if n == 0 {
        assert(tree.bodies_below(pos, 0, n) =~= bodies_reversed(tree.leaves_below(n)));
    } else {
        lemma_exact_expansion_below(tree, pos, (n - 1) as nat);
        if tree.children[n - 1] is Some {
            let child = tree.children[n - 1]->0;
            lemma_exact_expansion(child, pos);
            assert(bodies_reversed(tree.leaves_below((n - 1) as nat) + child.leaves())
                =~= bodies_reversed(child.leaves()) + bodies_reversed(
                tree.leaves_below((n - 1) as nat),
            ));
        }
    }
}

/// A node that is far enough for one accuracy is far enough for every
/// coarser one.
proof fn lemma_accepts_monotone(tree: Node, pos: Vec2, finer: int, coarser: int)
    requires
        0 <= finer <= coarser,
        tree.accepts(pos, finer),
    ensures
        tree.accepts(pos, coarser),
{
    let dx = tree.x - pos.x;
    let dy = tree.y - pos.y;
    let d = dx * dx + dy * dy;
    assert(d >= 0) by (nonlinear_arith)
        requires
            d == dx * dx + dy * dy,
    ;
    assert((finer * finer) * d * (CELL_UNIT * CELL_UNIT) <= (coarser * coarser) * d * (CELL_UNIT
        * CELL_UNIT)) by (nonlinear_arith)
        requires
            0 <= finer <= coarser,
            d >= 0,
            CELL_UNIT > 0,
    ;
}

/// Every tree yields at least one body.
proof fn lemma_yields_some(tree: Node, pos: Vec2, theta: int)
    ensures
        tree.effective_bodies(pos, theta).len() >= 1,
    decreases tree, tree.children.len() + 1,
{
    if !(tree.accepts(pos, theta) || tree.is_leaf()) {
        let i = choose|i: int| 0 <= i < tree.children.len() && tree.children[i] is Some;
        lemma_yields_some_below(tree, pos, theta, tree.children.len(), i);
    }
}

/// The first `n` slots yield at least one body if one of them holds a child.
proof fn lemma_yields_some_below(tree: Node, pos: Vec2, theta: int, n: nat, i: int)
    requires
        0 <= i < n <= tree.children.len(),
        tree.children[i] is Some,
    ensures
        tree.bodies_below(pos, theta, n).len() >= 1,
    decreases tree, n,
{
    if i == n - 1 {
        lemma_yields_some(tree.children[i]->0, pos, theta);
    } else {
        lemma_yields_some_below(tree, pos, theta, (n - 1) as nat, i);
    }
}

/// A tree yields no more bodies than it has nodes.
proof fn lemma_yields_at_most(tree: Node, pos: Vec2, theta: int)
    ensures
        tree.effective_bodies(pos, theta).len() <= tree.size(),
    decreases tree, tree.children.len() + 1,
{
    if !(tree.accepts(pos, theta) || tree.is_leaf()) {
        lemma_yields_at_most_below(tree, pos, theta, tree.children.len());
    }
}

/// The first `n` slots yield no more bodies than there are nodes beneath them.
proof fn lemma_yields_at_most_below(tree: Node, pos: Vec2, theta: int, n: nat)
    requires
        n <= tree.children.len(),
    ensures
        tree.bodies_below(pos, theta, n).len() <= tree.size_below(n),
    decreases tree, n,
{
    if n > 0 {
        lemma_yields_at_most_below(tree, pos, theta, (n - 1) as nat);
        if tree.children[n - 1] is Some {
            lemma_yields_at_most(tree.children[n - 1]->0, pos, theta);
        }
    }
}

/// A finer accuracy yields at least as many bodies as a coarser one.
proof fn lemma_theta_monotone(tree: Node, pos: Vec2, finer: int, coarser: int)
    requires
        0 <= finer <= coarser,
    ensures
        tree.effective_bodies(pos, finer).len() >= tree.effective_bodies(pos, coarser).len(),
    decreases tree, tree.children.len() + 1,
{
    if tree.is_leaf() {
    } else if tree.accepts(pos, finer) {
        lemma_accepts_monotone(tree, pos, finer, coarser);
    } else if tree.accepts(pos, coarser) {
        lemma_yields_some(tree, pos, finer);
    } else {
        lemma_theta_monotone_below(tree, pos, finer, coarser, tree.children.len());
    }
}

/// A finer accuracy yields at least as many bodies beneath the first `n`
/// slots as a coarser one.
proof fn lemma_theta_monotone_below(tree: Node, pos: Vec2, finer: int, coarser: int, n: nat)
    requires
        0 <= finer <= coarser,
        n <= tree.children.len(),
    ensures
        tree.bodies_below(pos, finer, n).len() >= tree.bodies_below(pos, coarser, n).len(),
    decreases tree, n,
{
    if n > 0 {
        lemma_theta_monotone_below(tree, pos, finer, coarser, (n - 1) as nat);
        if tree.children[n - 1] is Some {
            lemma_theta_monotone(tree.children[n - 1]->0, pos, finer, coarser);
        }
    }
}

/// The position of `objects[i]`, or the origin where `i` is `-1`.
spec fn pos_of(objects: Seq<Object>, i: int) -> Vec2 {
    if 0 <= i < objects.len() {
        objects[i].pos()
    } else {
        Vec2 { x: 0, y: 0 }
    }
}

/// Where no body with mass lies at `pos`, the bodies with mass at `pos` weigh nothing.
proof fn lemma_none_at(objects: Seq<Object>, pos: Vec2)
    requires
        forall|j: int|
            0 <= j < objects.len() && (#[trigger] objects[j]).m > 0 ==> !objects[j].is_at(pos),
    ensures
        total_mass(coinciding(massive(objects), pos)) == 0,
    decreases objects.len(),
{
    lemma_massive(objects);
    if objects.len() == 0 {
        assert(massive(objects) =~= Seq::<Object>::empty());
        assert(coinciding(massive(objects), pos) =~= Seq::<Object>::empty()) by {
            reveal_with_fuel(Seq::filter, 1);
        }
    } else {
        lemma_none_at(objects.drop_last(), pos);
        if objects.last().m > 0 {
            lemma_coinciding_push(massive(objects.drop_last()), objects.last(), pos);
        }
    }
}

/// Where `objects[i]` has mass and no other body with mass lies where it
/// lies, the bodies with mass at its position weigh what it weighs.
proof fn lemma_alone_at_its_position(objects: Seq<Object>, i: int)
    requires
        0 <= i < objects.len() || i == -1,
        i >= 0 ==> objects[i].m > 0,
        forall|j: int|
            0 <= j < objects.len() && j != i && (#[trigger] objects[j]).m > 0 ==> !objects[j].is_at(
                pos_of(objects, i),
            ),
    ensures
        total_mass(coinciding(massive(objects), pos_of(objects, i))) == if i >= 0 {
            objects[i].m as nat
        } else {
            0
        },
    decreases objects.len(),
{
    let pos = pos_of(objects, i);
    lemma_massive(objects);
    if objects.len() == 0 {
        assert(massive(objects) =~= Seq::<Object>::empty());
        assert(coinciding(massive(objects), pos) =~= Seq::<Object>::empty()) by {
            reveal_with_fuel(Seq::filter, 1);
        }
    } else {
        let last = objects.last();
        let before = objects.drop_last();
        if i == objects.len() - 1 {
            assert(pos_of(before, -1) == Vec2 { x: 0, y: 0 });
            lemma_none_at(before, pos);
            lemma_coinciding_push(massive(before), last, pos);
            lemma_totals_push(coinciding(massive(before), pos), last);
        } else {
            assert(pos_of(before, i) == pos);
            lemma_alone_at_its_position(before, i);
            if last.m > 0 {
                lemma_coinciding_push(massive(before), last, pos);
            }
        }
    }
}

} // verus!
