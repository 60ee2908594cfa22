//! The tree that a collection of bodies has, whatever the order in which they
//! were inserted.
use vstd::prelude::*;

use crate::barnes_hut::node::Node;
use crate::barnes_hut::CellView;
use crate::base::sums::{all_massive, lemma_filter_to_multiset, lemma_massive};
use crate::base::sums::{lemma_massive_totals, lemma_total_mass_positive, lemma_totals_permutation};
use crate::base::sums::{lemma_totals_push, massive};
use crate::base::{total_mass, total_moment_x, total_moment_y, Object};

verus! {

/// Of `objects`, those that lie in `quadrant` of `cell`, in their order.
pub open spec fn in_quadrant(objects: Seq<Object>, cell: CellView, quadrant: int) -> Seq<Object> {
    objects.filter(|object: Object| cell.quadrant(object.x as int, object.y as int) == quadrant)
}

/// The tree over `cell` for `objects`, all of which have mass.
///
/// Every node holds the sums of the objects that reached it. A node that one
/// object reached is a leaf, and so is a node whose cell has no extent,
/// however many reached it. Any other node has a child for each quadrant of
/// its cell in which one of its objects lies.
pub open spec fn canonical(objects: Seq<Object>, cell: CellView) -> Node
    recommends
        objects.len() > 0,
        all_massive(objects),
    decreases cell.size,
{
    let m = total_mass(objects);
    let moment_x = total_moment_x(objects);
    let moment_y = total_moment_y(objects);
    Node {
        x: moment_x / (m as int),
        y: moment_y / (m as int),
        m,
        moment_x,
        moment_y,
        children: Seq::new(
            4,
            |quadrant: int|
                if objects.len() >= 2 && cell.size > 0 && in_quadrant(
                    objects,
                    cell,
                    quadrant,
                ).len() > 0 {
                    Some(canonical(in_quadrant(objects, cell, quadrant), cell.child(quadrant)))
                } else {
                    None
                },
        ),
        cell,
    }
}

/// The tree over `cell` for `objects`: the empty tree where none of them has
/// mass, and else the tree for those that have.
pub open spec fn tree_of(objects: Seq<Object>, cell: CellView) -> Node {
    if massive(objects).len() == 0 {
        Node::empty(cell)
    } else {
        canonical(massive(objects), cell)
    }
}

/// One more object joins the objects of its own quadrant and of no other.
pub proof fn lemma_in_quadrant_push(
    objects: Seq<Object>,
    object: Object,
    cell: CellView,
    quadrant: int,
)
    ensures
        in_quadrant(objects.push(object), cell, quadrant) == if cell.quadrant(
            object.x as int,
            object.y as int,
        ) == quadrant {
            in_quadrant(objects, cell, quadrant).push(object)
        } else {
            in_quadrant(objects, cell, quadrant)
        },
{
    reveal_with_fuel(Seq::filter, 2);
    assert(objects.push(object).drop_last() =~= objects);
}

/// The objects of a quadrant are among the objects.
pub proof fn lemma_in_quadrant_massive(objects: Seq<Object>, cell: CellView, quadrant: int)
    requires
        all_massive(objects),
    ensures
        all_massive(in_quadrant(objects, cell, quadrant)),
        in_quadrant(objects, cell, quadrant).len() <= objects.len(),
    decreases objects.len(),
{
    reveal_with_fuel(Seq::filter, 2);
    if objects.len() > 0 {
        lemma_in_quadrant_massive(objects.drop_last(), cell, quadrant);
        assert(objects.last().m > 0);
    }
}

/// An object lies in the quadrant of its position.
pub proof fn lemma_in_quadrant_holds(
    objects: Seq<Object>,
    cell: CellView,
    i: int,
)
    requires
        0 <= i < objects.len(),
    ensures
        in_quadrant(objects, cell, cell.quadrant(objects[i].x as int, objects[i].y as int)).len()
            > 0,
    decreases objects.len(),
{
    reveal_with_fuel(Seq::filter, 2);
    if i < objects.len() - 1 {
        lemma_in_quadrant_holds(objects.drop_last(), cell, i);
    }
}

/// The tree for one object is its leaf.
pub proof fn lemma_canonical_single(object: Object, cell: CellView)
    requires
        object.m > 0,
    ensures
        canonical(seq![object], cell) == Node::leaf(
            object.x as int,
            object.y as int,
            object.m as nat,
            cell,
        ),
{
    let objects = seq![object];
    assert(objects.drop_last() =~= Seq::<Object>::empty());
    reveal_with_fuel(total_mass, 2);
    reveal_with_fuel(total_moment_x, 2);
    reveal_with_fuel(total_moment_y, 2);
    let m = object.m as int;
    let x = object.x as int;
    let y = object.y as int;
    assert((m * x) / m == x && (m * y) / m == y) by (nonlinear_arith)
        requires
            m > 0,
    ;
    assert(canonical(objects, cell).children =~= Node::leaf(x, y, object.m as nat, cell).children);
}

/// The slots of the tree for `objects`: a child for each quadrant in which
/// one of at least two objects lies, if the cell has extent.
pub proof fn lemma_canonical_slots(objects: Seq<Object>, cell: CellView)
    ensures
        canonical(objects, cell).children.len() == 4,
        forall|q: int|
            0 <= q < 4 ==> #[trigger] canonical(objects, cell).children[q] == (if objects.len() >= 2
                && cell.size > 0 && in_quadrant(objects, cell, q).len() > 0 {
                Some(canonical(in_quadrant(objects, cell, q), cell.child(q)))
            } else {
                None
            }),
{
}

/// The root of the tree for `objects` holds their sums, and lies at their
/// center of mass.
pub proof fn lemma_canonical_sums(objects: Seq<Object>, cell: CellView)
    ensures
        canonical(objects, cell).m == total_mass(objects),
        canonical(objects, cell).moment_x == total_moment_x(objects),
        canonical(objects, cell).moment_y == total_moment_y(objects),
        canonical(objects, cell).x == total_moment_x(objects) / (total_mass(objects) as int),
        canonical(objects, cell).y == total_moment_y(objects) / (total_mass(objects) as int),
        canonical(objects, cell).cell == cell,
{
}

/// Placing one more body into the tree for `objects` gives the tree for all
/// of them.
pub proof fn lemma_place_canonical(objects: Seq<Object>, object: Object, cell: CellView)
    requires
        objects.len() > 0,
        all_massive(objects),
        object.m > 0,
    ensures
        canonical(objects, cell).place(
            object.x as int,
            object.y as int,
            object.m as nat,
            cell,
        ) == canonical(objects.push(object), cell),
    decreases cell.size,
{
    let x = object.x as int;
    let y = object.y as int;
    let m = object.m as nat;
    let tree = canonical(objects, cell);
    let all = objects.push(object);
    let goal = canonical(all, cell);
    let quadrant = cell.quadrant(x, y);
    let merged = tree.update_com(x, y, m);
    lemma_totals_push(objects, object);
    lemma_total_mass_positive(objects);
    lemma_canonical_slots(objects, cell);
    lemma_canonical_slots(all, cell);
    lemma_canonical_sums(objects, cell);
    lemma_canonical_sums(all, cell);
    assert forall|q: int| 0 <= q < 4 implies #[trigger] in_quadrant(all, cell, q) == (if quadrant
        == q {
        in_quadrant(objects, cell, q).push(object)
    } else {
        in_quadrant(objects, cell, q)
    }) by {
        lemma_in_quadrant_push(objects, object, cell, q);
    }
    assert(merged.m == goal.m);
    assert(merged.x == goal.x);
    assert(merged.y == goal.y);
    if objects.len() == 1 || cell.size == 0 {
        assert(tree.is_leaf());
        assert(!tree.has_child(quadrant));
        let placed = tree.split(x, y, m, cell);
        if cell.size == 0 {
            assert(placed.children =~= goal.children);
        } else {
            let other = objects[0];
            assert(objects =~= seq![other]);
            lemma_canonical_single(other, cell);
            let quadrant2 = cell.quadrant(tree.x, tree.y);
            assert(quadrant2 == cell.quadrant(other.x as int, other.y as int));
            assert forall|q: int| 0 <= q < 4 implies #[trigger] in_quadrant(objects, cell, q) == (
            if quadrant2 == q {
                objects
            } else {
                Seq::<Object>::empty()
            }) by {
                lemma_in_quadrant_push(Seq::<Object>::empty(), other, cell, q);
                assert(Seq::<Object>::empty().push(other) =~= objects);
                assert(in_quadrant(Seq::<Object>::empty(), cell, q) =~= Seq::<Object>::empty())
                    by {
                    reveal_with_fuel(Seq::filter, 1);
                }
            }
            if quadrant == quadrant2 {
                let below = cell.child(quadrant);
                lemma_canonical_single(other, below);
                assert(tree.as_leaf_of(below) == canonical(objects, below)) by {
                    assert(tree.as_leaf_of(below).children =~= canonical(
                        objects,
                        below,
                    ).children);
                }
                lemma_place_canonical(objects, object, below);
                lemma_canonical_slots(objects, below);
                assert(canonical(objects, below).is_leaf());
                assert(!canonical(objects, below).has_child(below.quadrant(x, y)));
                assert(placed.children =~= goal.children);
            } else {
                lemma_canonical_single(other, cell.child(quadrant2));
                lemma_canonical_single(object, cell.child(quadrant));
                assert(Seq::<Object>::empty().push(object) =~= seq![object]);
                assert(tree.as_leaf_of(cell.child(quadrant2)) == canonical(
                    objects,
                    cell.child(quadrant2),
                )) by {
                    assert(tree.as_leaf_of(cell.child(quadrant2)).children =~= canonical(
                        objects,
                        cell.child(quadrant2),
                    ).children);
                }
                assert(placed.children =~= goal.children);
            }
        }
    } else {
        lemma_in_quadrant_holds(objects, cell, 0);
        let first = cell.quadrant(objects[0].x as int, objects[0].y as int);
        assert(tree.children[first] is Some);
        assert(!tree.is_leaf());
        if tree.has_child(quadrant) {
            let part = in_quadrant(objects, cell, quadrant);
            lemma_in_quadrant_massive(objects, cell, quadrant);
            lemma_place_canonical(part, object, cell.child(quadrant));
            let placed = tree.place(x, y, m, cell);
            assert(placed.children =~= goal.children);
        } else {
            lemma_canonical_single(object, cell.child(quadrant));
            assert(Seq::<Object>::empty().push(object) =~= seq![object]);
            assert(in_quadrant(objects, cell, quadrant) =~= Seq::<Object>::empty());
            let placed = tree.place(x, y, m, cell);
            assert(placed.children =~= goal.children);
        }
    }
}

/// The tree of objects holds their sums at its root.
pub proof fn lemma_tree_of_totals(objects: Seq<Object>, cell: CellView)
    ensures
        tree_of(objects, cell).m == total_mass(objects),
        tree_of(objects, cell).moment_x == total_moment_x(objects),
        tree_of(objects, cell).moment_y == total_moment_y(objects),
        total_mass(objects) > 0 ==> tree_of(objects, cell).x == total_moment_x(objects) / (
        total_mass(objects) as int),
        total_mass(objects) > 0 ==> tree_of(objects, cell).y == total_moment_y(objects) / (
        total_mass(objects) as int),
{
    lemma_massive_totals(objects);
    if massive(objects).len() == 0 {
        assert(massive(objects) =~= Seq::<Object>::empty());
    }
}

/// A tree that was built by inserting `objects` one after the other into an
/// empty tree is the tree of `objects`.
pub proof fn lemma_insert_all_canonical(objects: Seq<Object>, cell: CellView)
    ensures
        Node::empty(cell).insert_all(objects, cell) == tree_of(objects, cell),
    decreases objects.len(),
{
    lemma_massive(objects);
    if objects.len() > 0 {
        let last = objects.last();
        let before = objects.drop_last();
        lemma_insert_all_canonical(before, cell);
        lemma_massive(before);
        let tree = tree_of(before, cell);
        if last.m == 0 {
        } else if massive(before).len() == 0 {
            lemma_canonical_single(last, cell);
            assert(massive(before).push(last) =~= seq![last]);
            let grown = tree.insert(last.x as int, last.y as int, last.m as nat, cell);
            assert(grown.children =~= canonical(seq![last], cell).children);
        } else {
            lemma_total_mass_positive(massive(before));
            lemma_place_canonical(massive(before), last, cell);
        }
    }
}

/// The tree of a list of objects is the tree of every rearrangement of it.
pub proof fn lemma_canonical_permutation(a: Seq<Object>, b: Seq<Object>, cell: CellView)
    requires
        a.to_multiset() == b.to_multiset(),
    ensures
        canonical(a, cell) == canonical(b, cell),
    decreases cell.size,
{
    lemma_totals_permutation(a, b);
    lemma_canonical_slots(a, cell);
    lemma_canonical_slots(b, cell);
    assert forall|q: int| 0 <= q < 4 implies #[trigger] canonical(a, cell).children[q]
        == canonical(b, cell).children[q] by {
        let pred = |object: Object| cell.quadrant(object.x as int, object.y as int) == q;
        lemma_filter_to_multiset(a, pred);
        lemma_filter_to_multiset(b, pred);
        assert(in_quadrant(a, cell, q).to_multiset() == in_quadrant(b, cell, q).to_multiset());
        lemma_totals_permutation(in_quadrant(a, cell, q), in_quadrant(b, cell, q));
        if a.len() >= 2 && cell.size > 0 {
            lemma_canonical_permutation(
                in_quadrant(a, cell, q),
                in_quadrant(b, cell, q),
                cell.child(q),
            );
        }
    }
    assert(canonical(a, cell).children =~= canonical(b, cell).children);
}

/// The tree of a list of objects is the tree of every rearrangement of it.
pub proof fn lemma_tree_of_permutation(a: Seq<Object>, b: Seq<Object>, cell: CellView)
    requires
        a.to_multiset() == b.to_multiset(),
    ensures
        tree_of(a, cell) == tree_of(b, cell),
{
    let pred = |object: Object| object.m > 0;
    lemma_filter_to_multiset(a, pred);
    lemma_filter_to_multiset(b, pred);
    assert(massive(a).to_multiset() == massive(b).to_multiset());
    lemma_totals_permutation(massive(a), massive(b));
    lemma_canonical_permutation(massive(a), massive(b), cell);
}

/// How many nodes lie at most on a way down from a node whose cell has a
/// side of `size`: one for the node, and those below a cell of half the side,
/// as long as there is a side to halve.
pub open spec fn levels(size: nat) -> nat
    decreases size,
{
    if size == 0 {
        1
    } else {
        1 + levels(size / 2)
    }
}

/// One, doubled `levels` times.
pub open spec fn doubled(levels: nat) -> nat
    decreases levels,
{
    if levels == 0 {
        1
    } else {
        2 * doubled((levels - 1) as nat)
    }
}

/// A side that `n` doublings of one exceed is halved away in `n` steps.
pub proof fn lemma_levels_bound(size: nat, n: nat)
    requires
        size < doubled(n),
    ensures
        levels(size) <= n + 1,
    decreases n,
{
    if size > 0 {
        lemma_levels_bound(size / 2, (n - 1) as nat);
    }
}

/// No cell is halved more than 64 times.
pub proof fn lemma_levels_of_cell(size: nat)
    requires
        size <= u64::MAX,
    ensures
        levels(size) <= 65,
{
    reveal_with_fuel(doubled, 65);
    assert(doubled(64) == 0x1_0000_0000_0000_0000);
    lemma_levels_bound(size, 64);
}

/// Where no child in the first `n` slots is higher than `bound`, neither is
/// the highest of them.
pub proof fn lemma_height_below_bound(tree: Node, n: nat, bound: nat)
    requires
        n <= tree.children.len(),
        forall|i: int|
            0 <= i < n && (#[trigger] tree.children[i]) is Some ==> tree.children[i]->0.height()
                <= bound,
    ensures
        tree.height_below(n) <= bound,
    decreases n,
{
    if n > 0 {
        lemma_height_below_bound(tree, (n - 1) as nat, bound);
    }
}

/// The tree of objects is no higher than its cell can be halved.
pub proof fn lemma_canonical_height(objects: Seq<Object>, cell: CellView)
    ensures
        canonical(objects, cell).height() <= levels(cell.size),
    decreases cell.size,
{
    let tree = canonical(objects, cell);
    lemma_canonical_slots(objects, cell);
    if objects.len() >= 2 && cell.size > 0 {
        assert forall|i: int| 0 <= i < 4 && (#[trigger] tree.children[i]) is Some implies tree.children[i]->0.height()
            <= levels(cell.size / 2) by {
            lemma_canonical_height(in_quadrant(objects, cell, i), cell.child(i));
        }
        lemma_height_below_bound(tree, 4, levels(cell.size / 2));
    } else {
        lemma_height_below_bound(tree, 4, 0);
    }
}

/// The tree of objects over a cell has at most 65 levels.
pub proof fn lemma_tree_of_height(objects: Seq<Object>, cell: CellView)
    requires
        cell.size <= u64::MAX,
    ensures
        tree_of(objects, cell).height() <= 65,
{
    lemma_levels_of_cell(cell.size);
    if massive(objects).len() == 0 {
        lemma_height_below_bound(Node::empty(cell), 4, 0);
    } else {
        lemma_canonical_height(massive(objects), cell);
    }
}

} // verus!
