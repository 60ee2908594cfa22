//! The leaves of the tree of a collection of bodies, and the bodies that they
//! stand for.
use vstd::multiset::{group_multiset_axioms, Multiset};
use vstd::prelude::*;
use vstd::seq_lib::{group_to_multiset_ensures, lemma_multiset_commutative};

use crate::barnes_hut::canonical::{canonical, in_quadrant, lemma_canonical_single};
use crate::barnes_hut::canonical::{lemma_canonical_slots, lemma_in_quadrant_holds};
use crate::barnes_hut::canonical::lemma_in_quadrant_massive;
use crate::barnes_hut::node::Node;
use crate::barnes_hut::CellView;
use crate::base::sums::{all_massive, lemma_filter_to_multiset, lemma_total_mass_positive};
use crate::base::Object;

verus! {

broadcast use {group_multiset_axioms, group_to_multiset_ensures};

/// Whether `leaf` holds mass and, where its cell has extent, is the leaf of one
/// of `objects`.
pub open spec fn is_leaf_of_one(leaf: Node, objects: Seq<Object>) -> bool {
    &&& leaf.m > 0
    &&& leaf.is_leaf()
    &&& leaf.cell.size > 0 ==> exists|j: int|
        0 <= j < objects.len() && leaf == Node::leaf(
            (#[trigger] objects[j]).x as int,
            objects[j].y as int,
            objects[j].m as nat,
            leaf.cell,
        )
}

/// The bodies of `nodes`, in their order.
pub open spec fn bodies_of(nodes: Seq<Node>) -> Seq<Object> {
    Seq::new(nodes.len(), |i: int| nodes[i].body())
}

/// Whether the cell of each of `nodes` has extent.
pub open spec fn all_have_extent(nodes: Seq<Node>) -> bool {
    forall|i: int| 0 <= i < nodes.len() ==> (#[trigger] nodes[i]).cell.size > 0
}

/// The objects of the first `n` quadrants of `cell`, as a collection.
pub open spec fn quadrants_below(objects: Seq<Object>, cell: CellView, n: nat) -> Multiset<Object>
    decreases n,
{
    if n == 0 {
        Multiset::empty()
    } else {
        quadrants_below(objects, cell, (n - 1) as nat).add(
            in_quadrant(objects, cell, n - 1).to_multiset(),
        )
    }
}

/// Each object of a quadrant is one of the objects.
pub proof fn lemma_in_quadrant_among(objects: Seq<Object>, cell: CellView, quadrant: int, j: int)
    requires
        0 <= j < in_quadrant(objects, cell, quadrant).len(),
    ensures
        exists|k: int|
            0 <= k < objects.len() && objects[k] == in_quadrant(objects, cell, quadrant)[j],
    decreases objects.len(),
{
    reveal_with_fuel(Seq::filter, 2);
    if objects.len() > 0 {
        let before = in_quadrant(objects.drop_last(), cell, quadrant);
        if j < before.len() {
            lemma_in_quadrant_among(objects.drop_last(), cell, quadrant, j);
            let k = choose|k: int|
                0 <= k < objects.drop_last().len() && objects.drop_last()[k] == before[j];
            assert(objects[k] == in_quadrant(objects, cell, quadrant)[j]);
        } else {
            assert(objects[objects.len() - 1] == in_quadrant(objects, cell, quadrant)[j]);
        }
    }
}

/// Every leaf beneath the first `n` slots of the tree of objects holds mass,
/// and where its cell has extent it is the leaf of one of the objects.
pub proof fn lemma_canonical_leaves_below(objects: Seq<Object>, cell: CellView, n: nat)
    requires
        objects.len() >= 2,
        cell.size > 0,
        all_massive(objects),
        n <= 4,
    ensures
        forall|i: int|
            0 <= i < canonical(objects, cell).leaves_below(n).len() ==> is_leaf_of_one(
                #[trigger] canonical(objects, cell).leaves_below(n)[i],
                objects,
            ),
    decreases cell.size, n,
{
    let tree = canonical(objects, cell);
    lemma_canonical_slots(objects, cell);
    if n > 0 {
        lemma_canonical_leaves_below(objects, cell, (n - 1) as nat);
        let q = n - 1;
        if tree.children[q] is Some {
            let part = in_quadrant(objects, cell, q);
            lemma_in_quadrant_massive(objects, cell, q);
            lemma_canonical_leaves(part, cell.child(q));
            let child = tree.children[q]->0;
            assert forall|i: int| 0 <= i < child.leaves().len() implies is_leaf_of_one(
                #[trigger] child.leaves()[i],
                objects,
            ) by {
                let leaf = child.leaves()[i];
                assert(is_leaf_of_one(leaf, part));
                if leaf.cell.size > 0 {
                    let j = choose|j: int|
                        0 <= j < part.len() && leaf == Node::leaf(
                            part[j].x as int,
                            part[j].y as int,
                            part[j].m as nat,
                            leaf.cell,
                        );
                    lemma_in_quadrant_among(objects, cell, q, j);
                    let k = choose|k: int| 0 <= k < objects.len() && objects[k] == part[j];
                    assert(leaf == Node::leaf(
                        objects[k].x as int,
                        objects[k].y as int,
                        objects[k].m as nat,
                        leaf.cell,
                    ));
                }
            }
            let before = tree.leaves_below((n - 1) as nat);
            assert(tree.leaves_below(n) == before + child.leaves());
            assert forall|i: int| 0 <= i < tree.leaves_below(n).len() implies is_leaf_of_one(
                #[trigger] tree.leaves_below(n)[i],
                objects,
            ) by {
                if i < before.len() {
                    assert(tree.leaves_below(n)[i] == before[i]);
                } else {
                    assert(tree.leaves_below(n)[i] == child.leaves()[i - before.len()]);
                }
            }
        } else {
            assert(tree.leaves_below(n) == tree.leaves_below((n - 1) as nat));
        }
    } else {
        assert(tree.leaves_below(n) =~= Seq::<Node>::empty());
    }
}

/// Every leaf of the tree of objects holds mass, and where its cell has extent
/// it is the leaf of one of the objects.
pub proof fn lemma_canonical_leaves(objects: Seq<Object>, cell: CellView)
    requires
        objects.len() >= 1,
        all_massive(objects),
    ensures
        forall|i: int|
            0 <= i < canonical(objects, cell).leaves().len() ==> is_leaf_of_one(
                #[trigger] canonical(objects, cell).leaves()[i],
                objects,
            ),
    decreases cell.size, 5nat,
{
    let tree = canonical(objects, cell);
    lemma_canonical_slots(objects, cell);
    lemma_total_mass_positive(objects);
    if objects.len() >= 2 && cell.size > 0 {
        lemma_in_quadrant_holds(objects, cell, 0);
        let first = cell.quadrant(objects[0].x as int, objects[0].y as int);
        assert(tree.children[first] is Some);
        assert(!tree.is_leaf());
        lemma_canonical_leaves_below(objects, cell, 4);
        assert(tree.leaves() == tree.leaves_below(4));
    } else {
        assert(tree.is_leaf());
        assert(tree.leaves() =~= seq![tree]);
        if cell.size > 0 {
            assert(objects =~= seq![objects[0]]);
            lemma_canonical_single(objects[0], cell);
            assert(tree == Node::leaf(
                objects[0].x as int,
                objects[0].y as int,
                objects[0].m as nat,
                tree.cell,
            ));
        }
        assert(is_leaf_of_one(tree, objects));
    }
}

/// Every object lies in one of the four quadrants, and in one only.
pub proof fn lemma_quadrants_partition(objects: Seq<Object>, cell: CellView)
    ensures
        quadrants_below(objects, cell, 4) =~= objects.to_multiset(),
{
    reveal_with_fuel(quadrants_below, 5);
    assert forall|q: int| 0 <= q < 4 implies #[trigger] in_quadrant(objects, cell, q).to_multiset()
        =~= objects.to_multiset().filter(
        |object: Object| cell.quadrant(object.x as int, object.y as int) == q,
    ) by {
        lemma_filter_to_multiset(
            objects,
            |object: Object| cell.quadrant(object.x as int, object.y as int) == q,
        );
    }
    assert forall|object: Object|
        quadrants_below(objects, cell, 4).count(object) == objects.to_multiset().count(
            object,
        ) by {
        let q = cell.quadrant(object.x as int, object.y as int);
        assert(0 <= q < 4);
        assert(in_quadrant(objects, cell, 0).to_multiset().count(object) == if q == 0 {
            objects.to_multiset().count(object)
        } else {
            0
        });
        assert(in_quadrant(objects, cell, 1).to_multiset().count(object) == if q == 1 {
            objects.to_multiset().count(object)
        } else {
            0
        });
        assert(in_quadrant(objects, cell, 2).to_multiset().count(object) == if q == 2 {
            objects.to_multiset().count(object)
        } else {
            0
        });
        assert(in_quadrant(objects, cell, 3).to_multiset().count(object) == if q == 3 {
            objects.to_multiset().count(object)
        } else {
            0
        });
    }
}

/// The bodies of two lists of nodes, one after the other.
pub proof fn lemma_bodies_of_add(a: Seq<Node>, b: Seq<Node>)
    ensures
        bodies_of(a + b) =~= bodies_of(a) + bodies_of(b),
        bodies_of(a + b).to_multiset() =~= bodies_of(a).to_multiset().add(
            bodies_of(b).to_multiset(),
        ),
{
    assert(bodies_of(a + b) =~= bodies_of(a) + bodies_of(b));
    lemma_multiset_commutative(bodies_of(a), bodies_of(b));
}

/// Where every leaf beneath the first `n` slots lies in a cell with extent,
/// the bodies of these leaves are the objects of the first `n` quadrants.
pub proof fn lemma_leaf_bodies_below(objects: Seq<Object>, cell: CellView, n: nat)
    requires
        objects.len() >= 2,
        cell.size > 0,
        all_massive(objects),
        n <= 4,
        all_have_extent(canonical(objects, cell).leaves_below(n)),
    ensures
        bodies_of(canonical(objects, cell).leaves_below(n)).to_multiset() =~= quadrants_below(
            objects,
            cell,
            n,
        ),
    decreases cell.size, n,
{
    let tree = canonical(objects, cell);
    lemma_canonical_slots(objects, cell);
    if n == 0 {
        assert(tree.leaves_below(n) =~= Seq::<Node>::empty());
        assert(bodies_of(tree.leaves_below(n)) =~= Seq::<Object>::empty());
    } else {
        let q = n - 1;
        let before = tree.leaves_below((n - 1) as nat);
        let part = in_quadrant(objects, cell, q);
        if tree.children[q] is Some {
            let child = tree.children[q]->0;
            assert(tree.leaves_below(n) == before + child.leaves());
            assert forall|i: int| 0 <= i < before.len() implies (#[trigger] before[i]).cell.size
                > 0 by {
                assert(tree.leaves_below(n)[i] == before[i]);
            }
            assert forall|i: int| 0 <= i < child.leaves().len() implies (
            #[trigger] child.leaves()[i]).cell.size > 0 by {
                assert(tree.leaves_below(n)[before.len() + i] == child.leaves()[i]);
            }
            lemma_leaf_bodies_below(objects, cell, (n - 1) as nat);
            lemma_in_quadrant_massive(objects, cell, q);
            lemma_leaf_bodies(part, cell.child(q));
            lemma_bodies_of_add(before, child.leaves());
        } else {
            assert(tree.leaves_below(n) == before);
            lemma_leaf_bodies_below(objects, cell, (n - 1) as nat);
            assert(part =~= Seq::<Object>::empty());
        }
    }
}

/// Where every leaf of the tree of objects lies in a cell with extent, the
/// bodies of the leaves are the objects: each object has one leaf, and each
/// leaf is one object.
pub proof fn lemma_leaf_bodies(objects: Seq<Object>, cell: CellView)
    requires
        objects.len() >= 1,
        all_massive(objects),
        all_have_extent(canonical(objects, cell).leaves()),
    ensures
        bodies_of(canonical(objects, cell).leaves()).to_multiset() =~= objects.to_multiset(),
    decreases cell.size, 5nat,
{
    let tree = canonical(objects, cell);
    lemma_canonical_slots(objects, cell);
    if objects.len() >= 2 && cell.size > 0 {
        lemma_in_quadrant_holds(objects, cell, 0);
        let first = cell.quadrant(objects[0].x as int, objects[0].y as int);
        assert(tree.children[first] is Some);
        assert(!tree.is_leaf());
        assert(tree.leaves() == tree.leaves_below(4));
        lemma_leaf_bodies_below(objects, cell, 4);
        lemma_quadrants_partition(objects, cell);
    } else {
        assert(tree.is_leaf());
        assert(tree.leaves() =~= seq![tree]);
        assert(tree.leaves()[0].cell.size > 0);
        assert(objects =~= seq![objects[0]]);
        lemma_canonical_single(objects[0], cell);
        assert(bodies_of(tree.leaves()) =~= objects);
    }
}

} // verus!
