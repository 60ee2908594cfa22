//! Sums and extrema over a list of objects, and what rearranging the list
//! leaves as it is.
use vstd::multiset::group_multiset_axioms;
use vstd::prelude::*;
use vstd::seq_lib::{group_to_multiset_ensures, to_multiset_build, to_multiset_len};
use vstd::seq_lib::to_multiset_remove;

use crate::base::Object;

verus! {

broadcast use {group_multiset_axioms, group_to_multiset_ensures};

/// The sum of the masses of `objects`.
pub open spec fn total_mass(objects: Seq<Object>) -> nat
    decreases objects.len(),
{
    if objects.len() == 0 {
        0
    } else {
        total_mass(objects.drop_last()) + objects.last().m as nat
    }
}

/// The first moment of `objects` about the y axis: the sum of mass times x.
pub open spec fn total_moment_x(objects: Seq<Object>) -> int
    decreases objects.len(),
{
    if objects.len() == 0 {
        0
    } else {
        total_moment_x(objects.drop_last()) + objects.last().m * objects.last().x
    }
}

/// The first moment of `objects` about the x axis: the sum of mass times y.
pub open spec fn total_moment_y(objects: Seq<Object>) -> int
    decreases objects.len(),
{
    if objects.len() == 0 {
        0
    } else {
        total_moment_y(objects.drop_last()) + objects.last().m * objects.last().y
    }
}

/// The smallest x coordinate among `objects`, which must not be empty.
pub open spec fn min_x(objects: Seq<Object>) -> int
    recommends
        objects.len() > 0,
    decreases objects.len(),
{
    if objects.len() <= 1 {
        objects[0].x as int
    } else if objects.last().x < min_x(objects.drop_last()) {
        objects.last().x as int
    } else {
        min_x(objects.drop_last())
    }
}

/// The largest x coordinate among `objects`, which must not be empty.
pub open spec fn max_x(objects: Seq<Object>) -> int
    recommends
        objects.len() > 0,
    decreases objects.len(),
{
    if objects.len() <= 1 {
        objects[0].x as int
    } else if objects.last().x > max_x(objects.drop_last()) {
        objects.last().x as int
    } else {
        max_x(objects.drop_last())
    }
}

/// The smallest y coordinate among `objects`, which must not be empty.
pub open spec fn min_y(objects: Seq<Object>) -> int
    recommends
        objects.len() > 0,
    decreases objects.len(),
{
    if objects.len() <= 1 {
        objects[0].y as int
    } else if objects.last().y < min_y(objects.drop_last()) {
        objects.last().y as int
    } else {
        min_y(objects.drop_last())
    }
}

/// The largest y coordinate among `objects`, which must not be empty.
pub open spec fn max_y(objects: Seq<Object>) -> int
    recommends
        objects.len() > 0,
    decreases objects.len(),
{
    if objects.len() <= 1 {
        objects[0].y as int
    } else if objects.last().y > max_y(objects.drop_last()) {
        objects.last().y as int
    } else {
        max_y(objects.drop_last())
    }
}

/// Of `objects`, those that have mass, in their order.
pub open spec fn massive(objects: Seq<Object>) -> Seq<Object> {
    objects.filter(|object: Object| object.m > 0)
}

/// Whether every one of `objects` has mass.
pub open spec fn all_massive(objects: Seq<Object>) -> bool {
    forall|i: int| 0 <= i < objects.len() ==> (#[trigger] objects[i]).m > 0
}

/// The masses of a part of the objects sum to no more than those of all.
pub proof fn lemma_total_mass_prefix(objects: Seq<Object>, n: int)
    requires
        0 <= n <= objects.len(),
    ensures
        total_mass(objects.take(n)) <= total_mass(objects),
        n < objects.len() ==> total_mass(objects.take(n + 1)) == total_mass(objects.take(n))
            + objects[n].m,
    decreases objects.len() - n,
{
    if n < objects.len() {
        assert(objects.take(n + 1).drop_last() =~= objects.take(n));
        lemma_total_mass_prefix(objects, n + 1);
    } else {
        assert(objects.take(n) =~= objects);
    }
}

/// The masses of two lists sum to the mass of the joined list.
pub proof fn lemma_total_mass_add(a: Seq<Object>, b: Seq<Object>)
    ensures
        total_mass(a + b) == total_mass(a) + total_mass(b),
    decreases b.len(),
{
    if b.len() == 0 {
        assert(a + b =~= a);
    } else {
        assert((a + b).drop_last() =~= a + b.drop_last());
        lemma_total_mass_add(a, b.drop_last());
    }
}

/// The sums of a list with one more object.
pub proof fn lemma_totals_push(objects: Seq<Object>, object: Object)
    ensures
        total_mass(objects.push(object)) == total_mass(objects) + object.m,
        total_moment_x(objects.push(object)) == total_moment_x(objects) + object.m * object.x,
        total_moment_y(objects.push(object)) == total_moment_y(objects) + object.m * object.y,
{
    assert(objects.push(object).drop_last() =~= objects);
}

/// Objects with mass have mass between them.
pub proof fn lemma_total_mass_positive(objects: Seq<Object>)
    requires
        objects.len() > 0,
        all_massive(objects),
    ensures
        total_mass(objects) > 0,
{
    assert(objects.last().m > 0);
}

/// Those of `objects` that have mass have mass, and the last of `objects`
/// is the last of them or is left out.
pub proof fn lemma_massive(objects: Seq<Object>)
    ensures
        all_massive(massive(objects)),
        objects.len() > 0 ==> massive(objects) == if objects.last().m > 0 {
            massive(objects.drop_last()).push(objects.last())
        } else {
            massive(objects.drop_last())
        },
        objects.len() == 0 ==> massive(objects).len() == 0,
    decreases objects.len(),
{
    reveal_with_fuel(Seq::filter, 2);
    if objects.len() > 0 {
        lemma_massive(objects.drop_last());
    }
}

/// Objects without mass add nothing to the sums.
pub proof fn lemma_massive_totals(objects: Seq<Object>)
    ensures
        total_mass(massive(objects)) == total_mass(objects),
        total_moment_x(massive(objects)) == total_moment_x(objects),
        total_moment_y(massive(objects)) == total_moment_y(objects),
    decreases objects.len(),
{
    lemma_massive(objects);
    if objects.len() > 0 {
        lemma_massive_totals(objects.drop_last());
        let last = objects.last();
        if last.m > 0 {
            lemma_totals_push(massive(objects.drop_last()), last);
        } else {
            assert(last.m * last.x == 0 && last.m * last.y == 0) by (nonlinear_arith)
                requires
                    last.m == 0,
            ;
        }
    } else {
        assert(massive(objects) =~= objects);
    }
}

/// Leaving one object out lowers the sums by what it held.
pub proof fn lemma_totals_remove(objects: Seq<Object>, i: int)
    requires
        0 <= i < objects.len(),
    ensures
        total_mass(objects) == total_mass(objects.remove(i)) + objects[i].m,
        total_moment_x(objects) == total_moment_x(objects.remove(i)) + objects[i].m
            * objects[i].x,
        total_moment_y(objects) == total_moment_y(objects.remove(i)) + objects[i].m
            * objects[i].y,
    decreases objects.len(),
{
    if i == objects.len() - 1 {
        assert(objects.remove(i) =~= objects.drop_last());
    } else {
        lemma_totals_remove(objects.drop_last(), i);
        assert(objects.remove(i).drop_last() =~= objects.drop_last().remove(i));
        assert(objects.remove(i).last() == objects.last());
    }
}

/// The sums of a list are those of every rearrangement of it.
pub proof fn lemma_totals_permutation(a: Seq<Object>, b: Seq<Object>)
    requires
        a.to_multiset() == b.to_multiset(),
    ensures
        a.len() == b.len(),
        total_mass(a) == total_mass(b),
        total_moment_x(a) == total_moment_x(b),
        total_moment_y(a) == total_moment_y(b),
    decreases a.len(),
{
    to_multiset_len(a);
    to_multiset_len(b);
    if a.len() > 0 {
        let last = a.last();
        assert(a.to_multiset().count(last) > 0);
        assert(b.contains(last));
        let i = choose|i: int| 0 <= i < b.len() && b[i] == last;
        to_multiset_remove(b, i);
        to_multiset_remove(a, a.len() - 1);
        assert(a.remove(a.len() - 1) =~= a.drop_last());
        lemma_totals_remove(b, i);
        lemma_totals_permutation(a.drop_last(), b.remove(i));
    }
}

/// The selected objects of a list, as a collection, are the selected ones of
/// the collection of all.
pub proof fn lemma_filter_to_multiset(objects: Seq<Object>, pred: spec_fn(Object) -> bool)
    ensures
        objects.filter(pred).to_multiset() =~= objects.to_multiset().filter(pred),
    decreases objects.len(),
{
    reveal_with_fuel(Seq::filter, 2);
    if objects.len() == 0 {
    } else {
        let before = objects.drop_last();
        let last = objects.last();
        lemma_filter_to_multiset(before, pred);
        assert(objects =~= before.push(last));
        to_multiset_build(before, last);
        if pred(last) {
            to_multiset_build(before.filter(pred), last);
        }
    }
}

} // verus!
