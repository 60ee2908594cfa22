use gravity::barnes_hut::quadtree::NodeInfo;
use gravity::barnes_hut::{Cell, Quadtree};
use gravity::base::{Object, Vec2};

fn listed(tree: &Quadtree) -> Vec<(i32, i32, u64, Cell, usize)> {
    tree.nodes().iter().map(|n: &NodeInfo| (n.x, n.y, n.m, n.cell, n.level)).collect()
}

fn sample() -> Vec<Object> {
    vec![
        Object::new(0, 0, 4),
        Object::new(100, 0, 1),
        Object::new(3, 3, 0),
        Object::new(0, 100, 2),
        Object::new(100, 100, 3),
        Object::new(40, 60, 5),
        Object::new(40, 60, 6),
        Object::new(-7, 41, 9),
    ]
}

fn permutations(objects: &[Object]) -> Vec<Vec<Object>> {
    if objects.len() <= 1 {
        return vec![objects.to_vec()];
    }
    let mut all = Vec::new();
    for i in 0..objects.len() {
        let mut rest = objects.to_vec();
        let first = rest.remove(i);
        for mut tail in permutations(&rest) {
            tail.insert(0, first);
            all.push(tail);
        }
    }
    all
}

fn floor_div(a: i128, b: i128) -> i128 {
    a.div_euclid(b)
}

#[test]
fn the_root_holds_the_sum_of_all_masses() {
    let objects = sample();
    let cell = Quadtree::calc_tree_box(&objects);
    let tree = Quadtree::create_from_objects(objects.clone(), cell);
    let total: u64 = objects.iter().map(|o| o.m).sum();
    assert_eq!(total, 30);
    assert_eq!(tree.m(), 30);
}

#[test]
fn the_root_lies_at_the_weighted_average_of_all_positions() {
    let objects = sample();
    let cell = Quadtree::calc_tree_box(&objects);
    let tree = Quadtree::create_from_objects(objects.clone(), cell);
    let moment_x: i128 = objects.iter().map(|o| o.m as i128 * o.x as i128).sum();
    let moment_y: i128 = objects.iter().map(|o| o.m as i128 * o.y as i128).sum();
    assert_eq!((moment_x, moment_y), (777, 1529));
    assert_eq!((tree.moment_x(), tree.moment_y()), (777, 1529));
    assert_eq!((tree.x(), tree.y()), (25, 50));
    assert_eq!(tree.x() as i128, floor_div(moment_x, 30));
    assert_eq!(tree.y() as i128, floor_div(moment_y, 30));
}

#[test]
fn every_inner_node_holds_the_sums_of_its_children() {
    fn check(tree: &Quadtree) {
        if tree.is_leaf() {
            return;
        }
        let mut m = 0;
        let mut moment = (0, 0);
        for quadrant in 0..4 {
            if let Some(child) = tree.child(quadrant) {
                assert!(child.m() > 0);
                m += child.m();
                moment.0 += child.moment_x();
                moment.1 += child.moment_y();
                check(child);
            }
        }
        assert_eq!(tree.m(), m);
        assert_eq!((tree.moment_x(), tree.moment_y()), moment);
        assert_eq!(tree.x() as i128, floor_div(moment.0, m as i128));
        assert_eq!(tree.y() as i128, floor_div(moment.1, m as i128));
    }
    let objects = sample();
    let cell = Quadtree::calc_tree_box(&objects);
    check(&Quadtree::create_from_objects(objects, cell));
}

#[test]
fn every_order_of_insertion_builds_the_same_tree() {
    let objects = vec![
        Object::new(0, 0, 4),
        Object::new(100, 0, 1),
        Object::new(3, 3, 0),
        Object::new(40, 60, 5),
        Object::new(40, 60, 6),
        Object::new(-7, 41, 9),
    ];
    let cell = Quadtree::calc_tree_box(&objects);
    let expected = listed(&Quadtree::create_from_objects(objects.clone(), cell));
    let orders = permutations(&objects);
    assert_eq!(orders.len(), 720);
    for order in orders {
        let tree = Quadtree::create_from_objects(order, cell);
        assert_eq!(listed(&tree), expected);
    }
}

#[test]
fn a_leaf_with_mass_in_a_cell_with_extent_is_one_body() {
    let objects = sample();
    let cell = Quadtree::calc_tree_box(&objects);
    let tree = Quadtree::create_from_objects(objects.clone(), cell);
    let leaves = tree.get_leaves();
    assert_eq!(leaves.len(), 6);
    for leaf in &leaves {
        assert!(leaf.is_leaf());
        assert!(leaf.m() > 0);
        let body = Object::new(leaf.x(), leaf.y(), leaf.m());
        if leaf.cell().size() > 0 {
            assert_eq!(objects.iter().filter(|&&o| o == body).count(), 1);
        } else {
            // The two bodies at (40, 60), held as one.
            assert_eq!(body, Object::new(40, 60, 11));
        }
    }
}

#[test]
fn a_tree_without_mass_is_an_empty_leaf() {
    let cell = Cell::new(0, 0, 8);
    let massless = vec![Object::new(1, 1, 0), Object::new(6, 6, 0)];
    let tree = Quadtree::create_from_objects(massless, cell);
    assert!(tree.is_leaf());
    assert_eq!(tree.m(), 0);
    assert_eq!(listed(&tree), listed(&Quadtree::create_from_objects(Vec::new(), cell)));
}

#[test]
fn a_body_without_mass_never_adds_a_node() {
    let objects = sample();
    let cell = Quadtree::calc_tree_box(&objects);
    let with: Vec<Object> = objects.clone();
    let without: Vec<Object> = objects.iter().filter(|o| o.m > 0).cloned().collect();
    assert_eq!(without.len() + 1, with.len());
    assert_eq!(
        listed(&Quadtree::create_from_objects(with, cell)),
        listed(&Quadtree::create_from_objects(without, cell))
    );
}

#[test]
fn a_smaller_theta_never_yields_fewer_bodies() {
    let objects = sample();
    let cell = Quadtree::calc_tree_box(&objects);
    let tree = Quadtree::create_from_objects(objects.clone(), cell);
    let thetas = [0u16, 1, 100, 300, 512, 700, 1024, 1400, 2048, 3000, 10000, u16::MAX];
    for pos in [Vec2::new(0, 0), Vec2::new(40, 60), Vec2::new(25, 50), Vec2::new(-500, 900)] {
        let counts: Vec<usize> =
            thetas.iter().map(|&theta| tree.effective_bodies(pos, theta).len()).collect();
        for pair in counts.windows(2) {
            assert!(pair[0] >= pair[1]);
        }
        assert_eq!(counts[0], 6);
        assert!(counts[0] > counts[counts.len() - 1]);
    }
}

#[test]
fn the_yielded_bodies_carry_the_whole_mass_for_every_theta() {
    let objects = sample();
    let cell = Quadtree::calc_tree_box(&objects);
    let tree = Quadtree::create_from_objects(objects.clone(), cell);
    for theta in [0u16, 300, 700, 1024, 2048, u16::MAX] {
        for pos in [Vec2::new(0, 0), Vec2::new(40, 60), Vec2::new(-500, 900)] {
            let mass: u64 = tree.effective_bodies(pos, theta).iter().map(|b| b.m).sum();
            assert_eq!(mass, 30);
        }
    }
}

#[test]
fn with_theta_zero_the_traversal_yields_the_leaves() {
    let objects = sample();
    let cell = Quadtree::calc_tree_box(&objects);
    let tree = Quadtree::create_from_objects(objects.clone(), cell);
    let mut leaves: Vec<Object> =
        tree.get_leaves().iter().map(|l| Object::new(l.x(), l.y(), l.m())).collect();
    leaves.reverse();
    assert_eq!(tree.effective_bodies(Vec2::new(7, 7), 0), leaves);
}

#[test]
fn the_bodies_that_act_on_a_body_carry_all_mass_but_its_own() {
    let objects = sample();
    let cell = Quadtree::calc_tree_box(&objects);
    let tree = Quadtree::create_from_objects(objects.clone(), cell);
    for &on in &[objects[0], objects[1], objects[3], objects[7]] {
        let mass: u64 = tree.interacting_bodies(on, 0).iter().map(|b| b.m).sum();
        assert_eq!(mass, 30 - on.m);
    }
    // The two bodies at one point are held as one, and neither acts on the other.
    let mass: u64 = tree.interacting_bodies(objects[5], 0).iter().map(|b| b.m).sum();
    assert_eq!(mass, 30 - 11);
}
