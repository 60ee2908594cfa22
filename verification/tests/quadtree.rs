use gravity::barnes_hut::quadtree::NodeInfo;
use gravity::barnes_hut::{Cell, Quadtree};
use gravity::base::Object;

fn listed(tree: &Quadtree) -> Vec<(i32, i32, u64, Cell, usize)> {
    tree.nodes().iter().map(|n: &NodeInfo| (n.x, n.y, n.m, n.cell, n.level)).collect()
}

fn diagonal(values: &[i32]) -> Vec<Object> {
    values.iter().map(|&i| Object::new(i, i, 1)).collect()
}

#[test]
fn quadtree_test_tree_creation() {
    let mut objects = Vec::<Object>::new();
    for i in 1..10 {
        let object = Object::new(i, i, 1);
        objects.push(object);
    }
    objects.remove(4);

    let tree_box = Quadtree::calc_tree_box(&objects);
    let qtree = Quadtree::create_from_objects(objects.clone(), tree_box);

    println!("objects:\n");
    for object in objects {
        println!("{:?}\n", object);
    }
    println!("\nQuadtree ({:?}):\n{:?}", tree_box, qtree);

    assert_eq!(tree_box, Cell::new(1, 1, 8));
    assert_eq!(qtree.m(), 8);
    assert_eq!((qtree.x(), qtree.y()), (5, 5));
    assert_eq!(qtree.nodes().len(), 15);
    assert_eq!(qtree.get_leaves().len(), 8);
}

#[test]
fn the_tree_box_starts_at_the_smallest_coordinates() {
    let objects = vec![Object::new(-5, 3, 1), Object::new(2, -7, 1), Object::new(4, 4, 1)];
    assert_eq!(Quadtree::calc_tree_box(&objects), Cell::new(-5, -7, 11));
}

#[test]
fn the_tree_box_of_one_object_has_no_extent() {
    let objects = vec![Object::new(3, 9, 5)];
    assert_eq!(Quadtree::calc_tree_box(&objects), Cell::new(3, 9, 6));
    let origin = vec![Object::new(4, 4, 5)];
    assert_eq!(Quadtree::calc_tree_box(&origin), Cell::new(4, 4, 0));
}

#[test]
fn the_tree_box_is_not_a_bounding_box() {
    // The side spans the extrema of both axes together, not each axis by itself.
    let objects = vec![Object::new(0, 0, 1), Object::new(10, 2, 1)];
    assert_eq!(Quadtree::calc_tree_box(&objects), Cell::new(0, 0, 10));
    let shifted = vec![Object::new(10, 0, 1), Object::new(12, 1, 1)];
    assert_eq!(Quadtree::calc_tree_box(&shifted), Cell::new(10, 0, 12));
}

#[test]
fn the_tree_box_counts_objects_without_mass() {
    let objects = vec![Object::new(1, 1, 1), Object::new(9, 9, 0)];
    assert_eq!(Quadtree::calc_tree_box(&objects), Cell::new(1, 1, 8));
}

#[test]
fn the_tree_box_spans_the_whole_grid() {
    let objects = vec![Object::new(i32::MIN, i32::MAX, 1), Object::new(i32::MAX, i32::MIN, 1)];
    assert_eq!(Quadtree::calc_tree_box(&objects), Cell::new(i32::MIN, i32::MIN, u32::MAX));
}

#[test]
fn a_leaf_holds_one_body() {
    let cell = Cell::new(0, 0, 8);
    let leaf = Quadtree::leaf(3, -2, 7, cell);
    assert!(leaf.is_leaf());
    assert_eq!((leaf.x(), leaf.y(), leaf.m()), (3, -2, 7));
    assert_eq!((leaf.moment_x(), leaf.moment_y()), (21, -14));
    assert_eq!(leaf.cell(), cell);
    for quadrant in 0..4 {
        assert!(leaf.child(quadrant).is_none());
    }
    assert!(leaf.child(4).is_none());
}

#[test]
fn update_com_moves_to_the_weighted_average() {
    let mut node = Quadtree::leaf(0, 0, 1, Cell::new(0, 0, 8));
    node.update_com(8, 4, 3);
    assert_eq!(node.m(), 4);
    assert_eq!((node.moment_x(), node.moment_y()), (24, 12));
    assert_eq!((node.x(), node.y()), (6, 3));
}

#[test]
fn update_com_rounds_down_to_the_grid() {
    let mut node = Quadtree::leaf(-3, 4, 2, Cell::new(0, 0, 8));
    node.update_com(-4, 7, 1);
    assert_eq!(node.m(), 3);
    assert_eq!((node.moment_x(), node.moment_y()), (-10, 15));
    // -10 / 3 lies between -4 and -3, 15 / 3 is 5.
    assert_eq!((node.x(), node.y()), (-4, 5));
}

#[test]
fn update_com_without_any_mass_keeps_the_position() {
    let mut node = Quadtree::leaf(2, 9, 0, Cell::new(0, 0, 8));
    node.update_com(5, 6, 0);
    assert_eq!((node.x(), node.y(), node.m()), (2, 9, 0));
    assert_eq!((node.moment_x(), node.moment_y()), (0, 0));
}

#[test]
fn update_com_keeps_the_sums_exact_at_the_limits() {
    let mut node = Quadtree::leaf(i32::MIN, i32::MAX, u64::MAX - 1, Cell::new(0, 0, 8));
    node.update_com(i32::MIN, i32::MAX, 1);
    assert_eq!(node.m(), u64::MAX);
    assert_eq!(node.moment_x(), i32::MIN as i128 * u64::MAX as i128);
    assert_eq!(node.moment_y(), i32::MAX as i128 * u64::MAX as i128);
    assert_eq!((node.x(), node.y()), (i32::MIN, i32::MAX));
}

#[test]
fn new_child_puts_a_leaf_into_its_quadrant() {
    let cell = Cell::new(0, 0, 8);
    let mut node = Quadtree::leaf(1, 1, 2, cell);
    node.new_child(2, 1, 6, 5, cell.child(2));
    assert!(!node.is_leaf());
    assert!(node.child(0).is_none());
    assert!(node.child(1).is_none());
    assert!(node.child(3).is_none());
    let child = node.child(2).unwrap();
    assert!(child.is_leaf());
    assert_eq!((child.x(), child.y(), child.m()), (1, 6, 5));
    assert_eq!(child.cell(), Cell::new(0, 4, 4));
    // The node's own aggregate is left as it was.
    assert_eq!((node.x(), node.y(), node.m()), (1, 1, 2));
}

#[test]
fn new_child_replaces_what_the_quadrant_held() {
    let cell = Cell::new(0, 0, 8);
    let mut node = Quadtree::leaf(1, 1, 2, cell);
    node.new_child(3, 6, 6, 5, cell.child(3));
    node.new_child(3, 7, 7, 9, cell.child(3));
    let child = node.child(3).unwrap();
    assert_eq!((child.x(), child.y(), child.m()), (7, 7, 9));
    assert_eq!(node.nodes().len(), 2);
}

#[test]
fn an_empty_tree_is_a_leaf_at_the_corner_of_its_cell() {
    let cell = Cell::new(-4, 6, 8);
    let tree = Quadtree::create_from_objects(Vec::new(), cell);
    assert!(tree.is_leaf());
    assert_eq!((tree.x(), tree.y(), tree.m()), (-4, 6, 0));
    assert_eq!(tree.cell(), cell);
    assert_eq!(listed(&tree), vec![(-4, 6, 0, cell, 0)]);
}

#[test]
fn an_empty_tree_over_a_sub_cell_lies_at_the_grid_point_below_its_corner() {
    let cell = Cell::new(8, -9, 1).child(3);
    let tree = Quadtree::create_from_objects(Vec::new(), cell);
    assert_eq!((tree.x(), tree.y(), tree.m()), (8, -9, 0));
    let beyond = Cell::new(i32::MAX, i32::MAX, u32::MAX).child(3);
    let tree = Quadtree::create_from_objects(Vec::new(), beyond);
    assert_eq!((tree.x(), tree.y()), (i32::MAX, i32::MAX));
}

#[test]
fn the_first_body_is_taken_by_the_root() {
    let cell = Cell::new(0, 0, 8);
    let mut tree = Quadtree::leaf(0, 0, 0, cell);
    tree.insert(6, 1, 4, cell);
    assert!(tree.is_leaf());
    assert_eq!(listed(&tree), vec![(6, 1, 4, cell, 0)]);
    assert_eq!((tree.moment_x(), tree.moment_y()), (24, 4));
}

#[test]
fn a_body_without_mass_changes_nothing() {
    let cell = Cell::new(0, 0, 8);
    let objects = vec![Object::new(1, 1, 2), Object::new(6, 6, 3)];
    let mut tree = Quadtree::create_from_objects(objects, cell);
    let before = listed(&tree);
    tree.insert(6, 1, 0, cell);
    tree.insert(1, 1, 0, cell);
    assert_eq!(listed(&tree), before);

    let mut empty = Quadtree::create_from_objects(Vec::new(), cell);
    empty.insert(5, 5, 0, cell);
    assert!(empty.is_leaf());
    assert_eq!(listed(&empty), vec![(0, 0, 0, cell, 0)]);
}

#[test]
fn two_bodies_in_different_quadrants_become_two_leaves() {
    let cell = Cell::new(0, 0, 8);
    let tree = Quadtree::create_from_objects(vec![Object::new(1, 1, 2), Object::new(6, 6, 3)], cell);
    assert_eq!(
        listed(&tree),
        vec![
            (4, 4, 5, cell, 0),
            (1, 1, 2, Cell::new(0, 0, 4), 1),
            (6, 6, 3, Cell::new(4, 4, 4), 1),
        ]
    );
    assert_eq!((tree.moment_x(), tree.moment_y()), (20, 20));
}

#[test]
fn two_bodies_in_one_quadrant_are_split_until_they_part() {
    let cell = Cell::new(0, 0, 8);
    let tree = Quadtree::create_from_objects(vec![Object::new(1, 1, 2), Object::new(3, 3, 3)], cell);
    assert_eq!(
        listed(&tree),
        vec![
            (2, 2, 5, cell, 0),
            (2, 2, 5, Cell::new(0, 0, 4), 1),
            (1, 1, 2, Cell::new(0, 0, 2), 2),
            (3, 3, 3, Cell::new(2, 2, 2), 2),
        ]
    );
}

#[test]
fn a_body_for_a_free_quadrant_of_an_inner_node_becomes_a_leaf_there() {
    let cell = Cell::new(0, 0, 8);
    let objects = vec![Object::new(1, 1, 2), Object::new(6, 6, 3), Object::new(6, 1, 4)];
    let tree = Quadtree::create_from_objects(objects, cell);
    assert_eq!(
        listed(&tree),
        vec![
            (4, 2, 9, cell, 0),
            (1, 1, 2, Cell::new(0, 0, 4), 1),
            (6, 1, 4, Cell::new(4, 0, 4), 1),
            (6, 6, 3, Cell::new(4, 4, 4), 1),
        ]
    );
}

#[test]
fn a_body_for_an_occupied_quadrant_descends_into_it() {
    let objects = vec![
        Object::new(0, 0, 4),
        Object::new(100, 0, 1),
        Object::new(0, 100, 2),
        Object::new(100, 100, 3),
        Object::new(40, 60, 5),
    ];
    let cell = Quadtree::calc_tree_box(&objects);
    assert_eq!(cell, Cell::new(0, 0, 100));
    let tree = Quadtree::create_from_objects(objects, cell);
    assert_eq!(
        listed(&tree),
        vec![
            (40, 53, 15, cell, 0),
            (0, 0, 4, Cell::new(0, 0, 50), 1),
            (100, 0, 1, Cell::new(50, 0, 50), 1),
            (28, 71, 7, Cell::new(0, 50, 50), 1),
            (40, 60, 5, Cell::new(25, 50, 25), 2),
            (0, 100, 2, Cell::new(0, 75, 25), 2),
            (100, 100, 3, Cell::new(50, 50, 50), 1),
        ]
    );
    assert_eq!((tree.moment_x(), tree.moment_y()), (600, 800));
}

#[test]
fn the_diagonal_is_split_into_finer_and_finer_quadrants() {
    let objects = diagonal(&[1, 2, 3, 5, 6, 7, 8, 9]);
    let cell = Quadtree::calc_tree_box(&objects);
    assert_eq!(cell, Cell::new(1, 1, 8));
    let tree = Quadtree::create_from_objects(objects, cell);

    assert_eq!(tree.m(), 8);
    // The centroid of equal masses: 41 / 8 on both axes, kept exactly by the moments.
    assert_eq!((tree.moment_x(), tree.moment_y()), (41, 41));
    assert_eq!((tree.x(), tree.y()), (5, 5));

    let half = Cell::new(8, 8, 1).child(0);
    let upper_half = Cell::new(8, 8, 1).child(3);
    assert_eq!(
        listed(&tree),
        vec![
            (5, 5, 8, cell, 0),
            (2, 2, 3, Cell::new(1, 1, 4), 1),
            (1, 1, 2, Cell::new(1, 1, 2), 2),
            (1, 1, 1, Cell::new(1, 1, 1), 3),
            (2, 2, 1, Cell::new(2, 2, 1), 3),
            (3, 3, 1, Cell::new(3, 3, 2), 2),
            (7, 7, 5, Cell::new(5, 5, 4), 1),
            (5, 5, 2, Cell::new(5, 5, 2), 2),
            (5, 5, 1, Cell::new(5, 5, 1), 3),
            (6, 6, 1, Cell::new(6, 6, 1), 3),
            (8, 8, 3, Cell::new(7, 7, 2), 2),
            (7, 7, 1, Cell::new(7, 7, 1), 3),
            (8, 8, 2, Cell::new(8, 8, 1), 3),
            (8, 8, 1, half, 4),
            (9, 9, 1, upper_half, 4),
        ]
    );
    // Only the lower-left and the upper-right quadrant are ever used.
    let mut used = Vec::new();
    collect_quadrants(&tree, &mut used);
    assert!(used.iter().all(|&q| q == 0 || q == 3));
}

fn collect_quadrants(tree: &Quadtree, used: &mut Vec<usize>) {
    for quadrant in 0..4 {
        if let Some(child) = tree.child(quadrant) {
            used.push(quadrant);
            collect_quadrants(child, used);
        }
    }
}

#[test]
fn the_centroid_of_the_diagonal_is_exact_on_a_finer_grid() {
    // The same bodies on a grid of eighths: the centroid 5.125 is the grid point 41.
    let objects: Vec<Object> =
        [1, 2, 3, 5, 6, 7, 8, 9].iter().map(|&i| Object::new(8 * i, 8 * i, 1)).collect();
    let cell = Quadtree::calc_tree_box(&objects);
    let tree = Quadtree::create_from_objects(objects, cell);
    assert_eq!(tree.m(), 8);
    assert_eq!((tree.x(), tree.y()), (41, 41));
    assert_eq!((tree.moment_x(), tree.moment_y()), (328, 328));
    assert_eq!(tree.get_leaves().len(), 8);
}

#[test]
fn bodies_at_one_point_are_merged_where_the_cell_has_no_extent() {
    let cell = Cell::new(0, 0, 16);
    let objects = vec![Object::new(5, 5, 2), Object::new(5, 5, 3)];
    let tree = Quadtree::create_from_objects(objects, cell);

    assert_eq!((tree.x(), tree.y(), tree.m()), (5, 5, 5));
    let leaves = tree.get_leaves();
    assert_eq!(leaves.len(), 1);
    assert_eq!((leaves[0].x(), leaves[0].y(), leaves[0].m()), (5, 5, 5));
    assert_eq!((leaves[0].moment_x(), leaves[0].moment_y()), (25, 25));
    assert_eq!(leaves[0].cell().size(), 0);

    // One node for each halving of the side of 16 * 2^32 cell units, and the root.
    let nodes = tree.nodes();
    assert_eq!(nodes.len(), 38);
    for (level, node) in nodes.iter().enumerate() {
        assert_eq!((node.x, node.y, node.m, node.level), (5, 5, 5, level));
    }
}

#[test]
fn a_third_body_at_the_same_point_joins_the_merged_leaf() {
    let cell = Cell::new(0, 0, 16);
    let objects = vec![Object::new(5, 5, 2), Object::new(5, 5, 3), Object::new(5, 5, 7)];
    let mut tree = Quadtree::create_from_objects(objects, cell);
    assert_eq!(tree.nodes().len(), 38);
    let leaves = tree.get_leaves();
    assert_eq!(leaves.len(), 1);
    assert_eq!((leaves[0].x(), leaves[0].y(), leaves[0].m()), (5, 5, 12));

    // A body elsewhere still finds its own leaf.
    tree.insert(12, 12, 1, cell);
    let leaves = tree.get_leaves();
    assert_eq!(leaves.len(), 2);
    assert_eq!((leaves[0].m(), leaves[1].m()), (12, 1));
    assert_eq!((leaves[1].x(), leaves[1].y()), (12, 12));
    assert_eq!(tree.m(), 13);
}

#[test]
fn bodies_that_the_cell_cannot_tell_apart_are_merged() {
    // Both lie beyond the upper right corner of the cell: no halving parts them.
    let cell = Cell::new(0, 0, 4);
    let tree = Quadtree::create_from_objects(vec![Object::new(10, 10, 1), Object::new(11, 11, 2)], cell);
    let leaves = tree.get_leaves();
    assert_eq!(leaves.len(), 1);
    assert_eq!(leaves[0].m(), 3);
    assert_eq!((leaves[0].moment_x(), leaves[0].moment_y()), (32, 32));
    assert_eq!((leaves[0].x(), leaves[0].y()), (10, 10));
    assert_eq!(tree.nodes().len(), 36);
}

#[test]
fn neighbours_on_the_grid_are_told_apart() {
    let objects = vec![Object::new(8, 8, 1), Object::new(9, 9, 1), Object::new(8, 9, 1), Object::new(9, 8, 1)];
    let cell = Quadtree::calc_tree_box(&objects);
    assert_eq!(cell, Cell::new(8, 8, 1));
    let tree = Quadtree::create_from_objects(objects, cell);
    let leaves = tree.get_leaves();
    let found: Vec<(i32, i32, u64)> = leaves.iter().map(|l| (l.x(), l.y(), l.m())).collect();
    assert_eq!(found, vec![(8, 8, 1), (9, 8, 1), (8, 9, 1), (9, 9, 1)]);
}

#[test]
fn get_leaves_lists_the_leaves_by_their_quadrants() {
    let objects = vec![
        Object::new(0, 0, 4),
        Object::new(100, 0, 1),
        Object::new(0, 100, 2),
        Object::new(100, 100, 3),
        Object::new(40, 60, 5),
    ];
    let cell = Quadtree::calc_tree_box(&objects);
    let tree = Quadtree::create_from_objects(objects, cell);
    let leaves: Vec<(i32, i32, u64)> =
        tree.get_leaves().iter().map(|l| (l.x(), l.y(), l.m())).collect();
    assert_eq!(leaves, vec![(0, 0, 4), (100, 0, 1), (40, 60, 5), (0, 100, 2), (100, 100, 3)]);
    for leaf in tree.get_leaves() {
        assert!(leaf.is_leaf());
    }
}

#[test]
fn get_leaves_of_a_leaf_is_the_leaf() {
    let cell = Cell::new(0, 0, 8);
    let leaf = Quadtree::leaf(3, 4, 5, cell);
    let leaves = leaf.get_leaves();
    assert_eq!(leaves.len(), 1);
    assert_eq!(listed(&leaves[0]), listed(&leaf));
    let empty = Quadtree::create_from_objects(Vec::new(), cell);
    assert_eq!(empty.get_leaves().len(), 1);
    assert_eq!(empty.get_leaves()[0].m(), 0);
}

#[test]
fn do_on_nodes_visits_every_node_before_its_children() {
    let cell = Cell::new(0, 0, 8);
    let tree = Quadtree::create_from_objects(vec![Object::new(1, 1, 2), Object::new(3, 3, 3)], cell);
    let mut seen = Vec::new();
    let first = tree.do_on_nodes(&mut |x, y, m, cell: Cell, level| {
        seen.push((x, y, m, cell, level));
        seen.len()
    });
    assert_eq!(first, 1);
    assert_eq!(seen, listed(&tree));
    assert_eq!(seen.len(), 4);
    assert_eq!(seen[3], (3, 3, 3, Cell::new(2, 2, 2), 2));
}

#[test]
fn a_clone_is_the_same_tree() {
    let objects = diagonal(&[1, 2, 3, 5, 6, 7, 8, 9]);
    let cell = Quadtree::calc_tree_box(&objects);
    let tree = Quadtree::create_from_objects(objects, cell);
    let mut copy = tree.clone();
    assert_eq!(listed(&copy), listed(&tree));
    copy.insert(4, 4, 1, cell);
    assert_eq!(copy.m(), 9);
    assert_eq!(tree.m(), 8);
    assert_eq!(tree.nodes().len(), 15);
}
