use gravity::barnes_hut::{Cell, CELL_UNIT, THETA, THETA_UNIT};
use gravity::base::{Object, Vec2};

const UNIT: i128 = CELL_UNIT as i128;

#[test]
fn a_cell_keeps_corner_and_side_in_cell_units() {
    let cell = Cell::new(-3, 7, 10);
    assert_eq!(cell.x(), -3 * UNIT);
    assert_eq!(cell.y(), 7 * UNIT);
    assert_eq!(cell.size(), 10 * CELL_UNIT);
    assert_eq!(CELL_UNIT, 1 << 32);
}

#[test]
fn the_center_is_half_a_side_from_the_corner() {
    let cell = Cell::new(2, -4, 8);
    assert_eq!(cell.center_x(), 6 * UNIT);
    assert_eq!(cell.center_y(), 0);
    let odd = Cell::new(0, 0, 5);
    assert_eq!(odd.center_x(), 5 * UNIT / 2);
    assert_eq!(odd.center_y(), 5 * UNIT / 2);
}

#[test]
fn quadrants_are_numbered_from_the_lower_left() {
    let cell = Cell::new(0, 0, 8);
    assert_eq!(cell.quadrant(1, 1), 0);
    assert_eq!(cell.quadrant(6, 1), 1);
    assert_eq!(cell.quadrant(1, 6), 2);
    assert_eq!(cell.quadrant(6, 6), 3);
}

#[test]
fn a_point_on_the_center_line_belongs_to_the_upper_right() {
    let cell = Cell::new(0, 0, 8);
    assert_eq!(cell.quadrant(4, 4), 3);
    assert_eq!(cell.quadrant(4, 3), 1);
    assert_eq!(cell.quadrant(3, 4), 2);
    assert_eq!(cell.quadrant(3, 3), 0);
}

#[test]
fn a_point_outside_the_cell_still_has_a_quadrant() {
    let cell = Cell::new(0, 0, 8);
    assert_eq!(cell.quadrant(-100, -100), 0);
    assert_eq!(cell.quadrant(100, -100), 1);
    assert_eq!(cell.quadrant(-100, 100), 2);
    assert_eq!(cell.quadrant(100, 100), 3);
    assert_eq!(cell.quadrant(i32::MIN, i32::MAX), 2);
    assert_eq!(cell.quadrant(i32::MAX, i32::MIN), 1);
}

#[test]
fn a_child_is_the_half_sized_cell_of_its_quadrant() {
    let cell = Cell::new(2, 4, 8);
    let children = [cell.child(0), cell.child(1), cell.child(2), cell.child(3)];
    assert_eq!(children[0], Cell::new(2, 4, 4));
    assert_eq!(children[1], Cell::new(6, 4, 4));
    assert_eq!(children[2], Cell::new(2, 8, 4));
    assert_eq!(children[3], Cell::new(6, 8, 4));
}

#[test]
fn a_cell_of_one_grid_unit_is_halved_between_grid_points() {
    let cell = Cell::new(8, 8, 1);
    assert_eq!(cell.center_x(), 8 * UNIT + UNIT / 2);
    assert_eq!(cell.quadrant(8, 8), 0);
    assert_eq!(cell.quadrant(9, 9), 3);
    let upper = cell.child(3);
    assert_eq!(upper.x(), 8 * UNIT + UNIT / 2);
    assert_eq!(upper.size(), CELL_UNIT / 2);
}

#[test]
fn halving_ends_in_a_cell_without_extent() {
    let mut cell = Cell::new(0, 0, 1);
    let mut halvings = 0;
    while cell.size() > 0 {
        cell = cell.child(3);
        halvings += 1;
    }
    assert_eq!(halvings, 33);
    assert_eq!(cell.size(), 0);
    assert_eq!(cell.child(0), cell);
    assert_eq!(cell.child(3), cell);
}

#[test]
fn the_largest_cell_can_be_halved_in_its_farthest_corner() {
    let mut cell = Cell::new(i32::MAX, i32::MAX, u32::MAX);
    for _ in 0..70 {
        cell = cell.child(3);
    }
    assert_eq!(cell.size(), 0);
    assert!(cell.x() < (i32::MAX as i128 + u32::MAX as i128) * UNIT);
    assert!(cell.x() >= (i32::MAX as i128 + u32::MAX as i128 - 1) * UNIT);
}

#[test]
fn the_default_accuracy_is_a_ratio_of_one() {
    assert_eq!(THETA_UNIT, 1024);
    assert_eq!(THETA, THETA_UNIT);
}

#[test]
fn an_object_keeps_what_it_was_made_of() {
    let object = Object::new(-2, 5, 9);
    assert_eq!(object.x, -2);
    assert_eq!(object.y, 5);
    assert_eq!(object.m, 9);
    assert_eq!(object.pos(), Vec2::new(-2, 5));
    assert_eq!(object, Object { x: -2, y: 5, m: 9 });
}

#[test]
fn the_squared_distance_is_exact() {
    assert_eq!(Vec2::new(0, 0).distance_squared(Vec2::new(3, 4)), 25);
    assert_eq!(Vec2::new(-1, -1).distance_squared(Vec2::new(-1, -1)), 0);
    assert_eq!(Vec2::new(5, 0).distance_squared(Vec2::new(-5, 0)), 100);
    let far = Vec2::new(i32::MIN, i32::MIN).distance_squared(Vec2::new(i32::MAX, i32::MAX));
    assert_eq!(far, 2 * (u32::MAX as u128) * (u32::MAX as u128));
}
