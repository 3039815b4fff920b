use dangerous_deliveries::cell::Cell;
use dangerous_deliveries::collision::update_blocked;
use dangerous_deliveries::obstacle::Obstacle;
use dangerous_deliveries::obstacle_automata::{apply_automata, compute_next};
use dangerous_deliveries::obstacle_table::{abs_i32, ObstacleTable};
use dangerous_deliveries::point_vertex::PointVertex;
use dangerous_deliveries::traversability::Traversability;
use dangerous_deliveries::util;
use dangerous_deliveries::vec_ops::neighbors;
use std::cmp::Ordering;
use std::collections::HashSet;

#[test]
fn neighbors_inside_the_box() {
    assert_eq!(
        neighbors((1, 1), (0, 0), (2, 2)),
        vec![(0, 1), (0, 0), (0, 2), (2, 1), (2, 0), (2, 2), (1, 0), (1, 2)]
    );
    assert_eq!(neighbors((0, 0), (0, 0), (2, 2)), vec![(1, 0), (1, 1), (0, 1)]);
    assert_eq!(neighbors((0, 0), (0, 0), (0, 0)), vec![]);
}

#[test]
fn neighbors_of_unsigned_cells() {
    assert_eq!(util::neighbors((2, 0), (0, 0), (2, 1)), vec![(1, 0), (1, 1), (2, 1)]);
    assert_eq!(util::neighbors((0, 0), (0, 0), (0, 0)), vec![]);
}

#[test]
fn cells_compare_by_rank() {
    let a = Cell::new(1, 3, Obstacle::Platform);
    let b = Cell::new(2, 1, Obstacle::Wall);
    let c = Cell::new(2, 3, Obstacle::Pit);
    assert_eq!(a.rank(), 4);
    assert_eq!(c.rank(), 8);
    assert!(a == b);
    assert!(a < c);
    assert_eq!(c.partial_cmp(&a), Some(Ordering::Greater));
    assert_eq!(a.x, 1);
    assert_eq!(b.obstacle, Obstacle::Wall);
}

#[test]
fn point_vertices_order_by_rank() {
    let p = PointVertex::new(1, 2, 3);
    let q = PointVertex::new(2, 2, 0);
    assert_eq!((p.x, p.y, p.height), (1, 2, 3));
    assert_eq!(p.rank(), 3);
    assert_eq!(q.rank(), 6);
    assert!(p < q);
    assert_eq!(p.partial_cmp(&PointVertex::new(3, 0, 9)), Some(Ordering::Equal));
}

#[test]
fn new_table_is_all_platforms() {
    let t = ObstacleTable::new(4, 3);
    assert_eq!((t.width(), t.height()), (4, 3));
    for x in 0..4 {
        for y in 0..3 {
            assert_eq!(t.get_obstacle(x, y), Obstacle::Platform);
        }
    }
    assert_eq!(t.xy_flat(1, 2), 9);
    assert!(t.blocked_cells().is_empty());
    assert!(t.platform_cells().is_empty());
}

#[test]
fn table_moves_and_exits() {
    let mut t = ObstacleTable::new(4, 3);
    t.set_obstacle((1, 1), Obstacle::Wall);
    assert_eq!(t.get_obstacle(1, 1), Obstacle::Wall);
    assert!(!t.is_exit_valid(-1, 0));
    assert!(!t.is_exit_valid(1, 1));
    assert!(t.is_exit_valid(0, 0));
    assert!(!t.is_exit_valid(4, 0));
    assert!(!t.can_traverse((0, 0), (1, 1)));
    assert!(t.can_traverse((0, 0), (1, 0)));
    assert!(!t.can_traverse((0, 0), (2, 0)));
    t.block((1, 0));
    assert!(t.is_blocked((1, 0)));
    assert!(!t.can_traverse((0, 0), (1, 0)));
    assert!(t.can_traverse((1, 0), (1, 0)));
    t.block((1, 0));
    assert_eq!(*t.blocked_cells(), vec![(1, 0)]);
    t.clear_blocked();
    assert!(t.blocked_cells().is_empty());
    assert_eq!(t.traversability((0, 0), (1, 0)), Traversability::Flat);
    assert_eq!(t.traversability((0, 0), (1, 1)), Traversability::Flat);
    assert_eq!(t.traversability((0, 0), (2, 2)), Traversability::No);
    assert_eq!(t.traversability((3, 2), (4, 2)), Traversability::No);
    t.set_platform((1, 1));
    assert_eq!(t.get_obstacle(1, 1), Obstacle::Platform);
    assert_eq!(abs_i32(-5), 5);
    assert_eq!(abs_i32(3), 3);
}

#[test]
fn platforms_listed_column_by_column() {
    let mut t = ObstacleTable::new(2, 3);
    t.set_obstacle((0, 1), Obstacle::Pit);
    t.set_obstacle((1, 2), Obstacle::Rail(1, 0));
    t.update_platforms();
    assert_eq!(*t.platform_cells(), vec![(0, 0), (0, 2), (1, 0), (1, 1)]);
}

#[test]
fn unions_join_touching_platforms() {
    let mut t = ObstacleTable::new(3, 1);
    t.set_obstacle((1, 0), Obstacle::Wall);
    t.compute_unions();
    assert!(!t.unions().equiv(0, 2));
    assert!(!t.unions().equiv(0, 1));
    let mut u = ObstacleTable::new(3, 2);
    u.set_obstacle((1, 0), Obstacle::Wall);
    u.compute_unions();
    assert!(u.unions().equiv(u.xy_flat(0, 0), u.xy_flat(2, 0)));
    assert!(!u.unions().equiv(u.xy_flat(0, 0), u.xy_flat(1, 0)));
}

#[test]
fn resize_and_regen_give_platforms() {
    let mut t = ObstacleTable::new(3, 3);
    t.set_obstacle((2, 2), Obstacle::Wall);
    t.regen_table();
    assert_eq!(t.get_obstacle(2, 2), Obstacle::Platform);
    t.resize(5, 2);
    assert_eq!((t.width(), t.height()), (5, 2));
    assert_eq!(t.get_obstacle(4, 1), Obstacle::Platform);
}

#[test]
fn blocked_cells_of_living_skaters() {
    let mut t = ObstacleTable::new(4, 4);
    let mut dead = HashSet::new();
    dead.insert(1u32);
    update_blocked(&mut t, (0, 0), &vec![(1, 0), (2, 0), (0, 0), (3, 3)], &dead);
    assert_eq!(*t.blocked_cells(), vec![(0, 0), (1, 0), (3, 3)]);
    assert!(t.is_blocked((3, 3)));
    assert!(!t.is_blocked((2, 0)));
    update_blocked(&mut t, (2, 2), &vec![], &HashSet::new());
    assert_eq!(*t.blocked_cells(), vec![(2, 2)]);
}

#[test]
fn automaton_step_on_one_cell() {
    let mut t = ObstacleTable::new(3, 3);
    assert_eq!(compute_next(&t, 1, 1), Obstacle::Wall);
    for x in 0..3 {
        for y in 0..3 {
            t.set_obstacle((x, y), Obstacle::Wall);
        }
    }
    assert_eq!(compute_next(&t, 1, 1), Obstacle::Platform);
    assert_eq!(compute_next(&t, 0, 0), Obstacle::Platform);
    t.set_obstacle((1, 1), Obstacle::Pit);
    assert_eq!(compute_next(&t, 1, 1), Obstacle::Pit);
    t.set_obstacle((0, 0), Obstacle::Rail(1, 0));
    assert_eq!(compute_next(&t, 0, 0), Obstacle::Wall);
}

#[test]
fn automaton_step_on_the_map() {
    let mut t = ObstacleTable::new(3, 3);
    t.set_obstacle((1, 1), Obstacle::Pit);
    apply_automata(&mut t);
    for x in 0..3 {
        for y in 0..3 {
            let expected = if x == 1 && y == 1 { Obstacle::Pit } else { Obstacle::Wall };
            assert_eq!(t.get_obstacle(x, y), expected);
        }
    }
    assert!(t.platform_cells().is_empty());
}

#[test]
fn rail_directions_and_opaque_cells() {
    let mut t = ObstacleTable::new(3, 2);
    t.set_obstacle((2, 1), Obstacle::Rail(-1, 0));
    t.set_obstacle((0, 1), Obstacle::Wall);
    assert_eq!(t.get_direction(2, 1), Some((-1, 0)));
    assert_eq!(t.get_direction(0, 0), None);
    assert!(!t.is_opaque(0));
    assert!(t.is_opaque(t.xy_flat(0, 1) as usize));
    assert!(t.is_opaque(5));
    t.block((1, 0));
    assert!(t.is_opaque(1));
}

#[test]
fn path_exits_from_a_cell() {
    let mut t = ObstacleTable::new(3, 3);
    t.set_obstacle((0, 1), Obstacle::Wall);
    assert_eq!(
        t.get_available_exits(4),
        vec![(5, false), (1, false), (7, false), (0, true), (2, true), (6, true), (8, true)]
    );
    assert_eq!(t.get_available_exits(0), vec![(1, false), (4, true)]);
}

#[test]
fn unions_leave_walls_alone() {
    let mut t = ObstacleTable::new(3, 3);
    t.set_obstacle((1, 1), Obstacle::Wall);
    t.compute_unions();
    let middle = t.xy_flat(1, 1);
    for x in 0..3 {
        for y in 0..3 {
            let n = t.xy_flat(x, y);
            assert_eq!(t.unions().equiv(middle, n), n == middle);
        }
    }
    assert!(t.unions().equiv(t.xy_flat(0, 0), t.xy_flat(2, 2)));
}
