use dangerous_deliveries::goal_table::GoalTable;
use dangerous_deliveries::map_gen::{
    apply_voronoi, apply_voronoi_inv, apply_voronoi_inv_n2, apply_voronoi_n2, clear_obstacles_at_goals,
    mapgen_from_seeds, tunnel_goals, tunnel_position, voronoi_mapgen,
};
use dangerous_deliveries::obstacle::Obstacle;
use dangerous_deliveries::obstacle_table::ObstacleTable;
use dangerous_deliveries::player::PlayerType;
use dangerous_deliveries::player_event::PlayerEvent;
use dangerous_deliveries::spawning::{
    random_platform, respawn_at, respawn_cell, settle_platform, spawn_opponent, spawn_opponent_at, tunnel_spawn,
};
use dangerous_deliveries::turns::{ai_turn_outcome, turn_order, AiOutcome};
use dangerous_deliveries::voronoi::{seeds_from_draws, voronoi_membership, voronoi_seeds};
use std::collections::HashSet;

fn walls(w: u32, h: u32) -> ObstacleTable {
    let mut t = ObstacleTable::new(w, h);
    for x in 0..w as i32 {
        for y in 0..h as i32 {
            t.set_obstacle((x, y), Obstacle::Wall);
        }
    }
    t
}

fn column(t: &ObstacleTable, x: i32) -> Vec<Obstacle> {
    (0..t.height() as i32).map(|y| t.get_obstacle(x, y)).collect()
}

#[test]
fn membership_gives_nearest_seed() {
    let m = voronoi_membership(&vec![(0, 0), (3, 0)], 4, 1);
    assert_eq!(m, vec![vec![(0, 0)], vec![(0, 0)], vec![(3, 0)], vec![(3, 0)]]);
    let tie = voronoi_membership(&vec![(0, 0), (2, 0)], 3, 1);
    assert_eq!(tie[1][0], (0, 0));
    assert!(voronoi_membership(&vec![], 0, 5).is_empty());
}

#[test]
fn seeds_are_distinct_cells() {
    let s = voronoi_seeds(5, 3, 3);
    assert_eq!(s.len(), 5);
    let set: HashSet<(i32, i32)> = s.iter().cloned().collect();
    assert_eq!(set.len(), 5);
    for p in s.iter() {
        assert!(0 <= p.0 && p.0 < 3 && 0 <= p.1 && p.1 < 3);
    }
    assert_eq!(voronoi_seeds(8, 3, 3).len(), 8);
    assert!(voronoi_seeds(9, 3, 3).is_empty());
    assert!(voronoi_seeds(0, 3, 3).is_empty());
}

#[test]
fn voronoi_passes_with_one_seed() {
    let mut t = walls(3, 3);
    apply_voronoi(&mut t, &vec![(1, 1)]);
    assert_eq!(column(&t, 2), vec![Obstacle::Platform; 3]);
    apply_voronoi_inv(&mut t, &vec![(1, 1)]);
    assert_eq!(column(&t, 0), vec![Obstacle::Wall; 3]);
    apply_voronoi_n2(&mut t, &vec![(1, 1)]);
    assert_eq!(column(&t, 1), vec![Obstacle::Wall; 3]);
}

#[test]
fn voronoi_passes_at_region_borders() {
    let mut t = walls(4, 1);
    apply_voronoi_n2(&mut t, &vec![(0, 0), (3, 0)]);
    let row: Vec<Obstacle> = (0..4).map(|x| t.get_obstacle(x, 0)).collect();
    assert_eq!(row, vec![Obstacle::Wall, Obstacle::Platform, Obstacle::Platform, Obstacle::Wall]);
    apply_voronoi_inv_n2(&mut t, &vec![(0, 0), (3, 0)]);
    let row: Vec<Obstacle> = (0..4).map(|x| t.get_obstacle(x, 0)).collect();
    assert_eq!(row, vec![Obstacle::Wall; 4]);
}

fn tunnel_grid() -> ObstacleTable {
    let mut t = walls(7, 7);
    for x in 2..5 {
        t.set_obstacle((x, 1), Obstacle::Platform);
        t.set_obstacle((x, 5), Obstacle::Platform);
    }
    t
}

#[test]
fn tunnels_dug_from_the_nearest_open_ground() {
    let mut t = tunnel_grid();
    let zeros = vec![0; 7];
    assert!(tunnel_position(&mut t, (3, 3), &zeros, &zeros));
    assert_eq!(
        column(&t, 3),
        vec![
            Obstacle::Wall,
            Obstacle::Platform,
            Obstacle::Platform,
            Obstacle::Platform,
            Obstacle::Platform,
            Obstacle::Platform,
            Obstacle::Wall
        ]
    );
    assert_eq!(t.get_obstacle(2, 2), Obstacle::Wall);
    assert_eq!(t.get_obstacle(4, 4), Obstacle::Wall);
}

#[test]
fn tunnel_turns_open_side_cells() {
    let mut t = tunnel_grid();
    let zeros = vec![0; 7];
    assert!(tunnel_position(&mut t, (3, 3), &vec![-1; 7], &zeros));
    assert_eq!(t.get_obstacle(4, 2), Obstacle::Platform);
    assert_eq!(t.get_obstacle(4, 3), Obstacle::Platform);
    assert_eq!(t.get_obstacle(2, 2), Obstacle::Wall);
    assert_eq!(t.get_obstacle(2, 4), Obstacle::Wall);
    assert_eq!(t.get_obstacle(4, 4), Obstacle::Wall);
    let mut u = tunnel_grid();
    assert!(tunnel_position(&mut u, (3, 3), &vec![1; 7], &zeros));
    assert_eq!(u.get_obstacle(2, 2), Obstacle::Platform);
    assert_eq!(u.get_obstacle(2, 3), Obstacle::Platform);
    assert_eq!(u.get_obstacle(4, 2), Obstacle::Wall);
}

#[test]
fn no_tunnel_without_open_ground() {
    let mut t = walls(5, 5);
    let zeros = vec![0; 5];
    assert!(!tunnel_position(&mut t, (2, 2), &zeros, &zeros));
    assert_eq!(t.get_obstacle(2, 2), Obstacle::Wall);
    assert_eq!(t.get_obstacle(2, 1), Obstacle::Wall);
}

#[test]
fn tunnels_into_each_package() {
    let mut t = tunnel_grid();
    let mut goals = GoalTable::new();
    goals.add_goal((3, 3), (0, (1, 1, 1)));
    let zeros = vec![0; 7];
    tunnel_goals(&mut t, &goals, &vec![(zeros.clone(), zeros.clone())]);
    assert_eq!(t.get_obstacle(3, 2), Obstacle::Platform);
    assert_eq!(t.get_obstacle(3, 4), Obstacle::Platform);
    let mut u = walls(4, 4);
    goals.add_goal((0, 3), (1, (2, 2, 2)));
    clear_obstacles_at_goals(&mut u, &goals);
    assert_eq!(u.get_obstacle(3, 3), Obstacle::Platform);
    assert_eq!(u.get_obstacle(0, 3), Obstacle::Platform);
    assert_eq!(u.get_obstacle(1, 1), Obstacle::Wall);
}

#[test]
fn map_from_one_seed() {
    let mut t = ObstacleTable::new(3, 3);
    let goals = GoalTable::new();
    mapgen_from_seeds(&mut t, &goals, &vec![(1, 1)], &vec![]);
    for x in 0..3 {
        assert_eq!(column(&t, x), vec![Obstacle::Wall; 3]);
    }
    assert!(t.platform_cells().is_empty());
}

#[test]
fn random_map_keeps_its_size() {
    let mut t = ObstacleTable::new(12, 12);
    let mut goals = GoalTable::new();
    goals.add_goal((5, 5), (0, (0, 0, 0)));
    let zeros = vec![0; 12];
    voronoi_mapgen(&mut t, &goals, &vec![(zeros.clone(), zeros.clone())]);
    assert_eq!((t.width(), t.height()), (12, 12));
}

#[test]
fn random_platform_is_listed() {
    let mut t = ObstacleTable::new(4, 4);
    assert_eq!(random_platform(&t), (-1, -1));
    t.set_obstacle((0, 0), Obstacle::Wall);
    t.update_platforms();
    for _ in 0..20 {
        let p = random_platform(&t);
        assert!(t.platform_cells().contains(&p));
    }
}

#[test]
fn spawn_cells_away_from_edges() {
    let zeros = vec![0; 10];
    for _ in 0..10 {
        let mut t = ObstacleTable::new(10, 8);
        let p = tunnel_spawn(&mut t, &zeros, &zeros);
        assert!(0 <= p.0 && p.0 <= 8 && 1 <= p.1 && p.1 <= 6);
        assert_eq!(t.get_obstacle(p.0, p.1), Obstacle::Platform);
        if let Some(q) = spawn_opponent(&mut t, p, &zeros, &zeros) {
            assert!(q != p);
            assert_eq!(t.get_obstacle(q.0, q.1), Obstacle::Platform);
        }
        t.block(p);
        if let Some(r) = respawn_cell(&t) {
            assert!(r != p);
            assert_eq!(t.get_obstacle(r.0, r.1), Obstacle::Platform);
        }
    }
}

#[test]
fn turn_order_takes_everybody_once() {
    assert_eq!(
        turn_order(5, &vec![3, 8]),
        vec![(0, PlayerType::AI), (1, PlayerType::AI), (999, PlayerType::Human)]
    );
    assert_eq!(turn_order(1, &vec![]), vec![(999, PlayerType::Human)]);
    let order = turn_order(2, &vec![1, 1, 3, 0]);
    assert_eq!(order.len(), 5);
    let ais: HashSet<usize> = order.iter().filter(|e| e.1 == PlayerType::AI).map(|e| e.0).collect();
    assert_eq!(ais, [0usize, 1, 2, 3].into_iter().collect());
}

#[test]
fn opponent_outcomes() {
    assert_eq!(ai_turn_outcome(false, false, 1, PlayerEvent::Move, 0, 4, 3), (AiOutcome::NewGoal, 3));
    assert_eq!(ai_turn_outcome(true, true, 2, PlayerEvent::Move, 0, 4, 3), (AiOutcome::NewGoal, 3));
    assert_eq!(ai_turn_outcome(true, false, 2, PlayerEvent::GameOver(7), 0, 4, 3), (AiOutcome::Respawn, 2));
    assert_eq!(ai_turn_outcome(false, false, 3, PlayerEvent::FallOver, 4, 4, 3), (AiOutcome::Respawn, 2));
    assert_eq!(ai_turn_outcome(true, false, 2, PlayerEvent::Wait, 1, 4, 3), (AiOutcome::Carry, 2));
}

#[test]
fn settling_skips_taken_cells() {
    let mut t = ObstacleTable::new(4, 4);
    t.block((1, 1));
    t.block((2, 2));
    assert_eq!(settle_platform(&vec![(1, 1), (1, 1), (2, 2), (3, 3), (0, 0)], &t), (3, 3));
    assert_eq!(settle_platform(&vec![(0, 0), (3, 3)], &t), (0, 0));
    assert_eq!(settle_platform(&vec![(1, 1), (2, 2)], &t), (2, 2));
    assert_eq!(settle_platform(&vec![(2, 2)], &t), (2, 2));
}

#[test]
fn seeds_picked_by_draws() {
    assert_eq!(seeds_from_draws(&vec![1, 1, 0], 2, 2), vec![(0, 1), (1, 0), (0, 0)]);
    assert_eq!(seeds_from_draws(&vec![3], 2, 2), vec![(1, 1)]);
    assert_eq!(seeds_from_draws(&vec![], 2, 2), vec![]);
    assert_eq!(seeds_from_draws(&vec![0, 0], 3, 1), vec![(0, 0), (1, 0)]);
}

#[test]
fn voronoi_opens_region_interiors() {
    let mut t = walls(6, 3);
    apply_voronoi(&mut t, &vec![(0, 1), (5, 1)]);
    for x in [0, 1, 4, 5] {
        assert_eq!(column(&t, x), vec![Obstacle::Platform; 3]);
    }
    for x in [2, 3] {
        assert_eq!(column(&t, x), vec![Obstacle::Wall; 3]);
    }
}

#[test]
fn spawning_at_a_drawn_cell() {
    let zeros = vec![0; 10];
    let mut t = ObstacleTable::new(10, 8);
    t.set_obstacle((3, 3), Obstacle::Wall);
    t.block((5, 5));
    assert_eq!(spawn_opponent_at(&mut t, (2, 2), (2, 2), &zeros, &zeros), None);
    assert_eq!(spawn_opponent_at(&mut t, (2, 2), (5, 5), &zeros, &zeros), None);
    assert_eq!(t.get_obstacle(3, 3), Obstacle::Wall);
    assert_eq!(spawn_opponent_at(&mut t, (2, 2), (3, 3), &zeros, &zeros), Some((3, 3)));
    assert_eq!(t.get_obstacle(3, 3), Obstacle::Platform);
    assert_eq!(respawn_at(&t, (3, 3)), Some((3, 3)));
    assert_eq!(respawn_at(&t, (5, 5)), None);
    t.set_obstacle((4, 4), Obstacle::Pit);
    assert_eq!(respawn_at(&t, (4, 4)), None);
}

#[test]
fn spawn_range_on_odd_sides() {
    let zeros = vec![0; 10];
    for _ in 0..20 {
        let mut t = ObstacleTable::new(9, 7);
        let p = tunnel_spawn(&mut t, &zeros, &zeros);
        assert!(0 <= p.0 && p.0 <= 6 && 1 <= p.1 && p.1 <= 4);
    }
}
