use dangerous_deliveries::obstacle::Obstacle;
use dangerous_deliveries::obstacle_table::ObstacleTable;
use dangerous_deliveries::player_event::PlayerEvent;
use dangerous_deliveries::skating::{
    continue_position, fallover_landing, next_step, try_traverse, Landing, Traverse,
};

fn walled(w: u32, h: u32) -> ObstacleTable {
    let mut t = ObstacleTable::new(w, h);
    for x in 0..w as i32 {
        for y in 0..h as i32 {
            t.set_obstacle((x, y), Obstacle::Wall);
        }
    }
    t
}

#[test]
fn falling_off_a_rail_lands_beside_it() {
    let mut t = walled(3, 3);
    t.set_obstacle((1, 1), Obstacle::Rail(1, 0));
    assert_eq!(fallover_landing(&t, (1, 1)), Landing::Respawn);
    t.set_obstacle((2, 2), Obstacle::Platform);
    t.set_obstacle((0, 1), Obstacle::Platform);
    assert_eq!(fallover_landing(&t, (1, 1)), Landing::At(0, 1));
    t.set_obstacle((0, 0), Obstacle::Platform);
    assert_eq!(fallover_landing(&t, (0, 0)), Landing::Stay);
    assert_eq!(fallover_landing(&t, (2, 1)), Landing::Stay);
}

#[test]
fn stepping_gives_the_event_of_the_cell() {
    let mut t = ObstacleTable::new(4, 4);
    t.set_obstacle((1, 1), Obstacle::Rail(0, 1));
    t.set_obstacle((3, 3), Obstacle::Pit);
    t.set_obstacle((0, 3), Obstacle::Wall);
    assert_eq!(try_traverse(&t, (0, 0), (1, 0), 7), Traverse::MoveTo(1, 0, Some(PlayerEvent::Move)));
    assert_eq!(try_traverse(&t, (1, 1), (2, 2), 7), Traverse::MoveTo(2, 2, Some(PlayerEvent::OffRail)));
    assert_eq!(try_traverse(&t, (0, 0), (1, 1), 7), Traverse::MoveTo(1, 1, Some(PlayerEvent::OnRail)));
    assert_eq!(try_traverse(&t, (2, 2), (3, 3), 7), Traverse::MoveTo(3, 3, Some(PlayerEvent::GameOver(7))));
    assert_eq!(try_traverse(&t, (3, 3), (2, 2), 7), Traverse::MoveTo(2, 2, None));
    assert_eq!(try_traverse(&t, (0, 2), (0, 3), 7), Traverse::FallOver);
    assert_eq!(try_traverse(&t, (0, 0), (2, 0), 7), Traverse::FallOver);
    assert_eq!(try_traverse(&t, (2, 0), (2, 0), 7), Traverse::Unchanged);
    t.block((2, 1));
    assert_eq!(try_traverse(&t, (2, 0), (2, 1), 7), Traverse::FallOver);
    assert_eq!(try_traverse(&t, (2, 1), (2, 1), 7), Traverse::Unchanged);
}

#[test]
fn speed_carries_one_cell_at_most() {
    let t = ObstacleTable::new(5, 5);
    assert_eq!(continue_position(&t, (2, 2), (9, -4)), (3, 1));
    assert_eq!(continue_position(&t, (4, 0), (6, -1)), (4, 0));
    assert_eq!(continue_position(&t, (2, 2), (2, 3)), (2, 3));
}

#[test]
fn planned_steps() {
    let mut t = ObstacleTable::new(5, 5);
    assert_eq!(next_step(&t, (0, 0), (-1, 0), false, (0, 0)), None);
    assert_eq!(next_step(&t, (2, 2), (1, 0), false, (3, 2)), Some((false, (3, 2), PlayerEvent::Move)));
    assert_eq!(next_step(&t, (2, 2), (1, 0), false, (2, 2)), Some((false, (2, 2), PlayerEvent::Wait)));
    t.set_obstacle((2, 2), Obstacle::Rail(1, 0));
    t.set_obstacle((3, 2), Obstacle::Rail(-1, 0));
    t.set_obstacle((2, 3), Obstacle::Rail(0, 1));
    assert_eq!(next_step(&t, (2, 2), (1, 0), false, (3, 2)), Some((true, (2, 2), PlayerEvent::Wait)));
    assert_eq!(next_step(&t, (2, 2), (0, 1), false, (2, 3)), Some((false, (2, 3), PlayerEvent::OffRail)));
    assert_eq!(next_step(&t, (2, 2), (0, 1), true, (2, 3)), Some((true, (2, 2), PlayerEvent::Wait)));
    assert_eq!(next_step(&t, (2, 2), (-1, 0), false, (1, 2)), Some((false, (1, 2), PlayerEvent::OnRail)));
    t.set_obstacle((4, 4), Obstacle::Pit);
    assert_eq!(next_step(&t, (4, 4), (-1, 0), false, (3, 4)), Some((false, (4, 4), PlayerEvent::Wait)));
}
