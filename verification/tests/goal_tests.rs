use dangerous_deliveries::game_flow::{screen_for, FlowAction, GameFlow, Key, Screen};
use dangerous_deliveries::goal_table::GoalTable;
use dangerous_deliveries::main_viewer::MainViewer;
use dangerous_deliveries::obstacle_table::ObstacleTable;
use dangerous_deliveries::package::{pick_recipient, process_delivered, process_got_package};
use dangerous_deliveries::state::ProcState;

#[test]
fn goals_added_found_and_removed() {
    let mut g = GoalTable::new();
    assert_eq!(g.count(), 0);
    g.add_goal((1, 2), (0, (255, 0, 0)));
    g.add_goal((3, 4), (1, (0, 255, 0)));
    assert_eq!(g.count(), 2);
    assert!(g.at_goal((1, 2)));
    assert!(!g.at_goal((2, 1)));
    assert_eq!(g.get((3, 4)), Some((1, (0, 255, 0))));
    assert_eq!(g.goals(), vec![(1, 2), (3, 4)]);
    assert!(g.remove_goal_index(0));
    assert!(!g.at_goal((1, 2)));
    assert!(!g.remove_goal_index(7));
    assert!(g.remove_goal_if_reached((3, 4)));
    assert_eq!(g.count(), 0);
    assert!(!g.remove_goal_if_reached((9, 9)));
}

#[test]
fn goal_at_same_cell_is_replaced() {
    let mut g = GoalTable::new();
    g.add_goal((5, 5), (0, (1, 1, 1)));
    g.add_goal((5, 5), (2, (2, 2, 2)));
    assert_eq!(g.count(), 1);
    assert_eq!(g.get((5, 5)), Some((2, (2, 2, 2))));
    assert!(g.count() == 1);
}

#[test]
fn recipient_is_never_the_last_one() {
    for _ in 0..50 {
        let r = pick_recipient(3, 1);
        assert!(r < 3 && r != 1);
    }
    assert_eq!(pick_recipient(1, -1), 0);
    assert_eq!(pick_recipient(2, 0), 1);
    assert_eq!(pick_recipient(2, 1), 0);
}

#[test]
fn picking_up_a_package() {
    let mut obs = ObstacleTable::new(6, 6);
    obs.update_platforms();
    let mut goals = GoalTable::new();
    goals.add_goal((1, 1), (2, (9, 8, 7)));
    let mut viewer = MainViewer::new(5);
    let mut flow = GameFlow::new();
    flow.set_state(ProcState::GotPackage(1, 1));
    let mut recipient = -1;
    process_got_package(&mut goals, &obs, &mut viewer, &mut flow, &mut recipient, 3, (1, 1));
    assert_eq!(recipient, 2);
    assert_eq!(
        viewer.messages(),
        &vec![(String::from("Picked up package, find the skater wearing this color shirt"), (9, 8, 7))]
    );
    assert_eq!(flow.state(), ProcState::Playing);
    assert!(goals.count() <= 1);
    for p in goals.goals() {
        assert!(p != (1, 1));
        assert!(obs.platform_cells().contains(&p));
        let (who, colour) = goals.get(p).unwrap();
        assert!(who < 3);
        assert_eq!(colour, (9, 8, 7));
    }
}

#[test]
fn standing_where_no_package_is() {
    let obs = ObstacleTable::new(4, 4);
    let mut goals = GoalTable::new();
    goals.add_goal((2, 2), (0, (1, 2, 3)));
    let mut viewer = MainViewer::new(5);
    let mut flow = GameFlow::new();
    let mut recipient = 4;
    process_got_package(&mut goals, &obs, &mut viewer, &mut flow, &mut recipient, 3, (1, 1));
    assert_eq!(recipient, 4);
    assert!(viewer.messages().is_empty());
    assert_eq!(flow.state(), ProcState::MainMenu);
    assert_eq!(goals.goals(), vec![(2, 2)]);
}

#[test]
fn delivering_a_package() {
    let mut obs = ObstacleTable::new(12, 10);
    let mut goals = GoalTable::new();
    let mut recipient = 1;
    let colors = vec![(0, 255, 255), (255, 0, 255)];
    let zeros = vec![0; 12];
    process_delivered(&mut goals, &mut obs, &mut recipient, 3, &colors, &zeros, &zeros);
    assert!(recipient == 0 || recipient == 2);
    assert_eq!(goals.count(), 1);
    let p = goals.goals()[0];
    assert!(0 <= p.0 && p.0 <= 10 && 1 <= p.1 && p.1 <= 8);
    let (who, colour) = goals.get(p).unwrap();
    assert_eq!(who as i32, recipient);
    assert!(colors.contains(&colour));
}

#[test]
fn menus_and_game_screens() {
    let mut f = GameFlow::new();
    assert_eq!(f.state(), ProcState::MainMenu);
    assert!(f.redraw());
    f.set_redraw(false);
    assert_eq!(f.on_key(None), FlowAction::Idle);
    assert!(!f.redraw());
    assert_eq!(f.on_key(Some(Key::Char('0'))), FlowAction::Idle);
    assert_eq!(f.state(), ProcState::Help);
    assert_eq!(f.on_key(Some(Key::Escape)), FlowAction::Idle);
    assert_eq!(f.state(), ProcState::MainMenu);
    assert_eq!(f.on_key(Some(Key::Char('1'))), FlowAction::Idle);
    assert_eq!(f.state(), ProcState::Playing);
    assert_eq!(f.on_key(Some(Key::Char('q'))), FlowAction::TakeTurns('q'));
    assert_eq!(f.on_key(Some(Key::Char('x'))), FlowAction::Idle);
    assert_eq!(f.on_key(Some(Key::Char(';'))), FlowAction::LookPrompt);
    assert_eq!(f.state(), ProcState::LookMode);
    assert_eq!(f.on_key(Some(Key::Escape)), FlowAction::Idle);
    assert_eq!(f.state(), ProcState::MainMenu);
    assert_eq!(f.last_state(), ProcState::LookMode);
    assert_eq!(f.on_key(Some(Key::Escape)), FlowAction::Idle);
    assert_eq!(f.state(), ProcState::LookMode);
    assert_eq!(f.on_key(Some(Key::Char('h'))), FlowAction::Describe('h'));
    assert_eq!(f.state(), ProcState::Playing);
    assert_eq!(f.on_key(Some(Key::Return)), FlowAction::Idle);
    assert_eq!(f.state(), ProcState::Restart);
    assert_eq!(f.on_key(None), FlowAction::Restart);
    assert_eq!(f.state(), ProcState::Playing);
    assert_eq!(f.on_key(Some(Key::Escape)), FlowAction::Idle);
    assert_eq!(f.on_key(Some(Key::Char('q'))), FlowAction::Quit);
    assert_eq!(f.state(), ProcState::MainMenu);
}

#[test]
fn game_over_screen_resets_once() {
    let mut f = GameFlow::new();
    f.set_state(ProcState::GameOver);
    assert_eq!(f.on_key(None), FlowAction::ResetGame);
    assert_eq!(f.on_key(Some(Key::Char('x'))), FlowAction::Idle);
    assert_eq!(f.on_key(Some(Key::Char('r'))), FlowAction::Idle);
    assert_eq!(f.state(), ProcState::Playing);
    f.set_state(ProcState::GameOver);
    assert_eq!(f.on_key(Some(Key::Escape)), FlowAction::ResetGame);
    assert_eq!(f.state(), ProcState::MainMenu);
}

#[test]
fn screens_after_the_human_moves() {
    let mut f = GameFlow::new();
    f.set_state(ProcState::Playing);
    assert!(!f.after_human_move(false, (3, 3), false));
    assert_eq!(f.state(), ProcState::PostMove);
    assert_eq!(f.on_key(Some(Key::Char('h'))), FlowAction::Idle);
    assert_eq!(f.state(), ProcState::Playing);
    assert!(!f.after_human_move(true, (3, 4), false));
    assert_eq!(f.state(), ProcState::GotPackage(3, 4));
    assert_eq!(f.last_state(), ProcState::GotPackage(3, 4));
    assert_eq!(f.on_key(None), FlowAction::PickUp(3, 4));
    f.set_state(ProcState::Playing);
    assert!(f.after_human_move(false, (1, 1), true));
    assert_eq!(f.state(), ProcState::Playing);
    f.set_state(ProcState::DeliveredPackage);
    assert_eq!(f.on_key(None), FlowAction::Deliver);
}

#[test]
fn screen_drawn_for_each_state() {
    assert_eq!(screen_for(ProcState::MainMenu), Screen::MainMenu);
    assert_eq!(screen_for(ProcState::Help), Screen::Help);
    assert_eq!(screen_for(ProcState::GameOver), Screen::GameOver);
    assert_eq!(screen_for(ProcState::GotPackage(1, 2)), Screen::Game);
    assert_eq!(screen_for(ProcState::LookMode), Screen::Game);
}

#[test]
fn g_reshapes_the_map_while_playing() {
    let mut f = GameFlow::new();
    assert_eq!(f.on_key(Some(Key::Char('g'))), FlowAction::Idle);
    assert_eq!(f.on_key(Some(Key::Escape)), FlowAction::Idle);
    assert_eq!(f.state(), ProcState::Playing);
    f.set_redraw(false);
    assert_eq!(f.on_key(Some(Key::Char('g'))), FlowAction::ApplyAutomaton);
    assert_eq!(f.state(), ProcState::Playing);
    assert!(f.redraw());
}
