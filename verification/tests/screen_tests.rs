use dangerous_deliveries::files::{config_name_matches, get_file_chooser_string};
use dangerous_deliveries::look_mode::LookMode;
use dangerous_deliveries::main_viewer::MainViewer;
use dangerous_deliveries::obstacle::Obstacle;
use dangerous_deliveries::obstacle_table::ObstacleTable;
use dangerous_deliveries::player_event::PlayerEvent;

#[test]
fn file_chooser_names() {
    assert_eq!(get_file_chooser_string(0), "small");
    assert_eq!(get_file_chooser_string(1), "medium");
    assert_eq!(get_file_chooser_string(2), "");
    assert_eq!(get_file_chooser_string(77), "");
}

#[test]
fn look_keys_and_directions() {
    let lm = LookMode::new();
    let mut keys = lm.get_keys();
    keys.sort();
    assert_eq!(keys.len(), 18);
    assert_eq!(lm.get_direction('h'), Some((-1, 0)));
    assert_eq!(lm.get_direction('n'), Some((1, 1)));
    assert_eq!(lm.get_direction('\t'), Some((0, 0)));
    assert_eq!(lm.get_direction('x'), None);
}

#[test]
fn look_describes_what_lies_there() {
    let lm = LookMode::new();
    let mut t = ObstacleTable::new(3, 3);
    t.set_obstacle((2, 1), Obstacle::Wall);
    t.set_obstacle((0, 1), Obstacle::Pit);
    t.set_obstacle((1, 0), Obstacle::Rail(0, -1));
    t.set_obstacle((2, 2), Obstacle::Rail(1, 1));
    t.set_obstacle((0, 2), Obstacle::Rail(2, 0));
    assert_eq!(lm.describe_direction(&t, (1, 1), 'l'), "Wall ");
    assert_eq!(lm.describe_direction(&t, (1, 1), 'h'), "Bottomless Pit ");
    assert_eq!(lm.describe_direction(&t, (1, 1), 'k'), "Up Rail");
    assert_eq!(lm.describe_direction(&t, (1, 1), 'n'), "DownRight Rail");
    assert_eq!(lm.describe_direction(&t, (1, 1), 'b'), "");
    assert_eq!(lm.describe_direction(&t, (1, 1), '.'), "Platform ");
    assert_eq!(lm.describe_direction(&t, (1, 1), 'x'), "");
}

#[test]
fn direction_names() {
    assert_eq!(MainViewer::direction_string((1, 1)), "DownRight");
    assert_eq!(MainViewer::direction_string((-1, -1)), "UpLeft");
    assert_eq!(MainViewer::direction_string((1, 0)), "Right");
    assert_eq!(MainViewer::direction_string((0, -1)), "Up");
    assert_eq!(MainViewer::direction_string((0, 0)), "");
    assert_eq!(MainViewer::direction_string((2, 5)), "");
}

#[test]
fn event_messages_and_colours() {
    let mut t = ObstacleTable::new(3, 1);
    t.set_obstacle((0, 0), Obstacle::Rail(1, 0));
    t.set_obstacle((2, 0), Obstacle::Pit);
    let mut v = MainViewer::new(10);
    v.add_message(&t, (0, 0), PlayerEvent::Move);
    v.add_message(&t, (1, 0), PlayerEvent::Wait);
    v.add_message(&t, (2, 0), PlayerEvent::FallOver);
    v.add_message(&t, (0, 0), PlayerEvent::Wait);
    v.add_message(&t, (2, 0), PlayerEvent::OnRail);
    v.add_message(&t, (2, 0), PlayerEvent::OffRail);
    v.add_message(&t, (7, 7), PlayerEvent::GameOver(3));
    v.add_message(&t, (1, 0), PlayerEvent::FallOver);
    let log: Vec<(String, (u8, u8, u8))> = v.messages().clone();
    assert_eq!(
        log,
        vec![
            (String::from("Grinding Right"), (0, 255, 255)),
            (String::from("Waiting"), (255, 255, 255)),
            (String::from("Restart"), (255, 255, 255)),
            (String::from("Stalled Right"), (255, 0, 255)),
            (String::from("Restart"), (255, 0, 0)),
            (String::from("Restart"), (255, 255, 255)),
            (String::from("Restart"), (255, 0, 0)),
            (String::from("Fell over"), (255, 0, 0)),
        ]
    );
}

#[test]
fn log_keeps_latest_messages() {
    let t = ObstacleTable::new(2, 2);
    let mut v = MainViewer::new(2);
    v.add_string(String::from("one"), (1, 2, 3));
    v.add_string(String::from("two"), (4, 5, 6));
    assert_eq!(v.messages().len(), 2);
    v.add_string(String::from("three"), (7, 8, 9));
    assert_eq!(
        v.messages(),
        &vec![(String::from("two"), (4, 5, 6)), (String::from("three"), (7, 8, 9))]
    );
    v.add_message(&t, (0, 0), PlayerEvent::Move);
    assert_eq!(
        v.messages(),
        &vec![(String::from("three"), (7, 8, 9)), (String::from("On Platform"), (255, 255, 255))]
    );
    let mut w = MainViewer::new(2);
    w.add_message(&t, (0, 0), PlayerEvent::Wait);
    w.add_message(&t, (0, 0), PlayerEvent::Move);
    assert_eq!(w.messages(), &vec![(String::from("On Platform"), (255, 255, 255))]);
    v.clear_log();
    assert!(v.messages().is_empty());
}

#[test]
fn map_symbols() {
    let v = MainViewer::new(4);
    assert_eq!(v.symbol(Obstacle::Wall), Some('#' as u16));
    assert_eq!(v.symbol(Obstacle::Pit), Some('x' as u16));
    assert_eq!(v.symbol(Obstacle::Platform), Some('.' as u16));
    assert_eq!(v.symbol(Obstacle::Rail(1, 1)), Some('\\' as u16));
    assert_eq!(v.symbol(Obstacle::Rail(-1, 1)), Some('d' as u16));
    assert_eq!(v.symbol(Obstacle::Rail(5, 5)), None);
}

#[test]
fn cell_glyphs() {
    let v = MainViewer::new(4);
    assert_eq!(v.cell_glyph(Obstacle::Platform, false, None, None), '.' as u16);
    assert_eq!(v.cell_glyph(Obstacle::Platform, true, None, None), '$' as u16);
    assert_eq!(v.cell_glyph(Obstacle::Platform, true, Some(PlayerEvent::Move), None), '@' as u16);
    assert_eq!(v.cell_glyph(Obstacle::Rail(1, 0), false, Some(PlayerEvent::FallOver), None), '!' as u16);
    assert_eq!(
        v.cell_glyph(Obstacle::Platform, false, Some(PlayerEvent::FallOver), Some(PlayerEvent::Wait)),
        '@' as u16
    );
    assert_eq!(v.cell_glyph(Obstacle::Wall, false, None, Some(PlayerEvent::FallOver)), '!' as u16);
    assert_eq!(v.cell_glyph(Obstacle::Pit, false, None, Some(PlayerEvent::Move)), 'x' as u16);
}

#[test]
fn window_around_the_skater() {
    assert_eq!(MainViewer::table_window((5, 5), 4, 4, 20, 20), ((3, 3), (6, 6)));
    assert_eq!(MainViewer::table_window((0, 5), 4, 4, 20, 20), ((0, 3), (3, 6)));
    assert_eq!(MainViewer::table_window((19, 19), 4, 4, 20, 20), ((16, 16), (19, 19)));
    assert_eq!(MainViewer::table_window((2, 2), 40, 40, 10, 10), ((0, 0), (9, 9)));
    assert_eq!(MainViewer::table_window((100, 3), 80, 5, 200, 200), ((60, 1), (139, 5)));
    assert_eq!(MainViewer::table_window((1, 198), 80, 5, 200, 200), ((0, 195), (79, 199)));
    assert_eq!(MainViewer::table_window((7, 7), 0, 1, 20, 20), ((7, 7), (6, 7)));
}

fn chars(s: &str) -> Vec<char> {
    s.chars().collect()
}

#[test]
fn config_files_of_a_size_class() {
    assert!(config_name_matches(&chars("small_one.txt"), &chars("small")));
    assert!(config_name_matches(&chars("small_a_b"), &chars("small")));
    assert!(!config_name_matches(&chars("smaller_one.txt"), &chars("small")));
    assert!(!config_name_matches(&chars("small.txt"), &chars("small")));
    assert!(!config_name_matches(&chars("medium_one"), &chars("small")));
    assert!(config_name_matches(&chars("_x"), &chars("")));
}
