use dangerous_deliveries::game_settings::GameSettings;
use dangerous_deliveries::text::{bytes_eq, config_text_check, lines, parse_word_u32, read_settings, words};

fn strs(v: &Vec<Vec<u8>>) -> Vec<String> {
    v.iter().map(|w| String::from_utf8(w.clone()).unwrap()).collect()
}

#[test]
fn lines_split_like_str_lines() {
    let l = lines(b"a\r\nb\n\nc");
    assert_eq!(strs(&l), vec!["a", "b", "", "c"]);
    let l = lines(b"x\n");
    assert_eq!(strs(&l), vec!["x"]);
    assert_eq!(lines(b"").len(), 0);
}

#[test]
fn words_split_on_ascii_whitespace() {
    let w = words(&b"  max_falls \t 7 ".to_vec());
    assert_eq!(strs(&w), vec!["max_falls", "7"]);
    assert_eq!(words(&b"   ".to_vec()).len(), 0);
}

#[test]
fn parse_word_u32_like_str_parse() {
    assert_eq!(parse_word_u32(&b"12".to_vec()), Some(12));
    assert_eq!(parse_word_u32(&b"+12".to_vec()), Some(12));
    assert_eq!(parse_word_u32(&b"007".to_vec()), Some(7));
    assert_eq!(parse_word_u32(&b"4294967295".to_vec()), Some(4294967295));
    assert_eq!(parse_word_u32(&b"4294967296".to_vec()), None);
    assert_eq!(parse_word_u32(&b"12a".to_vec()), None);
    assert_eq!(parse_word_u32(&b"-1".to_vec()), None);
    assert_eq!(parse_word_u32(&b"+".to_vec()), None);
    assert_eq!(parse_word_u32(&b"".to_vec()), None);
}

#[test]
fn bytes_eq_compares_contents() {
    assert!(bytes_eq(&b"abc".to_vec(), &b"abc".to_vec()));
    assert!(!bytes_eq(&b"abc".to_vec(), &b"abd".to_vec()));
    assert!(!bytes_eq(&b"ab".to_vec(), &b"abc".to_vec()));
}

#[test]
fn config_check_finds_lines_that_would_fail() {
    let keys = vec![b"max_falls".to_vec()];
    assert!(config_text_check(b"max_falls 3\n# comment\n\nfoo\n", &keys));
    assert!(!config_text_check(b"max_falls\n", &keys));
    assert!(!config_text_check(b"   \n", &keys));
    assert!(config_text_check(b"", &keys));
}

#[test]
fn read_settings_last_good_line_wins() {
    let keys = vec![b"max_falls".to_vec(), b"opponents".to_vec()];
    let mut values = vec![1u32, 2u32];
    read_settings(b"max_falls 9\nmax_falls x\nopponents 3\n#opponents 5\n", &keys, &mut values);
    assert_eq!(values, vec![9, 3]);
}

#[test]
fn game_settings_defaults() {
    let s = GameSettings::new();
    assert_eq!((s.max_falls, s.n_opponents, s.ai_sight_radius, s.giveup_turns), (4, 2, 8, 3));
}

#[test]
fn game_settings_read_from_text() {
    let text = b"# game\nmax_falls 10\nopponents 5\nai_sight_radius 12\ngiveup_turns 1\nunknown 4\n";
    assert!(GameSettings::settings_text_ok(text));
    let mut s = GameSettings::new();
    s.properties_from_contents(text);
    assert_eq!((s.max_falls, s.n_opponents, s.ai_sight_radius, s.giveup_turns), (10, 5, 12, 1));
}

#[test]
fn game_settings_bad_number_keeps_value() {
    let mut s = GameSettings::new();
    s.properties_from_contents(b"opponents many\ngiveup_turns 0\n");
    assert_eq!((s.max_falls, s.n_opponents, s.ai_sight_radius, s.giveup_turns), (4, 2, 8, 0));
}

#[test]
fn game_settings_text_that_would_fail() {
    assert!(!GameSettings::settings_text_ok(b"giveup_turns\n"));
    assert!(!GameSettings::settings_text_ok(b"max_falls 2\n \n"));
    assert!(GameSettings::settings_text_ok(b"lonely\n"));
}
