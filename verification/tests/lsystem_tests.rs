use dangerous_deliveries::lsystem::{Alphabet, LSystem, Turtle};

#[test]
fn alphabet_chars_round_trip() {
    let all = [
        Alphabet::Fwd,
        Alphabet::Left,
        Alphabet::Right,
        Alphabet::Up,
        Alphabet::Down,
        Alphabet::Save,
        Alphabet::Return,
        Alphabet::Place,
        Alphabet::Blank,
    ];
    let chars = ['f', 'l', 'r', 'u', 'd', '[', ']', 'p', '0'];
    for i in 0..all.len() {
        assert_eq!(Alphabet::to_char(all[i]), chars[i]);
        assert_eq!(Alphabet::from_char(chars[i]), Some(all[i]));
    }
    assert_eq!(Alphabet::from_char('x'), None);
    assert_eq!(Alphabet::from_char('F'), None);
}

#[test]
fn turtle_new_keeps_position_and_direction() {
    let t = Turtle::new((1, 2, 3), (-1, 0, 1));
    assert_eq!(t.position, (1, 2, 3));
    assert_eq!(t.direction, (-1, 0, 1));
}

#[test]
fn lsystem_new_defaults() {
    let l = LSystem::new();
    assert_eq!(l.iterations, 2);
    assert_eq!(l.turtles, 1);
    assert!(l.get_current().is_empty());
}

#[test]
fn lsystem_rules_are_stored_by_context() {
    let mut l = LSystem::new();
    let ctx = (Alphabet::Blank, Alphabet::Fwd, Alphabet::Blank);
    l.add_rule(ctx, vec![Alphabet::Fwd, Alphabet::Left]);
    assert_eq!(l.get_exp(ctx), Some(&vec![Alphabet::Fwd, Alphabet::Left]));
    assert_eq!(l.get_exp((Alphabet::Fwd, Alphabet::Fwd, Alphabet::Blank)), None);
    l.add_rule(ctx, vec![Alphabet::Up]);
    assert_eq!(l.get_exp(ctx), Some(&vec![Alphabet::Up]));
}

#[test]
fn lsystem_rewrites_each_letter() {
    let mut l = LSystem::new();
    l.set_current(vec![Alphabet::Fwd]);
    l.add_rule((Alphabet::Blank, Alphabet::Fwd, Alphabet::Blank), vec![Alphabet::Fwd, Alphabet::Left]);
    l.update_all();
    assert_eq!(l.get_current(), &vec![Alphabet::Fwd, Alphabet::Left]);
    l.update_all();
    assert_eq!(l.get_current(), &vec![Alphabet::Fwd, Alphabet::Left, Alphabet::Left]);
}

#[test]
fn lsystem_full_context_wins() {
    let mut l = LSystem::new();
    l.set_current(vec![Alphabet::Up, Alphabet::Fwd, Alphabet::Down]);
    l.add_rule((Alphabet::Blank, Alphabet::Fwd, Alphabet::Blank), vec![Alphabet::Place]);
    l.add_rule((Alphabet::Up, Alphabet::Fwd, Alphabet::Down), vec![Alphabet::Save, Alphabet::Return]);
    l.update_n(1);
    assert_eq!(l.get_current(), &vec![Alphabet::Up, Alphabet::Save, Alphabet::Return, Alphabet::Down]);
}

#[test]
fn lsystem_without_rules_keeps_string() {
    let mut l = LSystem::new();
    l.set_current(vec![Alphabet::Left, Alphabet::Right]);
    l.update_n(3);
    assert_eq!(l.get_current(), &vec![Alphabet::Left, Alphabet::Right]);
}

#[test]
fn lsystem_update_n_composes() {
    let mut a = LSystem::new();
    a.set_current(vec![Alphabet::Fwd]);
    a.add_rule((Alphabet::Blank, Alphabet::Fwd, Alphabet::Blank), vec![Alphabet::Fwd, Alphabet::Fwd]);
    let mut b = LSystem::new();
    b.set_current(vec![Alphabet::Fwd]);
    b.add_rule((Alphabet::Blank, Alphabet::Fwd, Alphabet::Blank), vec![Alphabet::Fwd, Alphabet::Fwd]);
    a.update_n(2);
    b.update_n(1);
    b.update_n(1);
    assert_eq!(a.get_current(), b.get_current());
}

#[test]
fn lsystem_read_from_text() {
    let text = b"# map\niterations 3\nturtles 4\nf l\n0 f 0 f r\n";
    assert!(LSystem::text_ok(text));
    let l = LSystem::from_contents(text);
    assert_eq!(l.iterations, 3);
    assert_eq!(l.turtles, 4);
    assert_eq!(l.get_current(), &vec![Alphabet::Fwd, Alphabet::Left]);
    assert_eq!(
        l.get_exp((Alphabet::Blank, Alphabet::Fwd, Alphabet::Blank)),
        Some(&vec![Alphabet::Fwd, Alphabet::Right])
    );
}

#[test]
fn lsystem_text_that_would_fail() {
    assert!(!LSystem::text_ok(b"iterations\n"));
    assert!(!LSystem::text_ok(b"f\n  \n"));
    assert!(LSystem::text_ok(b"f f\n"));
}

#[test]
fn context_free_rules_rewrite_letter_by_letter() {
    let mut l = LSystem::new();
    l.add_rule((Alphabet::Blank, Alphabet::Fwd, Alphabet::Blank), vec![Alphabet::Fwd, Alphabet::Left]);
    l.add_rule((Alphabet::Blank, Alphabet::Up, Alphabet::Blank), vec![]);
    let u = vec![Alphabet::Fwd, Alphabet::Up, Alphabet::Right];
    let v = vec![Alphabet::Up, Alphabet::Fwd];
    let rewritten = |s: Vec<Alphabet>, l: &mut LSystem| {
        l.set_current(s);
        l.update_all();
        l.get_current().clone()
    };
    let mut both = u.clone();
    both.extend(v.iter().copied());
    let whole = rewritten(both, &mut l);
    let mut parts = rewritten(u, &mut l);
    parts.extend(rewritten(v, &mut l));
    assert_eq!(whole, parts);
    assert_eq!(whole, vec![Alphabet::Fwd, Alphabet::Left, Alphabet::Right, Alphabet::Fwd, Alphabet::Left]);
}
