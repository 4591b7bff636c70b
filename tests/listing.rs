use defaults_diff::listing::{parse_domain_list, poll_step, PollStep};
use defaults_diff::state::{App, Focus, Key, Screen};
use defaults_diff::snapshot::{DomainSettings, Snapshot};
use defaults_diff::value::Value;

#[test]
fn domain_list_is_split_trimmed_and_filtered() {
    assert_eq!(
        parse_domain_list("com.apple.finder, NSGlobalDomain,\n com.example.app \n"),
        vec!["com.apple.finder", "NSGlobalDomain", "com.example.app"]
    );
    assert_eq!(parse_domain_list(""), Vec::<String>::new());
    assert_eq!(parse_domain_list(" , ,,\t"), Vec::<String>::new());
    assert_eq!(parse_domain_list("one"), vec!["one"]);
    assert_eq!(parse_domain_list("\u{3000}wide\u{a0},x y"), vec!["wide", "x y"]);
}

#[test]
fn poll_steps() {
    assert_eq!(poll_step(true, 10, 5), PollStep::Collect);
    assert_eq!(poll_step(false, 10, 5), PollStep::Kill);
    assert_eq!(poll_step(false, 5, 5), PollStep::Wait);
}

#[test]
fn keys_drive_the_state() {
    let mut app = App::new();
    assert!(!app.handle_key(Key::Enter, 0));
    assert_eq!(app.screen, Screen::LoadingFirst);
    let mut s = DomainSettings::new();
    s.insert("k".to_string(), Value::Integer(1));
    let mut snap = Snapshot::new();
    snap.insert_domain("d".to_string(), s);
    app.capture_first_snapshot(Ok(Snapshot::new()), 0);
    assert!(!app.handle_key(Key::Enter, 0));
    assert_eq!(app.screen, Screen::LoadingSecond);
    app.capture_second_snapshot(Ok(snap), 0);
    assert!(!app.handle_key(Key::Copy, 0));
    assert!(!app.handle_key(Key::Tab, 0));
    assert_eq!(app.focus, Focus::Diff);
    assert!(app.handle_key(Key::Copy, 0));
    assert!(!app.handle_key(Key::Other, 0));
    assert!(!app.handle_key(Key::Quit, 0));
    assert!(app.should_quit);
    app.capture_first_snapshot(Err("x".to_string()), 0);
    app.handle_enter(5);
    assert_eq!(app.screen, Screen::Initial);
}
