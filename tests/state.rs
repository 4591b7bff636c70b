use defaults_diff::diff::detect_diff;
use defaults_diff::snapshot::{DomainSettings, Snapshot};
use defaults_diff::state::{App, Focus, Screen, StatusKind, StatusMessage};
use defaults_diff::value::Value;

fn snapshot(domains: &[(&str, &[(&str, i64)])]) -> Snapshot {
    let mut snap = Snapshot::new();
    for (d, kvs) in domains {
        let mut s = DomainSettings::new();
        for (k, v) in kvs.iter() {
            s.insert(k.to_string(), Value::Integer(*v));
        }
        snap.insert_domain(d.to_string(), s);
    }
    snap
}

#[test]
fn status_messages_expire_after_three_seconds() {
    let m = StatusMessage::info("hi".to_string(), 1000);
    assert_eq!(m.kind, StatusKind::Info);
    assert!(m.is_valid(1000));
    assert!(m.is_valid(3999));
    assert!(!m.is_valid(4000));
    assert!(m.is_valid(10));
    assert_eq!(StatusMessage::success("s".to_string(), 0).kind, StatusKind::Success);
    assert_eq!(StatusMessage::warning("w".to_string(), 0).kind, StatusKind::Warning);
}

#[test]
fn full_capture_cycle_and_navigation() {
    let mut app = App::new();
    assert_eq!(app.screen, Screen::Initial);
    app.start_first_snapshot(0);
    assert!(app.is_loading());
    app.capture_first_snapshot(Ok(snapshot(&[("a", &[("k", 1)]), ("b", &[("k", 1)])])), 10);
    assert_eq!(app.screen, Screen::WaitingForChanges);
    assert_eq!(app.get_status(20).unwrap().text, "✓ Captured 2 domains successfully");
    app.start_second_snapshot(30);
    assert_eq!(app.screen, Screen::LoadingSecond);
    app.capture_second_snapshot(
        Ok(snapshot(&[("a", &[("k", 2), ("m", 1)]), ("b", &[("k", 1)]), ("c", &[("z", 0)])])),
        40,
    );
    assert_eq!(app.screen, Screen::DiffView);
    assert_eq!(app.diff_result.as_ref().unwrap().total_changes, 3);
    let st = app.get_status(50).unwrap();
    assert_eq!(st.text, "✓ Found 3 changes");
    assert_eq!(st.kind, StatusKind::Success);
    assert!(app.get_status(4000).is_none());

    assert_eq!(app.selected_change().unwrap().key(), "k");
    app.move_up();
    assert_eq!(app.selected_domain_index, 0);
    app.toggle_focus();
    assert_eq!(app.focus, Focus::Diff);
    app.move_down();
    assert_eq!(app.selected_diff_index, 1);
    assert_eq!(app.selected_change().unwrap().key(), "m");
    app.move_down();
    assert_eq!(app.selected_diff_index, 1);
    app.toggle_focus();
    app.move_down();
    assert_eq!(app.selected_domain_index, 1);
    assert_eq!(app.selected_diff_index, 0);
    assert_eq!(app.selected_change().unwrap().key(), "z");
    app.move_down();
    assert_eq!(app.selected_domain_index, 1);
    app.move_up();
    assert_eq!(app.selected_domain_index, 0);

    app.reset(100);
    assert_eq!(app.screen, Screen::Initial);
    assert!(app.diff_result.is_none());
    assert_eq!(app.get_status(100).unwrap().text, "Reset complete");
}

#[test]
fn no_changes_gives_warning() {
    let mut app = App::new();
    let s = snapshot(&[("a", &[("k", 1)])]);
    app.capture_first_snapshot(Ok(s.clone()), 0);
    app.capture_second_snapshot(Ok(s), 0);
    let st = app.get_status(0).unwrap();
    assert_eq!(st.text, "No changes detected");
    assert_eq!(st.kind, StatusKind::Warning);
}

#[test]
fn one_change_is_singular() {
    let mut app = App::new();
    app.capture_first_snapshot(Ok(snapshot(&[])), 0);
    app.capture_second_snapshot(Ok(snapshot(&[("a", &[("k", 1)])])), 0);
    assert_eq!(app.get_status(0).unwrap().text, "✓ Found 1 change");
    let r = detect_diff(&snapshot(&[]), &snapshot(&[("a", &[("k", 1)])]));
    assert_eq!(r.total_changes, 1);
}

#[test]
fn capture_error_shows_error_screen() {
    let mut app = App::new();
    app.capture_first_snapshot(Err("boom".to_string()), 0);
    assert_eq!(app.screen, Screen::Error("Failed to capture snapshot: boom".to_string()));
    app.toggle_focus();
    assert_eq!(app.focus, Focus::Domain);
}
