use trod::history::DirEntry;
use trod::picker::{order_by_score, KeyCode, KeyInput, PickerStep, TuiPicker};

fn entry(path: &str) -> DirEntry {
    DirEntry { path: path.to_string(), visit_count: 1, last_visited: 0, first_visited: 0 }
}

fn press(code: KeyCode) -> KeyInput {
    KeyInput { code, ctrl: false, press: true }
}

fn picker(paths: &[&str], query: Option<&str>) -> TuiPicker {
    TuiPicker::new(paths.iter().map(|p| entry(p)).collect(), query.map(|q| q.to_string()))
}

fn done(step: PickerStep) -> Option<String> {
    match step {
        PickerStep::Done(p) => p,
        PickerStep::Continue => panic!("picker did not finish"),
    }
}

#[test]
fn empty_query_shows_everything_in_order() {
    let p = picker(&["/a", "/b", "/c"], None);
    assert_eq!(p.lines(80).len(), 3);
    assert_eq!(p.selected(), Some(0));
    assert_eq!(p.selected_path(), Some("/a".to_string()));
    assert_eq!(p.search_line(), "> ");
}

#[test]
fn no_entries_no_selection() {
    let mut p = picker(&[], None);
    assert_eq!(p.selected(), None);
    p.move_selection(1);
    assert_eq!(p.selected(), None);
    assert_eq!(done(p.handle_key(press(KeyCode::Enter))), None);
}

#[test]
fn query_filters_out_non_matches() {
    let p = picker(&["/home/projects", "/etc", "/var/log"], Some("proj"));
    assert_eq!(p.lines(80).len(), 1);
    assert_eq!(p.selected_path(), Some("/home/projects".to_string()));
    assert_eq!(p.query(), "proj");
    let q = picker(&["/etc"], Some("zzz"));
    assert_eq!(q.selected(), None);
    assert_eq!(q.selected_path(), None);
}

#[test]
fn selection_is_clamped() {
    let mut p = picker(&["/a", "/b", "/c"], None);
    p.move_selection(-1);
    assert_eq!(p.selected(), Some(0));
    p.move_selection(1);
    p.move_selection(1);
    p.move_selection(1);
    assert_eq!(p.selected(), Some(2));
    p.move_selection(-5);
    assert_eq!(p.selected(), Some(0));
}

#[test]
fn keys_move_edit_and_finish() {
    let mut p = picker(&["/a", "/b", "/c"], None);
    assert!(matches!(p.handle_key(press(KeyCode::Down)), PickerStep::Continue));
    assert!(matches!(p.handle_key(press(KeyCode::Tab)), PickerStep::Continue));
    assert_eq!(p.selected(), Some(2));
    p.handle_key(KeyInput { code: KeyCode::Char('k'), ctrl: true, press: true });
    assert_eq!(p.selected(), Some(1));
    p.handle_key(KeyInput { code: KeyCode::Char('j'), ctrl: true, press: true });
    assert_eq!(p.selected(), Some(2));
    p.handle_key(press(KeyCode::BackTab));
    p.handle_key(press(KeyCode::Up));
    assert_eq!(p.selected(), Some(0));
    // a release is ignored
    p.handle_key(KeyInput { code: KeyCode::Down, ctrl: false, press: false });
    assert_eq!(p.selected(), Some(0));
    // typing refilters and highlights the first line
    p.handle_key(press(KeyCode::Down));
    p.handle_key(press(KeyCode::Char('c')));
    assert_eq!(p.query(), "c");
    assert_eq!(p.selected(), Some(0));
    assert_eq!(p.selected_path(), Some("/c".to_string()));
    p.handle_key(press(KeyCode::Backspace));
    assert_eq!(p.query(), "");
    assert_eq!(p.lines(80).len(), 3);
    p.handle_key(press(KeyCode::Backspace));
    assert_eq!(p.query(), "");
    // Ctrl with another letter types it
    p.handle_key(KeyInput { code: KeyCode::Char('b'), ctrl: true, press: true });
    assert_eq!(p.query(), "b");
    assert_eq!(done(p.handle_key(press(KeyCode::Enter))), Some("/b".to_string()));
}

#[test]
fn escape_leaves_with_nothing() {
    let mut p = picker(&["/a"], None);
    assert_eq!(done(p.handle_key(press(KeyCode::Esc))), None);
    assert!(matches!(p.handle_key(press(KeyCode::Other)), PickerStep::Continue));
}

#[test]
fn equal_scores_keep_row_order() {
    let entries = vec![
        DirEntry { path: "/abc".to_string(), visit_count: 1, last_visited: 0, first_visited: 0 },
        DirEntry { path: "/abc".to_string(), visit_count: 2, last_visited: 0, first_visited: 0 },
        DirEntry { path: "/zzz".to_string(), visit_count: 3, last_visited: 0, first_visited: 0 },
    ];
    let p = TuiPicker::new(entries, Some("abc".to_string()));
    let lines = p.lines(80);
    assert_eq!(lines.len(), 2);
    assert!(lines[0].ends_with("   1"));
    assert!(lines[1].ends_with("   2"));
}

#[test]
fn backspace_undoes_typing() {
    let mut p = picker(&["/alpha", "/beta", "/gamma"], Some("a"));
    let before: Vec<String> = p.lines(60);
    p.handle_key(press(KeyCode::Char('l')));
    assert_eq!(p.query(), "al");
    p.handle_key(press(KeyCode::Backspace));
    assert_eq!(p.query(), "a");
    assert_eq!(p.lines(60), before);
    assert_eq!(p.selected(), Some(0));
}

#[test]
fn navigation_keeps_lines_and_query() {
    let mut p = picker(&["/alpha", "/beta", "/gamma"], Some("a"));
    let before = p.lines(60);
    for code in [KeyCode::Down, KeyCode::Up, KeyCode::Tab, KeyCode::BackTab, KeyCode::Other] {
        p.handle_key(press(code));
        assert_eq!(p.lines(60), before);
        assert_eq!(p.query(), "a");
    }
}

#[test]
fn order_by_score_is_stable_descending() {
    let scores = vec![Some(5), None, Some(9), Some(5), None, Some(-2), Some(9)];
    assert_eq!(order_by_score(&scores), vec![2, 6, 0, 3, 5]);
    assert_eq!(order_by_score(&vec![None, None]), Vec::<usize>::new());
    assert_eq!(order_by_score(&vec![]), Vec::<usize>::new());
}
