use riiry::state::RiiryState;
use riiry::ui::session::{
    handle_event, join_lines, launch_target, top_results, LaunchTarget, UiAction, UiEvent,
    RESULT_LIMIT,
};

fn strings(items: &[&str]) -> Vec<String> {
    items.iter().map(|s| s.to_string()).collect()
}

#[test]
fn join_lines_puts_line_breaks_between() {
    assert_eq!(join_lines(&strings(&[])), "");
    assert_eq!(join_lines(&strings(&["a"])), "a");
    assert_eq!(join_lines(&strings(&["a", "", "c"])), "a\n\nc");
}

#[test]
fn launch_target_by_suffix_after_trimming() {
    match launch_target("  /usr/share/applications/firefox.desktop\n") {
        LaunchTarget::Application(p) => assert_eq!(p, "/usr/share/applications/firefox.desktop"),
        LaunchTarget::File(_) => panic!("expected an application"),
    }
    match launch_target("/home/u/notes.txt\n") {
        LaunchTarget::File(p) => assert_eq!(p, "/home/u/notes.txt"),
        LaunchTarget::Application(_) => panic!("expected a file"),
    }
}

#[test]
fn top_results_takes_at_most_the_limit() {
    let r = strings(&["a", "b", "c"]);
    assert_eq!(top_results(&r, 2), strings(&["a", "b"]));
    assert_eq!(top_results(&r, 5), r);
    assert_eq!(top_results(&r, 0), Vec::<String>::new());
}

#[test]
fn session_loads_searches_and_shows() {
    let mut state = RiiryState::new();
    match handle_event(&mut state, UiEvent::HaystackLoaded(strings(&["a", "b"]))) {
        UiAction::AppendText(t) => assert_eq!(t, "a\nb"),
        _ => panic!("expected text"),
    }
    match handle_event(&mut state, UiEvent::QueryChanged("q".to_string())) {
        UiAction::StartSearch(q, lines) => {
            assert_eq!(q, "q");
            assert_eq!(lines, strings(&["a", "b"]));
        }
        _ => panic!("expected a search"),
    }
    assert_eq!(state.get_needle(), "q");
    match handle_event(&mut state, UiEvent::ResultsReady(Some(strings(&["b"])))) {
        UiAction::ShowResults(t) => assert_eq!(t, "b"),
        _ => panic!("expected results"),
    }
    assert!(matches!(handle_event(&mut state, UiEvent::ResultsReady(None)), UiAction::Nothing));
    assert!(matches!(handle_event(&mut state, UiEvent::EscapePressed), UiAction::Quit));
    assert!(matches!(handle_event(&mut state, UiEvent::WindowClosed), UiAction::Quit));
    assert_eq!(state.get_haystack(), &strings(&["a", "b"]));
}

#[test]
fn session_shows_at_most_the_limit() {
    let mut state = RiiryState::new();
    let many: Vec<String> = (0..RESULT_LIMIT + 5).map(|i| i.to_string()).collect();
    match handle_event(&mut state, UiEvent::ResultsReady(Some(many.clone()))) {
        UiAction::ShowResults(t) => assert_eq!(t, many[..RESULT_LIMIT].join("\n")),
        _ => panic!("expected results"),
    }
}

#[test]
fn session_launches_the_chosen_line() {
    let mut state = RiiryState::new();
    match handle_event(&mut state, UiEvent::Activated("x.desktop\n".to_string())) {
        UiAction::Launch(LaunchTarget::Application(p)) => assert_eq!(p, "x.desktop"),
        _ => panic!("expected an application"),
    }
}

#[test]
fn launch_target_trims_unicode_white_space() {
    match launch_target("\u{3000}\t/home/u/a b.txt\u{a0}\u{2028}") {
        LaunchTarget::File(p) => assert_eq!(p, "/home/u/a b.txt"),
        LaunchTarget::Application(_) => panic!("expected a file"),
    }
    match launch_target(" \n ") {
        LaunchTarget::File(p) => assert_eq!(p, ""),
        LaunchTarget::Application(_) => panic!("expected a file"),
    }
}
