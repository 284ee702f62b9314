use riiry::state::RiiryState;

fn strings(items: &[&str]) -> Vec<String> {
    items.iter().map(|s| s.to_string()).collect()
}

#[test]
fn new_state_is_empty() {
    let s = RiiryState::new();
    assert!(s.get_haystack().is_empty());
    assert_eq!(s.get_needle(), "");
}

#[test]
fn extend_haystack_appends_in_order() {
    let mut s = RiiryState::new();
    s.extend_haystack(strings(&["a", "b"]));
    s.extend_haystack(strings(&["c"]));
    assert_eq!(s.get_haystack(), &strings(&["a", "b", "c"]));
    assert_eq!(s.get_needle(), "");
}

#[test]
fn set_needle_then_get_needle_returns_it() {
    let mut s = RiiryState::new();
    s.extend_haystack(strings(&["x"]));
    s.set_needle("fire".to_string());
    assert_eq!(s.get_needle(), "fire");
    s.set_needle("firefox".to_string());
    assert_eq!(s.get_needle(), "firefox");
    assert_eq!(s.get_haystack(), &strings(&["x"]));
}

#[test]
fn needle_survives_later_extensions() {
    let mut s = RiiryState::new();
    s.set_needle("fox".to_string());
    s.extend_haystack(strings(&["a"]));
    s.extend_haystack(strings(&[]));
    s.extend_haystack(strings(&["b", "c"]));
    assert_eq!(s.get_needle(), "fox");
    assert_eq!(s.get_haystack(), &strings(&["a", "b", "c"]));
}
