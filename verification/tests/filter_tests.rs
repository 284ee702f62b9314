use riiry::filter::{filter_lines, keep_flagged, rank_scored_lines, select_rff_matches};
use riiry::ranking::rank_entries;
use riiry::worker::{Cancel, Worker};

fn strings(items: &[&str]) -> Vec<String> {
    items.iter().map(|s| s.to_string()).collect()
}

/// The ranking as a stable sort by descending score computes it.
fn reference_filter(query: &str, lines: Vec<String>) -> Vec<String> {
    if query.is_empty() {
        return lines;
    }
    let mut matches: Vec<(isize, String)> = lines
        .into_iter()
        .map(|s| match sublime_fuzzy::best_match(query, &s) {
            Some(m) => (m.score(), s),
            None => (0, s),
        })
        .filter(|t| t.0 > 0)
        .collect();
    matches.sort_by(|a, b| a.0.cmp(&b.0).reverse());
    matches.into_iter().map(|t| t.1).collect()
}

#[test]
fn rank_entries_orders_by_descending_score_then_position() {
    let ranked = rank_entries(vec![(3, 0), (7, 1), (3, 2), (9, 3), (7, 4), (1, 5)]);
    assert_eq!(ranked, vec![(9, 3), (7, 1), (7, 4), (3, 0), (3, 2), (1, 5)]);
}

#[test]
fn rank_entries_of_nothing_is_nothing() {
    assert_eq!(rank_entries(vec![]), vec![]);
}

#[test]
fn rank_scored_lines_drops_unscored_and_nonpositive() {
    let lines = strings(&["a", "b", "c", "d", "e"]);
    let matches = vec![Some(5), None, Some(0), Some(-3), Some(5)];
    assert_eq!(rank_scored_lines(&lines, &matches), strings(&["a", "e"]));
}

#[test]
fn rank_scored_lines_higher_scores_first() {
    let lines = strings(&["low", "high", "mid", "high2"]);
    let matches = vec![Some(1), Some(50), Some(10), Some(50)];
    assert_eq!(rank_scored_lines(&lines, &matches), strings(&["high", "high2", "mid", "low"]));
}

#[test]
fn filter_lines_empty_query_keeps_everything() {
    let lines = strings(&["zeta", "alpha", ""]);
    assert_eq!(filter_lines("", lines.clone()), lines);
}

#[test]
fn filter_lines_keeps_only_matches() {
    let lines = strings(&["abc", "SoccerCartoonController", "xyz"]);
    assert_eq!(filter_lines("scc", lines), strings(&["SoccerCartoonController"]));
}

#[test]
fn filter_lines_agrees_with_a_stable_sort_by_score() {
    let lines = strings(&[
        "/usr/share/applications/firefox.desktop",
        "/home/u/notes.txt",
        "/usr/share/applications/org.gnome.Files.desktop",
        "/home/u/fire/readme",
        "/home/u/Firefox profile",
        "/usr/bin/fish",
        "ff",
    ]);
    for query in ["fire", "f", "fox", "desktop", "nothing here", "u"] {
        assert_eq!(filter_lines(query, lines.clone()), reference_filter(query, lines.clone()));
    }
}

#[test]
fn filter_lines_whitespace_query_finds_nothing() {
    assert_eq!(filter_lines("  ", strings(&["a b", "  "])), Vec::<String>::new());
}

#[test]
fn keep_flagged_keeps_flagged_lines_in_order() {
    let lines = strings(&["a", "b", "c"]);
    assert_eq!(keep_flagged(&lines, &vec![true, false, true]), strings(&["a", "c"]));
    assert_eq!(keep_flagged(&lines, &vec![false, false, false]), Vec::<String>::new());
}

#[test]
fn select_rff_matches_keeps_subsequence_matches() {
    let lines = strings(&["a1b2c3", "cab", "ABC", "ab"]);
    assert_eq!(
        select_rff_matches("abc", &lines, &Cancel::Never),
        Some(strings(&["a1b2c3", "ABC"]))
    );
}

#[test]
fn select_rff_matches_empty_query_keeps_everything() {
    let lines = strings(&["b", "a"]);
    assert_eq!(select_rff_matches("", &lines, &Cancel::Never), Some(lines.clone()));
}

#[test]
fn select_rff_matches_stops_when_cancelled() {
    let mut w = Worker::new();
    let first = w.start_job();
    let _second = w.start_job();
    let lines = strings(&["abc"]);
    assert_eq!(select_rff_matches("a", &lines, &first), None);
}
