use crate::applications::desktop_suffix;
use crate::state::RiiryState;
use crate::text::{ends_with, has_suffix, is_white_space, lemma_trim_start_end, trim, trimmed};
use vstd::string::StringExecFns;
use vstd::prelude::*;

verus! {

/// How many results the window shows after a search.
pub const RESULT_LIMIT: usize = 100;

/// What the user chose to open.
pub enum LaunchTarget {
    /// A desktop entry, whose command is to be run.
    Application(String),
    /// Any other file, to be opened by the desktop's default program.
    File(String),
}

/// The lines joined by line breaks, as `[String]::join("\n")` joins them.
pub open spec fn joined_lines(lines: Seq<String>) -> Seq<char>
    decreases lines.len(),
{
    if lines.len() == 0 {
        Seq::empty()
    } else if lines.len() == 1 {
        lines[0]@
    } else {
        joined_lines(lines.drop_last()) + seq!['\n'] + lines.last()@
    }
}

/// The lines joined by line breaks.
pub fn join_lines(lines: &Vec<String>) -> (s: String)
    ensures
        s@ == joined_lines(lines@),
{
    let mut out = String::new();
    let newline = "\n";
    proof {
        reveal_strlit("\n");
    }
    for i in 0..lines.len()
        invariant
            newline@ == seq!['\n'],
            out@ == joined_lines(lines@.take(i as int)),
    {
        proof {
            assert(lines@.take(i + 1).drop_last() =~= lines@.take(i as int));
        }
        if i > 0 {
            out.append(newline);
        }
        out.append(lines[i].as_str());
        proof {
            if i == 0 {
                assert(out@ =~= joined_lines(lines@.take(1)));
            } else {
                assert(out@ =~= joined_lines(lines@.take(i + 1)));
            }
        }
    }
    proof {
        assert(lines@.take(lines@.len() as int) =~= lines@);
    }
    out
}

/// The text of a chosen line: the line without surrounding white space.
/// It names a desktop entry when it ends with `.desktop`, any other file
/// otherwise.
pub fn launch_target(line: &str) -> (t: LaunchTarget)
    ensures
        match t {
            LaunchTarget::Application(p) => p@ == trimmed(line@) && has_suffix(
                trimmed(line@),
                desktop_suffix(),
            ),
            LaunchTarget::File(p) => p@ == trimmed(line@) && !has_suffix(
                trimmed(line@),
                desktop_suffix(),
            ),
        },
{
    let path = trim(line);
    let suffix = ".desktop";
    proof {
        reveal_strlit(".desktop");
        assert(suffix@ =~= desktop_suffix());
    }
    if ends_with(path, suffix) {
        LaunchTarget::Application(path.to_owned())
    } else {
        LaunchTarget::File(path.to_owned())
    }
}

/// The first `limit` results, or all of them when there are fewer.
pub fn top_results(results: &Vec<String>, limit: usize) -> (top: Vec<String>)
    ensures
        top@ == results@.take(if results@.len() < limit { results@.len() as int } else { limit as int }),
{
    let n = if results.len() < limit { results.len() } else { limit };
    let mut top: Vec<String> = Vec::new();
    for i in 0..n
        invariant
            n <= results.len(),
            top@ == results@.take(i as int),
    {
        top.push(results[i].clone());
        proof {
            assert(top@ =~= results@.take(i + 1));
        }
    }
    top
}

/// What happened in the window.
pub enum UiEvent {
    /// A batch of lines to search was found.
    HaystackLoaded(Vec<String>),
    /// The query in the entry field changed.
    QueryChanged(String),
    /// A search finished with its results, or `None` when it was cancelled.
    ResultsReady(Option<Vec<String>>),
    /// The entry field was activated while this line was the first one shown.
    Activated(String),
    /// The escape key was pressed.
    EscapePressed,
    /// The window was closed.
    WindowClosed,
}

/// What the window should do next.
pub enum UiAction {
    /// Add this text to the list shown.
    AppendText(String),
    /// Search these lines for this query, in the background.
    StartSearch(String, Vec<String>),
    /// Replace the list shown by this text.
    ShowResults(String),
    /// Open the chosen line, then quit.
    Launch(LaunchTarget),
    /// Quit.
    Quit,
    /// Nothing.
    Nothing,
}

/// How many results of a search are shown.
pub open spec fn shown_count(results: Seq<String>) -> int {
    if results.len() < RESULT_LIMIT {
        results.len() as int
    } else {
        RESULT_LIMIT as int
    }
}

/// Decides what the window does on an event, and keeps the lines loaded so
/// far and the query typed last.
pub fn handle_event(state: &mut RiiryState, event: UiEvent) -> (action: UiAction)
    ensures
        match event {
            UiEvent::HaystackLoaded(chunk) => {
                &&& final(state).haystack_seq() == old(state).haystack_seq() + chunk@
                &&& final(state).needle_seq() == old(state).needle_seq()
                &&& action matches UiAction::AppendText(text) && text@ == joined_lines(chunk@)
            },
            UiEvent::QueryChanged(query) => {
                &&& final(state).needle_seq() == query@
                &&& final(state).haystack_seq() == old(state).haystack_seq()
                &&& action matches UiAction::StartSearch(q, lines) && q@ == query@ && lines@
                    == old(state).haystack_seq()
            },
            UiEvent::ResultsReady(Some(results)) => {
                &&& *final(state) == *old(state)
                &&& action matches UiAction::ShowResults(text) && text@ == joined_lines(
                    results@.take(shown_count(results@)),
                )
                &&& shown_count(results@) == if results@.len() < 100 {
                    results@.len() as int
                } else {
                    100
                }
            },
            UiEvent::ResultsReady(None) => {
                &&& *final(state) == *old(state)
                &&& action is Nothing
            },
            UiEvent::Activated(line) => {
                &&& *final(state) == *old(state)
                &&& action matches UiAction::Launch(t) && match t {
                    LaunchTarget::Application(p) => p@ == trimmed(line@) && has_suffix(
                        trimmed(line@),
                        desktop_suffix(),
                    ),
                    LaunchTarget::File(p) => p@ == trimmed(line@) && !has_suffix(
                        trimmed(line@),
                        desktop_suffix(),
                    ),
                }
            },
            UiEvent::EscapePressed => *final(state) == *old(state) && action is Quit,
            UiEvent::WindowClosed => *final(state) == *old(state) && action is Quit,
        },
{
    match event {
        UiEvent::HaystackLoaded(chunk) => {
            let text = join_lines(&chunk);
            state.extend_haystack(chunk);
            UiAction::AppendText(text)
        },
        UiEvent::QueryChanged(query) => {
            let lines = state.get_haystack().clone();
            proof {
                assert(lines@ =~= state.haystack_seq());
            }
            let q = query.clone();
            state.set_needle(query);
            UiAction::StartSearch(q, lines)
        },
        UiEvent::ResultsReady(Some(results)) => {
            let top = top_results(&results, RESULT_LIMIT);
            UiAction::ShowResults(join_lines(&top))
        },
        UiEvent::ResultsReady(None) => UiAction::Nothing,
        UiEvent::Activated(line) => UiAction::Launch(launch_target(line.as_str())),
        UiEvent::EscapePressed => UiAction::Quit,
        UiEvent::WindowClosed => UiAction::Quit,
    }
}

proof fn lemma_joined_concat(a: Seq<String>, b: Seq<String>)
    requires
        a.len() > 0,
        b.len() > 0,
    ensures
        joined_lines(a + b) == joined_lines(a) + seq!['\n'] + joined_lines(b),
    decreases b.len(),
{
    let ab = a + b;
    assert(ab.drop_last() =~= a + b.drop_last());
    assert(ab.last() == b.last());
    if b.len() == 1 {
        assert(b.drop_last() =~= Seq::<String>::empty());
        assert(a + b.drop_last() =~= a);
        assert(joined_lines(b) == b[0]@);
    } else {
        lemma_joined_concat(a, b.drop_last());
        assert(joined_lines(ab) =~= joined_lines(a) + seq!['\n'] + joined_lines(b));
    }
}

/// Joining puts exactly one line break between the lines: no lines give
/// the empty text, one line gives that line, and joining two non-empty runs
/// of lines one after the other gives the two joined texts with one line
/// break between them.
pub proof fn law_join_lines(
    a: Vec<String>,
    b: Vec<String>,
    ab: Vec<String>,
    ja: String,
    jb: String,
    jab: String,
)
    requires
        call_ensures(join_lines, (&a,), ja),
        call_ensures(join_lines, (&b,), jb),
        call_ensures(join_lines, (&ab,), jab),
        ab@ == a@ + b@,
    ensures
        a@.len() == 0 ==> ja@.len() == 0,
        a@.len() == 1 ==> ja@ == a@[0]@,
        a@.len() > 0 && b@.len() > 0 ==> jab@ == ja@ + seq!['\n'] + jb@,
{
    if a@.len() > 0 && b@.len() > 0 {
        lemma_joined_concat(a@, b@);
    }
}

/// The line chosen when the entry field is activated is opened without its
/// surrounding white space: as a desktop entry when it then ends with
/// `.desktop`, as any other file otherwise.
pub proof fn law_launch_targets(line: &str, t: LaunchTarget)
    requires
        call_ensures(launch_target, (line,), t),
    ensures
        exists|i: int, j: int|
            #![trigger line@.subrange(i, j)]
            {
                &&& 0 <= i <= j <= line@.len()
                &&& forall|k: int| 0 <= k < i ==> is_white_space(#[trigger] line@[k])
                &&& forall|k: int| j <= k < line@.len() ==> is_white_space(#[trigger] line@[k])
                &&& i < j ==> !is_white_space(line@[i]) && !is_white_space(line@[j - 1])
                &&& match t {
                    LaunchTarget::Application(p) => p@ == line@.subrange(i, j) && j - i >= 8
                        && line@.subrange(j - 8, j) == seq!['.', 'd', 'e', 's', 'k', 't', 'o', 'p'],
                    LaunchTarget::File(p) => p@ == line@.subrange(i, j) && !(j - i >= 8
                        && line@.subrange(j - 8, j) == seq!['.', 'd', 'e', 's', 'k', 't', 'o', 'p']),
                }
            },
{
    let s = line@;
    lemma_trim_start_end(s);
    let (i, j) = choose|i: int, j: int|
        {
            &&& 0 <= i <= j <= s.len()
            &&& trimmed(s) == s.subrange(i, j)
            &&& forall|k: int| 0 <= k < i ==> is_white_space(#[trigger] s[k])
            &&& forall|k: int| j <= k < s.len() ==> is_white_space(#[trigger] s[k])
            &&& i < j ==> !is_white_space(s[i]) && !is_white_space(s[j - 1])
        };
    let tr = s.subrange(i, j);
    if j - i >= 8 {
        assert(tr.subrange(tr.len() - 8, tr.len() as int) =~= s.subrange(j - 8, j));
    }
    assert(line@.subrange(i, j) == tr);
}

} // verus!
