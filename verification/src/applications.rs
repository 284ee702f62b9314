use crate::text::{ends_with, has_suffix, is_part_of};
use regex::Regex;
use vstd::prelude::*;

verus! {

/// Whether `t` has, at position `p`, a line break followed by `key`.
pub open spec fn key_after_break(t: Seq<char>, p: int, key: Seq<char>) -> bool {
    &&& 0 <= p
    &&& p + 1 + key.len() <= t.len()
    &&& t[p] == '\n'
    &&& t.subrange(p + 1, p + 1 + key.len()) == key
}

/// Whether no line break stands between positions `from` and `to`.
pub open spec fn no_break(t: Seq<char>, from: int, to: int) -> bool {
    forall|k: int| from <= k < to ==> t[k] != '\n'
}

/// The key of a desktop entry's type line.
pub open spec fn type_key() -> Seq<char> {
    seq!['T', 'y', 'p', 'e', '=']
}

/// The word that marks an application.
pub open spec fn application_word() -> Seq<char> {
    seq!['A', 'p', 'p', 'l', 'i', 'c', 'a', 't', 'i', 'o', 'n']
}

/// The key of a desktop entry's command line.
pub open spec fn exec_key() -> Seq<char> {
    seq!['E', 'x', 'e', 'c', '=']
}

/// Whether the line that starts after the break at `p` and ends at the
/// break at `q` is a type line that mentions `Application` at `a`.
pub open spec fn application_type_line(t: Seq<char>, p: int, a: int, q: int) -> bool {
    &&& key_after_break(t, p, type_key())
    &&& p + 6 <= a
    &&& a + 11 <= q < t.len()
    &&& t[q] == '\n'
    &&& no_break(t, p + 6, q)
    &&& t.subrange(a, a + 11) == application_word()
}

/// Whether some single line, between two line breaks, starts with `Type=`
/// and mentions `Application`.
pub open spec fn names_application(t: Seq<char>) -> bool {
    exists|p: int, a: int, q: int| application_type_line(t, p, a, q)
}

/// Whether the line that starts after the break at `p` and ends at the
/// break at `q` is a command line: it starts with `Exec=`.
pub open spec fn exec_line(t: Seq<char>, p: int, q: int) -> bool {
    &&& key_after_break(t, p, exec_key())
    &&& p + 6 <= q < t.len()
    &&& t[q] == '\n'
    &&& no_break(t, p + 6, q)
}

/// Whether `t` has a command line.
pub open spec fn has_exec_line(t: Seq<char>) -> bool {
    exists|p: int, q: int| exec_line(t, p, q)
}

/// Whether `cmd` is the rest of the first command line of `t`.
pub open spec fn is_first_command(t: Seq<char>, cmd: Seq<char>) -> bool {
    exists|p: int, q: int|
        {
            &&& exec_line(t, p, q)
            &&& cmd == t.subrange(p + 6, q)
            &&& forall|p2: int, q2: int| p2 < p ==> !exec_line(t, p2, q2)
        }
}

/// Whether the regular expression `pattern`, as the `regex` crate reads it,
/// matches somewhere in `haystack`; `None` when the crate refuses the pattern.
pub uninterp spec fn regex_finds(pattern: Seq<char>, haystack: Seq<char>) -> Option<bool>;

/// Calls `regex::Regex::new(pattern)` and, when the pattern is accepted,
/// `Regex::is_match(haystack)` on the compiled expression.  The contract
/// claims that the outcome depends on the two strings alone, and what the
/// crate's documented syntax makes of the pattern `\nType=.*Application.*\n`:
/// it is accepted, `\n` is a line break and `.` any character but a line
/// break, so it matches where one line between two breaks starts with
/// `Type=` and mentions `Application`.  The language is not stated for other
/// patterns.
#[verifier::external_body]
fn regex_is_match(pattern: &str, haystack: &str) -> (r: Option<bool>)
    ensures
        r == regex_finds(pattern@, haystack@),
        pattern@ == seq![
            '\\', 'n', 'T', 'y', 'p', 'e', '=', '.', '*', 'A', 'p', 'p', 'l', 'i', 'c', 'a', 't',
            'i', 'o', 'n', '.', '*', '\\', 'n',
        ] ==> r == Some(names_application(haystack@)),
{
    match Regex::new(pattern) {
        Ok(re) => Some(re.is_match(haystack)),
        Err(_) => None,
    }
}

/// The text of capture group `group` in the first match of the regular
/// expression `pattern` in `haystack`, as the `regex` crate finds it:
/// `None` when the crate refuses the pattern, `Some(None)` when there is no
/// match or the group takes no part in it.
pub uninterp spec fn regex_group(pattern: Seq<char>, haystack: Seq<char>, group: usize) -> Option<
    Option<Seq<char>>,
>;

/// Calls `regex::Regex::new(pattern)` and, when the pattern is accepted,
/// `Regex::captures(haystack)`, `Captures::get(group)` and `Match::as_str`.
/// The contract claims that the outcome depends on the arguments alone and,
/// as the crate documents for a match, that the text found is a contiguous
/// part of the haystack.  Of the pattern `\nExec=(.*)\n` and its first group
/// it claims what the crate's documented syntax and leftmost-first matching
/// make of them: the pattern is accepted, and the group is the rest of the
/// first line, between two breaks, that starts with `Exec=`, if there is
/// one.  The language is not stated for other patterns.
#[verifier::external_body]
fn regex_capture(pattern: &str, haystack: &str, group: usize) -> (r: Option<Option<String>>)
    ensures
        pattern@ == seq!['\\', 'n', 'E', 'x', 'e', 'c', '=', '(', '.', '*', ')', '\\', 'n']
            && group == 1 ==> match r {
            Some(Some(s)) => is_first_command(haystack@, s@),
            Some(None) => !has_exec_line(haystack@),
            None => false,
        },
        match r {
            None => regex_group(pattern@, haystack@, group) is None,
            Some(None) => regex_group(pattern@, haystack@, group) == Some(None::<Seq<char>>),
            Some(Some(s)) => {
                &&& regex_group(pattern@, haystack@, group) == Some(Some(s@))
                &&& is_part_of(s@, haystack@)
            },
        },
{
    match Regex::new(pattern) {
        Ok(re) => match re.captures(haystack) {
            Some(caps) => match caps.get(group) {
                Some(m) => Some(Some(m.as_str().to_string())),
                None => Some(None),
            },
            None => Some(None),
        },
        Err(_) => None,
    }
}

/// The pattern of a `Type=` line that names an application.
pub open spec fn type_application_pattern() -> Seq<char> {
    seq!['\\', 'n', 'T', 'y', 'p', 'e', '=', '.', '*', 'A', 'p', 'p', 'l', 'i', 'c', 'a', 't', 'i', 'o', 'n', '.', '*', '\\', 'n']
}

/// The pattern of an `Exec=` line, whose command is the first group.
pub open spec fn exec_command_pattern() -> Seq<char> {
    seq!['\\', 'n', 'E', 'x', 'e', 'c', '=', '(', '.', '*', ')', '\\', 'n']
}

/// The suffix of desktop entry file names.
pub open spec fn desktop_suffix() -> Seq<char> {
    seq!['.', 'd', 'e', 's', 'k', 't', 'o', 'p']
}

/// Whether a file is a desktop entry by its name: a name that is not valid
/// Unicode (`None`) is not, a name is when it ends with `.desktop`.
pub fn is_desktop(file_name: Option<&str>) -> (r: bool)
    ensures
        r == (file_name matches Some(n) && has_suffix(n@, desktop_suffix())),
{
    match file_name {
        Some(n) => {
            let suffix = ".desktop";
            proof {
                reveal_strlit(".desktop");
                assert(suffix@ =~= desktop_suffix());
            }
            ends_with(n, suffix)
        },
        None => false,
    }
}

/// Whether a desktop entry describes an application, by its contents: an
/// entry that could not be read (`None`) does not; one does when a line
/// `Type=` that mentions `Application` stands between two line breaks.
pub fn is_xdg_application(contents: Option<&str>) -> (r: bool)
    ensures
        r == (contents matches Some(t) && regex_finds(type_application_pattern(), t@) == Some(
            true,
        )),
        r == (contents matches Some(t) && names_application(t@)),
{
    match contents {
        Some(t) => {
            let pattern = "\\nType=.*Application.*\\n";
            proof {
                reveal_strlit("\\nType=.*Application.*\\n");
                assert(pattern@ =~= type_application_pattern());
            }
            match regex_is_match(pattern, t) {
                Some(found) => found,
                None => false,
            }
        },
        None => false,
    }
}

/// The command of a desktop entry: the rest of the first line `Exec=` that
/// stands between two line breaks, or `None` when there is none.
pub fn exec_command(contents: &str) -> (r: Option<String>)
    ensures
        match regex_group(exec_command_pattern(), contents@, 1) {
            Some(Some(cmd)) => r is Some && r->0@ == cmd,
            _ => r is None,
        },
        r matches Some(cmd) ==> is_first_command(contents@, cmd@),
        r is None ==> !has_exec_line(contents@),
{
    let pattern = "\\nExec=(.*)\\n";
    proof {
        reveal_strlit("\\nExec=(.*)\\n");
        assert(pattern@ =~= exec_command_pattern());
    }
    match regex_capture(pattern, contents, 1) {
        Some(Some(cmd)) => Some(cmd),
        _ => None,
    }
}

/// A file is a desktop entry exactly when its name is valid Unicode and
/// its last eight characters are `.desktop`.
pub proof fn law_desktop_names(file_name: Option<&str>, r: bool)
    requires
        call_ensures(is_desktop, (file_name,), r),
    ensures
        r == (file_name matches Some(n) && n@.len() >= 8 && n@.subrange(
            n@.len() - 8,
            n@.len() as int,
        ) == seq!['.', 'd', 'e', 's', 'k', 't', 'o', 'p']),
{
}

/// An entry is an application exactly when it could be read and one of its
/// lines, between two line breaks, starts with `Type=` and itself holds
/// `Application`; the word on any other line does not count.
pub proof fn law_xdg_applications(contents: Option<&str>, r: bool)
    requires
        call_ensures(is_xdg_application, (contents,), r),
    ensures
        r == (contents matches Some(t) && exists|p: int, a: int, q: int|
            #![trigger t@[p], t@[q], t@.subrange(a, a + 11)]
            {
                &&& 0 <= p
                &&& p + 6 <= a
                &&& a + 11 <= q < t@.len()
                &&& t@[p] == '\n'
                &&& t@[p + 1] == 'T' && t@[p + 2] == 'y' && t@[p + 3] == 'p' && t@[p + 4] == 'e'
                    && t@[p + 5] == '='
                &&& t@.subrange(a, a + 11) == seq!['A', 'p', 'p', 'l', 'i', 'c', 'a', 't', 'i', 'o', 'n']
                &&& t@[q] == '\n'
                &&& forall|k: int| p + 6 <= k < q ==> t@[k] != '\n'
            }),
{
    if let Some(t) = contents {
        let s = t@;
        assert forall|p: int, a: int, q: int| #[trigger] application_type_line(s, p, a, q) <==> {
            &&& 0 <= p
            &&& p + 6 <= a
            &&& a + 11 <= q < s.len()
            &&& s[p] == '\n'
            &&& s[p + 1] == 'T' && s[p + 2] == 'y' && s[p + 3] == 'p' && s[p + 4] == 'e' && s[p
                + 5] == '='
            &&& s.subrange(a, a + 11) == seq!['A', 'p', 'p', 'l', 'i', 'c', 'a', 't', 'i', 'o', 'n']
            &&& s[q] == '\n'
            &&& forall|k: int| p + 6 <= k < q ==> s[k] != '\n'
        } by {
            if 0 <= p && p + 6 <= s.len() {
                if s[p + 1] == 'T' && s[p + 2] == 'y' && s[p + 3] == 'p' && s[p + 4] == 'e' && s[p
                    + 5] == '=' {
                    assert(s.subrange(p + 1, p + 6) =~= type_key());
                }
                if s.subrange(p + 1, p + 6) == type_key() {
                    assert(s.subrange(p + 1, p + 6)[0] == s[p + 1]);
                    assert(s.subrange(p + 1, p + 6)[1] == s[p + 2]);
                    assert(s.subrange(p + 1, p + 6)[2] == s[p + 3]);
                    assert(s.subrange(p + 1, p + 6)[3] == s[p + 4]);
                    assert(s.subrange(p + 1, p + 6)[4] == s[p + 5]);
                }
            }
        }
        if names_application(s) {
            let (p, a, q) = choose|p: int, a: int, q: int| application_type_line(s, p, a, q);
            assert(application_type_line(s, p, a, q));
            assert(s[p] == '\n' && s[q] == '\n' && s.subrange(a, a + 11) == application_word());
        }
        if exists|p: int, a: int, q: int|
            #![trigger s[p], s[q], s.subrange(a, a + 11)]
            {
                &&& 0 <= p
                &&& p + 6 <= a
                &&& a + 11 <= q < s.len()
                &&& s[p] == '\n'
                &&& s[p + 1] == 'T' && s[p + 2] == 'y' && s[p + 3] == 'p' && s[p + 4] == 'e'
                    && s[p + 5] == '='
                &&& s.subrange(a, a + 11) == seq!['A', 'p', 'p', 'l', 'i', 'c', 'a', 't', 'i', 'o', 'n']
                &&& s[q] == '\n'
                &&& forall|k: int| p + 6 <= k < q ==> s[k] != '\n'
            } {
            let (p, a, q) = choose|p: int, a: int, q: int|
                #![trigger s[p], s[q], s.subrange(a, a + 11)]
                {
                    &&& 0 <= p
                    &&& p + 6 <= a
                    &&& a + 11 <= q < s.len()
                    &&& s[p] == '\n'
                    &&& s[p + 1] == 'T' && s[p + 2] == 'y' && s[p + 3] == 'p' && s[p + 4] == 'e'
                        && s[p + 5] == '='
                    &&& s.subrange(a, a + 11) == seq!['A', 'p', 'p', 'l', 'i', 'c', 'a', 't', 'i', 'o', 'n']
                    &&& s[q] == '\n'
                    &&& forall|k: int| p + 6 <= k < q ==> s[k] != '\n'
                };
            assert(application_type_line(s, p, a, q));
        }
    }
}

/// The command of an entry is the rest of its first line that starts,
/// right after a line break, with exactly `Exec=` and ends at the next line
/// break; no line holds such a start before it.  A line whose key only ends
/// in `Exec` (such as `TryExec=`) never supplies it.  Without such a line
/// there is no command.
pub proof fn law_exec_commands(contents: &str, r: Option<String>)
    requires
        call_ensures(exec_command, (contents,), r),
    ensures
        r matches Some(cmd) ==> exists|p: int|
            #![trigger contents@[p]]
            {
                let e = p + 6 + cmd@.len();
                &&& 0 <= p
                &&& e < contents@.len()
                &&& contents@[p] == '\n'
                &&& contents@.subrange(p + 1, p + 6) == seq!['E', 'x', 'e', 'c', '=']
                &&& contents@.subrange(p + 6, e) == cmd@
                &&& contents@[e] == '\n'
                &&& forall|k: int| 0 <= k < cmd@.len() ==> cmd@[k] != '\n'
                &&& forall|p2: int|
                    0 <= p2 < p && p2 + 6 <= contents@.len() ==> !(contents@[p2] == '\n'
                        && contents@.subrange(p2 + 1, p2 + 6) == seq!['E', 'x', 'e', 'c', '='])
            },
        r is None ==> forall|p: int, q: int|
            #![trigger contents@[p], contents@[q]]
            0 <= p && p + 6 <= q < contents@.len() && contents@[p] == '\n' && contents@.subrange(
                p + 1,
                p + 6,
            ) == seq!['E', 'x', 'e', 'c', '='] && contents@[q] == '\n' ==> exists|k: int|
                p + 6 <= k < q && contents@[k] == '\n',
{
    let t = contents@;
    if let Some(cmd) = r {
        let (p, q) = choose|p: int, q: int|
            {
                &&& exec_line(t, p, q)
                &&& cmd@ == t.subrange(p + 6, q)
                &&& forall|p2: int, q2: int| p2 < p ==> !exec_line(t, p2, q2)
            };
        assert(p + 6 + cmd@.len() == q);
        assert forall|k: int| 0 <= k < cmd@.len() implies cmd@[k] != '\n' by {
            assert(cmd@[k] == t[p + 6 + k]);
        }
        assert forall|p2: int|
            0 <= p2 < p && p2 + 6 <= t.len() implies !(t[p2] == '\n' && t.subrange(p2 + 1, p2 + 6)
            == seq!['E', 'x', 'e', 'c', '=']) by {
            if t[p2] == '\n' && t.subrange(p2 + 1, p2 + 6) == seq!['E', 'x', 'e', 'c', '='] {
                // the line at p2 would end at the first break from p2 + 6 on, at most at p
                assert(t.subrange(p2 + 1, p2 + 6)[4] == t[p2 + 5]);
                assert(t.subrange(p + 1, p + 6) == exec_key());
                assert(t.subrange(p + 1, p + 6)[0] == t[p + 1]);
                assert(t.subrange(p2 + 1, p2 + 6)[0] == t[p2 + 1]);
                assert(t.subrange(p2 + 1, p2 + 6)[1] == t[p2 + 2]);
                assert(t.subrange(p2 + 1, p2 + 6)[2] == t[p2 + 3]);
                assert(t.subrange(p2 + 1, p2 + 6)[3] == t[p2 + 4]);
                assert(p2 + 6 <= p);
                lemma_first_break(t, p2 + 6, p);
                let q2 = choose|q2: int| p2 + 6 <= q2 <= p && t[q2] == '\n' && no_break(t, p2 + 6, q2);
                assert(exec_line(t, p2, q2));
            }
        }
    } else {
        assert forall|p: int, q: int|
            #![trigger t[p], t[q]]
            0 <= p && p + 6 <= q < t.len() && t[p] == '\n' && t.subrange(p + 1, p + 6) == seq![
                'E',
                'x',
                'e',
                'c',
                '=',
            ] && t[q] == '\n' implies exists|k: int| p + 6 <= k < q && t[k] == '\n' by {
            lemma_first_break(t, p + 6, q);
            let q2 = choose|q2: int| p + 6 <= q2 <= q && t[q2] == '\n' && no_break(t, p + 6, q2);
            if q2 == q {
                assert(exec_line(t, p, q));
            }
        }
    }
}

/// Where a line break stands at `to`, there is a first one from `from` on.
proof fn lemma_first_break(t: Seq<char>, from: int, to: int)
    requires
        0 <= from <= to < t.len(),
        t[to] == '\n',
    ensures
        exists|q: int| from <= q <= to && t[q] == '\n' && no_break(t, from, q),
    decreases to - from,
{
    if t[from] == '\n' {
        assert(no_break(t, from, from));
    } else {
        lemma_first_break(t, from + 1, to);
        let q = choose|q: int| from + 1 <= q <= to && t[q] == '\n' && no_break(t, from + 1, q);
        assert(no_break(t, from, q));
    }
}

} // verus!
