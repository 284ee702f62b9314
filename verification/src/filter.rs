use crate::ranking::{
    law_ranking_descends, law_ranking_is_stable, law_ranking_keeps_entries, rank_entries, ranked,
    Entry,
};
use crate::worker::Cancel;
use vstd::prelude::*;

verus! {

/// The score of the best match of `query` in `target` that
/// `sublime_fuzzy::best_match` finds, or `None` where it finds no match.
pub uninterp spec fn sublime_best_score(query: Seq<char>, target: Seq<char>) -> Option<isize>;

/// Calls `sublime_fuzzy::best_match(query, target)` and reads the score of
/// the match it returns.  The contract claims that the result depends on the
/// two strings alone, and, as the crate documents, that there is no match
/// when either string is empty; the scoring itself is not stated.
#[verifier::external_body]
fn best_match_score(query: &str, target: &str) -> (r: Option<isize>)
    ensures
        r == sublime_best_score(query@, target@),
        query@.len() == 0 ==> r is None,
        target@.len() == 0 ==> r is None,
{
    match sublime_fuzzy::best_match(query, target) {
        Some(m) => Some(m.score()),
        None => None,
    }
}

/// Whether `rff::matcher::matches` finds the characters of `needle`, in
/// order, in `haystack`.
pub uninterp spec fn rff_matches(needle: Seq<char>, haystack: Seq<char>) -> bool;

/// Calls `rff::matcher::matches(needle, haystack)`.  The contract claims
/// that the result depends on the two strings alone, and, as the crate's
/// source shows, that an empty needle and a needle equal to the haystack
/// match; the case-insensitive character comparison is not stated.
#[verifier::external_body]
fn rff_match(needle: &str, haystack: &str) -> (r: bool)
    ensures
        r == rff_matches(needle@, haystack@),
        needle@.len() == 0 ==> r,
        needle@ == haystack@ ==> r,
{
    rff::matcher::matches(needle, haystack)
}

/// A line's score in `filter_lines`: the score of its best match, 0 without one.
pub open spec fn score_or_zero(m: Option<isize>) -> isize {
    match m {
        Some(s) => s,
        None => 0,
    }
}

/// The best-match outcome of `query` for each line.
pub open spec fn best_matches(query: Seq<char>, lines: Seq<String>) -> Seq<Option<isize>> {
    lines.map_values(|l: String| sublime_best_score(query, l@))
}

/// The entry of the line at position `k`: its score and its position.
pub open spec fn entry_at(matches: Seq<Option<isize>>, k: int) -> Entry {
    (score_or_zero(matches[k]), k as usize)
}

/// The entries of the first `n` lines.
pub open spec fn entries_upto(matches: Seq<Option<isize>>, n: int) -> Seq<Entry> {
    Seq::new(n as nat, |k: int| entry_at(matches, k))
}

/// Whether an entry's score is positive.
pub open spec fn has_positive_score() -> spec_fn(Entry) -> bool {
    |e: Entry| e.0 > 0
}

/// The entries of the lines whose score is positive, in line order.
pub open spec fn positive_entries(matches: Seq<Option<isize>>) -> Seq<Entry> {
    entries_upto(matches, matches.len() as int).filter(has_positive_score())
}

/// The lines at the positions that the entries name, in the entries' order.
pub open spec fn lines_at(lines: Seq<String>, order: Seq<Entry>) -> Seq<String> {
    order.map_values(|e: Entry| lines[e.1 as int])
}

/// The lines with a positive score, highest score first, equal scores in
/// input order.
pub open spec fn ranked_lines(lines: Seq<String>, matches: Seq<Option<isize>>) -> Seq<String> {
    lines_at(lines, ranked(positive_entries(matches)))
}

/// The lines in which rff finds the query.
pub open spec fn rff_selection(query: Seq<char>, lines: Seq<String>) -> Seq<String> {
    lines.filter(|l: String| rff_matches(query, l@))
}

/// The lines whose flag is set, in line order.
pub open spec fn flagged_lines(lines: Seq<String>, flags: Seq<bool>) -> Seq<String>
    decreases lines.len(),
{
    if lines.len() == 0 {
        Seq::empty()
    } else {
        let rest = flagged_lines(lines.drop_last(), flags);
        if flags[lines.len() - 1] {
            rest.push(lines.last())
        } else {
            rest
        }
    }
}

/// Ranks lines by the best-match outcome of each: the lines with a positive
/// score, highest score first, equal scores in input order.
pub fn rank_scored_lines(strlines: &Vec<String>, matches: &Vec<Option<isize>>) -> (r: Vec<String>)
    requires
        matches.len() == strlines.len(),
    ensures
        r@ == ranked_lines(strlines@, matches@),
{
    let n = matches.len();
    let mut entries: Vec<Entry> = Vec::new();
    for i in 0..n
        invariant
            n == matches.len(),
            n == strlines.len(),
            entries@ == entries_upto(matches@, i as int).filter(has_positive_score()),
            forall|k: int| 0 <= k < entries@.len() ==> (#[trigger] entries@[k]).1 < i,
    {
        let score = match matches[i] {
            Some(s) => s,
            None => 0,
        };
        proof {
            assert(entries_upto(matches@, i + 1) =~= entries_upto(matches@, i as int).push(
                entry_at(matches@, i as int),
            ));
            entries_upto(matches@, i as int).lemma_filter_push(
                entry_at(matches@, i as int),
                has_positive_score(),
            );
        }
        if score > 0 {
            entries.push((score, i));
        }
    }
    let ghost all = entries@;
    let order = rank_entries(entries);
    proof {
        law_ranking_keeps_entries(all);
        assert forall|k: int| 0 <= k < order@.len() implies (#[trigger] order@[k]).1 < n by {
            assert(ranked(all).contains(order@[k]));
            assert(all.contains(order@[k]));
            let j = choose|j: int| 0 <= j < all.len() && all[j] == order@[k];
            assert(all[j].1 < n);
        }
    }
    let mut out: Vec<String> = Vec::new();
    for k in 0..order.len()
        invariant
            n == strlines.len(),
            order@ == ranked(positive_entries(matches@)),
            forall|j: int| 0 <= j < order@.len() ==> (#[trigger] order@[j]).1 < n,
            out@ == lines_at(strlines@, order@.take(k as int)),
    {
        let pos = order[k].1;
        proof {
            assert(order@.take(k + 1) =~= order@.take(k as int).push(order@[k as int]));
        }
        out.push(strlines[pos].clone());
        proof {
            assert(out@ =~= lines_at(strlines@, order@.take(k + 1)));
        }
    }
    proof {
        assert(order@.take(order@.len() as int) =~= order@);
    }
    out
}

/// Filters lines by fuzzy matching with sublime_fuzzy: an empty query keeps
/// every line as it is; otherwise the lines with a positive best-match score
/// are kept, highest score first and equal scores in input order.
pub fn filter_lines(query: &str, strlines: Vec<String>) -> (r: Vec<String>)
    ensures
        query@.len() == 0 ==> r@ == strlines@,
        query@.len() > 0 ==> r@ == ranked_lines(strlines@, best_matches(query@, strlines@)),
        query@.len() > 0 ==> exists|idx: Seq<int>|
            #[trigger] is_ranked_pick(query@, strlines@, r@, idx),
{
    if query.is_empty() {
        return strlines;
    }
    let mut matches: Vec<Option<isize>> = Vec::new();
    for i in 0..strlines.len()
        invariant
            matches@ == best_matches(query@, strlines@.take(i as int)),
    {
        let m = best_match_score(query, strlines[i].as_str());
        proof {
            assert(strlines@.take(i + 1) =~= strlines@.take(i as int).push(strlines@[i as int]));
        }
        matches.push(m);
        proof {
            assert(matches@ =~= best_matches(query@, strlines@.take(i + 1)));
        }
    }
    proof {
        assert(strlines@.take(strlines@.len() as int) =~= strlines@);
        lemma_ranked_lines_pick(query@, strlines@);
    }
    rank_scored_lines(&strlines, &matches)
}

/// Where each flag says whether its line satisfies a predicate, the flagged
/// lines are the lines that satisfy it.
proof fn lemma_flagged_is_filter(lines: Seq<String>, flags: Seq<bool>, pred: spec_fn(String) -> bool)
    requires
        flags.len() >= lines.len(),
        forall|k: int| 0 <= k < lines.len() ==> flags[k] == pred(#[trigger] lines[k]),
    ensures
        flagged_lines(lines, flags) == lines.filter(pred),
    decreases lines.len(),
{
    reveal(Seq::filter);
    if lines.len() > 0 {
        let init = lines.drop_last();
        assert forall|k: int| 0 <= k < init.len() implies flags[k] == pred(#[trigger] init[k]) by {
            assert(init[k] == lines[k]);
        }
        lemma_flagged_is_filter(init, flags, pred);
    }
}

/// Keeps the lines whose flag is set, in line order.
pub fn keep_flagged(strlines: &Vec<String>, flags: &Vec<bool>) -> (r: Vec<String>)
    requires
        flags.len() == strlines.len(),
    ensures
        r@ == flagged_lines(strlines@, flags@),
{
    let mut out: Vec<String> = Vec::new();
    for i in 0..strlines.len()
        invariant
            flags.len() == strlines.len(),
            out@ == flagged_lines(strlines@.take(i as int), flags@),
    {
        proof {
            assert(strlines@.take(i + 1).drop_last() =~= strlines@.take(i as int));
        }
        if flags[i] {
            out.push(strlines[i].clone());
        }
    }
    proof {
        assert(strlines@.take(strlines@.len() as int) =~= strlines@);
    }
    out
}

/// The matching step of filtering with rff: every line, unchanged, when the
/// query is empty; otherwise `None` when `cancel` says that the work is no
/// longer wanted, and else the lines in which rff finds the query, in input
/// order.  The lines still have to be ordered by rff's score, which is a
/// floating-point number.
pub fn select_rff_matches(query: &str, strlines: &Vec<String>, cancel: &Cancel) -> (r: Option<
    Vec<String>,
>)
    ensures
        query@.len() == 0 ==> r is Some && r->0@ == strlines@,
        query@.len() > 0 ==> (r matches Some(v) ==> v@ == rff_selection(query@, strlines@)),
        cancel is Never ==> r is Some,
        query@.len() > 0 && r is None ==> call_ensures(Cancel::check_done, (cancel,), true),
        query@.len() > 0 && r is Some ==> call_ensures(Cancel::check_done, (cancel,), false),
{
    if query.is_empty() {
        let all = strlines.clone();
        proof {
            assert(all@ =~= strlines@);
        }
        return Some(all);
    }
    let n = strlines.len();
    let mut flags: Vec<bool> = Vec::new();
    for i in 0..n
        invariant
            n == strlines.len(),
            flags.len() == i,
            forall|k: int| 0 <= k < i ==> flags@[k] == rff_matches(query@, (#[trigger] strlines@[k])@),
            query@.len() > 0,
    {
        if cancel.check_done() {
            return None;
        }
        let matched = rff_match(query, strlines[i].as_str());
        flags.push(matched);
    }
    if cancel.check_done() {
        return None;
    }
    let kept = keep_flagged(strlines, &flags);
    proof {
        lemma_flagged_is_filter(strlines@, flags@, |l: String| rff_matches(query@, l@));
    }
    Some(kept)
}

/// Whether the positions of the entries strictly increase.
pub open spec fn positions_increase(s: Seq<Entry>) -> bool {
    forall|i: int, j: int| 0 <= i < j < s.len() ==> s[i].1 < s[j].1
}

proof fn lemma_filter_keeps_increase(s: Seq<Entry>, pred: spec_fn(Entry) -> bool)
    requires
        positions_increase(s),
    ensures
        positions_increase(s.filter(pred)),
    decreases s.len(),
{
    reveal(Seq::filter);
    if s.len() > 0 {
        let init = s.drop_last();
        assert(positions_increase(init));
        lemma_filter_keeps_increase(init, pred);
        let f = init.filter(pred);
        if pred(s.last()) {
            assert forall|i: int| 0 <= i < f.len() implies f[i].1 < s.last().1 by {
                assert(f.contains(f[i]));
                init.lemma_filter_contains_rev(pred, f[i]);
                let k = choose|k: int| 0 <= k < init.len() && init[k] == f[i];
                assert(s[k] == init[k]);
            }
        }
    }
}

/// The entries of the lines with a positive score: each names a line with
/// that score, every line with a positive score is named, and no line twice.
proof fn lemma_positive_entries(matches: Seq<Option<isize>>)
    requires
        matches.len() <= usize::MAX + 1,
    ensures
        positions_increase(positive_entries(matches)),
        forall|e: Entry| #[trigger]
            positive_entries(matches).contains(e) ==> 0 <= e.1 < matches.len() && e.0 > 0 && e
                == entry_at(matches, e.1 as int),
        forall|k: int|
            0 <= k < matches.len() && score_or_zero(matches[k]) > 0 ==> #[trigger] positive_entries(
                matches,
            ).contains(entry_at(matches, k)),
{
    broadcast use vstd::seq_lib::group_filter_ensures;

    let all = entries_upto(matches, matches.len() as int);
    lemma_filter_keeps_increase(all, has_positive_score());
    assert forall|e: Entry| #[trigger]
        positive_entries(matches).contains(e) implies 0 <= e.1 < matches.len() && e.0 > 0 && e
        == entry_at(matches, e.1 as int) by {
        all.lemma_filter_contains_rev(has_positive_score(), e);
        let k = choose|k: int| 0 <= k < all.len() && all[k] == e;
        let i = choose|i: int| 0 <= i < positive_entries(matches).len() && positive_entries(
            matches,
        )[i] == e;
        assert(has_positive_score()(positive_entries(matches)[i]));
    }
    assert forall|k: int| 0 <= k < matches.len() && score_or_zero(matches[k]) > 0 implies #[trigger]
        positive_entries(matches).contains(entry_at(matches, k)) by {
        assert(all[k] == entry_at(matches, k));
    }
}

/// What `filter_lines` returns for a non-empty query, and what
/// `rank_scored_lines` returns: the lines named by the ranking of the lines
/// with a positive score, where that ranking names each such line exactly
/// once, puts higher scores first, and keeps lines of equal score in input
/// order.
pub proof fn law_ranked_lines(lines: Seq<String>, matches: Seq<Option<isize>>)
    requires
        matches.len() == lines.len(),
        lines.len() <= usize::MAX,
    ensures
        ({
            let order = ranked(positive_entries(matches));
            &&& ranked_lines(lines, matches).len() == order.len()
            &&& forall|i: int|
                0 <= i < order.len() ==> {
                    &&& 0 <= (#[trigger] order[i]).1 < lines.len()
                    &&& ranked_lines(lines, matches)[i] == lines[order[i].1 as int]
                    &&& order[i].0 == score_or_zero(matches[order[i].1 as int])
                    &&& order[i].0 > 0
                }
            &&& forall|i: int, j: int|
                0 <= i < j < order.len() ==> (#[trigger] order[i]).0 > (#[trigger] order[j]).0 || (
                order[i].0 == order[j].0 && order[i].1 < order[j].1)
            &&& forall|k: int|
                0 <= k < lines.len() && score_or_zero(matches[k]) > 0 ==> exists|i: int|
                    0 <= i < order.len() && (#[trigger] order[i]).1 == k
        }),
{
    let pos = positive_entries(matches);
    let order = ranked(pos);
    lemma_positive_entries(matches);
    law_ranking_keeps_entries(pos);
    assert forall|i: int| 0 <= i < order.len() implies {
        &&& 0 <= (#[trigger] order[i]).1 < lines.len()
        &&& ranked_lines(lines, matches)[i] == lines[order[i].1 as int]
        &&& order[i].0 == score_or_zero(matches[order[i].1 as int])
        &&& order[i].0 > 0
    } by {
        assert(order.contains(order[i]));
        assert(pos.contains(order[i]));
    }
    // no entry twice, so equal scores come in strictly increasing positions
    assert(pos.no_duplicates());
    pos.lemma_multiset_has_no_duplicates();
    assert forall|x: Entry| order.to_multiset().contains(x) implies order.to_multiset().count(x)
        == 1 by {}
    order.lemma_multiset_has_no_duplicates_conv();
    assert forall|i: int, j: int| 0 <= i < j < order.len() implies (#[trigger] order[i]).0 > (
    #[trigger] order[j]).0 || (order[i].0 == order[j].0 && order[i].1 < order[j].1) by {
        law_ranking_descends(pos, i, j);
        if order[i].0 == order[j].0 {
            law_ranking_is_stable(pos, i, j);
        }
    }
    assert forall|k: int| 0 <= k < lines.len() && score_or_zero(matches[k]) > 0 implies exists|
        i: int,
    | 0 <= i < order.len() && (#[trigger] order[i]).1 == k by {
        assert(pos.contains(entry_at(matches, k)));
        assert(order.contains(entry_at(matches, k)));
        let i = choose|i: int| 0 <= i < order.len() && order[i] == entry_at(matches, k);
        assert(order[i].1 == k);
    }
}

/// Whether `part` is made of the lines of `whole` at the positions `idx`,
/// taken in increasing order, where a position is taken exactly when its
/// flag in `chosen` is set.
pub open spec fn is_ordered_pick(
    whole: Seq<String>,
    part: Seq<String>,
    idx: Seq<int>,
    chosen: Seq<bool>,
) -> bool {
    &&& idx.len() == part.len()
    &&& forall|i: int|
        0 <= i < idx.len() ==> 0 <= #[trigger] idx[i] < whole.len() && part[i] == whole[idx[i]]
    &&& forall|i: int, j: int| 0 <= i < j < idx.len() ==> #[trigger] idx[i] < #[trigger] idx[j]
    &&& forall|k: int|
        0 <= k < whole.len() ==> (#[trigger] chosen[k] <==> exists|i: int|
            0 <= i < idx.len() && idx[i] == k)
}

/// Whether each line satisfies `pred`, position by position.
pub open spec fn flags_of(s: Seq<String>, pred: spec_fn(String) -> bool) -> Seq<bool> {
    Seq::new(s.len(), |k: int| pred(s[k]))
}

/// Whether each line is one that a search with rff keeps: every line for
/// an empty query, else the lines in which rff finds the query.
pub open spec fn rff_kept(query: Seq<char>, lines: Seq<String>) -> Seq<bool> {
    Seq::new(lines.len(), |k: int| query.len() == 0 || rff_matches(query, lines[k]@))
}

/// Filtering keeps, in order, exactly the lines that satisfy the predicate.
proof fn lemma_filter_is_ordered_pick(s: Seq<String>, pred: spec_fn(String) -> bool)
    ensures
        exists|idx: Seq<int>| #[trigger] is_ordered_pick(s, s.filter(pred), idx, flags_of(s, pred)),
    decreases s.len(),
{
    reveal(Seq::filter);
    let flags = flags_of(s, pred);
    if s.len() == 0 {
        let idx = Seq::<int>::empty();
        assert(is_ordered_pick(s, s.filter(pred), idx, flags));
    } else {
        let init = s.drop_last();
        lemma_filter_is_ordered_pick(init, pred);
        let flags0 = flags_of(init, pred);
        let idx0 = choose|idx: Seq<int>| #[trigger] is_ordered_pick(init, init.filter(pred), idx, flags0);
        let last = s.len() - 1;
        let idx = if pred(s.last()) { idx0.push(last) } else { idx0 };
        assert forall|i: int| 0 <= i < idx.len() implies 0 <= #[trigger] idx[i] < s.len() && s.filter(pred)[i] == s[idx[i]] by {
            if i < idx0.len() {
                assert(idx[i] == idx0[i]);
                assert(init[idx0[i]] == s[idx0[i]]);
            }
        }
        assert forall|k: int| 0 <= k < s.len() implies (#[trigger] flags[k] <==> exists|i: int|
            0 <= i < idx.len() && idx[i] == k) by {
            if k < last {
                assert(init[k] == s[k]);
                assert(flags0[k] == flags[k]);
                if flags[k] {
                    let i = choose|i: int| 0 <= i < idx0.len() && idx0[i] == k;
                    assert(idx[i] == k);
                }
                if exists|i: int| 0 <= i < idx.len() && idx[i] == k {
                    let i = choose|i: int| 0 <= i < idx.len() && idx[i] == k;
                    if i < idx0.len() {
                        assert(idx0[i] == k);
                    }
                }
            } else {
                if flags[k] {
                    assert(idx[idx.len() - 1] == k);
                }
                if exists|i: int| 0 <= i < idx.len() && idx[i] == k {
                    let i = choose|i: int| 0 <= i < idx.len() && idx[i] == k;
                    if i < idx0.len() {
                        assert(idx0[i] < init.len());
                    }
                }
            }
        }
        assert forall|i: int, j: int| 0 <= i < j < idx.len() implies #[trigger] idx[i] < #[trigger] idx[j] by {
            if j < idx0.len() {
                assert(idx[i] == idx0[i] && idx[j] == idx0[j]);
            } else {
                assert(idx[i] == idx0[i]);
                assert(idx0[i] < init.len());
            }
        }
        assert(is_ordered_pick(s, s.filter(pred), idx, flags));
    }
}

/// A search with rff gives `None` only for a non-empty query and a token
/// that can be cancelled, after a look at the token said done.  Otherwise it
/// gives the lines in which rff finds the query (every line for an empty
/// query), each once, in input order.
pub proof fn law_rff_search(
    query: &str,
    strlines: &Vec<String>,
    cancel: &Cancel,
    r: Option<Vec<String>>,
)
    requires
        call_ensures(select_rff_matches, (query, strlines, cancel), r),
    ensures
        r is None ==> query@.len() > 0 && cancel is OnMessage && call_ensures(
            Cancel::check_done,
            (cancel,),
            true,
        ),
        r matches Some(v) ==> exists|idx: Seq<int>|
            #[trigger] is_ordered_pick(strlines@, v@, idx, rff_kept(query@, strlines@)),
{
    let kept = rff_kept(query@, strlines@);
    if let Some(v) = r {
        if query@.len() == 0 {
            let idx = Seq::new(strlines@.len(), |k: int| k);
            assert forall|k: int| 0 <= k < strlines@.len() implies (#[trigger] kept[k] <==> exists|i: int|
                0 <= i < idx.len() && idx[i] == k) by {
                assert(idx[k] == k);
            }
            assert(is_ordered_pick(strlines@, v@, idx, kept));
        } else {
            let pred = |l: String| rff_matches(query@, l@);
            lemma_filter_is_ordered_pick(strlines@, pred);
            assert(flags_of(strlines@, pred) =~= kept);
            let idx = choose|idx: Seq<int>| #[trigger] is_ordered_pick(strlines@, strlines@.filter(pred), idx, flags_of(strlines@, pred));
            assert(is_ordered_pick(strlines@, v@, idx, kept));
        }
    }
}

/// The score of the line at position `k` for `query`: the score of its best
/// match found by sublime_fuzzy, 0 without one.
pub open spec fn score_at(query: Seq<char>, lines: Seq<String>, k: int) -> isize {
    score_or_zero(sublime_best_score(query, lines[k]@))
}

/// Whether `part` is made of the lines of `lines` at the positions `idx`:
/// the lines with a positive score, each once, higher scores first and
/// equal scores in input order.
pub open spec fn is_ranked_pick(
    query: Seq<char>,
    lines: Seq<String>,
    part: Seq<String>,
    idx: Seq<int>,
) -> bool {
    &&& idx.len() == part.len()
    &&& forall|i: int|
        0 <= i < idx.len() ==> {
            &&& 0 <= #[trigger] idx[i] < lines.len()
            &&& part[i] == lines[idx[i]]
            &&& score_at(query, lines, idx[i]) > 0
        }
    &&& forall|i: int, j: int|
        0 <= i < j < idx.len() ==> score_at(query, lines, #[trigger] idx[i]) > score_at(
            query,
            lines,
            #[trigger] idx[j],
        ) || (score_at(query, lines, idx[i]) == score_at(query, lines, idx[j]) && idx[i]
            < idx[j])
    &&& forall|k: int|
        0 <= k < lines.len() && #[trigger] score_at(query, lines, k) > 0 ==> exists|i: int|
            0 <= i < idx.len() && idx[i] == k
}

/// The ranking of the lines by their best-match outcomes is the ranked
/// pick of the lines by their own scores.
proof fn lemma_ranked_lines_pick(query: Seq<char>, lines: Seq<String>)
    requires
        lines.len() <= usize::MAX,
    ensures
        exists|idx: Seq<int>|
            #[trigger] is_ranked_pick(query, lines, ranked_lines(lines, best_matches(query, lines)), idx),
{
    let r = ranked_lines(lines, best_matches(query, lines));
    let m = best_matches(query, lines);
    law_ranked_lines(lines, m);
    let order = ranked(positive_entries(m));
    let idx = Seq::new(order.len(), |i: int| order[i].1 as int);
    assert forall|k: int| 0 <= k < lines.len() implies score_or_zero(m[k]) == score_at(
        query,
        lines,
        k,
    ) by {}
    assert forall|i: int| 0 <= i < idx.len() implies {
        &&& 0 <= #[trigger] idx[i] < lines.len()
        &&& r[i] == lines[idx[i]]
        &&& score_at(query, lines, idx[i]) > 0
    } by {
        assert(0 <= order[i].1 < lines.len());
    }
    assert forall|i: int, j: int| 0 <= i < j < idx.len() implies score_at(
        query,
        lines,
        #[trigger] idx[i],
    ) > score_at(query, lines, #[trigger] idx[j]) || (score_at(query, lines, idx[i])
        == score_at(query, lines, idx[j]) && idx[i] < idx[j]) by {
        assert(order[i].0 > order[j].0 || (order[i].0 == order[j].0 && order[i].1
            < order[j].1));
        assert(0 <= order[i].1 < lines.len());
        assert(0 <= order[j].1 < lines.len());
    }
    assert forall|k: int| 0 <= k < lines.len() && #[trigger] score_at(query, lines, k)
        > 0 implies exists|i: int| 0 <= i < idx.len() && idx[i] == k by {
        assert(score_or_zero(m[k]) > 0);
        let i = choose|i: int| 0 <= i < order.len() && (#[trigger] order[i]).1 == k;
        assert(idx[i] == k);
    }
    assert(is_ranked_pick(query, lines, r, idx));
}

/// `filter_lines` gives every line back for an empty query; otherwise it
/// gives exactly the lines whose own best-match score is positive, each
/// once, higher scores first and equal scores in input order.
pub proof fn law_filter_lines(query: &str, strlines: Vec<String>, r: Vec<String>)
    requires
        call_ensures(filter_lines, (query, strlines), r),
        strlines@.len() <= usize::MAX,
    ensures
        query@.len() == 0 ==> r@ == strlines@,
        query@.len() > 0 ==> exists|idx: Seq<int>|
            #[trigger] is_ranked_pick(query@, strlines@, r@, idx),
{
    if query@.len() > 0 {
        lemma_ranked_lines_pick(query@, strlines@);
    }
}

/// Flags past the end of the lines do not matter.
proof fn lemma_flagged_wider(lines: Seq<String>, a: Seq<bool>, b: Seq<bool>)
    requires
        a.len() >= lines.len(),
        b.len() >= lines.len(),
        forall|k: int| 0 <= k < lines.len() ==> a[k] == b[k],
    ensures
        flagged_lines(lines, a) == flagged_lines(lines, b),
    decreases lines.len(),
{
    if lines.len() > 0 {
        lemma_flagged_wider(lines.drop_last(), a, b);
    }
}

/// The flagged lines are the lines at the flagged positions, in order.
proof fn lemma_flagged_is_ordered_pick(lines: Seq<String>, flags: Seq<bool>)
    requires
        flags.len() == lines.len(),
    ensures
        exists|idx: Seq<int>| #[trigger] is_ordered_pick(lines, flagged_lines(lines, flags), idx, flags),
    decreases lines.len(),
{
    if lines.len() == 0 {
        let idx = Seq::<int>::empty();
        assert(is_ordered_pick(lines, flagged_lines(lines, flags), idx, flags));
    } else {
        let init = lines.drop_last();
        let f0 = flags.drop_last();
        lemma_flagged_is_ordered_pick(init, f0);
        lemma_flagged_wider(init, f0, flags);
        let part0 = flagged_lines(init, flags);
        let idx0 = choose|idx: Seq<int>| #[trigger] is_ordered_pick(init, flagged_lines(init, f0), idx, f0);
        let last = lines.len() - 1;
        let idx = if flags[last] { idx0.push(last) } else { idx0 };
        let part = flagged_lines(lines, flags);
        assert forall|i: int| 0 <= i < idx.len() implies 0 <= #[trigger] idx[i] < lines.len() && part[i] == lines[idx[i]] by {
            if i < idx0.len() {
                assert(idx[i] == idx0[i]);
                assert(init[idx0[i]] == lines[idx0[i]]);
            }
        }
        assert forall|k: int| 0 <= k < lines.len() implies (#[trigger] flags[k] <==> exists|i: int|
            0 <= i < idx.len() && idx[i] == k) by {
            if k < last {
                assert(f0[k] == flags[k]);
                if flags[k] {
                    let i = choose|i: int| 0 <= i < idx0.len() && idx0[i] == k;
                    assert(idx[i] == k);
                }
                if exists|i: int| 0 <= i < idx.len() && idx[i] == k {
                    let i = choose|i: int| 0 <= i < idx.len() && idx[i] == k;
                    if i < idx0.len() {
                        assert(idx0[i] == k);
                    }
                }
            } else {
                if flags[k] {
                    assert(idx[idx.len() - 1] == k);
                }
                if exists|i: int| 0 <= i < idx.len() && idx[i] == k {
                    let i = choose|i: int| 0 <= i < idx.len() && idx[i] == k;
                    if i < idx0.len() {
                        assert(idx0[i] < init.len());
                    }
                }
            }
        }
        assert forall|i: int, j: int| 0 <= i < j < idx.len() implies #[trigger] idx[i] < #[trigger] idx[j] by {
            if j < idx0.len() {
                assert(idx[i] == idx0[i] && idx[j] == idx0[j]);
            } else {
                assert(idx[i] == idx0[i]);
                assert(idx0[i] < init.len());
            }
        }
        assert(is_ordered_pick(lines, part, idx, flags));
    }
}

/// `keep_flagged` keeps, in order, exactly the lines whose flag is set.
pub proof fn law_keep_flagged(strlines: &Vec<String>, flags: &Vec<bool>, r: Vec<String>)
    requires
        call_ensures(keep_flagged, (strlines, flags), r),
        flags@.len() == strlines@.len(),
    ensures
        exists|idx: Seq<int>| #[trigger] is_ordered_pick(strlines@, r@, idx, flags@),
{
    lemma_flagged_is_ordered_pick(strlines@, flags@);
}

} // verus!
