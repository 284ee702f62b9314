use vstd::prelude::*;
use vstd::relations::{sorted_by, total_ordering};
use vstd::seq_lib::{lemma_multiset_commutative, lemma_sorted_unique};

verus! {

broadcast use vstd::seq_lib::group_to_multiset_ensures;

/// A line's place in a ranking: its score and its position in the input.
pub type Entry = (isize, usize);

/// Whether entry `a` may come before entry `b` in a ranking: a higher score
/// comes first, and of two equal scores the earlier line comes first.
pub open spec fn ranks_before(a: Entry, b: Entry) -> bool {
    a.0 > b.0 || (a.0 == b.0 && a.1 <= b.1)
}

/// The order of a ranking, as a relation.
pub open spec fn rank_order() -> spec_fn(Entry, Entry) -> bool {
    |a: Entry, b: Entry| ranks_before(a, b)
}

/// The ranking of a sequence of entries: the same entries, highest score
/// first, ties in input order.
pub open spec fn ranked(entries: Seq<Entry>) -> Seq<Entry> {
    entries.sort_by(rank_order())
}

/// The order of a ranking is a total order.
pub proof fn lemma_rank_order_total()
    ensures
        total_ordering(rank_order()),
{
}

proof fn lemma_sorted_push(s: Seq<Entry>, e: Entry)
    requires
        sorted_by(s, rank_order()),
        s.len() > 0 ==> ranks_before(s.last(), e),
    ensures
        sorted_by(s.push(e), rank_order()),
{
    let t = s.push(e);
    assert forall|i: int, j: int| 0 <= i < j < t.len() implies #[trigger] rank_order()(t[i], t[j]) by {
        if j == t.len() - 1 {
            if i < s.len() - 1 {
                assert(rank_order()(s[i], s[s.len() - 1]));
            }
        } else {
            assert(rank_order()(s[i], s[j]));
        }
    }
}

/// Merges two rankings into one ranking of all their entries.
fn merge(a: Vec<Entry>, b: Vec<Entry>) -> (r: Vec<Entry>)
    requires
        sorted_by(a@, rank_order()),
        sorted_by(b@, rank_order()),
    ensures
        sorted_by(r@, rank_order()),
        r@.to_multiset() == a@.to_multiset().add(b@.to_multiset()),
{
    let mut out: Vec<Entry> = Vec::new();
    let mut i: usize = 0;
    let mut j: usize = 0;
    while i < a.len() || j < b.len()
        invariant
            sorted_by(a@, rank_order()),
            sorted_by(b@, rank_order()),
            0 <= i <= a.len(),
            0 <= j <= b.len(),
            sorted_by(out@, rank_order()),
            out@.len() > 0 && i < a.len() ==> ranks_before(out@.last(), a@[i as int]),
            out@.len() > 0 && j < b.len() ==> ranks_before(out@.last(), b@[j as int]),
            out@.to_multiset() == a@.subrange(0, i as int).to_multiset().add(
                b@.subrange(0, j as int).to_multiset(),
            ),
        decreases a.len() + b.len() - i - j,
    {
        let take_a = j >= b.len() || (i < a.len() && (a[i].0 > b[j].0 || (a[i].0 == b[j].0
            && a[i].1 <= b[j].1)));
        let ghost old_out = out@;
        if take_a {
            let e = a[i];
            proof {
                lemma_sorted_push(out@, e);
                assert(a@.subrange(0, i + 1) =~= a@.subrange(0, i as int).push(e));
                if i + 1 < a.len() {
                    assert(rank_order()(a@[i as int], a@[i + 1]));
                }
            }
            out.push(e);
            i = i + 1;
            proof {
                assert(out@.last() == e);
                assert(out@.to_multiset() =~= old_out.to_multiset().insert(e));
                assert(out@.to_multiset() =~= a@.subrange(0, i as int).to_multiset().add(
                    b@.subrange(0, j as int).to_multiset(),
                ));
            }
        } else {
            let e = b[j];
            proof {
                lemma_sorted_push(out@, e);
                assert(b@.subrange(0, j + 1) =~= b@.subrange(0, j as int).push(e));
                if j + 1 < b.len() {
                    assert(rank_order()(b@[j as int], b@[j + 1]));
                }
            }
            out.push(e);
            j = j + 1;
            proof {
                assert(out@.last() == e);
                assert(out@.to_multiset() =~= old_out.to_multiset().insert(e));
                assert(out@.to_multiset() =~= a@.subrange(0, i as int).to_multiset().add(
                    b@.subrange(0, j as int).to_multiset(),
                ));
            }
        }
    }
    proof {
        assert(a@.subrange(0, i as int) =~= a@);
        assert(b@.subrange(0, j as int) =~= b@);
    }
    out
}

/// Sorts entries into a ranking by merging sorted halves.
fn merge_sort(v: Vec<Entry>) -> (r: Vec<Entry>)
    ensures
        sorted_by(r@, rank_order()),
        r@.to_multiset() == v@.to_multiset(),
    decreases v@.len(),
{
    if v.len() <= 1 {
        proof {
            assert(sorted_by(v@, rank_order()));
        }
        return v;
    }
    let mid = v.len() / 2;
    let mut left = v;
    let right = left.split_off(mid);
    proof {
        assert(v@ =~= left@ + right@);
        lemma_multiset_commutative(left@, right@);
    }
    let l = merge_sort(left);
    let r = merge_sort(right);
    merge(l, r)
}

/// Ranks the entries: highest score first, equal scores in the order of
/// their positions, as a stable sort by descending score does.
pub fn rank_entries(entries: Vec<Entry>) -> (r: Vec<Entry>)
    ensures
        r@ == ranked(entries@),
{
    let ghost input = entries@;
    let r = merge_sort(entries);
    proof {
        lemma_rank_order_total();
        input.lemma_sort_by_ensures(rank_order());
        lemma_sorted_unique(r@, input.sort_by(rank_order()), rank_order());
    }
    r
}

/// A ranking puts higher scores first.
pub proof fn law_ranking_descends(entries: Seq<Entry>, i: int, j: int)
    requires
        0 <= i < j < ranked(entries).len(),
    ensures
        ranked(entries)[i].0 >= ranked(entries)[j].0,
{
    lemma_rank_order_total();
    entries.lemma_sort_by_ensures(rank_order());
    assert(rank_order()(ranked(entries)[i], ranked(entries)[j]));
}

/// A ranking keeps entries of equal score in the order of their positions.
pub proof fn law_ranking_is_stable(entries: Seq<Entry>, i: int, j: int)
    requires
        0 <= i < j < ranked(entries).len(),
        ranked(entries)[i].0 == ranked(entries)[j].0,
    ensures
        ranked(entries)[i].1 <= ranked(entries)[j].1,
{
    lemma_rank_order_total();
    entries.lemma_sort_by_ensures(rank_order());
    assert(rank_order()(ranked(entries)[i], ranked(entries)[j]));
}

/// A ranking holds exactly the entries it ranks, each as often as before.
pub proof fn law_ranking_keeps_entries(entries: Seq<Entry>)
    ensures
        ranked(entries).to_multiset() == entries.to_multiset(),
        ranked(entries).len() == entries.len(),
        forall|e: Entry| ranked(entries).contains(e) <==> entries.contains(e),
{
    lemma_rank_order_total();
    entries.lemma_sort_by_ensures(rank_order());
    assert(ranked(entries).len() == ranked(entries).to_multiset().len());
    assert(entries.len() == entries.to_multiset().len());
    assert forall|e: Entry| ranked(entries).contains(e) <==> entries.contains(e) by {
        if ranked(entries).contains(e) {
            assert(ranked(entries).to_multiset().count(e) > 0);
        }
        if entries.contains(e) {
            assert(entries.to_multiset().count(e) > 0);
        }
    }
}

/// The ranking is the only arrangement of the entries in rank order: any
/// sequence that holds the same entries, each as often, and in which every
/// entry may come before every later one, is the ranking.
pub proof fn law_ranking_is_unique(entries: Seq<Entry>, arrangement: Seq<Entry>)
    requires
        arrangement.to_multiset() == entries.to_multiset(),
        forall|i: int, j: int|
            0 <= i < j < arrangement.len() ==> ranks_before(
                #[trigger] arrangement[i],
                #[trigger] arrangement[j],
            ),
    ensures
        arrangement == ranked(entries),
{
    lemma_rank_order_total();
    entries.lemma_sort_by_ensures(rank_order());
    assert(sorted_by(arrangement, rank_order())) by {
        assert forall|i: int, j: int| 0 <= i < j < arrangement.len() implies #[trigger] rank_order()(
            arrangement[i],
            arrangement[j],
        ) by {
            assert(ranks_before(arrangement[i], arrangement[j]));
        }
    }
    lemma_sorted_unique(arrangement, ranked(entries), rank_order());
}

} // verus!
