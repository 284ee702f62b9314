use vstd::prelude::*;

verus! {

/// What the launcher searches: every line loaded so far (the haystack) and
/// the query that was typed last (the needle).
pub struct RiiryState {
    haystack: Vec<String>,
    needle: String,
}

/// One change to a state, as `extend_haystack` or `set_needle` makes it.
pub enum StateChange {
    /// Lines appended after the lines loaded so far.
    Extend(Vec<String>),
    /// A new query.
    SetNeedle(String),
}

/// The lines and the query after one change.
pub open spec fn after_change(m: (Seq<String>, Seq<char>), c: StateChange) -> (
    Seq<String>,
    Seq<char>,
) {
    match c {
        StateChange::Extend(data) => (m.0 + data@, m.1),
        StateChange::SetNeedle(data) => (m.0, data@),
    }
}

/// The lines and the query after a run of changes, made in order.
pub open spec fn after_changes(m: (Seq<String>, Seq<char>), cs: Seq<StateChange>) -> (
    Seq<String>,
    Seq<char>,
)
    decreases cs.len(),
{
    if cs.len() == 0 {
        m
    } else {
        after_change(after_changes(m, cs.drop_last()), cs.last())
    }
}

/// Once the query is set to `x`, any number of later extensions keep it
/// `x`: `get_needle` gives back what `set_needle` set until the next
/// `set_needle`.
pub proof fn law_needle_survives_extensions(
    m: (Seq<String>, Seq<char>),
    x: String,
    later: Seq<StateChange>,
)
    requires
        forall|i: int| 0 <= i < later.len() ==> #[trigger] later[i] is Extend,
    ensures
        after_changes(after_change(m, StateChange::SetNeedle(x)), later).1 == x@,
    decreases later.len(),
{
    if later.len() > 0 {
        let init = later.drop_last();
        assert forall|i: int| 0 <= i < init.len() implies #[trigger] init[i] is Extend by {
            assert(init[i] == later[i]);
        }
        law_needle_survives_extensions(m, x, init);
        assert(later[later.len() - 1] is Extend);
    }
}

/// Any number of query changes leave the lines as they were.
pub proof fn law_needle_changes_keep_haystack(m: (Seq<String>, Seq<char>), cs: Seq<StateChange>)
    requires
        forall|i: int| 0 <= i < cs.len() ==> #[trigger] cs[i] is SetNeedle,
    ensures
        after_changes(m, cs).0 == m.0,
    decreases cs.len(),
{
    if cs.len() > 0 {
        let init = cs.drop_last();
        assert forall|i: int| 0 <= i < init.len() implies #[trigger] init[i] is SetNeedle by {
            assert(init[i] == cs[i]);
        }
        law_needle_changes_keep_haystack(m, init);
        assert(cs[cs.len() - 1] is SetNeedle);
    }
}

impl RiiryState {
    /// The lines and the query, together.
    pub open spec fn model(&self) -> (Seq<String>, Seq<char>) {
        (self.haystack_seq(), self.needle_seq())
    }

    /// The lines loaded so far, in the order they were loaded.
    pub closed spec fn haystack_seq(&self) -> Seq<String> {
        self.haystack@
    }

    /// The query typed last.
    pub closed spec fn needle_seq(&self) -> Seq<char> {
        self.needle@
    }

    /// An empty state: no lines, empty query.
    pub fn new() -> (s: RiiryState)
        ensures
            s.haystack_seq() == Seq::<String>::empty(),
            s.needle_seq() == Seq::<char>::empty(),
    {
        RiiryState { haystack: Vec::new(), needle: String::new() }
    }

    /// The lines loaded so far.
    pub fn get_haystack<'a>(&'a self) -> (h: &'a Vec<String>)
        ensures
            h@ == self.haystack_seq(),
    {
        &self.haystack
    }

    /// Appends `data` after the lines loaded so far; the query is unchanged.
    pub fn extend_haystack(&mut self, data: Vec<String>)
        ensures
            final(self).haystack_seq() == old(self).haystack_seq() + data@,
            final(self).needle_seq() == old(self).needle_seq(),
            final(self).model() == after_change(old(self).model(), StateChange::Extend(data)),
    {
        let mut data = data;
        self.haystack.append(&mut data);
    }

    /// The query typed last.
    pub fn get_needle<'a>(&'a self) -> (n: &'a String)
        ensures
            n@ == self.needle_seq(),
    {
        &self.needle
    }

    /// Replaces the query; the lines are unchanged.
    pub fn set_needle(&mut self, data: String)
        ensures
            final(self).needle_seq() == data@,
            final(self).haystack_seq() == old(self).haystack_seq(),
            final(self).model() == after_change(old(self).model(), StateChange::SetNeedle(data)),
    {
        self.needle = data;
    }
}

} // verus!
