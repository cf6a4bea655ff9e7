//! The walk through the history, newest commit first, that stops at
//! the first commit already published.
//!
//! The store is only ever added to in the order of the history, so a
//! commit that is published tells that all older ones are too.

use crate::text::string_view;
use vstd::prelude::*;

verus! {

/// The oldest commit of which the providers still hold the builds.
pub const OLDEST_TRACKED_COMMIT: &'static str = "3849a5f83b82258fd76a3ff64933b81d7efeffa1";

/// A walk: the history, newest first; how many of its commits have been
/// dealt with; whether the walk has stopped; and the commit after which
/// it stops in any case, if there is one.
#[derive(Debug)]
pub struct Walk {
    history: Vec<String>,
    next: usize,
    halted: bool,
    oldest: Option<String>,
}

/// The view of a walk.
pub struct WalkView {
    pub history: Seq<Seq<char>>,
    pub next: int,
    pub halted: bool,
    pub oldest: Option<Seq<char>>,
}

/// What to do with the commit that was probed.
#[derive(Clone, Debug, PartialEq, Eq)]
pub enum Decision {
    /// It is not published: build and publish it.
    Build(String),
    /// Stop: nothing more is built, and nothing more is probed.
    Halt,
}

/// The view of a decision: the commit to build, if any.
pub open spec fn decision_view(d: Decision) -> Option<Seq<char>> {
    match d {
        Decision::Build(sha) => Some(sha@),
        Decision::Halt => None,
    }
}

/// The views of a list of strings.
pub open spec fn sha_views(v: Seq<String>) -> Seq<Seq<char>> {
    v.map_values(|s: String| s@)
}

impl View for Walk {
    type V = WalkView;

    closed spec fn view(&self) -> WalkView {
        WalkView {
            history: sha_views(self.history@),
            next: self.next as int,
            halted: self.halted,
            oldest: string_view(self.oldest),
        }
    }
}

impl WalkView {
    /// The walk at the start of `history`.
    pub open spec fn start(history: Seq<Seq<char>>, oldest: Option<Seq<char>>) -> WalkView {
        WalkView { history, next: 0, halted: false, oldest }
    }

    /// The commit to probe now; `None` once the walk is over.
    pub open spec fn current(self) -> Option<Seq<char>> {
        if !self.halted && 0 <= self.next < self.history.len() {
            Some(self.history[self.next])
        } else {
            None
        }
    }

    /// The walk after the current commit was probed, and what is to be
    /// done with that commit.
    pub open spec fn step(self, published: bool) -> (WalkView, Option<Seq<char>>) {
        match self.current() {
            None => (WalkView { halted: true, ..self }, None),
            Some(sha) => if published {
                (WalkView { halted: true, ..self }, None)
            } else {
                (
                    WalkView { next: self.next + 1, halted: self.oldest == Some(sha), ..self },
                    Some(sha),
                )
            },
        }
    }

    /// The commits that the walk builds from here on, in order, where
    /// `published` are the commits that the store holds.
    pub open spec fn builds(self, published: Set<Seq<char>>) -> Seq<Seq<char>>
        decreases self.history.len() - self.next,
    {
        match self.current() {
            None => Seq::empty(),
            Some(sha) => match self.step(published.contains(sha)).1 {
                None => Seq::empty(),
                Some(built) => seq![built] + self.step(published.contains(sha)).0.builds(published),
            },
        }
    }

    /// The commits that the walk probes from here on, in order.
    pub open spec fn probes(self, published: Set<Seq<char>>) -> Seq<Seq<char>>
        decreases self.history.len() - self.next,
    {
        match self.current() {
            None => Seq::empty(),
            Some(sha) => if published.contains(sha) {
                seq![sha]
            } else {
                seq![sha] + self.step(false).0.probes(published)
            },
        }
    }
}

/// Where a walk that stands at `from` stops: the index of the first
/// commit that it does not build.
pub open spec fn stop(
    history: Seq<Seq<char>>,
    published: Set<Seq<char>>,
    oldest: Option<Seq<char>>,
    from: int,
) -> int
    decreases history.len() - from,
{
    if from < 0 || from >= history.len() {
        history.len() as int
    } else if published.contains(history[from]) {
        from
    } else if oldest == Some(history[from]) {
        from + 1
    } else {
        stop(history, published, oldest, from + 1)
    }
}

/// A walk stops at the first commit that is published, after the
/// oldest commit tracked, or at the end of the history, whichever comes
/// first: none of the commits before that is published.
pub proof fn lemma_stop(
    history: Seq<Seq<char>>,
    published: Set<Seq<char>>,
    oldest: Option<Seq<char>>,
    from: int,
)
    requires
        0 <= from <= history.len(),
    ensures
        from <= stop(history, published, oldest, from) <= history.len(),
        forall|i: int|
            from <= i < stop(history, published, oldest, from) ==> !published.contains(
                #[trigger] history[i],
            ),
        forall|i: int|
            from <= i < stop(history, published, oldest, from) - 1 ==> oldest != Some(
                #[trigger] history[i],
            ),
        ({
            let s = stop(history, published, oldest, from);
            s == history.len() || published.contains(history[s]) || (s > from && oldest == Some(
                history[s - 1],
            ))
        }),
    decreases history.len() - from,
{
    if from < history.len() && !published.contains(history[from]) && oldest != Some(
        history[from],
    ) {
        lemma_stop(history, published, oldest, from + 1);
    }
}

/// Whether a walk from `from` that stops at `s` stops there because it
/// has just built the oldest commit tracked.
pub open spec fn stopped_by_oldest(
    history: Seq<Seq<char>>,
    oldest: Option<Seq<char>>,
    from: int,
    s: int,
) -> bool {
    from < s <= history.len() && oldest == Some(history[s - 1])
}

/// A walk builds exactly the commits before the place where it stops,
/// in order; and it probes these and, where it stopped at a published
/// commit, that one: never a commit after it.
pub proof fn lemma_walk(w: WalkView, published: Set<Seq<char>>)
    requires
        0 <= w.next <= w.history.len(),
        !w.halted,
    ensures
        w.builds(published) == w.history.subrange(
            w.next,
            stop(w.history, published, w.oldest, w.next),
        ),
        ({
            let s = stop(w.history, published, w.oldest, w.next);
            w.probes(published) == if s < w.history.len() && !stopped_by_oldest(
                w.history,
                w.oldest,
                w.next,
                s,
            ) {
                w.history.subrange(w.next, s + 1)
            } else {
                w.history.subrange(w.next, s)
            }
        }),
    decreases w.history.len() - w.next,
{
    let s = stop(w.history, published, w.oldest, w.next);
    lemma_stop(w.history, published, w.oldest, w.next);
    if w.next < w.history.len() {
        let sha = w.history[w.next];
        let (w2, built) = w.step(published.contains(sha));
        if published.contains(sha) {
            assert(w.probes(published) =~= w.history.subrange(w.next, s + 1));
            assert(w.builds(published) =~= w.history.subrange(w.next, s));
        } else if w.oldest == Some(sha) {
            assert(w2.builds(published) =~= Seq::<Seq<char>>::empty());
            assert(w2.probes(published) =~= Seq::<Seq<char>>::empty());
            assert(w.builds(published) =~= w.history.subrange(w.next, s));
            assert(w.probes(published) =~= w.history.subrange(w.next, s));
        } else {
            lemma_walk(w2, published);
            lemma_stop(w.history, published, w.oldest, w.next + 1);
            assert(w.builds(published) =~= w.history.subrange(w.next, s));
            if s < w.history.len() && !stopped_by_oldest(w.history, w.oldest, w.next, s) {
                assert(w.probes(published) =~= w.history.subrange(w.next, s + 1));
            } else {
                assert(w.probes(published) =~= w.history.subrange(w.next, s));
            }
        }
    } else {
        assert(w.builds(published) =~= w.history.subrange(w.next, s));
        assert(w.probes(published) =~= w.history.subrange(w.next, s));
    }
}

/// Where the newest commit is published already, the walk builds
/// nothing and probes that commit alone.
pub proof fn lemma_nothing_left(
    history: Seq<Seq<char>>,
    oldest: Option<Seq<char>>,
    published: Set<Seq<char>>,
)
    requires
        history.len() > 0,
        published.contains(history[0]),
    ensures
        WalkView::start(history, oldest).builds(published) == Seq::<Seq<char>>::empty(),
        WalkView::start(history, oldest).probes(published) == seq![history[0]],
{
    let w = WalkView::start(history, oldest);
    lemma_walk(w, published);
    assert(history.subrange(0, 0) =~= Seq::<Seq<char>>::empty());
    assert(history.subrange(0, 1) =~= seq![history[0]]);
}

/// Once a walk has published what it built, a second walk over the same
/// history builds nothing, and probes no more than the newest commit.
pub proof fn lemma_second_walk(
    history: Seq<Seq<char>>,
    oldest: Option<Seq<char>>,
    published: Set<Seq<char>>,
)
    ensures
        ({
            let first = WalkView::start(history, oldest).builds(published);
            let then = published.union(first.to_set());
            &&& WalkView::start(history, oldest).builds(then) == Seq::<Seq<char>>::empty()
            &&& WalkView::start(history, oldest).probes(then) == history.take(
                if history.len() > 0 {
                    1int
                } else {
                    0int
                },
            )
        }),
{
    let w = WalkView::start(history, oldest);
    let first = w.builds(published);
    let then = published.union(first.to_set());
    lemma_walk(w, published);
    lemma_stop(history, published, oldest, 0);
    if history.len() > 0 {
        if !published.contains(history[0]) {
            assert(first[0] == history[0]);
            assert(first.to_set().contains(first[0]));
        }
        assert(then.contains(history[0]));
        lemma_nothing_left(history, oldest, then);
        assert(history.take(1) =~= seq![history[0]]);
    } else {
        assert(w.builds(then) =~= Seq::<Seq<char>>::empty());
        assert(w.probes(then) =~= history.take(0));
    }
}

impl Walk {
    /// A walk at the start of `history`, which comes newest first. It
    /// stops after `oldest`, where that is given and met.
    pub fn new(history: Vec<String>, oldest: Option<String>) -> (w: Walk)
        ensures
            w@ == WalkView::start(sha_views(history@), string_view(oldest)),
    {
        Walk { history, next: 0, halted: false, oldest }
    }

    /// The commit to probe now; `None` once the walk is over.
    pub fn current(&self) -> (r: Option<&String>)
        ensures
            match r {
                Some(sha) => self@.current() == Some(sha@),
                None => self@.current() is None,
            },
    {
        if !self.halted && self.next < self.history.len() {
            Some(&self.history[self.next])
        } else {
            None
        }
    }

    /// Takes in whether the current commit is published, and says what
    /// is to be done with it.
    pub fn decide(&mut self, published: bool) -> (d: Decision)
        ensures
            (final(self)@, decision_view(d)) == old(self)@.step(published),
    {
        if self.halted || self.next >= self.history.len() || published {
            self.halted = true;
            return Decision::Halt;
        }
        let sha = self.history[self.next].clone();
        self.next = self.next + 1;
        self.halted = match &self.oldest {
            Some(oldest) => *oldest == sha,
            None => false,
        };
        Decision::Build(sha)
    }
}

} // verus!
