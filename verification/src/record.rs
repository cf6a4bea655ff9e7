//! The records that are published for each commit, and their views.

use crate::name_map::NameMap;
use crate::text::string_view;
use vstd::prelude::*;

verus! {

/// How long one phase of a job took, in nanoseconds, and how much of
/// that each of its parts took.
#[derive(Debug, PartialEq, Eq)]
pub struct Timing {
    pub dur: u64,
    pub parts: NameMap<u64>,
}

/// The view of a timing.
#[verifier::ext_equal]
pub struct TimingView {
    pub dur: u64,
    pub parts: Map<Seq<char>, u64>,
}

impl View for Timing {
    type V = TimingView;

    open spec fn view(&self) -> TimingView {
        TimingView { dur: self.dur, parts: self.parts@ }
    }
}

impl Timing {
    /// A phase that took no time and has no parts.
    pub open spec fn empty() -> TimingView {
        TimingView { dur: 0, parts: Map::empty() }
    }

    /// A phase that took no time and has no parts.
    pub fn new() -> (t: Self)
        ensures
            t@ == Self::empty(),
    {
        let t = Timing { dur: 0, parts: NameMap::new() };
        assert(t.parts@ =~= Map::empty());
        t
    }
}

impl Default for Timing {
    fn default() -> (t: Self)
        ensures
            t@ == Self::empty(),
    {
        Timing::new()
    }
}

/// One run of a job: where its log is, where the log is kept, the
/// processor it ran on where that is known, and its phases by name.
#[derive(Debug, PartialEq, Eq)]
pub struct Job {
    pub url: String,
    pub path: String,
    pub cpu_microarch: Option<String>,
    pub timings: NameMap<Timing>,
}

/// The view of a job.
#[verifier::ext_equal]
pub struct JobView {
    pub url: Seq<char>,
    pub path: Seq<char>,
    pub cpu_microarch: Option<Seq<char>>,
    pub timings: Map<Seq<char>, TimingView>,
}

impl View for Job {
    type V = JobView;

    open spec fn view(&self) -> JobView {
        JobView {
            url: self.url@,
            path: self.path@,
            cpu_microarch: string_view(self.cpu_microarch),
            timings: self.timings@,
        }
    }
}

/// What is published for one commit: its jobs by name.
#[derive(Debug, PartialEq, Eq)]
pub struct Commit {
    pub jobs: NameMap<Job>,
}

/// The view of a record.
#[verifier::ext_equal]
pub struct CommitView {
    pub jobs: Map<Seq<char>, JobView>,
}

impl View for Commit {
    type V = CommitView;

    open spec fn view(&self) -> CommitView {
        CommitView { jobs: self.jobs@ }
    }
}

impl Commit {
    /// A record without jobs.
    pub fn new() -> (c: Self)
        ensures
            c@.jobs == Map::<Seq<char>, JobView>::empty(),
    {
        let c = Commit { jobs: NameMap::new() };
        assert(c.jobs@ =~= Map::empty());
        c
    }
}

impl Default for Commit {
    fn default() -> (c: Self)
        ensures
            c@.jobs == Map::<Seq<char>, JobView>::empty(),
    {
        Commit::new()
    }
}

/// A commit as the history names it.
#[derive(Clone, Debug, PartialEq, Eq)]
pub struct GitCommit {
    pub sha: String,
    pub date: String,
}

/// The view of a commit of the history.
pub struct GitCommitView {
    pub sha: Seq<char>,
    pub date: Seq<char>,
}

impl View for GitCommit {
    type V = GitCommitView;

    open spec fn view(&self) -> GitCommitView {
        GitCommitView { sha: self.sha@, date: self.date@ }
    }
}

} // verus!
