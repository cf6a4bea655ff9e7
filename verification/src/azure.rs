//! What Azure Pipelines says of builds and their jobs, and what is
//! asked of it.

use vstd::prelude::*;
use vstd::string::StringExecFns;

verus! {

/// The host of the service.
pub const HOST: &'static str = "https://dev.azure.com";

/// One page of builds.
#[derive(Clone, Debug, PartialEq, Eq)]
pub struct List {
    pub value: Vec<Build>,
}

/// A build, with the commit that it built.
#[derive(Clone, Debug, PartialEq, Eq)]
pub struct Build {
    pub source_version: String,
    pub _links: BuildLinks,
}

#[derive(Clone, Debug, PartialEq, Eq)]
pub struct BuildLinks {
    pub timeline: Link,
}

#[derive(Clone, Debug, PartialEq, Eq)]
pub struct Link {
    pub href: String,
}

/// The view of a build: its commit, and the address of its timeline.
pub struct BuildView {
    pub source_version: Seq<char>,
    pub timeline: Seq<char>,
}

impl View for Build {
    type V = BuildView;

    open spec fn view(&self) -> BuildView {
        BuildView { source_version: self.source_version@, timeline: self._links.timeline.href@ }
    }
}

/// The builds of a page, each with the commit that it built.
pub open spec fn page_of(builds: Seq<Build>) -> Seq<(Seq<char>, BuildView)> {
    builds.map_values(|b: Build| (b.source_version@, b@))
}

/// The builds of a page, each with the commit that it built, as a
/// directory takes them in.
pub fn page(list: List) -> (r: Vec<(String, Build)>)
    ensures
        crate::directory::page_view(r@) == page_of(list.value@),
{
    let ghost all = list.value@;
    let n = list.value.len();
    let mut r: Vec<(String, Build)> = Vec::new();
    let mut i: usize = 0;
    for build in it: list.value
        invariant
            i == it.index(),
            i <= n,
            n == all.len(),
            it.seq() == all,
            r@.len() == i,
            forall|x: int|
                0 <= x < i ==> (#[trigger] r@[x]).0@ == all[x].source_version@ && r@[x].1
                    == all[x],
    {
        let commit = build.source_version.clone();
        r.push((commit, build));
        i = i + 1;
    }
    assert(crate::directory::page_view(r@) =~= page_of(all));
    r
}

/// What happened during a build, record by record.
#[derive(Clone, Debug, PartialEq, Eq)]
pub struct Timeline {
    pub records: Vec<TimelineRecord>,
}

/// One record of a timeline: a job where its kind is `Job`.
#[derive(Clone, Debug, PartialEq, Eq)]
pub struct TimelineRecord {
    pub id: String,
    pub kind: String,
    pub log: Option<TimelineLog>,
}

#[derive(Clone, Debug, PartialEq, Eq)]
pub struct TimelineLog {
    pub url: String,
}

/// A job whose log can be fetched: its record, the address of its log,
/// and where the log is kept below the root of the cache.
#[derive(Clone, Debug, PartialEq, Eq)]
pub struct JobRef {
    pub id: String,
    pub url: String,
    pub path: String,
}

/// The view of a job whose log can be fetched.
pub struct JobRefView {
    pub id: Seq<char>,
    pub url: Seq<char>,
    pub path: Seq<char>,
}

impl View for JobRef {
    type V = JobRefView;

    open spec fn view(&self) -> JobRefView {
        JobRefView { id: self.id@, url: self.url@, path: self.path@ }
    }
}

/// The query for the builds of the branch that is tracked, the one
/// that finished last first.
pub open spec fn builds_query_of() -> Seq<char> {
    "/rust-lang/rust/_apis/build/builds"@ + "?api-version=5.0"@ + "&branchName=refs/heads/auto"@
        + "&queryOrder=finishTimeDescending"@
}

/// The path and query that the builds are asked for with.
pub fn builds_query() -> (path: String)
    ensures
        path@ == builds_query_of(),
{
    let mut path = String::from_str("/rust-lang/rust/_apis/build/builds");
    path.append("?api-version=5.0");
    path.append("&branchName=refs/heads/auto");
    path.append("&queryOrder=finishTimeDescending");
    path
}

/// Where the log of the job `id` of the commit `commit` is kept, below
/// the root of the cache.
pub open spec fn log_path_of(commit: Seq<char>, id: Seq<char>) -> Seq<char> {
    "logs/azure/"@ + commit + "-"@ + id + ".gz"@
}

/// Where the log of the job `id` of `commit` is kept.
pub fn log_path(commit: &str, id: &str) -> (path: String)
    ensures
        path@ == log_path_of(commit@, id@),
{
    let mut path = String::from_str("logs/azure/");
    path.append(commit);
    path.append("-");
    path.append(id);
    path.append(".gz");
    path
}

/// The job that `record` stands for, where it is a job and has a log.
pub open spec fn job_ref_of(commit: Seq<char>, record: TimelineRecord) -> Option<JobRefView> {
    match record.log {
        Some(log) if record.kind@ == "Job"@ => Some(
            JobRefView { id: record.id@, url: log.url@, path: log_path_of(commit, record.id@) },
        ),
        _ => None,
    }
}

/// The jobs among `records` whose logs can be fetched, in order.
pub open spec fn job_refs_of(commit: Seq<char>, records: Seq<TimelineRecord>) -> Seq<JobRefView>
    decreases records.len(),
{
    if records.len() == 0 {
        Seq::empty()
    } else {
        let before = job_refs_of(commit, records.drop_last());
        match job_ref_of(commit, records.last()) {
            Some(job) => before.push(job),
            None => before,
        }
    }
}

/// The views of a list of jobs.
pub open spec fn job_ref_views(jobs: Seq<JobRef>) -> Seq<JobRefView> {
    jobs.map_values(|j: JobRef| j@)
}

/// The jobs of the build of `commit` whose logs can be fetched: the
/// records of `timeline` that are jobs and have a log, in order.
pub fn job_refs(commit: &str, timeline: &Timeline) -> (jobs: Vec<JobRef>)
    ensures
        job_ref_views(jobs@) == job_refs_of(commit@, timeline.records@),
{
    let job = String::from_str("Job");
    let mut jobs: Vec<JobRef> = Vec::new();
    let mut i: usize = 0;
    let ghost records = timeline.records@;
    assert(records.take(0) =~= Seq::<TimelineRecord>::empty());
    assert(job_ref_views(jobs@) =~= Seq::<JobRefView>::empty());
    while i < timeline.records.len()
        invariant
            i <= timeline.records.len(),
            records == timeline.records@,
            job@ == "Job"@,
            job_ref_views(jobs@) == job_refs_of(commit@, records.take(i as int)),
        decreases timeline.records.len() - i,
    {
        let record = &timeline.records[i];
        proof {
            assert(records.take(i + 1).drop_last() =~= records.take(i as int));
            assert(records.take(i + 1).last() == *record);
        }
        if record.kind == job {
            match &record.log {
                Some(log) => {
                    let ghost before = job_ref_views(jobs@);
                    let found = JobRef {
                        id: record.id.clone(),
                        url: log.url.clone(),
                        path: log_path(commit, record.id.as_str()),
                    };
                    let ghost view = found@;
                    jobs.push(found);
                    assert(job_ref_views(jobs@) =~= before.push(view));
                },
                None => {},
            }
        }
        i += 1;
    }
    assert(records.take(i as int) =~= records);
    jobs
}

} // verus!
