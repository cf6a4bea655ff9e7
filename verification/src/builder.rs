//! Building the record of a commit out of the logs of its jobs.

use crate::cpu::{extract_cpu_microarch, microarch_of};
use crate::error::TimingError;
use crate::job_name::{identify_job, job_name_of};
use crate::record::{Commit, Job, JobView};
use crate::timing::{extract_timings, timings_of};
use vstd::prelude::*;

verus! {

/// The log of one job: where it was fetched from, what it says, and
/// where it is kept below the root of the cache.
#[derive(Clone, Debug, PartialEq, Eq)]
pub struct Log {
    pub job_url: String,
    pub contents: String,
    pub path: String,
}

/// The view of a log.
pub struct LogView {
    pub job_url: Seq<char>,
    pub contents: Seq<char>,
    pub path: Seq<char>,
}

impl View for Log {
    type V = LogView;

    open spec fn view(&self) -> LogView {
        LogView { job_url: self.job_url@, contents: self.contents@, path: self.path@ }
    }
}

/// Why a log gave no job.
#[derive(Clone, Copy, Debug, PartialEq, Eq, Structural)]
pub enum Reason {
    /// The log does not name its job.
    NoName,
    /// The timings of the log could not be read.
    Timings(TimingError),
}

/// A log that gave no job, and why.
#[derive(Clone, Debug, PartialEq, Eq)]
pub struct Skipped {
    pub job_url: String,
    pub reason: Reason,
}

/// The view of a log that gave no job.
pub struct SkippedView {
    pub job_url: Seq<char>,
    pub reason: Reason,
}

impl View for Skipped {
    type V = SkippedView;

    open spec fn view(&self) -> SkippedView {
        SkippedView { job_url: self.job_url@, reason: self.reason }
    }
}

/// The job that a log tells of, under its name; or why it tells of
/// none.
pub open spec fn job_of(log: LogView) -> Result<(Seq<char>, JobView), Reason> {
    match job_name_of(log.contents) {
        Err(_) => Err(Reason::NoName),
        Ok(name) => match timings_of(log.contents) {
            Err(e) => Err(Reason::Timings(e)),
            Ok(timings) => Ok(
                (
                    name,
                    JobView {
                        url: log.job_url,
                        path: log.path,
                        cpu_microarch: microarch_of(log.contents),
                        timings,
                    },
                ),
            ),
        },
    }
}

/// The jobs that `logs` tell of, by name: of two logs that name the
/// same job, the later one counts.
pub open spec fn jobs_of(logs: Seq<LogView>) -> Map<Seq<char>, JobView>
    decreases logs.len(),
{
    if logs.len() == 0 {
        Map::empty()
    } else {
        let before = jobs_of(logs.drop_last());
        match job_of(logs.last()) {
            Ok((name, job)) => before.insert(name, job),
            Err(_) => before,
        }
    }
}

/// The logs among `logs` that gave no job, in order, each with the
/// reason.
pub open spec fn skipped_of(logs: Seq<LogView>) -> Seq<SkippedView>
    decreases logs.len(),
{
    if logs.len() == 0 {
        Seq::empty()
    } else {
        let before = skipped_of(logs.drop_last());
        match job_of(logs.last()) {
            Ok(_) => before,
            Err(reason) => before.push(SkippedView { job_url: logs.last().job_url, reason }),
        }
    }
}

/// The views of a list of logs.
pub open spec fn log_views(logs: Seq<Log>) -> Seq<LogView> {
    logs.map_values(|l: Log| l@)
}

/// The views of a list of skipped logs.
pub open spec fn skipped_views(skipped: Seq<Skipped>) -> Seq<SkippedView> {
    skipped.map_values(|s: Skipped| s@)
}

/// The view of a job read under its name.
pub open spec fn named_job_view(r: Result<(String, Job), Reason>) -> Result<
    (Seq<char>, JobView),
    Reason,
> {
    match r {
        Ok((name, job)) => Ok((name@, job@)),
        Err(reason) => Err(reason),
    }
}

/// Reads the job that `log` tells of.
pub fn read_job(log: &Log) -> (r: Result<(String, Job), Reason>)
    ensures
        named_job_view(r) == job_of(log@),
{
    let name = match identify_job(log.contents.as_str()) {
        Ok(name) => name,
        Err(_) => {
            return Err(Reason::NoName);
        },
    };
    let timings = match extract_timings(log.contents.as_str()) {
        Ok(timings) => timings,
        Err(e) => {
            return Err(Reason::Timings(e));
        },
    };
    let job = Job {
        url: log.job_url.clone(),
        path: log.path.clone(),
        cpu_microarch: extract_cpu_microarch(log.contents.as_str()),
        timings,
    };
    Ok((name, job))
}

/// Builds the record of a commit out of the logs of its jobs.
///
/// Each log that names its job and whose timings can be read gives a
/// job; where two logs name the same job, the later one replaces the
/// earlier. The logs that gave none are handed back, with the reason,
/// and do not stop the others.
pub fn build_commit(logs: &Vec<Log>) -> (r: (Commit, Vec<Skipped>))
    ensures
        r.0@.jobs == jobs_of(log_views(logs@)),
        skipped_views(r.1@) == skipped_of(log_views(logs@)),
{
    let ghost all = log_views(logs@);
    let mut commit = Commit::new();
    let mut skipped: Vec<Skipped> = Vec::new();
    let mut i: usize = 0;
    proof {
        assert(all.take(0) =~= Seq::<LogView>::empty());
        assert(skipped_views(skipped@) =~= Seq::<SkippedView>::empty());
    }
    while i < logs.len()
        invariant
            i <= logs.len(),
            all == log_views(logs@),
            commit@.jobs == jobs_of(all.take(i as int)),
            skipped_views(skipped@) == skipped_of(all.take(i as int)),
        decreases logs.len() - i,
    {
        let log = &logs[i];
        proof {
            assert(all.take(i + 1).drop_last() =~= all.take(i as int));
            assert(all.take(i + 1).last() == log@);
        }
        match read_job(log) {
            Ok((name, job)) => {
                commit.jobs.insert(name, job);
            },
            Err(reason) => {
                let ghost before = skipped_views(skipped@);
                let entry = Skipped { job_url: log.job_url.clone(), reason };
                let ghost view = entry@;
                skipped.push(entry);
                assert(skipped_views(skipped@) =~= before.push(view));
            },
        }
        i += 1;
    }
    assert(all.take(i as int) =~= all);
    (commit, skipped)
}

/// Whether `log` gives a job under `name`.
pub open spec fn gives(log: LogView, name: Seq<char>) -> bool {
    job_of(log) is Ok && job_of(log)->Ok_0.0 == name
}

/// The index of the last of `logs` that gives a job under `name`.
pub open spec fn last_giving(logs: Seq<LogView>, name: Seq<char>) -> Option<int>
    decreases logs.len(),
{
    if logs.len() == 0 {
        None
    } else if gives(logs.last(), name) {
        Some(logs.len() - 1)
    } else {
        last_giving(logs.drop_last(), name)
    }
}

/// `last_giving` is the index of a log that gives a job under `name`,
/// after which no log does; and `None` exactly where no log does.
pub proof fn lemma_last_giving(logs: Seq<LogView>, name: Seq<char>)
    ensures
        match last_giving(logs, name) {
            Some(i) => 0 <= i < logs.len() && gives(logs[i], name) && forall|j: int|
                i < j < logs.len() ==> !gives(#[trigger] logs[j], name),
            None => forall|j: int| 0 <= j < logs.len() ==> !gives(#[trigger] logs[j], name),
        },
    decreases logs.len(),
{
    if logs.len() > 0 && !gives(logs.last(), name) {
        let shorter = logs.drop_last();
        lemma_last_giving(shorter, name);
        assert forall|j: int| 0 <= j < shorter.len() implies shorter[j] == logs[j] by {}
    }
}

/// The record holds a name exactly where a log gives a job under it,
/// and then it holds the job of the last log that does.
pub proof fn lemma_last_log_counts(logs: Seq<LogView>, name: Seq<char>)
    ensures
        jobs_of(logs).contains_key(name) <==> last_giving(logs, name) is Some,
        last_giving(logs, name) matches Some(i) ==> jobs_of(logs)[name] == job_of(
            logs[i],
        )->Ok_0.1,
    decreases logs.len(),
{
    if logs.len() > 0 {
        let shorter = logs.drop_last();
        lemma_last_log_counts(shorter, name);
        if !gives(logs.last(), name) {
            lemma_last_giving(shorter, name);
            if last_giving(shorter, name) is Some {
                assert(shorter[last_giving(shorter, name)->Some_0] == logs[last_giving(
                    shorter,
                    name,
                )->Some_0]);
            }
        }
    }
}

/// The order of two neighbouring logs does not matter to the record,
/// unless both give a job under the same name: so any reordering of the
/// logs that keeps the order among those of one name gives the same
/// record.
pub proof fn lemma_swap_keeps_record(logs: Seq<LogView>, i: int)
    requires
        0 <= i < logs.len() - 1,
        !(job_of(logs[i]) is Ok && job_of(logs[i + 1]) is Ok && job_of(logs[i])->Ok_0.0 == job_of(
            logs[i + 1],
        )->Ok_0.0),
    ensures
        jobs_of(logs.update(i, logs[i + 1]).update(i + 1, logs[i])) == jobs_of(logs),
    decreases logs.len(),
{
    let swapped = logs.update(i, logs[i + 1]).update(i + 1, logs[i]);
    let shorter = logs.drop_last();
    if i + 1 == logs.len() - 1 {
        let before = shorter.drop_last();
        assert(swapped.drop_last().drop_last() =~= before);
        assert(swapped.drop_last().last() == logs[i + 1]);
        assert(swapped.last() == logs[i]);
        assert(shorter.last() == logs[i]);
        assert(logs.last() == logs[i + 1]);
        let start = jobs_of(before);
        let one = swapped.drop_last();
        assert(one.drop_last() =~= before);
        assert(jobs_of(one) == match job_of(logs[i + 1]) {
            Ok((name, job)) => start.insert(name, job),
            Err(_) => start,
        });
        assert(jobs_of(shorter) == match job_of(logs[i]) {
            Ok((name, job)) => start.insert(name, job),
            Err(_) => start,
        });
        assert(jobs_of(swapped) =~= jobs_of(logs));
    } else {
        lemma_swap_keeps_record(shorter, i);
        assert(swapped.drop_last() =~= shorter.update(i, shorter[i + 1]).update(i + 1, shorter[i]));
        assert(swapped.last() == logs.last());
    }
}

} // verus!
