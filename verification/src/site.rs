//! The figures of the site: for each job, how long it took on each of
//! the commits shown, the slowest jobs first.

use crate::error::TotalOutOfRange;
use crate::layout::{record_url, record_url_of};
use crate::name_map::{sorted_keys, NameMap};
use crate::order::{lemma_sorted_unique, sorted_by};
use crate::record::{Commit, CommitView, GitCommit, Job, JobView, TimingView};
use crate::text::{lemma_lex_total, lemma_lex_transitive, lex_lt, str_lt};
use vstd::prelude::*;

verus! {

/// How many commits the site shows at most.
pub const WINDOW: usize = 100;

/// Whether the phase counts towards the time of its job: all do but the
/// one named `Distcheck`.
pub open spec fn counted(phase: Seq<char>) -> bool {
    phase != "Distcheck"@
}

/// The sum of the durations of those phases among `keys` that count.
pub open spec fn durations(timings: Map<Seq<char>, TimingView>, keys: Seq<Seq<char>>) -> int
    decreases keys.len(),
{
    if keys.len() == 0 {
        0
    } else {
        durations(timings, keys.drop_last()) + if counted(keys.last()) {
            timings[keys.last()].dur as int
        } else {
            0
        }
    }
}

/// The time that a job took: the sum of the durations of its phases
/// that count.
pub open spec fn job_total(job: JobView) -> int {
    durations(job.timings, sorted_keys(job.timings))
}

/// The time that the job `name` took on `commit`; zero where it did not
/// run.
pub open spec fn point(commit: CommitView, name: Seq<char>) -> int {
    if commit.jobs.contains_key(name) {
        job_total(commit.jobs[name])
    } else {
        0
    }
}

/// On how many of `commits` the job `name` ran.
pub open spec fn runs(commits: Seq<CommitView>, name: Seq<char>) -> int
    decreases commits.len(),
{
    if commits.len() == 0 {
        0
    } else {
        runs(commits.drop_last(), name) + if commits.last().jobs.contains_key(name) {
            1int
        } else {
            0int
        }
    }
}

/// The time that the job `name` took on all of `commits` together.
pub open spec fn total(commits: Seq<CommitView>, name: Seq<char>) -> int
    decreases commits.len(),
{
    if commits.len() == 0 {
        0
    } else {
        total(commits.drop_last(), name) + point(commits.last(), name)
    }
}

/// The sum grows with the keys taken in, and is never negative.
pub proof fn lemma_durations_grow(timings: Map<Seq<char>, TimingView>, keys: Seq<Seq<char>>, i: int)
    requires
        0 <= i <= keys.len(),
    ensures
        0 <= durations(timings, keys.take(i)) <= durations(timings, keys),
    decreases keys.len(),
{
    if i < keys.len() {
        lemma_durations_grow(timings, keys.drop_last(), i);
        assert(keys.drop_last().take(i) =~= keys.take(i));
    } else {
        assert(keys.take(i) =~= keys);
        if keys.len() > 0 {
            lemma_durations_grow(timings, keys.drop_last(), i - 1);
            assert(keys.drop_last().take(i - 1) =~= keys.drop_last());
        }
    }
}

/// The time that `job` took, where a duration can hold it.
pub fn total_of(job: &Job) -> (r: Option<u64>)
    ensures
        match r {
            Some(t) => t == job_total(job@),
            None => job_total(job@) > u64::MAX,
        },
{
    let excluded = "Distcheck".to_string();
    let n = job.timings.len();
    let ghost keys = job.timings.keys();
    let ghost vals = job.timings.vals();
    proof {
        job.timings.lemma_canonical();
        assert(keys.take(0) =~= Seq::<Seq<char>>::empty());
    }
    let mut acc: u64 = 0;
    let mut i: usize = 0;
    while i < n
        invariant
            i <= n,
            n == keys.len(),
            keys == job.timings.keys(),
            vals == job.timings.vals(),
            job.timings.wf(),
            excluded@ == "Distcheck"@,
            keys == sorted_keys(job@.timings),
            forall|x: int| 0 <= x < keys.len() ==> job@.timings[#[trigger] keys[x]] == vals[x],
            acc == durations(job@.timings, keys.take(i as int)),
        decreases n - i,
    {
        let (dur, counts) = match job.timings.entry(i) {
            Some((k, v)) => (v.dur, *k != excluded),
            None => (0, false),
        };
        proof {
            assert(keys.take(i + 1).drop_last() =~= keys.take(i as int));
            assert(keys.take(i + 1).last() == keys[i as int]);
            assert(job@.timings[keys[i as int]] == vals[i as int]);
            lemma_durations_grow(job@.timings, keys, i + 1);
        }
        if counts {
            if acc > u64::MAX - dur {
                return None;
            }
            acc = acc + dur;
        }
        i += 1;
    }
    assert(keys.take(i as int) =~= keys);
    Some(acc)
}

/// The published records of the commits, without their names.
pub open spec fn commit_views(commits: Seq<(GitCommit, Commit)>) -> Seq<CommitView> {
    commits.map_values(|p: (GitCommit, Commit)| p.1@)
}

/// For each job that ran on one of `commits`: on how many it ran, and
/// how long it took on all of them together.
pub open spec fn tallies(commits: Seq<CommitView>) -> Map<Seq<char>, (usize, u64)> {
    Map::new(
        |name: Seq<char>| runs(commits, name) > 0,
        |name: Seq<char>| (runs(commits, name) as usize, total(commits, name) as u64),
    )
}

/// A job ran on no more commits than there are, and took no time where
/// it never ran.
pub proof fn lemma_runs(commits: Seq<CommitView>, name: Seq<char>)
    ensures
        0 <= runs(commits, name) <= commits.len(),
        0 <= total(commits, name),
        runs(commits, name) == 0 ==> total(commits, name) == 0,
    decreases commits.len(),
{
    if commits.len() > 0 {
        lemma_runs(commits.drop_last(), name);
        if commits.last().jobs.contains_key(name) {
            let job = commits.last().jobs[name];
            lemma_durations_grow(job.timings, sorted_keys(job.timings), 0);
        }
    }
}


/// No job takes less than no time.
pub proof fn lemma_point(commit: CommitView, name: Seq<char>)
    ensures
        0 <= point(commit, name),
{
    if commit.jobs.contains_key(name) {
        let job = commit.jobs[name];
        lemma_durations_grow(job.timings, sorted_keys(job.timings), 0);
    }
}

/// What a job took on the first `i` commits, and on any one commit, is
/// no more than what it took on all.
pub proof fn lemma_total_grows(commits: Seq<CommitView>, i: int, name: Seq<char>)
    requires
        0 <= i <= commits.len(),
    ensures
        total(commits.take(i), name) <= total(commits, name),
        i < commits.len() ==> 0 <= point(commits[i], name) <= total(commits, name),
    decreases commits.len(),
{
    if i < commits.len() {
        let shorter = commits.drop_last();
        lemma_total_grows(shorter, i, name);
        assert(shorter.take(i) =~= commits.take(i));
        lemma_runs(shorter, name);
        lemma_point(commits.last(), name);
        lemma_point(commits[i], name);
        if i < commits.len() - 1 {
            assert(shorter[i] == commits[i]);
        }
    } else {
        assert(commits.take(i) =~= commits);
    }
}

/// The tallies of `before`, with those jobs among `seen` counted once
/// more, for `commit`.
spec fn tallies_with(before: Seq<CommitView>, commit: CommitView, seen: Seq<Seq<char>>) -> Map<
    Seq<char>,
    (usize, u64),
> {
    Map::new(
        |name: Seq<char>| runs(before, name) > 0 || seen.contains(name),
        |name: Seq<char>|
            (
                (runs(before, name) + if seen.contains(name) {
                    1int
                } else {
                    0int
                }) as usize,
                (total(before, name) + if seen.contains(name) {
                    point(commit, name)
                } else {
                    0
                }) as u64,
            ),
    )
}

/// For each job: on how many of the commits it ran and how long it
/// took on all together; `None` where such a total is out of range.
fn tally(commits: &Vec<(GitCommit, Commit)>) -> (r: Option<NameMap<(usize, u64)>>)
    ensures
        match r {
            Some(m) => m@ == tallies(commit_views(commits@)) && forall|name: Seq<char>|
                total(commit_views(commits@), name) <= u64::MAX,
            None => exists|name: Seq<char>| total(commit_views(commits@), name) > u64::MAX,
        },
{
    let ghost cs = commit_views(commits@);
    let mut m: NameMap<(usize, u64)> = NameMap::new();
    let mut i: usize = 0;
    proof {
        assert(cs.take(0) =~= Seq::<CommitView>::empty());
        assert(m@ =~= tallies(cs.take(0)));
    }
    while i < commits.len()
        invariant
            i <= commits.len(),
            cs == commit_views(commits@),
            m@ == tallies(cs.take(i as int)),
            forall|name: Seq<char>| total(cs.take(i as int), name) <= u64::MAX,
        decreases commits.len() - i,
    {
        let commit = &commits[i].1;
        let n = commit.jobs.len();
        let ghost before = cs.take(i as int);
        let ghost ks = commit.jobs.keys();
        let ghost vs = commit.jobs.vals();
        let mut j: usize = 0;
        proof {
            assert(cs[i as int] == commit@);
            commit.jobs.lemma_canonical();
            assert(ks.take(0) =~= Seq::<Seq<char>>::empty());
            assert(m@ =~= tallies_with(before, commit@, ks.take(0)));
        }
        while j < n
            invariant
                j <= n,
                i < commits.len(),
                n == ks.len(),
                cs == commit_views(commits@),
                cs[i as int] == commit@,
                before == cs.take(i as int),
                ks == commit.jobs.keys(),
                vs == commit.jobs.vals(),
                commit.jobs.wf(),
                forall|x: int|
                    0 <= x < ks.len() ==> commit@.jobs.contains_key(#[trigger] ks[x])
                        && commit@.jobs[ks[x]] == vs[x],
                m@ == tallies_with(before, commit@, ks.take(j as int)),
                forall|name: Seq<char>|
                    total(before, name) + if ks.take(j as int).contains(name) {
                        point(commit@, name)
                    } else {
                        0
                    } <= u64::MAX,
            decreases n - j,
        {
            let ghost seen = ks.take(j as int);
            let (name, took) = match commit.jobs.entry(j) {
                Some((k, job)) => (k.clone(), total_of(job)),
                None => (String::new(), None),
            };
            proof {
                assert(name@ == ks[j as int]);
                assert(commit@.jobs[ks[j as int]] == vs[j as int]);
                lemma_runs(before, name@);
                lemma_total_grows(cs, i + 1, name@);
                assert(cs.take(i + 1).drop_last() =~= before);
                assert(cs.take(i + 1).last() == commit@);
                if seen.contains(name@) {
                    let x = choose|x: int| 0 <= x < seen.len() && seen[x] == name@;
                    crate::name_map::lemma_ascending_distinct(ks, x, j as int);
                }
                assert(!seen.contains(name@));
            }
            let took = match took {
                Some(t) => t,
                None => {
                    assert(total(cs, name@) > u64::MAX);
                    return None;
                },
            };
            let (ran, time) = match m.get(name.as_str()) {
                Some(p) => (p.0, p.1),
                None => (0, 0),
            };
            assert(ran == runs(before, name@));
            assert(time == total(before, name@));
            if time > u64::MAX - took {
                assert(total(cs, name@) > u64::MAX);
                return None;
            }
            m.insert(name, (ran + 1, time + took));
            proof {
                let next = ks.take(j + 1);
                assert(next =~= seen.push(ks[j as int]));
                assert forall|q: Seq<char>| next.contains(q) <==> (seen.contains(q) || q
                    == ks[j as int]) by {
                    if next.contains(q) {
                        let x = choose|x: int| 0 <= x < next.len() && next[x] == q;
                        if x < j {
                            assert(seen[x] == q);
                        }
                    }
                    if seen.contains(q) {
                        let x = choose|x: int| 0 <= x < seen.len() && seen[x] == q;
                        assert(next[x] == q);
                    }
                    if q == ks[j as int] {
                        assert(next[j as int] == q);
                    }
                }
                assert(m@ =~= tallies_with(before, commit@, next));
            }
            j += 1;
        }
        proof {
            assert(ks.take(j as int) =~= ks);
            assert(cs.take(i + 1).drop_last() =~= before);
            assert(cs.take(i + 1).last() == commit@);
            assert forall|q: Seq<char>| ks.contains(q) <==> commit@.jobs.contains_key(q) by {
                crate::name_map::lemma_assoc(ks, vs);
            }
            let after = cs.take(i + 1);
            assert forall|q: Seq<char>| #[trigger] total(after, q) <= u64::MAX by {
                lemma_runs(before, q);
            }
            assert(after.drop_last() == before && after.last() == commit@);
            assert forall|q: Seq<char>| #[trigger]
                tallies(after).contains_key(q) <==> m@.contains_key(q) by {
                lemma_runs(before, q);
            }
            assert forall|q: Seq<char>| m@.contains_key(q) implies #[trigger] m@[q] == tallies(
                after,
            )[q] by {
                lemma_runs(before, q);
            }
            assert(m@ =~= tallies(after));
        }
        i += 1;
    }
    assert(cs.take(i as int) =~= cs);
    Some(m)
}

/// Whether the mean time of a job that ran `s.0` times and took `s.1`
/// in all is greater than that of a job with the tally `t`. The means
/// are compared exactly, as fractions.
pub open spec fn mean_gt(s: (usize, u64), t: (usize, u64)) -> bool {
    s.1 as int * t.0 as int > t.1 as int * s.0 as int
}

/// Whether two tallies have the same mean.
pub open spec fn mean_eq(s: (usize, u64), t: (usize, u64)) -> bool {
    s.1 as int * t.0 as int == t.1 as int * s.0 as int
}

/// Whether job `a` is shown before job `b`: the one with the greater
/// mean comes first, and of two with the same mean the one whose name
/// comes first.
pub open spec fn ranks_before(m: Map<Seq<char>, (usize, u64)>, a: Seq<char>, b: Seq<char>) -> bool {
    mean_gt(m[a], m[b]) || (mean_eq(m[a], m[b]) && lex_lt(a, b))
}

/// Whether `names` are the jobs of `m`, each once, in the order in
/// which they are shown.
pub open spec fn is_ranking(m: Map<Seq<char>, (usize, u64)>, names: Seq<Seq<char>>) -> bool {
    &&& forall|name: Seq<char>| names.contains(name) <==> m.contains_key(name)
    &&& sorted_by(names, |a: Seq<char>, b: Seq<char>| ranks_before(m, a, b))
}

/// Of two different jobs exactly one is shown before the other.
pub proof fn lemma_ranks_total(m: Map<Seq<char>, (usize, u64)>, a: Seq<char>, b: Seq<char>)
    ensures
        a == b || ranks_before(m, a, b) || ranks_before(m, b, a),
        !(ranks_before(m, a, b) && ranks_before(m, b, a)),
{
    lemma_lex_total(a, b);
}

/// Of three fractions with positive denominators, the first is no less
/// than the third where it is no less than the second and the second
/// no less than the third; and it is greater where one of the two is.
pub proof fn lemma_fractions_chain(a1: int, a0: int, b1: int, b0: int, c1: int, c0: int)
    requires
        a0 > 0,
        b0 > 0,
        c0 > 0,
        a1 * b0 >= b1 * a0,
        b1 * c0 >= c1 * b0,
    ensures
        a1 * c0 >= c1 * a0,
        a1 * b0 > b1 * a0 || b1 * c0 > c1 * b0 ==> a1 * c0 > c1 * a0,
{
    assert((a1 * b0) * c0 >= (b1 * a0) * c0) by (nonlinear_arith)
        requires
            a1 * b0 >= b1 * a0,
            c0 > 0,
    ;
    assert((b1 * c0) * a0 >= (c1 * b0) * a0) by (nonlinear_arith)
        requires
            b1 * c0 >= c1 * b0,
            a0 > 0,
    ;
    assert((b1 * a0) * c0 == (b1 * c0) * a0) by (nonlinear_arith);
    assert((a1 * b0) * c0 == (a1 * c0) * b0) by (nonlinear_arith);
    assert((c1 * b0) * a0 == (c1 * a0) * b0) by (nonlinear_arith);
    assert(a1 * c0 >= c1 * a0) by (nonlinear_arith)
        requires
            (a1 * c0) * b0 >= (c1 * a0) * b0,
            b0 > 0,
    ;
    if a1 * b0 > b1 * a0 {
        assert((a1 * b0) * c0 > (b1 * a0) * c0) by (nonlinear_arith)
            requires
                a1 * b0 > b1 * a0,
                c0 > 0,
        ;
    }
    if b1 * c0 > c1 * b0 {
        assert((b1 * c0) * a0 > (c1 * b0) * a0) by (nonlinear_arith)
            requires
                b1 * c0 > c1 * b0,
                a0 > 0,
        ;
    }
    if a1 * b0 > b1 * a0 || b1 * c0 > c1 * b0 {
        assert(a1 * c0 > c1 * a0) by (nonlinear_arith)
            requires
                (a1 * c0) * b0 > (c1 * a0) * b0,
                b0 > 0,
        ;
    }
}

/// Among jobs that ran at least once, the order in which jobs are shown
/// is transitive.
pub proof fn lemma_ranks_transitive(
    m: Map<Seq<char>, (usize, u64)>,
    a: Seq<char>,
    b: Seq<char>,
    c: Seq<char>,
)
    requires
        m[a].0 > 0,
        m[b].0 > 0,
        m[c].0 > 0,
        ranks_before(m, a, b),
        ranks_before(m, b, c),
    ensures
        ranks_before(m, a, c),
{
    lemma_fractions_chain(
        m[a].1 as int,
        m[a].0 as int,
        m[b].1 as int,
        m[b].0 as int,
        m[c].1 as int,
        m[c].0 as int,
    );
    if lex_lt(a, b) && lex_lt(b, c) {
        lemma_lex_transitive(a, b, c);
    }
}

/// There is one order only in which the jobs of `m` are shown.
pub proof fn lemma_ranking_unique(
    m: Map<Seq<char>, (usize, u64)>,
    a: Seq<Seq<char>>,
    b: Seq<Seq<char>>,
)
    requires
        is_ranking(m, a),
        is_ranking(m, b),
    ensures
        a == b,
{
    let lt = |x: Seq<char>, y: Seq<char>| ranks_before(m, x, y);
    assert forall|x: Seq<char>, y: Seq<char>| !(#[trigger] lt(x, y) && lt(y, x)) by {
        lemma_ranks_total(m, x, y);
    }
    lemma_sorted_unique(a, b, lt);
}

/// In a ranking, no job has a smaller mean than the job after it.
pub proof fn lemma_ranking_descends(m: Map<Seq<char>, (usize, u64)>, names: Seq<Seq<char>>, i: int)
    requires
        is_ranking(m, names),
        0 <= i < names.len() - 1,
    ensures
        !mean_gt(m[names[i + 1]], m[names[i]]),
{
    let lt = |a: Seq<char>, b: Seq<char>| ranks_before(m, a, b);
    assert(lt(names[i], names[i + 1]));
}

/// The names of a list of jobs with their tallies.
pub open spec fn firsts(v: Seq<(String, (usize, u64))>) -> Seq<Seq<char>> {
    Seq::new(v.len(), |i: int| v[i].0@)
}

/// The views of a list of strings.
pub open spec fn string_views(v: Seq<String>) -> Seq<Seq<char>> {
    Seq::new(v.len(), |i: int| v[i]@)
}

/// Whether the job `entry`, with its tally, is shown before the job
/// `name` with the tally `tally`.
fn shown_before(entry: &(String, (usize, u64)), name: &str, tally: (usize, u64)) -> (b: bool)
    ensures
        b == (mean_gt(entry.1, tally) || (mean_eq(entry.1, tally) && lex_lt(entry.0@, name@))),
{
    let held: (usize, u64) = entry.1;
    assert(held.1 as int * tally.0 as int <= u128::MAX && tally.1 as int * held.0 as int
        <= u128::MAX) by (nonlinear_arith)
        requires
            held.1 <= u64::MAX,
            held.0 <= u64::MAX,
            tally.1 <= u64::MAX,
            tally.0 <= u64::MAX,
    ;
    let ours: u128 = (held.1 as u128) * (tally.0 as u128);
    let theirs: u128 = (tally.1 as u128) * (held.0 as u128);
    ours > theirs || (ours == theirs && str_lt(entry.0.as_str(), name))
}

/// The jobs of `m` in the order in which they are shown.
fn rank(m: &NameMap<(usize, u64)>) -> (r: Vec<String>)
    requires
        forall|k: Seq<char>| m@.contains_key(k) ==> (#[trigger] m@[k]).0 > 0,
    ensures
        is_ranking(m@, string_views(r@)),
{
    let ghost keys = m.keys();
    let ghost vals = m.vals();
    let ghost lt = |a: Seq<char>, b: Seq<char>| ranks_before(m@, a, b);
    let n = m.len();
    let mut ranked: Vec<(String, (usize, u64))> = Vec::new();
    let mut i: usize = 0;
    proof {
        m.lemma_canonical();
    }
    while i < n
        invariant
            i <= n,
            n == keys.len(),
            keys == m.keys(),
            vals == m.vals(),
            m.wf(),
            lt == (|a: Seq<char>, b: Seq<char>| ranks_before(m@, a, b)),
            forall|k: Seq<char>| m@.contains_key(k) ==> (#[trigger] m@[k]).0 > 0,
            forall|x: int|
                0 <= x < keys.len() ==> m@.contains_key(#[trigger] keys[x]) && m@[keys[x]]
                    == vals[x],
            forall|x: int|
                0 <= x < ranked.len() ==> m@.contains_key((#[trigger] ranked@[x]).0@)
                    && ranked@[x].1 == m@[ranked@[x].0@],
            sorted_by(firsts(ranked@), lt),
            forall|name: Seq<char>|
                firsts(ranked@).contains(name) <==> keys.take(i as int).contains(name),
        decreases n - i,
    {
        let (name, tally) = match m.entry(i) {
            Some((k, t)) => (k.clone(), *t),
            None => (String::new(), (0, 0)),
        };
        assert(name@ == keys[i as int]);
        assert(tally == m@[name@]);
        let ghost old_names = firsts(ranked@);
        let mut p: usize = 0;
        while p < ranked.len() && shown_before(&ranked[p], name.as_str(), tally)
            invariant
                p <= ranked.len(),
                old_names == firsts(ranked@),
                tally == m@[name@],
                forall|x: int|
                    0 <= x < ranked.len() ==> m@.contains_key((#[trigger] ranked@[x]).0@)
                        && ranked@[x].1 == m@[ranked@[x].0@],
                forall|x: int| 0 <= x < p ==> ranks_before(m@, #[trigger] old_names[x], name@),
            decreases ranked.len() - p,
        {
            assert(old_names[p as int] == ranked@[p as int].0@);
            p += 1;
        }
        proof {
            let seen = keys.take(i as int);
            if seen.contains(name@) {
                let x = choose|x: int| 0 <= x < seen.len() && seen[x] == name@;
                crate::name_map::lemma_ascending_distinct(keys, x, i as int);
            }
            assert(!old_names.contains(name@));
            let new_names = old_names.insert(p as int, name@);
            assert(firsts(ranked@.insert(p as int, (name, tally))) =~= new_names);
            assert forall|x: int, y: int| 0 <= x < y < new_names.len() implies lt(
                #[trigger] new_names[x],
                #[trigger] new_names[y],
            ) by {
                if y == p {
                    assert(new_names[x] == old_names[x]);
                } else if x == p {
                    assert(new_names[y] == old_names[y - 1]);
                    assert(old_names[p as int] == ranked@[p as int].0@);
                    assert(old_names.contains(old_names[p as int]));
                    lemma_ranks_total(m@, old_names[p as int], name@);
                    if y - 1 > p {
                        assert(lt(old_names[p as int], old_names[y - 1]));
                        assert(old_names[y - 1] == ranked@[y - 1].0@);
                        lemma_ranks_transitive(m@, name@, old_names[p as int], old_names[y - 1]);
                    }
                } else {
                    let x0 = if x < p { x } else { x - 1 };
                    let y0 = if y < p { y } else { y - 1 };
                    assert(new_names[x] == old_names[x0] && new_names[y] == old_names[y0]);
                    assert(lt(old_names[x0], old_names[y0]));
                }
            }
            let next = keys.take(i + 1);
            assert forall|q: Seq<char>| new_names.contains(q) <==> next.contains(q) by {
                if new_names.contains(q) {
                    let x = choose|x: int| 0 <= x < new_names.len() && new_names[x] == q;
                    if x == p {
                        assert(next[i as int] == q);
                    } else {
                        let x0 = if x < p { x } else { x - 1 };
                        assert(old_names[x0] == q);
                        assert(old_names.contains(q));
                        let z = choose|z: int| 0 <= z < seen.len() && seen[z] == q;
                        assert(next[z] == q);
                    }
                }
                if next.contains(q) {
                    let z = choose|z: int| 0 <= z < next.len() && next[z] == q;
                    if z == i {
                        assert(new_names[p as int] == q);
                    } else {
                        assert(seen[z] == q);
                        assert(seen.contains(q));
                        assert(old_names.contains(q));
                        let x = choose|x: int| 0 <= x < old_names.len() && old_names[x] == q;
                        if x < p {
                            assert(new_names[x] == q);
                        } else {
                            assert(new_names[x + 1] == old_names[x]);
                        }
                    }
                }
            }
            let grown = ranked@.insert(p as int, (name, tally));
            assert forall|x: int| 0 <= x < grown.len() implies m@.contains_key(
                (#[trigger] grown[x]).0@,
            ) && grown[x].1 == m@[grown[x].0@] by {
                if x != p {
                    let x0 = if x < p { x } else { x - 1 };
                    assert(grown[x] == ranked@[x0]);
                }
            }
        }
        ranked.insert(p, (name, tally));
        i += 1;
    }
    proof {
        assert(keys.take(i as int) =~= keys);
        crate::name_map::lemma_assoc(keys, vals);
    }
    let mut out: Vec<String> = Vec::new();
    let mut x: usize = 0;
    while x < ranked.len()
        invariant
            x <= ranked.len(),
            out.len() == x,
            forall|y: int| 0 <= y < x ==> (#[trigger] out@[y])@ == ranked@[y].0@,
        decreases ranked.len() - x,
    {
        out.push(ranked[x].0.clone());
        x += 1;
    }
    assert(string_views(out@) =~= firsts(ranked@));
    out
}

/// What one job took on each commit shown, oldest commit first.
#[derive(Debug, PartialEq, Eq)]
pub struct Series {
    pub name: String,
    pub data: Vec<u64>,
}

/// The figures of the site: the commits shown, oldest first, and one
/// series for each job that ran on any of them, slowest job first.
#[derive(Debug, PartialEq, Eq)]
pub struct Overall {
    pub commits: Vec<GitCommit>,
    pub series: Vec<Series>,
}

/// The names of a list of series.
pub open spec fn series_names(v: Seq<Series>) -> Seq<Seq<char>> {
    Seq::new(v.len(), |i: int| v[i].name@)
}

/// Whether `data` is what the job `name` took on each of `commits`,
/// read from the last commit to the first.
pub open spec fn is_series(commits: Seq<CommitView>, name: Seq<char>, data: Seq<u64>) -> bool {
    &&& data.len() == commits.len()
    &&& forall|j: int|
        0 <= j < data.len() ==> #[trigger] data[j] == point(commits[commits.len() - 1 - j], name)
}

/// Whether `axis` names `commits`, read from the last to the first.
pub open spec fn is_axis(commits: Seq<(GitCommit, Commit)>, axis: Seq<GitCommit>) -> bool {
    &&& axis.len() == commits.len()
    &&& forall|j: int|
        0 <= j < axis.len() ==> (#[trigger] axis[j]).sha@ == commits[commits.len() - 1 - j].0.sha@
            && axis[j].date@ == commits[commits.len() - 1 - j].0.date@
}

/// Whether `o` holds the figures for `commits`, which come newest first.
pub open spec fn is_overall(commits: Seq<(GitCommit, Commit)>, o: Overall) -> bool {
    &&& is_axis(commits, o.commits@)
    &&& is_ranking(tallies(commit_views(commits)), series_names(o.series@))
    &&& forall|i: int|
        0 <= i < o.series@.len() ==> is_series(
            commit_views(commits),
            (#[trigger] o.series@[i]).name@,
            o.series@[i].data@,
        )
}

/// The figures for given commits are pinned down: two sets of figures
/// for the same commits name the same commits, hold the same series in
/// the same order, and the same data in each.
pub proof fn lemma_overall_unique(commits: Seq<(GitCommit, Commit)>, a: Overall, b: Overall)
    requires
        is_overall(commits, a),
        is_overall(commits, b),
    ensures
        a.commits@.len() == b.commits@.len(),
        forall|j: int|
            0 <= j < a.commits@.len() ==> (#[trigger] a.commits@[j]).sha@ == b.commits@[j].sha@
                && a.commits@[j].date@ == b.commits@[j].date@,
        series_names(a.series@) == series_names(b.series@),
        forall|i: int|
            0 <= i < a.series@.len() ==> (#[trigger] a.series@[i]).data@ == b.series@[i].data@,
{
    let cs = commit_views(commits);
    lemma_ranking_unique(tallies(cs), series_names(a.series@), series_names(b.series@));
    assert(a.series@.len() == series_names(a.series@).len());
    assert(b.series@.len() == series_names(b.series@).len());
    assert forall|i: int| 0 <= i < a.series@.len() implies (#[trigger] a.series@[i]).data@
        == b.series@[i].data@ by {
        assert(series_names(a.series@)[i] == a.series@[i].name@);
        assert(series_names(b.series@)[i] == b.series@[i].name@);
        assert(is_series(cs, a.series@[i].name@, a.series@[i].data@));
        assert(is_series(cs, b.series@[i].name@, b.series@[i].data@));
        assert(a.series@[i].data@ =~= b.series@[i].data@);
    }
}

/// The series come by descending mean: each job that has a series ran
/// at least once, and its mean time over the commits on which it ran is
/// no less than that of the job after it.
pub proof fn lemma_overall_descends(commits: Seq<(GitCommit, Commit)>, o: Overall, i: int)
    requires
        is_overall(commits, o),
        commits.len() <= usize::MAX,
        forall|name: Seq<char>| total(commit_views(commits), name) <= u64::MAX,
        0 <= i < o.series@.len() - 1,
    ensures
        ({
            let cs = commit_views(commits);
            let a = o.series@[i].name@;
            let b = o.series@[i + 1].name@;
            &&& runs(cs, a) > 0
            &&& runs(cs, b) > 0
            &&& total(cs, a) * runs(cs, b) >= total(cs, b) * runs(cs, a)
        }),
{
    let cs = commit_views(commits);
    let names = series_names(o.series@);
    let a = o.series@[i].name@;
    let b = o.series@[i + 1].name@;
    assert(names[i] == a && names[i + 1] == b);
    assert(names.contains(a) && names.contains(b));
    lemma_runs(cs, a);
    lemma_runs(cs, b);
    lemma_ranking_descends(tallies(cs), names, i);
}

/// What the job `name` took on each of the commits, oldest first;
/// `None` where one of these times is out of range.
fn series_for(commits: &Vec<(GitCommit, Commit)>, name: &str) -> (r: Option<Vec<u64>>)
    ensures
        match r {
            Some(d) => is_series(commit_views(commits@), name@, d@),
            None => exists|j: int|
                0 <= j < commits.len() && point(#[trigger] commit_views(commits@)[j], name@)
                    > u64::MAX,
        },
{
    let ghost cs = commit_views(commits@);
    let n = commits.len();
    let mut data: Vec<u64> = Vec::new();
    let mut j: usize = 0;
    while j < n
        invariant
            j <= n,
            n == commits.len(),
            cs == commit_views(commits@),
            data.len() == j,
            forall|y: int| 0 <= y < j ==> #[trigger] data@[y] == point(cs[n - 1 - y], name@),
        decreases n - j,
    {
        let commit = &commits[n - 1 - j].1;
        assert(cs[n - 1 - j] == commit@);
        let took = match commit.jobs.get(name) {
            Some(job) => match total_of(job) {
                Some(t) => t,
                None => {
                    return None;
                },
            },
            None => 0,
        };
        data.push(took);
        j += 1;
    }
    Some(data)
}

/// The figures of the site for `commits`, which come newest first.
///
/// Each job that ran on one of the commits has a series; the series
/// come in the order of `ranks_before`; both the commits and the data
/// of each series come oldest first, with zero where the job did not
/// run. It fails where the time of a job over all the commits is more
/// than a duration can hold.
pub fn overall(commits: &Vec<(GitCommit, Commit)>) -> (r: Result<Overall, TotalOutOfRange>)
    ensures
        match r {
            Ok(o) => is_overall(commits@, o) && forall|name: Seq<char>|
                total(commit_views(commits@), name) <= u64::MAX,
            Err(_) => exists|name: Seq<char>| total(commit_views(commits@), name) > u64::MAX,
        },
{
    let ghost cs = commit_views(commits@);
    let n = commits.len();
    let tallied = match tally(commits) {
        Some(m) => m,
        None => {
            return Err(TotalOutOfRange);
        },
    };
    proof {
        assert forall|k: Seq<char>| tallied@.contains_key(k) implies (#[trigger] tallied@[k]).0
            > 0 by {
            lemma_runs(cs, k);
        }
    }
    let names = rank(&tallied);
    let mut series: Vec<Series> = Vec::new();
    let mut i: usize = 0;
    while i < names.len()
        invariant
            i <= names.len(),
            cs == commit_views(commits@),
            series.len() == i,
            forall|name: Seq<char>| total(cs, name) <= u64::MAX,
            forall|x: int|
                0 <= x < i ==> (#[trigger] series@[x]).name@ == names@[x]@ && is_series(
                    cs,
                    series@[x].name@,
                    series@[x].data@,
                ),
        decreases names.len() - i,
    {
        let name = names[i].clone();
        let data = match series_for(commits, name.as_str()) {
            Some(d) => d,
            None => {
                proof {
                    let j = choose|j: int|
                        0 <= j < commits.len() && point(#[trigger] cs[j], name@) > u64::MAX;
                    lemma_total_grows(cs, j, name@);
                }
                return Err(TotalOutOfRange);
            },
        };
        series.push(Series { name, data });
        i += 1;
    }
    let mut axis: Vec<GitCommit> = Vec::new();
    let mut j: usize = 0;
    while j < n
        invariant
            j <= n,
            n == commits.len(),
            axis.len() == j,
            forall|y: int|
                0 <= y < j ==> (#[trigger] axis@[y]).sha@ == commits@[n - 1 - y].0.sha@
                    && axis@[y].date@ == commits@[n - 1 - y].0.date@,
        decreases n - j,
    {
        let named = &commits[n - 1 - j].0;
        axis.push(GitCommit { sha: named.sha.clone(), date: named.date.clone() });
        j += 1;
    }
    assert(series_names(series@) =~= string_views(names@));
    Ok(Overall { commits: axis, series })
}

/// The commits that the site shows: the first `WINDOW` of the history,
/// which comes newest first.
pub fn shown(history: Vec<GitCommit>) -> (r: Vec<GitCommit>)
    ensures
        r@ == history@.take(
            if history@.len() <= WINDOW {
                history@.len() as int
            } else {
                WINDOW as int
            },
        ),
{
    let mut r = history;
    if r.len() > WINDOW {
        r.truncate(WINDOW);
    } else {
        assert(r@.take(r@.len() as int) =~= r@);
    }
    r
}

/// The addresses of the records of those commits of which `cached`
/// does not hold the key, in order.
pub open spec fn missing_of(
    commits: Seq<(GitCommit, bool)>,
    region: Seq<char>,
    bucket: Seq<char>,
) -> Seq<Seq<char>>
    decreases commits.len(),
{
    if commits.len() == 0 {
        Seq::empty()
    } else {
        let before = missing_of(commits.drop_last(), region, bucket);
        if commits.last().1 {
            before
        } else {
            before.push(record_url_of(region, bucket, commits.last().0.sha@))
        }
    }
}

/// The addresses from which the records that the cache lacks are to be
/// read: each commit comes with whether the cache holds its record.
pub fn missing(commits: &Vec<(GitCommit, bool)>, region: &str, bucket: &str) -> (urls: Vec<String>)
    ensures
        string_views(urls@) == missing_of(commits@, region@, bucket@),
{
    let mut urls: Vec<String> = Vec::new();
    let mut i: usize = 0;
    assert(commits@.take(0) =~= Seq::<(GitCommit, bool)>::empty());
    assert(string_views(urls@) =~= Seq::<Seq<char>>::empty());
    while i < commits.len()
        invariant
            i <= commits.len(),
            string_views(urls@) == missing_of(commits@.take(i as int), region@, bucket@),
        decreases commits.len() - i,
    {
        proof {
            assert(commits@.take(i + 1).drop_last() =~= commits@.take(i as int));
            assert(commits@.take(i + 1).last() == commits@[i as int]);
        }
        if !commits[i].1 {
            let ghost before = string_views(urls@);
            let url = record_url(region, bucket, commits[i].0.sha.as_str());
            let ghost view = url@;
            urls.push(url);
            assert(string_views(urls@) =~= before.push(view));
        }
        i += 1;
    }
    assert(commits@.take(i as int) =~= commits@);
    urls
}

} // verus!
