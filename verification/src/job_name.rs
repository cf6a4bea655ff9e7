//! Finding the name of a job in its log.

use crate::decimal::{all_digits, is_digit};
use crate::error::NotFound;
use crate::text::{
    after, contains, count_until, find_line, first_line_with, from_chars, lemma_first_line_with,
    lemma_span_until, lines, slice_views, span_until, split_lines, split_whitespace, starts_at,
    to_chars, tokens,
};
use vstd::prelude::*;

verus! {

/// What stands before the name of the job in its log.
pub open spec fn name_marker() -> Seq<char> {
    "CI_JOB_NAME="@
}

/// What stands before the name that the agent gave the job.
pub open spec fn agent_marker() -> Seq<char> {
    "AGENT_JOBNAME="@
}

/// What the provider puts in place of a name that it does not know:
/// `Job` and a number.
pub open spec fn is_placeholder(name: Seq<char>) -> bool {
    name.len() > 3 && name.take(3) == "Job"@ && all_digits(name.skip(3))
}

/// What follows `marker` in the first line of `ls` that holds it.
pub open spec fn marked(ls: Seq<Seq<char>>, marker: Seq<char>) -> Option<Seq<char>> {
    match first_line_with(ls, marker, 0) {
        Some(i) => after(ls[i], marker),
        None => None,
    }
}

/// The name after the marker: what stands before the next `]`, or all
/// of it where no `]` follows.
pub open spec fn bracketed(rest: Seq<char>) -> Seq<char> {
    rest.take(span_until(rest, ']') as int)
}

/// The name that the agent gave: the second word after its marker.
pub open spec fn agent_name(rest: Seq<char>) -> Result<Seq<char>, NotFound> {
    if tokens(rest).len() >= 2 {
        Ok(tokens(rest)[1])
    } else {
        Err(NotFound)
    }
}

/// The name of the job whose log is `text`.
///
/// It is the name after the first `CI_JOB_NAME=`, unless that is a
/// placeholder: then it is the second word after the first
/// `AGENT_JOBNAME=`.
pub open spec fn job_name_of(text: Seq<char>) -> Result<Seq<char>, NotFound> {
    match marked(lines(text), name_marker()) {
        None => Err(NotFound),
        Some(rest) => if !is_placeholder(bracketed(rest)) {
            Ok(bracketed(rest))
        } else {
            match marked(lines(text), agent_marker()) {
                None => Err(NotFound),
                Some(rest) => agent_name(rest),
            }
        },
    }
}

/// A log of which no line holds the marker of the name gives no name,
/// whatever else it holds.
pub proof fn lemma_unmarked_log_has_no_name(text: Seq<char>)
    requires
        forall|i: int|
            0 <= i < lines(text).len() ==> !contains(#[trigger] lines(text)[i], name_marker()),
    ensures
        job_name_of(text) == Err::<Seq<char>, NotFound>(NotFound),
{
    lemma_first_line_with(lines(text), name_marker(), 0);
}

/// Where the name after the marker is a placeholder, the name of the job
/// is the second word after the agent's marker, and nothing else.
pub proof fn lemma_placeholder_falls_back(text: Seq<char>)
    requires
        marked(lines(text), name_marker()) matches Some(rest) && is_placeholder(bracketed(rest)),
    ensures
        job_name_of(text) == match marked(lines(text), agent_marker()) {
            Some(rest) => agent_name(rest),
            None => Err(NotFound),
        },
{
}

fn looks_like_placeholder(name: &[char]) -> (b: bool)
    ensures
        b == is_placeholder(name@),
{
    let job = to_chars("Job");
    proof {
        reveal_strlit("Job");
    }
    if name.len() <= 3 || !starts_at(name, job.as_slice(), 0) {
        return false;
    }
    assert(name@.take(3) =~= name@.subrange(0, 3));
    let mut i: usize = 3;
    while i < name.len()
        invariant
            3 <= i <= name.len(),
            forall|j: int| 3 <= j < i ==> is_digit(#[trigger] name@[j]),
        decreases name.len() - i,
    {
        let u: u32 = name[i] as u32;
        if !(0x30 <= u && u <= 0x39) {
            assert(!is_digit(name@.skip(3)[i - 3]));
            return false;
        }
        i += 1;
    }
    assert forall|j: int| 0 <= j < name@.skip(3).len() implies is_digit(
        #[trigger] name@.skip(3)[j],
    ) by {
        assert(name@.skip(3)[j] == name@[j + 3]);
    }
    true
}

/// The name of the job whose log is `contents`; `NotFound` where the
/// log does not give it.
pub fn identify_job(contents: &str) -> (r: Result<String, NotFound>)
    ensures
        match r {
            Ok(name) => job_name_of(contents@) == Ok::<Seq<char>, NotFound>(name@),
            Err(e) => job_name_of(contents@) == Err::<Seq<char>, NotFound>(e),
        },
{
    let chars = to_chars(contents);
    let ls = split_lines(chars.as_slice());
    let marker = to_chars("CI_JOB_NAME=");
    let rest = match find_line(&ls, marker.as_slice(), 0) {
        Some((_, rest)) => rest,
        None => {
            return Err(NotFound);
        },
    };
    let n = count_until(rest, ']');
    proof {
        lemma_span_until(rest@, ']');
    }
    let name = vstd::slice::slice_subrange(rest, 0, n);
    assert(name@ =~= bracketed(rest@));
    if !looks_like_placeholder(name) {
        return Ok(from_chars(name));
    }
    let marker = to_chars("AGENT_JOBNAME=");
    let rest = match find_line(&ls, marker.as_slice(), 0) {
        Some((_, rest)) => rest,
        None => {
            return Err(NotFound);
        },
    };
    let words = split_whitespace(rest);
    if words.len() >= 2 {
        assert(slice_views(words@)[1] == words@[1]@);
        Ok(from_chars(words[1]))
    } else {
        Err(NotFound)
    }
}

} // verus!
