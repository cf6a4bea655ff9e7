//! Reading the history of commits.

use crate::record::{GitCommit, GitCommitView};
use crate::text::{from_chars, slice_views, split_whitespace, to_chars, tokens};
use vstd::prelude::*;

verus! {

/// The author whose commits are tracked.
pub const AUTHOR: &'static str = "bors";

/// The form in which the history is asked for: the name of the commit,
/// a space, and its date.
pub const PRETTY: &'static str = "%H %aI";

/// The commit that a line of the history names: its first word is the
/// name and its second the date.
pub open spec fn commit_of(line: Seq<char>) -> Option<GitCommitView> {
    if tokens(line).len() >= 2 {
        Some(GitCommitView { sha: tokens(line)[0], date: tokens(line)[1] })
    } else {
        None
    }
}

/// The view of an optional commit.
pub open spec fn commit_view(c: Option<GitCommit>) -> Option<GitCommitView> {
    match c {
        Some(c) => Some(c@),
        None => None,
    }
}

/// Reads a line of the history.
pub fn parse_commit_line(line: &str) -> (r: Option<GitCommit>)
    ensures
        commit_view(r) == commit_of(line@),
{
    let chars = to_chars(line);
    let words = split_whitespace(chars.as_slice());
    if words.len() >= 2 {
        assert(slice_views(words@)[0] == words@[0]@);
        assert(slice_views(words@)[1] == words@[1]@);
        Some(GitCommit { sha: from_chars(words[0]), date: from_chars(words[1]) })
    } else {
        None
    }
}

} // verus!
