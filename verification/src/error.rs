//! The ways in which reading a record out of a log can fail.

use vstd::prelude::*;

verus! {

/// Why the timings of a log could not be read.
#[derive(Clone, Copy, Debug, PartialEq, Eq, Structural)]
pub enum TimingError {
    /// What stands for the seconds on a timing line is no number, or a
    /// negative one.
    Malformed,
    /// A number, or a total, is more than a duration can hold.
    OutOfRange,
}

/// What was looked for is not there.
#[derive(Clone, Copy, Debug, PartialEq, Eq, Structural)]
pub struct NotFound;

/// Why an entry of the cache could not be read or made.
#[derive(Clone, Copy, Debug, PartialEq, Eq, Structural)]
pub enum CacheError {
    /// The entry is not the gzip form of a text.
    Corrupt,
    /// The text could not be compressed.
    Compress,
}

/// Why a directory of builds could not go on.
#[derive(Clone, Copy, Debug, PartialEq, Eq, Structural)]
pub enum DirectoryError {
    /// More builds are needed, and the provider gives its first page
    /// only.
    ResumeUnsupported,
    /// A page holds a build for a commit that has one already.
    DuplicateBuild,
}

/// A total of durations is more than a duration can hold.
#[derive(Clone, Copy, Debug, PartialEq, Eq, Structural)]
pub struct TotalOutOfRange;

} // verus!
