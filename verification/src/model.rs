use vstd::prelude::*;

verus! {

/// One file touched by a commit, with the number of added and removed
/// lines recorded for it.
#[derive(Debug, Clone)]
pub struct FileChange {
    pub path: String,
    pub additions: u32,
    pub deletions: u32,
}

/// One commit of the analysed history.
///
/// `timestamp` is the author time in whole seconds since the Unix epoch.
#[derive(Debug, Clone)]
pub struct CommitData {
    pub id: String,
    pub author: String,
    pub email: String,
    pub message: String,
    pub timestamp: i64,
    pub files_changed: Vec<FileChange>,
}

/// What can go wrong in an analysis.
#[derive(Debug, Clone)]
pub enum VibeError {
    /// The repository could not be opened (the message says why).
    GitOpen(String),
    /// Reading the history failed (the message says why).
    Git(String),
    /// The period text is not a number followed by `d`, `w`, `m` or `y`.
    InvalidPeriod(String),
    /// No commit falls within the period.
    NoCommits,
    /// Writing an output file failed (the message says why).
    Io(String),
}

} // verus!
