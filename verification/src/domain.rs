//! Recent projects and project candidates of the desktop shell.
use vstd::prelude::*;
use crate::model::copy_string;
use crate::text::{chars_of, string_of};

verus! {

/// A project directory the user confirmed, and when.
#[derive(Clone, Debug, PartialEq, Eq)]
pub struct RecentProject {
    pub path: String,
    pub confirmed_at: i64,
}

impl View for RecentProject {
    type V = (Seq<char>, i64);

    open spec fn view(&self) -> (Seq<char>, i64) {
        (self.path@, self.confirmed_at)
    }
}

pub open spec fn recent_views(s: Seq<RecentProject>) -> Seq<(Seq<char>, i64)> {
    Seq::new(s.len(), |i: int| s[i]@)
}

impl RecentProject {
    /// A record of `path` confirmed at `confirmed_at`.
    pub fn new(path: &str, confirmed_at: i64) -> (r: RecentProject)
        ensures
            r@ == (path@, confirmed_at),
    {
        RecentProject { path: path.to_owned(), confirmed_at }
    }

    pub fn copy(&self) -> (r: RecentProject)
        ensures
            r@ == self@,
    {
        RecentProject { path: copy_string(&self.path), confirmed_at: self.confirmed_at }
    }
}

/// Why a project is suggested.
#[derive(Clone, Copy, Debug, PartialEq, Eq, Structural)]
pub enum CandidateReason {
    AbsolutePath,
    RecentRelativePath,
    RecentProject,
}

/// A suggested project with its score.
#[derive(Clone, Debug, PartialEq, Eq)]
pub struct ProjectCandidate {
    pub path: String,
    pub score: u16,
    pub reason: CandidateReason,
}

impl View for ProjectCandidate {
    type V = (Seq<char>, u16, CandidateReason);

    open spec fn view(&self) -> (Seq<char>, u16, CandidateReason) {
        (self.path@, self.score, self.reason)
    }
}

pub open spec fn candidate_views(s: Seq<ProjectCandidate>) -> Seq<(Seq<char>, u16, CandidateReason)> {
    Seq::new(s.len(), |i: int| s[i]@)
}

} // verus!
