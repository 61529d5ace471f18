//! The journal of an apply: the plan and how far it has come.
use vstd::prelude::*;
use crate::fsops::{FsError, FsErrorView};
use crate::plan::ApplyPlan;

verus! {

/// How far one file move has come.
#[derive(Clone, Copy, PartialEq, Eq, Debug, Structural)]
pub enum OpState {
    Pending,
    /// The copy stands at the destination; the source is still to be unlinked.
    Published,
    Done,
    Failed,
}

/// The plan and the state of each of its moves, in the order in which they are made.
#[derive(PartialEq, Eq, Debug)]
pub struct Journal {
    pub plan: ApplyPlan,
    pub statuses: Vec<OpState>,
}

/// Why an apply stopped.
#[derive(PartialEq, Eq, Debug)]
pub enum ApplyError {
    /// The run was refused before any file moved.
    Preflight(String),
    /// An operation on `path` failed.
    Fs { path: String, source: FsError },
    /// A file stands where another was to go; it was not overwritten.
    Collision(String),
}

/// The value of an `ApplyError`.
pub enum ApplyErrorView {
    Preflight(Seq<char>),
    Fs { path: Seq<char>, source: FsErrorView },
    Collision(Seq<char>),
}

impl View for ApplyError {
    type V = ApplyErrorView;

    open spec fn view(&self) -> ApplyErrorView {
        match *self {
            ApplyError::Preflight(m) => ApplyErrorView::Preflight(m@),
            ApplyError::Fs { path, source } => ApplyErrorView::Fs { path: path@, source: source@ },
            ApplyError::Collision(p) => ApplyErrorView::Collision(p@),
        }
    }
}

/// The value of an outcome.
pub open spec fn outcome(r: Result<(), ApplyError>) -> Result<(), ApplyErrorView> {
    match r {
        Ok(_) => Ok(()),
        Err(e) => Err(e@),
    }
}

/// The words for an apply error.
pub open spec fn error_words(e: ApplyErrorView) -> Seq<char> {
    match e {
        ApplyErrorView::Preflight(m) => "preflight failed: "@ + m,
        ApplyErrorView::Fs { path, source } => "fs error on "@ + path + ": "@ + source.message,
        ApplyErrorView::Collision(p) => "collision: "@ + p + " already exists"@,
    }
}

impl ApplyError {
    /// The words for the error.
    pub fn describe(&self) -> (r: String)
        ensures
            r@ == error_words(self@),
    {
        match self {
            ApplyError::Preflight(m) => {
                let mut s = String::from_str("preflight failed: ");
                s.append(m.as_str());
                s
            },
            ApplyError::Fs { path, source } => {
                let mut s = String::from_str("fs error on ");
                s.append(path.as_str());
                s.append(": ");
                s.append(source.message.as_str());
                s
            },
            ApplyError::Collision(p) => {
                let mut s = String::from_str("collision: ");
                s.append(p.as_str());
                s.append(" already exists");
                s
            },
        }
    }
}

/// What an apply did.
#[derive(PartialEq, Eq, Debug)]
pub struct ApplyReport {
    pub moved_shots: usize,
    pub moved_files: usize,
    pub sidecars_written: usize,
    pub stopped_at: Option<String>,
}

/// The value of an `ApplyReport`.
pub struct ReportView {
    pub moved_shots: int,
    pub moved_files: int,
    pub sidecars_written: int,
    pub stopped_at: Option<Seq<char>>,
}

impl View for ApplyReport {
    type V = ReportView;

    open spec fn view(&self) -> ReportView {
        ReportView {
            moved_shots: self.moved_shots as int,
            moved_files: self.moved_files as int,
            sidecars_written: self.sidecars_written as int,
            stopped_at: crate::model::opt_text(self.stopped_at),
        }
    }
}

impl Default for ApplyReport {
    fn default() -> (r: Self)
        ensures
            r@ == (ReportView {
                moved_shots: 0,
                moved_files: 0,
                sidecars_written: 0,
                stopped_at: None,
            }),
    {
        ApplyReport { moved_shots: 0, moved_files: 0, sidecars_written: 0, stopped_at: None }
    }
}

/// The words of an error name what it is about: the reason of a refusal, the file and the
/// reason of a failure, the place of a collision.
pub proof fn an_error_names_what_it_is_about(m: Seq<char>, path: Seq<char>, e: FsErrorView)
    ensures
        error_words(ApplyErrorView::Preflight(m)) == "preflight failed: "@ + m,
        error_words(ApplyErrorView::Fs { path, source: e }) == "fs error on "@ + path + ": "@
            + e.message,
        error_words(ApplyErrorView::Collision(path)) == "collision: "@ + path
            + " already exists"@,
{
}

} // verus!
