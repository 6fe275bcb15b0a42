//! The failure taxonomy of the whole pipeline.
//!
//! Every failure carries the offending position or name(s), so that a caller
//! can report what went wrong without re-running any phase.

use vstd::prelude::*;

verus! {

/// The mathematical shadow of [`MakeError`]: positions as `int`, names as
/// `Seq<char>`.  Contracts throughout the crate speak of this view.
pub enum MakeErrorView {
    /// An unsupported lexical construct (a `$` not followed by `(`) at the
    /// given character offset.
    Lex { pos: int },
    /// An unexpected token while a statement or rule was being parsed; the
    /// offset is where the offending token was sought.
    Parse { pos: int },
    /// The same target name was defined by two rule blocks.
    DuplicateTarget { name: Seq<char> },
    /// A prerequisite that no rule defines and no filesystem entry satisfies
    /// was reached while scheduling.
    UnresolvedPrerequisite { name: Seq<char> },
    /// A dependency edge from `from` back to `to` closes a cycle, so no
    /// execution order exists.
    CycleDetected { from: Seq<char>, to: Seq<char> },
    /// A command exited with a non-zero status (or could not be spawned).
    CommandFailed { program: Seq<char> },
    /// The requested target name is not in the graph.
    TargetNotFound { name: Seq<char> },
    /// No target was requested and no rule ever recorded a default target.
    NoDefaultTarget,
}

/// One error for the whole pipeline: lexing, parsing, graph building,
/// scheduling and command execution all report through this type.
#[derive(Debug, PartialEq, Eq)]
pub enum MakeError {
    /// An unsupported lexical construct (a `$` not followed by `(`) at the
    /// given character offset.
    Lex { pos: usize },
    /// An unexpected token while a statement or rule was being parsed.
    Parse { pos: usize },
    /// The same target name was defined by two rule blocks.
    DuplicateTarget { name: String },
    /// A prerequisite that no rule defines and no filesystem entry satisfies
    /// was reached while scheduling.
    UnresolvedPrerequisite { name: String },
    /// A dependency edge from `from` back to `to` closes a cycle.
    CycleDetected { from: String, to: String },
    /// A command exited with a non-zero status (or could not be spawned).
    CommandFailed { program: String },
    /// The requested target name is not in the graph.
    TargetNotFound { name: String },
    /// No target was requested and no rule ever recorded a default target.
    NoDefaultTarget,
}

impl View for MakeError {
    type V = MakeErrorView;

    open spec fn view(&self) -> MakeErrorView {
        match self {
            MakeError::Lex { pos } => MakeErrorView::Lex { pos: *pos as int },
            MakeError::Parse { pos } => MakeErrorView::Parse { pos: *pos as int },
            MakeError::DuplicateTarget { name } => MakeErrorView::DuplicateTarget {
                name: name@,
            },
            MakeError::UnresolvedPrerequisite { name } => MakeErrorView::UnresolvedPrerequisite {
                name: name@,
            },
            MakeError::CycleDetected { from, to } => MakeErrorView::CycleDetected {
                from: from@,
                to: to@,
            },
            MakeError::CommandFailed { program } => MakeErrorView::CommandFailed {
                program: program@,
            },
            MakeError::TargetNotFound { name } => MakeErrorView::TargetNotFound {
                name: name@,
            },
            MakeError::NoDefaultTarget => MakeErrorView::NoDefaultTarget,
        }
    }
}

} // verus!
