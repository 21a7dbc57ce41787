use vstd::prelude::*;

verus! {

/// Classification mechanism.
#[derive(Clone, Copy, Debug, PartialEq, Eq, Structural)]
pub enum OracleKind {
    Exit,
    Compare,
}

/// Retention of worktrees after an evaluation: all, those that did not pass,
/// or nothing.
#[derive(Clone, Copy, Debug, PartialEq, Eq, Structural)]
pub enum KeepPolicy {
    All,
    Failed,
    Nothing,
}

/// Terminal output mode.
#[derive(Clone, Copy, Debug, PartialEq, Eq, Structural)]
pub enum OutputFormat {
    Auto,
    Json,
    Plain,
}

/// How a failed setup hook classifies the commit.
#[derive(Clone, Copy, Debug, PartialEq, Eq, Structural)]
pub enum SetupFailure {
    Skip,
    Bad,
}

/// What a bisect does when a good result lies right of a bad one.
#[derive(Clone, Copy, Debug, PartialEq, Eq, Structural)]
pub enum InconsistentPolicy {
    Abort,
    Leftmost,
    Retry,
}

impl Default for OracleKind {
    /// The default oracle: exit codes.
    fn default() -> (kind: Self)
        ensures
            kind == OracleKind::Exit,
    {
        OracleKind::Exit
    }
}

impl Default for KeepPolicy {
    /// The default retention: keep what did not pass.
    fn default() -> (policy: Self)
        ensures
            policy == KeepPolicy::Failed,
    {
        KeepPolicy::Failed
    }
}

impl Default for OutputFormat {
    /// The default output mode: chosen by the terminal.
    fn default() -> (format: Self)
        ensures
            format == OutputFormat::Auto,
    {
        OutputFormat::Auto
    }
}

impl Default for SetupFailure {
    /// The default: a failed setup makes the commit untestable.
    fn default() -> (policy: Self)
        ensures
            policy == SetupFailure::Skip,
    {
        SetupFailure::Skip
    }
}

impl Default for InconsistentPolicy {
    /// The default: stop on non-monotone results.
    fn default() -> (policy: Self)
        ensures
            policy == InconsistentPolicy::Abort,
    {
        InconsistentPolicy::Abort
    }
}

} // verus!
