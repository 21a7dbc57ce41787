use vstd::prelude::*;

verus! {

/// How one commit was judged by the hooks.
#[derive(Clone, Copy, Debug, PartialEq, Eq, Structural)]
pub enum Classification {
    Good,
    Bad,
    Skip,
    Abort,
}

/// The `git bisect run` exit-code protocol.
pub open spec fn exit_class(code: int, timed_out: bool) -> Classification {
    if timed_out || code == 125 {
        Classification::Skip
    } else if code == 0 {
        Classification::Good
    } else if code >= 128 {
        Classification::Abort
    } else {
        Classification::Bad
    }
}

/// Classifies a hook exit code: a timeout or 125 skips, 0 is good, 128 or
/// more aborts the run and every other code is bad.
pub fn classify_exit(code: i32, timed_out: bool) -> (class: Classification)
    ensures
        class == exit_class(code as int, timed_out),
        timed_out ==> class == Classification::Skip,
        class == Classification::Abort ==> !timed_out && code >= 128,
{
    if timed_out || code == 125 {
        Classification::Skip
    } else if code == 0 {
        Classification::Good
    } else if code >= 128 {
        Classification::Abort
    } else {
        Classification::Bad
    }
}

/// The exit-code protocol of `git bisect run`, with timeouts: a hook that
/// timed out is skipped whatever its exit code (a killed hook exits with 128
/// or more, which alone would abort). Otherwise 0 is good, 125 is skip,
/// 128 and above aborts, and every other code, negative ones included, is
/// bad. Only an untimed exit of 128 or more aborts the run.
pub proof fn lemma_exit_protocol(code: int, timed_out: bool)
    ensures
        timed_out ==> exit_class(code, timed_out) == Classification::Skip,
        !timed_out ==> (exit_class(code, timed_out) == Classification::Good <==> code == 0),
        !timed_out ==> (exit_class(code, timed_out) == Classification::Skip <==> code == 125),
        !timed_out ==> (exit_class(code, timed_out) == Classification::Abort <==> code >= 128),
        !timed_out ==> (exit_class(code, timed_out) == Classification::Bad <==> code != 0 && code != 125 && code < 128),
        exit_class(code, timed_out) == Classification::Abort <==> !timed_out && code >= 128,
{
}

} // verus!

verus! {

/// The lowercase name of a classification.
pub open spec fn class_name(class: Classification) -> Seq<char> {
    match class {
        Classification::Good => "good"@,
        Classification::Bad => "bad"@,
        Classification::Skip => "skip"@,
        Classification::Abort => "abort"@,
    }
}

impl Classification {
    /// The lowercase name used in reports and messages.
    pub fn name(&self) -> (name: &'static str)
        ensures
            name@ == class_name(*self),
    {
        match self {
            Classification::Good => "good",
            Classification::Bad => "bad",
            Classification::Skip => "skip",
            Classification::Abort => "abort",
        }
    }
}

} // verus!
