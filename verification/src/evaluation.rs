use vstd::prelude::*;

use crate::cache::{option_text, or_empty};
use crate::cli::{KeepPolicy, OracleKind, SetupFailure};
use crate::config::ResolvedConfig;
use crate::hashing::{digest_text, stable_hash};
use crate::hooks::{HookContext, HookResult};
use crate::oracle::{classify_exit, exit_class, Classification};
use crate::util::{decimal, decimal_text, join, join_path, push_text};

verus! {

/// Where one evaluation of a commit works and writes.
#[derive(Clone, Debug)]
pub struct EvaluationLayout {
    /// The detached checkout of the commit.
    pub worktree: String,
    /// The environment directory, shared by every evaluation of the commit
    /// with the same setup hook.
    pub env_dir: String,
    /// The hook logs.
    pub log_dir: String,
    /// `BISECTRUNK_OUT`.
    pub out_dir: String,
    /// The file whose presence records a completed setup hook.
    pub setup_marker: String,
}

/// `<run_dir>/worktrees/job-<job>/<sha>`.
pub open spec fn worktree_dir(run_dir: Seq<char>, job: nat, sha: Seq<char>) -> Seq<char> {
    join_path(join_path(join_path(run_dir, "worktrees"@), "job-"@ + decimal_text(job)), sha)
}

/// `<cache_dir>/envs/<hash of repository, commit and setup hook>`.
pub open spec fn environment_dir(cache_dir: Seq<char>, repo: Seq<char>, sha: Seq<char>, setup: Option<String>) -> Seq<char> {
    join_path(join_path(cache_dir, "envs"@), digest_text(seq![repo, sha, or_empty(setup)]))
}

/// The layout of an evaluation of `sha` on worker `job`.
pub open spec fn layout_of(config: ResolvedConfig, sha: Seq<char>, job: nat) -> (Seq<char>, Seq<char>, Seq<char>, Seq<char>, Seq<char>) {
    let env_dir = environment_dir(config.execution.cache_dir@, config.subject.repo@, sha, config.hooks.setup);
    (
        worktree_dir(config.execution.run_dir@, job, sha),
        env_dir,
        join_path(join_path(config.execution.run_dir@, "logs"@), sha),
        join_path(join_path(config.execution.run_dir@, "out"@), sha),
        join_path(env_dir, ".bisectrunk-setup-complete"@),
    )
}

/// The directories and files an evaluation of `sha` on worker `job` uses.
pub fn evaluation_layout(config: &ResolvedConfig, sha: &str, job: usize) -> (layout: EvaluationLayout)
    ensures
        (layout.worktree@, layout.env_dir@, layout.log_dir@, layout.out_dir@, layout.setup_marker@)
            == layout_of(*config, sha@, job as nat),
{
    proof {
        reveal_strlit("worktrees");
        reveal_strlit("job-");
        reveal_strlit("envs");
        reveal_strlit("logs");
        reveal_strlit("out");
        reveal_strlit(".bisectrunk-setup-complete");
        reveal_strlit("");
    }
    let run_dir = config.execution.run_dir.as_str();
    let worktrees = join(run_dir, "worktrees");
    let mut slot = "job-".to_string();
    let number = decimal(job as u128);
    push_text(&mut slot, number.as_str());
    let job_dir = join(worktrees.as_str(), slot.as_str());
    let worktree = join(job_dir.as_str(), sha);
    let setup = option_text(&config.hooks.setup);
    let parts: [&str; 3] = [config.subject.repo.as_str(), sha, setup];
    let hash = stable_hash(parts.as_slice());
    proof {
        assert(parts@.map_values(|p: &str| p@) =~= seq![config.subject.repo@, sha@, or_empty(config.hooks.setup)]);
    }
    let envs = join(config.execution.cache_dir.as_str(), "envs");
    let env_dir = join(envs.as_str(), hash.as_str());
    let logs = join(run_dir, "logs");
    let log_dir = join(logs.as_str(), sha);
    let outs = join(run_dir, "out");
    let out_dir = join(outs.as_str(), sha);
    let setup_marker = join(env_dir.as_str(), ".bisectrunk-setup-complete");
    EvaluationLayout { worktree, env_dir, log_dir, out_dir, setup_marker }
}

/// Environments are keyed by repository, commit and setup hook alone: two
/// configurations that agree on the cache directory, the repository and the
/// setup hook share the environment of a commit, whatever their run hooks,
/// oracles or run directories, so a changed run hook reuses installations.
pub proof fn lemma_environment_shared_across_run_hooks(a: ResolvedConfig, b: ResolvedConfig, sha: Seq<char>, job: nat)
    requires
        a.execution.cache_dir@ == b.execution.cache_dir@,
        a.subject.repo@ == b.subject.repo@,
        or_empty(a.hooks.setup) == or_empty(b.hooks.setup),
    ensures
        layout_of(a, sha, job).1 == layout_of(b, sha, job).1,
        layout_of(a, sha, job).4 == layout_of(b, sha, job).4,
{
    assert(seq![a.subject.repo@, sha, or_empty(a.hooks.setup)] =~= seq![b.subject.repo@, sha, or_empty(b.hooks.setup)]);
}

/// The context the hooks of an evaluation run with. The project is the
/// worktree itself when the tool bisects its own repository.
pub fn evaluation_context(
    config: &ResolvedConfig,
    sha: &str,
    job: usize,
    layout: &EvaluationLayout,
    pin_envs: Option<String>,
) -> (context: HookContext)
    requires
        config.hooks.env.well_formed(),
    ensures
        context.commit@ == sha@,
        context.worktree == layout.worktree,
        context.env_dir == layout.env_dir,
        context.out_dir == layout.out_dir,
        context.project == (if config.subject.self_bisect {
            layout.worktree
        } else {
            config.subject.project
        }),
        context.run_dir == config.execution.run_dir,
        context.job == job,
        context.extra_env.well_formed(),
        context.extra_env@ == config.hooks.env@,
        context.extra_env.pairs() == config.hooks.env.pairs(),
        context.pin_envs == pin_envs,
        context.baseline is None,
        context.candidate is None,
{
    let project = if config.subject.self_bisect {
        layout.worktree.clone()
    } else {
        config.subject.project.clone()
    };
    HookContext {
        commit: sha.to_string(),
        worktree: layout.worktree.clone(),
        env_dir: layout.env_dir.clone(),
        out_dir: layout.out_dir.clone(),
        project,
        run_dir: config.execution.run_dir.clone(),
        job,
        extra_env: config.hooks.env.duplicate(),
        pin_envs,
        baseline: None,
        candidate: None,
    }
}

/// What follows a setup hook.
#[derive(Clone, Copy, Debug, PartialEq, Eq, Structural)]
pub enum SetupVerdict {
    /// The environment is ready: mark it complete and run the run hook.
    Proceed,
    /// The evaluation ends here with this classification and exit code.
    Finish { classification: Classification, exit_code: i32 },
}

/// The verdict of a setup hook: success proceeds; an abort aborts; a
/// failure is bad when the policy says so and a skip otherwise, as is a
/// skip.
pub open spec fn setup_verdict_of(result: HookResult, policy: SetupFailure) -> SetupVerdict {
    match exit_class(result.code as int, result.timed_out) {
        Classification::Good => SetupVerdict::Proceed,
        Classification::Bad => if policy == SetupFailure::Bad {
            SetupVerdict::Finish { classification: Classification::Bad, exit_code: result.code }
        } else {
            SetupVerdict::Finish { classification: Classification::Skip, exit_code: result.code }
        },
        Classification::Abort => SetupVerdict::Finish { classification: Classification::Abort, exit_code: result.code },
        Classification::Skip => SetupVerdict::Finish { classification: Classification::Skip, exit_code: result.code },
    }
}

/// Decides what follows a setup hook that ran with `result`.
pub fn setup_verdict(result: HookResult, policy: SetupFailure) -> (verdict: SetupVerdict)
    ensures
        verdict == setup_verdict_of(result, policy),
{
    match classify_exit(result.code, result.timed_out) {
        Classification::Good => SetupVerdict::Proceed,
        Classification::Bad => {
            if policy == SetupFailure::Bad {
                SetupVerdict::Finish { classification: Classification::Bad, exit_code: result.code }
            } else {
                SetupVerdict::Finish { classification: Classification::Skip, exit_code: result.code }
            }
        },
        Classification::Abort => SetupVerdict::Finish { classification: Classification::Abort, exit_code: result.code },
        Classification::Skip => SetupVerdict::Finish { classification: Classification::Skip, exit_code: result.code },
    }
}

/// What follows the run hook.
#[derive(Clone, Copy, Debug, PartialEq, Eq, Structural)]
pub enum RunVerdict {
    /// The evaluation ends with this classification and exit code.
    Finish { classification: Classification, exit_code: i32 },
    /// The run succeeded under the compare oracle: compare the artifact.
    Compare,
}

/// Decides what follows the run hook, which exited with `result`: the exit
/// code decides, except that a success under the compare oracle goes on to
/// compare the artifact.
pub fn run_hook(config: &ResolvedConfig, result: HookResult) -> (verdict: RunVerdict)
    ensures
        verdict == (if config.oracle.kind == OracleKind::Exit || exit_class(result.code as int, result.timed_out)
            != Classification::Good {
            RunVerdict::Finish {
                classification: exit_class(result.code as int, result.timed_out),
                exit_code: result.code,
            }
        } else {
            RunVerdict::Compare
        }),
{
    let classification = classify_exit(result.code, result.timed_out);
    if config.oracle.kind == OracleKind::Exit || classification != Classification::Good {
        RunVerdict::Finish { classification, exit_code: result.code }
    } else {
        RunVerdict::Compare
    }
}

/// Whether the worktree of an evaluation is kept afterwards.
pub open spec fn keeps(keep: KeepPolicy, classification: Classification) -> bool {
    match keep {
        KeepPolicy::All => true,
        KeepPolicy::Failed => classification != Classification::Good,
        KeepPolicy::Nothing => false,
    }
}

/// Whether to keep the worktree of an evaluation that ended with
/// `classification`: always, for anything but good, or never.
pub fn retains(keep: KeepPolicy, classification: Classification) -> (retain: bool)
    ensures
        retain == keeps(keep, classification),
{
    match keep {
        KeepPolicy::All => true,
        KeepPolicy::Failed => classification != Classification::Good,
        KeepPolicy::Nothing => false,
    }
}

/// Whether an evaluation is run again: only a bad or skipped result, and
/// only while retries are left (`attempts` counts the runs so far).
pub open spec fn retry_wanted(classification: Classification, attempts: nat, retries: nat) -> bool {
    attempts <= retries && (classification == Classification::Bad || classification == Classification::Skip)
}

/// Decides whether to run (another) evaluation of a commit: the first
/// always; after `attempts` runs, the last of which ended with `last`, one
/// more while `retry_wanted` says so.
pub fn evaluate(last: Option<Classification>, attempts: usize, retries: usize) -> (again: bool)
    requires
        (attempts == 0) == (last is None),
    ensures
        again == match last {
            None => true,
            Some(c) => retry_wanted(c, attempts as nat, retries as nat),
        },
{
    match last {
        None => true,
        Some(classification) => attempts <= retries && (classification == Classification::Bad
            || classification == Classification::Skip),
    }
}

/// Retrying ends: a commit is run at most `retries + 1` times, and a run
/// that is not retried ended good or aborted, or used the last retry.
pub proof fn lemma_retries_bounded(classification: Classification, attempts: nat, retries: nat)
    requires
        attempts >= 1,
    ensures
        retry_wanted(classification, attempts, retries) ==> attempts + 1 <= retries + 1,
        !retry_wanted(classification, attempts, retries) ==> classification == Classification::Good
            || classification == Classification::Abort || attempts > retries,
{
}

} // verus!
