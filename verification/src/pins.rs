use vstd::prelude::*;

use crate::config::{PinConfig, ResolvedConfig};
use crate::hashing::{digest_text, stable_hash};
use crate::hooks::{HookContext, HookResult};
use crate::oracle::{classify_exit, exit_class, Classification};
use crate::util::{decimal, decimal_text, join, join_path, push_text, short_sha, short_text};

verus! {

/// `<cache_dir>/pins/<hash of repository, revision and setup hook>`.
pub open spec fn pin_environment_dir(cache_dir: Seq<char>, pin: PinConfig) -> Seq<char> {
    join_path(join_path(cache_dir, "pins"@), digest_text(seq![pin.repo@, pin.rev@, pin.setup@]))
}

/// The environment directory a pinned dependency is installed into; the
/// same pin shares it across runs.
pub fn environment_dir(config: &ResolvedConfig, pin: &PinConfig) -> (dir: String)
    ensures
        dir@ == pin_environment_dir(config.execution.cache_dir@, *pin),
{
    proof {
        reveal_strlit("pins");
    }
    let parts: [&str; 3] = [pin.repo.as_str(), pin.rev.as_str(), pin.setup.as_str()];
    let hash = stable_hash(parts.as_slice());
    proof {
        assert(parts@.map_values(|p: &str| p@) =~= seq![pin.repo@, pin.rev@, pin.setup@]);
    }
    let pins = join(config.execution.cache_dir.as_str(), "pins");
    join(pins.as_str(), hash.as_str())
}

/// The environment directories of the pinned dependencies, in order, which
/// hooks receive as `BISECTRUNK_PIN_ENVS`; `None` when nothing is pinned.
pub fn environment(config: &ResolvedConfig) -> (dirs: Option<Vec<String>>)
    ensures
        match dirs {
            None => config.pins@.len() == 0,
            Some(d) => config.pins@.len() > 0 && d@.len() == config.pins@.len() && forall|i: int|
                0 <= i < d@.len() ==> #[trigger] d@[i]@ == pin_environment_dir(config.execution.cache_dir@, config.pins@[i]),
        },
{
    if config.pins.len() == 0 {
        return None;
    }
    let mut dirs: Vec<String> = Vec::new();
    let mut i: usize = 0;
    while i < config.pins.len()
        invariant
            i <= config.pins@.len(),
            dirs@.len() == i,
            forall|j: int| 0 <= j < i ==> #[trigger] dirs@[j]@ == pin_environment_dir(config.execution.cache_dir@, config.pins@[j]),
        decreases config.pins@.len() - i,
    {
        dirs.push(environment_dir(config, &config.pins[i]));
        i = i + 1;
    }
    Some(dirs)
}

/// The file whose presence records a completed pin installation.
pub fn pin_marker(config: &ResolvedConfig, pin: &PinConfig) -> (marker: String)
    ensures
        marker@ == join_path(pin_environment_dir(config.execution.cache_dir@, *pin), ".bisectrunk-pin-complete"@),
{
    proof {
        reveal_strlit(".bisectrunk-pin-complete");
    }
    let dir = environment_dir(config, pin);
    join(dir.as_str(), ".bisectrunk-pin-complete")
}

/// What the installation marker holds: the installed commit and a newline.
pub fn pin_marker_text(sha: &str) -> (text: String)
    ensures
        text@ == sha@ + "\n"@,
{
    proof {
        reveal_strlit("\n");
    }
    let mut text = sha.to_string();
    push_text(&mut text, "\n");
    text
}

/// Where a pin's setup hook runs and writes.
#[derive(Clone, Debug)]
pub struct PinPaths {
    pub worktree: String,
    pub log_dir: String,
    pub out_dir: String,
}

/// `<index>-<short sha>`.
pub open spec fn pin_label(index: nat, sha: Seq<char>) -> Seq<char> {
    decimal_text(index) + "-"@ + short_text(sha)
}

/// The worktree, log and output directories of pin number `index`, checked
/// out at `sha`.
pub fn pin_paths(config: &ResolvedConfig, index: usize, sha: &str) -> (paths: PinPaths)
    ensures
        paths.worktree@ == join_path(join_path(config.execution.run_dir@, "pins"@), pin_label(index as nat, sha@)),
        paths.log_dir@ == join_path(
            join_path(join_path(config.execution.run_dir@, "logs"@), "pins"@),
            pin_label(index as nat, sha@),
        ),
        paths.out_dir@ == join_path(
            join_path(join_path(config.execution.run_dir@, "out"@), "pins"@),
            decimal_text(index as nat),
        ),
{
    proof {
        reveal_strlit("pins");
        reveal_strlit("logs");
        reveal_strlit("out");
        reveal_strlit("-");
    }
    let number = decimal(index as u128);
    let mut label = number.clone();
    push_text(&mut label, "-");
    push_text(&mut label, short_sha(sha));
    let run_dir = config.execution.run_dir.as_str();
    let pins = join(run_dir, "pins");
    let worktree = join(pins.as_str(), label.as_str());
    let logs = join(run_dir, "logs");
    let log_pins = join(logs.as_str(), "pins");
    let log_dir = join(log_pins.as_str(), label.as_str());
    let outs = join(run_dir, "out");
    let out_pins = join(outs.as_str(), "pins");
    let out_dir = join(out_pins.as_str(), number.as_str());
    PinPaths { worktree, log_dir, out_dir }
}

/// The context a pin's setup hook runs with: the subject project, the
/// pin's worktree and environment, and the configured variables plus
/// `BISECTRUNK_PIN_ENV` and `BISECTRUNK_PIN_WORKTREE`.
pub fn pin_context(config: &ResolvedConfig, pin: &PinConfig, index: usize, sha: &str, paths: &PinPaths) -> (context: HookContext)
    requires
        config.hooks.env.well_formed(),
    ensures
        context.commit@ == sha@,
        context.worktree == paths.worktree,
        context.env_dir@ == pin_environment_dir(config.execution.cache_dir@, *pin),
        context.out_dir == paths.out_dir,
        context.project == config.subject.project,
        context.run_dir == config.execution.run_dir,
        context.job == index,
        context.extra_env.well_formed(),
        context.extra_env@ == config.hooks.env@.insert(
            "BISECTRUNK_PIN_ENV"@,
            pin_environment_dir(config.execution.cache_dir@, *pin),
        ).insert("BISECTRUNK_PIN_WORKTREE"@, paths.worktree@),
        context.pin_envs is None,
        context.baseline is None,
        context.candidate is None,
{
    let env_dir = environment_dir(config, pin);
    let mut extra_env = config.hooks.env.duplicate();
    extra_env.insert("BISECTRUNK_PIN_ENV".to_string(), env_dir.clone());
    extra_env.insert("BISECTRUNK_PIN_WORKTREE".to_string(), paths.worktree.clone());
    HookContext {
        commit: sha.to_string(),
        worktree: paths.worktree.clone(),
        env_dir,
        out_dir: paths.out_dir.clone(),
        project: config.subject.project.clone(),
        run_dir: config.execution.run_dir.clone(),
        job: index,
        extra_env,
        pin_envs: None,
        baseline: None,
        candidate: None,
    }
}

/// A pin whose setup hook did not succeed.
#[derive(Debug)]
pub struct PinError {
    pub repo: String,
    pub sha: String,
    pub code: i32,
    pub classification: Classification,
}

/// A pin is installed only when its setup hook is judged good.
pub fn pin_verdict(pin: &PinConfig, sha: &str, result: HookResult) -> (verdict: Result<(), PinError>)
    ensures
        verdict is Ok <==> exit_class(result.code as int, result.timed_out) == Classification::Good,
        verdict matches Err(e) ==> e.repo == pin.repo && e.sha@ == sha@ && e.code == result.code
            && e.classification == exit_class(result.code as int, result.timed_out),
{
    let classification = classify_exit(result.code, result.timed_out);
    if classification != Classification::Good {
        return Err(PinError { repo: pin.repo.clone(), sha: sha.to_string(), code: result.code, classification });
    }
    Ok(())
}

/// Where a pin is installed and the marker that records it.
#[derive(Debug)]
pub struct PinInstall {
    pub env_dir: String,
    pub marker: String,
}

/// Decides whether pin number `index` must be installed: not when its
/// marker exists (`installed`); otherwise into its environment directory,
/// which is cleared first if a previous attempt left it behind.
pub fn prepare(config: &ResolvedConfig, index: usize, installed: bool) -> (install: Option<PinInstall>)
    requires
        index < config.pins@.len(),
    ensures
        installed ==> install is None,
        !installed ==> (install matches Some(p) && p.env_dir@ == pin_environment_dir(
            config.execution.cache_dir@,
            config.pins@[index as int],
        ) && p.marker@ == join_path(p.env_dir@, ".bisectrunk-pin-complete"@)),
{
    if installed {
        return None;
    }
    proof {
        reveal_strlit(".bisectrunk-pin-complete");
    }
    let env_dir = environment_dir(config, &config.pins[index]);
    let marker = join(env_dir.as_str(), ".bisectrunk-pin-complete");
    Some(PinInstall { env_dir, marker })
}

} // verus!
