use vstd::prelude::*;
use vstd::string::StrSliceExecFns;

use crate::cli::{InconsistentPolicy, KeepPolicy, OracleKind, OutputFormat, SetupFailure};
use crate::env::EnvMap;
use crate::hooks::{parse_timeout, timeout_accepted, within_duration_limit, TimeoutError};
use crate::normalize::{first_bad_pattern, Pattern};
use crate::util::{join, join_path};

verus! {

/// Options shared by `bisect`, `scan` and `run` on the command line.
#[derive(Clone, Debug)]
pub struct SharedArgs {
    pub repo: Option<String>,
    pub project: Option<String>,
    pub setup: Option<String>,
    pub run: Option<String>,
    pub oracle: Option<OracleKind>,
    pub baseline: Option<String>,
    pub artifact: Option<String>,
    pub compare: Option<String>,
    pub jobs: Option<usize>,
    pub retries: Option<usize>,
    pub timeout: Option<String>,
    pub first_parent: bool,
    pub paths: Vec<String>,
    pub run_dir: Option<String>,
    pub cache_dir: Option<String>,
    pub keep: Option<KeepPolicy>,
    pub env: Vec<String>,
    pub shell: Option<String>,
    pub format: Option<OutputFormat>,
    pub setup_failure: Option<SetupFailure>,
    pub no_cache: bool,
    pub config: Option<String>,
}

/// `[subject]` of `bisectrunk.toml`.
#[derive(Clone, Debug)]
pub struct SubjectConfig {
    pub repo: Option<String>,
    pub project: Option<String>,
    pub first_parent: Option<bool>,
    pub paths: Option<Vec<String>>,
    pub good: Option<String>,
    pub bad: Option<String>,
    pub range: Option<String>,
    pub at: Option<String>,
}

/// `[hooks]` of `bisectrunk.toml`.
#[derive(Clone, Debug)]
pub struct HooksConfig {
    pub setup: Option<String>,
    pub run: Option<String>,
    pub compare: Option<String>,
    pub shell: Option<String>,
    pub env: EnvMap,
}

/// `[oracle]` of `bisectrunk.toml`.
#[derive(Clone, Debug)]
pub struct OracleConfig {
    pub kind: Option<OracleKind>,
    pub baseline: Option<String>,
    pub artifact: Option<String>,
    pub normalize: Vec<String>,
}

/// `[execution]` of `bisectrunk.toml`.
#[derive(Clone, Debug)]
pub struct ExecutionConfig {
    pub jobs: Option<usize>,
    pub retries: Option<usize>,
    pub timeout: Option<String>,
    pub run_dir: Option<String>,
    pub cache_dir: Option<String>,
    pub keep: Option<KeepPolicy>,
    pub format: Option<OutputFormat>,
    pub setup_failure: Option<SetupFailure>,
    pub no_cache: Option<bool>,
    pub terms: Option<String>,
    pub verify_endpoints: Option<bool>,
    pub on_inconsistent: Option<InconsistentPolicy>,
    pub stride: Option<usize>,
    pub sample: Option<usize>,
    pub stop_on_first_bad: Option<bool>,
}

/// A companion dependency installed once at a fixed revision.
#[derive(Clone, Debug)]
pub struct PinConfig {
    pub repo: String,
    pub rev: String,
    pub setup: String,
}

/// The contents of `bisectrunk.toml`.
#[derive(Clone, Debug)]
pub struct FileConfig {
    pub subject: SubjectConfig,
    pub hooks: HooksConfig,
    pub oracle: OracleConfig,
    pub execution: ExecutionConfig,
    pub pins: Vec<PinConfig>,
}

impl Default for SharedArgs {
    /// No option given.
    fn default() -> (args: Self)
        ensures
            args.repo is None && args.project is None && args.setup is None && args.run is None,
            args.oracle is None && args.baseline is None && args.artifact is None && args.compare is None,
            args.jobs is None && args.retries is None && args.timeout is None && !args.first_parent,
            args.paths@.len() == 0 && args.run_dir is None && args.cache_dir is None && args.keep is None,
            args.env@.len() == 0 && args.shell is None && args.format is None && args.setup_failure is None,
            !args.no_cache && args.config is None,
    {
        SharedArgs {
            repo: None,
            project: None,
            setup: None,
            run: None,
            oracle: None,
            baseline: None,
            artifact: None,
            compare: None,
            jobs: None,
            retries: None,
            timeout: None,
            first_parent: false,
            paths: Vec::new(),
            run_dir: None,
            cache_dir: None,
            keep: None,
            env: Vec::new(),
            shell: None,
            format: None,
            setup_failure: None,
            no_cache: false,
            config: None,
        }
    }
}

impl Default for SubjectConfig {
    /// No `[subject]` setting.
    fn default() -> (subject: Self)
        ensures
            subject.repo is None && subject.project is None && subject.first_parent is None && subject.paths is None,
            subject.good is None && subject.bad is None && subject.range is None && subject.at is None,
    {
        SubjectConfig {
            repo: None,
            project: None,
            first_parent: None,
            paths: None,
            good: None,
            bad: None,
            range: None,
            at: None,
        }
    }
}

impl Default for HooksConfig {
    /// No `[hooks]` setting.
    fn default() -> (hooks: Self)
        ensures
            hooks.setup is None && hooks.run is None && hooks.compare is None && hooks.shell is None,
            hooks.env.well_formed(),
            hooks.env@ == Map::<Seq<char>, Seq<char>>::empty(),
    {
        HooksConfig { setup: None, run: None, compare: None, shell: None, env: EnvMap::new() }
    }
}

impl Default for OracleConfig {
    /// No `[oracle]` setting.
    fn default() -> (oracle: Self)
        ensures
            oracle.kind is None && oracle.baseline is None && oracle.artifact is None,
            oracle.normalize@.len() == 0,
    {
        OracleConfig { kind: None, baseline: None, artifact: None, normalize: Vec::new() }
    }
}

impl Default for ExecutionConfig {
    /// No `[execution]` setting.
    fn default() -> (execution: Self)
        ensures
            execution.jobs is None && execution.retries is None && execution.timeout is None,
            execution.run_dir is None && execution.cache_dir is None && execution.keep is None,
            execution.format is None && execution.setup_failure is None && execution.no_cache is None,
            execution.terms is None && execution.verify_endpoints is None && execution.on_inconsistent is None,
            execution.stride is None && execution.sample is None && execution.stop_on_first_bad is None,
    {
        ExecutionConfig {
            jobs: None,
            retries: None,
            timeout: None,
            run_dir: None,
            cache_dir: None,
            keep: None,
            format: None,
            setup_failure: None,
            no_cache: None,
            terms: None,
            verify_endpoints: None,
            on_inconsistent: None,
            stride: None,
            sample: None,
            stop_on_first_bad: None,
        }
    }
}

impl Default for FileConfig {
    /// An empty `bisectrunk.toml`.
    fn default() -> (file: Self)
        ensures
            file.subject.repo is None && file.subject.project is None && file.subject.first_parent is None,
            file.subject.paths is None && file.subject.good is None && file.subject.bad is None,
            file.subject.range is None && file.subject.at is None,
            file.hooks.setup is None && file.hooks.run is None && file.hooks.compare is None && file.hooks.shell is None,
            file.hooks.env.well_formed(),
            file.hooks.env@ == Map::<Seq<char>, Seq<char>>::empty(),
            file.oracle.kind is None && file.oracle.baseline is None && file.oracle.artifact is None,
            file.oracle.normalize@.len() == 0,
            file.execution.jobs is None && file.execution.retries is None && file.execution.timeout is None,
            file.execution.run_dir is None && file.execution.cache_dir is None && file.execution.keep is None,
            file.execution.format is None && file.execution.setup_failure is None && file.execution.no_cache is None,
            file.execution.terms is None && file.execution.verify_endpoints is None,
            file.execution.on_inconsistent is None,
            file.execution.stride is None && file.execution.sample is None && file.execution.stop_on_first_bad is None,
            file.pins@.len() == 0,
    {
        FileConfig {
            subject: SubjectConfig::default(),
            hooks: HooksConfig::default(),
            oracle: OracleConfig::default(),
            execution: ExecutionConfig::default(),
            pins: Vec::new(),
        }
    }
}

/// What resolution needs to know of the machine: the working directory,
/// canonical paths, and the defaults that depend on the platform and time.
#[derive(Clone, Debug)]
pub struct Surroundings {
    pub cwd: String,
    pub canonical_cwd: String,
    pub canonical_repo: Option<String>,
    pub default_jobs: usize,
    pub default_cache_dir: Option<String>,
    pub fresh_run_dir: String,
}

#[derive(Clone, Debug)]
pub struct ResolvedSubject {
    pub repo: String,
    pub project: String,
    pub self_bisect: bool,
    pub first_parent: bool,
    pub paths: Vec<String>,
}

#[derive(Clone, Debug)]
pub struct ResolvedHooks {
    pub setup: Option<String>,
    pub run: String,
    pub compare: Option<String>,
    pub shell: Option<String>,
    pub env: EnvMap,
}

#[derive(Clone, Debug)]
pub struct ResolvedOracle {
    pub kind: OracleKind,
    pub baseline: Option<String>,
    pub artifact: Option<String>,
    pub normalize: Vec<String>,
}

#[derive(Clone, Debug)]
pub struct ResolvedExecution {
    pub jobs: usize,
    pub retries: usize,
    pub timeout: Option<String>,
    pub run_dir: String,
    pub cache_dir: String,
    pub keep: KeepPolicy,
    pub format: OutputFormat,
    pub setup_failure: SetupFailure,
    pub no_cache: bool,
}

/// The configuration a run uses: command line over file over defaults.
#[derive(Clone, Debug)]
pub struct ResolvedConfig {
    pub subject: ResolvedSubject,
    pub hooks: ResolvedHooks,
    pub oracle: ResolvedOracle,
    pub execution: ResolvedExecution,
    pub pins: Vec<PinConfig>,
}

/// Why a configuration does not resolve.
#[derive(Debug)]
pub enum ConfigError {
    MissingRepo,
    MissingRun,
    ZeroJobs,
    Timeout { value: String, error: TimeoutError },
    EnvAssignment(String),
    EmptyEnvKey(String),
    CacheDir,
    MissingBaseline,
    MissingArtifact,
    ArtifactEscapes,
    Pattern { pattern: String, error: regex::Error },
}

/// The first of two optional values that is present.
pub open spec fn pick<T>(first: Option<T>, second: Option<T>) -> Option<T> {
    if first is Some {
        first
    } else {
        second
    }
}

/// `value` or `fallback` when absent.
pub open spec fn or_default<T>(value: Option<T>, fallback: T) -> T {
    match value {
        Some(v) => v,
        None => fallback,
    }
}

fn pick_string(first: &Option<String>, second: &Option<String>) -> (picked: Option<String>)
    ensures
        picked == pick(*first, *second),
{
    match first {
        Some(v) => Some(v.clone()),
        None => match second {
            Some(v) => Some(v.clone()),
            None => None,
        },
    }
}

/// `i` is the first `=` in `text`.
pub open spec fn is_first_equals(text: Seq<char>, i: int) -> bool {
    0 <= i < text.len() && text[i] == '=' && forall|j: int| 0 <= j < i ==> text[j] != '='
}

/// `KEY=VALUE` split at its first `=`.
pub open spec fn split_assignment(text: Seq<char>) -> Option<(Seq<char>, Seq<char>)> {
    if exists|i: int| is_first_equals(text, i) {
        let i = choose|i: int| is_first_equals(text, i);
        Some((text.take(i), text.skip(i + 1)))
    } else {
        None
    }
}

/// The assignment is malformed: no `=`, or an empty name.
pub open spec fn bad_assignment(text: Seq<char>) -> bool {
    match split_assignment(text) {
        None => true,
        Some((key, _)) => key.len() == 0,
    }
}

/// The first malformed assignment, if any.
pub open spec fn first_bad_assignment(assignments: Seq<String>) -> Option<int> {
    if exists|i: int| 0 <= i < assignments.len() && bad_assignment(assignments[i]@) {
        Some(choose|i: int| 0 <= i < assignments.len() && bad_assignment(assignments[i]@) && forall|j: int| 0 <= j < i ==> !bad_assignment(assignments[j]@))
    } else {
        None
    }
}

/// `base` with each assignment applied in order.
pub open spec fn apply_assignments(base: Map<Seq<char>, Seq<char>>, assignments: Seq<String>) -> Map<Seq<char>, Seq<char>>
    decreases assignments.len(),
{
    if assignments.len() == 0 {
        base
    } else {
        let rest = apply_assignments(base, assignments.drop_last());
        match split_assignment(assignments.last()@) {
            Some((key, value)) => rest.insert(key, value),
            None => rest,
        }
    }
}

/// A path component `..` starts at `i`.
pub open spec fn parent_component(path: Seq<char>, i: int) -> bool {
    let j = i + 2;
    &&& 0 <= i && j <= path.len()
    &&& path[i] == '.' && path[i + 1] == '.'
    &&& (i == 0 || path[i - 1] == '/')
    &&& (j == path.len() || path[j] == '/')
}

/// The artifact path leaves the output directory: it is absolute or climbs
/// with a `..` component.
pub open spec fn escapes_output(path: Seq<char>) -> bool {
    (path.len() > 0 && path[0] == '/') || exists|i: int| parent_component(path, i)
}

/// The resolved number of workers.
pub open spec fn resolved_jobs(shared: SharedArgs, file: FileConfig, around: Surroundings) -> usize {
    or_default(pick(shared.jobs, file.execution.jobs), around.default_jobs)
}

/// The resolved oracle kind.
pub open spec fn resolved_kind(shared: SharedArgs, file: FileConfig) -> OracleKind {
    or_default(pick(shared.oracle, file.oracle.kind), OracleKind::Exit)
}

/// Which check rejects the configuration first, numbered in the order the
/// checks are made: repository, run hook, jobs, timeout, environment
/// assignments, cache directory, baseline, artifact, artifact path,
/// normalization patterns.
pub open spec fn first_failure(shared: SharedArgs, file: FileConfig, around: Surroundings) -> Option<int> {
    let timeout = pick(shared.timeout, file.execution.timeout);
    let kind = resolved_kind(shared, file);
    let artifact = pick(shared.artifact, file.oracle.artifact);
    if pick(shared.repo, file.subject.repo) is None {
        Some(1)
    } else if pick(shared.run, file.hooks.run) is None {
        Some(2)
    } else if resolved_jobs(shared, file, around) == 0 {
        Some(3)
    } else if timeout is Some && !timeout_accepted(timeout.unwrap()@) {
        Some(4)
    } else if first_bad_assignment(shared.env@) is Some {
        Some(5)
    } else if pick(shared.cache_dir, file.execution.cache_dir) is None && around.default_cache_dir is None {
        Some(6)
    } else if kind == OracleKind::Compare && pick(shared.baseline, file.oracle.baseline) is None {
        Some(7)
    } else if kind == OracleKind::Compare && artifact is None {
        Some(8)
    } else if kind == OracleKind::Compare && escapes_output(artifact.unwrap()@) {
        Some(9)
    } else if first_bad_pattern(file.oracle.normalize@) is Some {
        Some(10)
    } else {
        None
    }
}

/// The check a resolution error reports, numbered as in `first_failure`.
pub open spec fn error_check(error: ConfigError) -> int {
    match error {
        ConfigError::MissingRepo => 1,
        ConfigError::MissingRun => 2,
        ConfigError::ZeroJobs => 3,
        ConfigError::Timeout { .. } => 4,
        ConfigError::EnvAssignment(_) => 5,
        ConfigError::EmptyEnvKey(_) => 5,
        ConfigError::CacheDir => 6,
        ConfigError::MissingBaseline => 7,
        ConfigError::MissingArtifact => 8,
        ConfigError::ArtifactEscapes => 9,
        ConfigError::Pattern { .. } => 10,
    }
}

/// The configuration the options resolve to, when every check passes.
pub open spec fn resolves_to(shared: SharedArgs, file: FileConfig, around: Surroundings, c: ResolvedConfig) -> bool {
    &&& c.subject.repo == pick(shared.repo, file.subject.repo).unwrap()
    &&& c.subject.project == or_default(pick(shared.project, file.subject.project), around.cwd)
    &&& c.subject.self_bisect == (around.canonical_repo matches Some(r) && r@ == around.canonical_cwd@ && shared.project is None)
    &&& c.subject.first_parent == (shared.first_parent || or_default(file.subject.first_parent, false))
    &&& c.subject.paths@ == (if shared.paths@.len() == 0 {
        match file.subject.paths {
            Some(p) => p@,
            None => Seq::empty(),
        }
    } else {
        shared.paths@
    })
    &&& c.hooks.setup == pick(shared.setup, file.hooks.setup)
    &&& c.hooks.run == pick(shared.run, file.hooks.run).unwrap()
    &&& c.hooks.compare == pick(shared.compare, file.hooks.compare)
    &&& c.hooks.shell == pick(shared.shell, file.hooks.shell)
    &&& c.hooks.env.well_formed()
    &&& c.hooks.env@ == apply_assignments(file.hooks.env@, shared.env@)
    &&& c.oracle.kind == resolved_kind(shared, file)
    &&& c.oracle.baseline == pick(shared.baseline, file.oracle.baseline)
    &&& c.oracle.artifact == pick(shared.artifact, file.oracle.artifact)
    &&& c.oracle.normalize@ == file.oracle.normalize@
    &&& c.execution.jobs == resolved_jobs(shared, file, around)
    &&& c.execution.retries == or_default(pick(shared.retries, file.execution.retries), 0usize)
    &&& c.execution.timeout == pick(shared.timeout, file.execution.timeout)
    &&& c.execution.run_dir == or_default(pick(shared.run_dir, file.execution.run_dir), around.fresh_run_dir)
    &&& c.execution.cache_dir == or_default(pick(shared.cache_dir, file.execution.cache_dir), around.default_cache_dir.unwrap())
    &&& c.execution.keep == or_default(pick(shared.keep, file.execution.keep), KeepPolicy::Failed)
    &&& c.execution.format == or_default(pick(shared.format, file.execution.format), OutputFormat::Auto)
    &&& c.execution.setup_failure == or_default(pick(shared.setup_failure, file.execution.setup_failure), SetupFailure::Skip)
    &&& c.execution.no_cache == (shared.no_cache || or_default(file.execution.no_cache, false))
    &&& c.pins@ == file.pins@
}


/// Copies a list of strings.
pub fn clone_strings(values: &Vec<String>) -> (copy: Vec<String>)
    ensures
        copy@ == values@,
{
    let mut copy: Vec<String> = Vec::new();
    let mut i: usize = 0;
    while i < values.len()
        invariant
            i <= values@.len(),
            copy@ == values@.take(i as int),
        decreases values@.len() - i,
    {
        copy.push(values[i].clone());
        assert(values@.take(i + 1) =~= values@.take(i as int).push(values@[i as int]));
        i = i + 1;
    }
    assert(values@.take(values@.len() as int) =~= values@);
    copy
}

/// Splits `KEY=VALUE` at its first `=`.
pub fn split_once_equals(text: &str) -> (parts: Option<(String, String)>)
    ensures
        match parts {
            Some((key, value)) => split_assignment(text@) == Some((key@, value@)),
            None => split_assignment(text@) is None,
        },
{
    let len = text.unicode_len();
    let mut i: usize = 0;
    while i < len
        invariant
            len == text@.len(),
            i <= len,
            forall|j: int| 0 <= j < i ==> text@[j] != '=',
        decreases len - i,
    {
        if text.get_char(i) == '=' {
            proof {
                assert(is_first_equals(text@, i as int));
                let k = choose|k: int| is_first_equals(text@, k);
                assert(k == i);
            }
            let key = text.substring_char(0, i).to_string();
            let value = text.substring_char(i + 1, len).to_string();
            assert(text@.take(i as int) =~= key@);
            assert(text@.skip(i + 1) =~= value@);
            return Some((key, value));
        }
        i = i + 1;
    }
    assert(!exists|k: int| is_first_equals(text@, k));
    None
}

/// Whether an artifact path would leave `BISECTRUNK_OUT`: absolute, or with
/// a `..` component.
pub fn escapes_out_dir(path: &str) -> (escapes: bool)
    ensures
        escapes == escapes_output(path@),
{
    let len = path.unicode_len();
    if len > 0 && path.get_char(0) == '/' {
        return true;
    }
    let mut i: usize = 0;
    while len >= 2 && i <= len - 2
        invariant
            len == path@.len(),
            !(len > 0 && path@[0] == '/'),
            forall|j: int| 0 <= j < i ==> !parent_component(path@, j),
        decreases len - i,
    {
        if path.get_char(i) == '.' && path.get_char(i + 1) == '.' && (i == 0 || path.get_char(i - 1) == '/')
            && (i + 2 == len || path.get_char(i + 2) == '/') {
            assert(parent_component(path@, i as int));
            return true;
        }
        i = i + 1;
    }
    proof {
        assert forall|j: int| !parent_component(path@, j) by {
            if j >= i {
                assert(!(j + 2 <= len as int));
            }
        }
    }
    false
}

/// Merges command-line options over `bisectrunk.toml` over defaults, and
/// checks the result: a repository and a run hook are required, at least one
/// job, a parseable timeout, `KEY=VALUE` environment assignments, a cache
/// directory, for the compare oracle a baseline and a relative artifact path
/// below the output directory, and compilable normalization patterns.
#[verifier::rlimit(50)]
#[verifier::spinoff_prover]
pub fn resolve(shared: &SharedArgs, file: FileConfig, around: &Surroundings) -> (resolved: Result<ResolvedConfig, ConfigError>)
    requires
        file.hooks.env.well_formed(),
    ensures
        match resolved {
            Ok(c) => first_failure(*shared, file, *around) is None && resolves_to(*shared, file, *around, c),
            Err(e) => first_failure(*shared, file, *around) == Some(error_check(e)),
        },
        resolved matches Err(ConfigError::EnvAssignment(a)) ==> first_bad_assignment(shared.env@) matches Some(i)
            && a == shared.env@[i] && split_assignment(a@) is None,
        resolved matches Err(ConfigError::EmptyEnvKey(a)) ==> first_bad_assignment(shared.env@) matches Some(i)
            && a == shared.env@[i] && split_assignment(a@) is Some,
        resolved matches Err(ConfigError::Pattern { pattern, .. }) ==> first_bad_pattern(file.oracle.normalize@) matches Some(i)
            && pattern@ == file.oracle.normalize@[i]@,
        resolved matches Err(ConfigError::Timeout { value, .. }) ==> Some(value) == pick(shared.timeout, file.execution.timeout),
        resolved matches Err(ConfigError::Timeout { value, error }) ==> (error is TooLarge <==> !within_duration_limit(value@)),
{
    let ghost g_file = file;
    let repo = match pick_string(&shared.repo, &file.subject.repo) {
        Some(r) => r,
        None => return Err(ConfigError::MissingRepo),
    };
    let self_bisect = match &around.canonical_repo {
        Some(c) => crate::state::str_equal(c.as_str(), around.canonical_cwd.as_str()),
        None => false,
    };
    let project = match pick_string(&shared.project, &file.subject.project) {
        Some(p) => p,
        None => around.cwd.clone(),
    };
    let run = match pick_string(&shared.run, &file.hooks.run) {
        Some(r) => r,
        None => return Err(ConfigError::MissingRun),
    };
    let jobs = match shared.jobs {
        Some(j) => j,
        None => match file.execution.jobs {
            Some(j) => j,
            None => around.default_jobs,
        },
    };
    if jobs == 0 {
        return Err(ConfigError::ZeroJobs);
    }
    let timeout = pick_string(&shared.timeout, &file.execution.timeout);
    match &timeout {
        Some(value) => match parse_timeout(Some(value.as_str())) {
            Ok(_) => {},
            Err(error) => return Err(ConfigError::Timeout { value: value.clone(), error }),
        },
        None => {},
    }
    let mut env = file.hooks.env;
    let ghost base = env@;
    let mut i: usize = 0;
    while i < shared.env.len()
        invariant
            i <= shared.env@.len(),
            env.well_formed(),
            env@ == apply_assignments(base, shared.env@.take(i as int)),
            forall|j: int| 0 <= j < i ==> !bad_assignment(shared.env@[j]@),
            g_file == file,
            pick(shared.repo, g_file.subject.repo) is Some,
            pick(shared.run, g_file.hooks.run) is Some,
            resolved_jobs(*shared, g_file, *around) != 0,
            timeout == pick(shared.timeout, g_file.execution.timeout),
            timeout is Some ==> timeout_accepted(timeout.unwrap()@),
        decreases shared.env@.len() - i,
    {
        let assignment = &shared.env[i];
        proof {
            assert(shared.env@.take(i + 1).drop_last() =~= shared.env@.take(i as int));
        }
        match split_once_equals(assignment.as_str()) {
            Some((key, value)) => {
                if key.unicode_len() == 0 {
                    proof {
                        lemma_first_bad_at(shared.env@, i as int);
                    }
                    return Err(ConfigError::EmptyEnvKey(assignment.clone()));
                }
                env.insert(key, value);
            },
            None => {
                proof {
                    lemma_first_bad_at(shared.env@, i as int);
                }
                return Err(ConfigError::EnvAssignment(assignment.clone()));
            },
        }
        i = i + 1;
    }
    assert(shared.env@.take(shared.env@.len() as int) =~= shared.env@);
    assert(first_bad_assignment(shared.env@) is None);
    let cache_dir = match pick_string(&shared.cache_dir, &file.execution.cache_dir) {
        Some(c) => c,
        None => match &around.default_cache_dir {
            Some(c) => c.clone(),
            None => return Err(ConfigError::CacheDir),
        },
    };
    let run_dir = match pick_string(&shared.run_dir, &file.execution.run_dir) {
        Some(r) => r,
        None => around.fresh_run_dir.clone(),
    };
    let first_parent = if shared.first_parent {
        true
    } else {
        match file.subject.first_parent {
            Some(f) => f,
            None => false,
        }
    };
    let paths = if shared.paths.len() == 0 {
        match file.subject.paths {
            Some(p) => p,
            None => Vec::new(),
        }
    } else {
        clone_strings(&shared.paths)
    };
    let kind = match shared.oracle {
        Some(k) => k,
        None => match file.oracle.kind {
            Some(k) => k,
            None => OracleKind::default(),
        },
    };
    let baseline = pick_string(&shared.baseline, &file.oracle.baseline);
    let artifact = pick_string(&shared.artifact, &file.oracle.artifact);
    if kind == OracleKind::Compare {
        if baseline.is_none() {
            return Err(ConfigError::MissingBaseline);
        }
        match &artifact {
            None => return Err(ConfigError::MissingArtifact),
            Some(path) => {
                if escapes_out_dir(path.as_str()) {
                    return Err(ConfigError::ArtifactEscapes);
                }
            },
        }
    }
    let mut k: usize = 0;
    while k < file.oracle.normalize.len()
        invariant
            k <= g_file.oracle.normalize@.len(),
            file.oracle.normalize == g_file.oracle.normalize,
            g_file == file,
            pick(shared.repo, g_file.subject.repo) is Some,
            pick(shared.run, g_file.hooks.run) is Some,
            resolved_jobs(*shared, g_file, *around) != 0,
            timeout == pick(shared.timeout, g_file.execution.timeout),
            timeout is Some ==> timeout_accepted(timeout.unwrap()@),
            first_bad_assignment(shared.env@) is None,
            pick(shared.cache_dir, g_file.execution.cache_dir) is Some || around.default_cache_dir is Some,
            kind == resolved_kind(*shared, g_file),
            baseline == pick(shared.baseline, g_file.oracle.baseline),
            artifact == pick(shared.artifact, g_file.oracle.artifact),
            kind == OracleKind::Compare ==> baseline is Some && artifact is Some && !escapes_output(artifact.unwrap()@),
            forall|j: int| 0 <= j < k ==> crate::normalize::pattern_compiles(g_file.oracle.normalize@[j]@),
        decreases g_file.oracle.normalize@.len() - k,
    {
        match Pattern::compile(file.oracle.normalize[k].as_str()) {
            Ok(_) => {},
            Err(error) => {
                proof {
                    crate::normalize::lemma_first_bad_pattern_at(g_file.oracle.normalize@, k as int);
                }
                return Err(ConfigError::Pattern { pattern: file.oracle.normalize[k].clone(), error });
            },
        }
        k = k + 1;
    }
    proof {
        assert(first_bad_pattern(g_file.oracle.normalize@) is None) by {
            if first_bad_pattern(g_file.oracle.normalize@) is Some {
                let j = choose|j: int| 0 <= j < g_file.oracle.normalize@.len() && !crate::normalize::pattern_compiles(g_file.oracle.normalize@[j]@);
            }
        }
    }
    let retries = match shared.retries {
        Some(r) => r,
        None => match file.execution.retries {
            Some(r) => r,
            None => 0,
        },
    };
    let keep = match shared.keep {
        Some(v) => v,
        None => match file.execution.keep {
            Some(v) => v,
            None => KeepPolicy::default(),
        },
    };
    let format = match shared.format {
        Some(v) => v,
        None => match file.execution.format {
            Some(v) => v,
            None => OutputFormat::default(),
        },
    };
    let setup_failure = match shared.setup_failure {
        Some(v) => v,
        None => match file.execution.setup_failure {
            Some(v) => v,
            None => SetupFailure::default(),
        },
    };
    let no_cache = shared.no_cache || match file.execution.no_cache {
        Some(v) => v,
        None => false,
    };
    let config = ResolvedConfig {
        subject: ResolvedSubject {
            repo,
            project,
            self_bisect: self_bisect && shared.project.is_none(),
            first_parent,
            paths,
        },
        hooks: ResolvedHooks {
            setup: pick_string(&shared.setup, &file.hooks.setup),
            run,
            compare: pick_string(&shared.compare, &file.hooks.compare),
            shell: pick_string(&shared.shell, &file.hooks.shell),
            env,
        },
        oracle: ResolvedOracle { kind, baseline, artifact, normalize: file.oracle.normalize },
        execution: ResolvedExecution {
            jobs,
            retries,
            timeout,
            run_dir,
            cache_dir,
            keep,
            format,
            setup_failure,
            no_cache,
        },
        pins: file.pins,
    };
    assert(first_failure(*shared, g_file, *around) is None);
    assert(config.hooks.env@ == apply_assignments(g_file.hooks.env@, shared.env@));
    assert(resolves_to(*shared, g_file, *around, config));
    Ok(config)
}

proof fn lemma_first_bad_at(assignments: Seq<String>, i: int)
    requires
        0 <= i < assignments.len(),
        bad_assignment(assignments[i]@),
        forall|j: int| 0 <= j < i ==> !bad_assignment(assignments[j]@),
    ensures
        first_bad_assignment(assignments) == Some(i),
{
    let c = choose|c: int| 0 <= c < assignments.len() && bad_assignment(assignments[c]@) && forall|j: int| 0 <= j < c ==> !bad_assignment(assignments[j]@);
    if c < i {
        assert(!bad_assignment(assignments[c]@));
    }
    if c > i {
        assert(!bad_assignment(assignments[i]@));
    }
}

/// Where `bisectrunk.toml` is looked for when `--config` is not given: the
/// project directory, or else the working directory.
pub fn config_candidate(shared: &SharedArgs, cwd: &str) -> (path: String)
    ensures
        path@ == join_path(
            match shared.project {
                Some(p) => p@,
                None => cwd@,
            },
            "bisectrunk.toml"@,
        ),
{
    proof {
        reveal_strlit("bisectrunk.toml");
    }
    match &shared.project {
        Some(p) => join(p.as_str(), "bisectrunk.toml"),
        None => join(cwd, "bisectrunk.toml"),
    }
}

} // verus!
