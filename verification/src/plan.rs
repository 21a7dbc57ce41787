use vstd::prelude::*;
use vstd::arithmetic::power::pow;
use vstd::string::StrSliceExecFns;

use crate::bisection::BisectOutcome;
use crate::cli::InconsistentPolicy;
use crate::config::{pick, or_default, FileConfig, SharedArgs};
use crate::scan::{select_commits, selection};
use crate::state::{str_equal, Conclusion, Evaluation, Operation, RunState};
use crate::oracle::Classification;
use crate::scheduler::StopReason;

verus! {

broadcast use vstd::arithmetic::power::lemma_pow0, vstd::arithmetic::power::lemma_pow1;

/// The number of k-section rounds a range of `commits` commits needs with
/// `jobs` workers: the least `r` with `(jobs + 1)^r >= commits`, zero for at
/// most one commit (a `jobs` of zero counts as one).
pub fn estimated_rounds(commits: usize, jobs: usize) -> (rounds: usize)
    requires
        jobs < usize::MAX,
    ensures
        ({
            let base = if jobs == 0 { 2int } else { jobs + 1 };
            if commits <= 1 {
                rounds == 0
            } else {
                &&& rounds >= 1
                &&& pow(base, rounds as nat) >= commits
                &&& pow(base, (rounds - 1) as nat) < commits
            }
        }),
{
    if commits <= 1 {
        return 0;
    }
    let base: usize = if jobs == 0 {
        1
    } else {
        jobs
    } + 1;
    let mut covered: usize = 1;
    let mut rounds: usize = 0;
    while covered < commits
        invariant
            base >= 2,
            base == if jobs == 0 { 2int } else { jobs + 1 },
            commits >= 2,
            covered as int == if pow(base as int, rounds as nat) > usize::MAX { usize::MAX as int } else { pow(base as int, rounds as nat) },
            rounds == 0 || pow(base as int, (rounds - 1) as nat) < commits,
            pow(base as int, rounds as nat) >= 1,
            rounds <= covered,
            covered >= 1,
        decreases usize::MAX - covered,
    {
        let ghost p = pow(base as int, rounds as nat);
        proof {
            assert(p == covered);
            assert(pow(base as int, (rounds + 1) as nat) == base * p) by {
                reveal(pow);
            }
            assert(base * p >= 2 * p) by (nonlinear_arith)
                requires base >= 2, p >= 1;
        }
        let ghost before = covered;
        covered = match covered.checked_mul(base) {
            Some(product) => product,
            None => usize::MAX,
        };
        assert(covered > before);
        rounds = rounds + 1;
    }
    rounds
}

/// Errors in the `good,bad` vocabulary.
#[derive(Clone, Copy, Debug, PartialEq, Eq, Structural)]
pub enum TermsError {
    Invalid,
}

/// Errors in an `A..B` range.
#[derive(Clone, Copy, Debug, PartialEq, Eq, Structural)]
pub enum RangeError {
    Invalid,
}

/// `value` split at its only comma into two non-empty terms.
pub open spec fn terms_of(value: Seq<char>) -> Option<(Seq<char>, Seq<char>)> {
    if exists|i: int| is_single_separator(value, i) {
        let i = choose|i: int| is_single_separator(value, i);
        Some((value.take(i), value.skip(i + 1)))
    } else {
        None
    }
}

/// `i` is the position of the only comma, with text on both sides.
pub open spec fn is_single_separator(value: Seq<char>, i: int) -> bool {
    &&& 0 < i < value.len() - 1
    &&& value[i] == ','
    &&& forall|j: int| 0 <= j < value.len() && j != i ==> value[j] != ','
}

/// Parses the `--terms` vocabulary `old,new`: exactly two non-empty names
/// separated by one comma.
pub fn parse_terms(value: &str) -> (terms: Result<[String; 2], TermsError>)
    ensures
        match terms {
            Ok(pair) => terms_of(value@) matches Some((a, b)) && pair[0]@ == a && pair[1]@ == b,
            Err(_) => terms_of(value@) is None,
        },
{
    let len = value.unicode_len();
    let mut comma: Option<usize> = None;
    let mut i: usize = 0;
    while i < len
        invariant
            len == value@.len(),
            i <= len,
            match comma {
                Some(c) => c < i && value@[c as int] == ',' && forall|j: int| 0 <= j < i && j != c ==> value@[j] != ',',
                None => forall|j: int| 0 <= j < i ==> value@[j] != ',',
            },
        decreases len - i,
    {
        if value.get_char(i) == ',' {
            if comma.is_some() {
                proof {
                    assert(!exists|k: int| is_single_separator(value@, k)) by {
                        if exists|k: int| is_single_separator(value@, k) {
                            let k = choose|k: int| is_single_separator(value@, k);
                            let c = comma.unwrap();
                            assert(value@[c as int] == ',');
                            assert(value@[i as int] == ',');
                        }
                    }
                }
                return Err(TermsError::Invalid);
            }
            comma = Some(i);
        }
        i = i + 1;
    }
    match comma {
        Some(c) => {
            if c == 0 || c + 1 == len {
                proof {
                    assert(!exists|k: int| is_single_separator(value@, k)) by {
                        if exists|k: int| is_single_separator(value@, k) {
                            let k = choose|k: int| is_single_separator(value@, k);
                            assert(k == c);
                        }
                    }
                }
                return Err(TermsError::Invalid);
            }
            proof {
                assert(is_single_separator(value@, c as int));
                let k = choose|k: int| is_single_separator(value@, k);
                assert(k == c);
            }
            let first = value.substring_char(0, c).to_string();
            let second = value.substring_char(c + 1, len).to_string();
            assert(value@.take(c as int) =~= value@.subrange(0, c as int));
            assert(value@.skip(c + 1) =~= value@.subrange(c + 1, len as int));
            Ok([first, second])
        },
        None => {
            proof {
                assert(!exists|k: int| is_single_separator(value@, k)) by {
                    if exists|k: int| is_single_separator(value@, k) {
                        let k = choose|k: int| is_single_separator(value@, k);
                        assert(value@[k] == ',');
                    }
                }
            }
            Err(TermsError::Invalid)
        },
    }
}

/// `value` has ".." starting at `i`.
pub open spec fn dots_at(value: Seq<char>, i: int) -> bool {
    0 <= i && i + 1 < value.len() && value[i] == '.' && value[i + 1] == '.'
}

/// `value` contains "..".
pub open spec fn has_dots(value: Seq<char>) -> bool {
    exists|i: int| dots_at(value, i)
}

/// The first ".." of `value`, if any.
pub open spec fn is_first_dots(value: Seq<char>, i: int) -> bool {
    dots_at(value, i) && forall|j: int| 0 <= j < i ==> !dots_at(value, j)
}

/// `range` split as `A..B` at its first "..", when both sides are non-empty
/// and `B` holds no further "..".
pub open spec fn range_of(range: Seq<char>) -> Option<(Seq<char>, Seq<char>)> {
    if exists|i: int| is_first_dots(range, i) {
        let i = choose|i: int| is_first_dots(range, i);
        let start = range.take(i);
        let end = range.skip(i + 2);
        if start.len() == 0 || end.len() == 0 || has_dots(end) {
            None
        } else {
            Some((start, end))
        }
    } else {
        None
    }
}

fn find_dots(value: &str, from: usize) -> (found: Option<usize>)
    requires
        from <= value@.len(),
    ensures
        match found {
            Some(i) => from <= i && dots_at(value@, i as int) && forall|j: int| from <= j < i ==> !dots_at(value@, j),
            None => forall|j: int| from <= j ==> !dots_at(value@, j),
        },
{
    let len = value.unicode_len();
    let mut i: usize = from;
    while len > 0 && i < len - 1
        invariant
            len == value@.len(),
            from <= i <= len,
            forall|j: int| from <= j < i ==> !dots_at(value@, j),
        decreases len - i,
    {
        if value.get_char(i) == '.' && value.get_char(i + 1) == '.' {
            return Some(i);
        }
        i = i + 1;
    }
    None
}

/// Splits a scan range `A..B` into its two revisions.
pub fn parse_range<'a>(range: &'a str) -> (parts: Result<(&'a str, &'a str), RangeError>)
    ensures
        match parts {
            Ok((start, end)) => range_of(range@) matches Some((a, b)) && start@ == a && end@ == b,
            Err(_) => range_of(range@) is None,
        },
{
    let len = range.unicode_len();
    match find_dots(range, 0) {
        None => {
            assert(!exists|i: int| is_first_dots(range@, i));
            Err(RangeError::Invalid)
        },
        Some(i) => {
            proof {
                assert(is_first_dots(range@, i as int));
                let k = choose|k: int| is_first_dots(range@, k);
                assert(k == i);
            }
            let start = range.substring_char(0, i);
            let end = range.substring_char(i + 2, len);
            assert(range@.take(i as int) =~= start@);
            assert(range@.skip(i + 2) =~= end@);
            if i == 0 || i + 2 == len {
                return Err(RangeError::Invalid);
            }
            let again = find_dots(range, i + 2);
            if again.is_some() {
                proof {
                    let j = again.unwrap();
                    assert(dots_at(end@, j - (i + 2)));
                }
                return Err(RangeError::Invalid);
            }
            proof {
                assert forall|j: int| !dots_at(end@, j) by {
                    if dots_at(end@, j) {
                        assert(dots_at(range@, j + i + 2));
                    }
                }
            }
            Ok((start, end))
        },
    }
}

/// The process exit code of a single-commit run: 4 when a hook aborted, 2
/// when the commit was skipped, 0 otherwise.
pub fn run_exit_code(class: Classification) -> (code: u8)
    ensures
        code == match class {
            Classification::Abort => 4u8,
            Classification::Skip => 2u8,
            Classification::Good | Classification::Bad => 0u8,
        },
{
    match class {
        Classification::Abort => 4,
        Classification::Skip => 2,
        Classification::Good | Classification::Bad => 0,
    }
}

/// The process exit code of a bisect: 0 conclusive, 2 inconclusive or
/// interrupted, 3 endpoint verification failed, 4 aborted by a hook.
pub fn bisect_exit_code(outcome: &BisectOutcome) -> (code: u8)
    ensures
        code == match outcome {
            BisectOutcome::Conclusive(_) => 0u8,
            BisectOutcome::Inconclusive { .. } => 2u8,
            BisectOutcome::EndpointFailed(_) => 3u8,
            BisectOutcome::HookAbort => 4u8,
            BisectOutcome::Interrupted => 2u8,
        },
{
    match outcome {
        BisectOutcome::Conclusive(_) => 0,
        BisectOutcome::Inconclusive { .. } => 2,
        BisectOutcome::EndpointFailed(_) => 3,
        BisectOutcome::HookAbort => 4,
        BisectOutcome::Interrupted => 2,
    }
}

/// The process exit code of a scan: 4 when a hook aborted, 2 when
/// interrupted, 0 otherwise.
pub fn scan_exit_code(reason: StopReason) -> (code: u8)
    ensures
        code == match reason {
            StopReason::HookAbort => 4u8,
            StopReason::Interrupted => 2u8,
            StopReason::Complete | StopReason::FirstBad => 0u8,
        },
{
    match reason {
        StopReason::HookAbort => 4,
        StopReason::Interrupted => 2,
        StopReason::Complete | StopReason::FirstBad => 0,
    }
}


/// `bisectrunk bisect` options besides the shared ones.
#[derive(Clone, Debug)]
pub struct BisectArgs {
    pub shared: SharedArgs,
    pub good: Option<String>,
    pub bad: Option<String>,
    pub terms: Option<String>,
    pub no_verify_endpoints: bool,
    pub on_inconsistent: Option<InconsistentPolicy>,
}

/// `bisectrunk scan` options besides the shared ones.
#[derive(Clone, Debug)]
pub struct ScanArgs {
    pub shared: SharedArgs,
    pub range: Option<String>,
    pub stride: Option<usize>,
    pub sample: Option<usize>,
    pub stop_on_first_bad: bool,
}

/// `bisectrunk run` options besides the shared ones.
#[derive(Clone, Debug)]
pub struct RunArgs {
    pub shared: SharedArgs,
    pub at: Option<String>,
}

/// Why the options of a subcommand do not make a run.
#[derive(Debug)]
pub enum PlanError {
    MissingAt,
    MissingRange,
    ZeroStride,
    ZeroSample,
    MissingGood,
    Terms(String),
    SameEndpoints(String),
    EmptyRange(String),
}

fn first_text(first: &Option<String>, second: &Option<String>) -> (picked: Option<String>)
    ensures
        picked == pick(*first, *second),
{
    match first {
        Some(v) => Some(v.clone()),
        None => match second {
            Some(v) => Some(v.clone()),
            None => None,
        },
    }
}

/// The revision a single-commit run evaluates: `--at`, else `subject.at`.
pub fn run_target(args: &RunArgs, file: &FileConfig) -> (at: Result<String, PlanError>)
    ensures
        match pick(args.at, file.subject.at) {
            Some(a) => at == Ok::<String, PlanError>(a),
            None => at matches Err(PlanError::MissingAt),
        },
{
    match first_text(&args.at, &file.subject.at) {
        Some(a) => Ok(a),
        None => Err(PlanError::MissingAt),
    }
}

/// The resolved options of a scan.
#[derive(Clone, Debug)]
pub struct ScanOptions {
    pub range: String,
    pub stride: usize,
    pub sample: Option<usize>,
    pub stop_on_first_bad: bool,
}

/// The scan options, command line over file over defaults: a range is
/// required, the stride (default 1) and a sample must be at least 1.
pub fn scan_options(args: &ScanArgs, file: &FileConfig) -> (options: Result<ScanOptions, PlanError>)
    ensures
        pick(args.range, file.subject.range) is None ==> options matches Err(PlanError::MissingRange),
        pick(args.range, file.subject.range) is Some && or_default(pick(args.stride, file.execution.stride), 1usize) == 0
            ==> options matches Err(PlanError::ZeroStride),
        pick(args.range, file.subject.range) is Some && or_default(pick(args.stride, file.execution.stride), 1usize) != 0
            && pick(args.sample, file.execution.sample) == Some(0usize) ==> options matches Err(PlanError::ZeroSample),
        options is Ok <==> (pick(args.range, file.subject.range) is Some && or_default(pick(args.stride, file.execution.stride), 1usize) != 0
            && pick(args.sample, file.execution.sample) != Some(0usize)),
        options matches Ok(o) ==> {
            &&& Some(o.range) == pick(args.range, file.subject.range)
            &&& o.stride == or_default(pick(args.stride, file.execution.stride), 1usize)
            &&& o.sample == pick(args.sample, file.execution.sample)
            &&& o.stop_on_first_bad == (args.stop_on_first_bad || or_default(file.execution.stop_on_first_bad, false))
        },
{
    let range = match first_text(&args.range, &file.subject.range) {
        Some(r) => r,
        None => return Err(PlanError::MissingRange),
    };
    let stride = match args.stride {
        Some(s) => s,
        None => match file.execution.stride {
            Some(s) => s,
            None => 1,
        },
    };
    if stride == 0 {
        return Err(PlanError::ZeroStride);
    }
    let sample = match args.sample {
        Some(s) => Some(s),
        None => file.execution.sample,
    };
    if sample == Some(0usize) {
        return Err(PlanError::ZeroSample);
    }
    let stop_on_first_bad = args.stop_on_first_bad || match file.execution.stop_on_first_bad {
        Some(v) => v,
        None => false,
    };
    Ok(ScanOptions { range, stride, sample, stop_on_first_bad })
}

/// The commits a scan evaluates: the selection from the range's commits,
/// which must not be empty.
pub fn scan_commits(range: &str, commits: Vec<String>, stride: usize, sample: Option<usize>) -> (selected: Result<Vec<String>, PlanError>)
    ensures
        selection(commits@, stride, sample).len() == 0 ==> (selected matches Err(PlanError::EmptyRange(r)) && r@ == range@),
        selection(commits@, stride, sample).len() > 0 ==> (selected matches Ok(s) && s@ == selection(commits@, stride, sample)),
{
    let selected = select_commits(commits, stride, sample);
    if selected.len() == 0 {
        return Err(PlanError::EmptyRange(range.to_string()));
    }
    Ok(selected)
}

/// The resolved options of a bisect.
#[derive(Clone, Debug)]
pub struct BisectOptions {
    pub good: String,
    pub bad: String,
    pub terms: [String; 2],
    pub verify_endpoints: bool,
    pub on_inconsistent: InconsistentPolicy,
}

/// The vocabulary text: `--terms`, else `execution.terms`, else `good,bad`.
pub open spec fn terms_text(args: BisectArgs, file: FileConfig) -> Seq<char> {
    match pick(args.terms, file.execution.terms) {
        Some(t) => t@,
        None => "good,bad"@,
    }
}

/// The bisect options, command line over file over defaults: a good
/// revision is required, the bad one defaults to `HEAD`, the vocabulary
/// must be two names, endpoints are verified unless turned off, and
/// non-monotone results abort by default.
pub fn bisect_options(args: &BisectArgs, file: &FileConfig) -> (options: Result<BisectOptions, PlanError>)
    ensures
        pick(args.good, file.subject.good) is None ==> options matches Err(PlanError::MissingGood),
        options is Ok <==> (pick(args.good, file.subject.good) is Some && terms_of(terms_text(*args, *file)) is Some),
        options matches Err(PlanError::Terms(t)) ==> t@ == terms_text(*args, *file),
        options matches Ok(o) ==> {
            &&& Some(o.good) == pick(args.good, file.subject.good)
            &&& o.bad@ == (match pick(args.bad, file.subject.bad) {
                Some(b) => b@,
                None => "HEAD"@,
            })
            &&& terms_of(terms_text(*args, *file)) == Some((o.terms[0]@, o.terms[1]@))
            &&& o.verify_endpoints == (!args.no_verify_endpoints && or_default(file.execution.verify_endpoints, true))
            &&& o.on_inconsistent == or_default(pick(args.on_inconsistent, file.execution.on_inconsistent), InconsistentPolicy::Abort)
        },
{
    let good = match first_text(&args.good, &file.subject.good) {
        Some(g) => g,
        None => return Err(PlanError::MissingGood),
    };
    let bad = match first_text(&args.bad, &file.subject.bad) {
        Some(b) => b,
        None => "HEAD".to_string(),
    };
    let text = match first_text(&args.terms, &file.execution.terms) {
        Some(t) => t,
        None => "good,bad".to_string(),
    };
    let terms = match parse_terms(text.as_str()) {
        Ok(pair) => pair,
        Err(_) => return Err(PlanError::Terms(text)),
    };
    let verify_endpoints = if args.no_verify_endpoints {
        false
    } else {
        match file.execution.verify_endpoints {
            Some(v) => v,
            None => true,
        }
    };
    let on_inconsistent = match args.on_inconsistent {
        Some(p) => p,
        None => match file.execution.on_inconsistent {
            Some(p) => p,
            None => InconsistentPolicy::default(),
        },
    };
    Ok(BisectOptions { good, bad, terms, verify_endpoints, on_inconsistent })
}

/// The commits a bisect searches: the good endpoint, the range's commits,
/// and the bad endpoint last (added when the range does not end with it).
pub open spec fn bisect_sequence(range: Seq<String>, good: String, bad: String) -> Seq<String> {
    let with_bad = if range.len() > 0 && range.last()@ == bad@ {
        range
    } else {
        range.push(bad)
    };
    seq![good] + with_bad
}

/// The commit list of a bisect from the commits of `good..bad`; the two
/// endpoints must differ.
pub fn bisect_commits(range: Vec<String>, good: String, bad: String) -> (commits: Result<Vec<String>, PlanError>)
    ensures
        good@ == bad@ ==> (commits matches Err(PlanError::SameEndpoints(s)) && s@ == good@),
        good@ != bad@ ==> (commits matches Ok(c) && c@ == bisect_sequence(range@, good, bad)),
{
    if str_equal(good.as_str(), bad.as_str()) {
        return Err(PlanError::SameEndpoints(good));
    }
    let mut commits = range;
    let ends_with_bad = commits.len() > 0 && str_equal(commits[commits.len() - 1].as_str(), bad.as_str());
    if !ends_with_bad {
        commits.push(bad);
    }
    commits.insert(0, good);
    Ok(commits)
}

/// Records in the ledger how a bisect ended, and gives the exit code: a
/// conclusion completes the run, a candidate set is recorded as an open
/// conclusion, an interruption is marked for `resume`.
pub fn record_bisect_outcome(state: &mut RunState, outcome: BisectOutcome) -> (code: u8)
    ensures
        code == match outcome {
            BisectOutcome::Conclusive(_) => 0u8,
            BisectOutcome::Inconclusive { .. } => 2u8,
            BisectOutcome::EndpointFailed(_) => 3u8,
            BisectOutcome::HookAbort => 4u8,
            BisectOutcome::Interrupted => 2u8,
        },
        final(state).evaluations == old(state).evaluations,
        final(state).rounds == old(state).rounds,
        final(state).started_at == old(state).started_at,
        final(state).updated_at == old(state).updated_at,
        match outcome {
            BisectOutcome::Conclusive(c) => final(state).conclusion == Some(*c) && final(state).complete
                && final(state).interrupted == old(state).interrupted,
            BisectOutcome::Inconclusive { candidates, .. } => {
                &&& final(state).conclusion matches Some(c) && c.first_bad@.len() == 0 && c.last_good@.len() == 0
                    && c.candidates == candidates && c.first_bad_metadata is None && c.last_good_metadata is None
                &&& final(state).complete == old(state).complete
                &&& final(state).interrupted == old(state).interrupted
            },
            BisectOutcome::Interrupted => final(state).interrupted && final(state).complete == old(state).complete
                && final(state).conclusion == old(state).conclusion,
            _ => final(state).complete == old(state).complete && final(state).interrupted == old(state).interrupted
                && final(state).conclusion == old(state).conclusion,
        },
{
    let code = bisect_exit_code(&outcome);
    match outcome {
        BisectOutcome::Conclusive(conclusion) => {
            state.conclusion = Some(*conclusion);
            state.complete = true;
        },
        BisectOutcome::Inconclusive { candidates, .. } => {
            proof {
                reveal_strlit("");
            }
            state.conclusion = Some(Conclusion {
                first_bad: String::new(),
                last_good: String::new(),
                candidates,
                first_bad_metadata: None,
                last_good_metadata: None,
            });
        },
        BisectOutcome::Interrupted => {
            state.interrupted = true;
        },
        _ => {},
    }
    code
}

/// Records in the ledger how a scan stopped, and gives the exit code: it is
/// complete when every commit was evaluated or the first bad one was found,
/// and marked interrupted for `resume` when the user stopped it.
pub fn record_scan_outcome(state: &mut RunState, reason: StopReason) -> (code: u8)
    ensures
        code == match reason {
            StopReason::HookAbort => 4u8,
            StopReason::Interrupted => 2u8,
            StopReason::Complete | StopReason::FirstBad => 0u8,
        },
        final(state).interrupted == (reason == StopReason::Interrupted),
        final(state).complete == (reason == StopReason::Complete || reason == StopReason::FirstBad),
        final(state).evaluations == old(state).evaluations,
        final(state).rounds == old(state).rounds,
        final(state).conclusion == old(state).conclusion,
        final(state).started_at == old(state).started_at,
        final(state).updated_at == old(state).updated_at,
{
    state.interrupted = reason == StopReason::Interrupted;
    state.complete = reason == StopReason::Complete || reason == StopReason::FirstBad;
    scan_exit_code(reason)
}

/// Records the single evaluation of a `run` at time `now`, completing the
/// run, and gives the exit code.
pub fn record_run(state: &mut RunState, evaluation: Evaluation, now: String) -> (code: u8)
    requires
        old(state).evaluations.well_formed(),
    ensures
        code == match evaluation.classification {
            Classification::Abort => 4u8,
            Classification::Skip => 2u8,
            Classification::Good | Classification::Bad => 0u8,
        },
        final(state).evaluations.well_formed(),
        final(state).evaluations@ == old(state).evaluations@.insert(evaluation.sha@, evaluation),
        final(state).complete,
        final(state).updated_at@ == now@,
{
    let code = run_exit_code(evaluation.classification);
    state.record(evaluation, now);
    state.complete = true;
    code
}

/// What `resume` does with a run directory.
#[derive(Clone, Copy, Debug, PartialEq, Eq, Structural)]
pub enum Resumption {
    /// The run finished: only the reports are refreshed.
    AlreadyComplete,
    /// Continue the scan.
    Scan,
    /// Continue the bisect.
    Bisect,
    /// A single-commit run cannot be resumed.
    NotResumable,
}

/// Decides how to resume a run.
pub fn resumption(operation: &Operation, complete: bool) -> (what: Resumption)
    ensures
        what == (if complete {
            Resumption::AlreadyComplete
        } else {
            match operation {
                Operation::Run { .. } => Resumption::NotResumable,
                Operation::Scan { .. } => Resumption::Scan,
                Operation::Bisect { .. } => Resumption::Bisect,
            }
        }),
{
    if complete {
        return Resumption::AlreadyComplete;
    }
    match operation {
        Operation::Run { .. } => Resumption::NotResumable,
        Operation::Scan { .. } => Resumption::Scan,
        Operation::Bisect { .. } => Resumption::Bisect,
    }
}

} // verus!
