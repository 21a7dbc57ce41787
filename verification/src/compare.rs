use vstd::prelude::*;
use vstd::string::StringSliceAdditionalSpecFns;
use vstd::utf8::{decode_utf8, encode_utf8, is_char_boundary, valid_utf8};

use crate::config::ResolvedConfig;
use crate::hooks::{HookContext, HookResult};
use crate::normalize::{first_bad_pattern, normalize_text, strip_all, unix_newlines, NormalizeError};
use crate::oracle::{classify_exit, exit_class, Classification};
use crate::util::{join, join_path, push_text};

verus! {

/// How an artifact compared with the baseline.
#[derive(Debug)]
pub struct CompareResult {
    pub classification: Classification,
    pub exit_code: i32,
    pub diff: Option<String>,
}

/// The largest diff kept in a report, in bytes.
pub const MAX_DIFF_BYTES: usize = 65536;

/// The unified line diff that `similar` writes for two texts under the
/// given headers.
pub uninterp spec fn unified_line_diff(old: Seq<char>, new: Seq<char>, old_header: Seq<char>, new_header: Seq<char>) -> Seq<char>;

/// `similar::TextDiff::from_lines(old, new)`, written as a unified diff
/// with the two headers. With the default configuration (no deadline) the
/// text is a function of its four arguments.
#[verifier::external_body]
fn unified_diff(old: &str, new: &str, old_header: &str, new_header: &str) -> (diff: String)
    ensures
        diff@ == unified_line_diff(old@, new@, old_header@, new_header@),
{
    similar::TextDiff::from_lines(old, new).unified_diff().header(old_header, new_header).to_string()
}

/// `std::str::from_utf8`: the bytes as text exactly when they are valid
/// UTF-8.
#[verifier::external_body]
fn utf8_text(bytes: &[u8]) -> (text: Option<&str>)
    ensures
        match text {
            Some(t) => valid_utf8(bytes@) && t.spec_bytes() == bytes@,
            None => !valid_utf8(bytes@),
        },
{
    std::str::from_utf8(bytes).ok()
}

/// The text of `bytes`, when they are valid UTF-8.
fn decode(bytes: &[u8]) -> (text: Option<&str>)
    ensures
        match text {
            Some(t) => valid_utf8(bytes@) && t@ == decode_utf8(bytes@),
            None => !valid_utf8(bytes@),
        },
{
    let text = utf8_text(bytes);
    if let Some(t) = text {
        proof {
            vstd::utf8::encode_utf8_decode_utf8(t@);
        }
    }
    text
}

/// A text as the comparison sees it: Unix line endings, pattern matches
/// removed.
pub open spec fn normalized(text: Seq<char>, patterns: Seq<String>) -> Seq<char> {
    strip_all(unix_newlines(text), patterns)
}

/// Both artifacts are text and agree once normalized.
pub open spec fn normalized_equal(baseline: Seq<u8>, candidate: Seq<u8>, patterns: Seq<String>) -> bool {
    &&& valid_utf8(baseline)
    &&& valid_utf8(candidate)
    &&& normalized(decode_utf8(baseline), patterns) == normalized(decode_utf8(candidate), patterns)
}

/// The last character boundary of `bytes` at or before `i`.
pub open spec fn char_boundary_at_most(bytes: Seq<u8>, i: int) -> int
    decreases i,
{
    if i <= 0 || is_char_boundary(bytes, i) {
        i
    } else {
        char_boundary_at_most(bytes, i - 1)
    }
}

pub open spec fn truncation_notice() -> Seq<char> {
    "\n... diff truncated by bisectrunk ...\n"@
}

pub open spec fn binary_notice() -> Seq<char> {
    "binary artifacts differ; no text diff available"@
}

/// A diff cut at the last character boundary within `MAX_DIFF_BYTES`
/// bytes, with a notice, when it is longer than that.
pub open spec fn truncated_diff(diff: Seq<char>) -> Seq<char> {
    let bytes = encode_utf8(diff);
    if (bytes.len() as usize) > MAX_DIFF_BYTES {
        decode_utf8(bytes.subrange(0, char_boundary_at_most(bytes, MAX_DIFF_BYTES as int))) + truncation_notice()
    } else {
        diff
    }
}

/// The diff reported for two artifacts that differ.
pub open spec fn diff_text(baseline: Seq<u8>, candidate: Seq<u8>, patterns: Seq<String>) -> Seq<char> {
    if valid_utf8(baseline) && valid_utf8(candidate) {
        truncated_diff(
            unified_line_diff(
                normalized(decode_utf8(baseline), patterns),
                normalized(decode_utf8(candidate), patterns),
                "baseline"@,
                "candidate"@,
            ),
        )
    } else {
        binary_notice()
    }
}

/// Cuts a diff to at most `MAX_DIFF_BYTES` bytes on a character boundary,
/// with a notice, when it is longer.
pub fn truncate_diff(diff: String) -> (cut: String)
    ensures
        cut@ == truncated_diff(diff@),
{
    let text: &str = diff.as_str();
    let ghost bytes = text.spec_bytes();
    proof {
        vstd::utf8::encode_utf8_valid_utf8(diff@);
    }
    let len = text.len();
    if len <= MAX_DIFF_BYTES {
        return diff;
    }
    let mut boundary: usize = MAX_DIFF_BYTES;
    while !text.is_char_boundary(boundary)
        invariant
            bytes == text.spec_bytes(),
            bytes == encode_utf8(diff@),
            valid_utf8(bytes),
            boundary <= MAX_DIFF_BYTES,
            char_boundary_at_most(bytes, boundary as int) == char_boundary_at_most(bytes, MAX_DIFF_BYTES as int),
        decreases boundary,
    {
        assert(boundary != 0);
        boundary = boundary - 1;
    }
    assert(char_boundary_at_most(bytes, boundary as int) == boundary);
    let parts = text.split_at(boundary);
    proof {
        vstd::utf8::encode_utf8_decode_utf8(parts.0@);
        reveal_strlit("\n... diff truncated by bisectrunk ...\n");
    }
    let mut cut = parts.0.to_string();
    push_text(&mut cut, "\n... diff truncated by bisectrunk ...\n");
    cut
}

/// The diff reported for two differing artifacts: a unified diff of their
/// normalized texts, cut to size, or a notice when either is not text.
pub fn make_diff(baseline: &[u8], candidate: &[u8], patterns: &[String]) -> (diff: Result<String, NormalizeError>)
    ensures
        match diff {
            Ok(d) => d@ == diff_text(baseline@, candidate@, patterns@)
                && (valid_utf8(baseline@) && valid_utf8(candidate@) ==> first_bad_pattern(patterns@) is None),
            Err(e) => valid_utf8(baseline@) && valid_utf8(candidate@)
                && (first_bad_pattern(patterns@) matches Some(i) && e.pattern@ == patterns@[i]@),
        },
{
    proof {
        reveal_strlit("binary artifacts differ; no text diff available");
        reveal_strlit("baseline");
        reveal_strlit("candidate");
    }
    let (baseline_text, candidate_text) = match (decode(baseline), decode(candidate)) {
        (Some(b), Some(c)) => (b, c),
        _ => return Ok("binary artifacts differ; no text diff available".to_string()),
    };
    let old = match normalize_text(baseline_text, patterns) {
        Ok(text) => text,
        Err(error) => return Err(error),
    };
    let new = match normalize_text(candidate_text, patterns) {
        Ok(text) => text,
        Err(error) => return Err(error),
    };
    let full = unified_diff(old.as_str(), new.as_str(), "baseline", "candidate");
    Ok(truncate_diff(full))
}

/// Byte-for-byte equality.
pub fn bytes_equal(a: &[u8], b: &[u8]) -> (equal: bool)
    ensures
        equal == (a@ == b@),
{
    if a.len() != b.len() {
        return false;
    }
    let mut i: usize = 0;
    while i < a.len()
        invariant
            a@.len() == b@.len(),
            i <= a@.len(),
            a@.take(i as int) == b@.take(i as int),
        decreases a@.len() - i,
    {
        if a[i] != b[i] {
            assert(a@[i as int] != b@[i as int]);
            return false;
        }
        assert(a@.take(i + 1) =~= a@.take(i as int).push(a@[i as int]));
        assert(b@.take(i + 1) =~= b@.take(i as int).push(b@[i as int]));
        i = i + 1;
    }
    assert(a@ =~= a@.take(a@.len() as int));
    assert(b@ =~= b@.take(b@.len() as int));
    true
}

/// The built-in comparison: identical bytes, or texts equal after
/// normalization, are good (exit 0); anything else is bad (exit 1) with a
/// diff.
pub fn builtin_compare(baseline: &[u8], candidate: &[u8], patterns: &[String]) -> (result: Result<CompareResult, NormalizeError>)
    ensures
        result is Err <==> (baseline@ != candidate@ && valid_utf8(baseline@) && valid_utf8(candidate@)
            && first_bad_pattern(patterns@) is Some),
        result matches Err(e) ==> first_bad_pattern(patterns@) matches Some(i) && e.pattern@ == patterns@[i]@,
        result matches Ok(r) ==> {
            if baseline@ == candidate@ || normalized_equal(baseline@, candidate@, patterns@) {
                r.classification == Classification::Good && r.exit_code == 0 && r.diff is None
            } else {
                &&& r.classification == Classification::Bad
                &&& r.exit_code == 1
                &&& r.diff matches Some(d) && d@ == diff_text(baseline@, candidate@, patterns@)
            }
        },
{
    if bytes_equal(baseline, candidate) {
        return Ok(CompareResult { classification: Classification::Good, exit_code: 0, diff: None });
    }
    let equal = match (decode(baseline), decode(candidate)) {
        (Some(b), Some(c)) => {
            let left = match normalize_text(b, patterns) {
                Ok(text) => text,
                Err(error) => return Err(error),
            };
            let right = match normalize_text(c, patterns) {
                Ok(text) => text,
                Err(error) => return Err(error),
            };
            crate::state::str_equal(left.as_str(), right.as_str())
        },
        _ => false,
    };
    if equal {
        return Ok(CompareResult { classification: Classification::Good, exit_code: 0, diff: None });
    }
    match make_diff(baseline, candidate, patterns) {
        Ok(diff) => Ok(CompareResult { classification: Classification::Bad, exit_code: 1, diff: Some(diff) }),
        Err(error) => Err(error),
    }
}

/// Where the run hook's artifact is expected: the configured artifact path
/// below the output directory. `None` when no artifact is configured.
pub fn candidate_path(config: &ResolvedConfig, out_dir: &str) -> (path: Option<String>)
    ensures
        match config.oracle.artifact {
            Some(a) => path matches Some(p) && p@ == join_path(out_dir@, a@),
            None => path is None,
        },
{
    match &config.oracle.artifact {
        Some(artifact) => Some(join(out_dir, artifact.as_str())),
        None => None,
    }
}

/// The verdict when the run hook left no artifact: skip, exit 125.
pub fn missing_candidate() -> (result: CompareResult)
    ensures
        result.classification == Classification::Skip,
        result.exit_code == 125,
        result.diff is None,
{
    CompareResult { classification: Classification::Skip, exit_code: 125, diff: None }
}

/// The baseline to compare with: an absolute setting as given, a relative
/// one below the project directory. `None` when no baseline is configured.
pub fn baseline_path(config: &ResolvedConfig, project: &str) -> (path: Option<String>)
    ensures
        match config.oracle.baseline {
            Some(b) => path matches Some(p) && p@ == join_path(project@, b@),
            None => path is None,
        },
{
    match &config.oracle.baseline {
        Some(baseline) => Some(join(project, baseline.as_str())),
        None => None,
    }
}

/// The context of the compare hook: the run hook's, with the baseline and
/// candidate paths added.
pub fn compare_context(context: &HookContext, baseline: &str, candidate: &str) -> (compare: HookContext)
    requires
        context.extra_env.well_formed(),
    ensures
        compare.commit == context.commit,
        compare.worktree == context.worktree,
        compare.env_dir == context.env_dir,
        compare.out_dir == context.out_dir,
        compare.project == context.project,
        compare.run_dir == context.run_dir,
        compare.job == context.job,
        compare.extra_env.well_formed(),
        compare.extra_env.pairs() == context.extra_env.pairs(),
        compare.extra_env@ == context.extra_env@,
        compare.pin_envs == context.pin_envs,
        compare.baseline matches Some(b) && b@ == baseline@,
        compare.candidate matches Some(c) && c@ == candidate@,
{
    HookContext {
        commit: context.commit.clone(),
        worktree: context.worktree.clone(),
        env_dir: context.env_dir.clone(),
        out_dir: context.out_dir.clone(),
        project: context.project.clone(),
        run_dir: context.run_dir.clone(),
        job: context.job,
        extra_env: context.extra_env.duplicate(),
        pin_envs: context.pin_envs.clone(),
        baseline: Some(baseline.to_string()),
        candidate: Some(candidate.to_string()),
    }
}

/// The verdict of a compare hook: its exit code read by the exit protocol,
/// with the diff attached when the artifacts are judged bad. The caller
/// computes the diff only when `classify_exit` says bad.
pub fn compared_by_hook(result: HookResult, diff: Option<String>) -> (verdict: CompareResult)
    ensures
        verdict.classification == exit_class(result.code as int, result.timed_out),
        verdict.exit_code == result.code,
        verdict.diff == (if verdict.classification == Classification::Bad {
            diff
        } else {
            None
        }),
{
    let classification = classify_exit(result.code, result.timed_out);
    if classification == Classification::Bad {
        CompareResult { classification, exit_code: result.code, diff }
    } else {
        CompareResult { classification, exit_code: result.code, diff: None }
    }
}

/// What comparing the artifact takes next.
#[derive(Debug)]
pub enum CompareStep {
    /// The comparison is decided already.
    Finish(CompareResult),
    /// Run this compare hook with the baseline and candidate in its
    /// context, then read its verdict with `compared_by_hook`.
    RunHook(String),
    /// Read both files and compare them with `builtin_compare`.
    Builtin,
}

/// Why an artifact cannot be compared.
#[derive(Debug)]
pub enum CompareError {
    /// No artifact path is configured.
    ArtifactUnresolved,
    /// No baseline is configured.
    BaselineUnresolved,
    /// The baseline file does not exist.
    MissingBaseline(String),
}

/// Decides how to compare the run hook's artifact, given where the
/// candidate and the baseline are (from `candidate_path` and
/// `baseline_path`) and whether they exist: a missing candidate skips, a
/// missing baseline is an error, and otherwise the compare hook or the
/// built-in comparison judges.
pub fn compare_artifact(
    config: &ResolvedConfig,
    candidate: Option<String>,
    candidate_exists: bool,
    baseline: Option<String>,
    baseline_exists: bool,
) -> (step: Result<CompareStep, CompareError>)
    ensures
        candidate is None ==> step matches Err(CompareError::ArtifactUnresolved),
        candidate is Some && !candidate_exists ==> (step matches Ok(CompareStep::Finish(r))
            && r.classification == Classification::Skip && r.exit_code == 125 && r.diff is None),
        candidate is Some && candidate_exists && baseline is None ==> step matches Err(CompareError::BaselineUnresolved),
        candidate is Some && candidate_exists && baseline is Some && !baseline_exists ==> (step matches Err(
            CompareError::MissingBaseline(b),
        ) && Some(b) == baseline),
        candidate is Some && candidate_exists && baseline is Some && baseline_exists ==> match config.hooks.compare {
            Some(command) => step matches Ok(CompareStep::RunHook(c)) && c == command,
            None => step matches Ok(CompareStep::Builtin),
        },
{
    if candidate.is_none() {
        return Err(CompareError::ArtifactUnresolved);
    }
    if !candidate_exists {
        return Ok(CompareStep::Finish(missing_candidate()));
    }
    let baseline = match baseline {
        Some(b) => b,
        None => return Err(CompareError::BaselineUnresolved),
    };
    if !baseline_exists {
        return Err(CompareError::MissingBaseline(baseline));
    }
    match &config.hooks.compare {
        Some(command) => Ok(CompareStep::RunHook(command.clone())),
        None => Ok(CompareStep::Builtin),
    }
}

} // verus!
