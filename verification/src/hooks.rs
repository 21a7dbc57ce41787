use vstd::prelude::*;
use vstd::string::{StrSliceExecFns, StringExecFns};

use crate::env::EnvMap;
use crate::util::{decimal, decimal_text, short_sha, short_text};

verus! {

#[verifier::external_type_specification]
#[verifier::external_body]
pub struct ExDurationError(humantime::DurationError);

/// A span of time: whole seconds and the nanoseconds beyond them.
#[derive(Clone, Copy, Debug, PartialEq, Eq, Structural)]
pub struct Span {
    pub secs: u64,
    pub nanos: u32,
}

pub open spec fn nanos_per_sec() -> int {
    1_000_000_000
}

impl Span {
    pub open spec fn well_formed(self) -> bool {
        self.nanos < nanos_per_sec()
    }

    /// The span in nanoseconds.
    pub open spec fn total(self) -> int {
        self.secs * nanos_per_sec() + self.nanos
    }

    /// A span of whole seconds.
    pub fn from_secs(secs: u64) -> (span: Span)
        ensures
            span.secs == secs,
            span.nanos == 0,
            span.well_formed(),
    {
        Span { secs, nanos: 0 }
    }

    /// `self - other`, or zero when `other` is at least as long.
    pub fn saturating_sub(self, other: Span) -> (rest: Span)
        requires
            self.well_formed(),
            other.well_formed(),
        ensures
            rest.well_formed(),
            rest.total() == if self.total() <= other.total() { 0 } else { self.total() - other.total() },
    {
        if self.secs < other.secs || (self.secs == other.secs && self.nanos <= other.nanos) {
            return Span { secs: 0, nanos: 0 };
        }
        if self.nanos >= other.nanos {
            Span { secs: self.secs - other.secs, nanos: self.nanos - other.nanos }
        } else {
            Span { secs: self.secs - other.secs - 1, nanos: self.nanos + 1_000_000_000 - other.nanos }
        }
    }
}

/// What `humantime::parse_duration` yields for `text`: seconds and
/// nanoseconds, or nothing when the text is not a duration.
pub uninterp spec fn parsed_duration(text: Seq<char>) -> Option<(u64, u32)>;

/// Whether `c` is one of the ASCII digits `0`..`9`.
pub open spec fn is_ascii_digit(c: char) -> bool {
    '0' <= c && c <= '9'
}

/// A left-to-right scan of a duration text: how many whole-number digits it
/// has met, and whether it stands inside a fraction, that is, after a `.`
/// with only digits since. Any other character ends a fraction.
pub open spec fn digit_scan(text: Seq<char>) -> (nat, bool)
    decreases text.len(),
{
    if text.len() == 0 {
        (0, false)
    } else {
        let (count, fraction) = digit_scan(text.drop_last());
        let c = text.last();
        if is_ascii_digit(c) {
            if fraction {
                (count, true)
            } else {
                (count + 1, false)
            }
        } else if c == '.' {
            (count, true)
        } else {
            (count, false)
        }
    }
}

/// The digits of `text` that are not part of a fraction.
pub open spec fn whole_digits(text: Seq<char>) -> nat {
    digit_scan(text).0
}

/// The most whole-number digits a duration text may hold.
pub const MAX_WHOLE_DIGITS: usize = 11;

/// Whether a duration text is short enough to be parsed: at most
/// `MAX_WHOLE_DIGITS` whole-number digits. Every span of a duration begins
/// with such a digit, so such a text has at most eleven spans, whose integer
/// parts add up to less than 10^11; even in years (31 557 600 s each), with
/// a fraction and carried nanoseconds per span, the total stays below
/// 3.2 * 10^18 seconds, far from `u64::MAX`.
pub open spec fn within_duration_limit(text: Seq<char>) -> bool {
    whole_digits(text) <= MAX_WHOLE_DIGITS
}

/// Whether a timeout text is accepted: within the limit and a duration.
pub open spec fn timeout_accepted(text: Seq<char>) -> bool {
    within_duration_limit(text) && parsed_duration(text) is Some
}

/// Counts the whole-number digits of `text`, as `whole_digits` defines them.
fn whole_digit_count(text: &str) -> (count: usize)
    ensures
        count == whole_digits(text@),
{
    let len = text.unicode_len();
    let mut i: usize = 0;
    let mut count: usize = 0;
    let mut fraction = false;
    while i < len
        invariant
            len == text@.len(),
            i <= len,
            count <= i,
            digit_scan(text@.take(i as int)) == (count as nat, fraction),
        decreases len - i,
    {
        let c = text.get_char(i);
        proof {
            assert(text@.take(i + 1).drop_last() =~= text@.take(i as int));
            assert(text@.take(i + 1).last() == c);
        }
        if '0' <= c && c <= '9' {
            if !fraction {
                count = count + 1;
            }
        } else if c == '.' {
            fraction = true;
        } else {
            fraction = false;
        }
        i = i + 1;
    }
    assert(text@.take(len as int) =~= text@);
    count
}

/// Whether `text` is within the limit on whole-number digits.
pub fn duration_within_limit(text: &str) -> (ok: bool)
    ensures
        ok == within_duration_limit(text@),
{
    whole_digit_count(text) <= MAX_WHOLE_DIGITS
}

/// Calls `humantime::parse_duration`. Claims that the result is a function
/// of the text alone (named `parsed_duration`), and, as `Duration`
/// documents, that the nanoseconds stay below one second. The call panics
/// (`Duration::new` overflows) when the running total reaches `u64::MAX`
/// seconds with a whole second of nanoseconds still to carry; `requires`
/// admits only texts within the digit limit, which never come near it. It
/// leaves out some longer texts that parse without a panic: which ones is a
/// matter of humantime's parser, which is not restated here.
#[verifier::external_body]
fn parse_duration_text(text: &str) -> (parsed: Result<Span, humantime::DurationError>)
    requires
        within_duration_limit(text@),
    ensures
        match parsed {
            Ok(span) => parsed_duration(text@) == Some((span.secs, span.nanos)) && span.well_formed(),
            Err(_) => parsed_duration(text@) is None,
        },
{
    humantime::parse_duration(text).map(|d| Span { secs: d.as_secs(), nanos: d.subsec_nanos() })
}

/// Why a timeout text is refused.
#[derive(Debug)]
pub enum TimeoutError {
    /// More than `MAX_WHOLE_DIGITS` whole-number digits.
    TooLarge,
    /// Not a duration, as humantime reports it.
    Invalid(humantime::DurationError),
}

/// Parses an optional human-readable timeout such as `20m`. A text with more
/// than `MAX_WHOLE_DIGITS` whole-number digits (a timeout of thousands of
/// years) is refused as too large before it is parsed.
pub fn parse_timeout(value: Option<&str>) -> (timeout: Result<Option<Span>, TimeoutError>)
    ensures
        match value {
            None => timeout matches Ok(None),
            Some(text) => if !within_duration_limit(text@) {
                timeout matches Err(TimeoutError::TooLarge)
            } else {
                match parsed_duration(text@) {
                    Some((secs, nanos)) => timeout == Ok::<Option<Span>, TimeoutError>(Some(Span { secs, nanos })),
                    None => timeout matches Err(TimeoutError::Invalid(_)),
                }
            },
        },
        timeout matches Ok(Some(span)) ==> span.well_formed(),
{
    match value {
        None => Ok(None),
        Some(text) => {
            if !duration_within_limit(text) {
                return Err(TimeoutError::TooLarge);
            }
            match parse_duration_text(text) {
                Ok(span) => Ok(Some(span)),
                Err(error) => Err(TimeoutError::Invalid(error)),
            }
        },
    }
}

/// The time left of a per-evaluation limit after `elapsed`.
pub fn remaining_timeout(limit: Option<Span>, elapsed: Span) -> (left: Option<Span>)
    requires
        limit matches Some(l) ==> l.well_formed(),
        elapsed.well_formed(),
    ensures
        match limit {
            None => left is None,
            Some(l) => left matches Some(r) && r.well_formed() && r.total() == if l.total() <= elapsed.total() { 0 } else { l.total() - elapsed.total() },
        },
{
    match limit {
        None => None,
        Some(l) => Some(l.saturating_sub(elapsed)),
    }
}

/// A hook's exit code from how its process ended: the exit code, or 128
/// plus the terminating signal, or 128.
pub fn exit_code(code: Option<i32>, signal: Option<i32>) -> (exit: i32)
    requires
        signal matches Some(s) ==> s <= i32::MAX - 128,
    ensures
        exit == match code {
            Some(c) => c as int,
            None => match signal {
                Some(s) => 128 + s,
                None => 128,
            },
        },
{
    match code {
        Some(c) => c,
        None => match signal {
            Some(s) => 128 + s,
            None => 128,
        },
    }
}

/// What a hook is told about the commit it runs for.
#[derive(Clone, Debug)]
pub struct HookContext {
    pub commit: String,
    pub worktree: String,
    pub env_dir: String,
    pub out_dir: String,
    pub project: String,
    pub run_dir: String,
    pub job: usize,
    pub extra_env: EnvMap,
    pub pin_envs: Option<String>,
    pub baseline: Option<String>,
    pub candidate: Option<String>,
}

/// A hook's exit code and whether it ran out of time.
#[derive(Clone, Copy, Debug, PartialEq, Eq, Structural)]
pub struct HookResult {
    pub code: i32,
    pub timed_out: bool,
}

pub open spec fn var(name: Seq<char>, value: Seq<char>) -> (Seq<char>, Seq<char>) {
    (name, value)
}

/// The environment a hook receives, in the order it is set: the
/// `BISECTRUNK_*` contract, the user's extra variables, then the pin
/// environments, baseline and candidate where present.
pub open spec fn contract_env(context: HookContext) -> Seq<(Seq<char>, Seq<char>)> {
    let short = short_text(context.commit@);
    seq![
        var("BISECTRUNK_COMMIT"@, context.commit@),
        var("BISECTRUNK_COMMIT_SHORT"@, short),
        var("BISECTRUNK_WORKTREE"@, context.worktree@),
        var("BISECTRUNK_ENV"@, context.env_dir@),
        var("BISECTRUNK_OUT"@, context.out_dir@),
        var("BISECTRUNK_PROJECT"@, context.project@),
        var("BISECTRUNK_JOB"@, decimal_text(context.job as nat)),
        var("BISECTRUNK_RUN_DIR"@, context.run_dir@),
    ] + context.extra_env.pairs() + optional_var("BISECTRUNK_PIN_ENVS"@, context.pin_envs)
        + optional_var("BISECTRUNK_BASELINE"@, context.baseline) + optional_var(
        "BISECTRUNK_CANDIDATE"@,
        context.candidate,
    )
}

pub open spec fn optional_var(name: Seq<char>, value: Option<String>) -> Seq<(Seq<char>, Seq<char>)> {
    match value {
        Some(v) => seq![(name, v@)],
        None => Seq::empty(),
    }
}

fn push_var(vars: &mut Vec<(String, String)>, name: &str, value: &str)
    ensures
        final(vars)@.len() == old(vars)@.len() + 1,
        forall|i: int| 0 <= i < old(vars)@.len() ==> final(vars)@[i] == old(vars)@[i],
        final(vars)@.last().0@ == name@,
        final(vars)@.last().1@ == value@,
{
    vars.push((name.to_string(), value.to_string()));
}

/// The views of environment pairs.
pub open spec fn pair_views(vars: Seq<(String, String)>) -> Seq<(Seq<char>, Seq<char>)> {
    vars.map_values(|p: (String, String)| (p.0@, p.1@))
}

/// The environment variables a hook runs with, in the order they are set
/// (a later assignment of a name wins).
pub fn contract_vars(context: &HookContext) -> (vars: Vec<(String, String)>)
    requires
        context.extra_env.well_formed(),
    ensures
        pair_views(vars@) == contract_env(*context),
{
    let mut vars: Vec<(String, String)> = Vec::new();
    let short = short_sha(context.commit.as_str());
    let job = decimal(context.job as u128);
    assert(pair_views(vars@) =~= Seq::empty());
    push_var(&mut vars, "BISECTRUNK_COMMIT", context.commit.as_str());
    push_var(&mut vars, "BISECTRUNK_COMMIT_SHORT", short);
    push_var(&mut vars, "BISECTRUNK_WORKTREE", context.worktree.as_str());
    push_var(&mut vars, "BISECTRUNK_ENV", context.env_dir.as_str());
    push_var(&mut vars, "BISECTRUNK_OUT", context.out_dir.as_str());
    push_var(&mut vars, "BISECTRUNK_PROJECT", context.project.as_str());
    push_var(&mut vars, "BISECTRUNK_JOB", job.as_str());
    push_var(&mut vars, "BISECTRUNK_RUN_DIR", context.run_dir.as_str());
    let ghost head = pair_views(vars@);
    let extra = context.extra_env.entries();
    let mut i: usize = 0;
    while i < extra.len()
        invariant
            i <= extra@.len(),
            extra@.map_values(|e: (String, String)| (e.0@, e.1@)) == context.extra_env.pairs(),
            pair_views(vars@) == head + context.extra_env.pairs().take(i as int),
        decreases extra@.len() - i,
    {
        let ghost before = pair_views(vars@);
        push_var(&mut vars, extra[i].0.as_str(), extra[i].1.as_str());
        proof {
            assert(pair_views(vars@) =~= before.push(context.extra_env.pairs()[i as int]));
            assert(context.extra_env.pairs().take(i + 1) =~= context.extra_env.pairs().take(i as int).push(context.extra_env.pairs()[i as int]));
            assert(pair_views(vars@) =~= head + context.extra_env.pairs().take(i + 1));
        }
        i = i + 1;
    }
    assert(context.extra_env.pairs().take(extra@.len() as int) =~= context.extra_env.pairs());
    let ghost body = pair_views(vars@);
    if let Some(pin_envs) = &context.pin_envs {
        push_var(&mut vars, "BISECTRUNK_PIN_ENVS", pin_envs.as_str());
    }
    assert(pair_views(vars@) =~= body + optional_var("BISECTRUNK_PIN_ENVS"@, context.pin_envs));
    let ghost body = pair_views(vars@);
    if let Some(baseline) = &context.baseline {
        push_var(&mut vars, "BISECTRUNK_BASELINE", baseline.as_str());
    }
    assert(pair_views(vars@) =~= body + optional_var("BISECTRUNK_BASELINE"@, context.baseline));
    let ghost body = pair_views(vars@);
    if let Some(candidate) = &context.candidate {
        push_var(&mut vars, "BISECTRUNK_CANDIDATE", candidate.as_str());
    }
    assert(pair_views(vars@) =~= body + optional_var("BISECTRUNK_CANDIDATE"@, context.candidate));
    assert(pair_views(vars@) =~= contract_env(*context));
    vars
}

} // verus!
