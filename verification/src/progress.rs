use vstd::prelude::*;

use crate::cli::OutputFormat;
use crate::markdown::{capped_millis, format_millis, human_duration};
use crate::oracle::class_name;
use crate::state::Evaluation;
use crate::util::{push_text, short_sha, short_text, signed_decimal, signed_decimal_text};

verus! {

/// The output mode in effect: `auto` draws progress bars only on a
/// terminal and falls back to plain lines elsewhere.
pub fn resolve_format(format: OutputFormat, stderr_is_terminal: bool) -> (resolved: OutputFormat)
    ensures
        resolved == (if format == OutputFormat::Auto && !stderr_is_terminal {
            OutputFormat::Plain
        } else {
            format
        }),
{
    if format == OutputFormat::Auto && !stderr_is_terminal {
        OutputFormat::Plain
    } else {
        format
    }
}

/// A worker's status message: the abbreviated commit and what it is doing.
pub fn phase_message(sha: &str, phase: &str) -> (message: String)
    ensures
        message@ == short_text(sha@) + " "@ + phase@,
{
    let mut message = short_sha(sha).to_string();
    push_text(&mut message, " ");
    push_text(&mut message, phase);
    message
}

/// The plain-text line of a finished evaluation.
pub open spec fn evaluation_line_text(evaluation: Evaluation, cached: bool) -> Seq<char> {
    short_text(evaluation.sha@) + " "@ + class_name(evaluation.classification) + " (exit "@ + signed_decimal_text(
        evaluation.exit_code as int,
    ) + ", "@ + human_duration(capped_millis(evaluation.duration_ms)) + (if cached {
        " cached"@
    } else {
        Seq::empty()
    }) + ")"@
}

/// `<short sha> <classification> (exit <code>, <duration>[ cached])`.
pub fn evaluation_line(evaluation: &Evaluation, cached: bool) -> (line: String)
    ensures
        line@ == evaluation_line_text(*evaluation, cached),
{
    let millis: u64 = if evaluation.duration_ms > u64::MAX as u128 {
        u64::MAX
    } else {
        evaluation.duration_ms as u64
    };
    let code = signed_decimal(evaluation.exit_code as i128);
    let duration = format_millis(millis);
    let mut line = short_sha(evaluation.sha.as_str()).to_string();
    push_text(&mut line, " ");
    push_text(&mut line, evaluation.classification.name());
    push_text(&mut line, " (exit ");
    push_text(&mut line, code.as_str());
    push_text(&mut line, ", ");
    push_text(&mut line, duration.as_str());
    let ghost before = line@;
    if cached {
        push_text(&mut line, " cached");
    } else {
        assert(before =~= before + Seq::<char>::empty());
    }
    push_text(&mut line, ")");
    line
}

} // verus!
