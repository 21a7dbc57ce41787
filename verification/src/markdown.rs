use vstd::prelude::*;
use vstd::string::StrSliceExecFns;

use crate::oracle::class_name;
use crate::report::{operation_commits, strategy_label, strategy_name, transitions, transitions_upto, Transition};
use crate::state::{Conclusion, Evaluation, Operation, RoundRecord, RunPlan, RunState};
use crate::util::{
    decimal, decimal_text, lemma_text_order_total, push_text, short_sha, short_text, signed_decimal, signed_decimal_text,
    text_at_most, text_le, text_order,
};

verus! {

/// The text `humantime::format_duration` writes for a number of
/// milliseconds.
pub uninterp spec fn human_duration(millis: u64) -> Seq<char>;

/// `humantime::format_duration` of `millis` milliseconds, as text.
#[verifier::external_body]
pub(crate) fn format_millis(millis: u64) -> (text: String)
    ensures
        text@ == human_duration(millis),
{
    humantime::format_duration(std::time::Duration::from_millis(millis)).to_string()
}

/// The commits an operation covers.
pub open spec fn commits_of(operation: Operation) -> Seq<String> {
    match operation {
        Operation::Run { .. } => Seq::empty(),
        Operation::Scan { commits, .. } => commits@,
        Operation::Bisect { commits, .. } => commits@,
    }
}

/// The recorded evaluations of `commits`, in commit order.
pub open spec fn recorded_along(commits: Seq<String>, ledger: Map<Seq<char>, Evaluation>) -> Seq<Evaluation>
    decreases commits.len(),
{
    if commits.len() == 0 {
        Seq::empty()
    } else {
        let rest = recorded_along(commits.drop_last(), ledger);
        let sha = commits.last()@;
        if ledger.contains_key(sha) {
            rest.push(ledger[sha])
        } else {
            rest
        }
    }
}

/// The SHAs of the recorded evaluations, in recording order.
pub open spec fn recorded_shas(state: RunState) -> Seq<Seq<char>> {
    state.evaluations.entries().map_values(|e: Evaluation| e.sha@)
}

/// Every recorded evaluation, ordered by SHA.
pub open spec fn by_sha(state: RunState) -> Seq<Evaluation> {
    recorded_shas(state).sort_by(text_order()).map_values(|sha: Seq<char>| state.evaluations@[sha])
}

/// The evaluations a report lists: those of the operation's commits in
/// commit order, or, for a single-commit run, every recorded one ordered by
/// SHA.
pub open spec fn report_selection(commits: Seq<String>, state: RunState) -> Seq<Evaluation> {
    if commits.len() == 0 {
        by_sha(state)
    } else {
        recorded_along(commits, state.evaluations@)
    }
}

/// The SHAs of `evaluations`, in order.
pub open spec fn shas_of(evaluations: Seq<Evaluation>) -> Seq<Seq<char>> {
    evaluations.map_values(|e: Evaluation| e.sha@)
}

/// Inserting into a sequence adds the item to its multiset.
proof fn lemma_insert_multiset<A>(s: Seq<A>, p: int, x: A)
    requires
        0 <= p <= s.len(),
    ensures
        s.insert(p, x).to_multiset() =~= s.to_multiset().insert(x),
{
    broadcast use vstd::seq_lib::group_to_multiset_ensures;
    broadcast use vstd::multiset::group_multiset_axioms;

    assert(s.insert(p, x) =~= s.take(p).push(x) + s.skip(p));
    assert(s =~= s.take(p) + s.skip(p));
    vstd::seq_lib::lemma_multiset_commutative(s.take(p).push(x), s.skip(p));
    vstd::seq_lib::lemma_multiset_commutative(s.take(p), s.skip(p));
}

/// Every recorded evaluation, ordered by SHA: an insertion sort.
fn evaluations_by_sha(state: &RunState) -> (selected: Vec<Evaluation>)
    requires
        state.evaluations.well_formed(),
    ensures
        selected@ == by_sha(*state),
{
    let values = state.evaluations.values();
    proof {
        state.evaluations.lemma_view_of_entries();
        lemma_text_order_total();
    }
    let ghost ledger = state.evaluations@;
    let ghost all = shas_of(values@);
    let mut selected: Vec<Evaluation> = Vec::new();
    assert forall|j: int| 0 <= j < values@.len() implies ledger[#[trigger] values@[j].sha@] == values@[j] by {
        assert(state.evaluations@.contains_key(state.evaluations.entries()[j].sha@));
    }
    assert(shas_of(selected@) =~= Seq::<Seq<char>>::empty());
    assert(all.take(0) =~= Seq::<Seq<char>>::empty());
    let mut i: usize = 0;
    while i < values.len()
        invariant
            i <= values@.len(),
            values@ == state.evaluations.entries(),
            all == shas_of(values@),
            ledger == state.evaluations@,
            forall|j: int| 0 <= j < values@.len() ==> ledger[#[trigger] values@[j].sha@] == values@[j],
            vstd::relations::total_ordering(text_order()),
            vstd::relations::sorted_by(shas_of(selected@), text_order()),
            shas_of(selected@).to_multiset() == all.take(i as int).to_multiset(),
            forall|j: int| 0 <= j < selected@.len() ==> #[trigger] selected@[j] == ledger[selected@[j].sha@],
        decreases values@.len() - i,
    {
        let e = &values[i];
        let ghost before = selected@;
        let mut p: usize = 0;
        while p < selected.len() && text_at_most(selected[p].sha.as_str(), e.sha.as_str())
            invariant
                p <= selected@.len(),
                selected@ == before,
                forall|j: int| 0 <= j < p ==> text_le(#[trigger] selected@[j].sha@, e.sha@),
            decreases selected@.len() - p,
        {
            p = p + 1;
        }
        let ghost key = e.sha@;
        selected.insert(p, e.duplicate());
        proof {
            let keys = shas_of(before);
            assert(shas_of(selected@) =~= keys.insert(p as int, key));
            if p < before.len() {
                assert(!text_le(keys[p as int], key));
                assert(text_order()(keys[p as int], key) || text_order()(key, keys[p as int]));
                assert(text_order()(key, keys[p as int]));
            }
            assert forall|a: int, b: int| 0 <= a < b < selected@.len() implies #[trigger] text_order()(
                shas_of(selected@)[a],
                shas_of(selected@)[b],
            ) by {
                if b < p {
                    assert(text_order()(keys[a], keys[b]));
                } else if b == p {
                    assert(text_le(before[a].sha@, key));
                } else {
                    // b > p: the later text is keys[b - 1], no earlier than key.
                    assert(text_order()(key, keys[p as int]));
                    if b - 1 > p {
                        assert(text_order()(keys[p as int], keys[b - 1]));
                        assert(text_order()(key, keys[b - 1]));
                    }
                    assert(text_order()(key, keys[b - 1]));
                    if a < p {
                        assert(text_order()(keys[a], key));
                        assert(text_order()(keys[a], keys[b - 1]));
                    } else if a > p {
                        assert(text_order()(keys[a - 1], keys[b - 1]));
                    }
                }
            }
            lemma_insert_multiset(keys, p as int, key);
            assert(all.take(i + 1) =~= all.take(i as int).push(key));
            vstd::seq_lib::to_multiset_build(all.take(i as int), key);
        }
        i = i + 1;
    }
    proof {
        assert(all.take(values@.len() as int) =~= all);
        assert(all =~= recorded_shas(*state));
        all.lemma_sort_by_ensures(text_order());
        vstd::seq_lib::lemma_sorted_unique(shas_of(selected@), all.sort_by(text_order()), text_order());
        assert(selected@ =~= by_sha(*state));
    }
    selected
}

/// The evaluations a report lists.
pub fn report_evaluations(commits: &[String], state: &RunState) -> (selected: Vec<Evaluation>)
    requires
        state.evaluations.well_formed(),
    ensures
        selected@ == report_selection(commits@, *state),
{
    if commits.len() == 0 {
        return evaluations_by_sha(state);
    }
    let mut selected: Vec<Evaluation> = Vec::new();
    let mut i: usize = 0;
    while i < commits.len()
        invariant
            i <= commits@.len(),
            state.evaluations.well_formed(),
            selected@ == recorded_along(commits@.take(i as int), state.evaluations@),
        decreases commits@.len() - i,
    {
        assert(commits@.take(i + 1).drop_last() =~= commits@.take(i as int));
        match state.evaluations.get(commits[i].as_str()) {
            Some(evaluation) => selected.push(evaluation.duplicate()),
            None => {},
        }
        i = i + 1;
    }
    assert(commits@.take(commits@.len() as int) =~= commits@);
    selected
}

pub open spec fn header_text(repo: Seq<char>, strategy: Seq<char>, state: RunState) -> Seq<char> {
    "# bisectrunk report\n\n- Subject repo: `"@ + repo + "`\n- Strategy: `"@ + strategy + "`\n- Started: "@
        + state.started_at@ + "\n- Updated: "@ + state.updated_at@ + "\n\n"@
}

pub open spec fn operation_text(operation: Operation) -> Seq<char> {
    match operation {
        Operation::Scan { range, .. } => "- Range: `"@ + range@ + "`\n\n"@,
        Operation::Bisect { good, bad, .. } => "- Range: `"@ + good@ + ".."@ + bad@ + "`\n\n"@,
        Operation::Run { at } => "- Commit: `"@ + at@ + "`\n\n"@,
    }
}

pub open spec fn round_lines(rounds: Seq<RoundRecord>) -> Seq<char>
    decreases rounds.len(),
{
    if rounds.len() == 0 {
        Seq::empty()
    } else {
        round_lines(rounds.drop_last()) + decimal_text(rounds.last().number as nat) + ". "@
            + rounds.last().narrative@ + "\n"@
    }
}

pub open spec fn rounds_text(rounds: Seq<RoundRecord>) -> Seq<char> {
    if rounds.len() == 0 {
        Seq::empty()
    } else {
        "## Rounds\n\n"@ + round_lines(rounds) + "\n"@
    }
}

/// A duration in milliseconds, capped at `u64::MAX`.
pub open spec fn capped_millis(millis: u128) -> u64 {
    if millis > u64::MAX as u128 {
        u64::MAX
    } else {
        millis as u64
    }
}

pub open spec fn evaluation_row(e: Evaluation) -> Seq<char> {
    "| `"@ + short_text(e.sha@) + "` | "@ + class_name(e.classification) + " | "@ + signed_decimal_text(
        e.exit_code as int,
    ) + " | "@ + human_duration(capped_millis(e.duration_ms)) + " |\n"@
}

pub open spec fn evaluation_rows(evaluations: Seq<Evaluation>) -> Seq<char>
    decreases evaluations.len(),
{
    if evaluations.len() == 0 {
        Seq::empty()
    } else {
        evaluation_rows(evaluations.drop_last()) + evaluation_row(evaluations.last())
    }
}

pub open spec fn evaluations_text(evaluations: Seq<Evaluation>) -> Seq<char> {
    "## Evaluations\n\n| SHA | Classification | Exit code | Duration |\n|---|---:|---:|---:|\n"@ + evaluation_rows(
        evaluations,
    )
}

pub open spec fn transition_line(t: Transition) -> Seq<char> {
    "- `"@ + short_text(t.from_sha@) + "` "@ + class_name(t.from) + " → `"@ + short_text(t.to_sha@) + "` "@
        + class_name(t.to) + "\n"@
}

pub open spec fn transition_lines(found: Seq<Transition>) -> Seq<char>
    decreases found.len(),
{
    if found.len() == 0 {
        Seq::empty()
    } else {
        transition_lines(found.drop_last()) + transition_line(found.last())
    }
}

pub open spec fn transitions_text(found: Seq<Transition>) -> Seq<char> {
    "\n## Transitions\n\n"@ + if found.len() == 0 {
        "No classification transitions found.\n"@
    } else {
        transition_lines(found)
    }
}

pub open spec fn candidate_lines(candidates: Seq<String>) -> Seq<char>
    decreases candidates.len(),
{
    if candidates.len() == 0 {
        Seq::empty()
    } else {
        candidate_lines(candidates.drop_last()) + "- `"@ + candidates.last()@ + "`\n"@
    }
}

pub open spec fn conclusion_text(conclusion: Option<Conclusion>) -> Seq<char> {
    match conclusion {
        None => Seq::empty(),
        Some(c) => "\n## Conclusion\n\n"@ + if c.candidates@.len() == 0 {
            "First bad commit: `"@ + c.first_bad@ + "`\n\nLast good commit: `"@ + c.last_good@ + "`\n"@
                + match c.first_bad_metadata {
                Some(m) => "\nFirst bad details: "@ + m.author@ + " — "@ + m.date@ + " — "@ + m.subject@ + "\n"@,
                None => Seq::empty(),
            }
        } else {
            "The first bad commit is one of:\n\n"@ + candidate_lines(c.candidates@)
        },
    }
}

pub open spec fn savings_text(evaluated: nat, total: nat) -> Seq<char> {
    "\n## Savings\n\n"@ + decimal_text(evaluated) + " evaluations instead of "@ + decimal_text(total) + " (saved "@
        + decimal_text(
        if total > evaluated {
            (total - evaluated) as nat
        } else {
            0
        },
    ) + ").\n"@
}

/// A diff inside a fenced block ends with a line break.
pub open spec fn fenced(diff: Seq<char>) -> Seq<char> {
    if diff.len() > 0 && diff.last() == '\n' {
        diff
    } else {
        diff + "\n"@
    }
}

/// The diff blocks of the listed evaluations that carry one.
pub open spec fn diff_blocks(evaluations: Seq<Evaluation>) -> Seq<char>
    decreases evaluations.len(),
{
    if evaluations.len() == 0 {
        Seq::empty()
    } else {
        let e = evaluations.last();
        diff_blocks(evaluations.drop_last()) + match e.diff {
            Some(d) => "\n### `"@ + short_text(e.sha@) + "`\n\n```diff\n"@ + fenced(d@) + "```\n"@,
            None => Seq::empty(),
        }
    }
}

/// Some listed evaluation carries a diff.
pub open spec fn any_diff(evaluations: Seq<Evaluation>) -> bool {
    exists|i: int| 0 <= i < evaluations.len() && (#[trigger] evaluations[i]).diff is Some
}

/// The section showing how differing artifacts differed from the baseline.
pub open spec fn diffs_text(evaluations: Seq<Evaluation>) -> Seq<char> {
    if any_diff(evaluations) {
        "\n## Artifact differences\n"@ + diff_blocks(evaluations)
    } else {
        Seq::empty()
    }
}

/// The Markdown report of a run.
pub open spec fn markdown_text(plan: RunPlan, state: RunState) -> Seq<char> {
    let commits = commits_of(plan.operation);
    header_text(plan.config.subject.repo@, strategy_label(plan.operation), state) + operation_text(plan.operation)
        + rounds_text(state.rounds@) + evaluations_text(report_selection(commits, state)) + transitions_text(
        transitions_upto(commits, state.evaluations@, commits.len() as int).0,
    ) + conclusion_text(state.conclusion) + savings_text(state.evaluations@.len(), commits.len()) + diffs_text(
        report_selection(commits, state),
    )
}

fn push_rounds(out: &mut String, rounds: &Vec<RoundRecord>)
    ensures
        final(out)@ == old(out)@ + rounds_text(rounds@),
{
    if rounds.len() == 0 {
        assert(old(out)@ + rounds_text(rounds@) =~= old(out)@);
        return;
    }
    let ghost start = out@;
    push_text(out, "## Rounds\n\n");
    let ghost head = out@;
    let mut i: usize = 0;
    while i < rounds.len()
        invariant
            i <= rounds@.len(),
            out@ == head + round_lines(rounds@.take(i as int)),
        decreases rounds@.len() - i,
    {
        let round = &rounds[i];
        let number = decimal(round.number as u128);
        push_text(out, number.as_str());
        push_text(out, ". ");
        push_text(out, round.narrative.as_str());
        push_text(out, "\n");
        proof {
            assert(rounds@.take(i + 1).drop_last() =~= rounds@.take(i as int));
        }
        assert(out@ =~= head + round_lines(rounds@.take(i + 1)));
        i = i + 1;
    }
    assert(rounds@.take(rounds@.len() as int) =~= rounds@);
    push_text(out, "\n");
    assert(out@ =~= start + rounds_text(rounds@));
}

#[verifier::rlimit(40)]
fn push_evaluations(out: &mut String, evaluations: &Vec<Evaluation>)
    ensures
        final(out)@ == old(out)@ + evaluations_text(evaluations@),
{
    push_text(out, "## Evaluations\n\n| SHA | Classification | Exit code | Duration |\n|---|---:|---:|---:|\n");
    let ghost head = out@;
    let mut i: usize = 0;
    while i < evaluations.len()
        invariant
            i <= evaluations@.len(),
            out@ == head + evaluation_rows(evaluations@.take(i as int)),
        decreases evaluations@.len() - i,
    {
        let e = &evaluations[i];
        let millis: u64 = if e.duration_ms > u64::MAX as u128 {
            u64::MAX
        } else {
            e.duration_ms as u64
        };
        let code = signed_decimal(e.exit_code as i128);
        let duration = format_millis(millis);
        push_text(out, "| `");
        push_text(out, short_sha(e.sha.as_str()));
        push_text(out, "` | ");
        push_text(out, e.classification.name());
        push_text(out, " | ");
        push_text(out, code.as_str());
        push_text(out, " | ");
        push_text(out, duration.as_str());
        push_text(out, " |\n");
        proof {
            assert(evaluations@.take(i + 1).drop_last() =~= evaluations@.take(i as int));
        }
        assert(out@ =~= head + evaluation_rows(evaluations@.take(i + 1)));
        i = i + 1;
    }
    assert(evaluations@.take(evaluations@.len() as int) =~= evaluations@);
}

#[verifier::rlimit(40)]
fn push_transitions(out: &mut String, found: &Vec<Transition>)
    ensures
        final(out)@ == old(out)@ + transitions_text(found@),
{
    push_text(out, "\n## Transitions\n\n");
    if found.len() == 0 {
        push_text(out, "No classification transitions found.\n");
        return;
    }
    let ghost head = out@;
    let mut i: usize = 0;
    while i < found.len()
        invariant
            i <= found@.len(),
            out@ == head + transition_lines(found@.take(i as int)),
        decreases found@.len() - i,
    {
        let t = &found[i];
        push_text(out, "- `");
        push_text(out, short_sha(t.from_sha.as_str()));
        push_text(out, "` ");
        push_text(out, t.from.name());
        push_text(out, " → `");
        push_text(out, short_sha(t.to_sha.as_str()));
        push_text(out, "` ");
        push_text(out, t.to.name());
        push_text(out, "\n");
        proof {
            assert(found@.take(i + 1).drop_last() =~= found@.take(i as int));
        }
        assert(out@ =~= head + transition_lines(found@.take(i + 1)));
        i = i + 1;
    }
    assert(found@.take(found@.len() as int) =~= found@);
}

fn push_conclusion(out: &mut String, conclusion: &Option<Conclusion>)
    ensures
        final(out)@ == old(out)@ + conclusion_text(*conclusion),
{
    let c = match conclusion {
        None => {
            assert(old(out)@ + conclusion_text(*conclusion) =~= old(out)@);
            return;
        },
        Some(c) => c,
    };
    let ghost start = out@;
    push_text(out, "\n## Conclusion\n\n");
    let ghost head = out@;
    if c.candidates.len() == 0 {
        push_text(out, "First bad commit: `");
        push_text(out, c.first_bad.as_str());
        push_text(out, "`\n\nLast good commit: `");
        push_text(out, c.last_good.as_str());
        push_text(out, "`\n");
        let ghost body = out@;
        match &c.first_bad_metadata {
            Some(m) => {
                push_text(out, "\nFirst bad details: ");
                push_text(out, m.author.as_str());
                push_text(out, " — ");
                push_text(out, m.date.as_str());
                push_text(out, " — ");
                push_text(out, m.subject.as_str());
                push_text(out, "\n");
            },
            None => {
                assert(body =~= body + Seq::<char>::empty());
            },
        }
        assert(out@ =~= start + conclusion_text(*conclusion));
    } else {
        push_text(out, "The first bad commit is one of:\n\n");
        let ghost lines_start = out@;
        let mut i: usize = 0;
        while i < c.candidates.len()
            invariant
                i <= c.candidates@.len(),
                out@ == lines_start + candidate_lines(c.candidates@.take(i as int)),
            decreases c.candidates@.len() - i,
        {
            push_text(out, "- `");
            push_text(out, c.candidates[i].as_str());
            push_text(out, "`\n");
            proof {
                assert(c.candidates@.take(i + 1).drop_last() =~= c.candidates@.take(i as int));
            }
            assert(out@ =~= lines_start + candidate_lines(c.candidates@.take(i + 1)));
            i = i + 1;
        }
        assert(c.candidates@.take(c.candidates@.len() as int) =~= c.candidates@);
        assert(out@ =~= start + conclusion_text(*conclusion));
    }
}

fn push_savings(out: &mut String, evaluated: usize, total: usize)
    ensures
        final(out)@ == old(out)@ + savings_text(evaluated as nat, total as nat),
{
    let saved: usize = if total > evaluated {
        total - evaluated
    } else {
        0
    };
    let evaluated_text = decimal(evaluated as u128);
    let total_text = decimal(total as u128);
    let saved_text = decimal(saved as u128);
    let ghost start = out@;
    push_text(out, "\n## Savings\n\n");
    push_text(out, evaluated_text.as_str());
    push_text(out, " evaluations instead of ");
    push_text(out, total_text.as_str());
    push_text(out, " (saved ");
    push_text(out, saved_text.as_str());
    push_text(out, ").\n");
    assert(out@ =~= start + savings_text(evaluated as nat, total as nat));
}

fn push_diffs(out: &mut String, evaluations: &Vec<Evaluation>)
    ensures
        final(out)@ == old(out)@ + diffs_text(evaluations@),
{
    let ghost start = out@;
    let mut found = false;
    let mut k: usize = 0;
    while k < evaluations.len()
        invariant
            k <= evaluations@.len(),
            found == exists|i: int| 0 <= i < k && (#[trigger] evaluations@[i]).diff is Some,
        decreases evaluations@.len() - k,
    {
        if evaluations[k].diff.is_some() {
            found = true;
        }
        k = k + 1;
    }
    if !found {
        assert(!any_diff(evaluations@));
        assert(out@ =~= start + diffs_text(evaluations@));
        return;
    }
    push_text(out, "\n## Artifact differences\n");
    let ghost head = out@;
    let mut i: usize = 0;
    while i < evaluations.len()
        invariant
            i <= evaluations@.len(),
            out@ == head + diff_blocks(evaluations@.take(i as int)),
        decreases evaluations@.len() - i,
    {
        let e = &evaluations[i];
        let ghost before = out@;
        match &e.diff {
            Some(d) => {
                push_text(out, "\n### `");
                push_text(out, short_sha(e.sha.as_str()));
                push_text(out, "`\n\n```diff\n");
                push_text(out, d.as_str());
                let n = d.as_str().unicode_len();
                if n == 0 || d.as_str().get_char(n - 1) != '\n' {
                    push_text(out, "\n");
                }
                push_text(out, "```\n");
            },
            None => {},
        }
        proof {
            assert(evaluations@.take(i + 1).drop_last() =~= evaluations@.take(i as int));
        }
        assert(out@ =~= head + diff_blocks(evaluations@.take(i + 1)));
        i = i + 1;
    }
    assert(evaluations@.take(evaluations@.len() as int) =~= evaluations@);
    assert(any_diff(evaluations@));
    assert(out@ =~= start + diffs_text(evaluations@));
}

/// Renders the Markdown report: header, range, rounds, a table of the
/// listed evaluations, classification transitions, the conclusion, how
/// many evaluations the strategy saved, and the artifact diffs.
pub fn markdown(plan: &RunPlan, state: &RunState) -> (text: String)
    requires
        state.evaluations.well_formed(),
    ensures
        text@ == markdown_text(*plan, *state),
{
    let commits = operation_commits(&plan.operation);
    let evaluations = report_evaluations(commits, state);
    let found = transitions(commits, state);
    let mut out = "# bisectrunk report\n\n- Subject repo: `".to_string();
    push_text(&mut out, plan.config.subject.repo.as_str());
    push_text(&mut out, "`\n- Strategy: `");
    push_text(&mut out, strategy_name(&plan.operation));
    push_text(&mut out, "`\n- Started: ");
    push_text(&mut out, state.started_at.as_str());
    push_text(&mut out, "\n- Updated: ");
    push_text(&mut out, state.updated_at.as_str());
    push_text(&mut out, "\n\n");
    let ghost header = out@;
    match &plan.operation {
        Operation::Scan { range, .. } => {
            push_text(&mut out, "- Range: `");
            push_text(&mut out, range.as_str());
            push_text(&mut out, "`\n\n");
        },
        Operation::Bisect { good, bad, .. } => {
            push_text(&mut out, "- Range: `");
            push_text(&mut out, good.as_str());
            push_text(&mut out, "..");
            push_text(&mut out, bad.as_str());
            push_text(&mut out, "`\n\n");
        },
        Operation::Run { at } => {
            push_text(&mut out, "- Commit: `");
            push_text(&mut out, at.as_str());
            push_text(&mut out, "`\n\n");
        },
    }
    assert(out@ =~= header + operation_text(plan.operation));
    push_rounds(&mut out, &state.rounds);
    push_evaluations(&mut out, &evaluations);
    push_transitions(&mut out, &found);
    push_conclusion(&mut out, &state.conclusion);
    let evaluated = state.evaluations.len();
    push_savings(&mut out, evaluated, commits.len());
    push_diffs(&mut out, &evaluations);
    assert(out@ =~= markdown_text(*plan, *state));
    out
}

} // verus!
