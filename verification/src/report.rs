use vstd::prelude::*;

use crate::oracle::Classification;
use crate::state::{Evaluation, Operation, RunState};
use crate::util::{join, join_path, push_text};

verus! {

/// A change of classification between two consecutive classified commits.
#[derive(Clone, Debug)]
pub struct Transition {
    pub from_sha: String,
    pub from: Classification,
    pub to_sha: String,
    pub to: Classification,
}

/// The transitions among the first `k` of `commits`, and the last commit
/// classified good or bad among them.
pub open spec fn transitions_upto(
    commits: Seq<String>,
    ledger: Map<Seq<char>, Evaluation>,
    k: int,
) -> (Seq<Transition>, Option<(String, Classification)>)
    decreases k,
{
    if k <= 0 {
        (Seq::empty(), None)
    } else {
        let (found, previous) = transitions_upto(commits, ledger, k - 1);
        let sha = commits[k - 1];
        if !ledger.contains_key(sha@) {
            (found, previous)
        } else {
            let class = ledger[sha@].classification;
            if class != Classification::Good && class != Classification::Bad {
                (found, previous)
            } else {
                let found2 = match previous {
                    Some((p, c)) => if c != class {
                        found.push(Transition { from_sha: p, from: c, to_sha: sha, to: class })
                    } else {
                        found
                    },
                    None => found,
                };
                (found2, Some((sha, class)))
            }
        }
    }
}

/// A classification that decides: good or bad.
pub open spec fn decisive(c: Classification) -> bool {
    c == Classification::Good || c == Classification::Bad
}

/// The reported transitions alternate: each changes between good and bad,
/// and each starts from the classification the previous one ended in.
pub proof fn lemma_transitions_alternate(commits: Seq<String>, ledger: Map<Seq<char>, Evaluation>, k: int)
    ensures
        ({
            let (found, previous) = transitions_upto(commits, ledger, k);
            &&& forall|i: int| 0 <= i < found.len() ==> decisive((#[trigger] found[i]).from) && decisive(found[i].to)
                && found[i].from != found[i].to
            &&& forall|i: int| 0 <= i < found.len() - 1 ==> (#[trigger] found[i + 1]).from == found[i].to
            &&& previous matches Some((_, c)) ==> decisive(c)
            &&& found.len() > 0 ==> (previous matches Some((_, c)) && c == found.last().to)
        }),
    decreases k,
{
    if k > 0 {
        lemma_transitions_alternate(commits, ledger, k - 1);
        let (found, previous) = transitions_upto(commits, ledger, k - 1);
        let (after, _) = transitions_upto(commits, ledger, k);
        if after.len() > found.len() {
            assert(after == found.push(after.last()));
            assert forall|i: int| 0 <= i < after.len() - 1 implies (#[trigger] after[i + 1]).from == after[i].to by {
                if i + 1 < found.len() {
                    assert(after[i + 1] == found[i + 1]);
                    assert(after[i] == found[i]);
                } else {
                    assert(after[i] == found[i]);
                }
            }
        }
    }
}

/// Commit `i` of `commits` has a recorded evaluation that is good or bad.
pub open spec fn decisive_at(commits: Seq<String>, ledger: Map<Seq<char>, Evaluation>, i: int) -> bool {
    0 <= i < commits.len() && ledger.contains_key(commits[i]@) && decisive(ledger[commits[i]@].classification)
}

/// The recorded classification of commit `i`.
pub open spec fn class_at(commits: Seq<String>, ledger: Map<Seq<char>, Evaluation>, i: int) -> Classification {
    ledger[commits[i]@].classification
}

/// Commits `i < j` are classified good or bad, and none between them is.
pub open spec fn adjacent_decisive(commits: Seq<String>, ledger: Map<Seq<char>, Evaluation>, i: int, j: int) -> bool {
    &&& 0 <= i < j
    &&& decisive_at(commits, ledger, i)
    &&& decisive_at(commits, ledger, j)
    &&& forall|q: int| i < q < j ==> !decisive_at(commits, ledger, q)
}

/// `t` is the change from commit `i` to commit `j`: adjacent decisive
/// commits with different classifications.
pub open spec fn joins(t: Transition, commits: Seq<String>, ledger: Map<Seq<char>, Evaluation>, i: int, j: int) -> bool {
    &&& adjacent_decisive(commits, ledger, i, j)
    &&& t.from_sha == commits[i]
    &&& t.to_sha == commits[j]
    &&& t.from == class_at(commits, ledger, i)
    &&& t.to == class_at(commits, ledger, j)
    &&& t.from != t.to
}

/// `t` joins two commits before position `bound`.
pub open spec fn joins_within(t: Transition, commits: Seq<String>, ledger: Map<Seq<char>, Evaluation>, bound: int) -> bool {
    exists|i: int, j: int| j < bound && #[trigger] joins(t, commits, ledger, i, j)
}

proof fn lemma_transitions_prefix(commits: Seq<String>, ledger: Map<Seq<char>, Evaluation>, k: int)
    requires
        0 <= k <= commits.len(),
    ensures
        ({
            let (found, previous) = transitions_upto(commits, ledger, k);
            &&& forall|a: int| 0 <= a < found.len() ==> #[trigger] joins_within(found[a], commits, ledger, k)
            &&& forall|i: int, j: int| j < k && adjacent_decisive(commits, ledger, i, j)
                && class_at(commits, ledger, i) != class_at(commits, ledger, j) ==> exists|a: int|
                0 <= a < found.len() && #[trigger] joins(found[a], commits, ledger, i, j)
            &&& previous is None ==> forall|q: int| 0 <= q < k ==> !decisive_at(commits, ledger, q)
            &&& previous matches Some((p, c)) ==> exists|m: int| #![trigger decisive_at(commits, ledger, m)]
                0 <= m < k && decisive_at(commits, ledger, m) && commits[m] == p && class_at(commits, ledger, m) == c
                && forall|q: int| m < q < k ==> !decisive_at(commits, ledger, q)
        }),
    decreases k,
{
    if k > 0 {
        lemma_transitions_prefix(commits, ledger, k - 1);
        let (found, previous) = transitions_upto(commits, ledger, k - 1);
        let (after, now) = transitions_upto(commits, ledger, k);
        let n = k - 1;
        if !decisive_at(commits, ledger, n) {
            assert(after == found && now == previous);
            assert forall|a: int| 0 <= a < after.len() implies #[trigger] joins_within(after[a], commits, ledger, k) by {
                assert(joins_within(found[a], commits, ledger, k - 1));
                let (i, j) = choose|i: int, j: int| j < k - 1 && #[trigger] joins(found[a], commits, ledger, i, j);
                assert(joins(after[a], commits, ledger, i, j));
            }
            assert forall|i: int, j: int| j < k && adjacent_decisive(commits, ledger, i, j)
                && class_at(commits, ledger, i) != class_at(commits, ledger, j) implies exists|a: int|
                0 <= a < after.len() && #[trigger] joins(after[a], commits, ledger, i, j) by {
                assert(j != n);
            }
            if let Some((p, c)) = now {
                let m = choose|m: int| #![trigger decisive_at(commits, ledger, m)]
                    0 <= m < k - 1 && decisive_at(commits, ledger, m) && commits[m] == p && class_at(commits, ledger, m) == c
                    && forall|q: int| m < q < k - 1 ==> !decisive_at(commits, ledger, q);
                assert(forall|q: int| m < q < k ==> !decisive_at(commits, ledger, q));
            }
        } else {
            let sha = commits[n];
            let class = class_at(commits, ledger, n);
            assert(now == Some((sha, class)));
            assert(decisive_at(commits, ledger, n));
            match previous {
                None => {
                    assert(after == found);
                    assert forall|a: int| 0 <= a < after.len() implies #[trigger] joins_within(after[a], commits, ledger, k) by {
                        assert(joins_within(found[a], commits, ledger, k - 1));
                let (i, j) = choose|i: int, j: int| j < k - 1 && #[trigger] joins(found[a], commits, ledger, i, j);
                        assert(joins(after[a], commits, ledger, i, j));
                    }
                    assert forall|i: int, j: int| j < k && adjacent_decisive(commits, ledger, i, j)
                        && class_at(commits, ledger, i) != class_at(commits, ledger, j) implies exists|a: int|
                        0 <= a < after.len() && #[trigger] joins(after[a], commits, ledger, i, j) by {
                        if j == n {
                            assert(decisive_at(commits, ledger, i));
                            assert(false);
                        }
                    }
                        },
                Some((p, c)) => {
                    let m = choose|m: int| #![trigger decisive_at(commits, ledger, m)]
                        0 <= m < k - 1 && decisive_at(commits, ledger, m) && commits[m] == p && class_at(commits, ledger, m) == c
                        && forall|q: int| m < q < k - 1 ==> !decisive_at(commits, ledger, q);
                    assert(adjacent_decisive(commits, ledger, m, n));
                    // The only decisive commit adjacent below `n` is `m`.
                    assert forall|i: int| adjacent_decisive(commits, ledger, i, n) implies i == m by {
                        if i < m {
                            assert(i < m < n);
                        } else if i > m {
                            assert(m < i < k - 1);
                        }
                    }
                    if c != class {
                        let t = Transition { from_sha: p, from: c, to_sha: sha, to: class };
                        assert(after == found.push(t));
                        assert(joins(t, commits, ledger, m, n));
                        assert forall|a: int| 0 <= a < after.len() implies #[trigger] joins_within(after[a], commits, ledger, k) by {
                            if a < found.len() {
                                assert(joins_within(found[a], commits, ledger, k - 1));
                let (i, j) = choose|i: int, j: int| j < k - 1 && #[trigger] joins(found[a], commits, ledger, i, j);
                                assert(after[a] == found[a]);
                                assert(joins(after[a], commits, ledger, i, j));
                            } else {
                                assert(after[a] == t);
                                assert(joins(after[a], commits, ledger, m, n));
                            }
                        }
                        assert forall|i: int, j: int| j < k && adjacent_decisive(commits, ledger, i, j)
                            && class_at(commits, ledger, i) != class_at(commits, ledger, j) implies exists|a: int|
                            0 <= a < after.len() && #[trigger] joins(after[a], commits, ledger, i, j) by {
                            if j == n {
                                assert(i == m);
                                assert(after[found.len() as int] == t);
                                assert(joins(after[found.len() as int], commits, ledger, i, j));
                            } else {
                                let a = choose|a: int| 0 <= a < found.len() && #[trigger] joins(found[a], commits, ledger, i, j);
                                assert(after[a] == found[a]);
                                assert(joins(after[a], commits, ledger, i, j));
                            }
                        }
                    } else {
                        assert(after == found);
                        assert forall|a: int| 0 <= a < after.len() implies #[trigger] joins_within(after[a], commits, ledger, k) by {
                            assert(joins_within(found[a], commits, ledger, k - 1));
                let (i, j) = choose|i: int, j: int| j < k - 1 && #[trigger] joins(found[a], commits, ledger, i, j);
                            assert(joins(after[a], commits, ledger, i, j));
                        }
                        assert forall|i: int, j: int| j < k && adjacent_decisive(commits, ledger, i, j)
                            && class_at(commits, ledger, i) != class_at(commits, ledger, j) implies exists|a: int|
                            0 <= a < after.len() && #[trigger] joins(after[a], commits, ledger, i, j) by {
                            if j == n {
                                assert(i == m);
                                assert(false);
                            }
                        }
                    }
                },
            }
        }
    }
}

/// The transitions of a scan are exactly the changes between neighbouring
/// decisive commits: each reported transition goes from a commit classified
/// good or bad to the next such commit along `commits` (nothing between them
/// is classified good or bad), with a different classification; and every
/// such pair of neighbours with different classifications is reported.
pub proof fn lemma_transitions_join_neighbours(commits: Seq<String>, ledger: Map<Seq<char>, Evaluation>)
    ensures
        ({
            let found = transitions_upto(commits, ledger, commits.len() as int).0;
            &&& forall|a: int| 0 <= a < found.len() ==> #[trigger] joins_within(found[a], commits, ledger, commits.len() as int)
            &&& forall|i: int, j: int| adjacent_decisive(commits, ledger, i, j)
                && class_at(commits, ledger, i) != class_at(commits, ledger, j) ==> exists|a: int|
                0 <= a < found.len() && #[trigger] joins(found[a], commits, ledger, i, j)
        }),
{
    let found = transitions_upto(commits, ledger, commits.len() as int).0;
    lemma_transitions_prefix(commits, ledger, commits.len() as int);
    assert forall|i: int, j: int| adjacent_decisive(commits, ledger, i, j)
        && class_at(commits, ledger, i) != class_at(commits, ledger, j) implies exists|a: int|
        0 <= a < found.len() && #[trigger] joins(found[a], commits, ledger, i, j) by {
        assert(j < commits.len());
    }
}

/// Every good-to-bad and bad-to-good change along `commits`, ignoring
/// commits without an evaluation or classified skip or abort.
pub fn transitions(commits: &[String], state: &RunState) -> (found: Vec<Transition>)
    requires
        state.evaluations.well_formed(),
    ensures
        found@ == transitions_upto(commits@, state.evaluations@, commits@.len() as int).0,
        // Each transition joins neighbouring decisive commits ...
        forall|a: int| 0 <= a < found@.len() ==> #[trigger] joins_within(found@[a], commits@, state.evaluations@, commits@.len() as int),
        // ... and every change between neighbouring decisive commits is reported.
        forall|i: int, j: int| adjacent_decisive(commits@, state.evaluations@, i, j)
            && class_at(commits@, state.evaluations@, i) != class_at(commits@, state.evaluations@, j) ==> exists|a: int|
            0 <= a < found@.len() && #[trigger] joins(found@[a], commits@, state.evaluations@, i, j),
{
    proof {
        lemma_transitions_join_neighbours(commits@, state.evaluations@);
    }
    let mut found: Vec<Transition> = Vec::new();
    let mut previous: Option<(String, Classification)> = None;
    let mut i: usize = 0;
    while i < commits.len()
        invariant
            i <= commits@.len(),
            state.evaluations.well_formed(),
            (found@, previous) == transitions_upto(commits@, state.evaluations@, i as int),
        decreases commits@.len() - i,
    {
        let sha = &commits[i];
        match state.evaluations.get(sha.as_str()) {
            None => {},
            Some(evaluation) => {
                let class = evaluation.classification;
                if class == Classification::Good || class == Classification::Bad {
                    match previous {
                        Some((previous_sha, previous_class)) => {
                            if previous_class != class {
                                found.push(Transition {
                                    from_sha: previous_sha,
                                    from: previous_class,
                                    to_sha: sha.clone(),
                                    to: class,
                                });
                            }
                        },
                        None => {},
                    }
                    previous = Some((sha.clone(), class));
                }
            },
        }
        i = i + 1;
    }
    found
}

/// `i` is the first change from good to bad among `found`.
pub open spec fn is_first_regression(found: Seq<Transition>, i: int) -> bool {
    &&& 0 <= i < found.len()
    &&& found[i].from == Classification::Good && found[i].to == Classification::Bad
    &&& forall|j: int| 0 <= j < i ==> !(found[j].from == Classification::Good && found[j].to == Classification::Bad)
}

/// The bisect that pins down a regression a sampled scan bracketed.
pub open spec fn follow_up_text(t: Transition) -> Seq<char> {
    "bisectrunk bisect --good "@ + t.from_sha@ + " --bad "@ + t.to_sha@
}

/// The follow-up command a sampled scan suggests: a bisect between the two
/// commits of the first good-to-bad transition it observed, if any.
pub fn follow_up_bisect(found: &Vec<Transition>) -> (command: Option<String>)
    ensures
        match command {
            Some(c) => exists|i: int| is_first_regression(found@, i) && c@ == follow_up_text(found@[i]),
            None => forall|i: int| 0 <= i < found@.len() ==> !(found@[i].from == Classification::Good
                && found@[i].to == Classification::Bad),
        },
{
    let mut i: usize = 0;
    while i < found.len()
        invariant
            i <= found@.len(),
            forall|j: int| 0 <= j < i ==> !(found@[j].from == Classification::Good && found@[j].to == Classification::Bad),
        decreases found@.len() - i,
    {
        let t = &found[i];
        if t.from == Classification::Good && t.to == Classification::Bad {
            let mut command = "bisectrunk bisect --good ".to_string();
            push_text(&mut command, t.from_sha.as_str());
            push_text(&mut command, " --bad ");
            push_text(&mut command, t.to_sha.as_str());
            assert(is_first_regression(found@, i as int));
            return Some(command);
        }
        i = i + 1;
    }
    None
}

/// The strategy's name in reports.
pub open spec fn strategy_label(operation: Operation) -> Seq<char> {
    match operation {
        Operation::Run { .. } => "run"@,
        Operation::Scan { .. } => "scan"@,
        Operation::Bisect { .. } => "bisect"@,
    }
}

/// The strategy's name in reports: `run`, `scan` or `bisect`.
pub fn strategy_name(operation: &Operation) -> (name: &'static str)
    ensures
        name@ == strategy_label(*operation),
{
    match operation {
        Operation::Run { .. } => "run",
        Operation::Scan { .. } => "scan",
        Operation::Bisect { .. } => "bisect",
    }
}

/// The commits an operation covers; none for a single-commit run.
pub fn operation_commits(operation: &Operation) -> (commits: &[String])
    ensures
        commits@ == match operation {
            Operation::Run { .. } => Seq::<String>::empty(),
            Operation::Scan { commits, .. } => commits@,
            Operation::Bisect { commits, .. } => commits@,
        },
{
    match operation {
        Operation::Run { .. } => {
            let empty: &[String] = &[];
            assert(empty@ =~= Seq::<String>::empty());
            empty
        },
        Operation::Scan { commits, .. } => commits.as_slice(),
        Operation::Bisect { commits, .. } => commits.as_slice(),
    }
}

/// The Markdown and JSON report paths inside a run directory.
pub fn report_paths(run_dir: &str) -> (paths: (String, String))
    ensures
        paths.0@ == join_path(run_dir@, "report.md"@),
        paths.1@ == join_path(run_dir@, "report.json"@),
{
    proof {
        reveal_strlit("report.md");
        reveal_strlit("report.json");
    }
    (join(run_dir, "report.md"), join(run_dir, "report.json"))
}

} // verus!
