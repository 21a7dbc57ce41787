use vstd::prelude::*;
use vstd::string::StringSliceAdditionalSpecFns;

use crate::oracle::Classification;

verus! {

/// The outcome of evaluating one commit.
#[derive(Clone, Debug)]
pub struct Evaluation {
    pub sha: String,
    pub classification: Classification,
    pub exit_code: i32,
    pub duration_ms: u128,
    pub completed_at: String,
    pub setup_exit_code: Option<i32>,
    pub log_dir: String,
    pub out_dir: String,
    pub diff: Option<String>,
}

impl Evaluation {
    /// A copy of the evaluation.
    pub fn duplicate(&self) -> (copy: Evaluation)
        ensures
            copy == *self,
    {
        let diff = match &self.diff {
            Some(d) => Some(d.clone()),
            None => None,
        };
        Evaluation {
            sha: self.sha.clone(),
            classification: self.classification,
            exit_code: self.exit_code,
            duration_ms: self.duration_ms,
            completed_at: self.completed_at.clone(),
            setup_exit_code: self.setup_exit_code,
            log_dir: self.log_dir.clone(),
            out_dir: self.out_dir.clone(),
            diff,
        }
    }
}

/// The evaluation ledger: at most one evaluation per commit SHA, kept in the
/// order in which the commits were first recorded.
#[derive(Clone, Debug)]
pub struct Evaluations {
    entries: Vec<Evaluation>,
}

/// No SHA occurs twice among the entries.
pub open spec fn unique_shas(entries: Seq<Evaluation>) -> bool {
    forall|i: int, j: int|
        0 <= i < entries.len() && 0 <= j < entries.len() && i != j ==> entries[i].sha@
            != entries[j].sha@
}

/// The position of the entry recorded for `sha`, if any.
pub open spec fn has_sha_at(entries: Seq<Evaluation>, sha: Seq<char>, i: int) -> bool {
    0 <= i < entries.len() && entries[i].sha@ == sha
}

impl View for Evaluations {
    type V = Map<Seq<char>, Evaluation>;

    closed spec fn view(&self) -> Map<Seq<char>, Evaluation> {
        Map::new(
            |sha: Seq<char>| exists|i: int| has_sha_at(self.entries@, sha, i),
            |sha: Seq<char>| self.entries@[choose|i: int| has_sha_at(self.entries@, sha, i)],
        )
    }
}

impl Evaluations {
    /// Every SHA is recorded at most once.
    pub closed spec fn well_formed(&self) -> bool {
        unique_shas(self.entries@)
    }

    /// The recorded evaluations, in recording order.
    pub closed spec fn entries(&self) -> Seq<Evaluation> {
        self.entries@
    }

    /// The ledger's map is exactly the entries keyed by SHA.
    pub proof fn lemma_view_of_entries(&self)
        requires
            self.well_formed(),
        ensures
            forall|i: int|
                0 <= i < self.entries().len() ==> #[trigger] self@.contains_key(
                    self.entries()[i].sha@,
                ) && self@[self.entries()[i].sha@] == self.entries()[i],
            forall|sha: Seq<char>| #[trigger]
                self@.contains_key(sha) ==> exists|i: int|
                    0 <= i < self.entries().len() && self.entries()[i].sha@ == sha,
            self@.dom().finite(),
            self@.len() == self.entries().len(),
    {
        assert forall|i: int| 0 <= i < self.entries().len() implies #[trigger] self@.contains_key(
            self.entries()[i].sha@,
        ) && self@[self.entries()[i].sha@] == self.entries()[i] by {
            assert(has_sha_at(self.entries@, self.entries@[i].sha@, i));
            let j = choose|j: int| has_sha_at(self.entries@, self.entries@[i].sha@, j);
            assert(j == i);
        }
        lemma_keys_finite(self.entries@);
    }

    pub fn new() -> (ledger: Self)
        ensures
            ledger.well_formed(),
            ledger@ == Map::<Seq<char>, Evaluation>::empty(),
    {
        let ledger = Evaluations { entries: Vec::new() };
        assert(ledger@ =~= Map::<Seq<char>, Evaluation>::empty());
        ledger
    }

    fn position(&self, sha: &str) -> (pos: Option<usize>)
        requires
            self.well_formed(),
        ensures
            match pos {
                Some(i) => has_sha_at(self.entries@, sha@, i as int),
                None => !self@.contains_key(sha@),
            },
    {
        let mut i: usize = 0;
        while i < self.entries.len()
            invariant
                i <= self.entries@.len(),
                forall|j: int| 0 <= j < i ==> self.entries@[j].sha@ != sha@,
            decreases self.entries@.len() - i,
        {
            if str_equal(self.entries[i].sha.as_str(), sha) {
                return Some(i);
            }
            i = i + 1;
        }
        None
    }

    /// The evaluation recorded for `sha`.
    pub fn get(&self, sha: &str) -> (found: Option<&Evaluation>)
        requires
            self.well_formed(),
        ensures
            match found {
                Some(e) => self@.contains_key(sha@) && self@[sha@] == *e,
                None => !self@.contains_key(sha@),
            },
    {
        match self.position(sha) {
            Some(i) => {
                proof {
                    self.lemma_view_of_entries();
                }
                Some(&self.entries[i])
            },
            None => None,
        }
    }

    /// Whether an evaluation is recorded for `sha`.
    pub fn contains_key(&self, sha: &str) -> (found: bool)
        requires
            self.well_formed(),
        ensures
            found == self@.contains_key(sha@),
    {
        proof {
            self.lemma_view_of_entries();
        }
        self.position(sha).is_some()
    }

    /// The number of recorded evaluations.
    pub fn len(&self) -> (n: usize)
        requires
            self.well_formed(),
        ensures
            n == self@.len(),
    {
        proof {
            self.lemma_view_of_entries();
        }
        self.entries.len()
    }

    /// The recorded evaluations in recording order.
    pub fn values(&self) -> (values: &Vec<Evaluation>)
        ensures
            values@ == self.entries(),
    {
        &self.entries
    }

    /// Records `evaluation`, replacing any earlier one for the same SHA.
    pub fn insert(&mut self, evaluation: Evaluation)
        requires
            old(self).well_formed(),
        ensures
            final(self).well_formed(),
            final(self)@ == old(self)@.insert(evaluation.sha@, evaluation),
    {
        let ghost key = evaluation.sha@;
        match self.position(evaluation.sha.as_str()) {
            Some(i) => {
                self.entries.set(i, evaluation);
                proof {
                    assert(unique_shas(self.entries@));
                    assert forall|k: Seq<char>| #[trigger] self@.contains_key(k) == old(self)@.insert(key, evaluation).contains_key(k) by {
                        if k == key {
                            assert(has_sha_at(self.entries@, k, i as int));
                            assert(has_sha_at(old(self).entries@, k, i as int));
                        } else {
                            if exists|j: int| has_sha_at(old(self).entries@, k, j) {
                                let j = choose|j: int| has_sha_at(old(self).entries@, k, j);
                                assert(has_sha_at(self.entries@, k, j));
                            }
                            if exists|j: int| has_sha_at(self.entries@, k, j) {
                                let j = choose|j: int| has_sha_at(self.entries@, k, j);
                                assert(has_sha_at(old(self).entries@, k, j));
                            }
                        }
                    }
                    self.lemma_view_of_entries();
                    old(self).lemma_view_of_entries();
                    assert(self@ =~= old(self)@.insert(key, evaluation));
                }
            },
            None => {
                self.entries.push(evaluation);
                proof {
                    old(self).lemma_view_of_entries();
                    assert(unique_shas(self.entries@));
                    self.lemma_view_of_entries();
                    assert forall|k: Seq<char>| #[trigger] self@.contains_key(k) == old(self)@.insert(key, evaluation).contains_key(k) by {
                        if self@.contains_key(k) && k != key {
                            let j = choose|j: int| has_sha_at(self.entries@, k, j);
                            assert(has_sha_at(old(self).entries@, k, j));
                        }
                        if k == key {
                            assert(has_sha_at(self.entries@, k, self.entries@.len() - 1));
                        }
                        if old(self)@.contains_key(k) {
                            let j = choose|j: int| has_sha_at(old(self).entries@, k, j);
                            assert(has_sha_at(self.entries@, k, j));
                        }
                    }
                    assert(self@ =~= old(self)@.insert(key, evaluation));
                }
            },
        }
    }

    /// Forgets the evaluation recorded for `sha`, if any.
    pub fn remove(&mut self, sha: &str)
        requires
            old(self).well_formed(),
        ensures
            final(self).well_formed(),
            final(self)@ == old(self)@.remove(sha@),
    {
        match self.position(sha) {
            Some(i) => {
                self.entries.remove(i);
                proof {
                    let o = old(self).entries@;
                    assert(self.entries@ =~= o.subrange(0, i as int) + o.subrange(i + 1, o.len() as int));
                    assert forall|a: int, b: int|
                        0 <= a < self.entries@.len() && 0 <= b < self.entries@.len() && a != b
                        implies self.entries@[a].sha@ != self.entries@[b].sha@ by {
                        let oa = if a < i { a } else { a + 1 };
                        let ob = if b < i { b } else { b + 1 };
                        assert(self.entries@[a] == o[oa]);
                        assert(self.entries@[b] == o[ob]);
                    }
                    assert forall|k: Seq<char>| #[trigger] self@.contains_key(k) == old(self)@.remove(sha@).contains_key(k) by {
                        if self@.contains_key(k) {
                            let j = choose|j: int| has_sha_at(self.entries@, k, j);
                            let oj = if j < i { j } else { j + 1 };
                            assert(has_sha_at(o, k, oj));
                        }
                        if old(self)@.remove(sha@).contains_key(k) {
                            let j = choose|j: int| has_sha_at(o, k, j);
                            assert(j != i);
                            let nj = if j < i { j } else { j - 1 };
                            assert(has_sha_at(self.entries@, k, nj));
                        }
                    }
                    self.lemma_view_of_entries();
                    old(self).lemma_view_of_entries();
                    assert forall|k: Seq<char>| #[trigger] self@.contains_key(k) implies self@[k] == old(self)@[k] by {
                        let j = choose|j: int| has_sha_at(self.entries@, k, j);
                        let oj = if j < i { j } else { j + 1 };
                        assert(self.entries@[j] == o[oj]);
                    }
                    assert(self@ =~= old(self)@.remove(sha@));
                }
            },
            None => {
                assert(self@ =~= old(self)@.remove(sha@));
            },
        }
    }
}

/// One bisect round as the report narrates it.
#[derive(Clone, Debug)]
pub struct RoundRecord {
    pub number: usize,
    pub probes: Vec<String>,
    pub narrative: String,
}

/// Author, date and title of a commit.
#[derive(Clone, Debug)]
pub struct CommitMetadata {
    pub sha: String,
    pub author: String,
    pub date: String,
    pub subject: String,
}

/// What a bisect concluded: a first bad and last good commit, or the set of
/// candidates among which the first bad commit lies.
#[derive(Clone, Debug)]
pub struct Conclusion {
    pub first_bad: String,
    pub last_good: String,
    pub candidates: Vec<String>,
    pub first_bad_metadata: Option<CommitMetadata>,
    pub last_good_metadata: Option<CommitMetadata>,
}

/// The durable run ledger.
#[derive(Clone, Debug)]
pub struct RunState {
    pub version: u32,
    pub started_at: String,
    pub updated_at: String,
    pub complete: bool,
    pub interrupted: bool,
    pub evaluations: Evaluations,
    pub rounds: Vec<RoundRecord>,
    pub conclusion: Option<Conclusion>,
}

impl RunState {
    /// A fresh ledger started at `now`.
    pub fn new(now: String) -> (state: Self)
        ensures
            state.version == 1,
            state.started_at@ == now@,
            state.updated_at@ == now@,
            !state.complete,
            !state.interrupted,
            state.evaluations.well_formed(),
            state.evaluations@ == Map::<Seq<char>, Evaluation>::empty(),
            state.rounds@.len() == 0,
            state.conclusion is None,
    {
        let started_at = now.clone();
        RunState {
            version: 1,
            started_at,
            updated_at: now,
            complete: false,
            interrupted: false,
            evaluations: Evaluations::new(),
            rounds: Vec::new(),
            conclusion: None,
        }
    }

    /// Records `evaluation` at time `now`, replacing an earlier evaluation of
    /// the same commit.
    pub fn record(&mut self, evaluation: Evaluation, now: String)
        requires
            old(self).evaluations.well_formed(),
        ensures
            final(self).evaluations.well_formed(),
            final(self).evaluations@ == old(self).evaluations@.insert(evaluation.sha@, evaluation),
            final(self).updated_at@ == now@,
            final(self).version == old(self).version,
            final(self).started_at == old(self).started_at,
            final(self).complete == old(self).complete,
            final(self).interrupted == old(self).interrupted,
            final(self).rounds == old(self).rounds,
            final(self).conclusion == old(self).conclusion,
    {
        self.updated_at = now;
        self.evaluations.insert(evaluation);
    }
}


/// What a run does.
#[derive(Debug)]
pub enum Operation {
    /// Evaluate one commit.
    Run { at: String },
    /// Evaluate the selected commits of a range.
    Scan {
        range: String,
        commits: Vec<String>,
        stride: usize,
        sample: Option<usize>,
        stop_on_first_bad: bool,
    },
    /// Search the range for the first bad commit.
    Bisect {
        good: String,
        bad: String,
        commits: Vec<String>,
        verify_endpoints: bool,
        on_inconsistent: crate::cli::InconsistentPolicy,
        terms: [String; 2],
    },
}

/// What a run was asked to do, with the configuration it runs under.
#[derive(Debug)]
pub struct RunPlan {
    pub config: crate::config::ResolvedConfig,
    pub operation: Operation,
}

proof fn lemma_keys_finite(entries: Seq<Evaluation>)
    requires
        unique_shas(entries),
    ensures
        ({
            let m = Map::new(
                |sha: Seq<char>| exists|i: int| has_sha_at(entries, sha, i),
                |sha: Seq<char>| entries[choose|i: int| has_sha_at(entries, sha, i)],
            );
            m.dom().finite() && m.len() == entries.len()
        }),
    decreases entries.len(),
{
    let m = Map::new(
        |sha: Seq<char>| exists|i: int| has_sha_at(entries, sha, i),
        |sha: Seq<char>| entries[choose|i: int| has_sha_at(entries, sha, i)],
    );
    if entries.len() == 0 {
        assert(m.dom() =~= Set::<Seq<char>>::empty());
    } else {
        let rest = entries.drop_last();
        lemma_keys_finite(rest);
        let rm = Map::new(
            |sha: Seq<char>| exists|i: int| has_sha_at(rest, sha, i),
            |sha: Seq<char>| rest[choose|i: int| has_sha_at(rest, sha, i)],
        );
        let last = entries.last().sha@;
        assert forall|k: Seq<char>| #[trigger] m.dom().contains(k) == rm.dom().insert(last).contains(k) by {
            if m.dom().contains(k) && k != last {
                let j = choose|j: int| has_sha_at(entries, k, j);
                assert(has_sha_at(rest, k, j));
            }
            if rm.dom().contains(k) {
                let j = choose|j: int| has_sha_at(rest, k, j);
                assert(has_sha_at(entries, k, j));
            }
            if k == last {
                assert(has_sha_at(entries, k, entries.len() - 1));
            }
        }
        assert(m.dom() =~= rm.dom().insert(last));
        assert(!rm.dom().contains(last)) by {
            if rm.dom().contains(last) {
                let j = choose|j: int| has_sha_at(rest, last, j);
                assert(entries[j].sha@ == entries[entries.len() - 1].sha@);
            }
        }
    }
}

/// String equality, as `==` on `str` computes it: byte by byte.
pub fn str_equal(a: &str, b: &str) -> (equal: bool)
    ensures
        equal == (a@ == b@),
{
    let x = a.as_bytes();
    let y = b.as_bytes();
    proof {
        vstd::utf8::encode_utf8_decode_utf8(a@);
        vstd::utf8::encode_utf8_decode_utf8(b@);
        assert(x@ == vstd::utf8::encode_utf8(a@));
        assert(y@ == vstd::utf8::encode_utf8(b@));
    }
    if x.len() != y.len() {
        assert(x@ != y@);
        return false;
    }
    let mut i: usize = 0;
    while i < x.len()
        invariant
            x@.len() == y@.len(),
            x@ == vstd::utf8::encode_utf8(a@),
            y@ == vstd::utf8::encode_utf8(b@),
            i <= x@.len(),
            x@.subrange(0, i as int) == y@.subrange(0, i as int),
        decreases x@.len() - i,
    {
        if x[i] != y[i] {
            assert(x@[i as int] != y@[i as int]);
            assert(x@ != y@);
            assert(a@ != b@);
            return false;
        }
        assert(x@.subrange(0, i + 1) =~= x@.subrange(0, i as int).push(x@[i as int]));
        assert(y@.subrange(0, i + 1) =~= y@.subrange(0, i as int).push(y@[i as int]));
        i = i + 1;
    }
    assert(x@ =~= x@.subrange(0, x@.len() as int));
    assert(y@ =~= y@.subrange(0, y@.len() as int));
    true
}

} // verus!
