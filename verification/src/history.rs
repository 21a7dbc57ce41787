use vstd::prelude::*;

use crate::state::{str_equal, CommitMetadata};

verus! {

/// The SHAs of a sequence of commit ids.
pub open spec fn sha_views(shas: Seq<String>) -> Seq<Seq<char>> {
    shas.map_values(|s: String| s@)
}

/// A walk down the first-parent chain from the end of a range to its
/// start, collecting the commits after the start.
#[derive(Debug)]
pub struct FirstParentWalk {
    start: String,
    collected: Vec<String>,
}

/// What the walk does at a commit.
#[derive(Debug)]
pub enum WalkStep {
    /// Go on to the first parent.
    Follow,
    /// The start was reached: the range, oldest first, start excluded.
    Done(Vec<String>),
    /// A root commit was reached without meeting the start.
    NotOnChain,
}

impl FirstParentWalk {
    pub closed spec fn start_spec(&self) -> Seq<char> {
        self.start@
    }

    /// The commits visited so far, newest first.
    pub closed spec fn visited(&self) -> Seq<Seq<char>> {
        sha_views(self.collected@)
    }

    /// A walk towards `start` that has visited nothing yet.
    pub fn new(start: String) -> (walk: Self)
        ensures
            walk.start_spec() == start@,
            walk.visited().len() == 0,
    {
        let walk = FirstParentWalk { start, collected: Vec::new() };
        assert(walk.visited() =~= Seq::<Seq<char>>::empty());
        walk
    }

    /// Visits commit `id`, which has `parent_count` parents: the start ends
    /// the walk with the visited commits oldest first; any other commit is
    /// recorded, and its first parent is next unless it has none.
    pub fn visit(&mut self, id: &str, parent_count: usize) -> (step: WalkStep)
        ensures
            final(self).start_spec() == old(self).start_spec(),
            id@ == old(self).start_spec() ==> (step matches WalkStep::Done(range)
                && sha_views(range@) == old(self).visited().reverse()),
            id@ != old(self).start_spec() ==> final(self).visited() == old(self).visited().push(id@),
            id@ != old(self).start_spec() && parent_count == 0 ==> step is NotOnChain,
            id@ != old(self).start_spec() && parent_count > 0 ==> step is Follow,
    {
        if str_equal(id, self.start.as_str()) {
            let mut range: Vec<String> = Vec::new();
            let mut i: usize = self.collected.len();
            while i > 0
                invariant
                    i <= self.collected@.len(),
                    sha_views(range@) == sha_views(self.collected@).reverse().take(self.collected@.len() - i),
                decreases i,
            {
                i = i - 1;
                range.push(self.collected[i].clone());
                proof {
                    let all = sha_views(self.collected@).reverse();
                    let n = self.collected@.len() as int;
                    assert(all.take(n - i) =~= all.take(n - i - 1).push(all[n - i - 1]));
                    assert(sha_views(range@) =~= sha_views(range@).drop_last().push(range@.last()@));
                }
            }
            assert(sha_views(self.collected@).reverse().take(self.collected@.len() as int)
                =~= sha_views(self.collected@).reverse());
            return WalkStep::Done(range);
        }
        self.collected.push(id.to_string());
        assert(sha_views(self.collected@) =~= old(self).visited().push(id@));
        if parent_count == 0 {
            WalkStep::NotOnChain
        } else {
            WalkStep::Follow
        }
    }
}

/// Why a bisect range is refused.
#[derive(Debug)]
pub struct AncestryError {
    pub ancestor: String,
    pub descendant: String,
}

/// The good revision must be an ancestor of the bad one: their merge base
/// is the good revision itself.
pub fn ancestry_verdict(ancestor: &str, descendant: &str, merge_base: &str) -> (verdict: Result<(), AncestryError>)
    ensures
        verdict is Ok <==> merge_base@ == ancestor@,
        verdict matches Err(e) ==> e.ancestor@ == ancestor@ && e.descendant@ == descendant@,
{
    if str_equal(merge_base, ancestor) {
        Ok(())
    } else {
        Err(AncestryError { ancestor: ancestor.to_string(), descendant: descendant.to_string() })
    }
}

/// The commit details shown in a conclusion; an author without a name is
/// `unknown` and a commit without a subject line `(no subject)`.
pub fn commit_metadata(sha: &str, author: Option<String>, date: String, subject: Option<String>) -> (metadata: CommitMetadata)
    ensures
        metadata.sha@ == sha@,
        metadata.author@ == (match author {
            Some(a) => a@,
            None => "unknown"@,
        }),
        metadata.date == date,
        metadata.subject@ == (match subject {
            Some(s) => s@,
            None => "(no subject)"@,
        }),
{
    CommitMetadata {
        sha: sha.to_string(),
        author: match author {
            Some(a) => a,
            None => "unknown".to_string(),
        },
        date,
        subject: match subject {
            Some(s) => s,
            None => "(no subject)".to_string(),
        },
    }
}

/// The commits whose flag is set, in order.
pub open spec fn kept_where(commits: Seq<String>, keep: Seq<bool>) -> Seq<String>
    decreases commits.len(),
{
    if commits.len() == 0 {
        Seq::empty()
    } else {
        let rest = kept_where(commits.drop_last(), keep.drop_last());
        if keep.last() {
            rest.push(commits.last())
        } else {
            rest
        }
    }
}

/// The commits of a range that a path filter keeps: every commit without a
/// filter, else those whose diff touches one of the paths (`touched[i]`
/// for `commits[i]`).
pub fn filter_touched(commits: Vec<String>, filtered: bool, touched: &Vec<bool>) -> (kept: Vec<String>)
    requires
        touched@.len() == commits@.len(),
    ensures
        !filtered ==> kept@ == commits@,
        filtered ==> kept@ == kept_where(commits@, touched@),
{
    if !filtered {
        return commits;
    }
    let mut kept: Vec<String> = Vec::new();
    let mut i: usize = 0;
    while i < commits.len()
        invariant
            i <= commits@.len(),
            touched@.len() == commits@.len(),
            kept@ == kept_where(commits@.take(i as int), touched@.take(i as int)),
        decreases commits@.len() - i,
    {
        proof {
            assert(commits@.take(i + 1).drop_last() =~= commits@.take(i as int));
            assert(touched@.take(i + 1).drop_last() =~= touched@.take(i as int));
        }
        if touched[i] {
            kept.push(commits[i].clone());
        }
        i = i + 1;
    }
    assert(commits@.take(commits@.len() as int) =~= commits@);
    assert(touched@.take(touched@.len() as int) =~= touched@);
    kept
}

} // verus!
