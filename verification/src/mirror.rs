use vstd::prelude::*;

use crate::hashing::{digest_text, stable_hash};
use crate::util::{join, join_path};

verus! {

/// What identifies a repository in the mirror cache: the canonical path of
/// a local repository (`canonical`, when the path exists), or the
/// repository text as given.
pub fn canonical_identity(repo: &str, canonical: Option<String>) -> (identity: String)
    ensures
        identity@ == (match canonical {
            Some(c) => c@,
            None => repo@,
        }),
{
    match canonical {
        Some(c) => c,
        None => repo.to_string(),
    }
}

/// `<cache_dir>/repos`, where the mirrors live.
pub fn repos_dir(cache_dir: &str) -> (dir: String)
    ensures
        dir@ == join_path(cache_dir@, "repos"@),
{
    proof {
        reveal_strlit("repos");
    }
    join(cache_dir, "repos")
}

/// A bare mirror of a subject repository in the cache.
#[derive(Debug)]
pub struct Mirror {
    path: String,
}

impl View for Mirror {
    type V = Seq<char>;

    closed spec fn view(&self) -> Seq<char> {
        self.path@
    }
}

/// `<cache_dir>/repos/<hash of the identity>`.
pub open spec fn mirror_dir(cache_dir: Seq<char>, identity: Seq<char>) -> Seq<char> {
    join_path(join_path(cache_dir, "repos"@), digest_text(seq![identity]))
}

impl Mirror {
    /// The mirror of the repository with this identity in `cache_dir`.
    pub fn located(cache_dir: &str, identity: &str) -> (mirror: Mirror)
        ensures
            mirror@ == mirror_dir(cache_dir@, identity@),
    {
        let parts: [&str; 1] = [identity];
        let key = stable_hash(parts.as_slice());
        proof {
            assert(parts@.map_values(|p: &str| p@) =~= seq![identity@]);
        }
        let repos = repos_dir(cache_dir);
        Mirror { path: join(repos.as_str(), key.as_str()) }
    }

    /// The mirror's directory.
    pub fn path(&self) -> (path: &str)
        ensures
            path@ == self@,
    {
        self.path.as_str()
    }
}

} // verus!
