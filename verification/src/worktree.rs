use vstd::prelude::*;

verus! {

/// A detached checkout of one commit, made from a mirror. Unless it is
/// retained, it is removed when its evaluation ends.
#[derive(Debug)]
pub struct Worktree {
    mirror: String,
    path: String,
    removed: bool,
}

impl Worktree {
    /// The worktree checked out at `path` from the mirror at `mirror`.
    pub fn new(mirror: String, path: String) -> (worktree: Worktree)
        ensures
            worktree.mirror_spec() == mirror@,
            worktree.path_spec() == path@,
            !worktree.is_settled(),
    {
        Worktree { mirror, path, removed: false }
    }

    pub closed spec fn mirror_spec(&self) -> Seq<char> {
        self.mirror@
    }

    pub closed spec fn path_spec(&self) -> Seq<char> {
        self.path@
    }

    /// The worktree was removed, or is to be kept: nothing is left to
    /// clean up.
    pub closed spec fn is_settled(&self) -> bool {
        self.removed
    }

    /// The checkout directory.
    pub fn path(&self) -> (path: &str)
        ensures
            path@ == self.path_spec(),
    {
        self.path.as_str()
    }

    /// The mirror the checkout was made from.
    pub fn mirror(&self) -> (mirror: &str)
        ensures
            mirror@ == self.mirror_spec(),
    {
        self.mirror.as_str()
    }

    /// Keeps the worktree on disk: it will not be removed.
    pub fn retain(&mut self)
        ensures
            final(self).is_settled(),
            final(self).path_spec() == old(self).path_spec(),
            final(self).mirror_spec() == old(self).mirror_spec(),
    {
        self.removed = true;
    }

    /// Records that the worktree was removed.
    pub fn mark_removed(&mut self)
        ensures
            final(self).is_settled(),
            final(self).path_spec() == old(self).path_spec(),
            final(self).mirror_spec() == old(self).mirror_spec(),
    {
        self.removed = true;
    }

    /// Whether the worktree still has to be removed.
    pub fn needs_removal(&self) -> (pending: bool)
        ensures
            pending == !self.is_settled(),
    {
        !self.removed
    }
}

} // verus!
