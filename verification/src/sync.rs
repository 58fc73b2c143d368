//! How the working clone is brought up to date with its remote: what to do
//! with the fetched upstream branch, how each rebase step ends, and what a
//! failed sync after a commit means.
use vstd::prelude::*;

verus! {

/// What bringing the local branch up to date with `origin` takes.
#[derive(Debug, Clone, Copy, PartialEq, Eq, Structural)]
pub enum SyncPlan {
    /// The local branch already has everything upstream has (or there is no
    /// upstream branch yet): nothing to integrate.
    Nothing,
    /// The local branch is strictly behind upstream: move it forward and
    /// check out the working tree.
    FastForward,
    /// Both sides have commits of their own: rebase the local ones onto
    /// upstream.
    Rebase,
}

/// Decide how to integrate upstream from what the repository says of the
/// two branch tips.
pub fn plan_sync(
    upstream_exists: bool,
    same_commit: bool,
    local_contains_upstream: bool,
    upstream_contains_local: bool,
) -> (p: SyncPlan)
    ensures
        p == if !upstream_exists || same_commit || local_contains_upstream {
            SyncPlan::Nothing
        } else if upstream_contains_local {
            SyncPlan::FastForward
        } else {
            SyncPlan::Rebase
        },
{
    if !upstream_exists || same_commit || local_contains_upstream {
        SyncPlan::Nothing
    } else if upstream_contains_local {
        SyncPlan::FastForward
    } else {
        SyncPlan::Rebase
    }
}

/// How one rebase operation ends.
#[derive(Debug, Clone, Copy, PartialEq, Eq, Structural)]
pub enum RebaseStep {
    /// The step applied cleanly: commit it and go on.
    Commit,
    /// The step failed or left conflicts: abort the rebase, which restores
    /// the branch with the local commit kept.
    Abort,
}

/// Decide how a rebase step ends.
pub fn rebase_step(step_ok: bool, has_conflicts: bool) -> (s: RebaseStep)
    ensures
        s == if step_ok && !has_conflicts { RebaseStep::Commit } else { RebaseStep::Abort },
{
    if step_ok && !has_conflicts {
        RebaseStep::Commit
    } else {
        RebaseStep::Abort
    }
}

/// What a commit followed by a sync with the remote amounts to.
#[derive(Debug, Clone, Copy, PartialEq, Eq, Structural)]
pub enum CommitOutcome {
    /// Committed and pushed (or there was nothing to push to).
    Saved,
    /// Committed locally only: the note is safe, but the user is warned that
    /// it did not reach the remote.
    SavedLocallyOnly,
}

/// A commit is never undone by a failed fetch, rebase or push: the note is
/// saved either way, and a failed sync only earns a warning.
pub fn after_commit(sync_ok: bool) -> (o: CommitOutcome)
    ensures
        o == if sync_ok { CommitOutcome::Saved } else { CommitOutcome::SavedLocallyOnly },
{
    if sync_ok { CommitOutcome::Saved } else { CommitOutcome::SavedLocallyOnly }
}

} // verus!
