//! Keeping unstaged changes out of the way while hooks run.

use vstd::prelude::*;

verus! {

/// How far the unstaged changes have been put away.
#[derive(Debug, Clone, Copy, PartialEq, Eq, Structural)]
pub enum Phase {
    /// They are in the working tree.
    Untouched,
    /// They are in the working tree, and a snapshot of them is saved.
    Saved,
    /// They are in the stash, and a snapshot of them is saved.
    Stashed,
    /// They have been handed back to the working tree.
    Restored,
}

/// What asking whether to restore leaves of a phase.
pub open spec fn after_restore(p: Phase) -> Phase {
    if p == Phase::Stashed {
        Phase::Restored
    } else {
        p
    }
}

/// The changes are in the stash, from which they are to come back.
pub open spec fn is_put_away(p: Phase) -> bool {
    p == Phase::Stashed
}

/// The snapshot can go.
pub open spec fn snapshot_goes(p: Phase, conflicts: bool) -> bool {
    p == Phase::Restored && !conflicts
}

/// Sees to it that unstaged changes that were put away come back, once.
#[derive(Debug)]
pub struct StashGuard {
    phase: Phase,
}

impl StashGuard {
    /// How far the unstaged changes have been put away.
    pub closed spec fn phase(&self) -> Phase {
        self.phase
    }

    /// A guard for a repository with partial staging; without it there is
    /// nothing to guard.
    pub fn new(partial_staging: bool) -> (r: Option<StashGuard>)
        ensures
            r is Some <==> partial_staging,
            r matches Some(g) ==> g.phase() == Phase::Untouched,
    {
        if partial_staging {
            Some(StashGuard { phase: Phase::Untouched })
        } else {
            None
        }
    }

    /// Takes note that the snapshot was saved.
    pub fn saved(&mut self)
        requires
            old(self).phase() == Phase::Untouched,
        ensures
            final(self).phase() == Phase::Saved,
    {
        self.phase = Phase::Saved;
    }

    /// Takes note that the changes were stashed, which is not done without a
    /// snapshot.
    pub fn stashed(&mut self)
        requires
            old(self).phase() == Phase::Saved,
        ensures
            final(self).phase() == Phase::Stashed,
    {
        self.phase = Phase::Stashed;
    }

    /// Are the changes to be restored now? They are if they are in the stash,
    /// and count as restored from then on.
    pub fn restore(&mut self) -> (r: bool)
        ensures
            r == is_put_away(old(self).phase()),
            r == (old(self).phase() == Phase::Stashed),
            final(self).phase() == after_restore(old(self).phase()),
    {
        match self.phase {
            Phase::Stashed => {
                self.phase = Phase::Restored;
                true
            },
            _ => false,
        }
    }

    /// Can the snapshot go, now that the changes came back? It stays while there
    /// were conflicts, for recovery.
    pub fn drops_snapshot(&self, conflicts: bool) -> (r: bool)
        ensures
            r == snapshot_goes(self.phase(), conflicts),
            r == (self.phase() == Phase::Restored && !conflicts),
    {
        match self.phase {
            Phase::Restored => !conflicts,
            _ => false,
        }
    }
}

/// Changes are restored once: having asked, asking again has no effect.
pub proof fn law_restores_once(p: Phase)
    ensures
        after_restore(p) != Phase::Stashed,
        after_restore(after_restore(p)) == after_restore(p),
{
}

/// Changes that were stashed are handed back when that is asked for, and others are left
/// alone: there is something to restore exactly if asking changes the phase.
pub proof fn law_stashed_changes_are_handed_back(p: Phase)
    ensures
        is_put_away(p) <==> after_restore(p) != p,
        is_put_away(p) ==> after_restore(p) is Restored,
        p is Stashed ==> is_put_away(p),
        !is_put_away(after_restore(p)),
{
}

/// The snapshot goes only once the changes came back, and it outlasts conflicts: as long
/// as the changes are nowhere else, or came back with conflicts, it stays.
pub proof fn law_snapshot_outlasts_the_stash(p: Phase, conflicts: bool)
    ensures
        !(p is Restored) ==> !snapshot_goes(p, conflicts),
        !snapshot_goes(p, true),
        p is Stashed ==> snapshot_goes(after_restore(p), false),
{
}

} // verus!
