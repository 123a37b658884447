//! Pantry synchronization protocol: the tree is replaced under an exclusive
//! file lock, and the lock is released on every exit path, whether the
//! download, extraction or index rebuild succeeded or failed.

use vstd::prelude::*;

verus! {

/// Whether a sync is needed: the pantry tree is absent.
pub fn should(projects_dir_exists: bool) -> (r: bool)
    ensures
        r == !projects_dir_exists,
{
    !projects_dir_exists
}

/// Where a sync stands.
#[derive(Clone, Copy, PartialEq, Eq, Structural, Debug)]
pub enum SyncState {
    /// Nothing held yet.
    Idle,
    /// The exclusive lock is held; the tree is being replaced.
    Holding,
    /// Work is over; the lock must be released. The flag records failure.
    Unlocking(bool),
    /// The lock is released. The flag records failure.
    Finished(bool),
}

/// What the driver reports to the protocol.
#[derive(Clone, Copy, PartialEq, Eq, Structural, Debug)]
pub enum SyncEvent {
    /// The exclusive lock was acquired.
    Acquired,
    /// Download, extraction and index rebuild finished; the flag records
    /// success.
    WorkFinished(bool),
    /// The lock was released.
    Released,
}

/// What the driver must do next.
#[derive(Clone, Copy, PartialEq, Eq, Structural, Debug)]
pub enum SyncAction {
    /// Download, extract and rebuild the index.
    DoWork,
    /// Release the exclusive lock.
    ReleaseLock,
    /// Report the recorded outcome; true means the sync failed.
    Report(bool),
    /// The event does not belong to this state; nothing changes.
    Reject,
}

/// The transition table of the sync protocol.
pub open spec fn spec_sync_step(s: SyncState, ev: SyncEvent) -> (SyncState, SyncAction) {
    match (s, ev) {
        (SyncState::Idle, SyncEvent::Acquired) => (SyncState::Holding, SyncAction::DoWork),
        (SyncState::Holding, SyncEvent::WorkFinished(ok)) => (
            SyncState::Unlocking(!ok),
            SyncAction::ReleaseLock,
        ),
        (SyncState::Unlocking(failed), SyncEvent::Released) => (
            SyncState::Finished(failed),
            SyncAction::Report(failed),
        ),
        (other, _) => (other, SyncAction::Reject),
    }
}

/// Step the sync protocol.
pub fn sync_step(s: SyncState, ev: SyncEvent) -> (r: (SyncState, SyncAction))
    ensures
        r == spec_sync_step(s, ev),
{
    match (s, ev) {
        (SyncState::Idle, SyncEvent::Acquired) => (SyncState::Holding, SyncAction::DoWork),
        (SyncState::Holding, SyncEvent::WorkFinished(ok)) => (
            SyncState::Unlocking(!ok),
            SyncAction::ReleaseLock,
        ),
        (SyncState::Unlocking(failed), SyncEvent::Released) => (
            SyncState::Finished(failed),
            SyncAction::Report(failed),
        ),
        (other, _) => (other, SyncAction::Reject),
    }
}

/// Once the lock is held, the step after the work is always to release the
/// lock, whether the work succeeded or failed; and the release leads to the
/// report of that same outcome.
pub proof fn lemma_sync_lock_released(ok: bool)
    ensures
        spec_sync_step(SyncState::Holding, SyncEvent::WorkFinished(ok)).1
            == SyncAction::ReleaseLock,
        spec_sync_step(SyncState::Holding, SyncEvent::WorkFinished(ok)).0 == SyncState::Unlocking(
            !ok,
        ),
        spec_sync_step(SyncState::Unlocking(!ok), SyncEvent::Released).1 == SyncAction::Report(
            !ok,
        ),
{
}

} // verus!
