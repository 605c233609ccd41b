//! The synchronisation job: exactly one read from the origin, then
//! exactly one write of the very collection read to the target. No
//! retries, no partial-write recovery: a failure is wrapped and
//! surfaced, and the origin is never consulted again.

use vstd::prelude::*;
use crate::errors::SourceError;
use crate::secrets::Secrets;
use crate::sources::Source;
use super::{Job, JobError};

verus! {

/// The one-read-then-one-write synchronisation between two sources.
pub struct SyncJob {
    origin: Box<dyn Source>,
    target: Box<dyn Source>,
}

impl SyncJob {
    pub fn new(origin: Box<dyn Source>, target: Box<dyn Source>) -> SyncJob {
        SyncJob { origin, target }
    }
}

impl Job for SyncJob {
    /// Synchronise the secrets from the origin to the target: read
    /// once; on success, write that collection once, unchanged. A
    /// failure surfaces as a read or a write error and nothing else.
    fn run(&self) -> (r: Result<(), JobError>)
        ensures
            match r {
                Ok(_) => true,
                Err(e) => e is Read || e is Write,
            },
    {
        let secrets = match self.origin.read_secrets() {
            Ok(s) => s,
            Err(e) => {
                return Err(JobError::Read(e));
            },
        };
        match self.target.write_secrets(&secrets) {
            Ok(_) => Ok(()),
            Err(e) => Err(JobError::Write(e)),
        }
    }
}

// ---------------------------------------------------------------------
// The job's state machine: Created -> Reading -> Writing -> Done, with
// Failed reachable from Reading and Writing. The driver performs the
// actions and feeds the outcomes back in as events.
// ---------------------------------------------------------------------
/// The phase a sync job is in; Writing holds the collection read.
pub enum SyncState {
    Created,
    Reading,
    Writing(Secrets),
    Done,
    Failed(JobError),
}

/// What the driver observed.
pub enum SyncEvent {
    Started,
    ReadOk(Secrets),
    ReadFailed(SourceError),
    WriteOk,
    WriteFailed(SourceError),
}

/// What the machine asks the driver to do next.
#[derive(Clone, Copy, Debug, PartialEq, Eq, Structural)]
pub enum SyncAction {
    Read,
    Write,
    Stop,
}

/// The transition table. The collection read moves into the Writing
/// state untouched — the job never transforms it — and both failure
/// transitions are final. An event that does not belong to the current
/// phase changes nothing.
pub open spec fn spec_sync_step(state: SyncState, event: SyncEvent) -> (SyncState, SyncAction) {
    match (state, event) {
        (SyncState::Created, SyncEvent::Started) => (SyncState::Reading, SyncAction::Read),
        (SyncState::Reading, SyncEvent::ReadOk(s)) => (SyncState::Writing(s), SyncAction::Write),
        (SyncState::Reading, SyncEvent::ReadFailed(e)) => (
            SyncState::Failed(JobError::Read(e)),
            SyncAction::Stop,
        ),
        (SyncState::Writing(_), SyncEvent::WriteOk) => (SyncState::Done, SyncAction::Stop),
        (SyncState::Writing(_), SyncEvent::WriteFailed(e)) => (
            SyncState::Failed(JobError::Write(e)),
            SyncAction::Stop,
        ),
        (st, _) => (st, SyncAction::Stop),
    }
}

/// Advance the job by one observed event.
pub fn sync_step(state: SyncState, event: SyncEvent) -> (r: (SyncState, SyncAction))
    ensures
        r == spec_sync_step(state, event),
{
    match (state, event) {
        (SyncState::Created, SyncEvent::Started) => (SyncState::Reading, SyncAction::Read),
        (SyncState::Reading, SyncEvent::ReadOk(s)) => (SyncState::Writing(s), SyncAction::Write),
        (SyncState::Reading, SyncEvent::ReadFailed(e)) => (
            SyncState::Failed(JobError::Read(e)),
            SyncAction::Stop,
        ),
        (SyncState::Writing(_), SyncEvent::WriteOk) => (SyncState::Done, SyncAction::Stop),
        (SyncState::Writing(_), SyncEvent::WriteFailed(e)) => (
            SyncState::Failed(JobError::Write(e)),
            SyncAction::Stop,
        ),
        (st, _) => (st, SyncAction::Stop),
    }
}

/// The actions a run from `state` issues under a sequence of events.
pub open spec fn sync_actions(state: SyncState, events: Seq<SyncEvent>) -> Seq<SyncAction>
    decreases events.len(),
{
    if events.len() == 0 {
        seq![]
    } else {
        let r = spec_sync_step(state, events[0]);
        seq![r.1] + sync_actions(r.0, events.skip(1))
    }
}

/// A read is only ever requested from the created state: the single
/// read happens first or not at all.
pub proof fn lemma_sync_read_only_from_created(state: SyncState, event: SyncEvent)
    ensures
        spec_sync_step(state, event).1 is Read ==> state is Created,
{
}

/// No transition enters the created state from anywhere else.
pub proof fn lemma_sync_created_unreachable(state: SyncState, event: SyncEvent)
    ensures
        spec_sync_step(state, event).0 is Created ==> state is Created,
{
}

/// A failed job is inert: whatever events arrive, it never acts again.
pub proof fn lemma_sync_failed_inert(err: JobError, events: Seq<SyncEvent>)
    ensures
        sync_actions(SyncState::Failed(err), events).len() == events.len(),
        forall|i: int|
            0 <= i < events.len() ==> sync_actions(SyncState::Failed(err), events)[i]
                == SyncAction::Stop,
    decreases events.len(),
{
    if events.len() > 0 {
        let r = spec_sync_step(SyncState::Failed(err), events[0]);
        assert(r == (SyncState::Failed(err), SyncAction::Stop));
        lemma_sync_failed_inert(err, events.skip(1));
        let rest = sync_actions(SyncState::Failed(err), events.skip(1));
        assert(sync_actions(SyncState::Failed(err), events) =~= seq![SyncAction::Stop] + rest);
        assert forall|i: int|
            0 <= i < events.len() implies sync_actions(SyncState::Failed(err), events)[i]
            == SyncAction::Stop by {
            if i > 0 {
                assert(sync_actions(SyncState::Failed(err), events)[i] == rest[i - 1]);
            }
        }
    }
}

/// Sync-job failure isolation: when the target's write fails after a
/// successful read, the job moves to Failed reporting that write
/// failure, and no sequence of further events ever makes it read the
/// origin again.
pub proof fn lemma_sync_write_failure_isolation(
    s: Secrets,
    e: SourceError,
    events: Seq<SyncEvent>,
)
    ensures
        spec_sync_step(SyncState::Writing(s), SyncEvent::WriteFailed(e)) == (
            SyncState::Failed(JobError::Write(e)),
            SyncAction::Stop,
        ),
        forall|i: int|
            0 <= i < events.len() ==> sync_actions(
                SyncState::Failed(JobError::Write(e)),
                events,
            )[i] != SyncAction::Read,
{
    lemma_sync_failed_inert(JobError::Write(e), events);
}

} // verus!
