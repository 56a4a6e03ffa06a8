//! A unit of validation work that a statement unlocked.
//!
//! The inputs of the work are fetched and the candidate is validated outside
//! of this crate, in a task that races against the round's exit signal. What
//! is decided here is what the task does once that race has ended.

use crate::primitives::H256;
use vstd::prelude::*;

verus! {

/// How the race of a validation task ended.
#[derive(Clone, Copy, Debug, PartialEq, Eq)]
pub enum WorkEvent {
    /// The inputs were fetched and the candidate was validated.
    Validated,
    /// Fetching the inputs or validating the candidate failed.
    Failed,
    /// The round's exit signal came first.
    Cancelled,
}

/// A step for the task to take.
#[derive(Clone, Copy, Debug, PartialEq, Eq)]
pub enum WorkAction {
    /// Store the candidate's block data and extrinsic in the knowledge
    /// tracker, so that peers can fetch them.
    NoteCandidate { candidate_hash: H256 },
    /// Hand the validated candidate to the table, which signs a statement about it.
    ImportValidated,
    /// Gossip the encoded statement on the round's attestation topic.
    GossipStatement { topic: H256 },
}

/// The state of a unit of work.
pub struct WorkView {
    pub candidate_hash: H256,
    pub attestation_topic: H256,
    pub finished: bool,
}

impl WorkView {
    /// The steps to take on `event`, in order. Only the first event counts,
    /// and only a validated candidate leads to any step: its data is stored
    /// before the statement about it is signed and gossiped. A failure is
    /// not retried.
    pub open spec fn actions(self, event: WorkEvent) -> Seq<WorkAction> {
        if !self.finished && event is Validated {
            seq![
                WorkAction::NoteCandidate { candidate_hash: self.candidate_hash },
                WorkAction::ImportValidated,
                WorkAction::GossipStatement { topic: self.attestation_topic },
            ]
        } else {
            Seq::empty()
        }
    }

    /// The state after an event.
    pub open spec fn step(self) -> WorkView {
        WorkView { finished: true, ..self }
    }
}

/// A unit of validation work for one candidate.
#[derive(Clone, Debug, PartialEq, Eq)]
pub struct ValidationWork {
    candidate_hash: H256,
    attestation_topic: H256,
    finished: bool,
}

impl View for ValidationWork {
    type V = WorkView;

    closed spec fn view(&self) -> WorkView {
        WorkView {
            candidate_hash: self.candidate_hash,
            attestation_topic: self.attestation_topic,
            finished: self.finished,
        }
    }
}

impl ValidationWork {
    /// Work for the candidate `candidate_hash` in the round with the given
    /// attestation topic, whose race has not ended yet.
    pub fn new(candidate_hash: H256, attestation_topic: H256) -> (work: ValidationWork)
        ensures
            work@ == (WorkView { candidate_hash, attestation_topic, finished: false }),
    {
        ValidationWork { candidate_hash, attestation_topic, finished: false }
    }

    /// The candidate the work is for.
    pub fn candidate_hash(&self) -> (hash: H256)
        ensures
            hash == self@.candidate_hash,
    {
        self.candidate_hash
    }

    /// Whether the race has ended.
    pub fn is_finished(&self) -> (finished: bool)
        ensures
            finished == self@.finished,
    {
        self.finished
    }

    /// Tells the work how its race ended and gives the steps to take.
    pub fn on_event(&mut self, event: WorkEvent) -> (actions: Vec<WorkAction>)
        ensures
            final(self)@ == old(self)@.step(),
            actions@ == old(self)@.actions(event),
    {
        let mut actions: Vec<WorkAction> = Vec::new();
        if !self.finished {
            match event {
                WorkEvent::Validated => {
                    actions.push(WorkAction::NoteCandidate { candidate_hash: self.candidate_hash });
                    actions.push(WorkAction::ImportValidated);
                    actions.push(WorkAction::GossipStatement { topic: self.attestation_topic });
                },
                WorkEvent::Failed => {},
                WorkEvent::Cancelled => {},
            }
        }
        self.finished = true;
        actions
    }
}

/// Whichever of completion and cancellation comes first wins: after one
/// event no later event leads to any step.
pub proof fn law_first_event_wins(work: WorkView, first: WorkEvent, later: WorkEvent)
    ensures
        work.step().actions(later) == Seq::<WorkAction>::empty(),
        work.step().step() == work.step(),
        first !is Validated ==> work.actions(first) == Seq::<WorkAction>::empty(),
{
}

/// Where a statement is gossiped, the candidate's data was stored before:
/// each gossip step has a store step for the work's candidate ahead of it.
pub proof fn law_data_stored_before_gossip(work: WorkView, event: WorkEvent)
    ensures
        forall|i: int|
            0 <= i < work.actions(event).len() && (#[trigger] work.actions(event)[i])
                is GossipStatement ==> exists|j: int|
                0 <= j < i && #[trigger] work.actions(event)[j] == (WorkAction::NoteCandidate {
                    candidate_hash: work.candidate_hash,
                }),
{
    let actions = work.actions(event);
    assert forall|i: int| 0 <= i < actions.len() && (#[trigger] actions[i])
        is GossipStatement implies exists|j: int|
        0 <= j < i && #[trigger] actions[j] == (WorkAction::NoteCandidate {
            candidate_hash: work.candidate_hash,
        }) by {
        assert(i == 2);
        assert(actions[0] == (WorkAction::NoteCandidate { candidate_hash: work.candidate_hash }));
    }
}

} // verus!
