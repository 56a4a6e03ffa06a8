//! The router of one attestation round.
//!
//! The router stands between the gossip network and the statement table. It
//! decides for each checked statement whether it can go to the table now or
//! has to wait for its candidate, and in what order a batch is handed over.
//! The table, the network and the executor are not part of it: it is told
//! what they answered and says what is to be done next.

use crate::deferred::{lemma_push_keeps_wf, vote_about, DeferredStatements, DeferredView};
use crate::primitives::{attestation_suffix, attestation_topic, blake2_256_digest, H256};
use crate::egress::{batch_views, egress_for, egress_sends, encodable, send_views};
use crate::egress::{EgressSend, OutgoingMessages};
use crate::statement::{SignedStatement, Statement, StatementTrace};
use crate::work::{ValidationWork, WorkView};
use vstd::prelude::*;

verus! {

/// What the router decided about a statement that was offered for import.
#[derive(Debug, PartialEq, Eq)]
pub enum Import {
    /// The router has been closed; the statement is not processed.
    Closed,
    /// The candidate is unknown; the statement waits and nothing goes to the table.
    Deferred,
    /// The statements to hand to the table as one unit, in this order.
    Batch { candidate_hash: H256, statements: Vec<SignedStatement> },
}

/// What follows from the table's answer for one imported statement.
#[derive(Debug, PartialEq, Eq)]
pub enum Dispatch<W> {
    /// Record in the knowledge tracker who made this statement.
    NoteStatement(SignedStatement),
    /// Hand a validation task for this unlocked work to the executor.
    SpawnWork { candidate_hash: H256, work: W },
}

/// The state of a router.
pub struct RouterView {
    pub parent_hash: H256,
    pub attestation_topic: H256,
    pub deferred: DeferredView,
    pub subscribed: bool,
}

/// Whether the candidate of `statement` counts as known: a statement that
/// carries its candidate makes it known, a vote depends on the table.
pub open spec fn candidate_known(statement: SignedStatement, known_to_table: bool) -> bool {
    statement.statement is Candidate || known_to_table
}

impl RouterView {
    /// The state after `statement` was offered for import.
    pub open spec fn import(self, statement: SignedStatement, known_to_table: bool) -> RouterView {
        if !self.subscribed {
            self
        } else if candidate_known(statement, known_to_table) {
            RouterView {
                deferred: self.deferred.drain(statement.statement.spec_candidate_hash()),
                ..self
            }
        } else {
            RouterView { deferred: self.deferred.push(statement), ..self }
        }
    }

    /// The batch that goes to the table when `statement` is imported and its
    /// candidate is known: the statement itself, then the votes that waited
    /// for the candidate, oldest first.
    pub open spec fn batch(self, statement: SignedStatement) -> Seq<SignedStatement> {
        seq![statement] + self.deferred.queue(statement.statement.spec_candidate_hash())
    }

    /// The state after the router was closed.
    pub open spec fn close(self) -> RouterView {
        RouterView { deferred: DeferredView::empty(), subscribed: false, ..self }
    }

    /// The topic to unsubscribe from when the router is closed in this state.
    pub open spec fn unsubscribes(self) -> Option<H256> {
        if self.subscribed {
            Some(self.attestation_topic)
        } else {
            None
        }
    }
}

/// What follows for one statement of a batch and the table's answer for it.
pub open spec fn dispatch_step<W>(
    candidate_hash: H256,
    statement: SignedStatement,
    producer: Option<W>,
) -> Seq<Dispatch<W>> {
    match producer {
        Some(work) => seq![
            Dispatch::NoteStatement(statement),
            Dispatch::SpawnWork { candidate_hash, work },
        ],
        None => seq![Dispatch::NoteStatement(statement)],
    }
}

/// The table's answer for the statement at place `i`; none where the table
/// gave no answer for that place.
pub open spec fn producer_at<W>(producers: Seq<Option<W>>, i: int) -> Option<W> {
    if 0 <= i < producers.len() {
        producers[i]
    } else {
        None
    }
}

/// What follows for the first `n` statements of a batch, in order.
pub open spec fn dispatch_plan<W>(
    candidate_hash: H256,
    statements: Seq<SignedStatement>,
    producers: Seq<Option<W>>,
    n: nat,
) -> Seq<Dispatch<W>>
    decreases n,
{
    if n == 0 {
        Seq::empty()
    } else {
        dispatch_plan(candidate_hash, statements, producers, (n - 1) as nat) + dispatch_step(
            candidate_hash,
            statements[n - 1],
            producer_at(producers, n - 1),
        )
    }
}

/// Table routing for one round.
pub struct Router {
    parent_hash: H256,
    attestation_topic: H256,
    deferred_statements: DeferredStatements,
    subscribed: bool,
}

impl View for Router {
    type V = RouterView;

    closed spec fn view(&self) -> RouterView {
        RouterView {
            parent_hash: self.parent_hash,
            attestation_topic: self.attestation_topic,
            deferred: self.deferred_statements@,
            subscribed: self.subscribed,
        }
    }
}

impl Router {
    /// The buffer of waiting votes is well formed.
    pub closed spec fn inv(&self) -> bool {
        self.deferred_statements.wf()
    }

    /// The router is well formed, in its representation and in what it holds.
    pub open spec fn wf(&self) -> bool {
        self.inv() && self@.deferred.wf()
    }

    /// The router of the round with the given parent hash: subscribed to the
    /// round's attestation topic, with nothing deferred.
    pub fn new(parent_hash: H256) -> (router: Router)
        ensures
            router.wf(),
            router@.parent_hash == parent_hash,
            router@.attestation_topic@ == blake2_256_digest(parent_hash@ + attestation_suffix()),
            router@.deferred == DeferredView::empty(),
            router@.subscribed,
    {
        Router {
            parent_hash,
            attestation_topic: attestation_topic(parent_hash),
            deferred_statements: DeferredStatements::new(),
            subscribed: true,
        }
    }

    /// The parent hash of the round.
    pub fn parent_hash(&self) -> (hash: H256)
        ensures
            hash == self@.parent_hash,
    {
        self.parent_hash
    }

    /// The gossip topic of the round's statements.
    pub fn attestation_topic(&self) -> (topic: H256)
        ensures
            topic == self@.attestation_topic,
    {
        self.attestation_topic
    }

    /// Whether the router is still subscribed to its topic.
    pub fn is_subscribed(&self) -> (subscribed: bool)
        ensures
            subscribed == self@.subscribed,
    {
        self.subscribed
    }

    /// Decides about one gossip message of the round's topic, given what
    /// decoding it gave and whether the signature of the decoded statement
    /// holds for its sender and this round. A message that did not decode, or
    /// whose signature does not hold, is dropped, and so is any message once
    /// the router is closed.
    pub fn checked_statement(
        &self,
        decoded: Option<SignedStatement>,
        signature_valid: bool,
    ) -> (checked: Option<SignedStatement>)
        ensures
            checked == if self@.subscribed && signature_valid {
                decoded
            } else {
                None
            },
    {
        if self.subscribed && signature_valid {
            decoded
        } else {
            None
        }
    }

    /// The candidate that the table has to be asked about before `statement`
    /// is imported; none for a statement that carries its candidate.
    pub fn table_query(statement: &SignedStatement) -> (query: Option<H256>)
        ensures
            query == match statement.statement {
                Statement::Candidate(_) => None,
                Statement::Valid(hash) => Some(hash),
                Statement::Invalid(hash) => Some(hash),
            },
    {
        match &statement.statement {
            Statement::Candidate(_) => None,
            Statement::Valid(hash) => Some(*hash),
            Statement::Invalid(hash) => Some(*hash),
        }
    }

    /// Imports a statement whose signature has been checked already.
    /// `known_to_table` says whether the table has imported the candidate
    /// that a vote is about; it is not looked at for a statement that carries
    /// its candidate. Where the candidate is unknown the statement is
    /// deferred. Otherwise the votes that waited for the candidate leave the
    /// buffer, and the batch for the table is the statement followed by them
    /// in the order of their arrival.
    pub fn import_statement(&mut self, statement: SignedStatement, known_to_table: bool) -> (outcome:
        Import)
        requires
            old(self).wf(),
        ensures
            final(self).wf(),
            final(self)@ == old(self)@.import(statement, known_to_table),
            match outcome {
                Import::Closed => !old(self)@.subscribed,
                Import::Deferred => old(self)@.subscribed && !candidate_known(
                    statement,
                    known_to_table,
                ),
                Import::Batch { candidate_hash, statements } => {
                    &&& old(self)@.subscribed
                    &&& candidate_known(statement, known_to_table)
                    &&& candidate_hash == statement.statement.spec_candidate_hash()
                    &&& statements@ == old(self)@.batch(statement)
                    &&& statement.statement matches Statement::Candidate(receipt)
                        ==> candidate_hash@ == blake2_256_digest(receipt.spec_encoded())
                },
            },
    {
        if !self.subscribed {
            return Import::Closed;
        }
        let candidate_data = match &statement.statement {
            Statement::Candidate(receipt) => Some(receipt.hash()),
            Statement::Valid(hash) => if known_to_table {
                Some(*hash)
            } else {
                None
            },
            Statement::Invalid(hash) => if known_to_table {
                Some(*hash)
            } else {
                None
            },
        };
        match candidate_data {
            None => {
                self.deferred_statements.push(statement);
                Import::Deferred
            },
            Some(candidate_hash) => {
                let (mut statements, _traces) = self.deferred_statements.get_deferred(
                    &candidate_hash,
                );
                statements.insert(0, statement);
                assert(statements@ == old(self)@.batch(statement));
                Import::Batch { candidate_hash, statements }
            },
        }
    }

    /// What follows from the table's answer to a batch: for each statement
    /// of the batch, in order, a note in the knowledge tracker, and after it
    /// a validation task where the table unlocked work for that statement.
    /// `producers` holds the table's answers in the order of the statements.
    pub fn dispatch<W>(
        candidate_hash: H256,
        statements: Vec<SignedStatement>,
        producers: Vec<Option<W>>,
    ) -> (actions: Vec<Dispatch<W>>)
        ensures
            actions@ == dispatch_plan(
                candidate_hash,
                statements@,
                producers@,
                statements@.len(),
            ),
    {
        let mut producers = producers;
        let ghost answers = producers@;
        let count: usize = statements.len();
        let mut actions: Vec<Dispatch<W>> = Vec::new();
        let mut i: usize = 0;
        for statement in it: statements.into_iter()
            invariant
                i == it.index(),
                it.seq() == statements@,
                it.seq().len() == count,
                producers@.len() == answers.len(),
                forall|k: int| i <= k < answers.len() ==> producers@[k] == answers[k],
                actions@ == dispatch_plan(candidate_hash, statements@, answers, i as nat),
        {
            let producer = if i < producers.len() {
                producers[i].take()
            } else {
                None
            };
            assert(producer == producer_at(answers, i as int));
            actions.push(Dispatch::NoteStatement(statement));
            match producer {
                Some(work) => {
                    actions.push(Dispatch::SpawnWork { candidate_hash, work });
                },
                None => {},
            }
            i = i + 1;
        }
        actions
    }

    /// The task state for a unit of work that the table unlocked for the
    /// candidate `candidate_hash`: its statement will go out on this round's
    /// attestation topic.
    pub fn create_work(&self, candidate_hash: H256) -> (work: ValidationWork)
        ensures
            work@ == (WorkView {
                candidate_hash,
                attestation_topic: self@.attestation_topic,
                finished: false,
            }),
    {
        ValidationWork::new(candidate_hash, self.attestation_topic)
    }

    /// The gossip sends that bring the outgoing messages to the peers: for
    /// each source one send per group of neighbouring messages with the same
    /// target, in order. Each is to be published on the topic of the target's
    /// incoming messages in the round of `parent_hash`.
    pub fn broadcast_egress(&self, outgoing: Vec<OutgoingMessages>) -> (sends: Vec<EgressSend>)
        requires
            encodable(batch_views(outgoing@)),
        ensures
            send_views(sends@) == egress_sends(batch_views(outgoing@)),
    {
        egress_for(&outgoing)
    }

    /// Closes the router. The first call gives the topic to unsubscribe
    /// from; any later call gives nothing. What still waited is discarded.
    pub fn close(&mut self) -> (unsubscribe: Option<H256>)
        requires
            old(self).wf(),
        ensures
            final(self).wf(),
            final(self)@ == old(self)@.close(),
            unsubscribe == old(self)@.unsubscribes(),
    {
        let unsubscribe = if self.subscribed {
            Some(self.attestation_topic)
        } else {
            None
        };
        self.subscribed = false;
        self.deferred_statements = DeferredStatements::new();
        unsubscribe
    }
}

/// The statements that the actions note, in order.
pub open spec fn noted<W>(actions: Seq<Dispatch<W>>) -> Seq<SignedStatement>
    decreases actions.len(),
{
    if actions.len() == 0 {
        Seq::empty()
    } else {
        match actions.last() {
            Dispatch::NoteStatement(statement) => noted(actions.drop_last()).push(statement),
            Dispatch::SpawnWork { .. } => noted(actions.drop_last()),
        }
    }
}

/// The work that the actions spawn, in order.
pub open spec fn spawned<W>(actions: Seq<Dispatch<W>>) -> Seq<W>
    decreases actions.len(),
{
    if actions.len() == 0 {
        Seq::empty()
    } else {
        match actions.last() {
            Dispatch::NoteStatement(_) => spawned(actions.drop_last()),
            Dispatch::SpawnWork { work, .. } => spawned(actions.drop_last()).push(work),
        }
    }
}

/// The work that the table unlocked for the first `n` statements of a batch.
pub open spec fn unlocked<W>(producers: Seq<Option<W>>, n: nat) -> Seq<W>
    decreases n,
{
    if n == 0 {
        Seq::empty()
    } else {
        match producer_at(producers, n - 1) {
            Some(work) => unlocked(producers, (n - 1) as nat).push(work),
            None => unlocked(producers, (n - 1) as nat),
        }
    }
}

/// Every statement of a batch is noted exactly once and in the order of the
/// batch, whether it unlocked work or not; the work that is spawned is the
/// work that the table unlocked, each unit once and in the same order.
pub proof fn law_dispatch_notes_each_statement_once<W>(
    candidate_hash: H256,
    statements: Seq<SignedStatement>,
    producers: Seq<Option<W>>,
    n: nat,
)
    requires
        n <= statements.len(),
    ensures
        noted(dispatch_plan(candidate_hash, statements, producers, n)) == statements.take(
            n as int,
        ),
        spawned(dispatch_plan(candidate_hash, statements, producers, n)) == unlocked(producers, n),
    decreases n,
{
    if n == 0 {
        assert(statements.take(0) =~= Seq::<SignedStatement>::empty());
    } else {
        let before = dispatch_plan(candidate_hash, statements, producers, (n - 1) as nat);
        law_dispatch_notes_each_statement_once(
            candidate_hash,
            statements,
            producers,
            (n - 1) as nat,
        );
        let statement = statements[n - 1];
        let note = Dispatch::<W>::NoteStatement(statement);
        let with_note = before.push(note);
        assert(with_note.drop_last() == before);
        assert(noted(with_note) == noted(before).push(statement));
        assert(spawned(with_note) == spawned(before));
        assert(statements.take(n - 1).push(statement) =~= statements.take(n as int));
        match producer_at(producers, n - 1) {
            Some(work) => {
                let spawn = Dispatch::SpawnWork { candidate_hash, work };
                let all = with_note.push(spawn);
                assert(all.drop_last() == with_note);
                assert(before + seq![note, spawn] =~= all);
            },
            None => {
                assert(before + seq![note] =~= with_note);
            },
        }
    }
}

/// The buffer after the statements of `arrivals` were offered to it one
/// after the other.
pub open spec fn push_all(buffer: DeferredView, arrivals: Seq<SignedStatement>) -> DeferredView
    decreases arrivals.len(),
{
    if arrivals.len() == 0 {
        buffer
    } else {
        push_all(buffer, arrivals.drop_last()).push(arrivals.last())
    }
}

/// Whether `votes` are votes about the candidate `hash` of which the buffer
/// knows none, and no two of which have the same trace.
pub open spec fn fresh_votes(buffer: DeferredView, hash: H256, votes: Seq<SignedStatement>) -> bool {
    &&& forall|i: int| 0 <= i < votes.len() ==> vote_about(#[trigger] votes[i], hash)
    &&& forall|i: int|
        0 <= i < votes.len() ==> !buffer.traces.contains((#[trigger] votes[i]).spec_trace()->0)
    &&& forall|i: int, j: int|
        0 <= i < j < votes.len() ==> (#[trigger] votes[i]).spec_trace() != (
        #[trigger] votes[j]).spec_trace()
}

/// Votes that are deferred one after the other wait in the order of their
/// arrival, behind those that waited before.
pub proof fn law_votes_wait_in_arrival_order(
    buffer: DeferredView,
    hash: H256,
    votes: Seq<SignedStatement>,
)
    requires
        buffer.wf(),
        fresh_votes(buffer, hash, votes),
    ensures
        push_all(buffer, votes).wf(),
        push_all(buffer, votes).queue(hash) == buffer.queue(hash) + votes,
        forall|t: StatementTrace|
            push_all(buffer, votes).traces.contains(t) <==> buffer.traces.contains(t) || exists|
                i: int,
            |
                0 <= i < votes.len() && (#[trigger] votes[i]).spec_trace() == Some(t),
    decreases votes.len(),
{
    if votes.len() == 0 {
        assert(buffer.queue(hash) + votes =~= buffer.queue(hash));
    } else {
        let earlier = votes.drop_last();
        let last = votes.last();
        assert(fresh_votes(buffer, hash, earlier)) by {
            assert forall|i: int| 0 <= i < earlier.len() implies earlier[i] == votes[i] by {}
        }
        law_votes_wait_in_arrival_order(buffer, hash, earlier);
        let before = push_all(buffer, earlier);
        let trace = last.spec_trace()->0;
        assert(vote_about(votes[votes.len() - 1], hash));
        assert(!before.traces.contains(trace)) by {
            assert(!buffer.traces.contains(votes[votes.len() - 1].spec_trace()->0));
            if exists|i: int| 0 <= i < earlier.len() && (#[trigger] earlier[i]).spec_trace() == Some(trace) {
                let i = choose|i: int|
                    0 <= i < earlier.len() && (#[trigger] earlier[i]).spec_trace() == Some(trace);
                assert(votes[i].spec_trace() != votes[votes.len() - 1].spec_trace());
            }
        }
        lemma_push_keeps_wf(before, last);
        assert(before.push(last).queue(hash) == before.queue(hash).push(last));
        assert((buffer.queue(hash) + earlier).push(last) =~= buffer.queue(hash) + votes);
        assert forall|t: StatementTrace|
            push_all(buffer, votes).traces.contains(t) <==> buffer.traces.contains(t) || exists|
                i: int,
            |
                0 <= i < votes.len() && (#[trigger] votes[i]).spec_trace() == Some(t) by {
            if exists|i: int| 0 <= i < earlier.len() && (#[trigger] earlier[i]).spec_trace() == Some(t) {
                let i = choose|i: int|
                    0 <= i < earlier.len() && (#[trigger] earlier[i]).spec_trace() == Some(t);
                assert(votes[i].spec_trace() == Some(t));
            }
            if exists|i: int| 0 <= i < votes.len() && (#[trigger] votes[i]).spec_trace() == Some(t) {
                let i = choose|i: int|
                    0 <= i < votes.len() && (#[trigger] votes[i]).spec_trace() == Some(t);
                if i < earlier.len() {
                    assert(earlier[i].spec_trace() == Some(t));
                }
            }
            if t == trace {
                assert(votes[votes.len() - 1].spec_trace() == Some(t));
            }
        }
    }
}

/// Votes about a candidate that arrive before the statement that carries it
/// reach the table only with that statement and behind it: the batch is the
/// statement, then the votes that waited already, then the new ones in the
/// order of their arrival. While they wait nothing is handed to the table,
/// and once the batch is out none of them waits on.
pub proof fn law_causal_order(
    router: RouterView,
    votes: Seq<SignedStatement>,
    defining: SignedStatement,
)
    requires
        router.subscribed,
        router.deferred.wf(),
        defining.statement is Candidate,
        fresh_votes(router.deferred, defining.statement.spec_candidate_hash(), votes),
    ensures
        import_all(router, votes).subscribed,
        import_all(router, votes).deferred == push_all(router.deferred, votes),
        import_all(router, votes).batch(defining) == seq![defining] + (router.deferred.queue(
            defining.statement.spec_candidate_hash(),
        ) + votes),
        import_all(router, votes).import(defining, false).deferred.queue(
            defining.statement.spec_candidate_hash(),
        ).len() == 0,
{
    let hash = defining.statement.spec_candidate_hash();
    lemma_import_all_defers(router, votes);
    law_votes_wait_in_arrival_order(router.deferred, hash, votes);
}

/// The router after each of `arrivals` was offered for import while the
/// table did not know its candidate.
pub open spec fn import_all(router: RouterView, arrivals: Seq<SignedStatement>) -> RouterView
    decreases arrivals.len(),
{
    if arrivals.len() == 0 {
        router
    } else {
        import_all(router, arrivals.drop_last()).import(arrivals.last(), false)
    }
}

proof fn lemma_import_all_defers(router: RouterView, votes: Seq<SignedStatement>)
    requires
        router.subscribed,
        forall|i: int| 0 <= i < votes.len() ==> (#[trigger] votes[i]).spec_trace() is Some,
    ensures
        import_all(router, votes) == (RouterView {
            deferred: push_all(router.deferred, votes),
            ..router
        }),
    decreases votes.len(),
{
    if votes.len() > 0 {
        let earlier = votes.drop_last();
        assert forall|i: int| 0 <= i < earlier.len() implies (
        #[trigger] earlier[i]).spec_trace() is Some by {
            assert(earlier[i] == votes[i]);
        }
        lemma_import_all_defers(router, earlier);
        assert(votes[votes.len() - 1].spec_trace() is Some);
    }
}

/// Closing a router unsubscribes from its topic exactly once, whatever was
/// imported before: the first close names the topic, every later one names
/// nothing, and an import never ends the subscription nor changes the topic.
pub proof fn law_teardown_unsubscribes_once(
    router: RouterView,
    statement: SignedStatement,
    known_to_table: bool,
)
    requires
        router.subscribed,
    ensures
        router.unsubscribes() == Some(router.attestation_topic),
        router.close().unsubscribes() == None::<H256>,
        router.close().close() == router.close(),
        router.import(statement, known_to_table).unsubscribes() == router.unsubscribes(),
        router.close().import(statement, known_to_table) == router.close(),
{
}

} // verus!
