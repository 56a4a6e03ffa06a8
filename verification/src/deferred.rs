//! The buffer of votes that arrived before their candidate was known.
//!
//! A vote about an unknown candidate means nothing to the statement table,
//! but it must not be lost either: it waits here until the candidate arrives.
//! While it waits, a second vote of the same sender, about the same candidate
//! and of the same polarity is dropped.

use crate::primitives::{hash_eq, H256};
use crate::statement::{SignedStatement, StatementTrace};
use vstd::prelude::*;
use vstd::seq_lib::lemma_seq_contains_after_push;

verus! {

/// What the buffer holds: for each candidate with waiting votes the votes in
/// the order of their arrival, and the traces of all waiting votes.
pub struct DeferredView {
    pub queues: Map<H256, Seq<SignedStatement>>,
    pub traces: Set<StatementTrace>,
}

/// Whether `statement` is a vote about the candidate `hash`.
pub open spec fn vote_about(statement: SignedStatement, hash: H256) -> bool {
    statement.spec_trace() is Some && statement.statement.spec_candidate_hash() == hash
}

impl DeferredView {
    /// The buffer in which nothing waits.
    pub open spec fn empty() -> DeferredView {
        DeferredView { queues: Map::empty(), traces: Set::empty() }
    }

    /// The votes that wait for the candidate `hash`, oldest first.
    pub open spec fn queue(self, hash: H256) -> Seq<SignedStatement> {
        if self.queues.dom().contains(hash) {
            self.queues[hash]
        } else {
            Seq::empty()
        }
    }

    /// Whether a vote with the given trace waits in the queue of its candidate.
    pub open spec fn queued(self, trace: StatementTrace) -> bool {
        exists|i: int|
            0 <= i < self.queue(trace.spec_candidate_hash()).len()
                && (#[trigger] self.queue(trace.spec_candidate_hash())[i]).spec_trace()
                == Some(trace)
    }

    /// The buffer after `statement` was offered to it. A statement that
    /// carries a candidate, and a vote whose trace is already known, change
    /// nothing; any other vote goes to the end of its candidate's queue.
    pub open spec fn push(self, statement: SignedStatement) -> DeferredView {
        match statement.spec_trace() {
            None => self,
            Some(trace) => {
                if self.traces.contains(trace) {
                    self
                } else {
                    let hash = trace.spec_candidate_hash();
                    DeferredView {
                        queues: self.queues.insert(hash, self.queue(hash).push(statement)),
                        traces: self.traces.insert(trace),
                    }
                }
            },
        }
    }

    /// The buffer after the candidate `hash` became known: its queue is gone,
    /// and so is every trace of a vote about it.
    pub open spec fn drain(self, hash: H256) -> DeferredView {
        DeferredView {
            queues: self.queues.remove(hash),
            traces: self.traces.filter(|t: StatementTrace| t.spec_candidate_hash() != hash),
        }
    }

    /// A queue that exists is not empty, holds only votes about its
    /// candidate, and no two of them with the same trace; a trace is known
    /// exactly when a vote with that trace waits.
    pub open spec fn wf(self) -> bool {
        &&& forall|h: H256| #[trigger]
            self.queues.dom().contains(h) ==> self.queues[h].len() > 0
        &&& forall|h: H256, i: int|
            0 <= i < self.queue(h).len() ==> vote_about(#[trigger] self.queue(h)[i], h)
        &&& forall|h: H256, i: int, j: int|
            0 <= i < j < self.queue(h).len() ==> (#[trigger] self.queue(h)[i]).spec_trace() != (
            #[trigger] self.queue(h)[j]).spec_trace()
        &&& forall|t: StatementTrace| #[trigger] self.traces.contains(t) <==> self.queued(t)
    }
}

/// The votes that wait for one candidate.
struct DeferredQueue {
    hash: H256,
    statements: Vec<SignedStatement>,
}

/// Whether some queue in `entries` belongs to the candidate `hash`.
spec fn holds_in(entries: Seq<DeferredQueue>, hash: H256) -> bool {
    exists|i: int| 0 <= i < entries.len() && (#[trigger] entries[i]).hash == hash
}

/// The place of the queue of the candidate `hash` in `entries`.
spec fn position_in(entries: Seq<DeferredQueue>, hash: H256) -> int {
    choose|i: int| 0 <= i < entries.len() && (#[trigger] entries[i]).hash == hash
}

/// No two queues in `entries` belong to the same candidate.
spec fn distinct(entries: Seq<DeferredQueue>) -> bool {
    forall|i: int, j: int|
        0 <= i < j < entries.len() ==> (#[trigger] entries[i]).hash != (#[trigger] entries[j]).hash
}

/// The queues of `entries` by candidate.
spec fn queues_of(entries: Seq<DeferredQueue>) -> Map<H256, Seq<SignedStatement>> {
    Map::new(
        |h: H256| holds_in(entries, h),
        |h: H256| entries[position_in(entries, h)].statements@,
    )
}

proof fn lemma_position(entries: Seq<DeferredQueue>, i: int)
    requires
        distinct(entries),
        0 <= i < entries.len(),
    ensures
        holds_in(entries, entries[i].hash),
        position_in(entries, entries[i].hash) == i,
        queues_of(entries).dom().contains(entries[i].hash),
        queues_of(entries)[entries[i].hash] == entries[i].statements@,
{
    let p = position_in(entries, entries[i].hash);
    assert(0 <= p < entries.len() && entries[p].hash == entries[i].hash);
    if p < i {
        assert(entries[p].hash != entries[i].hash);
    } else if i < p {
        assert(entries[i].hash != entries[p].hash);
    }
}

/// Votes about candidates that the statement table does not know yet.
pub struct DeferredStatements {
    deferred: Vec<DeferredQueue>,
    known_traces: Vec<StatementTrace>,
}

impl View for DeferredStatements {
    type V = DeferredView;

    closed spec fn view(&self) -> DeferredView {
        DeferredView {
            queues: queues_of(self.deferred@),
            traces: Set::new(|t: StatementTrace| self.known_traces@.contains(t)),
        }
    }
}

impl DeferredStatements {
    /// No candidate has two queues.
    pub closed spec fn inv(&self) -> bool {
        distinct(self.deferred@)
    }

    /// The buffer is well formed, in its representation and in what it holds.
    pub open spec fn wf(&self) -> bool {
        self.inv() && self@.wf()
    }

    /// An empty buffer.
    pub fn new() -> (buffer: DeferredStatements)
        ensures
            buffer.wf(),
            buffer@ == DeferredView::empty(),
    {
        let buffer = DeferredStatements { deferred: Vec::new(), known_traces: Vec::new() };
        assert(buffer@.queues =~= Map::empty());
        assert(buffer@.traces =~= Set::empty());
        buffer
    }

    /// The place of the queue of the candidate `hash`, if it has one.
    fn find(&self, hash: &H256) -> (found: Option<usize>)
        ensures
            match found {
                Some(i) => i < self.deferred.len() && self.deferred[i as int].hash == *hash,
                None => !holds_in(self.deferred@, *hash),
            },
    {
        let mut i: usize = 0;
        while i < self.deferred.len()
            invariant
                i <= self.deferred.len(),
                forall|k: int| 0 <= k < i ==> (#[trigger] self.deferred[k]).hash != *hash,
            decreases self.deferred.len() - i,
        {
            if hash_eq(&self.deferred[i].hash, hash) {
                return Some(i);
            }
            i = i + 1;
        }
        None
    }

    /// Whether `trace` is among the known traces.
    fn knows(&self, trace: &StatementTrace) -> (known: bool)
        ensures
            known == self@.traces.contains(*trace),
    {
        let mut i: usize = 0;
        while i < self.known_traces.len()
            invariant
                i <= self.known_traces.len(),
                forall|k: int| 0 <= k < i ==> self.known_traces[k] != *trace,
            decreases self.known_traces.len() - i,
        {
            if self.known_traces[i].same(trace) {
                return true;
            }
            i = i + 1;
        }
        false
    }

    /// Offers a statement whose candidate is unknown. A statement that
    /// carries a candidate is never deferred, and a vote that repeats a
    /// waiting one is dropped.
    pub fn push(&mut self, statement: SignedStatement)
        requires
            old(self).wf(),
        ensures
            final(self).wf(),
            final(self)@ == old(self)@.push(statement),
    {
        let trace = match statement.trace() {
            None => {
                return ;
            },
            Some(trace) => trace,
        };
        if self.knows(&trace) {
            return ;
        }
        let hash = trace.candidate_hash();
        let ghost before = self.deferred@;
        let ghost traces_before = self.known_traces@;
        let ghost view_before = self@;
        self.known_traces.push(trace);
        match self.find(&hash) {
            Some(i) => {
                proof {
                    lemma_position(before, i as int);
                }
                self.deferred[i].statements.push(statement);
                proof {
                    let after = self.deferred@;
                    assert(after.len() == before.len());
                    assert forall|k: int| 0 <= k < after.len() implies (#[trigger] after[k]).hash
                        == before[k].hash by {}
                    assert(distinct(after));
                    assert forall|h: H256| holds_in(after, h) == holds_in(before, h) by {
                        if holds_in(after, h) {
                            let k = position_in(after, h);
                            assert(before[k].hash == h);
                        }
                        if holds_in(before, h) {
                            let k = position_in(before, h);
                            assert(after[k].hash == h);
                        }
                    }
                    assert forall|h: H256| holds_in(after, h) implies #[trigger] queues_of(
                        after,
                    )[h] == view_before.push(statement).queues[h] by {
                        let k = position_in(after, h);
                        lemma_position(after, k);
                        lemma_position(before, k);
                    }
                    assert(queues_of(after) =~= view_before.push(statement).queues);
                }
            },
            None => {
                let mut statements: Vec<SignedStatement> = Vec::new();
                statements.push(statement);
                self.deferred.push(DeferredQueue { hash, statements });
                proof {
                    let after = self.deferred@;
                    let last = before.len() as int;
                    assert(after[last].hash == hash);
                    assert forall|k: int| 0 <= k < last implies (#[trigger] after[k]) == before[k] by {}
                    assert(distinct(after)) by {
                        assert forall|a: int, b: int| 0 <= a < b < after.len() implies (
                        #[trigger] after[a]).hash != (#[trigger] after[b]).hash by {
                            if b == last {
                                assert(before[a].hash != hash);
                            }
                        }
                    }
                    assert forall|h: H256| holds_in(after, h) == (holds_in(before, h) || h
                        == hash) by {
                        if holds_in(after, h) {
                            let k = position_in(after, h);
                            if k < last {
                                assert(before[k].hash == h);
                            }
                        }
                        if holds_in(before, h) {
                            let k = position_in(before, h);
                            assert(after[k].hash == h);
                        }
                    }
                    assert(Seq::<SignedStatement>::empty().push(statement) == statements@);
                    assert forall|h: H256| holds_in(after, h) implies #[trigger] queues_of(
                        after,
                    )[h] == view_before.push(statement).queues[h] by {
                        let k = position_in(after, h);
                        lemma_position(after, k);
                        if k < last {
                            lemma_position(before, k);
                        }
                    }
                    assert(queues_of(after) =~= view_before.push(statement).queues);
                }
            },
        }
        proof {
            assert(self.known_traces@ == traces_before.push(trace));
            assert forall|t: StatementTrace|
                self.known_traces@.contains(t) == (traces_before.contains(t) || t == trace) by {
                if self.known_traces@.contains(t) {
                    let k = choose|k: int|
                        0 <= k < self.known_traces@.len() && self.known_traces@[k] == t;
                    if k < traces_before.len() {
                        assert(traces_before[k] == t);
                    }
                }
                if traces_before.contains(t) {
                    let k = choose|k: int| 0 <= k < traces_before.len() && traces_before[k] == t;
                    assert(self.known_traces@[k] == t);
                }
                if t == trace {
                    assert(self.known_traces@[traces_before.len() as int] == t);
                }
            }
            assert(self@.traces =~= view_before.push(statement).traces);
            lemma_push_keeps_wf(view_before, statement);
        }
    }

    /// Takes out the votes that wait for the candidate `hash`, in the order
    /// of their arrival, and their traces in the same order. The buffer
    /// forgets those traces, so that later votes about the candidate are no
    /// longer held against them.
    pub fn get_deferred(&mut self, hash: &H256) -> (drained: (
        Vec<SignedStatement>,
        Vec<StatementTrace>,
    ))
        requires
            old(self).wf(),
        ensures
            final(self).wf(),
            final(self)@ == old(self)@.drain(*hash),
            drained.0@ == old(self)@.queue(*hash),
            drained.1@.len() == drained.0@.len(),
            forall|i: int|
                0 <= i < drained.0@.len() ==> (#[trigger] drained.0@[i]).spec_trace() == Some(
                    drained.1@[i],
                ),
    {
        let ghost before = self.deferred@;
        let ghost view_before = self@;
        match self.find(hash) {
            None => {
                proof {
                    assert(view_before.queues.remove(*hash) =~= view_before.queues);
                    assert forall|t: StatementTrace| #[trigger]
                        view_before.traces.contains(t) implies t.spec_candidate_hash()
                        != *hash by {
                        assert(view_before.queued(t));
                    }
                    assert(view_before.drain(*hash).traces =~= view_before.traces);
                }
                (Vec::new(), Vec::new())
            },
            Some(i) => {
                proof {
                    lemma_position(before, i as int);
                }
                let entry = self.deferred.remove(i);
                let statements = entry.statements;
                proof {
                    let after = self.deferred@;
                    assert(distinct(after)) by {
                        assert forall|a: int, b: int| 0 <= a < b < after.len() implies (
                        #[trigger] after[a]).hash != (#[trigger] after[b]).hash by {
                            let a0 = if a < i { a } else { a + 1 };
                            let b0 = if b < i { b } else { b + 1 };
                            assert(after[a] == before[a0]);
                            assert(after[b] == before[b0]);
                        }
                    }
                    assert forall|h: H256| holds_in(after, h) == (holds_in(before, h) && h
                        != *hash) by {
                        if holds_in(after, h) {
                            let k = position_in(after, h);
                            let k0 = if k < i { k } else { k + 1 };
                            assert(before[k0].hash == h);
                            if k0 < i {
                                assert(before[k0].hash != before[i as int].hash);
                            } else {
                                assert(before[i as int].hash != before[k0].hash);
                            }
                        }
                        if holds_in(before, h) && h != *hash {
                            let k0 = position_in(before, h);
                            let k = if k0 < i { k0 } else { k0 - 1 };
                            assert(after[k].hash == h);
                        }
                    }
                    assert forall|h: H256| holds_in(after, h) implies #[trigger] queues_of(
                        after,
                    )[h] == view_before.queues[h] by {
                        let k = position_in(after, h);
                        let k0 = if k < i { k } else { k + 1 };
                        assert(after[k] == before[k0]);
                        lemma_position(after, k);
                        lemma_position(before, k0);
                    }
                    assert(queues_of(after) =~= view_before.drain(*hash).queues);
                }
                proof {
                    assert(statements@ == view_before.queue(*hash));
                    assert forall|j: int| 0 <= j < statements@.len() implies (
                    #[trigger] statements@[j]).spec_trace() is Some by {
                        assert(vote_about(view_before.queue(*hash)[j], *hash));
                    }
                }
                let mut traces: Vec<StatementTrace> = Vec::new();
                let mut k: usize = 0;
                while k < statements.len()
                    invariant
                        k <= statements.len(),
                        traces@.len() == k,
                        forall|j: int|
                            0 <= j < statements@.len() ==> (#[trigger] statements@[j]).spec_trace()
                                is Some,
                        forall|j: int|
                            0 <= j < k ==> (#[trigger] statements@[j]).spec_trace() == Some(
                                traces@[j],
                            ),
                    decreases statements.len() - k,
                {
                    match statements[k].trace() {
                        None => {},
                        Some(trace) => {
                            traces.push(trace);
                        },
                    }
                    k = k + 1;
                }
                self.forget(hash);
                proof {
                    lemma_drain_keeps_wf(view_before, *hash);
                }
                (statements, traces)
            },
        }
    }

    /// Drops every known trace of a vote about the candidate `hash`.
    fn forget(&mut self, hash: &H256)
        ensures
            final(self).deferred == old(self).deferred,
            final(self)@.traces == old(self)@.traces.filter(
                |t: StatementTrace| t.spec_candidate_hash() != *hash,
            ),
    {
        let ghost traces_before = self.known_traces@;
        let mut kept: Vec<StatementTrace> = Vec::new();
        let mut i: usize = 0;
        while i < self.known_traces.len()
            invariant
                i <= self.known_traces.len(),
                self.known_traces@ == traces_before,
                self.deferred == old(self).deferred,
                forall|t: StatementTrace| #[trigger]
                    kept@.contains(t) <==> t.spec_candidate_hash() != *hash
                        && traces_before.subrange(0, i as int).contains(t),
            decreases self.known_traces.len() - i,
        {
            let trace = self.known_traces[i];
            let about = trace.candidate_hash();
            let ghost kept_before = kept@;
            if !hash_eq(&about, hash) {
                kept.push(trace);
            }
            proof {
                let seen = traces_before.subrange(0, i as int);
                assert(traces_before.subrange(0, i + 1) == seen.push(trace));
                assert forall|t: StatementTrace| #[trigger]
                    kept@.contains(t) <==> t.spec_candidate_hash() != *hash && seen.push(
                        trace,
                    ).contains(t) by {
                    assert(kept_before.contains(t) <==> t.spec_candidate_hash() != *hash
                        && seen.contains(t));
                    lemma_seq_contains_after_push(seen, trace, t);
                    if about != *hash {
                        lemma_seq_contains_after_push(kept_before, trace, t);
                    }
                }
            }
            i = i + 1;
        }
        proof {
            assert(traces_before.subrange(0, i as int) == traces_before);
        }
        self.known_traces = kept;
        proof {
            let filtered = old(self)@.traces.filter(
                |t: StatementTrace| t.spec_candidate_hash() != *hash,
            );
            assert forall|t: StatementTrace| self@.traces.contains(t) == filtered.contains(t) by {
                assert(kept@.contains(t) <==> t.spec_candidate_hash() != *hash
                    && traces_before.contains(t));
            }
            assert(self@.traces =~= filtered);
        }
    }
}

/// A well-formed buffer is well formed after any statement was offered to it.
pub proof fn lemma_push_keeps_wf(buffer: DeferredView, statement: SignedStatement)
    requires
        buffer.wf(),
    ensures
        buffer.push(statement).wf(),
{
    let after = buffer.push(statement);
    if let Some(trace) = statement.spec_trace() {
        if !buffer.traces.contains(trace) {
            let hash = trace.spec_candidate_hash();
            let old_queue = buffer.queue(hash);
            let new_queue = old_queue.push(statement);
            assert(after.queue(hash) == new_queue);
            assert forall|h: H256| h != hash implies after.queue(h) == buffer.queue(h) by {}
            assert(!buffer.queued(trace));
            assert forall|h: H256, i: int| 0 <= i < after.queue(h).len() implies vote_about(
                #[trigger] after.queue(h)[i],
                h,
            ) by {
                if h == hash && i < old_queue.len() {
                    assert(vote_about(buffer.queue(h)[i], h));
                } else if h != hash {
                    assert(vote_about(buffer.queue(h)[i], h));
                }
            }
            assert forall|h: H256, i: int, j: int| 0 <= i < j < after.queue(h).len() implies (
            #[trigger] after.queue(h)[i]).spec_trace() != (#[trigger] after.queue(
                h,
            )[j]).spec_trace() by {
                if h == hash {
                    if j < old_queue.len() {
                        assert(buffer.queue(h)[i].spec_trace() != buffer.queue(h)[j].spec_trace());
                    } else {
                        if old_queue[i].spec_trace() == Some(trace) {
                            assert(buffer.queue(trace.spec_candidate_hash())[i].spec_trace()
                                == Some(trace));
                            assert(buffer.queued(trace));
                        }
                    }
                } else {
                    assert(buffer.queue(h)[i].spec_trace() != buffer.queue(h)[j].spec_trace());
                }
            }
            assert forall|t: StatementTrace| #[trigger]
                after.traces.contains(t) <==> after.queued(t) by {
                let h = t.spec_candidate_hash();
                if after.traces.contains(t) {
                    if t == trace {
                        assert(after.queue(h)[old_queue.len() as int].spec_trace() == Some(t));
                    } else {
                        assert(buffer.queued(t));
                        let i = choose|i: int|
                            0 <= i < buffer.queue(h).len() && (#[trigger] buffer.queue(
                                h,
                            )[i]).spec_trace() == Some(t);
                        assert(after.queue(h)[i].spec_trace() == Some(t));
                    }
                }
                if after.queued(t) {
                    let i = choose|i: int|
                        0 <= i < after.queue(h).len() && (#[trigger] after.queue(
                            h,
                        )[i]).spec_trace() == Some(t);
                    if h == hash && i == old_queue.len() {
                        assert(t == trace);
                    } else {
                        assert(buffer.queue(h)[i].spec_trace() == Some(t));
                        assert(buffer.queued(t));
                    }
                }
            }
        }
    }
}

/// A well-formed buffer is well formed after any candidate's queue was taken out.
pub proof fn lemma_drain_keeps_wf(buffer: DeferredView, hash: H256)
    requires
        buffer.wf(),
    ensures
        buffer.drain(hash).wf(),
{
    let after = buffer.drain(hash);
    assert(after.queue(hash) == Seq::<SignedStatement>::empty());
    assert forall|h: H256| h != hash implies after.queue(h) == buffer.queue(h) by {}
    assert forall|h: H256, i: int| 0 <= i < after.queue(h).len() implies vote_about(
        #[trigger] after.queue(h)[i],
        h,
    ) by {
        assert(vote_about(buffer.queue(h)[i], h));
    }
    assert forall|h: H256, i: int, j: int| 0 <= i < j < after.queue(h).len() implies (
    #[trigger] after.queue(h)[i]).spec_trace() != (#[trigger] after.queue(h)[j]).spec_trace() by {
        assert(buffer.queue(h)[i].spec_trace() != buffer.queue(h)[j].spec_trace());
    }
    assert forall|t: StatementTrace| #[trigger] after.traces.contains(t) <==> after.queued(t) by {
        let h = t.spec_candidate_hash();
        if after.traces.contains(t) {
            assert(buffer.queued(t));
            let i = choose|i: int|
                0 <= i < buffer.queue(h).len() && (#[trigger] buffer.queue(h)[i]).spec_trace()
                    == Some(t);
            assert(after.queue(h)[i].spec_trace() == Some(t));
        }
        if after.queued(t) {
            let i = choose|i: int|
                0 <= i < after.queue(h).len() && (#[trigger] after.queue(h)[i]).spec_trace()
                    == Some(t);
            assert(buffer.queue(h)[i].spec_trace() == Some(t));
            assert(buffer.queued(t));
        }
    }
}

/// A statement that carries a candidate is never deferred: offering it
/// leaves the queues and the known traces as they were.
pub proof fn law_candidate_is_not_deferred(buffer: DeferredView, statement: SignedStatement)
    requires
        statement.spec_trace() is None,
    ensures
        buffer.push(statement) == buffer,
{
}

/// Of two votes with the same sender, candidate and polarity that are offered
/// one after the other, only the first is queued: the second changes nothing,
/// and the candidate's queue has grown by at most the first.
pub proof fn law_repeated_vote_is_dropped(
    buffer: DeferredView,
    first: SignedStatement,
    second: SignedStatement,
)
    requires
        first.spec_trace() is Some,
        first.spec_trace() == second.spec_trace(),
    ensures
        buffer.push(first).push(second) == buffer.push(first),
        !buffer.traces.contains(first.spec_trace()->0) ==> buffer.push(first).push(second).queue(
            first.statement.spec_candidate_hash(),
        ) == buffer.queue(first.statement.spec_candidate_hash()).push(first),
        buffer.traces.contains(first.spec_trace()->0) ==> buffer.push(first).push(second)
            == buffer,
{
}

/// After a candidate's queue was taken out, nothing waits for that candidate
/// and none of its traces is known, so taking it out again gives nothing; a
/// vote about it is then accepted as if it had never been seen.
pub proof fn law_drain_resets(buffer: DeferredView, hash: H256, vote: SignedStatement)
    requires
        buffer.wf(),
        vote_about(vote, hash),
    ensures
        buffer.drain(hash).queue(hash) == Seq::<SignedStatement>::empty(),
        forall|t: StatementTrace|
            t.spec_candidate_hash() == hash ==> !(#[trigger] buffer.drain(hash).traces.contains(t)),
        buffer.drain(hash).drain(hash) == buffer.drain(hash),
        buffer.drain(hash).push(vote).queue(hash) == seq![vote],
        buffer.drain(hash).push(vote).traces.contains(vote.spec_trace()->0),
{
    let drained = buffer.drain(hash);
    assert(drained.drain(hash).queues =~= drained.queues);
    assert(drained.drain(hash).traces =~= drained.traces);
    assert(vote.spec_trace()->0.spec_candidate_hash() == hash);
    assert(drained.push(vote).queue(hash) =~= seq![vote]);
}

/// Taking out one candidate's queue leaves every other candidate's queue,
/// and the traces of its votes, as they were.
pub proof fn law_drain_keeps_others(buffer: DeferredView, hash: H256, other: H256)
    requires
        other != hash,
    ensures
        buffer.drain(hash).queue(other) == buffer.queue(other),
        forall|t: StatementTrace|
            t.spec_candidate_hash() == other ==> (#[trigger] buffer.drain(hash).traces.contains(t))
                == buffer.traces.contains(t),
{
}

} // verus!
