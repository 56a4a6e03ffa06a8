//! Statements about candidates, as validators sign and gossip them.

use crate::primitives::{blake2_256_digest, hash_eq, CandidateReceipt, H256, SessionKey, Signature};
use vstd::prelude::*;

verus! {

/// What a validator asserts about a candidate.
#[derive(Clone, Debug, PartialEq, Eq)]
pub enum Statement {
    /// A candidate with this descriptor exists.
    Candidate(CandidateReceipt),
    /// The candidate with this hash is valid.
    Valid(H256),
    /// The candidate with this hash is invalid.
    Invalid(H256),
}

/// A statement with its sender and the sender's signature.
#[derive(Clone, Debug, PartialEq, Eq)]
pub struct SignedStatement {
    pub statement: Statement,
    pub sender: SessionKey,
    pub signature: Signature,
}

/// What identifies a vote while it is deferred: its sender, the candidate it
/// is about and its polarity.
#[derive(Clone, Copy, Debug, PartialEq, Eq)]
pub enum StatementTrace {
    Valid(SessionKey, H256),
    Invalid(SessionKey, H256),
}

impl StatementTrace {
    /// The candidate the traced vote is about.
    pub open spec fn spec_candidate_hash(&self) -> H256 {
        match *self {
            StatementTrace::Valid(_, hash) => hash,
            StatementTrace::Invalid(_, hash) => hash,
        }
    }

    /// The candidate the traced vote is about.
    pub fn candidate_hash(&self) -> (hash: H256)
        ensures
            hash == self.spec_candidate_hash(),
    {
        match *self {
            StatementTrace::Valid(_, hash) => hash,
            StatementTrace::Invalid(_, hash) => hash,
        }
    }

    /// Whether two traces name the same sender, candidate and polarity.
    pub fn same(&self, other: &StatementTrace) -> (same: bool)
        ensures
            same == (*self == *other),
    {
        match (self, other) {
            (StatementTrace::Valid(s1, h1), StatementTrace::Valid(s2, h2)) => {
                hash_eq(s1, s2) && hash_eq(h1, h2)
            },
            (StatementTrace::Invalid(s1, h1), StatementTrace::Invalid(s2, h2)) => {
                hash_eq(s1, s2) && hash_eq(h1, h2)
            },
            _ => false,
        }
    }
}

impl Statement {
    /// The candidate the statement is about: the hash of the descriptor it
    /// carries, or the hash it names.
    pub open spec fn spec_candidate_hash(&self) -> H256 {
        match *self {
            Statement::Candidate(receipt) => receipt.spec_hash(),
            Statement::Valid(hash) => hash,
            Statement::Invalid(hash) => hash,
        }
    }

    /// The candidate the statement is about. For a statement that carries a
    /// candidate this is the digest of the encoded descriptor.
    pub fn candidate_hash(&self) -> (hash: H256)
        ensures
            hash == self.spec_candidate_hash(),
            self matches Statement::Candidate(receipt) ==> hash@ == blake2_256_digest(
                receipt.spec_encoded(),
            ),
    {
        match self {
            Statement::Candidate(receipt) => receipt.hash(),
            Statement::Valid(hash) => *hash,
            Statement::Invalid(hash) => *hash,
        }
    }
}

impl SignedStatement {
    /// The trace of a vote; a statement that carries a candidate has none.
    pub open spec fn spec_trace(&self) -> Option<StatementTrace> {
        match self.statement {
            Statement::Candidate(_) => None,
            Statement::Valid(hash) => Some(StatementTrace::Valid(self.sender, hash)),
            Statement::Invalid(hash) => Some(StatementTrace::Invalid(self.sender, hash)),
        }
    }

    /// The trace of a vote; a statement that carries a candidate has none.
    pub fn trace(&self) -> (trace: Option<StatementTrace>)
        ensures
            trace == self.spec_trace(),
    {
        match &self.statement {
            Statement::Candidate(_) => None,
            Statement::Valid(hash) => Some(StatementTrace::Valid(self.sender, *hash)),
            Statement::Invalid(hash) => Some(StatementTrace::Invalid(self.sender, *hash)),
        }
    }
}

} // verus!
