use statement_router::deferred::DeferredStatements;
use statement_router::primitives::{CandidateReceipt, H256, SessionKey, Signature};
use statement_router::statement::{SignedStatement, Statement, StatementTrace};

fn vote(valid: bool, hash: H256, sender: SessionKey, signature: Signature) -> SignedStatement {
    let statement = if valid { Statement::Valid(hash) } else { Statement::Invalid(hash) };
    SignedStatement { statement, sender, signature }
}

#[test]
fn deferred_statements_works() {
    let mut deferred = DeferredStatements::new();
    let hash: H256 = [1; 32];
    let sig: Signature = [2; 64];
    let sender: SessionKey = [255; 32];

    let statement = SignedStatement {
        statement: Statement::Valid(hash),
        sender,
        signature: sig,
    };

    // pre-push.
    {
        let (signed, traces) = deferred.get_deferred(&hash);
        assert!(signed.is_empty());
        assert!(traces.is_empty());
    }

    deferred.push(statement.clone());
    deferred.push(statement.clone());

    // draining: second push should have been ignored.
    {
        let (signed, traces) = deferred.get_deferred(&hash);
        assert_eq!(signed.len(), 1);

        assert_eq!(traces.len(), 1);
        assert_eq!(signed[0].clone(), statement);
        assert_eq!(traces[0].clone(), StatementTrace::Valid(sender, hash));
    }

    // after draining
    {
        let (signed, traces) = deferred.get_deferred(&hash);
        assert!(signed.is_empty());
        assert!(traces.is_empty());
    }
}

#[test]
fn candidate_statement_is_never_deferred() {
    let mut deferred = DeferredStatements::new();
    let receipt = CandidateReceipt::new(vec![1, 2, 3]);
    let hash = receipt.hash();
    let waiting = vote(true, hash, [9; 32], [0; 64]);
    deferred.push(waiting.clone());
    deferred.push(SignedStatement {
        statement: Statement::Candidate(receipt),
        sender: [4; 32],
        signature: [5; 64],
    });
    let (signed, traces) = deferred.get_deferred(&hash);
    assert_eq!(signed, vec![waiting]);
    assert_eq!(traces, vec![StatementTrace::Valid([9; 32], hash)]);
}

#[test]
fn repeated_vote_with_another_signature_is_dropped() {
    let mut deferred = DeferredStatements::new();
    let hash: H256 = [3; 32];
    let first = vote(false, hash, [8; 32], [1; 64]);
    let second = vote(false, hash, [8; 32], [2; 64]);
    deferred.push(first.clone());
    deferred.push(second);
    let (signed, traces) = deferred.get_deferred(&hash);
    assert_eq!(signed, vec![first]);
    assert_eq!(traces, vec![StatementTrace::Invalid([8; 32], hash)]);
}

#[test]
fn both_polarities_of_one_sender_are_queued() {
    let mut deferred = DeferredStatements::new();
    let hash: H256 = [3; 32];
    let valid = vote(true, hash, [8; 32], [1; 64]);
    let invalid = vote(false, hash, [8; 32], [1; 64]);
    deferred.push(valid.clone());
    deferred.push(invalid.clone());
    let (signed, traces) = deferred.get_deferred(&hash);
    assert_eq!(signed, vec![valid, invalid]);
    assert_eq!(
        traces,
        vec![StatementTrace::Valid([8; 32], hash), StatementTrace::Invalid([8; 32], hash)]
    );
}

#[test]
fn votes_wait_in_the_order_of_their_arrival() {
    let mut deferred = DeferredStatements::new();
    let hash: H256 = [6; 32];
    let other: H256 = [7; 32];
    let a = vote(true, hash, [1; 32], [0; 64]);
    let b = vote(true, other, [1; 32], [0; 64]);
    let c = vote(false, hash, [2; 32], [0; 64]);
    let d = vote(true, hash, [3; 32], [0; 64]);
    deferred.push(a.clone());
    deferred.push(b.clone());
    deferred.push(c.clone());
    deferred.push(a.clone());
    deferred.push(d.clone());
    let (signed, traces) = deferred.get_deferred(&hash);
    assert_eq!(signed, vec![a, c, d]);
    assert_eq!(
        traces,
        vec![
            StatementTrace::Valid([1; 32], hash),
            StatementTrace::Invalid([2; 32], hash),
            StatementTrace::Valid([3; 32], hash),
        ]
    );
    let (signed, traces) = deferred.get_deferred(&other);
    assert_eq!(signed, vec![b]);
    assert_eq!(traces, vec![StatementTrace::Valid([1; 32], other)]);
}

#[test]
fn drained_vote_is_accepted_again() {
    let mut deferred = DeferredStatements::new();
    let hash: H256 = [1; 32];
    let statement = vote(true, hash, [255; 32], [2; 64]);
    deferred.push(statement.clone());
    let (signed, _) = deferred.get_deferred(&hash);
    assert_eq!(signed.len(), 1);
    let (signed, traces) = deferred.get_deferred(&hash);
    assert!(signed.is_empty());
    assert!(traces.is_empty());
    deferred.push(statement.clone());
    let (signed, traces) = deferred.get_deferred(&hash);
    assert_eq!(signed, vec![statement]);
    assert_eq!(traces, vec![StatementTrace::Valid([255; 32], hash)]);
}

#[test]
fn draining_one_candidate_keeps_the_traces_of_another() {
    let mut deferred = DeferredStatements::new();
    let hash: H256 = [1; 32];
    let other: H256 = [2; 32];
    let about_other = vote(true, other, [5; 32], [0; 64]);
    deferred.push(vote(true, hash, [5; 32], [0; 64]));
    deferred.push(about_other.clone());
    let _ = deferred.get_deferred(&hash);
    deferred.push(about_other.clone());
    let (signed, _) = deferred.get_deferred(&other);
    assert_eq!(signed, vec![about_other]);
}

#[test]
fn trace_names_its_candidate() {
    let trace = StatementTrace::Invalid([1; 32], [2; 32]);
    assert_eq!(trace.candidate_hash(), [2; 32]);
    assert!(trace.same(&StatementTrace::Invalid([1; 32], [2; 32])));
    assert!(!trace.same(&StatementTrace::Valid([1; 32], [2; 32])));
    assert!(!trace.same(&StatementTrace::Invalid([3; 32], [2; 32])));
    assert!(!trace.same(&StatementTrace::Invalid([1; 32], [4; 32])));
}
