use statement_router::primitives::{attestation_topic, CandidateReceipt, H256, SessionKey};
use statement_router::router::{Dispatch, Import, Router};
use statement_router::statement::{SignedStatement, Statement};

fn valid(hash: H256, sender: SessionKey) -> SignedStatement {
    SignedStatement { statement: Statement::Valid(hash), sender, signature: [0; 64] }
}

fn invalid(hash: H256, sender: SessionKey) -> SignedStatement {
    SignedStatement { statement: Statement::Invalid(hash), sender, signature: [0; 64] }
}

fn candidate(receipt: &CandidateReceipt, sender: SessionKey) -> SignedStatement {
    SignedStatement { statement: Statement::Candidate(receipt.clone()), sender, signature: [1; 64] }
}

/// Offers a statement to the router as the gossip pipeline does, with a
/// table that knows the candidates in `known`, and hands each batch to `table`.
fn import(
    router: &mut Router,
    known: &mut Vec<H256>,
    table: &mut Vec<SignedStatement>,
    statement: SignedStatement,
) {
    let known_to_table = match Router::table_query(&statement) {
        Some(hash) => known.contains(&hash),
        None => false,
    };
    match router.import_statement(statement, known_to_table) {
        Import::Batch { candidate_hash, statements } => {
            if !known.contains(&candidate_hash) {
                known.push(candidate_hash);
            }
            table.extend(statements);
        }
        Import::Deferred => {}
        Import::Closed => {}
    }
}

#[test]
fn new_router_is_subscribed_to_the_attestation_topic() {
    let router = Router::new([7; 32]);
    assert_eq!(router.parent_hash(), [7; 32]);
    assert_eq!(router.attestation_topic(), attestation_topic([7; 32]));
    let topic: H256 = [
        106, 202, 74, 67, 174, 86, 227, 132, 123, 86, 161, 82, 75, 169, 26, 150, 236, 143, 144,
        214, 55, 0, 207, 158, 91, 182, 179, 155, 12, 3, 163, 45,
    ];
    assert_eq!(router.attestation_topic(), topic);
    assert!(router.is_subscribed());
}

#[test]
fn vote_before_candidate_reaches_the_table_behind_it() {
    let mut router = Router::new([0; 32]);
    let mut known = Vec::new();
    let mut table = Vec::new();
    let receipt = CandidateReceipt::new(vec![10, 20, 30]);
    let h = receipt.hash();
    let s: SessionKey = [5; 32];

    import(&mut router, &mut known, &mut table, valid(h, s));
    assert_eq!(table.len(), 0);

    import(&mut router, &mut known, &mut table, valid(h, s));
    assert_eq!(table.len(), 0);

    import(&mut router, &mut known, &mut table, candidate(&receipt, [6; 32]));
    assert_eq!(table, vec![candidate(&receipt, [6; 32]), valid(h, s)]);
}

#[test]
fn deferred_votes_follow_the_candidate_in_arrival_order() {
    let mut router = Router::new([0; 32]);
    let receipt = CandidateReceipt::new(vec![1]);
    let h = receipt.hash();
    assert_eq!(router.import_statement(valid(h, [1; 32]), false), Import::Deferred);
    assert_eq!(router.import_statement(invalid(h, [2; 32]), false), Import::Deferred);
    assert_eq!(router.import_statement(valid([9; 32], [1; 32]), false), Import::Deferred);
    assert_eq!(router.import_statement(valid(h, [3; 32]), false), Import::Deferred);
    let outcome = router.import_statement(candidate(&receipt, [4; 32]), false);
    assert_eq!(
        outcome,
        Import::Batch {
            candidate_hash: h,
            statements: vec![
                candidate(&receipt, [4; 32]),
                valid(h, [1; 32]),
                invalid(h, [2; 32]),
                valid(h, [3; 32]),
            ],
        }
    );
    let again = router.import_statement(candidate(&receipt, [4; 32]), true);
    assert_eq!(
        again,
        Import::Batch { candidate_hash: h, statements: vec![candidate(&receipt, [4; 32])] }
    );
}

#[test]
fn vote_about_known_candidate_goes_straight_through() {
    let mut router = Router::new([0; 32]);
    let outcome = router.import_statement(invalid([8; 32], [1; 32]), true);
    assert_eq!(
        outcome,
        Import::Batch { candidate_hash: [8; 32], statements: vec![invalid([8; 32], [1; 32])] }
    );
    let repeated = router.import_statement(invalid([8; 32], [1; 32]), true);
    assert_eq!(
        repeated,
        Import::Batch { candidate_hash: [8; 32], statements: vec![invalid([8; 32], [1; 32])] }
    );
}

#[test]
fn vote_about_candidate_that_became_known_elsewhere_takes_the_waiting_votes_along() {
    let mut router = Router::new([0; 32]);
    assert_eq!(router.import_statement(valid([8; 32], [1; 32]), false), Import::Deferred);
    let outcome = router.import_statement(valid([8; 32], [2; 32]), true);
    assert_eq!(
        outcome,
        Import::Batch {
            candidate_hash: [8; 32],
            statements: vec![valid([8; 32], [2; 32]), valid([8; 32], [1; 32])],
        }
    );
}

#[test]
fn candidate_statement_is_imported_whatever_the_table_says() {
    let mut router = Router::new([0; 32]);
    let receipt = CandidateReceipt::new(vec![4, 4]);
    let statement = candidate(&receipt, [1; 32]);
    assert_eq!(Router::table_query(&statement), None);
    let outcome = router.import_statement(statement.clone(), false);
    assert_eq!(outcome, Import::Batch { candidate_hash: receipt.hash(), statements: vec![statement] });
}

#[test]
fn table_is_asked_about_the_candidate_of_a_vote() {
    assert_eq!(Router::table_query(&valid([3; 32], [1; 32])), Some([3; 32]));
    assert_eq!(Router::table_query(&invalid([4; 32], [1; 32])), Some([4; 32]));
}

#[test]
fn close_unsubscribes_exactly_once() {
    let mut router = Router::new([7; 32]);
    let topic = router.attestation_topic();
    assert_eq!(router.close(), Some(topic));
    assert!(!router.is_subscribed());
    assert_eq!(router.close(), None);
    assert_eq!(router.close(), None);
}

#[test]
fn close_after_imports_unsubscribes_exactly_once() {
    let mut router = Router::new([7; 32]);
    let topic = router.attestation_topic();
    assert_eq!(router.import_statement(valid([1; 32], [2; 32]), false), Import::Deferred);
    assert_eq!(router.close(), Some(topic));
    assert_eq!(router.close(), None);
}

#[test]
fn closed_router_processes_nothing() {
    let mut router = Router::new([7; 32]);
    let receipt = CandidateReceipt::new(vec![1]);
    let h = receipt.hash();
    assert_eq!(router.import_statement(valid(h, [2; 32]), false), Import::Deferred);
    router.close();
    assert_eq!(router.import_statement(candidate(&receipt, [1; 32]), false), Import::Closed);
    assert_eq!(router.import_statement(valid(h, [3; 32]), true), Import::Closed);
    assert_eq!(router.checked_statement(Some(valid(h, [3; 32])), true), None);
}

#[test]
fn only_decoded_statements_with_a_valid_signature_are_checked() {
    let router = Router::new([7; 32]);
    let statement = valid([1; 32], [2; 32]);
    assert_eq!(router.checked_statement(Some(statement.clone()), true), Some(statement.clone()));
    assert_eq!(router.checked_statement(Some(statement), false), None);
    assert_eq!(router.checked_statement(None, true), None);
    assert_eq!(router.checked_statement(None, false), None);
}

#[test]
fn every_statement_is_noted_and_unlocked_work_is_spawned() {
    let statements = vec![valid([1; 32], [1; 32]), valid([1; 32], [2; 32]), valid([1; 32], [3; 32])];
    let producers = vec![Some(10u32), None, Some(30u32)];
    let actions = Router::dispatch([1; 32], statements.clone(), producers);
    assert_eq!(
        actions,
        vec![
            Dispatch::NoteStatement(statements[0].clone()),
            Dispatch::SpawnWork { candidate_hash: [1; 32], work: 10 },
            Dispatch::NoteStatement(statements[1].clone()),
            Dispatch::NoteStatement(statements[2].clone()),
            Dispatch::SpawnWork { candidate_hash: [1; 32], work: 30 },
        ]
    );
}

#[test]
fn statements_without_an_answer_are_still_noted() {
    let statements = vec![valid([1; 32], [1; 32]), valid([1; 32], [2; 32])];
    let actions = Router::dispatch([1; 32], statements.clone(), vec![Some(7u8)]);
    assert_eq!(
        actions,
        vec![
            Dispatch::NoteStatement(statements[0].clone()),
            Dispatch::SpawnWork { candidate_hash: [1; 32], work: 7 },
            Dispatch::NoteStatement(statements[1].clone()),
        ]
    );
    let none: Vec<Dispatch<u8>> = Router::dispatch([1; 32], Vec::new(), vec![Some(7u8)]);
    assert_eq!(none, Vec::new());
}
