use statement_router::primitives::{
    attestation_preimage, attestation_topic, copy_bytes, hash_eq, CandidateReceipt, H256,
};
use statement_router::statement::{SignedStatement, Statement, StatementTrace};

const DIGEST_OF_1_2_3: H256 = [
    17, 192, 231, 155, 113, 195, 151, 108, 205, 12, 2, 209, 49, 14, 37, 22, 192, 142, 220, 157,
    139, 111, 87, 204, 214, 128, 214, 58, 77, 142, 114, 218,
];

#[test]
fn hashes_are_compared_byte_by_byte() {
    let a: H256 = [1; 32];
    let mut b: H256 = [1; 32];
    assert!(hash_eq(&a, &b));
    b[31] = 2;
    assert!(!hash_eq(&a, &b));
    b[31] = 1;
    b[0] = 0;
    assert!(!hash_eq(&a, &b));
}

#[test]
fn attestation_preimage_is_parent_hash_and_suffix() {
    let mut expected = vec![7u8; 32];
    expected.extend_from_slice(b"attestations");
    assert_eq!(attestation_preimage(&[7; 32]), expected);
    assert_eq!(attestation_preimage(&[7; 32]).len(), 44);
}

#[test]
fn attestation_topic_is_the_digest_of_the_preimage() {
    let topic: H256 = [
        106, 202, 74, 67, 174, 86, 227, 132, 123, 86, 161, 82, 75, 169, 26, 150, 236, 143, 144,
        214, 55, 0, 207, 158, 91, 182, 179, 155, 12, 3, 163, 45,
    ];
    assert_eq!(attestation_topic([7; 32]), topic);
    let zero_topic: H256 = [
        161, 103, 211, 188, 97, 80, 43, 39, 9, 48, 204, 14, 108, 203, 89, 90, 90, 91, 112, 73, 0,
        82, 98, 133, 168, 36, 77, 62, 232, 90, 69, 67,
    ];
    assert_eq!(attestation_topic([0; 32]), zero_topic);
}

#[test]
fn receipt_is_identified_by_the_digest_of_its_encoding() {
    let receipt = CandidateReceipt::new(vec![1, 2, 3]);
    assert_eq!(receipt.hash(), DIGEST_OF_1_2_3);
    assert_eq!(receipt.encoded(), &vec![1u8, 2, 3]);
    let empty = CandidateReceipt::new(Vec::new());
    let digest_of_nothing: H256 = [
        14, 87, 81, 192, 38, 229, 67, 178, 232, 171, 46, 176, 96, 153, 218, 161, 209, 229, 223, 71,
        119, 143, 119, 135, 250, 171, 69, 205, 241, 47, 227, 168,
    ];
    assert_eq!(empty.hash(), digest_of_nothing);
}

#[test]
fn statement_names_its_candidate() {
    let receipt = CandidateReceipt::new(vec![1, 2, 3]);
    assert_eq!(Statement::Candidate(receipt).candidate_hash(), DIGEST_OF_1_2_3);
    assert_eq!(Statement::Valid([4; 32]).candidate_hash(), [4; 32]);
    assert_eq!(Statement::Invalid([5; 32]).candidate_hash(), [5; 32]);
}

#[test]
fn only_votes_have_a_trace() {
    let candidate = SignedStatement {
        statement: Statement::Candidate(CandidateReceipt::new(vec![9])),
        sender: [1; 32],
        signature: [2; 64],
    };
    assert_eq!(candidate.trace(), None);
    let valid =
        SignedStatement { statement: Statement::Valid([3; 32]), sender: [1; 32], signature: [2; 64] };
    assert_eq!(valid.trace(), Some(StatementTrace::Valid([1; 32], [3; 32])));
    let invalid = SignedStatement {
        statement: Statement::Invalid([3; 32]),
        sender: [1; 32],
        signature: [2; 64],
    };
    assert_eq!(invalid.trace(), Some(StatementTrace::Invalid([1; 32], [3; 32])));
}

#[test]
fn copies_hold_the_same_bytes() {
    assert_eq!(copy_bytes(&vec![1, 2, 3]), vec![1, 2, 3]);
    assert_eq!(copy_bytes(&Vec::new()), Vec::<u8>::new());
    let receipt = CandidateReceipt::new(vec![1, 2, 3]);
    let copy = receipt.clone();
    assert_eq!(copy, receipt);
    assert_eq!(copy.hash(), DIGEST_OF_1_2_3);
    assert_eq!(copy.encoded(), &vec![1u8, 2, 3]);
}
