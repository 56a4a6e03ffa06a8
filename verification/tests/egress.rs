use statement_router::egress::{
    egress_for, group_messages, same_target, EgressGroup, EgressSend, OutgoingMessage,
    OutgoingMessages,
};
use statement_router::router::Router;

fn message(target: u32, data: &[u8]) -> OutgoingMessage {
    OutgoingMessage { target, data: data.to_vec() }
}

#[test]
fn grouping_is_by_neighbourhood() {
    let messages = vec![message(1, b"a"), message(1, b"b"), message(2, b"c"), message(1, b"d")];
    let groups = group_messages(9, &messages);
    assert_eq!(
        groups,
        vec![
            EgressGroup { source: 9, target: 1, messages: vec![b"a".to_vec(), b"b".to_vec()] },
            EgressGroup { source: 9, target: 2, messages: vec![b"c".to_vec()] },
            EgressGroup { source: 9, target: 1, messages: vec![b"d".to_vec()] },
        ]
    );
}

#[test]
fn egress_of_one_batch_is_one_send_per_group() {
    let outgoing = vec![OutgoingMessages {
        from: 9,
        messages: vec![message(1, b"a"), message(1, b"b"), message(2, b"c"), message(1, b"d")],
    }];
    let sends = egress_for(&outgoing);
    assert_eq!(
        sends,
        vec![
            EgressSend { target: 1, payload: vec![9, 0, 0, 0, 8, 4, b'a', 4, b'b'] },
            EgressSend { target: 2, payload: vec![9, 0, 0, 0, 4, 4, b'c'] },
            EgressSend { target: 1, payload: vec![9, 0, 0, 0, 4, 4, b'd'] },
        ]
    );
}

#[test]
fn no_messages_no_groups() {
    assert_eq!(group_messages(1, &Vec::new()), Vec::new());
    assert_eq!(egress_for(&Vec::new()), Vec::new());
    assert_eq!(egress_for(&vec![OutgoingMessages { from: 3, messages: Vec::new() }]), Vec::new());
}

#[test]
fn one_message_is_one_group() {
    let groups = group_messages(4, &vec![message(7, &[1, 2, 3])]);
    assert_eq!(groups, vec![EgressGroup { source: 4, target: 7, messages: vec![vec![1, 2, 3]] }]);
}

#[test]
fn all_messages_for_one_target_are_one_group() {
    let messages = vec![message(5, &[1]), message(5, &[]), message(5, &[2, 3])];
    let groups = group_messages(4, &messages);
    assert_eq!(
        groups,
        vec![EgressGroup { source: 4, target: 5, messages: vec![vec![1], vec![], vec![2, 3]] }]
    );
}

#[test]
fn batches_are_sent_one_after_the_other() {
    let outgoing = vec![
        OutgoingMessages { from: 1, messages: vec![message(2, &[0xaa]), message(3, &[0xbb, 0xbc])] },
        OutgoingMessages { from: 0x0102_0304, messages: vec![message(3, &[]), message(3, &[0xcc])] },
    ];
    let sends = egress_for(&outgoing);
    assert_eq!(
        sends,
        vec![
            EgressSend { target: 2, payload: vec![1, 0, 0, 0, 4, 4, 0xaa] },
            EgressSend { target: 3, payload: vec![1, 0, 0, 0, 4, 8, 0xbb, 0xbc] },
            EgressSend { target: 3, payload: vec![4, 3, 2, 1, 8, 0, 4, 0xcc] },
        ]
    );
}

#[test]
fn long_message_has_a_two_byte_length() {
    let outgoing = vec![OutgoingMessages { from: 2, messages: vec![message(1, &[7; 64])] }];
    let sends = egress_for(&outgoing);
    let mut payload = vec![2, 0, 0, 0, 4, 1, 1];
    payload.extend_from_slice(&[7; 64]);
    assert_eq!(sends, vec![EgressSend { target: 1, payload }]);
}

#[test]
fn router_broadcasts_the_same_sends() {
    let router = Router::new([1; 32]);
    let outgoing = vec![OutgoingMessages {
        from: 9,
        messages: vec![message(1, b"a"), message(2, b"c"), message(2, b"d")],
    }];
    assert_eq!(router.broadcast_egress(outgoing.clone()), egress_for(&outgoing));
    assert_eq!(router.broadcast_egress(outgoing).len(), 2);
}

#[test]
fn same_target_compares_targets_only() {
    assert!(same_target(&message(1, b"a"), &message(1, b"b")));
    assert!(!same_target(&message(1, b"a"), &message(2, b"a")));
}
