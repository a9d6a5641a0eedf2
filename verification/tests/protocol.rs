use p2p_message::codec::{decode, encode, DecodeError};
use p2p_message::identity::{PeerId, SessionId};
use p2p_message::payload::{Message, Payload, Peers};
use p2p_message::protocol::{Action, State};

fn peer(fill: u8) -> PeerId {
    let mut bytes = vec![0x12u8, 0x20];
    bytes.extend_from_slice(&[fill; 32]);
    PeerId::from_bytes(bytes).unwrap()
}

fn announcement(reachable: &[&PeerId], disconnected: &[&PeerId]) -> Vec<u8> {
    encode(&Payload::Peers(Peers {
        reachable_peers: reachable.iter().map(|p| p.to_base58()).collect(),
        disconnected_peers: disconnected.iter().map(|p| p.to_base58()).collect(),
    }))
}

fn directed(recipient: &str, message: &str) -> Message {
    Message { recipient: recipient.to_string(), message: message.to_string() }
}

fn count_directed(actions: &[Action]) -> usize {
    actions
        .iter()
        .filter(|action| match action {
            Action::Send { data, .. } => matches!(decode(data), Ok(Payload::Message(_))),
            Action::Broadcast { .. } => false,
        })
        .count()
}

#[test]
fn node_without_pending_message_announces_an_empty_table() {
    let s1 = SessionId(1);
    let mut state = State::new(None);
    let actions = state.connected(s1);
    assert_eq!(
        actions,
        vec![Action::Send {
            session: s1,
            data: b"{\"Peers\":{\"reachable_peers\":[],\"disconnected_peers\":[]}}".to_vec(),
        }]
    );
    assert_eq!(count_directed(&actions), 0);
    assert_eq!(state.disconnected(s1), Vec::<Action>::new());
    assert!(state.currently_reachable_peers().is_empty());
}

#[test]
fn pending_message_goes_to_the_first_session_only() {
    let s1 = SessionId(1);
    let s2 = SessionId(2);
    let mut state = State::new(Some(directed("X", "hi")));
    assert!(state.has_pending_message());
    let actions = state.connected(s1);
    assert_eq!(
        actions,
        vec![
            Action::Send {
                session: s1,
                data: b"{\"Peers\":{\"reachable_peers\":[],\"disconnected_peers\":[]}}".to_vec(),
            },
            Action::Send {
                session: s1,
                data: b"{\"Message\":{\"recipient\":\"X\",\"message\":\"hi\"}}".to_vec(),
            },
        ]
    );
    assert_eq!(count_directed(&actions), 1);
    assert!(!state.has_pending_message());
    assert_eq!(state.disconnected(s1), Vec::<Action>::new());
    assert!(!state.has_pending_message());
    let actions = state.connected(s2);
    assert_eq!(
        actions,
        vec![Action::Send {
            session: s2,
            data: b"{\"Peers\":{\"reachable_peers\":[],\"disconnected_peers\":[]}}".to_vec(),
        }]
    );
    assert_eq!(count_directed(&actions), 0);
}

#[test]
fn pending_message_is_sent_once_over_many_sessions() {
    let mut state = State::new(Some(directed("QmTarget", "hello")));
    let mut sent = 0;
    for n in 0..20usize {
        if n % 3 == 2 {
            sent += count_directed(&state.disconnected(SessionId(n - 1)));
        } else {
            let actions = state.connected(SessionId(n));
            assert_eq!(count_directed(&actions), usize::from(n == 0));
            sent += count_directed(&actions);
        }
    }
    assert_eq!(sent, 1);
}

#[test]
fn disconnect_before_any_session_keeps_the_pending_message() {
    let mut state = State::new(Some(directed("X", "hi")));
    assert_eq!(state.disconnected(SessionId(9)), Vec::<Action>::new());
    assert!(state.received(SessionId(9), b"garbage").is_err());
    assert!(state.has_pending_message());
    assert_eq!(count_directed(&state.connected(SessionId(1))), 1);
}

#[test]
fn new_session_is_told_of_every_reachable_peer() {
    let mut state = State::new(None);
    state.record_connected(peer(1), SessionId(1));
    state.record_connected(peer(2), SessionId(2));
    state.record_connected(peer(1), SessionId(3));
    let actions = state.connected(SessionId(4));
    assert_eq!(
        actions,
        vec![Action::Send {
            session: SessionId(4),
            data: announcement(&[&peer(1), &peer(2)], &[]),
        }]
    );
    assert_eq!(state.currently_reachable_peers(), vec![peer(1), peer(2)]);
}

#[test]
fn announcement_names_peers_by_their_base58_text() {
    let mut state = State::new(None);
    state.record_connected(peer(7), SessionId(1));
    let actions = state.connected(SessionId(2));
    let expected = b"{\"Peers\":{\"reachable_peers\":[\"QmNp5n7FFav5ZDaHAj6HzuhJ8LDbL1N6NRzAgT6piWS2Kx\"],\"disconnected_peers\":[]}}";
    assert_eq!(actions, vec![Action::Send { session: SessionId(2), data: expected.to_vec() }]);
}

#[test]
fn lost_peers_are_announced_to_every_session() {
    let mut state = State::new(None);
    state.record_connected(peer(1), SessionId(1));
    state.record_connected(peer(1), SessionId(2));
    state.record_connected(peer(2), SessionId(1));
    state.record_connected(peer(3), SessionId(1));
    let actions = state.disconnected(SessionId(1));
    assert_eq!(
        actions,
        vec![Action::Broadcast { data: announcement(&[], &[&peer(2), &peer(3)]) }]
    );
    assert_eq!(state.currently_reachable_peers(), vec![peer(1)]);
    assert_eq!(state.disconnected(SessionId(1)), Vec::<Action>::new());
    let actions = state.disconnected(SessionId(2));
    assert_eq!(actions, vec![Action::Broadcast { data: announcement(&[], &[&peer(1)]) }]);
    assert!(state.currently_reachable_peers().is_empty());
}

#[test]
fn disconnect_returns_the_lost_peers() {
    let mut state = State::new(None);
    state.record_connected(peer(1), SessionId(1));
    state.record_connected(peer(2), SessionId(1));
    state.record_connected(peer(2), SessionId(2));
    assert_eq!(state.disconnect(SessionId(1)), vec![peer(1)]);
    assert_eq!(state.disconnect(SessionId(1)), Vec::<PeerId>::new());
    assert_eq!(state.disconnect(SessionId(2)), vec![peer(2)]);
}

#[test]
fn received_payload_is_decoded() {
    let state = State::new(None);
    let payload = Payload::Message(directed("X", "hi"));
    assert_eq!(state.received(SessionId(1), &encode(&payload)), Ok(payload));
    let payload = Payload::Peers(Peers {
        reachable_peers: vec![peer(1).to_base58()],
        disconnected_peers: vec![peer(2).to_base58()],
    });
    assert_eq!(state.received(SessionId(1), &encode(&payload)), Ok(payload));
}

#[test]
fn malformed_bytes_leave_the_node_as_it_is() {
    let mut state = State::new(Some(directed("X", "hi")));
    state.record_connected(peer(1), SessionId(1));
    assert_eq!(state.received(SessionId(1), b""), Err(DecodeError::Malformed));
    assert_eq!(state.received(SessionId(1), b"{\"Peers\":"), Err(DecodeError::Malformed));
    assert_eq!(state.received(SessionId(1), &[0xff, 0x00, 0x80]), Err(DecodeError::Malformed));
    assert!(state.has_pending_message());
    assert_eq!(state.currently_reachable_peers(), vec![peer(1)]);
}

#[test]
fn received_announcement_does_not_change_the_table() {
    let mut state = State::new(None);
    let payload = Payload::Peers(Peers {
        reachable_peers: vec![peer(1).to_base58()],
        disconnected_peers: Vec::new(),
    });
    assert!(state.received(SessionId(1), &encode(&payload)).is_ok());
    assert!(state.currently_reachable_peers().is_empty());
    assert_eq!(state.disconnected(SessionId(1)), Vec::<Action>::new());
}

#[test]
fn a_copy_of_an_action_equals_it() {
    let send = Action::Send { session: SessionId(3), data: vec![1, 2, 3] };
    let broadcast = Action::Broadcast { data: vec![4, 5] };
    assert_eq!(send.clone(), send);
    assert_eq!(broadcast.clone(), broadcast);
    assert_ne!(send, broadcast);
}
