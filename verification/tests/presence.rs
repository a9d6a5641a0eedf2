use p2p_message::identity::{PeerId, SessionId};
use p2p_message::presence::PresenceTable;

fn peer(fill: u8) -> PeerId {
    let mut bytes = vec![0x12u8, 0x20];
    bytes.extend_from_slice(&[fill; 32]);
    PeerId::from_bytes(bytes).unwrap()
}

fn sorted(mut sessions: Vec<SessionId>) -> Vec<usize> {
    sessions.sort_by_key(|s| s.value());
    sessions.into_iter().map(|s| s.value()).collect()
}

#[test]
fn new_table_is_empty() {
    let table = PresenceTable::new();
    assert!(table.currently_reachable_peers().is_empty());
    assert!(!table.is_reachable(&peer(1)));
    assert!(table.sessions(&peer(1)).is_empty());
}

#[test]
fn connect_makes_a_peer_reachable() {
    let mut table = PresenceTable::new();
    table.record_connected(peer(1), SessionId(10));
    assert!(table.is_reachable(&peer(1)));
    assert!(!table.is_reachable(&peer(2)));
    assert_eq!(table.currently_reachable_peers(), vec![peer(1)]);
    assert_eq!(table.sessions(&peer(1)), vec![SessionId(10)]);
}

#[test]
fn connect_twice_changes_nothing() {
    let mut table = PresenceTable::new();
    table.record_connected(peer(1), SessionId(10));
    table.record_connected(peer(1), SessionId(10));
    assert_eq!(table.sessions(&peer(1)), vec![SessionId(10)]);
    assert_eq!(table.currently_reachable_peers(), vec![peer(1)]);
    table.record_connected(peer(1), SessionId(11));
    table.record_connected(peer(1), SessionId(10));
    table.record_connected(peer(1), SessionId(11));
    assert_eq!(sorted(table.sessions(&peer(1))), vec![10, 11]);
    assert_eq!(table.currently_reachable_peers(), vec![peer(1)]);
}

#[test]
fn peer_with_two_sessions_is_dropped_with_the_last() {
    let a = SessionId(1);
    let b = SessionId(2);
    let mut table = PresenceTable::new();
    table.record_connected(peer(1), a);
    table.record_connected(peer(1), b);
    assert_eq!(table.record_disconnected(a), Vec::<PeerId>::new());
    assert!(table.is_reachable(&peer(1)));
    assert_eq!(table.sessions(&peer(1)), vec![b]);
    assert_eq!(table.record_disconnected(b), vec![peer(1)]);
    assert!(!table.is_reachable(&peer(1)));
    assert!(table.sessions(&peer(1)).is_empty());
    assert!(table.currently_reachable_peers().is_empty());
    assert_eq!(table.record_disconnected(b), Vec::<PeerId>::new());
    assert_eq!(table.record_disconnected(a), Vec::<PeerId>::new());
}

#[test]
fn disconnect_of_an_unknown_session_changes_nothing() {
    let mut table = PresenceTable::new();
    assert_eq!(table.record_disconnected(SessionId(5)), Vec::<PeerId>::new());
    table.record_connected(peer(1), SessionId(1));
    table.record_connected(peer(2), SessionId(2));
    assert_eq!(table.record_disconnected(SessionId(5)), Vec::<PeerId>::new());
    assert_eq!(table.currently_reachable_peers(), vec![peer(1), peer(2)]);
    assert_eq!(table.sessions(&peer(1)), vec![SessionId(1)]);
    assert_eq!(table.sessions(&peer(2)), vec![SessionId(2)]);
}

#[test]
fn one_session_may_reach_several_peers() {
    let shared = SessionId(1);
    let mut table = PresenceTable::new();
    table.record_connected(peer(1), shared);
    table.record_connected(peer(2), shared);
    table.record_connected(peer(2), SessionId(2));
    table.record_connected(peer(3), shared);
    table.record_connected(peer(4), SessionId(4));
    assert_eq!(table.currently_reachable_peers(), vec![peer(1), peer(2), peer(3), peer(4)]);
    assert_eq!(table.record_disconnected(shared), vec![peer(1), peer(3)]);
    assert_eq!(table.currently_reachable_peers(), vec![peer(2), peer(4)]);
    assert_eq!(table.sessions(&peer(2)), vec![SessionId(2)]);
    assert_eq!(table.sessions(&peer(4)), vec![SessionId(4)]);
}

#[test]
fn a_dropped_peer_can_come_back() {
    let mut table = PresenceTable::new();
    table.record_connected(peer(1), SessionId(1));
    table.record_connected(peer(2), SessionId(2));
    assert_eq!(table.record_disconnected(SessionId(1)), vec![peer(1)]);
    table.record_connected(peer(1), SessionId(3));
    assert_eq!(table.currently_reachable_peers(), vec![peer(2), peer(1)]);
    assert_eq!(table.sessions(&peer(1)), vec![SessionId(3)]);
}

#[test]
fn a_peer_is_listed_exactly_while_it_has_a_session() {
    let peers = [peer(1), peer(2), peer(3)];
    let mut table = PresenceTable::new();
    let mut step: usize = 0;
    while step < 200 {
        let p = &peers[(step * 7 + step / 3) % 3];
        let session = SessionId((step * 5 + step / 7) % 4);
        if (step * 11 + step / 5) % 3 == 0 {
            let gone = table.record_disconnected(session);
            for g in gone.iter() {
                assert!(!table.is_reachable(g));
            }
        } else {
            table.record_connected(p.clone(), session);
            assert!(table.sessions(p).contains(&session));
        }
        let listed = table.currently_reachable_peers();
        for q in peers.iter() {
            let sessions = table.sessions(q);
            assert_eq!(table.is_reachable(q), !sessions.is_empty());
            assert_eq!(listed.iter().filter(|l| *l == q).count(), usize::from(!sessions.is_empty()));
            let mut numbers = sorted(sessions);
            let before = numbers.len();
            numbers.dedup();
            assert_eq!(numbers.len(), before);
        }
        step += 1;
    }
}
