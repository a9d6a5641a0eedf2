use p2p_message::identity::{PeerId, SessionId};

fn identity_bytes(fill: u8) -> Vec<u8> {
    let mut bytes = vec![0x12u8, 0x20];
    bytes.extend_from_slice(&[fill; 32]);
    bytes
}

#[test]
fn session_id_keeps_its_number() {
    assert_eq!(SessionId::new(7).value(), 7);
    assert_eq!(SessionId::new(7), SessionId(7));
    assert_ne!(SessionId::new(7), SessionId::new(8));
    assert_eq!(SessionId::new(usize::MAX).value(), usize::MAX);
}

#[test]
fn peer_id_is_built_from_accepted_bytes_only() {
    let id = PeerId::from_bytes(identity_bytes(7)).unwrap();
    assert_eq!(id.as_bytes(), identity_bytes(7).as_slice());
    assert!(PeerId::from_bytes(Vec::new()).is_none());
    assert!(PeerId::from_bytes(vec![1, 2, 3]).is_none());
    assert!(PeerId::from_bytes(identity_bytes(7)[..33].to_vec()).is_none());
    let mut wrong_code = identity_bytes(7);
    wrong_code[0] = 0x13;
    assert!(PeerId::from_bytes(wrong_code).is_none());
    let mut wrong_size = identity_bytes(7);
    wrong_size[1] = 0x1f;
    assert!(PeerId::from_bytes(wrong_size).is_none());
}

#[test]
fn peer_id_is_accepted_exactly_where_the_transport_accepts_it() {
    let mut samples = vec![
        Vec::new(),
        vec![0x12],
        vec![0x12, 0x20],
        identity_bytes(0),
        identity_bytes(0xff),
        identity_bytes(1)[..33].to_vec(),
    ];
    let mut long = identity_bytes(3);
    long.push(0);
    samples.push(long);
    let mut padded = vec![0x92u8, 0x00, 0x20];
    padded.extend_from_slice(&[9u8; 32]);
    samples.push(padded);
    for bytes in samples {
        let theirs = tentacle::secio::PeerId::from_bytes(bytes.clone()).ok();
        let ours = PeerId::from_bytes(bytes);
        assert_eq!(ours.is_some(), theirs.is_some());
        if let (Some(ours), Some(theirs)) = (ours, theirs) {
            assert_eq!(ours.as_bytes(), theirs.as_bytes());
            assert_eq!(ours.to_base58(), theirs.to_base58());
        }
    }
}

#[test]
fn peer_id_has_its_base58_text() {
    let id = PeerId::from_bytes(identity_bytes(7)).unwrap();
    assert_eq!(id.to_base58(), "QmNp5n7FFav5ZDaHAj6HzuhJ8LDbL1N6NRzAgT6piWS2Kx");
    let other = PeerId::from_bytes(identity_bytes(8)).unwrap();
    assert_ne!(other.to_base58(), id.to_base58());
}

#[test]
fn peer_ids_are_equal_where_their_bytes_are() {
    let a = PeerId::from_bytes(identity_bytes(1)).unwrap();
    let b = PeerId::from_bytes(identity_bytes(1)).unwrap();
    let c = PeerId::from_bytes(identity_bytes(2)).unwrap();
    assert_eq!(a, b);
    assert_ne!(a, c);
    assert_eq!(a.clone(), a);
    assert_eq!(a.clone().to_base58(), a.to_base58());
    let mut last_differs = identity_bytes(1);
    last_differs[33] = 0;
    assert_ne!(PeerId::from_bytes(last_differs).unwrap(), a);
}

#[test]
fn equal_peer_ids_hash_alike() {
    let mut seen = std::collections::HashSet::new();
    assert!(seen.insert(PeerId::from_bytes(identity_bytes(1)).unwrap()));
    assert!(!seen.insert(PeerId::from_bytes(identity_bytes(1)).unwrap()));
    assert!(seen.insert(PeerId::from_bytes(identity_bytes(2)).unwrap()));
    assert_eq!(seen.len(), 2);
}
