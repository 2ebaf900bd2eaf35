use massa_core::handshake::{
    HandshakeAction, HandshakeError, HandshakeEvent, HandshakeState, MassaHandshake, VersionCheck,
};
use massa_core::peer_codec::{
    write_announcement_content, PeerManagementMessage, PeerManagementMessageDeserializer,
};
use massa_core::peer_db::PeerDB;
use massa_core::peer_handler::ProtocolConfig;
use massa_core::peer_types::{
    Announcement, IpAddress, PeerId, PeerState, Signature, SocketAddress, TransportType,
};
use massa_core::peer_wire::{LIST_PEERS_ID, NEW_PEER_CONNECTED_ID};

const VERSION: [u8; 3] = [0x0a, 0x01, 0x07];

fn peer(k: u8) -> PeerId {
    PeerId::from_bytes(&[k; 32])
}

fn listener(k: u8) -> (SocketAddress, TransportType) {
    (
        SocketAddress {
            ip: IpAddress::V4([127, 0, 0, k]),
            port: 4000 + k as u16,
        },
        TransportType::Tcp,
    )
}

fn config() -> ProtocolConfig {
    ProtocolConfig {
        max_size_peers_announcement: 100,
        max_size_listeners_per_peer: 2,
        routable_ip: None,
        listeners: Vec::new(),
        version: VERSION.to_vec(),
    }
}

/// A stand-in for the keys of a node: the "hash" of bytes is their blake3
/// hash, and the "signature" of node `k` over a hash is the hash with `k`
/// in front, twice.
fn digest(bytes: &[u8]) -> [u8; 32] {
    *blake3::hash(bytes).as_bytes()
}

fn sign(k: u8, hash: &[u8; 32]) -> [u8; 64] {
    let mut signature = [k; 64];
    signature[1..32].copy_from_slice(&hash[1..]);
    signature[33..64].copy_from_slice(&hash[1..]);
    signature
}

fn verify(id: &PeerId, hash: &[u8; 32], signature: &[u8; 64]) -> bool {
    *signature == sign(id.to_bytes()[0], hash)
}

fn signed_announcement(k: u8, timestamp: u64) -> Announcement {
    let listeners = vec![listener(k)];
    let mut content = Vec::new();
    write_announcement_content(&listeners, &None, timestamp, &mut content);
    let hash = digest(&content);
    Announcement {
        listeners,
        routable_ip: None,
        timestamp,
        hash: massa_core::hash::Hash::from_bytes(&hash),
        signature: Signature::from_bytes(&sign(k, &hash)),
    }
}

fn version_check(frame: &[u8]) -> Option<VersionCheck> {
    if frame.len() >= 32 + VERSION.len() {
        Some(VersionCheck {
            compatible: frame[32..32 + VERSION.len()] == VERSION,
            consumed: VERSION.len(),
        })
    } else {
        None
    }
}

/// One end of a connection: a node that runs the handshake and does what
/// it is asked to, with an inbox and an outbox of frames.
struct Node {
    key: u8,
    handshake: MassaHandshake,
    state: Option<HandshakeState>,
    first: bool,
    outbox: Vec<Vec<u8>>,
    handled: Vec<(u64, Vec<u8>, PeerId)>,
    waiting: bool,
    tamper: bool,
    result: Option<Result<PeerId, HandshakeError>>,
}

impl Node {
    fn new(key: u8) -> Node {
        let handshake = MassaHandshake::new(config());
        let frame = handshake.first_frame(&peer(key), &signed_announcement(key, 1000 + key as u64));
        Node {
            key,
            handshake,
            state: Some(HandshakeState::AwaitingFirstFrame),
            first: true,
            outbox: vec![frame],
            handled: Vec::new(),
            waiting: true,
            tamper: false,
            result: None,
        }
    }

    fn tell(&mut self, db: &mut PeerDB, event: HandshakeEvent) {
        let mut next = Some(event);
        while let Some(event) = next.take() {
            let state = self.state.take().unwrap();
            let (state, actions) = self.handshake.perform_handshake(state, db, event);
            self.state = Some(state);
            self.waiting = false;
            for action in actions {
                match action {
                    HandshakeAction::Send(bytes) => self.outbox.push(bytes),
                    HandshakeAction::Receive => self.waiting = true,
                    HandshakeAction::VerifyAnnouncement {
                        peer,
                        hash,
                        signature,
                    } => {
                        next = Some(HandshakeEvent::Verdict(verify(
                            &peer,
                            &hash.to_bytes(),
                            &signature.to_bytes(),
                        )));
                    }
                    HandshakeAction::HandleMessage { id, bytes, peer } => {
                        self.handled.push((id, bytes, peer))
                    }
                    HandshakeAction::SignChallenge { challenge } => {
                        let mut signature = sign(self.key, &digest(&challenge));
                        if self.tamper {
                            signature[40] ^= 0x01;
                        }
                        next = Some(HandshakeEvent::Signed(Signature::from_bytes(&signature)));
                    }
                    HandshakeAction::VerifyResponse {
                        peer,
                        challenge,
                        signature,
                    } => {
                        next = Some(HandshakeEvent::Verdict(verify(
                            &peer,
                            &digest(&challenge),
                            &signature,
                        )));
                    }
                    HandshakeAction::Dispatch { bytes, peer } => self.handled.push((0, bytes, peer)),
                    HandshakeAction::Finish(result) => self.result = Some(result),
                }
            }
        }
    }

    fn receive(&mut self, db: &mut PeerDB, frame: Vec<u8>) {
        let event = if self.first {
            self.first = false;
            let version = version_check(&frame);
            HandshakeEvent::FirstFrame { frame, version }
        } else {
            HandshakeEvent::Received(frame)
        };
        self.tell(db, event);
    }
}

fn exchange(a: &mut Node, b: &mut Node, db: &mut PeerDB) {
    for _ in 0..10 {
        let to_b: Vec<_> = a.outbox.drain(..).collect();
        let to_a: Vec<_> = b.outbox.drain(..).collect();
        for frame in to_b {
            if b.result.is_none() {
                b.receive(db, frame);
            }
        }
        for frame in to_a {
            if a.result.is_none() {
                a.receive(db, frame);
            }
        }
    }
}

#[test]
fn handshake_happy_path() {
    let mut db = PeerDB::new();
    let mut a = Node::new(1);
    let mut b = Node::new(2);
    // the challenges are fresh: two handshakes do not draw the same one
    exchange(&mut a, &mut b, &mut db);
    assert_eq!(a.result, Some(Ok(peer(2))));
    assert_eq!(b.result, Some(Ok(peer(1))));
    assert_eq!(a.state, Some(HandshakeState::Finished));
    assert_eq!(db.get_state(&peer(1)), Some(PeerState::Trusted));
    assert_eq!(db.get_state(&peer(2)), Some(PeerState::Trusted));
    assert_eq!(db.indexed_at(&peer(1)), Some(1001));
    assert_eq!(db.indexed_at(&peer(2)), Some(1002));
    assert_eq!(db.get_listeners(&peer(2)), Some(vec![listener(2)]));
    // each side told its message handler of the other
    assert_eq!(a.handled.len(), 1);
    let (id, bytes, from) = &a.handled[0];
    assert_eq!(*id, NEW_PEER_CONNECTED_ID);
    assert_eq!(*from, peer(2));
    assert_eq!(
        PeerManagementMessageDeserializer::new(100, 2).deserialize(*id, bytes),
        Ok((
            bytes.len(),
            PeerManagementMessage::NewPeerConnected((peer(2), vec![listener(2)]))
        ))
    );
}

#[test]
fn successful_handshake_ends_with_a_list_of_peers() {
    let mut db = PeerDB::new();
    db.set_trusted(peer(9), signed_announcement(9, 5));
    let mut a = Node::new(1);
    let mut b = Node::new(2);
    // run by hand up to the last frame of each side
    let first_a = a.outbox.remove(0);
    let first_b = b.outbox.remove(0);
    a.receive(&mut db, first_b);
    b.receive(&mut db, first_a);
    let challenge_a = a.outbox.remove(0);
    let challenge_b = b.outbox.remove(0);
    assert_eq!(challenge_a.len(), 32);
    assert_eq!(challenge_b.len(), 32);
    assert_ne!(challenge_a, challenge_b);
    a.receive(&mut db, challenge_b);
    b.receive(&mut db, challenge_a.clone());
    let signature_a = a.outbox.remove(0);
    let signature_b = b.outbox.remove(0);
    assert_eq!(signature_b.len(), 64);
    assert_eq!(signature_b, sign(2, &digest(&challenge_a)).to_vec());
    a.receive(&mut db, signature_b);
    assert_eq!(a.result, Some(Ok(peer(2))));
    assert_eq!(a.outbox.len(), 1);
    let list = a.outbox.remove(0);
    assert_eq!(list[0] as u64, LIST_PEERS_ID);
    match PeerManagementMessageDeserializer::new(100, 2).deserialize(LIST_PEERS_ID, &list[1..]) {
        Ok((rest, PeerManagementMessage::ListPeers(peers))) => {
            assert_eq!(rest, list.len() - 1);
            let mut ids: Vec<_> = peers.iter().map(|(id, _)| *id).collect();
            ids.sort();
            assert_eq!(ids, vec![peer(2), peer(9)]);
        }
        other => panic!("unexpected list {:?}", other),
    }
    b.receive(&mut db, signature_a);
    assert_eq!(b.result, Some(Ok(peer(1))));
}

#[test]
fn handshake_with_a_tampered_signature_fails() {
    let mut db = PeerDB::new();
    // the remote is known from before
    db.set_trusted(peer(2), signed_announcement(2, 7));
    let mut a = Node::new(1);
    let mut b = Node::new(2);
    b.tamper = true;
    exchange(&mut a, &mut b, &mut db);
    assert_eq!(a.result, Some(Err(HandshakeError::InvalidSignature)));
    assert_eq!(a.state, Some(HandshakeState::Finished));
    assert_eq!(db.get_state(&peer(2)), Some(PeerState::HandshakeFailed));
    // the other side had nothing to complain about
    assert_eq!(b.result, Some(Ok(peer(1))));
    assert_eq!(db.get_state(&peer(1)), Some(PeerState::Trusted));
}

#[test]
fn announcement_with_a_bad_signature_fails() {
    let mut db = PeerDB::new();
    db.set_trusted(peer(2), signed_announcement(2, 7));
    let handshake = MassaHandshake::new(config());
    let mut forged = signed_announcement(2, 8);
    forged.signature = Signature::from_bytes(&[0; 64]);
    let frame = handshake.first_frame(&peer(2), &forged);
    let mut a = Node::new(1);
    a.receive(&mut db, frame);
    assert_eq!(a.result, Some(Err(HandshakeError::InvalidSignature)));
    assert_eq!(db.get_state(&peer(2)), Some(PeerState::HandshakeFailed));
    assert!(a.handled.is_empty());
}

fn first_frame_result(frame: Vec<u8>, db: &mut PeerDB) -> (HandshakeState, Vec<HandshakeAction>) {
    let handshake = MassaHandshake::new(config());
    let version = version_check(&frame);
    handshake.perform_handshake(
        HandshakeState::AwaitingFirstFrame,
        db,
        HandshakeEvent::FirstFrame { frame, version },
    )
}

fn fails_with(error: HandshakeError) -> (HandshakeState, Vec<HandshakeAction>) {
    (
        HandshakeState::Finished,
        vec![HandshakeAction::Finish(Err(error))],
    )
}

#[test]
fn first_frame_bytes() {
    let handshake = MassaHandshake::new(config());
    let announcement = signed_announcement(3, 77);
    let frame = handshake.first_frame(&peer(3), &announcement);
    assert_eq!(frame[..32], [3u8; 32]);
    assert_eq!(frame[32..35], VERSION);
    assert_eq!(frame[35], 0);
    let mut content = Vec::new();
    write_announcement_content(&announcement.listeners, &None, 77, &mut content);
    assert_eq!(frame[36..36 + content.len()], content[..]);
    assert_eq!(frame.len(), 36 + content.len() + 32 + 64);
}

#[test]
fn first_frame_failures() {
    let mut db = PeerDB::new();
    db.set_trusted(peer(2), signed_announcement(2, 7));
    let good = MassaHandshake::new(config()).first_frame(&peer(2), &signed_announcement(2, 8));

    // too short for an identity: nobody to blame
    assert_eq!(
        first_frame_result(good[..31].to_vec(), &mut db),
        fails_with(HandshakeError::ShortFrame)
    );
    assert_eq!(db.get_state(&peer(2)), Some(PeerState::Trusted));

    // no version behind the identity
    assert_eq!(
        first_frame_result(good[..33].to_vec(), &mut db),
        fails_with(HandshakeError::MalformedFrame)
    );
    assert_eq!(db.get_state(&peer(2)), Some(PeerState::HandshakeFailed));

    // a version that is not compatible
    db.set_trusted(peer(2), signed_announcement(2, 7));
    let mut other_version = good.clone();
    other_version[33] ^= 0xff;
    assert_eq!(
        first_frame_result(other_version, &mut db),
        fails_with(HandshakeError::IncompatibleVersion)
    );
    assert_eq!(db.get_state(&peer(2)), Some(PeerState::HandshakeFailed));

    // no tag behind the version
    assert_eq!(
        first_frame_result(good[..35].to_vec(), &mut db),
        fails_with(HandshakeError::MalformedFrame)
    );

    // a tag that nobody knows
    let mut unknown = good.clone();
    unknown[35] = 2;
    assert_eq!(
        first_frame_result(unknown, &mut db),
        fails_with(HandshakeError::UnknownTag)
    );

    // an announcement that is cut short
    assert_eq!(
        first_frame_result(good[..good.len() - 1].to_vec(), &mut db),
        fails_with(HandshakeError::MalformedFrame)
    );

    // an announcement with more listeners than allowed
    let mut wide = signed_announcement(2, 8);
    wide.listeners = vec![listener(1), listener(2), listener(3)];
    let frame = MassaHandshake::new(config()).first_frame(&peer(2), &wide);
    assert_eq!(
        first_frame_result(frame, &mut db),
        fails_with(HandshakeError::MalformedFrame)
    );
}

#[test]
fn first_frame_marks_the_peer_in_handshake() {
    let mut db = PeerDB::new();
    db.set_trusted(peer(2), signed_announcement(2, 7));
    db.ban_peer(&peer(2));
    let announcement = signed_announcement(2, 8);
    let frame = MassaHandshake::new(config()).first_frame(&peer(2), &announcement);
    let (state, actions) = first_frame_result(frame, &mut db);
    assert_eq!(
        state,
        HandshakeState::AwaitingAnnouncementVerdict {
            peer: peer(2),
            announcement: announcement.clone()
        }
    );
    assert_eq!(
        actions,
        vec![HandshakeAction::VerifyAnnouncement {
            peer: peer(2),
            hash: announcement.hash,
            signature: announcement.signature
        }]
    );
    // the handshake goes on for a banned peer too
    assert_eq!(db.get_state(&peer(2)), Some(PeerState::InHandshake));
    // a peer that is not known stays unknown
    let frame = MassaHandshake::new(config()).first_frame(&peer(3), &signed_announcement(3, 8));
    first_frame_result(frame, &mut db);
    assert_eq!(db.get_state(&peer(3)), None);
}

#[test]
fn refusal_is_dispatched_and_fails_the_handshake() {
    let mut db = PeerDB::new();
    db.set_trusted(peer(2), signed_announcement(2, 7));
    db.set_trusted(peer(5), signed_announcement(5, 7));
    let handshake = MassaHandshake::new(config());
    let frame = handshake.fallback_function(&peer(2), &db);
    assert_eq!(frame[..32], [2u8; 32]);
    assert_eq!(frame[32..35], VERSION);
    assert_eq!(frame[35], 1);
    assert_eq!(frame[36] as u64, LIST_PEERS_ID);
    let (state, actions) = first_frame_result(frame.clone(), &mut db);
    assert_eq!(state, HandshakeState::Finished);
    assert_eq!(
        actions,
        vec![
            HandshakeAction::Dispatch {
                bytes: frame[36..].to_vec(),
                peer: peer(2)
            },
            HandshakeAction::Finish(Err(HandshakeError::Declined)),
        ]
    );
    assert_eq!(db.get_state(&peer(2)), Some(PeerState::HandshakeFailed));
    assert_eq!(db.get_state(&peer(5)), Some(PeerState::Trusted));

    let exact = handshake.fallback_frame(&peer(2), vec![(peer(5), vec![listener(5)])]);
    let mut expected = vec![2u8; 32];
    expected.extend_from_slice(&VERSION);
    expected.extend_from_slice(&[1, 6, 1]);
    expected.extend_from_slice(&[5u8; 32]);
    expected.extend_from_slice(&[1, 4, 127, 0, 0, 5, 0xa5, 0x1f, 0]);
    assert_eq!(exact, expected);
    assert_eq!(
        handshake.peer_list_frame(Vec::new()),
        vec![LIST_PEERS_ID as u8, 0]
    );
}

fn pending() -> (PeerId, Announcement, [u8; 32]) {
    (peer(2), signed_announcement(2, 8), [0x5a; 32])
}

#[test]
fn challenge_goes_out_with_the_news_of_the_peer() {
    let (peer, announcement, challenge) = pending();
    let (state, actions) = MassaHandshake::challenge_with(peer, announcement.clone(), challenge);
    assert_eq!(
        state,
        HandshakeState::AwaitingChallenge {
            peer,
            announcement,
            challenge
        }
    );
    assert_eq!(actions.len(), 3);
    assert!(matches!(
        &actions[0],
        HandshakeAction::HandleMessage { id: 7, peer: p, .. } if *p == peer
    ));
    assert_eq!(actions[1], HandshakeAction::Send(challenge.to_vec()));
    assert_eq!(actions[2], HandshakeAction::Receive);
}

#[test]
fn frames_of_the_wrong_length_fail() {
    let handshake = MassaHandshake::new(config());
    let (peer, announcement, challenge) = pending();
    let mut db = PeerDB::new();
    db.set_trusted(peer, announcement.clone());
    let state = HandshakeState::AwaitingChallenge {
        peer,
        announcement: announcement.clone(),
        challenge,
    };
    assert_eq!(
        handshake.perform_handshake(state, &mut db, HandshakeEvent::Received(vec![0; 31])),
        fails_with(HandshakeError::MalformedFrame)
    );
    assert_eq!(db.get_state(&peer), Some(PeerState::HandshakeFailed));
    let state = HandshakeState::AwaitingResponse {
        peer,
        announcement: announcement.clone(),
        challenge,
    };
    assert_eq!(
        handshake.perform_handshake(state, &mut db, HandshakeEvent::Received(vec![0; 65])),
        fails_with(HandshakeError::MalformedFrame)
    );
    let state = HandshakeState::AwaitingResponse {
        peer,
        announcement: announcement.clone(),
        challenge,
    };
    let (state, actions) =
        handshake.perform_handshake(state, &mut db, HandshakeEvent::Received(vec![9; 64]));
    assert_eq!(
        state,
        HandshakeState::AwaitingResponseVerdict {
            peer,
            announcement,
            challenge
        }
    );
    assert_eq!(
        actions,
        vec![HandshakeAction::VerifyResponse {
            peer,
            challenge,
            signature: [9; 64]
        }]
    );
}

#[test]
fn failures_on_the_way_mark_the_peer() {
    let handshake = MassaHandshake::new(config());
    let (peer, announcement, challenge) = pending();
    let cases: Vec<(HandshakeState, HandshakeEvent, HandshakeError)> = vec![
        (
            HandshakeState::AwaitingFirstFrame,
            HandshakeEvent::TransportFailed,
            HandshakeError::Transport,
        ),
        (
            HandshakeState::AwaitingFirstFrame,
            HandshakeEvent::Verdict(true),
            HandshakeError::UnexpectedEvent,
        ),
        (
            HandshakeState::AwaitingAnnouncementVerdict {
                peer,
                announcement: announcement.clone(),
            },
            HandshakeEvent::Verdict(false),
            HandshakeError::InvalidSignature,
        ),
        (
            HandshakeState::AwaitingAnnouncementVerdict {
                peer,
                announcement: announcement.clone(),
            },
            HandshakeEvent::TransportFailed,
            HandshakeError::Transport,
        ),
        (
            HandshakeState::AwaitingChallenge {
                peer,
                announcement: announcement.clone(),
                challenge,
            },
            HandshakeEvent::TransportFailed,
            HandshakeError::Transport,
        ),
        (
            HandshakeState::AwaitingSignature {
                peer,
                announcement: announcement.clone(),
                challenge,
            },
            HandshakeEvent::SignFailed,
            HandshakeError::SigningFailed,
        ),
        (
            HandshakeState::AwaitingSignature {
                peer,
                announcement: announcement.clone(),
                challenge,
            },
            HandshakeEvent::Received(vec![1]),
            HandshakeError::UnexpectedEvent,
        ),
        (
            HandshakeState::AwaitingResponse {
                peer,
                announcement: announcement.clone(),
                challenge,
            },
            HandshakeEvent::Verdict(true),
            HandshakeError::UnexpectedEvent,
        ),
        (
            HandshakeState::AwaitingResponseVerdict {
                peer,
                announcement: announcement.clone(),
                challenge,
            },
            HandshakeEvent::Verdict(false),
            HandshakeError::InvalidSignature,
        ),
        (
            HandshakeState::Finished,
            HandshakeEvent::Verdict(true),
            HandshakeError::UnexpectedEvent,
        ),
    ];
    for (state, event, error) in cases {
        let mut db = PeerDB::new();
        db.set_trusted(peer, announcement.clone());
        let known = !matches!(
            state,
            HandshakeState::AwaitingFirstFrame | HandshakeState::Finished
        );
        assert_eq!(
            handshake.perform_handshake(state, &mut db, event),
            fails_with(error)
        );
        let expected = if known {
            PeerState::HandshakeFailed
        } else {
            PeerState::Trusted
        };
        assert_eq!(db.get_state(&peer), Some(expected));
    }
}
