use massa_core::peer_codec::{
    read_ip, read_listener, read_listeners, read_optional_ip, write_announcement_content,
    write_ip, write_listeners, AnnouncementDeserializer, AnnouncementSerializer,
    PeerManagementMessage, PeerManagementMessageDeserializer, PeerManagementMessageSerializer,
};
use massa_core::peer_db::PeerDB;
use massa_core::peer_handler::{
    BootstrapPeers, DropReason, PeerManagementCmd, PeerManagementHandler, ProtocolConfig,
    ReactorAction, ReactorEvent, PEERS_TO_SEND,
};
use massa_core::peer_types::{
    Announcement, IpAddress, PeerId, PeerState, Signature, SocketAddress, TransportType,
};
use massa_core::peer_wire::{LIST_PEERS_ID, NEW_PEER_CONNECTED_ID};
use massa_core::varint::CodecError;

type Listeners = Vec<(SocketAddress, TransportType)>;

fn peer(k: u8) -> PeerId {
    let mut bytes = [k; 32];
    bytes[31] = 0xee;
    PeerId::from_bytes(&bytes)
}

fn v4(last: u8, port: u16) -> (SocketAddress, TransportType) {
    (
        SocketAddress {
            ip: IpAddress::V4([10, 0, 0, last]),
            port,
        },
        TransportType::Tcp,
    )
}

fn v6(last: u8, port: u16) -> (SocketAddress, TransportType) {
    let mut octets = [0x20u8; 16];
    octets[15] = last;
    (
        SocketAddress {
            ip: IpAddress::V6(octets),
            port,
        },
        TransportType::Quic,
    )
}

fn announcement(listeners: Listeners, timestamp: u64) -> Announcement {
    Announcement {
        listeners,
        routable_ip: None,
        timestamp,
        hash: massa_core::hash::Hash::from_bytes(&[0x11; 32]),
        signature: Signature::from_bytes(&[0x22; 64]),
    }
}

fn config(routable_ip: Option<IpAddress>) -> ProtocolConfig {
    ProtocolConfig {
        max_size_peers_announcement: 4,
        max_size_listeners_per_peer: 3,
        routable_ip,
        listeners: vec![v4(1, 31244), v4(1, 31245)],
        version: vec![1, 2, 3],
    }
}

#[test]
fn ip_bytes() {
    let mut buffer = Vec::new();
    write_ip(&IpAddress::V4([192, 168, 1, 2]), &mut buffer);
    assert_eq!(buffer, vec![4, 192, 168, 1, 2]);
    assert_eq!(read_ip(&buffer, 0), Ok((IpAddress::V4([192, 168, 1, 2]), 5)));
    assert_eq!(read_ip(&buffer[..4], 0), Err(CodecError::UnexpectedEnd));
    assert_eq!(read_ip(&[], 0), Err(CodecError::UnexpectedEnd));
    assert_eq!(read_ip(&[5, 1, 2, 3, 4], 0), Err(CodecError::InvalidIpKind));

    let mut buffer = vec![0xaa];
    let octets = [7u8; 16];
    write_ip(&IpAddress::V6(octets), &mut buffer);
    assert_eq!(buffer.len(), 18);
    assert_eq!(buffer[1], 6);
    assert_eq!(read_ip(&buffer, 1), Ok((IpAddress::V6(octets), 18)));
    assert_eq!(read_ip(&buffer[..17], 1), Err(CodecError::UnexpectedEnd));
}

#[test]
fn listeners_bytes_and_back() {
    let listeners = vec![v4(9, 300), v6(1, 65535)];
    let mut buffer = Vec::new();
    write_listeners(&listeners, &mut buffer);
    let mut expected = vec![2, 4, 10, 0, 0, 9, 0xac, 0x02, 0];
    expected.push(6);
    expected.extend_from_slice(&[0x20; 15]);
    expected.push(1);
    expected.extend_from_slice(&[0xff, 0xff, 0x03, 1]);
    assert_eq!(buffer, expected);
    let end = buffer.len();
    buffer.push(0x77);
    assert_eq!(read_listeners(&buffer, 0, 2), Ok((listeners.clone(), end)));
    assert_eq!(
        read_listeners(&buffer, 0, 1),
        Err(CodecError::CodecBounds)
    );
    assert_eq!(read_listener(&buffer, 1), Ok((listeners[0], 9)));
    assert_eq!(read_listeners(&[0], 0, 0), Ok((Vec::new(), 1)));
}

#[test]
fn listener_errors() {
    // transport that does not exist
    assert_eq!(
        read_listener(&[4, 1, 2, 3, 4, 80, 2], 0),
        Err(CodecError::InvalidTransport)
    );
    // port above the largest port
    assert_eq!(
        read_listener(&[4, 1, 2, 3, 4, 0x80, 0x80, 0x04, 0], 0),
        Err(CodecError::CodecBounds)
    );
    assert_eq!(
        read_listener(&[4, 1, 2, 3, 4, 80], 0),
        Err(CodecError::UnexpectedEnd)
    );
    assert_eq!(
        read_listener(&[4, 1, 2, 3, 4], 0),
        Err(CodecError::UnexpectedEnd)
    );
    assert_eq!(
        read_listener(&[7, 1, 2, 3, 4, 80, 0], 0),
        Err(CodecError::InvalidIpKind)
    );
    // the second listener is cut short
    assert_eq!(
        read_listeners(&[2, 4, 1, 2, 3, 4, 80, 0, 4, 1], 0, 5),
        Err(CodecError::UnexpectedEnd)
    );
}

#[test]
fn optional_ip() {
    assert_eq!(read_optional_ip(&[0], 0), Ok((None, 1)));
    assert_eq!(
        read_optional_ip(&[1, 4, 1, 2, 3, 4], 0),
        Ok((Some(IpAddress::V4([1, 2, 3, 4])), 6))
    );
    assert_eq!(
        read_optional_ip(&[2, 4, 1, 2, 3, 4], 0),
        Err(CodecError::InvalidOptionTag)
    );
    assert_eq!(read_optional_ip(&[1], 0), Err(CodecError::UnexpectedEnd));
    assert_eq!(read_optional_ip(&[], 0), Err(CodecError::UnexpectedEnd));
}

#[test]
fn announcement_round_trip() {
    let mut a = announcement(vec![v4(1, 80), v6(2, 443)], 1_700_000_000_123);
    a.routable_ip = Some(IpAddress::V4([8, 8, 4, 4]));
    let mut buffer = vec![0x55];
    AnnouncementSerializer::new().serialize(&a, &mut buffer);
    let end = buffer.len();
    buffer.extend_from_slice(&[9, 9]);
    let deserializer = AnnouncementDeserializer::new(2);
    assert_eq!(deserializer.deserialize(&buffer, 1), Ok((end, a.clone())));
    assert_eq!(
        AnnouncementDeserializer::new(1).deserialize(&buffer, 1),
        Err(CodecError::CodecBounds)
    );
    for cut in 1..end {
        assert_eq!(
            deserializer.deserialize(&buffer[..cut], 1),
            Err(CodecError::UnexpectedEnd)
        );
    }
    // the content is what stands before the hash and the signature
    let mut content = Vec::new();
    write_announcement_content(&a.listeners, &a.routable_ip, a.timestamp, &mut content);
    assert_eq!(content[..], buffer[1..end - 96]);
    assert_eq!(buffer[end - 96..end - 64], [0x11; 32]);
    assert_eq!(buffer[end - 64..end], [0x22; 64]);
}

#[test]
fn message_bytes_and_back() {
    let serializer = PeerManagementMessageSerializer::new();
    let deserializer = PeerManagementMessageDeserializer::new(2, 2);

    let connected = PeerManagementMessage::NewPeerConnected((peer(1), vec![v4(1, 80)]));
    let mut id = Vec::new();
    serializer.serialize_id(&connected, &mut id);
    assert_eq!(id, vec![7]);
    let mut body = Vec::new();
    serializer.serialize(&connected, &mut body);
    let mut expected = Vec::new();
    expected.extend_from_slice(&peer(1).to_bytes());
    expected.extend_from_slice(&[1, 4, 10, 0, 0, 1, 80, 0]);
    assert_eq!(body, expected);
    assert_eq!(
        deserializer.deserialize(NEW_PEER_CONNECTED_ID, &body),
        Ok((body.len(), connected))
    );

    let list = PeerManagementMessage::ListPeers(vec![
        (peer(1), vec![v4(1, 80)]),
        (peer(2), vec![]),
    ]);
    let mut id = Vec::new();
    serializer.serialize_id(&list, &mut id);
    assert_eq!(id, vec![6]);
    let mut body = Vec::new();
    serializer.serialize(&list, &mut body);
    assert_eq!(body[0], 2);
    assert_eq!(body.len(), 1 + 32 + 8 + 32 + 1);
    assert_eq!(
        deserializer.deserialize(LIST_PEERS_ID, &body),
        Ok((body.len(), list))
    );
    assert_eq!(
        PeerManagementMessageDeserializer::new(1, 2).deserialize(LIST_PEERS_ID, &body),
        Err(CodecError::CodecBounds)
    );
    assert_eq!(
        PeerManagementMessageDeserializer::new(2, 0).deserialize(LIST_PEERS_ID, &body),
        Err(CodecError::CodecBounds)
    );
    assert_eq!(
        deserializer.deserialize(0, &body),
        Err(CodecError::UnknownMessageId)
    );
    assert_eq!(
        deserializer.deserialize(8, &body),
        Err(CodecError::UnknownMessageId)
    );
    assert_eq!(
        deserializer.deserialize(LIST_PEERS_ID, &body[..body.len() - 1]),
        Err(CodecError::UnexpectedEnd)
    );
    assert_eq!(
        deserializer.deserialize(NEW_PEER_CONNECTED_ID, &body[..20]),
        Err(CodecError::UnexpectedEnd)
    );
}

#[test]
fn database_records_and_bans() {
    let mut db = PeerDB::new();
    assert_eq!(db.len(), 0);
    assert_eq!(db.get_state(&peer(1)), None);
    // banning a peer that is not known changes nothing
    db.ban_peer(&peer(1));
    assert_eq!(db.len(), 0);

    db.set_trusted(peer(1), announcement(vec![v4(1, 80)], 10));
    assert_eq!(db.get_state(&peer(1)), Some(PeerState::Trusted));
    assert_eq!(db.get_listeners(&peer(1)), Some(vec![v4(1, 80)]));
    assert!(!db.is_banned(&peer(1)));

    db.ban_peer(&peer(1));
    assert_eq!(db.get_state(&peer(1)), Some(PeerState::Banned));
    assert!(db.is_banned(&peer(1)));
    assert_eq!(db.len(), 1);
    assert_eq!(db.get_listeners(&peer(1)), Some(vec![v4(1, 80)]));

    db.unban_peer(&peer(1));
    assert_eq!(db.get_state(&peer(1)), Some(PeerState::HandshakeFailed));
    assert!(!db.is_banned(&peer(1)));
    // lifting a ban that is not there changes nothing
    db.set_trusted(peer(2), announcement(vec![v4(2, 80)], 11));
    db.unban_peer(&peer(2));
    assert_eq!(db.get_state(&peer(2)), Some(PeerState::Trusted));

    db.mark_in_handshake(&peer(2));
    assert_eq!(db.get_state(&peer(2)), Some(PeerState::InHandshake));
    db.mark_handshake_failed(&peer(2));
    assert_eq!(db.get_state(&peer(2)), Some(PeerState::HandshakeFailed));
    db.mark_in_handshake(&peer(3));
    assert_eq!(db.get_state(&peer(3)), None);
    assert_eq!(db.len(), 2);
}

#[test]
fn index_holds_one_entry_per_peer_at_the_last_announcement() {
    let mut db = PeerDB::new();
    db.set_trusted(peer(1), announcement(vec![v4(1, 80)], 10));
    db.set_trusted(peer(2), announcement(vec![v4(2, 80)], 30));
    db.set_trusted(peer(3), announcement(vec![], 20));
    assert_eq!(db.indexed_at(&peer(1)), Some(10));
    assert_eq!(db.indexed_at(&peer(2)), Some(30));
    // a peer without listeners is known but not indexed
    assert_eq!(db.indexed_at(&peer(3)), None);
    assert_eq!(db.get_state(&peer(3)), Some(PeerState::Trusted));
    // a later announcement replaces the entry
    db.set_trusted(peer(1), announcement(vec![v4(1, 81)], 40));
    assert_eq!(db.indexed_at(&peer(1)), Some(40));
    assert_eq!(db.get_listeners(&peer(1)), Some(vec![v4(1, 81)]));
    assert_eq!(db.len(), 3);
    // an announcement without listeners takes the entry out
    db.set_trusted(peer(2), announcement(vec![], 50));
    assert_eq!(db.indexed_at(&peer(2)), None);
    // a ban leaves the entry where it is
    db.ban_peer(&peer(1));
    assert_eq!(db.indexed_at(&peer(1)), Some(40));
}

fn filled(n: u8) -> PeerDB {
    let mut db = PeerDB::new();
    for k in 0..n {
        db.set_trusted(peer(k), announcement(vec![v4(k, 80)], k as u64));
    }
    db
}

fn check_sample(db: &PeerDB, sample: &[(PeerId, Listeners)]) {
    for (k, (id, listeners)) in sample.iter().enumerate() {
        assert_eq!(db.get_state(id), Some(PeerState::Trusted));
        assert!(!listeners.is_empty());
        assert_eq!(db.get_listeners(id).as_ref(), Some(listeners));
        for (other, _) in &sample[..k] {
            assert_ne!(other, id);
        }
    }
}

#[test]
fn sample_leaves_out_banned_and_silent_peers() {
    let mut db = filled(10);
    db.ban_peer(&peer(3));
    db.mark_handshake_failed(&peer(4));
    db.mark_in_handshake(&peer(5));
    db.set_trusted(peer(6), announcement(vec![], 99));
    let sample = db.get_rand_peers_to_send(100);
    assert_eq!(sample.len(), 6);
    check_sample(&db, &sample);
    for gone in [3u8, 4, 5, 6] {
        assert!(sample.iter().all(|(id, _)| *id != peer(gone)));
    }
    for kept in [0u8, 1, 2, 7, 8, 9] {
        assert!(sample.iter().any(|(id, _)| *id == peer(kept)));
    }
    assert!(db.get_rand_peers_to_send(0).is_empty());
    assert_eq!(db.get_rand_peers_to_send(6).len(), 6);
}

#[test]
fn sample_draws_distinct_peers() {
    let mut db = filled(50);
    db.ban_peer(&peer(0));
    let mut seen = std::collections::HashSet::new();
    for _ in 0..200 {
        let sample = db.get_rand_peers_to_send(7);
        assert_eq!(sample.len(), 7);
        check_sample(&db, &sample);
        for (id, _) in &sample {
            assert_ne!(*id, peer(0));
            seen.insert(*id);
        }
    }
    // a draw that always took the same places would never see that many peers
    assert!(seen.len() > 7);
    assert!(PeerDB::new().get_rand_peers_to_send(5).is_empty());
}

fn handler(routable_ip: Option<IpAddress>) -> PeerManagementHandler {
    PeerManagementHandler::new(peer(200), config(routable_ip))
}

#[test]
fn tick_tells_connected_peers_of_known_peers() {
    let mut h = handler(None);
    let mut empty = PeerDB::new();
    assert!(h.react(&mut empty, ReactorEvent::Tick).is_empty());

    let mut db = filled(120);
    let actions = h.react(&mut db, ReactorEvent::Tick);
    assert_eq!(actions.len(), 1);
    match &actions[0] {
        ReactorAction::Broadcast(PeerManagementMessage::ListPeers(peers)) => {
            assert_eq!(peers.len(), PEERS_TO_SEND);
            check_sample(&db, peers);
        }
        other => panic!("unexpected action {:?}", other),
    }
    assert!(!h.stopped());
}

#[test]
fn ban_and_unban_commands() {
    let mut h = handler(None);
    let mut db = filled(3);
    let actions = h.react(
        &mut db,
        ReactorEvent::Command(PeerManagementCmd::Ban(vec![peer(2), peer(9), peer(0)])),
    );
    assert_eq!(
        actions,
        vec![
            ReactorAction::ShutdownConnection(peer(2)),
            ReactorAction::ShutdownConnection(peer(9)),
            ReactorAction::ShutdownConnection(peer(0)),
        ]
    );
    assert_eq!(db.get_state(&peer(0)), Some(PeerState::Banned));
    assert_eq!(db.get_state(&peer(1)), Some(PeerState::Trusted));
    assert_eq!(db.get_state(&peer(2)), Some(PeerState::Banned));
    assert_eq!(db.get_state(&peer(9)), None);
    assert_eq!(db.len(), 3);

    let actions = h.react(
        &mut db,
        ReactorEvent::Command(PeerManagementCmd::Unban(vec![peer(2), peer(1)])),
    );
    assert!(actions.is_empty());
    assert_eq!(db.get_state(&peer(0)), Some(PeerState::Banned));
    assert_eq!(db.get_state(&peer(1)), Some(PeerState::Trusted));
    assert_eq!(db.get_state(&peer(2)), Some(PeerState::HandshakeFailed));
}

#[test]
fn bootstrap_peers_with_and_without_a_routable_address() {
    let mut db = filled(3);
    db.ban_peer(&peer(1));

    let mut h = handler(None);
    let actions = h.react(
        &mut db,
        ReactorEvent::Command(PeerManagementCmd::GetBootstrapPeers),
    );
    assert_eq!(actions.len(), 1);
    match &actions[0] {
        ReactorAction::ReplyBootstrapPeers(BootstrapPeers(peers)) => {
            assert_eq!(peers.len(), 2);
            check_sample(&db, peers);
        }
        other => panic!("unexpected action {:?}", other),
    }

    let routable = IpAddress::V4([203, 0, 113, 7]);
    let mut h = handler(Some(routable));
    let actions = h.react(
        &mut db,
        ReactorEvent::Command(PeerManagementCmd::GetBootstrapPeers),
    );
    match &actions[0] {
        ReactorAction::ReplyBootstrapPeers(BootstrapPeers(peers)) => {
            assert_eq!(peers.len(), 3);
            check_sample(&db, &peers[..2]);
            let own = &peers[2];
            assert_eq!(own.0, peer(200));
            assert_eq!(
                own.1,
                vec![
                    (
                        SocketAddress {
                            ip: routable,
                            port: 31244
                        },
                        TransportType::Tcp
                    ),
                    (
                        SocketAddress {
                            ip: routable,
                            port: 31245
                        },
                        TransportType::Tcp
                    ),
                ]
            );
        }
        other => panic!("unexpected action {:?}", other),
    }
}

#[test]
fn stop_drains_and_terminates() {
    let mut h = handler(None);
    let mut db = filled(2);
    let actions = h.react(&mut db, ReactorEvent::Command(PeerManagementCmd::Stop));
    assert_eq!(
        actions,
        vec![ReactorAction::DrainTesterChannel, ReactorAction::Terminate]
    );
    assert!(h.stopped());
    // a handler that has stopped does nothing
    assert!(h.react(&mut db, ReactorEvent::Tick).is_empty());
    assert!(h
        .react(
            &mut db,
            ReactorEvent::Command(PeerManagementCmd::Ban(vec![peer(0)]))
        )
        .is_empty());
    assert_eq!(db.get_state(&peer(0)), Some(PeerState::Trusted));

    let mut h = handler(None);
    assert_eq!(
        h.stop(),
        vec![ReactorAction::DrainTesterChannel, ReactorAction::Terminate]
    );
    assert!(h.stopped());

    let mut h = handler(None);
    assert_eq!(
        h.react(&mut db, ReactorEvent::ChannelClosed),
        vec![ReactorAction::Terminate]
    );
    assert!(h.stopped());
}

fn body(message: &PeerManagementMessage) -> Vec<u8> {
    let mut bytes = Vec::new();
    PeerManagementMessageSerializer::new().serialize(message, &mut bytes);
    bytes
}

#[test]
fn messages_go_to_the_testers() {
    let mut h = handler(None);
    let mut db = filled(2);
    let connected = PeerManagementMessage::NewPeerConnected((peer(7), vec![v4(7, 80)]));
    let actions = h.react(
        &mut db,
        ReactorEvent::Message(peer(0), NEW_PEER_CONNECTED_ID, body(&connected)),
    );
    assert_eq!(
        actions,
        vec![ReactorAction::TestPeer((peer(7), vec![v4(7, 80)]))]
    );

    let list = PeerManagementMessage::ListPeers(vec![
        (peer(7), vec![v4(7, 80)]),
        (peer(8), vec![v6(8, 81), v4(8, 82)]),
        (peer(9), vec![]),
    ]);
    // a sender that the database does not know is listened to as well
    let actions = h.react(
        &mut db,
        ReactorEvent::Message(peer(50), LIST_PEERS_ID, body(&list)),
    );
    assert_eq!(
        actions,
        vec![
            ReactorAction::TestPeer((peer(7), vec![v4(7, 80)])),
            ReactorAction::TestPeer((peer(8), vec![v6(8, 81), v4(8, 82)])),
            ReactorAction::TestPeer((peer(9), vec![])),
        ]
    );
}

#[test]
fn list_of_peers_from_a_banned_peer_is_dropped() {
    let mut h = handler(None);
    let mut db = filled(2);
    db.ban_peer(&peer(1));
    let list = PeerManagementMessage::ListPeers(vec![(peer(7), vec![v4(7, 80)])]);
    let actions = h.react(
        &mut db,
        ReactorEvent::Message(peer(1), LIST_PEERS_ID, body(&list)),
    );
    assert!(actions
        .iter()
        .all(|action| !matches!(action, ReactorAction::TestPeer(_))));
    assert_eq!(
        actions,
        vec![ReactorAction::DropMessage(DropReason::BannedSender)]
    );
    let actions = h.react(
        &mut db,
        ReactorEvent::Message(peer(0), LIST_PEERS_ID, body(&list)),
    );
    assert_eq!(
        actions,
        vec![ReactorAction::TestPeer((peer(7), vec![v4(7, 80)]))]
    );
}

fn dropped(error: CodecError) -> Vec<ReactorAction> {
    vec![ReactorAction::DropMessage(DropReason::Malformed(error))]
}

#[test]
fn messages_that_do_not_parse_are_dropped() {
    let mut h = handler(None);
    let mut db = filled(2);
    let list = PeerManagementMessage::ListPeers(vec![(peer(7), vec![v4(7, 80)])]);
    let good = body(&list);
    // bytes left over
    let mut trailing = good.clone();
    trailing.push(0);
    assert_eq!(
        h.react(
            &mut db,
            ReactorEvent::Message(peer(0), LIST_PEERS_ID, trailing)
        ),
        dropped(CodecError::CodecTrailing)
    );
    // cut short
    assert_eq!(
        h.react(
            &mut db,
            ReactorEvent::Message(peer(0), LIST_PEERS_ID, good[..good.len() - 1].to_vec())
        ),
        dropped(CodecError::UnexpectedEnd)
    );
    // unknown identifier
    assert_eq!(
        h.react(&mut db, ReactorEvent::Message(peer(0), 0, good.clone())),
        dropped(CodecError::UnknownMessageId)
    );
    // more peers than the configuration allows
    let many = PeerManagementMessage::ListPeers((0..5).map(|k| (peer(k), vec![])).collect());
    assert_eq!(
        h.react(
            &mut db,
            ReactorEvent::Message(peer(0), LIST_PEERS_ID, body(&many))
        ),
        dropped(CodecError::CodecBounds)
    );
    // more listeners than the configuration allows
    let wide = PeerManagementMessage::NewPeerConnected((
        peer(7),
        vec![v4(1, 1), v4(1, 2), v4(1, 3), v4(1, 4)],
    ));
    assert_eq!(
        h.react(
            &mut db,
            ReactorEvent::Message(peer(0), NEW_PEER_CONNECTED_ID, body(&wide))
        ),
        dropped(CodecError::CodecBounds)
    );
    // a list of no peers is read and tells of nobody
    let nobody = PeerManagementMessage::ListPeers(Vec::new());
    assert!(h
        .react(
            &mut db,
            ReactorEvent::Message(peer(0), LIST_PEERS_ID, body(&nobody))
        )
        .is_empty());
    assert!(!h.stopped());
}

#[test]
fn whole_message_or_nothing() {
    let deserializer = PeerManagementMessageDeserializer::new(2, 2);
    let connected = PeerManagementMessage::NewPeerConnected((peer(1), vec![v4(1, 80)]));
    let mut bytes = body(&connected);
    assert_eq!(
        deserializer.deserialize_all(NEW_PEER_CONNECTED_ID, &bytes),
        Ok(PeerManagementMessage::NewPeerConnected((
            peer(1),
            vec![v4(1, 80)]
        )))
    );
    bytes.push(1);
    assert_eq!(
        deserializer.deserialize_all(NEW_PEER_CONNECTED_ID, &bytes),
        Err(CodecError::CodecTrailing)
    );
    assert_eq!(
        deserializer.deserialize_all(NEW_PEER_CONNECTED_ID, &bytes[..10]),
        Err(CodecError::UnexpectedEnd)
    );
}

#[test]
fn initial_peers_reach_the_testers() {
    let initial = vec![(peer(1), vec![v4(1, 80)]), (peer(2), vec![v6(2, 81)])];
    let messages = PeerManagementHandler::initial_messages(&initial);
    assert_eq!(messages.len(), 2);
    let mut h = handler(None);
    let mut db = PeerDB::new();
    for (k, (sender, id, bytes)) in messages.into_iter().enumerate() {
        assert_eq!(sender, initial[k].0);
        assert_eq!(id, NEW_PEER_CONNECTED_ID);
        let actions = h.react(&mut db, ReactorEvent::Message(sender, id, bytes));
        assert_eq!(actions, vec![ReactorAction::TestPeer(initial[k].clone())]);
    }
}

#[test]
fn index_is_in_order() {
    let mut db = PeerDB::new();
    db.set_trusted(peer(5), announcement(vec![v4(5, 80)], 20));
    db.set_trusted(peer(1), announcement(vec![v4(1, 80)], 10));
    db.set_trusted(peer(9), announcement(vec![v4(9, 80)], 30));
    db.set_trusted(peer(3), announcement(vec![v4(3, 80)], 20));
    db.set_trusted(peer(7), announcement(vec![v4(7, 80)], 20));
    assert_eq!(
        db.index_by_newest(),
        &vec![
            (30, peer(9)),
            (20, peer(3)),
            (20, peer(5)),
            (20, peer(7)),
            (10, peer(1)),
        ]
    );
    db.set_trusted(peer(1), announcement(vec![v4(1, 80)], 25));
    db.set_trusted(peer(5), announcement(vec![], 40));
    assert_eq!(
        db.index_by_newest(),
        &vec![(30, peer(9)), (25, peer(1)), (20, peer(3)), (20, peer(7))]
    );
    assert!(peer(3).is_before(&peer(5)));
    assert!(!peer(5).is_before(&peer(5)));
    assert!(!peer(7).is_before(&peer(5)));
    assert_eq!(peer(3).is_before(&peer(5)), peer(3) < peer(5));
}
