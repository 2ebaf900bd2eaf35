//! The handshake that authenticates a peer on a new connection.
//!
//! Each side sends its identity, its version and its signed announcement,
//! checks the other's announcement, challenges the other with fresh random
//! bytes, signs the challenge that it receives and checks the signature that
//! comes back over its own challenge. The cryptography and the connection
//! belong to the caller: the handshake says what to send, what to sign and
//! what to verify, and decides on what it is told in return.

use vstd::prelude::*;
use crate::peer_codec::{
    AnnouncementDeserializer, AnnouncementSerializer, PeerManagementMessage,
    PeerManagementMessageSerializer,
};
use crate::peer_db::{copy_listeners, holds_all, sample_of, with_state, PeerDB, Peers};
use crate::peer_handler::{ProtocolConfig, PEERS_TO_SEND};
use crate::peer_types::{
    lemma_peer_id_of, listeners_view, listings_view, peer_id_of, Announcement, PeerId, PeerInfo,
    PeerState, Signature, SocketAddress, TransportType,
};
use crate::peer_wire::{
    announcement_bytes, message_bytes, parse_announcement, PeerManagementMessageView,
    LIST_PEERS_ID, NEW_PEER_CONNECTED_ID,
};
use crate::random::{entropy_rng, rng_bytes};
use crate::varint::varint_bytes;

verus! {

/// Why a handshake failed. Each of these aborts the connection and leaves
/// the peer, where it is known, marked as one whose handshake failed.
#[derive(Clone, Copy, Debug, PartialEq, Eq, Structural)]
pub enum HandshakeError {
    /// The first frame is too short to hold a peer identity.
    ShortFrame,
    /// A frame does not hold what it has to hold.
    MalformedFrame,
    /// The peer runs a version that is not compatible.
    IncompatibleVersion,
    /// The first frame carries a tag that is neither an announcement's nor a refusal's.
    UnknownTag,
    /// A signature of the peer does not verify.
    InvalidSignature,
    /// The peer has no slot for the node.
    Declined,
    /// The node could not sign the peer's challenge.
    SigningFailed,
    /// The node could not draw a challenge.
    NoEntropy,
    /// Sending or receiving failed.
    Transport,
    /// The handshake was told something that it was not waiting for.
    UnexpectedEvent,
}

/// What the version parser made of the bytes behind the peer identity in a
/// first frame: whether the version is compatible, and how many bytes it takes.
#[derive(Clone, Copy, Debug, PartialEq, Eq, Structural)]
pub struct VersionCheck {
    pub compatible: bool,
    pub consumed: usize,
}

/// Where a handshake stands.
#[derive(Debug, PartialEq, Eq)]
pub enum HandshakeState {
    /// The first frame was sent; the peer's first frame is awaited.
    AwaitingFirstFrame,
    /// The peer's announcement was read; the check of its signature is awaited.
    AwaitingAnnouncementVerdict { peer: PeerId, announcement: Announcement },
    /// The challenge was sent; the peer's challenge is awaited.
    AwaitingChallenge { peer: PeerId, announcement: Announcement, challenge: [u8; 32] },
    /// The peer's challenge was received; the node's signature over it is awaited.
    AwaitingSignature { peer: PeerId, announcement: Announcement, challenge: [u8; 32] },
    /// The signature was sent; the peer's signature over the challenge is awaited.
    AwaitingResponse { peer: PeerId, announcement: Announcement, challenge: [u8; 32] },
    /// The peer's signature was received; the check of it is awaited.
    AwaitingResponseVerdict { peer: PeerId, announcement: Announcement, challenge: [u8; 32] },
    /// The handshake is over.
    Finished,
}

/// What a handshake is told.
#[derive(Debug, PartialEq, Eq)]
pub enum HandshakeEvent {
    /// The peer's first frame, with what the version parser made of the
    /// bytes behind the peer identity, if it made anything of them.
    FirstFrame { frame: Vec<u8>, version: Option<VersionCheck> },
    /// A later frame of the peer.
    Received(Vec<u8>),
    /// Whether the signature that was to be verified is valid.
    Verdict(bool),
    /// The node's signature over the hash of the peer's challenge.
    Signed(Signature),
    /// The node could not sign.
    SignFailed,
    /// Sending or receiving failed.
    TransportFailed,
}

/// What a handshake asks its caller to do.
#[derive(Debug, PartialEq, Eq)]
pub enum HandshakeAction {
    /// Send these bytes to the peer as one frame.
    Send(Vec<u8>),
    /// Receive the next frame and tell the handshake of it.
    Receive,
    /// Verify the peer's signature over the hash of its announcement and
    /// tell the handshake the verdict.
    VerifyAnnouncement { peer: PeerId, hash: crate::hash::Hash, signature: Signature },
    /// Hand the message to the message handler as one received from the peer.
    HandleMessage { id: u64, bytes: Vec<u8>, peer: PeerId },
    /// Hash the peer's challenge, sign the hash and tell the handshake the signature.
    SignChallenge { challenge: [u8; 32] },
    /// Hash the node's challenge, verify the peer's signature over the hash
    /// and tell the handshake the verdict.
    VerifyResponse { peer: PeerId, challenge: [u8; 32], signature: [u8; 64] },
    /// Read the identifier of the message that the bytes hold and hand the
    /// message to the message handler, once.
    Dispatch { bytes: Vec<u8>, peer: PeerId },
    /// The handshake is over, with the peer's identity or with the reason of the failure.
    Finish(Result<PeerId, HandshakeError>),
}

/// The handshake failed with `error`.
pub open spec fn failed(post: HandshakeState, actions: Seq<HandshakeAction>, error: HandshakeError) -> bool {
    post is Finished && actions == seq![HandshakeAction::Finish(Err(error))]
}

/// The bytes of the node's first frame: identity, version, the tag of an
/// announcement, the announcement.
pub open spec fn first_frame_bytes(id: PeerId, version: Seq<u8>, announcement: Announcement) -> Seq<u8> {
    id@ + version + seq![0u8] + announcement_bytes(announcement@)
}

/// The bytes of a list of peers with its identifier in front.
pub open spec fn peer_list_bytes(peers: Seq<(PeerId, Vec<(SocketAddress, TransportType)>)>) -> Seq<u8> {
    varint_bytes(LIST_PEERS_ID as nat) + message_bytes(
        PeerManagementMessageView::ListPeers(listings_view(peers)),
    )
}

/// The bytes of the frame that refuses a connection: identity, version, the
/// tag of a refusal, a list of peers.
pub open spec fn fallback_bytes(
    id: PeerId,
    version: Seq<u8>,
    peers: Seq<(PeerId, Vec<(SocketAddress, TransportType)>)>,
) -> Seq<u8> {
    id@ + version + seq![1u8] + peer_list_bytes(peers)
}

/// What the peer's first frame leads to.
///
/// A frame shorter than an identity fails the handshake and touches nothing.
/// Else the peer is the one that the first 32 bytes name, and it counts as in
/// handshake. The version must have been read and be compatible, and a tag
/// must follow it. After the tag of an announcement, the announcement is
/// read and the check of its signature is asked for. After the tag of a
/// refusal, the rest goes to the message handler and the handshake fails as
/// declined. Every failure from the identity on leaves the peer marked as failed.
pub open spec fn first_frame_step(
    max_listeners: u64,
    frame: Seq<u8>,
    version: Option<VersionCheck>,
    m0: Peers,
    post: HandshakeState,
    actions: Seq<HandshakeAction>,
    m1: Peers,
) -> bool {
    let peer = peer_id_of(frame.take(32));
    if frame.len() < 32 {
        failed(post, actions, HandshakeError::ShortFrame) && m1 == m0
    } else if version is None {
        failed(post, actions, HandshakeError::MalformedFrame) && m1 == with_state(
            m0,
            peer,
            PeerState::HandshakeFailed,
        )
    } else if !version->Some_0.compatible {
        failed(post, actions, HandshakeError::IncompatibleVersion) && m1 == with_state(
            m0,
            peer,
            PeerState::HandshakeFailed,
        )
    } else if 32 + version->Some_0.consumed >= frame.len() {
        failed(post, actions, HandshakeError::MalformedFrame) && m1 == with_state(
            m0,
            peer,
            PeerState::HandshakeFailed,
        )
    } else {
        let at = 32 + version->Some_0.consumed;
        if frame[at] == 0 {
            match parse_announcement(frame.skip(at + 1), max_listeners) {
                Err(_) => failed(post, actions, HandshakeError::MalformedFrame) && m1 == with_state(
                    m0,
                    peer,
                    PeerState::HandshakeFailed,
                ),
                Ok((view, _)) => {
                    &&& post matches HandshakeState::AwaitingAnnouncementVerdict {
                        peer: p,
                        announcement,
                    }
                    &&& p == peer
                    &&& announcement@ == view
                    &&& actions == seq![
                        HandshakeAction::VerifyAnnouncement {
                            peer,
                            hash: announcement.hash,
                            signature: announcement.signature,
                        },
                    ]
                    &&& m1 == with_state(m0, peer, PeerState::InHandshake)
                },
            }
        } else if frame[at] == 1 {
            &&& post is Finished
            &&& actions.len() == 2
            &&& actions[0] matches HandshakeAction::Dispatch { bytes, peer: p }
            &&& p == peer
            &&& bytes@ == frame.skip(at + 1)
            &&& actions[1] == HandshakeAction::Finish(Err(HandshakeError::Declined))
            &&& m1 == with_state(m0, peer, PeerState::HandshakeFailed)
        } else {
            failed(post, actions, HandshakeError::UnknownTag) && m1 == with_state(
                m0,
                peer,
                PeerState::HandshakeFailed,
            )
        }
    }
}

/// What the handshake does once the peer's announcement is verified: the
/// message handler learns of the peer and of its listeners, the challenge
/// goes to the peer, and the peer's challenge is awaited.
pub open spec fn challenge_step(
    peer: PeerId,
    announcement: Announcement,
    challenge: [u8; 32],
    post: HandshakeState,
    actions: Seq<HandshakeAction>,
) -> bool {
    &&& post == HandshakeState::AwaitingChallenge { peer, announcement, challenge }
    &&& actions.len() == 3
    &&& actions[0] matches HandshakeAction::HandleMessage { id, bytes, peer: p }
    &&& id == NEW_PEER_CONNECTED_ID
    &&& p == peer
    &&& bytes@ == message_bytes(
        PeerManagementMessageView::NewPeerConnected((peer@, listeners_view(announcement.listeners@))),
    )
    &&& actions[1] matches HandshakeAction::Send(sent)
    &&& sent@ == challenge@
    &&& actions[2] == HandshakeAction::Receive
}

/// What the end of a successful handshake does: the peer is trusted with
/// its announcement, a list of up to a hundred peers of the database goes to
/// it, and the handshake finishes with the peer's identity.
pub open spec fn success_step(
    peer: PeerId,
    announcement: Announcement,
    m0: Peers,
    post: HandshakeState,
    actions: Seq<HandshakeAction>,
    m1: Peers,
) -> bool {
    &&& post is Finished
    &&& m1 == m0.insert(peer, PeerInfo { last_announce: announcement, state: PeerState::Trusted })
    &&& actions.len() == 2
    &&& actions[0] matches HandshakeAction::Send(sent)
    &&& exists|peers: Seq<(PeerId, Vec<(SocketAddress, TransportType)>)>|
        peers.len() <= PEERS_TO_SEND && sample_of(peers, m1) && (peers.len() < PEERS_TO_SEND
            ==> holds_all(peers, m1)) && sent@ == #[trigger] peer_list_bytes(peers)
    &&& actions[1] == HandshakeAction::Finish(Ok(peer))
}

/// One step of the handshake: from where it stands and what it is told to
/// where it stands next, what it asks for, and what the database holds then.
pub open spec fn handshake_step(
    max_listeners: u64,
    pre: HandshakeState,
    event: HandshakeEvent,
    m0: Peers,
    post: HandshakeState,
    actions: Seq<HandshakeAction>,
    m1: Peers,
) -> bool {
    match pre {
        HandshakeState::AwaitingFirstFrame => match event {
            HandshakeEvent::FirstFrame { frame, version } => first_frame_step(
                max_listeners,
                frame@,
                version,
                m0,
                post,
                actions,
                m1,
            ),
            HandshakeEvent::TransportFailed => failed(post, actions, HandshakeError::Transport) && m1
                == m0,
            _ => failed(post, actions, HandshakeError::UnexpectedEvent) && m1 == m0,
        },
        HandshakeState::AwaitingAnnouncementVerdict { peer, announcement } => match event {
            HandshakeEvent::Verdict(true) => (failed(post, actions, HandshakeError::NoEntropy) && m1
                == with_state(m0, peer, PeerState::HandshakeFailed)) || (m1 == m0 && exists|
                challenge: [u8; 32],
            | #[trigger] challenge_step(peer, announcement, challenge, post, actions)),
            HandshakeEvent::Verdict(false) => failed(post, actions, HandshakeError::InvalidSignature)
                && m1 == with_state(m0, peer, PeerState::HandshakeFailed),
            HandshakeEvent::TransportFailed => failed(post, actions, HandshakeError::Transport) && m1
                == with_state(m0, peer, PeerState::HandshakeFailed),
            _ => failed(post, actions, HandshakeError::UnexpectedEvent) && m1 == with_state(
                m0,
                peer,
                PeerState::HandshakeFailed,
            ),
        },
        HandshakeState::AwaitingChallenge { peer, announcement, challenge } => match event {
            HandshakeEvent::Received(bytes) => if bytes@.len() == 32 {
                &&& post == HandshakeState::AwaitingSignature { peer, announcement, challenge }
                &&& actions.len() == 1
                &&& actions[0] matches HandshakeAction::SignChallenge { challenge: theirs }
                &&& theirs@ == bytes@
                &&& m1 == m0
            } else {
                failed(post, actions, HandshakeError::MalformedFrame) && m1 == with_state(
                    m0,
                    peer,
                    PeerState::HandshakeFailed,
                )
            },
            HandshakeEvent::TransportFailed => failed(post, actions, HandshakeError::Transport) && m1
                == with_state(m0, peer, PeerState::HandshakeFailed),
            _ => failed(post, actions, HandshakeError::UnexpectedEvent) && m1 == with_state(
                m0,
                peer,
                PeerState::HandshakeFailed,
            ),
        },
        HandshakeState::AwaitingSignature { peer, announcement, challenge } => match event {
            HandshakeEvent::Signed(signature) => {
                &&& post == HandshakeState::AwaitingResponse { peer, announcement, challenge }
                &&& actions.len() == 2
                &&& actions[0] matches HandshakeAction::Send(sent)
                &&& sent@ == signature@
                &&& actions[1] == HandshakeAction::Receive
                &&& m1 == m0
            },
            HandshakeEvent::SignFailed => failed(post, actions, HandshakeError::SigningFailed) && m1
                == with_state(m0, peer, PeerState::HandshakeFailed),
            HandshakeEvent::TransportFailed => failed(post, actions, HandshakeError::Transport) && m1
                == with_state(m0, peer, PeerState::HandshakeFailed),
            _ => failed(post, actions, HandshakeError::UnexpectedEvent) && m1 == with_state(
                m0,
                peer,
                PeerState::HandshakeFailed,
            ),
        },
        HandshakeState::AwaitingResponse { peer, announcement, challenge } => match event {
            HandshakeEvent::Received(bytes) => if bytes@.len() == 64 {
                &&& post == HandshakeState::AwaitingResponseVerdict { peer, announcement, challenge }
                &&& actions.len() == 1
                &&& actions[0] matches HandshakeAction::VerifyResponse {
                    peer: p,
                    challenge: ours,
                    signature,
                }
                &&& p == peer
                &&& ours == challenge
                &&& signature@ == bytes@
                &&& m1 == m0
            } else {
                failed(post, actions, HandshakeError::MalformedFrame) && m1 == with_state(
                    m0,
                    peer,
                    PeerState::HandshakeFailed,
                )
            },
            HandshakeEvent::TransportFailed => failed(post, actions, HandshakeError::Transport) && m1
                == with_state(m0, peer, PeerState::HandshakeFailed),
            _ => failed(post, actions, HandshakeError::UnexpectedEvent) && m1 == with_state(
                m0,
                peer,
                PeerState::HandshakeFailed,
            ),
        },
        HandshakeState::AwaitingResponseVerdict { peer, announcement, challenge } => match event {
            HandshakeEvent::Verdict(true) => success_step(peer, announcement, m0, post, actions, m1),
            HandshakeEvent::Verdict(false) => failed(post, actions, HandshakeError::InvalidSignature)
                && m1 == with_state(m0, peer, PeerState::HandshakeFailed),
            HandshakeEvent::TransportFailed => failed(post, actions, HandshakeError::Transport) && m1
                == with_state(m0, peer, PeerState::HandshakeFailed),
            _ => failed(post, actions, HandshakeError::UnexpectedEvent) && m1 == with_state(
                m0,
                peer,
                PeerState::HandshakeFailed,
            ),
        },
        HandshakeState::Finished => failed(post, actions, HandshakeError::UnexpectedEvent) && m1 == m0,
    }
}

/// What a step of the handshake does to the index of the database: the end
/// of a successful handshake takes the peer's earlier entry out and, where
/// the peer announced a listener, enters the peer at the time of its
/// announcement; any other step leaves the index as it is.
pub open spec fn index_step(
    pre: HandshakeState,
    event: HandshakeEvent,
    index0: Seq<(u64, PeerId)>,
    index1: Seq<(u64, PeerId)>,
) -> bool {
    match (pre, event) {
        (
            HandshakeState::AwaitingResponseVerdict { peer, announcement, .. },
            HandshakeEvent::Verdict(true),
        ) => forall|e: (u64, PeerId)|
            index1.contains(e) <==> ((index0.contains(e) && e.1 != peer) || (e == (
                announcement.timestamp,
                peer,
            ) && announcement.listeners@.len() > 0)),
        _ => index1 == index0,
    }
}

/// Copies `N` bytes of `bytes` into an array.
fn array_of<const N: usize>(bytes: &Vec<u8>) -> (a: [u8; N])
    requires
        bytes@.len() == N,
    ensures
        a@ == bytes@,
{
    let mut a = [0u8; N];
    let mut k: usize = 0;
    while k < N
        invariant
            k <= N,
            bytes@.len() == N,
            forall|j: int| 0 <= j < k ==> a@[j] == bytes@[j],
        decreases N - k,
    {
        a[k] = bytes[k];
        k += 1;
    }
    assert(a@ =~= bytes@);
    a
}

/// The bytes of `bytes` from `from` on.
fn tail_of(bytes: &Vec<u8>, from: usize) -> (tail: Vec<u8>)
    requires
        from <= bytes@.len(),
    ensures
        tail@ == bytes@.skip(from as int),
{
    let mut tail: Vec<u8> = Vec::new();
    let mut k: usize = from;
    while k < bytes.len()
        invariant
            from <= k <= bytes@.len(),
            tail@ == bytes@.subrange(from as int, k as int),
        decreases bytes@.len() - k,
    {
        tail.push(bytes[k]);
        proof {
            assert(tail@ =~= bytes@.subrange(from as int, k + 1));
        }
        k += 1;
    }
    proof {
        assert(bytes@.subrange(from as int, k as int) =~= bytes@.skip(from as int));
    }
    tail
}

/// A list of one action.
fn one(action: HandshakeAction) -> (actions: Vec<HandshakeAction>)
    ensures
        actions@ == seq![action],
{
    let mut actions: Vec<HandshakeAction> = Vec::new();
    actions.push(action);
    assert(actions@ =~= seq![action]);
    actions
}

/// The handshake of a node.
pub struct MassaHandshake {
    /// Writes announcements.
    announcement_serializer: AnnouncementSerializer,
    /// Reads announcements.
    announcement_deserializer: AnnouncementDeserializer,
    /// The configuration of the node.
    config: ProtocolConfig,
    /// Writes peer management messages.
    peer_mngt_msg_serializer: PeerManagementMessageSerializer,
}

impl MassaHandshake {
    /// The configuration of the node.
    pub closed spec fn spec_config(&self) -> ProtocolConfig {
        self.config
    }

    /// The handshake reads announcements under the bound of its configuration.
    pub closed spec fn wf(&self) -> bool {
        self.announcement_deserializer.spec_max_listeners() == self.config.max_size_listeners_per_peer
    }

    /// Creates the handshake of a node with the given configuration.
    pub fn new(config: ProtocolConfig) -> (handshake: MassaHandshake)
        ensures
            handshake.wf(),
            handshake.spec_config() == config,
    {
        MassaHandshake {
            announcement_serializer: AnnouncementSerializer::new(),
            announcement_deserializer: AnnouncementDeserializer::new(
                config.max_size_listeners_per_peer,
            ),
            config,
            peer_mngt_msg_serializer: PeerManagementMessageSerializer::new(),
        }
    }

    /// The frame that opens a handshake: the node's identity, its version,
    /// the tag of an announcement and the node's signed announcement.
    pub fn first_frame(&self, own_id: &PeerId, announcement: &Announcement) -> (frame: Vec<u8>)
        ensures
            frame@ == first_frame_bytes(*own_id, self.spec_config().version@, *announcement),
    {
        let mut frame: Vec<u8> = Vec::new();
        let id = own_id.to_bytes();
        frame.extend_from_slice(id.as_slice());
        frame.extend_from_slice(self.config.version.as_slice());
        frame.push(0);
        self.announcement_serializer.serialize(announcement, &mut frame);
        assert(frame@ =~= first_frame_bytes(*own_id, self.config.version@, *announcement));
        frame
    }

    /// The bytes of a list of peers with its identifier in front.
    pub fn peer_list_frame(&self, peers: Vec<(PeerId, Vec<(SocketAddress, TransportType)>)>) -> (frame:
        Vec<u8>)
        ensures
            frame@ == peer_list_bytes(peers@),
    {
        let message = PeerManagementMessage::ListPeers(peers);
        let mut frame: Vec<u8> = Vec::new();
        self.peer_mngt_msg_serializer.serialize_id(&message, &mut frame);
        self.peer_mngt_msg_serializer.serialize(&message, &mut frame);
        assert(frame@ =~= peer_list_bytes(peers@));
        frame
    }

    /// The frame that refuses a connection while telling of `peers`.
    pub fn fallback_frame(
        &self,
        own_id: &PeerId,
        peers: Vec<(PeerId, Vec<(SocketAddress, TransportType)>)>,
    ) -> (frame: Vec<u8>)
        ensures
            frame@ == fallback_bytes(*own_id, self.spec_config().version@, peers@),
    {
        let ghost listed = peers@;
        let mut frame: Vec<u8> = Vec::new();
        let id = own_id.to_bytes();
        frame.extend_from_slice(id.as_slice());
        frame.extend_from_slice(self.config.version.as_slice());
        frame.push(1);
        let list = self.peer_list_frame(peers);
        frame.extend_from_slice(list.as_slice());
        assert(frame@ =~= fallback_bytes(*own_id, self.config.version@, listed));
        frame
    }

    /// What to send on a connection that cannot be accepted: the node's
    /// identity, its version, the tag of a refusal and a list of up to a
    /// hundred peers of the database. The database is left as it is.
    pub fn fallback_function(&self, own_id: &PeerId, db: &PeerDB) -> (frame: Vec<u8>)
        requires
            db.wf(),
        ensures
            exists|peers: Seq<(PeerId, Vec<(SocketAddress, TransportType)>)>|
                peers.len() <= PEERS_TO_SEND && sample_of(peers, db@) && (peers.len() < PEERS_TO_SEND
                    ==> holds_all(peers, db@)) && frame@ == #[trigger] fallback_bytes(
                    *own_id,
                    self.spec_config().version@,
                    peers,
                ),
    {
        let peers = db.get_rand_peers_to_send(PEERS_TO_SEND);
        let ghost listed = peers@;
        let frame = self.fallback_frame(own_id, peers);
        assert(frame@ == fallback_bytes(*own_id, self.spec_config().version@, listed));
        frame
    }

    /// Fails the handshake with `error` and marks the peer as failed.
    fn fail(db: &mut PeerDB, peer: &PeerId, error: HandshakeError) -> (r: (
        HandshakeState,
        Vec<HandshakeAction>,
    ))
        requires
            old(db).wf(),
        ensures
            final(db).wf(),
            failed(r.0, r.1@, error),
            final(db)@ == with_state(old(db)@, *peer, PeerState::HandshakeFailed),
            final(db).index() == old(db).index(),
    {
        db.mark_handshake_failed(peer);
        (HandshakeState::Finished, one(HandshakeAction::Finish(Err(error))))
    }

    /// Reacts to the peer's first frame.
    fn on_first_frame(&self, db: &mut PeerDB, frame: Vec<u8>, version: Option<VersionCheck>) -> (r: (
        HandshakeState,
        Vec<HandshakeAction>,
    ))
        requires
            self.wf(),
            old(db).wf(),
        ensures
            final(db).wf(),
            final(db).index() == old(db).index(),
            first_frame_step(
                self.spec_config().max_size_listeners_per_peer,
                frame@,
                version,
                old(db)@,
                r.0,
                r.1@,
                final(db)@,
            ),
    {
        if frame.len() < 32 {
            return (
                HandshakeState::Finished,
                one(HandshakeAction::Finish(Err(HandshakeError::ShortFrame))),
            );
        }
        let mut id = [0u8; 32];
        let mut k: usize = 0;
        while k < 32
            invariant
                k <= 32,
                frame@.len() >= 32,
                forall|j: int| 0 <= j < k ==> id@[j] == frame@[j],
            decreases 32 - k,
        {
            id[k] = frame[k];
            k += 1;
        }
        let peer = PeerId::from_bytes(&id);
        proof {
            assert(peer@ =~= frame@.take(32));
            lemma_peer_id_of(peer);
        }
        let ghost m0 = db@;
        db.mark_in_handshake(&peer);
        proof {
            assert(with_state(db@, peer, PeerState::HandshakeFailed) =~= with_state(
                m0,
                peer,
                PeerState::HandshakeFailed,
            ));
        }
        let check = match version {
            None => {
                return Self::fail(db, &peer, HandshakeError::MalformedFrame);
            },
            Some(check) => check,
        };
        if !check.compatible {
            return Self::fail(db, &peer, HandshakeError::IncompatibleVersion);
        }
        if check.consumed >= frame.len() - 32 {
            return Self::fail(db, &peer, HandshakeError::MalformedFrame);
        }
        let at = 32 + check.consumed;
        let tag = frame[at];
        if tag == 0 {
            match self.announcement_deserializer.deserialize(frame.as_slice(), at + 1) {
                Err(_) => Self::fail(db, &peer, HandshakeError::MalformedFrame),
                Ok((_, announcement)) => {
                    let action = HandshakeAction::VerifyAnnouncement {
                        peer,
                        hash: announcement.hash,
                        signature: announcement.signature,
                    };
                    (HandshakeState::AwaitingAnnouncementVerdict { peer, announcement }, one(action))
                },
            }
        } else if tag == 1 {
            db.mark_handshake_failed(&peer);
            let mut actions: Vec<HandshakeAction> = Vec::new();
            actions.push(HandshakeAction::Dispatch { bytes: tail_of(&frame, at + 1), peer });
            actions.push(HandshakeAction::Finish(Err(HandshakeError::Declined)));
            (HandshakeState::Finished, actions)
        } else {
            Self::fail(db, &peer, HandshakeError::UnknownTag)
        }
    }

    /// Challenges the peer with `challenge`, once its announcement is verified.
    pub fn challenge_with(peer: PeerId, announcement: Announcement, challenge: [u8; 32]) -> (r: (
        HandshakeState,
        Vec<HandshakeAction>,
    ))
        ensures
            challenge_step(peer, announcement, challenge, r.0, r.1@),
    {
        let message = PeerManagementMessage::NewPeerConnected(
            (peer, copy_listeners(&announcement.listeners)),
        );
        let serializer = PeerManagementMessageSerializer::new();
        let mut bytes: Vec<u8> = Vec::new();
        serializer.serialize(&message, &mut bytes);
        let mut sent: Vec<u8> = Vec::new();
        sent.extend_from_slice(challenge.as_slice());
        let mut actions: Vec<HandshakeAction> = Vec::new();
        actions.push(HandshakeAction::HandleMessage { id: NEW_PEER_CONNECTED_ID, bytes, peer });
        actions.push(HandshakeAction::Send(sent));
        actions.push(HandshakeAction::Receive);
        proof {
            assert(bytes@ =~= message_bytes(message@));
            assert(sent@ =~= challenge@);
        }
        (HandshakeState::AwaitingChallenge { peer, announcement, challenge }, actions)
    }

    /// Ends a handshake that succeeded.
    fn succeed(&self, db: &mut PeerDB, peer: PeerId, announcement: Announcement) -> (r: (
        HandshakeState,
        Vec<HandshakeAction>,
    ))
        requires
            old(db).wf(),
        ensures
            final(db).wf(),
            success_step(peer, announcement, old(db)@, r.0, r.1@, final(db)@),
            forall|e: (u64, PeerId)|
                final(db).index().contains(e) <==> ((old(db).index().contains(e) && e.1 != peer) || (e
                    == (announcement.timestamp, peer) && announcement.listeners@.len() > 0)),
    {
        db.set_trusted(peer, announcement);
        let peers = db.get_rand_peers_to_send(PEERS_TO_SEND);
        let ghost listed = peers@;
        let sent = self.peer_list_frame(peers);
        let mut actions: Vec<HandshakeAction> = Vec::new();
        actions.push(HandshakeAction::Send(sent));
        actions.push(HandshakeAction::Finish(Ok(peer)));
        proof {
            assert(sent@ == peer_list_bytes(listed));
        }
        (HandshakeState::Finished, actions)
    }

    /// Advances a handshake by one event: from where the handshake stands
    /// and what it is told, to where it stands next and what it asks for.
    /// The database follows: the peer counts as in handshake from its first
    /// frame on, as trusted once both signatures are verified, and as failed
    /// after any failure.
    pub fn perform_handshake(&self, state: HandshakeState, db: &mut PeerDB, event: HandshakeEvent) -> (r:
        (HandshakeState, Vec<HandshakeAction>))
        requires
            self.wf(),
            old(db).wf(),
        ensures
            final(db).wf(),
            handshake_step(
                self.spec_config().max_size_listeners_per_peer,
                state,
                event,
                old(db)@,
                r.0,
                r.1@,
                final(db)@,
            ),
            index_step(state, event, old(db).index(), final(db).index()),
    {
        match state {
            HandshakeState::AwaitingFirstFrame => match event {
                HandshakeEvent::FirstFrame { frame, version } => self.on_first_frame(db, frame, version),
                HandshakeEvent::TransportFailed => (
                    HandshakeState::Finished,
                    one(HandshakeAction::Finish(Err(HandshakeError::Transport))),
                ),
                _ => (
                    HandshakeState::Finished,
                    one(HandshakeAction::Finish(Err(HandshakeError::UnexpectedEvent))),
                ),
            },
            HandshakeState::AwaitingAnnouncementVerdict { peer, announcement } => match event {
                HandshakeEvent::Verdict(true) => match entropy_rng() {
                    None => Self::fail(db, &peer, HandshakeError::NoEntropy),
                    Some(generator) => {
                        let mut generator = generator;
                        let challenge = rng_bytes(&mut generator);
                        Self::challenge_with(peer, announcement, challenge)
                    },
                },
                HandshakeEvent::Verdict(false) => Self::fail(db, &peer, HandshakeError::InvalidSignature),
                HandshakeEvent::TransportFailed => Self::fail(db, &peer, HandshakeError::Transport),
                _ => Self::fail(db, &peer, HandshakeError::UnexpectedEvent),
            },
            HandshakeState::AwaitingChallenge { peer, announcement, challenge } => match event {
                HandshakeEvent::Received(bytes) => {
                    if bytes.len() == 32 {
                        let theirs = array_of::<32>(&bytes);
                        (
                            HandshakeState::AwaitingSignature { peer, announcement, challenge },
                            one(HandshakeAction::SignChallenge { challenge: theirs }),
                        )
                    } else {
                        Self::fail(db, &peer, HandshakeError::MalformedFrame)
                    }
                },
                HandshakeEvent::TransportFailed => Self::fail(db, &peer, HandshakeError::Transport),
                _ => Self::fail(db, &peer, HandshakeError::UnexpectedEvent),
            },
            HandshakeState::AwaitingSignature { peer, announcement, challenge } => match event {
                HandshakeEvent::Signed(signature) => {
                    let bytes = signature.to_bytes();
                    let mut sent: Vec<u8> = Vec::new();
                    sent.extend_from_slice(bytes.as_slice());
                    let mut actions: Vec<HandshakeAction> = Vec::new();
                    actions.push(HandshakeAction::Send(sent));
                    actions.push(HandshakeAction::Receive);
                    proof {
                        assert(sent@ =~= signature@);
                    }
                    (HandshakeState::AwaitingResponse { peer, announcement, challenge }, actions)
                },
                HandshakeEvent::SignFailed => Self::fail(db, &peer, HandshakeError::SigningFailed),
                HandshakeEvent::TransportFailed => Self::fail(db, &peer, HandshakeError::Transport),
                _ => Self::fail(db, &peer, HandshakeError::UnexpectedEvent),
            },
            HandshakeState::AwaitingResponse { peer, announcement, challenge } => match event {
                HandshakeEvent::Received(bytes) => {
                    if bytes.len() == 64 {
                        let signature = array_of::<64>(&bytes);
                        (
                            HandshakeState::AwaitingResponseVerdict { peer, announcement, challenge },
                            one(HandshakeAction::VerifyResponse { peer, challenge, signature }),
                        )
                    } else {
                        Self::fail(db, &peer, HandshakeError::MalformedFrame)
                    }
                },
                HandshakeEvent::TransportFailed => Self::fail(db, &peer, HandshakeError::Transport),
                _ => Self::fail(db, &peer, HandshakeError::UnexpectedEvent),
            },
            HandshakeState::AwaitingResponseVerdict { peer, announcement, challenge } => match event {
                HandshakeEvent::Verdict(true) => self.succeed(db, peer, announcement),
                HandshakeEvent::Verdict(false) => Self::fail(db, &peer, HandshakeError::InvalidSignature),
                HandshakeEvent::TransportFailed => Self::fail(db, &peer, HandshakeError::Transport),
                _ => Self::fail(db, &peer, HandshakeError::UnexpectedEvent),
            },
            HandshakeState::Finished => (
                HandshakeState::Finished,
                one(HandshakeAction::Finish(Err(HandshakeError::UnexpectedEvent))),
            ),
        }
    }
}

} // verus!
