//! Peer management: the reactions to the periodic tick, to the commands of
//! the node and to the messages of its peers.
//!
//! The handler decides and the caller acts: it hands each event to the
//! handler together with the peer database, and carries out what comes back.

use vstd::prelude::*;
use crate::peer_codec::{
    PeerManagementMessage, PeerManagementMessageDeserializer, PeerManagementMessageSerializer,
};
use crate::peer_db::{
    copy_listeners, holds_all, may_be_sent, sample_of, unbanned, with_state, PeerDB, Peers,
};
use crate::peer_types::{
    listeners_view, listings_view, IpAddress, PeerId, PeerListingView, PeerState, SocketAddress,
    TransportType,
};
use crate::peer_wire::{
    lemma_message_round_trip, message_bytes, parse_whole_message, valid_listing,
    PeerManagementMessageView, NEW_PEER_CONNECTED_ID,
};
use crate::varint::CodecError;

verus! {

/// Largest number of peers told to another peer at once.
pub const PEERS_TO_SEND: usize = 100;

/// What peer management needs to know of the node's configuration.
pub struct ProtocolConfig {
    /// Largest number of peers in a list of peers.
    pub max_size_peers_announcement: u64,
    /// Largest number of listeners of a peer.
    pub max_size_listeners_per_peer: u64,
    /// The address under which the node can be routed to, if any.
    pub routable_ip: Option<IpAddress>,
    /// The listeners of the node.
    pub listeners: Vec<(SocketAddress, TransportType)>,
    /// The node's version, as it goes on the wire.
    pub version: Vec<u8>,
}

/// The peers handed to a node that bootstraps.
#[derive(Debug, PartialEq, Eq)]
pub struct BootstrapPeers(pub Vec<(PeerId, Vec<(SocketAddress, TransportType)>)>);

/// A command of the node to peer management.
#[derive(Debug, PartialEq, Eq)]
pub enum PeerManagementCmd {
    /// Ban these peers.
    Ban(Vec<PeerId>),
    /// Lift the ban on these peers.
    Unban(Vec<PeerId>),
    /// Tell which peers a bootstrapping node may start from.
    GetBootstrapPeers,
    /// Stop.
    Stop,
}

/// What peer management is woken up by.
#[derive(Debug, PartialEq, Eq)]
pub enum ReactorEvent {
    /// The periodic tick.
    Tick,
    /// A command of the node.
    Command(PeerManagementCmd),
    /// A message of a peer: the sender, the message's identifier and its bytes.
    Message(PeerId, u64, Vec<u8>),
    /// An input channel is gone.
    ChannelClosed,
}

/// Why a message of a peer was dropped.
#[derive(Clone, Copy, Debug, PartialEq, Eq, Structural)]
pub enum DropReason {
    /// The sender is banned.
    BannedSender,
    /// The bytes do not hold the message that the identifier names, or hold
    /// more than the message.
    Malformed(CodecError),
}

/// What peer management asks its caller to do.
#[derive(Debug, PartialEq, Eq)]
pub enum ReactorAction {
    /// Send the message to every peer that is connected.
    Broadcast(PeerManagementMessage),
    /// Shut the connection to the peer down, if there is one.
    ShutdownConnection(PeerId),
    /// Answer the request for bootstrap peers.
    ReplyBootstrapPeers(BootstrapPeers),
    /// Hand the peer and its listeners to the testers; drop it if they are busy.
    TestPeer((PeerId, Vec<(SocketAddress, TransportType)>)),
    /// Note that a message was dropped, and why.
    DropMessage(DropReason),
    /// Empty the channel on which the testers report, without waiting.
    DrainTesterChannel,
    /// Leave the loop.
    Terminate,
}

/// The records after each of `ids` is banned.
pub open spec fn banned_all(m: Peers, ids: Seq<PeerId>) -> Peers
    decreases ids.len(),
{
    if ids.len() == 0 {
        m
    } else {
        with_state(banned_all(m, ids.drop_last()), ids.last(), PeerState::Banned)
    }
}

/// The records after the ban on each of `ids` is lifted.
pub open spec fn unbanned_all(m: Peers, ids: Seq<PeerId>) -> Peers
    decreases ids.len(),
{
    if ids.len() == 0 {
        m
    } else {
        unbanned(unbanned_all(m, ids.drop_last()), ids.last())
    }
}

/// The actions shut down the connections to `ids`, in order, and do nothing else.
pub open spec fn shuts_down(actions: Seq<ReactorAction>, ids: Seq<PeerId>) -> bool {
    &&& actions.len() == ids.len()
    &&& forall|i: int| 0 <= i < ids.len() ==> #[trigger] actions[i] == ReactorAction::ShutdownConnection(ids[i])
}

/// The actions hand `listings` to the testers, in order, and do nothing else.
pub open spec fn forwards(actions: Seq<ReactorAction>, listings: Seq<PeerListingView>) -> bool {
    &&& actions.len() == listings.len()
    &&& forall|i: int|
        0 <= i < listings.len() ==> (#[trigger] actions[i] matches ReactorAction::TestPeer(p) && (
            p.0@,
            listeners_view(p.1@),
        ) == listings[i])
}

/// The listeners of the node as others reach them: each of its listeners,
/// at the routable address.
pub open spec fn routable_listeners(
    listeners: Seq<(SocketAddress, TransportType)>,
    ip: IpAddress,
) -> Seq<(SocketAddress, TransportType)> {
    Seq::new(
        listeners.len(),
        |i: int| (SocketAddress { ip, port: listeners[i].0.port }, listeners[i].1),
    )
}

/// The bootstrap peers are a sample of the database of at most a hundred
/// peers, followed by the node itself where it has a routable address.
pub open spec fn bootstrap_answer(
    peers: Seq<(PeerId, Vec<(SocketAddress, TransportType)>)>,
    m: Peers,
    own_id: PeerId,
    own_listeners: Seq<(SocketAddress, TransportType)>,
    routable_ip: Option<IpAddress>,
) -> bool {
    match routable_ip {
        None => peers.len() <= PEERS_TO_SEND && sample_of(peers, m) && (peers.len() < PEERS_TO_SEND
            ==> holds_all(peers, m)),
        Some(ip) => {
            &&& peers.len() >= 1
            &&& peers.len() - 1 <= PEERS_TO_SEND
            &&& sample_of(peers.drop_last(), m)
            &&& (peers.len() - 1 < PEERS_TO_SEND ==> holds_all(peers.drop_last(), m))
            &&& peers.last().0 == own_id
            &&& peers.last().1@ == routable_listeners(own_listeners, ip)
        },
    }
}

/// What a tick leads to: nothing where the database has no peer to tell
/// of; else one list of peers for every connected peer, a sample of the
/// database of at most a hundred peers.
pub open spec fn tick_reaction(actions: Seq<ReactorAction>, m: Peers) -> bool {
    if actions.len() == 0 {
        forall|id: PeerId| m.contains_key(id) ==> !may_be_sent(#[trigger] m[id])
    } else {
        &&& actions.len() == 1
        &&& actions[0] matches ReactorAction::Broadcast(PeerManagementMessage::ListPeers(peers))
        &&& 0 < peers@.len() <= PEERS_TO_SEND
        &&& sample_of(peers@, m)
        &&& (peers@.len() < PEERS_TO_SEND ==> holds_all(peers@, m))
    }
}

/// What a message of a peer leads to. A message of a banned sender is
/// dropped, and so is one whose bytes do not hold the message that the
/// identifier names, or hold more than it; else each peer that the message
/// tells of goes to the testers, and nothing else is done.
pub open spec fn message_reaction(
    actions: Seq<ReactorAction>,
    m: Peers,
    sender: PeerId,
    id: u64,
    bytes: Seq<u8>,
    max_peers: u64,
    max_listeners: u64,
) -> bool {
    if m.contains_key(sender) && m[sender].state == PeerState::Banned {
        actions == seq![ReactorAction::DropMessage(DropReason::BannedSender)]
    } else {
        match parse_whole_message(id, bytes, max_peers, max_listeners) {
            Err(e) => actions == seq![ReactorAction::DropMessage(DropReason::Malformed(e))],
            Ok(PeerManagementMessageView::NewPeerConnected(p)) => forwards(actions, seq![p]),
            Ok(PeerManagementMessageView::ListPeers(ps)) => forwards(actions, ps),
        }
    }
}

/// The decisions of peer management.
pub struct PeerManagementHandler {
    /// The identity of the node.
    peer_id: PeerId,
    /// The configuration of the node.
    config: ProtocolConfig,
    /// Reads the messages of peers.
    message_deserializer: PeerManagementMessageDeserializer,
    /// Whether the handler has stopped.
    stopped: bool,
}

impl PeerManagementHandler {
    /// The identity of the node.
    pub closed spec fn spec_peer_id(&self) -> PeerId {
        self.peer_id
    }

    /// The configuration of the node.
    pub closed spec fn spec_config(&self) -> ProtocolConfig {
        self.config
    }

    /// Whether the handler has stopped.
    pub closed spec fn is_stopped(&self) -> bool {
        self.stopped
    }

    /// The handler reads messages under the bounds of its configuration.
    pub closed spec fn wf(&self) -> bool {
        &&& self.message_deserializer.spec_max_peers() == self.config.max_size_peers_announcement
        &&& self.message_deserializer.spec_max_listeners() == self.config.max_size_listeners_per_peer
    }

    /// Creates the handler of the node `peer_id`, which has not stopped.
    pub fn new(peer_id: PeerId, config: ProtocolConfig) -> (handler: PeerManagementHandler)
        ensures
            handler.wf(),
            handler.spec_peer_id() == peer_id,
            handler.spec_config() == config,
            !handler.is_stopped(),
    {
        let message_deserializer = PeerManagementMessageDeserializer::new(
            config.max_size_peers_announcement,
            config.max_size_listeners_per_peer,
        );
        PeerManagementHandler { peer_id, config, message_deserializer, stopped: false }
    }

    /// Whether the handler has stopped.
    pub fn stopped(&self) -> (b: bool)
        ensures
            b == self.is_stopped(),
    {
        self.stopped
    }

    /// The messages by which the handler learns of the peers that the node
    /// starts with: for each peer, under the peer's name, the message that
    /// tells of a newly connected peer.
    pub fn initial_messages(initial_peers: &Vec<(PeerId, Vec<(SocketAddress, TransportType)>)>) -> (messages:
        Vec<(PeerId, u64, Vec<u8>)>)
        ensures
            messages@.len() == initial_peers@.len(),
            forall|i: int|
                0 <= i < messages@.len() ==> (#[trigger] messages@[i]).0 == initial_peers@[i].0
                    && messages@[i].1 == NEW_PEER_CONNECTED_ID && messages@[i].2@ == message_bytes(
                    PeerManagementMessageView::NewPeerConnected(
                        (initial_peers@[i].0@, listeners_view(initial_peers@[i].1@)),
                    ),
                ),
    {
        let serializer = PeerManagementMessageSerializer::new();
        let mut messages: Vec<(PeerId, u64, Vec<u8>)> = Vec::new();
        let mut i: usize = 0;
        while i < initial_peers.len()
            invariant
                i <= initial_peers@.len(),
                messages@.len() == i,
                forall|k: int|
                    0 <= k < i ==> (#[trigger] messages@[k]).0 == initial_peers@[k].0 && messages@[k].1
                        == NEW_PEER_CONNECTED_ID && messages@[k].2@ == message_bytes(
                        PeerManagementMessageView::NewPeerConnected(
                            (initial_peers@[k].0@, listeners_view(initial_peers@[k].1@)),
                        ),
                    ),
            decreases initial_peers@.len() - i,
        {
            let peer = initial_peers[i].0;
            let message = PeerManagementMessage::NewPeerConnected(
                (peer, copy_listeners(&initial_peers[i].1)),
            );
            let mut bytes: Vec<u8> = Vec::new();
            serializer.serialize(&message, &mut bytes);
            proof {
                assert(bytes@ =~= message_bytes(message@));
            }
            messages.push((peer, NEW_PEER_CONNECTED_ID, bytes));
            i += 1;
        }
        messages
    }

    /// Stops the handler: what the testers still report is thrown away and
    /// the loop is left.
    pub fn stop(&mut self) -> (actions: Vec<ReactorAction>)
        ensures
            final(self).is_stopped(),
            final(self).spec_config() == old(self).spec_config(),
            final(self).spec_peer_id() == old(self).spec_peer_id(),
            final(self).wf() == old(self).wf(),
            actions@ == seq![ReactorAction::DrainTesterChannel, ReactorAction::Terminate],
    {
        self.stopped = true;
        let mut actions: Vec<ReactorAction> = Vec::new();
        actions.push(ReactorAction::DrainTesterChannel);
        actions.push(ReactorAction::Terminate);
        assert(actions@ =~= seq![ReactorAction::DrainTesterChannel, ReactorAction::Terminate]);
        actions
    }

    /// The node's own listing for a node that bootstraps: its identity with
    /// its listeners at the routable address.
    fn own_listing(&self, ip: IpAddress) -> (listing: (PeerId, Vec<(SocketAddress, TransportType)>))
        ensures
            listing.0 == self.spec_peer_id(),
            listing.1@ == routable_listeners(self.spec_config().listeners@, ip),
    {
        let mut listeners: Vec<(SocketAddress, TransportType)> = Vec::new();
        let mut i: usize = 0;
        while i < self.config.listeners.len()
            invariant
                i <= self.config.listeners@.len(),
                listeners@ == routable_listeners(self.config.listeners@, ip).take(i as int),
            decreases self.config.listeners@.len() - i,
        {
            let listener = self.config.listeners[i];
            listeners.push((SocketAddress { ip, port: listener.0.port }, listener.1));
            proof {
                assert(listeners@ =~= routable_listeners(self.config.listeners@, ip).take(i + 1));
            }
            i += 1;
        }
        proof {
            assert(routable_listeners(self.config.listeners@, ip).take(i as int)
                =~= routable_listeners(self.config.listeners@, ip));
        }
        (self.peer_id, listeners)
    }

    /// Bans each of `ids` and asks for its connection to be shut down.
    fn ban(db: &mut PeerDB, ids: &Vec<PeerId>) -> (actions: Vec<ReactorAction>)
        requires
            old(db).wf(),
        ensures
            final(db).wf(),
            final(db)@ == banned_all(old(db)@, ids@),
            final(db).index() == old(db).index(),
            shuts_down(actions@, ids@),
    {
        let mut actions: Vec<ReactorAction> = Vec::new();
        let mut i: usize = 0;
        while i < ids.len()
            invariant
                i <= ids@.len(),
                db.wf(),
                db@ == banned_all(old(db)@, ids@.take(i as int)),
                db.index() == old(db).index(),
                shuts_down(actions@, ids@.take(i as int)),
            decreases ids@.len() - i,
        {
            proof {
                assert(ids@.take(i + 1).drop_last() =~= ids@.take(i as int));
            }
            let ghost before = actions@;
            actions.push(ReactorAction::ShutdownConnection(ids[i]));
            db.ban_peer(&ids[i]);
            proof {
                assert forall|k: int| 0 <= k < i + 1 implies #[trigger] actions@[k]
                    == ReactorAction::ShutdownConnection(ids@.take(i + 1)[k]) by {
                    if k < i {
                        assert(actions@[k] == before[k]);
                        assert(ids@.take(i as int)[k] == ids@.take(i + 1)[k]);
                    }
                }
            }
            i += 1;
        }
        proof {
            assert(ids@.take(i as int) =~= ids@);
        }
        actions
    }

    /// Lifts the ban on each of `ids`.
    fn unban(db: &mut PeerDB, ids: &Vec<PeerId>)
        requires
            old(db).wf(),
        ensures
            final(db).wf(),
            final(db)@ == unbanned_all(old(db)@, ids@),
            final(db).index() == old(db).index(),
    {
        let mut i: usize = 0;
        while i < ids.len()
            invariant
                i <= ids@.len(),
                db.wf(),
                db@ == unbanned_all(old(db)@, ids@.take(i as int)),
                db.index() == old(db).index(),
            decreases ids@.len() - i,
        {
            proof {
                assert(ids@.take(i + 1).drop_last() =~= ids@.take(i as int));
            }
            db.unban_peer(&ids[i]);
            i += 1;
        }
        proof {
            assert(ids@.take(i as int) =~= ids@);
        }
    }

    /// Reads a message of a peer and hands the peers that it tells of to the testers.
    fn on_message(&self, db: &PeerDB, sender: &PeerId, message_id: u64, message: &Vec<u8>) -> (actions:
        Vec<ReactorAction>)
        requires
            self.wf(),
            db.wf(),
        ensures
            message_reaction(
                actions@,
                db@,
                *sender,
                message_id,
                message@,
                self.spec_config().max_size_peers_announcement,
                self.spec_config().max_size_listeners_per_peer,
            ),
    {
        let mut actions: Vec<ReactorAction> = Vec::new();
        if db.is_banned(sender) {
            actions.push(ReactorAction::DropMessage(DropReason::BannedSender));
            assert(actions@ =~= seq![ReactorAction::DropMessage(DropReason::BannedSender)]);
            return actions;
        }
        let parsed = match self.message_deserializer.deserialize_all(message_id, message.as_slice()) {
            Err(e) => {
                actions.push(ReactorAction::DropMessage(DropReason::Malformed(e)));
                assert(actions@ =~= seq![ReactorAction::DropMessage(DropReason::Malformed(e))]);
                return actions;
            },
            Ok(x) => x,
        };
        match parsed {
            PeerManagementMessage::NewPeerConnected(p) => {
                let ghost view = (p.0@, listeners_view(p.1@));
                actions.push(ReactorAction::TestPeer(p));
                proof {
                    assert(forwards(actions@, seq![view]));
                }
            },
            PeerManagementMessage::ListPeers(peers) => {
                let ghost views = listings_view(peers@);
                let mut i: usize = 0;
                while i < peers.len()
                    invariant
                        i <= peers@.len(),
                        views == listings_view(peers@),
                        forwards(actions@, views.take(i as int)),
                    decreases peers@.len() - i,
                {
                    let ghost before = actions@;
                    let listeners = copy_listeners(&peers[i].1);
                    actions.push(ReactorAction::TestPeer((peers[i].0, listeners)));
                    proof {
                        assert forall|k: int| 0 <= k < i + 1 implies (#[trigger] actions@[k] matches ReactorAction::TestPeer(
                            p,
                        ) && (p.0@, listeners_view(p.1@)) == views.take(i + 1)[k]) by {
                            if k < i {
                                assert(actions@[k] == before[k]);
                                assert(views.take(i as int)[k] == views.take(i + 1)[k]);
                            }
                        }
                    }
                    i += 1;
                }
                proof {
                    assert(views.take(i as int) =~= views);
                }
            },
        }
        actions
    }

    /// Reacts to an event: updates the database where the event calls for
    /// it and says what the caller has to do.
    ///
    /// - On a tick, up to a hundred peers of the database go to every
    ///   connected peer, unless there is none to tell of.
    /// - A ban marks each peer banned and asks for its connection to be shut
    ///   down; lifting a ban clears the mark.
    /// - A request for bootstrap peers is answered with up to a hundred peers
    ///   of the database, and with the node itself where it is routable.
    /// - A message of a peer is read under the configured bounds and each
    ///   peer that it tells of goes to the testers; the message is dropped
    ///   where its sender is banned, where its bytes do not parse or where
    ///   they do not end with the message.
    /// - A stop, or the loss of an input channel, ends the loop.
    ///
    /// A handler that has stopped does nothing.
    pub fn react(&mut self, db: &mut PeerDB, event: ReactorEvent) -> (actions: Vec<ReactorAction>)
        requires
            old(self).wf(),
            old(db).wf(),
        ensures
            final(self).wf(),
            final(db).wf(),
            final(self).spec_config() == old(self).spec_config(),
            final(self).spec_peer_id() == old(self).spec_peer_id(),
            final(db).index() == old(db).index(),
            old(self).is_stopped() ==> actions@.len() == 0 && final(db)@ == old(db)@
                && final(self).is_stopped(),
            !old(self).is_stopped() ==> match event {
                ReactorEvent::Tick => {
                    &&& final(db)@ == old(db)@
                    &&& !final(self).is_stopped()
                    &&& tick_reaction(actions@, old(db)@)
                },
                ReactorEvent::Command(PeerManagementCmd::Ban(ids)) => {
                    &&& final(db)@ == banned_all(old(db)@, ids@)
                    &&& !final(self).is_stopped()
                    &&& shuts_down(actions@, ids@)
                },
                ReactorEvent::Command(PeerManagementCmd::Unban(ids)) => {
                    &&& final(db)@ == unbanned_all(old(db)@, ids@)
                    &&& !final(self).is_stopped()
                    &&& actions@.len() == 0
                },
                ReactorEvent::Command(PeerManagementCmd::GetBootstrapPeers) => {
                    &&& final(db)@ == old(db)@
                    &&& !final(self).is_stopped()
                    &&& actions@.len() == 1
                    &&& actions@[0] matches ReactorAction::ReplyBootstrapPeers(answer)
                    &&& bootstrap_answer(
                        answer.0@,
                        old(db)@,
                        old(self).spec_peer_id(),
                        old(self).spec_config().listeners@,
                        old(self).spec_config().routable_ip,
                    )
                },
                ReactorEvent::Command(PeerManagementCmd::Stop) => {
                    &&& final(db)@ == old(db)@
                    &&& final(self).is_stopped()
                    &&& actions@ == seq![ReactorAction::DrainTesterChannel, ReactorAction::Terminate]
                },
                ReactorEvent::Message(sender, id, bytes) => {
                    &&& final(db)@ == old(db)@
                    &&& !final(self).is_stopped()
                    &&& message_reaction(
                        actions@,
                        old(db)@,
                        sender,
                        id,
                        bytes@,
                        old(self).spec_config().max_size_peers_announcement,
                        old(self).spec_config().max_size_listeners_per_peer,
                    )
                },
                ReactorEvent::ChannelClosed => {
                    &&& final(db)@ == old(db)@
                    &&& final(self).is_stopped()
                    &&& actions@ == seq![ReactorAction::Terminate]
                },
            },
    {
        let mut actions: Vec<ReactorAction> = Vec::new();
        if self.stopped {
            return actions;
        }
        match event {
            ReactorEvent::Tick => {
                let peers = db.get_rand_peers_to_send(PEERS_TO_SEND);
                if peers.len() > 0 {
                    actions.push(
                        ReactorAction::Broadcast(PeerManagementMessage::ListPeers(peers)),
                    );
                } else {
                    proof {
                        assert forall|id: PeerId| db@.contains_key(id) implies !may_be_sent(
                            #[trigger] db@[id],
                        ) by {
                            if may_be_sent(db@[id]) {
                                let k = choose|k: int|
                                    0 <= k < peers@.len() && (#[trigger] peers@[k]).0 == id;
                            }
                        }
                    }
                }
                actions
            },
            ReactorEvent::Command(PeerManagementCmd::Ban(ids)) => Self::ban(db, &ids),
            ReactorEvent::Command(PeerManagementCmd::Unban(ids)) => {
                Self::unban(db, &ids);
                actions
            },
            ReactorEvent::Command(PeerManagementCmd::GetBootstrapPeers) => {
                let mut peers = db.get_rand_peers_to_send(PEERS_TO_SEND);
                match self.config.routable_ip {
                    None => {},
                    Some(ip) => {
                        let ghost sample = peers@;
                        let own = self.own_listing(ip);
                        peers.push(own);
                        proof {
                            assert(peers@.drop_last() =~= sample);
                        }
                    },
                }
                actions.push(ReactorAction::ReplyBootstrapPeers(BootstrapPeers(peers)));
                actions
            },
            ReactorEvent::Command(PeerManagementCmd::Stop) => self.stop(),
            ReactorEvent::Message(sender, id, bytes) => self.on_message(db, &sender, id, &bytes),
            ReactorEvent::ChannelClosed => {
                self.stopped = true;
                actions.push(ReactorAction::Terminate);
                assert(actions@ =~= seq![ReactorAction::Terminate]);
                actions
            },
        }
    }
}

/// A message that tells of a peer within the configured bounds, as the
/// handler writes it for the peers that the node starts with, makes the
/// handler hand that very peer to the testers, unless its sender is banned.
pub proof fn lemma_initial_message_is_forwarded(
    m: Peers,
    sender: PeerId,
    listing: PeerListingView,
    actions: Seq<ReactorAction>,
    max_peers: u64,
    max_listeners: u64,
)
    requires
        valid_listing(listing, max_listeners),
        !(m.contains_key(sender) && m[sender].state == PeerState::Banned),
        message_reaction(
            actions,
            m,
            sender,
            NEW_PEER_CONNECTED_ID,
            message_bytes(PeerManagementMessageView::NewPeerConnected(listing)),
            max_peers,
            max_listeners,
        ),
    ensures
        forwards(actions, seq![listing]),
{
    let message = PeerManagementMessageView::NewPeerConnected(listing);
    lemma_message_round_trip(message, max_peers, max_listeners, Seq::<u8>::empty());
    assert(message_bytes(message) + Seq::<u8>::empty() =~= message_bytes(message));
}

/// A message of a banned peer is dropped: no peer goes to the testers.
pub proof fn lemma_banned_sender_is_ignored(
    m: Peers,
    sender: PeerId,
    id: u64,
    bytes: Seq<u8>,
    actions: Seq<ReactorAction>,
    max_peers: u64,
    max_listeners: u64,
)
    requires
        m.contains_key(sender),
        m[sender].state == PeerState::Banned,
        message_reaction(actions, m, sender, id, bytes, max_peers, max_listeners),
    ensures
        actions == seq![ReactorAction::DropMessage(DropReason::BannedSender)],
        forall|i: int| 0 <= i < actions.len() ==> !(#[trigger] actions[i] is TestPeer),
{
}

/// A banned peer is never told to others: no sample of the database holds it.
pub proof fn lemma_banned_peer_is_not_sent(
    m: Peers,
    sample: Seq<(PeerId, Vec<(SocketAddress, TransportType)>)>,
    k: int,
)
    requires
        sample_of(sample, m),
        0 <= k < sample.len(),
    ensures
        m.contains_key(sample[k].0),
        m[sample[k].0].state == PeerState::Trusted,
        m[sample[k].0].state != PeerState::Banned,
{
}

} // verus!
