//! Wire format of listeners, announcements and peer management messages.
//!
//! ```text
//! ip               := 4 octets(4) | 6 octets(16)
//! listener         := ip  varint(port)  transport           transport: 0 TCP, 1 QUIC
//! listeners        := varint(n)  n times listener
//! optional ip      := 0 | 1 ip
//! announcement     := listeners  optional ip  varint(timestamp)  hash(32)  signature(64)
//! listing          := peer id(32)  listeners
//! ListPeers        := varint(n)  n times listing                 message 6
//! NewPeerConnected := listing                                    message 7
//! ```
//!
//! The hash of an announcement covers the bytes before it; the signature is
//! over the hash. The number of listeners and the number of listings are
//! bounded when they are read.

use vstd::prelude::*;
use crate::peer_types::{AnnouncementView, ListenerView, PeerListingView, TransportType};
use crate::varint::{
    lemma_varint_round_trip, parse_bounded_varint, parse_varint, varint_bytes, CodecError,
};

verus! {

/// The identifier of the message that lists peers.
pub const LIST_PEERS_ID: u64 = 6;

/// The identifier of the message that tells of a newly connected peer.
pub const NEW_PEER_CONNECTED_ID: u64 = 7;

/// The largest port.
pub const MAX_PORT: u64 = 65535;

/// A peer management message as a plain value.
pub enum PeerManagementMessageView {
    /// A peer has connected: its identity and its listeners.
    NewPeerConnected(PeerListingView),
    /// Peers that the sender knows, each with its listeners.
    ListPeers(Seq<PeerListingView>),
}

/// The octets are those of an IP address: four or sixteen.
pub open spec fn valid_ip(ip: Seq<u8>) -> bool {
    ip.len() == 4 || ip.len() == 16
}

/// The bytes of an IP address: its version, then its octets.
pub open spec fn ip_bytes(ip: Seq<u8>) -> Seq<u8> {
    if ip.len() == 4 {
        seq![4u8] + ip
    } else {
        seq![6u8] + ip
    }
}

/// Decoding of an IP address at the front of `bytes`.
pub open spec fn parse_ip(bytes: Seq<u8>) -> Result<(Seq<u8>, int), CodecError> {
    if bytes.len() == 0 {
        Err(CodecError::UnexpectedEnd)
    } else if bytes[0] == 4 {
        if bytes.len() < 5 {
            Err(CodecError::UnexpectedEnd)
        } else {
            Ok((bytes.subrange(1, 5), 5))
        }
    } else if bytes[0] == 6 {
        if bytes.len() < 17 {
            Err(CodecError::UnexpectedEnd)
        } else {
            Ok((bytes.subrange(1, 17), 17))
        }
    } else {
        Err(CodecError::InvalidIpKind)
    }
}

/// The byte that stands for a transport.
pub open spec fn transport_tag(t: TransportType) -> u8 {
    match t {
        TransportType::Tcp => 0,
        TransportType::Quic => 1,
    }
}

/// Decoding of a transport at the front of `bytes`.
pub open spec fn parse_transport(bytes: Seq<u8>) -> Result<(TransportType, int), CodecError> {
    if bytes.len() == 0 {
        Err(CodecError::UnexpectedEnd)
    } else if bytes[0] == 0 {
        Ok((TransportType::Tcp, 1))
    } else if bytes[0] == 1 {
        Ok((TransportType::Quic, 1))
    } else {
        Err(CodecError::InvalidTransport)
    }
}

/// The bytes of a listener: address, port, transport.
pub open spec fn listener_bytes(l: ListenerView) -> Seq<u8> {
    ip_bytes(l.0) + varint_bytes(l.1 as nat) + seq![transport_tag(l.2)]
}

/// Decoding of a listener at the front of `bytes`.
pub open spec fn parse_listener(bytes: Seq<u8>) -> Result<(ListenerView, int), CodecError> {
    match parse_ip(bytes) {
        Err(e) => Err(e),
        Ok((ip, n1)) => match parse_bounded_varint(bytes.skip(n1), MAX_PORT) {
            Err(e) => Err(e),
            Ok((port, n2)) => match parse_transport(bytes.skip(n1 + n2)) {
                Err(e) => Err(e),
                Ok((t, n3)) => Ok(((ip, port as u16, t), n1 + n2 + n3)),
            },
        },
    }
}

/// The bytes of listeners one after the other.
pub open spec fn listener_items_bytes(ls: Seq<ListenerView>) -> Seq<u8>
    decreases ls.len(),
{
    if ls.len() == 0 {
        Seq::empty()
    } else {
        listener_items_bytes(ls.drop_last()) + listener_bytes(ls.last())
    }
}

/// The bytes of a list of listeners: their number, then the listeners.
pub open spec fn listeners_bytes(ls: Seq<ListenerView>) -> Seq<u8> {
    varint_bytes(ls.len()) + listener_items_bytes(ls)
}

/// Decoding of `count` listeners at the front of `bytes`; the first one that fails decides.
pub open spec fn parse_listener_items(bytes: Seq<u8>, count: nat) -> Result<
    (Seq<ListenerView>, int),
    CodecError,
>
    decreases count,
{
    if count == 0 {
        Ok((Seq::empty(), 0))
    } else {
        match parse_listener_items(bytes, (count - 1) as nat) {
            Err(e) => Err(e),
            Ok((ls, n)) => match parse_listener(bytes.skip(n)) {
                Err(e) => Err(e),
                Ok((l, k)) => Ok((ls.push(l), n + k)),
            },
        }
    }
}

/// Decoding of a list of at most `max` listeners at the front of `bytes`.
pub open spec fn parse_listeners(bytes: Seq<u8>, max: u64) -> Result<
    (Seq<ListenerView>, int),
    CodecError,
> {
    match parse_bounded_varint(bytes, max) {
        Err(e) => Err(e),
        Ok((count, n0)) => match parse_listener_items(bytes.skip(n0), count as nat) {
            Err(e) => Err(e),
            Ok((ls, n)) => Ok((ls, n0 + n)),
        },
    }
}

/// The bytes of an optional IP address.
pub open spec fn optional_ip_bytes(ip: Option<Seq<u8>>) -> Seq<u8> {
    match ip {
        None => seq![0u8],
        Some(ip) => seq![1u8] + ip_bytes(ip),
    }
}

/// Decoding of an optional IP address at the front of `bytes`.
pub open spec fn parse_optional_ip(bytes: Seq<u8>) -> Result<(Option<Seq<u8>>, int), CodecError> {
    if bytes.len() == 0 {
        Err(CodecError::UnexpectedEnd)
    } else if bytes[0] == 0 {
        Ok((None, 1))
    } else if bytes[0] == 1 {
        match parse_ip(bytes.skip(1)) {
            Err(e) => Err(e),
            Ok((ip, n)) => Ok((Some(ip), 1 + n)),
        }
    } else {
        Err(CodecError::InvalidOptionTag)
    }
}

/// Decoding of `n` raw bytes at the front of `bytes`.
pub open spec fn parse_fixed(bytes: Seq<u8>, n: nat) -> Result<(Seq<u8>, int), CodecError> {
    if bytes.len() < n {
        Err(CodecError::UnexpectedEnd)
    } else {
        Ok((bytes.take(n as int), n as int))
    }
}

/// The content of an announcement: what its hash covers.
pub open spec fn announcement_content_bytes(
    listeners: Seq<ListenerView>,
    routable_ip: Option<Seq<u8>>,
    timestamp: u64,
) -> Seq<u8> {
    listeners_bytes(listeners) + optional_ip_bytes(routable_ip) + varint_bytes(timestamp as nat)
}

/// The bytes of an announcement: its content, its hash, its signature.
pub open spec fn announcement_bytes(a: AnnouncementView) -> Seq<u8> {
    announcement_content_bytes(a.listeners, a.routable_ip, a.timestamp) + a.hash + a.signature
}

/// Decoding of an announcement with at most `max_listeners` listeners at the front of `bytes`.
pub open spec fn parse_announcement(bytes: Seq<u8>, max_listeners: u64) -> Result<
    (AnnouncementView, int),
    CodecError,
> {
    match parse_listeners(bytes, max_listeners) {
        Err(e) => Err(e),
        Ok((listeners, n1)) => match parse_optional_ip(bytes.skip(n1)) {
            Err(e) => Err(e),
            Ok((routable_ip, n2)) => match parse_varint(bytes.skip(n1 + n2)) {
                Err(e) => Err(e),
                Ok((timestamp, n3)) => match parse_fixed(bytes.skip(n1 + n2 + n3), 32) {
                    Err(e) => Err(e),
                    Ok((hash, n4)) => match parse_fixed(bytes.skip(n1 + n2 + n3 + n4), 64) {
                        Err(e) => Err(e),
                        Ok((signature, n5)) => Ok(
                            (
                                AnnouncementView { listeners, routable_ip, timestamp, hash, signature },
                                n1 + n2 + n3 + n4 + n5,
                            ),
                        ),
                    },
                },
            },
        },
    }
}

/// The bytes of a listing: the peer's identity, then its listeners.
pub open spec fn listing_bytes(p: PeerListingView) -> Seq<u8> {
    p.0 + listeners_bytes(p.1)
}

/// Decoding of a listing at the front of `bytes`.
pub open spec fn parse_listing(bytes: Seq<u8>, max_listeners: u64) -> Result<
    (PeerListingView, int),
    CodecError,
> {
    match parse_fixed(bytes, 32) {
        Err(e) => Err(e),
        Ok((id, n1)) => match parse_listeners(bytes.skip(n1), max_listeners) {
            Err(e) => Err(e),
            Ok((listeners, n2)) => Ok(((id, listeners), n1 + n2)),
        },
    }
}

/// The bytes of listings one after the other.
pub open spec fn listing_items_bytes(ps: Seq<PeerListingView>) -> Seq<u8>
    decreases ps.len(),
{
    if ps.len() == 0 {
        Seq::empty()
    } else {
        listing_items_bytes(ps.drop_last()) + listing_bytes(ps.last())
    }
}

/// Decoding of `count` listings at the front of `bytes`; the first one that fails decides.
pub open spec fn parse_listing_items(bytes: Seq<u8>, count: nat, max_listeners: u64) -> Result<
    (Seq<PeerListingView>, int),
    CodecError,
>
    decreases count,
{
    if count == 0 {
        Ok((Seq::empty(), 0))
    } else {
        match parse_listing_items(bytes, (count - 1) as nat, max_listeners) {
            Err(e) => Err(e),
            Ok((ps, n)) => match parse_listing(bytes.skip(n), max_listeners) {
                Err(e) => Err(e),
                Ok((p, k)) => Ok((ps.push(p), n + k)),
            },
        }
    }
}

/// The identifier under which a message travels.
pub open spec fn message_id(m: PeerManagementMessageView) -> u64 {
    match m {
        PeerManagementMessageView::ListPeers(_) => LIST_PEERS_ID,
        PeerManagementMessageView::NewPeerConnected(_) => NEW_PEER_CONNECTED_ID,
    }
}

/// The bytes of a message, without its identifier.
pub open spec fn message_bytes(m: PeerManagementMessageView) -> Seq<u8> {
    match m {
        PeerManagementMessageView::ListPeers(ps) => varint_bytes(ps.len()) + listing_items_bytes(ps),
        PeerManagementMessageView::NewPeerConnected(p) => listing_bytes(p),
    }
}

/// Decoding of the message with identifier `id` at the front of `bytes`,
/// with at most `max_peers` listings and `max_listeners` listeners in each.
pub open spec fn parse_message(id: u64, bytes: Seq<u8>, max_peers: u64, max_listeners: u64) -> Result<
    (PeerManagementMessageView, int),
    CodecError,
> {
    if id == LIST_PEERS_ID {
        match parse_bounded_varint(bytes, max_peers) {
            Err(e) => Err(e),
            Ok((count, n0)) => match parse_listing_items(bytes.skip(n0), count as nat, max_listeners) {
                Err(e) => Err(e),
                Ok((ps, n)) => Ok((PeerManagementMessageView::ListPeers(ps), n0 + n)),
            },
        }
    } else if id == NEW_PEER_CONNECTED_ID {
        match parse_listing(bytes, max_listeners) {
            Err(e) => Err(e),
            Ok((p, n)) => Ok((PeerManagementMessageView::NewPeerConnected(p), n)),
        }
    } else {
        Err(CodecError::UnknownMessageId)
    }
}

/// Decoding of a message that must fill `bytes`: bytes left over behind the
/// message are an error of their own.
pub open spec fn parse_whole_message(id: u64, bytes: Seq<u8>, max_peers: u64, max_listeners: u64) -> Result<
    PeerManagementMessageView,
    CodecError,
> {
    match parse_message(id, bytes, max_peers, max_listeners) {
        Err(e) => Err(e),
        Ok((message, used)) => if used != bytes.len() {
            Err(CodecError::CodecTrailing)
        } else {
            Ok(message)
        },
    }
}

/// The listeners can be read back: no more than `max`, each with a real address.
pub open spec fn valid_listeners(ls: Seq<ListenerView>, max: u64) -> bool {
    &&& ls.len() <= max
    &&& forall|i: int| 0 <= i < ls.len() ==> valid_ip((#[trigger] ls[i]).0)
}

/// The announcement can be read back.
pub open spec fn valid_announcement(a: AnnouncementView, max_listeners: u64) -> bool {
    &&& valid_listeners(a.listeners, max_listeners)
    &&& (a.routable_ip matches Some(ip) ==> valid_ip(ip))
    &&& a.hash.len() == 32
    &&& a.signature.len() == 64
}

/// The listing can be read back.
pub open spec fn valid_listing(p: PeerListingView, max_listeners: u64) -> bool {
    &&& p.0.len() == 32
    &&& valid_listeners(p.1, max_listeners)
}

/// The message can be read back.
pub open spec fn valid_message(m: PeerManagementMessageView, max_peers: u64, max_listeners: u64) -> bool {
    match m {
        PeerManagementMessageView::ListPeers(ps) => ps.len() <= max_peers && forall|i: int|
            0 <= i < ps.len() ==> valid_listing(#[trigger] ps[i], max_listeners),
        PeerManagementMessageView::NewPeerConnected(p) => valid_listing(p, max_listeners),
    }
}

/// Round trip of an IP address.
pub proof fn lemma_ip_round_trip(ip: Seq<u8>, rest: Seq<u8>)
    requires
        valid_ip(ip),
    ensures
        parse_ip(ip_bytes(ip) + rest) == Ok::<(Seq<u8>, int), CodecError>(
            (ip, ip_bytes(ip).len() as int),
        ),
{
    let bytes = ip_bytes(ip) + rest;
    if ip.len() == 4 {
        assert(bytes.subrange(1, 5) =~= ip);
    } else {
        assert(bytes.subrange(1, 17) =~= ip);
    }
}

/// Round trip of a listener.
pub proof fn lemma_listener_round_trip(l: ListenerView, rest: Seq<u8>)
    requires
        valid_ip(l.0),
    ensures
        parse_listener(listener_bytes(l) + rest) == Ok::<(ListenerView, int), CodecError>(
            (l, listener_bytes(l).len() as int),
        ),
{
    let a = ip_bytes(l.0);
    let b = varint_bytes(l.1 as nat);
    let c = seq![transport_tag(l.2)];
    let bytes = listener_bytes(l) + rest;
    assert(bytes =~= a + (b + c + rest));
    lemma_ip_round_trip(l.0, b + c + rest);
    assert(bytes.skip(a.len() as int) =~= b + (c + rest));
    lemma_varint_round_trip(l.1 as u64, c + rest);
    assert(bytes.skip((a.len() + b.len()) as int) =~= c + rest);
    assert((c + rest)[0] == transport_tag(l.2));
}

/// Round trip of listeners one after the other.
pub proof fn lemma_listener_items_round_trip(ls: Seq<ListenerView>, rest: Seq<u8>)
    requires
        forall|i: int| 0 <= i < ls.len() ==> valid_ip((#[trigger] ls[i]).0),
    ensures
        parse_listener_items(listener_items_bytes(ls) + rest, ls.len()) == Ok::<
            (Seq<ListenerView>, int),
            CodecError,
        >((ls, listener_items_bytes(ls).len() as int)),
    decreases ls.len(),
{
    if ls.len() == 0 {
        assert(ls =~= Seq::<ListenerView>::empty());
    } else {
        let d = ls.drop_last();
        let last = ls.last();
        let bytes = listener_items_bytes(ls) + rest;
        assert forall|i: int| 0 <= i < d.len() implies valid_ip((#[trigger] d[i]).0) by {
            assert(d[i] == ls[i]);
        }
        assert(bytes =~= listener_items_bytes(d) + (listener_bytes(last) + rest));
        lemma_listener_items_round_trip(d, listener_bytes(last) + rest);
        assert(bytes.skip(listener_items_bytes(d).len() as int) =~= listener_bytes(last) + rest);
        lemma_listener_round_trip(last, rest);
        assert(d.push(last) =~= ls);
    }
}

/// Round trip of a list of listeners.
pub proof fn lemma_listeners_round_trip(ls: Seq<ListenerView>, max: u64, rest: Seq<u8>)
    requires
        valid_listeners(ls, max),
    ensures
        parse_listeners(listeners_bytes(ls) + rest, max) == Ok::<(Seq<ListenerView>, int), CodecError>(
            (ls, listeners_bytes(ls).len() as int),
        ),
{
    let a = varint_bytes(ls.len());
    let bytes = listeners_bytes(ls) + rest;
    assert(bytes =~= a + (listener_items_bytes(ls) + rest));
    lemma_varint_round_trip(ls.len() as u64, listener_items_bytes(ls) + rest);
    assert(bytes.skip(a.len() as int) =~= listener_items_bytes(ls) + rest);
    lemma_listener_items_round_trip(ls, rest);
}

/// Round trip of an optional IP address.
pub proof fn lemma_optional_ip_round_trip(ip: Option<Seq<u8>>, rest: Seq<u8>)
    requires
        ip matches Some(octets) ==> valid_ip(octets),
    ensures
        parse_optional_ip(optional_ip_bytes(ip) + rest) == Ok::<(Option<Seq<u8>>, int), CodecError>(
            (ip, optional_ip_bytes(ip).len() as int),
        ),
{
    let bytes = optional_ip_bytes(ip) + rest;
    match ip {
        None => {},
        Some(octets) => {
            assert(bytes.skip(1) =~= ip_bytes(octets) + rest);
            lemma_ip_round_trip(octets, rest);
        },
    }
}

/// Round trip of an announcement.
pub proof fn lemma_announcement_round_trip(a: AnnouncementView, max_listeners: u64, rest: Seq<u8>)
    requires
        valid_announcement(a, max_listeners),
    ensures
        parse_announcement(announcement_bytes(a) + rest, max_listeners) == Ok::<
            (AnnouncementView, int),
            CodecError,
        >((a, announcement_bytes(a).len() as int)),
{
    let b1 = listeners_bytes(a.listeners);
    let b2 = optional_ip_bytes(a.routable_ip);
    let b3 = varint_bytes(a.timestamp as nat);
    let bytes = announcement_bytes(a) + rest;
    assert(bytes =~= b1 + (b2 + b3 + a.hash + a.signature + rest));
    lemma_listeners_round_trip(a.listeners, max_listeners, b2 + b3 + a.hash + a.signature + rest);
    assert(bytes.skip(b1.len() as int) =~= b2 + (b3 + a.hash + a.signature + rest));
    lemma_optional_ip_round_trip(a.routable_ip, b3 + a.hash + a.signature + rest);
    assert(bytes.skip((b1.len() + b2.len()) as int) =~= b3 + (a.hash + a.signature + rest));
    lemma_varint_round_trip(a.timestamp, a.hash + a.signature + rest);
    let n3 = (b1.len() + b2.len() + b3.len()) as int;
    assert(bytes.skip(n3) =~= a.hash + (a.signature + rest));
    assert(bytes.skip(n3).take(32) =~= a.hash);
    assert(bytes.skip(n3 + 32) =~= a.signature + rest);
    assert(bytes.skip(n3 + 32).take(64) =~= a.signature);
}

/// Round trip of a listing.
pub proof fn lemma_listing_round_trip(p: PeerListingView, max_listeners: u64, rest: Seq<u8>)
    requires
        valid_listing(p, max_listeners),
    ensures
        parse_listing(listing_bytes(p) + rest, max_listeners) == Ok::<
            (PeerListingView, int),
            CodecError,
        >((p, listing_bytes(p).len() as int)),
{
    let bytes = listing_bytes(p) + rest;
    assert(bytes =~= p.0 + (listeners_bytes(p.1) + rest));
    assert(bytes.take(32) =~= p.0);
    assert(bytes.skip(32) =~= listeners_bytes(p.1) + rest);
    lemma_listeners_round_trip(p.1, max_listeners, rest);
}

/// Round trip of listings one after the other.
pub proof fn lemma_listing_items_round_trip(
    ps: Seq<PeerListingView>,
    max_listeners: u64,
    rest: Seq<u8>,
)
    requires
        forall|i: int| 0 <= i < ps.len() ==> valid_listing(#[trigger] ps[i], max_listeners),
    ensures
        parse_listing_items(listing_items_bytes(ps) + rest, ps.len(), max_listeners) == Ok::<
            (Seq<PeerListingView>, int),
            CodecError,
        >((ps, listing_items_bytes(ps).len() as int)),
    decreases ps.len(),
{
    if ps.len() == 0 {
        assert(ps =~= Seq::<PeerListingView>::empty());
    } else {
        let d = ps.drop_last();
        let last = ps.last();
        let bytes = listing_items_bytes(ps) + rest;
        assert forall|i: int| 0 <= i < d.len() implies valid_listing(#[trigger] d[i], max_listeners) by {
            assert(d[i] == ps[i]);
        }
        assert(bytes =~= listing_items_bytes(d) + (listing_bytes(last) + rest));
        lemma_listing_items_round_trip(d, max_listeners, listing_bytes(last) + rest);
        assert(bytes.skip(listing_items_bytes(d).len() as int) =~= listing_bytes(last) + rest);
        lemma_listing_round_trip(last, max_listeners, rest);
        assert(d.push(last) =~= ps);
    }
}

/// Codec round trip of peer management messages. The bytes of a message
/// within bounds, read under the message's identifier, decode to that
/// message, and decoding takes exactly the bytes that encoding gave.
pub proof fn lemma_message_round_trip(
    m: PeerManagementMessageView,
    max_peers: u64,
    max_listeners: u64,
    rest: Seq<u8>,
)
    requires
        valid_message(m, max_peers, max_listeners),
    ensures
        parse_message(message_id(m), message_bytes(m) + rest, max_peers, max_listeners) == Ok::<
            (PeerManagementMessageView, int),
            CodecError,
        >((m, message_bytes(m).len() as int)),
{
    let bytes = message_bytes(m) + rest;
    match m {
        PeerManagementMessageView::ListPeers(ps) => {
            let a = varint_bytes(ps.len());
            assert(bytes =~= a + (listing_items_bytes(ps) + rest));
            lemma_varint_round_trip(ps.len() as u64, listing_items_bytes(ps) + rest);
            assert(bytes.skip(a.len() as int) =~= listing_items_bytes(ps) + rest);
            lemma_listing_items_round_trip(ps, max_listeners, rest);
        },
        PeerManagementMessageView::NewPeerConnected(p) => {
            lemma_listing_round_trip(p, max_listeners, rest);
        },
    }
}

/// A list of more listeners than the maximum is refused as out of bounds.
pub proof fn lemma_too_many_listeners_refused(count: u64, rest: Seq<u8>, max: u64)
    requires
        count > max,
    ensures
        parse_listeners(varint_bytes(count as nat) + rest, max) == Err::<
            (Seq<ListenerView>, int),
            CodecError,
        >(CodecError::CodecBounds),
{
    lemma_varint_round_trip(count, rest);
}

/// A list of more peers than the maximum is refused as out of bounds.
pub proof fn lemma_too_many_peers_refused(count: u64, rest: Seq<u8>, max_peers: u64, max_listeners: u64)
    requires
        count > max_peers,
    ensures
        parse_message(LIST_PEERS_ID, varint_bytes(count as nat) + rest, max_peers, max_listeners)
            == Err::<(PeerManagementMessageView, int), CodecError>(CodecError::CodecBounds),
{
    lemma_varint_round_trip(count, rest);
}

/// Once a listener fails, reading more listeners fails in the same way.
pub proof fn lemma_listener_items_error_stays(bytes: Seq<u8>, failed: nat, count: nat)
    requires
        failed <= count,
        parse_listener_items(bytes, failed) is Err,
    ensures
        parse_listener_items(bytes, count) == parse_listener_items(bytes, failed),
    decreases count,
{
    if failed < count {
        lemma_listener_items_error_stays(bytes, failed, (count - 1) as nat);
    }
}

/// Once a listing fails, reading more listings fails in the same way.
pub proof fn lemma_listing_items_error_stays(
    bytes: Seq<u8>,
    failed: nat,
    count: nat,
    max_listeners: u64,
)
    requires
        failed <= count,
        parse_listing_items(bytes, failed, max_listeners) is Err,
    ensures
        parse_listing_items(bytes, count, max_listeners) == parse_listing_items(
            bytes,
            failed,
            max_listeners,
        ),
    decreases count,
{
    if failed < count {
        lemma_listing_items_error_stays(bytes, failed, (count - 1) as nat, max_listeners);
    }
}

} // verus!
