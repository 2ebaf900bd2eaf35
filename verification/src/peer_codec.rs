//! Serializers and deserializers of listeners, announcements and peer
//! management messages.

use vstd::prelude::*;
use crate::peer_types::{
    listeners_view, listings_view, optional_ip_view, Announcement, AnnouncementView, IpAddress,
    ListenerView, PeerId, PeerListingView, Signature, SocketAddress, TransportType,
};
use crate::peer_wire::{
    lemma_announcement_round_trip, lemma_message_round_trip,
    announcement_bytes, announcement_content_bytes, ip_bytes, lemma_listener_items_error_stays,
    lemma_listing_items_error_stays, listener_bytes, listener_items_bytes, listeners_bytes,
    listing_bytes, listing_items_bytes, message_bytes, message_id, optional_ip_bytes,
    parse_announcement, parse_fixed, parse_ip, parse_listener, parse_listener_items,
    parse_listeners, parse_listing, parse_listing_items, parse_message, parse_optional_ip,
    parse_whole_message, valid_announcement, valid_ip, valid_listeners, valid_listing,
    valid_message, PeerManagementMessageView, LIST_PEERS_ID, MAX_PORT, NEW_PEER_CONNECTED_ID,
};
use crate::varint::{
    parse_bounded_varint, read_bounded_varint, read_varint, varint_bytes, write_varint, CodecError,
};

verus! {

/// A peer management message.
#[derive(Debug, PartialEq, Eq)]
pub enum PeerManagementMessage {
    /// A peer has connected: its identity and its listeners.
    NewPeerConnected((PeerId, Vec<(SocketAddress, TransportType)>)),
    /// Peers that the sender knows, each with its listeners.
    ListPeers(Vec<(PeerId, Vec<(SocketAddress, TransportType)>)>),
}

impl View for PeerManagementMessage {
    type V = PeerManagementMessageView;

    open spec fn view(&self) -> PeerManagementMessageView {
        match self {
            PeerManagementMessage::NewPeerConnected(p) => PeerManagementMessageView::NewPeerConnected(
                (p.0@, listeners_view(p.1@)),
            ),
            PeerManagementMessage::ListPeers(ps) => PeerManagementMessageView::ListPeers(
                listings_view(ps@),
            ),
        }
    }
}

/// Reads `N` raw bytes from `pos` in `buffer`.
pub fn read_array<const N: usize>(buffer: &[u8], pos: usize) -> (r: Result<([u8; N], usize), CodecError>)
    requires
        pos <= buffer@.len(),
    ensures
        match r {
            Ok((bytes, next)) => next == pos + N && next <= buffer@.len() && parse_fixed(
                buffer@.skip(pos as int),
                N as nat,
            ) == Ok::<(Seq<u8>, int), CodecError>((bytes@, N as int)),
            Err(e) => parse_fixed(buffer@.skip(pos as int), N as nat) == Err::<
                (Seq<u8>, int),
                CodecError,
            >(e),
        },
{
    let total = buffer.len();
    if total - pos < N {
        return Err(CodecError::UnexpectedEnd);
    }
    let mut bytes = [0u8; N];
    let mut k: usize = 0;
    while k < N
        invariant
            k <= N,
            total == buffer@.len(),
            pos + N <= total,
            forall|j: int| 0 <= j < k ==> bytes@[j] == buffer@[pos + j],
        decreases N - k,
    {
        bytes[k] = buffer[pos + k];
        k += 1;
    }
    assert(bytes@ =~= buffer@.skip(pos as int).take(N as int));
    Ok((bytes, pos + N))
}

/// Appends the bytes of `ip` to `buffer`.
pub fn write_ip(ip: &IpAddress, buffer: &mut Vec<u8>)
    ensures
        final(buffer)@ == old(buffer)@ + ip_bytes(ip@),
{
    let ghost start = buffer@;
    match ip {
        IpAddress::V4(octets) => {
            buffer.push(4);
            buffer.extend_from_slice(octets.as_slice());
            assert(octets@.len() == 4);
        },
        IpAddress::V6(octets) => {
            buffer.push(6);
            buffer.extend_from_slice(octets.as_slice());
            assert(octets@.len() == 16);
        },
    }
    assert(buffer@ =~= start + ip_bytes(ip@));
}

/// Reads the IP address encoded at `pos` in `buffer`.
pub fn read_ip(buffer: &[u8], pos: usize) -> (r: Result<(IpAddress, usize), CodecError>)
    requires
        pos <= buffer@.len(),
    ensures
        match r {
            Ok((ip, next)) => pos < next <= buffer@.len() && parse_ip(buffer@.skip(pos as int))
                == Ok::<(Seq<u8>, int), CodecError>((ip@, next - pos)),
            Err(e) => parse_ip(buffer@.skip(pos as int)) == Err::<(Seq<u8>, int), CodecError>(e),
        },
{
    let ghost bytes = buffer@.skip(pos as int);
    if pos >= buffer.len() {
        return Err(CodecError::UnexpectedEnd);
    }
    let kind = buffer[pos];
    assert(kind == bytes[0]);
    proof {
        assert(bytes.skip(1) =~= buffer@.skip(pos + 1));
    }
    if kind == 4 {
        match read_array::<4>(buffer, pos + 1) {
            Err(e) => Err(e),
            Ok((octets, next)) => {
                assert(octets@ =~= bytes.subrange(1, 5));
                Ok((IpAddress::V4(octets), next))
            },
        }
    } else if kind == 6 {
        match read_array::<16>(buffer, pos + 1) {
            Err(e) => Err(e),
            Ok((octets, next)) => {
                assert(octets@ =~= bytes.subrange(1, 17));
                Ok((IpAddress::V6(octets), next))
            },
        }
    } else {
        Err(CodecError::InvalidIpKind)
    }
}

/// Appends the bytes of a listener to `buffer`.
pub fn write_listener(listener: &(SocketAddress, TransportType), buffer: &mut Vec<u8>)
    ensures
        final(buffer)@ == old(buffer)@ + listener_bytes(
            (listener.0.ip@, listener.0.port, listener.1),
        ),
{
    let ghost start = buffer@;
    write_ip(&listener.0.ip, buffer);
    write_varint(listener.0.port as u64, buffer);
    match listener.1 {
        TransportType::Tcp => buffer.push(0),
        TransportType::Quic => buffer.push(1),
    }
    assert(buffer@ =~= start + listener_bytes((listener.0.ip@, listener.0.port, listener.1)));
}

/// Reads the listener encoded at `pos` in `buffer`.
pub fn read_listener(buffer: &[u8], pos: usize) -> (r: Result<
    ((SocketAddress, TransportType), usize),
    CodecError,
>)
    requires
        pos <= buffer@.len(),
    ensures
        match r {
            Ok((l, next)) => pos < next <= buffer@.len() && parse_listener(buffer@.skip(pos as int))
                == Ok::<(ListenerView, int), CodecError>(((l.0.ip@, l.0.port, l.1), next - pos)),
            Err(e) => parse_listener(buffer@.skip(pos as int)) == Err::<
                (ListenerView, int),
                CodecError,
            >(e),
        },
{
    let ghost bytes = buffer@.skip(pos as int);
    let (ip, cut1) = match read_ip(buffer, pos) {
        Err(e) => {
            return Err(e);
        },
        Ok(x) => x,
    };
    proof {
        assert(bytes.skip(cut1 - pos) =~= buffer@.skip(cut1 as int));
    }
    let (port, cut2) = match read_bounded_varint(buffer, cut1, MAX_PORT) {
        Err(e) => {
            return Err(e);
        },
        Ok(x) => x,
    };
    proof {
        assert(bytes.skip((cut1 - pos) + (cut2 - cut1)) =~= buffer@.skip(cut2 as int));
    }
    if cut2 >= buffer.len() {
        return Err(CodecError::UnexpectedEnd);
    }
    let tag = buffer[cut2];
    assert(tag == buffer@.skip(cut2 as int)[0]);
    let transport = if tag == 0 {
        TransportType::Tcp
    } else if tag == 1 {
        TransportType::Quic
    } else {
        return Err(CodecError::InvalidTransport);
    };
    Ok(((SocketAddress { ip, port: port as u16 }, transport), cut2 + 1))
}

/// Appends the bytes of a list of listeners to `buffer`.
pub fn write_listeners(listeners: &Vec<(SocketAddress, TransportType)>, buffer: &mut Vec<u8>)
    ensures
        final(buffer)@ == old(buffer)@ + listeners_bytes(listeners_view(listeners@)),
{
    let ghost start = buffer@;
    let ghost w = listeners_view(listeners@);
    write_varint(listeners.len() as u64, buffer);
    let ghost head = buffer@;
    let mut i: usize = 0;
    proof {
        assert(w.take(0) =~= Seq::<ListenerView>::empty());
        assert(buffer@ =~= head + listener_items_bytes(w.take(0)));
    }
    while i < listeners.len()
        invariant
            i <= listeners@.len(),
            w == listeners_view(listeners@),
            head == start + varint_bytes(listeners@.len()),
            buffer@ == head + listener_items_bytes(w.take(i as int)),
        decreases listeners@.len() - i,
    {
        write_listener(&listeners[i], buffer);
        proof {
            assert(w.take(i + 1).drop_last() =~= w.take(i as int));
            assert(w.take(i + 1).last() == w[i as int]);
            assert(buffer@ =~= head + listener_items_bytes(w.take(i + 1)));
        }
        i += 1;
    }
    proof {
        assert(w.take(i as int) =~= w);
        assert(buffer@ =~= start + listeners_bytes(w));
    }
}

/// Reads the list of at most `max` listeners encoded at `pos` in `buffer`.
pub fn read_listeners(buffer: &[u8], pos: usize, max: u64) -> (r: Result<
    (Vec<(SocketAddress, TransportType)>, usize),
    CodecError,
>)
    requires
        pos <= buffer@.len(),
    ensures
        match r {
            Ok((ls, next)) => pos < next <= buffer@.len() && parse_listeners(
                buffer@.skip(pos as int),
                max,
            ) == Ok::<(Seq<ListenerView>, int), CodecError>((listeners_view(ls@), next - pos)),
            Err(e) => parse_listeners(buffer@.skip(pos as int), max) == Err::<
                (Seq<ListenerView>, int),
                CodecError,
            >(e),
        },
{
    let ghost all = buffer@.skip(pos as int);
    let (count, cut0) = match read_bounded_varint(buffer, pos, max) {
        Err(e) => {
            return Err(e);
        },
        Ok(x) => x,
    };
    let ghost bytes = all.skip(cut0 - pos);
    let mut listeners: Vec<(SocketAddress, TransportType)> = Vec::new();
    let mut at: usize = cut0;
    let mut i: u64 = 0;
    proof {
        assert(listeners_view(listeners@) =~= Seq::<ListenerView>::empty());
    }
    while i < count
        invariant
            i <= count,
            pos < cut0 <= at <= buffer@.len(),
            all == buffer@.skip(pos as int),
            bytes == all.skip(cut0 - pos),
            parse_bounded_varint(all, max) == Ok::<(u64, int), CodecError>((count, cut0 - pos)),
            parse_listener_items(bytes, i as nat) == Ok::<(Seq<ListenerView>, int), CodecError>(
                (listeners_view(listeners@), at - cut0),
            ),
        decreases count - i,
    {
        proof {
            assert(bytes.skip(at - cut0) =~= buffer@.skip(at as int));
        }
        let (listener, next) = match read_listener(buffer, at) {
            Err(e) => {
                proof {
                    lemma_listener_items_error_stays(bytes, (i + 1) as nat, count as nat);
                }
                return Err(e);
            },
            Ok(x) => x,
        };
        let ghost before = listeners_view(listeners@);
        listeners.push(listener);
        proof {
            assert(listeners_view(listeners@) =~= before.push(
                (listener.0.ip@, listener.0.port, listener.1),
            ));
        }
        at = next;
        i += 1;
    }
    Ok((listeners, at))
}

/// Appends the bytes of an optional IP address to `buffer`.
pub fn write_optional_ip(ip: &Option<IpAddress>, buffer: &mut Vec<u8>)
    ensures
        final(buffer)@ == old(buffer)@ + optional_ip_bytes(optional_ip_view(*ip)),
{
    let ghost start = buffer@;
    match ip {
        None => {
            buffer.push(0);
        },
        Some(ip) => {
            buffer.push(1);
            write_ip(ip, buffer);
        },
    }
    assert(buffer@ =~= start + optional_ip_bytes(optional_ip_view(*ip)));
}

/// Reads the optional IP address encoded at `pos` in `buffer`.
pub fn read_optional_ip(buffer: &[u8], pos: usize) -> (r: Result<(Option<IpAddress>, usize), CodecError>)
    requires
        pos <= buffer@.len(),
    ensures
        match r {
            Ok((ip, next)) => pos < next <= buffer@.len() && parse_optional_ip(
                buffer@.skip(pos as int),
            ) == Ok::<(Option<Seq<u8>>, int), CodecError>((optional_ip_view(ip), next - pos)),
            Err(e) => parse_optional_ip(buffer@.skip(pos as int)) == Err::<
                (Option<Seq<u8>>, int),
                CodecError,
            >(e),
        },
{
    let ghost bytes = buffer@.skip(pos as int);
    if pos >= buffer.len() {
        return Err(CodecError::UnexpectedEnd);
    }
    let tag = buffer[pos];
    assert(tag == bytes[0]);
    if tag == 0 {
        Ok((None, pos + 1))
    } else if tag == 1 {
        proof {
            assert(bytes.skip(1) =~= buffer@.skip(pos + 1));
        }
        match read_ip(buffer, pos + 1) {
            Err(e) => Err(e),
            Ok((ip, next)) => Ok((Some(ip), next)),
        }
    } else {
        Err(CodecError::InvalidOptionTag)
    }
}

/// Appends to `buffer` the content of an announcement, which is what its hash covers.
pub fn write_announcement_content(
    listeners: &Vec<(SocketAddress, TransportType)>,
    routable_ip: &Option<IpAddress>,
    timestamp: u64,
    buffer: &mut Vec<u8>,
)
    ensures
        final(buffer)@ == old(buffer)@ + announcement_content_bytes(
            listeners_view(listeners@),
            optional_ip_view(*routable_ip),
            timestamp,
        ),
{
    let ghost start = buffer@;
    write_listeners(listeners, buffer);
    write_optional_ip(routable_ip, buffer);
    write_varint(timestamp, buffer);
    assert(buffer@ =~= start + announcement_content_bytes(
        listeners_view(listeners@),
        optional_ip_view(*routable_ip),
        timestamp,
    ));
}

/// Serializer of announcements.
pub struct AnnouncementSerializer {}

/// Deserializer of announcements, with the number of listeners that it accepts at most.
pub struct AnnouncementDeserializer {
    max_listeners: u64,
}

impl AnnouncementSerializer {
    /// Creates a serializer.
    pub fn new() -> AnnouncementSerializer {
        AnnouncementSerializer {  }
    }

    /// Appends the bytes of `value` to `buffer`: content, hash, signature.
    pub fn serialize(&self, value: &Announcement, buffer: &mut Vec<u8>)
        ensures
            final(buffer)@ == old(buffer)@ + announcement_bytes(value@),
    {
        let ghost start = buffer@;
        write_announcement_content(&value.listeners, &value.routable_ip, value.timestamp, buffer);
        let hash = value.hash.to_bytes();
        buffer.extend_from_slice(hash.as_slice());
        let signature = value.signature.to_bytes();
        buffer.extend_from_slice(signature.as_slice());
        assert(buffer@ =~= start + announcement_bytes(value@));
    }
}

impl AnnouncementDeserializer {
    /// Largest number of listeners in an announcement.
    pub closed spec fn spec_max_listeners(&self) -> u64 {
        self.max_listeners
    }

    /// Creates a deserializer that accepts announcements of at most `max_listeners` listeners.
    pub fn new(max_listeners: u64) -> (d: AnnouncementDeserializer)
        ensures
            d.spec_max_listeners() == max_listeners,
    {
        AnnouncementDeserializer { max_listeners }
    }

    /// Reads an announcement from `pos` in `buffer` and returns it with the
    /// position of the bytes behind it.
    pub fn deserialize(&self, buffer: &[u8], pos: usize) -> (r: Result<(usize, Announcement), CodecError>)
        requires
            pos <= buffer@.len(),
        ensures
            match r {
                Ok((next, a)) => pos < next <= buffer@.len() && parse_announcement(
                    buffer@.skip(pos as int),
                    self.spec_max_listeners(),
                ) == Ok::<(AnnouncementView, int), CodecError>((a@, next - pos)),
                Err(e) => parse_announcement(buffer@.skip(pos as int), self.spec_max_listeners())
                    == Err::<(AnnouncementView, int), CodecError>(e),
            },
    {
        let ghost bytes = buffer@.skip(pos as int);
        let (listeners, cut1) = match read_listeners(buffer, pos, self.max_listeners) {
            Err(e) => {
                return Err(e);
            },
            Ok(x) => x,
        };
        proof {
            assert(bytes.skip(cut1 - pos) =~= buffer@.skip(cut1 as int));
        }
        let (routable_ip, cut2) = match read_optional_ip(buffer, cut1) {
            Err(e) => {
                return Err(e);
            },
            Ok(x) => x,
        };
        proof {
            assert(bytes.skip((cut1 - pos) + (cut2 - cut1)) =~= buffer@.skip(cut2 as int));
        }
        let (timestamp, cut3) = match read_varint(buffer, cut2) {
            Err(e) => {
                return Err(e);
            },
            Ok(x) => x,
        };
        proof {
            assert(bytes.skip((cut1 - pos) + (cut2 - cut1) + (cut3 - cut2)) =~= buffer@.skip(cut3 as int));
        }
        let (hash, cut4) = match read_array::<32>(buffer, cut3) {
            Err(e) => {
                return Err(e);
            },
            Ok(x) => x,
        };
        proof {
            assert(bytes.skip((cut1 - pos) + (cut2 - cut1) + (cut3 - cut2) + 32) =~= buffer@.skip(cut4 as int));
        }
        let (signature, cut5) = match read_array::<64>(buffer, cut4) {
            Err(e) => {
                return Err(e);
            },
            Ok(x) => x,
        };
        let a = Announcement {
            listeners,
            routable_ip,
            timestamp,
            hash: crate::hash::Hash::from_bytes(&hash),
            signature: Signature::from_bytes(&signature),
        };
        Ok((cut5, a))
    }
}

/// Appends the bytes of a listing to `buffer`.
pub fn write_listing(
    peer: &PeerId,
    listeners: &Vec<(SocketAddress, TransportType)>,
    buffer: &mut Vec<u8>,
)
    ensures
        final(buffer)@ == old(buffer)@ + listing_bytes((peer@, listeners_view(listeners@))),
{
    let ghost start = buffer@;
    let id = peer.to_bytes();
    buffer.extend_from_slice(id.as_slice());
    write_listeners(listeners, buffer);
    assert(buffer@ =~= start + listing_bytes((peer@, listeners_view(listeners@))));
}

/// Reads the listing encoded at `pos` in `buffer`.
pub fn read_listing(buffer: &[u8], pos: usize, max_listeners: u64) -> (r: Result<
    ((PeerId, Vec<(SocketAddress, TransportType)>), usize),
    CodecError,
>)
    requires
        pos <= buffer@.len(),
    ensures
        match r {
            Ok((p, next)) => pos < next <= buffer@.len() && parse_listing(
                buffer@.skip(pos as int),
                max_listeners,
            ) == Ok::<(PeerListingView, int), CodecError>(((p.0@, listeners_view(p.1@)), next - pos)),
            Err(e) => parse_listing(buffer@.skip(pos as int), max_listeners) == Err::<
                (PeerListingView, int),
                CodecError,
            >(e),
        },
{
    let ghost bytes = buffer@.skip(pos as int);
    let (id, cut1) = match read_array::<32>(buffer, pos) {
        Err(e) => {
            return Err(e);
        },
        Ok(x) => x,
    };
    proof {
        assert(bytes.skip(32) =~= buffer@.skip(cut1 as int));
    }
    match read_listeners(buffer, cut1, max_listeners) {
        Err(e) => Err(e),
        Ok((listeners, cut2)) => Ok(((PeerId::from_bytes(&id), listeners), cut2)),
    }
}

/// Serializer of peer management messages.
pub struct PeerManagementMessageSerializer {}

/// Deserializer of peer management messages, with the bounds that it holds the input to.
pub struct PeerManagementMessageDeserializer {
    max_peers_per_announcement: u64,
    max_listeners_per_peer: u64,
}

impl PeerManagementMessageSerializer {
    /// Creates a serializer.
    pub fn new() -> PeerManagementMessageSerializer {
        PeerManagementMessageSerializer {  }
    }

    /// Appends to `buffer` the identifier under which `value` travels.
    pub fn serialize_id(&self, value: &PeerManagementMessage, buffer: &mut Vec<u8>)
        ensures
            final(buffer)@ == old(buffer)@ + varint_bytes(message_id(value@) as nat),
    {
        match value {
            PeerManagementMessage::ListPeers(_) => write_varint(LIST_PEERS_ID, buffer),
            PeerManagementMessage::NewPeerConnected(_) => write_varint(NEW_PEER_CONNECTED_ID, buffer),
        }
    }

    /// Appends the bytes of `value` to `buffer`, without its identifier.
    pub fn serialize(&self, value: &PeerManagementMessage, buffer: &mut Vec<u8>)
        ensures
            final(buffer)@ == old(buffer)@ + message_bytes(value@),
    {
        let ghost start = buffer@;
        match value {
            PeerManagementMessage::NewPeerConnected(p) => {
                write_listing(&p.0, &p.1, buffer);
            },
            PeerManagementMessage::ListPeers(peers) => {
                let ghost w = listings_view(peers@);
                write_varint(peers.len() as u64, buffer);
                let ghost head = buffer@;
                let mut i: usize = 0;
                proof {
                    assert(w.take(0) =~= Seq::<PeerListingView>::empty());
                    assert(buffer@ =~= head + listing_items_bytes(w.take(0)));
                }
                while i < peers.len()
                    invariant
                        i <= peers@.len(),
                        w == listings_view(peers@),
                        head == start + varint_bytes(peers@.len()),
                        buffer@ == head + listing_items_bytes(w.take(i as int)),
                    decreases peers@.len() - i,
                {
                    write_listing(&peers[i].0, &peers[i].1, buffer);
                    proof {
                        assert(w.take(i + 1).drop_last() =~= w.take(i as int));
                        assert(w.take(i + 1).last() == w[i as int]);
                        assert(buffer@ =~= head + listing_items_bytes(w.take(i + 1)));
                    }
                    i += 1;
                }
                proof {
                    assert(w.take(i as int) =~= w);
                    assert(buffer@ =~= start + message_bytes(value@));
                }
            },
        }
    }
}

impl PeerManagementMessageDeserializer {
    /// Largest number of peers in a list of peers.
    pub closed spec fn spec_max_peers(&self) -> u64 {
        self.max_peers_per_announcement
    }

    /// Largest number of listeners of a peer.
    pub closed spec fn spec_max_listeners(&self) -> u64 {
        self.max_listeners_per_peer
    }

    /// What the deserializer makes of `bytes` under the identifier `id`.
    pub open spec fn spec_deserialize(&self, id: u64, bytes: Seq<u8>) -> Result<
        (PeerManagementMessageView, int),
        CodecError,
    > {
        parse_message(id, bytes, self.spec_max_peers(), self.spec_max_listeners())
    }

    /// Creates a deserializer that accepts lists of at most
    /// `max_peers_per_announcement` peers with at most
    /// `max_listeners_per_peer` listeners each.
    pub fn new(max_peers_per_announcement: u64, max_listeners_per_peer: u64) -> (d:
        PeerManagementMessageDeserializer)
        ensures
            d.spec_max_peers() == max_peers_per_announcement,
            d.spec_max_listeners() == max_listeners_per_peer,
    {
        PeerManagementMessageDeserializer { max_peers_per_announcement, max_listeners_per_peer }
    }

    /// Reads the message with identifier `message_id` that fills `buffer`.
    /// Bytes left over behind the message are an error.
    pub fn deserialize_all(&self, message_id: u64, buffer: &[u8]) -> (r: Result<
        PeerManagementMessage,
        CodecError,
    >)
        ensures
            match r {
                Ok(m) => parse_whole_message(
                    message_id,
                    buffer@,
                    self.spec_max_peers(),
                    self.spec_max_listeners(),
                ) == Ok::<PeerManagementMessageView, CodecError>(m@),
                Err(e) => parse_whole_message(
                    message_id,
                    buffer@,
                    self.spec_max_peers(),
                    self.spec_max_listeners(),
                ) == Err::<PeerManagementMessageView, CodecError>(e),
            },
    {
        match self.deserialize(message_id, buffer) {
            Err(e) => Err(e),
            Ok((rest, message)) => {
                if rest != buffer.len() {
                    Err(CodecError::CodecTrailing)
                } else {
                    Ok(message)
                }
            },
        }
    }

    /// Reads the message with identifier `message_id` from the front of
    /// `buffer` and returns the position of the bytes behind it together with
    /// the message.
    pub fn deserialize(&self, message_id: u64, buffer: &[u8]) -> (r: Result<
        (usize, PeerManagementMessage),
        CodecError,
    >)
        ensures
            match r {
                Ok((rest, m)) => rest <= buffer@.len() && self.spec_deserialize(message_id, buffer@)
                    == Ok::<(PeerManagementMessageView, int), CodecError>((m@, rest as int)),
                Err(e) => self.spec_deserialize(message_id, buffer@) == Err::<
                    (PeerManagementMessageView, int),
                    CodecError,
                >(e),
            },
    {
        let ghost all = buffer@;
        proof {
            assert(all.skip(0) =~= all);
        }
        if message_id == NEW_PEER_CONNECTED_ID {
            match read_listing(buffer, 0, self.max_listeners_per_peer) {
                Err(e) => Err(e),
                Ok((p, next)) => Ok((next, PeerManagementMessage::NewPeerConnected(p))),
            }
        } else if message_id == LIST_PEERS_ID {
            let (count, cut0) = match read_bounded_varint(buffer, 0, self.max_peers_per_announcement) {
                Err(e) => {
                    return Err(e);
                },
                Ok(x) => x,
            };
            let ghost bytes = all.skip(cut0 as int);
            let mut peers: Vec<(PeerId, Vec<(SocketAddress, TransportType)>)> = Vec::new();
            let mut at: usize = cut0;
            let mut i: u64 = 0;
            proof {
                assert(listings_view(peers@) =~= Seq::<PeerListingView>::empty());
            }
            while i < count
                invariant
                    i <= count,
                    cut0 <= at <= buffer@.len(),
                    all == buffer@,
                    bytes == all.skip(cut0 as int),
                    message_id == LIST_PEERS_ID,
                    parse_bounded_varint(all, self.max_peers_per_announcement) == Ok::<
                        (u64, int),
                        CodecError,
                    >((count, cut0 as int)),
                    parse_listing_items(bytes, i as nat, self.max_listeners_per_peer) == Ok::<
                        (Seq<PeerListingView>, int),
                        CodecError,
                    >((listings_view(peers@), at - cut0)),
                decreases count - i,
            {
                proof {
                    assert(bytes.skip(at - cut0) =~= all.skip(at as int));
                }
                let (p, next) = match read_listing(buffer, at, self.max_listeners_per_peer) {
                    Err(e) => {
                        proof {
                            lemma_listing_items_error_stays(
                                bytes,
                                (i + 1) as nat,
                                count as nat,
                                self.max_listeners_per_peer,
                            );
                        }
                        return Err(e);
                    },
                    Ok(x) => x,
                };
                let ghost before = listings_view(peers@);
                peers.push(p);
                proof {
                    assert(listings_view(peers@) =~= before.push((p.0@, listeners_view(p.1@))));
                }
                at = next;
                i += 1;
            }
            Ok((at, PeerManagementMessage::ListPeers(peers)))
        } else {
            Err(CodecError::UnknownMessageId)
        }
    }
}

/// Listeners that are no more than `max` can be read back: each has a real address.
pub proof fn lemma_listeners_are_valid(listeners: Seq<(SocketAddress, TransportType)>, max: u64)
    requires
        listeners.len() <= max,
    ensures
        valid_listeners(listeners_view(listeners), max),
{
    let w = listeners_view(listeners);
    assert forall|i: int| 0 <= i < w.len() implies valid_ip((#[trigger] w[i]).0) by {
        listeners[i].0.ip.lemma_view_injective(listeners[i].0.ip);
    }
}

/// An announcement with no more listeners than `max_listeners` can be read
/// back: written and read again, it is the same announcement.
pub proof fn lemma_announcement_is_valid(a: Announcement, max_listeners: u64)
    requires
        a.listeners@.len() <= max_listeners,
    ensures
        valid_announcement(a@, max_listeners),
{
    lemma_listeners_are_valid(a.listeners@, max_listeners);
    a.signature.lemma_view_len();
    match a.routable_ip {
        None => {},
        Some(ip) => {
            ip.lemma_view_injective(ip);
        },
    }
}

/// A message within the bounds can be read back: written and read again
/// under its identifier, it is the same message.
pub proof fn lemma_message_is_valid(m: PeerManagementMessage, max_peers: u64, max_listeners: u64)
    requires
        match m {
            PeerManagementMessage::NewPeerConnected(p) => p.1@.len() <= max_listeners,
            PeerManagementMessage::ListPeers(ps) => ps@.len() <= max_peers && forall|i: int|
                0 <= i < ps@.len() ==> (#[trigger] ps@[i]).1@.len() <= max_listeners,
        },
    ensures
        valid_message(m@, max_peers, max_listeners),
{
    match m {
        PeerManagementMessage::NewPeerConnected(p) => {
            p.0.lemma_view_len();
            lemma_listeners_are_valid(p.1@, max_listeners);
        },
        PeerManagementMessage::ListPeers(ps) => {
            let w = listings_view(ps@);
            assert forall|i: int| 0 <= i < w.len() implies valid_listing(
                #[trigger] w[i],
                max_listeners,
            ) by {
                ps@[i].0.lemma_view_len();
                assert(ps@[i].1@.len() <= max_listeners);
                lemma_listeners_are_valid(ps@[i].1@, max_listeners);
            }
        },
    }
}

/// Codec round trip of announcements. What the serializer writes for an
/// announcement within the bound of a deserializer, whatever follows it, the
/// deserializer reads back as that announcement.
pub proof fn lemma_announcement_reads_back(
    deserializer: &AnnouncementDeserializer,
    a: Announcement,
    rest: Seq<u8>,
)
    requires
        a.listeners@.len() <= deserializer.spec_max_listeners(),
    ensures
        parse_announcement(announcement_bytes(a@) + rest, deserializer.spec_max_listeners()) == Ok::<
            (AnnouncementView, int),
            CodecError,
        >((a@, announcement_bytes(a@).len() as int)),
{
    lemma_announcement_is_valid(a, deserializer.spec_max_listeners());
    lemma_announcement_round_trip(a@, deserializer.spec_max_listeners(), rest);
}

/// Codec round trip of messages. What the serializer writes for a message
/// within the bounds of a deserializer, the deserializer reads back, under
/// the message's identifier, as that message and nothing else.
pub proof fn lemma_message_reads_back(
    deserializer: &PeerManagementMessageDeserializer,
    m: PeerManagementMessage,
)
    requires
        match m {
            PeerManagementMessage::NewPeerConnected(p) => p.1@.len()
                <= deserializer.spec_max_listeners(),
            PeerManagementMessage::ListPeers(ps) => ps@.len() <= deserializer.spec_max_peers()
                && forall|i: int|
                0 <= i < ps@.len() ==> (#[trigger] ps@[i]).1@.len() <= deserializer.spec_max_listeners(),
        },
    ensures
        deserializer.spec_deserialize(message_id(m@), message_bytes(m@)) == Ok::<
            (PeerManagementMessageView, int),
            CodecError,
        >((m@, message_bytes(m@).len() as int)),
        parse_whole_message(
            message_id(m@),
            message_bytes(m@),
            deserializer.spec_max_peers(),
            deserializer.spec_max_listeners(),
        ) == Ok::<PeerManagementMessageView, CodecError>(m@),
{
    lemma_message_is_valid(m, deserializer.spec_max_peers(), deserializer.spec_max_listeners());
    lemma_message_round_trip(
        m@,
        deserializer.spec_max_peers(),
        deserializer.spec_max_listeners(),
        Seq::<u8>::empty(),
    );
    assert(message_bytes(m@) + Seq::<u8>::empty() =~= message_bytes(m@));
}

} // verus!
