//! The values that peer management deals in: peer identities, listener
//! addresses, announcements and the state of a peer.

use vstd::prelude::*;

verus! {

/// Number of bytes of a peer identity on the wire.
pub const PEER_ID_SIZE_BYTES: usize = 32;

/// Number of bytes of a signature on the wire.
pub const SIGNATURE_SIZE_BYTES: usize = 64;

/// Identity of a peer: the 32 bytes derived from its public key.
#[derive(Clone, Copy, Debug, PartialEq, Eq, PartialOrd, Ord, Hash)]
pub struct PeerId {
    key: [u8; 32],
}

impl View for PeerId {
    type V = Seq<u8>;

    closed spec fn view(&self) -> Seq<u8> {
        self.key@
    }
}

impl PeerId {
    /// The identity made of 32 raw bytes.
    pub fn from_bytes(bytes: &[u8; 32]) -> (id: PeerId)
        ensures
            id@ == bytes@,
    {
        PeerId { key: *bytes }
    }

    /// The identity as its raw 32 bytes.
    pub fn to_bytes(&self) -> (bytes: [u8; 32])
        ensures
            bytes@ == self@,
    {
        self.key
    }

    /// Whether two identities hold the same bytes.
    pub fn equals(&self, other: &PeerId) -> (b: bool)
        ensures
            b == (self@ == other@),
            b == (*self == *other),
    {
        let mut i: usize = 0;
        while i < 32
            invariant
                i <= 32,
                forall|j: int| 0 <= j < i ==> self@[j] == other@[j],
            decreases 32 - i,
        {
            if self.key[i] != other.key[i] {
                return false;
            }
            i += 1;
        }
        assert(self@ =~= other@);
        assert(self.key =~= other.key);
        true
    }

    /// Whether `self` comes before `other` in the dictionary order of their bytes.
    pub fn is_before(&self, other: &PeerId) -> (b: bool)
        ensures
            b == bytes_lt(self@, other@),
    {
        let mut i: usize = 0;
        while i < 32
            invariant
                i <= 32,
                forall|j: int| 0 <= j < i ==> self@[j] == other@[j],
            decreases 32 - i,
        {
            if self.key[i] < other.key[i] {
                assert(self@[i as int] < other@[i as int]);
                return true;
            }
            if self.key[i] > other.key[i] {
                proof {
                    if bytes_lt(self@, other@) {
                        let k = choose|k: int|
                            0 <= k < self@.len() && k < other@.len() && (forall|j: int|
                                0 <= j < k ==> self@[j] == other@[j]) && #[trigger] self@[k]
                                < other@[k];
                        if k > i {
                            assert(self@[i as int] == other@[i as int]);
                        }
                    }
                }
                return false;
            }
            i += 1;
        }
        proof {
            assert(self@ =~= other@);
            lemma_bytes_lt_asymmetric(self@, other@);
        }
        false
    }

    /// An identity is 32 bytes long.
    pub proof fn lemma_view_len(self)
        ensures
            self@.len() == 32,
    {
    }

    /// Identities with the same bytes are the same identity.
    pub proof fn lemma_view_injective(self, other: PeerId)
        requires
            self@ == other@,
        ensures
            self == other,
    {
        assert(self.key =~= other.key);
    }
}

/// Byte strings in dictionary order: `a` comes before `b` when `a` has the
/// smaller byte at the first place where they differ.
pub open spec fn bytes_lt(a: Seq<u8>, b: Seq<u8>) -> bool {
    exists|k: int|
        0 <= k < a.len() && k < b.len() && (forall|j: int| 0 <= j < k ==> a[j] == b[j]) && #[trigger] a[k]
            < b[k]
}

/// No byte string comes before itself, and of two byte strings at most one comes first.
pub proof fn lemma_bytes_lt_asymmetric(a: Seq<u8>, b: Seq<u8>)
    ensures
        !(bytes_lt(a, b) && bytes_lt(b, a)),
        !bytes_lt(a, a),
{
    if bytes_lt(a, b) && bytes_lt(b, a) {
        let k1 = choose|k: int|
            0 <= k < a.len() && k < b.len() && (forall|j: int| 0 <= j < k ==> a[j] == b[j]) && #[trigger] a[k]
                < b[k];
        let k2 = choose|k: int|
            0 <= k < b.len() && k < a.len() && (forall|j: int| 0 <= j < k ==> b[j] == a[j]) && #[trigger] b[k]
                < a[k];
        if k1 < k2 {
            assert(b[k1] == a[k1]);
        } else if k2 < k1 {
            assert(a[k2] == b[k2]);
        }
    }
}

/// Dictionary order is transitive.
pub proof fn lemma_bytes_lt_transitive(a: Seq<u8>, b: Seq<u8>, c: Seq<u8>)
    requires
        bytes_lt(a, b),
        bytes_lt(b, c),
    ensures
        bytes_lt(a, c),
{
    let k1 = choose|k: int|
        0 <= k < a.len() && k < b.len() && (forall|j: int| 0 <= j < k ==> a[j] == b[j]) && #[trigger] a[k]
            < b[k];
    let k2 = choose|k: int|
        0 <= k < b.len() && k < c.len() && (forall|j: int| 0 <= j < k ==> b[j] == c[j]) && #[trigger] b[k]
            < c[k];
    let k = if k1 <= k2 {
        k1
    } else {
        k2
    };
    assert forall|j: int| 0 <= j < k implies a[j] == c[j] by {
        assert(a[j] == b[j]);
        assert(b[j] == c[j]);
    }
    if k1 < k2 {
        assert(b[k1] == c[k1]);
    } else if k2 < k1 {
        assert(a[k2] == b[k2]);
    }
    assert(a[k] < c[k]);
}

/// Two byte strings of one length that agree up to place `i` and are not the
/// same are in dictionary order one way or the other.
proof fn lemma_bytes_lt_total_from(a: Seq<u8>, b: Seq<u8>, i: int)
    requires
        a.len() == b.len(),
        a != b,
        0 <= i <= a.len(),
        forall|j: int| 0 <= j < i ==> a[j] == b[j],
    ensures
        bytes_lt(a, b) || bytes_lt(b, a),
    decreases a.len() - i,
{
    if i == a.len() {
        assert(a =~= b);
    } else if a[i] < b[i] {
        assert(bytes_lt(a, b));
    } else if b[i] < a[i] {
        assert(forall|j: int| 0 <= j < i ==> b[j] == a[j]);
        assert(bytes_lt(b, a));
    } else {
        lemma_bytes_lt_total_from(a, b, i + 1);
    }
}

/// Dictionary order is total on byte strings of one length.
pub proof fn lemma_bytes_lt_total(a: Seq<u8>, b: Seq<u8>)
    requires
        a.len() == b.len(),
        a != b,
    ensures
        bytes_lt(a, b) || bytes_lt(b, a),
{
    lemma_bytes_lt_total_from(a, b, 0);
}

/// The identity with the given bytes.
pub closed spec fn peer_id_of(bytes: Seq<u8>) -> PeerId {
    choose|id: PeerId| id@ == bytes
}

/// An identity is the identity with its bytes.
pub proof fn lemma_peer_id_of(id: PeerId)
    ensures
        peer_id_of(id@) == id,
{
    let chosen = peer_id_of(id@);
    assert(chosen@ == id@);
    chosen.lemma_view_injective(id);
}

/// A signature: 64 opaque bytes.
#[derive(Clone, Copy, Debug, PartialEq, Eq)]
pub struct Signature {
    bytes: [u8; 64],
}

impl View for Signature {
    type V = Seq<u8>;

    closed spec fn view(&self) -> Seq<u8> {
        self.bytes@
    }
}

impl Signature {
    /// The signature made of 64 raw bytes.
    pub fn from_bytes(bytes: &[u8; 64]) -> (s: Signature)
        ensures
            s@ == bytes@,
    {
        Signature { bytes: *bytes }
    }

    /// The signature as its raw 64 bytes.
    pub fn to_bytes(&self) -> (bytes: [u8; 64])
        ensures
            bytes@ == self@,
    {
        self.bytes
    }

    /// A signature is 64 bytes long.
    pub proof fn lemma_view_len(self)
        ensures
            self@.len() == 64,
    {
    }

    /// Signatures with the same bytes are the same signature.
    pub proof fn lemma_view_injective(self, other: Signature)
        requires
            self@ == other@,
        ensures
            self == other,
    {
        assert(self.bytes =~= other.bytes);
    }
}

/// What is known of a peer's standing.
#[derive(Clone, Copy, Debug, PartialEq, Eq, Structural)]
pub enum PeerState {
    /// The peer completed a handshake.
    Trusted,
    /// A handshake with the peer is under way.
    InHandshake,
    /// The last handshake with the peer failed.
    HandshakeFailed,
    /// The peer is banned.
    Banned,
}

/// The transport that a listener speaks.
#[derive(Clone, Copy, Debug, PartialEq, Eq, Structural)]
pub enum TransportType {
    /// TCP.
    Tcp,
    /// QUIC.
    Quic,
}

/// An IP address, by its octets.
#[derive(Clone, Copy, Debug, PartialEq, Eq)]
pub enum IpAddress {
    /// An IPv4 address.
    V4([u8; 4]),
    /// An IPv6 address.
    V6([u8; 16]),
}

impl View for IpAddress {
    type V = Seq<u8>;

    /// The octets of the address: four of them, or sixteen.
    open spec fn view(&self) -> Seq<u8> {
        match self {
            IpAddress::V4(octets) => octets@,
            IpAddress::V6(octets) => octets@,
        }
    }
}

impl IpAddress {
    /// An address has four octets or sixteen, and its octets tell it from any other.
    pub proof fn lemma_view_injective(self, other: IpAddress)
        requires
            self@ == other@,
        ensures
            self == other,
            self@.len() == 4 || self@.len() == 16,
    {
        match (self, other) {
            (IpAddress::V4(a), IpAddress::V4(b)) => {
                assert(a =~= b);
            },
            (IpAddress::V6(a), IpAddress::V6(b)) => {
                assert(a =~= b);
            },
            (IpAddress::V4(a), IpAddress::V6(b)) => {
                assert(a@.len() == 4 && b@.len() == 16);
            },
            (IpAddress::V6(a), IpAddress::V4(b)) => {
                assert(a@.len() == 16 && b@.len() == 4);
            },
        }
    }
}

/// The address that a peer listens on.
#[derive(Clone, Copy, Debug, PartialEq, Eq)]
pub struct SocketAddress {
    pub ip: IpAddress,
    pub port: u16,
}

/// A listener as a plain value: the octets of its address, its port and its transport.
pub type ListenerView = (Seq<u8>, u16, TransportType);

/// The listeners that a list of addresses with their transports holds.
pub open spec fn listeners_view(listeners: Seq<(SocketAddress, TransportType)>) -> Seq<ListenerView> {
    Seq::new(listeners.len(), |i: int| (listeners[i].0.ip@, listeners[i].0.port, listeners[i].1))
}

/// The address of an optional IP address.
pub open spec fn optional_ip_view(ip: Option<IpAddress>) -> Option<Seq<u8>> {
    match ip {
        None => None,
        Some(ip) => Some(ip@),
    }
}

/// A signed statement by a peer about the listeners that it can be reached on.
#[derive(Clone, Debug, PartialEq, Eq)]
pub struct Announcement {
    /// The listeners that the peer announces.
    pub listeners: Vec<(SocketAddress, TransportType)>,
    /// The address under which the peer says that it can be routed to, if any.
    pub routable_ip: Option<IpAddress>,
    /// When the announcement was made.
    pub timestamp: u64,
    /// The hash of the announcement's content.
    pub hash: crate::hash::Hash,
    /// The peer's signature over the hash.
    pub signature: Signature,
}

/// An announcement as a plain value.
pub struct AnnouncementView {
    pub listeners: Seq<ListenerView>,
    pub routable_ip: Option<Seq<u8>>,
    pub timestamp: u64,
    pub hash: Seq<u8>,
    pub signature: Seq<u8>,
}

impl View for Announcement {
    type V = AnnouncementView;

    open spec fn view(&self) -> AnnouncementView {
        AnnouncementView {
            listeners: listeners_view(self.listeners@),
            routable_ip: optional_ip_view(self.routable_ip),
            timestamp: self.timestamp,
            hash: self.hash@,
            signature: self.signature@,
        }
    }
}

/// What the peer database records of a peer.
#[derive(Clone, Debug, PartialEq, Eq)]
pub struct PeerInfo {
    /// The last announcement received from the peer.
    pub last_announce: Announcement,
    /// The peer's standing.
    pub state: PeerState,
}

/// A peer with its listeners, as exchanged in peer lists.
pub type PeerListing = (PeerId, Vec<(SocketAddress, TransportType)>);

/// A peer listing as a plain value: the identity's bytes and the listeners.
pub type PeerListingView = (Seq<u8>, Seq<ListenerView>);

/// The listings that a list of peers with their listeners holds.
pub open spec fn listings_view(peers: Seq<PeerListing>) -> Seq<PeerListingView> {
    Seq::new(peers.len(), |i: int| (peers[i].0@, listeners_view(peers[i].1@)))
}

} // verus!
