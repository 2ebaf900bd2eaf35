//! The database of known peers: what was last heard of each peer and how
//! it stands, with an index of the peers by the time of their announcement.

use rand::rngs::StdRng;
use vstd::prelude::*;
use crate::peer_types::{
    bytes_lt, lemma_bytes_lt_asymmetric, lemma_bytes_lt_total, lemma_bytes_lt_transitive,
    Announcement, PeerId, PeerInfo,
    PeerState, SocketAddress, TransportType,
};
use crate::random::{entropy_rng, rng_index};

verus! {

/// The records of the database: each known peer with what is known of it.
pub type Peers = Map<PeerId, PeerInfo>;

/// The peer is trusted and has announced at least one listener: it may be told to others.
pub open spec fn may_be_sent(info: PeerInfo) -> bool {
    info.state == PeerState::Trusted && info.last_announce.listeners@.len() > 0
}

/// The records after `id`, if known, is given the standing `state`.
pub open spec fn with_state(m: Peers, id: PeerId, state: PeerState) -> Peers {
    if m.contains_key(id) {
        m.insert(id, PeerInfo { last_announce: m[id].last_announce, state })
    } else {
        m
    }
}

/// The records after the ban on `id`, if there is one, is lifted. A peer
/// that was banned has to complete a handshake before it is trusted again.
pub open spec fn unbanned(m: Peers, id: PeerId) -> Peers {
    if m.contains_key(id) && m[id].state == PeerState::Banned {
        with_state(m, id, PeerState::HandshakeFailed)
    } else {
        m
    }
}

/// A change of standing removes no peer and adds none, and leaves every
/// announcement as it is: a banned peer stays in the database.
pub proof fn lemma_standing_keeps_the_peers(m: Peers, id: PeerId, state: PeerState)
    ensures
        with_state(m, id, state).dom() == m.dom(),
        unbanned(m, id).dom() == m.dom(),
        forall|x: PeerId|
            m.contains_key(x) ==> (#[trigger] with_state(m, id, state)[x]).last_announce
                == m[x].last_announce && (#[trigger] unbanned(m, id)[x]).last_announce
                == m[x].last_announce,
        forall|x: PeerId|
            m.contains_key(x) && x != id ==> #[trigger] with_state(m, id, state)[x] == m[x],
        m.contains_key(id) ==> with_state(m, id, state)[id].state == state,
{
    assert(with_state(m, id, state).dom() =~= m.dom());
    assert(unbanned(m, id).dom() =~= m.dom());
}

/// The order of the index: an entry stands before another when it is
/// newer, or as new and of the identity that comes first.
pub open spec fn entry_before(a: (u64, PeerId), b: (u64, PeerId)) -> bool {
    a.0 > b.0 || (a.0 == b.0 && bytes_lt(a.1@, b.1@))
}

/// The index is in order: the newest announcement first, and among
/// announcements of one time the identities in dictionary order.
pub open spec fn newest_first(index: Seq<(u64, PeerId)>) -> bool {
    forall|i: int, j: int| 0 <= i < j < index.len() ==> entry_before(#[trigger] index[i], #[trigger] index[j])
}

/// The order of the index is transitive.
pub proof fn lemma_entry_before_transitive(a: (u64, PeerId), b: (u64, PeerId), c: (u64, PeerId))
    requires
        entry_before(a, b),
        entry_before(b, c),
    ensures
        entry_before(a, c),
{
    if a.0 == b.0 && b.0 == c.0 {
        lemma_bytes_lt_transitive(a.1@, b.1@, c.1@);
    }
}

/// Of two entries of different peers one stands before the other.
pub proof fn lemma_entry_before_total(a: (u64, PeerId), b: (u64, PeerId))
    requires
        a.1 != b.1,
    ensures
        entry_before(a, b) || entry_before(b, a),
{
    if a.0 == b.0 {
        if a.1@ == b.1@ {
            a.1.lemma_view_injective(b.1);
        }
        a.1.lemma_view_len();
        b.1.lemma_view_len();
        lemma_bytes_lt_total(a.1@, b.1@);
    }
}

/// No entry stands before itself.
pub proof fn lemma_entry_before_irreflexive(a: (u64, PeerId))
    ensures
        !entry_before(a, a),
{
    lemma_bytes_lt_asymmetric(a.1@, a.1@);
}

proof fn lemma_ordered_prefixes_agree(a: Seq<(u64, PeerId)>, b: Seq<(u64, PeerId)>, n: int)
    requires
        newest_first(a),
        newest_first(b),
        forall|e: (u64, PeerId)| a.contains(e) <==> b.contains(e),
        0 <= n <= a.len(),
        n <= b.len(),
    ensures
        forall|k: int| 0 <= k < n ==> #[trigger] a[k] == b[k],
    decreases n,
{
    if n > 0 {
        lemma_ordered_prefixes_agree(a, b, n - 1);
        let i = n - 1;
        assert(a.contains(a[i]));
        assert(b.contains(b[i]));
        let k = choose|k: int| 0 <= k < b.len() && b[k] == a[i];
        let l = choose|l: int| 0 <= l < a.len() && a[l] == b[i];
        lemma_entry_before_irreflexive(a[i]);
        lemma_entry_before_irreflexive(b[i]);
        if k < i {
            assert(a[k] == b[k]);
            assert(entry_before(a[k], a[i]));
        } else if l < i {
            assert(a[l] == b[l]);
            assert(entry_before(b[l], b[i]));
        } else if k > i && l > i {
            assert(entry_before(b[i], b[k]));
            assert(entry_before(a[i], a[l]));
            lemma_entry_before_transitive(a[i], b[i], a[i]);
        } else if k > i {
            assert(l == i);
            assert(entry_before(b[i], b[k]));
        } else if l > i {
            assert(k == i);
            assert(entry_before(a[i], a[l]));
        }
    }
}

/// The index is determined by what it lists: two indexes in order that
/// list the same entries are the same index.
pub proof fn lemma_index_is_determined(a: Seq<(u64, PeerId)>, b: Seq<(u64, PeerId)>)
    requires
        newest_first(a),
        newest_first(b),
        forall|e: (u64, PeerId)| a.contains(e) <==> b.contains(e),
    ensures
        a == b,
{
    let n = if a.len() <= b.len() {
        a.len() as int
    } else {
        b.len() as int
    };
    lemma_ordered_prefixes_agree(a, b, n);
    if a.len() < b.len() {
        let e = b[n];
        assert(b.contains(e));
        let k = choose|k: int| 0 <= k < a.len() && a[k] == e;
        assert(a[k] == b[k]);
        assert(entry_before(b[k], b[n]));
        lemma_entry_before_irreflexive(e);
    } else if b.len() < a.len() {
        let e = a[n];
        assert(a.contains(e));
        let k = choose|k: int| 0 <= k < b.len() && b[k] == e;
        assert(a[k] == b[k]);
        assert(entry_before(a[k], a[n]));
        lemma_entry_before_irreflexive(e);
    }
    assert(a =~= b);
}

/// Whether `entry` stands before an entry for `id` at `timestamp`.
fn stands_before(entry: &(u64, PeerId), timestamp: u64, id: &PeerId) -> (b: bool)
    ensures
        b == entry_before(*entry, (timestamp, *id)),
{
    entry.0 > timestamp || (entry.0 == timestamp && entry.1.is_before(id))
}

/// The index lists each peer once at most.
pub open spec fn one_entry_per_peer(index: Seq<(u64, PeerId)>) -> bool {
    forall|i: int, j: int| 0 <= i < j < index.len() ==> (#[trigger] index[i]).1 != (#[trigger] index[j]).1
}

/// Every peer of the index is known, with listeners, and stands in the
/// index at the time of its last announcement.
pub open spec fn index_matches(index: Seq<(u64, PeerId)>, m: Peers) -> bool {
    forall|i: int|
        0 <= i < index.len() ==> m.contains_key((#[trigger] index[i]).1) && m[index[i].1].last_announce.listeners@.len()
            > 0 && m[index[i].1].last_announce.timestamp == index[i].0
}

/// The peers of `sample` are peers of `m` that may be sent, each once and
/// with the listeners of its last announcement.
pub open spec fn sample_of(
    sample: Seq<(PeerId, Vec<(SocketAddress, TransportType)>)>,
    m: Peers,
) -> bool {
    &&& forall|k: int|
        0 <= k < sample.len() ==> m.contains_key((#[trigger] sample[k]).0) && may_be_sent(
            m[sample[k].0],
        ) && sample[k].1@ == m[sample[k].0].last_announce.listeners@
    &&& forall|k1: int, k2: int|
        0 <= k1 < k2 < sample.len() ==> (#[trigger] sample[k1]).0 != (#[trigger] sample[k2]).0
}

/// Every peer of `m` that may be sent is in `sample`.
pub open spec fn holds_all(
    sample: Seq<(PeerId, Vec<(SocketAddress, TransportType)>)>,
    m: Peers,
) -> bool {
    forall|id: PeerId|
        m.contains_key(id) && may_be_sent(#[trigger] m[id]) ==> exists|k: int|
            0 <= k < sample.len() && (#[trigger] sample[k]).0 == id
}

/// Copies a list of listeners.
pub fn copy_listeners(listeners: &Vec<(SocketAddress, TransportType)>) -> (copy: Vec<
    (SocketAddress, TransportType),
>)
    ensures
        copy@ == listeners@,
{
    let mut copy: Vec<(SocketAddress, TransportType)> = Vec::new();
    let mut i: usize = 0;
    while i < listeners.len()
        invariant
            i <= listeners@.len(),
            copy@ == listeners@.take(i as int),
        decreases listeners@.len() - i,
    {
        let listener = listeners[i];
        copy.push(listener);
        proof {
            assert(copy@ =~= listeners@.take(i + 1));
        }
        i += 1;
    }
    proof {
        assert(listeners@.take(i as int) =~= listeners@);
    }
    copy
}

/// Draws `count` peers out of `pool`, which holds more: each draw takes a
/// peer at a place that the generator names, or the first one where there
/// is no generator.
fn draw_peers(
    pool: Vec<(PeerId, Vec<(SocketAddress, TransportType)>)>,
    count: usize,
    rng: Option<StdRng>,
    Ghost(m): Ghost<Peers>,
) -> (sample: Vec<(PeerId, Vec<(SocketAddress, TransportType)>)>)
    requires
        count <= pool@.len(),
        sample_of(pool@, m),
    ensures
        sample@.len() == count,
        sample_of(sample@, m),
{
    let mut pool = pool;
    let mut rng = rng;
    let mut sample: Vec<(PeerId, Vec<(SocketAddress, TransportType)>)> = Vec::new();
    while sample.len() < count
        invariant
            sample@.len() <= count,
            sample@.len() + pool@.len() >= count,
            sample_of(pool@, m),
            sample_of(sample@, m),
            forall|a: int, b: int|
                0 <= a < sample@.len() && 0 <= b < pool@.len() ==> (#[trigger] sample@[a]).0
                    != (#[trigger] pool@[b]).0,
        decreases count - sample@.len(),
    {
        let at = match &mut rng {
            Some(generator) => rng_index(generator, pool.len()),
            None => 0,
        };
        let ghost before = pool@;
        let ghost taken = sample@;
        let peer = pool.swap_remove(at);
        sample.push(peer);
        proof {
            let last = before.len() - 1;
            assert forall|b: int| 0 <= b < pool@.len() implies (#[trigger] pool@[b]) == before[if b
                == at {
                last
            } else {
                b
            }] by {}
            assert forall|k: int| 0 <= k < sample@.len() implies m.contains_key(
                (#[trigger] sample@[k]).0,
            ) && may_be_sent(m[sample@[k].0]) && sample@[k].1@ == m[sample@[k].0].last_announce.listeners@ by {
                if k < taken.len() {
                    assert(sample@[k] == taken[k]);
                } else {
                    assert(sample@[k] == before[at as int]);
                }
            }
            assert forall|k1: int, k2: int| 0 <= k1 < k2 < sample@.len() implies (#[trigger] sample@[k1]).0
                != (#[trigger] sample@[k2]).0 by {
                assert(sample@[k1] == taken[k1]);
                if k2 < taken.len() {
                    assert(sample@[k2] == taken[k2]);
                } else {
                    assert(sample@[k2] == before[at as int]);
                }
            }
            assert forall|a: int, b: int|
                0 <= a < sample@.len() && 0 <= b < pool@.len() implies (#[trigger] sample@[a]).0
                != (#[trigger] pool@[b]).0 by {
                let bb = if b == at {
                    last
                } else {
                    b
                };
                assert(pool@[b] == before[bb]);
                if a < taken.len() {
                    assert(sample@[a] == taken[a]);
                } else {
                    assert(sample@[a] == before[at as int]);
                    if at < bb {
                        assert(before[at as int].0 != before[bb].0);
                    } else {
                        assert(before[bb].0 != before[at as int].0);
                    }
                }
            }
            assert forall|k1: int, k2: int| 0 <= k1 < k2 < pool@.len() implies (#[trigger] pool@[k1]).0
                != (#[trigger] pool@[k2]).0 by {
                let b1 = if k1 == at {
                    last
                } else {
                    k1
                };
                let b2 = if k2 == at {
                    last
                } else {
                    k2
                };
                assert(pool@[k1] == before[b1] && pool@[k2] == before[b2]);
                if b1 < b2 {
                    assert(before[b1].0 != before[b2].0);
                } else {
                    assert(before[b2].0 != before[b1].0);
                }
            }
        }
    }
    sample
}

/// The database of known peers.
pub struct PeerDB {
    /// The known peers, one record each.
    peers: Vec<(PeerId, PeerInfo)>,
    /// The peers that announced listeners, newest announcement first.
    index_by_newest: Vec<(u64, PeerId)>,
    /// The records as a map.
    model: Ghost<Peers>,
}

impl View for PeerDB {
    type V = Peers;

    /// The records: each known peer with what is known of it.
    closed spec fn view(&self) -> Peers {
        self.model@
    }
}

impl PeerDB {
    /// The index of peers by the time of their last announcement.
    pub closed spec fn index(&self) -> Seq<(u64, PeerId)> {
        self.index_by_newest@
    }

    /// The stored records are those of the map, one for each peer.
    pub closed spec fn records_wf(&self) -> bool {
        &&& forall|i: int|
            0 <= i < self.peers@.len() ==> self.model@.contains_key((#[trigger] self.peers@[i]).0)
                && self.model@[self.peers@[i].0] == self.peers@[i].1
        &&& forall|i: int, j: int|
            0 <= i < j < self.peers@.len() ==> (#[trigger] self.peers@[i]).0
                != (#[trigger] self.peers@[j]).0
        &&& forall|id: PeerId| #[trigger]
            self.model@.contains_key(id) ==> exists|i: int|
                0 <= i < self.peers@.len() && (#[trigger] self.peers@[i]).0 == id
    }

    /// The database's invariant: the index is in order, the newest
    /// announcement first, and lists each peer once at most, and every peer
    /// of the index is known with the listeners and the time of its last
    /// announcement.
    pub open spec fn wf(&self) -> bool {
        &&& self.records_wf()
        &&& newest_first(self.index())
        &&& one_entry_per_peer(self.index())
        &&& index_matches(self.index(), self@)
    }

    /// An empty database.
    pub fn new() -> (db: PeerDB)
        ensures
            db.wf(),
            db@ == Map::<PeerId, PeerInfo>::empty(),
            db.index() == Seq::<(u64, PeerId)>::empty(),
    {
        PeerDB { peers: Vec::new(), index_by_newest: Vec::new(), model: Ghost(Map::empty()) }
    }

    /// Place of the record of `id`, if the peer is known.
    fn find(&self, id: &PeerId) -> (r: Option<usize>)
        requires
            self.records_wf(),
        ensures
            match r {
                Some(i) => i < self.peers@.len() && self.peers@[i as int].0 == *id
                    && self@.contains_key(*id),
                None => !self@.contains_key(*id),
            },
    {
        let mut i: usize = 0;
        while i < self.peers.len()
            invariant
                i <= self.peers@.len(),
                self.records_wf(),
                forall|j: int| 0 <= j < i ==> (#[trigger] self.peers@[j]).0 != *id,
            decreases self.peers@.len() - i,
        {
            if self.peers[i].0.equals(id) {
                return Some(i);
            }
            i += 1;
        }
        proof {
            if self@.contains_key(*id) {
                let k = choose|k: int| 0 <= k < self.peers@.len() && (#[trigger] self.peers@[k]).0 == *id;
                assert(self.peers@[k].0 != *id);
            }
        }
        None
    }

    /// Number of known peers.
    pub fn len(&self) -> (n: usize)
        requires
            self.wf(),
        ensures
            self@.dom().finite(),
            n == self@.dom().len(),
    {
        proof {
            let ids = self.peers@.map_values(|r: (PeerId, PeerInfo)| r.0);
            assert forall|i: int, j: int| 0 <= i < ids.len() && 0 <= j < ids.len() && i != j implies ids[i]
                != ids[j] by {
                if i < j {
                    assert(self.peers@[i].0 != self.peers@[j].0);
                } else {
                    assert(self.peers@[j].0 != self.peers@[i].0);
                }
            }
            assert forall|id: PeerId| ids.to_set().contains(id) <==> self@.dom().contains(id) by {
                if ids.to_set().contains(id) {
                    let i = choose|i: int| 0 <= i < ids.len() && ids[i] == id;
                    assert(self.model@.contains_key(self.peers@[i].0));
                }
                if self@.dom().contains(id) {
                    let i = choose|i: int| 0 <= i < self.peers@.len() && (#[trigger] self.peers@[i]).0 == id;
                    assert(ids[i] == id);
                }
            }
            assert(ids.to_set() =~= self@.dom());
            ids.unique_seq_to_set();
            vstd::seq_lib::seq_to_set_is_finite(ids);
        }
        self.peers.len()
    }

    /// How the peer stands, if it is known.
    pub fn get_state(&self, id: &PeerId) -> (r: Option<PeerState>)
        requires
            self.wf(),
        ensures
            r == (if self@.contains_key(*id) {
                Some(self@[*id].state)
            } else {
                None
            }),
    {
        match self.find(id) {
            None => None,
            Some(i) => Some(self.peers[i].1.state),
        }
    }

    /// Whether the peer is known and banned.
    pub fn is_banned(&self, id: &PeerId) -> (b: bool)
        requires
            self.wf(),
        ensures
            b == (self@.contains_key(*id) && self@[*id].state == PeerState::Banned),
    {
        match self.find(id) {
            None => false,
            Some(i) => match self.peers[i].1.state {
                PeerState::Banned => true,
                _ => false,
            },
        }
    }

    /// The listeners that the peer last announced, if it is known.
    pub fn get_listeners(&self, id: &PeerId) -> (r: Option<Vec<(SocketAddress, TransportType)>>)
        requires
            self.wf(),
        ensures
            match r {
                Some(listeners) => self@.contains_key(*id) && listeners@
                    == self@[*id].last_announce.listeners@,
                None => !self@.contains_key(*id),
            },
    {
        match self.find(id) {
            None => None,
            Some(i) => Some(copy_listeners(&self.peers[i].1.last_announce.listeners)),
        }
    }

    /// The index: the peers that announced listeners with the time of their
    /// last announcement, the newest first.
    pub fn index_by_newest(&self) -> (index: &Vec<(u64, PeerId)>)
        ensures
            index@ == self.index(),
    {
        &self.index_by_newest
    }

    /// The time of the peer's entry in the index, if it has one.
    pub fn indexed_at(&self, id: &PeerId) -> (r: Option<u64>)
        requires
            self.wf(),
        ensures
            match r {
                Some(t) => self.index().contains((t, *id)),
                None => forall|i: int| 0 <= i < self.index().len() ==> (#[trigger] self.index()[i]).1
                    != *id,
            },
    {
        let mut i: usize = 0;
        while i < self.index_by_newest.len()
            invariant
                i <= self.index_by_newest@.len(),
                forall|j: int| 0 <= j < i ==> (#[trigger] self.index_by_newest@[j]).1 != *id,
            decreases self.index_by_newest@.len() - i,
        {
            if self.index_by_newest[i].1.equals(id) {
                assert(self.index_by_newest@[i as int] == (self.index_by_newest@[i as int].0, *id));
                return Some(self.index_by_newest[i].0);
            }
            i += 1;
        }
        None
    }

    /// Gives the peer the standing `state`, if the peer is known.
    fn set_state(&mut self, id: &PeerId, state: PeerState)
        requires
            old(self).wf(),
        ensures
            final(self).wf(),
            final(self)@ == with_state(old(self)@, *id, state),
            final(self).index() == old(self).index(),
    {
        match self.find(id) {
            None => {},
            Some(i) => {
                let ghost before = self.peers@;
                let ghost m0 = self.model@;
                self.peers[i].1.state = state;
                self.model = Ghost(with_state(m0, *id, state));
                proof {
                    assert forall|k: int| 0 <= k < self.peers@.len() implies (#[trigger] self.peers@[k]).0
                        == before[k].0 by {}
                    assert forall|x: PeerId| #[trigger] self.model@.contains_key(x) implies exists|
                        k: int,
                    | 0 <= k < self.peers@.len() && (#[trigger] self.peers@[k]).0 == x by {
                        assert(m0.contains_key(x));
                        let k = choose|k: int| 0 <= k < before.len() && (#[trigger] before[k]).0 == x;
                        assert(self.peers@[k].0 == x);
                    }
                    assert forall|k: int| 0 <= k < self.peers@.len() implies self.model@.contains_key(
                        (#[trigger] self.peers@[k]).0,
                    ) && self.model@[self.peers@[k].0] == self.peers@[k].1 by {
                        if k != i {
                            assert(self.peers@[k] == before[k]);
                            assert(before[k].0 != before[i as int].0);
                        }
                    }
                }
            },
        }
    }

    /// Bans the peer, if it is known. The peer stays in the database.
    pub fn ban_peer(&mut self, id: &PeerId)
        requires
            old(self).wf(),
        ensures
            final(self).wf(),
            final(self)@ == with_state(old(self)@, *id, PeerState::Banned),
            final(self).index() == old(self).index(),
    {
        self.set_state(id, PeerState::Banned);
    }

    /// Lifts the ban on the peer, if there is one. The peer then counts as
    /// one whose handshake failed, until it completes one.
    pub fn unban_peer(&mut self, id: &PeerId)
        requires
            old(self).wf(),
        ensures
            final(self).wf(),
            final(self)@ == unbanned(old(self)@, *id),
            final(self).index() == old(self).index(),
    {
        if self.is_banned(id) {
            self.set_state(id, PeerState::HandshakeFailed);
        }
    }

    /// Notes that a handshake with the peer is under way, if the peer is known.
    pub fn mark_in_handshake(&mut self, id: &PeerId)
        requires
            old(self).wf(),
        ensures
            final(self).wf(),
            final(self)@ == with_state(old(self)@, *id, PeerState::InHandshake),
            final(self).index() == old(self).index(),
    {
        self.set_state(id, PeerState::InHandshake);
    }

    /// Notes that the handshake with the peer failed, if the peer is known.
    pub fn mark_handshake_failed(&mut self, id: &PeerId)
        requires
            old(self).wf(),
        ensures
            final(self).wf(),
            final(self)@ == with_state(old(self)@, *id, PeerState::HandshakeFailed),
            final(self).index() == old(self).index(),
    {
        self.set_state(id, PeerState::HandshakeFailed);
    }

    /// Takes the peer's entry out of the index, if it has one.
    fn drop_from_index(&mut self, id: &PeerId)
        requires
            newest_first(old(self).index()),
            one_entry_per_peer(old(self).index()),
        ensures
            newest_first(final(self).index()),
            one_entry_per_peer(final(self).index()),
            forall|e: (u64, PeerId)|
                final(self).index().contains(e) <==> (old(self).index().contains(e) && e.1 != *id),
            final(self).peers == old(self).peers,
            final(self).model == old(self).model,
    {
        let ghost before = self.index_by_newest@;
        let mut i: usize = 0;
        while i < self.index_by_newest.len()
            invariant
                i <= self.index_by_newest@.len(),
                self.index_by_newest@ == before,
                self.peers == old(self).peers,
                self.model == old(self).model,
                before == old(self).index(),
                newest_first(before),
                one_entry_per_peer(before),
                forall|j: int| 0 <= j < i ==> (#[trigger] before[j]).1 != *id,
            decreases self.index_by_newest@.len() - i,
        {
            if self.index_by_newest[i].1.equals(id) {
                let _ = self.index_by_newest.remove(i);
                proof {
                    let after = self.index_by_newest@;
                    assert forall|k: int| 0 <= k < after.len() implies (#[trigger] after[k]) == before[if k
                        < i {
                        k
                    } else {
                        k + 1
                    }] by {}
                    assert forall|a: int, b: int| 0 <= a < b < after.len() implies entry_before(
                        #[trigger] after[a],
                        #[trigger] after[b],
                    ) && after[a].1 != after[b].1 by {
                        let aa = if a < i {
                            a
                        } else {
                            a + 1
                        };
                        let bb = if b < i {
                            b
                        } else {
                            b + 1
                        };
                        assert(after[a] == before[aa] && after[b] == before[bb]);
                        assert(entry_before(before[aa], before[bb]));
                        assert(before[aa].1 != before[bb].1);
                    }
                    assert forall|e: (u64, PeerId)| after.contains(e) <==> (before.contains(e) && e.1
                        != *id) by {
                        if after.contains(e) {
                            let k = choose|k: int| 0 <= k < after.len() && after[k] == e;
                            let kk = if k < i {
                                k
                            } else {
                                k + 1
                            };
                            assert(before[kk] == e);
                            if kk < i {
                                assert(before[kk].1 != before[i as int].1);
                            } else {
                                assert(before[i as int].1 != before[kk].1);
                            }
                        }
                        if before.contains(e) && e.1 != *id {
                            let k = choose|k: int| 0 <= k < before.len() && before[k] == e;
                            let kk = if k < i {
                                k
                            } else {
                                k - 1
                            };
                            assert(after[kk] == e);
                        }
                    }
                }
                return ;
            }
            i += 1;
        }
        proof {
            assert forall|e: (u64, PeerId)| before.contains(e) implies e.1 != *id by {
                let k = choose|k: int| 0 <= k < before.len() && before[k] == e;
                assert(before[k].1 != *id);
            }
        }
    }

    /// Puts an entry for the peer into the index, at its place in the order.
    fn put_in_index(&mut self, timestamp: u64, id: PeerId)
        requires
            newest_first(old(self).index()),
            one_entry_per_peer(old(self).index()),
            forall|i: int| 0 <= i < old(self).index().len() ==> (#[trigger] old(self).index()[i]).1
                != id,
        ensures
            newest_first(final(self).index()),
            one_entry_per_peer(final(self).index()),
            forall|e: (u64, PeerId)|
                final(self).index().contains(e) <==> (old(self).index().contains(e) || e == (
                    timestamp,
                    id,
                )),
            final(self).peers == old(self).peers,
            final(self).model == old(self).model,
    {
        let ghost before = self.index_by_newest@;
        let mut at: usize = 0;
        let ghost entry = (timestamp, id);
        while at < self.index_by_newest.len() && stands_before(
            &self.index_by_newest[at],
            timestamp,
            &id,
        )
            invariant
                at <= self.index_by_newest@.len(),
                self.index_by_newest@ == before,
                self.peers == old(self).peers,
                self.model == old(self).model,
                entry == (timestamp, id),
                forall|j: int| 0 <= j < at ==> entry_before(#[trigger] before[j], entry),
            decreases self.index_by_newest@.len() - at,
        {
            at += 1;
        }
        self.index_by_newest.insert(at, (timestamp, id));
        proof {
            let after = self.index_by_newest@;
            assert forall|k: int| 0 <= k < after.len() && k != at implies (#[trigger] after[k]) == before[if k
                < at {
                k
            } else {
                k - 1
            }] by {}
            assert(after[at as int] == entry);
            assert forall|k: int| at <= k < before.len() implies entry_before(
                entry,
                #[trigger] before[k],
            ) by {
                assert(before[at as int].1 != id);
                lemma_entry_before_total(entry, before[at as int]);
                if k > at {
                    assert(entry_before(before[at as int], before[k]));
                    lemma_entry_before_transitive(entry, before[at as int], before[k]);
                }
            }
            assert forall|a: int, b: int| 0 <= a < b < after.len() implies entry_before(
                #[trigger] after[a],
                #[trigger] after[b],
            ) && after[a].1 != after[b].1 by {
                let aa = if a < at {
                    a
                } else {
                    a - 1
                };
                let bb = if b < at {
                    b
                } else {
                    b - 1
                };
                if a == at {
                    assert(after[b] == before[bb]);
                    assert(entry_before(entry, before[bb]));
                    assert(before[bb].1 != id);
                } else if b == at {
                    assert(after[a] == before[aa]);
                    assert(entry_before(before[aa], entry));
                    assert(before[aa].1 != id);
                } else {
                    assert(after[a] == before[aa] && after[b] == before[bb]);
                    assert(entry_before(before[aa], before[bb]));
                    assert(before[aa].1 != before[bb].1);
                }
            }
            assert forall|e: (u64, PeerId)| after.contains(e) <==> (before.contains(e) || e == (
                timestamp,
                id,
            )) by {
                if after.contains(e) {
                    let k = choose|k: int| 0 <= k < after.len() && after[k] == e;
                    if k != at {
                        let kk = if k < at {
                            k
                        } else {
                            k - 1
                        };
                        assert(before[kk] == e);
                    }
                }
                if before.contains(e) {
                    let k = choose|k: int| 0 <= k < before.len() && before[k] == e;
                    let kk = if k < at {
                        k
                    } else {
                        k + 1
                    };
                    assert(after[kk] == e);
                }
            }
        }
    }

    /// Records a completed handshake: the peer is trusted and `announcement`
    /// is the last heard of it. The peer's earlier entry in the index goes;
    /// where the announcement names a listener, the peer enters the index at
    /// the announcement's time.
    pub fn set_trusted(&mut self, id: PeerId, announcement: Announcement)
        requires
            old(self).wf(),
        ensures
            final(self).wf(),
            final(self)@ == old(self)@.insert(
                id,
                PeerInfo { last_announce: announcement, state: PeerState::Trusted },
            ),
            forall|e: (u64, PeerId)|
                final(self).index().contains(e) <==> ((old(self).index().contains(e) && e.1 != id)
                    || (e == (announcement.timestamp, id) && announcement.listeners@.len() > 0)),
    {
        let ghost m0 = self.model@;
        let ghost before = self.peers@;
        let ghost index0 = self.index_by_newest@;
        let timestamp = announcement.timestamp;
        let listed = announcement.listeners.len() > 0;
        let info = PeerInfo { last_announce: announcement, state: PeerState::Trusted };
        let found = self.find(&id);
        self.drop_from_index(&id);
        let ghost index1 = self.index_by_newest@;
        proof {
            assert forall|i: int| 0 <= i < index1.len() implies (#[trigger] index1[i]).1 != id
                && index0.contains(index1[i]) by {
                assert(index1.contains(index1[i]));
            }
        }
        if listed {
            self.put_in_index(timestamp, id);
        }
        let ghost index2 = self.index_by_newest@;
        match found {
            Some(i) => {
                self.peers[i].1 = info;
            },
            None => {
                self.peers.push((id, info));
            },
        }
        self.model = Ghost(m0.insert(id, info));
        proof {
            let m1 = self.model@;
            assert forall|k: int| 0 <= k < self.peers@.len() implies m1.contains_key(
                (#[trigger] self.peers@[k]).0,
            ) && m1[self.peers@[k].0] == self.peers@[k].1 by {
                if k < before.len() {
                    assert(self.peers@[k].0 == before[k].0);
                    if found is Some && k == found->Some_0 {
                    } else {
                        assert(self.peers@[k] == before[k]);
                        if found is Some {
                            let i = found->Some_0 as int;
                            if k < i {
                                assert(before[k].0 != before[i].0);
                            } else {
                                assert(before[i].0 != before[k].0);
                            }
                        } else {
                            assert(m0.contains_key(before[k].0));
                        }
                    }
                }
            }
            assert forall|a: int, b: int| 0 <= a < b < self.peers@.len() implies (#[trigger] self.peers@[a]).0
                != (#[trigger] self.peers@[b]).0 by {
                if b < before.len() {
                    assert(self.peers@[a].0 == before[a].0 && self.peers@[b].0 == before[b].0);
                } else {
                    assert(self.peers@[a].0 == before[a].0);
                    assert(m0.contains_key(before[a].0));
                }
            }
            assert forall|x: PeerId| #[trigger] m1.contains_key(x) implies exists|k: int|
                0 <= k < self.peers@.len() && (#[trigger] self.peers@[k]).0 == x by {
                if x == id {
                    if found is Some {
                        assert(self.peers@[found->Some_0 as int].0 == x);
                    } else {
                        assert(self.peers@[before.len() as int].0 == x);
                    }
                } else {
                    assert(m0.contains_key(x));
                    let k = choose|k: int| 0 <= k < before.len() && (#[trigger] before[k]).0 == x;
                    assert(self.peers@[k].0 == x);
                }
            }
            assert forall|i: int| 0 <= i < index2.len() implies m1.contains_key(
                (#[trigger] index2[i]).1,
            ) && m1[index2[i].1].last_announce.listeners@.len() > 0
                && m1[index2[i].1].last_announce.timestamp == index2[i].0 by {
                assert(index2.contains(index2[i]));
                if index2[i] == (timestamp, id) && listed {
                } else {
                    assert(index1.contains(index2[i]));
                    assert(index0.contains(index2[i]));
                    let k = choose|k: int| 0 <= k < index0.len() && index0[k] == index2[i];
                    assert(m0.contains_key(index0[k].1));
                }
            }
        }
    }

    /// Gets peers to send to another peer: `nb_peers` at most, drawn at
    /// random among the trusted peers that announced a listener, each with
    /// its listeners. No peer comes twice, and no peer is left out while
    /// there is room.
    pub fn get_rand_peers_to_send(&self, nb_peers: usize) -> (sample: Vec<
        (PeerId, Vec<(SocketAddress, TransportType)>),
    >)
        requires
            self.wf(),
        ensures
            sample@.len() <= nb_peers,
            sample_of(sample@, self@),
            sample@.len() < nb_peers ==> holds_all(sample@, self@),
    {
        let mut pool: Vec<(PeerId, Vec<(SocketAddress, TransportType)>)> = Vec::new();
        let ghost mut places: Seq<int> = Seq::empty();
        let mut i: usize = 0;
        while i < self.peers.len()
            invariant
                i <= self.peers@.len(),
                self.wf(),
                places.len() == pool@.len(),
                forall|k: int|
                    0 <= k < pool@.len() ==> 0 <= (#[trigger] places[k]) < i && pool@[k].0
                        == self.peers@[places[k]].0,
                forall|k1: int, k2: int| 0 <= k1 < k2 < pool@.len() ==> places[k1] < places[k2],
                sample_of(pool@, self@),
                forall|j: int|
                    0 <= j < i && may_be_sent((#[trigger] self.peers@[j]).1) ==> exists|k: int|
                        0 <= k < pool@.len() && (#[trigger] pool@[k]).0 == self.peers@[j].0,
            decreases self.peers@.len() - i,
        {
            let trusted = match self.peers[i].1.state {
                PeerState::Trusted => true,
                _ => false,
            };
            if trusted && self.peers[i].1.last_announce.listeners.len() > 0 {
                let ghost before = pool@;
                let listeners = copy_listeners(&self.peers[i].1.last_announce.listeners);
                pool.push((self.peers[i].0, listeners));
                proof {
                    places = places.push(i as int);
                    assert forall|k: int| 0 <= k < pool@.len() implies self@.contains_key(
                        (#[trigger] pool@[k]).0,
                    ) && may_be_sent(self@[pool@[k].0]) && pool@[k].1@
                        == self@[pool@[k].0].last_announce.listeners@ by {
                        if k < before.len() {
                            assert(pool@[k] == before[k]);
                        }
                    }
                    assert forall|k1: int, k2: int| 0 <= k1 < k2 < pool@.len() implies (#[trigger] pool@[k1]).0
                        != (#[trigger] pool@[k2]).0 by {
                        assert(places[k1] < places[k2]);
                        assert(self.peers@[places[k1]].0 != self.peers@[places[k2]].0);
                    }
                    assert forall|j: int|
                        0 <= j < i + 1 && may_be_sent((#[trigger] self.peers@[j]).1) implies exists|
                        k: int,
                    | 0 <= k < pool@.len() && (#[trigger] pool@[k]).0 == self.peers@[j].0 by {
                        if j < i {
                            let k = choose|k: int|
                                0 <= k < before.len() && (#[trigger] before[k]).0 == self.peers@[j].0;
                            assert(pool@[k].0 == self.peers@[j].0);
                        } else {
                            assert(pool@[before.len() as int].0 == self.peers@[j].0);
                        }
                    }
                }
            }
            i += 1;
        }
        proof {
            assert forall|id: PeerId|
                self@.contains_key(id) && may_be_sent(#[trigger] self@[id]) implies exists|k: int|
                0 <= k < pool@.len() && (#[trigger] pool@[k]).0 == id by {
                let j = choose|j: int| 0 <= j < self.peers@.len() && (#[trigger] self.peers@[j]).0 == id;
                assert(may_be_sent(self.peers@[j].1));
            }
        }
        if pool.len() <= nb_peers {
            pool
        } else {
            draw_peers(pool, nb_peers, entropy_rng(), Ghost(self@))
        }
    }
}

} // verus!
