//! Laws of the handshake: what a successful handshake has been through.

use vstd::prelude::*;
use crate::handshake::{
    challenge_step, handshake_step, HandshakeAction, HandshakeEvent, HandshakeState,
};
use crate::peer_db::Peers;
use crate::peer_types::{PeerId, PeerState};

verus! {

/// The actions end the handshake with the identity of `peer`.
pub open spec fn finishes_with(actions: Seq<HandshakeAction>, peer: PeerId) -> bool {
    actions.len() > 0 && actions.last() == HandshakeAction::Finish(Ok(peer))
}

/// A handshake succeeds in one way only: it was waiting for the verdict on
/// the peer's signature over the node's challenge, and the verdict is that
/// the signature is valid. The peer is then trusted.
pub proof fn lemma_success_needs_valid_response(
    max_listeners: u64,
    pre: HandshakeState,
    event: HandshakeEvent,
    m0: Peers,
    post: HandshakeState,
    actions: Seq<HandshakeAction>,
    m1: Peers,
    peer: PeerId,
)
    requires
        handshake_step(max_listeners, pre, event, m0, post, actions, m1),
        finishes_with(actions, peer),
    ensures
        ({
            &&& pre matches HandshakeState::AwaitingResponseVerdict { peer: p, .. }
            &&& p == peer
        }),
        event == HandshakeEvent::Verdict(true),
        m1.contains_key(peer),
        m1[peer].state == PeerState::Trusted,
{
}

/// The verdict that a handshake waits for at the end is the one on the
/// signature that the peer sent in answer to the node's own challenge.
pub proof fn lemma_response_is_checked_against_own_challenge(
    max_listeners: u64,
    pre: HandshakeState,
    event: HandshakeEvent,
    m0: Peers,
    post: HandshakeState,
    actions: Seq<HandshakeAction>,
    m1: Peers,
)
    requires
        handshake_step(max_listeners, pre, event, m0, post, actions, m1),
        post is AwaitingResponseVerdict,
    ensures
        ({
            &&& pre matches HandshakeState::AwaitingResponse { peer, announcement, challenge }
            &&& post == (HandshakeState::AwaitingResponseVerdict { peer, announcement, challenge })
            &&& event matches HandshakeEvent::Received(bytes)
            &&& actions.len() == 1
            &&& actions[0] matches HandshakeAction::VerifyResponse {
                peer: p,
                challenge: c,
                signature,
            }
            &&& p == peer
            &&& c == challenge
            &&& signature@ == bytes@
        }),
{
}

/// A handshake waits for the peer's answer only after it has sent the
/// node's signature over the peer's challenge.
pub proof fn lemma_response_follows_own_signature(
    max_listeners: u64,
    pre: HandshakeState,
    event: HandshakeEvent,
    m0: Peers,
    post: HandshakeState,
    actions: Seq<HandshakeAction>,
    m1: Peers,
)
    requires
        handshake_step(max_listeners, pre, event, m0, post, actions, m1),
        post is AwaitingResponse,
    ensures
        ({
            &&& pre matches HandshakeState::AwaitingSignature { peer, announcement, challenge }
            &&& post == (HandshakeState::AwaitingResponse { peer, announcement, challenge })
            &&& event matches HandshakeEvent::Signed(signature)
            &&& actions.len() == 2
            &&& actions[0] matches HandshakeAction::Send(sent)
            &&& sent@ == signature@
        }),
{
}

/// A handshake asks for a signature only over a challenge of 32 bytes that
/// it received from the peer.
pub proof fn lemma_signature_is_over_peers_challenge(
    max_listeners: u64,
    pre: HandshakeState,
    event: HandshakeEvent,
    m0: Peers,
    post: HandshakeState,
    actions: Seq<HandshakeAction>,
    m1: Peers,
)
    requires
        handshake_step(max_listeners, pre, event, m0, post, actions, m1),
        post is AwaitingSignature,
    ensures
        ({
            &&& pre matches HandshakeState::AwaitingChallenge { peer, announcement, challenge }
            &&& post == (HandshakeState::AwaitingSignature { peer, announcement, challenge })
            &&& event matches HandshakeEvent::Received(bytes)
            &&& bytes@.len() == 32
            &&& actions.len() == 1
            &&& actions[0] matches HandshakeAction::SignChallenge { challenge: theirs }
            &&& theirs@ == bytes@
        }),
{
}

/// A handshake challenges the peer only once the peer's signature over its
/// announcement is verified, and the challenge that it keeps is the one
/// that it sends.
pub proof fn lemma_challenge_follows_valid_announcement(
    max_listeners: u64,
    pre: HandshakeState,
    event: HandshakeEvent,
    m0: Peers,
    post: HandshakeState,
    actions: Seq<HandshakeAction>,
    m1: Peers,
)
    requires
        handshake_step(max_listeners, pre, event, m0, post, actions, m1),
        post is AwaitingChallenge,
    ensures
        ({
            &&& pre matches HandshakeState::AwaitingAnnouncementVerdict { peer, announcement }
            &&& post matches HandshakeState::AwaitingChallenge { peer: p, announcement: a, challenge }
            &&& p == peer
            &&& a == announcement
            &&& event == HandshakeEvent::Verdict(true)
            &&& actions.len() == 3
            &&& actions[1] matches HandshakeAction::Send(sent)
            &&& sent@ == challenge@
        }),
{
    match pre {
        HandshakeState::AwaitingAnnouncementVerdict { peer, announcement } => {
            let challenge = choose|challenge: [u8; 32]| #[trigger]
                challenge_step(peer, announcement, challenge, post, actions);
            assert(challenge_step(peer, announcement, challenge, post, actions));
        },
        _ => {},
    }
}

/// A handshake waits for the verdict on an announcement only after the
/// peer's first frame, and the verdict asked for is on the signature of the
/// announcement that the frame holds, under the identity that the frame names.
pub proof fn lemma_announcement_is_checked_under_peers_identity(
    max_listeners: u64,
    pre: HandshakeState,
    event: HandshakeEvent,
    m0: Peers,
    post: HandshakeState,
    actions: Seq<HandshakeAction>,
    m1: Peers,
)
    requires
        handshake_step(max_listeners, pre, event, m0, post, actions, m1),
        post is AwaitingAnnouncementVerdict,
    ensures
        pre is AwaitingFirstFrame,
        event is FirstFrame,
        ({
            &&& post matches HandshakeState::AwaitingAnnouncementVerdict { peer, announcement }
            &&& actions == seq![
                HandshakeAction::VerifyAnnouncement {
                    peer,
                    hash: announcement.hash,
                    signature: announcement.signature,
                },
            ]
        }),
{
}

/// No step leads back to the start of a handshake.
pub proof fn lemma_start_is_never_reached(
    max_listeners: u64,
    pre: HandshakeState,
    event: HandshakeEvent,
    m0: Peers,
    post: HandshakeState,
    actions: Seq<HandshakeAction>,
    m1: Peers,
)
    requires
        handshake_step(max_listeners, pre, event, m0, post, actions, m1),
    ensures
        !(post is AwaitingFirstFrame),
{
    match pre {
        HandshakeState::AwaitingAnnouncementVerdict { peer, announcement } => {
            if event == HandshakeEvent::Verdict(true) && !(post is Finished) {
                let challenge = choose|challenge: [u8; 32]| #[trigger]
                    challenge_step(peer, announcement, challenge, post, actions);
                assert(challenge_step(peer, announcement, challenge, post, actions));
            }
        },
        _ => {},
    }
}

/// A run of a handshake: where it stood, what it was told, what it asked
/// for and what the database held, step after step from the start.
pub open spec fn run(
    max_listeners: u64,
    states: Seq<HandshakeState>,
    events: Seq<HandshakeEvent>,
    actions: Seq<Seq<HandshakeAction>>,
    dbs: Seq<Peers>,
) -> bool {
    &&& states.len() == events.len() + 1
    &&& actions.len() == events.len()
    &&& dbs.len() == states.len()
    &&& states[0] is AwaitingFirstFrame
    &&& forall|i: int|
        0 <= i < events.len() ==> #[trigger] handshake_step(
            max_listeners,
            states[i],
            events[i],
            dbs[i],
            states[i + 1],
            actions[i],
            dbs[i + 1],
        )
}

/// Mutual authentication. A handshake that ends with the identity of a peer
/// has taken six steps. It asked for the peer's signature over the peer's
/// announcement to be verified under that identity and was told that it is
/// valid. It then sent a challenge of its own, signed the challenge of the
/// peer, and asked for the peer's signature to be verified over the very
/// challenge that it had sent, under the same identity, and was told that it
/// is valid. Only then is the peer trusted.
pub proof fn lemma_mutual_authentication(
    max_listeners: u64,
    states: Seq<HandshakeState>,
    events: Seq<HandshakeEvent>,
    actions: Seq<Seq<HandshakeAction>>,
    dbs: Seq<Peers>,
    peer: PeerId,
)
    requires
        run(max_listeners, states, events, actions, dbs),
        events.len() > 0,
        finishes_with(actions.last(), peer),
    ensures
        events.len() == 6,
        actions[0].len() == 1,
        ({
            &&& actions[0][0] matches HandshakeAction::VerifyAnnouncement { peer: p, .. }
            &&& p == peer
        }),
        events[1] == HandshakeEvent::Verdict(true),
        actions[1].len() == 3,
        actions[4].len() == 1,
        ({
            &&& actions[1][1] matches HandshakeAction::Send(sent)
            &&& actions[4][0] matches HandshakeAction::VerifyResponse { peer: p, challenge, .. }
            &&& p == peer
            &&& sent@ == challenge@
        }),
        events[5] == HandshakeEvent::Verdict(true),
        dbs.last().contains_key(peer),
        dbs.last()[peer].state == PeerState::Trusted,
{
    let n = events.len() as int;
    let step = |i: int|
        handshake_step(
            max_listeners,
            states[i],
            events[i],
            dbs[i],
            states[i + 1],
            actions[i],
            dbs[i + 1],
        );
    assert(step(n - 1));
    lemma_success_needs_valid_response(
        max_listeners,
        states[n - 1],
        events[n - 1],
        dbs[n - 1],
        states[n],
        actions[n - 1],
        dbs[n],
        peer,
    );
    assert(n >= 2);
    assert(step(n - 2));
    lemma_response_is_checked_against_own_challenge(
        max_listeners,
        states[n - 2],
        events[n - 2],
        dbs[n - 2],
        states[n - 1],
        actions[n - 2],
        dbs[n - 1],
    );
    assert(n >= 3);
    assert(step(n - 3));
    lemma_response_follows_own_signature(
        max_listeners,
        states[n - 3],
        events[n - 3],
        dbs[n - 3],
        states[n - 2],
        actions[n - 3],
        dbs[n - 2],
    );
    assert(n >= 4);
    assert(step(n - 4));
    lemma_signature_is_over_peers_challenge(
        max_listeners,
        states[n - 4],
        events[n - 4],
        dbs[n - 4],
        states[n - 3],
        actions[n - 4],
        dbs[n - 3],
    );
    assert(n >= 5);
    assert(step(n - 5));
    lemma_challenge_follows_valid_announcement(
        max_listeners,
        states[n - 5],
        events[n - 5],
        dbs[n - 5],
        states[n - 4],
        actions[n - 5],
        dbs[n - 4],
    );
    assert(n >= 6);
    assert(step(n - 6));
    lemma_announcement_is_checked_under_peers_identity(
        max_listeners,
        states[n - 6],
        events[n - 6],
        dbs[n - 6],
        states[n - 5],
        actions[n - 6],
        dbs[n - 5],
    );
    if n > 6 {
        assert(step(n - 7));
        lemma_start_is_never_reached(
            max_listeners,
            states[n - 7],
            events[n - 7],
            dbs[n - 7],
            states[n - 6],
            actions[n - 7],
            dbs[n - 6],
        );
    }
}

} // verus!
