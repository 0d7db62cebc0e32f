//! What two peers that run the handshake against each other arrive at.

use crate::handshake::{
    incoming_seed, outgoing_seed, proof_value, public_value, shared_secret, valid_peer_public,
    valid_private, ActionView, Event, Exchange, Handshake, HandshakeError, Role, G, P,
    PROOF_TAG,
};
use crate::keystream::folded;
use crate::numeric::lemma_mixed_is_injective;
use crate::wire::{be_bytes, be_value, lemma_be_value_of_be_bytes, span};
use vstd::arithmetic::div_mod::lemma_mod_bound;
use vstd::arithmetic::power::{lemma_pow_mod_noop, lemma_pow_multiplies, pow};
use vstd::prelude::*;

verus! {

/// Each peer raises the other's public value to its own exponent, and both
/// arrive at the same secret.
pub proof fn lemma_secrets_agree(a: u64, b: u64)
    ensures
        shared_secret(public_value(b), a) == shared_secret(public_value(a), b),
{
    let g = G as int;
    let p = P as int;
    lemma_mod_bound(pow(g, b as nat), p);
    lemma_mod_bound(pow(g, a as nat), p);
    lemma_pow_mod_noop(pow(g, b as nat), a as nat, p);
    lemma_pow_mod_noop(pow(g, a as nat), b as nat, p);
    lemma_pow_multiplies(g, b as nat, a as nat);
    lemma_pow_multiplies(g, a as nat, b as nat);
    assert((b as nat) * (a as nat) == (a as nat) * (b as nat)) by (nonlinear_arith);
}

/// Directional symmetry: for every pair of private exponents, the seed with
/// which the listener sends is the seed with which the connector receives,
/// and the seed with which the connector sends is the seed with which the
/// listener receives.
pub proof fn lemma_directional_symmetry(listener_private: u64, connector_private: u64)
    ensures
        ({
            let at_listener = shared_secret(public_value(connector_private), listener_private);
            let at_connector = shared_secret(public_value(listener_private), connector_private);
            &&& outgoing_seed(Role::Listener, at_listener) == incoming_seed(
                Role::Connector,
                at_connector,
            )
            &&& incoming_seed(Role::Listener, at_listener) == outgoing_seed(
                Role::Connector,
                at_connector,
            )
        }),
{
    lemma_secrets_agree(listener_private, connector_private);
}

/// Two peers whose stream carries each one's bytes to the other unchanged
/// both end established, unless a public value is degenerate. The seed
/// with which each sends is the seed with which the other receives, and so
/// the keystream with which each sends is in the state of the keystream
/// with which the other receives.
///
/// The four arrays are the bytes on the wire: the two public values and the
/// two proofs, each being what its sender was told to send.
pub proof fn lemma_honest_peers_agree(
    listener_private: u64,
    connector_private: u64,
    listener_public: [u8; 8],
    connector_public: [u8; 8],
    listener_proof: [u8; 8],
    connector_proof: [u8; 8],
)
    requires
        valid_private(listener_private),
        valid_private(connector_private),
        valid_peer_public(public_value(listener_private)),
        valid_peer_public(public_value(connector_private)),
        listener_public@ == be_bytes(public_value(listener_private) as nat, 8),
        connector_public@ == be_bytes(public_value(connector_private) as nat, 8),
        listener_proof@ == be_bytes(
            proof_value(shared_secret(public_value(connector_private), listener_private)) as nat,
            8,
        ),
        connector_proof@ == be_bytes(
            proof_value(shared_secret(public_value(listener_private), connector_private)) as nat,
            8,
        ),
    ensures
        ({
            let l0 = Handshake::spec_start(Role::Listener, listener_private);
            let c0 = Handshake::spec_start(Role::Connector, connector_private);
            let l1 = l0.0.spec_step(Event::Sent);
            let c1 = c0.0.spec_step(Event::Received(listener_public));
            let c2 = c1.0.spec_step(Event::Sent);
            let l2 = l1.0.spec_step(Event::Received(connector_public));
            let l3 = l2.0.spec_step(Event::Sent);
            let c3 = c2.0.spec_step(Event::Received(listener_proof));
            let c4 = c3.0.spec_step(Event::Sent);
            let l4 = l3.0.spec_step(Event::Received(connector_proof));
            &&& l0.1 == ActionView::Send(listener_public@)
            &&& c0.1 == ActionView::Receive
            &&& l1.1 == ActionView::Receive
            &&& c1.1 == ActionView::Send(connector_public@)
            &&& c2.1 == ActionView::Receive
            &&& l2.1 == ActionView::Send(listener_proof@)
            &&& l3.1 == ActionView::Receive
            &&& c3.1 == ActionView::Send(connector_proof@)
            &&& l4.0 is Established
            &&& c4.0 is Established
            &&& l4.0->send_seed == c4.0->recv_seed
            &&& l4.0->recv_seed == c4.0->send_seed
            &&& l4.1 is Established
            &&& c4.1 is Established
            &&& l4.1->Established_send == c4.1->Established_recv
            &&& l4.1->Established_recv == c4.1->Established_send
        }),
{
    reveal_with_fuel(span, 9);
    let lp = public_value(listener_private);
    let cp = public_value(connector_private);
    let ls = shared_secret(cp, listener_private);
    let cs = shared_secret(lp, connector_private);
    lemma_secrets_agree(listener_private, connector_private);
    lemma_be_value_of_be_bytes(lp as nat, 8);
    lemma_be_value_of_be_bytes(cp as nat, 8);
    lemma_be_value_of_be_bytes(proof_value(ls) as nat, 8);
    lemma_be_value_of_be_bytes(proof_value(cs) as nat, 8);
}

/// A peer public value of 0, 1 or `P - 1` ends the handshake as soon as the
/// exchange of public values is complete, for either role: the state is
/// `Failed`, which holds no secret, and nothing more is sent or read.
pub proof fn lemma_degenerate_public_value_fails(role: Role, private: u64, peer: u64)
    requires
        peer == 0 || peer == 1 || peer == P - 1,
    ensures
        Handshake::after_public(role, private, peer) == (
            Handshake::Failed(HandshakeError::InvalidPeerKey),
            ActionView::Failed(HandshakeError::InvalidPeerKey),
        ),
{
}

/// The listener, having written its public value, fails on reading a
/// degenerate one; the connector, having read a degenerate one, fails as
/// soon as its own is written.
pub proof fn lemma_degenerate_public_value_fails_in_step(
    private: u64,
    own: u64,
    peer: u64,
    bytes: [u8; 8],
)
    requires
        peer == 0 || peer == 1 || peer == P - 1,
        be_value(bytes@) == peer,
    ensures
        (Handshake::ExchangePublic {
            private,
            exchange: Exchange { role: Role::Listener, own, sent: true, peer: None },
        }).spec_step(Event::Received(bytes)).0 == Handshake::Failed(
            HandshakeError::InvalidPeerKey,
        ),
        (Handshake::ExchangePublic {
            private,
            exchange: Exchange { role: Role::Connector, own, sent: false, peer: Some(peer) },
        }).spec_step(Event::Sent).0 == Handshake::Failed(HandshakeError::InvalidPeerKey),
{
}

/// A peer proof that differs from the local one ends the handshake with a
/// secret mismatch, for either role, and no keys are derived.
pub proof fn lemma_mismatched_proof_fails(role: Role, secret: u64, peer: u64)
    requires
        peer != proof_value(secret),
    ensures
        Handshake::after_proof(role, secret, proof_value(secret), peer) == (
            Handshake::Failed(HandshakeError::SecretMismatch),
            ActionView::Failed(HandshakeError::SecretMismatch),
        ),
{
}

/// In a well-formed handshake, the event that completes the exchange of
/// proofs with a peer proof other than the local one leaves it failed.
pub proof fn lemma_mismatched_proof_fails_in_step(secret: u64, peer: u64, bytes: [u8; 8])
    requires
        peer != proof_value(secret),
        be_value(bytes@) == peer,
    ensures
        ({
            let own = proof_value(secret);
            let listener = Handshake::ExchangeProof {
                secret,
                exchange: Exchange { role: Role::Listener, own, sent: true, peer: None },
            };
            let connector = Handshake::ExchangeProof {
                secret,
                exchange: Exchange { role: Role::Connector, own, sent: false, peer: Some(peer) },
            };
            &&& listener.wf() && connector.wf()
            &&& listener.spec_step(Event::Received(bytes)) == (
                Handshake::Failed(HandshakeError::SecretMismatch),
                ActionView::Failed(HandshakeError::SecretMismatch),
            )
            &&& connector.spec_step(Event::Sent) == (
                Handshake::Failed(HandshakeError::SecretMismatch),
                ActionView::Failed(HandshakeError::SecretMismatch),
            )
        }),
{
}

/// A failure of the stream ends a running handshake, and a handshake that
/// has failed stays failed whatever is reported to it.
pub proof fn lemma_failure_is_final(h: Handshake, event: Event)
    ensures
        !h.spec_is_over() ==> h.spec_step(Event::Failed) == (
            Handshake::Failed(HandshakeError::Transport),
            ActionView::Failed(HandshakeError::Transport),
        ),
        h is Failed ==> h.spec_step(event) == (h, ActionView::Failed(h->Failed_0)),
        h is Established ==> h.spec_step(event).0 == h,
{
}

/// Keys are handed out only by the step that completes the exchange of
/// proofs with equal proofs, or by a handshake that is established already.
pub proof fn lemma_keys_need_equal_proofs(h: Handshake, event: Event)
    requires
        h.wf(),
        h.spec_step(event).1 is Established,
    ensures
        h is Established || (h is ExchangeProof && h.spec_step(event).0 is Established && ({
            let secret = h->ExchangeProof_secret;
            let role = h->ExchangeProof_exchange.role;
            h.spec_step(event).1 == (ActionView::Established {
                send: folded(outgoing_seed(role, secret)),
                recv: folded(incoming_seed(role, secret)),
            })
        })),
{
}

/// Peers that hold different secrets hold different proofs, so each of them
/// fails with a secret mismatch on seeing the other's proof.
pub proof fn lemma_different_secrets_are_detected(role: Role, secret: u64, peer_secret: u64)
    requires
        secret != peer_secret,
    ensures
        proof_value(secret) != proof_value(peer_secret),
        Handshake::after_proof(role, secret, proof_value(secret), proof_value(peer_secret)) == (
            Handshake::Failed(HandshakeError::SecretMismatch),
            ActionView::Failed(HandshakeError::SecretMismatch),
        ),
{
    if proof_value(secret) == proof_value(peer_secret) {
        lemma_mixed_is_injective(secret ^ PROOF_TAG, peer_secret ^ PROOF_TAG);
        let tag = PROOF_TAG;
        assert(secret == peer_secret) by (bit_vector)
            requires
                secret ^ tag == peer_secret ^ tag,
        ;
    }
}

} // verus!
