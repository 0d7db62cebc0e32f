//! Key agreement between a listener and a connector.
//!
//! The handshake is a state machine that performs no I/O of its own. It is
//! given events and answers each with the next thing to do on the stream:
//! send eight bytes, receive eight bytes, or stop. Both roles exchange a
//! public value, check the peer's, derive a shared secret, exchange a proof
//! of it, and end with one keystream per direction. The listener always
//! writes before it reads and the connector reads before it writes, so the
//! two never wait on each other.
//!
//! Between two events a handshake rests in one of four states: exchanging
//! public values, exchanging proofs, established, or failed. What lies
//! between them takes no I/O and so has no state to rest in: the private
//! exponent is generated when the handshake begins; the peer's public value
//! is validated and the secret computed in the step that completes the first
//! exchange; the proof is validated and the keys derived in the step that
//! completes the second.

use crate::keystream::{folded, Keystream};
use crate::numeric::{mix64, mixed, modexp, pow_mod};
use crate::wire::{be_bytes, be_value, u64_from_be, u64_to_be};
use rand::Rng;
use vstd::prelude::*;
use vstd::string::StringExecFns;

verus! {

/// The modulus shared by both peers.
pub const P: u64 = 0xD87F_A3E2_9184_CF73;

/// The generator shared by both peers.
pub const G: u64 = 2;

/// Xored into the shared secret before it is mixed into the proof value.
pub const PROOF_TAG: u64 = 0xA5A5_A5A5_A5A5_A5A5;

/// Xored into the shared secret for the direction from listener to connector.
pub const LISTENER_TO_CONNECTOR_TAG: u64 = 0x5352_563E_0000_0001;

/// Xored into the shared secret for the direction from connector to listener.
pub const CONNECTOR_TO_LISTENER_TAG: u64 = 0x434C_493E_0000_0002;

/// Which end of the connection a peer is.
#[derive(Clone, Copy, Debug, PartialEq, Eq, Structural)]
pub enum Role {
    /// The peer that accepted the connection. It writes first.
    Listener,
    /// The peer that opened the connection. It reads first.
    Connector,
}

/// Why a handshake ended without keys.
#[derive(Clone, Copy, Debug, PartialEq, Eq, Structural)]
pub enum HandshakeError {
    /// The stream failed, or reported something that was not asked of it.
    Transport,
    /// The peer's public value is 0, 1, `P - 1` or larger.
    InvalidPeerKey,
    /// The peer's proof differs from the local one: the secrets differ.
    SecretMismatch,
}

impl HandshakeError {
    /// The error in words.
    pub open spec fn text(self) -> Seq<char> {
        match self {
            HandshakeError::Transport => "transport failure"@,
            HandshakeError::InvalidPeerKey => "invalid peer public key"@,
            HandshakeError::SecretMismatch => "secret verification failed"@,
        }
    }

    /// The error in words.
    pub fn message(&self) -> (s: String)
        ensures
            s@ == self.text(),
    {
        match self {
            HandshakeError::Transport => String::from_str("transport failure"),
            HandshakeError::InvalidPeerKey => String::from_str("invalid peer public key"),
            HandshakeError::SecretMismatch => String::from_str("secret verification failed"),
        }
    }
}

/// What the stream reports back to the handshake.
#[derive(Clone, Copy, Debug)]
pub enum Event {
    /// The bytes of the last `Action::Send` were written.
    Sent,
    /// The eight bytes asked for by the last `Action::Receive`.
    Received([u8; 8]),
    /// The stream failed: a disconnect, a timeout, a short read.
    Failed,
}

/// The two keystreams of an established session.
#[derive(Debug)]
pub struct Keys {
    /// Masks what this peer sends.
    pub send: Keystream,
    /// Unmasks what this peer receives.
    pub recv: Keystream,
}

/// What the driver of the handshake has to do next.
#[derive(Debug)]
pub enum Action {
    /// Write these eight bytes, then report `Event::Sent`.
    Send([u8; 8]),
    /// Read exactly eight bytes, then report them in `Event::Received`.
    Receive,
    /// The handshake is complete; these are the session's keystreams.
    Established(Keys),
    /// The handshake is over without keys. Nothing more is sent or read.
    Failed(HandshakeError),
}

/// An `Action` as contracts see it: the bytes as a sequence, each keystream
/// as its state.
pub enum ActionView {
    /// Write these bytes.
    Send(Seq<u8>),
    /// Read eight bytes.
    Receive,
    /// Done, with keystreams in these states.
    Established {
        /// State of the keystream for what this peer sends.
        send: u32,
        /// State of the keystream for what this peer receives.
        recv: u32,
    },
    /// Over, with this error.
    Failed(HandshakeError),
}

impl View for Action {
    type V = ActionView;

    open spec fn view(&self) -> ActionView {
        match *self {
            Action::Send(bytes) => ActionView::Send(bytes@),
            Action::Receive => ActionView::Receive,
            Action::Established(keys) => ActionView::Established {
                send: keys.send@,
                recv: keys.recv@,
            },
            Action::Failed(e) => ActionView::Failed(e),
        }
    }
}

/// One exchange of an eight-byte value in each direction.
#[derive(Clone, Copy, Debug)]
pub struct Exchange {
    /// This peer's role, which fixes who writes first.
    pub role: Role,
    /// The value that this peer sends.
    pub own: u64,
    /// Whether the own value was written.
    pub sent: bool,
    /// The peer's value, once read.
    pub peer: Option<u64>,
}

/// Where an exchange stands after an event.
#[derive(Clone, Copy, Debug)]
pub enum Progress {
    /// The own value is to be written next.
    Send(Exchange),
    /// The peer's value is to be read next.
    Receive(Exchange),
    /// Both values crossed; this is the peer's.
    Complete(u64),
    /// The stream failed or reported what was not asked of it.
    Broken,
}

/// Where a handshake stands between two events.
#[derive(Clone, Copy, Debug)]
pub enum Handshake {
    /// Public values are being exchanged.
    ExchangePublic {
        /// This peer's private exponent.
        private: u64,
        /// The exchange of the public values.
        exchange: Exchange,
    },
    /// Proof values are being exchanged.
    ExchangeProof {
        /// The shared secret.
        secret: u64,
        /// The exchange of the proof values.
        exchange: Exchange,
    },
    /// Both proofs agreed. The seeds are those of this peer's two directions.
    Established {
        /// Seed of the keystream for what this peer sends.
        send_seed: u64,
        /// Seed of the keystream for what this peer receives.
        recv_seed: u64,
    },
    /// The handshake failed and stays failed.
    Failed(HandshakeError),
}

/// A private exponent lies in `[2, P - 2]`.
pub open spec fn valid_private(private: u64) -> bool {
    2 <= private <= P - 2
}

/// A peer's public value is accepted when it lies strictly between 1 and `P - 1`.
pub open spec fn valid_peer_public(value: u64) -> bool {
    1 < value < P - 1
}

/// The public value that belongs to a private exponent: `G` to that power, modulo `P`.
pub open spec fn public_value(private: u64) -> u64 {
    pow_mod(G, private, P) as u64
}

/// The secret that a peer derives from the other's public value and its own exponent.
pub open spec fn shared_secret(peer_public: u64, private: u64) -> u64 {
    pow_mod(peer_public, private, P) as u64
}

/// The value that each peer shows the other to confirm the secret.
pub open spec fn proof_value(secret: u64) -> u64 {
    mixed(secret ^ PROOF_TAG)
}

/// The role at the other end.
pub open spec fn other(role: Role) -> Role {
    match role {
        Role::Listener => Role::Connector,
        Role::Connector => Role::Listener,
    }
}

/// The seed of the direction in which `role` sends.
pub open spec fn outgoing_seed(role: Role, secret: u64) -> u64 {
    match role {
        Role::Listener => mixed(secret ^ LISTENER_TO_CONNECTOR_TAG),
        Role::Connector => mixed(secret ^ CONNECTOR_TO_LISTENER_TAG),
    }
}

/// The seed of the direction in which `role` receives: the one in which the
/// other role sends.
pub open spec fn incoming_seed(role: Role, secret: u64) -> u64 {
    outgoing_seed(other(role), secret)
}

/// The state and the action of a handshake that failed with `e`.
pub open spec fn failure(e: HandshakeError) -> (Handshake, ActionView) {
    (Handshake::Failed(e), ActionView::Failed(e))
}

impl Exchange {
    /// An exchange that has not started: the listener is to write, the
    /// connector is to read.
    pub open spec fn spec_open(role: Role, own: u64) -> Progress {
        let x = Exchange { role, own, sent: false, peer: None };
        match role {
            Role::Listener => Progress::Send(x),
            Role::Connector => Progress::Receive(x),
        }
    }

    /// Whether the next thing to happen is this peer's write.
    pub open spec fn expects_sent(self) -> bool {
        !self.sent && (self.role == Role::Listener || self.peer is Some)
    }

    /// Whether the next thing to happen is this peer's read.
    pub open spec fn expects_received(self) -> bool {
        self.peer is None && (self.role == Role::Connector || self.sent)
    }

    /// Where the exchange stands after `event`.
    pub open spec fn spec_advance(self, event: Event) -> Progress {
        match event {
            Event::Failed => Progress::Broken,
            Event::Sent => if !self.expects_sent() {
                Progress::Broken
            } else if self.peer is Some {
                Progress::Complete(self.peer->0)
            } else {
                Progress::Receive(Exchange { sent: true, ..self })
            },
            Event::Received(bytes) => if !self.expects_received() {
                Progress::Broken
            } else if self.sent {
                Progress::Complete(be_value(bytes@) as u64)
            } else {
                Progress::Send(Exchange { peer: Some(be_value(bytes@) as u64), ..self })
            },
        }
    }

    /// Opens an exchange of `own` for `role`.
    pub fn open(role: Role, own: u64) -> (p: Progress)
        ensures
            p == Exchange::spec_open(role, own),
    {
        let x = Exchange { role, own, sent: false, peer: None };
        match role {
            Role::Listener => Progress::Send(x),
            Role::Connector => Progress::Receive(x),
        }
    }

    /// Takes `event` into account. An event that is not the one awaited
    /// breaks the exchange, as a failure of the stream does.
    pub fn advance(self, event: Event) -> (p: Progress)
        ensures
            p == self.spec_advance(event),
    {
        match event {
            Event::Failed => Progress::Broken,
            Event::Sent => {
                let awaited = !self.sent && (matches!(self.role, Role::Listener)
                    || self.peer.is_some());
                if !awaited {
                    Progress::Broken
                } else {
                    match self.peer {
                        Some(v) => Progress::Complete(v),
                        None => Progress::Receive(
                            Exchange { role: self.role, own: self.own, sent: true, peer: None },
                        ),
                    }
                }
            },
            Event::Received(bytes) => {
                let awaited = self.peer.is_none() && (matches!(self.role, Role::Connector)
                    || self.sent);
                if !awaited {
                    Progress::Broken
                } else {
                    let v = u64_from_be(&bytes);
                    if self.sent {
                        Progress::Complete(v)
                    } else {
                        Progress::Send(
                            Exchange { role: self.role, own: self.own, sent: false, peer: Some(v) },
                        )
                    }
                }
            },
        }
    }
}

impl Handshake {
    /// What holds of every state that a handshake passes through: the
    /// private exponent is in range, and the value offered to the peer is
    /// the one that belongs to the private exponent or to the secret.
    pub open spec fn wf(self) -> bool {
        match self {
            Handshake::ExchangePublic { private, exchange } => valid_private(private)
                && exchange.own == public_value(private),
            Handshake::ExchangeProof { secret, exchange } => exchange.own == proof_value(secret),
            _ => true,
        }
    }

    /// Whether the handshake has ended, with or without keys.
    pub open spec fn spec_is_over(self) -> bool {
        self is Established || self is Failed
    }

    /// The state and the action that `progress` comes to while public values
    /// are exchanged.
    pub open spec fn during_public(private: u64, progress: Progress) -> (Handshake, ActionView) {
        match progress {
            Progress::Send(exchange) => (
                Handshake::ExchangePublic { private, exchange },
                ActionView::Send(be_bytes(exchange.own as nat, 8)),
            ),
            Progress::Receive(exchange) => (
                Handshake::ExchangePublic { private, exchange },
                ActionView::Receive,
            ),
            Progress::Complete(peer) => failure(HandshakeError::Transport),
            Progress::Broken => failure(HandshakeError::Transport),
        }
    }

    /// The state and the action that `progress` comes to while proofs are
    /// exchanged.
    pub open spec fn during_proof(secret: u64, progress: Progress) -> (Handshake, ActionView) {
        match progress {
            Progress::Send(exchange) => (
                Handshake::ExchangeProof { secret, exchange },
                ActionView::Send(be_bytes(exchange.own as nat, 8)),
            ),
            Progress::Receive(exchange) => (
                Handshake::ExchangeProof { secret, exchange },
                ActionView::Receive,
            ),
            Progress::Complete(peer) => failure(HandshakeError::Transport),
            Progress::Broken => failure(HandshakeError::Transport),
        }
    }

    /// A handshake at its start: the public value is computed and its
    /// exchange is opened.
    pub open spec fn spec_start(role: Role, private: u64) -> (Handshake, ActionView) {
        Self::during_public(private, Exchange::spec_open(role, public_value(private)))
    }

    /// What follows the exchange of public values: a degenerate peer value
    /// ends the handshake before any secret is computed; any other gives
    /// the secret and opens the exchange of proofs.
    pub open spec fn after_public(role: Role, private: u64, peer: u64) -> (Handshake, ActionView) {
        if !valid_peer_public(peer) {
            failure(HandshakeError::InvalidPeerKey)
        } else {
            let secret = shared_secret(peer, private);
            Self::during_proof(secret, Exchange::spec_open(role, proof_value(secret)))
        }
    }

    /// What follows the exchange of proofs: a peer proof that differs from
    /// the own one ends the handshake without keys; an equal one gives the
    /// two seeds.
    pub open spec fn after_proof(role: Role, secret: u64, own: u64, peer: u64) -> (
        Handshake,
        ActionView,
    ) {
        if peer != own {
            failure(HandshakeError::SecretMismatch)
        } else {
            (
                Handshake::Established {
                    send_seed: outgoing_seed(role, secret),
                    recv_seed: incoming_seed(role, secret),
                },
                ActionView::Established {
                    send: folded(outgoing_seed(role, secret)),
                    recv: folded(incoming_seed(role, secret)),
                },
            )
        }
    }

    /// The state that follows `self` on `event`, and the action to take.
    pub open spec fn spec_step(self, event: Event) -> (Handshake, ActionView) {
        match self {
            Handshake::ExchangePublic { private, exchange } => match exchange.spec_advance(event) {
                Progress::Complete(peer) => Self::after_public(exchange.role, private, peer),
                progress => Self::during_public(private, progress),
            },
            Handshake::ExchangeProof { secret, exchange } => match exchange.spec_advance(event) {
                Progress::Complete(peer) => Self::after_proof(
                    exchange.role,
                    secret,
                    exchange.own,
                    peer,
                ),
                progress => Self::during_proof(secret, progress),
            },
            Handshake::Established { send_seed, recv_seed } => (
                self,
                ActionView::Established { send: folded(send_seed), recv: folded(recv_seed) },
            ),
            Handshake::Failed(e) => failure(e),
        }
    }

    /// Starts a handshake for `role` with the given private exponent.
    pub fn start(role: Role, private: u64) -> (out: (Handshake, Action))
        requires
            valid_private(private),
        ensures
            out.0 == Handshake::spec_start(role, private).0,
            out.1@ == Handshake::spec_start(role, private).1,
            out.0.wf(),
    {
        Self::public_exchange(private, Exchange::open(role, compute_public(private)))
    }

    /// Starts a handshake for `role` with a private exponent drawn at random
    /// from `[2, P - 2]`.
    pub fn begin(role: Role) -> (out: (Handshake, Action))
        ensures
            exists|private: u64|
                valid_private(private) && out.0 == (#[trigger] Handshake::spec_start(
                    role,
                    private,
                )).0 && out.1@ == Handshake::spec_start(role, private).1,
            out.0.wf(),
    {
        Self::start(role, generate_private())
    }

    /// Whether the handshake has ended, with or without keys.
    pub fn is_over(&self) -> (b: bool)
        ensures
            b == self.spec_is_over(),
    {
        match self {
            Handshake::Established { .. } => true,
            Handshake::Failed(_) => true,
            _ => false,
        }
    }

    /// Takes `event` into account and says what to do next.
    ///
    /// A failure of the stream ends the handshake, as does an event that was
    /// not awaited. A handshake that has ended stays as it is and repeats
    /// its last answer.
    pub fn step(self, event: Event) -> (out: (Handshake, Action))
        ensures
            out.0 == self.spec_step(event).0,
            out.1@ == self.spec_step(event).1,
            self.wf() ==> out.0.wf(),
    {
        match self {
            Handshake::ExchangePublic { private, exchange } => match exchange.advance(event) {
                Progress::Complete(peer) => Self::conclude_public(exchange.role, private, peer),
                progress => Self::public_exchange(private, progress),
            },
            Handshake::ExchangeProof { secret, exchange } => match exchange.advance(event) {
                Progress::Complete(peer) => Self::conclude_proof(
                    exchange.role,
                    secret,
                    exchange.own,
                    peer,
                ),
                progress => Self::proof_exchange(secret, progress),
            },
            Handshake::Established { send_seed, recv_seed } => Self::established(
                send_seed,
                recv_seed,
            ),
            Handshake::Failed(e) => Self::fail(e),
        }
    }

    fn conclude_public(role: Role, private: u64, peer: u64) -> (out: (Handshake, Action))
        ensures
            out.0 == Self::after_public(role, private, peer).0,
            out.1@ == Self::after_public(role, private, peer).1,
            out.0.wf(),
    {
        if !accepts_peer_public(peer) {
            Self::fail(HandshakeError::InvalidPeerKey)
        } else {
            let secret = compute_secret(peer, private);
            Self::proof_exchange(secret, Exchange::open(role, compute_proof(secret)))
        }
    }

    fn conclude_proof(role: Role, secret: u64, own: u64, peer: u64) -> (out: (Handshake, Action))
        ensures
            out.0 == Self::after_proof(role, secret, own, peer).0,
            out.1@ == Self::after_proof(role, secret, own, peer).1,
            out.0.wf(),
    {
        if peer != own {
            Self::fail(HandshakeError::SecretMismatch)
        } else {
            let (send_seed, recv_seed) = derive_seeds(role, secret);
            Self::established(send_seed, recv_seed)
        }
    }

    fn fail(e: HandshakeError) -> (out: (Handshake, Action))
        ensures
            out.0 == failure(e).0,
            out.1@ == failure(e).1,
    {
        (Handshake::Failed(e), Action::Failed(e))
    }

    fn established(send_seed: u64, recv_seed: u64) -> (out: (Handshake, Action))
        ensures
            out.0 == (Handshake::Established { send_seed, recv_seed }),
            out.1@ == (ActionView::Established { send: folded(send_seed), recv: folded(recv_seed) }),
    {
        let keys = Keys { send: Keystream::new(send_seed), recv: Keystream::new(recv_seed) };
        (Handshake::Established { send_seed, recv_seed }, Action::Established(keys))
    }

    fn public_exchange(private: u64, progress: Progress) -> (out: (Handshake, Action))
        ensures
            out.0 == Self::during_public(private, progress).0,
            out.1@ == Self::during_public(private, progress).1,
    {
        match progress {
            Progress::Send(exchange) => (
                Handshake::ExchangePublic { private, exchange },
                Action::Send(u64_to_be(exchange.own)),
            ),
            Progress::Receive(exchange) => (
                Handshake::ExchangePublic { private, exchange },
                Action::Receive,
            ),
            _ => Self::fail(HandshakeError::Transport),
        }
    }

    fn proof_exchange(secret: u64, progress: Progress) -> (out: (Handshake, Action))
        ensures
            out.0 == Self::during_proof(secret, progress).0,
            out.1@ == Self::during_proof(secret, progress).1,
    {
        match progress {
            Progress::Send(exchange) => (
                Handshake::ExchangeProof { secret, exchange },
                Action::Send(u64_to_be(exchange.own)),
            ),
            Progress::Receive(exchange) => (
                Handshake::ExchangeProof { secret, exchange },
                Action::Receive,
            ),
            _ => Self::fail(HandshakeError::Transport),
        }
    }
}

/// Draws a private exponent at random from `[2, P - 2]`.
pub fn generate_private() -> (private: u64)
    ensures
        valid_private(private),
{
    random_in_range(2, P - 1)
}

/// The public value that belongs to `private`.
pub fn compute_public(private: u64) -> (public: u64)
    ensures
        public == public_value(private),
        public < P,
{
    modexp(G, private, P)
}

/// Whether a peer's public value is accepted: 0, 1, `P - 1` and anything
/// larger are not.
pub fn accepts_peer_public(value: u64) -> (ok: bool)
    ensures
        ok == valid_peer_public(value),
{
    1 < value && value < P - 1
}

/// The secret shared with the peer whose public value is `peer_public`.
pub fn compute_secret(peer_public: u64, private: u64) -> (secret: u64)
    ensures
        secret == shared_secret(peer_public, private),
        secret < P,
{
    modexp(peer_public, private, P)
}

/// The value that confirms `secret` to the peer without giving it away.
pub fn compute_proof(secret: u64) -> (proof: u64)
    ensures
        proof == proof_value(secret),
{
    mix64(secret ^ PROOF_TAG)
}

/// The seeds of the two directions as `role` uses them: the first for what
/// it sends, the second for what it receives.
pub fn derive_seeds(role: Role, secret: u64) -> (seeds: (u64, u64))
    ensures
        seeds.0 == outgoing_seed(role, secret),
        seeds.1 == incoming_seed(role, secret),
{
    let to_connector = mix64(secret ^ LISTENER_TO_CONNECTOR_TAG);
    let to_listener = mix64(secret ^ CONNECTOR_TO_LISTENER_TAG);
    match role {
        Role::Listener => (to_connector, to_listener),
        Role::Connector => (to_listener, to_connector),
    }
}

/// The keystreams of the two directions as `role` uses them.
pub fn derive_keys(role: Role, secret: u64) -> (keys: Keys)
    ensures
        keys.send@ == folded(outgoing_seed(role, secret)),
        keys.recv@ == folded(incoming_seed(role, secret)),
{
    let (send_seed, recv_seed) = derive_seeds(role, secret);
    Keys { send: Keystream::new(send_seed), recv: Keystream::new(recv_seed) }
}

/// Draws a number from `[low, high)` with `rand::Rng::gen_range` on the
/// thread's generator. All that is claimed of the result is that it lies in
/// the range; an empty range, on which the call panics, is left out.
#[verifier::external_body]
fn random_in_range(low: u64, high: u64) -> (x: u64)
    requires
        low < high,
    ensures
        low <= x < high,
{
    rand::thread_rng().gen_range(low..high)
}

} // verus!
