//! What becomes of a peer when a session ends.
//!
//! A listener serves one connection at a time and outlives every one of
//! them: whatever goes wrong in a session ends that session only. A
//! connector has a single session, and its process ends with it. Either
//! ends at once where its endpoint cannot be had.

use crate::codec::CodecError;
use crate::handshake::{HandshakeError, Role};
use vstd::prelude::*;

verus! {

/// The kinds of failure that are told apart when a peer reports one.
#[derive(Clone, Copy, Debug, PartialEq, Eq, Structural)]
pub enum Failure {
    /// The endpoint is malformed or cannot be resolved. Nothing was sent yet.
    Configuration,
    /// The stream could not be set up, or failed or timed out in use.
    Transport,
    /// The peer broke the protocol: a degenerate public value, a proof
    /// that does not match, a frame that is too large.
    Protocol,
}

/// What a peer does once a session is over.
#[derive(Clone, Copy, Debug, PartialEq, Eq, Structural)]
pub enum Next {
    /// Wait for the next connection.
    Accept,
    /// End the process with this exit code.
    Exit(u8),
}

/// The kind of failure that a failed handshake is.
pub open spec fn handshake_failure(e: HandshakeError) -> Failure {
    match e {
        HandshakeError::Transport => Failure::Transport,
        HandshakeError::InvalidPeerKey => Failure::Protocol,
        HandshakeError::SecretMismatch => Failure::Protocol,
    }
}

/// The kind of failure that a refused or incomplete frame is: a frame of
/// a forbidden size breaks the protocol, whoever made it, and a frame that
/// ends early is the stream's failure.
pub open spec fn codec_failure(e: CodecError) -> Failure {
    match e {
        CodecError::MessageTooLong => Failure::Protocol,
        CodecError::MessageTooLarge => Failure::Protocol,
        CodecError::FrameTooLarge => Failure::Protocol,
        CodecError::Truncated => Failure::Transport,
    }
}

/// The exit code for a process that ends with `outcome`.
pub open spec fn exit_code(outcome: Option<Failure>) -> u8 {
    match outcome {
        None => 0,
        Some(Failure::Configuration) => 2,
        Some(_) => 1,
    }
}

/// What `role` does after a session that ended with `outcome`.
pub open spec fn next_after(role: Role, outcome: Option<Failure>) -> Next {
    match role {
        Role::Listener => Next::Accept,
        Role::Connector => Next::Exit(exit_code(outcome)),
    }
}

/// Sorts a handshake error into its kind.
pub fn classify_handshake(e: HandshakeError) -> (f: Failure)
    ensures
        f == handshake_failure(e),
{
    match e {
        HandshakeError::Transport => Failure::Transport,
        HandshakeError::InvalidPeerKey => Failure::Protocol,
        HandshakeError::SecretMismatch => Failure::Protocol,
    }
}

/// Sorts a codec error into its kind.
pub fn classify_codec(e: CodecError) -> (f: Failure)
    ensures
        f == codec_failure(e),
{
    match e {
        CodecError::MessageTooLong => Failure::Protocol,
        CodecError::MessageTooLarge => Failure::Protocol,
        CodecError::FrameTooLarge => Failure::Protocol,
        CodecError::Truncated => Failure::Transport,
    }
}

/// What `role` does after a session that ended with `outcome`: a listener
/// goes back to accepting, a connector ends its process.
pub fn after_session(role: Role, outcome: Option<Failure>) -> (next: Next)
    ensures
        next == next_after(role, outcome),
        role == Role::Listener ==> next == Next::Accept,
        role == Role::Connector ==> next is Exit && (next->Exit_0 == 0 <==> outcome is None),
{
    match role {
        Role::Listener => Next::Accept,
        Role::Connector => Next::Exit(code_for(outcome)),
    }
}

/// The exit code for a process that ends with `outcome`.
pub fn code_for(outcome: Option<Failure>) -> (code: u8)
    ensures
        code == exit_code(outcome),
        code == 0 <==> outcome is None,
{
    match outcome {
        None => 0,
        Some(Failure::Configuration) => 2,
        Some(_) => 1,
    }
}

} // verus!
