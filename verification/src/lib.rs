//! A small secure-channel protocol, verified, and the cores of four
//! command-line tools that keep it company.
//!
//! The channel runs between a listener and a connector over a reliable
//! byte stream. The peers agree on a secret ([`handshake`], with
//! [`numeric`] for the arithmetic and [`agreement`] for what is proved of
//! two peers together), derive one [`keystream`] per direction, and then
//! exchange length-prefixed frames whose payload is masked with it
//! ([`codec`], [`wire`]). [`session`] says what a peer does when a session
//! is over, and [`endpoint`] reads the address a connector is given. None
//! of it is cryptographically strong: the point is that two peers that
//! follow the protocol always understand each other.
//!
//! The tools are a greeting ([`hello`]), a word count ([`wordfreq`]), a hex
//! dump and patch ([`hextool`]) and a search for the cheapest and the
//! dearest way across a grid ([`hexpath`]). [`text`] holds what they share.
//!
//! The library does no I/O. Whatever reads or writes hands it plain values
//! and takes plain values back.

pub mod agreement;
pub mod codec;
pub mod endpoint;
pub mod handshake;
pub mod hello;
pub mod hexpath;
pub mod hextool;
pub mod keystream;
pub mod numeric;
pub mod session;
pub mod text;
pub mod wire;
pub mod wordfreq;
