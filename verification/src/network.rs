//! Peer-to-peer protocol layer: message model, peer channel model,
//! handshake and header download driver.

use vstd::prelude::*;

pub mod blockheaderdownload;
pub mod handshake;
pub mod message;
pub mod peer;

verus! {

/// Failures of the network layer.
#[derive(Clone, Copy, Debug, PartialEq, Eq, Structural)]
pub enum Error {
    /// Socket failure, reported by the transport.
    Io,
    /// Malformed frame, reported by the codec.
    Codec,
    /// A frame carried another network's magic bytes.
    WrongMagicBytes,
    /// The peer broke a protocol-level cap; carries the peer id.
    MaliciousPeer(u64),
    /// The stream ended before the handshake completed.
    UnexpectedEof,
}

} // verus!
