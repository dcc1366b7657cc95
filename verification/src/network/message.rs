//! Wire message model.
//!
//! The transport codec (framing, checksums, payload serialization) is an
//! external collaborator; the core consumes and produces messages as the
//! values modelled here.

use vstd::prelude::*;

use crate::block::{BlockHash, BlockHeader};

verus! {

/// The network a node is configured for.  Each network has its own 4-byte
/// magic constant, carried on every wire frame.
#[derive(Clone, Copy, Debug, PartialEq, Eq, Structural)]
pub enum Network {
    /// The production network.
    Mainnet,
    /// The public test network.
    Testnet,
    /// Local regression-test network.
    Regtest,
}

/// The magic constant of a network.
pub open spec fn magic_spec(n: Network) -> u32 {
    match n {
        Network::Mainnet => 0xD9B4BEF9,
        Network::Testnet => 0x0709110B,
        Network::Regtest => 0xDAB5BFFA,
    }
}

impl Network {
    /// The magic constant of this network.
    pub fn magic(&self) -> (r: u32)
        ensures
            r == magic_spec(*self),
    {
        match self {
            Network::Mainnet => 0xD9B4BEF9,
            Network::Testnet => 0x0709110B,
            Network::Regtest => 0xDAB5BFFA,
        }
    }
}

/// A network address as carried in a `version` message.  The core only ever
/// sends blank addresses.
#[derive(Clone, Copy, Debug)]
pub struct NetAddress {
    /// Service flags of the addressed node.
    pub services: u64,
    /// IPv6 address (IPv4 is carried mapped), in network order groups.
    pub ip: [u16; 8],
    /// TCP port.
    pub port: u16,
}

impl NetAddress {
    /// The blank address `[::]:0` with no services.
    pub fn blank() -> (r: NetAddress)
        ensures
            r.services == 0,
            r.ip@ == Seq::new(8, |i: int| 0u16),
            r.port == 0,
    {
        let r = NetAddress { services: 0, ip: [0u16; 8], port: 0 };
        proof {
            assert(r.ip@ =~= Seq::new(8, |i: int| 0u16));
        }
        r
    }
}

/// A `version` message payload.
#[derive(Debug)]
pub struct VersionMessage {
    /// Protocol version of the sender.
    pub version: u32,
    /// Service flags of the sender.
    pub services: u64,
    /// Sender clock, seconds since the Unix epoch.
    pub timestamp: i64,
    /// Address of the receiving node, as seen by the sender.
    pub receiver: NetAddress,
    /// Address of the sending node.
    pub sender: NetAddress,
    /// Random nonce identifying this connection.
    pub nonce: u64,
    /// Free-form client identification.
    pub user_agent: String,
    /// Height of the sender's best chain.
    pub start_height: i32,
}

/// A `getheaders` message payload.
#[derive(Debug)]
pub struct GetHeadersMessage {
    /// Protocol version of the sender.
    pub version: u32,
    /// Known hashes, newest first, genesis last.
    pub locator_hashes: Vec<BlockHash>,
    /// Hash to stop at; all-zero asks for as many as the peer has.
    pub stop_hash: BlockHash,
}

/// A message payload, as the core distinguishes them.
#[derive(Debug)]
pub enum NetworkMessage {
    /// A `version` payload.
    Version(VersionMessage),
    /// A `verack` payload.
    Verack,
    /// A `getheaders` payload.
    GetHeaders(GetHeadersMessage),
    /// A `headers` payload: the 80-byte header of each entry (the entries'
    /// transaction counts are always zero and are left to the codec).
    Headers(Vec<BlockHeader>),
    /// Any other payload; the core ignores these.
    Unknown,
}

/// A framed message: a payload wrapped with a network's magic.
#[derive(Debug)]
pub struct RawNetworkMessage {
    /// Magic constant of the sending network.
    pub magic: u32,
    /// The payload.
    pub payload: NetworkMessage,
}

/// The protocol version this client speaks.
pub const PROTOCOL_VERSION: u32 = 70015;

} // verus!
