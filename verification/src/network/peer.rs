//! The peer channel model.
//!
//! A [`Peer`] stands for one connected remote: outbound messages are wrapped
//! with the configured network's magic and queued on an outbox that the
//! transport drains through `flush`; each inbound frame passes the magic
//! check in `receive` before its payload reaches anyone.  The transport
//! itself (sockets, framing) lives outside the library.

use std::time::{SystemTime, UNIX_EPOCH};

use vstd::prelude::*;

use crate::block::{zero_hash, BlockHash};
use crate::chain::{locator_heights, Chain};
use crate::network::message::{
    magic_spec, GetHeadersMessage, NetAddress, Network, NetworkMessage, RawNetworkMessage,
    VersionMessage, PROTOCOL_VERSION,
};
use crate::network::Error;
use crate::store::{ChainStore, StoreModel};

verus! {

/// Monotonic peer identifier, unique per process.
pub type PeerID = u64;

/// One connected remote.
pub struct Peer {
    /// Identifier of this connection.
    pub id: PeerID,
    /// Socket address of the remote, as the transport reported it.
    pub addr: String,
    /// Network whose magic every frame must carry.
    pub network: Network,
    /// The remote's `version` message, cached by the handshake.
    pub version: Option<VersionMessage>,
    /// Outbound frames queued and not yet handed to the transport.
    pub outbox: Vec<RawNetworkMessage>,
}

/// A well-formed `getheaders` frame for `network`, regardless of locator.
pub open spec fn is_getheaders_frame(raw: RawNetworkMessage, network: Network) -> bool {
    &&& raw.magic == magic_spec(network)
    &&& raw.payload matches NetworkMessage::GetHeaders(g) && g.version == PROTOCOL_VERSION
        && g.stop_hash@ == zero_hash()
}

/// A `getheaders` frame for `network` whose locator is the one of chain
/// state `s`: the active-chain hash at each locator height.
pub open spec fn is_getheaders_for(raw: RawNetworkMessage, network: Network, s: StoreModel) -> bool {
    &&& raw.magic == magic_spec(network)
    &&& raw.payload matches NetworkMessage::GetHeaders(g) && {
        &&& g.version == PROTOCOL_VERSION
        &&& g.stop_hash@ == zero_hash()
        &&& g.locator_hashes@.len() == locator_heights(s.heights.len() - 1).len()
        &&& forall|j: int|
            0 <= j < g.locator_hashes@.len() ==> g.locator_hashes@[j]@ == s.heights[locator_heights(
                s.heights.len() - 1,
            )[j]]
    }
}

impl Peer {
    /// A fresh peer with an empty outbox.
    pub fn new(id: PeerID, addr: String, network: Network) -> (r: Peer)
        ensures
            r.id == id,
            r.addr == addr,
            r.network == network,
            r.version is None,
            r.outbox@ == Seq::<RawNetworkMessage>::empty(),
    {
        Peer { id, addr, network, version: None, outbox: Vec::new() }
    }

    /// Starts to send a message: wraps it with the network's magic and
    /// queues it.  Nothing reaches the wire until the outbox is flushed.
    pub fn start_send(&mut self, message: NetworkMessage)
        ensures
            final(self).outbox@ == old(self).outbox@.push(
                (RawNetworkMessage { magic: magic_spec(old(self).network), payload: message }),
            ),
            final(self).id == old(self).id,
            final(self).addr == old(self).addr,
            final(self).network == old(self).network,
            final(self).version == old(self).version,
    {
        let magic = self.network.magic();
        self.outbox.push(RawNetworkMessage { magic, payload: message });
    }

    /// Hands every queued frame to the caller, oldest first, leaving the
    /// outbox empty; the transport writes them out.
    pub fn flush(&mut self) -> (r: Vec<RawNetworkMessage>)
        ensures
            r@ == old(self).outbox@,
            final(self).outbox@ == Seq::<RawNetworkMessage>::empty(),
            final(self).id == old(self).id,
            final(self).addr == old(self).addr,
            final(self).network == old(self).network,
            final(self).version == old(self).version,
    {
        let mut out: Vec<RawNetworkMessage> = Vec::new();
        core::mem::swap(&mut out, &mut self.outbox);
        out
    }

    /// The magic check on one received frame: a frame from another network
    /// fails with `WrongMagicBytes`, otherwise the payload is yielded.
    pub fn receive(&self, raw: RawNetworkMessage) -> (r: Result<NetworkMessage, Error>)
        ensures
            ({
                if raw.magic == magic_spec(self.network) {
                    r matches Ok(m) && m == raw.payload
                } else {
                    r == Err::<NetworkMessage, Error>(Error::WrongMagicBytes)
                }
            }),
    {
        if raw.magic == self.network.magic() {
            Ok(raw.payload)
        } else {
            Err(Error::WrongMagicBytes)
        }
    }

    /// Queues a `getheaders` request carrying the chain's locator and an
    /// all-zero stop hash.
    pub fn send_getheaders<T: ChainStore>(&mut self, chain: &Chain<T>)
        requires
            chain.wf(),
        ensures
            final(self).outbox@.len() == old(self).outbox@.len() + 1,
            final(self).outbox@.subrange(0, old(self).outbox@.len() as int) == old(self).outbox@,
            is_getheaders_for(final(self).outbox@.last(), old(self).network, chain@),
            final(self).id == old(self).id,
            final(self).addr == old(self).addr,
            final(self).network == old(self).network,
            final(self).version == old(self).version,
    {
        let locator_hashes = chain.get_locator();
        let getheaders = GetHeadersMessage {
            version: PROTOCOL_VERSION,
            locator_hashes,
            stop_hash: BlockHash::zero(),
        };
        self.start_send(NetworkMessage::GetHeaders(getheaders));
        proof {
            assert(self.outbox@.subrange(0, old(self).outbox@.len() as int) =~= old(self).outbox@);
        }
    }
}

/// Relies on `std::time::SystemTime::now`: seconds since the Unix epoch by
/// the system clock; nothing can be promised of the value.
#[verifier::external_body]
fn unix_time_now() -> i64 {
    match SystemTime::now().duration_since(UNIX_EPOCH) {
        Ok(d) => d.as_secs() as i64,
        Err(_) => 0,
    }
}

/// Relies on `rand::random`: a randomly drawn value; nothing is promised
/// of it.  Seeding the thread's generator can abort the process if the
/// operating system's entropy source fails — an environmental failure, not
/// one any input could avoid.
#[verifier::external_body]
fn random_nonce() -> u64 {
    rand::random::<u64>()
}

/// The user agent this client announces.
pub open spec fn user_agent_spec() -> Seq<char> {
    "/tapyrus-spv:0.1.0/"@
}

fn user_agent() -> (r: String)
    ensures
        r@ == user_agent_spec(),
{
    String::from_str("/tapyrus-spv:0.1.0/")
}

/// Builds the `version` message the handshake opens with: a fresh
/// timestamp, a random nonce, no services, blank addresses, start height 0
/// and this client's user agent.
pub fn version_message() -> (r: VersionMessage)
    ensures
        r.version == PROTOCOL_VERSION,
        r.services == 0,
        r.receiver.services == 0 && r.receiver.port == 0,
        r.receiver.ip@ == Seq::new(8, |i: int| 0u16),
        r.sender.services == 0 && r.sender.port == 0,
        r.sender.ip@ == Seq::new(8, |i: int| 0u16),
        r.user_agent@ == user_agent_spec(),
        r.start_height == 0,
{
    VersionMessage {
        version: PROTOCOL_VERSION,
        services: 0,
        timestamp: unix_time_now(),
        receiver: NetAddress::blank(),
        sender: NetAddress::blank(),
        nonce: random_nonce(),
        user_agent: user_agent(),
        start_height: 0,
    }
}

} // verus!
