//! The version-exchange state machine that elevates a raw peer to a
//! handshaked peer.
//!
//! The transport runs the loop: it calls [`Handshake::start`] once, feeds
//! every received payload to [`Handshake::on_message`], and stops when the
//! exchange is done.  A stream that ends earlier means
//! [`Error::UnexpectedEof`], as [`Handshake::eof_error`] says.

use vstd::prelude::*;

use crate::network::message::{magic_spec, Network, NetworkMessage, RawNetworkMessage};
use crate::network::peer::{user_agent_spec, version_message, Peer};
use crate::network::Error;
use crate::network::message::PROTOCOL_VERSION;

verus! {

/// Where the exchange stands.
#[derive(Clone, Copy, Debug, PartialEq, Eq, Structural)]
pub enum HandshakeState {
    /// Nothing sent yet.
    Init,
    /// Our `version` is queued; the remote's is awaited.
    AwaitVersion,
    /// The remote's `version` arrived and our `verack` is queued; the
    /// remote's `verack` is awaited.
    AwaitVerack,
    /// The exchange completed.
    Done,
}

/// This client's opening `version` frame.
pub open spec fn is_version_frame(raw: RawNetworkMessage, network: Network) -> bool {
    &&& raw.magic == magic_spec(network)
    &&& raw.payload matches NetworkMessage::Version(v) && {
        &&& v.version == PROTOCOL_VERSION
        &&& v.services == 0
        &&& v.start_height == 0
        &&& v.user_agent@ == user_agent_spec()
    }
}

/// A `verack` frame for `network`.
pub open spec fn is_verack_frame(raw: RawNetworkMessage, network: Network) -> bool {
    raw.magic == magic_spec(network) && raw.payload is Verack
}

/// The version exchange over one peer.
pub struct Handshake {
    /// The peer being elevated.
    pub peer: Peer,
    /// Where the exchange stands.
    pub state: HandshakeState,
}

impl Handshake {
    /// Wraps a freshly connected peer; `start` opens the exchange.
    pub fn new(peer: Peer) -> (r: Handshake)
        ensures
            r.peer == peer,
            r.state is Init,
    {
        Handshake { peer, state: HandshakeState::Init }
    }

    /// Opens the exchange: queues this client's `version` message.
    pub fn start(&mut self)
        requires
            old(self).state is Init,
        ensures
            final(self).state is AwaitVersion,
            final(self).peer.id == old(self).peer.id,
            final(self).peer.addr == old(self).peer.addr,
            final(self).peer.network == old(self).peer.network,
            final(self).peer.version == old(self).peer.version,
            final(self).peer.outbox@.len() == old(self).peer.outbox@.len() + 1,
            final(self).peer.outbox@.subrange(0, old(self).peer.outbox@.len() as int) == old(
                self,
            ).peer.outbox@,
            is_version_frame(final(self).peer.outbox@.last(), old(self).peer.network),
    {
        let msg = version_message();
        self.peer.start_send(NetworkMessage::Version(msg));
        self.state = HandshakeState::AwaitVersion;
        proof {
            assert(self.peer.outbox@.subrange(0, old(self).peer.outbox@.len() as int)
                =~= old(self).peer.outbox@);
        }
    }

    /// Feeds one received payload to the state machine.  Awaiting `version`:
    /// a `version` is cached on the peer and answered with `verack`; anything
    /// else is drained.  Awaiting `verack`: a `verack` completes the
    /// exchange; anything else is drained.  Returns whether the exchange is
    /// now done.
    pub fn on_message(&mut self, msg: NetworkMessage) -> (done: bool)
        requires
            old(self).state is AwaitVersion || old(self).state is AwaitVerack,
        ensures
            done == (final(self).state is Done),
            final(self).peer.id == old(self).peer.id,
            final(self).peer.addr == old(self).peer.addr,
            final(self).peer.network == old(self).peer.network,
            ({
                if old(self).state is AwaitVersion {
                    match msg {
                        NetworkMessage::Version(v) => {
                            &&& final(self).state is AwaitVerack
                            &&& final(self).peer.version == Some(v)
                            &&& final(self).peer.outbox@.len() == old(self).peer.outbox@.len() + 1
                            &&& final(self).peer.outbox@.subrange(
                                0,
                                old(self).peer.outbox@.len() as int,
                            ) == old(self).peer.outbox@
                            &&& is_verack_frame(
                                final(self).peer.outbox@.last(),
                                old(self).peer.network,
                            )
                        },
                        _ => *final(self) == *old(self),
                    }
                } else {
                    if msg is Verack {
                        final(self).state is Done && final(self).peer == old(self).peer
                    } else {
                        *final(self) == *old(self)
                    }
                }
            }),
    {
        match self.state {
            HandshakeState::AwaitVersion => {
                match msg {
                    NetworkMessage::Version(v) => {
                        self.peer.version = Some(v);
                        self.peer.start_send(NetworkMessage::Verack);
                        self.state = HandshakeState::AwaitVerack;
                        proof {
                            assert(self.peer.outbox@.subrange(
                                0,
                                old(self).peer.outbox@.len() as int,
                            ) =~= old(self).peer.outbox@);
                        }
                        false
                    },
                    _ => false,
                }
            },
            _ => {
                match msg {
                    NetworkMessage::Verack => {
                        self.state = HandshakeState::Done;
                        true
                    },
                    _ => false,
                }
            },
        }
    }

    /// Whether the exchange has completed.
    pub fn is_done(&self) -> (r: bool)
        ensures
            r == (self.state is Done),
    {
        match self.state {
            HandshakeState::Done => true,
            _ => false,
        }
    }

    /// What a stream end means here: nothing once done, `UnexpectedEof`
    /// before.
    pub fn eof_error(&self) -> (r: Option<Error>)
        ensures
            self.state is Done ==> r is None,
            !(self.state is Done) ==> r == Some(Error::UnexpectedEof),
    {
        match self.state {
            HandshakeState::Done => None,
            _ => Some(Error::UnexpectedEof),
        }
    }

    /// Yields the handshaked peer.
    pub fn into_peer(self) -> (r: Peer)
        ensures
            r == self.peer,
    {
        self.peer
    }
}

} // verus!
