//! The header download driver.
//!
//! The driver issues `getheaders`, consumes `headers` batches, feeds each
//! header into the chain, and completes when a batch is strictly shorter
//! than the protocol cap — the sign the peer reached its tip.  The
//! transport runs the turns: it feeds each turn's received payloads to
//! [`BlockHeaderDownload::poll`] and writes out what the peer's outbox
//! holds.

use vstd::prelude::*;

use crate::block::BlockHeader;
use crate::chain::{connect_all, Chain};
use crate::network::message::NetworkMessage;
use crate::network::peer::{is_getheaders_for, is_getheaders_frame, Peer};
use crate::network::Error;
use crate::store::{ChainStore, StoreModel};

verus! {

/// The maximum number of block headers in a single `headers` message.
pub const MAX_HEADERS_RESULTS: usize = 2000;

/// What draining one turn's payloads does: non-`headers` payloads are
/// ignored; a `headers` batch over the cap fails with `MaliciousPeer`;
/// otherwise the batch is admitted into the chain, and once any batch of
/// the turn falls short of the cap the turn is marked final.
pub open spec fn drain(
    s: StoreModel,
    msgs: Seq<NetworkMessage>,
    max: int,
    peer_id: u64,
    done: bool,
) -> Result<(StoreModel, bool), Error>
    decreases msgs.len(),
{
    if msgs.len() == 0 {
        Ok((s, done))
    } else {
        match msgs[0] {
            NetworkMessage::Headers(hs) => {
                if hs@.len() > max {
                    Err(Error::MaliciousPeer(peer_id))
                } else {
                    drain(
                        connect_all(s, hs@),
                        msgs.drop_first(),
                        max,
                        peer_id,
                        done || hs@.len() < max,
                    )
                }
            },
            _ => drain(s, msgs.drop_first(), max, peer_id, done),
        }
    }
}

/// Processes one received `headers` batch.
///
/// A batch over the cap fails with `MaliciousPeer` and changes nothing.
/// Otherwise every header is admitted in order — individual failures such
/// as an orphan do not abort the batch — and, unless the batch was final
/// (shorter than the cap), a fresh `getheaders` for the post-batch chain is
/// queued.  Returns whether all headers are downloaded.
pub fn process_headers<T: ChainStore>(
    peer: &mut Peer,
    chain_active: &mut Chain<T>,
    headers: &Vec<BlockHeader>,
    max_headers_results: usize,
) -> (r: Result<bool, Error>)
    requires
        old(chain_active).wf(),
    ensures
        final(chain_active).wf(),
        final(chain_active)@.heights.len() >= old(chain_active)@.heights.len(),
        headers@.len() > max_headers_results ==> r == Err::<bool, Error>(
            Error::MaliciousPeer(old(peer).id),
        ) && final(chain_active)@ == old(chain_active)@ && *final(peer) == *old(peer),
        headers@.len() <= max_headers_results ==> {
            &&& r == Ok::<bool, Error>(headers@.len() < max_headers_results)
            &&& final(chain_active)@ == connect_all(old(chain_active)@, headers@)
            &&& final(peer).id == old(peer).id
            &&& final(peer).addr == old(peer).addr
            &&& final(peer).network == old(peer).network
            &&& final(peer).version == old(peer).version
            &&& (headers@.len() < max_headers_results ==> *final(peer) == *old(peer))
            &&& (headers@.len() == max_headers_results ==> final(peer).outbox@.len() == old(
                peer,
            ).outbox@.len() + 1 && final(peer).outbox@.subrange(
                0,
                old(peer).outbox@.len() as int,
            ) == old(peer).outbox@ && is_getheaders_for(
                final(peer).outbox@.last(),
                old(peer).network,
                final(chain_active)@,
            ))
        },
{
    if headers.len() > max_headers_results {
        return Err(Error::MaliciousPeer(peer.id));
    }
    let all_headers_downloaded = headers.len() < max_headers_results;
    let ghost s0 = chain_active@;
    proof {
        assert(headers@.skip(0) =~= headers@);
    }
    let mut idx: usize = 0;
    while idx < headers.len()
        invariant
            0 <= idx <= headers@.len(),
            chain_active.wf(),
            connect_all(s0, headers@) == connect_all(chain_active@, headers@.skip(idx as int)),
        decreases headers@.len() - idx,
    {
        proof {
            assert(headers@.skip(idx as int).drop_first() =~= headers@.skip(idx + 1));
            assert(headers@.skip(idx as int)[0] == headers@[idx as int]);
        }
        let _ = chain_active.connect_block_header(headers[idx]);
        idx += 1;
    }
    proof {
        assert(headers@.skip(headers@.len() as int) =~= Seq::<BlockHeader>::empty());
        crate::chain::lemma_connect_all_extends_heights(s0, headers@);
    }
    if !all_headers_downloaded {
        peer.send_getheaders(chain_active);
    }
    Ok(all_headers_downloaded)
}

/// The peer a finished `poll` left: yielded on completion, retained by the
/// driver otherwise.
pub open spec fn poll_peer(r: Result<Option<Peer>, Error>, d: BlockHeaderDownload) -> Peer {
    match r {
        Ok(Some(p)) => p,
        _ => d.peer.unwrap(),
    }
}

/// The download driver: one peer, the shared chain, and the cap.
pub struct BlockHeaderDownload {
    /// The peer, present until the download completes.
    pub peer: Option<Peer>,
    /// Whether the opening `getheaders` went out.
    pub started: bool,
    /// Protocol cap on one `headers` batch.
    pub max_headers_results: usize,
}

impl BlockHeaderDownload {
    /// A driver over a handshaked peer, with the protocol's default cap.
    pub fn new(peer: Peer) -> (r: BlockHeaderDownload)
        ensures
            r.peer matches Some(p) && p == peer,
            !r.started,
            r.max_headers_results == MAX_HEADERS_RESULTS,
    {
        BlockHeaderDownload { peer: Some(peer), started: false, max_headers_results: MAX_HEADERS_RESULTS }
    }

    /// One scheduler turn.  On the first turn the opening `getheaders` is
    /// queued.  Every payload received this turn is processed in order:
    /// `headers` batches through [`process_headers`], anything else ignored.
    /// Once any batch of the turn was final, completion stays marked and
    /// the peer is yielded at the turn's end; on a protocol violation the
    /// turn fails; otherwise the driver waits for the next turn.  The
    /// active chain never gets shorter, whatever the turn brings.
    pub fn poll<T: ChainStore>(
        &mut self,
        chain_active: &mut Chain<T>,
        inbox: &Vec<NetworkMessage>,
    ) -> (r: Result<Option<Peer>, Error>)
        requires
            old(chain_active).wf(),
            old(self).peer is Some,
        ensures
            final(chain_active).wf(),
            final(chain_active)@.heights.len() >= old(chain_active)@.heights.len(),
            final(self).started,
            final(self).max_headers_results == old(self).max_headers_results,
            ({
                let p2 = poll_peer(r, *final(self));
                let base = old(self).peer.unwrap().outbox@;
                &&& p2.id == old(self).peer.unwrap().id
                &&& p2.addr == old(self).peer.unwrap().addr
                &&& p2.network == old(self).peer.unwrap().network
                &&& p2.version == old(self).peer.unwrap().version
                &&& p2.outbox@.len() >= base.len()
                &&& p2.outbox@.subrange(0, base.len() as int) == base
                &&& forall|j: int|
                    base.len() <= j < p2.outbox@.len() ==> is_getheaders_frame(
                        #[trigger] p2.outbox@[j],
                        old(self).peer.unwrap().network,
                    )
                &&& (!old(self).started ==> p2.outbox@.len() > base.len() && is_getheaders_for(
                    p2.outbox@[base.len() as int],
                    old(self).peer.unwrap().network,
                    old(chain_active)@,
                ))
            }),
            ({
                let d = drain(
                    old(chain_active)@,
                    inbox@,
                    old(self).max_headers_results as int,
                    old(self).peer.unwrap().id,
                    false,
                );
                match d {
                    Ok((s2, done)) => {
                        &&& final(chain_active)@ == s2
                        &&& (done ==> (match r {
                            Ok(Some(p)) => p.id == old(self).peer.unwrap().id && p.network == old(
                                self,
                            ).peer.unwrap().network && final(self).peer is None,
                            _ => false,
                        }))
                        &&& (!done ==> r == Ok::<Option<Peer>, Error>(None) && (
                        match final(self).peer {
                            Some(p) => p.id == old(self).peer.unwrap().id && p.network == old(
                                self,
                            ).peer.unwrap().network,
                            None => false,
                        }))
                    },
                    Err(e) => r == Err::<Option<Peer>, Error>(e),
                }
            }),
    {
        let ghost s0 = chain_active@;
        let ghost pid = self.peer.unwrap().id;
        let ghost addr0 = self.peer.unwrap().addr;
        let ghost net0 = self.peer.unwrap().network;
        let ghost ver0 = self.peer.unwrap().version;
        let max = self.max_headers_results;
        let mut p = match self.peer.take() {
            Some(p) => p,
            None => {
                proof {
                    assert(false);
                }
                Peer::new(0, String::from_str(""), crate::network::message::Network::Regtest)
            },
        };
        if !self.started {
            p.send_getheaders(chain_active);
            self.started = true;
        }
        let mut done = false;
        proof {
            assert(inbox@.skip(0) =~= inbox@);
            let base = old(self).peer.unwrap().outbox@;
            assert(p.outbox@.subrange(0, base.len() as int) =~= base);
            assert forall|j: int|
                base.len() <= j < p.outbox@.len() implies is_getheaders_frame(
                #[trigger] p.outbox@[j],
                net0,
            ) by {
                assert(p.outbox@[j] == p.outbox@.last());
            }
        }
        let mut idx: usize = 0;
        while idx < inbox.len()
            invariant
                0 <= idx <= inbox@.len(),
                chain_active.wf(),
                chain_active@.heights.len() >= s0.heights.len(),
                p.id == pid,
                p.addr == addr0,
                p.network == net0,
                p.version == ver0,
                self.started,
                self.max_headers_results == max,
                self.peer is None,
                max == old(self).max_headers_results,
                s0 == old(chain_active)@,
                pid == old(self).peer.unwrap().id,
                addr0 == old(self).peer.unwrap().addr,
                net0 == old(self).peer.unwrap().network,
                ver0 == old(self).peer.unwrap().version,
                p.outbox@.len() >= old(self).peer.unwrap().outbox@.len(),
                p.outbox@.subrange(0, old(self).peer.unwrap().outbox@.len() as int) == old(
                    self,
                ).peer.unwrap().outbox@,
                forall|j: int|
                    old(self).peer.unwrap().outbox@.len() <= j < p.outbox@.len()
                        ==> is_getheaders_frame(#[trigger] p.outbox@[j], net0),
                !old(self).started ==> p.outbox@.len() > old(self).peer.unwrap().outbox@.len()
                    && is_getheaders_for(
                    p.outbox@[old(self).peer.unwrap().outbox@.len() as int],
                    net0,
                    s0,
                ),
                drain(s0, inbox@, max as int, pid, false) == drain(
                    chain_active@,
                    inbox@.skip(idx as int),
                    max as int,
                    pid,
                    done,
                ),
            decreases inbox@.len() - idx,
        {
            proof {
                assert(inbox@.skip(idx as int).drop_first() =~= inbox@.skip(idx + 1));
                assert(inbox@.skip(idx as int)[0] == inbox@[idx as int]);
            }
            match &inbox[idx] {
                NetworkMessage::Headers(hs) => {
                    let ghost p_before = p;
                    match process_headers(&mut p, chain_active, hs, max) {
                        Ok(f) => {
                            proof {
                                let base = old(self).peer.unwrap().outbox@;
                                assert(p.outbox@.subrange(0, base.len() as int) =~= base);
                                assert forall|j: int|
                                    base.len() <= j < p.outbox@.len() implies is_getheaders_frame(
                                    #[trigger] p.outbox@[j],
                                    net0,
                                ) by {
                                    if j < p_before.outbox@.len() {
                                        assert(p.outbox@.subrange(
                                            0,
                                            p_before.outbox@.len() as int,
                                        )[j] == p_before.outbox@[j]);
                                    } else {
                                        assert(p.outbox@[j] == p.outbox@.last());
                                    }
                                }
                                if !old(self).started {
                                    let bl = old(self).peer.unwrap().outbox@.len() as int;
                                    assert(p.outbox@.subrange(
                                        0,
                                        p_before.outbox@.len() as int,
                                    )[bl] == p_before.outbox@[bl]);
                                }
                            }
                            done = done || f;
                        },
                        Err(e) => {
                            self.peer = Some(p);
                            return Err(e);
                        },
                    }
                },
                _ => {},
            }
            idx += 1;
        }
        proof {
            assert(inbox@.skip(inbox@.len() as int) =~= Seq::<NetworkMessage>::empty());
        }
        if done {
            Ok(Some(p))
        } else {
            self.peer = Some(p);
            Ok(None)
        }
    }
}

} // verus!
