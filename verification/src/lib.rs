//! Core of a Simplified Payment Verification (SPV) client for a
//! Bitcoin-derived proof-of-work chain.
//!
//! The crate tracks the best header chain of a network: headers are admitted
//! one by one into a persistent-capable store, the active chain is selected by
//! height with a first-seen tie-break, and a `getheaders`/`headers` download
//! driver keeps the chain in sync with a single remote peer.  Transport
//! framing, the hash primitive and genesis constants are external
//! collaborators; everything that decides or computes here is verified.

use vstd::prelude::*;

pub mod block;
pub mod chain;
pub mod network;
pub mod store;

use crate::chain::Chain;
use crate::store::ChainStore;

verus! {

/// Owner of the active header chain.  A process wraps one `ChainState` in a
/// shared, mutex-guarded handle; mutation is serialized by that mutex.
pub struct ChainState<T: ChainStore> {
    /// The single active chain this process mutates.
    pub chain_active: Chain<T>,
}

impl<T: ChainStore> ChainState<T> {
    /// Creates a `ChainState` owning the given chain.
    pub fn new(chain_active: Chain<T>) -> (r: ChainState<T>)
        ensures
            r.chain_active == chain_active,
    {
        ChainState { chain_active }
    }

    /// Borrows the active chain.
    pub fn borrow_chain_active(&self) -> (r: &Chain<T>)
        ensures
            *r == self.chain_active,
    {
        &self.chain_active
    }

    /// Mutably borrows the active chain.
    pub fn borrow_mut_chain_active(&mut self) -> (r: &mut Chain<T>)
        ensures
            *r == old(self).chain_active,
            final(self).chain_active == *final(r),
    {
        &mut self.chain_active
    }
}

} // verus!
