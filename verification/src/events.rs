//! The messages of a follow subscription.
//!
//! Three things in a message are of no concern to pinning, and are carried through untouched:
//! `R` describes the runtime of a block, `D` holds the details of an operation, and a hash that
//! stands in a message may be of any type, a [`BlockRef`](crate::BlockRef) among them.

use vstd::prelude::*;

verus! {

/// A message of the follow stream: the subscription was opened, or it reported an event.
#[derive(Debug, PartialEq, Eq)]
pub enum FollowStreamMsg<Hash, R, D> {
    /// The stream is ready, under this subscription ID.
    Ready(String),
    /// The subscription reported an event.
    Event(FollowEvent<Hash, R, D>),
}

/// An event that a follow subscription reports.
#[derive(Debug, PartialEq, Eq)]
pub enum FollowEvent<Hash, R, D> {
    /// The first event: the latest finalized block.
    Initialized(Initialized<Hash, R>),
    /// A block was added to the chain.
    NewBlock(NewBlock<Hash, R>),
    /// Another block is the best one now.
    BestBlockChanged(BestBlockChanged<Hash>),
    /// Blocks were finalized, and others pruned.
    Finalized(Finalized<Hash>),
    /// The body of a block was fetched.
    OperationBodyDone(D),
    /// A runtime call was made.
    OperationCallDone(D),
    /// Some items of storage were fetched.
    OperationStorageItems(D),
    /// An operation waits to be told to go on.
    OperationWaitingForContinue(D),
    /// All items of storage were fetched.
    OperationStorageDone(D),
    /// What an operation asked for cannot be reached.
    OperationInaccessible(D),
    /// An operation failed.
    OperationError(D),
    /// The subscription has ended.
    Stop,
}

/// The latest finalized block, as a subscription starts.
#[derive(Debug, PartialEq, Eq)]
pub struct Initialized<Hash, R> {
    /// The hash of the latest finalized block.
    pub finalized_block_hash: Hash,
    /// The runtime of that block, where it was asked for.
    pub finalized_block_runtime: Option<R>,
}

/// A block that was added to the chain.
#[derive(Debug, PartialEq, Eq)]
pub struct NewBlock<Hash, R> {
    /// The hash of the new block.
    pub block_hash: Hash,
    /// The hash of the block that it builds on.
    pub parent_block_hash: Hash,
    /// The runtime of the new block, where it differs from its parent's.
    pub new_runtime: Option<R>,
}

/// The block that is the best one now.
#[derive(Debug, PartialEq, Eq)]
pub struct BestBlockChanged<Hash> {
    /// The hash of the best block.
    pub best_block_hash: Hash,
}

/// Blocks that were finalized, oldest first, and blocks that were pruned with that.
#[derive(Debug, PartialEq, Eq)]
pub struct Finalized<Hash> {
    /// The hashes of the finalized blocks.
    pub finalized_block_hashes: Vec<Hash>,
    /// The hashes of the pruned blocks.
    pub pruned_block_hashes: Vec<Hash>,
}

} // verus!
