//! What polling the stream takes in, and what it asks for.

use crate::block_ref::BlockRef;
use crate::events::{FollowEvent, FollowStreamMsg};
use crate::model::PinState;
use vstd::prelude::*;

verus! {

/// A request to unpin a block under a subscription.
#[derive(Debug, PartialEq, Eq)]
pub struct UnpinRequest<Hash> {
    /// The hash of the block.
    pub hash: Hash,
    /// The subscription that the block is pinned under.
    pub subscription_id: String,
}

/// The hashes of the blocks that the requests are about.
pub open spec fn request_hashes<Hash>(requests: Seq<UnpinRequest<Hash>>) -> Seq<Hash> {
    requests.map_values(|q: UnpinRequest<Hash>| q.hash)
}

/// Is there one request for each of the blocks, under the given subscription, and no other? They
/// come in any order.
pub open spec fn requests_for<Hash>(
    requests: Seq<UnpinRequest<Hash>>,
    blocks: Set<Hash>,
    subscription_id: Option<Seq<char>>,
) -> bool {
    &&& request_hashes(requests).no_duplicates()
    &&& request_hashes(requests).to_set() == blocks
    &&& forall|i: int|
        0 <= i < requests.len() ==> Some((#[trigger] requests[i]).subscription_id@)
            == subscription_id
}

/// What follows from a message.
#[derive(Debug)]
pub struct Reaction<Hash, R, D> {
    /// The message, with a reference to the block in the place of each hash.
    pub msg: FollowStreamMsg<BlockRef<Hash>, R, D>,
    /// Are the unpin requests that are still under way to be given up?
    pub cancel_unpins: bool,
    /// The unpin requests to make now.
    pub unpins: Vec<UnpinRequest<Hash>>,
    /// Is the task to be woken, so that the requests are polled soon?
    pub wake: bool,
}

/// Is `r` what follows from the message when it comes in the state `s`? Each hash is replaced by the
/// reference to its block, unpin requests are made for the blocks that are unpinned, the task is
/// woken if there are any, and those under way are given up if the subscription ends.
pub open spec fn is_reaction<Hash, R, D>(
    s: PinState<Hash>,
    msg: FollowStreamMsg<Hash, R, D>,
    r: Reaction<Hash, R, D>,
) -> bool {
    &&& s.pinned_for(msg).hands_back(msg, r.msg)
    &&& requests_for(r.unpins@, s.unpinned_by(msg), s.subscription_id)
    &&& r.wake == (r.unpins@.len() > 0)
    &&& r.cancel_unpins == (msg matches FollowStreamMsg::Event(FollowEvent::Stop))
}

/// The unpin requests that are under way after the reaction, when `queue` were before it and none
/// has been completed.
pub open spec fn under_way<Hash, R, D>(
    queue: Seq<UnpinRequest<Hash>>,
    r: Reaction<Hash, R, D>,
) -> Seq<UnpinRequest<Hash>> {
    if r.cancel_unpins {
        r.unpins@
    } else {
        queue + r.unpins@
    }
}

/// What has happened since the last [`PollAction`].
#[derive(Debug)]
pub enum PollEvent<Hash, R, D, E> {
    /// The stream is polled.
    Start,
    /// Polling the unpin requests that are under way, one was found to be completed.
    UnpinCompleted,
    /// Polling the unpin requests that are under way, none was found to be completed, or there
    /// are none.
    UnpinsIdle,
    /// Polling the inner stream, no message was there yet.
    InnerPending,
    /// Polling the inner stream, it was found to be done.
    InnerDone,
    /// Polling the inner stream, a message or an error was there.
    InnerItem(Result<FollowStreamMsg<Hash, R, D>, E>),
}

/// What to do next when the stream is polled.
#[derive(Debug)]
pub enum PollAction<Hash, R, D, E> {
    /// Poll the unpin requests that are under way.
    PollUnpins,
    /// Poll the inner stream.
    PollInner,
    /// Return that nothing is there yet.
    ReturnPending,
    /// Return that the stream is done.
    ReturnDone,
    /// Return the error, or see to what follows from the message and return it.
    ReturnItem(Result<Reaction<Hash, R, D>, E>),
}

} // verus!
