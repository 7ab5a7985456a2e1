//! What each operation comes to, said of what goes in and of what comes out.
//!
//! Most of the laws here are about the executable functions themselves: they hold of every call,
//! whatever it returns.

use crate::block_ref;
use crate::block_ref::{BlockHash, BlockRef, RefView};
use crate::events::{
    BestBlockChanged, Finalized, FollowEvent, FollowStreamMsg, Initialized, NewBlock,
};
use crate::follow_stream_unpin::FollowStreamUnpin;
use crate::laws;
use crate::model;
use crate::model::PinState;
use crate::poll;
use crate::poll::{PollAction, PollEvent, Reaction, UnpinRequest};
use vstd::prelude::*;
use vstd::std_specs::cmp::PartialEqSpec;

verus! {

/// A call took the message, and `r` came of it.
pub open spec fn takes<Hash: BlockHash, R, D, E>(
    s: &mut FollowStreamUnpin<Hash>,
    msg: FollowStreamMsg<Hash, R, D>,
    r: Reaction<Hash, R, D>,
) -> bool {
    ||| call_ensures(FollowStreamUnpin::<Hash>::react::<R, D>, (s, msg), r)
    ||| call_ensures(
        FollowStreamUnpin::<Hash>::poll_next::<R, D, E>,
        (s, PollEvent::InnerItem(Ok(msg))),
        PollAction::ReturnItem(Ok(r)),
    )
}

/// There is a request to unpin the block `h`.
pub open spec fn requested<Hash>(requests: Seq<UnpinRequest<Hash>>, h: Hash) -> bool {
    exists|i: int| 0 <= i < requests.len() && (#[trigger] requests[i]).hash == h
}

// Blocks being finalized.

/// When blocks are finalized under a subscription, a pinned block is unpinned, with a request, just
/// if it lies `max_block_life` or more behind the last of them, or if it is flagged, is not newer
/// than the last of them and is not reported along with them. It keeps its number otherwise.
/// Without a subscription it stays.
pub proof fn law_finalized_pinned_block<Hash: BlockHash, R, D, E>(
    s: &mut FollowStreamUnpin<Hash>,
    d: Finalized<Hash>,
    r: Reaction<Hash, R, D>,
    h: Hash,
)
    requires
        old(s).wf(),
        takes::<Hash, R, D, E>(s, FollowStreamMsg::Event(FollowEvent::Finalized(d)), r),
        old(s)@.pinned.contains_key(h),
    ensures
        ({
            let last = old(s)@.rel_block_num + d.finalized_block_hashes@.len();
            let num = old(s)@.pinned[h].rel_block_num;
            let reported = d.finalized_block_hashes@.contains(h) || d.pruned_block_hashes@.contains(
                h,
            );
            let gone = old(s)@.subscription_id is Some && (last - num >= old(s)@.max_block_life
                || old(s)@.max_block_life == 0 || (old(s)@.flags.contains(h) && !reported && num
                <= last));
            &&& final(s)@.pinned.contains_key(h) <==> !gone
            &&& requested(r.unpins@, h) <==> gone
            &&& !gone ==> final(s)@.pinned[h] == old(s)@.pinned[h]
        }),
{
    old(s)@.lemma_finalized_pinned::<R, D>(d, h);
    lemma_requested(
        old(s)@,
        FollowStreamMsg::<Hash, R, D>::Event(FollowEvent::Finalized(d)),
        r,
        h,
    );
}

/// A finalized block that is not pinned yet is numbered by its place in the list, counting on from
/// the last block finalized before. It stays pinned under that number, unless it lies
/// `max_block_life` or more behind the last block of the list.
pub proof fn law_finalized_new_block<Hash: BlockHash, R, D, E>(
    s: &mut FollowStreamUnpin<Hash>,
    d: Finalized<Hash>,
    r: Reaction<Hash, R, D>,
    k: int,
)
    requires
        old(s).wf(),
        takes::<Hash, R, D, E>(s, FollowStreamMsg::Event(FollowEvent::Finalized(d)), r),
        0 <= k < d.finalized_block_hashes@.len(),
        !old(s)@.pinned.contains_key(d.finalized_block_hashes@[k]),
        !d.finalized_block_hashes@.take(k).contains(d.finalized_block_hashes@[k]),
    ensures
        ({
            let h = d.finalized_block_hashes@[k];
            let gone = old(s)@.subscription_id is Some && (d.finalized_block_hashes@.len() - (k + 1)
                >= old(s)@.max_block_life || old(s)@.max_block_life == 0);
            &&& final(s)@.pinned.contains_key(h) <==> !gone
            &&& requested(r.unpins@, h) <==> gone
            &&& !gone ==> final(s)@.pinned[h].rel_block_num == old(s)@.rel_block_num + k + 1
        }),
{
    let h = d.finalized_block_hashes@[k];
    let msg = FollowStreamMsg::<Hash, R, D>::Event(FollowEvent::Finalized(d));
    assert(model::msg_hashes(msg)[k] == h);
    assert forall|j: int| 0 <= j < k implies (#[trigger] model::msg_hashes(msg)[j]) != h by {
        assert(d.finalized_block_hashes@.take(k)[j] == model::msg_hashes(msg)[j]);
    }
    old(s)@.lemma_finalized_new::<R, D>(d, k);
    lemma_requested(old(s)@, msg, r, h);
}

/// A pruned block that is not pinned yet, and not finalized with the same message, is numbered one
/// more than the last finalized block. It stays pinned under that number, unless blocks do not live
/// at all.
pub proof fn law_pruned_new_block<Hash: BlockHash, R, D, E>(
    s: &mut FollowStreamUnpin<Hash>,
    d: Finalized<Hash>,
    r: Reaction<Hash, R, D>,
    k: int,
)
    requires
        old(s).wf(),
        takes::<Hash, R, D, E>(s, FollowStreamMsg::Event(FollowEvent::Finalized(d)), r),
        0 <= k < d.pruned_block_hashes@.len(),
        !old(s)@.pinned.contains_key(d.pruned_block_hashes@[k]),
        !d.finalized_block_hashes@.contains(d.pruned_block_hashes@[k]),
    ensures
        ({
            let h = d.pruned_block_hashes@[k];
            let gone = old(s)@.subscription_id is Some && old(s)@.max_block_life == 0;
            &&& final(s)@.pinned.contains_key(h) <==> !gone
            &&& requested(r.unpins@, h) <==> gone
            &&& !gone ==> final(s)@.pinned[h].rel_block_num == old(s)@.rel_block_num
                + d.finalized_block_hashes@.len() + 1
        }),
{
    let h = d.pruned_block_hashes@[k];
    let msg = FollowStreamMsg::<Hash, R, D>::Event(FollowEvent::Finalized(d));
    let n = d.finalized_block_hashes@.len();
    // The first place of the block among the pruned ones.
    let f = d.pruned_block_hashes@.index_of_first(h)->0;
    d.pruned_block_hashes@.index_of_first_ensures(h);
    assert(model::msg_hashes(msg)[n + f] == h);
    assert forall|j: int| 0 <= j < n + f implies (#[trigger] model::msg_hashes(msg)[j]) != h by {
        if j < n {
            assert(d.finalized_block_hashes@[j] == model::msg_hashes(msg)[j]);
        } else {
            assert(d.pruned_block_hashes@[j - n] == model::msg_hashes(msg)[j]);
        }
    }
    old(s)@.lemma_finalized_new::<R, D>(d, n + f);
    lemma_requested(old(s)@, msg, r, h);
}

/// When blocks are finalized, no block comes to be pinned or unpinned that was neither pinned before
/// nor reported.
pub proof fn law_finalized_other_block<Hash: BlockHash, R, D, E>(
    s: &mut FollowStreamUnpin<Hash>,
    d: Finalized<Hash>,
    r: Reaction<Hash, R, D>,
    h: Hash,
)
    requires
        old(s).wf(),
        takes::<Hash, R, D, E>(s, FollowStreamMsg::Event(FollowEvent::Finalized(d)), r),
        !old(s)@.pinned.contains_key(h),
        !d.finalized_block_hashes@.contains(h),
        !d.pruned_block_hashes@.contains(h),
    ensures
        !final(s)@.pinned.contains_key(h),
        !requested(r.unpins@, h),
{
    let msg = FollowStreamMsg::<Hash, R, D>::Event(FollowEvent::Finalized(d));
    lemma_finalized_names::<Hash, R, D>(d, h);
    laws::law_other_blocks_are_left_alone(old(s)@, msg, h);
    lemma_requested(old(s)@, msg, r, h);
}

/// When blocks are finalized, the number of the latest one grows by as many. A flag stays just if
/// there is a subscription, and its block stays pinned and is not reported. Nothing else about the
/// subscription changes.
pub proof fn law_finalized_rest<Hash: BlockHash, R, D, E>(
    s: &mut FollowStreamUnpin<Hash>,
    d: Finalized<Hash>,
    r: Reaction<Hash, R, D>,
    h: Hash,
)
    requires
        old(s).wf(),
        takes::<Hash, R, D, E>(s, FollowStreamMsg::Event(FollowEvent::Finalized(d)), r),
    ensures
        final(s)@.rel_block_num == old(s)@.rel_block_num + d.finalized_block_hashes@.len(),
        final(s)@.subscription_id == old(s)@.subscription_id,
        final(s)@.max_block_life == old(s)@.max_block_life,
        final(s)@.flags.contains(h) <==> old(s)@.flags.contains(h) && old(s)@.subscription_id is Some
            && final(s)@.pinned.contains_key(h) && !d.finalized_block_hashes@.contains(h)
            && !d.pruned_block_hashes@.contains(h),
{
    let msg = FollowStreamMsg::<Hash, R, D>::Event(FollowEvent::Finalized(d));
    old(s)@.lemma_pin_all(old(s)@.plan(msg));
    lemma_finalized_names::<Hash, R, D>(d, h);
    if laws::names(msg, h) {
        laws::law_reported_block_loses_its_flag(old(s)@, msg, h);
    } else {
        laws::law_other_blocks_are_left_alone(old(s)@, msg, h);
    }
}

/// The blocks that a message about finalized blocks refers to.
proof fn lemma_finalized_names<Hash, R, D>(d: Finalized<Hash>, h: Hash)
    ensures
        laws::names(FollowStreamMsg::<Hash, R, D>::Event(FollowEvent::Finalized(d)), h) <==> (
        d.finalized_block_hashes@.contains(h) || d.pruned_block_hashes@.contains(h)),
{
    vstd::seq_lib::lemma_seq_concat_contains_all_elements(
        d.finalized_block_hashes@,
        d.pruned_block_hashes@,
        h,
    );
}

/// The blocks that requests are made for.
proof fn lemma_requested<Hash, R, D>(
    a: PinState<Hash>,
    msg: FollowStreamMsg<Hash, R, D>,
    r: Reaction<Hash, R, D>,
    h: Hash,
)
    requires
        poll::is_reaction(a, msg, r),
    ensures
        requested(r.unpins@, h) <==> a.unpinned_by(msg).contains(h),
{
    let hashes = poll::request_hashes(r.unpins@);
    if requested(r.unpins@, h) {
        let i = choose|i: int| 0 <= i < r.unpins@.len() && (#[trigger] r.unpins@[i]).hash == h;
        assert(hashes[i] == h);
        assert(hashes.to_set().contains(h));
    }
    if a.unpinned_by(msg).contains(h) {
        assert(hashes.to_set().contains(h));
        let i = hashes.index_of(h);
        assert(r.unpins@[i].hash == h);
    }
}

impl<Hash> PinState<Hash> {
    /// What becomes of a pinned block when blocks are finalized.
    proof fn lemma_finalized_pinned<R, D>(self, d: Finalized<Hash>, h: Hash)
        requires
            self.wf(),
            self.pinned.contains_key(h),
        ensures
            ({
                let msg = FollowStreamMsg::<Hash, R, D>::Event(FollowEvent::Finalized(d));
                let last = self.rel_block_num + d.finalized_block_hashes@.len();
                let num = self.pinned[h].rel_block_num;
                let reported = d.finalized_block_hashes@.contains(h)
                    || d.pruned_block_hashes@.contains(h);
                let gone = self.subscription_id is Some && (last - num >= self.max_block_life
                    || self.max_block_life == 0 || (self.flags.contains(h) && !reported && num
                    <= last));
                &&& self.after(msg).pinned.contains_key(h) <==> !gone
                &&& self.unpinned_by(msg).contains(h) <==> gone
                &&& !gone ==> self.after(msg).pinned[h] == self.pinned[h]
            }),
    {
        let msg = FollowStreamMsg::<Hash, R, D>::Event(FollowEvent::Finalized(d));
        self.lemma_pin_all(self.plan(msg));
        assert(self.pinned_for(msg).pinned.contains_key(h));
        lemma_finalized_names::<Hash, R, D>(d, h);
        if laws::names(msg, h) {
            laws::law_reported_block_loses_its_flag(self, msg, h);
        } else {
            laws::law_other_blocks_are_left_alone(self, msg, h);
        }
    }

    /// What becomes of a block that is first referred to when blocks are finalized.
    proof fn lemma_finalized_new<R, D>(self, d: Finalized<Hash>, i: int)
        requires
            self.wf(),
            ({
                let hashes = d.finalized_block_hashes@ + d.pruned_block_hashes@;
                &&& 0 <= i < hashes.len()
                &&& !self.pinned.contains_key(hashes[i])
                &&& forall|j: int|
                    0 <= j < i ==> (#[trigger] model::msg_hashes(
                        FollowStreamMsg::<Hash, R, D>::Event(FollowEvent::Finalized(d)),
                    )[j]) != hashes[i]
            }),
        ensures
            ({
                let msg = FollowStreamMsg::<Hash, R, D>::Event(FollowEvent::Finalized(d));
                let h = (d.finalized_block_hashes@ + d.pruned_block_hashes@)[i];
                let last = self.rel_block_num + d.finalized_block_hashes@.len();
                let num = if i < d.finalized_block_hashes@.len() {
                    (self.rel_block_num + i + 1) as nat
                } else {
                    last + 1
                };
                let gone = self.subscription_id is Some && (last - num >= self.max_block_life
                    || self.max_block_life == 0);
                &&& self.after(msg).pinned.contains_key(h) <==> !gone
                &&& self.unpinned_by(msg).contains(h) <==> gone
                &&& !gone ==> self.after(msg).pinned[h].rel_block_num == num
            }),
    {
        let msg = FollowStreamMsg::<Hash, R, D>::Event(FollowEvent::Finalized(d));
        let h = model::msg_hashes(msg)[i];
        self.lemma_pin_all(self.plan(msg));
        laws::law_first_mention_numbers(self, msg, i);
        assert(laws::names(msg, h));
        laws::law_reported_block_loses_its_flag(self, msg, h);
    }
}

// What a message is made of, and what is handed back of it.

/// The blocks that a message refers to are those whose hashes stand in it, in the order of its
/// fields. A finalized block is one of them, and a pruned block too.
pub proof fn law_message_hashes<Hash, R, D>(msg: FollowStreamMsg<Hash, R, D>)
    ensures
        match msg {
            FollowStreamMsg::Event(FollowEvent::Initialized(d)) => {
                &&& model::msg_hashes(msg).len() == 1
                &&& model::msg_hashes(msg)[0] == d.finalized_block_hash
            },
            FollowStreamMsg::Event(FollowEvent::NewBlock(d)) => {
                &&& model::msg_hashes(msg).len() == 2
                &&& model::msg_hashes(msg)[0] == d.block_hash
                &&& model::msg_hashes(msg)[1] == d.parent_block_hash
            },
            FollowStreamMsg::Event(FollowEvent::BestBlockChanged(d)) => {
                &&& model::msg_hashes(msg).len() == 1
                &&& model::msg_hashes(msg)[0] == d.best_block_hash
            },
            FollowStreamMsg::Event(FollowEvent::Finalized(d)) => {
                let n = d.finalized_block_hashes@.len();
                &&& model::msg_hashes(msg).len() == n + d.pruned_block_hashes@.len()
                &&& forall|k: int|
                    0 <= k < n ==> model::msg_hashes(msg)[k] == #[trigger] d.finalized_block_hashes@[k]
                &&& forall|k: int|
                    0 <= k < d.pruned_block_hashes@.len() ==> model::msg_hashes(msg)[n + k]
                        == #[trigger] d.pruned_block_hashes@[k]
            },
            _ => model::msg_hashes(msg).len() == 0,
        },
{
}

/// The message is handed back as it came, with a reference in the place of each hash. The hash of
/// each reference is the one whose place it takes.
pub proof fn law_message_is_handed_back<Hash: BlockHash, R, D, E>(
    s: &mut FollowStreamUnpin<Hash>,
    msg: FollowStreamMsg<Hash, R, D>,
    r: Reaction<Hash, R, D>,
)
    requires
        old(s).wf(),
        takes::<Hash, R, D, E>(s, msg, r),
    ensures
        match msg {
            FollowStreamMsg::Ready(id) => r.msg == FollowStreamMsg::<BlockRef<Hash>, R, D>::Ready(id),
            FollowStreamMsg::Event(FollowEvent::Initialized(d)) => {
                &&& r.msg matches FollowStreamMsg::Event(FollowEvent::Initialized(o))
                &&& o.finalized_block_hash@.hash == d.finalized_block_hash
                &&& o.finalized_block_runtime == d.finalized_block_runtime
            },
            FollowStreamMsg::Event(FollowEvent::NewBlock(d)) => {
                &&& r.msg matches FollowStreamMsg::Event(FollowEvent::NewBlock(o))
                &&& o.block_hash@.hash == d.block_hash
                &&& o.parent_block_hash@.hash == d.parent_block_hash
                &&& o.new_runtime == d.new_runtime
            },
            FollowStreamMsg::Event(FollowEvent::BestBlockChanged(d)) => {
                &&& r.msg matches FollowStreamMsg::Event(FollowEvent::BestBlockChanged(o))
                &&& o.best_block_hash@.hash == d.best_block_hash
            },
            FollowStreamMsg::Event(FollowEvent::Finalized(d)) => {
                &&& r.msg matches FollowStreamMsg::Event(FollowEvent::Finalized(o))
                &&& o.finalized_block_hashes@.len() == d.finalized_block_hashes@.len()
                &&& forall|k: int|
                    0 <= k < d.finalized_block_hashes@.len() ==> (
                    #[trigger] o.finalized_block_hashes@[k])@.hash == d.finalized_block_hashes@[k]
                &&& o.pruned_block_hashes@.len() == d.pruned_block_hashes@.len()
                &&& forall|k: int|
                    0 <= k < d.pruned_block_hashes@.len() ==> (
                    #[trigger] o.pruned_block_hashes@[k])@.hash == d.pruned_block_hashes@[k]
            },
            FollowStreamMsg::Event(FollowEvent::OperationBodyDone(d)) => r.msg
                == FollowStreamMsg::<BlockRef<Hash>, R, D>::Event(FollowEvent::OperationBodyDone(d)),
            FollowStreamMsg::Event(FollowEvent::OperationCallDone(d)) => r.msg
                == FollowStreamMsg::<BlockRef<Hash>, R, D>::Event(FollowEvent::OperationCallDone(d)),
            FollowStreamMsg::Event(FollowEvent::OperationStorageItems(d)) => r.msg
                == FollowStreamMsg::<BlockRef<Hash>, R, D>::Event(
                FollowEvent::OperationStorageItems(d),
            ),
            FollowStreamMsg::Event(FollowEvent::OperationWaitingForContinue(d)) => r.msg
                == FollowStreamMsg::<BlockRef<Hash>, R, D>::Event(
                FollowEvent::OperationWaitingForContinue(d),
            ),
            FollowStreamMsg::Event(FollowEvent::OperationStorageDone(d)) => r.msg
                == FollowStreamMsg::<BlockRef<Hash>, R, D>::Event(
                FollowEvent::OperationStorageDone(d),
            ),
            FollowStreamMsg::Event(FollowEvent::OperationInaccessible(d)) => r.msg
                == FollowStreamMsg::<BlockRef<Hash>, R, D>::Event(
                FollowEvent::OperationInaccessible(d),
            ),
            FollowStreamMsg::Event(FollowEvent::OperationError(d)) => r.msg
                == FollowStreamMsg::<BlockRef<Hash>, R, D>::Event(FollowEvent::OperationError(d)),
            FollowStreamMsg::Event(FollowEvent::Stop) => r.msg == FollowStreamMsg::<
                BlockRef<Hash>,
                R,
                D,
            >::Event(FollowEvent::Stop),
        },
{
}

/// Read in the order of its fields, the message that is handed back refers to the blocks that the
/// message that came refers to: the hash of reference `k` is hash `k`. Each reference is counted,
/// and counts for its block.
pub proof fn law_handed_back_refs<Hash: BlockHash, R, D, E>(
    s: &mut FollowStreamUnpin<Hash>,
    msg: FollowStreamMsg<Hash, R, D>,
    r: Reaction<Hash, R, D>,
    k: int,
)
    requires
        old(s).wf(),
        takes::<Hash, R, D, E>(s, msg, r),
        0 <= k < model::msg_hashes(msg).len(),
    ensures
        model::msg_hashes(r.msg).len() == model::msg_hashes(msg).len(),
        ({
            let h = model::msg_hashes(msg)[k];
            let block_ref = model::msg_hashes(r.msg)[k]@;
            &&& block_ref.hash == h
            &&& block_ref.cell matches Some(c)
            &&& final(s)@.cells.contains_key(c)
            &&& final(s)@.cells[c].hash == h
            &&& old(s)@.pinned.contains_key(h) ==> c == old(s)@.pinned[h].cell
            &&& !old(s)@.pinned.contains_key(h) ==> c >= old(s)@.issued
            &&& final(s)@.pinned.contains_key(h) ==> c == final(s)@.pinned[h].cell
        }),
{
    let h = model::msg_hashes(msg)[k];
    let p = old(s)@.pinned_for(msg);
    lemma_handed_back(p, msg, r.msg, k);
    old(s)@.lemma_plan(msg);
    old(s)@.lemma_pin_all(old(s)@.plan(msg));
    assert(old(s)@.plan(msg)[k].1 == h);
    assert(p.pinned.contains_key(h));
    assert(laws::names(msg, h));
    laws::law_named_blocks_are_pinned(old(s)@, msg, h);
    old(s)@.lemma_pin_all_cell(old(s)@.plan(msg), model::msg_hashes(msg), p.pinned[h].cell);
}

/// Two references that are handed back with one message are equal, and count for the same block,
/// just if they are references to the same block.
pub proof fn law_handed_back_refs_agree<Hash: BlockHash, R, D, E>(
    s: &mut FollowStreamUnpin<Hash>,
    msg: FollowStreamMsg<Hash, R, D>,
    r: Reaction<Hash, R, D>,
    i: int,
    j: int,
)
    requires
        old(s).wf(),
        takes::<Hash, R, D, E>(s, msg, r),
        0 <= i < model::msg_hashes(msg).len(),
        0 <= j < model::msg_hashes(msg).len(),
    ensures
        ({
            let a = model::msg_hashes(r.msg)[i];
            let b = model::msg_hashes(r.msg)[j];
            let same = model::msg_hashes(msg)[i] == model::msg_hashes(msg)[j];
            &&& a.eq_spec(&b) <==> same
            &&& a@.cell == b@.cell <==> same
        }),
{
    old(s).lemma_hashes_are_keys();
    let p = old(s)@.pinned_for(msg);
    lemma_handed_back(p, msg, r.msg, i);
    lemma_handed_back(p, msg, r.msg, j);
    old(s)@.lemma_plan(msg);
    old(s)@.lemma_pin_all(old(s)@.plan(msg));
    assert(old(s)@.plan(msg)[i].1 == model::msg_hashes(msg)[i]);
    assert(old(s)@.plan(msg)[j].1 == model::msg_hashes(msg)[j]);
    assert(p.pinned.contains_key(model::msg_hashes(msg)[i]));
    assert(p.pinned.contains_key(model::msg_hashes(msg)[j]));
}

/// The references of a message that is handed back.
proof fn lemma_handed_back<Hash, R, D>(
    p: PinState<Hash>,
    msg: FollowStreamMsg<Hash, R, D>,
    o: FollowStreamMsg<BlockRef<Hash>, R, D>,
    k: int,
)
    requires
        p.hands_back(msg, o),
        0 <= k < model::msg_hashes(msg).len(),
    ensures
        model::msg_hashes(o).len() == model::msg_hashes(msg).len(),
        model::msg_hashes(o)[k]@.hash == model::msg_hashes(msg)[k],
        model::msg_hashes(o)[k]@.cell == Some(p.pinned[model::msg_hashes(msg)[k]].cell),
{
    if let FollowStreamMsg::Event(FollowEvent::Finalized(d)) = msg {
        if let FollowStreamMsg::Event(FollowEvent::Finalized(e)) = o {
            let n = d.finalized_block_hashes@.len();
            if k < n {
                assert(model::msg_hashes(o)[k] == e.finalized_block_hashes@[k]);
            } else {
                assert(model::msg_hashes(o)[k] == e.pruned_block_hashes@[k - n]);
            }
        }
    }
}

// How references are counted.

/// A message adds one reference for each time that it refers to a pinned block, in the count of that
/// block and in no other. If the block is unpinned then, the reference that was kept with its pin is
/// taken off. A count that comes to nothing is gone.
pub proof fn law_message_counts<Hash: BlockHash, R, D, E>(
    s: &mut FollowStreamUnpin<Hash>,
    msg: FollowStreamMsg<Hash, R, D>,
    r: Reaction<Hash, R, D>,
    c: nat,
)
    requires
        old(s).wf(),
        takes::<Hash, R, D, E>(s, msg, r),
        old(s)@.cells.contains_key(c),
    ensures
        ({
            let h = old(s)@.cells[c].hash;
            let of_pin = old(s)@.pinned.contains_key(h) && old(s)@.pinned[h].cell == c;
            let added: int = if of_pin {
                model::msg_hashes(msg).to_multiset().count(h) as int
            } else {
                0
            };
            let taken: int = if of_pin && !final(s)@.pinned.contains_key(h) {
                1
            } else {
                0
            };
            let left = old(s)@.cells[c].strong + added - taken;
            &&& final(s)@.cells.contains_key(c) <==> left > 0
            &&& left > 0 ==> final(s)@.cells[c].hash == h && final(s)@.cells[c].strong == left
        }),
{
    old(s)@.lemma_count_after(msg, c);
}

/// A count that a message starts is that of a block which was not pinned, and which the message
/// refers to: one reference for each time that it does, and one that is kept with the pin if the
/// block stays pinned. Its name was never used before.
pub proof fn law_message_starts_count<Hash: BlockHash, R, D, E>(
    s: &mut FollowStreamUnpin<Hash>,
    msg: FollowStreamMsg<Hash, R, D>,
    r: Reaction<Hash, R, D>,
    c: nat,
)
    requires
        old(s).wf(),
        takes::<Hash, R, D, E>(s, msg, r),
        !old(s)@.cells.contains_key(c),
        final(s)@.cells.contains_key(c),
    ensures
        ({
            let h = final(s)@.cells[c].hash;
            let kept: int = if final(s)@.pinned.contains_key(h) {
                1
            } else {
                0
            };
            &&& !old(s)@.pinned.contains_key(h)
            &&& model::msg_hashes(msg).contains(h)
            &&& c >= old(s)@.issued
            &&& final(s)@.cells[c].strong == model::msg_hashes(msg).to_multiset().count(h) + kept
            &&& final(s)@.pinned.contains_key(h) ==> final(s)@.pinned[h].cell == c
        }),
{
    old(s)@.lemma_count_after(msg, c);
}

/// A message makes one reference for each time that it refers to a block, and one more for each
/// block that it is the first to refer to.
pub proof fn law_message_issues<Hash: BlockHash, R, D, E>(
    s: &mut FollowStreamUnpin<Hash>,
    msg: FollowStreamMsg<Hash, R, D>,
    r: Reaction<Hash, R, D>,
)
    requires
        old(s).wf(),
        takes::<Hash, R, D, E>(s, msg, r),
    ensures
        final(s)@.issued == old(s)@.issued + model::msg_hashes(msg).len() + model::msg_hashes(
            msg,
        ).to_set().difference(old(s)@.pinned.dom()).len(),
{
    old(s)@.lemma_plan(msg);
    old(s)@.lemma_pin_all_issued(old(s)@.plan(msg), model::msg_hashes(msg));
}

/// Counting the times that a value stands in a sequence.
proof fn lemma_times<Hash>(hashes: Seq<Hash>, h: Hash)
    ensures
        laws::times(hashes, h) == hashes.to_multiset().count(h),
        laws::times(hashes, h) > 0 <==> hashes.contains(h),
    decreases hashes.len(),
{
    broadcast use vstd::seq_lib::group_to_multiset_ensures;

    if hashes.len() > 0 {
        lemma_times(hashes.drop_last(), h);
        assert(hashes =~= hashes.drop_last().push(hashes.last()));
        if hashes.contains(h) && hashes.last() != h {
            let i = hashes.index_of(h);
            assert(hashes.drop_last()[i] == h);
        }
        if hashes.drop_last().contains(h) {
            let i = hashes.drop_last().index_of(h);
            assert(hashes[i] == h);
        }
    }
}

impl<Hash> PinState<Hash> {
    /// What pinning makes of a count.
    proof fn lemma_pin_all_cell(self, ps: Seq<(nat, Hash)>, hashes: Seq<Hash>, c: nat)
        requires
            self.wf(),
            ps.len() == hashes.len(),
            forall|i: int| 0 <= i < ps.len() ==> (#[trigger] ps[i]).1 == hashes[i],
        ensures
            ({
                let p = self.pin_all(ps);
                &&& self.cells.contains_key(c) ==> {
                    let h = self.cells[c].hash;
                    &&& p.cells.contains_key(c)
                    &&& p.cells[c].hash == h
                    &&& p.stored(c) <==> self.stored(c)
                    &&& p.cells[c].strong == self.cells[c].strong + if self.stored(c) {
                        laws::times(hashes, h)
                    } else {
                        0
                    }
                }
                &&& !self.cells.contains_key(c) && p.cells.contains_key(c) ==> {
                    let h = p.cells[c].hash;
                    &&& !self.pinned.contains_key(h)
                    &&& p.stored(c)
                    &&& c >= self.issued
                    &&& laws::times(hashes, h) > 0
                    &&& p.cells[c].strong == laws::times(hashes, h) + 1
                }
            }),
        decreases ps.len(),
    {
        if ps.len() > 0 {
            let qs = ps.drop_last();
            let before = self.pin_all(qs);
            assert forall|i: int| 0 <= i < qs.len() implies (#[trigger] qs[i]).1
                == hashes.drop_last()[i] by {
                assert(qs[i] == ps[i]);
            }
            assert(ps[ps.len() - 1].1 == hashes.last());
            self.lemma_pin_all_cell(qs, hashes.drop_last(), c);
            self.lemma_pin_all(qs);
            let h = hashes.last();
            self.lemma_pin_all_counts(qs, hashes.drop_last(), h);
            assert(before.pinned.contains_key(h) || !self.pinned.contains_key(h)) by {
                if self.pinned.contains_key(h) {
                    assert(before.pinned.contains_key(h));
                }
            }
        }
    }

    /// How many references pinning makes.
    proof fn lemma_pin_all_issued(self, ps: Seq<(nat, Hash)>, hashes: Seq<Hash>)
        requires
            self.wf(),
            ps.len() == hashes.len(),
            forall|i: int| 0 <= i < ps.len() ==> (#[trigger] ps[i]).1 == hashes[i],
        ensures
            self.pin_all(ps).issued == self.issued + hashes.len() + hashes.to_set().difference(
                self.pinned.dom(),
            ).len(),
        decreases ps.len(),
    {
        let fresh = hashes.to_set().difference(self.pinned.dom());
        if ps.len() == 0 {
            assert(fresh =~= Set::empty());
        } else {
            let qs = ps.drop_last();
            let gs = hashes.drop_last();
            let h = hashes.last();
            let rest = gs.to_set().difference(self.pinned.dom());
            assert forall|i: int| 0 <= i < qs.len() implies (#[trigger] qs[i]).1 == gs[i] by {
                assert(qs[i] == ps[i]);
            }
            assert(ps[ps.len() - 1].1 == h);
            self.lemma_pin_all_issued(qs, gs);
            self.lemma_pin_all_counts(qs, gs, h);
            lemma_times(gs, h);
            vstd::seq_lib::seq_to_set_is_finite(gs);
            assert(hashes =~= gs.push(h));
            assert(hashes.to_set() =~= gs.to_set().insert(h)) by {
                assert forall|x: Hash| hashes.to_set().contains(x) == gs.to_set().insert(
                    h,
                ).contains(x) by {
                    if gs.contains(x) {
                        let i = gs.index_of(x);
                        assert(hashes[i] == x);
                    }
                    if hashes.contains(x) && x != h {
                        let i = hashes.index_of(x);
                        assert(gs[i] == x);
                    }
                    assert(hashes[hashes.len() - 1] == h);
                }
            }
            if self.pin_all(qs).pinned.contains_key(h) {
                assert(fresh =~= rest);
            } else {
                assert(fresh =~= rest.insert(h));
                assert(!rest.contains(h));
            }
        }
    }

    /// What a message makes of a count.
    proof fn lemma_count_after<R, D>(self, msg: FollowStreamMsg<Hash, R, D>, c: nat)
        requires
            self.wf(),
        ensures
            ({
                let z = self.after(msg);
                &&& self.cells.contains_key(c) ==> {
                    let h = self.cells[c].hash;
                    let of_pin = self.pinned.contains_key(h) && self.pinned[h].cell == c;
                    let added: int = if of_pin {
                        model::msg_hashes(msg).to_multiset().count(h) as int
                    } else {
                        0
                    };
                    let taken: int = if of_pin && !z.pinned.contains_key(h) {
                        1
                    } else {
                        0
                    };
                    let left = self.cells[c].strong + added - taken;
                    &&& z.cells.contains_key(c) <==> left > 0
                    &&& left > 0 ==> z.cells[c].hash == h && z.cells[c].strong == left
                }
                &&& !self.cells.contains_key(c) && z.cells.contains_key(c) ==> {
                    let h = z.cells[c].hash;
                    let kept: int = if z.pinned.contains_key(h) {
                        1
                    } else {
                        0
                    };
                    &&& !self.pinned.contains_key(h)
                    &&& model::msg_hashes(msg).contains(h)
                    &&& c >= self.issued
                    &&& z.cells[c].strong == model::msg_hashes(msg).to_multiset().count(h) + kept
                    &&& z.pinned.contains_key(h) ==> z.pinned[h].cell == c
                }
            }),
    {
        let p = self.pinned_for(msg);
        let z = self.after(msg);
        let hashes = model::msg_hashes(msg);
        self.lemma_plan(msg);
        self.lemma_pin_all(self.plan(msg));
        self.lemma_pin_all_cell(self.plan(msg), hashes, c);
        lemma_times(hashes, self.cells[c].hash);
        lemma_times(hashes, p.cells[c].hash);
        assert forall|h: Hash| #[trigger] z.pinned.contains_key(h) implies p.pinned.contains_key(h)
            && z.pinned[h] == p.pinned[h] by {}
        if laws::is_stop(msg) {
            assert(p == self);
        }
    }
}

// The messages that unpin nothing.

/// The first finalized block is pinned under the number of the latest finalized block, unless it is
/// pinned already. It is not flagged then. Nothing is unpinned, and nothing else changes but the
/// counts of references.
pub proof fn law_initialized<Hash: BlockHash, R, D, E>(
    s: &mut FollowStreamUnpin<Hash>,
    d: Initialized<Hash, R>,
    r: Reaction<Hash, R, D>,
    h: Hash,
)
    requires
        old(s).wf(),
        takes::<Hash, R, D, E>(s, FollowStreamMsg::Event(FollowEvent::Initialized(d)), r),
    ensures
        final(s)@.rel_block_num == old(s)@.rel_block_num,
        final(s)@.subscription_id == old(s)@.subscription_id,
        final(s)@.max_block_life == old(s)@.max_block_life,
        final(s)@.pinned.contains_key(h) <==> old(s)@.pinned.contains_key(h) || h
            == d.finalized_block_hash,
        old(s)@.pinned.contains_key(h) ==> final(s)@.pinned[h] == old(s)@.pinned[h],
        !old(s)@.pinned.contains_key(h) && h == d.finalized_block_hash
            ==> final(s)@.pinned[h].rel_block_num == old(s)@.rel_block_num,
        final(s)@.flags.contains(h) <==> old(s)@.flags.contains(h) && h != d.finalized_block_hash,
        r.unpins@.len() == 0,
{
    reveal_with_fuel(PinState::pin_all, 2);
    lemma_no_requests(
        old(s)@,
        FollowStreamMsg::<Hash, R, D>::Event(FollowEvent::Initialized(d)),
        r,
    );
}

/// A new block that is not pinned yet gets one more than the number of its parent, if that is
/// pinned, and one more than that of the latest finalized block if it is not. The parent is pinned
/// with it, under the number of the latest finalized block unless it is pinned already. (A block
/// that is its own parent gets the number of a new block.) Neither is flagged then. Nothing is
/// unpinned, and nothing else changes but the counts of references.
pub proof fn law_new_block<Hash: BlockHash, R, D, E>(
    s: &mut FollowStreamUnpin<Hash>,
    d: NewBlock<Hash, R>,
    r: Reaction<Hash, R, D>,
    h: Hash,
)
    requires
        old(s).wf(),
        takes::<Hash, R, D, E>(s, FollowStreamMsg::Event(FollowEvent::NewBlock(d)), r),
    ensures
        final(s)@.rel_block_num == old(s)@.rel_block_num,
        final(s)@.subscription_id == old(s)@.subscription_id,
        final(s)@.max_block_life == old(s)@.max_block_life,
        final(s)@.pinned.contains_key(h) <==> old(s)@.pinned.contains_key(h) || h == d.block_hash
            || h == d.parent_block_hash,
        old(s)@.pinned.contains_key(h) ==> final(s)@.pinned[h] == old(s)@.pinned[h],
        !old(s)@.pinned.contains_key(h) && h == d.block_hash && old(s)@.pinned.contains_key(
            d.parent_block_hash,
        ) ==> final(s)@.pinned[h].rel_block_num
            == old(s)@.pinned[d.parent_block_hash].rel_block_num + 1,
        !old(s)@.pinned.contains_key(h) && h == d.block_hash && !old(s)@.pinned.contains_key(
            d.parent_block_hash,
        ) ==> final(s)@.pinned[h].rel_block_num == old(s)@.rel_block_num + 1,
        !old(s)@.pinned.contains_key(h) && h == d.parent_block_hash && h != d.block_hash
            ==> final(s)@.pinned[h].rel_block_num == old(s)@.rel_block_num,
        final(s)@.flags.contains(h) <==> old(s)@.flags.contains(h) && h != d.block_hash && h
            != d.parent_block_hash,
        r.unpins@.len() == 0,
{
    reveal_with_fuel(PinState::pin_all, 3);
    lemma_no_requests(old(s)@, FollowStreamMsg::<Hash, R, D>::Event(FollowEvent::NewBlock(d)), r);
}

/// A new block is one ahead of its parent, whatever the number of the parent is.
pub proof fn law_new_block_follows_parent<Hash: BlockHash, R, D, E>(
    s: &mut FollowStreamUnpin<Hash>,
    d: NewBlock<Hash, R>,
    r: Reaction<Hash, R, D>,
)
    requires
        old(s).wf(),
        takes::<Hash, R, D, E>(s, FollowStreamMsg::Event(FollowEvent::NewBlock(d)), r),
        !old(s)@.pinned.contains_key(d.block_hash),
        d.block_hash != d.parent_block_hash,
    ensures
        final(s)@.pinned.contains_key(d.block_hash),
        final(s)@.pinned.contains_key(d.parent_block_hash),
        final(s)@.pinned[d.block_hash].rel_block_num
            == final(s)@.pinned[d.parent_block_hash].rel_block_num + 1,
{
    reveal_with_fuel(PinState::pin_all, 3);
}

/// Along a chain of new blocks the numbers go up by one: when each block of `chain` but the first is
/// reported as new, with the block before it as its parent, then each is as far ahead of the first
/// as it is in the chain. The messages `t` come in the states `states`.
pub proof fn law_chain_numbers<Hash: BlockHash, R, D>(
    chain: Seq<Hash>,
    t: Seq<NewBlock<Hash, R>>,
    states: Seq<PinState<Hash>>,
)
    requires
        chain.len() == t.len() + 1,
        states.len() == t.len() + 1,
        states[0].wf(),
        states[0].pinned.contains_key(chain[0]),
        forall|i: int|
            #![trigger t[i]]
            0 <= i < t.len() ==> {
                &&& t[i].parent_block_hash == chain[i]
                &&& t[i].block_hash == chain[i + 1]
                &&& !states[i].pinned.contains_key(chain[i + 1])
                &&& states[i + 1] == states[i].after(
                    FollowStreamMsg::<Hash, R, D>::Event(FollowEvent::NewBlock(t[i])),
                )
            },
    ensures
        states.last().wf(),
        states.last().pinned.contains_key(chain.last()),
        states.last().pinned[chain.last()].rel_block_num == states[0].pinned[chain[0]].rel_block_num
            + t.len(),
    decreases t.len(),
{
    if t.len() > 0 {
        let n = t.len() - 1;
        let u = t.drop_last();
        assert forall|i: int| #![trigger u[i]] 0 <= i < u.len() implies {
            &&& u[i].parent_block_hash == chain.drop_last()[i]
            &&& u[i].block_hash == chain.drop_last()[i + 1]
            &&& !states.drop_last()[i].pinned.contains_key(chain.drop_last()[i + 1])
            &&& states.drop_last()[i + 1] == states.drop_last()[i].after(
                FollowStreamMsg::<Hash, R, D>::Event(FollowEvent::NewBlock(u[i])),
            )
        } by {
            assert(t[i] == u[i]);
        }
        law_chain_numbers::<Hash, R, D>(chain.drop_last(), u, states.drop_last());
        assert(t[n].block_hash == chain.last());
        states[n].lemma_new_block::<R, D>(t[n]);
    }
}

/// A best block that is not pinned yet gets one more than the number of the latest finalized block.
/// It is not flagged then. Nothing is unpinned, and nothing else changes but the counts of
/// references.
pub proof fn law_best_block<Hash: BlockHash, R, D, E>(
    s: &mut FollowStreamUnpin<Hash>,
    d: BestBlockChanged<Hash>,
    r: Reaction<Hash, R, D>,
    h: Hash,
)
    requires
        old(s).wf(),
        takes::<Hash, R, D, E>(s, FollowStreamMsg::Event(FollowEvent::BestBlockChanged(d)), r),
    ensures
        final(s)@.rel_block_num == old(s)@.rel_block_num,
        final(s)@.subscription_id == old(s)@.subscription_id,
        final(s)@.max_block_life == old(s)@.max_block_life,
        final(s)@.pinned.contains_key(h) <==> old(s)@.pinned.contains_key(h) || h
            == d.best_block_hash,
        old(s)@.pinned.contains_key(h) ==> final(s)@.pinned[h] == old(s)@.pinned[h],
        !old(s)@.pinned.contains_key(h) && h == d.best_block_hash
            ==> final(s)@.pinned[h].rel_block_num == old(s)@.rel_block_num + 1,
        final(s)@.flags.contains(h) <==> old(s)@.flags.contains(h) && h != d.best_block_hash,
        r.unpins@.len() == 0,
{
    reveal_with_fuel(PinState::pin_all, 2);
    lemma_no_requests(
        old(s)@,
        FollowStreamMsg::<Hash, R, D>::Event(FollowEvent::BestBlockChanged(d)),
        r,
    );
}

/// When the stream is ready, blocks are unpinned under its ID from then on. Nothing else changes.
pub proof fn law_ready<Hash: BlockHash, R, D, E>(
    s: &mut FollowStreamUnpin<Hash>,
    id: String,
    r: Reaction<Hash, R, D>,
)
    requires
        old(s).wf(),
        takes::<Hash, R, D, E>(s, FollowStreamMsg::Ready(id), r),
    ensures
        final(s)@.subscription_id == Some(id@),
        final(s)@.rel_block_num == old(s)@.rel_block_num,
        final(s)@.max_block_life == old(s)@.max_block_life,
        final(s)@.pinned == old(s)@.pinned,
        final(s)@.cells == old(s)@.cells,
        final(s)@.flags == old(s)@.flags,
        final(s)@.issued == old(s)@.issued,
        r.unpins@.len() == 0,
{
    lemma_no_requests(old(s)@, FollowStreamMsg::<Hash, R, D>::Ready(id), r);
}

/// When the subscription ends, nothing is pinned or flagged any more and blocks are numbered anew.
/// No requests are made, and those under way are given up. The ID stays.
pub proof fn law_stop<Hash: BlockHash, R, D, E>(
    s: &mut FollowStreamUnpin<Hash>,
    r: Reaction<Hash, R, D>,
)
    requires
        old(s).wf(),
        takes::<Hash, R, D, E>(s, FollowStreamMsg::Event(FollowEvent::Stop), r),
    ensures
        final(s)@.rel_block_num == 0,
        final(s)@.subscription_id == old(s)@.subscription_id,
        final(s)@.max_block_life == old(s)@.max_block_life,
        final(s)@.pinned.dom() == Set::<Hash>::empty(),
        final(s)@.flags == Set::<Hash>::empty(),
        final(s)@.issued == old(s)@.issued,
        r.unpins@.len() == 0,
        r.cancel_unpins,
{
    lemma_no_requests(old(s)@, FollowStreamMsg::<Hash, R, D>::Event(FollowEvent::Stop), r);
}

/// The news of an operation changes nothing.
pub proof fn law_operation_news<Hash: BlockHash, R, D, E>(
    s: &mut FollowStreamUnpin<Hash>,
    e: FollowEvent<Hash, R, D>,
    r: Reaction<Hash, R, D>,
)
    requires
        old(s).wf(),
        takes::<Hash, R, D, E>(s, FollowStreamMsg::Event(e), r),
        e is OperationBodyDone || e is OperationCallDone || e is OperationStorageItems
            || e is OperationWaitingForContinue || e is OperationStorageDone
            || e is OperationInaccessible || e is OperationError,
    ensures
        final(s)@ == old(s)@,
        r.unpins@.len() == 0,
{
    lemma_no_requests(old(s)@, FollowStreamMsg::<Hash, R, D>::Event(e), r);
}

/// Each request is made once and under the subscription that there is, and the task is woken just if
/// there are any. Requests are made only when blocks are finalized under a subscription, and those
/// under way are given up just if the subscription ends.
pub proof fn law_requests<Hash: BlockHash, R, D, E>(
    s: &mut FollowStreamUnpin<Hash>,
    msg: FollowStreamMsg<Hash, R, D>,
    r: Reaction<Hash, R, D>,
)
    requires
        old(s).wf(),
        takes::<Hash, R, D, E>(s, msg, r),
    ensures
        forall|i: int, j: int|
            0 <= i < j < r.unpins@.len() ==> (#[trigger] r.unpins@[i]).hash != (
            #[trigger] r.unpins@[j]).hash,
        forall|i: int|
            0 <= i < r.unpins@.len() ==> old(s)@.subscription_id == Some(
                (#[trigger] r.unpins@[i]).subscription_id@,
            ),
        r.wake <==> r.unpins@.len() != 0,
        r.unpins@.len() != 0 ==> old(s)@.subscription_id is Some && msg is Event && msg->Event_0
            is Finalized,
        r.cancel_unpins <==> msg is Event && msg->Event_0 is Stop,
{
    let hashes = poll::request_hashes(r.unpins@);
    assert forall|i: int, j: int| 0 <= i < j < r.unpins@.len() implies (
    #[trigger] r.unpins@[i]).hash != (#[trigger] r.unpins@[j]).hash by {
        assert(hashes[i] == r.unpins@[i].hash);
        assert(hashes[j] == r.unpins@[j].hash);
    }
    if r.unpins@.len() != 0 {
        assert(hashes[0] == r.unpins@[0].hash);
        assert(hashes.to_set().contains(hashes[0]));
        assert(Some(r.unpins@[0].subscription_id@) == old(s)@.subscription_id);
    }
}

/// Where nothing is unpinned, no request is made.
proof fn lemma_no_requests<Hash, R, D>(
    a: PinState<Hash>,
    msg: FollowStreamMsg<Hash, R, D>,
    r: Reaction<Hash, R, D>,
)
    requires
        poll::is_reaction(a, msg, r),
        a.unpinned_by(msg) == Set::<Hash>::empty(),
    ensures
        r.unpins@.len() == 0,
{
    if r.unpins@.len() != 0 {
        let hashes = poll::request_hashes(r.unpins@);
        assert(hashes.to_set().contains(hashes[0]));
    }
}

impl<Hash> PinState<Hash> {
    /// A new block on a pinned one.
    proof fn lemma_new_block<R, D>(self, d: NewBlock<Hash, R>)
        requires
            self.wf(),
            self.pinned.contains_key(d.parent_block_hash),
            !self.pinned.contains_key(d.block_hash),
        ensures
            ({
                let z = self.after(FollowStreamMsg::<Hash, R, D>::Event(FollowEvent::NewBlock(d)));
                &&& z.wf()
                &&& z.pinned.contains_key(d.block_hash)
                &&& z.pinned[d.block_hash].rel_block_num
                    == self.pinned[d.parent_block_hash].rel_block_num + 1
            }),
    {
        reveal_with_fuel(PinState::pin_all, 3);
        self.lemma_pin_all(
            self.plan(FollowStreamMsg::<Hash, R, D>::Event(FollowEvent::NewBlock(d))),
        );
    }
}

// References.

/// A reference is counted by the stream if its count is there, is that of its block, and holds more
/// than the one reference that may be kept with the pin.
pub open spec fn counts_in<Hash>(s: PinState<Hash>, r: RefView<Hash>) -> bool {
    &&& r.cell matches Some(c)
    &&& s.cells.contains_key(c)
    &&& s.cells[c].hash == r.hash
    &&& s.pinned.contains_key(r.hash) && s.pinned[r.hash].cell == c ==> s.cells[c].strong >= 2
}

/// A copy of a reference has its hash. It is part of the same count, which grows by one, if the
/// reference is counted, and is counted nowhere if it is not. Nothing else changes.
pub proof fn law_clone<Hash: BlockHash>(
    block_ref: &BlockRef<Hash>,
    owner: &mut FollowStreamUnpin<Hash>,
    r: BlockRef<Hash>,
)
    requires
        old(owner).wf(),
        call_ensures(BlockRef::<Hash>::clone, (block_ref, owner), r),
    ensures
        r@.hash == block_ref@.hash,
        counts_in(old(owner)@, block_ref@) ==> {
            let c = block_ref@.cell->0;
            &&& r@.cell == Some(c)
            &&& final(owner)@.cells.contains_key(c)
            &&& final(owner)@.cells[c].hash == old(owner)@.cells[c].hash
            &&& final(owner)@.cells[c].strong == old(owner)@.cells[c].strong + 1
            &&& final(owner)@.cells.remove(c) == old(owner)@.cells.remove(c)
            &&& final(owner)@.issued == old(owner)@.issued + 1
        },
        !counts_in(old(owner)@, block_ref@) ==> {
            &&& r@.cell is None
            &&& final(owner)@.cells == old(owner)@.cells
            &&& final(owner)@.issued == old(owner)@.issued
        },
        final(owner)@.rel_block_num == old(owner)@.rel_block_num,
        final(owner)@.subscription_id == old(owner)@.subscription_id,
        final(owner)@.max_block_life == old(owner)@.max_block_life,
        final(owner)@.pinned == old(owner)@.pinned,
        final(owner)@.flags == old(owner)@.flags,
{
}

/// Giving a counted reference up makes one less in its count, and takes the count away if it was
/// the last. Its block is flagged just if it is pinned, and only the reference that is kept with
/// the pin is left. Giving up one that is not counted does nothing. Nothing else changes.
pub proof fn law_drop<Hash: BlockHash>(
    block_ref: BlockRef<Hash>,
    owner: &mut FollowStreamUnpin<Hash>,
    h: Hash,
)
    requires
        old(owner).wf(),
        call_ensures(BlockRef::<Hash>::drop, (block_ref, owner), ()),
    ensures
        counts_in(old(owner)@, block_ref@) ==> {
            let c = block_ref@.cell->0;
            let left = old(owner)@.cells[c].strong - 1;
            &&& final(owner)@.cells.contains_key(c) <==> left > 0
            &&& left > 0 ==> final(owner)@.cells[c].hash == old(owner)@.cells[c].hash
            &&& left > 0 ==> final(owner)@.cells[c].strong == left
            &&& final(owner)@.cells.remove(c) == old(owner)@.cells.remove(c)
            &&& final(owner)@.flags.contains(h) <==> old(owner)@.flags.contains(h) || (h
                == block_ref@.hash && old(owner)@.pinned.contains_key(h)
                && old(owner)@.pinned[h].cell == c && left == 1)
        },
        !counts_in(old(owner)@, block_ref@) ==> final(owner)@ == old(owner)@,
        final(owner)@.rel_block_num == old(owner)@.rel_block_num,
        final(owner)@.subscription_id == old(owner)@.subscription_id,
        final(owner)@.max_block_life == old(owner)@.max_block_life,
        final(owner)@.pinned == old(owner)@.pinned,
        final(owner)@.issued == old(owner)@.issued,
{
}

/// The references that a message hands back are counted after it.
pub proof fn law_handed_back_refs_count<Hash: BlockHash, R, D, E>(
    s: &mut FollowStreamUnpin<Hash>,
    msg: FollowStreamMsg<Hash, R, D>,
    r: Reaction<Hash, R, D>,
    k: int,
)
    requires
        old(s).wf(),
        takes::<Hash, R, D, E>(s, msg, r),
        0 <= k < model::msg_hashes(r.msg).len(),
    ensures
        counts_in(final(s)@, model::msg_hashes(r.msg)[k]@),
{
    let p = old(s)@.pinned_for(msg);
    lemma_handed_back_len(p, msg, r.msg);
    lemma_handed_back(p, msg, r.msg, k);
    let h = model::msg_hashes(msg)[k];
    assert(laws::names(msg, h));
    laws::law_named_blocks_are_pinned(old(s)@, msg, h);
}

/// As many references are handed back as there are hashes.
proof fn lemma_handed_back_len<Hash, R, D>(
    p: PinState<Hash>,
    msg: FollowStreamMsg<Hash, R, D>,
    o: FollowStreamMsg<BlockRef<Hash>, R, D>,
)
    requires
        p.hands_back(msg, o),
    ensures
        model::msg_hashes(o).len() == model::msg_hashes(msg).len(),
{
}

/// Two references are equal just if their hashes are. It does not matter where they are counted, or
/// whether they are.
pub proof fn law_ref_equality<Hash: BlockHash>(a: BlockRef<Hash>, b: BlockRef<Hash>)
    ensures
        a.eq_spec(&b) <==> a@.hash.eq_spec(&b@.hash),
        a.eq_spec(&b@.hash) <==> a@.hash.eq_spec(&b@.hash),
{
}

/// What `==` gives for two references is whether their hashes are equal, and what it gives for a
/// reference and a hash is whether the hash of the reference is equal to it.
pub proof fn law_ref_eq<Hash: BlockHash>(
    a: BlockRef<Hash>,
    b: BlockRef<Hash>,
    h: Hash,
    with_ref: bool,
    with_hash: bool,
)
    requires
        block_ref::works_as_key::<Hash>(),
        call_ensures(<BlockRef<Hash> as PartialEq>::eq, (&a, &b), with_ref),
        call_ensures(<BlockRef<Hash> as PartialEq<Hash>>::eq, (&a, &h), with_hash),
    ensures
        with_ref <==> a@.hash == b@.hash,
        with_hash <==> a@.hash == h,
{
}

/// A reference that is made from a hash gives the hash back, is equal to it, and is counted nowhere.
pub proof fn law_ref_of_hash<Hash: BlockHash>(hash: Hash, r: BlockRef<Hash>, out: Hash)
    requires
        call_ensures(BlockRef::<Hash>::new, (hash,), r),
        call_ensures(BlockRef::<Hash>::hash, (&r,), out),
    ensures
        out == hash,
        r@.hash == hash,
        r@.cell is None,
        block_ref::works_as_key::<Hash>() ==> r.eq_spec(&hash),
{
}

/// The hash that a reference gives is the one that it is a reference to.
pub proof fn law_ref_hash<Hash: BlockHash>(r: BlockRef<Hash>, out: Hash)
    requires
        call_ensures(BlockRef::<Hash>::hash, (&r,), out),
    ensures
        out == r@.hash,
{
}

// What can be called, and the smaller calls.

/// At first nothing is pinned, flagged or counted, there is no subscription, and blocks live as long
/// as was asked for.
pub proof fn law_new<Hash: BlockHash>(max_block_life: usize, r: FollowStreamUnpin<Hash>)
    requires
        call_ensures(FollowStreamUnpin::<Hash>::new, (max_block_life,), r),
    ensures
        r.wf(),
        r@.rel_block_num == 0,
        r@.subscription_id is None,
        r@.max_block_life == max_block_life,
        r@.pinned.dom() == Set::<Hash>::empty(),
        r@.cells.dom() == Set::<nat>::empty(),
        r@.flags == Set::<Hash>::empty(),
        r@.issued == 0,
{
}

/// Whether a block is pinned is told as it is, and so is whether one reference more can be made.
pub proof fn law_queries<Hash: BlockHash>(
    s: FollowStreamUnpin<Hash>,
    h: Hash,
    pinned: bool,
    room: bool,
)
    requires
        call_ensures(FollowStreamUnpin::<Hash>::is_pinned, (&s, &h), pinned),
        call_ensures(FollowStreamUnpin::<Hash>::can_clone, (&s,), room),
    ensures
        pinned <==> s@.pinned.contains_key(h),
        room <==> s@.issued + 1 <= u64::MAX,
{
}

/// A message fits if there is room for two references for each block that it refers to, and if the
/// numbers that it gives to blocks are machine numbers.
pub proof fn law_fits<Hash: BlockHash, R, D>(
    s: FollowStreamUnpin<Hash>,
    msg: FollowStreamMsg<Hash, R, D>,
    fits: bool,
)
    requires
        call_ensures(FollowStreamUnpin::<Hash>::fits::<R, D>, (&s, &msg), fits),
    ensures
        fits <==> s@.fits(msg),
        fits <==> s@.issued + 2 * model::msg_hashes(msg).len() <= u64::MAX && match msg {
            FollowStreamMsg::Event(FollowEvent::NewBlock(d)) => if s@.pinned.contains_key(
                d.parent_block_hash,
            ) {
                s@.pinned[d.parent_block_hash].rel_block_num < usize::MAX
            } else {
                s@.rel_block_num < usize::MAX
            },
            FollowStreamMsg::Event(FollowEvent::BestBlockChanged(_)) => s@.rel_block_num
                < usize::MAX,
            FollowStreamMsg::Event(FollowEvent::Finalized(d)) => if d.pruned_block_hashes@.len()
                == 0 {
                s@.rel_block_num + d.finalized_block_hashes@.len() <= usize::MAX
            } else {
                s@.rel_block_num + d.finalized_block_hashes@.len() < usize::MAX
            },
            _ => true,
        },
{
    s@.lemma_plan(msg);
}

/// Every message that fits is taken.
pub proof fn law_fitting_messages_are_taken<Hash: BlockHash, R, D, E>()
    ensures
        forall|s: &mut FollowStreamUnpin<Hash>, msg: FollowStreamMsg<Hash, R, D>|
            s.wf() && s@.fits(msg) ==> #[trigger] call_requires(
                FollowStreamUnpin::<Hash>::react::<R, D>,
                (s, msg),
            ),
        forall|s: &mut FollowStreamUnpin<Hash>, msg: FollowStreamMsg<Hash, R, D>|
            s.wf() && s@.fits(msg) ==> #[trigger] call_requires(
                FollowStreamUnpin::<Hash>::poll_next::<R, D, E>,
                (s, PollEvent::InnerItem(Ok(msg))),
            ),
        forall|s: &mut FollowStreamUnpin<Hash>, event: PollEvent<Hash, R, D, E>|
            s.wf() && !(event is InnerItem && event->InnerItem_0 is Ok)
                ==> #[trigger] call_requires(
                FollowStreamUnpin::<Hash>::poll_next::<R, D, E>,
                (s, event),
            ),
{
}

/// A reference can be copied while there is room for one more, and can be given up at any time.
pub proof fn law_refs_are_taken<Hash: BlockHash>()
    ensures
        forall|r: &BlockRef<Hash>, s: &mut FollowStreamUnpin<Hash>|
            s.wf() && s@.issued < u64::MAX ==> #[trigger] call_requires(
                BlockRef::<Hash>::clone,
                (r, s),
            ),
        forall|r: BlockRef<Hash>, s: &mut FollowStreamUnpin<Hash>|
            s.wf() ==> #[trigger] call_requires(BlockRef::<Hash>::drop, (r, s)),
{
}

/// The requests under way are polled first, and again while they are completing, and then the inner
/// stream is. What that has to say is passed on: that nothing is there yet, that it is done, or
/// an error as it is. None of this changes the state.
pub proof fn law_poll<Hash: BlockHash, R, D, E>(
    s: &mut FollowStreamUnpin<Hash>,
    event: PollEvent<Hash, R, D, E>,
    r: PollAction<Hash, R, D, E>,
)
    requires
        old(s).wf(),
        call_ensures(FollowStreamUnpin::<Hash>::poll_next::<R, D, E>, (s, event), r),
    ensures
        final(s).wf(),
        r is PollUnpins <==> event is Start || event is UnpinCompleted,
        r is PollInner <==> event is UnpinsIdle,
        r is ReturnPending <==> event is InnerPending,
        r is ReturnDone <==> event is InnerDone,
        r is ReturnItem <==> event is InnerItem,
        r is ReturnItem ==> (r->ReturnItem_0 is Ok <==> event->InnerItem_0 is Ok),
        r is ReturnItem && r->ReturnItem_0 is Err ==> r->ReturnItem_0->Err_0
            == event->InnerItem_0->Err_0,
        !(event is InnerItem && event->InnerItem_0 is Ok) ==> final(s)@ == old(s)@,
{
}

/// When blocks were finalized under a subscription, the blocks that are still pinned are less than
/// `max_block_life` behind the latest of them, and those still flagged are newer than it.
pub proof fn law_finalized_leaves<Hash: BlockHash, R, D, E>(
    s: &mut FollowStreamUnpin<Hash>,
    d: Finalized<Hash>,
    r: Reaction<Hash, R, D>,
    h: Hash,
)
    requires
        old(s).wf(),
        takes::<Hash, R, D, E>(s, FollowStreamMsg::Event(FollowEvent::Finalized(d)), r),
        old(s)@.subscription_id is Some,
        final(s)@.pinned.contains_key(h),
    ensures
        final(s)@.rel_block_num - final(s)@.pinned[h].rel_block_num < final(s)@.max_block_life,
        final(s)@.flags.contains(h) ==> final(s)@.pinned[h].rel_block_num
            > final(s)@.rel_block_num,
        !requested(r.unpins@, h),
{
    let msg = FollowStreamMsg::<Hash, R, D>::Event(FollowEvent::Finalized(d));
    old(s)@.lemma_pin_all(old(s)@.plan(msg));
    lemma_requested(old(s)@, msg, r, h);
}

/// A pinned block is too old just if it lies `max_block_life` or more behind the latest finalized
/// block, however far that is. (If blocks do not live at all, even one that is ahead is too old.)
pub proof fn law_too_old<Hash>(s: PinState<Hash>, h: Hash)
    ensures
        s.too_old(h) <==> s.rel_block_num - s.pinned[h].rel_block_num >= s.max_block_life
            || s.max_block_life == 0,
        s.age(h) >= s.rel_block_num - s.pinned[h].rel_block_num,
        s.age(h) > 0 ==> s.pinned[h].rel_block_num + s.age(h) == s.rel_block_num,
{
}

/// A pinned block is old enough to be unpinned for its flag just if it is not newer than the latest
/// finalized block, however far behind it lies.
pub proof fn law_old_enough<Hash>(s: PinState<Hash>, h: Hash)
    ensures
        s.old_enough(h) <==> s.rel_block_num >= s.pinned[h].rel_block_num,
{
}

/// A stream can be made with any life of blocks, where hashes work as keys.
pub proof fn law_new_is_taken<Hash: BlockHash>(max_block_life: usize)
    requires
        block_ref::works_as_key::<Hash>(),
    ensures
        call_requires(FollowStreamUnpin::<Hash>::new, (max_block_life,)),
{
}

/// The integer types work as keys.
pub proof fn law_integers_work_as_keys()
    ensures
        block_ref::works_as_key::<u8>(),
        block_ref::works_as_key::<u16>(),
        block_ref::works_as_key::<u32>(),
        block_ref::works_as_key::<u64>(),
        block_ref::works_as_key::<u128>(),
        block_ref::works_as_key::<usize>(),
{
}

/// At all times, a count is there for each pinned block and is that of the block. Each count holds
/// at least one reference, and goes by a name that was used before. Only pinned blocks are flagged.
pub proof fn law_invariant<Hash: BlockHash>(s: FollowStreamUnpin<Hash>, h: Hash, c: nat)
    requires
        s.wf(),
    ensures
        s@.pinned.contains_key(h) ==> s@.cells.contains_key(s@.pinned[h].cell)
            && s@.cells[s@.pinned[h].cell].hash == h,
        s@.cells.contains_key(c) ==> s@.cells[c].strong > 0 && c < s@.issued,
        s@.flags.contains(h) ==> s@.pinned.contains_key(h),
        s@.issued <= u64::MAX,
        s@.rel_block_num <= usize::MAX,
{
}

/// After a message, a request is under way if it was before and the subscription has not ended, or
/// if the message led to it.
pub proof fn law_requests_under_way<Hash: BlockHash, R, D, E>(
    s: &mut FollowStreamUnpin<Hash>,
    msg: FollowStreamMsg<Hash, R, D>,
    r: Reaction<Hash, R, D>,
    queue: Seq<UnpinRequest<Hash>>,
    q: UnpinRequest<Hash>,
)
    requires
        old(s).wf(),
        takes::<Hash, R, D, E>(s, msg, r),
    ensures
        poll::under_way(queue, r).contains(q) <==> r.unpins@.contains(q) || (queue.contains(q) && !(
        msg is Event && msg->Event_0 is Stop)),
{
    vstd::seq_lib::lemma_seq_concat_contains_all_elements(queue, r.unpins@, q);
}

// The states that can be reached.

/// In every state that is reached, blocks live as long as was asked for at first. When blocks are
/// finalized there under a subscription, a block stays pinned only while the number of the latest
/// finalized block exceeds its own by less than that.
pub proof fn law_reached_finalized<Hash, R, D>(
    max_block_life: nat,
    ops: Seq<laws::Op<Hash, R, D>>,
    d: Finalized<Hash>,
    h: Hash,
)
    ensures
        ({
            let msg = FollowStreamMsg::<Hash, R, D>::Event(FollowEvent::Finalized(d));
            let a = PinState::<Hash>::init(max_block_life).run(ops);
            let z = a.after(msg);
            let last = a.rel_block_num + d.finalized_block_hashes@.len();
            let num = a.pinned[h].rel_block_num;
            &&& z.rel_block_num == last
            &&& a.subscription_id is Some && z.pinned.contains_key(h) ==> last
                - z.pinned[h].rel_block_num < max_block_life
            &&& a.subscription_id is Some && a.pinned.contains_key(h) && last - num
                >= max_block_life ==> !z.pinned.contains_key(h) && a.unpinned_by(msg).contains(h)
            &&& a.subscription_id is Some && a.pinned.contains_key(h) && a.flags.contains(h) && num
                <= last && !d.finalized_block_hashes@.contains(h) && !d.pruned_block_hashes@.contains(
                h,
            ) ==> !z.pinned.contains_key(h) && a.unpinned_by(msg).contains(h)
        }),
{
    let msg = FollowStreamMsg::<Hash, R, D>::Event(FollowEvent::Finalized(d));
    let a = PinState::<Hash>::init(max_block_life).run(ops);
    laws::law_reached_is_wf(max_block_life, ops);
    lemma_reached_life(max_block_life, ops);
    a.lemma_pin_all(a.plan(msg));
    if a.pinned.contains_key(h) {
        a.lemma_finalized_pinned::<R, D>(d, h);
    }
}

/// What follows from a message refers to the blocks that the message refers to, in the same order.
pub proof fn law_reaction_hashes<Hash, R, D>(
    s: PinState<Hash>,
    msg: FollowStreamMsg<Hash, R, D>,
    r: Reaction<Hash, R, D>,
)
    requires
        poll::is_reaction(s, msg, r),
    ensures
        model::msg_hashes(r.msg).len() == model::msg_hashes(msg).len(),
        forall|k: int|
            0 <= k < model::msg_hashes(msg).len() ==> (#[trigger] model::msg_hashes(r.msg)[k])@.hash
                == model::msg_hashes(msg)[k],
{
    let p = s.pinned_for(msg);
    lemma_handed_back_len(p, msg, r.msg);
    assert forall|k: int| 0 <= k < model::msg_hashes(msg).len() implies (
    #[trigger] model::msg_hashes(r.msg)[k])@.hash == model::msg_hashes(msg)[k] by {
        lemma_handed_back(p, msg, r.msg, k);
    }
}

/// How long blocks live does not change.
proof fn lemma_reached_life<Hash, R, D>(max_block_life: nat, ops: Seq<laws::Op<Hash, R, D>>)
    ensures
        PinState::<Hash>::init(max_block_life).run(ops).max_block_life == max_block_life,
    decreases ops.len(),
{
    if ops.len() > 0 {
        let before = PinState::<Hash>::init(max_block_life).run(ops.drop_last());
        lemma_reached_life(max_block_life, ops.drop_last());
        laws::law_reached_is_wf(max_block_life, ops.drop_last());
        if let laws::Op::Message(msg) = ops.last() {
            before.lemma_pin_all(before.plan(msg));
        }
    }
}

} // verus!
