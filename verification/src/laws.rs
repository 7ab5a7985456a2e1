//! What holds of pinning as a whole, whatever messages come and whatever is done with references.

use crate::block_ref::RefView;
use crate::events::{FollowEvent, FollowStreamMsg};
use crate::model;
use crate::model::{Pin, PinState};
use crate::poll;
use crate::poll::{Reaction, UnpinRequest};
use vstd::prelude::*;

verus! {

/// Something that happens to the state: a message comes, or a reference is copied or given up.
pub enum Op<Hash, R, D> {
    /// A message comes.
    Message(FollowStreamMsg<Hash, R, D>),
    /// A reference is copied.
    Clone(RefView<Hash>),
    /// A reference is given up.
    Drop(RefView<Hash>),
}

/// The message is about blocks that were finalized.
pub open spec fn is_finalized<Hash, R, D>(msg: FollowStreamMsg<Hash, R, D>) -> bool {
    msg matches FollowStreamMsg::Event(FollowEvent::Finalized(_))
}

/// The message says that the subscription has ended.
pub open spec fn is_stop<Hash, R, D>(msg: FollowStreamMsg<Hash, R, D>) -> bool {
    msg matches FollowStreamMsg::Event(FollowEvent::Stop)
}

/// The message refers to the block `h`.
pub open spec fn names<Hash, R, D>(msg: FollowStreamMsg<Hash, R, D>, h: Hash) -> bool {
    model::msg_hashes(msg).contains(h)
}

/// The ID of the latest subscription that was ready.
pub open spec fn latest_ready<Hash, R, D>(ops: Seq<Op<Hash, R, D>>) -> Option<Seq<char>>
    decreases ops.len(),
{
    if ops.len() == 0 {
        None
    } else {
        match ops.last() {
            Op::Message(FollowStreamMsg::Ready(id)) => Some(id@),
            _ => latest_ready(ops.drop_last()),
        }
    }
}

/// How often `h` stands in `hashes`.
pub open spec fn times<Hash>(hashes: Seq<Hash>, h: Hash) -> nat
    decreases hashes.len(),
{
    if hashes.len() == 0 {
        0
    } else {
        times(hashes.drop_last(), h) + if hashes.last() == h {
            1nat
        } else {
            0nat
        }
    }
}

impl<Hash> PinState<Hash> {
    /// The state after one thing has happened.
    pub open spec fn step<R, D>(self, op: Op<Hash, R, D>) -> Self {
        match op {
            Op::Message(msg) => self.after(msg),
            Op::Clone(r) => self.cloned(r),
            Op::Drop(r) => self.dropped(r),
        }
    }

    /// The state after several things have happened.
    pub open spec fn run<R, D>(self, ops: Seq<Op<Hash, R, D>>) -> Self
        decreases ops.len(),
    {
        if ops.len() == 0 {
            self
        } else {
            self.run(ops.drop_last()).step(ops.last())
        }
    }

    /// The state after `n` references like `r` have been given up.
    pub open spec fn dropped_times(self, r: RefView<Hash>, n: nat) -> Self
        decreases n,
    {
        if n == 0 {
            self
        } else {
            self.dropped_times(r, (n - 1) as nat).dropped(r)
        }
    }

    /// Each pinned block to which no reference is handed out any more is flagged.
    pub open spec fn flags_all_unused(self) -> bool {
        forall|h: Hash| #[trigger]
            self.pinned.contains_key(h) && self.users(h) == 0 ==> self.flags.contains(h)
    }

    /// A pinned block is flagged only while no reference to it is handed out.
    pub open spec fn flags_only_unused(self) -> bool {
        forall|h: Hash| #[trigger]
            self.pinned.contains_key(h) && self.flags.contains(h) ==> self.users(h) == 0
    }

    /// The flag of an unused block is not cleared for want of a subscription.
    pub open spec fn spends_no_needed_flag<R, D>(self, op: Op<Hash, R, D>) -> bool {
        match op {
            Op::Message(msg) => is_finalized(msg) && self.subscription_id is None ==> forall|
                h: Hash,
            | #[trigger]
                self.counted(msg).pinned.contains_key(h) ==> self.counted(msg).users(h) > 0,
            _ => true,
        }
    }
}

/// Whatever happens, each pinned block keeps a count of its references, which is not zero.
pub proof fn law_step_keeps_wf<Hash, R, D>(s: PinState<Hash>, op: Op<Hash, R, D>)
    requires
        s.wf(),
    ensures
        s.step(op).wf(),
{
    match op {
        Op::Message(msg) => {
            s.lemma_pin_all(s.plan(msg));
            let counted = s.counted(msg);
            counted.lemma_forget(counted.due());
            s.lemma_forget(s.pinned.dom());
        },
        Op::Clone(r) => s.lemma_cloned(r),
        Op::Drop(r) => s.lemma_dropped(r),
    }
}

/// Each state that is reached from the first one is well-formed.
pub proof fn law_reached_is_wf<Hash, R, D>(max_block_life: nat, ops: Seq<Op<Hash, R, D>>)
    ensures
        PinState::<Hash>::init(max_block_life).run(ops).wf(),
    decreases ops.len(),
{
    if ops.len() > 0 {
        law_reached_is_wf(max_block_life, ops.drop_last());
        law_step_keeps_wf(
            PinState::<Hash>::init(max_block_life).run(ops.drop_last()),
            ops.last(),
        );
    }
}

/// A block whose references have all been given up is flagged, whatever happens, as long as no
/// flag of such a block is cleared for want of a subscription.
pub proof fn law_step_flags_all_unused<Hash, R, D>(s: PinState<Hash>, op: Op<Hash, R, D>)
    requires
        s.wf(),
        s.flags_all_unused(),
        s.spends_no_needed_flag(op),
    ensures
        s.step(op).flags_all_unused(),
{
    let after = s.step(op);
    match op {
        Op::Message(msg) => {
            s.lemma_pin_all_flags(s.plan(msg));
            s.lemma_pin_all(s.plan(msg));
            if is_finalized(msg) {
                let counted = s.counted(msg);
                assert forall|h: Hash| #[trigger]
                    after.pinned.contains_key(h) && after.users(h) == 0 implies after.flags.contains(
                    h,
                ) by {
                    assert(counted.pinned.contains_key(h));
                    assert(s.pinned_for(msg).pinned.contains_key(h));
                    assert(counted.users(h) == 0);
                    assert(counted.flags.contains(h));
                }
            }
        },
        Op::Clone(_) | Op::Drop(_) => {
            assert forall|h: Hash| #[trigger]
                after.pinned.contains_key(h) && after.users(h) == 0 implies after.flags.contains(
                h,
            ) by {
                assert(s.pinned.contains_key(h));
            }
        },
    }
}

/// A block that is in use is not flagged, whatever happens.
pub proof fn law_step_flags_only_unused<Hash, R, D>(s: PinState<Hash>, op: Op<Hash, R, D>)
    requires
        s.wf(),
        s.flags_only_unused(),
    ensures
        s.step(op).flags_only_unused(),
{
    let after = s.step(op);
    match op {
        Op::Message(msg) => {
            s.lemma_counted_flags(msg);
            s.lemma_pin_all(s.plan(msg));
            if is_finalized(msg) {
                assert forall|h: Hash| #[trigger]
                    after.pinned.contains_key(h) && after.flags.contains(h) implies after.users(h)
                    == 0 by {
                    assert(s.counted(msg).pinned.contains_key(h));
                    assert(s.pinned_for(msg).pinned.contains_key(h));
                }
            }
        },
        Op::Clone(_) | Op::Drop(_) => {
            assert forall|h: Hash| #[trigger]
                after.pinned.contains_key(h) && after.flags.contains(h) implies after.users(h)
                == 0 by {
                assert(s.pinned.contains_key(h));
            }
        },
    }
}

/// When blocks are finalized, each block is unpinned to which no reference is handed out, if it is
/// old enough.
pub proof fn law_unused_blocks_are_unpinned<Hash, R, D>(
    s: PinState<Hash>,
    msg: FollowStreamMsg<Hash, R, D>,
    h: Hash,
)
    requires
        s.wf(),
        s.flags_all_unused(),
        s.subscription_id is Some,
        is_finalized(msg),
        s.counted(msg).pinned.contains_key(h),
        s.counted(msg).users(h) == 0,
        s.counted(msg).old_enough(h),
    ensures
        s.unpinned_by(msg).contains(h),
{
    s.lemma_pin_all_flags(s.plan(msg));
    s.lemma_pin_all(s.plan(msg));
    assert(s.pinned_for(msg).pinned.contains_key(h));
    assert(s.pinned_for(msg).users(h) == 0);
}

/// A flagged block that is not old enough yet waits: it stays pinned and flagged when blocks are
/// finalized, so that it is unpinned later.
pub proof fn law_newer_blocks_wait<Hash, R, D>(
    s: PinState<Hash>,
    msg: FollowStreamMsg<Hash, R, D>,
    h: Hash,
)
    requires
        s.wf(),
        s.subscription_id is Some,
        is_finalized(msg),
        s.counted(msg).flags.contains(h),
        !s.counted(msg).old_enough(h),
        !s.counted(msg).too_old(h),
    ensures
        !s.unpinned_by(msg).contains(h),
        s.after(msg).pinned.contains_key(h),
        s.after(msg).flags.contains(h),
{
    s.lemma_pin_all(s.plan(msg));
    assert(s.pinned_for(msg).flags.contains(h));
}

/// When blocks are finalized, each block is kept that is neither too old nor unused.
pub proof fn law_used_blocks_are_kept<Hash, R, D>(
    s: PinState<Hash>,
    msg: FollowStreamMsg<Hash, R, D>,
    h: Hash,
)
    requires
        s.wf(),
        s.flags_only_unused(),
        !is_stop(msg),
        s.counted(msg).pinned.contains_key(h),
        s.counted(msg).users(h) > 0,
        !s.counted(msg).too_old(h),
    ensures
        !s.unpinned_by(msg).contains(h),
        s.after(msg).pinned.contains_key(h),
{
    s.lemma_counted_flags(msg);
    law_requests_match_pins(s, msg, h);
}

/// In each state that is reached, the blocks whose references have all been given up are flagged,
/// as long as no flag of such a block was cleared for want of a subscription.
pub proof fn law_reached_flags_all_unused<Hash, R, D>(
    max_block_life: nat,
    ops: Seq<Op<Hash, R, D>>,
)
    requires
        forall|i: int|
            0 <= i < ops.len() ==> PinState::<Hash>::init(max_block_life).run(
                ops.take(i),
            ).spends_no_needed_flag(#[trigger] ops[i]),
    ensures
        PinState::<Hash>::init(max_block_life).run(ops).flags_all_unused(),
    decreases ops.len(),
{
    let s = PinState::<Hash>::init(max_block_life);
    if ops.len() > 0 {
        let qs = ops.drop_last();
        assert forall|i: int| 0 <= i < qs.len() implies s.run(qs.take(i)).spends_no_needed_flag(
            #[trigger] qs[i],
        ) by {
            assert(qs.take(i) =~= ops.take(i));
            assert(qs[i] == ops[i]);
        }
        law_reached_flags_all_unused(max_block_life, qs);
        law_reached_is_wf(max_block_life, qs);
        assert(ops.take(ops.len() - 1) =~= qs);
        assert(s.run(ops.take(ops.len() - 1)).spends_no_needed_flag(ops[ops.len() - 1]));
        law_step_flags_all_unused(s.run(qs), ops.last());
    }
}

/// In each state that is reached, no block that is in use is flagged.
pub proof fn law_reached_flags_only_unused<Hash, R, D>(
    max_block_life: nat,
    ops: Seq<Op<Hash, R, D>>,
)
    ensures
        PinState::<Hash>::init(max_block_life).run(ops).flags_only_unused(),
    decreases ops.len(),
{
    if ops.len() > 0 {
        let qs = ops.drop_last();
        law_reached_flags_only_unused(max_block_life, qs);
        law_reached_is_wf(max_block_life, qs);
        law_step_flags_only_unused(PinState::<Hash>::init(max_block_life).run(qs), ops.last());
    }
}

/// Whatever has happened before: a block that is in use and not too old stays pinned, until the
/// subscription ends.
pub proof fn law_reached_keeps_used<Hash, R, D>(
    max_block_life: nat,
    ops: Seq<Op<Hash, R, D>>,
    msg: FollowStreamMsg<Hash, R, D>,
    h: Hash,
)
    requires
        !is_stop(msg),
        PinState::<Hash>::init(max_block_life).run(ops).counted(msg).pinned.contains_key(h),
        PinState::<Hash>::init(max_block_life).run(ops).counted(msg).users(h) > 0,
        !PinState::<Hash>::init(max_block_life).run(ops).counted(msg).too_old(h),
    ensures
        PinState::<Hash>::init(max_block_life).run(ops).after(msg).pinned.contains_key(h),
{
    law_reached_is_wf(max_block_life, ops);
    law_reached_flags_only_unused(max_block_life, ops);
    law_used_blocks_are_kept(PinState::<Hash>::init(max_block_life).run(ops), msg, h);
}

/// Whatever has happened before, as long as no flag of an unused block was cleared for want of a
/// subscription: when blocks are finalized under a subscription, just those blocks are unpinned
/// that are too old, or that are old enough and whose references have all been given up.
pub proof fn law_reached_unpins_old_and_unused<Hash, R, D>(
    max_block_life: nat,
    ops: Seq<Op<Hash, R, D>>,
    msg: FollowStreamMsg<Hash, R, D>,
    h: Hash,
)
    requires
        forall|i: int|
            0 <= i < ops.len() ==> PinState::<Hash>::init(max_block_life).run(
                ops.take(i),
            ).spends_no_needed_flag(#[trigger] ops[i]),
        PinState::<Hash>::init(max_block_life).run(ops).subscription_id is Some,
        is_finalized(msg),
    ensures
        ({
            let s = PinState::<Hash>::init(max_block_life).run(ops);
            let counted = s.counted(msg);
            s.unpinned_by(msg).contains(h) <==> counted.pinned.contains_key(h) && (
            counted.too_old(h) || (counted.users(h) == 0 && counted.old_enough(h)))
        }),
{
    let s = PinState::<Hash>::init(max_block_life).run(ops);
    law_reached_is_wf(max_block_life, ops);
    law_reached_flags_all_unused(max_block_life, ops);
    law_reached_flags_only_unused(max_block_life, ops);
    s.lemma_pin_all(s.plan(msg));
    s.lemma_counted_flags(msg);
    if s.counted(msg).pinned.contains_key(h) {
        if s.counted(msg).users(h) == 0 && s.counted(msg).old_enough(h) {
            law_unused_blocks_are_unpinned(s, msg, h);
        }
    }
}

/// Once the stream is ready, no flag is cleared for want of a subscription. So whatever happens
/// from then on, each block whose references have all been given up is unpinned when blocks are
/// finalized, as soon as it is old enough.
pub proof fn law_unused_are_unpinned_once_ready<Hash, R, D>(
    max_block_life: nat,
    id: String,
    ops: Seq<Op<Hash, R, D>>,
    msg: FollowStreamMsg<Hash, R, D>,
    h: Hash,
)
    requires
        ops.len() > 0,
        ops[0] == Op::<Hash, R, D>::Message(FollowStreamMsg::Ready(id)),
        is_finalized(msg),
        PinState::<Hash>::init(max_block_life).run(ops).counted(msg).pinned.contains_key(h),
        PinState::<Hash>::init(max_block_life).run(ops).counted(msg).users(h) == 0,
        PinState::<Hash>::init(max_block_life).run(ops).counted(msg).old_enough(h),
    ensures
        PinState::<Hash>::init(max_block_life).run(ops).unpinned_by(msg).contains(h),
{
    let s = PinState::<Hash>::init(max_block_life);
    lemma_ready_first(max_block_life, id, ops);
    assert forall|i: int| 0 <= i < ops.len() implies s.run(ops.take(i)).spends_no_needed_flag(
        #[trigger] ops[i],
    ) by {
        if i > 0 {
            lemma_ready_first(max_block_life, id, ops.take(i));
        }
    }
    law_reached_flags_all_unused(max_block_life, ops);
    law_reached_is_wf(max_block_life, ops);
    law_unused_blocks_are_unpinned(s.run(ops), msg, h);
}

/// Once there is a subscription, there is one ever after.
pub proof fn law_subscription_stays<Hash, R, D>(s: PinState<Hash>, op: Op<Hash, R, D>)
    requires
        s.wf(),
    ensures
        s.subscription_id is Some ==> s.step(op).subscription_id is Some,
        !(op matches Op::Message(FollowStreamMsg::Ready(_))) ==> s.step(op).subscription_id
            == s.subscription_id,
        s.step(op).max_block_life == s.max_block_life,
{
    if let Op::Message(msg) = op {
        s.lemma_pin_all(s.plan(msg));
    }
}

/// In each state that is reached, the subscription is the one that was ready last.
pub proof fn law_reached_subscription_is_latest<Hash, R, D>(
    max_block_life: nat,
    ops: Seq<Op<Hash, R, D>>,
)
    ensures
        PinState::<Hash>::init(max_block_life).run(ops).subscription_id == latest_ready(ops),
    decreases ops.len(),
{
    if ops.len() > 0 {
        let qs = ops.drop_last();
        law_reached_subscription_is_latest(max_block_life, qs);
        law_reached_is_wf(max_block_life, qs);
        law_subscription_stays(PinState::<Hash>::init(max_block_life).run(qs), ops.last());
    }
}

/// Whatever has happened before: unpin requests are made only when blocks are finalized, and only
/// once a subscription was ready. Each request carries the ID of the one that was ready last.
pub proof fn law_requests_carry_latest_subscription<Hash, R, D>(
    max_block_life: nat,
    ops: Seq<Op<Hash, R, D>>,
    msg: FollowStreamMsg<Hash, R, D>,
    r: Reaction<Hash, R, D>,
    i: int,
)
    requires
        poll::is_reaction(PinState::<Hash>::init(max_block_life).run(ops), msg, r),
        0 <= i < r.unpins@.len(),
    ensures
        is_finalized(msg),
        r.msg matches FollowStreamMsg::Event(FollowEvent::Finalized(_)),
        latest_ready(ops) == Some(r.unpins@[i].subscription_id@),
{
    law_reached_subscription_is_latest(max_block_life, ops);
    let hashes = poll::request_hashes(r.unpins@);
    assert(hashes.to_set().contains(hashes[i]));
}

/// Unpin requests that were made stay made, also when a block is pinned again: they are given up
/// only when the subscription ends. A message that is not about finalized blocks makes none.
pub proof fn law_requests_stay_made<Hash, R, D>(
    s: PinState<Hash>,
    msg: FollowStreamMsg<Hash, R, D>,
    r: Reaction<Hash, R, D>,
    queue: Seq<UnpinRequest<Hash>>,
)
    requires
        poll::is_reaction(s, msg, r),
        !is_stop(msg),
    ensures
        queue.is_prefix_of(poll::under_way(queue, r)),
        !is_finalized(msg) ==> poll::under_way(queue, r) == queue,
{
    let hashes = poll::request_hashes(r.unpins@);
    if r.unpins@.len() > 0 {
        assert(hashes.to_set().contains(hashes[0]));
    } else {
        assert(poll::under_way(queue, r) =~= queue);
    }
}

/// When unpinning takes place twice in a row, nothing is left to do the second time.
pub proof fn law_unpin_twice<Hash>(s: PinState<Hash>)
    requires
        s.wf(),
    ensures
        s.unpin().to_unpin() == Set::<Hash>::empty(),
        s.unpin().unpin() == s.unpin(),
{
    let u = s.unpin();
    assert(u.to_unpin() =~= Set::<Hash>::empty());
    u.lemma_forget_none();
    assert(u.unpin() =~= u);
}

/// A longer block life never unpins more.
pub proof fn law_longer_life_keeps_more<Hash>(s: PinState<Hash>, max_block_life: nat)
    requires
        s.max_block_life <= max_block_life,
    ensures
        (PinState { max_block_life, ..s }).to_unpin().subset_of(s.to_unpin()),
        s.unpin().pinned.submap_of((PinState { max_block_life, ..s }).unpin().pinned),
{
}

/// Pinning a block twice gives the same reference, and the block keeps its first number: its own if
/// it was pinned before, and else the first one given, whatever number it had at an earlier time.
pub proof fn law_pin_twice<Hash>(s: PinState<Hash>, a: nat, b: nat, h: Hash)
    requires
        s.wf(),
    ensures
        s.pin_at(a, h).pin_at(b, h).ref_to(h) == s.pin_at(a, h).ref_to(h),
        s.pin_at(a, h).pin_at(b, h).pinned == s.pin_at(a, h).pinned,
        s.pin_at(a, h).pinned.contains_key(h),
        s.pin_at(a, h).pinned[h].rel_block_num == if s.pinned.contains_key(h) {
            s.pinned[h].rel_block_num
        } else {
            a
        },
        !s.pin_at(a, h).flags.contains(h),
        !s.pin_at(a, h).pin_at(b, h).flags.contains(h),
{
}

/// Two different blocks may be pinned in either order: the same blocks are pinned under the same
/// numbers after it, and the same blocks are flagged.
pub proof fn law_pins_commute<Hash>(s: PinState<Hash>, a: nat, g: Hash, b: nat, h: Hash)
    requires
        s.wf(),
        g != h,
    ensures
        ({
            let l = s.pin_at(a, g).pin_at(b, h);
            let r = s.pin_at(b, h).pin_at(a, g);
            &&& l.pinned.dom() == r.pinned.dom()
            &&& forall|k: Hash| #[trigger]
                l.pinned.contains_key(k) ==> l.pinned[k].rel_block_num == r.pinned[k].rel_block_num
            &&& l.flags == r.flags
            &&& l.ref_to(g).hash == r.ref_to(g).hash
            &&& l.ref_to(h).hash == r.ref_to(h).hash
        }),
{
    let l = s.pin_at(a, g).pin_at(b, h);
    let r = s.pin_at(b, h).pin_at(a, g);
    assert(l.pinned.dom() =~= r.pinned.dom());
    assert(l.flags =~= r.flags);
}

/// A reference to a block has the block's hash, and so have its copies, in whatever state they are
/// made: the hash of a reference depends on nothing but the reference.
pub proof fn law_refs_keep_their_hash<Hash>(
    s: PinState<Hash>,
    t: PinState<Hash>,
    r: RefView<Hash>,
    h: Hash,
)
    ensures
        s.ref_to(h).hash == h,
        t.clone_of(s.ref_to(h)).hash == h,
        t.clone_of(r).hash == r.hash,
{
}

/// A block is flagged just when the last of its references is given up, and it stays pinned all
/// the while.
pub proof fn law_last_drop_flags<Hash>(s: PinState<Hash>, h: Hash, k: nat)
    requires
        s.wf(),
        s.pinned.contains_key(h),
        k <= s.users(h),
    ensures
        s.dropped_times(s.ref_to(h), k).pinned == s.pinned,
        s.dropped_times(s.ref_to(h), k).users(h) == s.users(h) - k,
        s.dropped_times(s.ref_to(h), k).flags == if k > 0 && k == s.users(h) {
            s.flags.insert(h)
        } else {
            s.flags
        },
        s.dropped_times(s.ref_to(h), k).wf(),
    decreases k,
{
    if k > 0 {
        let before = s.dropped_times(s.ref_to(h), (k - 1) as nat);
        law_last_drop_flags(s, h, (k - 1) as nat);
        before.lemma_dropped(s.ref_to(h));
    }
}

/// To copy a reference and to give the copy up again changes no pin, no flag and no count.
pub proof fn law_clone_then_drop<Hash>(s: PinState<Hash>, r: RefView<Hash>)
    requires
        s.wf(),
    ensures
        s.cloned(r).dropped(s.clone_of(r)) == (PinState { issued: s.cloned(r).issued, ..s }),
{
    let l = s.cloned(r).dropped(s.clone_of(r));
    assert(l.cells =~= s.cells);
    assert(l.flags =~= s.flags);
}

/// A reference to a block that has been unpinned already flags nothing when it is given up.
pub proof fn law_stale_ref_flags_nothing<Hash>(s: PinState<Hash>, r: RefView<Hash>)
    requires
        s.live(r),
        !s.stored(r.cell->0),
    ensures
        s.dropped(r).flags == s.flags,
        s.dropped(r).pinned == s.pinned,
{
}

/// A copy of a reference that is counted is counted too.
pub proof fn law_clone_is_live<Hash>(s: PinState<Hash>, r: RefView<Hash>)
    requires
        s.wf(),
        s.live(r),
    ensures
        s.clone_of(r) == r,
        s.cloned(r).live(r),
        s.cloned(r).external(r.cell->0) == s.external(r.cell->0) + 1,
{
}

/// A reference that is counted nowhere can be copied and given up without any effect.
pub proof fn law_uncounted_ref<Hash>(s: PinState<Hash>, hash: Hash)
    ensures
        s.cloned(RefView { cell: None, hash }) == s,
        s.dropped(RefView { cell: None, hash }) == s,
        s.clone_of(RefView { cell: None, hash }) == (RefView { cell: None, hash }),
{
}

/// A count that has been used up never comes back: no later reference is part of it.
pub proof fn law_dead_count_stays_dead<Hash, R, D>(s: PinState<Hash>, op: Op<Hash, R, D>, c: nat)
    requires
        s.wf(),
        c < s.issued,
        !s.cells.contains_key(c),
    ensures
        c < s.step(op).issued,
        !s.step(op).cells.contains_key(c),
{
    if let Op::Message(msg) = op {
        s.lemma_pin_all_dead(s.plan(msg), c);
    }
}

/// When blocks are finalized under a subscription, no block stays pinned that is too old.
pub proof fn law_old_blocks_are_unpinned<Hash, R, D>(
    s: PinState<Hash>,
    msg: FollowStreamMsg<Hash, R, D>,
    h: Hash,
)
    requires
        s.wf(),
        s.subscription_id is Some,
        is_finalized(msg),
    ensures
        s.counted(msg).pinned.contains_key(h) && s.counted(msg).too_old(h) ==> s.unpinned_by(
            msg,
        ).contains(h),
        s.after(msg).pinned.contains_key(h) ==> s.after(msg).age(h) < s.max_block_life,
{
    s.lemma_pin_all(s.plan(msg));
}

/// The blocks that unpin requests are made for are those that are pinned no longer: each was
/// pinned before, and no other block loses its pin.
pub proof fn law_requests_match_pins<Hash, R, D>(
    s: PinState<Hash>,
    msg: FollowStreamMsg<Hash, R, D>,
    h: Hash,
)
    requires
        s.wf(),
        !is_stop(msg),
    ensures
        s.unpinned_by(msg).contains(h) <==> s.counted(msg).pinned.contains_key(h) && !s.after(
            msg,
        ).pinned.contains_key(h),
        s.after(msg).pinned.contains_key(h) ==> s.after(msg).pinned[h] == s.counted(
            msg,
        ).pinned[h],
{
    s.lemma_pin_all(s.plan(msg));
}

/// Blocks are unpinned only when blocks are finalized, or when the subscription ends.
pub proof fn law_only_finalized_unpins<Hash, R, D>(s: PinState<Hash>, op: Op<Hash, R, D>)
    requires
        s.wf(),
        op matches Op::Message(msg) ==> !is_finalized(msg) && !is_stop(msg),
    ensures
        s.pinned.submap_of(s.step(op).pinned),
        op matches Op::Message(msg) ==> s.unpinned_by(msg) == Set::<Hash>::empty(),
{
    if let Op::Message(msg) = op {
        s.lemma_pin_all(s.plan(msg));
    }
}

/// A block keeps its number and its references' count for as long as it is pinned.
pub proof fn law_pins_do_not_change<Hash, R, D>(s: PinState<Hash>, op: Op<Hash, R, D>, h: Hash)
    requires
        s.wf(),
        s.pinned.contains_key(h),
        s.step(op).pinned.contains_key(h),
    ensures
        s.step(op).pinned[h] == s.pinned[h],
{
    if let Op::Message(msg) = op {
        s.lemma_pin_all(s.plan(msg));
        assert(s.pinned_for(msg).pinned[h] == s.pinned[h]);
    }
}

/// A block that a message refers to is pinned after it, unless the message is about finalized
/// blocks and the block is unpinned at once. The reference that is handed out for it is counted
/// in any case.
pub proof fn law_named_blocks_are_pinned<Hash, R, D>(
    s: PinState<Hash>,
    msg: FollowStreamMsg<Hash, R, D>,
    h: Hash,
)
    requires
        s.wf(),
        names(msg, h),
    ensures
        s.after(msg).pinned.contains_key(h) || s.unpinned_by(msg).contains(h),
        s.after(msg).live(s.pinned_for(msg).ref_to(h)),
        !is_finalized(msg) ==> s.after(msg).pinned.contains_key(h) && s.after(msg).ref_to(h)
            == s.pinned_for(msg).ref_to(h),
{
    s.lemma_plan(msg);
    s.lemma_pin_all(s.plan(msg));
    let i = model::msg_hashes(msg).index_of(h);
    assert(s.plan(msg)[i].1 == h);
    s.lemma_pin_all_users(s.plan(msg), i);
    assert(s.pinned_for(msg).pinned.contains_key(h));
}

/// A block that is reported, as finalized or pruned too, is not unpinned at that for a flag that was
/// set against it before, but only if it is too old.
pub proof fn law_reported_block_loses_its_flag<Hash, R, D>(
    s: PinState<Hash>,
    msg: FollowStreamMsg<Hash, R, D>,
    h: Hash,
)
    requires
        s.wf(),
        names(msg, h),
    ensures
        !s.counted(msg).flags.contains(h),
        s.unpinned_by(msg).contains(h) ==> s.counted(msg).too_old(h),
{
    s.lemma_plan(msg);
    let i = model::msg_hashes(msg).index_of(h);
    assert(s.plan(msg)[i].1 == h);
    s.lemma_pin_all_clears(s.plan(msg), i);
}

/// A message leaves alone the flags and the counts of pinned blocks that it does not refer to,
/// until blocks are unpinned.
pub proof fn law_other_blocks_are_left_alone<Hash, R, D>(
    s: PinState<Hash>,
    msg: FollowStreamMsg<Hash, R, D>,
    h: Hash,
)
    requires
        s.wf(),
        !names(msg, h),
    ensures
        s.counted(msg).pinned.contains_key(h) == s.pinned.contains_key(h),
        s.counted(msg).flags.contains(h) == s.flags.contains(h),
        s.pinned.contains_key(h) ==> s.counted(msg).users(h) == s.users(h),
{
    s.lemma_plan(msg);
    assert forall|i: int| 0 <= i < s.plan(msg).len() implies (#[trigger] s.plan(msg)[i]).1
        != h by {
        assert(model::msg_hashes(msg)[i] == s.plan(msg)[i].1);
    }
    s.lemma_pin_all_other(s.plan(msg), h);
    s.lemma_pin_all(s.plan(msg));
}

/// Without a subscription no block is unpinned. The flags are cleared all the same when blocks are
/// finalized.
pub proof fn law_no_subscription<Hash, R, D>(s: PinState<Hash>, msg: FollowStreamMsg<Hash, R, D>)
    requires
        s.wf(),
        s.subscription_id is None,
    ensures
        s.unpinned_by(msg) == Set::<Hash>::empty(),
        is_finalized(msg) ==> s.after(msg).pinned == s.counted(msg).pinned && s.after(msg).flags
            == Set::<Hash>::empty(),
{
    s.lemma_pin_all(s.plan(msg));
}

/// When the subscription ends nothing is pinned or flagged any more, and blocks are numbered anew.
/// The ID of the subscription stays until the next one is ready.
pub proof fn law_stop_clears<Hash, R, D>(s: PinState<Hash>)
    ensures
        s.after(FollowStreamMsg::<Hash, R, D>::Event(FollowEvent::Stop)).pinned == Map::<
            Hash,
            Pin,
        >::empty(),
        s.after(FollowStreamMsg::<Hash, R, D>::Event(FollowEvent::Stop)).flags == Set::<
            Hash,
        >::empty(),
        s.after(FollowStreamMsg::<Hash, R, D>::Event(FollowEvent::Stop)).rel_block_num == 0,
        s.after(FollowStreamMsg::<Hash, R, D>::Event(FollowEvent::Stop)).subscription_id
            == s.subscription_id,
{
    assert(s.stopped().pinned =~= Map::<Hash, Pin>::empty());
}

/// The number of the latest finalized block grows by the number of blocks that are finalized, and
/// by nothing else.
pub proof fn law_finalized_blocks_are_counted<Hash, R, D>(
    s: PinState<Hash>,
    msg: FollowStreamMsg<Hash, R, D>,
)
    requires
        s.wf(),
        !is_stop(msg),
    ensures
        s.after(msg).rel_block_num == s.rel_block_num + match msg {
            FollowStreamMsg::Event(FollowEvent::Finalized(d)) => d.finalized_block_hashes@.len(),
            _ => 0,
        },
{
    s.lemma_pin_all(s.plan(msg));
}

/// The messages about operations are of no concern: nothing changes.
pub proof fn law_operations_change_nothing<Hash, R, D>(
    s: PinState<Hash>,
    msg: FollowStreamMsg<Hash, R, D>,
)
    requires
        msg matches FollowStreamMsg::Event(e) && (e is OperationBodyDone || e is OperationCallDone
            || e is OperationStorageItems || e is OperationWaitingForContinue
            || e is OperationStorageDone || e is OperationInaccessible || e is OperationError),
    ensures
        s.after(msg) == s,
        s.unpinned_by(msg) == Set::<Hash>::empty(),
{
}

/// A block that is not pinned yet gets the number that the message gives it where it refers to it
/// first.
pub proof fn law_first_mention_numbers<Hash, R, D>(
    s: PinState<Hash>,
    msg: FollowStreamMsg<Hash, R, D>,
    i: int,
)
    requires
        s.wf(),
        0 <= i < model::msg_hashes(msg).len(),
        !s.pinned.contains_key(model::msg_hashes(msg)[i]),
        forall|j: int|
            0 <= j < i ==> (#[trigger] model::msg_hashes(msg)[j]) != model::msg_hashes(msg)[i],
    ensures
        s.counted(msg).pinned.contains_key(model::msg_hashes(msg)[i]),
        s.counted(msg).pinned[model::msg_hashes(msg)[i]].rel_block_num == match msg {
            // The first finalized block gets the starting number.
            FollowStreamMsg::Event(FollowEvent::Initialized(_)) => s.rel_block_num,
            // A new block gets one more than its parent, and the parent that of the latest
            // finalized block.
            FollowStreamMsg::Event(FollowEvent::NewBlock(d)) => s.parent_num(d.parent_block_hash)
                + if i == 0 {
                1nat
            } else {
                0nat
            },
            FollowStreamMsg::Event(FollowEvent::BestBlockChanged(_)) => s.rel_block_num + 1,
            // Finalized blocks count on from the latest one, and pruned blocks get one more than
            // the last of them.
            FollowStreamMsg::Event(FollowEvent::Finalized(d)) => if i
                < d.finalized_block_hashes@.len() {
                (s.rel_block_num + i + 1) as nat
            } else {
                s.rel_block_num + d.finalized_block_hashes@.len() + 1
            },
            _ => 0,
        },
{
    s.lemma_plan(msg);
    let ps = s.plan(msg);
    assert(ps[i].1 == model::msg_hashes(msg)[i]);
    assert forall|j: int| 0 <= j < i implies (#[trigger] ps[j]).1 != ps[i].1 by {
        assert(model::msg_hashes(msg)[j] == ps[j].1);
    }
    s.lemma_pin_all_first(ps, i);
}

/// As many references to a block are handed out as a message refers to it, and they are counted on
/// top of those that are handed out already.
pub proof fn law_handed_out_refs_are_counted<Hash, R, D>(
    s: PinState<Hash>,
    msg: FollowStreamMsg<Hash, R, D>,
    h: Hash,
)
    requires
        s.wf(),
        s.counted(msg).pinned.contains_key(h),
    ensures
        s.counted(msg).users(h) == times(model::msg_hashes(msg), h) + if s.pinned.contains_key(h) {
            s.users(h)
        } else {
            0
        },
{
    s.lemma_plan(msg);
    assert forall|i: int| 0 <= i < s.plan(msg).len() implies (#[trigger] s.plan(msg)[i]).1
        == model::msg_hashes(msg)[i] by {}
    s.lemma_pin_all_counts(s.plan(msg), model::msg_hashes(msg), h);
    assert(s.pinned_for(msg).pinned.contains_key(h));
}

/// Giving a reference up makes one less in its count, and in no other.
pub proof fn law_drop_counts_down<Hash>(s: PinState<Hash>, r: RefView<Hash>, c: nat)
    requires
        s.wf(),
        s.live(r),
        s.cells.contains_key(c),
    ensures
        s.dropped(r).pinned == s.pinned,
        r.cell != Some(c) ==> s.dropped(r).cells.contains_key(c) && s.dropped(r).external(c)
            == s.external(c),
        r.cell == Some(c) && s.external(c) > 1 ==> s.dropped(r).external(c) == s.external(c) - 1
            && s.dropped(r).live(r),
        r.cell == Some(c) && s.external(c) == 1 ==> !s.dropped(r).live(r),
{
}

/// No message takes a reference away: what is handed out stays counted, even when its block is
/// unpinned or the subscription ends.
pub proof fn law_refs_outlive_pins<Hash, R, D>(
    s: PinState<Hash>,
    msg: FollowStreamMsg<Hash, R, D>,
    r: RefView<Hash>,
)
    requires
        s.wf(),
        s.live(r),
    ensures
        s.after(msg).live(r),
        s.after(msg).external(r.cell->0) >= s.external(r.cell->0),
{
    let c = r.cell->0;
    s.lemma_pin_all_keeps_refs(s.plan(msg), c);
    s.lemma_pin_all(s.plan(msg));
    assert(s.counted(msg).external(c) == s.pinned_for(msg).external(c));
}

impl<Hash> PinState<Hash> {
    /// A block that is not among those that are pinned is left alone.
    pub(crate) proof fn lemma_pin_all_other(self, ps: Seq<(nat, Hash)>, h: Hash)
        requires
            self.wf(),
            forall|i: int| 0 <= i < ps.len() ==> (#[trigger] ps[i]).1 != h,
        ensures
            self.pin_all(ps).pinned.contains_key(h) == self.pinned.contains_key(h),
            self.pin_all(ps).flags.contains(h) == self.flags.contains(h),
            self.pinned.contains_key(h) ==> self.pin_all(ps).cells[self.pinned[h].cell]
                == self.cells[self.pinned[h].cell],
        decreases ps.len(),
    {
        if ps.len() > 0 {
            let qs = ps.drop_last();
            assert forall|i: int| 0 <= i < qs.len() implies (#[trigger] qs[i]).1 != h by {
                assert(qs[i] == ps[i]);
            }
            self.lemma_pin_all_other(qs, h);
            self.lemma_pin_all(qs);
        }
    }

    /// A block loses its flag when it is pinned.
    pub(crate) proof fn lemma_pin_all_clears(self, ps: Seq<(nat, Hash)>, i: int)
        requires
            self.wf(),
            0 <= i < ps.len(),
        ensures
            !self.pin_all(ps).flags.contains(ps[i].1),
        decreases ps.len(),
    {
        let qs = ps.drop_last();
        self.lemma_pin_all(qs);
        if i < ps.len() - 1 {
            self.lemma_pin_all_clears(qs, i);
        }
    }

    /// A block that is pinned has a reference handed out.
    pub(crate) proof fn lemma_pin_all_users(self, ps: Seq<(nat, Hash)>, i: int)
        requires
            self.wf(),
            0 <= i < ps.len(),
        ensures
            self.pin_all(ps).users(ps[i].1) >= 1,
        decreases ps.len(),
    {
        let qs = ps.drop_last();
        self.lemma_pin_all(qs);
        if i < ps.len() - 1 {
            self.lemma_pin_all_users(qs, i);
            assert(qs[i] == ps[i]);
            assert(self.pin_all(qs).pinned.contains_key(qs[i].1));
        }
    }

    /// Pinning leaves the unused blocks flagged.
    pub(crate) proof fn lemma_pin_all_flags(self, ps: Seq<(nat, Hash)>)
        requires
            self.wf(),
            self.flags_all_unused(),
        ensures
            self.pin_all(ps).flags_all_unused(),
        decreases ps.len(),
    {
        if ps.len() > 0 {
            let qs = ps.drop_last();
            self.lemma_pin_all_flags(qs);
            self.lemma_pin_all(qs);
            let before = self.pin_all(qs);
            let (n, g) = ps.last();
            let after = before.pin_at(n, g);
            assert forall|h: Hash| #[trigger]
                after.pinned.contains_key(h) && after.users(h) == 0 implies after.flags.contains(
                h,
            ) by {
                assert(h != g);
                assert(before.pinned.contains_key(h));
            }
        }
    }

    /// A message leaves no block flagged that is in use.
    pub(crate) proof fn lemma_counted_flags<R, D>(self, msg: FollowStreamMsg<Hash, R, D>)
        requires
            self.wf(),
            self.flags_only_unused(),
        ensures
            self.counted(msg).flags_only_unused(),
    {
        let counted = self.counted(msg);
        self.lemma_pin_all(self.plan(msg));
        assert forall|h: Hash| #[trigger]
            counted.pinned.contains_key(h) && counted.flags.contains(h) implies counted.users(h)
            == 0 by {
            if names(msg, h) {
                law_reported_block_loses_its_flag(self, msg, h);
            } else {
                law_other_blocks_are_left_alone(self, msg, h);
            }
        }
    }

    /// Pinning takes up no count that was used up.
    pub(crate) proof fn lemma_pin_all_dead(self, ps: Seq<(nat, Hash)>, c: nat)
        requires
            self.wf(),
            c < self.issued,
            !self.cells.contains_key(c),
        ensures
            c < self.pin_all(ps).issued,
            !self.pin_all(ps).cells.contains_key(c),
        decreases ps.len(),
    {
        if ps.len() > 0 {
            self.lemma_pin_all_dead(ps.drop_last(), c);
            self.lemma_pin_all(ps.drop_last());
        }
    }

    /// A block gets the number that it is first pinned under.
    pub(crate) proof fn lemma_pin_all_first(self, ps: Seq<(nat, Hash)>, i: int)
        requires
            self.wf(),
            0 <= i < ps.len(),
            !self.pinned.contains_key(ps[i].1),
            forall|j: int| 0 <= j < i ==> (#[trigger] ps[j]).1 != ps[i].1,
        ensures
            self.pin_all(ps).pinned.contains_key(ps[i].1),
            self.pin_all(ps).pinned[ps[i].1].rel_block_num == ps[i].0,
        decreases ps.len(),
    {
        let qs = ps.drop_last();
        self.lemma_pin_all(qs);
        if i < ps.len() - 1 {
            assert forall|j: int| 0 <= j < i implies (#[trigger] qs[j]).1 != qs[i].1 by {
                assert(qs[j] == ps[j]);
            }
            self.lemma_pin_all_first(qs, i);
        } else {
            assert forall|j: int| 0 <= j < qs.len() implies (#[trigger] qs[j]).1 != ps[i].1 by {
                assert(qs[j] == ps[j]);
            }
            self.lemma_pin_all_other(qs, ps[i].1);
        }
    }

    /// Pinning counts one reference each time that a block is pinned.
    pub(crate) proof fn lemma_pin_all_counts(self, ps: Seq<(nat, Hash)>, hashes: Seq<Hash>, h: Hash)
        requires
            self.wf(),
            ps.len() == hashes.len(),
            forall|i: int| 0 <= i < ps.len() ==> (#[trigger] ps[i]).1 == hashes[i],
        ensures
            self.pin_all(ps).pinned.contains_key(h) <==> self.pinned.contains_key(h) || times(
                hashes,
                h,
            ) > 0,
            self.pin_all(ps).pinned.contains_key(h) ==> self.pin_all(ps).users(h) == times(
                hashes,
                h,
            ) + if self.pinned.contains_key(h) {
                self.users(h)
            } else {
                0
            },
        decreases ps.len(),
    {
        if ps.len() > 0 {
            let qs = ps.drop_last();
            assert forall|i: int| 0 <= i < qs.len() implies (#[trigger] qs[i]).1
                == hashes.drop_last()[i] by {
                assert(qs[i] == ps[i]);
            }
            self.lemma_pin_all_counts(qs, hashes.drop_last(), h);
            self.lemma_pin_all(qs);
            assert(ps[ps.len() - 1].1 == hashes.last());
        }
    }

    /// Pinning takes no references away.
    pub(crate) proof fn lemma_pin_all_keeps_refs(self, ps: Seq<(nat, Hash)>, c: nat)
        requires
            self.wf(),
            self.cells.contains_key(c),
        ensures
            self.pin_all(ps).cells.contains_key(c),
            self.pin_all(ps).cells[c].hash == self.cells[c].hash,
            self.pin_all(ps).external(c) >= self.external(c),
        decreases ps.len(),
    {
        if ps.len() > 0 {
            self.lemma_pin_all_keeps_refs(ps.drop_last(), c);
            self.lemma_pin_all(ps.drop_last());
        }
    }
}

/// Once the stream is ready, there is a subscription.
proof fn lemma_ready_first<Hash, R, D>(max_block_life: nat, id: String, ops: Seq<Op<Hash, R, D>>)
    requires
        ops.len() > 0,
        ops[0] == Op::<Hash, R, D>::Message(FollowStreamMsg::Ready(id)),
    ensures
        PinState::<Hash>::init(max_block_life).run(ops).subscription_id is Some,
    decreases ops.len(),
{
    let before = PinState::<Hash>::init(max_block_life).run(ops.drop_last());
    if ops.len() == 1 {
        assert(ops.last() == ops[0]);
    } else {
        assert(ops.drop_last()[0] == ops[0]);
        lemma_ready_first(max_block_life, id, ops.drop_last());
        law_reached_is_wf(max_block_life, ops.drop_last());
        law_subscription_stays(before, ops.last());
    }
}

} // verus!
