//! The mathematical model of pinning: what is pinned, how often each block is referred to, and
//! how a message changes that.

use crate::block_ref::{BlockRef, RefView};
use crate::events::{FollowEvent, FollowStreamMsg};
use vstd::prelude::*;

verus! {

/// A pinned block.
pub struct Pin {
    /// The number of the block, relative to the first finalized block.
    pub rel_block_num: nat,
    /// The count of the references to the block.
    pub cell: nat,
}

/// How many references to a block there are, the one that is kept with its pin among them.
pub struct Cell<Hash> {
    /// The hash of the block.
    pub hash: Hash,
    /// The number of references.
    pub strong: nat,
}

/// The state that pinning depends on.
#[verifier::ext_equal]
#[verifier::reject_recursive_types(Hash)]
pub struct PinState<Hash> {
    /// The number of the latest finalized block.
    pub rel_block_num: nat,
    /// The subscription that blocks are pinned under.
    pub subscription_id: Option<Seq<char>>,
    /// The longest period a block can be pinned for.
    pub max_block_life: nat,
    /// The currently seen and pinned blocks.
    pub pinned: Map<Hash, Pin>,
    /// The counts of references, those to blocks that are pinned no longer among them.
    pub cells: Map<nat, Cell<Hash>>,
    /// The blocks that were flagged to be unpinned when their references were given up.
    pub flags: Set<Hash>,
    /// How many references were ever made. The next count takes this as its name.
    pub issued: nat,
}

/// The blocks that a message refers to.
pub open spec fn msg_hashes<Hash, R, D>(msg: FollowStreamMsg<Hash, R, D>) -> Seq<Hash> {
    match msg {
        FollowStreamMsg::Event(FollowEvent::Initialized(d)) => seq![d.finalized_block_hash],
        FollowStreamMsg::Event(FollowEvent::NewBlock(d)) => seq![
            d.block_hash,
            d.parent_block_hash,
        ],
        FollowStreamMsg::Event(FollowEvent::BestBlockChanged(d)) => seq![d.best_block_hash],
        FollowStreamMsg::Event(FollowEvent::Finalized(d)) => d.finalized_block_hashes@
            + d.pruned_block_hashes@,
        _ => seq![],
    }
}

/// The blocks `hashes` with numbers above `last`: counting up from it if they are a `chain`, and
/// one more than it each if they are not.
pub open spec fn numbered<Hash>(last: nat, chain: bool, hashes: Seq<Hash>) -> Seq<(nat, Hash)> {
    Seq::new(
        hashes.len(),
        |i: int|
            (
                (last + if chain {
                    i + 1
                } else {
                    1
                }) as nat,
                hashes[i],
            ),
    )
}

impl<Hash> PinState<Hash> {
    /// The state before any message: nothing is pinned.
    pub open spec fn init(max_block_life: nat) -> Self {
        PinState {
            rel_block_num: 0,
            subscription_id: None,
            max_block_life,
            pinned: Map::empty(),
            cells: Map::empty(),
            flags: Set::empty(),
            issued: 0,
        }
    }

    /// Each pinned block has a count of its own, which is not zero, and only pinned blocks are
    /// flagged.
    pub open spec fn wf(self) -> bool {
        &&& forall|h: Hash| #[trigger]
            self.pinned.contains_key(h) ==> self.cells.contains_key(self.pinned[h].cell)
                && self.cells[self.pinned[h].cell].hash == h
        &&& forall|c: nat| #[trigger]
            self.cells.contains_key(c) ==> c < self.issued && 1 <= self.cells[c].strong
                <= self.issued
        &&& forall|h: Hash| #[trigger] self.flags.contains(h) ==> self.pinned.contains_key(h)
    }

    /// Is `c` the count of a block that is pinned now?
    pub open spec fn stored(self, c: nat) -> bool {
        &&& self.pinned.contains_key(self.cells[c].hash)
        &&& self.pinned[self.cells[c].hash].cell == c
    }

    /// The number of references in the count `c` that were handed out.
    pub open spec fn external(self, c: nat) -> int {
        self.cells[c].strong - if self.stored(c) {
            1int
        } else {
            0int
        }
    }

    /// The references to the pinned block `h` that were handed out and not given up.
    pub open spec fn users(self, h: Hash) -> int {
        self.external(self.pinned[h].cell)
    }

    /// Is `r` counted here, as one of the references that were handed out?
    pub open spec fn live(self, r: RefView<Hash>) -> bool {
        &&& r.cell matches Some(c)
        &&& self.cells.contains_key(c)
        &&& self.cells[c].hash == r.hash
        &&& self.external(c) > 0
    }

    /// The reference to the pinned block `h`.
    pub open spec fn ref_to(self, h: Hash) -> RefView<Hash> {
        RefView { cell: Some(self.pinned[h].cell), hash: h }
    }

    /// One reference more in the count `c`.
    pub open spec fn take(self, c: nat) -> Self {
        PinState {
            cells: self.cells.insert(
                c,
                Cell { hash: self.cells[c].hash, strong: self.cells[c].strong + 1 },
            ),
            issued: self.issued + 1,
            ..self
        }
    }

    /// One reference less in the count `c`. If only the reference that is kept with the pin is left
    /// then, the block is flagged.
    pub open spec fn give_up(self, c: nat) -> Self {
        let cell = self.cells[c];
        PinState {
            cells: if cell.strong == 1 {
                self.cells.remove(c)
            } else {
                self.cells.insert(c, Cell { hash: cell.hash, strong: (cell.strong - 1) as nat })
            },
            flags: if cell.strong == 2 && self.stored(c) {
                self.flags.insert(cell.hash)
            } else {
                self.flags
            },
            ..self
        }
    }

    /// The reference `r` is copied.
    pub open spec fn cloned(self, r: RefView<Hash>) -> Self {
        if self.live(r) {
            self.take(r.cell->0)
        } else {
            self
        }
    }

    /// What a copy of the reference `r` is: one that is counted only where `r` is.
    pub open spec fn clone_of(self, r: RefView<Hash>) -> RefView<Hash> {
        RefView {
            cell: if self.live(r) {
                r.cell
            } else {
                None
            },
            hash: r.hash,
        }
    }

    /// The reference `r` is given up.
    pub open spec fn dropped(self, r: RefView<Hash>) -> Self {
        if self.live(r) {
            self.give_up(r.cell->0)
        } else {
            self
        }
    }

    /// The block `h` is pinned under the given number, unless it is pinned already, and a
    /// reference to it is handed out. It is not flagged any more.
    pub open spec fn pin_at(self, rel_block_num: nat, h: Hash) -> Self {
        if self.pinned.contains_key(h) {
            PinState { flags: self.flags.remove(h), ..self.take(self.pinned[h].cell) }
        } else {
            PinState {
                pinned: self.pinned.insert(h, Pin { rel_block_num, cell: self.issued }),
                cells: self.cells.insert(self.issued, Cell { hash: h, strong: 2 }),
                flags: self.flags.remove(h),
                issued: self.issued + 2,
                ..self
            }
        }
    }

    /// The blocks of `ps` are pinned under their numbers, one after the other.
    pub open spec fn pin_all(self, ps: Seq<(nat, Hash)>) -> Self
        decreases ps.len(),
    {
        if ps.len() == 0 {
            self
        } else {
            self.pin_all(ps.drop_last()).pin_at(ps.last().0, ps.last().1)
        }
    }

    /// Is the reference that is kept with a pin in `gone` part of the count `c`?
    pub open spec fn kept_for(self, gone: Set<Hash>, c: nat) -> bool {
        self.stored(c) && gone.contains(self.cells[c].hash)
    }

    /// The blocks in `gone` are neither pinned nor flagged any longer, and the references that were
    /// kept with their pins are given up.
    pub open spec fn forget(self, gone: Set<Hash>) -> Self {
        PinState {
            pinned: self.pinned.remove_keys(gone),
            cells: Map::new(
                |c: nat|
                    self.cells.contains_key(c) && !(self.kept_for(gone, c) && self.cells[c].strong
                        == 1),
                |c: nat|
                    if self.kept_for(gone, c) {
                        Cell {
                            hash: self.cells[c].hash,
                            strong: (self.cells[c].strong - 1) as nat,
                        }
                    } else {
                        self.cells[c]
                    },
            ),
            flags: self.flags.difference(gone),
            ..self
        }
    }

    /// How far the pinned block `h` lies behind the latest finalized block.
    pub open spec fn age(self, h: Hash) -> nat {
        if self.rel_block_num >= self.pinned[h].rel_block_num {
            (self.rel_block_num - self.pinned[h].rel_block_num) as nat
        } else {
            0
        }
    }

    /// Has the pinned block `h` reached the age at which it is unpinned in any case?
    pub open spec fn too_old(self, h: Hash) -> bool {
        self.age(h) >= self.max_block_life
    }

    /// Is the pinned block `h` old enough to be unpinned for its flag? It is if it is not newer
    /// than the latest finalized block.
    pub open spec fn old_enough(self, h: Hash) -> bool {
        self.pinned[h].rel_block_num <= self.rel_block_num
    }

    /// The pinned blocks that are too old, or that are flagged and old enough.
    pub open spec fn due(self) -> Set<Hash> {
        Set::new(
            |h: Hash|
                self.pinned.contains_key(h) && (self.too_old(h) || (self.flags.contains(h)
                    && self.old_enough(h))),
        )
    }

    /// The blocks that are unpinned when unpinning takes place: those that are due, once there is
    /// a subscription to unpin them under.
    pub open spec fn to_unpin(self) -> Set<Hash> {
        if self.subscription_id is Some {
            self.due()
        } else {
            Set::empty()
        }
    }

    /// Unpinning takes place. The flags of blocks that are not due yet are kept. Without a
    /// subscription there is nothing to unpin blocks under, and all flags are cleared.
    pub open spec fn unpin(self) -> Self {
        if self.subscription_id is Some {
            self.forget(self.due())
        } else {
            PinState { flags: Set::empty(), ..self }
        }
    }

    /// The subscription has ended, and all blocks are unpinned with it.
    pub open spec fn stopped(self) -> Self {
        PinState { flags: Set::empty(), rel_block_num: 0, ..self.forget(self.pinned.dom()) }
    }

    /// The number that a block is taken to have when it is the parent of a new one: its own, if
    /// it is pinned, and that of the latest finalized block if it is not.
    pub open spec fn parent_num(self, parent: Hash) -> nat {
        if self.pinned.contains_key(parent) {
            self.pinned[parent].rel_block_num
        } else {
            self.rel_block_num
        }
    }

    /// The plan of the finalized blocks: they follow on the latest finalized block.
    pub open spec fn finalized_plan(self, hashes: Seq<Hash>) -> Seq<(nat, Hash)> {
        numbered(self.rel_block_num, true, hashes)
    }

    /// The plan of the pruned blocks, when `finalized` blocks were finalized with them: one more
    /// than the last of those.
    pub open spec fn pruned_plan(self, finalized: nat, hashes: Seq<Hash>) -> Seq<(nat, Hash)> {
        numbered(self.rel_block_num + finalized, false, hashes)
    }

    /// The blocks that a message refers to, in the order in which they are pinned, each with the
    /// number that it gets if it is not pinned yet.
    pub open spec fn plan<R, D>(self, msg: FollowStreamMsg<Hash, R, D>) -> Seq<(nat, Hash)> {
        match msg {
            FollowStreamMsg::Event(FollowEvent::Initialized(d)) => seq![
                (self.rel_block_num, d.finalized_block_hash),
            ],
            FollowStreamMsg::Event(FollowEvent::NewBlock(d)) => {
                let n = self.parent_num(d.parent_block_hash);
                seq![(n + 1, d.block_hash), (n, d.parent_block_hash)]
            },
            FollowStreamMsg::Event(FollowEvent::BestBlockChanged(d)) => seq![
                (self.rel_block_num + 1, d.best_block_hash),
            ],
            FollowStreamMsg::Event(FollowEvent::Finalized(d)) => {
                self.finalized_plan(d.finalized_block_hashes@) + self.pruned_plan(
                    d.finalized_block_hashes@.len(),
                    d.pruned_block_hashes@,
                )
            },
            _ => seq![],
        }
    }

    /// The state once all blocks that the message refers to are pinned.
    pub open spec fn pinned_for<R, D>(self, msg: FollowStreamMsg<Hash, R, D>) -> Self {
        self.pin_all(self.plan(msg))
    }

    /// The state when the message has been pinned, and its finalized blocks have been counted.
    pub open spec fn counted<R, D>(self, msg: FollowStreamMsg<Hash, R, D>) -> Self {
        PinState {
            rel_block_num: match msg {
                FollowStreamMsg::Event(FollowEvent::Finalized(d)) => self.rel_block_num
                    + d.finalized_block_hashes@.len(),
                _ => self.rel_block_num,
            },
            ..self.pinned_for(msg)
        }
    }

    /// The state after the message.
    pub open spec fn after<R, D>(self, msg: FollowStreamMsg<Hash, R, D>) -> Self {
        match msg {
            FollowStreamMsg::Ready(id) => PinState { subscription_id: Some(id@), ..self },
            FollowStreamMsg::Event(FollowEvent::Finalized(_)) => self.counted(msg).unpin(),
            FollowStreamMsg::Event(FollowEvent::Stop) => self.stopped(),
            _ => self.counted(msg),
        }
    }

    /// The blocks that the message leads to unpin requests for.
    pub open spec fn unpinned_by<R, D>(self, msg: FollowStreamMsg<Hash, R, D>) -> Set<Hash> {
        match msg {
            FollowStreamMsg::Event(FollowEvent::Finalized(_)) => self.counted(msg).to_unpin(),
            _ => Set::empty(),
        }
    }

    /// Can the message be taken without any number growing out of range?
    pub open spec fn fits<R, D>(self, msg: FollowStreamMsg<Hash, R, D>) -> bool {
        &&& self.issued + 2 * self.plan(msg).len() <= u64::MAX
        &&& match msg {
            FollowStreamMsg::Event(FollowEvent::NewBlock(d)) => self.parent_num(d.parent_block_hash)
                + 1 <= usize::MAX,
            FollowStreamMsg::Event(FollowEvent::BestBlockChanged(_)) => self.rel_block_num + 1
                <= usize::MAX,
            FollowStreamMsg::Event(FollowEvent::Finalized(d)) => {
                &&& self.rel_block_num + d.finalized_block_hashes@.len() <= usize::MAX
                &&& d.pruned_block_hashes@.len() > 0 ==> self.rel_block_num
                    + d.finalized_block_hashes@.len() + 1 <= usize::MAX
            },
            _ => true,
        }
    }

    /// Do `refs` stand for the blocks `hashes`, one for one?
    pub open spec fn refs_for(self, hashes: Seq<Hash>, refs: Seq<BlockRef<Hash>>) -> bool {
        &&& refs.len() == hashes.len()
        &&& forall|i: int|
            0 <= i < hashes.len() ==> (#[trigger] refs[i])@ == self.ref_to(hashes[i])
    }

    /// Is `o` the message `i`, with each hash replaced by the reference to its block?
    pub open spec fn hands_back<R, D>(
        self,
        i: FollowStreamMsg<Hash, R, D>,
        o: FollowStreamMsg<BlockRef<Hash>, R, D>,
    ) -> bool {
        match (i, o) {
            (FollowStreamMsg::Ready(i), FollowStreamMsg::Ready(o)) => o == i,
            (FollowStreamMsg::Event(i), FollowStreamMsg::Event(o)) => self.hands_back_event(i, o),
            _ => false,
        }
    }

    /// Is `o` the event `i`, with each hash replaced by the reference to its block?
    pub open spec fn hands_back_event<R, D>(
        self,
        i: FollowEvent<Hash, R, D>,
        o: FollowEvent<BlockRef<Hash>, R, D>,
    ) -> bool {
        match (i, o) {
            (FollowEvent::Initialized(i), FollowEvent::Initialized(o)) => {
                &&& o.finalized_block_hash@ == self.ref_to(i.finalized_block_hash)
                &&& o.finalized_block_runtime == i.finalized_block_runtime
            },
            (FollowEvent::NewBlock(i), FollowEvent::NewBlock(o)) => {
                &&& o.block_hash@ == self.ref_to(i.block_hash)
                &&& o.parent_block_hash@ == self.ref_to(i.parent_block_hash)
                &&& o.new_runtime == i.new_runtime
            },
            (FollowEvent::BestBlockChanged(i), FollowEvent::BestBlockChanged(o)) => {
                o.best_block_hash@ == self.ref_to(i.best_block_hash)
            },
            (FollowEvent::Finalized(i), FollowEvent::Finalized(o)) => {
                &&& self.refs_for(i.finalized_block_hashes@, o.finalized_block_hashes@)
                &&& self.refs_for(i.pruned_block_hashes@, o.pruned_block_hashes@)
            },
            (FollowEvent::OperationBodyDone(i), FollowEvent::OperationBodyDone(o)) => o == i,
            (FollowEvent::OperationCallDone(i), FollowEvent::OperationCallDone(o)) => o == i,
            (FollowEvent::OperationStorageItems(i), FollowEvent::OperationStorageItems(o)) => o
                == i,
            (
                FollowEvent::OperationWaitingForContinue(i),
                FollowEvent::OperationWaitingForContinue(o),
            ) => o == i,
            (FollowEvent::OperationStorageDone(i), FollowEvent::OperationStorageDone(o)) => o == i,
            (FollowEvent::OperationInaccessible(i), FollowEvent::OperationInaccessible(o)) => o
                == i,
            (FollowEvent::OperationError(i), FollowEvent::OperationError(o)) => o == i,
            (FollowEvent::Stop, FollowEvent::Stop) => true,
            _ => false,
        }
    }
}

impl<Hash> PinState<Hash> {
    /// Pinning a block keeps the state well-formed, and the block is pinned after it.
    pub proof fn lemma_pin_at(self, rel_block_num: nat, h: Hash)
        requires
            self.wf(),
        ensures
            self.pin_at(rel_block_num, h).wf(),
            self.pin_at(rel_block_num, h).pinned.contains_key(h),
            !self.pin_at(rel_block_num, h).flags.contains(h),
    {
    }

    /// The blocks that are pinned for a message are those that it refers to.
    pub proof fn lemma_plan<R, D>(self, msg: FollowStreamMsg<Hash, R, D>)
        ensures
            self.plan(msg).len() == msg_hashes(msg).len(),
            forall|i: int|
                0 <= i < msg_hashes(msg).len() ==> (#[trigger] self.plan(msg)[i]).1 == msg_hashes(
                    msg,
                )[i],
    {
    }

    /// Pinning blocks keeps the state well-formed. What was pinned stays pinned as it was, each
    /// of the blocks is pinned after it, and at most two references are made for each.
    pub proof fn lemma_pin_all(self, ps: Seq<(nat, Hash)>)
        requires
            self.wf(),
        ensures
            self.pin_all(ps).wf(),
            self.pinned.submap_of(self.pin_all(ps).pinned),
            forall|i: int| 0 <= i < ps.len() ==> self.pin_all(ps).pinned.contains_key(
                (#[trigger] ps[i]).1,
            ),
            self.issued <= self.pin_all(ps).issued <= self.issued + 2 * ps.len(),
            self.pin_all(ps).rel_block_num == self.rel_block_num,
            self.pin_all(ps).subscription_id == self.subscription_id,
            self.pin_all(ps).max_block_life == self.max_block_life,
        decreases ps.len(),
    {
        if ps.len() > 0 {
            let before = self.pin_all(ps.drop_last());
            self.lemma_pin_all(ps.drop_last());
            before.lemma_pin_at(ps.last().0, ps.last().1);
            assert forall|i: int| 0 <= i < ps.len() implies self.pin_all(ps).pinned.contains_key(
                (#[trigger] ps[i]).1,
            ) by {
                if i < ps.len() - 1 {
                    assert(ps.drop_last()[i] == ps[i]);
                    assert(before.pinned.contains_key(ps.drop_last()[i].1));
                }
            }
        }
    }

    /// Pinning one block more.
    pub proof fn lemma_pin_all_push(self, ps: Seq<(nat, Hash)>, p: (nat, Hash))
        ensures
            self.pin_all(ps.push(p)) == self.pin_all(ps).pin_at(p.0, p.1),
    {
        assert(ps.push(p).drop_last() =~= ps);
    }

    /// Pinning blocks in two goes.
    pub proof fn lemma_pin_all_add(self, ps: Seq<(nat, Hash)>, qs: Seq<(nat, Hash)>)
        ensures
            self.pin_all(ps + qs) == self.pin_all(ps).pin_all(qs),
        decreases qs.len(),
    {
        if qs.len() == 0 {
            assert(ps + qs =~= ps);
        } else {
            assert((ps + qs).drop_last() =~= ps + qs.drop_last());
            self.lemma_pin_all_add(ps, qs.drop_last());
        }
    }

    /// Pinning blocks does not depend on the number of the latest finalized block.
    pub proof fn lemma_pin_all_rel(self, rel_block_num: nat, ps: Seq<(nat, Hash)>)
        ensures
            (PinState { rel_block_num, ..self }).pin_all(ps) == (PinState {
                rel_block_num,
                ..self.pin_all(ps)
            }),
        decreases ps.len(),
    {
        if ps.len() > 0 {
            self.lemma_pin_all_rel(rel_block_num, ps.drop_last());
        }
    }

    /// Copying a reference keeps the state well-formed.
    pub proof fn lemma_cloned(self, r: RefView<Hash>)
        requires
            self.wf(),
        ensures
            self.cloned(r).wf(),
    {
    }

    /// Giving a reference up keeps the state well-formed.
    pub proof fn lemma_dropped(self, r: RefView<Hash>)
        requires
            self.wf(),
        ensures
            self.dropped(r).wf(),
    {
    }

    /// Unpinning blocks keeps the state well-formed.
    pub proof fn lemma_forget(self, gone: Set<Hash>)
        requires
            self.wf(),
        ensures
            self.forget(gone).wf(),
    {
    }

    /// To unpin one block is to remove its pin and its flag, and to give up the reference that was
    /// kept with it.
    pub proof fn lemma_forget_one(self, h: Hash)
        requires
            self.wf(),
            self.pinned.contains_key(h),
        ensures
            self.forget(set![h]) == (PinState {
                pinned: self.pinned.remove(h),
                flags: self.flags.remove(h),
                ..self
            }).give_up(self.pinned[h].cell),
    {
        let l = self.forget(set![h]);
        let r = (PinState {
            pinned: self.pinned.remove(h),
            flags: self.flags.remove(h),
            ..self
        }).give_up(self.pinned[h].cell);
        assert(l.pinned =~= r.pinned);
        assert(l.cells =~= r.cells);
        assert(l.flags =~= r.flags);
    }

    /// Unpinning no blocks changes nothing.
    pub proof fn lemma_forget_none(self)
        ensures
            self.forget(Set::empty()) == self,
    {
        let l = self.forget(Set::empty());
        assert(l.pinned =~= self.pinned);
        assert(l.cells =~= self.cells);
        assert(l.flags =~= self.flags);
    }

    /// Blocks may be unpinned one after the other.
    pub proof fn lemma_forget_insert(self, gone: Set<Hash>, h: Hash)
        requires
            self.wf(),
            !gone.contains(h),
        ensures
            self.forget(gone.insert(h)) == self.forget(gone).forget(set![h]),
    {
        let l = self.forget(gone.insert(h));
        let m = self.forget(gone);
        let r = m.forget(set![h]);
        assert(l.pinned =~= r.pinned);
        assert forall|c: nat| self.cells.contains_key(c) implies {
            &&& self.kept_for(gone.insert(h), c) <==> self.kept_for(gone, c) || (m.cells.contains_key(
                c,
            ) && m.kept_for(set![h], c))
            &&& !(self.kept_for(gone, c) && m.kept_for(set![h], c))
        } by {}
        assert(l.cells =~= r.cells);
        assert(l.flags =~= r.flags);
    }
}

} // verus!
