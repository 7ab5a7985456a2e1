//! Pinning: which blocks are pinned, and when they are unpinned.

use crate::block_ref;
use crate::block_ref::{BlockHash, BlockRef};
use crate::counts::RefCounts;
use crate::events::{
    BestBlockChanged, Finalized, FollowEvent, FollowStreamMsg, Initialized, NewBlock,
};
use crate::model;
use crate::model::{Pin, PinState};
use crate::poll;
use crate::poll::{PollAction, PollEvent, Reaction, UnpinRequest};
use std::collections::{HashMap, HashSet};
use vstd::prelude::*;

verus! {

/// What is kept of a pinned block.
#[derive(Debug)]
struct PinnedDetails<Hash> {
    /// How old is the block?
    rel_block_num: usize,
    /// A block ref we can hand out to keep blocks pinned. Because we store one here until it's
    /// unpinned, the live count will only drop to 1 when no external refs are left.
    block_ref: BlockRef<Hash>,
}

impl<Hash> View for PinnedDetails<Hash> {
    type V = Pin;

    closed spec fn view(&self) -> Pin {
        Pin { rel_block_num: self.rel_block_num as nat, cell: self.block_ref@.cell->0 }
    }
}

/// Builds on a stream of follow events, and handles pinning. It replaces any block hash seen in
/// the follow events with a [`BlockRef`] which, when all clones are dropped, will lead to an
/// "unpin" call for that block hash being requested. It will also automatically unpin any blocks
/// that exceed a given max age, to try and prevent the underlying stream from ending (and _all_
/// blocks from being unpinned as a result). Put simply, it tries to keep every block pinned as
/// long as possible until the block is no longer used anywhere.
#[derive(Debug)]
#[verifier::reject_recursive_types(Hash)]
pub struct FollowStreamUnpin<Hash> {
    // Each new finalized block increments this. Allows us to track
    // the age of blocks so that we can unpin old ones.
    rel_block_num: usize,
    // The latest ID of the subscription, which we can use to unpin blocks.
    subscription_id: Option<String>,
    // The longest period a block can be pinned for.
    max_block_life: usize,
    // The currently seen and pinned blocks.
    pinned: HashMap<Hash, PinnedDetails<Hash>>,
    // How many references to each block there are.
    counts: RefCounts<Hash>,
    // Blocks that were flagged to be unpinned as references were dropped.
    unpin_flags: HashSet<Hash>,
    // How many references were made so far.
    issued: u64,
}

impl<Hash> View for FollowStreamUnpin<Hash> {
    type V = PinState<Hash>;

    closed spec fn view(&self) -> PinState<Hash> {
        PinState {
            rel_block_num: self.rel_block_num as nat,
            subscription_id: match self.subscription_id {
                Some(id) => Some(id@),
                None => None,
            },
            max_block_life: self.max_block_life as nat,
            pinned: self.pinned@.map_values(|d: PinnedDetails<Hash>| d@),
            cells: self.counts@,
            flags: self.unpin_flags@,
            issued: self.issued as nat,
        }
    }
}

/// The message that blocks were finalized.
spec fn finalized_msg<Hash, R, D>(details: Finalized<Hash>) -> FollowStreamMsg<Hash, R, D> {
    FollowStreamMsg::Event(FollowEvent::Finalized(details))
}

impl<Hash: BlockHash> FollowStreamUnpin<Hash> {
    /// Is the state that this stands for well-formed and within the range of machine numbers, and
    /// is it kept as it should be?
    pub open spec fn wf(self) -> bool {
        &&& self@.wf()
        &&& self@.issued <= u64::MAX
        &&& self@.rel_block_num <= usize::MAX
        &&& self.inv()
    }

    /// Hashes work as keys, and the references that are kept with the pins refer to the pinned
    /// blocks.
    pub closed spec fn inv(self) -> bool {
        &&& block_ref::works_as_key::<Hash>()
        &&& forall|h: Hash| #[trigger]
            self.pinned@.contains_key(h) ==> self.pinned@[h].block_ref@ == self@.ref_to(h)
    }

    /// Where the state is kept as it should be, hashes work as keys.
    pub proof fn lemma_hashes_are_keys(self)
        requires
            self.inv(),
        ensures
            block_ref::works_as_key::<Hash>(),
    {
    }

    /// Create a new [`FollowStreamUnpin`].
    ///
    /// Hashes are the keys of a hash table, so two of them have to be equal just if they are the
    /// same value, and such have to be hashed alike. This is known of the integer types.
    pub fn new(max_block_life: usize) -> (r: Self)
        requires
            block_ref::works_as_key::<Hash>(),
        ensures
            r.wf(),
            r@ == PinState::<Hash>::init(max_block_life as nat),
    {
        let r = FollowStreamUnpin {
            rel_block_num: 0,
            subscription_id: None,
            max_block_life,
            pinned: HashMap::new(),
            counts: RefCounts::new(),
            unpin_flags: HashSet::new(),
            issued: 0,
        };
        assert(r@.pinned =~= Map::<Hash, Pin>::empty());
        r
    }

    /// Is the block hash currently pinned.
    pub fn is_pinned(&self, hash: &Hash) -> (r: bool)
        requires
            self.wf(),
        ensures
            r == self@.pinned.contains_key(*hash),
    {
        self.pinned.contains_key(hash)
    }

    /// Can one reference more be made?
    pub fn can_clone(&self) -> (r: bool)
        ensures
            r == (self@.issued < u64::MAX),
    {
        self.issued < u64::MAX
    }

    /// Pin a block, or return the reference to an already-pinned block. If the block has been
    /// registered to be unpinned, we'll clear those flags, so that it won't be unpinned. If the
    /// unpin request has already been made though, then the block will be unpinned.
    fn pin_block_at(&mut self, rel_block_num: usize, hash: Hash) -> (r: BlockRef<Hash>)
        requires
            old(self).wf(),
            old(self)@.issued + 2 <= u64::MAX,
        ensures
            final(self).wf(),
            final(self)@ == old(self)@.pin_at(rel_block_num as nat, hash),
            r@ == final(self)@.ref_to(hash),
    {
        proof {
            old(self)@.lemma_pin_at(rel_block_num as nat, hash);
        }
        let known = match self.pinned.get(&hash) {
            Some(details) => details.block_ref.cell(),
            None => None,
        };
        // Clear any unpin flags set against the block.
        self.unpin_flags.remove(&hash);
        match known {
            Some(cell) => {
                self.take(cell);
                assert(self@ =~= old(self)@.pin_at(rel_block_num as nat, hash));
                BlockRef::counted(cell, hash)
            },
            None => {
                // If there's not an entry already, make one and return it.
                let cell = self.issued;
                let details = PinnedDetails {
                    rel_block_num,
                    block_ref: BlockRef::counted(cell, hash),
                };
                self.pinned.insert(hash, details);
                self.counts.set(cell, hash, 2);
                self.issued = cell + 2;
                assert(self@.pinned =~= old(self)@.pinned.insert(
                    hash,
                    Pin { rel_block_num: rel_block_num as nat, cell: cell as nat },
                ));
                BlockRef::counted(cell, hash)
            },
        }
    }

    /// Is the reference that is kept with the pin of a block part of this count?
    fn is_stored(&self, cell: u64, hash: &Hash) -> (r: bool)
        requires
            self.inv(),
        ensures
            r == (self@.pinned.contains_key(*hash) && self@.pinned[*hash].cell == cell),
    {
        match self.pinned.get(hash) {
            Some(details) => {
                assert(self.pinned@.contains_key(*hash));
                details.block_ref.cell() == Some(cell)
            },
            None => false,
        }
    }

    /// The count of a reference that was handed out, if it is counted here.
    fn live_cell(&self, r: &BlockRef<Hash>) -> (cell: Option<u64>)
        requires
            self.wf(),
        ensures
            match cell {
                Some(c) => self@.live(r@) && r@.cell == Some(c as nat),
                None => !self@.live(r@),
            },
    {
        let cell = match r.cell() {
            Some(cell) => cell,
            None => return None,
        };
        let count = match self.counts.get(cell) {
            Some(count) => count,
            None => return None,
        };
        let least: u64 = if self.is_stored(cell, &count.hash) { 1 } else { 0 };
        if count.hash == r.hash() && count.strong > least {
            Some(cell)
        } else {
            None
        }
    }

    /// Count one reference more.
    fn take(&mut self, cell: u64)
        requires
            old(self)@.cells.contains_key(cell as nat),
            old(self)@.cells[cell as nat].strong <= old(self)@.issued < u64::MAX,
        ensures
            final(self)@ == old(self)@.take(cell as nat),
            final(self).pinned@ == old(self).pinned@,
    {
        if let Some(count) = self.counts.get(cell) {
            self.counts.set(cell, count.hash, count.strong + 1);
        }
        self.issued = self.issued + 1;
    }

    /// Count one reference less, and flag the block if only the reference that is kept with its pin
    /// is left.
    fn give_up(&mut self, cell: u64)
        requires
            old(self).inv(),
            old(self)@.cells.contains_key(cell as nat),
            old(self)@.cells[cell as nat].strong >= 1,
        ensures
            final(self)@ == old(self)@.give_up(cell as nat),
            final(self).pinned@ == old(self).pinned@,
    {
        if let Some(count) = self.counts.get(cell) {
            // One ref is kept with the pin, so if this is the second ref, it's the only
            // "external" one left and we should ask to unpin the block. If the block has already
            // been unpinned, there is nothing to ask for, however many refs remain.
            if count.strong == 2 && self.is_stored(cell, &count.hash) {
                self.unpin_flags.insert(count.hash);
            }
            if count.strong == 1 {
                self.counts.remove(cell);
            } else {
                self.counts.set(cell, count.hash, count.strong - 1);
            }
        }
    }

    /// Remove the pin and the flag of a block, and give up the reference that was kept with it.
    fn forget(&mut self, hash: Hash)
        requires
            old(self).wf(),
        ensures
            final(self).wf(),
            final(self)@ == old(self)@.forget(set![hash]),
    {
        proof {
            old(self)@.lemma_forget(set![hash]);
        }
        self.unpin_flags.remove(&hash);
        match self.pinned.remove(&hash) {
            Some(details) => {
                proof {
                    old(self)@.lemma_forget_one(hash);
                }
                assert(old(self)@.pinned.contains_key(hash));
                assert(self@.pinned =~= old(self)@.pinned.remove(hash));
                assert(details.block_ref@ == old(self)@.ref_to(hash));
                if let Some(cell) = details.block_ref.cell() {
                    self.give_up(cell);
                }
            },
            None => {
                assert(self.pinned@ =~= old(self).pinned@);
                assert(self@.pinned =~= old(self)@.forget(set![hash]).pinned);
                assert(self@.cells =~= old(self)@.forget(set![hash]).cells);
                assert(self@.flags =~= old(self)@.forget(set![hash]).flags);
            },
        }
    }

    /// Remove the pins of several blocks, as [`FollowStreamUnpin::forget`] does for one.
    fn forget_all(&mut self, hashes: &Vec<Hash>)
        requires
            old(self).wf(),
            hashes@.no_duplicates(),
        ensures
            final(self).wf(),
            final(self)@ == old(self)@.forget(hashes@.to_set()),
    {
        proof {
            assert(hashes@.take(0).to_set() =~= Set::empty());
            old(self)@.lemma_forget_none();
        }
        for i in 0..hashes.len()
            invariant
                self.wf(),
                old(self)@.wf(),
                hashes@.no_duplicates(),
                self@ == old(self)@.forget(hashes@.take(i as int).to_set()),
        {
            let ghost gone = hashes@.take(i as int).to_set();
            self.forget(hashes[i]);
            proof {
                assert(!gone.contains(hashes@[i as int]));
                old(self)@.lemma_forget_insert(gone, hashes@[i as int]);
                assert(hashes@.take(i + 1) =~= hashes@.take(i as int).push(hashes@[i as int]));
                assert(hashes@.take(i + 1).to_set() =~= gone.insert(hashes@[i as int])) by {
                    assert forall|h: Hash| gone.insert(hashes@[i as int]).contains(h) implies hashes@.take(
                        i + 1,
                    ).contains(h) by {
                        if h == hashes@[i as int] {
                            assert(hashes@.take(i + 1)[i as int] == h);
                        } else {
                            let k = choose|k: int|
                                0 <= k < i && hashes@.take(i as int)[k] == h;
                            assert(hashes@.take(i + 1)[k] == h);
                        }
                    }
                }
            }
        }
        assert(hashes@.take(hashes@.len() as int) =~= hashes@);
    }

    /// All pinned blocks.
    fn pinned_hashes(&self) -> (r: Vec<Hash>)
        requires
            self.wf(),
        ensures
            r@.no_duplicates(),
            r@.to_set() == self@.pinned.dom(),
    {
        let mut hashes: Vec<Hash> = Vec::new();
        for (hash, _details) in iter: self.pinned.iter()
            invariant
                self.wf(),
                iter.seq().no_duplicates(),
                forall|k: int|
                    0 <= k < iter.seq().len() ==> self.pinned@.contains_key(
                        *(#[trigger] iter.seq()[k]).0,
                    ) && self.pinned@[*iter.seq()[k].0] == *iter.seq()[k].1,
                forall|h: Hash| #[trigger]
                    self.pinned@.contains_key(h) ==> iter.seq().contains((&h, &self.pinned@[h])),
                hashes@.no_duplicates(),
                forall|h: Hash| #[trigger]
                    hashes@.contains(h) <==> exists|k: int|
                        0 <= k < iter.index() && *(#[trigger] iter.seq()[k]).0 == h,
        {
            let ghost before = hashes@;
            let ghost n = iter.index();
            hashes.push(*hash);
            proof {
                assert(*iter.seq()[n].0 == *hash);
                assert(!before.contains(*hash));
                assert forall|h: Hash| #[trigger]
                    hashes@.contains(h) <==> exists|k: int|
                        0 <= k < n + 1 && *(#[trigger] iter.seq()[k]).0 == h by {
                    if before.contains(h) {
                        let j = before.index_of(h);
                        assert(hashes@[j] == h);
                    }
                    if h == *hash {
                        assert(hashes@[before.len() as int] == h);
                    }
                }
            }
        }
        proof {
            assert forall|h: Hash| self@.pinned.contains_key(h) implies #[trigger] hashes@.contains(
                h,
            ) by {
                assert(self.pinned@.contains_key(h));
            }
            assert(hashes@.to_set() =~= self@.pinned.dom());
        }
        hashes
    }

    /// The pinned blocks that are too old, or that are flagged and old enough.
    fn due(&self) -> (r: Vec<Hash>)
        requires
            self.wf(),
        ensures
            r@.no_duplicates(),
            r@.to_set() == self@.due(),
    {
        let hashes = self.pinned_hashes();
        let mut blocks: Vec<Hash> = Vec::new();
        for i in 0..hashes.len()
            invariant
                self.wf(),
                hashes@.no_duplicates(),
                hashes@.to_set() == self@.pinned.dom(),
                blocks@.no_duplicates(),
                forall|h: Hash| #[trigger]
                    blocks@.contains(h) <==> self@.due().contains(h) && hashes@.take(
                        i as int,
                    ).contains(h),
        {
            let ghost before = blocks@;
            let hash = hashes[i];
            assert(hashes@.to_set().contains(hash));
            if let Some(details) = self.pinned.get(&hash) {
                // The block is too old, or it's been flagged to be unpinned (no refs to it left)
                // and is not newer than the last finalized block.
                if self.rel_block_num.saturating_sub(details.rel_block_num) >= self.max_block_life
                    || (self.unpin_flags.contains(&hash) && details.rel_block_num
                    <= self.rel_block_num) {
                    blocks.push(hash);
                }
            }
            proof {
                let seen = hashes@.take(i as int);
                assert(hashes@.take(i + 1) =~= seen.push(hash));
                assert(!seen.contains(hash));
                assert(!before.contains(hash));
                assert forall|h: Hash| #[trigger]
                    blocks@.contains(h) <==> self@.due().contains(h) && hashes@.take(
                        i + 1,
                    ).contains(h) by {
                    vstd::seq_lib::lemma_seq_contains_after_push(seen, hash, h);
                    vstd::seq_lib::lemma_seq_contains_after_push(before, hash, h);
                }
            }
        }
        proof {
            assert(hashes@.take(hashes@.len() as int) =~= hashes@);
            assert forall|h: Hash| self@.due().contains(h) implies #[trigger] blocks@.contains(h) by {
                assert(hashes@.to_set().contains(h));
            }
            assert(blocks@.to_set() =~= self@.due());
        }
        blocks
    }

    /// Unpin any blocks that are either too old, or have the unpin flag set and are old enough.
    fn unpin_blocks(&mut self) -> (r: Vec<UnpinRequest<Hash>>)
        requires
            old(self).wf(),
        ensures
            final(self).wf(),
            final(self)@ == old(self)@.unpin(),
            poll::requests_for(r@, old(self)@.to_unpin(), old(self)@.subscription_id),
    {
        let mut requests: Vec<UnpinRequest<Hash>> = Vec::new();

        // If we asked to unpin and there is no subscription_id, then there's nothing to
        // do here but to clear the flags.
        let sub_id = match &self.subscription_id {
            Some(id) => id.clone(),
            None => {
                self.unpin_flags.clear();
                assert(poll::request_hashes(requests@).to_set() =~= Set::empty());
                return requests;
            },
        };

        let blocks_to_unpin = self.due();
        self.forget_all(&blocks_to_unpin);
        for i in 0..blocks_to_unpin.len()
            invariant
                requests@.len() == i,
                forall|k: int| 0 <= k < i ==> (#[trigger] requests@[k]).hash == blocks_to_unpin@[k],
                forall|k: int| 0 <= k < i ==> (#[trigger] requests@[k]).subscription_id@ == sub_id@,
        {
            requests.push(
                UnpinRequest { hash: blocks_to_unpin[i], subscription_id: sub_id.clone() },
            );
        }
        assert(poll::request_hashes(requests@) =~= blocks_to_unpin@);
        requests
    }

    /// Pin blocks under numbers above `last`: counting up from it if they are a `chain`, and one
    /// more than it each if they are not. Blocks that are pinned already keep their number.
    fn pin_blocks(&mut self, last: usize, chain: bool, hashes: &Vec<Hash>) -> (r: Vec<BlockRef<Hash>>)
        requires
            old(self).wf(),
            old(self)@.issued + 2 * hashes@.len() <= u64::MAX,
            chain ==> last + hashes@.len() <= usize::MAX,
            hashes@.len() > 0 ==> last + 1 <= usize::MAX,
        ensures
            final(self).wf(),
            final(self)@ == old(self)@.pin_all(model::numbered(last as nat, chain, hashes@)),
            final(self)@.refs_for(hashes@, r@),
    {
        let ghost plan = model::numbered(last as nat, chain, hashes@);
        let mut refs: Vec<BlockRef<Hash>> = Vec::new();
        for idx in 0..hashes.len()
            invariant
                self.wf(),
                old(self).wf(),
                plan == model::numbered(last as nat, chain, hashes@),
                old(self)@.issued + 2 * hashes@.len() <= u64::MAX,
                chain ==> last + hashes@.len() <= usize::MAX,
                hashes@.len() > 0 ==> last + 1 <= usize::MAX,
                self@ == old(self)@.pin_all(plan.take(idx as int)),
                refs@.len() == idx,
                forall|k: int|
                    0 <= k < idx ==> self@.pinned.contains_key(hashes@[k])
                        && (#[trigger] refs@[k])@ == self@.ref_to(hashes@[k]),
        {
            proof {
                old(self)@.lemma_pin_all(plan.take(idx as int));
                old(self)@.lemma_pin_all_push(plan.take(idx as int), plan[idx as int]);
                assert(plan.take(idx + 1) =~= plan.take(idx as int).push(plan[idx as int]));
            }
            let rel_block_num: usize = if chain { last + idx + 1 } else { last + 1 };
            refs.push(self.pin_block_at(rel_block_num, hashes[idx]));
        }
        assert(plan.take(hashes@.len() as int) =~= plan);
        refs
    }

    /// Clear out "old" things that are no longer applicable since the subscription has ended (a
    /// new one will be created under the hood).
    fn stop(&mut self)
        requires
            old(self).wf(),
        ensures
            final(self).wf(),
            final(self)@ == old(self)@.stopped(),
    {
        let hashes = self.pinned_hashes();
        self.forget_all(&hashes);
        self.unpin_flags.clear();
        self.rel_block_num = 0;
    }

    /// Can the message be taken without any number growing out of range?
    pub fn fits<R, D>(&self, msg: &FollowStreamMsg<Hash, R, D>) -> (r: bool)
        requires
            self.wf(),
        ensures
            r == self@.fits(*msg),
    {
        let room: u64 = (u64::MAX - self.issued) / 2;
        match msg {
            FollowStreamMsg::Event(FollowEvent::Initialized(_)) => room >= 1,
            FollowStreamMsg::Event(FollowEvent::NewBlock(details)) => {
                room >= 2 && self.parent_num(&details.parent_block_hash) < usize::MAX
            },
            FollowStreamMsg::Event(FollowEvent::BestBlockChanged(_)) => {
                room >= 1 && self.rel_block_num < usize::MAX
            },
            FollowStreamMsg::Event(FollowEvent::Finalized(details)) => {
                let finalized: usize = details.finalized_block_hashes.len();
                let pruned: usize = details.pruned_block_hashes.len();
                room as u128 >= finalized as u128 + pruned as u128 && usize::MAX
                    - self.rel_block_num >= finalized && (pruned == 0 || usize::MAX
                    - self.rel_block_num > finalized)
            },
            _ => true,
        }
    }

    /// The number of the parent of a new block. If no parent was seen (maybe it was unpinned
    /// already), then the last finalized block num as a best guess.
    fn parent_num(&self, parent: &Hash) -> (r: usize)
        requires
            self.wf(),
        ensures
            r == self@.parent_num(*parent),
    {
        match self.pinned.get(parent) {
            Some(details) => details.rel_block_num,
            None => self.rel_block_num,
        }
    }

    /// React to a message: pin the blocks that it refers to, and see which blocks to unpin.
    pub fn react<R, D>(&mut self, msg: FollowStreamMsg<Hash, R, D>) -> (r: Reaction<Hash, R, D>)
        requires
            old(self).wf(),
            old(self)@.fits(msg),
        ensures
            final(self).wf(),
            final(self)@ == old(self)@.after(msg),
            poll::is_reaction(old(self)@, msg, r),
    {
        let ghost s0 = self@;
        let mut cancel_unpins = false;
        let mut unpins: Vec<UnpinRequest<Hash>> = Vec::new();
        proof {
            reveal_with_fuel(PinState::pin_all, 3);
            s0.lemma_pin_all(s0.plan(msg));
            assert(poll::request_hashes(unpins@).to_set() =~= Set::empty());
        }
        let out = match msg {
            FollowStreamMsg::Ready(subscription_id) => {
                // update the subscription ID we'll use to unpin things.
                self.subscription_id = Some(subscription_id.clone());
                FollowStreamMsg::Ready(subscription_id)
            },
            FollowStreamMsg::Event(FollowEvent::Initialized(details)) => {
                // The first finalized block gets the starting block_num.
                let rel_block_num = self.rel_block_num;
                let block_ref = self.pin_block_at(rel_block_num, details.finalized_block_hash);
                FollowStreamMsg::Event(
                    FollowEvent::Initialized(
                        Initialized {
                            finalized_block_hash: block_ref,
                            finalized_block_runtime: details.finalized_block_runtime,
                        },
                    ),
                )
            },
            FollowStreamMsg::Event(FollowEvent::NewBlock(details)) => {
                // One bigger than our parent, and if no parent seen, then one bigger than the
                // last finalized block num as a best guess.
                let parent_rel_block_num = self.parent_num(&details.parent_block_hash);
                let block_ref = self.pin_block_at(parent_rel_block_num + 1, details.block_hash);
                let parent_block_ref = self.pin_block_at(
                    parent_rel_block_num,
                    details.parent_block_hash,
                );
                FollowStreamMsg::Event(
                    FollowEvent::NewBlock(
                        NewBlock {
                            block_hash: block_ref,
                            parent_block_hash: parent_block_ref,
                            new_runtime: details.new_runtime,
                        },
                    ),
                )
            },
            FollowStreamMsg::Event(FollowEvent::BestBlockChanged(details)) => {
                // We expect this block to already exist, so it'll keep its existing block_num,
                // but worst case it'll just get the current finalized block_num + 1.
                let rel_block_num = self.rel_block_num + 1;
                let block_ref = self.pin_block_at(rel_block_num, details.best_block_hash);
                FollowStreamMsg::Event(
                    FollowEvent::BestBlockChanged(BestBlockChanged { best_block_hash: block_ref }),
                )
            },
            FollowStreamMsg::Event(FollowEvent::Finalized(details)) => {
                let (finalized, requests) = self.react_finalized::<R, D>(details);
                unpins = requests;
                FollowStreamMsg::Event(FollowEvent::Finalized(finalized))
            },
            FollowStreamMsg::Event(FollowEvent::Stop) => {
                self.stop();
                cancel_unpins = true;
                FollowStreamMsg::Event(FollowEvent::Stop)
            },
            // These events aren't interesting; we just forward them on:
            FollowStreamMsg::Event(FollowEvent::OperationBodyDone(details)) => {
                FollowStreamMsg::Event(FollowEvent::OperationBodyDone(details))
            },
            FollowStreamMsg::Event(FollowEvent::OperationCallDone(details)) => {
                FollowStreamMsg::Event(FollowEvent::OperationCallDone(details))
            },
            FollowStreamMsg::Event(FollowEvent::OperationStorageItems(details)) => {
                FollowStreamMsg::Event(FollowEvent::OperationStorageItems(details))
            },
            FollowStreamMsg::Event(FollowEvent::OperationWaitingForContinue(details)) => {
                FollowStreamMsg::Event(FollowEvent::OperationWaitingForContinue(details))
            },
            FollowStreamMsg::Event(FollowEvent::OperationStorageDone(details)) => {
                FollowStreamMsg::Event(FollowEvent::OperationStorageDone(details))
            },
            FollowStreamMsg::Event(FollowEvent::OperationInaccessible(details)) => {
                FollowStreamMsg::Event(FollowEvent::OperationInaccessible(details))
            },
            FollowStreamMsg::Event(FollowEvent::OperationError(details)) => {
                FollowStreamMsg::Event(FollowEvent::OperationError(details))
            },
        };
        // Any new requests need polling to start. We could just wait for the next stream event,
        // but let's wake the task to have it polled sooner, just in case it's slow to receive
        // things. No need to call the waker if nothing to do.
        let wake = unpins.len() > 0;
        Reaction { msg: out, cancel_unpins, unpins, wake }
    }

    /// React to blocks being finalized.
    fn react_finalized<R, D>(&mut self, details: Finalized<Hash>) -> (r: (
        Finalized<BlockRef<Hash>>,
        Vec<UnpinRequest<Hash>>,
    ))
        requires
            old(self).wf(),
            old(self)@.fits(finalized_msg::<Hash, R, D>(details)),
        ensures
            final(self).wf(),
            final(self)@ == old(self)@.after(finalized_msg::<Hash, R, D>(details)),
            old(self)@.pinned_for(finalized_msg::<Hash, R, D>(details)).hands_back(
                finalized_msg::<Hash, R, D>(details),
                finalized_msg::<BlockRef<Hash>, R, D>(r.0),
            ),
            poll::requests_for(
                r.1@,
                old(self)@.unpinned_by(finalized_msg::<Hash, R, D>(details)),
                old(self)@.subscription_id,
            ),
    {
        let ghost s0 = self@;
        let ghost msg = finalized_msg::<Hash, R, D>(details);
        let ghost plan1 = s0.finalized_plan(details.finalized_block_hashes@);
        let ghost plan2 = s0.pruned_plan(
            details.finalized_block_hashes@.len(),
            details.pruned_block_hashes@,
        );
        // These blocks _should_ exist already and so will have a known block num, but if they don't,
        // we just increment the num from the last finalized block we saw, which should be accurate.
        let last: usize = self.rel_block_num;
        let finalized_block_refs = self.pin_blocks(last, true, &details.finalized_block_hashes);
        let ghost s1 = self@;

        // Our relative block height is increased by however many finalized blocks we've seen.
        proof {
            s0.lemma_pin_all(plan1);
        }
        self.rel_block_num = self.rel_block_num + finalized_block_refs.len();
        let ghost s2 = self@;

        proof {
            assert(s2 == (PinState { rel_block_num: s2.rel_block_num, ..s1 }));
            s1.lemma_pin_all_rel(s2.rel_block_num, plan2);
            s0.lemma_pin_all_add(plan1, plan2);
            s1.lemma_pin_all(plan2);
        }
        // We should know about these, too, and if not we set their age to last_finalized + 1.
        let last: usize = self.rel_block_num;
        let pruned_block_refs = self.pin_blocks(last, false, &details.pruned_block_hashes);
        assert(self@ == s0.counted(msg));
        assert forall|k: int|
            0 <= k < details.finalized_block_hashes@.len() implies (
        #[trigger] finalized_block_refs@[k])@ == s0.pinned_for(msg).ref_to(
            details.finalized_block_hashes@[k],
        ) by {
            assert(s1.pinned.contains_key(plan1[k].1));
            assert(s0.pinned_for(msg) == s1.pin_all(plan2));
            assert(s1.pinned[plan1[k].1] == s1.pin_all(plan2).pinned[plan1[k].1]);
        }

        // At this point, we also check to see which blocks we should request unpins for. When we
        // see a block hash as finalized, we know that it won't be reported again (except as a
        // parent hash of a new block), so we can safely request to unpin it without worrying
        // about the hash being returned again despite the block not being pinned.
        let requests = self.unpin_blocks();
        (
            Finalized {
                finalized_block_hashes: finalized_block_refs,
                pruned_block_hashes: pruned_block_refs,
            },
            requests,
        )
    }

    /// Take the next step in polling the stream. The unpin requests that are under way are
    /// polled while they are completing, and then the inner stream is.
    pub fn poll_next<R, D, E>(&mut self, event: PollEvent<Hash, R, D, E>) -> (r: PollAction<
        Hash,
        R,
        D,
        E,
    >)
        requires
            old(self).wf(),
            event matches PollEvent::InnerItem(Ok(msg)) ==> old(self)@.fits(msg),
        ensures
            final(self).wf(),
            match event {
                PollEvent::Start | PollEvent::UnpinCompleted => r is PollUnpins && final(self)@
                    == old(self)@,
                PollEvent::UnpinsIdle => r is PollInner && final(self)@ == old(self)@,
                PollEvent::InnerPending => r is ReturnPending && final(self)@ == old(self)@,
                PollEvent::InnerDone => r is ReturnDone && final(self)@ == old(self)@,
                PollEvent::InnerItem(Err(e)) => r == PollAction::<Hash, R, D, E>::ReturnItem(
                    Err(e),
                ) && final(self)@ == old(self)@,
                PollEvent::InnerItem(Ok(msg)) => {
                    &&& final(self)@ == old(self)@.after(msg)
                    &&& r matches PollAction::ReturnItem(Ok(reaction))
                    &&& poll::is_reaction(old(self)@, msg, reaction)
                },
            },
    {
        match event {
            PollEvent::Start => PollAction::PollUnpins,
            // Poll the unpin tasks while they are completing.
            PollEvent::UnpinCompleted => PollAction::PollUnpins,
            // Poll the inner stream for the next event.
            PollEvent::UnpinsIdle => PollAction::PollInner,
            PollEvent::InnerPending => PollAction::ReturnPending,
            // No more progress to be made if inner stream done.
            PollEvent::InnerDone => PollAction::ReturnDone,
            // Error? just return it and do nothing further.
            PollEvent::InnerItem(Err(e)) => PollAction::ReturnItem(Err(e)),
            // React to any actual message we get back.
            PollEvent::InnerItem(Ok(msg)) => PollAction::ReturnItem(Ok(self.react(msg))),
        }
    }
}

impl<Hash: BlockHash> BlockRef<Hash> {
    /// Copy a reference. The copy keeps the block pinned as the reference itself does.
    ///
    /// A reference that `owner` does not count gives a copy that is counted nowhere. References are
    /// told apart by the name of their count and by their hash, so a reference that another
    /// [`FollowStreamUnpin`] handed out is to be kept away from `owner`: it is taken for one of
    /// `owner`'s if `owner` has a count of the same name for the same block.
    pub fn clone(&self, owner: &mut FollowStreamUnpin<Hash>) -> (r: Self)
        requires
            old(owner).wf(),
            old(owner)@.issued < u64::MAX,
        ensures
            final(owner).wf(),
            final(owner)@ == old(owner)@.cloned(self@),
            r@ == old(owner)@.clone_of(self@),
    {
        proof {
            old(owner)@.lemma_cloned(self@);
        }
        match owner.live_cell(self) {
            Some(cell) => {
                owner.take(cell);
                BlockRef::counted(cell, self.hash())
            },
            None => BlockRef::new(self.hash()),
        }
    }

    /// Give a reference up. If it was the last one that was handed out for a pinned block, the
    /// block is flagged, and will be unpinned when blocks are finalized, once it is not newer than
    /// the last of those. A reference to a block that has been unpinned already flags nothing.
    ///
    /// A reference that `owner` does not count is given up without any effect. What
    /// [`BlockRef::clone`] says of references that another [`FollowStreamUnpin`] handed out holds
    /// here too.
    pub fn drop(self, owner: &mut FollowStreamUnpin<Hash>)
        requires
            old(owner).wf(),
        ensures
            final(owner).wf(),
            final(owner)@ == old(owner)@.dropped(self@),
    {
        proof {
            old(owner)@.lemma_dropped(self@);
        }
        if let Some(cell) = owner.live_cell(&self) {
            owner.give_up(cell);
        }
    }
}

} // verus!
