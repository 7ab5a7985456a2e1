//! The table of reference counts.

use crate::block_ref::BlockHash;
use crate::model::Cell;
use std::collections::HashMap;
use vstd::prelude::*;

verus! {

/// A reference count and the block that it is for.
#[derive(Debug)]
pub(crate) struct RefCount<Hash> {
    pub(crate) hash: Hash,
    pub(crate) strong: u64,
}

/// Reference counts, by name.
#[derive(Debug)]
pub(crate) struct RefCounts<Hash> {
    counts: HashMap<u64, RefCount<Hash>>,
}

impl<Hash> View for RefCounts<Hash> {
    type V = Map<nat, Cell<Hash>>;

    closed spec fn view(&self) -> Map<nat, Cell<Hash>> {
        Map::new(
            |c: nat| c <= u64::MAX && self.counts@.contains_key(c as u64),
            |c: nat|
                Cell {
                    hash: self.counts@[c as u64].hash,
                    strong: self.counts@[c as u64].strong as nat,
                },
        )
    }
}

impl<Hash: BlockHash> RefCounts<Hash> {
    /// A table that holds no counts.
    pub(crate) fn new() -> (r: Self)
        ensures
            r@ == Map::<nat, Cell<Hash>>::empty(),
    {
        let r = RefCounts { counts: HashMap::new() };
        assert(r@ =~= Map::<nat, Cell<Hash>>::empty());
        r
    }

    /// Look up a count.
    pub(crate) fn get(&self, cell: u64) -> (r: Option<RefCount<Hash>>)
        ensures
            match r {
                Some(r) => self@.contains_key(cell as nat) && self@[cell as nat] == (Cell {
                    hash: r.hash,
                    strong: r.strong as nat,
                }),
                None => !self@.contains_key(cell as nat),
            },
    {
        match self.counts.get(&cell) {
            Some(count) => Some(RefCount { hash: count.hash, strong: count.strong }),
            None => None,
        }
    }

    /// Set a count.
    pub(crate) fn set(&mut self, cell: u64, hash: Hash, strong: u64)
        ensures
            final(self)@ == old(self)@.insert(cell as nat, Cell { hash, strong: strong as nat }),
    {
        self.counts.insert(cell, RefCount { hash, strong });
        assert(self@ =~= old(self)@.insert(cell as nat, Cell { hash, strong: strong as nat }));
    }

    /// Remove a count.
    pub(crate) fn remove(&mut self, cell: u64)
        ensures
            final(self)@ == old(self)@.remove(cell as nat),
    {
        self.counts.remove(&cell);
        assert(self@ =~= old(self)@.remove(cell as nat));
    }
}

} // verus!
