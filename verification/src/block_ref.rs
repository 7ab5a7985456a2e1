//! References to pinned blocks.

use vstd::prelude::*;
use vstd::std_specs::cmp::{PartialEqSpec, PartialEqSpecImpl};

verus! {

/// What a block hash has to offer: it is copied freely, and used as the key of a hash table.
pub trait BlockHash: Copy + Eq + std::hash::Hash {}

impl<T: Copy + Eq + std::hash::Hash> BlockHash for T {}

/// Does a type of hashes work as the key of a hash table? Two hashes are equal just if they are the
/// same value, and such are hashed alike.
pub open spec fn works_as_key<Hash: BlockHash>() -> bool {
    &&& vstd::std_specs::hash::obeys_key_model::<Hash>()
    &&& Hash::obeys_eq_spec()
    &&& forall|a: Hash, b: Hash| #[trigger] a.eq_spec(&b) <==> a == b
}

/// What a [`BlockRef`] stands for: a hash, and the reference count that it is counted in.
pub struct RefView<Hash> {
    /// The count that the reference is part of, if it is counted anywhere.
    pub cell: Option<nat>,
    /// The hash of the block.
    pub hash: Hash,
}

/// All blocks reported will be wrapped in this.
///
/// A reference is counted by the [`FollowStreamUnpin`](crate::FollowStreamUnpin) that handed it
/// out, so it is copied with [`BlockRef::clone`] and given up with [`BlockRef::drop`].
#[derive(Debug)]
#[must_use]
pub struct BlockRef<Hash> {
    cell: Option<u64>,
    hash: Hash,
}

impl<Hash> View for BlockRef<Hash> {
    type V = RefView<Hash>;

    closed spec fn view(&self) -> RefView<Hash> {
        RefView {
            cell: match self.cell {
                Some(c) => Some(c as nat),
                None => None,
            },
            hash: self.hash,
        }
    }
}

impl<Hash: BlockHash> BlockRef<Hash> {
    /// A reference to a block that is not pinned, and that is counted nowhere.
    pub fn new(hash: Hash) -> (r: Self)
        ensures
            r@.cell is None,
            r@.hash == hash,
    {
        BlockRef { cell: None, hash }
    }

    /// Return the hash for this block.
    pub fn hash(&self) -> (hash: Hash)
        ensures
            hash == self@.hash,
    {
        self.hash
    }

    /// A reference that is part of the count `cell`.
    pub(crate) fn counted(cell: u64, hash: Hash) -> (r: Self)
        ensures
            r@ == (RefView { cell: Some(cell as nat), hash }),
    {
        BlockRef { cell: Some(cell), hash }
    }

    /// The count that this reference is part of.
    pub(crate) fn cell(&self) -> (cell: Option<u64>)
        ensures
            self@.cell == (match cell {
                Some(c) => Some(c as nat),
                None => None,
            }),
    {
        self.cell
    }
}

impl<Hash: BlockHash> PartialEq for BlockRef<Hash> {
    fn eq(&self, other: &Self) -> (r: bool) {
        self.hash == other.hash
    }
}

impl<Hash: BlockHash> PartialEqSpecImpl for BlockRef<Hash> {
    open spec fn obeys_eq_spec() -> bool {
        Hash::obeys_eq_spec()
    }

    open spec fn eq_spec(&self, other: &Self) -> bool {
        self@.hash.eq_spec(&other@.hash)
    }
}

impl<Hash: BlockHash> PartialEq<Hash> for BlockRef<Hash> {
    fn eq(&self, other: &Hash) -> (r: bool) {
        self.hash == *other
    }
}

impl<Hash: BlockHash> PartialEqSpecImpl<Hash> for BlockRef<Hash> {
    open spec fn obeys_eq_spec() -> bool {
        Hash::obeys_eq_spec()
    }

    open spec fn eq_spec(&self, other: &Hash) -> bool {
        self@.hash.eq_spec(other)
    }
}

} // verus!
