//! Tracks which blocks of a follow subscription are pinned, and decides when to unpin them.

pub mod block_ref;
mod counts;
pub mod events;
pub mod follow_stream_unpin;
pub mod laws;
pub mod model;
pub mod outcomes;
pub mod poll;

pub use block_ref::{BlockHash, BlockRef};
pub use events::{
    BestBlockChanged, Finalized, FollowEvent, FollowStreamMsg, Initialized, NewBlock,
};
pub use follow_stream_unpin::FollowStreamUnpin;
pub use poll::{PollAction, PollEvent, Reaction, UnpinRequest};
