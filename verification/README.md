# follow_unpin

A follow subscription reports blocks by their hashes, and keeps each block that it has reported
pinned until it is told to unpin it. This library decides when to do that. It replaces each hash in
the messages of the subscription by a reference to the block, counts the references that are handed
out, and asks for a block to be unpinned when its references have all been given up, or when it has
become too old. Unpinning takes place when blocks are finalized.

- `src/events.rs`: the messages of a follow subscription.
- `src/block_ref.rs`: references to blocks.
- `src/counts.rs`: the table of reference counts.
- `src/model.rs`: the state of pinning as a mathematical value, and how a message changes it. The
  contracts are stated over this model.
- `src/poll.rs`: the steps of polling the stream.
- `src/follow_stream_unpin.rs`: pinning itself, `FollowStreamUnpin`.
- `src/laws.rs`: what holds whatever messages come, and in whatever order references are copied and
  given up.
- `app/`: the `Stream` around the library. Its block references give themselves up when they are
  dropped, and it makes the unpin calls and polls them to completion.

Each message pins the blocks that it refers to. A block that is pinned already keeps its number, and
in any case the block loses the flag that it may have got when its last reference was given up. A
flagged block is unpinned only when it is not newer than the latest finalized block, since until
then it may be reported again; its flag is kept meanwhile. References to a block that was unpinned
for its age still count, but giving them up flags nothing, also if the block has been pinned again.
