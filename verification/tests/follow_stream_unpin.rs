//! Runs a follow stream against pinning, with unpin calls that complete at once.

use follow_unpin::{
    BestBlockChanged, BlockRef, Finalized, FollowEvent, FollowStreamMsg, FollowStreamUnpin,
    Initialized, NewBlock, PollAction, PollEvent,
};
use std::collections::VecDeque;

#[derive(Debug, Clone, Copy, PartialEq, Eq, Hash)]
struct H256([u8; 32]);

impl H256 {
    fn from_low_u64_le(n: u64) -> Self {
        let mut bytes = [0u8; 32];
        bytes[24..].copy_from_slice(&n.to_le_bytes());
        H256(bytes)
    }
}

type Event = FollowEvent<H256, (), ()>;
type EventRef = FollowEvent<BlockRef<H256>, (), ()>;
type Msg = FollowStreamMsg<H256, (), ()>;
type MsgRef = FollowStreamMsg<BlockRef<H256>, (), ()>;

fn h(n: u64) -> H256 {
    H256::from_low_u64_le(n)
}

fn ev_initialized(n: u64) -> Event {
    FollowEvent::Initialized(Initialized {
        finalized_block_hash: h(n),
        finalized_block_runtime: None,
    })
}

fn ev_new_block(parent: u64, n: u64) -> Event {
    FollowEvent::NewBlock(NewBlock {
        parent_block_hash: h(parent),
        block_hash: h(n),
        new_runtime: None,
    })
}

fn ev_best_block(n: u64) -> Event {
    FollowEvent::BestBlockChanged(BestBlockChanged {
        best_block_hash: h(n),
    })
}

fn ev_finalized(ns: impl IntoIterator<Item = u64>) -> Event {
    FollowEvent::Finalized(Finalized {
        finalized_block_hashes: ns.into_iter().map(h).collect(),
        pruned_block_hashes: vec![],
    })
}

fn ev_new_block_ref(parent: u64, n: u64) -> EventRef {
    FollowEvent::NewBlock(NewBlock {
        parent_block_hash: BlockRef::new(h(parent)),
        block_hash: BlockRef::new(h(n)),
        new_runtime: None,
    })
}

/// The unpin calls that were made.
#[derive(Debug, Default)]
struct UnpinRx(VecDeque<(H256, String)>);

impl UnpinRx {
    fn try_recv(&mut self) -> Result<(H256, String), ()> {
        self.0.pop_front().ok_or(())
    }
}

struct Follow {
    pins: FollowStreamUnpin<H256>,
    inner: VecDeque<Result<Msg, String>>,
    under_way: usize,
    unpin_rx: UnpinRx,
    wakes: usize,
}

/// A stream that is ready as "sub_id_0", and then gives back the events.
fn test_unpin_stream_getter<const N: usize>(
    events: [Result<Event, String>; N],
    max_life: usize,
) -> Follow {
    let mut inner = VecDeque::new();
    inner.push_back(Ok(FollowStreamMsg::Ready("sub_id_0".to_string())));
    for event in events {
        inner.push_back(event.map(FollowStreamMsg::Event));
    }
    Follow {
        pins: FollowStreamUnpin::new(max_life),
        inner,
        under_way: 0,
        unpin_rx: UnpinRx::default(),
        wakes: 0,
    }
}

impl Follow {
    fn next(&mut self) -> Option<Result<MsgRef, String>> {
        let mut event: PollEvent<H256, (), (), String> = PollEvent::Start;
        loop {
            if let PollEvent::InnerItem(Ok(msg)) = &event {
                assert!(self.pins.fits(msg));
            }
            match self.pins.poll_next(event) {
                PollAction::PollUnpins => {
                    event = if self.under_way > 0 {
                        self.under_way -= 1;
                        PollEvent::UnpinCompleted
                    } else {
                        PollEvent::UnpinsIdle
                    };
                }
                PollAction::PollInner => {
                    // All unpin calls that were under way have been polled to completion.
                    assert_eq!(self.under_way, 0);
                    event = match self.inner.pop_front() {
                        Some(item) => PollEvent::InnerItem(item),
                        None => PollEvent::InnerDone,
                    };
                }
                PollAction::ReturnPending => unreachable!(),
                PollAction::ReturnDone => return None,
                PollAction::ReturnItem(Err(e)) => return Some(Err(e)),
                PollAction::ReturnItem(Ok(reaction)) => {
                    if reaction.cancel_unpins {
                        self.under_way = 0;
                    }
                    for request in reaction.unpins {
                        self.under_way += 1;
                        self.unpin_rx
                            .0
                            .push_back((request.hash, request.subscription_id));
                    }
                    if reaction.wake {
                        self.wakes += 1;
                    }
                    return Some(Ok(reaction.msg));
                }
            }
        }
    }

    /// Give up all references in a message.
    fn drop(&mut self, msg: MsgRef) {
        let event = match msg {
            FollowStreamMsg::Event(event) => event,
            FollowStreamMsg::Ready(_) => return,
        };
        match event {
            FollowEvent::Initialized(d) => d.finalized_block_hash.drop(&mut self.pins),
            FollowEvent::NewBlock(d) => {
                d.block_hash.drop(&mut self.pins);
                d.parent_block_hash.drop(&mut self.pins);
            }
            FollowEvent::BestBlockChanged(d) => d.best_block_hash.drop(&mut self.pins),
            FollowEvent::Finalized(d) => {
                for r in d.finalized_block_hashes {
                    r.drop(&mut self.pins);
                }
                for r in d.pruned_block_hashes {
                    r.drop(&mut self.pins);
                }
            }
            _ => (),
        }
    }
}

#[test]
fn hands_back_blocks() {
    let mut follow_unpin = test_unpin_stream_getter(
        [
            Ok(ev_new_block(0, 1)),
            Ok(ev_new_block(1, 2)),
            Ok(ev_new_block(2, 3)),
            Err("ended".to_owned()),
        ],
        10,
    );

    let mut out: Vec<MsgRef> = vec![];
    while let Some(e) = follow_unpin.next() {
        if let Ok(msg) = e {
            out.push(msg);
        }
    }

    assert_eq!(
        out,
        vec![
            FollowStreamMsg::Ready("sub_id_0".into()),
            FollowStreamMsg::Event(ev_new_block_ref(0, 1)),
            FollowStreamMsg::Event(ev_new_block_ref(1, 2)),
            FollowStreamMsg::Event(ev_new_block_ref(2, 3)),
        ]
    );
}

#[test]
fn unpins_old_blocks() {
    let mut follow_unpin = test_unpin_stream_getter(
        [
            Ok(ev_initialized(0)),
            Ok(ev_finalized([1])),
            Ok(ev_finalized([2])),
            Ok(ev_finalized([3])),
            Ok(ev_finalized([4])),
            Ok(ev_finalized([5])),
            Err("ended".to_owned()),
        ],
        3,
    );

    let _r = follow_unpin.next().unwrap().unwrap();
    let _i0 = follow_unpin.next().unwrap().unwrap();
    follow_unpin
        .unpin_rx
        .try_recv()
        .expect_err("nothing unpinned yet");
    let _f1 = follow_unpin.next().unwrap().unwrap();
    follow_unpin
        .unpin_rx
        .try_recv()
        .expect_err("nothing unpinned yet");
    let _f2 = follow_unpin.next().unwrap().unwrap();
    follow_unpin
        .unpin_rx
        .try_recv()
        .expect_err("nothing unpinned yet");
    let _f3 = follow_unpin.next().unwrap().unwrap();

    // Max age is 3, so after block 3 finalized, block 0 becomes too old and is unpinned.
    let (hash, sub_id) = follow_unpin
        .unpin_rx
        .try_recv()
        .expect("unpin call should have happened");
    assert_eq!(hash, H256::from_low_u64_le(0));
    assert_eq!(sub_id, "sub_id_0");

    let _f4 = follow_unpin.next().unwrap().unwrap();

    // Block 1 is now too old and is unpinned.
    let (hash, _) = follow_unpin
        .unpin_rx
        .try_recv()
        .expect("unpin call should have happened");
    assert_eq!(hash, H256::from_low_u64_le(1));

    let _f5 = follow_unpin.next().unwrap().unwrap();

    // Block 2 is now too old and is unpinned.
    let (hash, _) = follow_unpin
        .unpin_rx
        .try_recv()
        .expect("unpin call should have happened");
    assert_eq!(hash, H256::from_low_u64_le(2));
    assert_eq!(follow_unpin.wakes, 3);
}

#[test]
fn unpins_dropped_blocks() {
    let mut follow_unpin = test_unpin_stream_getter(
        [
            Ok(ev_initialized(0)),
            Ok(ev_finalized([1])),
            Ok(ev_finalized([2])),
            Err("ended".to_owned()),
        ],
        10,
    );

    let _r = follow_unpin.next().unwrap().unwrap();
    let _i0 = follow_unpin.next().unwrap().unwrap();
    let f1 = follow_unpin.next().unwrap().unwrap();

    // We don't care about block 1 any more; drop it. unpins happen at finalized evs.
    follow_unpin.drop(f1);

    let _f2 = follow_unpin.next().unwrap().unwrap();

    // Check that we get the expected unpin event.
    let (hash, _) = follow_unpin
        .unpin_rx
        .try_recv()
        .expect("unpin call should have happened");
    assert_eq!(hash, H256::from_low_u64_le(1));

    // Confirm that 0 and 2 are still pinned and that 1 isnt.
    assert!(!follow_unpin.pins.is_pinned(&H256::from_low_u64_le(1)));
    assert!(follow_unpin.pins.is_pinned(&H256::from_low_u64_le(0)));
    assert!(follow_unpin.pins.is_pinned(&H256::from_low_u64_le(2)));
}

#[test]
fn only_unpins_if_finalized_is_dropped() {
    // If we drop the "new block" and "best block" BlockRefs,
    // and then the block comes back as finalized (for instance),
    // no unpin call should be made unless we also drop the finalized
    // one.
    let mut follow_unpin = test_unpin_stream_getter(
        [
            Ok(ev_initialized(0)),
            Ok(ev_new_block(0, 1)),
            Ok(ev_best_block(1)),
            Ok(ev_finalized([1])),
            Ok(ev_finalized([2])),
            Err("ended".to_owned()),
        ],
        100,
    );

    let _r = follow_unpin.next().unwrap().unwrap();
    let _i0 = follow_unpin.next().unwrap().unwrap();
    let n1 = follow_unpin.next().unwrap().unwrap();
    follow_unpin.drop(n1);
    let b1 = follow_unpin.next().unwrap().unwrap();
    follow_unpin.drop(b1);
    let f1 = follow_unpin.next().unwrap().unwrap();

    // even though we dropped our block 1 in the new/best events, it won't be unpinned
    // because it occurred again in finalized event.
    follow_unpin
        .unpin_rx
        .try_recv()
        .expect_err("nothing unpinned yet");

    follow_unpin.drop(f1);
    let _f2 = follow_unpin.next().unwrap().unwrap();

    // Since we dropped the finalized block 1, we'll now unpin it when next block finalized.
    let (hash, _) = follow_unpin
        .unpin_rx
        .try_recv()
        .expect("unpin should have happened now");
    assert_eq!(hash, H256::from_low_u64_le(1));
}
