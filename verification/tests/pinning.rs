//! Pinning, one message at a time.

use follow_unpin::{
    BestBlockChanged, BlockRef, Finalized, FollowEvent, FollowStreamMsg, FollowStreamUnpin,
    Initialized, NewBlock, PollAction, PollEvent, Reaction,
};

type Msg = FollowStreamMsg<u64, &'static str, u32>;
type MsgRef = FollowStreamMsg<BlockRef<u64>, &'static str, u32>;

fn ready(id: &str) -> Msg {
    FollowStreamMsg::Ready(id.to_string())
}

fn initialized(n: u64) -> Msg {
    FollowStreamMsg::Event(FollowEvent::Initialized(Initialized {
        finalized_block_hash: n,
        finalized_block_runtime: None,
    }))
}

fn new_block(parent: u64, n: u64) -> Msg {
    FollowStreamMsg::Event(FollowEvent::NewBlock(NewBlock {
        block_hash: n,
        parent_block_hash: parent,
        new_runtime: None,
    }))
}

fn best_block(n: u64) -> Msg {
    FollowStreamMsg::Event(FollowEvent::BestBlockChanged(BestBlockChanged {
        best_block_hash: n,
    }))
}

fn finalized(hashes: &[u64], pruned: &[u64]) -> Msg {
    FollowStreamMsg::Event(FollowEvent::Finalized(Finalized {
        finalized_block_hashes: hashes.to_vec(),
        pruned_block_hashes: pruned.to_vec(),
    }))
}

fn stop() -> Msg {
    FollowStreamMsg::Event(FollowEvent::Stop)
}

fn react(pins: &mut FollowStreamUnpin<u64>, msg: Msg) -> Reaction<u64, &'static str, u32> {
    assert!(pins.fits(&msg));
    pins.react(msg)
}

/// The blocks that are to be unpinned.
fn unpins(pins: &mut FollowStreamUnpin<u64>, msg: Msg) -> Vec<u64> {
    let reaction = react(pins, msg);
    let mut hashes: Vec<u64> = reaction.unpins.iter().map(|u| u.hash).collect();
    assert_eq!(reaction.wake, !hashes.is_empty());
    hashes.sort();
    hashes
}

/// The references in a message.
fn refs(msg: MsgRef) -> Vec<BlockRef<u64>> {
    match msg {
        FollowStreamMsg::Event(FollowEvent::Initialized(d)) => vec![d.finalized_block_hash],
        FollowStreamMsg::Event(FollowEvent::NewBlock(d)) => {
            vec![d.block_hash, d.parent_block_hash]
        }
        FollowStreamMsg::Event(FollowEvent::BestBlockChanged(d)) => vec![d.best_block_hash],
        FollowStreamMsg::Event(FollowEvent::Finalized(d)) => {
            let mut refs = d.finalized_block_hashes;
            refs.extend(d.pruned_block_hashes);
            refs
        }
        _ => vec![],
    }
}

fn ready_pins(max_block_life: usize) -> FollowStreamUnpin<u64> {
    let mut pins = FollowStreamUnpin::new(max_block_life);
    react(&mut pins, ready("sub"));
    pins
}

#[test]
fn new_pins_nothing() {
    let pins: FollowStreamUnpin<u64> = FollowStreamUnpin::new(10);
    assert!(!pins.is_pinned(&0));
    assert!(pins.can_clone());
}

#[test]
fn refs_are_equal_by_hash() {
    let mut pins = ready_pins(10);
    let a = refs(react(&mut pins, initialized(7)).msg).pop().unwrap();
    assert_eq!(a.hash(), 7);
    assert_eq!(BlockRef::new(7u64).hash(), 7);
    assert!(a == BlockRef::new(7));
    assert!(a != BlockRef::new(8));
    assert!(a == 7);
    assert!(a != 8);
}

#[test]
fn named_blocks_are_pinned() {
    let mut pins = ready_pins(10);
    react(&mut pins, initialized(1));
    assert!(pins.is_pinned(&1));
    react(&mut pins, new_block(2, 3));
    assert!(pins.is_pinned(&2) && pins.is_pinned(&3));
    react(&mut pins, best_block(4));
    assert!(pins.is_pinned(&4));
    react(&mut pins, finalized(&[5, 6], &[7]));
    assert!(pins.is_pinned(&5) && pins.is_pinned(&6) && pins.is_pinned(&7));
    assert!(!pins.is_pinned(&8));
}

#[test]
fn finalized_hands_back_every_block_in_order() {
    let mut pins = ready_pins(10);
    let out = react(&mut pins, finalized(&[5, 6, 5], &[9, 8])).msg;
    match &out {
        FollowStreamMsg::Event(FollowEvent::Finalized(d)) => {
            let hashes = |refs: &Vec<BlockRef<u64>>| -> Vec<u64> {
                refs.iter().map(|r| r.hash()).collect()
            };
            assert_eq!(hashes(&d.finalized_block_hashes), vec![5, 6, 5]);
            assert_eq!(hashes(&d.pruned_block_hashes), vec![9, 8]);
        }
        _ => panic!("not a finalized event"),
    }
}

#[test]
fn last_drop_flags_the_block() {
    let mut pins = ready_pins(100);
    let mut rs = refs(react(&mut pins, initialized(0)).msg);
    rs.extend(refs(react(&mut pins, best_block(0)).msg));
    let third = rs[0].clone(&mut pins);
    rs.push(third);
    assert_eq!(rs.len(), 3);
    // While one of the three is left, the block stays pinned.
    for (i, r) in rs.into_iter().enumerate() {
        r.drop(&mut pins);
        let n = 10 + i as u64;
        let expected = if i == 2 { vec![0] } else { vec![] };
        assert_eq!(unpins(&mut pins, finalized(&[n], &[])), expected);
        assert_eq!(pins.is_pinned(&0), i < 2);
    }
}

#[test]
fn dropping_a_clone_changes_nothing() {
    let mut pins = ready_pins(100);
    let r = refs(react(&mut pins, initialized(0)).msg).pop().unwrap();
    let copy = r.clone(&mut pins);
    assert_eq!(copy.hash(), 0);
    copy.drop(&mut pins);
    assert_eq!(unpins(&mut pins, finalized(&[1], &[])), Vec::<u64>::new());
    r.drop(&mut pins);
    assert_eq!(unpins(&mut pins, finalized(&[2], &[])), vec![0]);
}

#[test]
fn uncounted_refs_have_no_effect() {
    let mut pins = ready_pins(100);
    react(&mut pins, initialized(0));
    let r = BlockRef::new(0u64);
    let copy = r.clone(&mut pins);
    assert_eq!(copy.hash(), 0);
    r.drop(&mut pins);
    copy.drop(&mut pins);
    assert_eq!(unpins(&mut pins, finalized(&[1], &[])), Vec::<u64>::new());
    assert!(pins.is_pinned(&0));
}

#[test]
fn flags_are_cleared_when_a_block_comes_again() {
    let mut pins = ready_pins(100);
    for r in refs(react(&mut pins, initialized(0)).msg) {
        r.drop(&mut pins);
    }
    // The block is flagged, and is referred to again before blocks are finalized.
    let r = refs(react(&mut pins, best_block(0)).msg).pop().unwrap();
    assert_eq!(unpins(&mut pins, finalized(&[1], &[])), Vec::<u64>::new());
    r.drop(&mut pins);
    // It is flagged once more, and is itself the block that is pruned.
    let again = react(&mut pins, finalized(&[2], &[0]));
    assert!(again.unpins.is_empty());
    for r in refs(again.msg) {
        r.drop(&mut pins);
    }
    assert_eq!(unpins(&mut pins, finalized(&[3], &[])), vec![0, 2]);
}

#[test]
fn unpinning_waits_for_finalized_blocks() {
    let mut pins = ready_pins(100);
    for r in refs(react(&mut pins, initialized(0)).msg) {
        r.drop(&mut pins);
    }
    assert_eq!(unpins(&mut pins, new_block(1, 2)), Vec::<u64>::new());
    assert_eq!(unpins(&mut pins, best_block(2)), Vec::<u64>::new());
    assert_eq!(unpins(&mut pins, ready("other")), Vec::<u64>::new());
    assert!(pins.is_pinned(&0));
    assert_eq!(unpins(&mut pins, finalized(&[], &[])), vec![0]);
}

#[test]
fn children_are_numbered_after_their_parents() {
    let mut pins = ready_pins(2);
    react(&mut pins, initialized(0)); // number 0
    react(&mut pins, new_block(0, 1)); // number 1
    react(&mut pins, new_block(1, 2)); // number 2
    react(&mut pins, new_block(9, 10)); // an unknown parent is number 0, its child number 1
    assert_eq!(unpins(&mut pins, finalized(&[1], &[])), Vec::<u64>::new());
    assert_eq!(unpins(&mut pins, finalized(&[2], &[])), vec![0, 9]);
    assert_eq!(unpins(&mut pins, finalized(&[3], &[])), vec![1, 10]);
    assert_eq!(unpins(&mut pins, finalized(&[4], &[])), vec![2]);
}

#[test]
fn best_and_pruned_blocks_are_one_ahead() {
    let mut pins = ready_pins(2);
    react(&mut pins, best_block(5)); // number 1
    react(&mut pins, finalized(&[1, 2], &[8])); // numbers 1, 2 and 3
    assert!(pins.is_pinned(&5));
    assert_eq!(unpins(&mut pins, finalized(&[3], &[])), vec![1, 5]);
    assert_eq!(unpins(&mut pins, finalized(&[4], &[])), vec![2]);
    assert_eq!(unpins(&mut pins, finalized(&[5], &[])), vec![3, 8]);
}

#[test]
fn known_blocks_keep_their_number() {
    let mut pins = ready_pins(3);
    react(&mut pins, initialized(0));
    react(&mut pins, finalized(&[1], &[]));
    react(&mut pins, finalized(&[2], &[]));
    // Block 0 is best, which does not make it younger.
    react(&mut pins, best_block(0));
    assert_eq!(unpins(&mut pins, finalized(&[3], &[])), vec![0]);
}

#[test]
fn life_of_zero_unpins_at_once() {
    let mut pins = ready_pins(0);
    react(&mut pins, initialized(0));
    assert_eq!(unpins(&mut pins, finalized(&[1], &[2])), vec![0, 1, 2]);
    assert!(!pins.is_pinned(&1));
}

#[test]
fn requests_carry_the_latest_subscription() {
    let mut pins = ready_pins(1);
    react(&mut pins, initialized(0));
    react(&mut pins, ready("later"));
    let reaction = react(&mut pins, finalized(&[1], &[]));
    assert_eq!(reaction.unpins.len(), 1);
    assert_eq!(reaction.unpins[0].hash, 0);
    assert_eq!(reaction.unpins[0].subscription_id, "later");
    assert!(reaction.wake && !reaction.cancel_unpins);
}

#[test]
fn without_subscription_nothing_is_unpinned() {
    let mut pins: FollowStreamUnpin<u64> = FollowStreamUnpin::new(100);
    for r in refs(react(&mut pins, initialized(0)).msg) {
        r.drop(&mut pins);
    }
    // The flag is used up here,
    assert_eq!(unpins(&mut pins, finalized(&[1], &[])), Vec::<u64>::new());
    assert!(pins.is_pinned(&0));
    // so that the block stays, though no reference to it is left.
    react(&mut pins, ready("sub"));
    assert_eq!(unpins(&mut pins, finalized(&[2], &[])), Vec::<u64>::new());
    assert!(pins.is_pinned(&0));
}

#[test]
fn stop_clears_everything() {
    let mut pins = ready_pins(2);
    let old = refs(react(&mut pins, initialized(0)).msg).pop().unwrap();
    react(&mut pins, finalized(&[1], &[]));
    let reaction = react(&mut pins, stop());
    assert!(reaction.cancel_unpins && reaction.unpins.is_empty() && !reaction.wake);
    assert_eq!(reaction.msg, FollowStreamMsg::Event(FollowEvent::Stop));
    assert!(!pins.is_pinned(&0) && !pins.is_pinned(&1));
    // Blocks are numbered anew, and the subscription is still there to unpin them under.
    react(&mut pins, initialized(5));
    assert_eq!(unpins(&mut pins, finalized(&[6], &[])), Vec::<u64>::new());
    assert_eq!(unpins(&mut pins, finalized(&[7], &[])), vec![5]);
    // A reference from before is the only one of its kind, and flags nothing.
    old.drop(&mut pins);
    react(&mut pins, best_block(0));
    assert_eq!(unpins(&mut pins, finalized(&[8], &[])), vec![6]);
    assert!(pins.is_pinned(&0));
}

#[test]
fn refs_from_an_earlier_pin_flag_nothing() {
    let mut pins = ready_pins(2);
    let old = refs(react(&mut pins, initialized(0)).msg).pop().unwrap();
    let other = old.clone(&mut pins);
    react(&mut pins, finalized(&[1], &[]));
    // Block 0 is unpinned for its age, with two references left.
    assert_eq!(unpins(&mut pins, finalized(&[2], &[])), vec![0]);
    // It is pinned again, and giving up the references from before does not flag it.
    let in_use = refs(react(&mut pins, new_block(0, 3)).msg).pop().unwrap();
    old.drop(&mut pins);
    other.drop(&mut pins);
    assert_eq!(unpins(&mut pins, finalized(&[3], &[])), vec![1]);
    assert!(pins.is_pinned(&0));
    in_use.drop(&mut pins);
    assert_eq!(unpins(&mut pins, finalized(&[4], &[])), vec![0, 2]);
}

#[test]
fn unpinning_with_one_ref_left_flags_nothing() {
    let mut pins = ready_pins(2);
    let _kept = react(&mut pins, initialized(0));
    react(&mut pins, finalized(&[1], &[]));
    assert_eq!(unpins(&mut pins, finalized(&[2], &[])), vec![0]);
    let _in_use = react(&mut pins, new_block(0, 3));
    assert_eq!(unpins(&mut pins, finalized(&[3], &[])), vec![1]);
    assert!(pins.is_pinned(&0));
}

#[test]
fn flagged_blocks_wait_until_they_are_old_enough() {
    let mut pins = ready_pins(100);
    react(&mut pins, initialized(0));
    react(&mut pins, new_block(0, 1));
    let block_2 = refs(react(&mut pins, new_block(1, 2)).msg).swap_remove(0);
    assert!(block_2 == 2);
    block_2.drop(&mut pins);
    // Block 2 is newer than the last finalized block, and might be reported again.
    assert_eq!(unpins(&mut pins, finalized(&[1], &[])), Vec::<u64>::new());
    assert!(pins.is_pinned(&2));
    assert_eq!(unpins(&mut pins, finalized(&[12], &[])), vec![2]);
    assert!(!pins.is_pinned(&2));
}

#[test]
fn newer_blocks_that_are_reported_again_stay() {
    let mut pins = ready_pins(100);
    react(&mut pins, initialized(0));
    for r in refs(react(&mut pins, new_block(0, 1)).msg) {
        if r == 1 {
            r.drop(&mut pins);
        }
    }
    assert_eq!(unpins(&mut pins, finalized(&[], &[])), Vec::<u64>::new());
    let again = refs(react(&mut pins, finalized(&[1], &[])).msg).pop().unwrap();
    assert_eq!(unpins(&mut pins, finalized(&[2], &[])), Vec::<u64>::new());
    again.drop(&mut pins);
    assert_eq!(unpins(&mut pins, finalized(&[3], &[])), vec![1]);
}

#[test]
fn refs_to_other_blocks_of_another_stream_have_no_effect() {
    let mut one = ready_pins(100);
    let mut other = ready_pins(100);
    let five = refs(react(&mut one, initialized(5)).msg).pop().unwrap();
    react(&mut other, initialized(7));
    five.drop(&mut other);
    assert_eq!(unpins(&mut other, finalized(&[8], &[])), Vec::<u64>::new());
    assert!(other.is_pinned(&7));
}

#[test]
fn unpinning_twice_asks_once() {
    let mut pins = ready_pins(1);
    react(&mut pins, initialized(0));
    assert_eq!(unpins(&mut pins, finalized(&[1], &[])), vec![0]);
    assert_eq!(unpins(&mut pins, finalized(&[], &[])), Vec::<u64>::new());
}

#[test]
fn longer_life_keeps_more() {
    let mut short = ready_pins(1);
    let mut long = ready_pins(2);
    for pins in [&mut short, &mut long] {
        react(pins, initialized(0));
    }
    assert_eq!(unpins(&mut short, finalized(&[1], &[])), vec![0]);
    assert_eq!(unpins(&mut long, finalized(&[1], &[])), Vec::<u64>::new());
}

#[test]
fn a_block_named_twice_keeps_its_first_number() {
    let mut pins = ready_pins(2);
    // Number 1 as finalized, and not 2 as pruned. Both references count.
    let mut rs = refs(react(&mut pins, finalized(&[1], &[1])).msg);
    assert_eq!(rs, vec![BlockRef::new(1), BlockRef::new(1)]);
    rs.pop().unwrap().drop(&mut pins);
    assert_eq!(unpins(&mut pins, finalized(&[2], &[])), Vec::<u64>::new());
    assert_eq!(unpins(&mut pins, finalized(&[3], &[])), vec![1]);
    assert_eq!(rs[0].hash(), 1);
}

#[test]
fn requests_stay_made_when_a_block_comes_back() {
    let mut pins = ready_pins(1);
    react(&mut pins, initialized(0));
    assert_eq!(unpins(&mut pins, finalized(&[1], &[])), vec![0]);
    let again = react(&mut pins, new_block(0, 2));
    assert!(!again.cancel_unpins && again.unpins.is_empty());
    assert!(pins.is_pinned(&0));
}

#[test]
fn operations_are_forwarded() {
    let mut pins = ready_pins(10);
    let events = |n: u32| -> Vec<FollowEvent<u64, &'static str, u32>> {
        vec![
            FollowEvent::OperationBodyDone(n),
            FollowEvent::OperationCallDone(n),
            FollowEvent::OperationStorageItems(n),
            FollowEvent::OperationWaitingForContinue(n),
            FollowEvent::OperationStorageDone(n),
            FollowEvent::OperationInaccessible(n),
            FollowEvent::OperationError(n),
        ]
    };
    let expected: Vec<FollowEvent<BlockRef<u64>, &'static str, u32>> = vec![
        FollowEvent::OperationBodyDone(3),
        FollowEvent::OperationCallDone(3),
        FollowEvent::OperationStorageItems(3),
        FollowEvent::OperationWaitingForContinue(3),
        FollowEvent::OperationStorageDone(3),
        FollowEvent::OperationInaccessible(3),
        FollowEvent::OperationError(3),
    ];
    for (event, expected) in events(3).into_iter().zip(expected) {
        let reaction = react(&mut pins, FollowStreamMsg::Event(event));
        assert_eq!(reaction.msg, FollowStreamMsg::Event(expected));
        assert!(reaction.unpins.is_empty() && !reaction.wake && !reaction.cancel_unpins);
    }
}

#[test]
fn runtimes_are_carried_through() {
    let mut pins = ready_pins(10);
    let reaction = react(
        &mut pins,
        FollowStreamMsg::Event(FollowEvent::Initialized(Initialized {
            finalized_block_hash: 1,
            finalized_block_runtime: Some("v1"),
        })),
    );
    match reaction.msg {
        FollowStreamMsg::Event(FollowEvent::Initialized(d)) => {
            assert_eq!(d.finalized_block_runtime, Some("v1"));
            assert!(d.finalized_block_hash == 1);
        }
        _ => panic!("not an initialized event"),
    }
    let reaction = react(
        &mut pins,
        FollowStreamMsg::Event(FollowEvent::NewBlock(NewBlock {
            block_hash: 2,
            parent_block_hash: 1,
            new_runtime: Some("v2"),
        })),
    );
    match reaction.msg {
        FollowStreamMsg::Event(FollowEvent::NewBlock(d)) => {
            assert_eq!(d.new_runtime, Some("v2"));
            assert!(d.block_hash == 2 && d.parent_block_hash == 1);
        }
        _ => panic!("not a new block"),
    }
}

#[test]
fn polling_goes_by_steps() {
    let mut pins = ready_pins(10);
    let mut poll = |event: PollEvent<u64, &'static str, u32, u8>| pins.poll_next(event);
    assert!(matches!(poll(PollEvent::Start), PollAction::PollUnpins));
    assert!(matches!(
        poll(PollEvent::UnpinCompleted),
        PollAction::PollUnpins
    ));
    assert!(matches!(poll(PollEvent::UnpinsIdle), PollAction::PollInner));
    assert!(matches!(
        poll(PollEvent::InnerPending),
        PollAction::ReturnPending
    ));
    assert!(matches!(poll(PollEvent::InnerDone), PollAction::ReturnDone));
    assert!(matches!(
        poll(PollEvent::InnerItem(Err(42))),
        PollAction::ReturnItem(Err(42))
    ));
    match poll(PollEvent::InnerItem(Ok(initialized(4)))) {
        PollAction::ReturnItem(Ok(reaction)) => {
            assert_eq!(refs(reaction.msg), vec![BlockRef::new(4)]);
        }
        _ => panic!("not an item"),
    }
    assert!(pins.is_pinned(&4));
}

#[test]
fn numbers_out_of_range_do_not_fit() {
    let pins: FollowStreamUnpin<()> = FollowStreamUnpin::new(1);
    let many: Box<[()]> = Box::new([(); usize::MAX]);
    let msg: FollowStreamMsg<(), (), ()> =
        FollowStreamMsg::Event(FollowEvent::Finalized(Finalized {
            finalized_block_hashes: many.into_vec(),
            pruned_block_hashes: vec![],
        }));
    assert!(!pins.fits(&msg));
    let msg: FollowStreamMsg<(), (), ()> =
        FollowStreamMsg::Event(FollowEvent::Finalized(Finalized {
            finalized_block_hashes: vec![(), ()],
            pruned_block_hashes: vec![()],
        }));
    assert!(pins.fits(&msg));
}
