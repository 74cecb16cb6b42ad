use consensus_sync::{
    AncestorWalk, Block, Digest, PendingParents, PreviousLookup, PreviousOutcome, Synchronizer,
    WaitOutcome, WalkStep, QC, on_parent_read, previous_lookup,
};

fn digest(b: u8) -> Digest {
    Digest::new(vec![b; 32])
}

fn block(round: u64, parent: u8, payload: u8, own: u8) -> Block {
    Block::new(QC { hash: digest(parent), round: round - 1 }, round, digest(payload), digest(own))
}

fn genesis_child(round: u64, own: u8) -> Block {
    Block::new(QC::genesis(), round, digest(200), digest(own))
}

#[test]
fn genesis_parent_needs_no_store_read() {
    let b = genesis_child(1, 1);
    match previous_lookup(&b) {
        PreviousLookup::Known(g) => {
            assert_eq!(g.round, 0);
            assert_eq!(g.digest.bytes, vec![0u8; 32]);
            assert!(g.qc.is_genesis());
        }
        PreviousLookup::Read(_) => panic!("genesis parent must not be read"),
    }
}

#[test]
fn other_parent_is_read_by_digest() {
    let b = block(5, 4, 50, 5);
    match previous_lookup(&b) {
        PreviousLookup::Read(d) => assert_eq!(d.bytes, vec![4u8; 32]),
        PreviousLookup::Known(_) => panic!("parent must be read"),
    }
}

#[test]
fn qc_with_round_zero_and_other_digest_is_not_genesis() {
    let qc = QC { hash: digest(1), round: 0 };
    assert!(!qc.is_genesis());
    let qc = QC { hash: Digest::new(vec![0u8; 32]), round: 3 };
    assert!(!qc.is_genesis());
}

#[test]
fn missing_parent_asks_for_sync() {
    let b = block(5, 4, 50, 5);
    match on_parent_read(&b, None) {
        PreviousOutcome::NotReady(sync) => {
            assert_eq!(sync.parent.bytes, vec![4u8; 32]);
            assert_eq!(sync.deliver.digest.bytes, vec![5u8; 32]);
            assert_eq!(sync.deliver.round, 5);
        }
        PreviousOutcome::Ready(_) => panic!("nothing was stored"),
    }
}

#[test]
fn stored_parent_is_ready() {
    let b = block(5, 4, 50, 5);
    let parent = block(4, 3, 40, 4);
    match on_parent_read(&b, Some(parent)) {
        PreviousOutcome::Ready(p) => assert_eq!(p.round, 4),
        PreviousOutcome::NotReady(_) => panic!("the parent was stored"),
    }
}

#[test]
fn ancestors_found_oldest_first() {
    let sync = Synchronizer::new(vec![9u8; 32]);
    let mut walk: AncestorWalk = sync.get_ancestors(&block(5, 4, 50, 5));
    match walk.next_lookup() {
        PreviousLookup::Read(d) => assert_eq!(d.bytes, vec![4u8; 32]),
        PreviousLookup::Known(_) => panic!("parent must be read"),
    }
    assert!(matches!(walk.record(Some(block(4, 3, 40, 4))), WalkStep::Continue));
    match walk.next_lookup() {
        PreviousLookup::Read(d) => assert_eq!(d.bytes, vec![3u8; 32]),
        PreviousLookup::Known(_) => panic!("parent must be read"),
    }
    assert!(matches!(walk.record(Some(block(3, 2, 30, 3))), WalkStep::Continue));
    match walk.record(Some(block(2, 1, 20, 2))) {
        WalkStep::Done(b0, b1, b2) => {
            assert_eq!(b0.round, 2);
            assert_eq!(b1.round, 3);
            assert_eq!(b2.round, 4);
        }
        _ => panic!("all three ancestors were found"),
    }
}

#[test]
fn ancestors_reach_genesis_without_reads() {
    let sync = Synchronizer::new(vec![9u8; 32]);
    let mut walk = sync.get_ancestors(&block(2, 1, 20, 2));
    assert!(matches!(walk.record(Some(genesis_child(1, 1))), WalkStep::Continue));
    match walk.next_lookup() {
        PreviousLookup::Known(g) => {
            assert!(matches!(walk.record(Some(g)), WalkStep::Continue));
        }
        PreviousLookup::Read(_) => panic!("genesis parent must not be read"),
    }
    match walk.next_lookup() {
        PreviousLookup::Known(g) => match walk.record(Some(g)) {
            WalkStep::Done(b0, b1, b2) => {
                assert_eq!(b0.round, 0);
                assert_eq!(b1.round, 0);
                assert_eq!(b2.round, 1);
            }
            _ => panic!("the walk must end"),
        },
        PreviousLookup::Read(_) => panic!("genesis parent must not be read"),
    }
}

#[test]
fn ancestors_not_ready_when_parent_missing() {
    let mut walk = AncestorWalk::new(block(5, 4, 50, 5));
    match walk.record(None) {
        WalkStep::NotReady(sync) => {
            assert_eq!(sync.parent.bytes, vec![4u8; 32]);
            assert_eq!(sync.deliver.round, 5);
        }
        _ => panic!("the parent is missing"),
    }
}

#[test]
fn ancestors_missing_deeper_is_reported() {
    let mut walk = AncestorWalk::new(block(5, 4, 50, 5));
    assert!(matches!(walk.record(Some(block(4, 3, 40, 4))), WalkStep::Continue));
    assert!(matches!(walk.record(None), WalkStep::MissingAncestor));
}

#[test]
fn second_request_for_same_parent_starts_no_wait() {
    let mut pending = PendingParents::new();
    assert!(pending.on_sync_parent(&digest(4)));
    assert!(!pending.on_sync_parent(&digest(4)));
    assert!(pending.contains(&digest(4)));
    assert_eq!(pending.retry_requests().len(), 1);
}

#[test]
fn resolved_parent_is_looped_back_once() {
    let mut pending = PendingParents::new();
    assert!(pending.on_sync_parent(&digest(4)));
    let delivered = pending.on_wait_done(WaitOutcome::Delivered {
        parent: Some(digest(4)),
        block: block(5, 4, 50, 5),
    });
    assert_eq!(delivered.map(|b| b.round), Some(5));
    assert!(!pending.contains(&digest(4)));
    assert!(pending.retry_requests().is_empty());
    assert!(pending.on_sync_parent(&digest(4)));
}

#[test]
fn cancelled_or_failed_wait_delivers_nothing() {
    let mut pending = PendingParents::new();
    assert!(pending.on_sync_parent(&digest(4)));
    assert!(pending.on_wait_done(WaitOutcome::Cancelled).is_none());
    assert!(pending.on_wait_done(WaitOutcome::Failed).is_none());
    assert!(pending.contains(&digest(4)));
}

#[test]
fn payload_delivery_keeps_pending_parents() {
    let mut pending = PendingParents::new();
    assert!(pending.on_sync_parent(&digest(4)));
    let delivered = pending.on_wait_done(WaitOutcome::Delivered { parent: None, block: block(7, 6, 70, 7) });
    assert_eq!(delivered.map(|b| b.round), Some(7));
    assert!(pending.contains(&digest(4)));
}

#[test]
fn retry_requests_every_pending_parent_again() {
    let mut pending = PendingParents::new();
    assert!(pending.on_sync_parent(&digest(4)));
    assert!(pending.on_sync_parent(&digest(8)));
    let first: Vec<Vec<u8>> = pending.retry_requests().into_iter().map(|d| d.bytes).collect();
    let second: Vec<Vec<u8>> = pending.retry_requests().into_iter().map(|d| d.bytes).collect();
    assert_eq!(first, vec![vec![4u8; 32], vec![8u8; 32]]);
    assert_eq!(first, second);
}

#[test]
fn remove_keeps_other_parents() {
    let mut pending = PendingParents::new();
    assert!(pending.on_sync_parent(&digest(1)));
    assert!(pending.on_sync_parent(&digest(2)));
    assert!(pending.on_sync_parent(&digest(3)));
    pending.remove(&digest(2));
    let left: Vec<Vec<u8>> = pending.retry_requests().into_iter().map(|d| d.bytes).collect();
    assert_eq!(left, vec![vec![1u8; 32], vec![3u8; 32]]);
}

#[test]
fn payload_registered_once_per_round() {
    let mut sync = Synchronizer::new(vec![9u8; 32]);
    let b = block(5, 4, 50, 5);
    let wait = sync.register_payload(&b).expect("first registration");
    assert_eq!(wait.key.bytes, vec![50u8; 32]);
    assert_eq!(wait.deliver.round, 5);
    assert!(sync.register_payload(&b).is_none());
    assert!(sync.has_payload_wait(5));
    assert_eq!(sync.pending_payloads.len(), 1);
}

#[test]
fn cleanup_cancels_earlier_rounds_only() {
    let mut sync = Synchronizer::new(vec![9u8; 32]);
    let mut early = sync.register_payload(&block(7, 6, 70, 7)).expect("round 7");
    let mut current = sync.register_payload(&block(10, 9, 100, 10)).expect("round 10");
    let mut later = sync.register_payload(&block(12, 11, 120, 12)).expect("round 12");
    sync.cleanup(10);
    assert!(early.cancel.try_recv().is_ok());
    assert!(current.cancel.try_recv().is_err());
    assert!(later.cancel.try_recv().is_err());
    assert!(!sync.has_payload_wait(7));
    assert!(sync.has_payload_wait(10));
    assert!(sync.has_payload_wait(12));
    let mut rounds: Vec<u64> = sync.pending_payloads.iter().map(|p| p.round).collect();
    rounds.sort();
    assert_eq!(rounds, vec![10, 12]);
}

#[test]
fn cleanup_skips_closed_channels() {
    let mut sync = Synchronizer::new(vec![9u8; 32]);
    let wait = sync.register_payload(&block(3, 2, 30, 3)).expect("round 3");
    drop(wait);
    sync.cleanup(4);
    assert!(!sync.has_payload_wait(3));
    assert!(sync.pending_payloads.is_empty());
}

#[test]
fn round_registers_again_after_cleanup() {
    let mut sync = Synchronizer::new(vec![9u8; 32]);
    assert!(sync.register_payload(&block(3, 2, 30, 3)).is_some());
    sync.cleanup(4);
    assert!(sync.register_payload(&block(3, 2, 30, 3)).is_some());
}

#[test]
fn digest_helpers() {
    let a = digest(7);
    assert!(a.same(&a.copy()));
    assert!(!a.same(&digest(8)));
    assert!(!a.same(&Digest::new(vec![7u8; 31])));
    assert_eq!(Digest::zero().bytes, vec![0u8; 32]);
    let b = block(5, 4, 50, 5);
    assert_eq!(b.previous().bytes, vec![4u8; 32]);
    assert_eq!(b.copy().payload.bytes, vec![50u8; 32]);
    assert_eq!(Block::genesis().payload.bytes, vec![0u8; 32]);
}

#[test]
fn second_cleanup_changes_nothing() {
    let mut sync = Synchronizer::new(vec![9u8; 32]);
    let mut early = sync.register_payload(&block(4, 3, 40, 4)).expect("round 4");
    let mut current = sync.register_payload(&block(10, 9, 100, 10)).expect("round 10");
    sync.cleanup(10);
    sync.cleanup(10);
    assert!(early.cancel.try_recv().is_ok());
    assert!(early.cancel.try_recv().is_err());
    assert!(current.cancel.try_recv().is_err());
    let rounds: Vec<u64> = sync.pending_payloads.iter().map(|p| p.round).collect();
    assert_eq!(rounds, vec![10]);
}

#[test]
fn two_cleanups_equal_one_at_larger_round() {
    let mut twice = Synchronizer::new(vec![9u8; 32]);
    let mut once = Synchronizer::new(vec![9u8; 32]);
    for r in [3u64, 8, 12, 6, 15] {
        assert!(twice.register_payload(&block(r, 1, 1, 1)).is_some());
        assert!(once.register_payload(&block(r, 1, 1, 1)).is_some());
    }
    twice.cleanup(12);
    twice.cleanup(7);
    once.cleanup(12);
    let a: Vec<u64> = twice.pending_payloads.iter().map(|p| p.round).collect();
    let b: Vec<u64> = once.pending_payloads.iter().map(|p| p.round).collect();
    assert_eq!(a, vec![12, 15]);
    assert_eq!(a, b);
}
