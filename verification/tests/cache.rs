use lsm_db::cache::{BlockCache, BlockKey, DecodedBlock, Shard};
use lsm_db::record::Record;
use std::sync::Arc;

fn block(n: u8) -> Arc<DecodedBlock> {
    Arc::new(vec![(vec![n], Record::Value(vec![n]))])
}

fn key(run: u64, blk: u32) -> BlockKey {
    BlockKey {
        run_id: run,
        block_idx: blk,
    }
}

#[test]
fn test_hit_after_insert() {
    let mut c = BlockCache::new(1 << 20);
    assert!(c.get(key(1, 0)).is_none());
    c.insert(key(1, 0), block(7));
    let got = c.get(key(1, 0)).expect("hit");
    assert_eq!(got[0].0, vec![7]);
}

#[test]
fn test_disabled_never_stores() {
    let mut c = BlockCache::new(0);
    c.insert(key(1, 0), block(1));
    assert!(c.get(key(1, 0)).is_none());
}

#[test]
fn test_distinct_keys_coexist() {
    let mut c = BlockCache::new(1 << 20);
    c.insert(key(1, 0), block(1));
    c.insert(key(1, 1), block(2));
    c.insert(key(2, 0), block(3));
    assert_eq!(c.get(key(1, 0)).unwrap()[0].0, vec![1]);
    assert_eq!(c.get(key(1, 1)).unwrap()[0].0, vec![2]);
    assert_eq!(c.get(key(2, 0)).unwrap()[0].0, vec![3]);
}

#[test]
fn test_eviction_bounds_a_shard() {
    let mut shard = Shard::with_slots(1);
    shard.insert(key(1, 0), block(1));
    assert!(shard.get(key(1, 0)).is_some());
    shard.insert(key(1, 1), block(2));
    shard.insert(key(1, 2), block(3));
    assert!(shard.get(key(1, 2)).is_some());
    let resident = [key(1, 0), key(1, 1), key(1, 2)]
        .into_iter()
        .filter(|k| shard.get(*k).is_some())
        .count();
    assert_eq!(resident, 1, "a one-slot shard holds exactly one block");
}

#[test]
fn test_reinsert_same_key_updates() {
    let mut c = BlockCache::new(1 << 20);
    c.insert(key(5, 2), block(1));
    c.insert(key(5, 2), block(9));
    assert_eq!(c.get(key(5, 2)).unwrap()[0].0, vec![9]);
}

#[test]
fn the_hand_passes_over_used_blocks() {
    let mut shard = Shard::with_slots(2);
    shard.insert(key(1, 0), block(0));
    shard.insert(key(1, 1), block(1));
    // Both were just used: the hand clears both and comes back to the first.
    shard.insert(key(1, 2), block(2));
    assert!(shard.get(key(1, 0)).is_none());
    assert!(shard.get(key(1, 2)).is_some());
    assert!(shard.get(key(1, 1)).is_some());
}

#[test]
fn an_unused_block_leaves_before_a_used_one() {
    let mut shard = Shard::with_slots(3);
    shard.insert(key(1, 0), block(0));
    shard.insert(key(1, 1), block(1));
    shard.insert(key(1, 2), block(2));
    // Evicts slot 0 and leaves slots 1 and 2 unmarked.
    shard.insert(key(1, 3), block(3));
    // Using the block in slot 1 saves it; the one in slot 2 leaves.
    assert!(shard.get(key(1, 1)).is_some());
    shard.insert(key(1, 4), block(4));
    assert!(shard.get(key(1, 1)).is_some());
    assert!(shard.get(key(1, 2)).is_none());
    assert!(shard.get(key(1, 3)).is_some());
    assert!(shard.get(key(1, 4)).is_some());
}

#[test]
fn a_tiny_capacity_still_gives_every_shard_a_slot() {
    let mut c = BlockCache::new(4096);
    for blk in 0..64 {
        c.insert(key(3, blk), block(blk as u8));
        assert_eq!(c.get(key(3, blk)).unwrap()[0].0, vec![blk as u8]);
    }
    let resident = (0..64).filter(|b| c.get(key(3, *b)).is_some()).count();
    assert!(resident <= 16);
    assert!(BlockCache::new(4095).get(key(0, 0)).is_none());
}

#[test]
fn a_one_slot_shard_keeps_the_last_block() {
    let mut shard = Shard::with_slots(1);
    shard.insert(key(1, 0), block(0));
    assert_eq!(shard.get(key(1, 0)).unwrap()[0].0, vec![0]);
    shard.insert(key(1, 1), block(1));
    shard.insert(key(1, 2), block(2));
    assert!(shard.get(key(1, 0)).is_none());
    assert!(shard.get(key(1, 1)).is_none());
    assert_eq!(shard.get(key(1, 2)).unwrap()[0].0, vec![2]);
}

#[test]
fn nothing_leaves_while_a_slot_is_free() {
    let mut shard = Shard::with_slots(8);
    for blk in 0..8 {
        shard.insert(key(7, blk), block(blk as u8));
        for earlier in 0..=blk {
            assert_eq!(shard.get(key(7, earlier)).unwrap()[0].0, vec![earlier as u8]);
        }
    }
    shard.insert(key(7, 8), block(8));
    let resident = (0..9).filter(|b| shard.get(key(7, *b)).is_some()).count();
    assert_eq!(resident, 8);
    let mut none = Shard::with_slots(0);
    none.insert(key(7, 0), block(0));
    assert!(none.get(key(7, 0)).is_none());
}
