use irondag::collections::{KeyMap, KeySet};
use irondag::database::Database;
use irondag::block::{Block, BlockHeader};
use irondag::consensus::storage::{DagStorageConfig, HybridDagStorage};
use irondag::types::Hash32;
use irondag::consensus::checkpoint::{meta_key_bytes, prefixed, score_bytes, PREFIX_BLUE_SCORE, PREFIX_BLUE_SET};
use irondag::consensus::GhostDAG;

fn create_test_block(block_number: u64) -> Block {
    let header = BlockHeader {
        parent_hashes: vec![],
        block_number,
        difficulty: 8,
        timestamp: 1000 + block_number,
        nonce: 0,
        base_fee_per_gas: 0,
    };
    Block::new(header, vec![])
}

#[test]
fn test_hybrid_storage_basic() {
    let mut storage = HybridDagStorage::new(Default::default());
    let block = create_test_block(1);
    let hash = block.hash;
    storage.add_block(&block).unwrap();
    let retrieved = storage.get_block(&hash).unwrap();
    assert!(retrieved.is_some(), "Block should be in hot cache");
    assert_eq!(retrieved.unwrap().header.block_number, 1);
}

#[test]
fn test_hot_cache_pruning() {
    let config = DagStorageConfig { hot_cache_size: 3, finalized_depth: 2, confirmations_for_checkpoint: 0 };
    let mut storage = HybridDagStorage::new(config);
    let mut hashes = Vec::new();
    for i in 1..=5 {
        let block = create_test_block(i);
        hashes.push(block.hash);
        storage.add_block(&block).unwrap();
    }
    let hot_blocks = storage.get_hot_blocks();
    assert!(hot_blocks.len() <= 3, "Hot cache should be pruned to 3 blocks");
}

#[test]
fn test_blue_set_storage() {
    let mut storage = HybridDagStorage::new(Default::default());
    let block = create_test_block(1);
    let hash = block.hash;
    storage.add_block(&block).unwrap();
    storage.add_to_blue_set(hash);
    assert!(storage.is_blue(&hash), "Block should be in blue set");
    storage.set_blue_score(hash, 100);
    assert_eq!(storage.get_blue_score(&hash), Some(100));
}

#[test]
fn test_children_storage() {
    let mut storage = HybridDagStorage::new(Default::default());
    let parent = create_test_block(1);
    let parent_hash = parent.hash;
    storage.add_block(&parent).unwrap();
    let child = create_test_block(2);
    let child_hash = child.hash;
    storage.add_block(&child).unwrap();
    storage.set_children(parent_hash, vec![child_hash]);
    let children = storage.get_children(&parent_hash).unwrap();
    assert_eq!(children.len(), 1);
    assert_eq!(children[0], child_hash);
}

#[test]
fn eviction_is_oldest_first_and_finalizes() {
    let config = DagStorageConfig { hot_cache_size: 3, finalized_depth: 2, confirmations_for_checkpoint: 0 };
    let mut storage = HybridDagStorage::new(config);
    let blocks: Vec<Block> = (1..=5).map(create_test_block).collect();
    for b in &blocks {
        storage.add_block(b).unwrap();
    }
    assert_eq!(storage.get_hot_blocks().len(), 3);
    assert!(storage.get_block(&blocks[0].hash).unwrap().is_none());
    assert!(storage.get_block(&blocks[1].hash).unwrap().is_none());
    assert!(storage.is_finalized(&blocks[0].hash));
    assert!(storage.is_finalized(&blocks[1].hash));
    for b in &blocks[2..] {
        assert!(storage.get_block(&b.hash).unwrap().is_some());
        assert!(!storage.is_finalized(&b.hash));
    }
    let stats = storage.get_pruning_stats();
    assert_eq!(stats.hot_block_count, 3);
    assert_eq!(stats.finalized_count, 2);
}

#[test]
fn re_adding_a_block_does_not_grow_the_cache() {
    let mut storage = HybridDagStorage::new(Default::default());
    let b = create_test_block(7);
    storage.add_block(&b).unwrap();
    storage.add_block(&b).unwrap();
    assert_eq!(storage.get_hot_blocks().len(), 1);
    assert_eq!(storage.get_all_blocks().unwrap().len(), 1);
}

#[test]
fn prune_by_hash_and_red_pruning() {
    let mut storage = HybridDagStorage::new(Default::default());
    let blocks: Vec<Block> = (1..=6).map(create_test_block).collect();
    for b in &blocks {
        storage.add_block(b).unwrap();
    }
    storage.add_to_blue_set(blocks[0].hash);
    storage.prune_blocks_by_hash(&[blocks[5].hash]);
    assert!(storage.get_block(&blocks[5].hash).unwrap().is_none());
    assert!(storage.is_finalized(&blocks[5].hash));
    assert_eq!(storage.prune_red_blocks(3, 5), 0);
    // threshold 10 - 6 = 4: red blocks numbered 2 and 3 go, blue block 1 stays
    assert_eq!(storage.prune_red_blocks(10, 6), 2);
    assert!(storage.get_block(&blocks[0].hash).unwrap().is_some());
    assert!(storage.get_block(&blocks[1].hash).unwrap().is_none());
    assert!(storage.get_block(&blocks[2].hash).unwrap().is_none());
    assert!(storage.get_block(&blocks[3].hash).unwrap().is_some());
    assert_eq!(storage.get_hot_blocks().len(), 3);
}

#[test]
fn checkpoint_counter_and_clear() {
    let mut storage = HybridDagStorage::new(Default::default());
    assert_eq!(storage.confirmations_for_checkpoint(), 100);
    assert_eq!(storage.increment_checkpoint_counter(), 1);
    assert_eq!(storage.increment_checkpoint_counter(), 2);
    assert_eq!(storage.blocks_since_checkpoint(), 2);
    storage.reset_checkpoint_counter();
    assert_eq!(storage.blocks_since_checkpoint(), 0);
    storage.add_block(&create_test_block(1)).unwrap();
    storage.increment_checkpoint_counter();
    storage.clear();
    assert_eq!(storage.get_hot_blocks().len(), 0);
    assert_eq!(storage.blocks_since_checkpoint(), 0);
    assert_eq!(storage.get_children(&Hash32([0u8; 32])).unwrap().len(), 0);
}

#[test]
fn ordering_and_checkpoint_round_trip_through_the_database() {
    let mut storage = HybridDagStorage::with_database(Database::new(), Default::default());
    let ordering = vec![Hash32([3u8; 32]), Hash32([1u8; 32]), Hash32([2u8; 32])];
    storage.save_ordering(&ordering).unwrap();
    assert_eq!(storage.load_ordering().unwrap(), ordering);

    let genesis = Hash32([2u8; 32]);
    let mut blue = KeySet::new();
    blue.insert(genesis);
    blue.insert(Hash32([1u8; 32]));
    let mut scores = KeyMap::new();
    scores.insert(genesis, 1u64);
    scores.insert(Hash32([1u8; 32]), 2u64);
    storage.save_checkpoint(Some(genesis), &blue, &scores, &ordering).unwrap();
    let (g, b, sc, o) = storage.load_checkpoint().unwrap().unwrap();
    assert_eq!(g, Some(genesis));
    assert_eq!(b.len(), 2);
    assert!(b.contains(&genesis));
    assert_eq!(sc.get_copy(&Hash32([1u8; 32])), Some(2));
    assert_eq!(o, ordering);
}

fn store_with_unscored_blue_block() -> Database {
    let mut db = Database::new();
    db.insert_raw(meta_key_bytes(), vec![0u8; 40]);
    db.insert_raw(prefixed(PREFIX_BLUE_SET, &[5u8; 32]), vec![1]);
    db
}

#[test]
fn open_checked_reports_a_blue_block_without_score() {
    assert!(GhostDAG::open_checked(store_with_unscored_blue_block(), 4).is_none());
}

#[test]
fn open_checked_opens_a_consistent_store() {
    let mut db = store_with_unscored_blue_block();
    db.insert_raw(prefixed(PREFIX_BLUE_SCORE, &[5u8; 32]), score_bytes(3));
    let dag = GhostDAG::open_checked(db, 4).unwrap();
    assert!(dag.is_blue(&Hash32([5u8; 32])));
    assert_eq!(dag.get_blue_score(&Hash32([5u8; 32])), Some(3));
    let empty = GhostDAG::open_checked(Database::new(), 4).unwrap();
    assert!(!empty.loaded_from_checkpoint());
}
