use irondag::block::{Block, BlockHeader};
use irondag::consensus::GhostDAG;
use irondag::types::Hash32;

fn block(number: u64, parents: Vec<Hash32>, timestamp: u64) -> Block {
    let header = BlockHeader {
        parent_hashes: parents,
        block_number: number,
        difficulty: 1,
        timestamp,
        nonce: number,
        base_fee_per_gas: 0,
    };
    Block::new(header, vec![])
}

#[test]
fn genesis_is_blue_with_score_one() {
    let mut dag = GhostDAG::new();
    assert_eq!(dag.get_k(), 4);
    let g = block(0, vec![], 100);
    dag.add_block(&g).unwrap();
    assert!(dag.is_blue(&g.hash));
    assert_eq!(dag.get_blue_score(&g.hash), Some(1));
    assert_eq!(dag.get_blue_block_count(), 1);
    assert_eq!(dag.get_red_block_count(), 0);
    assert_eq!(dag.get_tips(), vec![g.hash]);
    assert!(dag.loaded_from_checkpoint());
}

#[test]
fn chain_scores_increase_and_order_is_tip_first() {
    let mut dag = GhostDAG::new();
    let g = block(0, vec![], 100);
    dag.add_block(&g).unwrap();
    let b1 = block(1, vec![g.hash], 101);
    dag.add_block(&b1).unwrap();
    let b2 = block(2, vec![b1.hash], 102);
    dag.add_block(&b2).unwrap();
    assert_eq!(dag.get_blue_score(&b1.hash), Some(2));
    assert_eq!(dag.get_blue_score(&b2.hash), Some(3));
    let ordered: Vec<Hash32> = dag.get_ordered_blocks().unwrap().iter().map(|b| b.hash).collect();
    assert_eq!(ordered, vec![b2.hash, b1.hash, g.hash]);
    assert_eq!(dag.get_tips(), vec![b2.hash]);
    assert_eq!(dag.get_block_count(), 3);
}

#[test]
fn block_with_two_parents_takes_best_parent_score() {
    let mut dag = GhostDAG::new();
    let g = block(0, vec![], 100);
    dag.add_block(&g).unwrap();
    let a = block(1, vec![g.hash], 101);
    dag.add_block(&a).unwrap();
    let b = block(2, vec![a.hash], 102);
    dag.add_block(&b).unwrap();
    let c = block(1, vec![g.hash], 103);
    dag.add_block(&c).unwrap();
    let m = block(3, vec![b.hash, c.hash], 104);
    dag.add_block(&m).unwrap();
    assert_eq!(dag.get_blue_score(&c.hash), Some(2));
    assert_eq!(dag.get_blue_score(&m.hash), Some(4));
    assert_eq!(dag.get_tips(), vec![m.hash]);
}

#[test]
fn tips_are_limited_to_three_and_sorted_by_score() {
    let mut dag = GhostDAG::with_k(2);
    let g = block(0, vec![], 100);
    dag.add_block(&g).unwrap();
    let a = block(1, vec![g.hash], 101);
    dag.add_block(&a).unwrap();
    let a2 = block(2, vec![a.hash], 102);
    dag.add_block(&a2).unwrap();
    let b = block(1, vec![g.hash], 103);
    dag.add_block(&b).unwrap();
    let c = block(1, vec![g.hash], 104);
    dag.add_block(&c).unwrap();
    let tips = dag.get_tips();
    assert_eq!(tips.len(), 3);
    assert_eq!(tips[0], a2.hash);
    assert!(tips[1] == b.hash || tips[1] == c.hash);
    assert!(tips[2] == b.hash || tips[2] == c.hash);
    let d = block(1, vec![g.hash], 105);
    dag.add_block(&d).unwrap();
    let tips = dag.get_tips();
    assert_eq!(tips.len(), 3);
    assert_eq!(tips[0], a2.hash);
}

#[test]
fn chain_of_two_blocks_links_child_and_orders_tip_first() {
    let mut dag = GhostDAG::new();
    let g = block(0, vec![], 100);
    dag.add_block(&g).unwrap();
    let c = block(1, vec![g.hash], 101);
    dag.add_block(&c).unwrap();
    assert_eq!(dag.get_blue_score(&g.hash), Some(1));
    assert_eq!(dag.get_blue_score(&c.hash), Some(2));
    assert!(dag.is_blue(&c.hash));
    assert_eq!(dag.get_red_block_count(), 0);
    assert_eq!(dag.get_tips(), vec![c.hash]);
    let order: Vec<Hash32> = dag.get_ordered_blocks().unwrap().iter().map(|b| b.hash).collect();
    assert_eq!(order, vec![c.hash, g.hash]);
}

#[test]
fn block_without_known_parent_is_not_blue() {
    let mut dag = GhostDAG::new();
    let g = block(0, vec![], 100);
    dag.add_block(&g).unwrap();
    let orphan = block(5, vec![Hash32([9u8; 32])], 105);
    dag.add_block(&orphan).unwrap();
    assert!(!dag.is_blue(&orphan.hash));
    assert!(dag.is_red(&orphan.hash));
    assert_eq!(dag.get_blue_score(&orphan.hash), None);
}

#[test]
fn finalized_block_needs_enough_confirmations() {
    let mut dag = GhostDAG::new();
    let g = block(0, vec![], 1000);
    dag.add_block(&g).unwrap();
    assert_eq!(dag.get_finalized_block_hash().unwrap(), None);
    let mut prev = g.hash;
    let mut hashes = vec![g.hash];
    for i in 1..=100u64 {
        let b = block(i, vec![prev], 1000 + i);
        dag.add_block(&b).unwrap();
        prev = b.hash;
        hashes.push(b.hash);
    }
    // ordering holds 101 blocks, tip first; the block with 100 confirmations is the genesis
    assert_eq!(dag.get_finalized_block_hash().unwrap(), Some(g.hash));
    assert_eq!(dag.get_finalized_block_number().unwrap(), Some(0));
}

#[test]
fn clear_and_rebuild() {
    let mut dag = GhostDAG::new();
    let g = block(0, vec![], 100);
    dag.add_block(&g).unwrap();
    let b = block(1, vec![g.hash], 101);
    dag.add_block(&b).unwrap();
    dag.rebuild_from_scratch().unwrap();
    assert_eq!(dag.get_blue_score(&b.hash), Some(2));
    assert_eq!(dag.get_blue_set().len(), 2);
    assert_eq!(dag.get_red_set().len(), 0);
    assert!(dag.get_block(&b.hash).unwrap().is_some());
    dag.clear();
    assert_eq!(dag.get_blue_block_count(), 0);
    assert_eq!(dag.get_block_count(), 0);
    assert!(dag.get_tips().is_empty());
    dag.prune_old_blocks(500);
}

fn block_with_txs(number: u64, parents: Vec<Hash32>, timestamp: u64, n: u64) -> Block {
    let header = BlockHeader {
        parent_hashes: parents,
        block_number: number,
        difficulty: 1,
        timestamp,
        nonce: number,
        base_fee_per_gas: 0,
    };
    let mut txs = vec![];
    for i in 0..n {
        let mut tx = irondag::block::Transaction::new(
            irondag::types::Address([1u8; 20]),
            irondag::types::Address([2u8; 20]),
            1,
            1,
            i,
        );
        tx.hash = Hash32([(number * 16 + i) as u8; 32]);
        txs.push(tx);
    }
    Block::new(header, txs)
}

#[test]
fn stat_counts_cover_the_stored_blocks() {
    let mut dag = GhostDAG::new();
    let g = block_with_txs(0, vec![], 1000, 0);
    dag.add_block(&g).unwrap();
    let b1 = block_with_txs(1, vec![g.hash], 1005, 2);
    dag.add_block(&b1).unwrap();
    let b2 = block_with_txs(2, vec![b1.hash], 1010, 3);
    dag.add_block(&b2).unwrap();
    assert_eq!(dag.stat_counts(), (3, 3, 0, 5));
}

#[test]
fn recent_activity_counts_blocks_within_the_window() {
    let mut dag = GhostDAG::new();
    let g = block_with_txs(0, vec![], 1000, 0);
    dag.add_block(&g).unwrap();
    let b1 = block_with_txs(1, vec![g.hash], 1005, 2);
    dag.add_block(&b1).unwrap();
    let b2 = block_with_txs(2, vec![b1.hash], 1010, 3);
    dag.add_block(&b2).unwrap();
    assert_eq!(dag.recent_activity(100, 1010), Some((5, 10)));
    assert_eq!(dag.recent_activity(6, 1010), Some((5, 5)));
    assert_eq!(dag.recent_activity(0, 1010), Some((3, 0)));
    assert_eq!(dag.recent_activity(5, 2000), None);
    assert_eq!(GhostDAG::new().recent_activity(5, 2000), None);
}

#[test]
fn equal_scores_are_ordered_earliest_first() {
    let mut dag = GhostDAG::new();
    let g = block(0, vec![], 1000);
    dag.add_block(&g).unwrap();
    let a = block(1, vec![g.hash], 3000);
    dag.add_block(&a).unwrap();
    let b = block(1, vec![g.hash], 2000);
    dag.add_block(&b).unwrap();
    assert_eq!(dag.get_blue_score(&a.hash), Some(2));
    assert_eq!(dag.get_blue_score(&b.hash), Some(2));
    let order: Vec<Hash32> = dag.get_ordered_blocks().unwrap().iter().map(|x| x.hash).collect();
    assert_eq!(order, vec![b.hash, a.hash, g.hash]);
}

#[test]
fn ordering_after_new_tips_is_blue_distinct_and_ranked() {
    let mut dag = GhostDAG::new();
    let g = block(0, vec![], 1000);
    dag.add_block(&g).unwrap();
    let a = block(1, vec![g.hash], 1500);
    dag.add_block(&a).unwrap();
    let b = block(2, vec![g.hash], 1200);
    dag.add_block(&b).unwrap();
    let c = block(3, vec![a.hash, b.hash], 1300);
    dag.add_block(&c).unwrap();
    let order: Vec<Hash32> = dag.get_ordered_blocks().unwrap().iter().map(|x| x.hash).collect();
    assert_eq!(order, vec![c.hash, b.hash, a.hash, g.hash]);
    for (i, h) in order.iter().enumerate() {
        assert!(dag.is_blue(h));
        assert!(!order[i + 1..].contains(h));
    }
}

#[test]
fn added_blocks_score_one_more_than_their_best_parent() {
    let mut dag = GhostDAG::new();
    let g = block(0, vec![], 1000);
    dag.add_block(&g).unwrap();
    let a = block(1, vec![g.hash], 1001);
    dag.add_block(&a).unwrap();
    let b = block(2, vec![a.hash], 1002);
    dag.add_block(&b).unwrap();
    let c = block(3, vec![g.hash], 1003);
    dag.add_block(&c).unwrap();
    let d = block(4, vec![b.hash, c.hash], 1004);
    dag.add_block(&d).unwrap();
    assert_eq!(dag.get_blue_score(&g.hash), Some(1));
    assert_eq!(dag.get_blue_score(&a.hash), Some(2));
    assert_eq!(dag.get_blue_score(&b.hash), Some(3));
    assert_eq!(dag.get_blue_score(&c.hash), Some(2));
    assert_eq!(dag.get_blue_score(&d.hash), Some(4));
    assert_eq!(dag.get_red_block_count(), 0);
    assert_eq!(dag.get_blue_block_count(), 5);
    let order: Vec<Hash32> = dag.get_ordered_blocks().unwrap().iter().map(|x| x.hash).collect();
    assert_eq!(order, vec![d.hash, b.hash, a.hash, c.hash, g.hash]);
}

#[test]
fn ordering_is_pruned_to_twice_the_checkpoint_confirmations() {
    let mut dag = GhostDAG::new();
    let g = block(0, vec![], 1000);
    dag.add_block(&g).unwrap();
    let mut hashes = vec![g.hash];
    for i in 1..=200u64 {
        let b = block(i, vec![hashes[hashes.len() - 1]], 1000 + i);
        dag.add_block(&b).unwrap();
        hashes.push(b.hash);
    }
    let order: Vec<Hash32> = dag.get_ordered_blocks().unwrap().iter().map(|x| x.hash).collect();
    assert_eq!(order.len(), 200);
    assert_eq!(order[0], hashes[200]);
    assert_eq!(order[199], hashes[1]);
    assert!(!dag.is_blue(&g.hash));
    assert_eq!(dag.get_blue_score(&hashes[200]), Some(201));
}
