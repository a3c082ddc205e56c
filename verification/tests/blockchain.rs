use ed25519_dalek::SigningKey;
use irondag::block::{Block, BlockHeader, Transaction};
use irondag::blockchain::Blockchain;
use irondag::error::{BlockValidationError, BlockchainError};
use irondag::types::{Address, Hash32};
use irondag::validation::{MAX_TIMESTAMP_DRIFT, MAX_TRANSACTIONS_PER_BLOCK, MIN_TIMESTAMP};
use std::time::{SystemTime, UNIX_EPOCH};

fn now() -> u64 {
    SystemTime::now().duration_since(UNIX_EPOCH).unwrap().as_secs()
}

/// A generous estimate of a block's serialized size.
fn size_of(block: &Block) -> usize {
    256 + 32 * block.header.parent_hashes.len() + 300 * block.transactions.len()
}

fn add_block(chain: &mut Blockchain, block: Block) -> Result<(), BlockchainError> {
    let size = size_of(&block);
    chain.add_block(block, Ok(size), now())
}

fn add_block_for_sync(chain: &mut Blockchain, block: Block) -> Result<bool, BlockchainError> {
    let size = size_of(&block);
    chain.add_block_for_sync(block, Some(size), now())
}

fn validate_block_enhanced(chain: &Blockchain, block: &Block) -> Result<(), BlockValidationError> {
    chain.validate_block_enhanced(block, Some(size_of(block)), now())
}

fn header(parents: Vec<Hash32>, number: u64) -> BlockHeader {
    BlockHeader::new(parents, number, 4, 1_000_000_000, now())
}

fn address_of(secret: &[u8; 32]) -> Address {
    Transaction::derive_address_from_public_key(&SigningKey::from_bytes(secret).verifying_key().to_bytes())
}

fn signed_transaction(secret_key: &[u8; 32], to: [u8; 20], value: u128, fee: u128, nonce: u64) -> Transaction {
    let from = address_of(secret_key);
    Transaction::new(from, Address(to), value, fee, nonce).sign(secret_key)
}

/// A chain holding only a genesis block; returns the genesis hash.
fn chain_with_genesis() -> (Blockchain, Hash32) {
    let mut blockchain = Blockchain::new();
    let genesis = Block::new(header(vec![], 0), vec![]);
    let genesis_hash = genesis.hash;
    add_block(&mut blockchain, genesis).unwrap();
    (blockchain, genesis_hash)
}

#[test]
fn test_genesis_block() {
    let mut blockchain = Blockchain::new();
    let genesis = Block::new(header(vec![], 0), vec![]);
    assert!(add_block(&mut blockchain, genesis).is_ok());
    assert_eq!(blockchain.get_blocks().len(), 1);
    assert_eq!(blockchain.latest_block_number(), 0);
}

#[test]
fn test_add_block_with_transaction() {
    let (mut blockchain, genesis_hash) = chain_with_genesis();
    let sender_secret = [1u8; 32];
    let sender = address_of(&sender_secret);
    let receiver = [2u8; 20];
    blockchain.set_balance(sender, 1000).unwrap();

    let tx = signed_transaction(&sender_secret, receiver, 100, 10, 0);
    let block = Block::new(header(vec![genesis_hash], 1), vec![tx]);

    assert!(add_block(&mut blockchain, block).is_ok());
    assert_eq!(blockchain.get_balance(sender), 890);
    assert_eq!(blockchain.get_balance(Address(receiver)), 100);
    assert_eq!(blockchain.get_nonce(sender), 1);
}

#[test]
fn test_insufficient_balance() {
    let (mut blockchain, genesis_hash) = chain_with_genesis();
    let sender = Address([1u8; 20]);
    let receiver = Address([2u8; 20]);
    blockchain.set_balance(sender, 50).unwrap();

    let tx = Transaction::new(sender, receiver, 100, 10, 0);
    let block = Block::new(header(vec![genesis_hash], 1), vec![tx]);
    assert!(add_block(&mut blockchain, block).is_err());
}

#[test]
fn test_invalid_nonce() {
    let (mut blockchain, genesis_hash) = chain_with_genesis();
    let sender_secret = [1u8; 32];
    let sender = address_of(&sender_secret);
    let receiver = [2u8; 20];
    blockchain.set_balance(sender, 1000).unwrap();

    let tx1 = signed_transaction(&sender_secret, receiver, 100, 10, 0);
    let block1 = Block::new(header(vec![genesis_hash], 1), vec![tx1]);
    add_block(&mut blockchain, block1).unwrap();

    let tx2 = signed_transaction(&sender_secret, receiver, 100, 10, 0);
    let block2 = Block::new(header(vec![genesis_hash], 2), vec![tx2]);
    assert!(add_block(&mut blockchain, block2).is_err());
}

#[test]
fn test_duplicate_block() {
    let mut blockchain = Blockchain::new();
    let genesis = Block::new(header(vec![], 0), vec![]);
    add_block(&mut blockchain, genesis.clone()).unwrap();
    assert!(add_block(&mut blockchain, genesis).is_err());
}

#[test]
fn test_total_fees_burned_starts_at_zero() {
    let blockchain = Blockchain::new();
    assert_eq!(blockchain.get_total_fees_burned(), 0);
}

#[test]
fn test_add_burned_fees() {
    let mut blockchain = Blockchain::new();
    blockchain.add_burned_fees(1000);
    assert_eq!(blockchain.get_total_fees_burned(), 1000);
    blockchain.add_burned_fees(500);
    assert_eq!(blockchain.get_total_fees_burned(), 1500);
}

#[test]
fn test_fee_burn_saturating_add() {
    let mut blockchain = Blockchain::new();
    blockchain.add_burned_fees(u128::MAX);
    assert_eq!(blockchain.get_total_fees_burned(), u128::MAX);
    blockchain.add_burned_fees(1);
    assert_eq!(blockchain.get_total_fees_burned(), u128::MAX);
}

#[test]
fn test_valid_block_passes_enhanced_validation() {
    let (mut blockchain, genesis_hash) = chain_with_genesis();
    let sender_secret = [1u8; 32];
    let sender = address_of(&sender_secret);
    blockchain.set_balance(sender, 1000).unwrap();

    let tx = signed_transaction(&sender_secret, [2u8; 20], 100, 10, 0);
    let block = Block::new(header(vec![genesis_hash], 1), vec![tx]);

    assert!(validate_block_enhanced(&blockchain, &block).is_ok());
    assert!(add_block_for_sync(&mut blockchain, block).is_ok());
}

#[test]
fn test_genesis_block_passes_enhanced_validation() {
    let blockchain = Blockchain::new();
    let genesis = Block::new(header(vec![], 0), vec![]);
    assert!(validate_block_enhanced(&blockchain, &genesis).is_ok());
}

#[test]
fn test_block_with_unknown_parent_rejected() {
    let blockchain = Blockchain::new();
    let block = Block::new(header(vec![Hash32([0xFFu8; 32])], 1), vec![]);
    let result = validate_block_enhanced(&blockchain, &block);
    assert!(result.is_err());
    assert!(matches!(result.unwrap_err(), BlockValidationError::UnknownParent(_)));
}

#[test]
fn test_block_with_no_parents_rejected() {
    let blockchain = Blockchain::new();
    let block = Block::new(header(vec![], 1), vec![]);
    let result = validate_block_enhanced(&blockchain, &block);
    assert!(result.is_err());
    assert!(matches!(result.unwrap_err(), BlockValidationError::NoParents));
}

#[test]
fn test_block_with_duplicate_transactions_rejected() {
    let (mut blockchain, genesis_hash) = chain_with_genesis();
    let sender_secret = [1u8; 32];
    let sender = address_of(&sender_secret);
    blockchain.set_balance(sender, 1000).unwrap();

    let tx = signed_transaction(&sender_secret, [2u8; 20], 100, 10, 0);
    let block = Block::new(header(vec![genesis_hash], 1), vec![tx.clone(), tx]);

    let result = validate_block_enhanced(&blockchain, &block);
    assert!(result.is_err());
    assert!(matches!(result.unwrap_err(), BlockValidationError::DuplicateTransaction(_)));
}

#[test]
fn test_block_with_future_timestamp_rejected() {
    let (blockchain, genesis_hash) = chain_with_genesis();
    let mut block_header = header(vec![genesis_hash], 1);
    block_header.timestamp = now() + MAX_TIMESTAMP_DRIFT + 100;
    let block = Block::new(block_header, vec![]);

    let result = validate_block_enhanced(&blockchain, &block);
    assert!(result.is_err());
    assert!(matches!(result.unwrap_err(), BlockValidationError::TimestampTooFarInFuture { .. }));
}

#[test]
fn test_block_with_old_timestamp_rejected() {
    let (blockchain, genesis_hash) = chain_with_genesis();
    let mut block_header = header(vec![genesis_hash], 1);
    block_header.timestamp = MIN_TIMESTAMP - 1;
    let block = Block::new(block_header, vec![]);

    let result = validate_block_enhanced(&blockchain, &block);
    assert!(result.is_err());
    assert!(matches!(result.unwrap_err(), BlockValidationError::TimestampTooOld { .. }));
}

#[test]
fn test_block_exceeding_max_transactions_rejected() {
    let (blockchain, genesis_hash) = chain_with_genesis();
    let mut txs = vec![];
    for i in 0..MAX_TRANSACTIONS_PER_BLOCK + 1 {
        let mut tx = Transaction::new(Address([1u8; 20]), Address([2u8; 20]), 1, 1, i as u64);
        tx.hash = Hash32([i as u8; 32]);
        txs.push(tx);
    }
    let block = Block::new(header(vec![genesis_hash], 1), txs);

    let result = validate_block_enhanced(&blockchain, &block);
    assert!(result.is_err());
    assert!(matches!(result.unwrap_err(), BlockValidationError::MaxTransactionsExceeded { .. }));
}

#[test]
fn test_block_with_tampered_hash_rejected() {
    let (blockchain, genesis_hash) = chain_with_genesis();
    let mut block = Block::new(header(vec![genesis_hash], 1), vec![]);
    let mut tampered_hash = [0u8; 32];
    tampered_hash[0] = 0xDE;
    tampered_hash[1] = 0xAD;
    tampered_hash[2] = 0xBE;
    tampered_hash[3] = 0xEF;
    block.hash = Hash32(tampered_hash);

    let result = validate_block_enhanced(&blockchain, &block);
    assert!(result.is_err());
    assert!(matches!(result.unwrap_err(), BlockValidationError::InvalidBlockHash { .. }));
}

#[test]
fn test_add_block_for_sync_rejects_invalid_block() {
    let (mut blockchain, _) = chain_with_genesis();
    let block = Block::new(header(vec![], 1), vec![]);
    assert!(add_block_for_sync(&mut blockchain, block).is_err());
}

#[test]
fn test_duplicate_block_detection_via_sync() {
    let mut blockchain = Blockchain::new();
    let genesis = Block::new(header(vec![], 0), vec![]);
    let genesis_hash = genesis.hash;

    let result = add_block_for_sync(&mut blockchain, genesis);
    assert!(result.is_ok());
    assert_eq!(result.unwrap(), true);

    let sender_secret = [1u8; 32];
    let sender = address_of(&sender_secret);
    blockchain.set_balance(sender, 1000).unwrap();

    let tx = signed_transaction(&sender_secret, [2u8; 20], 100, 10, 0);
    let block = Block::new(header(vec![genesis_hash], 1), vec![tx]);

    assert!(add_block_for_sync(&mut blockchain, block.clone()).is_ok());

    let result = add_block_for_sync(&mut blockchain, block);
    assert!(result.is_ok());
    assert_eq!(result.unwrap(), false);
}

#[test]
fn test_transaction_with_correct_chain_id_accepted() {
    let (mut blockchain, genesis_hash) = chain_with_genesis();
    let sender_secret = [1u8; 32];
    let sender = address_of(&sender_secret);
    let receiver = Address([2u8; 20]);
    blockchain.set_balance(sender, 1000).unwrap();

    let tx = Transaction::new(sender, receiver, 100, 10, 0).with_chain_id(1338).sign(&sender_secret);
    let block = Block::new(header(vec![genesis_hash], 1), vec![tx]);

    assert!(add_block(&mut blockchain, block).is_ok());
    assert_eq!(blockchain.get_balance(receiver), 100);
}

#[test]
fn test_transaction_with_wrong_chain_id_rejected() {
    let (mut blockchain, genesis_hash) = chain_with_genesis();
    let sender_secret = [1u8; 32];
    let sender = address_of(&sender_secret);
    blockchain.set_balance(sender, 1000).unwrap();

    let tx = Transaction::new(sender, Address([2u8; 20]), 100, 10, 0).with_chain_id(1).sign(&sender_secret);
    let block = Block::new(header(vec![genesis_hash], 1), vec![tx]);

    let result = add_block(&mut blockchain, block);
    assert!(result.is_err());
    let err_msg = result.unwrap_err().to_string();
    assert!(err_msg.contains("chain ID"), "Expected chain ID error, got: {}", err_msg);
}

#[test]
fn test_transaction_with_zero_chain_id_rejected() {
    let (mut blockchain, genesis_hash) = chain_with_genesis();
    let sender_secret = [1u8; 32];
    let sender = address_of(&sender_secret);
    blockchain.set_balance(sender, 1000).unwrap();

    let tx = Transaction::new(sender, Address([2u8; 20]), 100, 10, 0).with_chain_id(0).sign(&sender_secret);
    let block = Block::new(header(vec![genesis_hash], 1), vec![tx]);

    let result = add_block(&mut blockchain, block);
    assert!(result.is_err());
    let err_msg = result.unwrap_err().to_string();
    assert!(err_msg.contains("chain ID"), "Expected chain ID error, got: {}", err_msg);
}

#[test]
fn test_transaction_without_chain_id_rejected() {
    let (mut blockchain, genesis_hash) = chain_with_genesis();
    let sender_secret = [1u8; 32];
    let sender = address_of(&sender_secret);
    blockchain.set_balance(sender, 1000).unwrap();

    let tx = Transaction::new(sender, Address([2u8; 20]), 100, 10, 0).sign(&sender_secret);
    let block = Block::new(header(vec![genesis_hash], 1), vec![tx]);
    assert!(add_block(&mut blockchain, block).is_ok());
}

#[test]
fn test_transaction_replay_different_chain() {
    let (mut blockchain_1338, genesis_hash) = chain_with_genesis();
    let sender_secret = [1u8; 32];
    let sender = address_of(&sender_secret);
    blockchain_1338.set_balance(sender, 1000).unwrap();

    let tx = Transaction::new(sender, Address([2u8; 20]), 100, 10, 0).with_chain_id(1338).sign(&sender_secret);
    let block = Block::new(header(vec![genesis_hash], 1), vec![tx.clone()]);
    assert!(add_block(&mut blockchain_1338, block).is_ok());
    assert_eq!(tx.chain_id, Some(1338));
}

// Further scenarios of the chain state.

#[test]
fn replay_is_refused_on_a_chain_with_another_id() {
    let (mut chain, genesis_hash) = chain_with_genesis();
    chain.set_chain_id(1337);
    let sender_secret = [1u8; 32];
    let sender = address_of(&sender_secret);
    chain.set_balance(sender, 1000).unwrap();
    let tx = Transaction::new(sender, Address([2u8; 20]), 100, 10, 0).with_chain_id(1338).sign(&sender_secret);
    let block = Block::new(header(vec![genesis_hash], 1), vec![tx]);
    let err = add_block(&mut chain, block).unwrap_err().to_string();
    assert!(err.contains("chain ID"));
    assert_eq!(chain.get_balance(sender), 1000);
    assert_eq!(chain.get_block_count(), 1);
}

#[test]
fn refused_block_keeps_what_its_earlier_transactions_applied() {
    let (mut chain, genesis_hash) = chain_with_genesis();
    let secret = [3u8; 32];
    let sender = address_of(&secret);
    chain.set_balance(sender, 1000).unwrap();
    let good = signed_transaction(&secret, [4u8; 20], 100, 10, 0);
    let bad = signed_transaction(&secret, [4u8; 20], 5000, 10, 1);
    let block = Block::new(header(vec![genesis_hash], 1), vec![good, bad]);
    let block_hash = block.hash;
    assert!(add_block(&mut chain, block).is_err());
    assert_eq!(chain.get_balance(sender), 890);
    assert_eq!(chain.get_nonce(sender), 1);
    assert_eq!(chain.get_balance(Address([4u8; 20])), 100);
    assert!(!chain.has_block_hash(&block_hash));
    assert_eq!(chain.get_block_count(), 1);
}

#[test]
fn lookups_by_hash_number_and_transaction() {
    let (mut chain, genesis_hash) = chain_with_genesis();
    let secret = [5u8; 32];
    let sender = address_of(&secret);
    chain.set_balance(sender, 1000).unwrap();
    let tx = signed_transaction(&secret, [6u8; 20], 1, 1, 0);
    let tx_hash = tx.hash;
    let block = Block::new(header(vec![genesis_hash], 1), vec![tx]);
    let block_hash = block.hash;
    add_block(&mut chain, block).unwrap();

    assert!(chain.has_block_hash(&block_hash));
    assert_eq!(chain.get_block_by_hash(&block_hash).unwrap().header.block_number, 1);
    assert_eq!(chain.get_block_by_number(0).unwrap().hash, genesis_hash);
    assert!(chain.get_block_by_number(7).is_none());
    let (b, t, k) = chain.get_transaction_by_hash(&tx_hash).unwrap();
    assert_eq!(b.hash, block_hash);
    assert_eq!(t.hash, tx_hash);
    assert_eq!(k, 0);
    assert_eq!(chain.transaction_count(), 1);
    assert_eq!(chain.get_latest_block().unwrap().hash, block_hash);
    assert_eq!(chain.get_blocks_tail(1).len(), 1);
    assert_eq!(chain.get_blocks_tail(10).len(), 2);
    assert_eq!(chain.get_blocks_from(1)[0].hash, block_hash);
    assert_eq!(chain.get_max_block_number(), 1);
}

#[test]
fn clear_for_resync_forgets_blocks_but_keeps_accounts() {
    let (mut chain, genesis_hash) = chain_with_genesis();
    chain.set_balance(Address([9u8; 20]), 42).unwrap();
    chain.clear_for_resync();
    assert_eq!(chain.get_block_count(), 0);
    assert!(!chain.has_block_hash(&genesis_hash));
    assert_eq!(chain.get_max_block_number(), 0);
    assert_eq!(chain.get_balance(Address([9u8; 20])), 42);
    let genesis = Block::new(header(vec![], 0), vec![]);
    assert!(add_block(&mut chain, genesis).is_ok());
}

#[test]
fn sync_checkpoint_is_installed_once() {
    let mut chain = Blockchain::new();
    let checkpoint = Block::new(header(vec![Hash32([7u8; 32])], 500), vec![]);
    let hash = checkpoint.hash;
    assert!(chain.install_sync_checkpoint(checkpoint.clone()));
    assert!(!chain.install_sync_checkpoint(checkpoint));
    assert_eq!(chain.latest_block_number(), 500);
    let child = Block::new(header(vec![hash], 501), vec![]);
    assert!(add_block(&mut chain, child).is_ok());
}

#[test]
fn oversized_block_is_refused() {
    let (mut chain, genesis_hash) = chain_with_genesis();
    let block = Block::new(header(vec![genesis_hash], 1), vec![]);
    let r = chain.add_block(block, Ok(irondag::validation::MAX_BLOCK_SIZE + 1), now());
    assert!(r.is_err());
    assert_eq!(chain.get_block_count(), 1);
}

#[test]
fn validate_transaction_refuses_bad_transactions() {
    let mut chain = Blockchain::new();
    let secret = [11u8; 32];
    let sender = address_of(&secret);
    chain.set_balance(sender, 10_000).unwrap();

    let good = signed_transaction(&secret, [2u8; 20], 100, 10, 0);
    assert!(chain.validate_transaction(&good, 1, 0).is_ok());

    let big = Transaction::with_data(sender, Address([2u8; 20]), 1, 1, 0, vec![0u8; 131_073], 21_000).sign(&secret);
    assert_eq!(
        chain.validate_transaction(&big, 1, 0).unwrap_err().to_string(),
        "Invalid transaction: transaction data size 131073 exceeds maximum 131072"
    );

    let ahead = signed_transaction(&secret, [2u8; 20], 100, 10, 5);
    assert_eq!(
        chain.validate_transaction(&ahead, 1, 0).unwrap_err().to_string(),
        "Invalid transaction: Invalid nonce: expected 0, got 5"
    );

    let mut zero_gas = Transaction::new(sender, Address([2u8; 20]), 1, 1, 0);
    zero_gas.gas_limit = 0;
    zero_gas.hash = zero_gas.calculate_hash();
    let zero_gas = zero_gas.sign(&secret);
    assert_eq!(
        chain.validate_transaction(&zero_gas, 1, 0).unwrap_err().to_string(),
        "Validation error: Gas limit cannot be zero"
    );

    let poor = signed_transaction(&secret, [2u8; 20], 10_000, 10, 0);
    assert!(chain.validate_transaction(&poor, 1, 0).is_err());
}

#[test]
fn transaction_hash_is_recomputed_identically() {
    let tx1 = Transaction::new(Address([1u8; 20]), Address([2u8; 20]), 5, 1, 3);
    let tx2 = Transaction::new(Address([1u8; 20]), Address([2u8; 20]), 5, 1, 3);
    assert_eq!(tx1.hash.0, tx2.hash.0);
    assert_eq!(tx1.calculate_hash().0, tx1.hash.0);
    let tx3 = Transaction::new(Address([1u8; 20]), Address([2u8; 20]), 5, 1, 4);
    assert_ne!(tx1.hash.0, tx3.hash.0);
}

fn create_test_block(block_number: u64, timestamp: u64, parent_hashes: Vec<Hash32>) -> Block {
    let header = BlockHeader::new(parent_hashes, block_number, 8, 0, timestamp);
    Block::new(header, vec![])
}

#[test]
fn test_timestamp_median_validation() {
    let mut blockchain = Blockchain::new();
    let genesis = create_test_block(0, 1000, vec![]);
    add_block(&mut blockchain, genesis).unwrap();

    let mut parent_hash = blockchain.get_blocks()[0].hash;
    for i in 1..=11 {
        let block = create_test_block(i, 1000 + i, vec![parent_hash]);
        add_block(&mut blockchain, block.clone()).unwrap();
        parent_hash = block.hash;
    }

    let median_timestamp = 1006;
    let block_with_old_timestamp = create_test_block(12, median_timestamp - 1, vec![parent_hash]);
    let result = add_block(&mut blockchain, block_with_old_timestamp);
    assert!(result.is_err(), "Block with timestamp before median should be rejected");
    if let Err(e) = result {
        assert!(e.to_string().contains("median timestamp"), "Error should mention median timestamp");
    }
    assert_eq!(blockchain.get_block_count(), 12);
}

#[test]
fn test_timestamp_future_limit() {
    let mut blockchain = Blockchain::new();
    let genesis = create_test_block(0, 1000, vec![]);
    add_block(&mut blockchain, genesis).unwrap();

    let future_timestamp = now() + 601;
    let block = create_test_block(1, future_timestamp, vec![blockchain.get_blocks()[0].hash]);
    let result = add_block(&mut blockchain, block);
    assert!(result.is_err(), "Block with timestamp too far in future should be rejected");
    if let Err(e) = result {
        assert!(e.to_string().contains("too far in future"), "Error should mention future timestamp");
    }
}

#[test]
fn test_timestamp_median_with_odd_number_of_blocks() {
    let mut blockchain = Blockchain::new();
    let genesis = create_test_block(0, 1000, vec![]);
    add_block(&mut blockchain, genesis).unwrap();

    let mut parent_hash = blockchain.get_blocks()[0].hash;
    let timestamps = vec![1001, 1002, 1003, 1004, 1005];
    for (i, &ts) in timestamps.iter().enumerate() {
        let block = create_test_block(i as u64 + 1, ts, vec![parent_hash]);
        add_block(&mut blockchain, block.clone()).unwrap();
        parent_hash = block.hash;
    }

    let valid_block = create_test_block(6, 1003, vec![parent_hash]);
    assert!(add_block(&mut blockchain, valid_block).is_ok(), "Block with timestamp equal to median should be accepted");

    let invalid_block = create_test_block(7, 1002, vec![parent_hash]);
    assert!(add_block(&mut blockchain, invalid_block).is_err(), "Block with timestamp before median should be rejected");
}

#[test]
fn test_timestamp_validation_allows_valid_timestamps() {
    let mut blockchain = Blockchain::new();
    let genesis = create_test_block(0, 1000, vec![]);
    add_block(&mut blockchain, genesis).unwrap();

    let mut parent_hash = blockchain.get_blocks()[0].hash;
    for i in 1..=5 {
        let block = create_test_block(i, 1000 + i, vec![parent_hash]);
        let result = add_block(&mut blockchain, block.clone());
        assert!(result.is_ok(), "Valid timestamp should be accepted");
        parent_hash = block.hash;
    }
}
