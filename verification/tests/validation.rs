use ed25519_dalek::SigningKey;
use irondag::block::Transaction;
use irondag::error::{BlockValidationError, BlockchainError};
use irondag::gas_sponsorship::{SponsorPolicy, SponsorRegistry};
use irondag::types::{Address, Hash32};
use irondag::validation::{check_nonce_and_balance, verify_tx_stateless, SpentOutputs};

fn sender_of(secret: &[u8; 32]) -> Address {
    Transaction::derive_address_from_public_key(&SigningKey::from_bytes(secret).verifying_key().to_bytes())
}

fn signed_transfer(secret: &[u8; 32], value: u128, fee: u128, nonce: u64) -> Transaction {
    Transaction::new(sender_of(secret), Address([9u8; 20]), value, fee, nonce).sign(secret)
}

fn message(r: Result<(), BlockchainError>) -> String {
    r.unwrap_err().to_string()
}

#[test]
fn ed25519_signatures_verify_only_for_their_sender() {
    let secret = [7u8; 32];
    let tx = signed_transfer(&secret, 5, 1, 0);
    assert_eq!(tx.verify_signature(10), Ok(true));

    let mut forged = tx.clone();
    forged.from = Address([1u8; 20]);
    assert_eq!(forged.verify_signature(10), Ok(false));

    let mut tampered = tx.clone();
    tampered.hash = Hash32([3u8; 32]);
    assert_eq!(tampered.verify_signature(10), Ok(false));

    let unsigned = Transaction::new(Address([1u8; 20]), Address([2u8; 20]), 1, 1, 0);
    assert_eq!(unsigned.verify_signature(10), Ok(false));
}

#[test]
fn system_transactions_are_valid_at_genesis_only() {
    let system = Transaction::new(Address([0u8; 20]), Address([2u8; 20]), 1, 0, 0);
    assert_eq!(system.verify_signature(0), Ok(true));
    assert_eq!(
        system.verify_signature(1),
        Err("system transactions only valid at genesis".to_string())
    );
}

#[test]
fn stateless_checks_report_the_first_rule_broken() {
    let secret = [8u8; 32];
    assert!(verify_tx_stateless(&signed_transfer(&secret, 5, 1, 0), 1338, false, 1).is_ok());

    let unsigned = Transaction::new(Address([1u8; 20]), Address([2u8; 20]), 1, 1, 0);
    assert_eq!(
        message(verify_tx_stateless(&unsigned, 1338, false, 1)),
        "Invalid transaction: Invalid transaction signature"
    );

    assert_eq!(
        message(verify_tx_stateless(&signed_transfer(&secret, 5, 0, 0), 1338, false, 1)),
        "Invalid transaction: transaction fee must be greater than zero"
    );

    let foreign = Transaction::new(sender_of(&secret), Address([9u8; 20]), 5, 1, 0).with_chain_id(1).sign(&secret);
    assert_eq!(
        message(verify_tx_stateless(&foreign, 1338, false, 1)),
        "Invalid transaction: Invalid chain ID: expected 1338, got 1"
    );

    let mut no_gas = Transaction::new(sender_of(&secret), Address([9u8; 20]), 5, 1, 0);
    no_gas.gas_limit = 0;
    let no_gas = no_gas.sign(&secret);
    assert_eq!(
        message(verify_tx_stateless(&no_gas, 1338, false, 1)),
        "Validation error: Gas limit cannot be zero"
    );
}

#[test]
fn nonce_and_balance_rules() {
    let tx = Transaction::new(Address([1u8; 20]), Address([2u8; 20]), 100, 10, 3);
    assert!(check_nonce_and_balance(&tx, 3, 110, 0).is_ok());
    assert_eq!(
        message(check_nonce_and_balance(&tx, 2, 1000, 0)),
        "Invalid transaction: Invalid nonce: expected 2, got 3"
    );
    let far = Transaction::new(Address([1u8; 20]), Address([2u8; 20]), 100, 10, 30);
    assert_eq!(
        message(check_nonce_and_balance(&far, 2, 1000, 0)),
        "Invalid transaction: Nonce gap too large: tx nonce 30 but account nonce is 2. Max gap is 16."
    );
    assert_eq!(
        message(check_nonce_and_balance(&tx, 3, 99, 0)),
        "Invalid transaction: Insufficient balance: have 99, need 100 (value)"
    );
    assert!(check_nonce_and_balance(&tx, 3, 109, 0).is_err());
    let sponsored = tx.clone().with_sponsor(Address([5u8; 20]));
    assert!(check_nonce_and_balance(&sponsored, 3, 100, 10).is_ok());
    assert!(check_nonce_and_balance(&sponsored, 3, 100, 9).is_err());
}

#[test]
fn double_spend_is_detected_across_blocks_and_undone_by_rollback() {
    let mut spent = SpentOutputs::new();
    let tx = Transaction::new(Address([1u8; 20]), Address([2u8; 20]), 1, 1, 4);
    let block_a = Hash32([0xAAu8; 32]);
    let block_b = Hash32([0xBBu8; 32]);
    assert!(spent.check_double_spend(&tx, &block_a).is_ok());
    spent.record_spent_output(&tx, block_a, 50);
    assert_eq!(spent.len(), 1);
    assert!(spent.check_double_spend(&tx, &block_a).is_ok());
    let err = message(spent.check_double_spend(&tx, &block_b));
    assert!(err.starts_with("Invalid transaction: Double-spend detected: (address="));
    assert!(err.contains(", nonce=4) already spent in block "));

    spent.rollback_spent_outputs(&block_b);
    assert_eq!(spent.len(), 1);
    spent.rollback_spent_outputs(&block_a);
    assert_eq!(spent.len(), 0);
    assert!(spent.check_double_spend(&tx, &block_b).is_ok());
}

#[test]
fn spent_outputs_are_pruned_below_the_finality_depth() {
    let mut spent = SpentOutputs::new();
    let tx1 = Transaction::new(Address([1u8; 20]), Address([2u8; 20]), 1, 1, 0);
    let tx2 = Transaction::new(Address([1u8; 20]), Address([2u8; 20]), 1, 1, 1);
    spent.record_spent_output(&tx1, Hash32([1u8; 32]), 10);
    spent.record_spent_output(&tx2, Hash32([2u8; 32]), 60);
    spent.prune_spent_outputs(100);
    assert_eq!(spent.len(), 2);
    spent.prune_spent_outputs(110);
    assert_eq!(spent.len(), 1);
    spent.prune_spent_outputs(160);
    assert_eq!(spent.len(), 0);
}

fn sponsor_policy() -> SponsorPolicy {
    SponsorPolicy {
        active: true,
        allowed_senders: Some(vec![Address([1u8; 20])]),
        max_fee_per_tx: Some(50),
        expires_at_block: Some(1000),
        daily_spend_limit: Some(100),
        window_start_block: 0,
        spent_in_window: 0,
    }
}

#[test]
fn sponsor_registry_checks_and_records() {
    let sponsor = Address([5u8; 20]);
    let sender = Address([1u8; 20]);
    let mut registry = SponsorRegistry::new();
    assert_eq!(
        registry.check(&sponsor, &sender, 10, 1),
        Err("Sponsor has no registered policy — use irondag_registerSponsorPolicy first".to_string())
    );
    registry.register(sponsor, sponsor_policy());
    assert!(registry.check(&sponsor, &sender, 10, 1).is_ok());
    assert_eq!(
        registry.check(&sponsor, &Address([2u8; 20]), 10, 1),
        Err("Sender address is not in the sponsor's allowlist".to_string())
    );
    assert_eq!(
        registry.check(&sponsor, &sender, 51, 1),
        Err("Fee 51 exceeds sponsor max_fee_per_tx 50".to_string())
    );
    assert_eq!(
        registry.check(&sponsor, &sender, 10, 1001),
        Err("Sponsor policy expired at block 1000".to_string())
    );
    registry.record_spend(&sponsor, 50, 1);
    registry.record_spend(&sponsor, 40, 2);
    assert_eq!(registry.get(&sponsor).unwrap().spent_in_window, 90);
    assert_eq!(
        registry.check(&sponsor, &sender, 11, 3),
        Err("Sponsor daily spend limit would be exceeded".to_string())
    );
    assert!(registry.check(&sponsor, &sender, 10, 3).is_ok());
    assert_eq!(registry.list_all().len(), 1);
    assert!(registry.deregister(&sponsor));
    assert!(!registry.deregister(&sponsor));
    assert!(registry.get(&sponsor).is_none());
}

#[test]
fn paused_policy_is_refused() {
    let sponsor = Address([5u8; 20]);
    let mut registry = SponsorRegistry::new();
    let mut p = sponsor_policy();
    p.active = false;
    registry.register(sponsor, p);
    assert_eq!(
        registry.check(&sponsor, &Address([1u8; 20]), 1, 1),
        Err("Sponsor policy is paused".to_string())
    );
}

#[test]
fn error_texts() {
    assert_eq!(BlockchainError::InvalidBlock("x".to_string()).to_string(), "Invalid block: x");
    assert_eq!(
        BlockchainError::FutureVersion { found: 3, supported: 2 }.to_string(),
        "Database version 3 is newer than supported version 2"
    );
    assert_eq!(
        BlockchainError::MigrationFailed { from: 1, to: 2, reason: "boom".to_string() }.to_string(),
        "Database migration from v1 to v2 failed: boom"
    );
    assert_eq!(BlockValidationError::NoParents.to_string(), "No parents specified for non-genesis block");
    assert_eq!(BlockValidationError::DuplicateBlock.to_string(), "Block already exists");
}
