use ed25519_dalek::{Signer, SigningKey};
use irondag::block::Transaction;
use irondag::multisig::{MultiSigManager, MultiSigTransaction, MultiSigValidationResult};
use irondag::types::Address;

fn sign_for(tx_hash: [u8; 32], signer: [u8; 20]) -> (Vec<u8>, Vec<u8>) {
    let mut seed = [0u8; 32];
    seed[..20].copy_from_slice(&signer);
    seed[20..].copy_from_slice(&signer[..12]);
    let signing_key = SigningKey::from_bytes(&seed);
    let signature = signing_key.sign(&tx_hash).to_bytes().to_vec();
    let public_key = signing_key.verifying_key().to_bytes().to_vec();
    (signature, public_key)
}

#[test]
fn test_multisig_transaction_creation() {
    let wallet = Address([1u8; 20]);
    let to = Address([2u8; 20]);
    let tx = Transaction::new(wallet, to, 1000, 100, 0);
    let signers = vec![[3u8; 20], [4u8; 20], [5u8; 20]];
    let threshold = 2;

    let multisig_tx = MultiSigTransaction::new(wallet, tx, signers.clone(), threshold).unwrap();

    assert_eq!(multisig_tx.wallet_address, wallet);
    assert_eq!(multisig_tx.threshold, 2);
    assert_eq!(multisig_tx.expected_signers, signers);
    assert_eq!(multisig_tx.signature_count(), 0);
}

#[test]
fn signatures_reach_threshold() {
    let wallet = Address([1u8; 20]);
    let tx = Transaction::new(wallet, Address([2u8; 20]), 1000, 100, 0);
    let mut m = MultiSigTransaction::new(wallet, tx, vec![[3u8; 20], [4u8; 20], [5u8; 20]], 2).unwrap();
    let h = m.transaction.hash.0;
    let (s1, p1) = sign_for(h, [3u8; 20]);
    assert!(m.add_signature([3u8; 20], s1, p1).is_ok());
    assert!(!m.is_ready());
    assert_eq!(
        m.validate(),
        MultiSigValidationResult::InsufficientSignatures { required: 2, provided: 1 }
    );
    let (s2, p2) = sign_for(h, [4u8; 20]);
    assert!(m.add_signature([4u8; 20], s2, p2).is_ok());
    assert!(m.is_ready());
    assert_eq!(m.validate(), MultiSigValidationResult::Valid);
    assert_eq!(m.signed_by(), vec![[3u8; 20], [4u8; 20]]);
    assert_eq!(m.pending_signers(), vec![[5u8; 20]]);
}

#[test]
fn threshold_errors() {
    let wallet = Address([1u8; 20]);
    let tx = Transaction::new(wallet, Address([2u8; 20]), 1, 1, 0);
    let e = MultiSigTransaction::new(wallet, tx.clone(), vec![[3u8; 20]], 0).unwrap_err();
    assert_eq!(e, "Threshold cannot be zero");
    let e = MultiSigTransaction::new(wallet, tx, vec![[3u8; 20]], 2).unwrap_err();
    assert_eq!(e, "Threshold cannot exceed number of signers");
}

#[test]
fn unknown_and_duplicate_signers_are_refused() {
    let wallet = Address([1u8; 20]);
    let tx = Transaction::new(wallet, Address([2u8; 20]), 1, 1, 0);
    let mut m = MultiSigTransaction::new(wallet, tx, vec![[3u8; 20], [4u8; 20]], 1).unwrap();
    let h = m.transaction.hash.0;
    let (s, p) = sign_for(h, [9u8; 20]);
    assert!(m.add_signature([9u8; 20], s, p).is_err());
    let (s, p) = sign_for(h, [3u8; 20]);
    assert!(m.add_signature([3u8; 20], s.clone(), p.clone()).is_ok());
    assert!(m.add_signature([3u8; 20], s, p).is_err());
    assert_eq!(m.signature_count(), 1);
}

#[test]
fn bad_signature_is_reported() {
    let wallet = Address([1u8; 20]);
    let tx = Transaction::new(wallet, Address([2u8; 20]), 1, 1, 0);
    let mut m = MultiSigTransaction::new(wallet, tx, vec![[3u8; 20]], 1).unwrap();
    let (_, p) = sign_for(m.transaction.hash.0, [3u8; 20]);
    assert!(m.add_signature([3u8; 20], vec![7u8; 64], p).is_ok());
    assert_eq!(m.validate(), MultiSigValidationResult::InvalidSignature([3u8; 20]));
}

#[test]
fn manager_tracks_pending_per_wallet() {
    let wallet = Address([1u8; 20]);
    let tx = Transaction::new(wallet, Address([2u8; 20]), 5, 1, 0);
    let m = MultiSigTransaction::new(wallet, tx, vec![[3u8; 20]], 1).unwrap();
    let hash = m.transaction.hash;
    let mut mgr = MultiSigManager::new();
    mgr.add_pending_transaction(m);
    assert_eq!(mgr.get_pending_transactions(&wallet).len(), 1);
    assert_eq!(mgr.get_all_pending().len(), 1);
    let (s, p) = sign_for(hash.0, [3u8; 20]);
    assert!(mgr.add_signature_to_pending(&wallet, &hash, [3u8; 20], s, p).is_ok());
    mgr.remove_completed(&wallet, &hash);
    assert_eq!(mgr.get_pending_transactions(&wallet).len(), 0);
}

#[test]
fn test_multisig_add_signatures() {
    let wallet = Address([1u8; 20]);
    let to = Address([2u8; 20]);
    let tx = Transaction::new(wallet, to, 1000, 100, 0);
    let signers = vec![[3u8; 20], [4u8; 20], [5u8; 20]];
    let threshold = 2;

    let mut multisig_tx = MultiSigTransaction::new(wallet, tx, signers, threshold).unwrap();
    let tx_hash: [u8; 32] = multisig_tx.transaction.hash.0;

    let (sig1, pk1) = sign_for(tx_hash, [3u8; 20]);
    assert!(multisig_tx.add_signature([3u8; 20], sig1, pk1).is_ok());
    assert_eq!(multisig_tx.signature_count(), 1);
    assert!(!multisig_tx.is_ready());

    let (sig2, pk2) = sign_for(tx_hash, [4u8; 20]);
    assert!(multisig_tx.add_signature([4u8; 20], sig2, pk2).is_ok());
    assert_eq!(multisig_tx.signature_count(), 2);
    assert!(multisig_tx.is_ready());
}

#[test]
fn test_multisig_duplicate_signature() {
    let wallet = Address([1u8; 20]);
    let to = Address([2u8; 20]);
    let tx = Transaction::new(wallet, to, 1000, 100, 0);
    let signers = vec![[3u8; 20], [4u8; 20]];
    let threshold = 2;

    let mut multisig_tx = MultiSigTransaction::new(wallet, tx, signers, threshold).unwrap();
    let tx_hash: [u8; 32] = multisig_tx.transaction.hash.0;

    let (sig1, pk1) = sign_for(tx_hash, [3u8; 20]);
    assert!(multisig_tx.add_signature([3u8; 20], sig1, pk1).is_ok());
    assert!(multisig_tx.add_signature([3u8; 20], vec![7, 8, 9], vec![10, 11, 12]).is_err());
}

#[test]
fn test_multisig_unknown_signer() {
    let wallet = Address([1u8; 20]);
    let to = Address([2u8; 20]);
    let tx = Transaction::new(wallet, to, 1000, 100, 0);
    let signers = vec![[3u8; 20], [4u8; 20]];
    let threshold = 2;

    let mut multisig_tx = MultiSigTransaction::new(wallet, tx, signers, threshold).unwrap();
    assert!(multisig_tx.add_signature([99u8; 20], vec![1, 2, 3], vec![4, 5, 6]).is_err());
}

#[test]
fn test_multisig_validation() {
    let wallet = Address([1u8; 20]);
    let to = Address([2u8; 20]);
    let tx = Transaction::new(wallet, to, 1000, 100, 0);
    let signers = vec![[3u8; 20], [4u8; 20], [5u8; 20]];
    let threshold = 2;

    let mut multisig_tx = MultiSigTransaction::new(wallet, tx, signers, threshold).unwrap();
    let tx_hash: [u8; 32] = multisig_tx.transaction.hash.0;

    assert!(matches!(multisig_tx.validate(), MultiSigValidationResult::InsufficientSignatures { .. }));

    let (sig1, pk1) = sign_for(tx_hash, [3u8; 20]);
    multisig_tx.add_signature([3u8; 20], sig1, pk1).unwrap();
    assert!(matches!(multisig_tx.validate(), MultiSigValidationResult::InsufficientSignatures { .. }));

    let (sig2, pk2) = sign_for(tx_hash, [4u8; 20]);
    multisig_tx.add_signature([4u8; 20], sig2, pk2).unwrap();
    assert!(matches!(multisig_tx.validate(), MultiSigValidationResult::Valid));
}

#[test]
fn multisig_test_multisig_pending_signers() {
    let wallet = Address([1u8; 20]);
    let to = Address([2u8; 20]);
    let tx = Transaction::new(wallet, to, 1000, 100, 0);
    let signers = vec![[3u8; 20], [4u8; 20], [5u8; 20]];
    let threshold = 2;

    let mut multisig_tx = MultiSigTransaction::new(wallet, tx, signers.clone(), threshold).unwrap();
    let tx_hash: [u8; 32] = multisig_tx.transaction.hash.0;

    let pending = multisig_tx.pending_signers();
    assert_eq!(pending.len(), 3);

    let (sig1, pk1) = sign_for(tx_hash, [3u8; 20]);
    multisig_tx.add_signature([3u8; 20], sig1, pk1).unwrap();
    let pending = multisig_tx.pending_signers();
    assert_eq!(pending.len(), 2);
    assert!(!pending.contains(&[3u8; 20]));
    assert!(pending.contains(&[4u8; 20]));
    assert!(pending.contains(&[5u8; 20]));
}
