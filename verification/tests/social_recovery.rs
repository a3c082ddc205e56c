use irondag::crypto::derive_eth_address;
use irondag::social_recovery::{RecoveryRequest, RecoveryStatus, SocialRecoveryManager};
use irondag::types::Address;
use sha3::{Digest, Keccak256};

fn keypair(seed: u8) -> (k256::ecdsa::SigningKey, Address) {
    let signing_key = k256::ecdsa::SigningKey::from_slice(&[seed; 32]).unwrap();
    let point = signing_key.verifying_key().to_encoded_point(false);
    let address = derive_eth_address(&point.as_bytes()[1..]);
    (signing_key, address)
}

fn sign_approval(key: &k256::ecdsa::SigningKey, wallet: Address, new_owner: Address, timestamp: u64) -> Vec<u8> {
    let mut message = b"RECOVER:".to_vec();
    message.extend_from_slice(&wallet.0);
    message.extend_from_slice(&new_owner.0);
    message.extend_from_slice(&timestamp.to_le_bytes());
    let hash = Keccak256::digest(&message);
    let (signature, recovery_id) = key.sign_prehash_recoverable(&hash).unwrap();
    let mut full = signature.to_bytes().to_vec();
    full.push(recovery_id.to_byte() + 27);
    full
}

#[test]
fn test_recovery_request_creation() {
    let wallet = Address([1; 20]);
    let new_owner = Address([2; 20]);
    let guardians = vec![Address([3; 20]), Address([4; 20]), Address([5; 20])];
    let timestamp = 1000;

    let request = RecoveryRequest::new(wallet, new_owner, guardians.clone(), 2, 604800, timestamp);

    assert_eq!(request.wallet_address, wallet);
    assert_eq!(request.new_owner, new_owner);
    assert_eq!(request.guardians, guardians);
    assert_eq!(request.recovery_threshold, 2);
    assert_eq!(request.status, RecoveryStatus::Pending);
    assert_eq!(request.approval_count(), 0);
}

#[test]
fn test_guardian_approval() {
    let wallet = Address([1; 20]);
    let new_owner = Address([2; 20]);
    let (sk1, guardian1) = keypair(11);
    let (sk2, guardian2) = keypair(12);
    let timestamp = 1000;
    let mut request = RecoveryRequest::new(wallet, new_owner, vec![guardian1, guardian2], 2, 604800, timestamp);

    let sig1 = sign_approval(&sk1, wallet, new_owner, timestamp + 100);
    assert!(request.add_approval(guardian1, &sig1, timestamp + 100).is_ok());
    assert_eq!(request.approval_count(), 1);
    assert_eq!(request.status, RecoveryStatus::Pending);

    let sig2 = sign_approval(&sk2, wallet, new_owner, timestamp + 200);
    assert!(request.add_approval(guardian2, &sig2, timestamp + 200).is_ok());
    assert_eq!(request.approval_count(), 2);
    assert_eq!(request.status, RecoveryStatus::Approved);

    let sig3 = sign_approval(&sk1, wallet, new_owner, timestamp + 300);
    assert!(request.add_approval(guardian1, &sig3, timestamp + 300).is_err());
}

#[test]
fn approval_errors() {
    let wallet = Address([1; 20]);
    let new_owner = Address([2; 20]);
    let (sk1, guardian1) = keypair(21);
    let (_, guardian2) = keypair(22);
    let mut request = RecoveryRequest::new(wallet, new_owner, vec![guardian1, guardian2], 2, 10, 0);
    let sig = sign_approval(&sk1, wallet, new_owner, 5);
    assert_eq!(
        request.add_approval(Address([9; 20]), &sig, 5).unwrap_err(),
        "Guardian not in guardian list"
    );
    assert_eq!(
        request.add_approval(guardian1, &sig[..64], 5).unwrap_err(),
        "Invalid signature length"
    );
    assert_eq!(
        request.add_approval(guardian2, &sig, 5).unwrap_err(),
        "Signature does not match guardian address"
    );
    assert!(request.add_approval(guardian1, &sig, 5).is_ok());
    assert_eq!(request.add_approval(guardian1, &sig, 5).unwrap_err(), "Guardian already approved");
}

#[test]
fn test_recovery_time_delay() {
    let wallet = Address([1; 20]);
    let new_owner = Address([2; 20]);
    let (sk1, guardian1) = keypair(31);
    let (sk2, guardian2) = keypair(32);
    let timestamp = 1000;
    let time_delay = 604800;
    let mut request = RecoveryRequest::new(wallet, new_owner, vec![guardian1, guardian2], 2, time_delay, timestamp);
    let sig1 = sign_approval(&sk1, wallet, new_owner, timestamp + 100);
    request.add_approval(guardian1, &sig1, timestamp + 100).unwrap();
    let sig2 = sign_approval(&sk2, wallet, new_owner, timestamp + 200);
    request.add_approval(guardian2, &sig2, timestamp + 200).unwrap();
    assert!(!request.is_ready(timestamp + 1000));
    assert!(request.is_ready(timestamp + time_delay + 1));
}

#[test]
fn manager_completes_after_delay() {
    let wallet = Address([1; 20]);
    let new_owner = Address([2; 20]);
    let (sk1, guardian1) = keypair(41);
    let mut mgr = SocialRecoveryManager::new();
    assert_eq!(mgr.default_time_delay(), 604800);
    assert!(mgr.initiate_recovery(wallet, new_owner, vec![guardian1], 1, Some(100), 1000).is_ok());
    let sig = sign_approval(&sk1, wallet, new_owner, 1010);
    assert!(mgr.approve_recovery(wallet, guardian1, &sig, 1010).is_ok());
    assert_eq!(mgr.complete_recovery(wallet, 1050).unwrap_err(), "Recovery is not ready to complete");
    assert_eq!(mgr.complete_recovery(wallet, 1100).unwrap(), new_owner);
    assert_eq!(mgr.get_recovery_status(&wallet).unwrap().status, RecoveryStatus::Completed);
    assert_eq!(
        mgr.complete_recovery(Address([7; 20]), 1100).unwrap_err(),
        "Recovery request not found"
    );
}

#[test]
fn cancel_and_cleanup() {
    let wallet = Address([1; 20]);
    let mut mgr = SocialRecoveryManager::new();
    mgr.initiate_recovery(wallet, Address([2; 20]), vec![Address([3; 20])], 1, None, 0).unwrap();
    assert!(mgr.cancel_recovery(wallet).is_ok());
    assert_eq!(mgr.get_recovery_status(&wallet).unwrap().status, RecoveryStatus::Cancelled);
    mgr.cleanup();
    assert!(mgr.get_recovery_status(&wallet).is_none());
    assert_eq!(mgr.get_all_requests().len(), 0);
}

#[test]
fn test_social_recovery_manager() {
    let mut manager = SocialRecoveryManager::new();
    let wallet = Address([1; 20]);
    let new_owner = Address([2; 20]);
    let (sk1, guardian1) = keypair(51);
    let (sk2, guardian2) = keypair(52);
    let (_sk3, guardian3) = keypair(53);
    let guardians = vec![guardian1, guardian2, guardian3];
    let timestamp = 1000;

    let request = manager.initiate_recovery(wallet, new_owner, guardians.clone(), 2, None, timestamp).unwrap();
    assert_eq!(request.status, RecoveryStatus::Pending);

    let sig1 = sign_approval(&sk1, wallet, new_owner, timestamp + 100);
    manager.approve_recovery(wallet, guardian1, &sig1, timestamp + 100).unwrap();
    let sig2 = sign_approval(&sk2, wallet, new_owner, timestamp + 200);
    manager.approve_recovery(wallet, guardian2, &sig2, timestamp + 200).unwrap();

    let status = manager.get_recovery_status(&wallet).unwrap();
    assert_eq!(status.status, RecoveryStatus::Approved);

    let final_timestamp = timestamp + manager.default_time_delay() + 1;
    let completed_owner = manager.complete_recovery(wallet, final_timestamp).unwrap();
    assert_eq!(completed_owner, new_owner);

    let status = manager.get_recovery_status(&wallet).unwrap();
    assert_eq!(status.status, RecoveryStatus::Completed);
}

#[test]
fn test_invalid_guardian_approval() {
    let mut manager = SocialRecoveryManager::new();
    let wallet = Address([1; 20]);
    let new_owner = Address([2; 20]);
    let (sk1, guardian1) = keypair(61);
    let guardians = vec![guardian1];
    let timestamp = 1000;

    manager.initiate_recovery(wallet, new_owner, guardians, 2, None, timestamp).unwrap();
    assert_eq!(manager.get_recovery_status(&wallet).unwrap().status, RecoveryStatus::Pending);

    let (_sk_other, other_guardian) = keypair(62);
    let sig = sign_approval(&sk1, wallet, new_owner, timestamp + 100);
    let result = manager.approve_recovery(wallet, other_guardian, &sig, timestamp + 100);
    assert!(result.is_err());
}

#[test]
fn test_invalid_signature() {
    let mut manager = SocialRecoveryManager::new();
    let wallet = Address([1; 20]);
    let new_owner = Address([2; 20]);
    let (sk1, guardian1) = keypair(71);
    let guardians = vec![guardian1];
    let timestamp = 1000;

    manager.initiate_recovery(wallet, new_owner, guardians, 2, None, timestamp).unwrap();

    let bad_sig = vec![0u8; 65];
    let result = manager.approve_recovery(wallet, guardian1, &bad_sig, timestamp + 100);
    assert!(result.is_err());

    let bad_sig2 = sign_approval(&sk1, wallet, new_owner, timestamp + 999);
    let result2 = manager.approve_recovery(wallet, guardian1, &bad_sig2, timestamp + 100);
    assert!(result2.is_err());
}

#[test]
fn threshold_rules_on_initiation() {
    let mut manager = SocialRecoveryManager::new();
    assert_eq!(
        manager.initiate_recovery(Address([1; 20]), Address([2; 20]), vec![Address([3; 20])], 0, None, 0).unwrap_err(),
        "Invalid recovery threshold"
    );
    assert_eq!(
        manager.initiate_recovery(Address([1; 20]), Address([2; 20]), vec![], 1, None, 0).unwrap_err(),
        "Guardians list cannot be empty"
    );
    assert!(manager.get_all_requests().is_empty());
}
