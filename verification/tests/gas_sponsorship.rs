use irondag::gas_sponsorship::SponsorPolicy;
use irondag::types::Address;

fn policy() -> SponsorPolicy {
    SponsorPolicy {
        active: true,
        allowed_senders: None,
        max_fee_per_tx: None,
        expires_at_block: Some(100),
        daily_spend_limit: Some(1000),
        window_start_block: 0,
        spent_in_window: 0,
    }
}

#[test]
fn expiry_is_strictly_after_the_block() {
    let p = policy();
    assert!(!p.is_expired(100));
    assert!(p.is_expired(101));
    let mut q = policy();
    q.expires_at_block = None;
    assert!(!q.is_expired(u64::MAX));
}

#[test]
fn allowlist_filters_senders() {
    let mut p = policy();
    assert!(p.allows_sender(&Address([5u8; 20])));
    p.allowed_senders = Some(vec![Address([1u8; 20])]);
    assert!(p.allows_sender(&Address([1u8; 20])));
    assert!(!p.allows_sender(&Address([5u8; 20])));
}

#[test]
fn daily_limit_and_window_rollover() {
    let mut p = policy();
    assert!(p.within_daily_limit(1000, 10));
    assert!(!p.within_daily_limit(1001, 10));
    p.record_spend(600, 10);
    assert_eq!(p.spent_in_window, 600);
    assert!(p.within_daily_limit(400, 20));
    assert!(!p.within_daily_limit(401, 20));
    p.record_spend(300, 20);
    assert_eq!(p.spent_in_window, 900);
    assert_eq!(p.window_start_block, 0);
    // a day later the window restarts
    assert!(p.within_daily_limit(1000, 17_280));
    p.record_spend(50, 17_280);
    assert_eq!(p.window_start_block, 17_280);
    assert_eq!(p.spent_in_window, 50);
}

#[test]
fn spend_saturates() {
    let mut p = policy();
    p.daily_spend_limit = None;
    p.spent_in_window = u128::MAX - 1;
    p.record_spend(10, 1);
    assert_eq!(p.spent_in_window, u128::MAX);
    assert!(p.within_daily_limit(u128::MAX, 1));
}
