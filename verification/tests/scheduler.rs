use irondag::scheduler::{GovernanceAction, GovernanceScheduler, ScheduledAction, HASH_VERSION_BLAKE3};

#[test]
fn test_default_hash_version_is_blake3() {
    let scheduler = GovernanceScheduler::new();
    assert_eq!(scheduler.active_hash_version(), HASH_VERSION_BLAKE3);
}

#[test]
fn test_action_not_applied_before_height() {
    let mut s = GovernanceScheduler::new();
    s.schedule(ScheduledAction {
        activation_height: 100,
        action: GovernanceAction::SetHashAlgorithm(0x02),
    })
    .unwrap();
    s.apply_at_height(99);
    assert_eq!(s.active_hash_version(), HASH_VERSION_BLAKE3);
    assert_eq!(s.pending_actions().len(), 1);
}

#[test]
fn test_action_applied_at_exact_height() {
    let mut s = GovernanceScheduler::new();
    s.schedule(ScheduledAction {
        activation_height: 100,
        action: GovernanceAction::SetHashAlgorithm(0x02),
    })
    .unwrap();
    s.apply_at_height(100);
    assert_eq!(s.active_hash_version(), 0x02);
    assert_eq!(s.pending_actions().len(), 0);
}

#[test]
fn test_action_applied_after_height() {
    let mut s = GovernanceScheduler::new();
    s.schedule(ScheduledAction {
        activation_height: 50,
        action: GovernanceAction::SetHashAlgorithm(0x02),
    })
    .unwrap();
    s.apply_at_height(200);
    assert_eq!(s.active_hash_version(), 0x02);
}

#[test]
fn test_duplicate_action_same_height_rejected() {
    let mut s = GovernanceScheduler::new();
    s.schedule(ScheduledAction {
        activation_height: 100,
        action: GovernanceAction::SetHashAlgorithm(0x02),
    })
    .unwrap();
    let result = s.schedule(ScheduledAction {
        activation_height: 100,
        action: GovernanceAction::SetHashAlgorithm(0x03),
    });
    assert!(result.is_err());
}

#[test]
fn test_zero_activation_height_rejected() {
    let mut s = GovernanceScheduler::new();
    let result = s.schedule(ScheduledAction {
        activation_height: 0,
        action: GovernanceAction::SetHashAlgorithm(0x02),
    });
    assert!(result.is_err());
}

#[test]
fn test_zero_version_ignored() {
    let mut s = GovernanceScheduler::new();
    s.schedule(ScheduledAction {
        activation_height: 10,
        action: GovernanceAction::SetHashAlgorithm(0x00),
    })
    .unwrap();
    s.apply_at_height(10);
    assert_eq!(s.active_hash_version(), HASH_VERSION_BLAKE3);
}

#[test]
fn test_sequential_upgrades() {
    let mut s = GovernanceScheduler::new();
    s.schedule(ScheduledAction {
        activation_height: 100,
        action: GovernanceAction::SetHashAlgorithm(0x02),
    })
    .unwrap();
    s.schedule(ScheduledAction {
        activation_height: 200,
        action: GovernanceAction::SetHashAlgorithm(0x03),
    })
    .unwrap();
    s.apply_at_height(100);
    assert_eq!(s.active_hash_version(), 0x02);
    s.apply_at_height(200);
    assert_eq!(s.active_hash_version(), 0x03);
}

#[test]
fn catch_up_in_one_step_equals_two_steps() {
    let make = || {
        let mut s = GovernanceScheduler::new();
        s.schedule(ScheduledAction { activation_height: 30, action: GovernanceAction::SetHashAlgorithm(3) }).unwrap();
        s.schedule(ScheduledAction { activation_height: 10, action: GovernanceAction::SetHashAlgorithm(2) }).unwrap();
        s.schedule(ScheduledAction { activation_height: 50, action: GovernanceAction::SetHashAlgorithm(5) }).unwrap();
        s
    };
    let mut a = make();
    a.apply_at_height(20);
    a.apply_at_height(40);
    let mut b = make();
    b.apply_at_height(40);
    assert_eq!(a.active_hash_version(), b.active_hash_version());
    assert_eq!(a.active_hash_version(), 3);
    assert_eq!(a.pending_actions().len(), b.pending_actions().len());
    assert_eq!(a.pending_actions()[0].activation_height, 50);
}

#[test]
fn pending_actions_are_kept_sorted() {
    let mut s = GovernanceScheduler::new();
    s.schedule(ScheduledAction { activation_height: 300, action: GovernanceAction::SetHashAlgorithm(3) }).unwrap();
    s.schedule(ScheduledAction { activation_height: 100, action: GovernanceAction::SetHashAlgorithm(1) }).unwrap();
    s.schedule(ScheduledAction { activation_height: 200, action: GovernanceAction::SetHashAlgorithm(2) }).unwrap();
    let heights: Vec<u64> = s.pending_actions().iter().map(|a| a.activation_height).collect();
    assert_eq!(heights, vec![100, 200, 300]);
}

#[test]
fn schedule_error_messages() {
    let mut s = GovernanceScheduler::new();
    let e = s
        .schedule(ScheduledAction { activation_height: 0, action: GovernanceAction::SetHashAlgorithm(2) })
        .unwrap_err();
    assert_eq!(e, "activation_height must be > 0");
}

#[test]
fn duplicate_error_names_action_and_height() {
    let mut s = GovernanceScheduler::new();
    s.schedule(ScheduledAction { activation_height: 100, action: GovernanceAction::SetHashAlgorithm(2) }).unwrap();
    let e = s
        .schedule(ScheduledAction { activation_height: 100, action: GovernanceAction::SetHashAlgorithm(3) })
        .unwrap_err();
    assert_eq!(e, "A SetHashAlgorithm(3) action is already scheduled at height 100");
}
