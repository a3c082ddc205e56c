use irondag::chain::{add_burned_fees, split_fees};

#[test]
fn test_fee_burn_calculation_even_amount() {
    let total_fees: u128 = 100;
    let (miner_fee_share, burned) = split_fees(total_fees);
    assert_eq!(miner_fee_share, 50);
    assert_eq!(burned, 50);
    assert_eq!(miner_fee_share + burned, total_fees);
}

#[test]
fn test_fee_burn_calculation_odd_amount() {
    let total_fees: u128 = 101;
    let (miner_fee_share, burned) = split_fees(total_fees);
    assert_eq!(miner_fee_share, 50);
    assert_eq!(burned, 51);
    assert_eq!(miner_fee_share + burned, total_fees);
}

#[test]
fn test_fee_burn_calculation_zero_fees() {
    let total_fees: u128 = 0;
    let (miner_fee_share, burned) = split_fees(total_fees);
    assert_eq!(miner_fee_share, 0);
    assert_eq!(burned, 0);
}

#[test]
fn test_fee_burn_calculation_large_amount() {
    let total_fees: u128 = 10_000_000_000_000_000_000;
    let (miner_fee_share, burned) = split_fees(total_fees);
    assert_eq!(miner_fee_share, 5_000_000_000_000_000_000);
    assert_eq!(burned, 5_000_000_000_000_000_000);
}

#[test]
fn fee_split_at_maximum() {
    let (m, b) = split_fees(u128::MAX);
    assert_eq!(m, u128::MAX / 2);
    assert_eq!(b, u128::MAX / 2 + 1);
}

#[test]
fn burned_total_saturates() {
    assert_eq!(add_burned_fees(1000, 500), 1500);
    assert_eq!(add_burned_fees(u128::MAX - 1, 5), u128::MAX);
}
