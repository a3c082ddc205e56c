//! Chain-level records and fee rules.
use vstd::prelude::*;

use crate::evm::EvmLog;

verus! {

/// Account state: balance and nonce.
#[derive(Clone, Copy, Debug)]
pub struct AccountState {
    pub balance: u128,
    pub nonce: u64,
}

/// Receipt of an executed transaction (EVM call or native transfer).
#[derive(Debug, Clone)]
pub struct TxReceipt {
    pub success: bool,
    pub gas_used: u64,
    pub logs: Vec<EvmLog>,
    /// Set for contract deployments.
    pub contract_address: Option<[u8; 20]>,
}

/// Splits a block's transaction fees: the miner gets half, rounded down,
/// and the rest is burned.
pub fn split_fees(total_fees: u128) -> (r: (u128, u128))
    ensures
        r.0 == total_fees / 2,
        r.1 == total_fees - total_fees / 2,
        r.0 + r.1 == total_fees,
        r.1 == r.0 || r.1 == r.0 + 1,
{
    let miner_fee_share = total_fees / 2;
    let burned = total_fees - miner_fee_share;
    (miner_fee_share, burned)
}

/// Adds `amount` to the total of burned fees, saturating at the maximum.
pub fn add_burned_fees(total: u128, amount: u128) -> (r: u128)
    ensures
        r == (if total + amount > u128::MAX {
            u128::MAX as int
        } else {
            total + amount
        }),
{
    total.saturating_add(amount)
}

} // verus!
