use irondag::block::Transaction;
use irondag::blockchain::Blockchain;
use irondag::error::BlockchainError;
use irondag::evm::{EvmLog, ExecutionResult};
use irondag::types::Address;

fn outcome(success: bool, output: Vec<u8>) -> ExecutionResult {
    ExecutionResult {
        success,
        gas_used: 53_000,
        output,
        logs: vec![EvmLog { address: Address([7u8; 20]), topics: vec![[1u8; 32]], data: vec![9, 9] }],
    }
}

fn data_tx(to: Address, fee: u128) -> Transaction {
    let mut tx = Transaction::new(Address([1u8; 20]), to, 0, fee, 0);
    tx.data = vec![0x60, 0x80];
    tx
}

#[test]
fn failed_execution_is_refused_with_its_output() {
    let mut chain = Blockchain::new();
    chain.set_balance(Address([1u8; 20]), 1000).unwrap();
    let tx = data_tx(Address([2u8; 20]), 10);
    match chain.settle_evm_execution(&tx, outcome(false, vec![1, 2, 255])) {
        Err(BlockchainError::Evm(m)) => assert_eq!(m, "EVM execution failed: [1, 2, 255]"),
        other => panic!("unexpected {:?}", other),
    }
    assert_eq!(chain.get_balance(Address([1u8; 20])), 1000);
}

#[test]
fn successful_call_charges_the_fee_and_keeps_the_nonce() {
    let mut chain = Blockchain::new();
    chain.set_balance(Address([1u8; 20]), 1000).unwrap();
    chain.set_nonce(Address([1u8; 20]), 4).unwrap();
    let tx = data_tx(Address([2u8; 20]), 10);
    let receipt = chain.settle_evm_execution(&tx, outcome(true, vec![0u8; 32])).unwrap();
    assert!(receipt.success);
    assert_eq!(receipt.gas_used, 53_000);
    assert_eq!(receipt.logs.len(), 1);
    assert_eq!(receipt.logs[0].data, vec![9, 9]);
    assert_eq!(receipt.contract_address, None);
    assert_eq!(chain.get_balance(Address([1u8; 20])), 990);
    assert_eq!(chain.get_nonce(Address([1u8; 20])), 4);
}

#[test]
fn deployment_reports_the_last_twenty_output_bytes() {
    let mut chain = Blockchain::new();
    let tx = data_tx(Address([0u8; 20]), 0);
    let mut output = vec![0xaa; 12];
    output.extend((1..=20u8).collect::<Vec<u8>>());
    let receipt = chain.settle_evm_execution(&tx, outcome(true, output)).unwrap();
    let expected: Vec<u8> = (1..=20u8).collect();
    assert_eq!(receipt.contract_address.unwrap().to_vec(), expected);
    assert_eq!(chain.get_balance(Address([1u8; 20])), 0);
}

#[test]
fn fee_not_covered_after_execution_is_refused() {
    let mut chain = Blockchain::new();
    chain.set_balance(Address([1u8; 20]), 5).unwrap();
    let tx = data_tx(Address([2u8; 20]), 10);
    match chain.settle_evm_execution(&tx, outcome(true, vec![])) {
        Err(BlockchainError::InvalidTransaction(m)) => {
            assert_eq!(m, "Insufficient balance for transaction fee after EVM execution")
        }
        other => panic!("unexpected {:?}", other),
    }
    assert_eq!(chain.get_balance(Address([1u8; 20])), 5);
}
