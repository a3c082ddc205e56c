use irondag::evm::EvmState;
use irondag::types::Address;

#[test]
fn balances_and_nonces_default_to_zero() {
    let mut s = EvmState::new();
    let a = Address([1u8; 20]);
    assert_eq!(s.get_balance(a), 0);
    assert_eq!(s.get_nonce(a), 0);
    s.set_balance(a, 500);
    s.set_nonce(a, 3);
    assert_eq!(s.get_balance(a), 500);
    assert_eq!(s.get_nonce(a), 3);
    assert_eq!(s.get_balance(Address([2u8; 20])), 0);
}

#[test]
fn contract_code_is_stored_and_replaced() {
    let mut s = EvmState::new();
    let a = Address([7u8; 20]);
    assert!(!s.is_contract(a));
    assert_eq!(s.get_contract_code(a), None);
    s.store_contract(a, vec![0x60, 0x00]);
    assert!(s.is_contract(a));
    assert_eq!(s.get_contract_code(a), Some(vec![0x60, 0x00]));
    s.store_contract(a, vec![0xfe]);
    assert_eq!(s.get_contract_code(a), Some(vec![0xfe]));
}

fn hex20(s: &str) -> [u8; 20] {
    let mut out = [0u8; 20];
    for i in 0..20 {
        out[i] = u8::from_str_radix(&s[2 * i..2 * i + 2], 16).unwrap();
    }
    out
}

#[test]
fn contract_addresses_follow_ethereum_create() {
    let sender = Address(hex20("6ac7ea33f8831ea9dcc53393aaa88b25a785dbf0"));
    assert_eq!(
        irondag::evm::generate_contract_address(sender, 0).0,
        hex20("cd234a471b72ba2f1ccf0a70fcaba648a5eecd8d")
    );
    assert_eq!(
        irondag::evm::generate_contract_address(sender, 1).0,
        hex20("343c43a37d37dff08ae8c4a11544c718abb4fcf8")
    );
    assert_eq!(
        irondag::evm::generate_contract_address(sender, 2).0,
        hex20("f778b86fa74e846c4f0a1fbd1335fe81c00a0c91")
    );
}
