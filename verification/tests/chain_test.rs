use merkle_accumulator::accounts::{Account, AccountData, Config};
use merkle_accumulator::chain::{
    AccountAddress, BlockState, KeyRotationCapabilityResource, MockChainStateService,
};
use merkle_accumulator::error::AccumulatorError;

fn addr(fill: u8) -> AccountAddress {
    AccountAddress::new([fill; 16])
}

#[test]
fn test_block_state() {
    assert_eq!(BlockState::Executed, BlockState::Executed);
    assert_ne!(BlockState::Executed, BlockState::Verified);
}

#[test]
fn test_key_rotation_capability_address() {
    let a = addr(3);
    let resource = KeyRotationCapabilityResource::new(a);
    assert_eq!(*resource.account_address(), a);
    assert_eq!(resource.account_address().to_bytes(), [3u8; 16]);
}

#[test]
fn test_mock_chain_state_service() {
    let service = MockChainStateService::new();
    let _cloned = service.clone();
}

#[test]
fn test_get_account_for_name() {
    let alice = AccountData {
        account: Account { addr: addr(1) },
        balance: 1_000_000,
        sequence_number: 0,
    };
    let genesis = Account { addr: addr(9) };
    let config = Config {
        accounts: vec![("alice".to_string(), alice)],
        genesis_accounts: vec![("association".to_string(), genesis)],
        validator_accounts: 0,
    };

    let found = config.get_account_for_name("alice").unwrap();
    assert_eq!(found.addr.to_bytes(), [1u8; 16]);

    let fallback = config.get_account_for_name("association").unwrap();
    assert_eq!(fallback.addr.to_bytes(), [9u8; 16]);

    assert_eq!(
        config.get_account_for_name("bob").err(),
        Some(AccumulatorError::NotFound)
    );
}
