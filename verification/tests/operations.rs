use evaporchain_execution::operations::collect_storage_rent;
use evaporchain_execution::operations::upgrade_signing_message;
use evaporchain_execution::errors::{ContractFault, ExecutionError};
use evaporchain_execution::gas::{estimate_gas, TxKind, GAS_REFUND, GAS_TRANSFER};
use evaporchain_execution::ledger::Account;
use evaporchain_execution::operations::{
    authorize_upgrade, charge_storage_rent, execute_multisig, execute_upgrade_contract,
    execute_user_op, governed_block_gas_limit, MultiSigTx, RentCharge, UpgradeAuth,
    UpgradeContractTx, UserOpTx, GAS_USER_OP,
};

fn addr(byte: u8) -> [u8; 32] {
    let mut a = [0u8; 32];
    a[0] = byte;
    a
}

fn account(byte: u8, balance: u64) -> Account {
    Account {
        address: addr(byte),
        balance,
        nonce: 0,
        storage_deposit: 0,
        storage_bytes: 0,
        last_touched_epoch: 0,
    }
}

fn make_user_op(sender_byte: u8, nonce: u64, paymaster_byte: Option<u8>, paymaster_nonce: Option<u64>, gas_limit: u64) -> UserOpTx {
    UserOpTx {
        sender: addr(sender_byte),
        nonce,
        paymaster: paymaster_byte.map(addr),
        paymaster_nonce,
        call_gas_limit: gas_limit,
    }
}

#[test]
fn test_user_op_paymaster_nonce_required_when_paymaster_set() {
    let mut sender = account(1, 0);
    let mut pm = account(2, 1_000_000);
    let tx = make_user_op(1, 0, Some(2), None, 1000);
    let r = execute_user_op(&mut sender, &mut pm, &tx, 0);
    assert!(matches!(r, Err(ExecutionError::ContractError(_))));
    assert_eq!(r, Err(ExecutionError::ContractError(ContractFault::MissingPaymasterNonce)));
}

#[test]
fn test_user_op_paymaster_nonce_correct_succeeds_and_bumps() {
    let mut sender = account(1, 0);
    let mut pm = account(2, 1_000_000);
    let tx = make_user_op(1, 0, Some(2), Some(0), 1000);
    execute_user_op(&mut sender, &mut pm, &tx, 0).expect("first exec");
    assert_eq!(pm.nonce, 1, "paymaster nonce should bump from 0 to 1 after successful sponsorship");
    assert!(pm.balance < 1_000_000, "paymaster balance should be debited");
    assert_eq!(pm.balance, 1_000_000 - 1000 - GAS_USER_OP);
}

#[test]
fn test_user_op_paymaster_replay_blocked() {
    let mut sender = account(1, 0);
    let mut pm = account(2, 1_000_000);
    let tx = make_user_op(1, 0, Some(2), Some(0), 1000);
    execute_user_op(&mut sender, &mut pm, &tx, 0).expect("first exec");
    let r = execute_user_op(&mut sender, &mut pm, &tx, 0);
    assert!(matches!(r, Err(ExecutionError::InvalidNonce { .. })));
    sender.nonce = 1;
    let replay = make_user_op(1, 1, Some(2), Some(0), 1000);
    let r = execute_user_op(&mut sender, &mut pm, &replay, 0);
    assert!(matches!(r, Err(ExecutionError::InvalidNonce { .. })), "paymaster nonce check should reject replayed sponsorship");
}

#[test]
fn user_op_paymaster_shortfall_and_self_sponsorship() {
    let mut sender = account(1, 0);
    let mut pm = account(2, 10);
    let r = execute_user_op(&mut sender, &mut pm, &make_user_op(1, 0, Some(2), Some(0), 1000), 4);
    assert_eq!(r, Err(ExecutionError::InsufficientGas { account: addr(2), available: 10, required: 1000 + GAS_USER_OP }));
    assert_eq!(sender.nonce, 1, "the sender's nonce bump stands");
    assert_eq!(pm.balance, 10);

    let mut own = account(3, 100_000);
    let mut unused = account(9, 0);
    let r = execute_user_op(&mut own, &mut unused, &make_user_op(3, 0, Some(3), Some(1), 500), 4);
    assert_eq!(r, Ok(()));
    assert_eq!(own.nonce, 2);
    assert_eq!(own.balance, 100_000 - 500 - GAS_USER_OP);
    assert_eq!(unused.balance, 0);
}

#[test]
fn refund_tx_charges_gas_refund_not_gas_transfer() {
    let cost = estimate_gas(&TxKind::Refund);
    assert_eq!(cost, GAS_REFUND, "refund tx must charge GAS_REFUND ({}), not GAS_TRANSFER ({})", GAS_REFUND, GAS_TRANSFER);
}

fn multisig(threshold: u8, signers: Vec<u8>, sigs: Vec<u8>, nonce: u64) -> MultiSigTx {
    MultiSigTx {
        multisig_address: addr(50),
        signers: signers.into_iter().map(addr).collect(),
        threshold,
        signature_signers: sigs.into_iter().map(addr).collect(),
        nonce,
    }
}

#[test]
fn multisig_rules() {
    let mut acct = account(50, 0);
    assert_eq!(
        execute_multisig(&mut acct, &multisig(2, vec![1, 2, 3], vec![1], 0), 1),
        Err(ExecutionError::ContractError(ContractFault::MultisigBelowThreshold { threshold: 2, signatures: 1 }))
    );
    assert_eq!(
        execute_multisig(&mut acct, &multisig(2, vec![1, 2, 3], vec![1, 1], 0), 1),
        Err(ExecutionError::ContractError(ContractFault::MultisigDuplicateSigner))
    );
    assert_eq!(
        execute_multisig(&mut acct, &multisig(2, vec![1, 2, 3], vec![4, 1], 0), 1),
        Err(ExecutionError::ContractError(ContractFault::MultisigUnauthorizedSigner))
    );
    assert_eq!(
        execute_multisig(&mut acct, &multisig(2, vec![1, 2, 3], vec![1, 2], 7), 1),
        Err(ExecutionError::InvalidNonce { expected: 0, got: 7 })
    );
    assert_eq!(execute_multisig(&mut acct, &multisig(2, vec![1, 2, 3], vec![3, 1], 0), 6), Ok(()));
    assert_eq!(acct.nonce, 1);
    assert_eq!(acct.last_touched_epoch, 6);
    // The signature count is read as a u8: 256 signatures count as 0.
    let many: Vec<u8> = (0..=255u8).collect();
    let mut acct2 = account(50, 0);
    assert!(matches!(
        execute_multisig(&mut acct2, &multisig(1, many.clone(), many, 0), 1),
        Err(ExecutionError::ContractError(ContractFault::MultisigBelowThreshold { threshold: 1, signatures: 256 }))
    ));
}

const COUNTER_SCRIPT_V2: &str = "contract Counter { state { total: u64 = 0 version: u64 = 2 } }";

fn build_upgrade_tx(owner: [u8; 32], contract_id: u64, new_source: &str, nonce: u64, admin_pk: Option<Vec<u8>>, endorser_stakes: Vec<u64>, required_stake: u64) -> UpgradeContractTx {
    let new_bytecode = new_source.as_bytes().to_vec();
    let new_bytecode_hash: [u8; 32] = *blake3::hash(&new_bytecode).as_bytes();
    let admin_signature = admin_pk.as_ref().map(|_| vec![0xAB; 64]);
    UpgradeContractTx {
        owner,
        contract_id,
        new_bytecode,
        new_bytecode_hash,
        nonce,
        admin_signature,
        admin_public_key: admin_pk,
        endorser_stakes,
        required_stake,
    }
}

#[test]
fn upgrade_contract_admin_path_ok() {
    let pk = vec![7u8; 1952];
    let admin_addr: [u8; 32] = *blake3::hash(&pk).as_bytes();
    let mut owner = Account { address: admin_addr, ..account(0, 1_000_000) };
    let tx = build_upgrade_tx(admin_addr, 1, COUNTER_SCRIPT_V2, 0, Some(pk), vec![], 0);
    let auth = execute_upgrade_contract(&mut owner, &tx, Some(Some(admin_addr)), true, 2).unwrap();
    assert_eq!(auth, UpgradeAuth::Admin(admin_addr));
    assert_eq!(owner.nonce, 1);
}

#[test]
fn upgrade_contract_admin_signature_invalid_rejects() {
    let admin_pk = vec![7u8; 1952];
    let admin_addr: [u8; 32] = *blake3::hash(&admin_pk).as_bytes();
    let attacker_pk = vec![8u8; 1952];
    let mut owner = Account { address: admin_addr, ..account(0, 1_000_000) };
    let tx = build_upgrade_tx(admin_addr, 1, COUNTER_SCRIPT_V2, 0, Some(attacker_pk), vec![], 0);
    let err = execute_upgrade_contract(&mut owner, &tx, Some(Some(admin_addr)), true, 2).unwrap_err();
    assert_eq!(err, ExecutionError::ContractError(ContractFault::UpgradeAdminKeyMismatch { admin: admin_addr }));
    let mut owner2 = Account { address: admin_addr, ..account(0, 1_000_000) };
    let tx2 = build_upgrade_tx(admin_addr, 1, COUNTER_SCRIPT_V2, 0, Some(admin_pk), vec![], 0);
    let err = execute_upgrade_contract(&mut owner2, &tx2, Some(Some(admin_addr)), false, 2).unwrap_err();
    assert_eq!(err, ExecutionError::ContractError(ContractFault::UpgradeBadAdminSignature));
}

#[test]
fn upgrade_contract_governance_path_ok_with_quorum() {
    let mut owner = account(1, 1_000_000);
    let tx = build_upgrade_tx(addr(1), 1, COUNTER_SCRIPT_V2, 0, None, vec![1000, 500], 1500);
    let auth = execute_upgrade_contract(&mut owner, &tx, Some(Some(addr(1))), false, 2)
        .expect("governance-path upgrade must succeed when quorum met");
    assert_eq!(auth, UpgradeAuth::Governance);
}

#[test]
fn upgrade_contract_governance_path_below_quorum_rejects() {
    let mut owner = account(1, 1_000_000);
    let tx = build_upgrade_tx(addr(1), 1, COUNTER_SCRIPT_V2, 0, None, vec![1000, 499], 1500);
    let err = execute_upgrade_contract(&mut owner, &tx, Some(Some(addr(1))), false, 2)
        .expect_err("below-quorum governance upgrade must be rejected");
    assert_eq!(err, ExecutionError::ContractError(ContractFault::UpgradeQuorumNotMet { total: 1499, required: 1500 }));
}

#[test]
fn upgrade_contract_bytecode_hash_mismatch_rejects() {
    let mut owner = account(1, 1_000_000);
    let mut tx = build_upgrade_tx(addr(1), 1, COUNTER_SCRIPT_V2, 0, None, vec![2000], 1000);
    tx.new_bytecode_hash[0] ^= 0xFF;
    let supplied = tx.new_bytecode_hash;
    let err = execute_upgrade_contract(&mut owner, &tx, Some(Some(addr(1))), false, 2)
        .expect_err("bytecode hash mismatch must be rejected");
    assert_eq!(err, ExecutionError::ContractError(ContractFault::UpgradeHashMismatch { supplied }));
    assert_eq!(owner.nonce, 1, "the nonce bump stands");
}

#[test]
fn upgrade_contract_immutable_when_admin_none_rejects() {
    let pk = vec![7u8; 1952];
    let mut owner = account(1, 1_000_000);
    let tx = build_upgrade_tx(addr(1), 5, COUNTER_SCRIPT_V2, 0, Some(pk), vec![], 0);
    let err = execute_upgrade_contract(&mut owner, &tx, Some(None), true, 2).unwrap_err();
    assert_eq!(err, ExecutionError::ContractError(ContractFault::UpgradeContractFrozen { contract_id: 5 }));
    let gov = build_upgrade_tx(addr(1), 5, COUNTER_SCRIPT_V2, 1, None, vec![10], 5);
    assert_eq!(execute_upgrade_contract(&mut owner, &gov, Some(None), false, 2), Ok(UpgradeAuth::Governance));
}

#[test]
fn upgrade_authorization_edge_cases() {
    let tx = build_upgrade_tx(addr(1), 3, COUNTER_SCRIPT_V2, 0, None, vec![u64::MAX, 5], 0);
    let digest = tx.new_bytecode_hash;
    assert_eq!(authorize_upgrade(&tx, digest, None, None, false), Err(ContractFault::UpgradeContractNotFound { contract_id: 3 }));
    assert_eq!(authorize_upgrade(&tx, digest, Some(None), None, false), Err(ContractFault::UpgradeZeroQuorum));
    let mut signed = build_upgrade_tx(addr(1), 3, COUNTER_SCRIPT_V2, 0, None, vec![], 0);
    signed.admin_signature = Some(vec![1]);
    assert_eq!(authorize_upgrade(&signed, digest, Some(Some(addr(1))), None, true), Err(ContractFault::UpgradeMissingAdminKey));
    let mut owner = account(1, 0);
    let stale = build_upgrade_tx(addr(1), 3, COUNTER_SCRIPT_V2, 4, None, vec![5], 1);
    assert_eq!(
        execute_upgrade_contract(&mut owner, &stale, Some(None), false, 2),
        Err(ExecutionError::InvalidNonce { expected: 0, got: 4 })
    );
}

#[test]
fn storage_rent_charges_and_exhausts() {
    let mut idle = account(1, 500);
    assert_eq!(charge_storage_rent(&mut idle, 3), RentCharge { debited: 0, exhausted: false });
    assert_eq!(idle.balance, 500);
    let mut payer = Account { storage_bytes: 100, storage_deposit: 1_000, ..account(2, 500) };
    assert_eq!(charge_storage_rent(&mut payer, 3), RentCharge { debited: 300, exhausted: false });
    assert_eq!(payer.balance, 200);
    assert_eq!(charge_storage_rent(&mut payer, 3), RentCharge { debited: 200, exhausted: true });
    assert_eq!(payer.balance, 0);
    assert_eq!(payer.storage_bytes, 0);
    assert_eq!(payer.storage_deposit, 0);
    let mut huge = Account { storage_bytes: u64::MAX, ..account(3, u64::MAX) };
    assert_eq!(charge_storage_rent(&mut huge, 2), RentCharge { debited: u64::MAX, exhausted: false });
}

#[test]
fn governed_gas_limit_parses_the_parameter() {
    assert_eq!(governed_block_gas_limit(500_000, None), 500_000);
    assert_eq!(governed_block_gas_limit(500_000, Some("750000")), 750_000);
    assert_eq!(governed_block_gas_limit(500_000, Some("+12")), 12);
    assert_eq!(governed_block_gas_limit(500_000, Some("-1")), 500_000);
    assert_eq!(governed_block_gas_limit(500_000, Some("18446744073709551616")), 500_000);
}

#[test]
fn storage_rent_sweep_moves_value_to_the_pool() {
    let mut accounts = vec![
        Account { address: [1; 32], balance: 1_000, nonce: 0, storage_deposit: 10, storage_bytes: 100, last_touched_epoch: 0 },
        Account { address: [2; 32], balance: 500, nonce: 0, storage_deposit: 0, storage_bytes: 0, last_touched_epoch: 0 },
        Account { address: [3; 32], balance: 50, nonce: 0, storage_deposit: 7, storage_bytes: 100, last_touched_epoch: 0 },
    ];
    let before: u64 = accounts.iter().map(|a| a.balance).sum();
    let charges = collect_storage_rent(&mut accounts, 3);
    assert_eq!(
        charges,
        vec![
            (0, RentCharge { debited: 300, exhausted: false }),
            (2, RentCharge { debited: 50, exhausted: true }),
        ]
    );
    let after: u64 = accounts.iter().map(|a| a.balance).sum();
    let pool: u64 = charges.iter().map(|(_, c)| c.debited).sum();
    assert_eq!(after + pool, before);
    assert_eq!(accounts[1].balance, 500);
    assert_eq!((accounts[2].balance, accounts[2].storage_deposit, accounts[2].storage_bytes), (0, 0, 0));
}

#[test]
fn upgrade_signing_message_is_the_canonical_payload() {
    let mut hash = [0u8; 32];
    for (i, b) in hash.iter_mut().enumerate() {
        *b = (i as u8).wrapping_mul(37).wrapping_add(5);
    }
    let m = upgrade_signing_message(42, &hash, 7);
    let expected = format!(
        "{{\"type\":\"upgrade_contract\",\"contract_id\":{},\"new_bytecode_hash_hex\":\"{}\",\"nonce\":{}}}",
        42,
        hex::encode(hash),
        7
    );
    assert_eq!(m, expected.into_bytes());
    let big = upgrade_signing_message(u64::MAX, &[0xff; 32], 0);
    let expected = format!(
        "{{\"type\":\"upgrade_contract\",\"contract_id\":{},\"new_bytecode_hash_hex\":\"{}\",\"nonce\":0}}",
        u64::MAX,
        "ff".repeat(32)
    );
    assert_eq!(big, expected.into_bytes());
}
