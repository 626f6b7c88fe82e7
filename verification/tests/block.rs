use evaporchain_execution::block::{
    check_blob, check_tx_signature, credit_deferred_refund, evaluate_conservation_gate,
    enforcement_requested, mera_commitment, plan_end_of_block, producer_address,
    rotate_validator_key, BlockRun, EndOfBlock, GasBound, RotateKeyTx, TxFailure, MAX_BLOB_SIZE,
};
use evaporchain_execution::errors::{ContractFault, ExecutionError};
use evaporchain_execution::gas::{estimate_gas, TxKind, GAS_TRANSFER};
use evaporchain_execution::ledger::{execute_transfer, Account, TransferTx};

fn account(byte: u8, balance: u64) -> Account {
    Account {
        address: [byte; 32],
        balance,
        nonce: 0,
        storage_deposit: 0,
        storage_bytes: 0,
        last_touched_epoch: 0,
    }
}

fn transfer(from: u8, to: u8, amount: u64, nonce: u64) -> TransferTx {
    TransferTx { from: [from; 32], to: [to; 32], amount, nonce }
}

/// Run one transfer through the block bookkeeping the way the executor does,
/// with a fee of one unit per gas when `fees` is on.
fn run_transfer(run: &mut BlockRun, sender: &mut Account, receiver: &mut Account, tx: &TransferTx, fees: bool, epoch: u64) {
    let gas = estimate_gas(&TxKind::Transfer);
    let fee = if fees { Some(gas) } else { None };
    let mut slot = Some(*sender);
    let hash = [tx.nonce as u8; 32];
    if let Some(adm) = run.begin_tx(hash, Ok(()), gas, fee, &mut slot, epoch) {
        let mut s = slot.unwrap();
        let transferable = s.balance;
        let mut r = *receiver;
        let result = execute_transfer(&mut s, &mut r, tx, transferable, epoch);
        let mut after = Some(s);
        run.finish_tx(adm, result, &mut after);
        *sender = after.unwrap();
        if result.is_ok() {
            *receiver = r;
        }
    } else {
        *sender = slot.unwrap();
    }
}

#[derive(Debug, PartialEq)]
enum Violation {
    RedirectChangedTotal { before: u64, after: u64 },
}

#[test]
fn the_press_claim_lives_as_a_test() {
    // (a) Honest verdict — both modes pass.
    let ok = evaluate_conservation_gate::<Violation>(Ok(()), false).unwrap();
    assert!(ok.is_ok());
    let ok2 = evaluate_conservation_gate::<Violation>(Ok(()), true).unwrap();
    assert!(ok2.is_ok());

    // (b) Violation in observe mode — returns Ok(Err(v)).
    let observe = evaluate_conservation_gate(
        Err(Violation::RedirectChangedTotal { before: 100, after: 90 }),
        false,
    )
    .unwrap();
    assert!(matches!(observe, Err(Violation::RedirectChangedTotal { .. })));

    // (c) Violation in enforce mode — the block is rejected.
    let enforce_err = evaluate_conservation_gate(
        Err(Violation::RedirectChangedTotal { before: 100, after: 90 }),
        true,
    )
    .unwrap_err();
    assert!(matches!(enforce_err, Violation::RedirectChangedTotal { .. }));
}

#[test]
fn enforcement_flag_is_the_exact_word() {
    assert!(enforcement_requested(Some("enforce")));
    assert!(!enforcement_requested(Some("observe")));
    assert!(!enforcement_requested(Some("Enforce")));
    assert!(!enforcement_requested(None));
}

#[test]
fn test_insufficient_balance_for_gas_rejected() {
    let mut run = BlockRun::new(GasBound::Limit(500_000));
    let mut sender = account(1, 10);
    let mut receiver = account(2, 0);
    run_transfer(&mut run, &mut sender, &mut receiver, &transfer(1, 2, 5, 0), true, 1);
    assert_eq!(run.txs_executed, 0);
    assert_eq!(run.txs_failed, 1);
    assert_eq!(sender.balance, 10);
    assert_eq!(
        run.outcomes[0].error,
        Some(TxFailure::InsufficientGasBalance { available: 10, required: GAS_TRANSFER })
    );
}

#[test]
fn test_fee_burned_even_on_tx_failure() {
    let mut run = BlockRun::new(GasBound::Limit(500_000));
    let mut sender = account(1, 50_000);
    let mut receiver = account(2, 0);
    run_transfer(&mut run, &mut sender, &mut receiver, &transfer(1, 2, 999_999, 0), true, 1);
    assert_eq!(run.txs_executed, 0);
    assert_eq!(run.txs_failed, 1);
    assert!(run.total_fees > 0, "Fee should still be burned on failure");
    assert!(sender.balance < 50_000);
}

#[test]
fn test_revert_on_failed_tx_keeps_fee() {
    let mut run = BlockRun::new(GasBound::Limit(500_000));
    let mut sender = account(1, 100_000);
    let mut receiver = account(2, 0);
    run_transfer(&mut run, &mut sender, &mut receiver, &transfer(1, 2, 999_999, 0), true, 1);
    assert_eq!(run.txs_executed, 0);
    assert_eq!(run.txs_failed, 1);
    assert_eq!(sender.balance, 100_000 - 21_000);
    assert_eq!(sender.nonce, 0, "Nonce should be reverted on failed tx");
    assert_eq!(receiver.balance, 0);
    assert_eq!(run.outcomes[0].gas_used, GAS_TRANSFER);
    assert_eq!(run.gas_used, 0);
}

#[test]
fn stress_block_gas_limit_enforcement() {
    let mut run = BlockRun::new(GasBound::Limit(100_000));
    let mut sender = account(1, 10_000_000);
    let mut receiver = account(2, 0);
    for i in 0..100u64 {
        run_transfer(&mut run, &mut sender, &mut receiver, &transfer(1, 2, 1, i), true, 1);
    }
    assert!(run.txs_executed < 100, "Gas limit should cap execution");
    assert_eq!(run.txs_executed, 4);
    assert_eq!(run.txs_failed, 96);
    assert!(run.gas_used <= 100_000);
    assert_eq!(
        run.outcomes[4].error,
        Some(TxFailure::BlockGasLimit { used: 84_000, tx_gas: GAS_TRANSFER, limit: 100_000 })
    );
}

#[test]
fn unlimited_limit_and_budgets() {
    let mut run = BlockRun::new(GasBound::Limit(0));
    let mut sender = account(1, 1_000);
    let mut receiver = account(2, 0);
    for i in 0..10u64 {
        run_transfer(&mut run, &mut sender, &mut receiver, &transfer(1, 2, 1, i), false, 3);
    }
    assert_eq!(run.txs_executed, 10);
    assert_eq!(run.gas_used, 10 * GAS_TRANSFER);
    assert_eq!(receiver.balance, 10);
    assert_eq!(receiver.last_touched_epoch, 3);

    let mut part = BlockRun::new(GasBound::Budget(50_000));
    let mut sender = account(1, 1_000);
    let mut receiver = account(2, 0);
    for i in 0..3u64 {
        run_transfer(&mut part, &mut sender, &mut receiver, &transfer(1, 2, 1, i), false, 3);
    }
    assert_eq!(part.txs_executed, 2);
    assert_eq!(part.outcomes[2].error, Some(TxFailure::GasBudgetExhausted));
}

#[test]
fn signature_refusals_are_recorded_without_gas() {
    let mut run = BlockRun::new(GasBound::Limit(0));
    let mut slot = Some(account(1, 100));
    let r = run.begin_tx([7; 32], Err(ExecutionError::InvalidSignature), 21_000, None, &mut slot, 1);
    assert!(r.is_none());
    assert_eq!(run.txs_failed, 1);
    assert_eq!(run.outcomes[0].gas_used, 0);
    assert!(!run.outcomes[0].success);
    assert_eq!(run.outcomes[0].error, Some(TxFailure::Signature(ExecutionError::InvalidSignature)));
}

#[test]
fn signature_verdicts() {
    assert_eq!(check_tx_signature(false, false, false, false, false), Ok(()));
    assert_eq!(check_tx_signature(true, true, false, false, false), Ok(()));
    assert_eq!(check_tx_signature(true, false, false, true, true), Err(ExecutionError::MissingSignature));
    assert_eq!(check_tx_signature(true, false, true, false, true), Err(ExecutionError::MissingSignature));
    assert_eq!(check_tx_signature(true, false, true, true, false), Err(ExecutionError::InvalidSignature));
    assert_eq!(check_tx_signature(true, false, true, true, true), Ok(()));
}

#[test]
fn blob_rules() {
    assert_eq!(check_blob(&[], 1), Err(ExecutionError::ContractError(ContractFault::EmptyBlob)));
    let big = vec![0u8; MAX_BLOB_SIZE + 1];
    assert_eq!(
        check_blob(&big, 1),
        Err(ExecutionError::ContractError(ContractFault::BlobTooLarge { size: MAX_BLOB_SIZE + 1, limit: MAX_BLOB_SIZE }))
    );
    assert_eq!(check_blob(&[1, 2], 0), Err(ExecutionError::ContractError(ContractFault::ReservedNamespace)));
    assert_eq!(check_blob(&[1, 2], 5), Ok(()));
}

fn rotation(effective_epoch: u64, key_len: usize, nonce: u64) -> RotateKeyTx {
    RotateKeyTx {
        validator_id: 4,
        validator_address: [4; 32],
        new_bls_public_key: vec![1; key_len],
        bls_pop_old: vec![2; 96],
        bls_pop_new: vec![3; 96],
        effective_epoch,
        nonce,
    }
}

#[test]
fn key_rotation_checks_in_order() {
    let mut acct = Some(account(4, 0));
    let past = rotate_validator_key(&rotation(9, 48, 0), 10, Some([4; 32]), &mut acct, true);
    assert!(matches!(past, Err(ExecutionError::ContractError(ContractFault::RotationInPast { effective_epoch: 9, current: 10 }))));
    let short = rotate_validator_key(&rotation(10, 47, 0), 10, Some([4; 32]), &mut acct, true);
    assert!(matches!(short, Err(ExecutionError::ContractError(ContractFault::RotationBadKeyLength { len: 47 }))));
    let unstaked = rotate_validator_key(&rotation(10, 48, 0), 10, None, &mut acct, true);
    assert!(matches!(unstaked, Err(ExecutionError::ContractError(ContractFault::RotationNoStake { validator_id: 4 }))));
    let other = rotate_validator_key(&rotation(10, 48, 0), 10, Some([5; 32]), &mut acct, true);
    assert!(matches!(other, Err(ExecutionError::ContractError(ContractFault::RotationAddressMismatch { validator_id: 4 }))));
    let nonce = rotate_validator_key(&rotation(10, 48, 3), 10, Some([4; 32]), &mut acct, true);
    assert!(matches!(nonce, Err(ExecutionError::ContractError(ContractFault::RotationNonceMismatch { expected: 0, got: 3 }))));
    let pop = rotate_validator_key(&rotation(10, 48, 0), 10, Some([4; 32]), &mut acct, false);
    assert!(matches!(pop, Err(ExecutionError::ContractError(ContractFault::RotationBadProofOfPossession))));
    assert_eq!(acct.unwrap().nonce, 0);
    let ok = rotate_validator_key(&rotation(12, 48, 0), 10, Some([4; 32]), &mut acct, true).unwrap();
    assert_eq!(ok.prev_key_expiry_epoch, 20);
    assert_eq!(ok.new_bls_public_key, vec![1; 48]);
    assert_eq!(ok.new_bls_pop, vec![3; 96]);
    assert_eq!(acct.unwrap().nonce, 1);
    assert_eq!(acct.unwrap().last_touched_epoch, 10);
    let far = rotate_validator_key(&rotation(u64::MAX, 48, 1), 10, Some([4; 32]), &mut acct, true).unwrap();
    assert_eq!(far.prev_key_expiry_epoch, u64::MAX);
}

#[test]
fn end_of_block_plan() {
    assert_eq!(
        plan_end_of_block(300, 5, 4, 10),
        EndOfBlock { distribute_staker_rewards: true, collect_rent: true, prune_snapshots_before: Some(44) }
    );
    assert_eq!(
        plan_end_of_block(256, 4, 4, 0),
        EndOfBlock { distribute_staker_rewards: false, collect_rent: false, prune_snapshots_before: None }
    );
    assert_eq!(
        plan_end_of_block(257, 4, 4, 10),
        EndOfBlock { distribute_staker_rewards: false, collect_rent: false, prune_snapshots_before: Some(1) }
    );
}

#[test]
fn producer_addresses() {
    assert_eq!(producer_address(None, Some([9; 32])), [0; 32]);
    assert_eq!(producer_address(Some(7), Some([9; 32])), [9; 32]);
    let mut expected = [0u8; 32];
    expected[..8].copy_from_slice(&0x0102_0304_0506_0708u64.to_le_bytes());
    assert_eq!(producer_address(Some(0x0102_0304_0506_0708), None), expected);
}

#[test]
fn deferred_refund_saturates() {
    let mut a = account(1, u64::MAX - 1);
    credit_deferred_refund(&mut a, 5, 9);
    assert_eq!(a.balance, u64::MAX);
    assert_eq!(a.last_touched_epoch, 9);
}

#[test]
fn mera_commitment_of_empty_state_is_none() {
    assert_eq!(mera_commitment([0; 32]), None);
    let mut root = [0u8; 32];
    root[31] = 1;
    assert_eq!(mera_commitment(root), Some(root));
}

#[test]
fn stress_1000_transfers_single_block() {
    let mut accounts: Vec<Account> = (1..=100u8).map(|i| account(i, 1_000_000)).collect();
    let mut nonces = vec![0u64; 101];
    let mut run = BlockRun::new(GasBound::Limit(0));
    for i in 0..1000u32 {
        let from_idx = (i % 100) as u8 + 1;
        let to_idx = ((i + 37) % 100) as u8 + 1;
        if from_idx == to_idx {
            continue;
        }
        let tx = transfer(from_idx, to_idx, 10, nonces[from_idx as usize]);
        nonces[from_idx as usize] += 1;
        let mut sender = accounts[from_idx as usize - 1];
        let mut receiver = accounts[to_idx as usize - 1];
        run_transfer(&mut run, &mut sender, &mut receiver, &tx, false, 1);
        accounts[from_idx as usize - 1] = sender;
        accounts[to_idx as usize - 1] = receiver;
    }
    assert!(run.txs_executed > 900, "Expected >900 txs executed, got {}", run.txs_executed);
    assert_eq!(run.txs_executed + run.txs_failed, 1000);
    let total: u64 = accounts.iter().map(|a| a.balance).sum();
    assert_eq!(total, 100 * 1_000_000, "transfers move value without creating or destroying it");
}
