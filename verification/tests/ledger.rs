use evaporchain_execution::errors::{ContractFault, ExecutionError};
use evaporchain_execution::ledger::{
    check_and_bump_nonce, execute_claim_delegation, execute_create_object, execute_delegate,
    execute_refund, execute_transfer, execute_undelegate, execute_validator_claim_stake,
    execute_validator_exit, execute_validator_stake, object_storage_bytes, Account,
    DelegationTx, RefundTx, StakeRecord, TransferTx, ValidatorStakeTx, ValidatorTx,
    UNBONDING_PERIOD_EPOCHS,
};

fn addr(byte: u8) -> [u8; 32] {
    let mut a = [0u8; 32];
    a[0] = byte;
    a
}

fn account(byte: u8, balance: u64) -> Account {
    Account {
        address: addr(byte),
        balance,
        nonce: 0,
        storage_deposit: 0,
        storage_bytes: 0,
        last_touched_epoch: 0,
    }
}

fn refund(attacker: u8, victim: u8, amount: u64) -> RefundTx {
    RefundTx {
        attacker: addr(attacker),
        victim: addr(victim),
        amount,
        source_block_height: 0,
        source_observation_idx: 0,
        settle_block_height: 1,
    }
}

fn transfer(from: u8, to: u8, amount: u64, nonce: u64) -> TransferTx {
    TransferTx { from: addr(from), to: addr(to), amount, nonce }
}

fn send(sender: &mut Account, receiver: &mut Account, tx: &TransferTx) -> Result<(), ExecutionError> {
    let transferable = sender.balance;
    execute_transfer(sender, receiver, tx, transferable, 1)
}

#[test]
fn test_refund_moves_balance_attacker_to_victim() {
    let mut attacker = account(1, 1000);
    let mut victim = account(2, 100);
    assert_eq!(execute_refund(&mut attacker, &mut victim, &refund(1, 2, 250), 1), Ok(()));
    assert_eq!(attacker.balance, 750);
    assert_eq!(victim.balance, 350);
}

#[test]
fn test_refund_self_refund_rejected() {
    let mut attacker = account(1, 1000);
    let mut victim = account(1, 1000);
    assert_eq!(execute_refund(&mut attacker, &mut victim, &refund(1, 1, 100), 1), Err(ExecutionError::SelfTransfer));
    assert_eq!(attacker.balance, 1000);
}

#[test]
fn test_refund_zero_amount_rejected() {
    let mut attacker = account(1, 1000);
    let mut victim = account(2, 100);
    assert_eq!(execute_refund(&mut attacker, &mut victim, &refund(1, 2, 0), 1), Err(ExecutionError::ZeroAmount));
    assert_eq!(attacker.balance, 1000);
    assert_eq!(victim.balance, 100);
}

#[test]
fn test_refund_insufficient_attacker_balance_rejected() {
    let mut attacker = account(1, 50);
    let mut victim = account(2, 100);
    assert_eq!(
        execute_refund(&mut attacker, &mut victim, &refund(1, 2, 250), 1),
        Err(ExecutionError::InsufficientBalance { account: addr(1), available: 50, required: 250 })
    );
    assert_eq!(attacker.balance, 50);
    assert_eq!(victim.balance, 100);
}

#[test]
fn test_basic_transfer() {
    let mut a = account(1, 1000);
    let mut b = account(2, 0);
    assert_eq!(send(&mut a, &mut b, &transfer(1, 2, 300, 0)), Ok(()));
    assert_eq!(a.balance, 700);
    assert_eq!(a.nonce, 1);
    assert_eq!(b.balance, 300);
}

#[test]
fn test_insufficient_balance() {
    let mut a = account(1, 100);
    let mut b = account(2, 0);
    assert!(matches!(send(&mut a, &mut b, &transfer(1, 2, 500, 0)), Err(ExecutionError::InsufficientBalance { .. })));
    assert_eq!(a.balance, 100);
}

#[test]
fn test_self_transfer_rejected() {
    let mut a = account(1, 1000);
    let mut b = account(1, 1000);
    assert_eq!(send(&mut a, &mut b, &transfer(1, 1, 100, 0)), Err(ExecutionError::SelfTransfer));
}

#[test]
fn test_zero_amount_transfer_rejected() {
    let mut a = account(1, 1000);
    let mut b = account(2, 0);
    assert_eq!(send(&mut a, &mut b, &transfer(1, 2, 0, 0)), Err(ExecutionError::ZeroAmount));
}

#[test]
fn test_invalid_nonce() {
    let mut a = account(1, 1000);
    let mut b = account(2, 0);
    assert_eq!(send(&mut a, &mut b, &transfer(1, 2, 100, 5)), Err(ExecutionError::InvalidNonce { expected: 0, got: 5 }));
}

#[test]
fn test_replay_protection_same_tx_twice() {
    let mut a = account(1, 1000);
    let mut b = account(2, 0);
    let tx = transfer(1, 2, 100, 0);
    assert_eq!(send(&mut a, &mut b, &tx), Ok(()));
    assert_eq!(send(&mut a, &mut b, &tx), Err(ExecutionError::InvalidNonce { expected: 1, got: 0 }));
    assert_eq!(b.balance, 100);
}

#[test]
fn test_sequential_nonces_work() {
    let mut a = account(1, 1000);
    let mut b = account(2, 0);
    for n in 0..5 {
        assert_eq!(send(&mut a, &mut b, &transfer(1, 2, 10, n)), Ok(()));
    }
    assert_eq!(a.nonce, 5);
    assert_eq!(b.balance, 50);
}

#[test]
fn transfers_respect_vesting_and_mint() {
    let mut a = account(1, 1000);
    let mut b = account(2, 0);
    // Only 200 of the 1000 are unlocked.
    assert!(matches!(
        execute_transfer(&mut a, &mut b, &transfer(1, 2, 300, 0), 200, 1),
        Err(ExecutionError::InsufficientBalance { available: 200, .. })
    ));
    let mut minter = Account { address: [0; 32], ..account(0, 1_000_000) };
    let mut c = account(3, 0);
    let mint = TransferTx { from: [0; 32], to: addr(3), amount: 500, nonce: 99 };
    assert_eq!(execute_transfer(&mut minter, &mut c, &mint, 0, 1), Ok(()));
    assert_eq!(minter.nonce, 0);
    assert_eq!(c.balance, 500);
}

fn delegation(amount: u64, nonce: u64) -> DelegationTx {
    DelegationTx { delegator: addr(1), validator_id: 7, amount, nonce }
}

#[test]
fn test_delegate_happy_path() {
    let mut d = account(1, 5_000);
    let rec = execute_delegate(&mut d, &delegation(1_000, 0), 5_000, true, None, 1).unwrap();
    assert_eq!(d.balance, 4_000, "1000 should be debited from delegator");
    assert_eq!(d.nonce, 1);
    assert_eq!(rec.amount, 1_000);
    assert_eq!(rec.unbonding_amount, 0);
    assert!(rec.unbonding_epoch.is_none());
}

#[test]
fn test_delegate_to_unknown_validator_rejected() {
    let mut d = account(1, 5_000);
    let tx = DelegationTx { delegator: addr(1), validator_id: 99, amount: 1_000, nonce: 0 };
    assert_eq!(
        execute_delegate(&mut d, &tx, 5_000, false, None, 1),
        Err(ExecutionError::ContractError(ContractFault::ValidatorHasNoStake { validator_id: 99 }))
    );
    assert_eq!(d.balance, 5_000);
}

#[test]
fn test_delegate_insufficient_balance_rejected() {
    let mut d = account(1, 500);
    assert!(matches!(
        execute_delegate(&mut d, &delegation(1_000, 0), 500, true, None, 1),
        Err(ExecutionError::InsufficientBalance { .. })
    ));
}

#[test]
fn test_delegate_additive() {
    let mut d = account(1, 10_000);
    let first = execute_delegate(&mut d, &delegation(1_000, 0), 10_000, true, None, 1).unwrap();
    let second = execute_delegate(&mut d, &delegation(2_500, 1), 9_000, true, Some(first), 2).unwrap();
    assert_eq!(second.amount, 3_500, "delegations to same validator should be additive");
    assert_eq!(d.balance, 6_500);
}

#[test]
fn test_undelegate_marks_unbonding() {
    let mut d = account(1, 5_000);
    let rec = execute_delegate(&mut d, &delegation(1_000, 0), 5_000, true, None, 1).unwrap();
    let pre_balance = d.balance;
    let rec = execute_undelegate(&mut d, &delegation(600, 1), Some(rec), 5).unwrap();
    assert_eq!(rec.amount, 400, "active amount reduced by 600");
    assert_eq!(rec.unbonding_amount, 600, "600 marked unbonding");
    assert_eq!(rec.unbonding_epoch, Some(5), "epoch recorded");
    assert_eq!(d.balance, pre_balance, "undelegate must not credit balance immediately");
}

#[test]
fn test_undelegate_more_than_delegated_rejected() {
    let mut d = account(1, 5_000);
    let rec = execute_delegate(&mut d, &delegation(1_000, 0), 5_000, true, None, 1).unwrap();
    assert_eq!(
        execute_undelegate(&mut d, &delegation(5_000, 1), Some(rec), 2),
        Err(ExecutionError::ContractError(ContractFault::DelegationTooSmall { delegated: 1_000, requested: 5_000 }))
    );
    assert_eq!(rec.amount, 1_000);
    assert_eq!(rec.unbonding_amount, 0);
}

#[test]
fn test_claim_delegation_after_unbonding_period() {
    let mut d = account(1, 5_000);
    let rec = execute_delegate(&mut d, &delegation(1_000, 0), 5_000, true, None, 1).unwrap();
    let rec = execute_undelegate(&mut d, &delegation(600, 1), Some(rec), 5).unwrap();
    let early = execute_claim_delegation(&mut d, &delegation(0, 2), Some(rec), 5 + UNBONDING_PERIOD_EPOCHS - 1);
    assert!(matches!(early, Err(ExecutionError::ContractError(ContractFault::DelegationUnbonding { .. }))));
    let (claimed, rest) = execute_claim_delegation(&mut d, &delegation(0, 3), Some(rec), 5 + UNBONDING_PERIOD_EPOCHS).unwrap();
    assert_eq!(claimed, 600);
    assert_eq!(d.balance, 4_000 + 600);
    let rest = rest.unwrap();
    assert_eq!(rest.amount, 400);
    assert_eq!(rest.unbonding_amount, 0);
}

#[test]
fn test_claim_delegation_removes_record_when_fully_unbonded() {
    let mut d = account(1, 5_000);
    let rec = execute_delegate(&mut d, &delegation(1_000, 0), 5_000, true, None, 1).unwrap();
    let rec = execute_undelegate(&mut d, &delegation(1_000, 1), Some(rec), 5).unwrap();
    let (claimed, rest) = execute_claim_delegation(&mut d, &delegation(0, 2), Some(rec), 5 + UNBONDING_PERIOD_EPOCHS).unwrap();
    assert_eq!(claimed, 1_000);
    assert!(rest.is_none());
    assert_eq!(d.balance, 5_000);
}

#[test]
fn test_claim_delegation_with_no_unbonding_amount_fails() {
    let mut d = account(1, 5_000);
    let rec = execute_delegate(&mut d, &delegation(1_000, 0), 5_000, true, None, 1).unwrap();
    assert_eq!(
        execute_claim_delegation(&mut d, &delegation(0, 1), Some(rec), 1_000),
        Err(ExecutionError::ContractError(ContractFault::NothingToClaim))
    );
}

#[test]
fn validator_stake_exit_and_claim() {
    let mut v = account(9, 1_000_000);
    let stake_tx = ValidatorStakeTx { validator_address: addr(9), validator_id: 7, stake_amount: 100_000, nonce: 0 };
    let stake = execute_validator_stake(&mut v, &stake_tx, 1_000_000, None, 3).unwrap();
    assert_eq!(stake.staked_amount, 100_000);
    assert_eq!(v.balance, 900_000);
    let exit_tx = ValidatorTx { validator_address: addr(9), validator_id: 7, nonce: 1 };
    let exiting = execute_validator_exit(&mut v, &exit_tx, Some(stake), 10).unwrap();
    assert_eq!(exiting.unbonding_epoch, Some(10 + UNBONDING_PERIOD_EPOCHS));
    let again = ValidatorTx { validator_address: addr(9), validator_id: 7, nonce: 2 };
    assert_eq!(
        execute_validator_exit(&mut v, &again, Some(exiting), 11),
        Err(ExecutionError::ContractError(ContractFault::ValidatorAlreadyExiting))
    );
    let claim = ValidatorTx { validator_address: addr(9), validator_id: 7, nonce: 3 };
    let slashed = StakeRecord { slashed_amount: 1_000, ..exiting };
    let paid = execute_validator_claim_stake(&mut v, &claim, Some(slashed), 10 + UNBONDING_PERIOD_EPOCHS).unwrap();
    assert_eq!(paid, 99_000);
    assert_eq!(v.balance, 999_000);
    let missing = ValidatorTx { validator_address: addr(9), validator_id: 8, nonce: 4 };
    assert_eq!(
        execute_validator_claim_stake(&mut v, &missing, None, 1_000),
        Err(ExecutionError::StakeNotFound { validator_id: 8 })
    );
}

#[test]
fn nonce_bumps() {
    let mut a = account(1, 0);
    assert_eq!(check_and_bump_nonce(&mut a, 0, false, 4), Ok(()));
    assert_eq!(a.nonce, 1);
    assert_eq!(a.last_touched_epoch, 4);
    assert_eq!(check_and_bump_nonce(&mut a, 0, false, 5), Err(ExecutionError::InvalidNonce { expected: 1, got: 0 }));
    let mut b = Account { nonce: u64::MAX, ..account(2, 0) };
    assert_eq!(check_and_bump_nonce(&mut b, u64::MAX, true, 1), Ok(()));
    assert_eq!(b.nonce, u64::MAX);
}

#[test]
fn object_storage_accounting() {
    assert_eq!(object_storage_bytes(5), 102);
    let mut creator = account(1, 10_000);
    let r = execute_create_object(&mut creator, [42; 32], false, 5, 10_000, 1_000, 3);
    assert_eq!(r, Ok(()));
    let again = execute_create_object(&mut creator, [42; 32], true, 5, 9_000, 1_000, 3);
    assert_eq!(again, Err(ExecutionError::ObjectAlreadyExists([42; 32])));
    assert_eq!(creator.balance, 9_000);
    assert_eq!(creator.storage_deposit, 1_000);
    assert_eq!(creator.storage_bytes, 102);
}

#[test]
fn test_full_delegation_lifecycle_roundtrip() {
    let mut d = account(1, 10_000);
    let starting_balance = d.balance;
    let bonded = DelegationTx { delegator: addr(1), validator_id: 7, amount: 3_000, nonce: 0 };
    let transferable = d.balance;
    let rec = execute_delegate(&mut d, &bonded, transferable, true, None, 1).unwrap();
    let unbond = DelegationTx { delegator: addr(1), validator_id: 7, amount: 3_000, nonce: 1 };
    let rec = execute_undelegate(&mut d, &unbond, Some(rec), 5).unwrap();
    let claim = DelegationTx { delegator: addr(1), validator_id: 7, amount: 0, nonce: 2 };
    let (claimed, remaining) = execute_claim_delegation(&mut d, &claim, Some(rec), 261).unwrap();
    assert_eq!(claimed, 3_000);
    assert!(
        d.balance >= starting_balance.saturating_sub(10),
        "claim must restore the bonded amount: started {}, ended {}",
        starting_balance,
        d.balance
    );
    assert!(remaining.is_none(), "fully unbonded + claimed delegation should be removed");
    assert_eq!(d.nonce, 3);
}
